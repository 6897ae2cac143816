//! Activity over time windows of the day-bucket history: per-day totals,
//! this-window-versus-previous comparisons, and surging hosts.
use vstd::prelude::*;
use crate::project::{anchor_ok, dates_ok, day_number, range_days, resolve_end, spec_day_number, spec_resolve_end, TimeRange};
use crate::rollup::{DayBucket, NodeStat};
use crate::text::lex_lt;
use crate::sorting::{is_index_perm, is_stable_sort, key_lt, sort_by_keys, KeyView, RankKey};

verus! {

/// Total visits of a bucket's node entries.
pub open spec fn node_visits(ns: Seq<(String, NodeStat)>) -> int
    decreases ns.len(),
{
    if ns.len() == 0 {
        0
    } else {
        node_visits(ns.drop_last()) + ns.last().1.visits
    }
}

proof fn lemma_node_visits_prefix(ns: Seq<(String, NodeStat)>, n: int)
    requires
        0 <= n <= ns.len(),
    ensures
        0 <= node_visits(ns.take(n)) <= node_visits(ns),
    decreases ns.len() - n,
{
    lemma_node_visits_nonneg(ns.take(n));
    if n < ns.len() {
        lemma_node_visits_prefix(ns, n + 1);
        assert(ns.take(n + 1).drop_last() =~= ns.take(n));
    } else {
        assert(ns.take(n) =~= ns);
    }
}

proof fn lemma_node_visits_nonneg(ns: Seq<(String, NodeStat)>)
    ensures
        node_visits(ns) >= 0,
    decreases ns.len(),
{
    if ns.len() > 0 {
        lemma_node_visits_nonneg(ns.drop_last());
    }
}

/// Total visits of a bucket.
fn bucket_visits(b: &DayBucket) -> (r: u32)
    requires
        node_visits(b.nodes@) <= u32::MAX,
    ensures
        r == node_visits(b.nodes@),
{
    let mut sum: u32 = 0;
    let mut i: usize = 0;
    while i < b.nodes.len()
        invariant
            i <= b.nodes@.len(),
            node_visits(b.nodes@) <= u32::MAX,
            sum == node_visits(b.nodes@.take(i as int)),
        decreases b.nodes.len() - i,
    {
        proof {
            assert(b.nodes@.take(i + 1).drop_last() =~= b.nodes@.take(i as int));
            lemma_node_visits_prefix(b.nodes@, i + 1);
        }
        sum = sum + b.nodes[i].1.visits;
        i += 1;
    }
    proof {
        assert(b.nodes@.take(i as int) =~= b.nodes@);
    }
    sum
}

/// `(day, date, visits)` of each bucket whose date parses to a day in
/// `[lo, hi]`, in bucket order.
pub open spec fn day_points(bs: Seq<DayBucket>, lo: int, hi: int) -> Seq<(int, Seq<char>, int)>
    decreases bs.len(),
{
    if bs.len() == 0 {
        Seq::empty()
    } else {
        let prev = day_points(bs.drop_last(), lo, hi);
        match spec_day_number(bs.last().date@) {
            Some(d) => if lo <= d <= hi {
                prev.push((d, bs.last().date@, node_visits(bs.last().nodes@)))
            } else {
                prev
            },
            None => prev,
        }
    }
}

/// Points order by day only.
pub open spec fn point_key(x: (int, Seq<char>, int)) -> KeyView {
    (x.0, Seq::empty(), Seq::empty())
}

/// `q` is `pts` stably sorted by day.
pub open spec fn by_day(q: Seq<(int, Seq<char>, int)>, pts: Seq<(int, Seq<char>, int)>) -> bool {
    is_stable_sort(q, pts, |x: (int, Seq<char>, int)| point_key(x))
}

/// `r` lists the dates and totals of `pts` stably sorted by day.
pub open spec fn series_of(r: Seq<(String, u32)>, pts: Seq<(int, Seq<char>, int)>) -> bool {
    exists|q: Seq<(int, Seq<char>, int)>|
        #[trigger] by_day(q, pts) && r.len() == q.len()
            && forall|i: int| 0 <= i < r.len() ==> (#[trigger] r[i]).0@ == q[i].1 && r[i].1 == q[i].2
}

pub open spec fn point_view(x: (i64, String, u32)) -> (int, Seq<char>, int) {
    (x.0 as int, x.1@, x.2 as int)
}

pub open spec fn points_view(s: Seq<(i64, String, u32)>) -> Seq<(int, Seq<char>, int)> {
    s.map_values(|x: (i64, String, u32)| point_view(x))
}

proof fn lemma_sort_view(r: Seq<(i64, String, u32)>, s: Seq<(i64, String, u32)>)
    requires
        is_stable_sort(r, s, |x: (i64, String, u32)| point_key(point_view(x))),
    ensures
        is_stable_sort(points_view(r), points_view(s), |x: (int, Seq<char>, int)| point_key(x)),
{
    let k1 = |x: (i64, String, u32)| point_key(point_view(x));
    let k2 = |x: (int, Seq<char>, int)| point_key(x);
    let p = choose|p: Seq<usize>|
        #![trigger is_index_perm(p, s.len())]
        is_index_perm(p, s.len()) && r.len() == s.len() && (forall|i: int|
            0 <= i < r.len() ==> #[trigger] r[i] == s[p[i] as int]) && (forall|i: int, j: int|
            0 <= i < j < r.len() ==> !key_lt(k1(#[trigger] r[j]), k1(#[trigger] r[i]))) && (
        forall|i: int, j: int|
            0 <= i < j < r.len() && k1(#[trigger] r[i]) == k1(#[trigger] r[j]) ==> p[i] < p[j]);
    let rv = points_view(r);
    let sv = points_view(s);
    assert forall|i: int| 0 <= i < rv.len() implies #[trigger] rv[i] == sv[p[i] as int] by {
        assert(r[i] == s[p[i] as int]);
    }
    assert forall|i: int, j: int| 0 <= i < j < rv.len() implies !key_lt(k2(#[trigger] rv[j]), k2(#[trigger] rv[i])) by {
        assert(k2(rv[j]) == k1(r[j]) && k2(rv[i]) == k1(r[i]));
    }
    assert forall|i: int, j: int| 0 <= i < j < rv.len() && k2(#[trigger] rv[i]) == k2(#[trigger] rv[j]) implies p[i] < p[j] by {
        assert(k2(rv[j]) == k1(r[j]) && k2(rv[i]) == k1(r[i]));
    }
    assert(is_index_perm(p, sv.len()));
}

/// Per-day visit totals across the selected window, ascending by day: one
/// point per bucket whose date falls in the window (undated buckets are
/// skipped); empty when no window end resolves.
pub fn daily_series(buckets: &[DayBucket], range: TimeRange, anchor_end: Option<i64>) -> (r: Vec<(String, u32)>)
    requires
        dates_ok(buckets@),
        anchor_ok(anchor_end),
        forall|i: int| 0 <= i < buckets@.len() ==> node_visits((#[trigger] buckets@[i]).nodes@) <= u32::MAX,
    ensures
        match spec_resolve_end(buckets@, anchor_end) {
            Some(end) => series_of(r@, day_points(buckets@, end - (range_days(range) - 1), end)),
            None => r@.len() == 0,
        },
{
    let end = match resolve_end(buckets, anchor_end) {
        Some(e) => e,
        None => {
            return Vec::new();
        },
    };
    let lo = end - (range.days() - 1);
    let ghost bs = buckets@;
    let mut pts: Vec<(i64, String, u32)> = Vec::new();
    let mut i: usize = 0;
    while i < buckets.len()
        invariant
            i <= bs.len(),
            bs == buckets@,
            dates_ok(bs),
            forall|i: int| 0 <= i < bs.len() ==> node_visits((#[trigger] bs[i]).nodes@) <= u32::MAX,
            points_view(pts@) == day_points(bs.take(i as int), lo as int, end as int),
        decreases buckets.len() - i,
    {
        proof {
            assert(bs.take(i + 1).drop_last() =~= bs.take(i as int));
            assert(bs.take(i + 1).last() == bs[i as int]);
        }
        match day_number(buckets[i].date.as_str()) {
            Some(d) => {
                if lo <= d && d <= end {
                    let v = bucket_visits(&buckets[i]);
                    let ghost p0 = pts@;
                    pts.push((d, buckets[i].date.clone(), v));
                    proof {
                        assert(points_view(pts@) =~= points_view(p0).push(point_view(pts@[p0.len() as int])));
                    }
                }
            },
            None => {},
        }
        i += 1;
    }
    proof {
        assert(bs.take(i as int) =~= bs);
    }
    let mut keys: Vec<RankKey> = Vec::new();
    let mut j: usize = 0;
    while j < pts.len()
        invariant
            j <= pts@.len(),
            keys@.len() == j,
            forall|a: int| 0 <= a < j ==> (#[trigger] keys@[a])@ == point_key(point_view(pts@[a])),
        decreases pts.len() - j,
    {
        keys.push(RankKey { major: pts[j].0 as i128, first: Vec::new(), second: Vec::new() });
        proof {
            assert(keys@[j as int]@.1 =~= Seq::<char>::empty());
            assert(keys@[j as int]@.2 =~= Seq::<char>::empty());
        }
        j += 1;
    }
    let ghost pv = pts@;
    let sorted = sort_by_keys(pts, &keys, Ghost(|x: (i64, String, u32)| point_key(point_view(x))));
    proof {
        lemma_sort_view(sorted@, pv);
    }
    let mut out: Vec<(String, u32)> = Vec::new();
    let mut k: usize = 0;
    while k < sorted.len()
        invariant
            k <= sorted@.len(),
            out@.len() == k,
            forall|a: int| 0 <= a < k ==> (#[trigger] out@[a]).0@ == sorted@[a].1@ && out@[a].1 == sorted@[a].2,
        decreases sorted.len() - k,
    {
        out.push((sorted[k].1.clone(), sorted[k].2));
        k += 1;
    }
    proof {
        let q = points_view(sorted@);
        assert forall|a: int| 0 <= a < out@.len() implies (#[trigger] out@[a]).0@ == q[a].1 && out@[a].1 == q[a].2 by {}
        assert(by_day(q, points_view(pv)));
    }
    out
}

/// This window versus the equal-length window just before it.
#[derive(Clone, Copy, Debug, Default, PartialEq, Eq, Structural)]
pub struct PeriodDelta {
    pub visits_now: u64,
    pub visits_prev: u64,
    pub hosts_now: u32,
    pub hosts_prev: u32,
    pub new_hosts_now: u32,
    pub new_hosts_prev: u32,
}

impl PeriodDelta {
    /// No prior window to compare against.
    pub fn no_baseline(&self) -> (r: bool)
        ensures
            r == (self.visits_prev == 0 && self.hosts_prev == 0),
    {
        self.visits_prev == 0 && self.hosts_prev == 0
    }
}

/// Some node entry of `ns` is for host `k`.
pub open spec fn has_host(ns: Seq<(String, NodeStat)>, k: Seq<char>) -> bool {
    exists|j: int| 0 <= j < ns.len() && (#[trigger] ns[j]).0@ == k
}

/// Bucket `b` is dated within `[lo, hi]`.
pub open spec fn dated_in(b: DayBucket, lo: int, hi: int) -> bool {
    in_span(b, lo, hi, false)
}

/// Bucket `b` is dated within `[lo, hi]`, or undated when `undated` counts.
pub open spec fn in_span(b: DayBucket, lo: int, hi: int, undated: bool) -> bool {
    match spec_day_number(b.date@) {
        Some(d) => lo <= d && d <= hi,
        None => undated,
    }
}

/// Host `k` appears in a bucket among the first `n` dated within `[lo, hi]`.
pub open spec fn host_in(bs: Seq<DayBucket>, n: int, lo: int, hi: int, k: Seq<char>) -> bool {
    host_in_span(bs, n, lo, hi, false, k)
}

/// Host `k` appears in a bucket among the first `n` within the span.
pub open spec fn host_in_span(bs: Seq<DayBucket>, n: int, lo: int, hi: int, undated: bool, k: Seq<char>) -> bool {
    exists|i: int| 0 <= i < n && in_span(#[trigger] bs[i], lo, hi, undated) && has_host(bs[i].nodes@, k)
}

/// The hosts seen within `[lo, hi]`.
pub open spec fn window_hosts(bs: Seq<DayBucket>, lo: int, hi: int) -> Set<Seq<char>> {
    Set::new(|k: Seq<char>| host_in(bs, bs.len() as int, lo, hi, k))
}

/// The earliest dated bucket day holding host `k`, over all buckets.
pub open spec fn first_day(bs: Seq<DayBucket>, k: Seq<char>) -> Option<int>
    decreases bs.len(),
{
    if bs.len() == 0 {
        None
    } else {
        crate::project::min_opt(
            first_day(bs.drop_last(), k),
            if has_host(bs.last().nodes@, k) {
                spec_day_number(bs.last().date@)
            } else {
                None
            },
        )
    }
}

/// Host `k` was first seen on day `lo` or later.
pub open spec fn is_new_from(bs: Seq<DayBucket>, k: Seq<char>, lo: int) -> bool {
    match first_day(bs, k) {
        Some(f) => f >= lo,
        None => false,
    }
}

/// The hosts seen within `[lo, hi]` whose first day ever is in it too.
pub open spec fn new_hosts(bs: Seq<DayBucket>, lo: int, hi: int) -> Set<Seq<char>> {
    Set::new(|k: Seq<char>| host_in(bs, bs.len() as int, lo, hi, k) && is_new_from(bs, k, lo))
}

/// Total visits of the buckets dated within `[lo, hi]`.
pub open spec fn window_visits(bs: Seq<DayBucket>, lo: int, hi: int) -> int {
    span_visits(bs, lo, hi, false)
}

/// Total visits of the buckets within the span.
pub open spec fn span_visits(bs: Seq<DayBucket>, lo: int, hi: int, undated: bool) -> int
    decreases bs.len(),
{
    if bs.len() == 0 {
        0
    } else {
        span_visits(bs.drop_last(), lo, hi, undated) + if in_span(bs.last(), lo, hi, undated) {
            node_visits(bs.last().nodes@)
        } else {
            0
        }
    }
}

/// Total visits of all buckets.
pub open spec fn all_visits(bs: Seq<DayBucket>) -> int
    decreases bs.len(),
{
    if bs.len() == 0 {
        0
    } else {
        all_visits(bs.drop_last()) + node_visits(bs.last().nodes@)
    }
}

proof fn lemma_window_le_all(bs: Seq<DayBucket>, lo: int, hi: int, undated: bool)
    ensures
        0 <= span_visits(bs, lo, hi, undated) <= all_visits(bs),
    decreases bs.len(),
{
    if bs.len() > 0 {
        lemma_window_le_all(bs.drop_last(), lo, hi, undated);
        lemma_node_visits_nonneg(bs.last().nodes@);
    }
}

proof fn lemma_all_prefix(bs: Seq<DayBucket>, n: int)
    requires
        0 <= n <= bs.len(),
    ensures
        all_visits(bs.take(n)) <= all_visits(bs),
    decreases bs.len() - n,
{
    if n < bs.len() {
        lemma_all_prefix(bs, n + 1);
        assert(bs.take(n + 1).drop_last() =~= bs.take(n));
        lemma_node_visits_nonneg(bs[n].nodes@);
    } else {
        assert(bs.take(n) =~= bs);
    }
}

/// Whether bucket node entries include host `k`.
fn holds_host(ns: &Vec<(String, NodeStat)>, k: &str) -> (r: bool)
    ensures
        r == has_host(ns@, k@),
{
    match crate::keyed::find_key(ns, k) {
        Some(j) => {
            proof {
                assert(ns@[j as int].0@ == k@);
            }
            true
        },
        None => false,
    }
}

/// The earliest dated bucket day holding host `k`.
fn first_day_of(buckets: &[DayBucket], k: &str) -> (r: Option<i64>)
    requires
        dates_ok(buckets@),
    ensures
        match first_day(buckets@, k@) {
            Some(f) => r == Some(f as i64) && r->0 == f,
            None => r is None,
        },
{
    let ghost bs = buckets@;
    let mut best: Option<i64> = None;
    let mut i: usize = 0;
    while i < buckets.len()
        invariant
            i <= bs.len(),
            bs == buckets@,
            dates_ok(bs),
            match first_day(bs.take(i as int), k@) {
                Some(f) => best == Some(f as i64) && best->0 == f,
                None => best is None,
            },
        decreases buckets.len() - i,
    {
        proof {
            assert(bs.take(i + 1).drop_last() =~= bs.take(i as int));
            assert(bs.take(i + 1).last() == bs[i as int]);
        }
        if holds_host(&buckets[i].nodes, k) {
            match day_number(buckets[i].date.as_str()) {
                Some(d) => {
                    best = match best {
                        Some(b) => Some(if b <= d { b } else { d }),
                        None => Some(d),
                    };
                },
                None => {},
            }
        }
        i += 1;
    }
    proof {
        assert(bs.take(i as int) =~= bs);
    }
    best
}

/// The distinct hosts of the buckets within `[lo, hi]` (undated ones when
/// `undated`).
fn window_host_list(buckets: &[DayBucket], lo: i64, hi: i64, undated: bool) -> (r: Vec<String>)
    requires
        dates_ok(buckets@),
    ensures
        forall|a: int, b: int| 0 <= a < b < r@.len() ==> (#[trigger] r@[a])@ != (#[trigger] r@[b])@,
        forall|k: Seq<char>| #[trigger] crate::flow::strs(r@).contains(k) == host_in_span(buckets@, buckets@.len() as int, lo as int, hi as int, undated, k),
{
    let ghost bs = buckets@;
    let mut hosts: Vec<String> = Vec::new();
    let mut i: usize = 0;
    while i < buckets.len()
        invariant
            i <= bs.len(),
            bs == buckets@,
            dates_ok(bs),
            forall|a: int, b: int| 0 <= a < b < hosts@.len() ==> (#[trigger] hosts@[a])@ != (#[trigger] hosts@[b])@,
            forall|k: Seq<char>| #[trigger] crate::flow::strs(hosts@).contains(k) == host_in_span(bs, i as int, lo as int, hi as int, undated, k),
        decreases buckets.len() - i,
    {
        let inw = match day_number(buckets[i].date.as_str()) {
            Some(d) => lo <= d && d <= hi,
            None => undated,
        };
        if inw {
            let b = &buckets[i];
            let mut j: usize = 0;
            let ghost h0 = crate::flow::strs(hosts@);
            while j < b.nodes.len()
                invariant
                    i < bs.len(),
                    *b == bs[i as int],
                    in_span(bs[i as int], lo as int, hi as int, undated),
                    j <= b.nodes@.len(),
                    bs == buckets@,
                    forall|a: int, b: int| 0 <= a < b < hosts@.len() ==> (#[trigger] hosts@[a])@ != (#[trigger] hosts@[b])@,
                    forall|k: Seq<char>| #[trigger] crate::flow::strs(hosts@).contains(k) == (host_in_span(bs, i as int, lo as int, hi as int, undated, k)
                        || exists|t: int| 0 <= t < j && (#[trigger] b.nodes@[t]).0@ == k),
                decreases b.nodes.len() - j,
            {
                let ghost hv = crate::flow::strs(hosts@);
                let key = &b.nodes[j].0;
                if !crate::project::contains_str(&hosts, key.as_str()) {
                    hosts.push(key.clone());
                    proof {
                        assert(crate::flow::strs(hosts@) =~= hv.push(key@));
                        assert forall|a: int, c: int| 0 <= a < c < hosts@.len() implies (#[trigger] hosts@[a])@ != (#[trigger] hosts@[c])@ by {
                            if c == hosts@.len() - 1 {
                                assert(hv[a] == hosts@[a]@);
                            }
                        }
                    }
                }
                proof {
                    assert forall|k: Seq<char>| #[trigger] crate::flow::strs(hosts@).contains(k) == (host_in_span(bs, i as int, lo as int, hi as int, undated, k)
                        || exists|t: int| 0 <= t < j + 1 && (#[trigger] b.nodes@[t]).0@ == k) by {
                        if crate::flow::strs(hosts@).contains(k) && !hv.contains(k) {
                            assert(k == key@);
                            assert(b.nodes@[j as int].0@ == k);
                        }
                        if hv.contains(k) {
                            let w = choose|w: int| 0 <= w < hv.len() && hv[w] == k;
                            assert(crate::flow::strs(hosts@)[w] == k);
                        }
                        if exists|t: int| 0 <= t < j + 1 && (#[trigger] b.nodes@[t]).0@ == k {
                            let t = choose|t: int| 0 <= t < j + 1 && (#[trigger] b.nodes@[t]).0@ == k;
                            if t == j {
                                assert(k == key@);
                                if !hv.contains(k) {
                                    assert(crate::flow::strs(hosts@)[hosts@.len() - 1] == k);
                                } else {
                                    let w = choose|w: int| 0 <= w < hv.len() && hv[w] == k;
                                    assert(crate::flow::strs(hosts@)[w] == k);
                                }
                            }
                        }
                    }
                }
                j += 1;
            }
            proof {
                assert forall|k: Seq<char>| #[trigger] crate::flow::strs(hosts@).contains(k) == host_in_span(bs, i + 1, lo as int, hi as int, undated, k) by {
                    if host_in_span(bs, i + 1, lo as int, hi as int, undated, k) {
                        let x = choose|x: int| 0 <= x < i + 1 && in_span(#[trigger] bs[x], lo as int, hi as int, undated) && has_host(bs[x].nodes@, k);
                        if x == i {
                            let t = choose|t: int| 0 <= t < bs[x].nodes@.len() && (#[trigger] bs[x].nodes@[t]).0@ == k;
                            assert(b.nodes@[t].0@ == k);
                        }
                    }
                    if exists|t: int| 0 <= t < j && (#[trigger] b.nodes@[t]).0@ == k {
                        let t = choose|t: int| 0 <= t < j && (#[trigger] b.nodes@[t]).0@ == k;
                        assert(has_host(bs[i as int].nodes@, k));
                    }
                }
            }
        } else {
            proof {
                assert(!in_span(bs[i as int], lo as int, hi as int, undated));
                assert forall|k: Seq<char>| #[trigger] crate::flow::strs(hosts@).contains(k) == host_in_span(bs, i + 1, lo as int, hi as int, undated, k) by {
                    if host_in_span(bs, i + 1, lo as int, hi as int, undated, k) {
                        let x = choose|x: int| 0 <= x < i + 1 && in_span(#[trigger] bs[x], lo as int, hi as int, undated) && has_host(bs[x].nodes@, k);
                    }
                }
            }
        }
        i += 1;
    }
    hosts
}

/// Total visits of the buckets within `[lo, hi]` (undated ones when
/// `undated`).
fn window_visit_total(buckets: &[DayBucket], lo: i64, hi: i64, undated: bool) -> (r: u64)
    requires
        dates_ok(buckets@),
        all_visits(buckets@) <= u64::MAX,
    ensures
        r == span_visits(buckets@, lo as int, hi as int, undated),
{
    let ghost bs = buckets@;
    let mut visits: u64 = 0;
    let mut i: usize = 0;
    while i < buckets.len()
        invariant
            i <= bs.len(),
            bs == buckets@,
            dates_ok(bs),
            all_visits(bs) <= u64::MAX,
            visits == span_visits(bs.take(i as int), lo as int, hi as int, undated),
        decreases buckets.len() - i,
    {
        proof {
            assert(bs.take(i + 1).drop_last() =~= bs.take(i as int));
            assert(bs.take(i + 1).last() == bs[i as int]);
            lemma_window_le_all(bs.take(i + 1), lo as int, hi as int, undated);
            lemma_all_prefix(bs, i + 1);
        }
        let inw = match day_number(buckets[i].date.as_str()) {
            Some(d) => lo <= d && d <= hi,
            None => undated,
        };
        if inw {
            let ns = &buckets[i].nodes;
            let mut j: usize = 0;
            let ghost base = visits as int;
            while j < ns.len()
                invariant
                    j <= ns@.len(),
                    base + node_visits(ns@) <= u64::MAX,
                    visits == base + node_visits(ns@.take(j as int)),
                decreases ns.len() - j,
            {
                proof {
                    assert(ns@.take(j + 1).drop_last() =~= ns@.take(j as int));
                    lemma_node_visits_prefix(ns@, j + 1);
                }
                visits = visits + ns[j].1.visits as u64;
                j += 1;
            }
            proof {
                assert(ns@.take(j as int) =~= ns@);
            }
        }
        i += 1;
    }
    proof {
        assert(bs.take(i as int) =~= bs);
    }
    visits
}

/// A list of distinct strings holding exactly the members of a set has its
/// size.
proof fn lemma_list_card(h: Seq<String>, st: Set<Seq<char>>)
    requires
        forall|a: int, b: int| 0 <= a < b < h.len() ==> (#[trigger] h[a])@ != (#[trigger] h[b])@,
        forall|k: Seq<char>| #[trigger] crate::flow::strs(h).contains(k) == st.contains(k),
    ensures
        st.finite(),
        st.len() == h.len(),
{
    let v = crate::flow::strs(h);
    assert(v.no_duplicates()) by {
        assert forall|a: int, b: int| 0 <= a < v.len() && 0 <= b < v.len() && a != b implies v[a] != v[b] by {
            if a < b {
                assert(h[a]@ != h[b]@);
            } else {
                assert(h[b]@ != h[a]@);
            }
        }
    }
    v.unique_seq_to_set();
    assert(v.to_set() =~= st);
}

/// The hosts of `hosts` first seen on day `lo` or later.
fn new_from(buckets: &[DayBucket], hosts: &Vec<String>, lo: i64) -> (r: Vec<String>)
    requires
        dates_ok(buckets@),
        forall|a: int, b: int| 0 <= a < b < hosts@.len() ==> (#[trigger] hosts@[a])@ != (#[trigger] hosts@[b])@,
    ensures
        forall|a: int, b: int| 0 <= a < b < r@.len() ==> (#[trigger] r@[a])@ != (#[trigger] r@[b])@,
        forall|k: Seq<char>| #[trigger] crate::flow::strs(r@).contains(k) == (crate::flow::strs(hosts@).contains(k) && is_new_from(buckets@, k, lo as int)),
{
    let mut r: Vec<String> = Vec::new();
    let mut i: usize = 0;
    while i < hosts.len()
        invariant
            i <= hosts@.len(),
            dates_ok(buckets@),
            forall|a: int, b: int| 0 <= a < b < hosts@.len() ==> (#[trigger] hosts@[a])@ != (#[trigger] hosts@[b])@,
            forall|a: int| 0 <= a < r@.len() ==> exists|x: int| 0 <= x < i && (#[trigger] hosts@[x])@ == (#[trigger] r@[a])@,
            forall|a: int, b: int| 0 <= a < b < r@.len() ==> (#[trigger] r@[a])@ != (#[trigger] r@[b])@,
            forall|k: Seq<char>| #[trigger] crate::flow::strs(r@).contains(k) == (crate::flow::strs(hosts@.take(i as int)).contains(k) && is_new_from(buckets@, k, lo as int)),
        decreases hosts.len() - i,
    {
        let ghost rv = crate::flow::strs(r@);
        let ghost r0 = r@;
        let ghost tv = crate::flow::strs(hosts@.take(i as int));
        proof {
            assert(crate::flow::strs(hosts@.take(i + 1)) =~= tv.push(hosts@[i as int]@));
        }
        let keep = match first_day_of(buckets, hosts[i].as_str()) {
            Some(f) => f >= lo,
            None => false,
        };
        assert(keep == is_new_from(buckets@, hosts@[i as int]@, lo as int));
        if keep {
            r.push(hosts[i].clone());
            proof {
                assert(crate::flow::strs(r@) =~= rv.push(hosts@[i as int]@));
                assert forall|a: int, b: int| 0 <= a < b < r@.len() implies (#[trigger] r@[a])@ != (#[trigger] r@[b])@ by {
                    if b == r0.len() {
                        assert(r@[a] == r0[a]);
                        let x = choose|x: int| 0 <= x < i && (#[trigger] hosts@[x])@ == (#[trigger] r0[a])@;
                        assert(hosts@[x]@ != hosts@[i as int]@);
                    } else {
                        assert(r@[a] == r0[a] && r@[b] == r0[b]);
                    }
                }
                assert forall|a: int| 0 <= a < r@.len() implies exists|x: int| 0 <= x < i + 1 && (#[trigger] hosts@[x])@ == (#[trigger] r@[a])@ by {
                    if a < r0.len() {
                        assert(r@[a] == r0[a]);
                        let x = choose|x: int| 0 <= x < i && (#[trigger] hosts@[x])@ == (#[trigger] r0[a])@;
                    } else {
                        assert(hosts@[i as int]@ == r@[a]@);
                    }
                }
            }
        } else {
            proof {
                assert forall|a: int| 0 <= a < r@.len() implies exists|x: int| 0 <= x < i + 1 && (#[trigger] hosts@[x])@ == (#[trigger] r@[a])@ by {
                    let x = choose|x: int| 0 <= x < i && (#[trigger] hosts@[x])@ == (#[trigger] r@[a])@;
                }
            }
        }
        proof {
            let nv = crate::flow::strs(hosts@.take(i + 1));
            assert forall|k: Seq<char>| #[trigger] crate::flow::strs(r@).contains(k) == (nv.contains(k) && is_new_from(buckets@, k, lo as int)) by {
                let cur = crate::flow::strs(r@);
                if cur.contains(k) {
                    let w = choose|w: int| 0 <= w < cur.len() && cur[w] == k;
                    if w < rv.len() {
                        assert(rv[w] == k);
                        assert(rv.contains(k));
                        assert(tv.contains(k));
                        let y = choose|y: int| 0 <= y < tv.len() && tv[y] == k;
                        assert(nv[y] == k);
                    } else {
                        assert(nv[i as int] == k);
                    }
                }
                if nv.contains(k) && is_new_from(buckets@, k, lo as int) {
                    let y = choose|y: int| 0 <= y < nv.len() && nv[y] == k;
                    if y < i {
                        assert(tv[y] == k);
                        assert(rv.contains(k));
                        let w = choose|w: int| 0 <= w < rv.len() && rv[w] == k;
                        assert(cur[w] == k);
                    } else {
                        assert(k == hosts@[i as int]@);
                        assert(keep);
                        assert(cur[cur.len() - 1] == k);
                    }
                }
            }
        }
        i += 1;
    }
    proof {
        assert(hosts@.take(i as int) =~= hosts@);
    }
    r
}

/// The host, visit and new-host counts of window `[lo, hi]`.
fn window_counts(buckets: &[DayBucket], lo: i64, hi: i64) -> (r: (u32, u64, u32))
    requires
        dates_ok(buckets@),
        all_visits(buckets@) <= u64::MAX,
    ensures
        r.0 == window_hosts(buckets@, lo as int, hi as int).len() as u32,
        r.1 == window_visits(buckets@, lo as int, hi as int),
        r.2 == new_hosts(buckets@, lo as int, hi as int).len() as u32,
{
    let hosts = window_host_list(buckets, lo, hi, false);
    let visits = window_visit_total(buckets, lo, hi, false);
    let fresh = new_from(buckets, &hosts, lo);
    proof {
        lemma_list_card(hosts@, window_hosts(buckets@, lo as int, hi as int));
        assert forall|k: Seq<char>| #[trigger] crate::flow::strs(fresh@).contains(k) == new_hosts(buckets@, lo as int, hi as int).contains(k) by {}
        lemma_list_card(fresh@, new_hosts(buckets@, lo as int, hi as int));
    }
    (hosts.len() as u32, visits, fresh.len() as u32)
}

/// `pd` compares the window ending on `end` with the equal-length window
/// just before it: visits, distinct hosts, and hosts first seen in the
/// window (counts of hosts truncated to `u32`).
pub open spec fn delta_of(pd: PeriodDelta, bs: Seq<DayBucket>, end: int, days: int) -> bool {
    let lo = end - (days - 1);
    let plo = lo - days;
    let phi = lo - 1;
    &&& pd.visits_now == window_visits(bs, lo, end)
    &&& pd.visits_prev == window_visits(bs, plo, phi)
    &&& pd.hosts_now == window_hosts(bs, lo, end).len() as u32
    &&& pd.hosts_prev == window_hosts(bs, plo, phi).len() as u32
    &&& pd.new_hosts_now == new_hosts(bs, lo, end).len() as u32
    &&& pd.new_hosts_prev == new_hosts(bs, plo, phi).len() as u32
}

/// This window versus the equal-length window just before it; `None` when
/// no window end resolves.
pub fn period_delta(buckets: &[DayBucket], range: TimeRange, anchor_end: Option<i64>) -> (r: Option<PeriodDelta>)
    requires
        dates_ok(buckets@),
        anchor_ok(anchor_end),
        all_visits(buckets@) <= u64::MAX,
    ensures
        match spec_resolve_end(buckets@, anchor_end) {
            Some(end) => r matches Some(pd) && delta_of(pd, buckets@, end, range_days(range)),
            None => r is None,
        },
{
    let end = match resolve_end(buckets, anchor_end) {
        Some(e) => e,
        None => {
            return None;
        },
    };
    let days = range.days();
    let lo = end - (days - 1);
    let plo = lo - days;
    let phi = lo - 1;
    let (hosts_now, visits_now, new_hosts_now) = window_counts(buckets, lo, end);
    let (hosts_prev, visits_prev, new_hosts_prev) = window_counts(buckets, plo, phi);
    Some(PeriodDelta { visits_now, visits_prev, hosts_now, hosts_prev, new_hosts_now, new_hosts_prev })
}

/// A host whose visits grew this window versus the window before.
#[derive(Clone, Debug, PartialEq, Eq)]
pub struct Surge {
    pub host: String,
    pub now: u32,
    pub prev: u32,
}

impl Surge {
    /// The host had no visits in the previous window.
    pub fn is_new(&self) -> (r: bool)
        ensures
            r == (self.prev == 0),
    {
        self.prev == 0
    }
}

/// Visits of host `k` among node entries `ns`.
pub open spec fn key_visits(ns: Seq<(String, NodeStat)>, k: Seq<char>) -> int
    decreases ns.len(),
{
    if ns.len() == 0 {
        0
    } else {
        key_visits(ns.drop_last(), k) + if ns.last().0@ == k {
            ns.last().1.visits as int
        } else {
            0
        }
    }
}

/// Visits of host `k` in the buckets dated within `[lo, hi]`.
pub open spec fn host_visits(bs: Seq<DayBucket>, lo: int, hi: int, k: Seq<char>) -> int
    decreases bs.len(),
{
    if bs.len() == 0 {
        0
    } else {
        host_visits(bs.drop_last(), lo, hi, k) + if dated_in(bs.last(), lo, hi) {
            key_visits(bs.last().nodes@, k)
        } else {
            0
        }
    }
}

/// Visits of host `k` over all buckets.
pub open spec fn host_total(bs: Seq<DayBucket>, k: Seq<char>) -> int
    decreases bs.len(),
{
    if bs.len() == 0 {
        0
    } else {
        host_total(bs.drop_last(), k) + key_visits(bs.last().nodes@, k)
    }
}

proof fn lemma_key_visits_prefix(ns: Seq<(String, NodeStat)>, n: int, k: Seq<char>)
    requires
        0 <= n <= ns.len(),
    ensures
        0 <= key_visits(ns.take(n), k) <= key_visits(ns, k),
    decreases ns.len() - n,
{
    if n < ns.len() {
        lemma_key_visits_prefix(ns, n + 1, k);
        assert(ns.take(n + 1).drop_last() =~= ns.take(n));
    } else {
        assert(ns.take(n) =~= ns);
    }
    lemma_key_visits_nonneg(ns.take(n), k);
}

proof fn lemma_key_visits_nonneg(ns: Seq<(String, NodeStat)>, k: Seq<char>)
    ensures
        key_visits(ns, k) >= 0,
    decreases ns.len(),
{
    if ns.len() > 0 {
        lemma_key_visits_nonneg(ns.drop_last(), k);
    }
}

proof fn lemma_host_visits_bound(bs: Seq<DayBucket>, n: int, lo: int, hi: int, k: Seq<char>)
    requires
        0 <= n <= bs.len(),
    ensures
        0 <= host_visits(bs.take(n), lo, hi, k) <= host_total(bs, k),
    decreases bs.len() - n,
{
    if n < bs.len() {
        lemma_host_visits_bound(bs, n + 1, lo, hi, k);
        assert(bs.take(n + 1).drop_last() =~= bs.take(n));
        lemma_key_visits_nonneg(bs[n].nodes@, k);
        lemma_host_visits_nonneg(bs.take(n), lo, hi, k);
    } else {
        assert(bs.take(n) =~= bs);
        lemma_host_within_total(bs, lo, hi, k);
        lemma_host_visits_nonneg(bs, lo, hi, k);
    }
}

proof fn lemma_host_visits_nonneg(bs: Seq<DayBucket>, lo: int, hi: int, k: Seq<char>)
    ensures
        host_visits(bs, lo, hi, k) >= 0,
    decreases bs.len(),
{
    if bs.len() > 0 {
        lemma_host_visits_nonneg(bs.drop_last(), lo, hi, k);
        lemma_key_visits_nonneg(bs.last().nodes@, k);
    }
}

proof fn lemma_host_within_total(bs: Seq<DayBucket>, lo: int, hi: int, k: Seq<char>)
    ensures
        host_visits(bs, lo, hi, k) <= host_total(bs, k),
    decreases bs.len(),
{
    if bs.len() > 0 {
        lemma_host_within_total(bs.drop_last(), lo, hi, k);
        lemma_key_visits_nonneg(bs.last().nodes@, k);
    }
}

/// Visits of host `k` in the buckets dated within `[lo, hi]`.
fn host_visits_in(buckets: &[DayBucket], lo: i64, hi: i64, k: &str) -> (r: u32)
    requires
        dates_ok(buckets@),
        host_total(buckets@, k@) <= u32::MAX,
    ensures
        r == host_visits(buckets@, lo as int, hi as int, k@),
{
    let ghost bs = buckets@;
    let mut sum: u32 = 0;
    let mut i: usize = 0;
    while i < buckets.len()
        invariant
            i <= bs.len(),
            bs == buckets@,
            dates_ok(bs),
            host_total(bs, k@) <= u32::MAX,
            sum == host_visits(bs.take(i as int), lo as int, hi as int, k@),
        decreases buckets.len() - i,
    {
        proof {
            assert(bs.take(i + 1).drop_last() =~= bs.take(i as int));
            assert(bs.take(i + 1).last() == bs[i as int]);
            lemma_host_visits_bound(bs, i + 1, lo as int, hi as int, k@);
        }
        let inw = match day_number(buckets[i].date.as_str()) {
            Some(d) => lo <= d && d <= hi,
            None => false,
        };
        if inw {
            let ns = &buckets[i].nodes;
            let mut j: usize = 0;
            let ghost base = sum as int;
            while j < ns.len()
                invariant
                    j <= ns@.len(),
                    base + key_visits(ns@, k@) <= u32::MAX,
                    sum == base + key_visits(ns@.take(j as int), k@),
                decreases ns.len() - j,
            {
                proof {
                    assert(ns@.take(j + 1).drop_last() =~= ns@.take(j as int));
                    lemma_key_visits_prefix(ns@, j + 1, k@);
                }
                if crate::text::str_eq(ns[j].0.as_str(), k) {
                    sum = sum + ns[j].1.visits;
                }
                j += 1;
            }
            proof {
                assert(ns@.take(j as int) =~= ns@);
            }
        }
        i += 1;
    }
    proof {
        assert(bs.take(i as int) =~= bs);
    }
    sum
}

/// `a` ranks before `b`, each paired with its growth key: a larger key,
/// then more visits now, then the host name.
pub open spec fn rank_lt(a: (u32, Surge), b: (u32, Surge)) -> bool {
    a.0 > b.0 || (a.0 == b.0 && (a.1.now > b.1.now || (a.1.now == b.1.now && lex_lt(a.1.host@, b.1.host@))))
}

proof fn lemma_rank_order(a: (u32, Surge), b: (u32, Surge), c: (u32, Surge))
    ensures
        !rank_lt(a, a),
        rank_lt(a, b) && rank_lt(b, c) ==> rank_lt(a, c),
        a.1.host@ != b.1.host@ ==> rank_lt(a, b) || rank_lt(b, a),
{
    crate::text::lemma_lex_irreflexive(a.1.host@);
    if rank_lt(a, b) && rank_lt(b, c) {
        if lex_lt(a.1.host@, b.1.host@) && lex_lt(b.1.host@, c.1.host@) {
            crate::text::lemma_lex_transitive(a.1.host@, b.1.host@, c.1.host@);
        }
    }
    crate::text::lemma_lex_total(a.1.host@, b.1.host@);
}

fn rank_lt_exec(a: &(u32, Surge), b: &(u32, Surge)) -> (r: bool)
    ensures
        r == rank_lt(*a, *b),
{
    if a.0 != b.0 {
        a.0 > b.0
    } else if a.1.now != b.1.now {
        a.1.now > b.1.now
    } else {
        crate::text::str_lt(a.1.host.as_str(), b.1.host.as_str())
    }
}

/// Sort keyed surges with distinct hosts by rank.
fn sort_ranked(v: Vec<(u32, Surge)>) -> (r: Vec<(u32, Surge)>)
    requires
        forall|k1: int, k2: int| 0 <= k1 < k2 < v@.len() ==> (#[trigger] v@[k1]).1.host@ != (#[trigger] v@[k2]).1.host@,
    ensures
        forall|k: int| 0 <= k < r@.len() ==> v@.contains(#[trigger] r@[k]),
        forall|k: int| 0 <= k < v@.len() ==> r@.contains(#[trigger] v@[k]),
        forall|i: int, j: int| 0 <= i < j < r@.len() ==> rank_lt(#[trigger] r@[i], #[trigger] r@[j]),
{
    let ghost s = v@;
    let mut r: Vec<(u32, Surge)> = Vec::new();
    let mut v = v;
    let mut i: usize = 0;
    let n = v.len();
    while i < n
        invariant
            n == s.len(),
            i <= n,
            v@.len() == n - i,
            forall|k: int| 0 <= k < v@.len() ==> #[trigger] v@[k] == s[i + k],
            forall|k1: int, k2: int| 0 <= k1 < k2 < s.len() ==> (#[trigger] s[k1]).1.host@ != (#[trigger] s[k2]).1.host@,
            forall|k: int| 0 <= k < r@.len() ==> s.take(i as int).contains(#[trigger] r@[k]),
            forall|k: int| 0 <= k < i ==> r@.contains(#[trigger] s[k]),
            forall|a: int, b: int| 0 <= a < b < r@.len() ==> rank_lt(#[trigger] r@[a], #[trigger] r@[b]),
        decreases n - i,
    {
        let e = v.remove(0);
        proof {
            assert(e == s[i as int]);
            assert forall|k: int| 0 <= k < v@.len() implies #[trigger] v@[k] == s[i + 1 + k] by {}
        }
        let mut pos: usize = 0;
        while pos < r.len() && !rank_lt_exec(&e, &r[pos])
            invariant
                pos <= r@.len(),
                forall|k: int| 0 <= k < pos ==> !rank_lt(e, #[trigger] r@[k]),
            decreases r.len() - pos,
        {
            pos += 1;
        }
        let ghost r0 = r@;
        proof {
            assert forall|k: int| 0 <= k < r0.len() implies (#[trigger] r0[k]).1.host@ != e.1.host@ by {
                assert(s.take(i as int).contains(r0[k]));
                let a = choose|a: int| 0 <= a < s.take(i as int).len() && s.take(i as int)[a] == r0[k];
                assert(s[a] == r0[k]);
            }
            assert forall|k: int| 0 <= k < pos implies rank_lt(#[trigger] r0[k], e) by {
                lemma_rank_order(r0[k], e, e);
            }
            assert forall|k: int| pos <= k < r0.len() implies rank_lt(e, #[trigger] r0[k]) by {
                if k > pos {
                    lemma_rank_order(e, r0[pos as int], r0[k]);
                }
            }
        }
        r.insert(pos, e);
        proof {
            assert forall|a: int, b: int| 0 <= a < b < r@.len() implies rank_lt(#[trigger] r@[a], #[trigger] r@[b]) by {
                if b < pos {
                    assert(r@[a] == r0[a] && r@[b] == r0[b]);
                } else if b == pos {
                    assert(r@[a] == r0[a]);
                } else if a < pos {
                    assert(r@[a] == r0[a] && r@[b] == r0[b - 1]);
                    lemma_rank_order(r0[a], e, r0[b - 1]);
                } else if a == pos {
                    assert(r@[b] == r0[b - 1]);
                } else {
                    assert(r@[a] == r0[a - 1] && r@[b] == r0[b - 1]);
                }
            }
            assert forall|k: int| 0 <= k < r@.len() implies s.take(i + 1).contains(#[trigger] r@[k]) by {
                if k == pos {
                    assert(s.take(i + 1)[i as int] == e);
                } else {
                    let k0 = if k < pos { k } else { k - 1 };
                    assert(r@[k] == r0[k0]);
                    assert(s.take(i as int).contains(r0[k0]));
                    let a = choose|a: int| 0 <= a < s.take(i as int).len() && s.take(i as int)[a] == r0[k0];
                    assert(s.take(i + 1)[a] == r0[k0]);
                }
            }
            assert forall|k: int| 0 <= k < i + 1 implies r@.contains(#[trigger] s[k]) by {
                if k == i {
                    assert(r@[pos as int] == s[k]);
                } else {
                    assert(r0.contains(s[k]));
                    let a = choose|a: int| 0 <= a < r0.len() && r0[a] == s[k];
                    if a < pos {
                        assert(r@[a] == s[k]);
                    } else {
                        assert(r@[a + 1] == s[k]);
                    }
                }
            }
        }
        i += 1;
    }
    proof {
        assert(s.take(n as int) =~= s);
    }
    r
}

/// Host `k` surges: seen in `[lo, hi]` with at least `min_now` visits
/// there, and strictly more than in `[plo, phi]`.
pub open spec fn is_surge(bs: Seq<DayBucket>, lo: int, hi: int, plo: int, phi: int, min_now: u32, k: Seq<char>) -> bool {
    &&& host_in(bs, bs.len() as int, lo, hi, k)
    &&& host_visits(bs, lo, hi, k) >= min_now
    &&& host_visits(bs, lo, hi, k) > host_visits(bs, plo, phi, k)
}

/// `s` lists every surging host once, with its two visit counts.
pub open spec fn surge_set(s: Seq<Surge>, bs: Seq<DayBucket>, lo: int, hi: int, plo: int, phi: int, min_now: u32) -> bool {
    &&& forall|i: int| 0 <= i < s.len() ==> is_surge(bs, lo, hi, plo, phi, min_now, (#[trigger] s[i]).host@)
        && s[i].now == host_visits(bs, lo, hi, s[i].host@) && s[i].prev == host_visits(bs, plo, phi, s[i].host@)
    &&& forall|k: Seq<char>| #[trigger] is_surge(bs, lo, hi, plo, phi, min_now, k) ==> exists|i: int| 0 <= i < s.len() && (#[trigger] s[i]).host@ == k
    &&& forall|i: int, j: int| 0 <= i < j < s.len() ==> (#[trigger] s[i]).host@ != (#[trigger] s[j]).host@
}

/// Hosts surging this window versus the equal-length window before it: at
/// least `min_now` visits now and strictly more than before, each once with
/// both visit counts (in no particular order; see [`rank_surges`]).
pub fn surge_candidates(buckets: &[DayBucket], range: TimeRange, anchor_end: Option<i64>, min_now: u32) -> (r: Vec<Surge>)
    requires
        dates_ok(buckets@),
        anchor_ok(anchor_end),
        forall|k: Seq<char>| #[trigger] host_total(buckets@, k) <= u32::MAX,
    ensures
        match spec_resolve_end(buckets@, anchor_end) {
            Some(end) => surge_set(r@, buckets@, end - (range_days(range) - 1), end, end - (range_days(range) - 1) - range_days(range), end - range_days(range), min_now),
            None => r@.len() == 0,
        },
{
    let end = match resolve_end(buckets, anchor_end) {
        Some(e) => e,
        None => {
            return Vec::new();
        },
    };
    let days = range.days();
    let lo = end - (days - 1);
    let plo = lo - days;
    let phi = lo - 1;
    let ghost bs = buckets@;
    let hosts = window_host_list(buckets, lo, end, false);
    let mut cands: Vec<Surge> = Vec::new();
    let mut i: usize = 0;
    while i < hosts.len()
        invariant
            i <= hosts@.len(),
            bs == buckets@,
            dates_ok(bs),
            forall|k: Seq<char>| #[trigger] host_total(bs, k) <= u32::MAX,
            forall|a: int, b: int| 0 <= a < b < hosts@.len() ==> (#[trigger] hosts@[a])@ != (#[trigger] hosts@[b])@,
            forall|k: Seq<char>| #[trigger] crate::flow::strs(hosts@).contains(k) == host_in(bs, bs.len() as int, lo as int, end as int, k),
            forall|c: int| 0 <= c < cands@.len() ==> is_surge(bs, lo as int, end as int, plo as int, phi as int, min_now, (#[trigger] cands@[c]).host@)
                && cands@[c].now == host_visits(bs, lo as int, end as int, cands@[c].host@)
                && cands@[c].prev == host_visits(bs, plo as int, phi as int, cands@[c].host@)
                && exists|x: int| 0 <= x < i && (#[trigger] hosts@[x])@ == cands@[c].host@,
            forall|x: int| 0 <= x < i && is_surge(bs, lo as int, end as int, plo as int, phi as int, min_now, (#[trigger] hosts@[x])@)
                ==> exists|c: int| 0 <= c < cands@.len() && (#[trigger] cands@[c]).host@ == hosts@[x]@,
            forall|c1: int, c2: int| 0 <= c1 < c2 < cands@.len() ==> (#[trigger] cands@[c1]).host@ != (#[trigger] cands@[c2]).host@,
        decreases hosts.len() - i,
    {
        let h = &hosts[i];
        proof {
            assert(crate::flow::strs(hosts@)[i as int] == h@);
            assert(crate::flow::strs(hosts@).contains(h@));
        }
        let now = host_visits_in(buckets, lo, end, h.as_str());
        let prev = host_visits_in(buckets, plo, phi, h.as_str());
        let ghost c0 = cands@;
        if now >= min_now && now > prev {
            cands.push(Surge { host: h.clone(), now, prev });
            proof {
                let n = c0.len() as int;
                assert forall|c: int| 0 <= c < cands@.len() implies is_surge(bs, lo as int, end as int, plo as int, phi as int, min_now, (#[trigger] cands@[c]).host@)
                    && cands@[c].now == host_visits(bs, lo as int, end as int, cands@[c].host@)
                    && cands@[c].prev == host_visits(bs, plo as int, phi as int, cands@[c].host@)
                    && exists|x: int| 0 <= x < i + 1 && (#[trigger] hosts@[x])@ == cands@[c].host@ by {
                    if c < n {
                        assert(cands@[c] == c0[c]);
                        let x = choose|x: int| 0 <= x < i && (#[trigger] hosts@[x])@ == c0[c].host@;
                    } else {
                        assert(hosts@[i as int]@ == cands@[c].host@);
                    }
                }
                assert forall|x: int| 0 <= x < i + 1 && is_surge(bs, lo as int, end as int, plo as int, phi as int, min_now, (#[trigger] hosts@[x])@)
                    implies exists|c: int| 0 <= c < cands@.len() && (#[trigger] cands@[c]).host@ == hosts@[x]@ by {
                    if x < i {
                        let c = choose|c: int| 0 <= c < c0.len() && (#[trigger] c0[c]).host@ == hosts@[x]@;
                        assert(cands@[c] == c0[c]);
                    } else {
                        assert(cands@[n].host@ == hosts@[x]@);
                    }
                }
                assert forall|c1: int, c2: int| 0 <= c1 < c2 < cands@.len() implies (#[trigger] cands@[c1]).host@ != (#[trigger] cands@[c2]).host@ by {
                    if c2 == n {
                        assert(cands@[c1] == c0[c1]);
                        let x = choose|x: int| 0 <= x < i && (#[trigger] hosts@[x])@ == c0[c1].host@;
                        assert(hosts@[x]@ != hosts@[i as int]@);
                    } else {
                        assert(cands@[c1] == c0[c1] && cands@[c2] == c0[c2]);
                    }
                }
            }
        } else {
            proof {
                assert forall|c: int| 0 <= c < cands@.len() implies is_surge(bs, lo as int, end as int, plo as int, phi as int, min_now, (#[trigger] cands@[c]).host@)
                    && cands@[c].now == host_visits(bs, lo as int, end as int, cands@[c].host@)
                    && cands@[c].prev == host_visits(bs, plo as int, phi as int, cands@[c].host@)
                    && exists|x: int| 0 <= x < i + 1 && (#[trigger] hosts@[x])@ == cands@[c].host@ by {
                    let x = choose|x: int| 0 <= x < i && (#[trigger] hosts@[x])@ == cands@[c].host@;
                }
            }
        }
        i += 1;
    }
    let ghost cv = cands@;
    proof {
        assert forall|k: Seq<char>| #[trigger] is_surge(bs, lo as int, end as int, plo as int, phi as int, min_now, k)
            implies exists|c: int| 0 <= c < cv.len() && (#[trigger] cv[c]).host@ == k by {
            assert(crate::flow::strs(hosts@).contains(k));
            let x = choose|x: int| 0 <= x < crate::flow::strs(hosts@).len() && crate::flow::strs(hosts@)[x] == k;
            assert(hosts@[x]@ == k);
            assert(is_surge(bs, lo as int, end as int, plo as int, phi as int, min_now, hosts@[x]@));
        }
        assert(range_days(range) == days);
        let e = end as int;
        let dd = range_days(range);
        assert(lo as int == e - (dd - 1) && plo as int == e - (dd - 1) - dd && phi as int == e - dd);
        assert(surge_set(cv, buckets@, e - (dd - 1), e, e - (dd - 1) - dd, e - dd, min_now));
    }
    cands
}

/// `s` is `v` in rank order ([`rank_lt`]): the same entries, each once.
pub open spec fn ranking_of(s: Seq<(u32, Surge)>, v: Seq<(u32, Surge)>) -> bool {
    &&& forall|k: int| 0 <= k < s.len() ==> v.contains(#[trigger] s[k])
    &&& forall|k: int| 0 <= k < v.len() ==> s.contains(#[trigger] v[k])
    &&& forall|i: int, j: int| 0 <= i < j < s.len() ==> rank_lt(#[trigger] s[i], #[trigger] s[j])
}

/// Surges paired with their growth keys, ranked by key (larger first), then
/// visits now, then host; the first `top` of them, without their keys.
pub fn rank_surges(v: Vec<(u32, Surge)>, top: usize) -> (r: Vec<Surge>)
    requires
        forall|k1: int, k2: int| 0 <= k1 < k2 < v@.len() ==> (#[trigger] v@[k1]).1.host@ != (#[trigger] v@[k2]).1.host@,
    ensures
        exists|s: Seq<(u32, Surge)>|
            #[trigger] ranking_of(s, v@) && r@ == s.take(if top < s.len() { top as int } else { s.len() as int }).map_values(
                |p: (u32, Surge)| p.1,
            ),
{
    let ghost v0 = v@;
    let mut sorted = sort_ranked(v);
    let ghost t = sorted@;
    proof {
        assert(ranking_of(t, v0));
    }
    sorted.truncate(top);
    let ghost t2 = sorted@;
    let n = sorted.len();
    let mut out: Vec<Surge> = Vec::new();
    let mut i: usize = 0;
    while i < n
        invariant
            n == t2.len(),
            i <= n,
            sorted@ == t2.subrange(i as int, n as int),
            out@ == t2.take(i as int).map_values(|p: (u32, Surge)| p.1),
        decreases n - i,
    {
        let p = sorted.remove(0);
        proof {
            assert(p == t2[i as int]);
            assert(t2.take(i + 1) =~= t2.take(i as int).push(p));
            assert(sorted@ =~= t2.subrange(i + 1, n as int));
        }
        out.push(p.1);
        proof {
            assert(out@ =~= t2.take(i + 1).map_values(|p: (u32, Surge)| p.1));
        }
        i += 1;
    }
    proof {
        assert(t2 =~= t.take(if top < t.len() { top as int } else { t.len() as int }));
        assert(t2.take(n as int) =~= t2);
    }
    out
}

/// Headline counts of a range: its distinct hosts, those first seen in it,
/// and its visits.
#[derive(Clone, Copy, Debug, Default, PartialEq, Eq, Structural)]
pub struct RangeCounts {
    pub window_hosts: u32,
    pub new_hosts: u32,
    pub window_visits: u64,
}

/// The hosts of the range window `[lo, hi]` (undated buckets count as in it).
pub open spec fn range_hosts(bs: Seq<DayBucket>, lo: int, hi: int) -> Set<Seq<char>> {
    Set::new(|k: Seq<char>| host_in_span(bs, bs.len() as int, lo, hi, true, k))
}

/// The hosts of the range window first seen (on a dated bucket) on day `lo`
/// or later.
pub open spec fn range_new_hosts(bs: Seq<DayBucket>, lo: int, hi: int) -> Set<Seq<char>> {
    Set::new(|k: Seq<char>| host_in_span(bs, bs.len() as int, lo, hi, true, k) && is_new_from(bs, k, lo))
}

/// Headline counts for the range ending at `anchor_end` (or the latest dated
/// bucket): distinct hosts, hosts first seen in the window, and visits. Undated
/// buckets count as inside the window; all zero when no end resolves.
pub fn range_counts(buckets: &[DayBucket], range: TimeRange, anchor_end: Option<i64>) -> (r: RangeCounts)
    requires
        dates_ok(buckets@),
        anchor_ok(anchor_end),
        all_visits(buckets@) <= u64::MAX,
    ensures
        match spec_resolve_end(buckets@, anchor_end) {
            Some(end) => {
                let lo = end - (range_days(range) - 1);
                &&& r.window_hosts == range_hosts(buckets@, lo, end).len() as u32
                &&& r.new_hosts == range_new_hosts(buckets@, lo, end).len() as u32
                &&& r.window_visits == span_visits(buckets@, lo, end, true)
            },
            None => r.window_hosts == 0 && r.new_hosts == 0 && r.window_visits == 0,
        },
{
    let end = match resolve_end(buckets, anchor_end) {
        Some(e) => e,
        None => {
            return RangeCounts { window_hosts: 0, new_hosts: 0, window_visits: 0 };
        },
    };
    let lo = end - (range.days() - 1);
    let hosts = window_host_list(buckets, lo, end, true);
    let visits = window_visit_total(buckets, lo, end, true);
    let fresh = new_from(buckets, &hosts, lo);
    proof {
        lemma_list_card(hosts@, range_hosts(buckets@, lo as int, end as int));
        assert forall|k: Seq<char>| #[trigger] crate::flow::strs(fresh@).contains(k) == range_new_hosts(buckets@, lo as int, end as int).contains(k) by {}
        lemma_list_card(fresh@, range_new_hosts(buckets@, lo as int, end as int));
    }
    RangeCounts { window_hosts: hosts.len() as u32, new_hosts: fresh.len() as u32, window_visits: visits }
}

} // verus!
