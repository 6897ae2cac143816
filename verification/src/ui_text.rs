//! Small dashboard readouts: durations, compact counts, intensity levels,
//! hour and weekday names, range labels, provenance keys, and percentages
//! that add up to a hundred.
use vstd::prelude::*;
use crate::model::{spec_display, Provenance};
use crate::project::TimeRange;
use crate::text::{decimal, push_char, push_decimal, push_str, str_eq};
use vstd::relations::injective_on;
use vstd::set_lib::{lemma_int_range, lemma_len_subset, lemma_map_size, lemma_subset_equality, set_int_range};

verus! {

/// Compact human duration of `ms` milliseconds: `45s`, `12m`, `1h 20m`,
/// `2d 3h`.
pub open spec fn spec_fmt_dwell(ms: u64) -> Seq<char> {
    let s = ms as nat / 1000;
    if s < 60 {
        decimal(s) + seq!['s']
    } else if s < 3600 {
        decimal(s / 60) + seq!['m']
    } else if s < 86_400 {
        decimal(s / 3600) + seq!['h', ' '] + decimal((s % 3600) / 60) + seq!['m']
    } else {
        decimal(s / 86_400) + seq!['d', ' '] + decimal((s % 86_400) / 3600) + seq!['h']
    }
}

/// Compact human duration for dwell columns.
pub fn fmt_dwell(ms: u64) -> (r: String)
    ensures
        r@ == spec_fmt_dwell(ms),
{
    let s = ms / 1000;
    let mut out = String::new();
    if s < 60 {
        push_decimal(&mut out, s);
        push_char(&mut out, 's');
    } else if s < 3600 {
        push_decimal(&mut out, s / 60);
        push_char(&mut out, 'm');
    } else if s < 86_400 {
        push_decimal(&mut out, s / 3600);
        push_char(&mut out, 'h');
        push_char(&mut out, ' ');
        push_decimal(&mut out, (s % 3600) / 60);
        push_char(&mut out, 'm');
    } else {
        push_decimal(&mut out, s / 86_400);
        push_char(&mut out, 'd');
        push_char(&mut out, ' ');
        push_decimal(&mut out, (s % 86_400) / 3600);
        push_char(&mut out, 'h');
    }
    proof {
        let sn = ms as nat / 1000;
        if sn < 60 {
            assert(out@ =~= decimal(sn) + seq!['s']);
        } else if sn < 3600 {
            assert(out@ =~= decimal(sn / 60) + seq!['m']);
        } else if sn < 86_400 {
            assert(out@ =~= decimal(sn / 3600) + seq!['h', ' '] + decimal((sn % 3600) / 60) + seq!['m']);
        } else {
            assert(out@ =~= decimal(sn / 86_400) + seq!['d', ' '] + decimal((sn % 86_400) / 3600) + seq!['h']);
        }
    }
    out
}

/// Compact count: thousands as `20k`, smaller counts in full.
pub open spec fn spec_fmt_k(n: u32) -> Seq<char> {
    if n >= 1000 {
        decimal(n as nat / 1000) + seq!['k']
    } else {
        decimal(n as nat)
    }
}

/// Compact count for the cap note (`20000` → `20k`).
pub fn fmt_k(n: u32) -> (r: String)
    ensures
        r@ == spec_fmt_k(n),
{
    let mut out = String::new();
    if n >= 1000 {
        push_decimal(&mut out, (n / 1000) as u64);
        push_char(&mut out, 'k');
        assert(out@ =~= decimal(n as nat / 1000) + seq!['k']);
    } else {
        push_decimal(&mut out, n as u64);
        assert(out@ =~= decimal(n as nat));
    }
    out
}

/// Quartile bin (0 empty, 1 to 4) of a day's `visits` against the busiest
/// day's `max`: above three quarters is 4, above half 3, above a quarter 2.
pub open spec fn spec_level(visits: u32, max: u32) -> u8 {
    if visits == 0 {
        0
    } else if 4 * visits > 3 * max {
        4
    } else if 2 * visits > max {
        3
    } else if 4 * visits > max {
        2
    } else {
        1
    }
}

/// Quartile bin of a day's visits against the busiest day.
pub fn level(visits: u32, max: u32) -> (r: u8)
    ensures
        r == spec_level(visits, max),
{
    let v = visits as u64;
    let m = max as u64;
    if visits == 0 {
        0
    } else if 4 * v > 3 * m {
        4
    } else if 2 * v > m {
        3
    } else if 4 * v > m {
        2
    } else {
        1
    }
}

/// The 12-hour clock label of hour `h` (`12 AM`, `1 AM`, ..., `12 PM`,
/// `1 PM`, ...).
pub open spec fn spec_fmt_hour(h: usize) -> Seq<char> {
    if h == 0 {
        "12 AM"@
    } else if h == 12 {
        "12 PM"@
    } else if h < 12 {
        decimal(h as nat) + " AM"@
    } else {
        decimal((h - 12) as nat) + " PM"@
    }
}

/// The 12-hour clock label of an hour of the day.
pub fn fmt_hour(h: usize) -> (r: String)
    ensures
        r@ == spec_fmt_hour(h),
{
    let mut out = String::new();
    if h == 0 {
        push_str(&mut out, "12 AM");
    } else if h == 12 {
        push_str(&mut out, "12 PM");
    } else if h < 12 {
        push_decimal(&mut out, h as u64);
        push_str(&mut out, " AM");
    } else {
        push_decimal(&mut out, (h - 12) as u64);
        push_str(&mut out, " PM");
    }
    assert(out@ =~= spec_fmt_hour(h));
    out
}

/// Weekday names, Sunday first; `—` past Saturday.
pub open spec fn spec_weekday_name(d: usize) -> Seq<char> {
    if d == 0 {
        "Sunday"@
    } else if d == 1 {
        "Monday"@
    } else if d == 2 {
        "Tuesday"@
    } else if d == 3 {
        "Wednesday"@
    } else if d == 4 {
        "Thursday"@
    } else if d == 5 {
        "Friday"@
    } else if d == 6 {
        "Saturday"@
    } else {
        "—"@
    }
}

/// The name of weekday `d` (0 is Sunday).
pub fn weekday_name(d: usize) -> (r: &'static str)
    ensures
        r@ == spec_weekday_name(d),
{
    if d == 0 {
        "Sunday"
    } else if d == 1 {
        "Monday"
    } else if d == 2 {
        "Tuesday"
    } else if d == 3 {
        "Wednesday"
    } else if d == 4 {
        "Thursday"
    } else if d == 5 {
        "Friday"
    } else if d == 6 {
        "Saturday"
    } else {
        "—"
    }
}

/// The heading of a time range in the tables view.
pub open spec fn spec_range_label(range: TimeRange) -> Seq<char> {
    match range {
        TimeRange::Session => "This session"@,
        TimeRange::Day => "Today"@,
        TimeRange::Week => "This week"@,
        TimeRange::Month => "This month"@,
        TimeRange::Year => "This year"@,
    }
}

/// The heading of a time range in the tables view.
pub fn range_label(range: TimeRange) -> (r: &'static str)
    ensures
        r@ == spec_range_label(range),
{
    match range {
        TimeRange::Session => "This session",
        TimeRange::Day => "Today",
        TimeRange::Week => "This week",
        TimeRange::Month => "This month",
        TimeRange::Year => "This year",
    }
}

/// The provenance of a legend row's key (`external` is a start page).
pub open spec fn spec_prov_from_key(key: Seq<char>) -> Option<Provenance> {
    if key == "search"@ {
        Some(Provenance::SearchOrigin)
    } else if key == "link"@ {
        Some(Provenance::Link)
    } else if key == "typed"@ {
        Some(Provenance::TypedUrl)
    } else if key == "bookmark"@ {
        Some(Provenance::Bookmark)
    } else if key == "form"@ {
        Some(Provenance::Form)
    } else if key == "external"@ {
        Some(Provenance::Start)
    } else if key == "other"@ {
        Some(Provenance::Other)
    } else {
        None
    }
}

/// Map a legend row's key to its provenance.
pub fn prov_from_key(key: &str) -> (r: Option<Provenance>)
    ensures
        r == spec_prov_from_key(key@),
{
    if str_eq(key, "search") {
        Some(Provenance::SearchOrigin)
    } else if str_eq(key, "link") {
        Some(Provenance::Link)
    } else if str_eq(key, "typed") {
        Some(Provenance::TypedUrl)
    } else if str_eq(key, "bookmark") {
        Some(Provenance::Bookmark)
    } else if str_eq(key, "form") {
        Some(Provenance::Form)
    } else if str_eq(key, "external") {
        Some(Provenance::Start)
    } else if str_eq(key, "other") {
        Some(Provenance::Other)
    } else {
        None
    }
}

/// The marker-dot CSS class of a provenance (by its displayed provenance).
pub open spec fn spec_prov_dot(p: Provenance) -> Seq<char> {
    match spec_display(p) {
        Provenance::SearchOrigin => "dot-search"@,
        Provenance::Link => "dot-link"@,
        Provenance::TypedUrl => "dot-typed"@,
        Provenance::Bookmark => "dot-bookmark"@,
        Provenance::Form => "dot-form"@,
        Provenance::Start => "dot-external"@,
        _ => "dot-other"@,
    }
}

/// The legend/marker dot CSS class for a provenance.
pub fn prov_dot(p: Provenance) -> (r: &'static str)
    ensures
        r@ == spec_prov_dot(p),
{
    match p.display() {
        Provenance::SearchOrigin => "dot-search",
        Provenance::Link => "dot-link",
        Provenance::TypedUrl => "dot-typed",
        Provenance::Bookmark => "dot-bookmark",
        Provenance::Form => "dot-form",
        Provenance::Start => "dot-external",
        _ => "dot-other",
    }
}

/// Sum of the counts.
pub open spec fn count_total(c: Seq<u32>) -> int
    decreases c.len(),
{
    if c.len() == 0 {
        0
    } else {
        count_total(c.drop_last()) + c.last()
    }
}

/// Sum of the rounded-down shares `c[i] * 100 / total` of the first `n` counts.
pub open spec fn floor_sum(c: Seq<u32>, total: int, n: int) -> int
    decreases n,
{
    if n <= 0 {
        0
    } else {
        floor_sum(c, total, n - 1) + (c[n - 1] * 100) / total
    }
}

/// Whether count `j` is served before count `i` when the leftover units are
/// handed out: a larger remainder first, ties to the earlier index.
pub open spec fn hands_before(c: Seq<u32>, total: int, j: int, i: int) -> bool {
    let rj = (c[j] * 100) % total;
    let ri = (c[i] * 100) % total;
    rj > ri || (rj == ri && j < i)
}

/// How many counts among the first `n` are served before count `i`.
pub open spec fn remainder_rank(c: Seq<u32>, total: int, i: int, n: int) -> int
    decreases n,
{
    if n <= 0 {
        0
    } else {
        remainder_rank(c, total, i, n - 1) + if hands_before(c, total, n - 1, i) {
            1int
        } else {
            0
        }
    }
}

/// Whole-number percentages of the counts that add up to exactly 100 (when
/// any count is positive): each count gets its rounded-down share, and the
/// units left over go to the largest remainders, ties to the earlier count.
pub open spec fn spec_percentages(c: Seq<u32>) -> Seq<u32> {
    let total = count_total(c);
    if total == 0 {
        Seq::new(c.len(), |i: int| 0u32)
    } else {
        let left = 100 - floor_sum(c, total, c.len() as int);
        Seq::new(
            c.len(),
            |i: int| ((c[i] * 100) / total + if remainder_rank(c, total, i, c.len() as int) < left {
                1int
            } else {
                0
            }) as u32,
        )
    }
}

proof fn lemma_count_total_prefix(c: Seq<u32>, n: int)
    requires
        0 <= n <= c.len(),
    ensures
        0 <= count_total(c.take(n)) <= count_total(c),
        count_total(c.take(n)) <= n * (u32::MAX as int),
    decreases c.len() - n,
{
    if n < c.len() {
        lemma_count_total_prefix(c, n + 1);
        assert(c.take(n + 1).drop_last() =~= c.take(n));
    } else {
        assert(c.take(n) =~= c);
    }
    lemma_count_total_bound(c.take(n));
}

proof fn lemma_count_total_bound(c: Seq<u32>)
    ensures
        0 <= count_total(c) <= c.len() * (u32::MAX as int),
    decreases c.len(),
{
    if c.len() > 0 {
        lemma_count_total_bound(c.drop_last());
        assert((c.len() - 1) * (u32::MAX as int) + u32::MAX == c.len() * (u32::MAX as int)) by (nonlinear_arith);
    }
}

proof fn lemma_div_add_le(a: int, b: int, t: int)
    by (nonlinear_arith)
    requires
        t > 0,
        a >= 0,
        b >= 0,
    ensures
        a / t + b / t <= (a + b) / t,
        0 <= a / t,
{
}

proof fn lemma_floor_sum_bound(c: Seq<u32>, total: int, n: int)
    requires
        total > 0,
        0 <= n <= c.len(),
    ensures
        0 <= floor_sum(c, total, n) <= (100 * count_total(c.take(n))) / total,
    decreases n,
{
    if n > 0 {
        lemma_floor_sum_bound(c, total, n - 1);
        assert(c.take(n).drop_last() =~= c.take(n - 1));
        let a = count_total(c.take(n - 1));
        let x = c[n - 1] as int;
        assert(count_total(c.take(n)) == a + x);
        lemma_count_total_prefix(c, n - 1);
        lemma_div_add_le(100 * a, x * 100, total);
        assert(100 * (a + x) == 100 * a + x * 100);
    } else {
        assert(c.take(0) =~= Seq::<u32>::empty());
    }
}

/// Whole-number percentages of the counts, adding up to 100 when any count
/// is positive (largest-remainder apportionment).
pub fn percentages(counts: &[u32]) -> (r: Vec<u32>)
    requires
        counts@.len() <= u32::MAX,
    ensures
        r@ == spec_percentages(counts@),
        count_total(counts@) > 0 ==> count_total(r@) == 100,
{
    let ghost c = counts@;
    let n = counts.len();
    let mut total: u64 = 0;
    let mut i: usize = 0;
    while i < n
        invariant
            n == c.len(),
            c == counts@,
            c.len() <= u32::MAX,
            i <= n,
            total == count_total(c.take(i as int)),
        decreases n - i,
    {
        proof {
            assert(c.take(i + 1).drop_last() =~= c.take(i as int));
            lemma_count_total_prefix(c, i + 1);
            assert((i + 1) * (u32::MAX as int) <= u32::MAX * u32::MAX) by (nonlinear_arith)
                requires
                    i + 1 <= u32::MAX;
        }
        total = total + counts[i] as u64;
        i += 1;
    }
    proof {
        assert(c.take(n as int) =~= c);
    }
    if total == 0 {
        let mut z: Vec<u32> = Vec::new();
        let mut k: usize = 0;
        while k < n
            invariant
                k <= n,
                n == c.len(),
                z@.len() == k,
                forall|x: int| 0 <= x < k ==> z@[x] == 0u32,
            decreases n - k,
        {
            z.push(0);
            k += 1;
        }
        assert(z@ =~= spec_percentages(c));
        return z;
    }
    let ghost t = total as int;
    let mut assigned: u64 = 0;
    let mut k: usize = 0;
    while k < n
        invariant
            n == c.len(),
            c == counts@,
            k <= n,
            total > 0,
            t == total,
            t == count_total(c),
            assigned == floor_sum(c, t, k as int),
        decreases n - k,
    {
        proof {
            lemma_floor_sum_bound(c, t, k + 1);
            lemma_count_total_prefix(c, k + 1);
            assert((100 * count_total(c.take(k + 1))) / t <= 100) by (nonlinear_arith)
                requires
                    0 <= count_total(c.take(k + 1)) <= t,
                    t > 0;
        }
        assigned = assigned + (counts[k] as u64) * 100 / total;
        k += 1;
    }
    let left: u64 = if assigned <= 100 { 100 - assigned } else { 0 };
    proof {
        lemma_floor_sum_bound(c, t, n as int);
        assert(c.take(n as int) =~= c);
        assert((100 * t) / t == 100) by (nonlinear_arith)
            requires
                t > 0;
    }
    let mut out: Vec<u32> = Vec::new();
    let mut a: usize = 0;
    while a < n
        invariant
            n == c.len(),
            c == counts@,
            a <= n,
            total > 0,
            t == total,
            t == count_total(c),
            left == 100 - floor_sum(c, t, n as int),
            out@.len() == a,
            forall|x: int| 0 <= x < a ==> out@[x] == spec_percentages(c)[x],
        decreases n - a,
    {
        let ra = (counts[a] as u64) * 100 % total;
        let mut rank: u64 = 0;
        let mut j: usize = 0;
        while j < n
            invariant
                n == c.len(),
                c == counts@,
                a < n,
                j <= n,
                total > 0,
                t == total,
                ra == (c[a as int] * 100) % t,
                rank == remainder_rank(c, t, a as int, j as int),
                rank <= j,
            decreases n - j,
        {
            let rj = (counts[j] as u64) * 100 % total;
            if rj > ra || (rj == ra && j < a) {
                rank = rank + 1;
            }
            j += 1;
        }
        let base = (counts[a] as u64) * 100 / total;
        proof {
            lemma_count_le_total(c, a as int);
            assert(base <= 100) by (nonlinear_arith)
                requires
                    base == (c[a as int] * 100) / t,
                    c[a as int] <= t,
                    t > 0;
        }
        let p: u64 = if rank < left { base + 1 } else { base };
        out.push(p as u32);
        a += 1;
    }
    assert(out@ =~= spec_percentages(c));
    proof {
        lemma_percentages_sum_to_hundred(c);
    }
    out
}

proof fn lemma_count_le_total(c: Seq<u32>, i: int)
    requires
        0 <= i < c.len(),
    ensures
        c[i] <= count_total(c),
    decreases c.len(),
{
    lemma_count_total_bound(c.drop_last());
    if i < c.len() - 1 {
        lemma_count_le_total(c.drop_last(), i);
    }
}


/// The counts served before count `i`, among the first `m`.
spec fn served_before(c: Seq<u32>, total: int, i: int, m: int) -> Set<int> {
    Set::new(|j: int| 0 <= j < m && hands_before(c, total, j, i))
}

/// The rank of count `i` among all the counts.
spec fn full_rank(c: Seq<u32>, total: int, i: int) -> int {
    remainder_rank(c, total, i, c.len() as int)
}

proof fn lemma_rank_counts_served(c: Seq<u32>, total: int, i: int, m: int)
    requires
        0 <= m,
    ensures
        served_before(c, total, i, m).finite(),
        served_before(c, total, i, m).len() == remainder_rank(c, total, i, m),
    decreases m,
{
    if m == 0 {
        assert(served_before(c, total, i, m) =~= Set::<int>::empty());
    } else {
        lemma_rank_counts_served(c, total, i, m - 1);
        if hands_before(c, total, m - 1, i) {
            assert(served_before(c, total, i, m) =~= served_before(c, total, i, m - 1).insert(m - 1));
        } else {
            assert(served_before(c, total, i, m) =~= served_before(c, total, i, m - 1));
        }
    }
}

proof fn lemma_rank_below_len(c: Seq<u32>, total: int, i: int)
    requires
        0 <= i < c.len(),
    ensures
        0 <= full_rank(c, total, i) < c.len(),
{
    let n = c.len() as int;
    lemma_rank_counts_served(c, total, i, n);
    lemma_int_range(0, n);
    let rest = set_int_range(0, n).remove(i);
    assert(served_before(c, total, i, n).subset_of(rest));
    lemma_len_subset(served_before(c, total, i, n), rest);
}

proof fn lemma_rank_increases(c: Seq<u32>, total: int, j: int, i: int)
    requires
        0 <= i < c.len(),
        0 <= j < c.len(),
        hands_before(c, total, j, i),
    ensures
        full_rank(c, total, j) < full_rank(c, total, i),
{
    let n = c.len() as int;
    lemma_rank_counts_served(c, total, i, n);
    lemma_rank_counts_served(c, total, j, n);
    let sj = served_before(c, total, j, n);
    let si = served_before(c, total, i, n);
    assert(!sj.contains(j));
    assert(sj.insert(j).subset_of(si));
    lemma_len_subset(sj.insert(j), si);
}

proof fn lemma_ranks_cover(c: Seq<u32>, total: int)
    ensures
        set_int_range(0, c.len() as int).map(|i: int| full_rank(c, total, i)) =~= set_int_range(0, c.len() as int),
        injective_on(|i: int| full_rank(c, total, i), set_int_range(0, c.len() as int)),
{
    let n = c.len() as int;
    let d = set_int_range(0, n);
    let f = |i: int| full_rank(c, total, i);
    assert forall|x: int, y: int| d.contains(x) && d.contains(y) && #[trigger] f(x) == #[trigger] f(y) implies x == y by {
        if x != y {
            if hands_before(c, total, x, y) {
                lemma_rank_increases(c, total, x, y);
            } else {
                lemma_rank_increases(c, total, y, x);
            }
        }
    }
    lemma_int_range(0, n);
    let img = d.map(f);
    lemma_map_size(d, img, f);
    assert forall|v: int| img.contains(v) implies d.contains(v) by {
        let i = choose|i: int| d.contains(i) && v == f(i);
        lemma_rank_below_len(c, total, i);
    }
    lemma_subset_equality(img, d);
}

/// The counts among the first `m` whose rank is below `k`.
spec fn ranked_below(c: Seq<u32>, total: int, k: int, m: int) -> Set<int> {
    Set::new(|i: int| 0 <= i < m && full_rank(c, total, i) < k)
}

proof fn lemma_ranked_below_len(c: Seq<u32>, total: int, k: int)
    requires
        0 <= k <= c.len(),
    ensures
        ranked_below(c, total, k, c.len() as int).finite(),
        ranked_below(c, total, k, c.len() as int).len() == k,
{
    let n = c.len() as int;
    let d = set_int_range(0, n);
    let f = |i: int| full_rank(c, total, i);
    let a = ranked_below(c, total, k, n);
    lemma_ranks_cover(c, total);
    lemma_int_range(0, n);
    lemma_int_range(0, k);
    assert(a.subset_of(d));
    lemma_len_subset(a, d);
    assert forall|v: int| #[trigger] set_int_range(0, k).contains(v) implies a.map(f).contains(v) by {
        assert(d.map(f).contains(v));
        let i = choose|i: int| d.contains(i) && v == f(i);
        assert(a.contains(i));
    }
    assert forall|v: int| #[trigger] a.map(f).contains(v) implies set_int_range(0, k).contains(v) by {
        let i = choose|i: int| a.contains(i) && v == f(i);
        lemma_rank_below_len(c, total, i);
    }
    assert(a.map(f) =~= set_int_range(0, k));
    lemma_map_size(a, set_int_range(0, k), f);
}

proof fn lemma_floor_sum_remainders(c: Seq<u32>, total: int, m: int)
    requires
        total > 0,
        0 <= m <= c.len(),
    ensures
        0 <= 100 * count_total(c.take(m)) - total * floor_sum(c, total, m) <= m * (total - 1),
    decreases m,
{
    if m == 0 {
        assert(c.take(0) =~= Seq::<u32>::empty());
    } else {
        lemma_floor_sum_remainders(c, total, m - 1);
        assert(c.take(m).drop_last() =~= c.take(m - 1));
        let x = c[m - 1] * 100;
        let a = count_total(c.take(m - 1));
        let f0 = floor_sum(c, total, m - 1);
        let q = x / total;
        assert(count_total(c.take(m)) == a + c[m - 1]);
        assert(floor_sum(c, total, m) == f0 + q);
        assert(0 <= x - total * q <= total - 1) by (nonlinear_arith)
            requires
                total > 0,
                x >= 0,
                q == x / total;
        assert(total * (f0 + q) == total * f0 + total * q) by (nonlinear_arith);
        assert(100 * (a + c[m - 1]) == 100 * a + x);
        assert((m - 1) * (total - 1) + (total - 1) == m * (total - 1)) by (nonlinear_arith);
    }
}

proof fn lemma_percentages_prefix(c: Seq<u32>, m: int)
    requires
        count_total(c) > 0,
        0 <= m <= c.len(),
    ensures
        ({
            let t = count_total(c);
            let left = 100 - floor_sum(c, t, c.len() as int);
            &&& ranked_below(c, t, left, m).finite()
            &&& count_total(spec_percentages(c).take(m)) == floor_sum(c, t, m) + ranked_below(c, t, left, m).len()
        }),
    decreases m,
{
    let t = count_total(c);
    let left = 100 - floor_sum(c, t, c.len() as int);
    let p = spec_percentages(c);
    if m == 0 {
        assert(p.take(0) =~= Seq::<u32>::empty());
        assert(ranked_below(c, t, left, 0) =~= Set::<int>::empty());
    } else {
        lemma_percentages_prefix(c, m - 1);
        assert(p.take(m).drop_last() =~= p.take(m - 1));
        lemma_count_le_total(c, m - 1);
        let base = (c[m - 1] * 100) / t;
        assert(0 <= base <= 100) by (nonlinear_arith)
            requires
                base == (c[m - 1] * 100) / t,
                0 <= c[m - 1] <= t,
                t > 0;
        if full_rank(c, t, m - 1) < left {
            assert(ranked_below(c, t, left, m) =~= ranked_below(c, t, left, m - 1).insert(m - 1));
        } else {
            assert(ranked_below(c, t, left, m) =~= ranked_below(c, t, left, m - 1));
        }
    }
}

/// Whenever any count is positive, the percentages add up to exactly 100.
pub proof fn lemma_percentages_sum_to_hundred(c: Seq<u32>)
    requires
        count_total(c) > 0,
    ensures
        count_total(spec_percentages(c)) == 100,
{
    let t = count_total(c);
    let n = c.len() as int;
    lemma_count_total_bound(c);
    lemma_floor_sum_bound(c, t, n);
    lemma_floor_sum_remainders(c, t, n);
    assert(c.take(n) =~= c);
    let fs = floor_sum(c, t, n);
    assert(fs <= 100) by (nonlinear_arith)
        requires
            fs <= (100 * t) / t,
            t > 0;
    assert(t * (100 - fs) <= t * n) by (nonlinear_arith)
        requires
            0 <= 100 * t - t * fs <= n * (t - 1),
            n >= 0,
            t > 0;
    assert(100 - fs <= n) by (nonlinear_arith)
        requires
            t * (100 - fs) <= t * n,
            t > 0;
    lemma_ranked_below_len(c, t, 100 - fs);
    lemma_percentages_prefix(c, n);
    assert(spec_percentages(c).take(n) =~= spec_percentages(c));
}

} // verus!
