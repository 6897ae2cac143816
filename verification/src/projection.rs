//! Projecting day buckets into a graph: merge the buckets, regroup hosts to
//! registrable domains when asked (dropping the self-loops that creates),
//! apply the display filters, and order nodes and edges.
use vstd::prelude::*;
use crate::flow::strs;
use crate::project::contains_str;
use crate::interpret::{registrable, spec_registrable};
use crate::keyed::keys_distinct;
use crate::model::{copy_node, EdgeAgg, GraphProjection, EdgeKind, Granularity, KindBreakdown, NodeAgg, ProvBreakdown, Provenance};
use crate::project::Filters;
use crate::sessions::{lemma_prov_dominant, prov_dominant};
use crate::rollup::{first_index_of, split_edge_key, DayBucket, EdgeStat, NodeStat};
use crate::sorting::{is_index_perm, key_lt, key_views, lemma_key_total, sort_order, KeyView, RankKey, permute};
use crate::tally::{lemma_perm_onto, permutes};
use crate::text::{chars_of, str_eq};

verus! {

/// The key a stored hostname groups under at granularity `g`.
pub open spec fn group(g: Granularity, k: Seq<char>) -> Seq<char> {
    match g {
        Granularity::Hostname => k,
        Granularity::Registrable => spec_registrable(k),
    }
}

/// The grouped endpoints of a stored edge key: `None` when the key does not
/// split, or when regrouping made it a self-loop.
pub open spec fn edge_group(g: Granularity, key: Seq<char>) -> Option<(Seq<char>, Seq<char>)> {
    match first_index_of(key, '\0') {
        Some(i) => {
            let a = group(g, key.take(i));
            let b = group(g, key.skip(i + 1));
            if g == Granularity::Registrable && a == b {
                None
            } else {
                Some((a, b))
            }
        },
        None => None,
    }
}

/// Field `w` of a node statistic: visits, dwell, then the provenance counts
/// in declaration order.
pub open spec fn node_field(s: NodeStat, w: int) -> int {
    if w == 0 {
        s.visits as int
    } else if w == 1 {
        s.dwell_ms as int
    } else if w == 2 {
        s.prov.link as int
    } else if w == 3 {
        s.prov.form as int
    } else if w == 4 {
        s.prov.typed_url as int
    } else if w == 5 {
        s.prov.search_origin as int
    } else if w == 6 {
        s.prov.bookmark as int
    } else if w == 7 {
        s.prov.start as int
    } else if w == 8 {
        s.prov.reload as int
    } else if w == 9 {
        s.prov.other as int
    } else {
        0
    }
}

/// The largest value field `w` of a node statistic holds.
pub open spec fn node_field_max(w: int) -> int {
    if w == 1 {
        u64::MAX as int
    } else {
        u32::MAX as int
    }
}

/// Field `w` of an edge statistic: weight, then the kind counts.
pub open spec fn edge_field(s: EdgeStat, w: int) -> int {
    if w == 0 {
        s.weight as int
    } else if w == 1 {
        s.kinds.link as int
    } else if w == 2 {
        s.kinds.search_link as int
    } else if w == 3 {
        s.kinds.form as int
    } else {
        0
    }
}

/// Every node entry of every bucket, bucket after bucket.
pub open spec fn flat_nodes(bs: Seq<DayBucket>) -> Seq<(String, NodeStat)>
    decreases bs.len(),
{
    if bs.len() == 0 {
        Seq::empty()
    } else {
        flat_nodes(bs.drop_last()) + bs.last().nodes@
    }
}

/// Every edge entry of every bucket, bucket after bucket.
pub open spec fn flat_edges(bs: Seq<DayBucket>) -> Seq<(String, EdgeStat)>
    decreases bs.len(),
{
    if bs.len() == 0 {
        Seq::empty()
    } else {
        flat_edges(bs.drop_last()) + bs.last().edges@
    }
}

/// Sum of field `w` over the node entries that group to `r`.
pub open spec fn nsum(es: Seq<(String, NodeStat)>, g: Granularity, r: Seq<char>, w: int) -> int
    decreases es.len(),
{
    if es.len() == 0 {
        0
    } else {
        nsum(es.drop_last(), g, r, w) + if group(g, es.last().0@) == r {
            node_field(es.last().1, w)
        } else {
            0
        }
    }
}

/// Sum of field `w` over the edge entries that group to `(a, b)`.
pub open spec fn esum(es: Seq<(String, EdgeStat)>, g: Granularity, a: Seq<char>, b: Seq<char>, w: int) -> int
    decreases es.len(),
{
    if es.len() == 0 {
        0
    } else {
        esum(es.drop_last(), g, a, b, w) + if edge_group(g, es.last().0@) == Some((a, b)) {
            edge_field(es.last().1, w)
        } else {
            0
        }
    }
}

/// Some node entry groups to `r`.
pub open spec fn nseen(es: Seq<(String, NodeStat)>, g: Granularity, r: Seq<char>) -> bool {
    exists|i: int| 0 <= i < es.len() && group(g, es[i].0@) == r
}

/// Some edge entry groups to `(a, b)`.
pub open spec fn eseen(es: Seq<(String, EdgeStat)>, g: Granularity, a: Seq<char>, b: Seq<char>) -> bool {
    exists|i: int| 0 <= i < es.len() && edge_group(g, es[i].0@) == Some((a, b))
}

/// Merged node entries: one per group key seen, holding its sums.
pub open spec fn node_tally(m: Seq<(String, NodeStat)>, es: Seq<(String, NodeStat)>, g: Granularity) -> bool {
    &&& keys_distinct(m)
    &&& forall|i: int, w: int| 0 <= i < m.len() ==> #[trigger] node_field(m[i].1, w) == nsum(es, g, m[i].0@, w)
    &&& forall|i: int| 0 <= i < m.len() ==> nseen(es, g, (#[trigger] m[i]).0@)
    &&& forall|r: Seq<char>| nseen(es, g, r) ==> exists|i: int| 0 <= i < m.len() && (#[trigger] m[i]).0@ == r
}

/// Merged edge entries: one per grouped pair seen, holding its sums.
pub open spec fn edge_tally(m: Seq<((String, String), EdgeStat)>, es: Seq<(String, EdgeStat)>, g: Granularity) -> bool {
    &&& forall|i: int, j: int| 0 <= i < j < m.len() ==> ((#[trigger] m[i]).0.0@, m[i].0.1@) != ((#[trigger] m[j]).0.0@, m[j].0.1@)
    &&& forall|i: int, w: int| 0 <= i < m.len() ==> #[trigger] edge_field(m[i].1, w) == esum(es, g, m[i].0.0@, m[i].0.1@, w)
    &&& forall|i: int| 0 <= i < m.len() ==> eseen(es, g, (#[trigger] m[i]).0.0@, m[i].0.1@)
    &&& forall|a: Seq<char>, b: Seq<char>|
        eseen(es, g, a, b) ==> exists|i: int| 0 <= i < m.len() && (#[trigger] m[i]).0.0@ == a && m[i].0.1@ == b
}

pub proof fn lemma_nsum_nonneg(es: Seq<(String, NodeStat)>, g: Granularity, r: Seq<char>, w: int)
    ensures
        nsum(es, g, r, w) >= 0,
    decreases es.len(),
{
    if es.len() > 0 {
        lemma_nsum_nonneg(es.drop_last(), g, r, w);
    }
}

pub proof fn lemma_nsum_prefix(es: Seq<(String, NodeStat)>, n: int, g: Granularity, r: Seq<char>, w: int)
    requires
        0 <= n <= es.len(),
    ensures
        nsum(es.take(n), g, r, w) <= nsum(es, g, r, w),
    decreases es.len() - n,
{
    if n < es.len() {
        lemma_nsum_prefix(es, n + 1, g, r, w);
        assert(es.take(n + 1).drop_last() =~= es.take(n));
    } else {
        assert(es.take(n) =~= es);
    }
}

pub proof fn lemma_esum_nonneg(es: Seq<(String, EdgeStat)>, g: Granularity, a: Seq<char>, b: Seq<char>, w: int)
    ensures
        esum(es, g, a, b, w) >= 0,
    decreases es.len(),
{
    if es.len() > 0 {
        lemma_esum_nonneg(es.drop_last(), g, a, b, w);
    }
}

pub proof fn lemma_esum_prefix(es: Seq<(String, EdgeStat)>, n: int, g: Granularity, a: Seq<char>, b: Seq<char>, w: int)
    requires
        0 <= n <= es.len(),
    ensures
        esum(es.take(n), g, a, b, w) <= esum(es, g, a, b, w),
    decreases es.len() - n,
{
    if n < es.len() {
        lemma_esum_prefix(es, n + 1, g, a, b, w);
        assert(es.take(n + 1).drop_last() =~= es.take(n));
    } else {
        assert(es.take(n) =~= es);
    }
}

/// The entries of the first `i` buckets are a prefix of all entries.
pub proof fn lemma_flat_prefix(bs: Seq<DayBucket>, i: int)
    requires
        0 <= i <= bs.len(),
    ensures
        flat_nodes(bs.take(i)) == flat_nodes(bs).take(flat_nodes(bs.take(i)).len() as int),
        flat_edges(bs.take(i)) == flat_edges(bs).take(flat_edges(bs.take(i)).len() as int),
        flat_nodes(bs.take(i)).len() <= flat_nodes(bs).len(),
        flat_edges(bs.take(i)).len() <= flat_edges(bs).len(),
    decreases bs.len() - i,
{
    if i < bs.len() {
        lemma_flat_prefix(bs, i + 1);
        assert(bs.take(i + 1).drop_last() =~= bs.take(i));
        let a = flat_nodes(bs.take(i));
        let b = flat_nodes(bs.take(i + 1));
        assert(b == a + bs[i].nodes@);
        assert(a =~= b.take(a.len() as int));
        let c = flat_edges(bs.take(i));
        let d = flat_edges(bs.take(i + 1));
        assert(d == c + bs[i].edges@);
        assert(c =~= d.take(c.len() as int));
        assert(flat_nodes(bs).take(a.len() as int) =~= flat_nodes(bs).take(b.len() as int).take(a.len() as int));
        assert(flat_edges(bs).take(c.len() as int) =~= flat_edges(bs).take(d.len() as int).take(c.len() as int));
    } else {
        assert(bs.take(i) =~= bs);
        assert(flat_nodes(bs).take(flat_nodes(bs).len() as int) =~= flat_nodes(bs));
        assert(flat_edges(bs).take(flat_edges(bs).len() as int) =~= flat_edges(bs));
    }
}

/// Node sums fit their fields.
pub open spec fn node_sums_fit(bs: Seq<DayBucket>, g: Granularity) -> bool {
    forall|r: Seq<char>, w: int| #[trigger] nsum(flat_nodes(bs), g, r, w) <= node_field_max(w)
}

/// Edge sums fit their fields.
pub open spec fn edge_sums_fit(bs: Seq<DayBucket>, g: Granularity) -> bool {
    forall|a: Seq<char>, b: Seq<char>, w: int| #[trigger] esum(flat_edges(bs), g, a, b, w) <= u32::MAX
}

/// The group key of a stored hostname.
fn group_key(k: &str, g: Granularity) -> (r: String)
    ensures
        r@ == group(g, k@),
{
    match g {
        Granularity::Hostname => k.to_string(),
        Granularity::Registrable => registrable(k),
    }
}

/// A node statistic's fields as the field function.
proof fn lemma_node_plus(a: NodeStat, b: NodeStat, w: int)
    requires
        a.can_add(b),
    ensures
        node_field(a.plus(b), w) == node_field(a, w) + node_field(b, w),
{
    assert(a.prov.count(Provenance::Link) + b.prov.count(Provenance::Link) <= u32::MAX);
    assert(a.prov.count(Provenance::Form) + b.prov.count(Provenance::Form) <= u32::MAX);
    assert(a.prov.count(Provenance::TypedUrl) + b.prov.count(Provenance::TypedUrl) <= u32::MAX);
    assert(a.prov.count(Provenance::SearchOrigin) + b.prov.count(Provenance::SearchOrigin) <= u32::MAX);
    assert(a.prov.count(Provenance::Bookmark) + b.prov.count(Provenance::Bookmark) <= u32::MAX);
    assert(a.prov.count(Provenance::Start) + b.prov.count(Provenance::Start) <= u32::MAX);
    assert(a.prov.count(Provenance::Reload) + b.prov.count(Provenance::Reload) <= u32::MAX);
    assert(a.prov.count(Provenance::Other) + b.prov.count(Provenance::Other) <= u32::MAX);
}

proof fn lemma_edge_plus(a: EdgeStat, b: EdgeStat, w: int)
    requires
        a.can_add(b),
    ensures
        edge_field(a.plus(b), w) == edge_field(a, w) + edge_field(b, w),
{
    assert(a.kinds.count(EdgeKind::Link) + b.kinds.count(EdgeKind::Link) <= u32::MAX);
    assert(a.kinds.count(EdgeKind::SearchLink) + b.kinds.count(EdgeKind::SearchLink) <= u32::MAX);
    assert(a.kinds.count(EdgeKind::Form) + b.kinds.count(EdgeKind::Form) <= u32::MAX);
}


/// Count one more stored node entry `x` (with group key `gk`) into `m`.
fn add_node_entry(m: &mut Vec<(String, NodeStat)>, gk: String, stat: NodeStat, Ghost(es): Ghost<Seq<(String, NodeStat)>>, Ghost(x): Ghost<(String, NodeStat)>, g: Granularity)
    requires
        node_tally(old(m)@, es, g),
        group(g, x.0@) == gk@,
        x.1 == stat,
        forall|w: int| nsum(es.push(x), g, gk@, w) <= node_field_max(w),
    ensures
        node_tally(final(m)@, es.push(x), g),
{
    let ghost es2 = es.push(x);
    proof {
        assert(es2.drop_last() =~= es);
        assert(es2.last() == x);
    }
    match crate::keyed::find_key(m, gk.as_str()) {
        Some(j) => {
            let mut acc = m[j].1;
            let ghost a0 = acc;
            proof {
                assert forall|w: int| node_field(a0, w) + node_field(stat, w) <= node_field_max(w) by {
                    assert(node_field(m@[j as int].1, w) == nsum(es, g, m@[j as int].0@, w));
                    assert(nsum(es2, g, gk@, w) == nsum(es, g, gk@, w) + node_field(stat, w));
                }
                assert(a0.prov.can_merge(stat.prov)) by {
                    assert forall|p: Provenance| a0.prov.count(p) + stat.prov.count(p) <= u32::MAX by {
                        match p {
                            Provenance::Link => assert(node_field(a0, 2) + node_field(stat, 2) <= node_field_max(2)),
                            Provenance::Form => assert(node_field(a0, 3) + node_field(stat, 3) <= node_field_max(3)),
                            Provenance::TypedUrl => assert(node_field(a0, 4) + node_field(stat, 4) <= node_field_max(4)),
                            Provenance::SearchOrigin => assert(node_field(a0, 5) + node_field(stat, 5) <= node_field_max(5)),
                            Provenance::Bookmark => assert(node_field(a0, 6) + node_field(stat, 6) <= node_field_max(6)),
                            Provenance::Start => assert(node_field(a0, 7) + node_field(stat, 7) <= node_field_max(7)),
                            Provenance::Reload => assert(node_field(a0, 8) + node_field(stat, 8) <= node_field_max(8)),
                            Provenance::Other => assert(node_field(a0, 9) + node_field(stat, 9) <= node_field_max(9)),
                        }
                    }
                }
                assert(node_field(a0, 0) + node_field(stat, 0) <= node_field_max(0));
                assert(node_field(a0, 1) + node_field(stat, 1) <= node_field_max(1));
            }
            crate::rollup::add_node_stat(&mut acc, &stat);
            let key = m[j].0.clone();
            let ghost m0 = m@;
            m.set(j, (key, acc));
            proof {
                let m1 = m@;
                assert forall|i: int, w: int| 0 <= i < m1.len() implies #[trigger] node_field(m1[i].1, w) == nsum(es2, g, m1[i].0@, w) by {
                    if i == j {
                        lemma_node_plus(a0, stat, w);
                    } else {
                        assert(m1[i] == m0[i]);
                        assert(node_field(m0[i].1, w) == nsum(es, g, m0[i].0@, w));
                        assert(m0[i].0@ != m0[j as int].0@);
                    }
                }
                assert forall|i: int| 0 <= i < m1.len() implies nseen(es2, g, (#[trigger] m1[i]).0@) by {
                    assert(m1[i].0@ == m0[i].0@);
                    assert(nseen(es, g, m0[i].0@));
                    let a = choose|a: int| 0 <= a < es.len() && group(g, es[a].0@) == m0[i].0@;
                    assert(es2[a] == es[a]);
                }
                assert forall|r: Seq<char>| nseen(es2, g, r) implies exists|i: int| 0 <= i < m1.len() && (#[trigger] m1[i]).0@ == r by {
                    let a = choose|a: int| 0 <= a < es2.len() && group(g, es2[a].0@) == r;
                    if a < es.len() {
                        assert(es2[a] == es[a]);
                        assert(nseen(es, g, r));
                        let i = choose|i: int| 0 <= i < m0.len() && (#[trigger] m0[i]).0@ == r;
                        assert(m1[i].0@ == r);
                    } else {
                        assert(m1[j as int].0@ == r);
                    }
                }
                assert(keys_distinct(m1)) by {
                    assert forall|i: int, k: int| 0 <= i < k < m1.len() implies (#[trigger] m1[i]).0@ != (#[trigger] m1[k]).0@ by {
                        assert(m1[i].0@ == m0[i].0@ && m1[k].0@ == m0[k].0@);
                    }
                }
            }
        },
        None => {
            let ghost m0 = m@;
            m.push((gk, stat));
            proof {
                let m1 = m@;
                assert forall|i: int, w: int| 0 <= i < m1.len() implies #[trigger] node_field(m1[i].1, w) == nsum(es2, g, m1[i].0@, w) by {
                    if i < m0.len() {
                        assert(m1[i] == m0[i]);
                        assert(node_field(m0[i].1, w) == nsum(es, g, m0[i].0@, w));
                    } else {
                        assert(!nseen(es, g, gk@)) by {
                            if nseen(es, g, gk@) {
                                let a = choose|a: int| 0 <= a < m0.len() && (#[trigger] m0[a]).0@ == gk@;
                            }
                        }
                        lemma_nsum_absent(es, g, gk@, w);
                    }
                }
                assert forall|i: int| 0 <= i < m1.len() implies nseen(es2, g, (#[trigger] m1[i]).0@) by {
                    if i < m0.len() {
                        assert(m1[i] == m0[i]);
                        assert(nseen(es, g, m0[i].0@));
                        let a = choose|a: int| 0 <= a < es.len() && group(g, es[a].0@) == m0[i].0@;
                        assert(es2[a] == es[a]);
                    } else {
                        assert(es2[es.len() as int] == x);
                    }
                }
                assert forall|r: Seq<char>| nseen(es2, g, r) implies exists|i: int| 0 <= i < m1.len() && (#[trigger] m1[i]).0@ == r by {
                    let a = choose|a: int| 0 <= a < es2.len() && group(g, es2[a].0@) == r;
                    if a < es.len() {
                        assert(es2[a] == es[a]);
                        assert(nseen(es, g, r));
                        let i = choose|i: int| 0 <= i < m0.len() && (#[trigger] m0[i]).0@ == r;
                        assert(m1[i] == m0[i]);
                    } else {
                        assert(m1[m0.len() as int].0@ == r);
                    }
                }
                assert(keys_distinct(m1)) by {
                    assert forall|i: int, k: int| 0 <= i < k < m1.len() implies (#[trigger] m1[i]).0@ != (#[trigger] m1[k]).0@ by {
                        if k == m0.len() {
                            assert(m1[i] == m0[i]);
                        } else {
                            assert(m1[i] == m0[i] && m1[k] == m0[k]);
                        }
                    }
                }
            }
        },
    }
}

proof fn lemma_nsum_absent(es: Seq<(String, NodeStat)>, g: Granularity, r: Seq<char>, w: int)
    requires
        !nseen(es, g, r),
    ensures
        nsum(es, g, r, w) == 0,
    decreases es.len(),
{
    if es.len() > 0 {
        assert(!nseen(es.drop_last(), g, r)) by {
            if nseen(es.drop_last(), g, r) {
                let a = choose|a: int| 0 <= a < es.drop_last().len() && group(g, es.drop_last()[a].0@) == r;
                assert(es[a] == es.drop_last()[a]);
            }
        }
        lemma_nsum_absent(es.drop_last(), g, r, w);
        assert(group(g, es[es.len() - 1].0@) != r);
    }
}


proof fn lemma_esum_absent(es: Seq<(String, EdgeStat)>, g: Granularity, a: Seq<char>, b: Seq<char>, w: int)
    requires
        !eseen(es, g, a, b),
    ensures
        esum(es, g, a, b, w) == 0,
    decreases es.len(),
{
    if es.len() > 0 {
        assert(!eseen(es.drop_last(), g, a, b)) by {
            if eseen(es.drop_last(), g, a, b) {
                let i = choose|i: int| 0 <= i < es.drop_last().len() && edge_group(g, es.drop_last()[i].0@) == Some((a, b));
                assert(es[i] == es.drop_last()[i]);
            }
        }
        lemma_esum_absent(es.drop_last(), g, a, b, w);
        assert(edge_group(g, es[es.len() - 1].0@) != Some((a, b)));
    }
}

/// Position of the merged edge `(a, b)` in `m`.
fn find_pair(m: &Vec<((String, String), EdgeStat)>, a: &str, b: &str) -> (pos: Option<usize>)
    ensures
        match pos {
            Some(j) => j < m@.len() && m@[j as int].0.0@ == a@ && m@[j as int].0.1@ == b@,
            None => forall|i: int| 0 <= i < m@.len() ==> !((#[trigger] m@[i]).0.0@ == a@ && m@[i].0.1@ == b@),
        },
{
    let mut j: usize = 0;
    while j < m.len()
        invariant
            j <= m@.len(),
            forall|i: int| 0 <= i < j ==> !((#[trigger] m@[i]).0.0@ == a@ && m@[i].0.1@ == b@),
        decreases m.len() - j,
    {
        if str_eq(m[j].0.0.as_str(), a) && str_eq(m[j].0.1.as_str(), b) {
            return Some(j);
        }
        j += 1;
    }
    None
}

/// Count one more stored edge entry `x` into `m`; `ends` is its grouped
/// pair, or `None` when it is dropped.
fn add_edge_entry(m: &mut Vec<((String, String), EdgeStat)>, ends: Option<(String, String)>, stat: EdgeStat, Ghost(es): Ghost<Seq<(String, EdgeStat)>>, Ghost(x): Ghost<(String, EdgeStat)>, g: Granularity)
    requires
        edge_tally(old(m)@, es, g),
        x.1 == stat,
        match ends {
            Some((a, b)) => edge_group(g, x.0@) == Some((a@, b@)),
            None => edge_group(g, x.0@) is None,
        },
        forall|a: Seq<char>, b: Seq<char>, w: int| #[trigger] esum(es.push(x), g, a, b, w) <= u32::MAX,
    ensures
        edge_tally(final(m)@, es.push(x), g),
{
    let ghost es2 = es.push(x);
    proof {
        assert(es2.drop_last() =~= es);
        assert(es2.last() == x);
    }
    match ends {
        None => {
            proof {
                let m0 = m@;
                assert forall|i: int, w: int| 0 <= i < m0.len() implies #[trigger] edge_field(m0[i].1, w) == esum(es2, g, m0[i].0.0@, m0[i].0.1@, w) by {
                    assert(edge_field(m0[i].1, w) == esum(es, g, m0[i].0.0@, m0[i].0.1@, w));
                }
                assert forall|i: int| 0 <= i < m0.len() implies eseen(es2, g, (#[trigger] m0[i]).0.0@, m0[i].0.1@) by {
                    assert(eseen(es, g, m0[i].0.0@, m0[i].0.1@));
                    let a = choose|a: int| 0 <= a < es.len() && edge_group(g, es[a].0@) == Some((m0[i].0.0@, m0[i].0.1@));
                    assert(es2[a] == es[a]);
                }
                assert forall|a: Seq<char>, b: Seq<char>| eseen(es2, g, a, b) implies exists|i: int| 0 <= i < m0.len() && (#[trigger] m0[i]).0.0@ == a && m0[i].0.1@ == b by {
                    let k = choose|k: int| 0 <= k < es2.len() && edge_group(g, es2[k].0@) == Some((a, b));
                    assert(k < es.len());
                    assert(es2[k] == es[k]);
                    assert(eseen(es, g, a, b));
                }
            }
        },
        Some((ga, gb)) => {
            match find_pair(m, ga.as_str(), gb.as_str()) {
                Some(j) => {
                    let mut acc = m[j].1;
                    let ghost a0 = acc;
                    proof {
                        assert forall|w: int| edge_field(a0, w) + edge_field(stat, w) <= u32::MAX by {
                            assert(edge_field(m@[j as int].1, w) == esum(es, g, m@[j as int].0.0@, m@[j as int].0.1@, w));
                            assert(esum(es2, g, ga@, gb@, w) == esum(es, g, ga@, gb@, w) + edge_field(stat, w));
                        }
                        assert(a0.kinds.can_merge(stat.kinds)) by {
                            assert forall|k: EdgeKind| a0.kinds.count(k) + stat.kinds.count(k) <= u32::MAX by {
                                match k {
                                    EdgeKind::Link => assert(edge_field(a0, 1) + edge_field(stat, 1) <= u32::MAX),
                                    EdgeKind::SearchLink => assert(edge_field(a0, 2) + edge_field(stat, 2) <= u32::MAX),
                                    EdgeKind::Form => assert(edge_field(a0, 3) + edge_field(stat, 3) <= u32::MAX),
                                }
                            }
                        }
                        assert(edge_field(a0, 0) + edge_field(stat, 0) <= u32::MAX);
                    }
                    crate::rollup::add_edge_stat(&mut acc, &stat);
                    let key = (m[j].0.0.clone(), m[j].0.1.clone());
                    let ghost m0 = m@;
                    m.set(j, (key, acc));
                    proof {
                        let m1 = m@;
                        assert forall|i: int, w: int| 0 <= i < m1.len() implies #[trigger] edge_field(m1[i].1, w) == esum(es2, g, m1[i].0.0@, m1[i].0.1@, w) by {
                            if i == j {
                                lemma_edge_plus(a0, stat, w);
                            } else {
                                assert(m1[i] == m0[i]);
                                assert(edge_field(m0[i].1, w) == esum(es, g, m0[i].0.0@, m0[i].0.1@, w));
                                assert((m0[i].0.0@, m0[i].0.1@) != (m0[j as int].0.0@, m0[j as int].0.1@));
                            }
                        }
                        assert forall|i: int| 0 <= i < m1.len() implies eseen(es2, g, (#[trigger] m1[i]).0.0@, m1[i].0.1@) by {
                            assert(m1[i].0.0@ == m0[i].0.0@ && m1[i].0.1@ == m0[i].0.1@);
                            assert(eseen(es, g, m0[i].0.0@, m0[i].0.1@));
                            let a = choose|a: int| 0 <= a < es.len() && edge_group(g, es[a].0@) == Some((m0[i].0.0@, m0[i].0.1@));
                            assert(es2[a] == es[a]);
                        }
                        assert forall|a: Seq<char>, b: Seq<char>| eseen(es2, g, a, b) implies exists|i: int| 0 <= i < m1.len() && (#[trigger] m1[i]).0.0@ == a && m1[i].0.1@ == b by {
                            let k = choose|k: int| 0 <= k < es2.len() && edge_group(g, es2[k].0@) == Some((a, b));
                            if k < es.len() {
                                assert(es2[k] == es[k]);
                                assert(eseen(es, g, a, b));
                                let i = choose|i: int| 0 <= i < m0.len() && (#[trigger] m0[i]).0.0@ == a && m0[i].0.1@ == b;
                                assert(m1[i].0.0@ == a && m1[i].0.1@ == b);
                            } else {
                                assert(m1[j as int].0.0@ == a && m1[j as int].0.1@ == b);
                            }
                        }
                        assert forall|i: int, k: int| 0 <= i < k < m1.len() implies ((#[trigger] m1[i]).0.0@, m1[i].0.1@) != ((#[trigger] m1[k]).0.0@, m1[k].0.1@) by {
                            assert(m1[i].0.0@ == m0[i].0.0@ && m1[i].0.1@ == m0[i].0.1@);
                            assert(m1[k].0.0@ == m0[k].0.0@ && m1[k].0.1@ == m0[k].0.1@);
                        }
                    }
                },
                None => {
                    let ghost m0 = m@;
                    m.push(((ga, gb), stat));
                    proof {
                        let m1 = m@;
                        let ghost pa = m1[m0.len() as int].0.0@;
                        let ghost pb = m1[m0.len() as int].0.1@;
                        assert(!eseen(es, g, pa, pb)) by {
                            if eseen(es, g, pa, pb) {
                                let a = choose|a: int| 0 <= a < m0.len() && (#[trigger] m0[a]).0.0@ == pa && m0[a].0.1@ == pb;
                            }
                        }
                        assert forall|i: int, w: int| 0 <= i < m1.len() implies #[trigger] edge_field(m1[i].1, w) == esum(es2, g, m1[i].0.0@, m1[i].0.1@, w) by {
                            if i < m0.len() {
                                assert(m1[i] == m0[i]);
                                assert(edge_field(m0[i].1, w) == esum(es, g, m0[i].0.0@, m0[i].0.1@, w));
                            } else {
                                lemma_esum_absent(es, g, pa, pb, w);
                            }
                        }
                        assert forall|i: int| 0 <= i < m1.len() implies eseen(es2, g, (#[trigger] m1[i]).0.0@, m1[i].0.1@) by {
                            if i < m0.len() {
                                assert(m1[i] == m0[i]);
                                assert(eseen(es, g, m0[i].0.0@, m0[i].0.1@));
                                let a = choose|a: int| 0 <= a < es.len() && edge_group(g, es[a].0@) == Some((m0[i].0.0@, m0[i].0.1@));
                                assert(es2[a] == es[a]);
                            } else {
                                assert(es2[es.len() as int] == x);
                            }
                        }
                        assert forall|a: Seq<char>, b: Seq<char>| eseen(es2, g, a, b) implies exists|i: int| 0 <= i < m1.len() && (#[trigger] m1[i]).0.0@ == a && m1[i].0.1@ == b by {
                            let k = choose|k: int| 0 <= k < es2.len() && edge_group(g, es2[k].0@) == Some((a, b));
                            if k < es.len() {
                                assert(es2[k] == es[k]);
                                assert(eseen(es, g, a, b));
                                let i = choose|i: int| 0 <= i < m0.len() && (#[trigger] m0[i]).0.0@ == a && m0[i].0.1@ == b;
                                assert(m1[i] == m0[i]);
                            } else {
                                assert(m1[m0.len() as int].0.0@ == a && m1[m0.len() as int].0.1@ == b);
                            }
                        }
                        assert forall|i: int, k: int| 0 <= i < k < m1.len() implies ((#[trigger] m1[i]).0.0@, m1[i].0.1@) != ((#[trigger] m1[k]).0.0@, m1[k].0.1@) by {
                            if k == m0.len() {
                                assert(m1[i] == m0[i]);
                            } else {
                                assert(m1[i] == m0[i] && m1[k] == m0[k]);
                            }
                        }
                    }
                },
            }
        },
    }
}


/// The entries of the first `i` buckets followed by the first `j` node
/// entries of bucket `i` are a prefix of all node entries.
proof fn lemma_node_prefix(bs: Seq<DayBucket>, i: int, j: int)
    requires
        0 <= i < bs.len(),
        0 <= j <= bs[i].nodes@.len(),
    ensures
        ({
            let p = flat_nodes(bs.take(i)) + bs[i].nodes@.take(j);
            p == flat_nodes(bs).take(p.len() as int) && p.len() <= flat_nodes(bs).len()
        }),
{
    lemma_flat_prefix(bs, i + 1);
    assert(bs.take(i + 1).drop_last() =~= bs.take(i));
    let q = flat_nodes(bs.take(i + 1));
    assert(q == flat_nodes(bs.take(i)) + bs[i].nodes@);
    let p = flat_nodes(bs.take(i)) + bs[i].nodes@.take(j);
    assert(p =~= q.take(p.len() as int));
    assert(flat_nodes(bs).take(p.len() as int) =~= flat_nodes(bs).take(q.len() as int).take(p.len() as int));
}

/// The same for edge entries.
proof fn lemma_edge_prefix(bs: Seq<DayBucket>, i: int, j: int)
    requires
        0 <= i < bs.len(),
        0 <= j <= bs[i].edges@.len(),
    ensures
        ({
            let p = flat_edges(bs.take(i)) + bs[i].edges@.take(j);
            p == flat_edges(bs).take(p.len() as int) && p.len() <= flat_edges(bs).len()
        }),
{
    lemma_flat_prefix(bs, i + 1);
    assert(bs.take(i + 1).drop_last() =~= bs.take(i));
    let q = flat_edges(bs.take(i + 1));
    assert(q == flat_edges(bs.take(i)) + bs[i].edges@);
    let p = flat_edges(bs.take(i)) + bs[i].edges@.take(j);
    assert(p =~= q.take(p.len() as int));
    assert(flat_edges(bs).take(p.len() as int) =~= flat_edges(bs).take(q.len() as int).take(p.len() as int));
}

/// Merge the node entries of all buckets by group key.
fn merge_nodes(buckets: &[DayBucket], g: Granularity) -> (m: Vec<(String, NodeStat)>)
    requires
        node_sums_fit(buckets@, g),
    ensures
        node_tally(m@, flat_nodes(buckets@), g),
{
    let ghost bs = buckets@;
    let mut m: Vec<(String, NodeStat)> = Vec::new();
    let mut i: usize = 0;
    proof {
        assert(bs.take(0) =~= Seq::<DayBucket>::empty());
    }
    while i < buckets.len()
        invariant
            i <= bs.len(),
            bs == buckets@,
            node_sums_fit(bs, g),
            node_tally(m@, flat_nodes(bs.take(i as int)), g),
        decreases buckets.len() - i,
    {
        let b = &buckets[i];
        let ghost base = flat_nodes(bs.take(i as int));
        let mut j: usize = 0;
        proof {
            assert(b.nodes@.take(0) =~= Seq::<(String, NodeStat)>::empty());
            assert(base + b.nodes@.take(0) =~= base);
        }
        while j < b.nodes.len()
            invariant
                i < bs.len(),
                j <= b.nodes@.len(),
                bs == buckets@,
                *b == bs[i as int],
                base == flat_nodes(bs.take(i as int)),
                node_sums_fit(bs, g),
                node_tally(m@, base + b.nodes@.take(j as int), g),
            decreases b.nodes.len() - j,
        {
            let x = &b.nodes[j];
            let gk = group_key(x.0.as_str(), g);
            let ghost pre = base + b.nodes@.take(j as int);
            proof {
                assert(pre.push(*x) =~= base + b.nodes@.take(j + 1));
                lemma_node_prefix(bs, i as int, j + 1);
                let f = flat_nodes(bs);
                assert forall|w: int| nsum(pre.push(*x), g, gk@, w) <= node_field_max(w) by {
                    lemma_nsum_prefix(f, pre.len() + 1int, g, gk@, w);
                    assert(nsum(f, g, gk@, w) <= node_field_max(w));
                }
            }
            add_node_entry(&mut m, gk, x.1, Ghost(pre), Ghost(*x), g);
            proof {
                assert(pre.push(*x) =~= base + b.nodes@.take(j + 1));
            }
            j += 1;
        }
        proof {
            assert(b.nodes@.take(j as int) =~= b.nodes@);
            assert(bs.take(i + 1).drop_last() =~= bs.take(i as int));
            assert(flat_nodes(bs.take(i + 1)) == base + b.nodes@);
        }
        i += 1;
    }
    proof {
        assert(bs.take(i as int) =~= bs);
    }
    m
}

/// The grouped endpoints of a stored edge key.
fn edge_ends(key: &str, g: Granularity) -> (r: Option<(String, String)>)
    ensures
        match r {
            Some((a, b)) => edge_group(g, key@) == Some((a@, b@)),
            None => edge_group(g, key@) is None,
        },
{
    match split_edge_key(key) {
        Some((f, t)) => {
            let a = group_key(f.as_str(), g);
            let b = group_key(t.as_str(), g);
            if matches!(g, Granularity::Registrable) && str_eq(a.as_str(), b.as_str()) {
                None
            } else {
                Some((a, b))
            }
        },
        None => None,
    }
}

/// Merge the edge entries of all buckets by grouped endpoints.
fn merge_edges(buckets: &[DayBucket], g: Granularity) -> (m: Vec<((String, String), EdgeStat)>)
    requires
        edge_sums_fit(buckets@, g),
    ensures
        edge_tally(m@, flat_edges(buckets@), g),
{
    let ghost bs = buckets@;
    let mut m: Vec<((String, String), EdgeStat)> = Vec::new();
    let mut i: usize = 0;
    proof {
        assert(bs.take(0) =~= Seq::<DayBucket>::empty());
    }
    while i < buckets.len()
        invariant
            i <= bs.len(),
            bs == buckets@,
            edge_sums_fit(bs, g),
            edge_tally(m@, flat_edges(bs.take(i as int)), g),
        decreases buckets.len() - i,
    {
        let b = &buckets[i];
        let ghost base = flat_edges(bs.take(i as int));
        let mut j: usize = 0;
        proof {
            assert(b.edges@.take(0) =~= Seq::<(String, EdgeStat)>::empty());
            assert(base + b.edges@.take(0) =~= base);
        }
        while j < b.edges.len()
            invariant
                i < bs.len(),
                j <= b.edges@.len(),
                bs == buckets@,
                *b == bs[i as int],
                base == flat_edges(bs.take(i as int)),
                edge_sums_fit(bs, g),
                edge_tally(m@, base + b.edges@.take(j as int), g),
            decreases b.edges.len() - j,
        {
            let x = &b.edges[j];
            let ends = edge_ends(x.0.as_str(), g);
            let ghost pre = base + b.edges@.take(j as int);
            proof {
                assert(pre.push(*x) =~= base + b.edges@.take(j + 1));
                lemma_edge_prefix(bs, i as int, j + 1);
                let f = flat_edges(bs);
                assert forall|a: Seq<char>, c: Seq<char>, w: int| #[trigger] esum(pre.push(*x), g, a, c, w) <= u32::MAX by {
                    lemma_esum_prefix(f, pre.len() + 1int, g, a, c, w);
                    assert(esum(f, g, a, c, w) <= u32::MAX);
                }
            }
            add_edge_entry(&mut m, ends, x.1, Ghost(pre), Ghost(*x), g);
            proof {
                assert(pre.push(*x) =~= base + b.edges@.take(j + 1));
            }
            j += 1;
        }
        proof {
            assert(b.edges@.take(j as int) =~= b.edges@);
            assert(bs.take(i + 1).drop_last() =~= bs.take(i as int));
            assert(flat_edges(bs.take(i + 1)) == base + b.edges@);
        }
        i += 1;
    }
    proof {
        assert(bs.take(i as int) =~= bs);
    }
    m
}


/// The merged statistic of group key `k` over all buckets.
pub open spec fn merged_stat(bs: Seq<DayBucket>, g: Granularity, k: Seq<char>) -> NodeStat {
    let es = flat_nodes(bs);
    NodeStat {
        visits: nsum(es, g, k, 0) as u32,
        prov: ProvBreakdown {
            link: nsum(es, g, k, 2) as u32,
            form: nsum(es, g, k, 3) as u32,
            typed_url: nsum(es, g, k, 4) as u32,
            search_origin: nsum(es, g, k, 5) as u32,
            bookmark: nsum(es, g, k, 6) as u32,
            start: nsum(es, g, k, 7) as u32,
            reload: nsum(es, g, k, 8) as u32,
            other: nsum(es, g, k, 9) as u32,
        },
        dwell_ms: nsum(es, g, k, 1) as u64,
    }
}

/// The merged statistic of the grouped edge `(a, b)` over all buckets.
pub open spec fn merged_edge(bs: Seq<DayBucket>, g: Granularity, a: Seq<char>, b: Seq<char>) -> EdgeStat {
    let es = flat_edges(bs);
    EdgeStat {
        weight: esum(es, g, a, b, 0) as u32,
        kinds: KindBreakdown {
            link: esum(es, g, a, b, 1) as u32,
            search_link: esum(es, g, a, b, 2) as u32,
            form: esum(es, g, a, b, 3) as u32,
        },
    }
}

/// The provenance filter admits `p` (no filter admits every provenance).
pub open spec fn allows(f: Filters, p: Provenance) -> bool {
    match f.provenance_in {
        Some(v) => v@.contains(p),
        None => true,
    }
}

/// A merged node statistic passes the display filters.
pub open spec fn passes(s: NodeStat, f: Filters) -> bool {
    &&& s.visits >= f.min_visits
    &&& !(f.hide_search_hubs && prov_dominant(s.prov) == Provenance::SearchOrigin)
    &&& allows(f, prov_dominant(s.prov))
}

/// Group key `k` occurs in the buckets and its merged statistic passes.
pub open spec fn node_kept(bs: Seq<DayBucket>, g: Granularity, f: Filters, k: Seq<char>) -> bool {
    nseen(flat_nodes(bs), g, k) && passes(merged_stat(bs, g, k), f)
}

/// The grouped edge `(a, b)` occurs and both its ends are kept.
pub open spec fn edge_kept(bs: Seq<DayBucket>, g: Granularity, f: Filters, a: Seq<char>, b: Seq<char>) -> bool {
    eseen(flat_edges(bs), g, a, b) && node_kept(bs, g, f, a) && node_kept(bs, g, f, b)
}

/// Node `n` carries statistic `s` (foreground time is not tracked per bucket).
pub open spec fn node_is(n: NodeAgg, s: NodeStat) -> bool {
    n.visits == s.visits && n.prov == s.prov && n.dwell_ms == s.dwell_ms && n.fg_dwell_ms == 0
}

/// Edge `e` carries statistic `s`.
pub open spec fn edge_is(e: EdgeAgg, s: EdgeStat) -> bool {
    e.weight == s.weight && e.kinds == s.kinds
}

proof fn lemma_tally_stat(m: Seq<(String, NodeStat)>, bs: Seq<DayBucket>, g: Granularity, a: int)
    requires
        node_tally(m, flat_nodes(bs), g),
        0 <= a < m.len(),
    ensures
        m[a].1 == merged_stat(bs, g, m[a].0@),
        nseen(flat_nodes(bs), g, m[a].0@),
{
    let s = m[a].1;
    assert(node_field(s, 0) == nsum(flat_nodes(bs), g, m[a].0@, 0));
    assert(node_field(s, 1) == nsum(flat_nodes(bs), g, m[a].0@, 1));
    assert(node_field(s, 2) == nsum(flat_nodes(bs), g, m[a].0@, 2));
    assert(node_field(s, 3) == nsum(flat_nodes(bs), g, m[a].0@, 3));
    assert(node_field(s, 4) == nsum(flat_nodes(bs), g, m[a].0@, 4));
    assert(node_field(s, 5) == nsum(flat_nodes(bs), g, m[a].0@, 5));
    assert(node_field(s, 6) == nsum(flat_nodes(bs), g, m[a].0@, 6));
    assert(node_field(s, 7) == nsum(flat_nodes(bs), g, m[a].0@, 7));
    assert(node_field(s, 8) == nsum(flat_nodes(bs), g, m[a].0@, 8));
    assert(node_field(s, 9) == nsum(flat_nodes(bs), g, m[a].0@, 9));
}

proof fn lemma_tally_edge(m: Seq<((String, String), EdgeStat)>, bs: Seq<DayBucket>, g: Granularity, a: int)
    requires
        edge_tally(m, flat_edges(bs), g),
        0 <= a < m.len(),
    ensures
        m[a].1 == merged_edge(bs, g, m[a].0.0@, m[a].0.1@),
        eseen(flat_edges(bs), g, m[a].0.0@, m[a].0.1@),
{
    let s = m[a].1;
    assert(edge_field(s, 0) == esum(flat_edges(bs), g, m[a].0.0@, m[a].0.1@, 0));
    assert(edge_field(s, 1) == esum(flat_edges(bs), g, m[a].0.0@, m[a].0.1@, 1));
    assert(edge_field(s, 2) == esum(flat_edges(bs), g, m[a].0.0@, m[a].0.1@, 2));
    assert(edge_field(s, 3) == esum(flat_edges(bs), g, m[a].0.0@, m[a].0.1@, 3));
}

/// Whether `p` is among `v`.
fn prov_in(v: &Vec<Provenance>, p: Provenance) -> (r: bool)
    ensures
        r == v@.contains(p),
{
    let mut i: usize = 0;
    while i < v.len()
        invariant
            i <= v@.len(),
            forall|a: int| 0 <= a < i ==> v@[a] != p,
        decreases v.len() - i,
    {
        if v[i] == p {
            proof {
                assert(v@[i as int] == p);
            }
            return true;
        }
        i += 1;
    }
    false
}

/// Whether a merged statistic passes the display filters.
fn passes_filters(s: &NodeStat, f: &Filters) -> (r: bool)
    ensures
        r == passes(*s, *f),
{
    if s.visits < f.min_visits {
        return false;
    }
    let d = s.prov.dominant();
    proof {
        lemma_prov_dominant(s.prov, d);
    }
    if f.hide_search_hubs && matches!(d, Provenance::SearchOrigin) {
        return false;
    }
    match &f.provenance_in {
        Some(v) => prov_in(v, d),
        None => true,
    }
}

/// The kept merged nodes (in merge order), and their keys.
fn kept_nodes(m: &Vec<(String, NodeStat)>, f: &Filters, Ghost(bs): Ghost<Seq<DayBucket>>, g: Granularity) -> (r: (Vec<NodeAgg>, Vec<String>))
    requires
        node_tally(m@, flat_nodes(bs), g),
    ensures
        r.0@.len() == r.1@.len(),
        forall|t: int| 0 <= t < r.0@.len() ==> (#[trigger] r.0@[t]).key@ == r.1@[t]@,
        forall|t: int| 0 <= t < r.0@.len() ==> node_kept(bs, g, *f, (#[trigger] r.0@[t]).key@)
            && node_is(r.0@[t], merged_stat(bs, g, r.0@[t].key@)),
        forall|k: Seq<char>| node_kept(bs, g, *f, k) ==> exists|t: int| 0 <= t < r.0@.len() && (#[trigger] r.0@[t]).key@ == k,
        forall|t1: int, t2: int| 0 <= t1 < t2 < r.0@.len() ==> (#[trigger] r.0@[t1]).key@ != (#[trigger] r.0@[t2]).key@,
{
    let mut nv: Vec<NodeAgg> = Vec::new();
    let mut keep: Vec<String> = Vec::new();
    let mut i: usize = 0;
    while i < m.len()
        invariant
            i <= m@.len(),
            node_tally(m@, flat_nodes(bs), g),
            nv@.len() == keep@.len(),
            forall|t: int| 0 <= t < nv@.len() ==> (#[trigger] nv@[t]).key@ == keep@[t]@,
            forall|t: int| 0 <= t < nv@.len() ==> node_kept(bs, g, *f, (#[trigger] nv@[t]).key@)
                && node_is(nv@[t], merged_stat(bs, g, nv@[t].key@)),
            forall|t: int| 0 <= t < nv@.len() ==> exists|a: int| 0 <= a < i && (#[trigger] m@[a]).0@ == (#[trigger] nv@[t]).key@,
            forall|a: int| 0 <= a < i && node_kept(bs, g, *f, (#[trigger] m@[a]).0@) ==> exists|t: int| 0 <= t < nv@.len() && (#[trigger] nv@[t]).key@ == m@[a].0@,
            forall|t1: int, t2: int| 0 <= t1 < t2 < nv@.len() ==> (#[trigger] nv@[t1]).key@ != (#[trigger] nv@[t2]).key@,
        decreases m.len() - i,
    {
        proof {
            lemma_tally_stat(m@, bs, g, i as int);
        }
        let ghost nv0 = nv@;
        if passes_filters(&m[i].1, f) {
            let s = m[i].1;
            nv.push(NodeAgg { key: m[i].0.clone(), visits: s.visits, prov: s.prov, dwell_ms: s.dwell_ms, fg_dwell_ms: 0 });
            keep.push(m[i].0.clone());
            proof {
                let n = nv@.len() - 1;
                assert(nv@[n].key@ == m@[i as int].0@);
                assert forall|t: int| 0 <= t < nv@.len() implies exists|a: int| 0 <= a < i + 1 && (#[trigger] m@[a]).0@ == (#[trigger] nv@[t]).key@ by {
                    if t < n {
                        assert(nv@[t] == nv0[t]);
                        let a = choose|a: int| 0 <= a < i && (#[trigger] m@[a]).0@ == nv0[t].key@;
                        assert(m@[a].0@ == nv@[t].key@);
                    } else {
                        assert(m@[i as int].0@ == nv@[t].key@);
                    }
                }
                assert forall|t1: int, t2: int| 0 <= t1 < t2 < nv@.len() implies (#[trigger] nv@[t1]).key@ != (#[trigger] nv@[t2]).key@ by {
                    if t2 == n {
                        assert(nv@[t1] == nv0[t1]);
                        let a = choose|a: int| 0 <= a < i && (#[trigger] m@[a]).0@ == nv0[t1].key@;
                        assert(m@[a].0@ != m@[i as int].0@);
                    } else {
                        assert(nv@[t1] == nv0[t1] && nv@[t2] == nv0[t2]);
                    }
                }
                assert forall|a: int| 0 <= a < i + 1 && node_kept(bs, g, *f, (#[trigger] m@[a]).0@) implies exists|t: int| 0 <= t < nv@.len() && (#[trigger] nv@[t]).key@ == m@[a].0@ by {
                    if a < i {
                        let t = choose|t: int| 0 <= t < nv0.len() && (#[trigger] nv0[t]).key@ == m@[a].0@;
                        assert(nv@[t] == nv0[t]);
                    } else {
                        assert(nv@[n].key@ == m@[a].0@);
                    }
                }
                assert forall|t: int| 0 <= t < nv@.len() implies (#[trigger] nv@[t]).key@ == keep@[t]@ by {
                    if t < n {
                        assert(nv@[t] == nv0[t]);
                    }
                }
                assert forall|t: int| 0 <= t < nv@.len() implies node_kept(bs, g, *f, (#[trigger] nv@[t]).key@)
                    && node_is(nv@[t], merged_stat(bs, g, nv@[t].key@)) by {
                    if t < n {
                        assert(nv@[t] == nv0[t]);
                    }
                }
            }
        } else {
            proof {
                assert forall|t: int| 0 <= t < nv@.len() implies exists|a: int| 0 <= a < i + 1 && (#[trigger] m@[a]).0@ == (#[trigger] nv@[t]).key@ by {
                    let a = choose|a: int| 0 <= a < i && (#[trigger] m@[a]).0@ == nv@[t].key@;
                }
            }
        }
        i += 1;
    }
    proof {
        assert forall|k: Seq<char>| node_kept(bs, g, *f, k) implies exists|t: int| 0 <= t < nv@.len() && (#[trigger] nv@[t]).key@ == k by {
            let a = choose|a: int| 0 <= a < m@.len() && (#[trigger] m@[a]).0@ == k;
            assert(node_kept(bs, g, *f, m@[a].0@));
        }
    }
    (nv, keep)
}


/// The merged edges whose ends are both kept (in merge order).
fn kept_edges(me: &Vec<((String, String), EdgeStat)>, keep: &Vec<String>, Ghost(bs): Ghost<Seq<DayBucket>>, g: Granularity, Ghost(f): Ghost<Filters>) -> (r: Vec<EdgeAgg>)
    requires
        edge_tally(me@, flat_edges(bs), g),
        forall|k: Seq<char>| #[trigger] strs(keep@).contains(k) == node_kept(bs, g, f, k),
    ensures
        forall|t: int| 0 <= t < r@.len() ==> edge_kept(bs, g, f, (#[trigger] r@[t]).from@, r@[t].to@)
            && edge_is(r@[t], merged_edge(bs, g, r@[t].from@, r@[t].to@)),
        forall|a: Seq<char>, b: Seq<char>| edge_kept(bs, g, f, a, b) ==> exists|t: int| 0 <= t < r@.len() && (#[trigger] r@[t]).from@ == a && r@[t].to@ == b,
        forall|t1: int, t2: int| 0 <= t1 < t2 < r@.len() ==> ((#[trigger] r@[t1]).from@, r@[t1].to@) != ((#[trigger] r@[t2]).from@, r@[t2].to@),
{
    let mut ev: Vec<EdgeAgg> = Vec::new();
    let mut i: usize = 0;
    while i < me.len()
        invariant
            i <= me@.len(),
            edge_tally(me@, flat_edges(bs), g),
            forall|k: Seq<char>| #[trigger] strs(keep@).contains(k) == node_kept(bs, g, f, k),
            forall|t: int| 0 <= t < ev@.len() ==> edge_kept(bs, g, f, (#[trigger] ev@[t]).from@, ev@[t].to@)
                && edge_is(ev@[t], merged_edge(bs, g, ev@[t].from@, ev@[t].to@)),
            forall|t: int| 0 <= t < ev@.len() ==> exists|a: int| 0 <= a < i && (#[trigger] me@[a]).0.0@ == (#[trigger] ev@[t]).from@ && me@[a].0.1@ == ev@[t].to@,
            forall|a: int| 0 <= a < i && edge_kept(bs, g, f, (#[trigger] me@[a]).0.0@, me@[a].0.1@) ==> exists|t: int| 0 <= t < ev@.len() && (#[trigger] ev@[t]).from@ == me@[a].0.0@ && ev@[t].to@ == me@[a].0.1@,
            forall|t1: int, t2: int| 0 <= t1 < t2 < ev@.len() ==> ((#[trigger] ev@[t1]).from@, ev@[t1].to@) != ((#[trigger] ev@[t2]).from@, ev@[t2].to@),
        decreases me.len() - i,
    {
        proof {
            lemma_tally_edge(me@, bs, g, i as int);
        }
        let ghost ev0 = ev@;
        let ka = contains_str(keep, me[i].0.0.as_str());
        let kb = contains_str(keep, me[i].0.1.as_str());
        if ka && kb {
            let s = me[i].1;
            ev.push(EdgeAgg { from: me[i].0.0.clone(), to: me[i].0.1.clone(), weight: s.weight, kinds: s.kinds });
            proof {
                let n = ev@.len() - 1;
                assert(ev@[n].from@ == me@[i as int].0.0@ && ev@[n].to@ == me@[i as int].0.1@);
                assert forall|t: int| 0 <= t < ev@.len() implies exists|a: int| 0 <= a < i + 1 && (#[trigger] me@[a]).0.0@ == (#[trigger] ev@[t]).from@ && me@[a].0.1@ == ev@[t].to@ by {
                    if t < n {
                        assert(ev@[t] == ev0[t]);
                        let a = choose|a: int| 0 <= a < i && (#[trigger] me@[a]).0.0@ == (#[trigger] ev0[t]).from@ && me@[a].0.1@ == ev0[t].to@;
                        assert(me@[a].0.0@ == ev@[t].from@);
                    } else {
                        assert(me@[i as int].0.0@ == ev@[t].from@);
                    }
                }
                assert forall|t1: int, t2: int| 0 <= t1 < t2 < ev@.len() implies ((#[trigger] ev@[t1]).from@, ev@[t1].to@) != ((#[trigger] ev@[t2]).from@, ev@[t2].to@) by {
                    if t2 == n {
                        assert(ev@[t1] == ev0[t1]);
                        let a = choose|a: int| 0 <= a < i && (#[trigger] me@[a]).0.0@ == (#[trigger] ev0[t1]).from@ && me@[a].0.1@ == ev0[t1].to@;
                        assert((me@[a].0.0@, me@[a].0.1@) != (me@[i as int].0.0@, me@[i as int].0.1@));
                    } else {
                        assert(ev@[t1] == ev0[t1] && ev@[t2] == ev0[t2]);
                    }
                }
                assert forall|a: int| 0 <= a < i + 1 && edge_kept(bs, g, f, (#[trigger] me@[a]).0.0@, me@[a].0.1@) implies exists|t: int| 0 <= t < ev@.len() && (#[trigger] ev@[t]).from@ == me@[a].0.0@ && ev@[t].to@ == me@[a].0.1@ by {
                    if a < i {
                        let t = choose|t: int| 0 <= t < ev0.len() && (#[trigger] ev0[t]).from@ == me@[a].0.0@ && ev0[t].to@ == me@[a].0.1@;
                        assert(ev@[t] == ev0[t]);
                    } else {
                        assert(ev@[n].from@ == me@[a].0.0@);
                    }
                }
                assert forall|t: int| 0 <= t < ev@.len() implies edge_kept(bs, g, f, (#[trigger] ev@[t]).from@, ev@[t].to@)
                    && edge_is(ev@[t], merged_edge(bs, g, ev@[t].from@, ev@[t].to@)) by {
                    if t < n {
                        assert(ev@[t] == ev0[t]);
                    }
                }
            }
        } else {
            proof {
                assert(!edge_kept(bs, g, f, me@[i as int].0.0@, me@[i as int].0.1@));
                assert forall|t: int| 0 <= t < ev@.len() implies exists|a: int| 0 <= a < i + 1 && (#[trigger] me@[a]).0.0@ == (#[trigger] ev@[t]).from@ && me@[a].0.1@ == ev@[t].to@ by {
                    let a = choose|a: int| 0 <= a < i && (#[trigger] me@[a]).0.0@ == (#[trigger] ev@[t]).from@ && me@[a].0.1@ == ev@[t].to@;
                }
            }
        }
        i += 1;
    }
    proof {
        assert forall|a: Seq<char>, b: Seq<char>| edge_kept(bs, g, f, a, b) implies exists|t: int| 0 <= t < ev@.len() && (#[trigger] ev@[t]).from@ == a && ev@[t].to@ == b by {
            let k = choose|k: int| 0 <= k < me@.len() && (#[trigger] me@[k]).0.0@ == a && me@[k].0.1@ == b;
            assert(edge_kept(bs, g, f, me@[k].0.0@, me@[k].0.1@));
        }
    }
    ev
}


/// Nodes rank by visits descending, then key.
pub open spec fn node_rank(n: NodeAgg) -> KeyView {
    (-(n.visits as int), n.key@, Seq::<char>::empty())
}

/// Edges rank by weight descending, then source, then target.
pub open spec fn edge_rank(e: EdgeAgg) -> KeyView {
    (-(e.weight as int), e.from@, e.to@)
}

/// Every element of `r` is an element of `s` and the other way round.
proof fn lemma_permutes_elems<T>(r: Seq<T>, s: Seq<T>)
    requires
        permutes(r, s),
        s.len() <= usize::MAX,
    ensures
        forall|t: int| 0 <= t < r.len() ==> s.contains(#[trigger] r[t]),
        forall|a: int| 0 <= a < s.len() ==> r.contains(#[trigger] s[a]),
{
    let p = choose|p: Seq<usize>|
        is_index_perm(p, s.len()) && r.len() == s.len() && forall|i: int|
            0 <= i < r.len() ==> #[trigger] r[i] == s[p[i] as int];
    assert forall|t: int| 0 <= t < r.len() implies s.contains(#[trigger] r[t]) by {
        assert(r[t] == s[p[t] as int]);
    }
    assert forall|a: int| 0 <= a < s.len() implies r.contains(#[trigger] s[a]) by {
        lemma_perm_onto(p, s.len(), a);
        let t = choose|t: int| 0 <= t < p.len() && p[t] == a;
        assert(r[t] == s[a]);
    }
}

/// Sort nodes with distinct keys by rank.
fn sort_nodes(nv: Vec<NodeAgg>) -> (r: Vec<NodeAgg>)
    requires
        forall|t1: int, t2: int| 0 <= t1 < t2 < nv@.len() ==> (#[trigger] nv@[t1]).key@ != (#[trigger] nv@[t2]).key@,
    ensures
        permutes(r@, nv@),
        forall|i: int, j: int| 0 <= i < j < r@.len() ==> key_lt(node_rank(#[trigger] r@[i]), node_rank(#[trigger] r@[j])),
{
    let ghost s = nv@;
    let mut keys: Vec<RankKey> = Vec::new();
    let mut i: usize = 0;
    while i < nv.len()
        invariant
            i <= s.len(),
            s == nv@,
            keys@.len() == i,
            forall|a: int| 0 <= a < i ==> (#[trigger] keys@[a])@ == node_rank(s[a]),
        decreases nv.len() - i,
    {
        let first = chars_of(nv[i].key.as_str());
        keys.push(RankKey { major: -(nv[i].visits as i128), first, second: Vec::new() });
        proof {
            assert(keys@[i as int]@.2 =~= Seq::<char>::empty());
        }
        i += 1;
    }
    let ord = sort_order(&keys);
    let ghost kv = key_views(keys@);
    let r = permute(nv, &ord);
    proof {
        assert(is_index_perm(ord@, s.len()));
        assert forall|a: int| 0 <= a < r@.len() implies #[trigger] r@[a] == s[ord@[a] as int] by {}
        assert forall|a: int, b: int| 0 <= a < b < r@.len() implies key_lt(node_rank(#[trigger] r@[a]), node_rank(#[trigger] r@[b])) by {
            let x = ord@[a] as int;
            let y = ord@[b] as int;
            assert(kv[x] == node_rank(s[x]));
            assert(kv[y] == node_rank(s[y]));
            assert(!key_lt(kv[y], kv[x]));
            assert(x != y);
            if x < y {
                assert(s[x].key@ != s[y].key@);
            } else {
                assert(s[y].key@ != s[x].key@);
            }
            lemma_key_total(node_rank(s[x]), node_rank(s[y]));
        }
    }
    r
}

/// Sort edges with distinct endpoint pairs by rank.
fn sort_edges(ev: Vec<EdgeAgg>) -> (r: Vec<EdgeAgg>)
    requires
        forall|t1: int, t2: int| 0 <= t1 < t2 < ev@.len() ==> ((#[trigger] ev@[t1]).from@, ev@[t1].to@) != ((#[trigger] ev@[t2]).from@, ev@[t2].to@),
    ensures
        permutes(r@, ev@),
        forall|i: int, j: int| 0 <= i < j < r@.len() ==> key_lt(edge_rank(#[trigger] r@[i]), edge_rank(#[trigger] r@[j])),
{
    let ghost s = ev@;
    let mut keys: Vec<RankKey> = Vec::new();
    let mut i: usize = 0;
    while i < ev.len()
        invariant
            i <= s.len(),
            s == ev@,
            keys@.len() == i,
            forall|a: int| 0 <= a < i ==> (#[trigger] keys@[a])@ == edge_rank(s[a]),
        decreases ev.len() - i,
    {
        let first = chars_of(ev[i].from.as_str());
        let second = chars_of(ev[i].to.as_str());
        keys.push(RankKey { major: -(ev[i].weight as i128), first, second });
        i += 1;
    }
    let ord = sort_order(&keys);
    let ghost kv = key_views(keys@);
    let r = permute(ev, &ord);
    proof {
        assert(is_index_perm(ord@, s.len()));
        assert forall|a: int| 0 <= a < r@.len() implies #[trigger] r@[a] == s[ord@[a] as int] by {}
        assert forall|a: int, b: int| 0 <= a < b < r@.len() implies key_lt(edge_rank(#[trigger] r@[a]), edge_rank(#[trigger] r@[b])) by {
            let x = ord@[a] as int;
            let y = ord@[b] as int;
            assert(kv[x] == edge_rank(s[x]));
            assert(kv[y] == edge_rank(s[y]));
            assert(!key_lt(kv[y], kv[x]));
            assert(x != y);
            if x < y {
                assert((s[x].from@, s[x].to@) != (s[y].from@, s[y].to@));
            } else {
                assert((s[y].from@, s[y].to@) != (s[x].from@, s[x].to@));
            }
            lemma_key_total(edge_rank(s[x]), edge_rank(s[y]));
        }
    }
    r
}

/// Some edge of `es` starts or ends at `k`.
pub open spec fn touches(es: Seq<EdgeAgg>, k: Seq<char>) -> bool {
    exists|i: int| 0 <= i < es.len() && ((#[trigger] es[i]).from@ == k || es[i].to@ == k)
}

fn touches_any(es: &Vec<EdgeAgg>, k: &str) -> (r: bool)
    ensures
        r == touches(es@, k@),
{
    let mut i: usize = 0;
    while i < es.len()
        invariant
            i <= es@.len(),
            forall|a: int| 0 <= a < i ==> !((#[trigger] es@[a]).from@ == k@ || es@[a].to@ == k@),
        decreases es.len() - i,
    {
        if str_eq(es[i].from.as_str(), k) || str_eq(es[i].to.as_str(), k) {
            proof {
                assert(es@[i as int].from@ == k@ || es@[i as int].to@ == k@);
            }
            return true;
        }
        i += 1;
    }
    false
}

/// The nodes that some edge touches, in order.
fn drop_isolated(nodes: Vec<NodeAgg>, es: &Vec<EdgeAgg>) -> (r: Vec<NodeAgg>)
    requires
        forall|i: int, j: int| 0 <= i < j < nodes@.len() ==> key_lt(node_rank(#[trigger] nodes@[i]), node_rank(#[trigger] nodes@[j])),
    ensures
        forall|t: int| 0 <= t < r@.len() ==> touches(es@, (#[trigger] r@[t]).key@) && nodes@.contains(r@[t]),
        forall|a: int| 0 <= a < nodes@.len() && touches(es@, (#[trigger] nodes@[a]).key@) ==> r@.contains(nodes@[a]),
        forall|i: int, j: int| 0 <= i < j < r@.len() ==> key_lt(node_rank(#[trigger] r@[i]), node_rank(#[trigger] r@[j])),
{
    let mut out: Vec<NodeAgg> = Vec::new();
    let mut i: usize = 0;
    while i < nodes.len()
        invariant
            i <= nodes@.len(),
            forall|i: int, j: int| 0 <= i < j < nodes@.len() ==> key_lt(node_rank(#[trigger] nodes@[i]), node_rank(#[trigger] nodes@[j])),
            forall|t: int| 0 <= t < out@.len() ==> touches(es@, (#[trigger] out@[t]).key@) && nodes@.contains(out@[t]),
            forall|a: int| 0 <= a < i && touches(es@, (#[trigger] nodes@[a]).key@) ==> out@.contains(nodes@[a]),
            forall|x: int, j: int| 0 <= x < out@.len() && i <= j < nodes@.len() ==> key_lt(node_rank(#[trigger] out@[x]), node_rank(#[trigger] nodes@[j])),
            forall|x: int, y: int| 0 <= x < y < out@.len() ==> key_lt(node_rank(#[trigger] out@[x]), node_rank(#[trigger] out@[y])),
        decreases nodes.len() - i,
    {
        let ghost o0 = out@;
        if touches_any(es, nodes[i].key.as_str()) {
            out.push(copy_node(&nodes[i]));
            proof {
                let n = o0.len() as int;
                assert(out@[n] == nodes@[i as int]);
                assert forall|t: int| 0 <= t < out@.len() implies touches(es@, (#[trigger] out@[t]).key@) && nodes@.contains(out@[t]) by {
                    if t < n {
                        assert(out@[t] == o0[t]);
                    } else {
                        assert(nodes@[i as int] == out@[t]);
                    }
                }
                assert forall|x: int, y: int| 0 <= x < y < out@.len() implies key_lt(node_rank(#[trigger] out@[x]), node_rank(#[trigger] out@[y])) by {
                    if y == n {
                        assert(out@[x] == o0[x]);
                        assert(key_lt(node_rank(o0[x]), node_rank(nodes@[i as int])));
                    } else {
                        assert(out@[x] == o0[x] && out@[y] == o0[y]);
                    }
                }
                assert forall|x: int, j: int| 0 <= x < out@.len() && i + 1 <= j < nodes@.len() implies key_lt(node_rank(#[trigger] out@[x]), node_rank(#[trigger] nodes@[j])) by {
                    if x < n {
                        assert(out@[x] == o0[x]);
                    }
                }
                assert forall|a: int| 0 <= a < i + 1 && touches(es@, (#[trigger] nodes@[a]).key@) implies out@.contains(nodes@[a]) by {
                    if a < i {
                        assert(o0.contains(nodes@[a]));
                        let t = choose|t: int| 0 <= t < o0.len() && o0[t] == nodes@[a];
                        assert(out@[t] == o0[t]);
                    } else {
                        assert(out@[n] == nodes@[a]);
                    }
                }
            }
        }
        i += 1;
    }
    out
}


/// `r` is the projection of the buckets `bs` at granularity `g` under the
/// filters `f`:
/// - the edges are exactly the grouped edges seen whose ends are both kept,
///   each carrying its merged statistic, ordered by weight descending, then
///   source, then target;
/// - the nodes are exactly the kept group keys (and, when isolated nodes are
///   hidden, only those some edge touches), each carrying its merged
///   statistic, ordered by visits descending, then key.
pub open spec fn is_projection(r: GraphProjection, bs: Seq<DayBucket>, g: Granularity, f: Filters) -> bool {
    let ns = r.nodes@;
    let es = r.edges@;
    &&& forall|t: int| 0 <= t < es.len() ==> edge_kept(bs, g, f, (#[trigger] es[t]).from@, es[t].to@)
        && edge_is(es[t], merged_edge(bs, g, es[t].from@, es[t].to@))
    &&& forall|a: Seq<char>, b: Seq<char>| #[trigger] edge_kept(bs, g, f, a, b)
        ==> exists|t: int| 0 <= t < es.len() && (#[trigger] es[t]).from@ == a && es[t].to@ == b
    &&& forall|i: int, j: int| 0 <= i < j < es.len() ==> key_lt(edge_rank(#[trigger] es[i]), edge_rank(#[trigger] es[j]))
    &&& forall|t: int| 0 <= t < ns.len() ==> node_kept(bs, g, f, (#[trigger] ns[t]).key@)
        && node_is(ns[t], merged_stat(bs, g, ns[t].key@))
        && (f.hide_isolated ==> touches(es, ns[t].key@))
    &&& forall|k: Seq<char>| #[trigger] node_kept(bs, g, f, k) && (f.hide_isolated ==> touches(es, k))
        ==> exists|t: int| 0 <= t < ns.len() && (#[trigger] ns[t]).key@ == k
    &&& forall|i: int, j: int| 0 <= i < j < ns.len() ==> key_lt(node_rank(#[trigger] ns[i]), node_rank(#[trigger] ns[j]))
}

/// Merge the buckets, regroup to the requested granularity (dropping the
/// self-loops regrouping creates), and apply the display filters.
pub fn project(buckets: &[DayBucket], gran: Granularity, filters: &Filters) -> (r: GraphProjection)
    requires
        node_sums_fit(buckets@, gran),
        edge_sums_fit(buckets@, gran),
    ensures
        is_projection(r, buckets@, gran, *filters),
{
    let ghost bs = buckets@;
    let ghost f = *filters;
    let m = merge_nodes(buckets, gran);
    let me = merge_edges(buckets, gran);
    let (nv, keep) = kept_nodes(&m, filters, Ghost(bs), gran);
    proof {
        assert forall|k: Seq<char>| #[trigger] strs(keep@).contains(k) == node_kept(bs, gran, f, k) by {
            if strs(keep@).contains(k) {
                let t = choose|t: int| 0 <= t < strs(keep@).len() && strs(keep@)[t] == k;
                assert(nv@[t].key@ == keep@[t]@);
            }
            if node_kept(bs, gran, f, k) {
                let t = choose|t: int| 0 <= t < nv@.len() && (#[trigger] nv@[t]).key@ == k;
                assert(strs(keep@)[t] == k);
            }
        }
    }
    let ev = kept_edges(&me, &keep, Ghost(bs), gran, Ghost(f));
    let nn = nv.len();
    let en = ev.len();
    let ghost nv0 = nv@;
    let ghost ev0 = ev@;
    let nodes = sort_nodes(nv);
    let edges = sort_edges(ev);
    proof {
        assert(nv0.len() == nn && ev0.len() == en);
        lemma_permutes_elems(nodes@, nv0);
        lemma_permutes_elems(edges@, ev0);
    }
    let ghost sorted = nodes@;
    let nodes = if filters.hide_isolated {
        drop_isolated(nodes, &edges)
    } else {
        nodes
    };
    let r = GraphProjection { nodes, edges };
    proof {
        let ns = r.nodes@;
        let es = r.edges@;
        assert forall|t: int| 0 <= t < es.len() implies edge_kept(bs, gran, f, (#[trigger] es[t]).from@, es[t].to@)
            && edge_is(es[t], merged_edge(bs, gran, es[t].from@, es[t].to@)) by {
            assert(ev0.contains(es[t]));
            let a = choose|a: int| 0 <= a < ev0.len() && ev0[a] == es[t];
            assert(edge_kept(bs, gran, f, (ev0[a]).from@, ev0[a].to@));
        }
        assert forall|a: Seq<char>, b: Seq<char>| #[trigger] edge_kept(bs, gran, f, a, b)
            implies exists|t: int| 0 <= t < es.len() && (#[trigger] es[t]).from@ == a && es[t].to@ == b by {
            let x = choose|x: int| 0 <= x < ev0.len() && (#[trigger] ev0[x]).from@ == a && ev0[x].to@ == b;
            assert(es.contains(ev0[x]));
            let t = choose|t: int| 0 <= t < es.len() && es[t] == ev0[x];
            assert(es[t].from@ == a);
        }
        assert forall|t: int| 0 <= t < sorted.len() implies node_kept(bs, gran, f, (#[trigger] sorted[t]).key@)
            && node_is(sorted[t], merged_stat(bs, gran, sorted[t].key@)) by {
            assert(nv0.contains(sorted[t]));
            let a = choose|a: int| 0 <= a < nv0.len() && nv0[a] == sorted[t];
            assert(node_kept(bs, gran, f, (nv0[a]).key@));
        }
        assert forall|k: Seq<char>| #[trigger] node_kept(bs, gran, f, k) implies exists|t: int| 0 <= t < sorted.len() && (#[trigger] sorted[t]).key@ == k by {
            let x = choose|x: int| 0 <= x < nv0.len() && (#[trigger] nv0[x]).key@ == k;
            assert(sorted.contains(nv0[x]));
            let t = choose|t: int| 0 <= t < sorted.len() && sorted[t] == nv0[x];
            assert(sorted[t].key@ == k);
        }
        if f.hide_isolated {
            assert forall|t: int| 0 <= t < ns.len() implies node_kept(bs, gran, f, (#[trigger] ns[t]).key@)
                && node_is(ns[t], merged_stat(bs, gran, ns[t].key@))
                && (f.hide_isolated ==> touches(es, ns[t].key@)) by {
                assert(sorted.contains(ns[t]));
                let a = choose|a: int| 0 <= a < sorted.len() && sorted[a] == ns[t];
                assert(node_kept(bs, gran, f, (sorted[a]).key@));
            }
            assert forall|k: Seq<char>| #[trigger] node_kept(bs, gran, f, k) && (f.hide_isolated ==> touches(es, k))
                implies exists|t: int| 0 <= t < ns.len() && (#[trigger] ns[t]).key@ == k by {
                let x = choose|x: int| 0 <= x < sorted.len() && (#[trigger] sorted[x]).key@ == k;
                assert(touches(es, sorted[x].key@));
                assert(ns.contains(sorted[x]));
                let t = choose|t: int| 0 <= t < ns.len() && ns[t] == sorted[x];
                assert(ns[t].key@ == k);
            }
        }
    }
    r
}

} // verus!
