//! Graph analysis over a projection: heaviest edges, where searches went, and
//! frequent journeys.
use vstd::prelude::*;
use crate::model::{copy_edge, EdgeAgg, GraphProjection};
use crate::sorting::{is_stable_sort, sort_by_keys, KeyView, RankKey};
use crate::tally::{is_tally, rank_rows, ranked, permutes, rows_view, tally, totals_fit, Row};
use crate::text::chars_of;
pub use crate::sequences::frequent_sequences;
pub use crate::hubs::{build, directional_hubs, directional_hubs_checked, hub_sums_fit, hubs, hubs_checked};

verus! {

/// A ranked `(host, weight)` list, as returned by the hub queries.
pub type RankedHosts = Vec<(String, u32)>;

/// Rank key of an edge: weight descending, then `from`, then `to`.
pub open spec fn edge_key(e: EdgeAgg) -> KeyView {
    (-(e.weight as int), e.from@, e.to@)
}

/// Heaviest `n` edges by weight (ties by `from`, then `to`).
pub fn top_edges(p: &GraphProjection, n: usize) -> (r: Vec<EdgeAgg>)
    ensures
        exists|s: Seq<EdgeAgg>|
            is_stable_sort(s, p.edges@, |e: EdgeAgg| edge_key(e)) && r@ == s.take(
                if n < s.len() {
                    n as int
                } else {
                    s.len() as int
                },
            ),
{
    let mut es: Vec<EdgeAgg> = Vec::new();
    let mut keys: Vec<RankKey> = Vec::new();
    let mut i: usize = 0;
    while i < p.edges.len()
        invariant
            i <= p.edges@.len(),
            es@ == p.edges@.take(i as int),
            keys@.len() == i,
            forall|a: int| 0 <= a < i ==> (#[trigger] keys@[a])@ == edge_key(es@[a]),
        decreases p.edges.len() - i,
    {
        let e = copy_edge(&p.edges[i]);
        keys.push(RankKey { major: -(e.weight as i128), first: chars_of(e.from.as_str()), second: chars_of(e.to.as_str()) });
        es.push(e);
        assert(p.edges@.take(i + 1) =~= p.edges@.take(i as int).push(p.edges@[i as int]));
        i += 1;
    }
    assert(p.edges@.take(p.edges@.len() as int) =~= p.edges@);
    let mut sorted = sort_by_keys(es, &keys, Ghost(|e: EdgeAgg| edge_key(e)));
    let ghost s = sorted@;
    sorted.truncate(n);
    assert(sorted@ =~= s.take(if n < s.len() { n as int } else { s.len() as int }));
    sorted
}

/// Sum of `search_link` counts over the edges into `d`.
pub open spec fn search_items(edges: Seq<EdgeAgg>) -> Seq<Row>
    decreases edges.len(),
{
    if edges.len() == 0 {
        Seq::<Row>::empty()
    } else {
        let prev = search_items(edges.drop_last());
        if edges.last().kinds.search_link > 0 {
            prev.push((edges.last().to@, edges.last().kinds.search_link))
        } else {
            prev
        }
    }
}

/// Where searches went: destinations of edges carrying any `search_link`
/// traversal, with their summed search-link counts, ranked by count
/// descending then host ascending, top `n`.
pub fn search_destinations(p: &GraphProjection, n: usize) -> (r: Vec<(String, u32)>)
    requires
        totals_fit(search_items(p.edges@)),
    ensures
        exists|s: Seq<Row>|
            is_tally(s, search_items(p.edges@)) && ranked(s) && rows_view(r@) == s.take(
                if n < s.len() {
                    n as int
                } else {
                    s.len() as int
                },
            ),
{
    let mut items: Vec<(String, u32)> = Vec::new();
    let mut i: usize = 0;
    while i < p.edges.len()
        invariant
            i <= p.edges@.len(),
            rows_view(items@) == search_items(p.edges@.take(i as int)),
        decreases p.edges.len() - i,
    {
        assert(p.edges@.take(i + 1).drop_last() =~= p.edges@.take(i as int));
        let e = &p.edges[i];
        if e.kinds.search_link > 0 {
            items.push((e.to.clone(), e.kinds.search_link));
            assert(rows_view(items@) =~= search_items(p.edges@.take(i + 1)));
        }
        i += 1;
    }
    assert(p.edges@.take(p.edges@.len() as int) =~= p.edges@);
    let grouped = tally(&items);
    let glen = grouped.len();
    let ghost g = rows_view(grouped@);
    let mut ranked_rows = rank_rows(grouped);
    let ghost s = rows_view(ranked_rows@);
    proof {
        assert(g.len() == grouped@.len());
        crate::tally::lemma_tally_permute(s, g, search_items(p.edges@));
    }
    ranked_rows.truncate(n);
    assert(rows_view(ranked_rows@) =~= s.take(if n < s.len() { n as int } else { s.len() as int }));
    ranked_rows
}


/// The distinct values of `s` in the order they first appear.
pub open spec fn first_seen(s: Seq<usize>) -> Seq<usize>
    decreases s.len(),
{
    if s.len() == 0 {
        Seq::empty()
    } else {
        let p = first_seen(s.drop_last());
        if p.contains(s.last()) {
            p
        } else {
            p.push(s.last())
        }
    }
}

/// Compact community labels to `0..k` in order of first appearance: each
/// label becomes the position of its value among the distinct labels of
/// `comm`, taken in the order they first appear.
pub fn relabel(comm: &[usize]) -> (r: Vec<usize>)
    ensures
        first_seen(comm@).no_duplicates(),
        r@.len() == comm@.len(),
        forall|i: int|
            0 <= i < comm@.len() ==> #[trigger] r@[i] < first_seen(comm@).len() && first_seen(comm@)[r@[i] as int]
                == comm@[i],
{
    let mut seen: Vec<usize> = Vec::new();
    let mut out: Vec<usize> = Vec::new();
    let mut i: usize = 0;
    proof {
        assert(comm@.take(0) =~= Seq::<usize>::empty());
    }
    while i < comm.len()
        invariant
            i <= comm@.len(),
            seen@ == first_seen(comm@.take(i as int)),
            seen@.no_duplicates(),
            out@.len() == i,
            forall|k: int| 0 <= k < i ==> #[trigger] out@[k] < seen@.len() && seen@[out@[k] as int] == comm@[k],
        decreases comm.len() - i,
    {
        let c = comm[i];
        let mut j: usize = 0;
        while j < seen.len() && seen[j] != c
            invariant
                j <= seen@.len(),
                forall|a: int| 0 <= a < j ==> seen@[a] != c,
            decreases seen.len() - j,
        {
            j += 1;
        }
        proof {
            assert(comm@.take(i + 1).drop_last() =~= comm@.take(i as int));
            assert(comm@.take(i + 1).last() == c);
        }
        if j == seen.len() {
            proof {
                assert(!seen@.contains(c));
            }
            seen.push(c);
        } else {
            proof {
                assert(seen@.contains(c));
            }
        }
        out.push(j);
        i += 1;
    }
    proof {
        assert(comm@.take(comm@.len() as int) =~= comm@);
    }
    out
}

} // verus!
