//! The projection as a `petgraph` directed graph, and its hub queries:
//! weighted degree, launch pads (outbound weight) and destinations
//! (inbound weight).
use vstd::prelude::*;
use petgraph::graph::{DiGraph, Graph};
use petgraph::Directed;
use crate::flow::strs;
use crate::model::{copy_edge, copy_node, EdgeAgg, GraphProjection, NodeAgg};
use crate::tally::{permutes, rank_rows, ranked, rows_view, Row};

verus! {

#[verifier::external_type_specification]
#[verifier::external_body]
#[verifier::reject_recursive_types(N)]
#[verifier::reject_recursive_types(E)]
#[verifier::reject_recursive_types(Ty)]
#[verifier::reject_recursive_types(Ix)]
pub struct ExGraph<N, E, Ty, Ix>(Graph<N, E, Ty, Ix>);

#[verifier::external_type_specification]
#[verifier::external_body]
pub struct ExDirected(Directed);

/// The keys of a graph's node weights, by node index.
pub uninterp spec fn graph_keys(g: Graph<NodeAgg, EdgeAgg, Directed, u32>) -> Seq<Seq<char>>;

/// `(source, target, weight)` of a graph's edges, by edge index.
pub uninterp spec fn graph_edges(g: Graph<NodeAgg, EdgeAgg, Directed, u32>) -> Seq<(int, int, int)>;

/// `DiGraph::new`: an empty graph.
#[verifier::external_body]
fn new_graph() -> (g: DiGraph<NodeAgg, EdgeAgg>)
    ensures
        graph_keys(g) == Seq::<Seq<char>>::empty(),
        graph_edges(g) == Seq::<(int, int, int)>::empty(),
{
    DiGraph::new()
}

/// `Graph::add_node`: appends a node and returns its index (the former node
/// count); it panics only when the `u32` index space is exhausted.
#[verifier::external_body]
fn add_node_to(g: &mut DiGraph<NodeAgg, EdgeAgg>, n: NodeAgg) -> (i: usize)
    requires
        graph_keys(*old(g)).len() < u32::MAX,
    ensures
        i == graph_keys(*old(g)).len(),
        graph_keys(*final(g)) == graph_keys(*old(g)).push(n.key@),
        graph_edges(*final(g)) == graph_edges(*old(g)),
{
    g.add_node(n).index()
}

/// `Graph::add_edge`: appends an edge between two existing nodes; it panics
/// on an index out of bounds or when the `u32` index space is exhausted.
#[verifier::external_body]
fn add_edge_to(g: &mut DiGraph<NodeAgg, EdgeAgg>, a: usize, b: usize, e: EdgeAgg)
    requires
        a < graph_keys(*old(g)).len(),
        b < graph_keys(*old(g)).len(),
        graph_edges(*old(g)).len() < u32::MAX,
    ensures
        graph_keys(*final(g)) == graph_keys(*old(g)),
        graph_edges(*final(g)) == graph_edges(*old(g)).push((a as int, b as int, e.weight as int)),
{
    g.add_edge(petgraph::graph::NodeIndex::new(a), petgraph::graph::NodeIndex::new(b), e);
}

/// `Graph::raw_nodes`: the node weights' keys, by node index.
#[verifier::external_body]
fn node_keys(g: &DiGraph<NodeAgg, EdgeAgg>) -> (r: Vec<String>)
    ensures
        strs(r@) == graph_keys(*g),
{
    g.raw_nodes().iter().map(|n| n.weight.key.clone()).collect()
}

/// `Graph::raw_edges`: each edge's source index, target index and weight,
/// by edge index.
#[verifier::external_body]
fn edge_triples(g: &DiGraph<NodeAgg, EdgeAgg>) -> (r: Vec<(usize, usize, u32)>)
    ensures
        r@.len() == graph_edges(*g).len(),
        forall|i: int| 0 <= i < r@.len() ==> (#[trigger] r@[i]).0 as int == graph_edges(*g)[i].0
            && r@[i].1 as int == graph_edges(*g)[i].1 && r@[i].2 as int == graph_edges(*g)[i].2,
{
    g.raw_edges().iter().map(|e| (e.source().index(), e.target().index(), e.weight.weight)).collect()
}

/// The largest index holding key `k`, if any.
pub open spec fn last_index(keys: Seq<Seq<char>>, k: Seq<char>) -> Option<int>
    decreases keys.len(),
{
    if keys.len() == 0 {
        None
    } else if keys.last() == k {
        Some(keys.len() - 1)
    } else {
        last_index(keys.drop_last(), k)
    }
}

/// The graph edges of the projection edges whose two ends are nodes, in
/// order, each between the last nodes carrying its end keys.
pub open spec fn built_edges(es: Seq<EdgeAgg>, keys: Seq<Seq<char>>) -> Seq<(int, int, int)>
    decreases es.len(),
{
    if es.len() == 0 {
        Seq::empty()
    } else {
        let prev = built_edges(es.drop_last(), keys);
        match (last_index(keys, es.last().from@), last_index(keys, es.last().to@)) {
            (Some(a), Some(b)) => prev.push((a, b, es.last().weight as int)),
            _ => prev,
        }
    }
}

proof fn lemma_last_index(keys: Seq<Seq<char>>, k: Seq<char>)
    ensures
        match last_index(keys, k) {
            Some(i) => 0 <= i < keys.len() && keys[i] == k && forall|j: int| i < j < keys.len() ==> keys[j] != k,
            None => forall|j: int| 0 <= j < keys.len() ==> keys[j] != k,
        },
    decreases keys.len(),
{
    if keys.len() > 0 {
        lemma_last_index(keys.drop_last(), k);
        if keys.last() != k {
            match last_index(keys.drop_last(), k) {
                Some(i) => {
                    assert forall|j: int| i < j < keys.len() implies keys[j] != k by {
                        if j < keys.len() - 1 {
                            assert(keys.drop_last()[j] == keys[j]);
                        }
                    }
                },
                None => {
                    assert forall|j: int| 0 <= j < keys.len() implies keys[j] != k by {
                        if j < keys.len() - 1 {
                            assert(keys.drop_last()[j] == keys[j]);
                        }
                    }
                },
            }
        }
    }
}

/// The index of the last key equal to `k`.
fn find_last(keys: &Vec<String>, k: &str) -> (r: Option<usize>)
    ensures
        match last_index(strs(keys@), k@) {
            Some(i) => r == Some(i as usize),
            None => r is None,
        },
{
    let ghost kv = strs(keys@);
    proof {
        lemma_last_index(kv, k@);
    }
    let mut j = keys.len();
    while j > 0
        invariant
            j <= keys@.len(),
            kv == strs(keys@),
            forall|x: int| j <= x < keys@.len() ==> kv[x] != k@,
            match last_index(kv, k@) {
                Some(i) => 0 <= i < kv.len() && kv[i] == k@ && forall|x: int| i < x < kv.len() ==> kv[x] != k@,
                None => forall|x: int| 0 <= x < kv.len() ==> kv[x] != k@,
            },
        decreases j,
    {
        j -= 1;
        if crate::text::str_eq(keys[j].as_str(), k) {
            proof {
                assert(kv[j as int] == k@);
            }
            return Some(j);
        }
    }
    None
}

/// The projection as a directed graph: one node per projection node, and one
/// edge per projection edge whose two ends are nodes.
pub fn build(p: &GraphProjection) -> (g: DiGraph<NodeAgg, EdgeAgg>)
    requires
        p.nodes@.len() < u32::MAX,
        p.edges@.len() < u32::MAX,
    ensures
        graph_keys(g) == crate::project::node_keys(*p),
        graph_edges(g) == built_edges(p.edges@, crate::project::node_keys(*p)),
{
    let ghost keys = crate::project::node_keys(*p);
    let mut g = new_graph();
    let mut names: Vec<String> = Vec::new();
    let mut i: usize = 0;
    while i < p.nodes.len()
        invariant
            i <= p.nodes@.len(),
            p.nodes@.len() < u32::MAX,
            keys == crate::project::node_keys(*p),
            graph_keys(g) == keys.take(i as int),
            strs(names@) == keys.take(i as int),
            graph_edges(g) == Seq::<(int, int, int)>::empty(),
        decreases p.nodes.len() - i,
    {
        let n = copy_node(&p.nodes[i]);
        names.push(p.nodes[i].key.clone());
        add_node_to(&mut g, n);
        proof {
            assert(keys.take(i + 1) =~= keys.take(i as int).push(p.nodes@[i as int].key@));
            assert(strs(names@) =~= keys.take(i + 1));
        }
        i += 1;
    }
    proof {
        assert(keys.take(i as int) =~= keys);
    }
    let mut j: usize = 0;
    while j < p.edges.len()
        invariant
            j <= p.edges@.len(),
            p.edges@.len() < u32::MAX,
            keys == crate::project::node_keys(*p),
            graph_keys(g) == keys,
            strs(names@) == keys,
            graph_edges(g) == built_edges(p.edges@.take(j as int), keys),
            graph_edges(g).len() <= j,
        decreases p.edges.len() - j,
    {
        proof {
            assert(p.edges@.take(j + 1).drop_last() =~= p.edges@.take(j as int));
            assert(p.edges@.take(j + 1).last() == p.edges@[j as int]);
            lemma_last_index(keys, p.edges@[j as int].from@);
            lemma_last_index(keys, p.edges@[j as int].to@);
        }
        let e = &p.edges[j];
        let ghost prev = built_edges(p.edges@.take(j as int), keys);
        let ghost next = built_edges(p.edges@.take(j + 1), keys);
        let fa = find_last(&names, e.from.as_str());
        let fb = find_last(&names, e.to.as_str());
        match (fa, fb) {
            (Some(a), Some(b)) => {
                proof {
                    assert(last_index(keys, e.from@) == Some(a as int));
                    assert(last_index(keys, e.to@) == Some(b as int));
                    assert(next == prev.push((a as int, b as int, e.weight as int)));
                }
                add_edge_to(&mut g, a, b, copy_edge(e));
            },
            _ => {
                proof {
                    assert(last_index(keys, e.from@) is None || last_index(keys, e.to@) is None);
                    assert(next == prev);
                }
            },
        }
        j += 1;
    }
    proof {
        assert(p.edges@.take(j as int) =~= p.edges@);
    }
    g
}

/// Total weight of the edges leaving node `i`.
pub open spec fn out_weight(es: Seq<(int, int, int)>, i: int) -> int
    decreases es.len(),
{
    if es.len() == 0 {
        0
    } else {
        out_weight(es.drop_last(), i) + if es.last().0 == i {
            es.last().2
        } else {
            0
        }
    }
}

/// Total weight of the edges entering node `i`.
pub open spec fn in_weight(es: Seq<(int, int, int)>, i: int) -> int
    decreases es.len(),
{
    if es.len() == 0 {
        0
    } else {
        in_weight(es.drop_last(), i) + if es.last().1 == i {
            es.last().2
        } else {
            0
        }
    }
}

proof fn lemma_weights_prefix(es: Seq<(int, int, int)>, n: int, i: int)
    requires
        0 <= n <= es.len(),
        forall|k: int| 0 <= k < es.len() ==> (#[trigger] es[k]).2 >= 0,
    ensures
        0 <= out_weight(es.take(n), i) <= out_weight(es, i),
        0 <= in_weight(es.take(n), i) <= in_weight(es, i),
    decreases es.len() - n,
{
    if n < es.len() {
        lemma_weights_prefix(es, n + 1, i);
        assert(es.take(n + 1).drop_last() =~= es.take(n));
        assert(es.take(n + 1).last() == es[n]);
    } else {
        assert(es.take(n) =~= es);
    }
    lemma_weights_nonneg(es.take(n), i);
}

proof fn lemma_weights_nonneg(es: Seq<(int, int, int)>, i: int)
    requires
        forall|k: int| 0 <= k < es.len() ==> (#[trigger] es[k]).2 >= 0,
    ensures
        out_weight(es, i) >= 0,
        in_weight(es, i) >= 0,
    decreases es.len(),
{
    if es.len() > 0 {
        assert forall|k: int| 0 <= k < es.drop_last().len() implies (#[trigger] es.drop_last()[k]).2 >= 0 by {
            assert(es.drop_last()[k] == es[k]);
        }
        lemma_weights_nonneg(es.drop_last(), i);
        assert(es.last() == es[es.len() - 1]);
    }
}

/// Out- and in-weight of node `i`.
fn weights_of(es: &Vec<(usize, usize, u32)>, i: usize, Ghost(ev): Ghost<Seq<(int, int, int)>>) -> (r: (u64, u64))
    requires
        es@.len() == ev.len(),
        es@.len() < u32::MAX,
        forall|k: int| 0 <= k < es@.len() ==> (#[trigger] es@[k]).0 as int == ev[k].0 && es@[k].1 as int == ev[k].1
            && es@[k].2 as int == ev[k].2,
    ensures
        r.0 == out_weight(ev, i as int),
        r.1 == in_weight(ev, i as int),
{
    let mut o: u64 = 0;
    let mut n: u64 = 0;
    let mut k: usize = 0;
    proof {
        assert forall|x: int| 0 <= x < ev.len() implies (#[trigger] ev[x]).2 >= 0 by {
            assert(es@[x].2 as int == ev[x].2);
        }
    }
    while k < es.len()
        invariant
            k <= es@.len(),
            es@.len() == ev.len(),
            es@.len() < u32::MAX,
            forall|x: int| 0 <= x < es@.len() ==> (#[trigger] es@[x]).0 as int == ev[x].0 && es@[x].1 as int == ev[x].1
                && es@[x].2 as int == ev[x].2,
            forall|x: int| 0 <= x < ev.len() ==> (#[trigger] ev[x]).2 >= 0,
            o == out_weight(ev.take(k as int), i as int),
            n == in_weight(ev.take(k as int), i as int),
            o <= k * (u32::MAX as int),
            n <= k * (u32::MAX as int),
        decreases es.len() - k,
    {
        proof {
            assert(ev.take(k + 1).drop_last() =~= ev.take(k as int));
            assert(ev.take(k + 1).last() == ev[k as int]);
            assert((k + 1) * (u32::MAX as int) <= u32::MAX * u32::MAX) by (nonlinear_arith)
                requires
                    k + 1 <= u32::MAX;
        }
        let (s, t, w) = es[k];
        if s == i {
            o = o + w as u64;
        }
        if t == i {
            n = n + w as u64;
        }
        proof {
            assert(o <= (k + 1) * (u32::MAX as int)) by (nonlinear_arith)
                requires
                    o <= k * (u32::MAX as int) + u32::MAX;
            assert(n <= (k + 1) * (u32::MAX as int)) by (nonlinear_arith)
                requires
                    n <= k * (u32::MAX as int) + u32::MAX;
        }
        k += 1;
    }
    proof {
        assert(ev.take(k as int) =~= ev);
    }
    (o, n)
}

/// `(key, weighted degree)` of every node, by node index.
pub open spec fn degree_rows(keys: Seq<Seq<char>>, es: Seq<(int, int, int)>) -> Seq<Row> {
    Seq::new(keys.len(), |i: int| (keys[i], (out_weight(es, i) + in_weight(es, i)) as u32))
}

/// Every node's weighted degree fits a `u32`.
pub open spec fn degrees_fit(keys: Seq<Seq<char>>, es: Seq<(int, int, int)>) -> bool {
    forall|i: int| 0 <= i < keys.len() ==> #[trigger] out_weight(es, i) + in_weight(es, i) <= u32::MAX
}

/// Top `n` nodes by weighted degree (inbound plus outbound edge weight),
/// ties by key.
pub fn hubs(g: &DiGraph<NodeAgg, EdgeAgg>, n: usize) -> (r: Vec<(String, u32)>)
    requires
        degrees_fit(graph_keys(*g), graph_edges(*g)),
        graph_edges(*g).len() < u32::MAX,
    ensures
        exists|s: Seq<Row>|
            permutes(s, degree_rows(graph_keys(*g), graph_edges(*g))) && ranked(s) && rows_view(r@) == s.take(
                if n < s.len() {
                    n as int
                } else {
                    s.len() as int
                },
            ),
{
    let ghost keys = graph_keys(*g);
    let ghost ev = graph_edges(*g);
    let names = node_keys(g);
    let es = edge_triples(g);
    let mut rows: Vec<(String, u32)> = Vec::new();
    let mut i: usize = 0;
    while i < names.len()
        invariant
            i <= names@.len(),
            strs(names@) == keys,
            es@.len() == ev.len(),
            ev.len() < u32::MAX,
            forall|k: int| 0 <= k < es@.len() ==> (#[trigger] es@[k]).0 as int == ev[k].0 && es@[k].1 as int == ev[k].1
                && es@[k].2 as int == ev[k].2,
            degrees_fit(keys, ev),
            rows_view(rows@) == degree_rows(keys, ev).take(i as int),
        decreases names.len() - i,
    {
        let (o, d) = weights_of(&es, i, Ghost(ev));
        proof {
            assert(out_weight(ev, i as int) + in_weight(ev, i as int) <= u32::MAX);
        }
        let deg = (o + d) as u32;
        let ghost before = rows@;
        rows.push((names[i].clone(), deg));
        proof {
            assert(rows@.drop_last() == before);
            assert(rows_view(before) == degree_rows(keys, ev).take(i as int));
        }
        proof {
            assert(strs(names@)[i as int] == names@[i as int]@);
            let dr = degree_rows(keys, ev);
            assert(keys.len() == names@.len());
            assert(dr.len() == keys.len());
            assert(dr[i as int] == (keys[i as int], deg));
            let rv = rows_view(rows@);
            assert(rows_view(before).len() == before.len());
            assert(dr.take(i as int).len() == i);
            assert(rv.len() == i + 1);
            assert forall|x: int| 0 <= x < i + 1 implies rv[x] == dr.take(i + 1)[x] by {
                if x < i {
                    assert(rv[x] == rows_view(rows@.drop_last())[x]);
                }
            }
            assert(rv =~= dr.take(i + 1));
        }
        i += 1;
    }
    proof {
        assert(degree_rows(keys, ev).take(i as int) =~= degree_rows(keys, ev));
    }
    let mut ranked_rows = rank_rows(rows);
    let ghost s = rows_view(ranked_rows@);
    ranked_rows.truncate(n);
    assert(rows_view(ranked_rows@) =~= s.take(if n < s.len() { n as int } else { s.len() as int }));
    ranked_rows
}

/// `(key, weight)` of the nodes `0..m` whose `out` (or else `in`) weight is
/// positive, by node index.
pub open spec fn weight_rows(keys: Seq<Seq<char>>, es: Seq<(int, int, int)>, m: int, out: bool) -> Seq<Row>
    decreases m,
{
    if m <= 0 {
        Seq::empty()
    } else {
        let prev = weight_rows(keys, es, m - 1, out);
        let w = if out {
            out_weight(es, m - 1)
        } else {
            in_weight(es, m - 1)
        };
        if w > 0 {
            prev.push((keys[m - 1], w as u32))
        } else {
            prev
        }
    }
}

/// Every node's outbound and inbound weights fit a `u32`.
pub open spec fn weights_fit(keys: Seq<Seq<char>>, es: Seq<(int, int, int)>) -> bool {
    forall|i: int| 0 <= i < keys.len() ==> #[trigger] out_weight(es, i) <= u32::MAX && in_weight(es, i) <= u32::MAX
}

/// Launch pads (top `n` by outbound weight) and destinations (top `n` by
/// inbound weight); nodes with zero weight in that direction are left out.
pub fn directional_hubs(g: &DiGraph<NodeAgg, EdgeAgg>, n: usize) -> (r: (Vec<(String, u32)>, Vec<(String, u32)>))
    requires
        weights_fit(graph_keys(*g), graph_edges(*g)),
        graph_edges(*g).len() < u32::MAX,
    ensures
        exists|s: Seq<Row>|
            permutes(s, weight_rows(graph_keys(*g), graph_edges(*g), graph_keys(*g).len() as int, true)) && ranked(s)
                && rows_view(r.0@) == s.take(if n < s.len() { n as int } else { s.len() as int }),
        exists|s: Seq<Row>|
            permutes(s, weight_rows(graph_keys(*g), graph_edges(*g), graph_keys(*g).len() as int, false)) && ranked(s)
                && rows_view(r.1@) == s.take(if n < s.len() { n as int } else { s.len() as int }),
{
    let ghost keys = graph_keys(*g);
    let ghost ev = graph_edges(*g);
    let names = node_keys(g);
    let es = edge_triples(g);
    let mut outs: Vec<(String, u32)> = Vec::new();
    let mut ins: Vec<(String, u32)> = Vec::new();
    let mut i: usize = 0;
    while i < names.len()
        invariant
            i <= names@.len(),
            strs(names@) == keys,
            es@.len() == ev.len(),
            ev.len() < u32::MAX,
            forall|k: int| 0 <= k < es@.len() ==> (#[trigger] es@[k]).0 as int == ev[k].0 && es@[k].1 as int == ev[k].1
                && es@[k].2 as int == ev[k].2,
            weights_fit(keys, ev),
            rows_view(outs@) == weight_rows(keys, ev, i as int, true),
            rows_view(ins@) == weight_rows(keys, ev, i as int, false),
        decreases names.len() - i,
    {
        let (o, d) = weights_of(&es, i, Ghost(ev));
        proof {
            assert(out_weight(ev, i as int) <= u32::MAX && in_weight(ev, i as int) <= u32::MAX);
            assert(strs(names@)[i as int] == names@[i as int]@);
        }
        if o > 0 {
            outs.push((names[i].clone(), o as u32));
            proof {
                assert(rows_view(outs@) =~= weight_rows(keys, ev, i + 1, true));
            }
        }
        if d > 0 {
            ins.push((names[i].clone(), d as u32));
            proof {
                assert(rows_view(ins@) =~= weight_rows(keys, ev, i + 1, false));
            }
        }
        i += 1;
    }
    let mut ro = rank_rows(outs);
    let ghost so = rows_view(ro@);
    ro.truncate(n);
    assert(rows_view(ro@) =~= so.take(if n < so.len() { n as int } else { so.len() as int }));
    let mut ri = rank_rows(ins);
    let ghost si = rows_view(ri@);
    ri.truncate(n);
    assert(rows_view(ri@) =~= si.take(if n < si.len() { n as int } else { si.len() as int }));
    (ro, ri)
}


/// Whether the weight sums of `g` fit `u32` (with fewer than `u32::MAX`
/// edges): first for every node's weighted degree, then for every node's
/// outbound and inbound weight taken apart.
pub fn hub_sums_fit(g: &DiGraph<NodeAgg, EdgeAgg>) -> (r: (bool, bool))
    ensures
        r.0 == (graph_edges(*g).len() < u32::MAX && degrees_fit(graph_keys(*g), graph_edges(*g))),
        r.1 == (graph_edges(*g).len() < u32::MAX && weights_fit(graph_keys(*g), graph_edges(*g))),
{
    let ghost keys = graph_keys(*g);
    let ghost ev = graph_edges(*g);
    let names = node_keys(g);
    let es = edge_triples(g);
    if es.len() >= 4294967295 {
        return (false, false);
    }
    proof {
        assert(names@.len() == strs(names@).len());
    }
    let mut deg_ok = true;
    let mut w_ok = true;
    let mut i: usize = 0;
    while i < names.len()
        invariant
            i <= names@.len(),
            names@.len() == keys.len(),
            es@.len() == ev.len(),
            ev.len() < u32::MAX,
            forall|k: int| 0 <= k < es@.len() ==> (#[trigger] es@[k]).0 as int == ev[k].0 && es@[k].1 as int == ev[k].1
                && es@[k].2 as int == ev[k].2,
            deg_ok == forall|j: int| 0 <= j < i ==> #[trigger] out_weight(ev, j) + in_weight(ev, j) <= u32::MAX,
            w_ok == forall|j: int| 0 <= j < i ==> #[trigger] out_weight(ev, j) <= u32::MAX && in_weight(ev, j) <= u32::MAX,
        decreases names.len() - i,
    {
        let (o, d) = weights_of(&es, i, Ghost(ev));
        if (o as u128) + (d as u128) > 4294967295 {
            deg_ok = false;
        }
        if o > 4294967295 || d > 4294967295 {
            w_ok = false;
        }
        i += 1;
    }
    (deg_ok, w_ok)
}

/// [`hubs`] when every weighted degree fits a `u32` and there are fewer than
/// `u32::MAX` edges ([`hub_sums_fit`]); `None` otherwise.
pub fn hubs_checked(g: &DiGraph<NodeAgg, EdgeAgg>, n: usize) -> (r: Option<Vec<(String, u32)>>)
    ensures
        (r is None) == !(graph_edges(*g).len() < u32::MAX && degrees_fit(graph_keys(*g), graph_edges(*g))),
        r matches Some(v) ==> exists|s: Seq<Row>|
            permutes(s, degree_rows(graph_keys(*g), graph_edges(*g))) && ranked(s) && rows_view(v@) == s.take(
                if n < s.len() {
                    n as int
                } else {
                    s.len() as int
                },
            ),
{
    let (deg_ok, _) = hub_sums_fit(g);
    if deg_ok {
        Some(hubs(g, n))
    } else {
        None
    }
}

/// [`directional_hubs`] when every outbound and inbound weight fits a `u32`
/// and there are fewer than `u32::MAX` edges ([`hub_sums_fit`]); `None`
/// otherwise.
pub fn directional_hubs_checked(g: &DiGraph<NodeAgg, EdgeAgg>, n: usize) -> (r: Option<(Vec<(String, u32)>, Vec<(String, u32)>)>)
    ensures
        (r is None) == !(graph_edges(*g).len() < u32::MAX && weights_fit(graph_keys(*g), graph_edges(*g))),
        r matches Some(v) ==> exists|s: Seq<Row>|
            permutes(s, weight_rows(graph_keys(*g), graph_edges(*g), graph_keys(*g).len() as int, true)) && ranked(s)
                && rows_view(v.0@) == s.take(if n < s.len() { n as int } else { s.len() as int }),
        r matches Some(v) ==> exists|s: Seq<Row>|
            permutes(s, weight_rows(graph_keys(*g), graph_edges(*g), graph_keys(*g).len() as int, false)) && ranked(s)
                && rows_view(v.1@) == s.take(if n < s.len() { n as int } else { s.len() as int }),
{
    let (_, w_ok) = hub_sums_fit(g);
    if w_ok {
        Some(directional_hubs(g, n))
    } else {
        None
    }
}

} // verus!
