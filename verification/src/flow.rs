//! Sankey flow layout: aggregate host transitions into a weighted, layered
//! flow graph. Columns come from longest-path layering of the transition
//! graph once the edges that close a cycle (found by a depth-first search) are
//! set aside, so cycles still draw as ribbons but cannot inflate the column
//! count. Session-start hosts are pinned to the leftmost column.
use vstd::prelude::*;
use crate::model::{EdgeKind, Provenance};
use crate::sorting::{is_index_perm, key_lt, sort_by_keys, KeyView, RankKey};
use crate::tally::{is_tally, key_total, lemma_tally_permute, permutes, rank_rows, ranked, rows_view, tally, Row};
use crate::text::{chars_of, expand, lex_lt, spec_clip, str_eq, xml_entity};
pub use crate::sessions::{from_session_events, session_chains};

verus! {

/// A host in the flow, assigned to a column (`layer`) and sized by
/// `throughput` (the larger of its inbound and outbound transition weight).
#[derive(Clone, Debug, PartialEq, Eq)]
pub struct FlowNode {
    pub key: String,
    pub layer: usize,
    pub throughput: u32,
    pub prov: Provenance,
}

/// A weighted transition `from → to` (indices into the node list).
#[derive(Clone, Copy, Debug, PartialEq, Eq)]
pub struct FlowLink {
    pub from: usize,
    pub to: usize,
    pub weight: u32,
    pub kind: EdgeKind,
}

/// A laid-out flow graph: nodes (in column order), links and the column count.
#[derive(Clone, Debug, PartialEq, Eq)]
pub struct FlowGraph {
    pub nodes: Vec<FlowNode>,
    pub links: Vec<FlowLink>,
    pub layers: usize,
}

impl Default for FlowGraph {
    fn default() -> (g: FlowGraph)
        ensures
            g.nodes@.len() == 0,
            g.links@.len() == 0,
            g.layers == 0,
    {
        FlowGraph { nodes: Vec::new(), links: Vec::new(), layers: 0 }
    }
}

/// Views of host strings and host pairs.
pub open spec fn strs(v: Seq<String>) -> Seq<Seq<char>> {
    v.map_values(|s: String| s@)
}

pub open spec fn pairs_view(v: Seq<(String, String)>) -> Seq<(Seq<char>, Seq<char>)> {
    v.map_values(|p: (String, String)| (p.0@, p.1@))
}

/// The hosts of the transitions in order: `from₀, to₀, from₁, to₁, …`.
pub open spec fn flat(tv: Seq<(Seq<char>, Seq<char>)>) -> Seq<Seq<char>>
    decreases tv.len(),
{
    if tv.len() == 0 {
        Seq::empty()
    } else {
        flat(tv.drop_last()).push(tv.last().0).push(tv.last().1)
    }
}

/// `s` without repeats, each element kept at its first appearance.
pub open spec fn dedup(s: Seq<Seq<char>>) -> Seq<Seq<char>>
    decreases s.len(),
{
    if s.len() == 0 {
        Seq::empty()
    } else {
        let d = dedup(s.drop_last());
        if d.contains(s.last()) {
            d
        } else {
            d.push(s.last())
        }
    }
}

/// The node keys of a flow: every transition host, then every pinned start,
/// each once, in order of first appearance.
pub open spec fn flow_keys(tv: Seq<(Seq<char>, Seq<char>)>, pinned: Seq<Seq<char>>) -> Seq<Seq<char>> {
    dedup(flat(tv) + pinned)
}

/// How many transitions go from `a` to `b`.
pub open spec fn trans_count(tv: Seq<(Seq<char>, Seq<char>)>, a: Seq<char>, b: Seq<char>) -> int
    decreases tv.len(),
{
    if tv.len() == 0 {
        0
    } else {
        trans_count(tv.drop_last(), a, b) + if tv.last() == (a, b) {
            1int
        } else {
            0
        }
    }
}

/// `(a, b)` precedes `(c, d)` lexicographically.
pub open spec fn pair_lt(a: int, b: int, c: int, d: int) -> bool {
    a < c || (a == c && b < d)
}

pub open spec fn no_repeats(s: Seq<Seq<char>>) -> bool {
    forall|i: int, j: int| 0 <= i < j < s.len() ==> s[i] != s[j]
}

/// `links` holds one link per ordered pair of distinct hosts that some
/// transition connects, weighted by how many do (at least one), sorted by
/// `(from, to)`.
pub open spec fn is_link_set(links: Seq<FlowLink>, keys: Seq<Seq<char>>, tv: Seq<(Seq<char>, Seq<char>)>) -> bool {
    &&& forall|i: int, j: int|
        0 <= i < j < links.len() ==> pair_lt(
            (#[trigger] links[i]).from as int,
            links[i].to as int,
            (#[trigger] links[j]).from as int,
            links[j].to as int,
        )
    &&& forall|i: int|
        0 <= i < links.len() ==> {
            let l = #[trigger] links[i];
            &&& l.from < keys.len()
            &&& l.to < keys.len()
            &&& l.from != l.to
            &&& l.weight == trans_count(tv, keys[l.from as int], keys[l.to as int])
            &&& l.weight >= 1
            &&& l.kind == EdgeKind::Link
        }
    &&& forall|a: int|
        0 <= a < tv.len() && (#[trigger] tv[a]).0 != tv[a].1 ==> exists|i: int|
            0 <= i < links.len() && keys[(#[trigger] links[i]).from as int] == tv[a].0 && keys[links[i].to as int]
                == tv[a].1
}

proof fn lemma_trans_count_bounds(tv: Seq<(Seq<char>, Seq<char>)>, a: Seq<char>, b: Seq<char>)
    ensures
        0 <= trans_count(tv, a, b) <= tv.len(),
    decreases tv.len(),
{
    if tv.len() > 0 {
        lemma_trans_count_bounds(tv.drop_last(), a, b);
    }
}

proof fn lemma_trans_count_pos(tv: Seq<(Seq<char>, Seq<char>)>, a: int)
    requires
        0 <= a < tv.len(),
    ensures
        trans_count(tv, tv[a].0, tv[a].1) > 0,
    decreases tv.len(),
{
    if a < tv.len() - 1 {
        lemma_trans_count_pos(tv.drop_last(), a);
        assert(tv.drop_last()[a] == tv[a]);
        lemma_trans_count_bounds(tv.drop_last(), tv[a].0, tv[a].1);
    } else {
        lemma_trans_count_bounds(tv.drop_last(), tv[a].0, tv[a].1);
    }
}

/// The index of `h` in `keys`, adding it at the end when absent.
fn intern(h: &str, keys: &mut Vec<String>) -> (i: usize)
    requires
        no_repeats(strs(old(keys)@)),
    ensures
        strs(final(keys)@) == if strs(old(keys)@).contains(h@) {
            strs(old(keys)@)
        } else {
            strs(old(keys)@).push(h@)
        },
        no_repeats(strs(final(keys)@)),
        i < final(keys)@.len(),
        final(keys)@[i as int]@ == h@,
{
    let mut j: usize = 0;
    while j < keys.len()
        invariant
            j <= keys@.len(),
            keys@ == old(keys)@,
            no_repeats(strs(keys@)),
            forall|a: int| 0 <= a < j ==> (#[trigger] keys@[a])@ != h@,
        decreases keys.len() - j,
    {
        if str_eq(keys[j].as_str(), h) {
            proof {
                assert(strs(keys@)[j as int] == h@);
            }
            return j;
        }
        j += 1;
    }
    proof {
        assert forall|a: int| 0 <= a < strs(keys@).len() implies strs(keys@)[a] != h@ by {
            assert(keys@[a]@ != h@);
        }
    }
    let i = keys.len();
    keys.push(h.to_string());
    proof {
        assert(strs(keys@) =~= strs(old(keys)@).push(h@));
    }
    i
}

/// Count one more transition `f → t` (indices, `f != t`) into the sorted
/// link list.
fn add_link(links: &mut Vec<FlowLink>, f: usize, t: usize) -> (pos: usize)
    requires
        forall|i: int, j: int|
            0 <= i < j < old(links)@.len() ==> pair_lt(
                (#[trigger] old(links)@[i]).from as int,
                old(links)@[i].to as int,
                (#[trigger] old(links)@[j]).from as int,
                old(links)@[j].to as int,
            ),
        forall|i: int| 0 <= i < old(links)@.len() ==> (#[trigger] old(links)@[i]).weight < u32::MAX,
    ensures
        pos < final(links)@.len(),
        pos <= old(links)@.len(),
        final(links)@[pos as int].from == f && final(links)@[pos as int].to == t,
        forall|i: int, j: int|
            0 <= i < j < final(links)@.len() ==> pair_lt(
                (#[trigger] final(links)@[i]).from as int,
                final(links)@[i].to as int,
                (#[trigger] final(links)@[j]).from as int,
                final(links)@[j].to as int,
            ),
        // Either the pair was present and its weight grew by one ...
        (exists|p: int|
            0 <= p < old(links)@.len() && (#[trigger] old(links)@[p]).from == f && old(links)@[p].to == t)
            ==> final(links)@.len() == old(links)@.len() && final(links)@[pos as int].weight
            == old(links)@[pos as int].weight + 1 && final(links)@[pos as int].kind == old(links)@[pos as int].kind
            && forall|i: int|
            0 <= i < old(links)@.len() && i != pos ==> #[trigger] final(links)@[i] == old(links)@[i],
        // ... or it is new, with weight one, inserted at `pos`.
        !(exists|p: int|
            0 <= p < old(links)@.len() && (#[trigger] old(links)@[p]).from == f && old(links)@[p].to == t)
            ==> final(links)@ == old(links)@.insert(
            pos as int,
            FlowLink { from: f, to: t, weight: 1, kind: EdgeKind::Link },
        ),
{
    let mut p: usize = 0;
    while p < links.len() && pair_lt_exec(links[p].from, links[p].to, f, t)
        invariant
            p <= links@.len(),
            links@ == old(links)@,
            forall|i: int| 0 <= i < p ==> pair_lt((#[trigger] links@[i]).from as int, links@[i].to as int, f as int, t as int),
        decreases links.len() - p,
    {
        p += 1;
    }
    if p < links.len() && links[p].from == f && links[p].to == t {
        let old_l = links[p];
        links.set(p, FlowLink { from: f, to: t, weight: old_l.weight + 1, kind: old_l.kind });
        p
    } else {
        proof {
            assert forall|q: int| 0 <= q < links@.len() implies !((#[trigger] links@[q]).from == f && links@[q].to == t) by {
                if q >= p {
                    if q > p {
                        assert(pair_lt(links@[p as int].from as int, links@[p as int].to as int, links@[q].from as int, links@[q].to as int));
                    }
                }
            }
        }
        links.insert(p, FlowLink { from: f, to: t, weight: 1, kind: EdgeKind::Link });
        proof {
            let nl = links@;
            assert forall|i: int, j: int| 0 <= i < j < nl.len() implies pair_lt(
                (#[trigger] nl[i]).from as int,
                nl[i].to as int,
                (#[trigger] nl[j]).from as int,
                nl[j].to as int,
            ) by {
                let ol = old(links)@;
                if j < p {
                    assert(nl[i] == ol[i] && nl[j] == ol[j]);
                } else if j == p {
                    assert(nl[i] == ol[i]);
                } else if i == p {
                    assert(nl[j] == ol[j - 1]);
                    if j - 1 > p {
                        assert(pair_lt(ol[p as int].from as int, ol[p as int].to as int, ol[j - 1].from as int, ol[j - 1].to as int));
                    }
                } else if i < p {
                    assert(nl[i] == ol[i] && nl[j] == ol[j - 1]);
                } else {
                    assert(nl[i] == ol[i - 1] && nl[j] == ol[j - 1]);
                }
            }
        }
        p
    }
}

proof fn lemma_trans_count_witness(tv: Seq<(Seq<char>, Seq<char>)>, a: Seq<char>, b: Seq<char>)
    requires
        trans_count(tv, a, b) > 0,
    ensures
        exists|i: int| 0 <= i < tv.len() && tv[i] == (a, b),
    decreases tv.len(),
{
    if tv.last() != (a, b) {
        lemma_trans_count_witness(tv.drop_last(), a, b);
        let i = choose|i: int| 0 <= i < tv.drop_last().len() && tv.drop_last()[i] == (a, b);
        assert(tv[i] == tv.drop_last()[i]);
    } else {
        assert(tv[tv.len() - 1] == (a, b));
    }
}

/// A link set stays one when the key list grows at its end.
proof fn lemma_link_set_keys_grow(links: Seq<FlowLink>, keys: Seq<Seq<char>>, keys2: Seq<Seq<char>>, tv: Seq<(Seq<char>, Seq<char>)>)
    requires
        is_link_set(links, keys, tv),
        keys.len() <= keys2.len(),
        keys2.take(keys.len() as int) == keys,
    ensures
        is_link_set(links, keys2, tv),
{
    assert forall|i: int| 0 <= i < links.len() implies keys2[(#[trigger] links[i]).from as int] == keys[links[i].from as int]
        && keys2[links[i].to as int] == keys[links[i].to as int] by {
        assert(keys2.take(keys.len() as int)[links[i].from as int] == keys2[links[i].from as int]);
        assert(keys2.take(keys.len() as int)[links[i].to as int] == keys2[links[i].to as int]);
    }
    assert forall|a: int|
        0 <= a < tv.len() && (#[trigger] tv[a]).0 != tv[a].1 implies exists|i: int|
            0 <= i < links.len() && keys2[(#[trigger] links[i]).from as int] == tv[a].0 && keys2[links[i].to as int]
                == tv[a].1 by {
        let i = choose|i: int|
            0 <= i < links.len() && keys[(#[trigger] links[i]).from as int] == tv[a].0 && keys[links[i].to as int] == tv[a].1;
        assert(keys2[links[i].from as int] == keys[links[i].from as int]);
    }
}

/// Counting transition `tv[j]` into the links of `tv.take(j)`.
proof fn lemma_link_set_step(
    ol: Seq<FlowLink>,
    nl: Seq<FlowLink>,
    keys: Seq<Seq<char>>,
    tv: Seq<(Seq<char>, Seq<char>)>,
    j: int,
    fi: int,
    ti: int,
    pos: int,
)
    requires
        0 <= j < tv.len(),
        no_repeats(keys),
        is_link_set(ol, keys, tv.take(j)),
        0 <= fi < keys.len() && 0 <= ti < keys.len(),
        keys[fi] == tv[j].0 && keys[ti] == tv[j].1,
        fi != ti,
        0 <= pos < nl.len(),
        pos <= ol.len(),
        nl[pos].from == fi && nl[pos].to == ti,
        forall|i: int, k: int|
            0 <= i < k < nl.len() ==> pair_lt(
                (#[trigger] nl[i]).from as int,
                nl[i].to as int,
                (#[trigger] nl[k]).from as int,
                nl[k].to as int,
            ),
        (exists|p: int| 0 <= p < ol.len() && (#[trigger] ol[p]).from == fi && ol[p].to == ti) ==> nl.len() == ol.len()
            && nl[pos].weight == ol[pos].weight + 1 && nl[pos].kind == ol[pos].kind && forall|i: int|
            0 <= i < ol.len() && i != pos ==> #[trigger] nl[i] == ol[i],
        !(exists|p: int| 0 <= p < ol.len() && (#[trigger] ol[p]).from == fi && ol[p].to == ti) ==> nl == ol.insert(
            pos,
            FlowLink { from: fi as usize, to: ti as usize, weight: 1, kind: EdgeKind::Link },
        ),
    ensures
        is_link_set(nl, keys, tv.take(j + 1)),
{
    let pre = tv.take(j);
    let post = tv.take(j + 1);
    assert(post.drop_last() =~= pre);
    assert(post.last() == tv[j]);
    let present = exists|p: int| 0 <= p < ol.len() && (#[trigger] ol[p]).from == fi && ol[p].to == ti;
    if !present {
        if trans_count(pre, keys[fi], keys[ti]) > 0 {
            lemma_trans_count_witness(pre, keys[fi], keys[ti]);
            let a = choose|a: int| 0 <= a < pre.len() && pre[a] == (keys[fi], keys[ti]);
            let i = choose|i: int|
                0 <= i < ol.len() && keys[(#[trigger] ol[i]).from as int] == pre[a].0 && keys[ol[i].to as int] == pre[a].1;
            assert(ol[i].from == fi && ol[i].to == ti);
        }
        lemma_trans_count_bounds(pre, keys[fi], keys[ti]);
    } else {
        let p = choose|p: int| 0 <= p < ol.len() && (#[trigger] ol[p]).from == fi && ol[p].to == ti;
        if p != pos {
            assert(nl[p] == ol[p]);
            if p < pos {
                assert(pair_lt(nl[p].from as int, nl[p].to as int, nl[pos].from as int, nl[pos].to as int));
            } else {
                assert(pair_lt(nl[pos].from as int, nl[pos].to as int, nl[p].from as int, nl[p].to as int));
            }
        }
    }
    // Every link of `nl` is well formed and counted.
    assert forall|i: int| 0 <= i < nl.len() implies {
        let l = #[trigger] nl[i];
        &&& l.from < keys.len()
        &&& l.to < keys.len()
        &&& l.from != l.to
        &&& l.weight == trans_count(post, keys[l.from as int], keys[l.to as int])
        &&& l.kind == EdgeKind::Link
    } by {
        if i != pos {
            let oi = if present || i < pos { i } else { i - 1 };
            if present {
                assert(nl.len() == ol.len());
                assert(nl[i] == ol[i]);
            } else {
                assert(nl.len() == ol.len() + 1);
                if i < pos {
                    assert(nl[i] == ol[i]);
                } else {
                    assert(nl[i] == ol[i - 1]);
                }
            }
            assert(nl[i] == ol[oi]);
            if keys[ol[oi].from as int] == keys[fi] && keys[ol[oi].to as int] == keys[ti] {
                assert(ol[oi].from == fi && ol[oi].to == ti);
                if i < pos {
                    assert(pair_lt(nl[i].from as int, nl[i].to as int, nl[pos].from as int, nl[pos].to as int));
                } else {
                    assert(pair_lt(nl[pos].from as int, nl[pos].to as int, nl[i].from as int, nl[i].to as int));
                }
            }
        }
    }
    assert forall|a: int|
        0 <= a < post.len() && (#[trigger] post[a]).0 != post[a].1 implies exists|i: int|
            0 <= i < nl.len() && keys[(#[trigger] nl[i]).from as int] == post[a].0 && keys[nl[i].to as int]
                == post[a].1 by {
        if a == j {
            assert(keys[nl[pos].from as int] == post[a].0);
        } else {
            assert(post[a] == pre[a]);
            let i = choose|i: int|
                0 <= i < ol.len() && keys[(#[trigger] ol[i]).from as int] == pre[a].0 && keys[ol[i].to as int] == pre[a].1;
            let ni = if present || i < pos { i } else { i + 1 };
            if present && i == pos {
                assert(keys[nl[pos].from as int] == post[a].0);
            } else {
                assert(nl[ni] == ol[i]);
            }
        }
    }
}

/// Intern every transition host and count the links between distinct hosts.
fn collect_links(transitions: &[(String, String)]) -> (res: (Vec<String>, Vec<FlowLink>))
    requires
        transitions@.len() <= u32::MAX,
    ensures
        strs(res.0@) == dedup(flat(pairs_view(transitions@))),
        no_repeats(strs(res.0@)),
        is_link_set(res.1@, strs(res.0@), pairs_view(transitions@)),
{
    let ghost tv = pairs_view(transitions@);
    let mut keys: Vec<String> = Vec::new();
    let mut links: Vec<FlowLink> = Vec::new();
    let mut j: usize = 0;
    proof {
        assert(tv.take(0) =~= Seq::<(Seq<char>, Seq<char>)>::empty());
        assert(strs(keys@) =~= dedup(flat(tv.take(0))));
    }
    while j < transitions.len()
        invariant
            j <= transitions@.len() <= u32::MAX,
            tv == pairs_view(transitions@),
            strs(keys@) == dedup(flat(tv.take(j as int))),
            no_repeats(strs(keys@)),
            is_link_set(links@, strs(keys@), tv.take(j as int)),
        decreases transitions.len() - j,
    {
        let ghost k0 = strs(keys@);
        let ghost pre = tv.take(j as int);
        let ghost post = tv.take(j + 1);
        proof {
            assert(post.drop_last() =~= pre);
            assert(post.last() == tv[j as int]);
            assert(flat(post) == flat(pre).push(tv[j as int].0).push(tv[j as int].1));
            assert(flat(pre).push(tv[j as int].0).drop_last() =~= flat(pre));
            assert(flat(post).drop_last() =~= flat(pre).push(tv[j as int].0));
        }
        let fi = intern(transitions[j].0.as_str(), &mut keys);
        let ghost k1 = strs(keys@);
        let ti = intern(transitions[j].1.as_str(), &mut keys);
        let ghost k2 = strs(keys@);
        proof {
            assert(tv[j as int] == (transitions@[j as int].0@, transitions@[j as int].1@));
            assert(k1[fi as int] == tv[j as int].0);
            assert(k2[fi as int] == k1[fi as int]);
            assert(k2[ti as int] == tv[j as int].1);
            assert(k1 == dedup(flat(pre).push(tv[j as int].0)));
            assert(k2 == dedup(flat(post)));
            assert(k2.take(k0.len() as int) =~= k0);
            lemma_link_set_keys_grow(links@, k0, k2, pre);
        }
        if fi != ti {
            proof {
                assert forall|i: int| 0 <= i < links@.len() implies (#[trigger] links@[i]).weight < u32::MAX by {
                    lemma_trans_count_bounds(pre, k2[links@[i].from as int], k2[links@[i].to as int]);
                }
            }
            let ghost ol = links@;
            let pos = add_link(&mut links, fi, ti);
            proof {
                lemma_link_set_step(ol, links@, k2, tv, j as int, fi as int, ti as int, pos as int);
            }
        } else {
            proof {
                assert(tv[j as int].0 == tv[j as int].1);
                assert forall|i: int| 0 <= i < links@.len() implies (#[trigger] links@[i]).weight == trans_count(
                    post,
                    k2[links@[i].from as int],
                    k2[links@[i].to as int],
                ) by {
                    if k2[links@[i].from as int] == tv[j as int].0 && k2[links@[i].to as int] == tv[j as int].1 {
                        assert(links@[i].from == links@[i].to);
                    }
                }
                assert forall|a: int|
                    0 <= a < post.len() && (#[trigger] post[a]).0 != post[a].1 implies exists|i: int|
                        0 <= i < links@.len() && k2[(#[trigger] links@[i]).from as int] == post[a].0 && k2[links@[i].to as int]
                            == post[a].1 by {
                    assert(post[a] == pre[a]);
                }
            }
        }
        j += 1;
    }
    proof {
        assert(tv.take(j as int) =~= tv);
    }
    (keys, links)
}

/// Intern each pinned start host after the transition hosts.
fn pin_starts(pinned: &[String], keys: &mut Vec<String>, Ghost(base): Ghost<Seq<Seq<char>>>)
    requires
        strs(old(keys)@) == dedup(base),
        no_repeats(strs(old(keys)@)),
    ensures
        strs(final(keys)@) == dedup(base + strs(pinned@)),
        no_repeats(strs(final(keys)@)),
        final(keys)@.len() >= old(keys)@.len(),
        strs(final(keys)@).take(old(keys)@.len() as int) == strs(old(keys)@),
{
    let ghost pv = strs(pinned@);
    let ghost k0 = strs(keys@);
    let mut i: usize = 0;
    proof {
        assert(base + pv.take(0) =~= base);
        assert(k0.take(k0.len() as int) =~= k0);
    }
    while i < pinned.len()
        invariant
            i <= pinned@.len(),
            pv == strs(pinned@),
            strs(keys@) == dedup(base + pv.take(i as int)),
            no_repeats(strs(keys@)),
            keys@.len() >= k0.len(),
            strs(keys@).take(k0.len() as int) == k0,
        decreases pinned.len() - i,
    {
        let ghost before = strs(keys@);
        proof {
            assert((base + pv.take(i + 1)).drop_last() =~= base + pv.take(i as int));
            assert((base + pv.take(i + 1)).last() == pinned@[i as int]@);
        }
        intern(pinned[i].as_str(), keys);
        proof {
            assert(strs(keys@).take(k0.len() as int) =~= before.take(k0.len() as int));
        }
        i += 1;
    }
    proof {
        assert(pv.take(pinned@.len() as int) =~= pv);
    }
}

/// `start[u]` is the index of the first link leaving `u` or a later node;
/// the links leaving `u` are exactly those in `start[u]..start[u + 1]`.
pub open spec fn out_ranges(links: Seq<FlowLink>, start: Seq<usize>, n: int) -> bool {
    &&& start.len() == n + 1
    &&& forall|u: int| 0 <= u <= n ==> #[trigger] start[u] <= links.len()
    &&& forall|u: int, li: int| 0 <= u <= n && 0 <= li < start[u] ==> (#[trigger] links[li]).from < u && #[trigger] start[u] >= 0
    &&& forall|u: int, li: int| 0 <= u <= n && start[u] <= li < links.len() ==> (#[trigger] links[li]).from >= u && #[trigger] start[u] >= 0
}

proof fn lemma_out_range(links: Seq<FlowLink>, start: Seq<usize>, n: int, u: int, li: int)
    requires
        out_ranges(links, start, n),
        0 <= u < n,
        0 <= li < links.len(),
    ensures
        (start[u] <= li < start[u + 1]) == (links[li].from == u),
{
    if li < start[u] {
        assert(links[li].from < u);
    } else if li >= start[u + 1] {
        assert(links[li].from >= u + 1);
    } else {
        assert(links[li].from >= u);
        assert(links[li].from < u + 1);
    }
}

/// The first link index per node (see [`out_ranges`]).
fn out_starts(links: &Vec<FlowLink>, n: usize) -> (start: Vec<usize>)
    requires
        n < usize::MAX,
        forall|i: int, j: int|
            0 <= i < j < links@.len() ==> pair_lt(
                (#[trigger] links@[i]).from as int,
                links@[i].to as int,
                (#[trigger] links@[j]).from as int,
                links@[j].to as int,
            ),
        forall|i: int| 0 <= i < links@.len() ==> (#[trigger] links@[i]).from < n,
    ensures
        out_ranges(links@, start@, n as int),
{
    let mut start: Vec<usize> = Vec::new();
    let mut p: usize = 0;
    let mut u: usize = 0;
    while u <= n
        invariant
            n < usize::MAX,
            u <= n + 1,
            p <= links@.len(),
            start@.len() == u,
            forall|li: int| 0 <= li < p ==> (#[trigger] links@[li]).from < u,
            u > 0 ==> forall|li: int| p <= li < links@.len() ==> (#[trigger] links@[li]).from >= u - 1,
            forall|v: int| 0 <= v < u ==> #[trigger] start@[v] <= p,
            forall|v: int, li: int| 0 <= v < u && 0 <= li < start@[v] ==> (#[trigger] links@[li]).from < v && #[trigger] start@[v] >= 0,
            forall|v: int, li: int| 0 <= v < u && start@[v] <= li < links@.len() ==> (#[trigger] links@[li]).from >= v && #[trigger] start@[v] >= 0,
            forall|i: int, j: int|
                0 <= i < j < links@.len() ==> pair_lt(
                    (#[trigger] links@[i]).from as int,
                    links@[i].to as int,
                    (#[trigger] links@[j]).from as int,
                    links@[j].to as int,
                ),
            forall|i: int| 0 <= i < links@.len() ==> (#[trigger] links@[i]).from < n,
        decreases n + 1 - u,
    {
        while p < links.len() && links[p].from < u
            invariant
                p <= links@.len(),
                forall|li: int| 0 <= li < p ==> (#[trigger] links@[li]).from < u,
            decreases links.len() - p,
        {
            p += 1;
        }
        proof {
            assert forall|li: int| p <= li < links@.len() implies (#[trigger] links@[li]).from >= u by {
                if li > p {
                    assert(pair_lt(links@[p as int].from as int, links@[p as int].to as int, links@[li].from as int, links@[li].to as int));
                }
            }
        }
        start.push(p);
        u += 1;
    }
    start
}

/// `w` lists link indices forming a walk from node `a` to node `b`.
pub open spec fn is_walk(links: Seq<FlowLink>, w: Seq<int>, a: int, b: int) -> bool {
    &&& w.len() > 0
    &&& forall|k: int| 0 <= k < w.len() ==> 0 <= #[trigger] w[k] < links.len()
    &&& links[w[0]].from == a
    &&& links[w[w.len() - 1]].to == b
    &&& forall|k1: int, k2: int|
        #![trigger w[k1], w[k2]]
        0 <= k1 && k2 == k1 + 1 && k2 < w.len() ==> links[w[k1]].to == links[w[k2]].from
}

/// Link `li` closes a cycle: its target reaches its source.
pub open spec fn closes_cycle(links: Seq<FlowLink>, li: int) -> bool {
    exists|w: Seq<int>| #[trigger] is_walk(links, w, links[li].to as int, links[li].from as int)
}

/// Links are well formed for `n` nodes: in range, and no self loops.
pub open spec fn links_ok(links: Seq<FlowLink>, n: int) -> bool {
    forall|li: int|
        0 <= li < links.len() ==> (#[trigger] links[li]).from < n && links[li].to < n && links[li].from
            != links[li].to
}

/// Where the depth-first search that sets cycle-closing links aside stands:
/// the next node to start a search from, each node's colour (0 unseen, 1 on
/// the stack, 2 finished), the stack of `(node, index of its next link)`, and
/// which links were found to lead into a node on the stack.
pub struct DfsState {
    pub next: usize,
    pub color: Seq<u8>,
    pub stack: Seq<(usize, usize)>,
    pub back: Seq<bool>,
}

/// Before the search: every node unseen, no link set aside.
pub open spec fn dfs_init(n: int, m: int) -> DfsState {
    DfsState {
        next: 0,
        color: Seq::new(n as nat, |v: int| 0u8),
        stack: Seq::empty(),
        back: Seq::new(m as nat, |li: int| false),
    }
}

/// The search has started from every node and its stack is empty.
pub open spec fn dfs_done(st: DfsState, n: int) -> bool {
    st.stack.len() == 0 && st.next >= n
}

/// One move of the search, over nodes `0..n` whose links leave in the ranges
/// `start` gives. With a node on top of the stack, follow its next link: an
/// unseen target is pushed, a target on the stack marks the link as closing a
/// cycle; a node with no link left finishes and leaves the stack. With an
/// empty stack, a search starts from the next node if it is still unseen.
pub open spec fn dfs_step(links: Seq<FlowLink>, start: Seq<usize>, n: int, st: DfsState) -> DfsState {
    if st.stack.len() > 0 {
        let top = st.stack.len() - 1;
        let u = st.stack[top].0;
        let nx = st.stack[top].1;
        if nx < start[u + 1] {
            let v = links[nx as int].to;
            let moved = st.stack.update(top, (u, (nx + 1) as usize));
            if st.color[v as int] == 0 {
                DfsState { color: st.color.update(v as int, 1u8), stack: moved.push((v, start[v as int])), ..st }
            } else if st.color[v as int] == 1 {
                DfsState { stack: moved, back: st.back.update(nx as int, true), ..st }
            } else {
                DfsState { stack: moved, ..st }
            }
        } else {
            DfsState { color: st.color.update(u as int, 2u8), stack: st.stack.drop_last(), ..st }
        }
    } else if st.next < n {
        let s = st.next;
        if st.color[s as int] == 0 {
            DfsState {
                next: (s + 1) as usize,
                color: st.color.update(s as int, 1u8),
                stack: seq![(s, start[s as int])],
                ..st
            }
        } else {
            DfsState { next: (s + 1) as usize, ..st }
        }
    } else {
        st
    }
}

/// `k` moves of the search from `st`.
pub open spec fn dfs_run(links: Seq<FlowLink>, start: Seq<usize>, n: int, st: DfsState, k: nat) -> DfsState
    decreases k,
{
    if k == 0 {
        st
    } else {
        dfs_run(links, start, n, dfs_step(links, start, n, st), (k - 1) as nat)
    }
}

/// `back` marks exactly the links that the depth-first search over nodes
/// `0..n` (each started in index order, each following its links in
/// `(from, to)` order) finds leading into a node still on its stack.
pub open spec fn dfs_back(links: Seq<FlowLink>, n: int, back: Seq<bool>) -> bool {
    exists|start: Seq<usize>, k: nat|
        #![trigger dfs_run(links, start, n, dfs_init(n, links.len() as int), k)]
        out_ranges(links, start, n) && dfs_done(dfs_run(links, start, n, dfs_init(n, links.len() as int), k), n)
            && dfs_run(links, start, n, dfs_init(n, links.len() as int), k).back == back
}

proof fn lemma_dfs_run_last(links: Seq<FlowLink>, start: Seq<usize>, n: int, st: DfsState, k: nat)
    ensures
        dfs_run(links, start, n, st, k + 1) == dfs_step(links, start, n, dfs_run(links, start, n, st, k)),
    decreases k,
{
    let next = dfs_step(links, start, n, st);
    assert(dfs_run(links, start, n, st, k + 1) == dfs_run(links, start, n, next, k));
    if k > 0 {
        lemma_dfs_run_last(links, start, n, next, (k - 1) as nat);
        assert(dfs_run(links, start, n, st, k) == dfs_run(links, start, n, next, (k - 1) as nat));
    }
}

/// Once the search is done, further moves change nothing.
proof fn lemma_dfs_run_settled(links: Seq<FlowLink>, start: Seq<usize>, n: int, st: DfsState, k: nat, j: nat)
    requires
        dfs_done(dfs_run(links, start, n, st, k), n),
    ensures
        dfs_run(links, start, n, st, k + j) == dfs_run(links, start, n, st, k),
    decreases j,
{
    if j > 0 {
        lemma_dfs_run_settled(links, start, n, st, k, (j - 1) as nat);
        lemma_dfs_run_last(links, start, n, st, (k + j - 1) as nat);
        assert((k + j - 1) as nat + 1 == k + j);
    }
}

/// The link ranges of a sorted link list are determined by the links.
proof fn lemma_out_ranges_unique(links: Seq<FlowLink>, s1: Seq<usize>, s2: Seq<usize>, n: int)
    requires
        out_ranges(links, s1, n),
        out_ranges(links, s2, n),
    ensures
        s1 == s2,
{
    assert forall|u: int| 0 <= u <= n implies s1[u] == s2[u] by {
        if s1[u] < s2[u] {
            let li = s1[u] as int;
            assert(links[li].from < u);
            assert(links[li].from >= u);
        } else if s2[u] < s1[u] {
            let li = s2[u] as int;
            assert(links[li].from < u);
            assert(links[li].from >= u);
        }
    }
    assert(s1 =~= s2);
}

/// The links that the search sets aside are determined by the links and the
/// node count: two markings that both come from it are the same.
pub proof fn lemma_dfs_back_unique(links: Seq<FlowLink>, n: int, b1: Seq<bool>, b2: Seq<bool>)
    requires
        dfs_back(links, n, b1),
        dfs_back(links, n, b2),
    ensures
        b1 == b2,
{
    let init = dfs_init(n, links.len() as int);
    let (s1, k1) = choose|start: Seq<usize>, k: nat|
        #![trigger dfs_run(links, start, n, dfs_init(n, links.len() as int), k)]
        out_ranges(links, start, n) && dfs_done(dfs_run(links, start, n, dfs_init(n, links.len() as int), k), n)
            && dfs_run(links, start, n, dfs_init(n, links.len() as int), k).back == b1;
    let (s2, k2) = choose|start: Seq<usize>, k: nat|
        #![trigger dfs_run(links, start, n, dfs_init(n, links.len() as int), k)]
        out_ranges(links, start, n) && dfs_done(dfs_run(links, start, n, dfs_init(n, links.len() as int), k), n)
            && dfs_run(links, start, n, dfs_init(n, links.len() as int), k).back == b2;
    lemma_out_ranges_unique(links, s1, s2, n);
    if k1 <= k2 {
        lemma_dfs_run_settled(links, s1, n, init, k1, (k2 - k1) as nat);
        assert(k1 + (k2 - k1) as nat == k2);
    } else {
        lemma_dfs_run_settled(links, s2, n, init, k2, (k1 - k2) as nat);
        assert(k2 + (k1 - k2) as nat == k1);
    }
}

spec fn color_weight(c: Seq<u8>) -> int
    decreases c.len(),
{
    if c.len() == 0 {
        0
    } else {
        color_weight(c.drop_last()) + (2 - c.last())
    }
}

proof fn lemma_color_weight(c: Seq<u8>, i: int, x: u8)
    requires
        0 <= i < c.len(),
        forall|v: int| 0 <= v < c.len() ==> c[v] <= 2,
        x <= 2,
    ensures
        color_weight(c.update(i, x)) == color_weight(c) - (2 - c[i]) + (2 - x),
        color_weight(c) >= 0,
    decreases c.len(),
{
    let d = c.update(i, x);
    if i == c.len() - 1 {
        assert(d.drop_last() =~= c.drop_last());
    } else {
        lemma_color_weight(c.drop_last(), i, x);
        assert(d.drop_last() =~= c.drop_last().update(i, x));
    }
    lemma_color_weight_nonneg(c);
}

proof fn lemma_color_weight_nonneg(c: Seq<u8>)
    requires
        forall|v: int| 0 <= v < c.len() ==> c[v] <= 2,
    ensures
        color_weight(c) >= 0,
    decreases c.len(),
{
    if c.len() > 0 {
        lemma_color_weight_nonneg(c.drop_last());
    }
}

/// Stack entry `k` was pushed by the link just before its successor's cursor.
pub open spec fn linked(links: Seq<FlowLink>, start: Seq<usize>, s: Seq<(usize, usize)>, k: int) -> bool {
    s[k].1 > start[s[k].0 as int] && links[s[k].1 - 1].to == s[k + 1].0
}

spec fn remaining(stack: Seq<(usize, usize)>, start: Seq<usize>) -> int
    decreases stack.len(),
{
    if stack.len() == 0 {
        0
    } else {
        remaining(stack.drop_last(), start) + (start[stack.last().0 + 1] - stack.last().1)
    }
}

proof fn lemma_remaining_nonneg(stack: Seq<(usize, usize)>, start: Seq<usize>)
    requires
        forall|k: int| 0 <= k < stack.len() ==> (#[trigger] stack[k]).1 <= start[stack[k].0 + 1],
    ensures
        remaining(stack, start) >= 0,
    decreases stack.len(),
{
    if stack.len() > 0 {
        lemma_remaining_nonneg(stack.drop_last(), start);
    }
}

proof fn lemma_stack_walk(links: Seq<FlowLink>, start: Seq<usize>, n: int, stack: Seq<(usize, usize)>, k: int)
    requires
        out_ranges(links, start, n),
        0 <= k < stack.len() - 1,
        forall|j: int|
            0 <= j < stack.len() ==> (#[trigger] stack[j]).0 < n && start[stack[j].0 as int] <= stack[j].1 <= start[stack[j].0
                + 1],
        forall|j: int| 0 <= j < stack.len() - 1 ==> #[trigger] linked(links, start, stack, j),
    ensures
        exists|w: Seq<int>| #[trigger] is_walk(links, w, stack[k].0 as int, stack[stack.len() - 1].0 as int),
{
    let top = stack.len() - 1;
    let w = Seq::new((top - k) as nat, |j: int| stack[k + j].1 - 1);
    assert forall|j: int| 0 <= j < w.len() implies 0 <= #[trigger] w[j] < links.len() && links[w[j]].from == stack[k
        + j].0 && links[w[j]].to == stack[k + j + 1].0 by {
        let e = stack[k + j];
        assert(linked(links, start, stack, k + j));
        assert(e.1 > start[e.0 as int]);
        lemma_out_range(links, start, n, e.0 as int, e.1 - 1);
    }
    assert forall|j1: int, j2: int| #![trigger w[j1], w[j2]] 0 <= j1 && j2 == j1 + 1 && j2 < w.len() implies links[w[j1]].to
        == links[w[j2]].from by {
        assert(links[w[j1]].to == stack[k + j1 + 1].0);
        assert(links[w[j2]].from == stack[k + j2].0);
    }
    assert(is_walk(links, w, stack[k].0 as int, stack[stack.len() - 1].0 as int));
}

/// Depth-first search over all nodes (in index order, following each node's
/// links in order). Returns which links close a cycle (they lead back to a
/// node still on the search stack), the nodes in finishing order, and each
/// node's position in that order. Every other link goes from a node that
/// finishes later to one that finishes earlier.
#[verifier::rlimit(60)]
#[verifier::spinoff_prover]
fn back_edges(links: &Vec<FlowLink>, start: &Vec<usize>, n: usize) -> (res: (Vec<bool>, Vec<usize>, Vec<usize>))
    requires
        out_ranges(links@, start@, n as int),
        links_ok(links@, n as int),
        n < usize::MAX,
    ensures
        res.0@.len() == links@.len(),
        res.2@.len() == n,
        forall|li: int| 0 <= li < links@.len() && #[trigger] res.0@[li] ==> closes_cycle(links@, li),
        forall|i: int| 0 <= i < res.1@.len() ==> (#[trigger] res.1@[i]) < n && res.2@[res.1@[i] as int] == i,
        forall|v: int| 0 <= v < n ==> (#[trigger] res.2@[v]) < res.1@.len() && res.1@[res.2@[v] as int] == v,
        forall|li: int|
            0 <= li < links@.len() && !(#[trigger] res.0@[li]) ==> res.2@[links@[li].to as int] < res.2@[links@[li].from as int],
        dfs_back(links@, n as int, res.0@),
{
    let ghost lk = links@;
    let ghost st = start@;
    let m = links.len();
    let mut color: Vec<u8> = Vec::new();
    let mut fin: Vec<usize> = Vec::new();
    let mut i: usize = 0;
    while i < n
        invariant
            i <= n,
            color@.len() == i,
            fin@.len() == i,
            forall|v: int| 0 <= v < i ==> #[trigger] color@[v] == 0,
        decreases n - i,
    {
        color.push(0);
        fin.push(0);
        i += 1;
    }
    let mut back: Vec<bool> = Vec::new();
    let mut i: usize = 0;
    while i < m
        invariant
            i <= m,
            m == links@.len(),
            back@.len() == i,
            forall|li: int| 0 <= li < i ==> !#[trigger] back@[li],
        decreases m - i,
    {
        back.push(false);
        i += 1;
    }
    let ghost init = dfs_init(n as int, m as int);
    let ghost mut steps: nat = 0;
    proof {
        assert(color@ =~= init.color);
        assert(back@ =~= init.back);
    }
    let mut post: Vec<usize> = Vec::new();
    let mut s: usize = 0;
    while s < n
        invariant
            s <= n < usize::MAX,
            lk == links@,
            st == start@,
            m == lk.len(),
            out_ranges(lk, st, n as int),
            links_ok(lk, n as int),
            color@.len() == n,
            fin@.len() == n,
            back@.len() == m,
            forall|v: int| 0 <= v < n ==> #[trigger] color@[v] <= 2 && color@[v] != 1,
            forall|v: int| 0 <= v < s ==> #[trigger] color@[v] == 2,
            forall|li: int| 0 <= li < m && #[trigger] back@[li] ==> closes_cycle(lk, li),
            forall|k: int| 0 <= k < post@.len() ==> (#[trigger] post@[k]) < n && color@[post@[k] as int] == 2 && fin@[post@[k] as int] == k,
            forall|v: int| 0 <= v < n && #[trigger] color@[v] == 2 ==> fin@[v] < post@.len() && post@[fin@[v] as int] == v,
            forall|v: int, li: int|
                0 <= v < n && #[trigger] color@[v] == 2 && st[v] <= li < st[v + 1] && !#[trigger] back@[li] ==> color@[lk[li].to as int] == 2
                    && fin@[lk[li].to as int] < fin@[v],
            init == dfs_init(n as int, m as int),
            dfs_run(lk, st, n as int, init, steps) == (DfsState { next: s, color: color@, stack: Seq::empty(), back: back@ }),
        decreases n - s,
    {
        if color[s] == 0 {
            proof {
                lemma_color_weight(color@, s as int, 1);
            }
            color.set(s, 1);
            let mut stack: Vec<(usize, usize)> = Vec::new();
            stack.push((s, start[s]));
            proof {
                lemma_dfs_run_last(lk, st, n as int, init, steps);
                steps = steps + 1;
                assert forall|v: int| 0 <= v < n && #[trigger] color@[v] == 1 implies exists|k: int| 0 <= k < stack@.len() && (#[trigger] stack@[k]).0 == v by {
                    assert(v == s);
                    assert(stack@[0].0 == s);
                }
                assert(st[s as int] <= st[s + 1]) by {
                    if st[s as int] > st[s + 1] {
                        assert(lk[st[s + 1] as int].from >= s);
                        assert(lk[st[s + 1] as int].from < s + 1);
                        assert(lk[st[s + 1] as int].from < s);
                    }
                }
            }
            while stack.len() > 0
                invariant
                    s < n < usize::MAX,
                    lk == links@,
                    st == start@,
                    m == lk.len(),
                    out_ranges(lk, st, n as int),
                    links_ok(lk, n as int),
                    color@.len() == n,
                    fin@.len() == n,
                    back@.len() == m,
                    color@[s as int] >= 1,
                    forall|v: int| 0 <= v < n ==> #[trigger] color@[v] <= 2,
                    forall|v: int| 0 <= v < s ==> #[trigger] color@[v] == 2,
                    forall|k: int|
                        0 <= k < stack@.len() ==> (#[trigger] stack@[k]).0 < n && st[stack@[k].0 as int] <= stack@[k].1 <= st[stack@[k].0
                            + 1] && color@[stack@[k].0 as int] == 1,
                    forall|v: int| 0 <= v < n && #[trigger] color@[v] == 1 ==> exists|k: int| 0 <= k < stack@.len() && (#[trigger] stack@[k]).0 == v,
                    forall|k1: int, k2: int| 0 <= k1 < k2 < stack@.len() ==> (#[trigger] stack@[k1]).0 != (#[trigger] stack@[k2]).0,
                    forall|k: int| 0 <= k < stack@.len() - 1 ==> #[trigger] linked(lk, st, stack@, k),
                    forall|li: int| 0 <= li < m && #[trigger] back@[li] ==> closes_cycle(lk, li),
                    forall|k: int| 0 <= k < post@.len() ==> (#[trigger] post@[k]) < n && color@[post@[k] as int] == 2 && fin@[post@[k] as int] == k,
                    forall|v: int| 0 <= v < n && #[trigger] color@[v] == 2 ==> fin@[v] < post@.len() && post@[fin@[v] as int] == v,
                    forall|v: int, li: int|
                        0 <= v < n && #[trigger] color@[v] == 2 && st[v] <= li < st[v + 1] && !#[trigger] back@[li] ==> color@[lk[li].to as int] == 2
                            && fin@[lk[li].to as int] < fin@[v],
                    forall|k: int, li: int|
                        0 <= k < stack@.len() && st[(#[trigger] stack@[k]).0 as int] <= li < stack@[k].1 && !#[trigger] back@[li] && (
                        k == stack@.len() - 1 || li != stack@[k].1 - 1) ==> color@[lk[li].to as int] == 2,
                    init == dfs_init(n as int, m as int),
                    dfs_run(lk, st, n as int, init, steps) == (DfsState { next: (s + 1) as usize, color: color@, stack: stack@, back: back@ }),
                decreases color_weight(color@), remaining(stack@, st),
            {
                let top = stack.len() - 1;
                let (u, nx) = stack[top];
                let ghost st0 = stack@;
                let ghost c0 = color@;
                let ghost bk0 = back@;
                proof {
                    lemma_color_weight_nonneg(color@);
                }
                if nx < start[u + 1] {
                    proof {
                        lemma_out_range(lk, st, n as int, u as int, nx as int);
                    }
                    let v = links[nx].to;
                    stack.set(top, (u, nx + 1));
                    proof {
                        assert(stack@.drop_last() =~= st0.drop_last());
                        lemma_remaining_nonneg(stack@, st);
                        assert(remaining(stack@, st) == remaining(st0, st) - 1);
                    }
                    let ghost s1 = stack@;
                    let ghost b0 = back@;
                    if color[v] == 0 {
                        proof {
                            lemma_color_weight(color@, v as int, 1);
                        }
                        color.set(v, 1);
                        stack.push((v, start[v]));
                        proof {
                            assert(st[v as int] <= st[v + 1]) by {
                                if st[v as int] > st[v + 1] {
                                    assert(lk[st[v + 1] as int].from >= v);
                                    assert(lk[st[v + 1] as int].from < v + 1);
                                }
                            }
                            let sk = stack@;
                            assert(sk.len() == top + 2);
                            assert forall|k: int| 0 <= k < top implies #[trigger] sk[k] == st0[k] by {}
                            assert(sk[top as int] == (u, (nx + 1) as usize));
                            assert(sk[top + 1] == (v, st[v as int]));
                            assert forall|k1: int, k2: int| 0 <= k1 < k2 < sk.len() implies (#[trigger] sk[k1]).0 != (#[trigger] sk[k2]).0 by {
                                if k2 == top + 1 {
                                    assert(c0[sk[k1].0 as int] == 1);
                                } else {
                                    assert(sk[k1].0 == st0[k1].0 && sk[k2].0 == st0[k2].0);
                                }
                            }
                            assert forall|w: int| 0 <= w < n && #[trigger] color@[w] == 1 implies exists|k: int| 0 <= k < sk.len() && (#[trigger] sk[k]).0 == w by {
                                if w == v {
                                    assert(sk[top + 1].0 == w);
                                } else {
                                    assert(c0[w] == 1);
                                    let k = choose|k: int| 0 <= k < st0.len() && (#[trigger] st0[k]).0 == w;
                                    assert(sk[k].0 == w);
                                }
                            }
                            assert forall|k: int, li: int|
                                0 <= k < sk.len() && st[(#[trigger] sk[k]).0 as int] <= li < sk[k].1 && !#[trigger] back@[li] && (
                                k == sk.len() - 1 || li != sk[k].1 - 1) implies color@[lk[li].to as int] == 2 by {
                                if k < top {
                                    assert(sk[k] == st0[k]);
                                    assert(c0[lk[li].to as int] == 2);
                                } else if k == top {
                                    assert(li < nx);
                                    assert(st0[k] == (u, nx));
                                    assert(c0[lk[li].to as int] == 2);
                                }
                            }
                            lemma_color_weight_nonneg(color@);
                            assert forall|k: int| 0 <= k < sk.len() - 1 implies #[trigger] linked(lk, st, sk, k) by {
                                if k + 1 < top {
                                    assert(linked(lk, st, st0, k));
                                    assert(st0[k] == sk[k] && st0[k + 1] == sk[k + 1]);
                                } else if k + 1 == top {
                                    assert(linked(lk, st, st0, k));
                                    assert(st0[k] == sk[k]);
                                    assert(st0[k + 1].0 == sk[k + 1].0);
                                }
                            }
                        }
                    } else {
                        if color[v] == 1 {
                            proof {
                                let k = choose|k: int| 0 <= k < st0.len() && (#[trigger] st0[k]).0 == v;
                                if k == top {
                                    assert(lk[nx as int].from == u);
                                }
                                lemma_stack_walk(lk, st, n as int, st0, k);
                            }
                            back.set(nx, true);
                        }
                        proof {
                            let sk = stack@;
                            assert forall|k: int| 0 <= k < top implies #[trigger] sk[k] == st0[k] by {}
                            assert(sk[top as int] == (u, (nx + 1) as usize));
                            assert forall|k: int, li: int|
                                0 <= k < sk.len() && st[(#[trigger] sk[k]).0 as int] <= li < sk[k].1 && !#[trigger] back@[li] && (
                                k == sk.len() - 1 || li != sk[k].1 - 1) implies color@[lk[li].to as int] == 2 by {
                                assert(!b0[li]);
                                if k < top {
                                    assert(sk[k] == st0[k]);
                                } else if li < nx {
                                    assert(st0[k] == (u, nx));
                                } else {
                                    assert(li == nx);
                                }
                            }
                            lemma_color_weight_nonneg(color@);
                            assert forall|w: int| 0 <= w < n && #[trigger] color@[w] == 1 implies exists|k: int| 0 <= k < sk.len() && (#[trigger] sk[k]).0 == w by {
                                let k = choose|k: int| 0 <= k < st0.len() && (#[trigger] st0[k]).0 == w;
                                assert(sk[k].0 == w);
                            }
                            assert forall|k: int| 0 <= k < sk.len() - 1 implies #[trigger] linked(lk, st, sk, k) by {
                                assert(linked(lk, st, st0, k));
                                assert(st0[k] == sk[k]);
                                assert(st0[k + 1].0 == sk[k + 1].0);
                            }
                        }
                    }
                } else {
                    proof {
                        lemma_color_weight(color@, u as int, 2);
                    }
                    color.set(u, 2);
                    fin.set(u, post.len());
                    post.push(u);
                    stack.pop();
                    proof {
                        let sk = stack@;
                        assert forall|k: int| 0 <= k < top implies #[trigger] sk[k] == st0[k] by {}
                        lemma_color_weight_nonneg(color@);
                        assert forall|k: int, li: int|
                            0 <= k < sk.len() && st[(#[trigger] sk[k]).0 as int] <= li < sk[k].1 && !#[trigger] back@[li] && (
                            k == sk.len() - 1 || li != sk[k].1 - 1) implies color@[lk[li].to as int] == 2 by {
                            assert(sk[k] == st0[k]);
                            if k == top - 1 && li == sk[k].1 - 1 {
                                assert(linked(lk, st, st0, k));
                                assert(lk[li].to == u);
                            }
                        }
                        assert forall|w: int| 0 <= w < n && #[trigger] color@[w] == 1 implies exists|k: int| 0 <= k < sk.len() && (#[trigger] sk[k]).0 == w by {
                            let k = choose|k: int| 0 <= k < st0.len() && (#[trigger] st0[k]).0 == w;
                            assert(k != top);
                            assert(sk[k].0 == w);
                        }
                        assert forall|k: int| 0 <= k < sk.len() - 1 implies #[trigger] linked(lk, st, sk, k) by {
                            assert(linked(lk, st, st0, k));
                            assert(st0[k] == sk[k] && st0[k + 1] == sk[k + 1]);
                        }
                    }
                }
                proof {
                    lemma_dfs_run_last(lk, st, n as int, init, steps);
                    steps = steps + 1;
                }
            }
            proof {
                assert(stack@ =~= Seq::<(usize, usize)>::empty());
            }
        } else {
            proof {
                lemma_dfs_run_last(lk, st, n as int, init, steps);
                steps = steps + 1;
            }
        }
        s += 1;
    }
    proof {
        assert(dfs_done(dfs_run(lk, st, n as int, init, steps), n as int));
        assert(dfs_back(lk, n as int, back@));
        assert forall|v: int| 0 <= v < n implies (#[trigger] fin@[v]) < post@.len() && post@[fin@[v] as int] == v by {
            assert(color@[v] == 2);
        }
        assert forall|li: int| 0 <= li < lk.len() && !(#[trigger] back@[li]) implies fin@[lk[li].to as int] < fin@[lk[li].from as int] by {
            let v = lk[li].from as int;
            lemma_out_range(lk, st, n as int, v, li);
            assert(color@[v] == 2);
        }
    }
    (back, post, fin)
}

/// A finishing order lists at most `n` nodes.
proof fn lemma_order_len(post: Seq<usize>, fin: Seq<usize>, n: nat)
    requires
        n <= usize::MAX,
        forall|i: int| 0 <= i < post.len() ==> (#[trigger] post[i]) < n && fin[post[i] as int] == i,
    ensures
        post.len() <= n,
{
    assert(post.no_duplicates()) by {
        assert forall|i: int, j: int| 0 <= i < post.len() && 0 <= j < post.len() && i != j implies post[i] != post[j] by {
            assert(fin[post[i] as int] == i && fin[post[j] as int] == j);
        }
    }
    post.unique_seq_to_set();
    let full = Set::<usize>::new(|x: usize| x < n);
    assert forall|x: usize| post.to_set().contains(x) implies full.contains(x) by {
        let i = choose|i: int| 0 <= i < post.len() && post[i] == x;
    }
    crate::tally::lemma_range_set_len(n);
    vstd::set_lib::lemma_len_subset(post.to_set(), full);
}

/// A link counts for layering unless it closes a cycle or enters a pinned start.
pub open spec fn forward(links: Seq<FlowLink>, back: Seq<bool>, pinned: Seq<bool>, li: int) -> bool {
    !back[li] && !pinned[links[li].to as int]
}

/// `layer` is the longest-path layering along forward links: each forward
/// link climbs at least one column, and each node off column 0 sits exactly
/// one column after some forward predecessor.
pub open spec fn layered(links: Seq<FlowLink>, back: Seq<bool>, pinned: Seq<bool>, layer: Seq<usize>) -> bool {
    &&& forall|li: int|
        0 <= li < links.len() && #[trigger] forward(links, back, pinned, li) ==> layer[links[li].to as int]
            >= layer[links[li].from as int] + 1
    &&& forall|v: int|
        0 <= v < layer.len() && #[trigger] layer[v] != 0 ==> exists|li: int|
            0 <= li < links.len() && #[trigger] forward(links, back, pinned, li) && links[li].to == v && layer[v]
                == layer[links[li].from as int] + 1
}

/// Longest-path layering, relaxing each node's forward links in reverse
/// finishing order (a topological order of the forward links).
#[verifier::rlimit(80)]
#[verifier::spinoff_prover]
fn longest_layers(
    links: &Vec<FlowLink>,
    start: &Vec<usize>,
    back: &Vec<bool>,
    pinned: &Vec<bool>,
    post: &Vec<usize>,
    fin: &Vec<usize>,
    n: usize,
) -> (layer: Vec<usize>)
    requires
        n < usize::MAX,
        out_ranges(links@, start@, n as int),
        links_ok(links@, n as int),
        back@.len() == links@.len(),
        pinned@.len() == n,
        fin@.len() == n,
        forall|i: int| 0 <= i < post@.len() ==> (#[trigger] post@[i]) < n && fin@[post@[i] as int] == i,
        forall|v: int| 0 <= v < n ==> (#[trigger] fin@[v]) < post@.len() && post@[fin@[v] as int] == v,
        forall|li: int|
            0 <= li < links@.len() && !(#[trigger] back@[li]) ==> fin@[links@[li].to as int] < fin@[links@[li].from as int],
    ensures
        layer@.len() == n,
        layered(links@, back@, pinned@, layer@),
        forall|v: int| 0 <= v < n ==> #[trigger] layer@[v] <= n,
{
    let ghost lk = links@;
    let ghost st = start@;
    proof {
        lemma_order_len(post@, fin@, n as nat);
    }
    let mut layer: Vec<usize> = Vec::new();
    let mut i: usize = 0;
    while i < n
        invariant
            i <= n,
            layer@.len() == i,
            forall|v: int| 0 <= v < i ==> #[trigger] layer@[v] == 0,
        decreases n - i,
    {
        layer.push(0);
        i += 1;
    }
    let mut idx: usize = post.len();
    while idx > 0
        invariant
            idx <= post@.len() <= n < usize::MAX,
            lk == links@,
            st == start@,
            out_ranges(lk, st, n as int),
            links_ok(lk, n as int),
            back@.len() == lk.len(),
            pinned@.len() == n,
            fin@.len() == n,
            layer@.len() == n,
            forall|i: int| 0 <= i < post@.len() ==> (#[trigger] post@[i]) < n && fin@[post@[i] as int] == i,
            forall|v: int| 0 <= v < n ==> (#[trigger] fin@[v]) < post@.len() && post@[fin@[v] as int] == v,
            forall|li: int| 0 <= li < lk.len() && !(#[trigger] back@[li]) ==> fin@[lk[li].to as int] < fin@[lk[li].from as int],
            forall|v: int| 0 <= v < n ==> #[trigger] layer@[v] <= post@.len() - idx,
            forall|li: int|
                0 <= li < lk.len() && #[trigger] forward(lk, back@, pinned@, li) && fin@[lk[li].from as int] >= idx ==> layer@[lk[li].to as int]
                    >= layer@[lk[li].from as int] + 1,
            forall|v: int|
                0 <= v < n && #[trigger] layer@[v] != 0 ==> exists|li: int|
                    0 <= li < lk.len() && #[trigger] forward(lk, back@, pinned@, li) && lk[li].to == v && fin@[lk[li].from as int] >= idx
                        && layer@[v] == layer@[lk[li].from as int] + 1,
        decreases idx,
    {
        idx -= 1;
        let u = post[idx];
        let ghost l0 = layer@;
        let mut li: usize = start[u];
        proof {
            assert(st[u as int] <= st[u + 1]) by {
                if st[u as int] > st[u + 1] {
                    assert(lk[st[u + 1] as int].from >= u);
                    assert(lk[st[u + 1] as int].from < u + 1);
                }
            }
        }
        while li < start[u + 1]
            invariant
                idx < post@.len() <= n < usize::MAX,
                u == post@[idx as int],
                u < n,
                fin@[u as int] == idx,
                lk == links@,
                st == start@,
                out_ranges(lk, st, n as int),
                links_ok(lk, n as int),
                back@.len() == lk.len(),
                pinned@.len() == n,
                fin@.len() == n,
                layer@.len() == n,
                l0.len() == n,
                st[u as int] <= li <= st[u + 1],
                layer@[u as int] == l0[u as int],
                forall|i: int| 0 <= i < post@.len() ==> (#[trigger] post@[i]) < n && fin@[post@[i] as int] == i,
                forall|v: int| 0 <= v < n ==> (#[trigger] fin@[v]) < post@.len() && post@[fin@[v] as int] == v,
                forall|x: int| 0 <= x < lk.len() && !(#[trigger] back@[x]) ==> fin@[lk[x].to as int] < fin@[lk[x].from as int],
                forall|v: int| 0 <= v < n ==> #[trigger] l0[v] <= post@.len() - idx - 1,
                forall|v: int| 0 <= v < n ==> #[trigger] layer@[v] <= post@.len() - idx,
                forall|v: int| 0 <= v < n ==> #[trigger] layer@[v] >= l0[v],
                forall|v: int| 0 <= v < n && fin@[v] >= idx ==> #[trigger] layer@[v] == l0[v],
                forall|x: int|
                    0 <= x < lk.len() && #[trigger] forward(lk, back@, pinned@, x) && fin@[lk[x].from as int] > idx ==> l0[lk[x].to as int]
                        >= l0[lk[x].from as int] + 1,
                forall|x: int|
                    st[u as int] <= x < li && #[trigger] forward(lk, back@, pinned@, x) ==> layer@[lk[x].to as int] >= layer@[u as int] + 1,
                forall|v: int|
                    0 <= v < n && #[trigger] layer@[v] != l0[v] ==> exists|x: int|
                        st[u as int] <= x < li && #[trigger] forward(lk, back@, pinned@, x) && lk[x].to == v && layer@[v]
                            == layer@[u as int] + 1,
                forall|v: int|
                    0 <= v < n && #[trigger] l0[v] != 0 ==> exists|x: int|
                        0 <= x < lk.len() && #[trigger] forward(lk, back@, pinned@, x) && lk[x].to == v && fin@[lk[x].from as int] > idx
                            && l0[v] == l0[lk[x].from as int] + 1,
            decreases start[u + 1] - li,
        {
            proof {
                lemma_out_range(lk, st, n as int, u as int, li as int);
            }
            let v = links[li].to;
            let ghost l1 = layer@;
            if !back[li] && !pinned[v] {
                proof {
                    assert(fin@[v as int] < fin@[u as int]);
                    assert(forward(lk, back@, pinned@, li as int));
                }
                if layer[u] + 1 > layer[v] {
                    layer.set(v, layer[u] + 1);
                }
            }
            li += 1;
            proof {
                assert forall|w: int|
                    0 <= w < n && #[trigger] layer@[w] != l0[w] implies exists|x: int|
                        st[u as int] <= x < li && #[trigger] forward(lk, back@, pinned@, x) && lk[x].to == w && layer@[w]
                            == layer@[u as int] + 1 by {
                    if layer@[w] != l1[w] {
                        assert(w == v);
                        assert(forward(lk, back@, pinned@, li - 1));
                    } else {
                        let x = choose|x: int|
                            st[u as int] <= x < li - 1 && #[trigger] forward(lk, back@, pinned@, x) && lk[x].to == w && l1[w]
                                == l1[u as int] + 1;
                        assert(forward(lk, back@, pinned@, x));
                    }
                }
            }
        }
        proof {
            // Every forward link out of an already processed node still climbs.
            assert forall|x: int|
                0 <= x < lk.len() && #[trigger] forward(lk, back@, pinned@, x) && fin@[lk[x].from as int] >= idx implies layer@[lk[x].to as int]
                    >= layer@[lk[x].from as int] + 1 by {
                let w = lk[x].from as int;
                if fin@[w] == idx {
                    assert(post@[fin@[w] as int] == w);
                    lemma_out_range(lk, st, n as int, u as int, x);
                } else {
                    assert(l0[lk[x].to as int] >= l0[w] + 1);
                    assert(layer@[w] == l0[w]);
                }
            }
            assert forall|v: int|
                0 <= v < n && #[trigger] layer@[v] != 0 implies exists|x: int|
                    0 <= x < lk.len() && #[trigger] forward(lk, back@, pinned@, x) && lk[x].to == v && fin@[lk[x].from as int] >= idx
                        && layer@[v] == layer@[lk[x].from as int] + 1 by {
                if layer@[v] != l0[v] {
                    let x = choose|x: int|
                        st[u as int] <= x < li && #[trigger] forward(lk, back@, pinned@, x) && lk[x].to == v && layer@[v] == layer@[u as int] + 1;
                    lemma_out_range(lk, st, n as int, u as int, x);
                } else {
                    let x = choose|x: int|
                        0 <= x < lk.len() && #[trigger] forward(lk, back@, pinned@, x) && lk[x].to == v && fin@[lk[x].from as int] > idx
                            && l0[v] == l0[lk[x].from as int] + 1;
                    assert(layer@[lk[x].from as int] == l0[lk[x].from as int]);
                }
            }
        }
    }
    layer
}

/// One occurrence per host.
pub open spec fn ones(hv: Seq<Seq<char>>) -> Seq<Row> {
    hv.map_values(|h: Seq<char>| (h, 1u32))
}

/// Hosts strictly increasing.
pub open spec fn host_sorted(r: Seq<Row>) -> bool {
    forall|i: int, j: int| 0 <= i < j < r.len() ==> lex_lt((#[trigger] r[i]).0, (#[trigger] r[j]).0)
}

proof fn lemma_ones_total(hv: Seq<Seq<char>>, k: Seq<char>)
    ensures
        0 <= key_total(ones(hv), k) <= hv.len(),
    decreases hv.len(),
{
    if hv.len() > 0 {
        assert(ones(hv).drop_last() =~= ones(hv.drop_last()));
        lemma_ones_total(hv.drop_last(), k);
    }
}

/// Each distinct host of `hosts` with its number of occurrences, by host.
fn entry_counts(hosts: &[String]) -> (r: Vec<(String, u32)>)
    requires
        hosts@.len() <= u32::MAX,
    ensures
        is_tally(rows_view(r@), ones(strs(hosts@))),
        host_sorted(rows_view(r@)),
{
    let ghost hv = strs(hosts@);
    let mut items: Vec<(String, u32)> = Vec::new();
    let mut i: usize = 0;
    while i < hosts.len()
        invariant
            i <= hosts@.len(),
            hv == strs(hosts@),
            items@.len() == i,
            rows_view(items@) == ones(hv.take(i as int)),
        decreases hosts.len() - i,
    {
        let ghost before = items@;
        items.push((hosts[i].clone(), 1));
        proof {
            assert(items@[i as int].0@ == hv[i as int]);
            assert forall|a: int| 0 <= a < i + 1 implies #[trigger] rows_view(items@)[a] == ones(hv.take(i + 1))[a] by {
                if a < i {
                    assert(items@[a] == before[a]);
                    assert(rows_view(before)[a] == ones(hv.take(i as int))[a]);
                }
            }
            assert(rows_view(items@) =~= ones(hv.take(i + 1)));
        }
        i += 1;
    }
    proof {
        assert(hv.take(hosts@.len() as int) =~= hv);
        assert forall|k: Seq<char>| key_total(ones(hv), k) <= u32::MAX by {
            lemma_ones_total(hv, k);
        }
    }
    let rows = tally(&items);
    let ghost rv = rows_view(rows@);
    let mut keys: Vec<RankKey> = Vec::new();
    let mut j: usize = 0;
    while j < rows.len()
        invariant
            j <= rows@.len(),
            keys@.len() == j,
            forall|a: int| 0 <= a < j ==> (#[trigger] keys@[a])@ == host_key(rows@[a]),
        decreases rows.len() - j,
    {
        keys.push(RankKey { major: 0, first: chars_of(rows[j].0.as_str()), second: Vec::new() });
        proof {
            assert(keys@[j as int]@ =~= host_key(rows@[j as int]));
        }
        j += 1;
    }
    let ghost s0 = rows@;
    let r = sort_by_keys(rows, &keys, Ghost(|x: (String, u32)| host_key(x)));
    proof {
        let p = choose|p: Seq<usize>|
            #![trigger is_index_perm(p, s0.len())]
            is_index_perm(p, s0.len()) && r@.len() == s0.len() && (forall|i: int|
                0 <= i < r@.len() ==> #[trigger] r@[i] == s0[p[i] as int]) && (forall|i: int, j: int|
                0 <= i < j < r@.len() ==> !key_lt(host_key(#[trigger] r@[j]), host_key(#[trigger] r@[i]))) && (
            forall|i: int, j: int|
                0 <= i < j < r@.len() && host_key(#[trigger] r@[i]) == host_key(#[trigger] r@[j]) ==> p[i] < p[j]);
        let out = rows_view(r@);
        assert forall|i: int| 0 <= i < out.len() implies #[trigger] out[i] == rv[p[i] as int] by {
            assert(r@[i] == s0[p[i] as int]);
        }
        assert(is_index_perm(p, rv.len()) && out.len() == rv.len());
        assert(permutes(out, rv));
        lemma_tally_permute(out, rv, ones(hv));
        assert forall|i: int, j: int| 0 <= i < j < out.len() implies lex_lt((#[trigger] out[i]).0, (#[trigger] out[j]).0) by {
            assert(!key_lt(host_key(r@[j]), host_key(r@[i])));
            assert(out[i].0 != out[j].0);
            crate::text::lemma_lex_total(out[i].0, out[j].0);
        }
    }
    r
}

/// Sort key of a count row: by host only.
pub open spec fn host_key(x: (String, u32)) -> KeyView {
    (0, x.0@, Seq::<char>::empty())
}

/// Transitions into `h` from another host.
pub open spec fn into_count(tv: Seq<(Seq<char>, Seq<char>)>, h: Seq<char>) -> int
    decreases tv.len(),
{
    if tv.len() == 0 {
        0
    } else {
        into_count(tv.drop_last(), h) + if tv.last().1 == h && tv.last().0 != h {
            1int
        } else {
            0
        }
    }
}

/// Transitions out of `h` to another host.
pub open spec fn out_count(tv: Seq<(Seq<char>, Seq<char>)>, h: Seq<char>) -> int
    decreases tv.len(),
{
    if tv.len() == 0 {
        0
    } else {
        out_count(tv.drop_last(), h) + if tv.last().0 == h && tv.last().1 != h {
            1int
        } else {
            0
        }
    }
}

pub open spec fn max2(a: int, b: int) -> int {
    if a >= b {
        a
    } else {
        b
    }
}

/// A host's bar size before entry counts: the larger of its inbound and
/// outbound transition counts, and at least one.
pub open spec fn base_throughput(tv: Seq<(Seq<char>, Seq<char>)>, h: Seq<char>) -> int {
    max2(max2(into_count(tv, h), out_count(tv, h)), 1)
}

/// Which nodes are pinned session starts.
pub open spec fn pinned_flags(keys: Seq<Seq<char>>, pv: Seq<Seq<char>>) -> Seq<bool> {
    Seq::new(keys.len(), |v: int| pv.contains(keys[v]))
}

pub open spec fn layers_of(nodes: Seq<FlowNode>) -> Seq<usize> {
    nodes.map_values(|nd: FlowNode| nd.layer)
}

/// The largest element (0 for none).
pub open spec fn max_layer(s: Seq<usize>) -> int
    decreases s.len(),
{
    if s.len() == 0 {
        0
    } else {
        max2(max_layer(s.drop_last()), s.last() as int)
    }
}

/// `h` is a node key sitting in column 0.
pub open spec fn col0(keys: Seq<Seq<char>>, lay: Seq<usize>, h: Seq<char>) -> bool {
    exists|i: int| 0 <= i < keys.len() && keys[i] == h && #[trigger] lay[i] == 0
}

/// The entry count recorded for `h`, if any.
pub open spec fn det_count(det: Seq<Row>, h: Seq<char>) -> Option<u32>
    decreases det.len(),
{
    if det.len() == 0 {
        None
    } else if det.last().0 == h {
        Some(det.last().1)
    } else {
        det_count(det.drop_last(), h)
    }
}

/// Entry points that get a standalone column-0 bar: those whose host is not
/// already a column-0 node.
pub open spec fn extras(det: Seq<Row>, keys: Seq<Seq<char>>, lay: Seq<usize>) -> Seq<Row>
    decreases det.len(),
{
    if det.len() == 0 {
        Seq::empty()
    } else {
        let e = extras(det.drop_last(), keys, lay);
        if col0(keys, lay, det.last().0) {
            e
        } else {
            e.push(det.last())
        }
    }
}

/// The throughput of base node `i` once entry counts are folded in.
pub open spec fn folded_throughput(tv: Seq<(Seq<char>, Seq<char>)>, det: Seq<Row>, h: Seq<char>, layer: usize) -> int {
    match det_count(det, h) {
        Some(c) => if layer == 0 {
            max2(base_throughput(tv, h), c as int)
        } else {
            base_throughput(tv, h)
        },
        None => base_throughput(tv, h),
    }
}

/// `g` is the flow of transitions `tv` with pinned starts `pv` and detached
/// entry points `dv`, given the links set aside as cycle-closing (`back`:
/// those the depth-first search of [`dfs_back`] finds, each of which closes a
/// cycle) and the entry counts per host (`det`).
pub open spec fn flow_with(
    g: FlowGraph,
    tv: Seq<(Seq<char>, Seq<char>)>,
    pv: Seq<Seq<char>>,
    dv: Seq<Seq<char>>,
    back: Seq<bool>,
    det: Seq<Row>,
) -> bool {
    let keys = flow_keys(tv, pv);
    let n = keys.len();
    let lay = layers_of(g.nodes@.take(n as int));
    let ex = extras(det, keys, lay);
    &&& is_tally(det, ones(dv))
    &&& host_sorted(det)
    &&& is_link_set(g.links@, keys, tv)
    &&& back.len() == g.links@.len()
    &&& dfs_back(g.links@, n as int, back)
    &&& forall|li: int| 0 <= li < back.len() && #[trigger] back[li] ==> closes_cycle(g.links@, li)
    &&& g.nodes@.len() == n + ex.len()
    &&& layered(g.links@, back, pinned_flags(keys, pv), lay)
    &&& g.layers == max_layer(lay) + 1
    &&& forall|i: int|
        0 <= i < n ==> {
            let nd = #[trigger] g.nodes@[i];
            &&& nd.key@ == keys[i]
            &&& nd.prov == Provenance::Other
            &&& nd.throughput == folded_throughput(tv, det, keys[i], nd.layer)
        }
    &&& forall|e: int|
        0 <= e < ex.len() ==> {
            let nd = #[trigger] g.nodes@[n + e];
            &&& nd.key@ == ex[e].0
            &&& nd.layer == 0
            &&& nd.throughput == max2(ex[e].1 as int, 1)
            &&& nd.prov == Provenance::Other
        }
}

/// `g` is the layered flow of transitions `tv`, pinned starts `pv` and
/// detached entry points `dv`: nothing at all when there are no hosts;
/// otherwise one node per host, links counted per host pair, columns by
/// longest path once cycle-closing links are set aside, and one extra
/// column-0 bar per entry host not already in column 0.
pub open spec fn is_flow(g: FlowGraph, tv: Seq<(Seq<char>, Seq<char>)>, pv: Seq<Seq<char>>, dv: Seq<Seq<char>>) -> bool {
    if flow_keys(tv, pv).len() == 0 && dv.len() == 0 {
        g.nodes@.len() == 0 && g.links@.len() == 0 && g.layers == 0
    } else {
        exists|back: Seq<bool>, det: Seq<Row>| #[trigger] flow_with(g, tv, pv, dv, back, det)
    }
}

proof fn lemma_dedup_contains(s: Seq<Seq<char>>, x: Seq<char>)
    ensures
        dedup(s).contains(x) == s.contains(x),
        dedup(s).len() <= s.len(),
    decreases s.len(),
{
    if s.len() > 0 {
        let p = s.drop_last();
        let l = s.last();
        lemma_dedup_contains(p, x);
        let d = dedup(p);
        assert(s == p.push(l));
        // membership in a push
        assert(s.contains(x) == (p.contains(x) || x == l)) by {
            if s.contains(x) && x != l {
                let i = choose|i: int| 0 <= i < s.len() && s[i] == x;
                assert(i < s.len() - 1);
                assert(p[i] == x);
            }
            if p.contains(x) {
                let i = choose|i: int| 0 <= i < p.len() && p[i] == x;
                assert(s[i] == x);
            }
            if x == l {
                assert(s[s.len() - 1] == x);
            }
        }
        if !d.contains(l) {
            assert(d.push(l).contains(x) == (d.contains(x) || x == l)) by {
                if d.push(l).contains(x) && x != l {
                    let i = choose|i: int| 0 <= i < d.push(l).len() && d.push(l)[i] == x;
                    assert(i < d.len());
                    assert(d[i] == x);
                }
                if d.contains(x) {
                    let i = choose|i: int| 0 <= i < d.len() && d[i] == x;
                    assert(d.push(l)[i] == x);
                }
                if x == l {
                    assert(d.push(l)[d.len() as int] == x);
                }
            }
        }
    }
}

proof fn lemma_flat(tv: Seq<(Seq<char>, Seq<char>)>, a: int)
    requires
        0 <= a < tv.len(),
    ensures
        flat(tv).contains(tv[a].0),
        flat(tv).contains(tv[a].1),
    decreases tv.len(),
{
    if a < tv.len() - 1 {
        lemma_flat(tv.drop_last(), a);
        assert(tv.drop_last()[a] == tv[a]);
        let f0 = flat(tv.drop_last());
        let i = choose|i: int| 0 <= i < f0.len() && f0[i] == tv[a].0;
        let j = choose|j: int| 0 <= j < f0.len() && f0[j] == tv[a].1;
        assert(flat(tv)[i] == tv[a].0);
        assert(flat(tv)[j] == tv[a].1);
    } else {
        let f = flat(tv);
        assert(f[f.len() - 1] == tv[a].1);
        assert(f[f.len() - 2] == tv[a].0);
    }
}

proof fn lemma_flat_len(tv: Seq<(Seq<char>, Seq<char>)>)
    ensures
        flat(tv).len() == 2 * tv.len(),
    decreases tv.len(),
{
    if tv.len() > 0 {
        lemma_flat_len(tv.drop_last());
    }
}

proof fn lemma_counts_le(tv: Seq<(Seq<char>, Seq<char>)>, h: Seq<char>)
    ensures
        0 <= into_count(tv, h) <= tv.len(),
        0 <= out_count(tv, h) <= tv.len(),
    decreases tv.len(),
{
    if tv.len() > 0 {
        lemma_counts_le(tv.drop_last(), h);
    }
}

/// The index of `h` among `keys`, if present.
fn find_index(keys: &Vec<String>, h: &str) -> (r: Option<usize>)
    ensures
        match r {
            Some(i) => i < keys@.len() && keys@[i as int]@ == h@,
            None => !strs(keys@).contains(h@),
        },
{
    let mut j: usize = 0;
    while j < keys.len()
        invariant
            j <= keys@.len(),
            forall|a: int| 0 <= a < j ==> (#[trigger] keys@[a])@ != h@,
        decreases keys.len() - j,
    {
        if str_eq(keys[j].as_str(), h) {
            return Some(j);
        }
        j += 1;
    }
    proof {
        if strs(keys@).contains(h@) {
            let a = choose|a: int| 0 <= a < strs(keys@).len() && strs(keys@)[a] == h@;
            assert(keys@[a]@ == h@);
        }
    }
    None
}

/// Per node, the transitions into and out of it from and to other hosts.
fn transit_counts(transitions: &[(String, String)], keys: &Vec<String>) -> (r: (Vec<u32>, Vec<u32>))
    requires
        transitions@.len() <= u32::MAX,
        no_repeats(strs(keys@)),
        forall|a: int| 0 <= a < transitions@.len() ==> strs(keys@).contains((#[trigger] pairs_view(transitions@)[a]).0)
            && strs(keys@).contains(pairs_view(transitions@)[a].1),
    ensures
        r.0@.len() == keys@.len(),
        r.1@.len() == keys@.len(),
        forall|v: int| 0 <= v < keys@.len() ==> #[trigger] r.0@[v] == into_count(pairs_view(transitions@), keys@[v]@),
        forall|v: int| 0 <= v < keys@.len() ==> #[trigger] r.1@[v] == out_count(pairs_view(transitions@), keys@[v]@),
{
    let ghost tv = pairs_view(transitions@);
    let n = keys.len();
    let mut ins: Vec<u32> = Vec::new();
    let mut outs: Vec<u32> = Vec::new();
    let mut i: usize = 0;
    while i < n
        invariant
            i <= n == keys@.len(),
            ins@.len() == i,
            outs@.len() == i,
            forall|v: int| 0 <= v < i ==> #[trigger] ins@[v] == 0,
            forall|v: int| 0 <= v < i ==> #[trigger] outs@[v] == 0,
        decreases n - i,
    {
        ins.push(0);
        outs.push(0);
        i += 1;
    }
    let mut a: usize = 0;
    proof {
        assert(tv.take(0) =~= Seq::<(Seq<char>, Seq<char>)>::empty());
    }
    while a < transitions.len()
        invariant
            a <= transitions@.len() <= u32::MAX,
            tv == pairs_view(transitions@),
            n == keys@.len(),
            no_repeats(strs(keys@)),
            forall|b: int| 0 <= b < transitions@.len() ==> strs(keys@).contains((#[trigger] pairs_view(transitions@)[b]).0)
                && strs(keys@).contains(pairs_view(transitions@)[b].1),
            ins@.len() == n,
            outs@.len() == n,
            forall|v: int| 0 <= v < n ==> #[trigger] ins@[v] == into_count(tv.take(a as int), keys@[v]@),
            forall|v: int| 0 <= v < n ==> #[trigger] outs@[v] == out_count(tv.take(a as int), keys@[v]@),
        decreases transitions.len() - a,
    {
        let ghost pre = tv.take(a as int);
        let ghost post = tv.take(a + 1);
        proof {
            assert(post.drop_last() =~= pre);
            assert(post.last() == tv[a as int]);
            assert(tv[a as int] == (transitions@[a as int].0@, transitions@[a as int].1@));
            assert forall|v: int| 0 <= v < n implies into_count(pre, keys@[v]@) <= a && out_count(pre, keys@[v]@) <= a by {
                lemma_counts_le(pre, keys@[v]@);
            }
        }
        let f = transitions[a].0.as_str();
        let t = transitions[a].1.as_str();
        if !str_eq(f, t) {
            let ghost i0 = ins@;
            let ghost o0 = outs@;
            let ghost mut tix: int = -1;
            let ghost mut fix: int = -1;
            proof {
                assert(strs(keys@).contains(pairs_view(transitions@)[a as int].0));
                assert(strs(keys@).contains(pairs_view(transitions@)[a as int].1));
            }
            match find_index(keys, t) {
                Some(ti) => {
                    ins.set(ti, ins[ti] + 1);
                    proof {
                        tix = ti as int;
                    }
                },
                None => {},
            }
            match find_index(keys, f) {
                Some(fi) => {
                    outs.set(fi, outs[fi] + 1);
                    proof {
                        fix = fi as int;
                    }
                },
                None => {},
            }
            proof {
                assert(0 <= tix < n && keys@[tix]@ == t@);
                assert(0 <= fix < n && keys@[fix]@ == f@);
                assert forall|v: int| 0 <= v < n implies #[trigger] ins@[v] == into_count(post, keys@[v]@) by {
                    if keys@[v]@ == t@ && tix != v {
                        assert(strs(keys@)[v] == strs(keys@)[tix]);
                    }
                }
                assert forall|v: int| 0 <= v < n implies #[trigger] outs@[v] == out_count(post, keys@[v]@) by {
                    if keys@[v]@ == f@ && fix != v {
                        assert(strs(keys@)[v] == strs(keys@)[fix]);
                    }
                }
            }
        }
        a += 1;
    }
    proof {
        assert(tv.take(transitions@.len() as int) =~= tv);
    }
    (ins, outs)
}

/// The nodes built so far from entry counts `det`: one per key with its
/// folded throughput, then the standalone entry bars.
pub open spec fn nodes_ok(
    nodes: Seq<FlowNode>,
    tv: Seq<(Seq<char>, Seq<char>)>,
    det: Seq<Row>,
    keys: Seq<Seq<char>>,
    lay: Seq<usize>,
) -> bool {
    let n = keys.len();
    let ex = extras(det, keys, lay);
    &&& lay.len() == n
    &&& nodes.len() == n + ex.len()
    &&& forall|i: int|
        0 <= i < n ==> {
            let nd = #[trigger] nodes[i];
            &&& nd.key@ == keys[i]
            &&& nd.layer == lay[i]
            &&& nd.prov == Provenance::Other
            &&& nd.throughput == folded_throughput(tv, det, keys[i], nd.layer)
        }
    &&& forall|e: int|
        0 <= e < ex.len() ==> {
            let nd = #[trigger] nodes[n + e];
            &&& nd.key@ == ex[e].0
            &&& nd.layer == 0
            &&& nd.throughput == max2(ex[e].1 as int, 1)
            &&& nd.prov == Provenance::Other
        }
}

proof fn lemma_det_count_some(p: Seq<Row>, h: Seq<char>)
    requires
        det_count(p, h) is Some,
    ensures
        exists|i: int| 0 <= i < p.len() && p[i].0 == h && det_count(p, h) == Some(p[i].1),
    decreases p.len(),
{
    if p.last().0 == h {
        assert(p[p.len() - 1].0 == h);
    } else {
        lemma_det_count_some(p.drop_last(), h);
        let i = choose|i: int| 0 <= i < p.drop_last().len() && p.drop_last()[i].0 == h && det_count(p.drop_last(), h) == Some(p.drop_last()[i].1);
        assert(p[i] == p.drop_last()[i]);
    }
}

proof fn lemma_det_count_absent(pre: Seq<Row>, h: Seq<char>, det: Seq<Row>, d: int)
    requires
        host_sorted(det),
        0 <= d < det.len(),
        pre == det.take(d),
        h == det[d].0,
    ensures
        det_count(pre, h) is None,
{
    if det_count(pre, h) is Some {
        lemma_det_count_some(pre, h);
        let i = choose|i: int| 0 <= i < pre.len() && pre[i].0 == h && det_count(pre, h) == Some(pre[i].1);
        assert(pre[i] == det[i]);
        assert(lex_lt(det[i].0, det[d].0));
        crate::text::lemma_lex_irreflexive(h);
    }
}

/// One more entry count `x` (a host not counted before) keeps the nodes in shape.
proof fn lemma_fold_step(
    tv: Seq<(Seq<char>, Seq<char>)>,
    pre: Seq<Row>,
    x: Row,
    keys: Seq<Seq<char>>,
    lay: Seq<usize>,
    n0: Seq<FlowNode>,
    n1: Seq<FlowNode>,
    idx: int,
    folded: bool,
)
    requires
        nodes_ok(n0, tv, pre, keys, lay),
        no_repeats(keys),
        det_count(pre, x.0) is None,
        folded ==> 0 <= idx < keys.len() && keys[idx] == x.0 && lay[idx] == 0 && col0(keys, lay, x.0) && n1.len() == n0.len()
            && (forall|i: int| 0 <= i < n0.len() && i != idx ==> #[trigger] n1[i] == n0[i]) && n1[idx].key@ == n0[idx].key@
            && n1[idx].layer == n0[idx].layer && n1[idx].prov == n0[idx].prov && n1[idx].throughput == max2(
            n0[idx].throughput as int,
            x.1 as int,
        ),
        !folded ==> !col0(keys, lay, x.0) && n1.len() == n0.len() + 1 && (forall|i: int|
            0 <= i < n0.len() ==> #[trigger] n1[i] == n0[i]) && n1[n0.len() as int].key@ == x.0 && n1[n0.len() as int].layer == 0
            && n1[n0.len() as int].throughput == max2(x.1 as int, 1) && n1[n0.len() as int].prov == Provenance::Other,
    ensures
        nodes_ok(n1, tv, pre.push(x), keys, lay),
{
    let post = pre.push(x);
    let n = keys.len();
    assert(post.drop_last() =~= pre);
    assert(post.last() == x);
    let ex0 = extras(pre, keys, lay);
    let ex1 = extras(post, keys, lay);
    assert forall|i: int| 0 <= i < n implies {
        let nd = #[trigger] n1[i];
        &&& nd.key@ == keys[i]
        &&& nd.layer == lay[i]
        &&& nd.prov == Provenance::Other
        &&& nd.throughput == folded_throughput(tv, post, keys[i], nd.layer)
    } by {
        let nd0 = n0[i];
        if folded && i == idx {
            assert(det_count(post, keys[i]) == Some(x.1));
        } else {
            assert(n1[i] == nd0);
            if keys[i] == x.0 {
                if folded {
                    assert(keys[i] == keys[idx]);
                } else {
                    assert(lay[i] != 0) by {
                        if lay[i] == 0 {
                            assert(col0(keys, lay, x.0));
                        }
                    }
                }
            } else {
                assert(det_count(post, keys[i]) == det_count(pre, keys[i]));
            }
        }
    }
    assert forall|e: int| 0 <= e < ex1.len() implies {
        let nd = #[trigger] n1[n + e];
        &&& nd.key@ == ex1[e].0
        &&& nd.layer == 0
        &&& nd.throughput == max2(ex1[e].1 as int, 1)
        &&& nd.prov == Provenance::Other
    } by {
        if e < ex0.len() {
            assert(ex1[e] == ex0[e]);
            assert(n1[n + e] == n0[n + e]);
        } else {
            assert(!folded);
            assert(ex1[e] == x);
        }
    }
}

/// The largest layer plus one.
fn layer_count(layer: &Vec<usize>, n: usize) -> (r: usize)
    requires
        n < usize::MAX,
        forall|v: int| 0 <= v < layer@.len() ==> #[trigger] layer@[v] <= n,
    ensures
        r == max_layer(layer@) + 1,
{
    let mut m: usize = 0;
    let mut i: usize = 0;
    proof {
        assert(layer@.take(0) =~= Seq::<usize>::empty());
    }
    while i < layer.len()
        invariant
            i <= layer@.len(),
            n < usize::MAX,
            forall|v: int| 0 <= v < layer@.len() ==> #[trigger] layer@[v] <= n,
            m == max_layer(layer@.take(i as int)),
            m <= n,
        decreases layer.len() - i,
    {
        proof {
            assert(layer@.take(i + 1).drop_last() =~= layer@.take(i as int));
        }
        if layer[i] > m {
            m = layer[i];
        }
        i += 1;
    }
    proof {
        assert(layer@.take(layer@.len() as int) =~= layer@);
    }
    m + 1
}

/// Core builder. `pinned_starts` are interned and pinned to column 0 (links
/// into them curve back). `detached_starts` become separate column-0 entry
/// bars, one per host, sized by how often it was entered, unless the host's
/// own node already sits in column 0, whose bar then grows to that count.
pub(crate) fn build_flow(transitions: &[(String, String)], pinned_starts: &[String], detached_starts: &[String]) -> (g: FlowGraph)
    requires
        transitions@.len() <= u32::MAX,
        detached_starts@.len() <= u32::MAX,
        2 * transitions@.len() + pinned_starts@.len() < usize::MAX,
    ensures
        is_flow(g, pairs_view(transitions@), strs(pinned_starts@), strs(detached_starts@)),
{
    let ghost tv = pairs_view(transitions@);
    let ghost pv = strs(pinned_starts@);
    let ghost dv = strs(detached_starts@);
    let (mut keys, links) = collect_links(transitions);
    let ghost k0 = strs(keys@);
    pin_starts(pinned_starts, &mut keys, Ghost(flat(tv)));
    let ghost keysv = strs(keys@);
    proof {
        assert(keysv == flow_keys(tv, pv));
        lemma_link_set_keys_grow(links@, k0, keysv, tv);
        lemma_flat_len(tv);
        lemma_dedup_contains(flat(tv) + pv, Seq::<char>::empty());
    }
    let n = keys.len();
    if n == 0 && detached_starts.len() == 0 {
        proof {
            if links@.len() > 0 {
                assert(links@[0].from < 0);
            }
        }
        return FlowGraph::default();
    }
    // Which nodes are pinned starts.
    let mut pin: Vec<bool> = Vec::new();
    let mut v: usize = 0;
    while v < n
        invariant
            v <= n == keys@.len(),
            pin@.len() == v,
            forall|x: int| 0 <= x < v ==> #[trigger] pin@[x] == pv.contains(keys@[x]@),
            pv == strs(pinned_starts@),
        decreases n - v,
    {
        let mut found = false;
        let mut j: usize = 0;
        while j < pinned_starts.len()
            invariant
                j <= pinned_starts@.len(),
                v < keys@.len(),
                pv == strs(pinned_starts@),
                found == exists|b: int| 0 <= b < j && pv[b] == keys@[v as int]@,
            decreases pinned_starts.len() - j,
        {
            if str_eq(pinned_starts[j].as_str(), keys[v].as_str()) {
                found = true;
            }
            proof {
                assert(pv[j as int] == pinned_starts@[j as int]@);
            }
            j += 1;
        }
        pin.push(found);
        v += 1;
    }
    proof {
        assert(pin@ =~= pinned_flags(keysv, pv));
        assert forall|a: int| 0 <= a < transitions@.len() implies keysv.contains((#[trigger] pairs_view(transitions@)[a]).0)
            && keysv.contains(pairs_view(transitions@)[a].1) by {
            lemma_flat(tv, a);
            let f = flat(tv);
            let i = choose|i: int| 0 <= i < f.len() && f[i] == tv[a].0;
            let j = choose|j: int| 0 <= j < f.len() && f[j] == tv[a].1;
            assert((f + pv)[i] == tv[a].0 && (f + pv)[j] == tv[a].1);
            lemma_dedup_contains(f + pv, tv[a].0);
            lemma_dedup_contains(f + pv, tv[a].1);
        }
    }
    let (ins, outs) = transit_counts(transitions, &keys);
    let start = out_starts(&links, n);
    let (back, post, fin) = back_edges(&links, &start, n);
    let layer = longest_layers(&links, &start, &back, &pin, &post, &fin, n);
    let layers = layer_count(&layer, n);
    // One node per host.
    let mut nodes: Vec<FlowNode> = Vec::new();
    let mut i: usize = 0;
    while i < n
        invariant
            i <= n == keys@.len(),
            layer@.len() == n,
            ins@.len() == n,
            outs@.len() == n,
            nodes@.len() == i,
            transitions@.len() <= u32::MAX,
            tv == pairs_view(transitions@),
            forall|v: int| 0 <= v < n ==> #[trigger] ins@[v] == into_count(tv, keys@[v]@),
            forall|v: int| 0 <= v < n ==> #[trigger] outs@[v] == out_count(tv, keys@[v]@),
            forall|x: int|
                0 <= x < i ==> {
                    let nd = #[trigger] nodes@[x];
                    &&& nd.key@ == keys@[x]@
                    &&& nd.layer == layer@[x]
                    &&& nd.prov == Provenance::Other
                    &&& nd.throughput == base_throughput(tv, keys@[x]@)
                },
        decreases n - i,
    {
        let mut tp = if ins[i] > outs[i] { ins[i] } else { outs[i] };
        if tp < 1 {
            tp = 1;
        }
        nodes.push(FlowNode { key: keys[i].clone(), layer: layer[i], throughput: tp, prov: Provenance::Other });
        i += 1;
    }
    // Standalone entry points.
    let det = entry_counts(detached_starts);
    let ghost detv = rows_view(det@);
    let ghost lay = layer@;
    let mut d: usize = 0;
    proof {
        assert(detv.take(0) =~= Seq::<Row>::empty());
        assert(layers_of(nodes@.take(n as int)) =~= lay);
        assert(nodes_ok(nodes@, tv, detv.take(0), keysv, lay));
    }
    while d < det.len()
        invariant
            d <= det@.len(),
            detv == rows_view(det@),
            host_sorted(detv),
            n == keys@.len(),
            lay == layer@,
            lay.len() == n,
            keysv == strs(keys@),
            no_repeats(keysv),
            nodes_ok(nodes@, tv, detv.take(d as int), keysv, lay),
        decreases det.len() - d,
    {
        let ghost pre = detv.take(d as int);
        let ghost post_d = detv.take(d + 1);
        let ghost x = detv[d as int];
        let ghost n0 = nodes@;
        proof {
            assert(post_d.drop_last() =~= pre);
            assert(post_d.last() == x);
            // `x`'s host was not seen before (hosts strictly increase).
            assert(det_count(pre, x.0) is None) by {
                lemma_det_count_absent(pre, x.0, detv, d as int);
            }
        }
        let count = det[d].1;
        let entry = if count > 1 { count } else { 1 };
        match find_index(&keys, det[d].0.as_str()) {
            Some(idx) => {
                if layer[idx] == 0 {
                    let old_nd = &nodes[idx];
                    let tp = if old_nd.throughput > count { old_nd.throughput } else { count };
                    let upd = FlowNode { key: old_nd.key.clone(), layer: old_nd.layer, throughput: tp, prov: old_nd.prov };
                    nodes.set(idx, upd);
                    proof {
                        assert(col0(keysv, lay, x.0)) by {
                            assert(keysv[idx as int] == x.0);
                        }
                        assert(extras(post_d, keysv, lay) == extras(pre, keysv, lay));
                        lemma_fold_step(tv, pre, x, keysv, lay, n0, nodes@, idx as int, true);
                    }
                } else {
                    nodes.push(FlowNode { key: det[d].0.clone(), layer: 0, throughput: entry, prov: Provenance::Other });
                    proof {
                        assert(!col0(keysv, lay, x.0)) by {
                            if col0(keysv, lay, x.0) {
                                let i2 = choose|i2: int| 0 <= i2 < keysv.len() && keysv[i2] == x.0 && #[trigger] lay[i2] == 0;
                                if i2 != idx {
                                    assert(keysv[i2] == keysv[idx as int]);
                                }
                            }
                        }
                        lemma_fold_step(tv, pre, x, keysv, lay, n0, nodes@, idx as int, false);
                    }
                }
            },
            None => {
                nodes.push(FlowNode { key: det[d].0.clone(), layer: 0, throughput: entry, prov: Provenance::Other });
                proof {
                    assert(!col0(keysv, lay, x.0)) by {
                        if col0(keysv, lay, x.0) {
                            let i2 = choose|i2: int| 0 <= i2 < keysv.len() && keysv[i2] == x.0 && #[trigger] lay[i2] == 0;
                            assert(keysv.contains(x.0));
                        }
                    }
                    lemma_fold_step(tv, pre, x, keysv, lay, n0, nodes@, -1, false);
                }
            },
        }
        d += 1;
    }
    let g = FlowGraph { nodes, links, layers };
    proof {
        assert(detv.take(det@.len() as int) =~= detv);
        assert(layers_of(g.nodes@.take(n as int)) =~= lay);
        assert(flow_with(g, tv, pv, dv, back@, detv));
    }
    g
}

/// The consecutive host pairs of one chain.
pub open spec fn chain_pairs(c: Seq<Seq<char>>) -> Seq<(Seq<char>, Seq<char>)> {
    if c.len() == 0 {
        Seq::empty()
    } else {
        Seq::new((c.len() - 1) as nat, |i: int| (c[i], c[i + 1]))
    }
}

pub open spec fn chains_view(cs: Seq<Vec<String>>) -> Seq<Seq<Seq<char>>> {
    cs.map_values(|c: Vec<String>| strs(c@))
}

/// The transitions of every chain, chain after chain.
pub open spec fn chains_transitions(cs: Seq<Seq<Seq<char>>>) -> Seq<(Seq<char>, Seq<char>)>
    decreases cs.len(),
{
    if cs.len() == 0 {
        Seq::empty()
    } else {
        chains_transitions(cs.drop_last()) + chain_pairs(cs.last())
    }
}

/// The first host of every non-empty chain.
pub open spec fn chains_starts(cs: Seq<Seq<Seq<char>>>) -> Seq<Seq<char>>
    decreases cs.len(),
{
    if cs.len() == 0 {
        Seq::empty()
    } else if cs.last().len() == 0 {
        chains_starts(cs.drop_last())
    } else {
        chains_starts(cs.drop_last()).push(cs.last()[0])
    }
}

/// Hosts across all chains.
pub open spec fn hosts_total(cs: Seq<Seq<Seq<char>>>) -> int
    decreases cs.len(),
{
    if cs.len() == 0 {
        0
    } else {
        hosts_total(cs.drop_last()) + cs.last().len()
    }
}

proof fn lemma_chains_bounds(cs: Seq<Seq<Seq<char>>>)
    ensures
        chains_transitions(cs).len() <= hosts_total(cs),
        chains_starts(cs).len() <= hosts_total(cs),
        hosts_total(cs) >= 0,
    decreases cs.len(),
{
    if cs.len() > 0 {
        lemma_chains_bounds(cs.drop_last());
    }
}

/// Build a layered flow graph from per-tab host chains (consecutive
/// duplicates already collapsed): each chain's first host is a session
/// start and consecutive hosts are transitions.
pub fn build(chains: &[Vec<String>]) -> (g: FlowGraph)
    requires
        3 * hosts_total(chains_view(chains@)) < u32::MAX,
    ensures
        is_flow(
            g,
            chains_transitions(chains_view(chains@)),
            chains_starts(chains_view(chains@)),
            Seq::empty(),
        ),
{
    let ghost cv = chains_view(chains@);
    let mut transitions: Vec<(String, String)> = Vec::new();
    let mut starts: Vec<String> = Vec::new();
    let mut c: usize = 0;
    proof {
        assert(cv.take(0) =~= Seq::<Seq<Seq<char>>>::empty());
    }
    while c < chains.len()
        invariant
            c <= chains@.len(),
            cv == chains_view(chains@),
            pairs_view(transitions@) == chains_transitions(cv.take(c as int)),
            strs(starts@) == chains_starts(cv.take(c as int)),
        decreases chains.len() - c,
    {
        let chain = &chains[c];
        let ghost cc = strs(chain@);
        let ghost t0 = pairs_view(transitions@);
        proof {
            assert(cv.take(c + 1).drop_last() =~= cv.take(c as int));
            assert(cv.take(c + 1).last() == cc);
        }
        if chain.len() > 0 {
            starts.push(chain[0].clone());
            proof {
                assert(strs(starts@) =~= chains_starts(cv.take(c as int)).push(cc[0]));
            }
        } else {
            proof {
                assert(strs(starts@) == chains_starts(cv.take(c + 1)));
            }
        }
        let mut k: usize = 1;
        while k < chain.len()
            invariant
                1 <= k,
                k <= chain@.len() || (chain@.len() == 0 && k == 1),
                cc == strs(chain@),
                t0 == chains_transitions(cv.take(c as int)),
                pairs_view(transitions@) == t0 + chain_pairs(cc).take(k - 1),
            decreases chain.len() - k,
        {
            let ghost before = transitions@;
            transitions.push((chain[k - 1].clone(), chain[k].clone()));
            proof {
                let cp = chain_pairs(cc);
                assert(cp.len() == cc.len() - 1);
                assert(cp[k - 1] == (cc[k - 1], cc[k as int]));
                assert(pairs_view(transitions@) =~= pairs_view(before).push((cc[k - 1], cc[k as int])));
                assert(t0 + cp.take(k as int) =~= (t0 + cp.take(k - 1)).push(cp[k - 1]));
                assert(pairs_view(transitions@) =~= t0 + chain_pairs(cc).take(k as int));
            }
            k += 1;
        }
        proof {
            if chain@.len() > 0 {
                assert(k == chain@.len());
                assert(chain_pairs(cc).take(chain@.len() - 1) =~= chain_pairs(cc));
                assert(pairs_view(transitions@) == t0 + chain_pairs(cc).take(k - 1));
                assert(chain_pairs(cc).take(k - 1) == chain_pairs(cc));
            } else {
                assert(chain_pairs(cc) =~= Seq::<(Seq<char>, Seq<char>)>::empty());
                assert(chain_pairs(cc).take(0) =~= chain_pairs(cc));
            }
            assert(chains_transitions(cv.take(c + 1)) == chains_transitions(cv.take(c as int)) + chain_pairs(cc));
            assert(pairs_view(transitions@) == t0 + chain_pairs(cc));
            assert(t0 == chains_transitions(cv.take(c as int)));
            assert(pairs_view(transitions@) =~= chains_transitions(cv.take(c + 1)));
        }
        c += 1;
    }
    proof {
        assert(cv.take(chains@.len() as int) =~= cv);
        lemma_chains_bounds(cv);
    }
    let none: Vec<String> = Vec::new();
    proof {
        assert(strs(none@) =~= Seq::<Seq<char>>::empty());
    }
    build_flow(transitions.as_slice(), starts.as_slice(), none.as_slice())
}

/// Build a layered flow graph from explicit directed transitions plus the
/// session-start hosts (pinned to the leftmost column); starts with no
/// transitions still appear as nodes.
pub fn build_transitions(transitions: &[(String, String)], starts: &[String]) -> (g: FlowGraph)
    requires
        transitions@.len() <= u32::MAX,
        2 * transitions@.len() + starts@.len() < usize::MAX,
    ensures
        is_flow(g, pairs_view(transitions@), strs(starts@), Seq::empty()),
{
    let none: Vec<String> = Vec::new();
    proof {
        assert(strs(none@) =~= Seq::<Seq<char>>::empty());
    }
    build_flow(transitions, starts, none.as_slice())
}

/// Clip `s` to `max` characters, ending with `…` when cut.
pub fn clip(s: &str, max: usize) -> (r: String)
    ensures
        r@ == spec_clip(s@, max as nat),
{
    crate::text::clip(s, max)
}

/// Minimal XML-text escape (`&`, `<`, `>`) for host labels embedded in SVG.
pub fn esc_svg(s: &str) -> (r: String)
    ensures
        r@ == expand(s@, |c: char| xml_entity(c, false)),
{
    crate::text::xml_escape(s, false)
}

/// Node `i` is an endpoint of some link.
pub open spec fn touched(links: Seq<FlowLink>, i: int) -> bool {
    exists|l: int| 0 <= l < links.len() && ((#[trigger] links[l]).from == i || links[l].to == i)
}

/// How many of the nodes below `i` are touched: the new index of node `i`.
pub open spec fn rank_of(links: Seq<FlowLink>, i: int) -> int
    decreases i,
{
    if i <= 0 {
        0
    } else {
        rank_of(links, i - 1) + if touched(links, i - 1) {
            1int
        } else {
            0
        }
    }
}

/// `(key, throughput)` of the untouched nodes, in order.
pub open spec fn untouched_rows(nodes: Seq<FlowNode>, links: Seq<FlowLink>) -> Seq<Row>
    decreases nodes.len(),
{
    if nodes.len() == 0 {
        Seq::empty()
    } else {
        let r = untouched_rows(nodes.drop_last(), links);
        if touched(links, nodes.len() - 1) {
            r
        } else {
            r.push((nodes.last().key@, nodes.last().throughput))
        }
    }
}

pub open spec fn same_node(a: FlowNode, b: FlowNode) -> bool {
    a.key@ == b.key@ && a.layer == b.layer && a.throughput == b.throughput && a.prov == b.prov
}

proof fn lemma_rank_mono(links: Seq<FlowLink>, i: int, j: int)
    requires
        0 <= i <= j,
    ensures
        0 <= rank_of(links, i) <= rank_of(links, j) <= j,
        touched(links, i) && i < j ==> rank_of(links, i) < rank_of(links, j),
    decreases j,
{
    if j > 0 && i < j {
        lemma_rank_mono(links, i, j - 1);
    }
    if j > 0 && i == j {
        lemma_rank_mono(links, i - 1, j - 1);
    }
}

fn copy_node(nd: &FlowNode) -> (r: FlowNode)
    ensures
        same_node(r, *nd),
{
    FlowNode { key: nd.key.clone(), layer: nd.layer, throughput: nd.throughput, prov: nd.prov }
}

/// Split a flow into the sub-graph that actually flows (nodes that are an
/// endpoint of some link, re-indexed in order) and the orphans: the
/// `(host, throughput)` of every other node, by throughput descending then
/// host ascending.
pub fn split_orphans(fg: &FlowGraph) -> (r: (FlowGraph, Vec<(String, u32)>))
    requires
        forall|l: int| 0 <= l < fg.links@.len() ==> (#[trigger] fg.links@[l]).from < fg.nodes@.len() && fg.links@[l].to
            < fg.nodes@.len(),
        forall|i: int| 0 <= i < fg.nodes@.len() ==> (#[trigger] fg.nodes@[i]).layer < usize::MAX,
    ensures
        r.0.nodes@.len() == rank_of(fg.links@, fg.nodes@.len() as int),
        forall|i: int|
            0 <= i < fg.nodes@.len() && touched(fg.links@, i) ==> same_node(
                r.0.nodes@[rank_of(fg.links@, i)],
                #[trigger] fg.nodes@[i],
            ),
        r.0.links@.len() == fg.links@.len(),
        forall|l: int|
            0 <= l < fg.links@.len() ==> {
                let o = #[trigger] fg.links@[l];
                let k = r.0.links@[l];
                &&& k.from == rank_of(fg.links@, o.from as int)
                &&& k.to == rank_of(fg.links@, o.to as int)
                &&& k.weight == o.weight
                &&& k.kind == o.kind
            },
        r.0.layers == if r.0.nodes@.len() == 0 {
            0
        } else {
            max_layer(layers_of(r.0.nodes@)) + 1
        },
        permutes(rows_view(r.1@), untouched_rows(fg.nodes@, fg.links@)),
        ranked(rows_view(r.1@)),
{
    let ghost lk = fg.links@;
    let ghost nv = fg.nodes@;
    let n = fg.nodes.len();
    let mut flag: Vec<bool> = Vec::new();
    let mut i: usize = 0;
    while i < n
        invariant
            i <= n,
            flag@.len() == i,
            forall|x: int| 0 <= x < i ==> !(#[trigger] flag@[x]),
        decreases n - i,
    {
        flag.push(false);
        i += 1;
    }
    let mut l: usize = 0;
    while l < fg.links.len()
        invariant
            l <= lk.len(),
            lk == fg.links@,
            n == fg.nodes@.len(),
            flag@.len() == n,
            forall|x: int| 0 <= x < lk.len() ==> (#[trigger] lk[x]).from < n && lk[x].to < n,
            forall|x: int|
                0 <= x < n ==> #[trigger] flag@[x] == exists|y: int| 0 <= y < l && ((#[trigger] lk[y]).from == x || lk[y].to == x),
        decreases fg.links.len() - l,
    {
        let ghost f0 = flag@;
        let from = fg.links[l].from;
        let to = fg.links[l].to;
        flag.set(from, true);
        flag.set(to, true);
        proof {
            assert forall|x: int| 0 <= x < n implies #[trigger] flag@[x] == exists|y: int| 0 <= y < l + 1 && ((#[trigger] lk[y]).from == x || lk[y].to == x) by {
                if flag@[x] && !f0[x] {
                    assert(lk[l as int].from == x || lk[l as int].to == x);
                }
                if exists|y: int| 0 <= y < l + 1 && ((#[trigger] lk[y]).from == x || lk[y].to == x) {
                    let y = choose|y: int| 0 <= y < l + 1 && ((#[trigger] lk[y]).from == x || lk[y].to == x);
                    if y < l {
                        assert(f0[x]);
                    }
                }
            }
        }
        l += 1;
    }
    proof {
        assert forall|x: int| 0 <= x < n implies #[trigger] flag@[x] == touched(lk, x) by {}
    }
    // Re-index the touched nodes; collect the untouched ones.
    let mut remap: Vec<usize> = Vec::new();
    let mut nodes: Vec<FlowNode> = Vec::new();
    let mut rows: Vec<(String, u32)> = Vec::new();
    let mut i: usize = 0;
    while i < n
        invariant
            i <= n == nv.len(),
            nv == fg.nodes@,
            lk == fg.links@,
            flag@.len() == n,
            forall|x: int| 0 <= x < n ==> #[trigger] flag@[x] == touched(lk, x),
            remap@.len() == i,
            nodes@.len() == rank_of(lk, i as int),
            forall|x: int| 0 <= x < nv.len() ==> (#[trigger] nv[x]).layer < usize::MAX,
            forall|k: int| 0 <= k < nodes@.len() ==> (#[trigger] nodes@[k]).layer < usize::MAX,
            forall|x: int| 0 <= x < i ==> #[trigger] remap@[x] == rank_of(lk, x),
            forall|x: int|
                0 <= x < i && touched(lk, x) ==> same_node(nodes@[rank_of(lk, x)], #[trigger] nv[x]),
            rows_view(rows@) == untouched_rows(nv.take(i as int), lk),
        decreases n - i,
    {
        proof {
            lemma_rank_mono(lk, i as int, i as int);
            assert(nv.take(i + 1).drop_last() =~= nv.take(i as int));
        }
        remap.push(nodes.len());
        if flag[i] {
            let nd = copy_node(&fg.nodes[i]);
            nodes.push(nd);
            proof {
                assert forall|x: int| 0 <= x < i + 1 && touched(lk, x) implies same_node(nodes@[rank_of(lk, x)], #[trigger] nv[x]) by {
                    if x < i {
                        lemma_rank_mono(lk, x, i as int);
                    }
                }
            }
        } else {
            rows.push((fg.nodes[i].key.clone(), fg.nodes[i].throughput));
            proof {
                assert(rows_view(rows@) =~= untouched_rows(nv.take(i + 1), lk));
            }
        }
        i += 1;
    }
    proof {
        assert(nv.take(n as int) =~= nv);
    }
    let mut links: Vec<FlowLink> = Vec::new();
    let mut l: usize = 0;
    while l < fg.links.len()
        invariant
            l <= lk.len(),
            lk == fg.links@,
            remap@.len() == n,
            forall|x: int| 0 <= x < lk.len() ==> (#[trigger] lk[x]).from < n && lk[x].to < n,
            forall|x: int| 0 <= x < n ==> #[trigger] remap@[x] == rank_of(lk, x),
            links@.len() == l,
            forall|x: int|
                0 <= x < l ==> {
                    let o = #[trigger] lk[x];
                    let k = links@[x];
                    &&& k.from == rank_of(lk, o.from as int)
                    &&& k.to == rank_of(lk, o.to as int)
                    &&& k.weight == o.weight
                    &&& k.kind == o.kind
                },
        decreases fg.links.len() - l,
    {
        let o = fg.links[l];
        links.push(FlowLink { from: remap[o.from], to: remap[o.to], weight: o.weight, kind: o.kind });
        l += 1;
    }
    // Column count of the flowing part.
    let mut layers: usize = 0;
    let mut j: usize = 0;
    proof {
        assert(layers_of(nodes@).take(0) =~= Seq::<usize>::empty());
    }
    while j < nodes.len()
        invariant
            j <= nodes@.len(),
            forall|x: int| 0 <= x < nodes@.len() ==> (#[trigger] nodes@[x]).layer < usize::MAX,
            layers == if j == 0 {
                0
            } else {
                max_layer(layers_of(nodes@).take(j as int)) + 1
            },
        decreases nodes.len() - j,
    {
        proof {
            assert(layers_of(nodes@).take(j + 1).drop_last() =~= layers_of(nodes@).take(j as int));
            assert(layers_of(nodes@)[j as int] == nodes@[j as int].layer);
        }
        let ghost old_layers = layers;
        if nodes[j].layer + 1 > layers {
            layers = nodes[j].layer + 1;
        }
        proof {
            let t = layers_of(nodes@).take(j + 1);
            assert(max_layer(t) == max2(max_layer(layers_of(nodes@).take(j as int)), nodes@[j as int].layer as int));
            if j == 0 {
                assert(layers_of(nodes@).take(0) =~= Seq::<usize>::empty());
                assert(max_layer(layers_of(nodes@).take(0)) == 0);
            }
            assert(layers == max_layer(t) + 1);
        }
        j += 1;
    }
    proof {
        assert(layers_of(nodes@).take(nodes@.len() as int) =~= layers_of(nodes@));
    }
    let orphans = rank_rows(rows);
    (FlowGraph { nodes, links, layers }, orphans)
}

fn pair_lt_exec(a: usize, b: usize, c: usize, d: usize) -> (r: bool)
    ensures
        r == pair_lt(a as int, b as int, c as int, d as int),
{
    a < c || (a == c && b < d)
}

} // verus!
