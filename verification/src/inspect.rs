//! Node-inspector helpers: a host's most-visited pages within the scanned
//! events, and its heaviest in/out connections in the projection.
use vstd::prelude::*;
use crate::interpret::{is_http, node_key, spec_node_key};
use crate::model::{Event, Granularity, GraphProjection};
use crate::tally::{is_tally, rank_rows, ranked, rows_view, tally, totals_fit, Row};
use crate::text::{push_char, push_str, spec_truncate, str_eq, truncate_chars};
use crate::urls::{parse_url, parsed_url};

verus! {

/// The longest query kept on a page row before it is truncated with `…`.
pub const MAX_QUERY_CHARS: usize = 48;

/// One most-visited page within a host: the path plus a length-capped query,
/// and how many times it was navigated to.
#[derive(Clone, Debug, PartialEq, Eq)]
pub struct PageVisit {
    pub path_query: String,
    pub visits: u32,
}

/// The display path and truncated query of an `http(s)` URL.
pub open spec fn spec_page_path_query(raw: Seq<char>) -> Option<Seq<char>> {
    match parsed_url(raw) {
        Some(u) => if !is_http(u.scheme) {
            None
        } else {
            let path = if u.path.len() == 0 {
                "/"@
            } else {
                u.path
            };
            match u.query {
                Some(q) => if q.len() > 0 {
                    Some(path + seq!['?'] + spec_truncate(q, 48))
                } else {
                    Some(path)
                },
                None => Some(path),
            }
        },
        None => None,
    }
}

/// `"path?truncated-query"` of a URL (`"/"` for an empty path); `None` for
/// an unparseable or non-`http(s)` URL.
pub fn page_path_query(raw: &str) -> (r: Option<String>)
    ensures
        match spec_page_path_query(raw@) {
            Some(p) => r is Some && r->0@ == p,
            None => r is None,
        },
{
    let u = parse_url(raw)?;
    if !(str_eq(u.scheme.as_str(), "http") || str_eq(u.scheme.as_str(), "https")) {
        return None;
    }
    let ghost uv = u@;
    let mut out = String::new();
    if u.path.as_str().is_empty() {
        push_str(&mut out, "/");
    } else {
        push_str(&mut out, u.path.as_str());
    }
    let ghost path = out@;
    assert(path =~= if uv.path.len() == 0 { "/"@ } else { uv.path });
    match &u.query {
        Some(q) => {
            if !q.as_str().is_empty() {
                push_char(&mut out, '?');
                let t = truncate_chars(q.as_str(), MAX_QUERY_CHARS);
                push_str(&mut out, t.as_str());
                assert(out@ =~= path + seq!['?'] + spec_truncate(q@, 48));
            }
        },
        None => {},
    }
    Some(out)
}

/// The `(page, 1)` items the scan counts: one per `Nav` of `host` at `gran`
/// whose URL yields a page.
pub open spec fn page_items(events: Seq<Event>, host: Seq<char>, gran: Granularity) -> Seq<Row>
    decreases events.len(),
{
    if events.len() == 0 {
        Seq::<Row>::empty()
    } else {
        let prev = page_items(events.drop_last(), host, gran);
        match events.last() {
            Event::Nav { to_url, .. } => if spec_node_key(to_url@, gran) == Some(host) {
                match spec_page_path_query(to_url@) {
                    Some(pq) => prev.push((pq, 1u32)),
                    None => prev,
                }
            } else {
                prev
            },
            _ => prev,
        }
    }
}

/// Aggregate the most-visited pages of `host` from a slice of events: only
/// `http(s)` `Nav`s whose node key at `gran` equals `host` count; pages are
/// grouped, counted, ordered by visits descending then page ascending, and
/// truncated to `top`.
pub fn top_pages(events: &[Event], host: &str, gran: Granularity, top: usize) -> (r: Vec<PageVisit>)
    requires
        totals_fit(page_items(events@, host@, gran)),
    ensures
        exists|s: Seq<Row>|
            is_tally(s, page_items(events@, host@, gran)) && ranked(s) && r@.len() == (if top
                < s.len() {
                top as int
            } else {
                s.len() as int
            }) && forall|i: int|
                0 <= i < r@.len() ==> (#[trigger] r@[i]).path_query@ == s[i].0 && r@[i].visits
                    == s[i].1,
{
    let mut items: Vec<(String, u32)> = Vec::new();
    let mut i: usize = 0;
    while i < events.len()
        invariant
            i <= events@.len(),
            rows_view(items@) == page_items(events@.take(i as int), host@, gran),
        decreases events.len() - i,
    {
        assert(events@.take(i + 1).drop_last() =~= events@.take(i as int));
        match &events[i] {
            Event::Nav { to_url, .. } => {
                let k = node_key(to_url.as_str(), gran);
                let same = match &k {
                    Some(kk) => str_eq(kk.as_str(), host),
                    None => false,
                };
                if same {
                    match page_path_query(to_url.as_str()) {
                        Some(pq) => {
                            items.push((pq, 1u32));
                            assert(rows_view(items@) =~= page_items(events@.take(i + 1), host@, gran));
                        },
                        None => {},
                    }
                }
            },
            _ => {},
        }
        i += 1;
    }
    assert(events@.take(events@.len() as int) =~= events@);
    let grouped = tally(&items);
    let glen = grouped.len();
    let ghost g = rows_view(grouped@);
    let ranked_rows = rank_rows(grouped);
    let ghost s = rows_view(ranked_rows@);
    proof {
        crate::tally::lemma_tally_permute(s, g, page_items(events@, host@, gran));
    }
    let mut out: Vec<PageVisit> = Vec::new();
    let mut j: usize = 0;
    while j < ranked_rows.len() && j < top
        invariant
            j <= ranked_rows@.len(),
            j <= top,
            s == rows_view(ranked_rows@),
            out@.len() == j,
            forall|a: int| 0 <= a < j ==> (#[trigger] out@[a]).path_query@ == s[a].0 && out@[a].visits == s[a].1,
        decreases ranked_rows.len() - j,
    {
        out.push(PageVisit { path_query: ranked_rows[j].0.clone(), visits: ranked_rows[j].1 });
        j += 1;
    }
    out
}

/// A host's top graph connections: where visits to it came from (in-edges)
/// and where it led (out-edges), each `(host, weight)`.
#[derive(Clone, Debug, PartialEq, Eq)]
pub struct NodeConnections {
    pub came_from: Vec<(String, u32)>,
    pub went_to: Vec<(String, u32)>,
}

/// `(from, weight)` of the edges into `node`, in order.
pub open spec fn in_rows(edges: Seq<crate::model::EdgeAgg>, node: Seq<char>) -> Seq<Row>
    decreases edges.len(),
{
    if edges.len() == 0 {
        Seq::<Row>::empty()
    } else {
        let prev = in_rows(edges.drop_last(), node);
        if edges.last().to@ == node {
            prev.push((edges.last().from@, edges.last().weight))
        } else {
            prev
        }
    }
}

/// `(to, weight)` of the edges out of `node`, in order.
pub open spec fn out_rows(edges: Seq<crate::model::EdgeAgg>, node: Seq<char>) -> Seq<Row>
    decreases edges.len(),
{
    if edges.len() == 0 {
        Seq::<Row>::empty()
    } else {
        let prev = out_rows(edges.drop_last(), node);
        if edges.last().from@ == node {
            prev.push((edges.last().to@, edges.last().weight))
        } else {
            prev
        }
    }
}

/// `r` is `rows` sorted by weight descending then host ascending, truncated to
/// `top`.
pub open spec fn top_ranked(r: Seq<Row>, rows: Seq<Row>, top: nat) -> bool {
    exists|s: Seq<Row>|
        crate::tally::permutes(s, rows) && ranked(s) && r == s.take(if top < s.len() {
            top as int
        } else {
            s.len() as int
        })
}

/// Select `node`'s heaviest in- and out-edges from `proj`, up to `top` each,
/// ordered by weight descending then host ascending.
pub fn node_connections(proj: &GraphProjection, node: &str, top: usize) -> (r: NodeConnections)
    ensures
        top_ranked(rows_view(r.came_from@), in_rows(proj.edges@, node@), top as nat),
        top_ranked(rows_view(r.went_to@), out_rows(proj.edges@, node@), top as nat),
{
    let mut came: Vec<(String, u32)> = Vec::new();
    let mut went: Vec<(String, u32)> = Vec::new();
    let mut i: usize = 0;
    while i < proj.edges.len()
        invariant
            i <= proj.edges@.len(),
            rows_view(came@) == in_rows(proj.edges@.take(i as int), node@),
            rows_view(went@) == out_rows(proj.edges@.take(i as int), node@),
        decreases proj.edges.len() - i,
    {
        assert(proj.edges@.take(i + 1).drop_last() =~= proj.edges@.take(i as int));
        let e = &proj.edges[i];
        if str_eq(e.to.as_str(), node) {
            came.push((e.from.clone(), e.weight));
        }
        if str_eq(e.from.as_str(), node) {
            went.push((e.to.clone(), e.weight));
        }
        assert(rows_view(came@) =~= in_rows(proj.edges@.take(i + 1), node@));
        assert(rows_view(went@) =~= out_rows(proj.edges@.take(i + 1), node@));
        i += 1;
    }
    assert(proj.edges@.take(proj.edges@.len() as int) =~= proj.edges@);
    let mut came = rank_rows(came);
    let ghost cs = rows_view(came@);
    came.truncate(top);
    assert(rows_view(came@) =~= cs.take(if top < cs.len() { top as int } else { cs.len() as int }));
    let mut went = rank_rows(went);
    let ghost ws = rows_view(went@);
    went.truncate(top);
    assert(rows_view(went@) =~= ws.take(if top < ws.len() { top as int } else { ws.len() as int }));
    NodeConnections { came_from: came, went_to: went }
}

} // verus!
