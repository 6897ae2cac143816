//! The derivation pass's checkpoint and accumulator, the stored rollup
//! shapes (per-UTC-day buckets of node and edge statistics, session
//! records), the edge storage key, bucket merging and UTC-day bucketing.
use vstd::prelude::*;
use crate::keyed::{find_key, keys_distinct, lemma_lookup_at, lemma_lookup_none, lemma_lookup_some,
    lookup};
use crate::model::{copy_event, same_event, spec_event_ts, EdgeKind, Event, KindBreakdown, ProvBreakdown, Provenance};
use crate::text::{char_count, chars_of, decimal, push_char, push_decimal, push_str, string_of};
use crate::project::{civil_from_days, spec_civil_from_days};
pub use crate::derive::fold;

verus! {

/// Session idle gap: 30 minutes, per window.
pub const IDLE_GAP_MS: u64 = 1_800_000;

/// Redirect-collapse lookahead window.
pub const REDIRECT_WINDOW_MS: u64 = 1_000;

/// Upper bound on the distinct hosts tracked per open session.
pub const SESSION_HOST_CAP: usize = 64;

/// Snapshot of a source tab's current page at child-spawn time.
#[derive(Clone, Debug)]
pub struct PendingOrigin {
    pub url: Option<String>,
    pub prov: Provenance,
}

/// A navigation held for one event of redirect lookahead: where it came
/// from, where it landed, how, and its arrival time.
#[derive(Clone, Debug)]
pub struct Buffered {
    pub origin_url: Option<String>,
    pub origin_prov: Provenance,
    pub to_url: String,
    pub prov: Provenance,
    pub ts: i64,
}

/// A tab's origin chain: its confirmed page and its held navigation.
#[derive(Clone, Debug)]
pub struct TabState {
    pub last_url: Option<String>,
    pub last_prov: Provenance,
    pub buffer: Option<Buffered>,
}

impl Default for TabState {
    fn default() -> (r: TabState)
        ensures
            r.last_url is None,
            r.last_prov == Provenance::Other,
            r.buffer is None,
    {
        TabState { last_url: None, last_prov: Provenance::Other, buffer: None }
    }
}

/// An accumulating, not-yet-closed session of a window.
#[derive(Clone, Debug)]
pub struct OpenSession {
    pub id: i64,
    pub window_id: i64,
    pub start_ts: i64,
    pub start_id: i64,
    pub last_ts: i64,
    pub end_id: i64,
    pub nav_count: u32,
    pub host_counts: Vec<(String, u32)>,
}

/// A closed session's record: its span of ids and times, its navigation
/// count and its top hosts.
#[derive(Clone, Debug, PartialEq)]
pub struct SessionRec {
    pub id: i64,
    pub window_id: i64,
    pub start_ts: i64,
    pub end_ts: i64,
    pub start_id: i64,
    pub end_id: i64,
    pub nav_count: u32,
    pub top_hosts: Vec<(String, u32)>,
}

/// The persisted checkpoint of the derivation pass: the last processed id,
/// per-tab state, pending new-tab origins and open sessions (keyed by tab
/// or window id).
#[derive(Clone, Debug)]
pub struct DeriveState {
    pub watermark: i64,
    pub tabs: Vec<(i64, TabState)>,
    pub pending_origin: Vec<(i64, PendingOrigin)>,
    pub open_sessions: Vec<(i64, OpenSession)>,
}

impl Default for DeriveState {
    fn default() -> (r: DeriveState)
        ensures
            r.watermark == 0,
            r.tabs@.len() == 0,
            r.pending_origin@.len() == 0,
            r.open_sessions@.len() == 0,
    {
        DeriveState { watermark: 0, tabs: Vec::new(), pending_origin: Vec::new(), open_sessions: Vec::new() }
    }
}

/// One credit of the pass: a node visit with its dwell, or an edge
/// traversal, on a UTC day, made while processing event `id`.
#[derive(Clone, Debug)]
pub enum Credit {
    Node { date: String, key: String, prov: Provenance, dwell_ms: u64, id: i64 },
    Edge { date: String, from: String, to: String, kind: EdgeKind, id: i64 },
}

/// Scratch accumulator of one fold: the credits and closed session records
/// in the order the pass made them, and the id of the event in process.
#[derive(Clone, Debug)]
pub struct Acc {
    pub credits: Vec<Credit>,
    pub sessions: Vec<SessionRec>,
    pub cur_id: i64,
}

impl Default for Acc {
    fn default() -> (r: Acc)
        ensures
            r.credits@.len() == 0,
            r.sessions@.len() == 0,
            r.cur_id == 0,
    {
        Acc { credits: Vec::new(), sessions: Vec::new(), cur_id: 0 }
    }
}


impl Acc {
    /// Credit one visit to node `key` on `date`, with its dwell.
    pub fn node(&mut self, date: &str, key: &str, prov: Provenance, dwell_ms: u64)
        ensures
            crate::derive::credits_of(*final(self)) == crate::derive::credits_of(*old(self)).push(
                crate::derive::CreditV::Node { date: date@, key: key@, prov, dwell_ms, id: old(self).cur_id },
            ),
            final(self).sessions == old(self).sessions,
            final(self).cur_id == old(self).cur_id,
    {
        let c = Credit::Node { date: date.to_owned(), key: key.to_owned(), prov, dwell_ms, id: self.cur_id };
        self.credits.push(c);
        assert(crate::derive::credits_of(*self) =~= crate::derive::credits_of(*old(self)).push(
            crate::derive::CreditV::Node { date: date@, key: key@, prov, dwell_ms, id: old(self).cur_id },
        ));
    }

    /// Credit one traversal of edge `from → to` on `date`.
    pub fn edge(&mut self, date: &str, from: &str, to: &str, kind: EdgeKind)
        ensures
            crate::derive::credits_of(*final(self)) == crate::derive::credits_of(*old(self)).push(
                crate::derive::CreditV::Edge { date: date@, from: from@, to: to@, kind, id: old(self).cur_id },
            ),
            final(self).sessions == old(self).sessions,
            final(self).cur_id == old(self).cur_id,
    {
        let c = Credit::Edge { date: date.to_owned(), from: from.to_owned(), to: to.to_owned(), kind, id: self.cur_id };
        self.credits.push(c);
        assert(crate::derive::credits_of(*self) =~= crate::derive::credits_of(*old(self)).push(
            crate::derive::CreditV::Edge { date: date@, from: from@, to: to@, kind, id: old(self).cur_id },
        ));
    }

    /// Record a closed session.
    pub fn emit_session(&mut self, rec: SessionRec)
        ensures
            crate::derive::records_of(*final(self)) == crate::derive::records_of(*old(self)).push(
                crate::derive::record_of(rec),
            ),
            final(self).credits == old(self).credits,
            final(self).cur_id == old(self).cur_id,
    {
        let ghost r = rec;
        self.sessions.push(rec);
        assert(crate::derive::records_of(*self) =~= crate::derive::records_of(*old(self)).push(crate::derive::record_of(r)));
    }
}

/// Per-bucket node statistics.
#[derive(Clone, Copy, Debug, PartialEq, Eq, Structural)]
pub struct NodeStat {
    pub visits: u32,
    pub prov: ProvBreakdown,
    /// Total active-page time across the visits in this bucket, in ms.
    pub dwell_ms: u64,
}

impl Default for NodeStat {
    fn default() -> (r: NodeStat)
        ensures
            r.visits == 0,
            r.dwell_ms == 0,
            forall|p: Provenance| r.prov.count(p) == 0,
    {
        NodeStat { visits: 0, prov: ProvBreakdown::default(), dwell_ms: 0 }
    }
}

/// Per-bucket edge statistics.
#[derive(Clone, Copy, Debug, PartialEq, Eq, Structural)]
pub struct EdgeStat {
    pub weight: u32,
    pub kinds: KindBreakdown,
}

impl Default for EdgeStat {
    fn default() -> (r: EdgeStat)
        ensures
            r.weight == 0,
            forall|k: crate::model::EdgeKind| r.kinds.count(k) == 0,
    {
        EdgeStat { weight: 0, kinds: KindBreakdown::default() }
    }
}

impl NodeStat {
    /// Whether two stats can be summed without overflow.
    pub open spec fn can_add(self, o: NodeStat) -> bool {
        &&& self.visits + o.visits <= u32::MAX
        &&& self.dwell_ms + o.dwell_ms <= u64::MAX
        &&& self.prov.can_merge(o.prov)
    }

    pub open spec fn plus(self, o: NodeStat) -> NodeStat {
        NodeStat {
            visits: (self.visits + o.visits) as u32,
            prov: self.prov.sum(o.prov),
            dwell_ms: (self.dwell_ms + o.dwell_ms) as u64,
        }
    }
}

impl EdgeStat {
    pub open spec fn can_add(self, o: EdgeStat) -> bool {
        &&& self.weight + o.weight <= u32::MAX
        &&& self.kinds.can_merge(o.kinds)
    }

    pub open spec fn plus(self, o: EdgeStat) -> EdgeStat {
        EdgeStat { weight: (self.weight + o.weight) as u32, kinds: self.kinds.sum(o.kinds) }
    }
}

/// Add `b` into `a` in place.
pub fn add_node_stat(a: &mut NodeStat, b: &NodeStat)
    requires
        old(a).can_add(*b),
    ensures
        *final(a) == old(a).plus(*b),
{
    a.visits += b.visits;
    a.dwell_ms += b.dwell_ms;
    a.prov.merge(&b.prov);
}

/// Add `b` into `a` in place.
pub fn add_edge_stat(a: &mut EdgeStat, b: &EdgeStat)
    requires
        old(a).can_add(*b),
    ensures
        *final(a) == old(a).plus(*b),
{
    a.weight += b.weight;
    a.kinds.merge(&b.kinds);
}

/// A UTC-day aggregate bucket: the stored rollup value and the shape of a
/// fold delta. Node and edge maps are entry lists with distinct keys; edges
/// are keyed `"{from}\u{0}{to}"`.
#[derive(Clone, Debug, PartialEq, Eq)]
pub struct DayBucket {
    pub date: String,
    pub max_id: i64,
    pub nodes: Vec<(String, NodeStat)>,
    pub edges: Vec<(String, EdgeStat)>,
}

impl DayBucket {
    /// Keys of the node and edge maps are distinct.
    pub open spec fn wf(&self) -> bool {
        keys_distinct(self.nodes@) && keys_distinct(self.edges@)
    }

    /// The same date, id, node entries and edge entries.
    pub open spec fn same(self, o: DayBucket) -> bool {
        self.date == o.date && self.max_id == o.max_id && self.nodes@ == o.nodes@ && self.edges@
            == o.edges@
    }

    /// An empty bucket for `date` (`max_id` 0).
    pub fn new(date: &str) -> (b: DayBucket)
        ensures
            b.wf(),
            b.date@ == date@,
            b.max_id == 0,
            b.nodes@.len() == 0,
            b.edges@.len() == 0,
    {
        DayBucket { date: date.to_owned(), max_id: 0, nodes: Vec::new(), edges: Vec::new() }
    }

    /// Set the statistics of node `key` (replacing any previous value).
    pub fn insert_node(&mut self, key: &str, stat: NodeStat)
        requires
            old(self).wf(),
        ensures
            final(self).wf(),
            final(self).date == old(self).date,
            final(self).max_id == old(self).max_id,
            final(self).edges == old(self).edges,
            lookup(final(self).nodes@, key@) == Some(stat),
            forall|k: Seq<char>| k != key@ ==> lookup(final(self).nodes@, k) == lookup(old(self).nodes@, k),
    {
        let ghost before = self.nodes@;
        match find_key(&self.nodes, key) {
            Some(j) => {
                let k = self.nodes[j].0.clone();
                self.nodes.set(j, (k, stat));
                proof {
                    lemma_set_entry(before, self.nodes@, j as int, stat);
                }
            },
            None => {
                self.nodes.push((key.to_owned(), stat));
                proof {
                    lemma_push_entry(before, self.nodes@, key@, stat);
                }
            },
        }
    }

    /// Set the statistics of edge `key` (replacing any previous value).
    pub fn insert_edge(&mut self, key: &str, stat: EdgeStat)
        requires
            old(self).wf(),
        ensures
            final(self).wf(),
            final(self).date == old(self).date,
            final(self).max_id == old(self).max_id,
            final(self).nodes == old(self).nodes,
            lookup(final(self).edges@, key@) == Some(stat),
            forall|k: Seq<char>| k != key@ ==> lookup(final(self).edges@, k) == lookup(old(self).edges@, k),
    {
        let ghost before = self.edges@;
        match find_key(&self.edges, key) {
            Some(j) => {
                let k = self.edges[j].0.clone();
                self.edges.set(j, (k, stat));
                proof {
                    lemma_set_entry(before, self.edges@, j as int, stat);
                }
            },
            None => {
                self.edges.push((key.to_owned(), stat));
                proof {
                    lemma_push_entry(before, self.edges@, key@, stat);
                }
            },
        }
    }

    /// The statistics of node `key`, if present.
    pub fn node(&self, key: &str) -> (r: Option<NodeStat>)
        requires
            self.wf(),
        ensures
            r == lookup(self.nodes@, key@),
    {
        match find_key(&self.nodes, key) {
            Some(j) => {
                proof {
                    lemma_lookup_at(self.nodes@, j as int);
                }
                Some(self.nodes[j].1)
            },
            None => {
                proof {
                    lemma_lookup_none(self.nodes@, key@);
                }
                None
            },
        }
    }

    /// The statistics of edge `key`, if present.
    pub fn edge(&self, key: &str) -> (r: Option<EdgeStat>)
        requires
            self.wf(),
        ensures
            r == lookup(self.edges@, key@),
    {
        match find_key(&self.edges, key) {
            Some(j) => {
                proof {
                    lemma_lookup_at(self.edges@, j as int);
                }
                Some(self.edges[j].1)
            },
            None => {
                proof {
                    lemma_lookup_none(self.edges@, key@);
                }
                None
            },
        }
    }
}

pub proof fn lemma_set_entry<V>(before: Seq<(String, V)>, after: Seq<(String, V)>, j: int, v: V)
    requires
        keys_distinct(before),
        0 <= j < before.len(),
        after.len() == before.len(),
        after[j].0@ == before[j].0@,
        after[j].1 == v,
        forall|i: int| 0 <= i < before.len() && i != j ==> #[trigger] after[i] == before[i],
    ensures
        keys_distinct(after),
        lookup(after, before[j].0@) == Some(v),
        forall|k: Seq<char>| k != before[j].0@ ==> lookup(after, k) == lookup(before, k),
{
    assert forall|a: int, b: int| 0 <= a < b < after.len() implies (#[trigger] after[a]).0@ != (#[trigger] after[b]).0@ by {
        assert(after[a].0@ == before[a].0@ && after[b].0@ == before[b].0@);
    }
    lemma_lookup_at(after, j);
    assert forall|k: Seq<char>| k != before[j].0@ implies lookup(after, k) == lookup(before, k) by {
        if lookup(before, k) is Some {
            lemma_lookup_some(before, k);
            let i = choose|i: int| 0 <= i < before.len() && (#[trigger] before[i]).0@ == k && before[i].1 == lookup(before, k)->0;
            assert(after[i] == before[i]);
            lemma_lookup_at(after, i);
        } else if lookup(after, k) is Some {
            lemma_lookup_some(after, k);
            let i = choose|i: int| 0 <= i < after.len() && (#[trigger] after[i]).0@ == k && after[i].1 == lookup(after, k)->0;
            assert(after[i] == before[i]);
            lemma_lookup_at(before, i);
        }
    }
}

pub proof fn lemma_push_entry<V>(before: Seq<(String, V)>, after: Seq<(String, V)>, key: Seq<char>, v: V)
    requires
        keys_distinct(before),
        forall|a: int| 0 <= a < before.len() ==> (#[trigger] before[a]).0@ != key,
        after.len() == before.len() + 1,
        after[before.len() as int].0@ == key,
        after[before.len() as int].1 == v,
        forall|i: int| 0 <= i < before.len() ==> #[trigger] after[i] == before[i],
    ensures
        keys_distinct(after),
        lookup(after, key) == Some(v),
        forall|k: Seq<char>| k != key ==> lookup(after, k) == lookup(before, k),
{
    assert forall|a: int, b: int| 0 <= a < b < after.len() implies (#[trigger] after[a]).0@ != (#[trigger] after[b]).0@ by {
        if b < before.len() {
            assert(after[a] == before[a] && after[b] == before[b]);
        } else {
            assert(after[a] == before[a]);
        }
    }
    lemma_lookup_at(after, before.len() as int);
    assert forall|k: Seq<char>| k != key implies lookup(after, k) == lookup(before, k) by {
        if lookup(before, k) is Some {
            lemma_lookup_some(before, k);
            let i = choose|i: int| 0 <= i < before.len() && (#[trigger] before[i]).0@ == k && before[i].1 == lookup(before, k)->0;
            assert(after[i] == before[i]);
            lemma_lookup_at(after, i);
        } else if lookup(after, k) is Some {
            lemma_lookup_some(after, k);
            let i = choose|i: int| 0 <= i < after.len() && (#[trigger] after[i]).0@ == k && after[i].1 == lookup(after, k)->0;
            assert(i < before.len());
            assert(after[i] == before[i]);
            lemma_lookup_at(before, i);
        }
    }
}

/// Join an edge's endpoints into its storage key.
pub fn edge_key(from: &str, to: &str) -> (r: String)
    ensures
        r@ == from@ + seq!['\0'] + to@,
{
    let mut r = from.to_owned();
    push_char(&mut r, '\0');
    push_str(&mut r, to);
    r
}

/// The first index of `c` in `s`, or `None`.
pub open spec fn first_index_of(s: Seq<char>, c: char) -> Option<int> {
    if exists|i: int| 0 <= i < s.len() && s[i] == c {
        Some(choose|i: int| 0 <= i < s.len() && s[i] == c && forall|j: int| 0 <= j < i ==> s[j] != c)
    } else {
        None
    }
}

/// Split a stored edge key back into `(from, to)` at its first NUL.
pub fn split_edge_key(key: &str) -> (r: Option<(String, String)>)
    ensures
        match first_index_of(key@, '\0') {
            Some(i) => r matches Some((f, t)) && f@ == key@.take(i) && t@ == key@.skip(i + 1),
            None => r is None,
        },
{
    let cs = chars_of(key);
    let mut i: usize = 0;
    while i < cs.len()
        invariant
            i <= cs@.len(),
            cs@ == key@,
            forall|j: int| 0 <= j < i ==> cs@[j] != '\0',
        decreases cs.len() - i,
    {
        if cs[i] == '\0' {
            let mut f: Vec<char> = Vec::new();
            let mut t: Vec<char> = Vec::new();
            let mut a: usize = 0;
            while a < i
                invariant
                    a <= i < cs@.len(),
                    f@ == cs@.take(a as int),
                decreases i - a,
            {
                f.push(cs[a]);
                a += 1;
                assert(cs@.take(a as int) =~= cs@.take(a - 1).push(cs@[a - 1]));
            }
            let mut b: usize = i + 1;
            while b < cs.len()
                invariant
                    i + 1 <= b <= cs@.len(),
                    t@ == cs@.subrange(i + 1, b as int),
                decreases cs.len() - b,
            {
                t.push(cs[b]);
                b += 1;
                assert(cs@.subrange(i + 1, b as int) =~= cs@.subrange(i + 1, b - 1).push(cs@[b - 1]));
            }
            proof {
                let w = choose|w: int| 0 <= w < key@.len() && key@[w] == '\0' && forall|j: int| 0 <= j < w ==> key@[j] != '\0';
                if w < i {
                    assert(cs@[w] != '\0');
                }
                if w > i {
                    assert(key@[i as int] != '\0');
                }
                assert(w == i);
                assert(t@ =~= key@.skip(i + 1));
            }
            return Some((string_of(&f), string_of(&t)));
        }
        i += 1;
    }
    None
}

/// Whether `delta` can be merged into `into` without overflow.
pub open spec fn can_merge_bucket(into: DayBucket, delta: DayBucket) -> bool {
    &&& forall|k: Seq<char>| #![trigger lookup(delta.nodes@, k)] lookup(into.nodes@, k) is Some && lookup(delta.nodes@, k) is Some
        ==> lookup(into.nodes@, k)->0.can_add(lookup(delta.nodes@, k)->0)
    &&& forall|k: Seq<char>| #![trigger lookup(delta.edges@, k)] lookup(into.edges@, k) is Some && lookup(delta.edges@, k) is Some
        ==> lookup(into.edges@, k)->0.can_add(lookup(delta.edges@, k)->0)
}

/// The combined value of one key after a merge.
pub open spec fn merged<V>(a: Option<V>, b: Option<V>, plus: spec_fn(V, V) -> V) -> Option<V> {
    match (a, b) {
        (Some(x), Some(y)) => Some(plus(x, y)),
        (Some(x), None) => Some(x),
        (None, Some(y)) => Some(y),
        (None, None) => None,
    }
}

/// Merge a delta bucket into an existing bucket in place: node and edge
/// statistics are summed per key, `max_id` is the larger one, and an empty
/// date is taken from the delta.
pub fn merge_bucket(into: &mut DayBucket, delta: &DayBucket)
    requires
        old(into).wf(),
        delta.wf(),
        can_merge_bucket(*old(into), *delta),
    ensures
        final(into).wf(),
        final(into).date@ == if old(into).date@.len() == 0 {
            delta.date@
        } else {
            old(into).date@
        },
        final(into).max_id == if old(into).max_id >= delta.max_id {
            old(into).max_id
        } else {
            delta.max_id
        },
        forall|k: Seq<char>| #[trigger] lookup(final(into).nodes@, k) == merged(
            lookup(old(into).nodes@, k),
            lookup(delta.nodes@, k),
            |x: NodeStat, y: NodeStat| x.plus(y),
        ),
        forall|k: Seq<char>| #[trigger] lookup(final(into).edges@, k) == merged(
            lookup(old(into).edges@, k),
            lookup(delta.edges@, k),
            |x: EdgeStat, y: EdgeStat| x.plus(y),
        ),
{
    if into.date.as_str().is_empty() {
        into.date = delta.date.clone();
    }
    if delta.max_id > into.max_id {
        into.max_id = delta.max_id;
    }
    let ghost d1 = into.date;
    let ghost m1 = into.max_id;
    assert(d1@ == if old(into).date@.len() == 0 { delta.date@ } else { old(into).date@ });
    let ghost n0 = into.nodes@;
    let ghost e0 = into.edges@;
    let ghost dn = delta.nodes@;
    let ghost de = delta.edges@;
    let mut i: usize = 0;
    while i < delta.nodes.len()
        invariant
            i <= dn.len(),
            dn == delta.nodes@,
            keys_distinct(dn),
            keys_distinct(into.nodes@),
            into.date == d1,
            into.max_id == m1,
            can_merge_bucket(*old(into), *delta),
            n0 == old(into).nodes@,
            e0 == old(into).edges@,
            into.edges@ == e0,
            forall|k: Seq<char>| #[trigger] lookup(into.nodes@, k) == merged(
                lookup(n0, k),
                lookup(dn.take(i as int), k),
                |x: NodeStat, y: NodeStat| x.plus(y),
            ),
        decreases dn.len() - i,
    {
        let ghost key = dn[i as int].0@;
        let ghost pre = dn.take(i as int);
        let ghost post = dn.take(i + 1);
        proof {
            lemma_take_lookup(dn, i as int);
            lemma_lookup_at(dn, i as int);
        }
        let (k, v) = (&delta.nodes[i].0, delta.nodes[i].1);
        let ghost before = into.nodes@;
        match find_key(&into.nodes, k.as_str()) {
            Some(j) => {
                let mut cur = into.nodes[j].1;
                proof {
                    lemma_lookup_at(before, j as int);
                    assert(lookup(pre, key) is None);
                    assert(lookup(n0, key) == Some(cur));
                }
                add_node_stat(&mut cur, &v);
                let kk = into.nodes[j].0.clone();
                into.nodes.set(j, (kk, cur));
                proof {
                    lemma_set_entry(before, into.nodes@, j as int, cur);
                }
            },
            None => {
                proof {
                    lemma_lookup_none(before, key);
                }
                into.nodes.push((k.clone(), v));
                proof {
                    lemma_push_entry(before, into.nodes@, key, v);
                }
            },
        }
        i += 1;
    }
    assert(dn.take(dn.len() as int) =~= dn);
    assert(de.take(0) =~= Seq::<(String, EdgeStat)>::empty());
    let mut i: usize = 0;
    while i < delta.edges.len()
        invariant
            i <= de.len(),
            de == delta.edges@,
            keys_distinct(de),
            keys_distinct(into.edges@),
            keys_distinct(into.nodes@),
            into.date == d1,
            into.max_id == m1,
            can_merge_bucket(*old(into), *delta),
            e0 == old(into).edges@,
            forall|k: Seq<char>| #[trigger] lookup(into.edges@, k) == merged(
                lookup(e0, k),
                lookup(de.take(i as int), k),
                |x: EdgeStat, y: EdgeStat| x.plus(y),
            ),
            forall|k: Seq<char>| #[trigger] lookup(into.nodes@, k) == merged(
                lookup(n0, k),
                lookup(dn, k),
                |x: NodeStat, y: NodeStat| x.plus(y),
            ),
        decreases de.len() - i,
    {
        let ghost key = de[i as int].0@;
        let ghost pre = de.take(i as int);
        proof {
            lemma_take_lookup(de, i as int);
            lemma_lookup_at(de, i as int);
        }
        let (k, v) = (&delta.edges[i].0, delta.edges[i].1);
        let ghost before = into.edges@;
        match find_key(&into.edges, k.as_str()) {
            Some(j) => {
                let mut cur = into.edges[j].1;
                proof {
                    lemma_lookup_at(before, j as int);
                    assert(lookup(pre, key) is None);
                    assert(lookup(e0, key) == Some(cur));
                }
                add_edge_stat(&mut cur, &v);
                let kk = into.edges[j].0.clone();
                into.edges.set(j, (kk, cur));
                proof {
                    lemma_set_entry(before, into.edges@, j as int, cur);
                }
            },
            None => {
                proof {
                    lemma_lookup_none(before, key);
                }
                into.edges.push((k.clone(), v));
                proof {
                    lemma_push_entry(before, into.edges@, key, v);
                }
            },
        }
        i += 1;
    }
    assert(de.take(de.len() as int) =~= de);
}

/// Lookups in a growing prefix of a distinct-key list.
pub proof fn lemma_take_lookup<V>(es: Seq<(String, V)>, i: int)
    requires
        keys_distinct(es),
        0 <= i < es.len(),
    ensures
        lookup(es.take(i), es[i].0@) is None,
        lookup(es.take(i + 1), es[i].0@) == Some(es[i].1),
        forall|k: Seq<char>| k != es[i].0@ ==> lookup(es.take(i + 1), k) == lookup(es.take(i), k),
{
    let pre = es.take(i);
    let post = es.take(i + 1);
    assert forall|a: int| 0 <= a < pre.len() implies (#[trigger] pre[a]).0@ != es[i].0@ by {
        assert(pre[a] == es[a]);
    }
    lemma_lookup_none(pre, es[i].0@);
    assert(keys_distinct(pre)) by {
        assert forall|a: int, b: int| 0 <= a < b < pre.len() implies (#[trigger] pre[a]).0@ != (#[trigger] pre[b]).0@ by {
            assert(pre[a] == es[a] && pre[b] == es[b]);
        }
    }
    assert(post.len() == pre.len() + 1);
    assert(post[i] == es[i]);
    assert forall|a: int| 0 <= a < pre.len() implies #[trigger] post[a] == pre[a] by {}
    lemma_push_entry(pre, post, es[i].0@, es[i].1);
}

} // verus!

verus! {

/// An equal copy of a bucket.
pub fn copy_bucket(b: &DayBucket) -> (r: DayBucket)
    ensures
        r.same(*b),
{
    let mut nodes: Vec<(String, NodeStat)> = Vec::new();
    let mut i: usize = 0;
    while i < b.nodes.len()
        invariant
            i <= b.nodes@.len(),
            nodes@ == b.nodes@.take(i as int),
        decreases b.nodes.len() - i,
    {
        nodes.push((b.nodes[i].0.clone(), b.nodes[i].1));
        assert(b.nodes@.take(i + 1) =~= b.nodes@.take(i as int).push(b.nodes@[i as int]));
        i += 1;
    }
    let mut edges: Vec<(String, EdgeStat)> = Vec::new();
    let mut j: usize = 0;
    while j < b.edges.len()
        invariant
            j <= b.edges@.len(),
            edges@ == b.edges@.take(j as int),
        decreases b.edges.len() - j,
    {
        edges.push((b.edges[j].0.clone(), b.edges[j].1));
        assert(b.edges@.take(j + 1) =~= b.edges@.take(j as int).push(b.edges@[j as int]));
        j += 1;
    }
    assert(nodes@ =~= b.nodes@);
    assert(edges@ =~= b.edges@);
    DayBucket { date: b.date.clone(), max_id: b.max_id, nodes, edges }
}

/// `a` is strictly earlier than `b`; a missing timestamp is never earlier
/// nor later than anything.
pub open spec fn ts_before(a: Event, b: Event) -> bool {
    match (spec_event_ts(a), spec_event_ts(b)) {
        (Some(x), Some(y)) => x < y,
        _ => false,
    }
}

/// The stable two-pointer merge of two streams by timestamp: the head of `b`
/// goes first only when strictly earlier than the head of `a`.
pub open spec fn merged_stream(a: Seq<Event>, b: Seq<Event>) -> Seq<Event>
    decreases a.len() + b.len(),
{
    if a.len() == 0 {
        b
    } else if b.len() == 0 {
        a
    } else if ts_before(b[0], a[0]) {
        seq![b[0]] + merged_stream(a, b.drop_first())
    } else {
        seq![a[0]] + merged_stream(a.drop_first(), b)
    }
}

/// Interleave the unified stream `events` with the in-app stream `spa` by
/// timestamp, never reordering two records of the same stream; timestamp
/// ties go to `events` first.
pub fn merge_streams(events: &[Event], spa: &[Event]) -> (r: Vec<Event>)
    ensures
        r@.len() == merged_stream(events@, spa@).len(),
        forall|k: int| 0 <= k < r@.len() ==> same_event(#[trigger] r@[k], merged_stream(events@, spa@)[k]),
{
    let ghost m = merged_stream(events@, spa@);
    let mut out: Vec<Event> = Vec::new();
    let mut i: usize = 0;
    let mut j: usize = 0;
    proof {
        assert(events@.skip(0) =~= events@);
        assert(spa@.skip(0) =~= spa@);
        assert(m.skip(0) =~= m);
    }
    while i < events.len() || j < spa.len()
        invariant
            i <= events@.len(),
            j <= spa@.len(),
            m == merged_stream(events@, spa@),
            out@.len() <= m.len(),
            m.skip(out@.len() as int) == merged_stream(events@.skip(i as int), spa@.skip(j as int)),
            forall|k: int| 0 <= k < out@.len() ==> same_event(#[trigger] out@[k], m[k]),
        decreases events.len() + spa.len() - i - j,
    {
        let ghost a = events@.skip(i as int);
        let ghost b = spa@.skip(j as int);
        let ghost n = out@.len() as int;
        let ghost o0 = out@;
        let take_spa = if i >= events.len() {
            true
        } else if j >= spa.len() {
            false
        } else {
            lt_ts(spa[j].ts(), events[i].ts())
        };
        if take_spa {
            proof {
                assert(b.drop_first() =~= spa@.skip(j + 1));
                assert(b[0] == spa@[j as int]);
                if i >= events.len() {
                    assert(a.len() == 0);
                } else {
                    assert(a[0] == events@[i as int]);
                }
                let rest = merged_stream(a, b);
                assert(rest == seq![b[0]] + merged_stream(a, b.drop_first()));
                assert(m.skip(n)[0] == b[0]);
                assert(m[n] == b[0]);
                assert(m.skip(n + 1) =~= m.skip(n).drop_first());
            }
            out.push(copy_event(&spa[j]));
            j += 1;
        } else {
            proof {
                assert(a.drop_first() =~= events@.skip(i + 1));
                assert(a[0] == events@[i as int]);
                if j >= spa.len() {
                    assert(b.len() == 0);
                } else {
                    assert(b[0] == spa@[j as int]);
                }
                let rest = merged_stream(a, b);
                assert(rest == seq![a[0]] + merged_stream(a.drop_first(), b));
                assert(m.skip(n)[0] == a[0]);
                assert(m[n] == a[0]);
                assert(m.skip(n + 1) =~= m.skip(n).drop_first());
            }
            out.push(copy_event(&events[i]));
            i += 1;
        }
        proof {
            assert forall|k: int| 0 <= k < out@.len() implies same_event(#[trigger] out@[k], m[k]) by {
                if k < n {
                    assert(out@[k] == o0[k]);
                }
            }
        }
    }
    proof {
        assert(events@.skip(i as int) =~= Seq::<Event>::empty());
        assert(spa@.skip(j as int) =~= Seq::<Event>::empty());
        assert(m.skip(out@.len() as int).len() == 0);
    }
    out
}

fn lt_ts(a: Option<i64>, b: Option<i64>) -> (r: bool)
    ensures
        r == match (a, b) {
            (Some(x), Some(y)) => x < y,
            _ => false,
        },
{
    match (a, b) {
        (Some(x), Some(y)) => x < y,
        _ => false,
    }
}


/// Milliseconds in a day.
pub const DAY_MS: i64 = 86_400_000;

/// `s` left-padded with zeros to at least `w` characters.
pub open spec fn zero_pad(s: Seq<char>, w: nat) -> Seq<char> {
    if s.len() >= w {
        s
    } else {
        Seq::new((w - s.len()) as nat, |i: int| '0') + s
    }
}

/// `n` in decimal, zero-padded to `w` characters (a minus sign counts
/// toward the width and precedes the zeros).
pub open spec fn padded(n: int, w: nat) -> Seq<char> {
    if n < 0 {
        seq!['-'] + zero_pad(decimal((-n) as nat), if w > 0 { (w - 1) as nat } else { 0 })
    } else {
        zero_pad(decimal(n as nat), w)
    }
}

/// The UTC calendar date (`YYYY-MM-DD`) of an epoch-millisecond timestamp.
pub open spec fn spec_utc_date(ts: i64) -> Seq<char> {
    let (y, m, d) = spec_civil_from_days(ts as int / (DAY_MS as int));
    padded(y, 4) + seq!['-'] + padded(m, 2) + seq!['-'] + padded(d, 2)
}

fn push_zeros(s: &mut String, n: usize)
    ensures
        final(s)@ == old(s)@ + Seq::new(n as nat, |i: int| '0'),
{
    let mut k: usize = 0;
    while k < n
        invariant
            k <= n,
            s@ == old(s)@ + Seq::new(k as nat, |i: int| '0'),
        decreases n - k,
    {
        push_char(s, '0');
        k += 1;
        assert(s@ =~= old(s)@ + Seq::new(k as nat, |i: int| '0'));
    }
}

fn push_padded(s: &mut String, n: i64, w: usize)
    ensures
        final(s)@ == old(s)@ + padded(n as int, w as nat),
{
    let neg = n < 0;
    let mag: u64 = if n >= 0 {
        n as u64
    } else if n == i64::MIN {
        9_223_372_036_854_775_808u64
    } else {
        (-n) as u64
    };
    let mut digits = String::new();
    push_decimal(&mut digits, mag);
    let len = char_count(digits.as_str());
    let width: usize = if neg {
        if w > 0 { w - 1 } else { 0 }
    } else {
        w
    };
    let ghost start = s@;
    if neg {
        push_char(s, '-');
    }
    if len < width {
        push_zeros(s, width - len);
    }
    push_str(s, digits.as_str());
    proof {
        let body = zero_pad(decimal(mag as nat), width as nat);
        if neg {
            assert((-(n as int)) as nat == mag as nat);
            assert(s@ =~= start + (seq!['-'] + body));
        } else {
            assert(s@ =~= start + body);
        }
    }
}

/// UTC `YYYY-MM-DD` for an epoch-millisecond timestamp; the day a visit,
/// an edge or a session is bucketed under.
pub fn utc_date(ts: i64) -> (r: String)
    ensures
        r@ == spec_utc_date(ts),
{
    let day: i64 = if ts >= 0 {
        ts / DAY_MS
    } else {
        let u = -(ts + 1);
        -(u / DAY_MS) - 1
    };
    proof {
        if ts < 0 {
            let u = -(ts + 1);
            assert(-(u / DAY_MS as int) - 1 == ts as int / (DAY_MS as int)) by (nonlinear_arith)
                requires
                    ts < 0,
                    u == -(ts + 1),
            ;
        }
        assert(-100_000_000_000_000_000 <= day <= 100_000_000_000_000_000) by (nonlinear_arith)
            requires
                day == ts as int / (DAY_MS as int),
        ;
    }
    let (y, m, d) = civil_from_days(day);
    let mut out = String::new();
    push_padded(&mut out, y, 4);
    push_char(&mut out, '-');
    push_padded(&mut out, m as i64, 2);
    push_char(&mut out, '-');
    push_padded(&mut out, d as i64, 2);
    out
}

} // verus!
