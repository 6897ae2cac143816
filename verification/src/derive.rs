//! The read-time derivation pass: run in strict global id order over the
//! unified event stream, it routes each event to its tab and window and
//! emits node-visit and edge credits and closed session records. All state
//! lives in the checkpoint, so a fold resumed from it continues exactly as a
//! from-scratch pass would.
use vstd::prelude::*;
use crate::assoc::{a_del, a_get, a_put, lemma_get_put_same, lemma_present};
use crate::interpret::{spec_classify, spec_node_key};
use crate::model::{EdgeKind, Event, Granularity, Provenance};
use crate::rollup::{
    add_edge_stat, add_node_stat, edge_key, merged, DayBucket, EdgeStat, NodeStat, spec_utc_date, utc_date, Acc, Buffered, Credit, DeriveState, OpenSession, PendingOrigin, SessionRec, TabState,
    IDLE_GAP_MS, REDIRECT_WINDOW_MS, SESSION_HOST_CAP,
};
use crate::assoc::{a_index, lemma_absent, lemma_put_len, lemma_first, lemma_index_valid, lemma_vmap, min_tab, tab_index, tab_put, tab_take, vmap};
use crate::interpret::{classify, node_key};
use crate::text::{str_eq, str_lt};
use crate::sessions::{has_qual, has_qualifier, hop_kind, kind_plus, lemma_min_key, min_key, prov_plus, zero_kind, zero_prov};
use crate::keyed::lookup;
use crate::model::{KindBreakdown, ProvBreakdown};
use crate::text::lex_lt;

verus! {

/// A navigation held one event back (to see whether a client redirect
/// follows): where it came from, where it landed, how, and when.
pub struct HeldV {
    pub origin_url: Option<Seq<char>>,
    pub origin_prov: Provenance,
    pub to_url: Seq<char>,
    pub prov: Provenance,
    pub ts: i64,
}

/// A tab's confirmed page and its held navigation.
pub struct TabV {
    pub last_url: Option<Seq<char>>,
    pub last_prov: Provenance,
    pub buffer: Option<HeldV>,
}

/// An open session of a window.
pub struct SessionV {
    pub id: i64,
    pub window_id: i64,
    pub start_ts: i64,
    pub start_id: i64,
    pub last_ts: i64,
    pub end_id: i64,
    pub nav_count: u32,
    pub host_counts: Seq<(Seq<char>, u32)>,
}

/// A closed session's record.
pub struct RecV {
    pub id: i64,
    pub window_id: i64,
    pub start_ts: i64,
    pub end_ts: i64,
    pub start_id: i64,
    pub end_id: i64,
    pub nav_count: u32,
    pub top_hosts: Seq<(Seq<char>, u32)>,
}

/// One credit of the pass: a node visit (with its dwell) or an edge
/// traversal, on a UTC day, while processing event `id`.
pub enum CreditV {
    Node { date: Seq<char>, key: Seq<char>, prov: Provenance, dwell_ms: u64, id: i64 },
    Edge { date: Seq<char>, from: Seq<char>, to: Seq<char>, kind: EdgeKind, id: i64 },
}

/// The pass's checkpoint (per-tab state, pending new-tab origins, open
/// sessions, keyed by tab or window id) together with what it has emitted.
pub struct DeriveV {
    pub watermark: i64,
    pub tabs: Seq<(i64, TabV)>,
    pub pending: Seq<(i64, (Option<Seq<char>>, Provenance))>,
    pub sessions: Seq<(i64, SessionV)>,
    pub credits: Seq<CreditV>,
    pub records: Seq<RecV>,
}

/// A tab with no history.
pub open spec fn fresh_tab() -> TabV {
    TabV { last_url: None, last_prov: Provenance::Other, buffer: None }
}

/// The time a page held the user, from arrival to departure: never
/// negative, and capped at the idle gap.
pub open spec fn dwell_of(arrive: i64, depart: i64) -> u64 {
    if depart - arrive <= 0 {
        0
    } else if depart - arrive >= IDLE_GAP_MS {
        IDLE_GAP_MS
    } else {
        (depart - arrive) as u64
    }
}

/// The credits after confirming a held navigation (left at `depart`): a
/// visit to its host on the day it arrived, and an edge from its origin's
/// host when it was a link or form hop between two different hosts.
/// Non-web landings credit nothing.
pub open spec fn finalize_credits(c: Seq<CreditV>, b: HeldV, depart: i64, id: i64) -> Seq<CreditV> {
    match spec_node_key(b.to_url, Granularity::Hostname) {
        None => c,
        Some(to) => {
            let date = spec_utc_date(b.ts);
            let with_node = c.push(CreditV::Node { date, key: to, prov: b.prov, dwell_ms: dwell_of(b.ts, depart), id });
            let from = match b.origin_url {
                Some(u) => spec_node_key(u, Granularity::Hostname),
                None => None,
            };
            if (b.prov == Provenance::Link || b.prov == Provenance::Form) && from is Some && from->0 != to {
                with_node.push(CreditV::Edge { date, from: from->0, to, kind: hop_kind(b.origin_prov, b.prov), id })
            } else {
                with_node
            }
        },
    }
}

/// Confirm a held navigation (see [`finalize_credits`]).
pub open spec fn finalize_v(st: DeriveV, b: HeldV, depart: i64, id: i64) -> DeriveV {
    DeriveV { credits: finalize_credits(st.credits, b, depart, id), ..st }
}

/// Remove every tab, in increasing tab order, confirming each held
/// navigation as left at `depart` (or, for `None`, as left on arrival).
pub open spec fn flush_tabs(st: DeriveV, depart: Option<i64>, id: i64) -> DeriveV
    decreases st.tabs.len(),
{
    if st.tabs.len() == 0 {
        st
    } else {
        let t = min_key(st.tabs);
        proof {
            lemma_min_key(st.tabs);
            let i = choose|i: int| 0 <= i < st.tabs.len() && st.tabs[i].0 == t;
            lemma_present(st.tabs, t, i);
        }
        let tab = a_get(st.tabs, t)->0;
        let rest = DeriveV { tabs: a_del(st.tabs, t), ..st };
        let next = match tab.buffer {
            Some(b) => finalize_v(rest, b, if depart is Some { depart->0 } else { b.ts }, id),
            None => rest,
        };
        flush_tabs(next, depart, id)
    }
}

/// Whether host count `a` ranks before `b`: more visits first, ties by host.
pub open spec fn ranks_before(a: (Seq<char>, u32), b: (Seq<char>, u32)) -> bool {
    a.1 > b.1 || (a.1 == b.1 && lex_lt(a.0, b.0))
}

/// The position of the top-ranked host count (the first such).
pub open spec fn best_index(hc: Seq<(Seq<char>, u32)>) -> int
    decreases hc.len(),
{
    if hc.len() <= 1 {
        0
    } else {
        let j = best_index(hc.drop_last());
        if ranks_before(hc.last(), hc[j]) {
            hc.len() - 1
        } else {
            j
        }
    }
}

/// The first `k` host counts in rank order.
pub open spec fn top_hosts(hc: Seq<(Seq<char>, u32)>, k: nat) -> Seq<(Seq<char>, u32)>
    decreases k,
{
    if k == 0 || hc.len() == 0 {
        Seq::empty()
    } else {
        let j = best_index(hc);
        seq![hc[j]] + top_hosts(hc.remove(j), (k - 1) as nat)
    }
}

/// The record of a closed session: its span and navigation count, and its
/// five top hosts.
pub open spec fn rec_of(s: SessionV) -> RecV {
    RecV {
        id: s.id,
        window_id: s.window_id,
        start_ts: s.start_ts,
        end_ts: s.last_ts,
        start_id: s.start_id,
        end_id: s.end_id,
        nav_count: s.nav_count,
        top_hosts: top_hosts(s.host_counts, 5),
    }
}

/// Close every open session, in increasing window order, emitting its
/// record.
pub open spec fn close_sessions(st: DeriveV) -> DeriveV
    decreases st.sessions.len(),
{
    if st.sessions.len() == 0 {
        st
    } else {
        let w = min_key(st.sessions);
        proof {
            lemma_min_key(st.sessions);
            let i = choose|i: int| 0 <= i < st.sessions.len() && st.sessions[i].0 == w;
            lemma_present(st.sessions, w, i);
        }
        let s = a_get(st.sessions, w)->0;
        close_sessions(DeriveV { sessions: a_del(st.sessions, w), records: st.records.push(rec_of(s)), ..st })
    }
}

/// A browser start: confirm every tab's held navigation, forget all tab and
/// origin state, and close every session.
pub open spec fn start_v(st: DeriveV, ts: i64, id: i64) -> DeriveV {
    close_sessions(DeriveV { pending: Seq::empty(), ..flush_tabs(st, Some(ts), id) })
}

/// A tab closed: confirm its held navigation and forget the tab.
pub open spec fn close_v(st: DeriveV, tab_id: i64, ts: i64, id: i64) -> DeriveV {
    let after = match a_get(st.tabs, tab_id) {
        Some(tab) => {
            let rest = DeriveV { tabs: a_del(st.tabs, tab_id), ..st };
            match tab.buffer {
                Some(b) => finalize_v(rest, b, ts, id),
                None => rest,
            }
        },
        None => st,
    };
    DeriveV { pending: a_del(after.pending, tab_id), ..after }
}

/// A new tab opened from a source tab: the source's current page (its held
/// navigation, else its confirmed page) becomes the new tab's pending
/// origin, and the new tab starts fresh.
pub open spec fn link_v(st: DeriveV, new_tab_id: i64, source_tab_id: i64) -> DeriveV {
    let origin = match a_get(st.tabs, source_tab_id) {
        Some(t) => match t.buffer {
            Some(b) => (Some(b.to_url), b.prov),
            None => (t.last_url, t.last_prov),
        },
        None => (None, Provenance::Other),
    };
    DeriveV { pending: a_put(st.pending, new_tab_id, origin), tabs: a_put(st.tabs, new_tab_id, fresh_tab()), ..st }
}

/// One more visit to `key` in a session's host counts; a new host is
/// tracked only while fewer than the cap are.
pub open spec fn bump_v(hc: Seq<(Seq<char>, u32)>, key: Seq<char>) -> Seq<(Seq<char>, u32)> {
    match a_get(hc, key) {
        Some(c) => a_put(hc, key, (c + 1) as u32),
        None => if hc.len() < SESSION_HOST_CAP {
            hc.push((key, 1))
        } else {
            hc
        },
    }
}

/// A session opened by navigation `id` at `ts`.
pub open spec fn open_v(id: i64, window_id: i64, ts: i64, key: Option<Seq<char>>) -> SessionV {
    SessionV {
        id,
        window_id,
        start_ts: ts,
        start_id: id,
        last_ts: ts,
        end_id: id,
        nav_count: 1,
        host_counts: match key {
            Some(k) => seq![(k, 1u32)],
            None => Seq::empty(),
        },
    }
}

/// Every navigation extends its window's session, or, after more than the
/// idle gap, closes it and opens a new one.
pub open spec fn session_v(st: DeriveV, id: i64, ts: i64, window_id: i64, url: Seq<char>) -> DeriveV {
    let key = spec_node_key(url, Granularity::Hostname);
    match a_get(st.sessions, window_id) {
        None => DeriveV { sessions: a_put(st.sessions, window_id, open_v(id, window_id, ts, key)), ..st },
        Some(s) => if ts - s.last_ts > IDLE_GAP_MS {
            DeriveV {
                sessions: a_put(st.sessions, window_id, open_v(id, window_id, ts, key)),
                records: st.records.push(rec_of(s)),
                ..st
            }
        } else {
            let grown = SessionV {
                last_ts: ts,
                nav_count: (s.nav_count + 1) as u32,
                end_id: id,
                host_counts: match key {
                    Some(k) => bump_v(s.host_counts, k),
                    None => s.host_counts,
                },
                ..s
            };
            DeriveV { sessions: a_put(st.sessions, window_id, grown), ..st }
        },
    }
}

/// A navigation (event `id`, crediting as `cid`): update the session; then,
/// unless it is a reload or other
/// activity, either continue a recent held redirect, or confirm the held
/// navigation and then advance the tab (back/forward) or hold this one with
/// its origin (a pending new-tab origin, else the tab's current page).
pub open spec fn nav_v(
    st: DeriveV,
    id: i64,
    ts: i64,
    tab_id: i64,
    window_id: i64,
    url: Seq<char>,
    transition_type: Seq<char>,
    qualifiers: Seq<String>,
    cid: i64,
) -> DeriveV {
    let st1 = session_v(st, id, ts, window_id, url);
    let prov = spec_classify(transition_type);
    if prov == Provenance::Reload || prov == Provenance::Other {
        st1
    } else {
        let redirect = has_qual(qualifiers, "client_redirect"@);
        let fb = has_qual(qualifiers, "forward_back"@);
        let tab0 = match a_get(st1.tabs, tab_id) {
            Some(t) => t,
            None => fresh_tab(),
        };
        if tab0.buffer is Some && redirect && ts - tab0.buffer->0.ts < REDIRECT_WINDOW_MS {
            let b = tab0.buffer->0;
            let held = HeldV { origin_url: b.origin_url, origin_prov: b.origin_prov, to_url: url, prov, ts };
            DeriveV { tabs: a_put(st1.tabs, tab_id, TabV { buffer: Some(held), ..tab0 }), ..st1 }
        } else {
            let tab1 = match tab0.buffer {
                Some(b) => TabV { last_url: Some(b.to_url), last_prov: b.prov, buffer: None },
                None => tab0,
            };
            let st2 = DeriveV { tabs: a_put(st1.tabs, tab_id, tab1), ..st1 };
            let st3 = match tab0.buffer {
                Some(b) => finalize_v(st2, b, ts, cid),
                None => st2,
            };
            if fb {
                DeriveV { tabs: a_put(st3.tabs, tab_id, TabV { last_url: Some(url), last_prov: prov, ..tab1 }), ..st3 }
            } else {
                let origin = match a_get(st3.pending, tab_id) {
                    Some(po) => po,
                    None => (tab1.last_url, tab1.last_prov),
                };
                let held = HeldV { origin_url: origin.0, origin_prov: origin.1, to_url: url, prov, ts };
                DeriveV {
                    pending: a_del(st3.pending, tab_id),
                    tabs: a_put(st3.tabs, tab_id, TabV { buffer: Some(held), ..tab1 }),
                    ..st3
                }
            }
        }
    }
}

/// One event of the pass, processed as event `id`.
pub open spec fn step_v(st: DeriveV, ev: Event, id: i64) -> DeriveV {
    match ev {
        Event::Start { ts, .. } => start_v(st, ts, id),
        Event::Close { ts, tab_id, .. } => close_v(st, tab_id, ts, id),
        Event::Link { new_tab_id, source_tab_id, .. } => link_v(st, new_tab_id, source_tab_id),
        Event::Nav { id: nid, ts, tab_id, window_id, to_url, transition_type, qualifiers } => nav_v(
            st,
            nid,
            ts,
            tab_id,
            window_id,
            to_url@,
            transition_type@,
            qualifiers@,
            id,
        ),
        _ => st,
    }
}

/// The pass over `events` in order from `st`; an unrecognized event is
/// skipped, every other one advances the watermark to its id.
pub open spec fn fold_v(st: DeriveV, events: Seq<Event>) -> DeriveV
    decreases events.len(),
{
    if events.len() == 0 {
        st
    } else {
        let prev = fold_v(st, events.drop_last());
        match crate::model::spec_event_id(events.last()) {
            Some(id) => DeriveV { watermark: id, ..step_v(prev, events.last(), id) },
            None => prev,
        }
    }
}


/// The checkpoint of `st`: its state with nothing emitted yet.
pub open spec fn checkpoint(st: DeriveV) -> DeriveV {
    DeriveV { credits: Seq::empty(), records: Seq::empty(), ..st }
}

/// `r` after the credits `c` and the records `rec` emitted before it.
pub open spec fn after_outputs(r: DeriveV, c: Seq<CreditV>, rec: Seq<RecV>) -> DeriveV {
    DeriveV { credits: c + r.credits, records: rec + r.records, ..r }
}

proof fn lemma_finalize_outputs(st: DeriveV, b: HeldV, depart: i64, id: i64)
    ensures
        finalize_v(st, b, depart, id) == after_outputs(finalize_v(checkpoint(st), b, depart, id), st.credits, st.records),
{
    let r = finalize_v(checkpoint(st), b, depart, id);
    assert(finalize_v(st, b, depart, id).credits =~= st.credits + r.credits);
    assert(st.records =~= st.records + r.records);
}

proof fn lemma_flush_outputs(st: DeriveV, depart: Option<i64>, id: i64)
    ensures
        flush_tabs(st, depart, id) == after_outputs(flush_tabs(checkpoint(st), depart, id), st.credits, st.records),
    decreases st.tabs.len(),
{
    if st.tabs.len() == 0 {
        assert(st.credits =~= st.credits + Seq::<CreditV>::empty());
        assert(st.records =~= st.records + Seq::<RecV>::empty());
    } else {
        let t = min_key(st.tabs);
        lemma_min_key(st.tabs);
        let i = choose|i: int| 0 <= i < st.tabs.len() && st.tabs[i].0 == t;
        lemma_present(st.tabs, t, i);
        let tab = a_get(st.tabs, t)->0;
        let rest = DeriveV { tabs: a_del(st.tabs, t), ..st };
        let crest = DeriveV { tabs: a_del(st.tabs, t), ..checkpoint(st) };
        assert(checkpoint(rest) == crest);
        match tab.buffer {
            Some(b) => {
                let dep = if depart is Some { depart->0 } else { b.ts };
                let next = finalize_v(rest, b, dep, id);
                let cnext = finalize_v(crest, b, dep, id);
                lemma_finalize_outputs(rest, b, dep, id);
                lemma_flush_outputs(next, depart, id);
                lemma_flush_outputs(cnext, depart, id);
                assert(checkpoint(next) == checkpoint(cnext));
                let z = flush_tabs(checkpoint(next), depart, id);
                assert(next.credits == st.credits + cnext.credits);
                assert(st.credits + (cnext.credits + z.credits) =~= (st.credits + cnext.credits) + z.credits);
                assert(st.records + (cnext.records + z.records) =~= (st.records + cnext.records) + z.records);
            },
            None => {
                lemma_flush_outputs(rest, depart, id);
                lemma_flush_outputs(crest, depart, id);
                assert(checkpoint(crest) == checkpoint(rest));
                let z = flush_tabs(checkpoint(rest), depart, id);
                assert(crest.credits + z.credits =~= z.credits);
                assert(crest.records + z.records =~= z.records);
            },
        }
    }
}

proof fn lemma_close_sessions_outputs(st: DeriveV)
    ensures
        close_sessions(st) == after_outputs(close_sessions(checkpoint(st)), st.credits, st.records),
    decreases st.sessions.len(),
{
    if st.sessions.len() == 0 {
        assert(st.credits =~= st.credits + Seq::<CreditV>::empty());
        assert(st.records =~= st.records + Seq::<RecV>::empty());
    } else {
        let w = min_key(st.sessions);
        lemma_min_key(st.sessions);
        let i = choose|i: int| 0 <= i < st.sessions.len() && st.sessions[i].0 == w;
        lemma_present(st.sessions, w, i);
        let s = a_get(st.sessions, w)->0;
        let next = DeriveV { sessions: a_del(st.sessions, w), records: st.records.push(rec_of(s)), ..st };
        let cst = checkpoint(st);
        let cnext = DeriveV { sessions: a_del(cst.sessions, w), records: cst.records.push(rec_of(s)), ..cst };
        lemma_close_sessions_outputs(next);
        lemma_close_sessions_outputs(cnext);
        assert(checkpoint(next) == checkpoint(cnext));
        let z = close_sessions(checkpoint(next));
        assert(next.records =~= st.records + cnext.records);
        assert(st.records + (cnext.records + z.records) =~= (st.records + cnext.records) + z.records);
        assert(st.credits + (cnext.credits + z.credits) =~= (st.credits + cnext.credits) + z.credits);
    }
}

proof fn lemma_step_outputs(st: DeriveV, ev: Event, id: i64)
    ensures
        step_v(st, ev, id) == after_outputs(step_v(checkpoint(st), ev, id), st.credits, st.records),
{
    let cst = checkpoint(st);
    match ev {
        Event::Start { ts, .. } => {
            lemma_flush_outputs(st, Some(ts), id);
            let f = flush_tabs(st, Some(ts), id);
            let cf = flush_tabs(cst, Some(ts), id);
            let g = DeriveV { pending: Seq::empty(), ..f };
            let cg = DeriveV { pending: Seq::empty(), ..cf };
            lemma_close_sessions_outputs(g);
            lemma_close_sessions_outputs(cg);
            assert(checkpoint(g) == checkpoint(cg));
            let z = close_sessions(checkpoint(g));
            assert(st.credits + (cf.credits + z.credits) =~= (st.credits + cf.credits) + z.credits);
            assert(st.records + (cf.records + z.records) =~= (st.records + cf.records) + z.records);
        },
        Event::Close { ts, tab_id, .. } => {
            match a_get(st.tabs, tab_id) {
                Some(tab) => match tab.buffer {
                    Some(b) => {
                        let rest = DeriveV { tabs: a_del(st.tabs, tab_id), ..st };
                        lemma_finalize_outputs(rest, b, ts, id);
                        assert(checkpoint(rest) == DeriveV { tabs: a_del(cst.tabs, tab_id), ..cst });
                    },
                    None => {
                        assert(st.credits =~= st.credits + Seq::<CreditV>::empty());
                        assert(st.records =~= st.records + Seq::<RecV>::empty());
                    },
                },
                None => {
                    assert(st.credits =~= st.credits + Seq::<CreditV>::empty());
                    assert(st.records =~= st.records + Seq::<RecV>::empty());
                },
            }
        },
        Event::Nav { id: nid, ts, tab_id, window_id, to_url, transition_type, qualifiers } => {
            lemma_nav_outputs(st, nid, ts, tab_id, window_id, to_url@, transition_type@, qualifiers@, id);
        },
        _ => {
            assert(st.credits =~= st.credits + Seq::<CreditV>::empty());
            assert(st.records =~= st.records + Seq::<RecV>::empty());
        },
    }
}

proof fn lemma_session_outputs(st: DeriveV, id: i64, ts: i64, window_id: i64, url: Seq<char>)
    ensures
        session_v(st, id, ts, window_id, url) == after_outputs(
            session_v(checkpoint(st), id, ts, window_id, url),
            st.credits,
            st.records,
        ),
{
    let r = session_v(checkpoint(st), id, ts, window_id, url);
    assert(session_v(st, id, ts, window_id, url).records =~= st.records + r.records);
    assert(st.credits =~= st.credits + r.credits);
}

proof fn lemma_nav_outputs(
    st: DeriveV,
    id: i64,
    ts: i64,
    tab_id: i64,
    window_id: i64,
    url: Seq<char>,
    transition_type: Seq<char>,
    qualifiers: Seq<String>,
    cid: i64,
)
    ensures
        nav_v(st, id, ts, tab_id, window_id, url, transition_type, qualifiers, cid) == after_outputs(
            nav_v(checkpoint(st), id, ts, tab_id, window_id, url, transition_type, qualifiers, cid),
            st.credits,
            st.records,
        ),
{
    lemma_session_outputs(st, id, ts, window_id, url);
    let st1 = session_v(st, id, ts, window_id, url);
    let cst1 = session_v(checkpoint(st), id, ts, window_id, url);
    assert(checkpoint(st1) == checkpoint(cst1));
    let tab0 = match a_get(st1.tabs, tab_id) {
        Some(t) => t,
        None => fresh_tab(),
    };
    match tab0.buffer {
        Some(b) => {
            let tab1 = TabV { last_url: Some(b.to_url), last_prov: b.prov, buffer: None };
            let st2 = DeriveV { tabs: a_put(st1.tabs, tab_id, tab1), ..st1 };
            let cst2 = DeriveV { tabs: a_put(cst1.tabs, tab_id, tab1), ..cst1 };
            lemma_finalize_outputs(st2, b, ts, cid);
            lemma_finalize_outputs(cst2, b, ts, cid);
            assert(checkpoint(st2) == checkpoint(cst2));
            let z = finalize_v(checkpoint(st2), b, ts, cid);
            assert(st.credits + (cst1.credits + z.credits) =~= (st.credits + cst1.credits) + z.credits);
            assert(st.records + (cst1.records + z.records) =~= (st.records + cst1.records) + z.records);
        },
        None => {},
    }
}

proof fn lemma_fold_outputs(st: DeriveV, events: Seq<Event>)
    ensures
        fold_v(st, events) == after_outputs(fold_v(checkpoint(st), events), st.credits, st.records),
    decreases events.len(),
{
    if events.len() == 0 {
        assert(st.credits =~= st.credits + Seq::<CreditV>::empty());
        assert(st.records =~= st.records + Seq::<RecV>::empty());
    } else {
        lemma_fold_outputs(st, events.drop_last());
        let prev = fold_v(st, events.drop_last());
        let cprev = fold_v(checkpoint(st), events.drop_last());
        match crate::model::spec_event_id(events.last()) {
            Some(id) => {
                lemma_step_outputs(prev, events.last(), id);
                lemma_step_outputs(cprev, events.last(), id);
                assert(checkpoint(prev) == checkpoint(cprev));
                let z = step_v(checkpoint(prev), events.last(), id);
                assert(st.credits + (cprev.credits + z.credits) =~= (st.credits + cprev.credits) + z.credits);
                assert(st.records + (cprev.records + z.records) =~= (st.records + cprev.records) + z.records);
            },
            None => {},
        }
    }
}

proof fn lemma_fold_concat(st: DeriveV, a: Seq<Event>, b: Seq<Event>)
    ensures
        fold_v(st, a + b) == fold_v(fold_v(st, a), b),
    decreases b.len(),
{
    if b.len() == 0 {
        assert(a + b =~= a);
    } else {
        assert((a + b).drop_last() =~= a + b.drop_last());
        assert((a + b).last() == b.last());
        lemma_fold_concat(st, a, b.drop_last());
    }
}

/// Folding the events after a watermark from the checkpoint left by the
/// events before it gives the state a from-scratch pass over all of them
/// reaches, and emits exactly the credits and records that pass emits after
/// the watermark.
pub proof fn lemma_fold_resumes_exactly(st: DeriveV, before: Seq<Event>, after: Seq<Event>)
    ensures
        ({
            let whole = fold_v(checkpoint(st), before + after);
            let first = fold_v(checkpoint(st), before);
            let resumed = fold_v(checkpoint(first), after);
            whole == after_outputs(resumed, first.credits, first.records)
        }),
{
    let first = fold_v(checkpoint(st), before);
    lemma_fold_concat(checkpoint(st), before, after);
    lemma_fold_outputs(first, after);
}


/// An optional string's characters.
pub open spec fn opt_str(o: Option<String>) -> Option<Seq<char>> {
    match o {
        Some(s) => Some(s@),
        None => None,
    }
}

pub open spec fn held_of(b: Buffered) -> HeldV {
    HeldV { origin_url: opt_str(b.origin_url), origin_prov: b.origin_prov, to_url: b.to_url@, prov: b.prov, ts: b.ts }
}

pub open spec fn tab_of(t: TabState) -> TabV {
    TabV {
        last_url: opt_str(t.last_url),
        last_prov: t.last_prov,
        buffer: match t.buffer {
            Some(b) => Some(held_of(b)),
            None => None,
        },
    }
}

pub open spec fn pend_of(p: PendingOrigin) -> (Option<Seq<char>>, Provenance) {
    (opt_str(p.url), p.prov)
}

pub open spec fn counts_of(hc: Seq<(String, u32)>) -> Seq<(Seq<char>, u32)> {
    hc.map_values(|e: (String, u32)| (e.0@, e.1))
}

pub open spec fn session_of(s: OpenSession) -> SessionV {
    SessionV {
        id: s.id,
        window_id: s.window_id,
        start_ts: s.start_ts,
        start_id: s.start_id,
        last_ts: s.last_ts,
        end_id: s.end_id,
        nav_count: s.nav_count,
        host_counts: counts_of(s.host_counts@),
    }
}

pub open spec fn record_of(r: SessionRec) -> RecV {
    RecV {
        id: r.id,
        window_id: r.window_id,
        start_ts: r.start_ts,
        end_ts: r.end_ts,
        start_id: r.start_id,
        end_id: r.end_id,
        nav_count: r.nav_count,
        top_hosts: counts_of(r.top_hosts@),
    }
}

pub open spec fn credit_of(c: Credit) -> CreditV {
    match c {
        Credit::Node { date, key, prov, dwell_ms, id } => CreditV::Node { date: date@, key: key@, prov, dwell_ms, id },
        Credit::Edge { date, from, to, kind, id } => CreditV::Edge { date: date@, from: from@, to: to@, kind, id },
    }
}

pub open spec fn tab_f() -> spec_fn(TabState) -> TabV {
    |t: TabState| tab_of(t)
}

pub open spec fn pend_f() -> spec_fn(PendingOrigin) -> (Option<Seq<char>>, Provenance) {
    |p: PendingOrigin| pend_of(p)
}

pub open spec fn session_f() -> spec_fn(OpenSession) -> SessionV {
    |s: OpenSession| session_of(s)
}

/// The credits an accumulator holds.
pub open spec fn credits_of(acc: Acc) -> Seq<CreditV> {
    acc.credits@.map_values(|c: Credit| credit_of(c))
}

/// The records an accumulator holds.
pub open spec fn records_of(acc: Acc) -> Seq<RecV> {
    acc.sessions@.map_values(|r: SessionRec| record_of(r))
}

/// The pass as the checkpoint and the accumulator hold it.
pub open spec fn run_of(state: DeriveState, acc: Acc) -> DeriveV {
    DeriveV {
        watermark: state.watermark,
        tabs: vmap(state.tabs@, tab_f()),
        pending: vmap(state.pending_origin@, pend_f()),
        sessions: vmap(state.open_sessions@, session_f()),
        credits: credits_of(acc),
        records: records_of(acc),
    }
}

/// Confirm a held navigation `b`, left at `departure_ts`, into the
/// accumulator.
fn finalize(acc: &mut Acc, b: &Buffered, departure_ts: i64)
    ensures
        credits_of(*final(acc)) == finalize_credits(credits_of(*old(acc)), held_of(*b), departure_ts, old(acc).cur_id),
        final(acc).sessions == old(acc).sessions,
        final(acc).cur_id == old(acc).cur_id,
{
    let to = match node_key(b.to_url.as_str(), Granularity::Hostname) {
        Some(k) => k,
        None => {
            return;
        },
    };
    let date = utc_date(b.ts);
    let diff: i128 = departure_ts as i128 - b.ts as i128;
    let dwell: u64 = if diff <= 0 {
        0
    } else if diff >= IDLE_GAP_MS as i128 {
        IDLE_GAP_MS
    } else {
        diff as u64
    };
    acc.node(date.as_str(), to.as_str(), b.prov, dwell);
    if b.prov.is_edge() {
        match &b.origin_url {
            Some(u) => match node_key(u.as_str(), Granularity::Hostname) {
                Some(from) => {
                    if !str_eq(from.as_str(), to.as_str()) {
                        let kind = if b.origin_prov == Provenance::SearchOrigin {
                            EdgeKind::SearchLink
                        } else if b.prov == Provenance::Form {
                            EdgeKind::Form
                        } else {
                            EdgeKind::Link
                        };
                        acc.edge(date.as_str(), from.as_str(), to.as_str(), kind);
                    }
                },
                None => {},
            },
            None => {},
        }
    }
}


/// The position of host `k` among the counts, as the list reads it.
fn count_index(hc: &Vec<(String, u32)>, k: &str) -> (r: Option<usize>)
    ensures
        match r {
            Some(j) => j < hc@.len() && a_index(counts_of(hc@), k@) == Some(j as int),
            None => a_index(counts_of(hc@), k@) is None,
        },
{
    let ghost v = counts_of(hc@);
    let mut j: usize = 0;
    while j < hc.len()
        invariant
            j <= hc@.len(),
            v == counts_of(hc@),
            forall|a: int| 0 <= a < j ==> v[a].0 != k@,
        decreases hc.len() - j,
    {
        if str_eq(hc[j].0.as_str(), k) {
            proof {
                lemma_first(v, k@, j as int);
            }
            return Some(j);
        }
        j += 1;
    }
    proof {
        lemma_absent(v, k@);
    }
    None
}

fn copy_opt(o: &Option<String>) -> (r: Option<String>)
    ensures
        opt_str(r) == opt_str(*o),
{
    match o {
        Some(x) => Some(x.clone()),
        None => None,
    }
}

fn copy_counts(hc: &Vec<(String, u32)>) -> (r: Vec<(String, u32)>)
    ensures
        counts_of(r@) == counts_of(hc@),
{
    let mut r: Vec<(String, u32)> = Vec::new();
    let mut i: usize = 0;
    while i < hc.len()
        invariant
            i <= hc@.len(),
            counts_of(r@) == counts_of(hc@.take(i as int)),
        decreases hc.len() - i,
    {
        let ghost before = r@;
        let name = hc[i].0.clone();
        proof {
            assert(name@ == hc@[i as int].0@);
        }
        r.push((name, hc[i].1));
        proof {
            assert(r@ == before.push((name, hc@[i as int].1)));
            assert(hc@.take(i + 1) =~= hc@.take(i as int).push(hc@[i as int]));
            assert(counts_of(r@) =~= counts_of(before).push((hc@[i as int].0@, hc@[i as int].1)));
            assert(counts_of(hc@.take(i + 1)) =~= counts_of(hc@.take(i as int)).push((hc@[i as int].0@, hc@[i as int].1)));
        }
        i += 1;
    }
    proof {
        assert(hc@.take(i as int) =~= hc@);
    }
    r
}

/// The position of the top-ranked entry.
fn best_of(hc: &Vec<(String, u32)>) -> (j: usize)
    requires
        hc@.len() > 0,
    ensures
        j < hc@.len(),
        j == best_index(counts_of(hc@)),
{
    let ghost v = counts_of(hc@);
    let mut j: usize = 0;
    let mut i: usize = 1;
    proof {
        assert(v.take(1).len() == 1);
    }
    while i < hc.len()
        invariant
            1 <= i <= hc@.len(),
            v == counts_of(hc@),
            j < i,
            j == best_index(v.take(i as int)),
        decreases hc.len() - i,
    {
        proof {
            assert(v.take(i + 1).drop_last() =~= v.take(i as int));
            assert(v.take(i + 1).last() == v[i as int]);
            assert(v.take(i + 1)[j as int] == v[j as int]);
        }
        let better = hc[i].1 > hc[j].1 || (hc[i].1 == hc[j].1 && str_lt(hc[i].0.as_str(), hc[j].0.as_str()));
        if better {
            j = i;
        }
        i += 1;
    }
    proof {
        assert(v.take(i as int) =~= v);
    }
    j
}

/// The five top-ranked host counts.
fn top_five(hc: &Vec<(String, u32)>) -> (r: Vec<(String, u32)>)
    ensures
        counts_of(r@) == top_hosts(counts_of(hc@), 5),
{
    let mut rest = copy_counts(hc);
    let mut out: Vec<(String, u32)> = Vec::new();
    let mut k: usize = 0;
    while k < 5 && rest.len() > 0
        invariant
            k <= 5,
            counts_of(out@) + top_hosts(counts_of(rest@), (5 - k) as nat) == top_hosts(counts_of(hc@), 5),
        decreases 5 - k,
    {
        let ghost before = counts_of(rest@);
        let j = best_of(&rest);
        let e = rest.remove(j);
        proof {
            assert(counts_of(rest@) =~= before.remove(j as int));
            assert(top_hosts(before, (5 - k) as nat) == seq![before[j as int]] + top_hosts(
                before.remove(j as int),
                (5 - k - 1) as nat,
            ));
        }
        let ghost o = counts_of(out@);
        out.push(e);
        proof {
            assert(counts_of(out@) =~= o.push(before[j as int]));
            assert(o.push(before[j as int]) + top_hosts(counts_of(rest@), (5 - (k + 1)) as nat) =~= o + (seq![before[j as int]]
                + top_hosts(before.remove(j as int), (5 - k - 1) as nat)));
        }
        k += 1;
    }
    proof {
        assert(top_hosts(counts_of(rest@), (5 - k) as nat) =~= Seq::<(Seq<char>, u32)>::empty());
        assert(counts_of(out@) + Seq::<(Seq<char>, u32)>::empty() =~= counts_of(out@));
    }
    out
}

impl OpenSession {
    /// A session opened by navigation `id` of `window_id` at `ts`, counting
    /// its first host.
    pub fn open(id: i64, window_id: i64, ts: i64, first_key: Option<String>) -> (r: OpenSession)
        ensures
            session_of(r) == open_v(id, window_id, ts, opt_str(first_key)),
    {
        let mut hc: Vec<(String, u32)> = Vec::new();
        let ghost k = opt_str(first_key);
        match first_key {
            Some(key) => {
                hc.push((key, 1));
            },
            None => {},
        }
        let r = OpenSession { id, window_id, start_ts: ts, start_id: id, last_ts: ts, end_id: id, nav_count: 1, host_counts: hc };
        proof {
            assert(counts_of(r.host_counts@) =~= open_v(id, window_id, ts, k).host_counts);
        }
        r
    }

    /// One more visit to `key`: a tracked host counts up; a new host is
    /// tracked only while fewer than the cap are.
    pub fn bump_host(&mut self, key: String)
        requires
            forall|j: int| 0 <= j < old(self).host_counts@.len() ==> #[trigger] old(self).host_counts@[j].1 < u32::MAX,
        ensures
            counts_of(final(self).host_counts@) == bump_v(counts_of(old(self).host_counts@), key@),
            final(self).id == old(self).id,
            final(self).window_id == old(self).window_id,
            final(self).start_ts == old(self).start_ts,
            final(self).start_id == old(self).start_id,
            final(self).last_ts == old(self).last_ts,
            final(self).end_id == old(self).end_id,
            final(self).nav_count == old(self).nav_count,
    {
        let ghost v = counts_of(self.host_counts@);
        match count_index(&self.host_counts, key.as_str()) {
            Some(j) => {
                let c = self.host_counts[j].1;
                proof {
                    assert(v[j as int].1 == c);
                }
                self.host_counts.set(j, (key, c + 1));
                proof {
                    assert(counts_of(self.host_counts@) =~= v.update(j as int, (key@, (c + 1) as u32)));
                }
            },
            None => {
                if self.host_counts.len() < SESSION_HOST_CAP {
                    let ghost kv = key@;
                    self.host_counts.push((key, 1));
                    proof {
                        assert(counts_of(self.host_counts@) =~= v.push((kv, 1u32)));
                    }
                }
            },
        }
    }

    /// The persisted record of the session.
    pub fn to_record(&self) -> (r: SessionRec)
        ensures
            record_of(r) == rec_of(session_of(*self)),
    {
        SessionRec {
            id: self.id,
            window_id: self.window_id,
            start_ts: self.start_ts,
            end_ts: self.last_ts,
            start_id: self.start_id,
            end_id: self.end_id,
            nav_count: self.nav_count,
            top_hosts: top_five(&self.host_counts),
        }
    }

    /// The record of the session as it stands, for the session picker.
    pub fn provisional_record(&self) -> (r: SessionRec)
        ensures
            record_of(r) == rec_of(session_of(*self)),
    {
        self.to_record()
    }
}


/// Every navigation count of a session is at most `bound`, and every host
/// count at most its session's navigation count.
pub open spec fn session_within(s: SessionV, bound: int) -> bool {
    s.nav_count <= bound && forall|j: int| 0 <= j < s.host_counts.len() ==> #[trigger] s.host_counts[j].1 <= s.nav_count
}

/// Every open session is within `bound` (see [`session_within`]).
pub open spec fn counts_within(ss: Seq<(i64, SessionV)>, bound: int) -> bool {
    forall|i: int| 0 <= i < ss.len() ==> #[trigger] session_within(ss[i].1, bound)
}

proof fn lemma_put_within(ss: Seq<(i64, SessionV)>, k: i64, v: SessionV, bound: int)
    requires
        counts_within(ss, bound),
        session_within(v, bound),
    ensures
        counts_within(a_put(ss, k, v), bound),
{
    if a_index(ss, k) is Some {
        lemma_index_valid(ss, k);
    }
}

proof fn lemma_del_within(ss: Seq<(i64, SessionV)>, k: i64, bound: int)
    requires
        counts_within(ss, bound),
    ensures
        counts_within(a_del(ss, k), bound),
{
    if a_index(ss, k) is Some {
        lemma_index_valid(ss, k);
        let i = a_index(ss, k)->0;
        assert forall|a: int| 0 <= a < ss.remove(i).len() implies #[trigger] session_within(ss.remove(i)[a].1, bound) by {
            if a < i {
                assert(ss.remove(i)[a] == ss[a]);
            } else {
                assert(ss.remove(i)[a] == ss[a + 1]);
            }
        }
    }
}

proof fn lemma_within_grows(ss: Seq<(i64, SessionV)>, bound: int, more: int)
    requires
        counts_within(ss, bound),
        bound <= more,
    ensures
        counts_within(ss, more),
{
    assert forall|i: int| 0 <= i < ss.len() implies #[trigger] session_within(ss[i].1, more) by {
        assert(session_within(ss[i].1, bound));
    }
}

proof fn lemma_put_put<K, V>(s: Seq<(K, V)>, k: K, v1: V, v2: V)
    ensures
        a_put(a_put(s, k, v1), k, v2) == a_put(s, k, v2),
{
    match a_index(s, k) {
        Some(i) => {
            lemma_index_valid(s, k);
            let s1 = s.update(i, (k, v1));
            assert forall|a: int| 0 <= a < i implies s1[a].0 != k by {
                assert(s1[a] == s[a]);
            }
            lemma_first(s1, k, i);
            assert(s1.update(i, (k, v2)) =~= s.update(i, (k, v2)));
        },
        None => {
            let s1 = s.push((k, v1));
            let n = s.len() as int;
            assert forall|a: int| 0 <= a < n implies s1[a].0 != k by {
                assert(s1[a] == s[a]);
                if s[a].0 == k {
                    lemma_present(s, k, a);
                }
            }
            lemma_first(s1, k, n);
            assert(s1.update(n, (k, v2)) =~= s.push((k, v2)));
        },
    }
}

/// A new tab opened from a source tab (see [`link_v`]).
fn on_link(state: &mut DeriveState, new_tab_id: i64, source_tab_id: i64)
    ensures
        forall|acc: Acc| run_of(*final(state), acc) == link_v(run_of(*old(state), acc), new_tab_id, source_tab_id),
{
    let ghost tv = vmap(state.tabs@, tab_f());
    proof {
        lemma_vmap(state.tabs@, tab_f(), source_tab_id, vstd::pervasive::arbitrary());
    }
    let (url, prov) = match tab_index(&state.tabs, source_tab_id) {
        Some(j) => match &state.tabs[j].1.buffer {
            Some(b) => (Some(b.to_url.clone()), b.prov),
            None => (copy_opt(&state.tabs[j].1.last_url), state.tabs[j].1.last_prov),
        },
        None => (None, Provenance::Other),
    };
    let po = PendingOrigin { url, prov };
    let fresh = TabState::default();
    proof {
        lemma_vmap(state.pending_origin@, pend_f(), new_tab_id, po);
        lemma_vmap(state.tabs@, tab_f(), new_tab_id, fresh);
        assert(tab_of(fresh) == fresh_tab());
    }
    tab_put(&mut state.pending_origin, new_tab_id, po);
    tab_put(&mut state.tabs, new_tab_id, fresh);
}

/// A tab closed (see [`close_v`]).
fn on_close(state: &mut DeriveState, acc: &mut Acc, tab_id: i64, close_ts: i64)
    ensures
        run_of(*final(state), *final(acc)) == close_v(run_of(*old(state), *old(acc)), tab_id, close_ts, old(acc).cur_id),
        final(acc).cur_id == old(acc).cur_id,
        final(state).open_sessions == old(state).open_sessions,
{
    proof {
        lemma_vmap(state.tabs@, tab_f(), tab_id, vstd::pervasive::arbitrary());
        lemma_vmap(state.pending_origin@, pend_f(), tab_id, vstd::pervasive::arbitrary());
    }
    let gone = tab_take(&mut state.tabs, tab_id);
    match gone {
        Some(t) => match &t.buffer {
            Some(b) => {
                finalize(acc, b, close_ts);
            },
            None => {},
        },
        None => {},
    }
    tab_take(&mut state.pending_origin, tab_id);
}

/// Extend, or close and reopen, the window's session (see [`session_v`]).
fn update_session(state: &mut DeriveState, acc: &mut Acc, id: i64, ts: i64, window_id: i64, to_url: &str, Ghost(bound): Ghost<int>)
    requires
        counts_within(run_of(*old(state), *old(acc)).sessions, bound),
        0 <= bound < u32::MAX,
    ensures
        run_of(*final(state), *final(acc)) == session_v(run_of(*old(state), *old(acc)), id, ts, window_id, to_url@),
        counts_within(run_of(*final(state), *final(acc)).sessions, bound + 1),
        final(acc).cur_id == old(acc).cur_id,
        final(acc).credits == old(acc).credits,
        final(state).tabs == old(state).tabs,
        final(state).pending_origin == old(state).pending_origin,
        final(state).watermark == old(state).watermark,
{
    let ghost st = run_of(*state, *acc);
    let key = node_key(to_url, Granularity::Hostname);
    proof {
        lemma_vmap(state.open_sessions@, session_f(), window_id, vstd::pervasive::arbitrary());
        lemma_within_grows(st.sessions, bound, bound + 1);
    }
    match tab_index(&state.open_sessions, window_id) {
        None => {
            let s = OpenSession::open(id, window_id, ts, key);
            proof {
                lemma_vmap(state.open_sessions@, session_f(), window_id, s);
                lemma_put_within(st.sessions, window_id, session_of(s), bound + 1);
            }
            tab_put(&mut state.open_sessions, window_id, s);
        },
        Some(j) => {
            let last = state.open_sessions[j].1.last_ts;
            if (ts as i128) - (last as i128) > IDLE_GAP_MS as i128 {
                let rec = state.open_sessions[j].1.to_record();
                acc.emit_session(rec);
                let s = OpenSession::open(id, window_id, ts, key);
                proof {
                    lemma_vmap(state.open_sessions@, session_f(), window_id, s);
                    lemma_put_within(st.sessions, window_id, session_of(s), bound + 1);
                }
                tab_put(&mut state.open_sessions, window_id, s);
            } else {
                let ghost old_list = state.open_sessions@;
                let (w, mut s) = state.open_sessions.remove(j);
                proof {
                    assert(old_list[j as int] == (w, s));
                    assert(st.sessions[j as int] == (w, session_of(s)));
                    assert(session_within(st.sessions[j as int].1, bound));
                    assert forall|q: int| 0 <= q < s.host_counts@.len() implies #[trigger] s.host_counts@[q].1 < u32::MAX by {
                        assert(counts_of(s.host_counts@)[q] == (s.host_counts@[q].0@, s.host_counts@[q].1));
                        assert(session_of(s).host_counts[q].1 <= session_of(s).nav_count);
                    }
                }
                let ghost s0 = session_of(s);
                s.last_ts = ts;
                s.nav_count = s.nav_count + 1;
                s.end_id = id;
                match key {
                    Some(k) => {
                        s.bump_host(k);
                    },
                    None => {},
                }
                let ghost grown = session_of(s);
                state.open_sessions.insert(j, (w, s));
                proof {
                    assert(state.open_sessions@ =~= old_list.update(j as int, (window_id, s)));
                    assert(a_put(old_list, window_id, s) == old_list.update(j as int, (window_id, s)));
                    lemma_vmap(old_list, session_f(), window_id, s);
                    assert(grown.nav_count == s0.nav_count + 1);
                    assert forall|q: int| 0 <= q < grown.host_counts.len() implies #[trigger] grown.host_counts[q].1 <= grown.nav_count by {
                        let hv = s0.host_counts;
                        match spec_node_key(to_url@, Granularity::Hostname) {
                            Some(kk) => {
                                if a_index(hv, kk) is Some {
                                    lemma_index_valid(hv, kk);
                                }
                            },
                            None => {},
                        }
                    }
                    lemma_put_within(st.sessions, window_id, grown, bound + 1);
                }
            }
        },
    }
}


/// Return a tab taken out at `pos` (or new, for `None`) to the list.
fn put_back(tabs: &mut Vec<(i64, TabState)>, pos: Option<usize>, t: i64, tab: TabState, Ghost(list): Ghost<Seq<(i64, TabState)>>)
    requires
        match pos {
            Some(j) => j < list.len() && a_index(list, t) == Some(j as int) && old(tabs)@ == list.remove(j as int),
            None => a_index(list, t) is None && old(tabs)@ == list,
        },
    ensures
        final(tabs)@ == a_put(list, t, tab),
{
    match pos {
        Some(j) => {
            tabs.insert(j, (t, tab));
            assert(tabs@ =~= list.update(j as int, (t, tab)));
        },
        None => {
            tabs.push((t, tab));
        },
    }
}

/// A navigation (see [`nav_v`]), crediting as the accumulator's current id.
fn on_nav(
    state: &mut DeriveState,
    acc: &mut Acc,
    id: i64,
    ts: i64,
    tab_id: i64,
    window_id: i64,
    to_url: &str,
    transition_type: &str,
    qualifiers: &Vec<String>,
    Ghost(bound): Ghost<int>,
)
    requires
        counts_within(run_of(*old(state), *old(acc)).sessions, bound),
        0 <= bound < u32::MAX,
    ensures
        run_of(*final(state), *final(acc)) == nav_v(
            run_of(*old(state), *old(acc)),
            id,
            ts,
            tab_id,
            window_id,
            to_url@,
            transition_type@,
            qualifiers@,
            old(acc).cur_id,
        ),
        counts_within(run_of(*final(state), *final(acc)).sessions, bound + 1),
        final(acc).cur_id == old(acc).cur_id,
{
    let ghost st0 = run_of(*state, *acc);
    update_session(state, acc, id, ts, window_id, to_url, Ghost(bound));
    let prov = classify(transition_type);
    if prov.is_ignored() {
        return;
    }
    let redirect = has_qualifier(qualifiers, "client_redirect");
    let fb = has_qualifier(qualifiers, "forward_back");
    let ghost st1 = run_of(*state, *acc);
    let ghost list = state.tabs@;
    proof {
        lemma_vmap(list, tab_f(), tab_id, vstd::pervasive::arbitrary());
    }
    let pos = tab_index(&state.tabs, tab_id);
    let mut tab: TabState = match pos {
        Some(j) => state.tabs.remove(j).1,
        None => TabState::default(),
    };
    let ghost tab0 = tab_of(tab);
    proof {
        match pos {
            Some(j) => {
                assert(tab0 == a_get(st1.tabs, tab_id)->0);
            },
            None => {
                assert(tab0 == fresh_tab());
            },
        }
    }
    let cont = match &tab.buffer {
        Some(b) => redirect && (ts as i128) - (b.ts as i128) < REDIRECT_WINDOW_MS as i128,
        None => false,
    };
    if cont {
        let old_buf = tab.buffer;
        match old_buf {
            Some(b) => {
                tab.buffer = Some(Buffered { origin_url: b.origin_url, origin_prov: b.origin_prov, to_url: to_url.to_owned(), prov, ts });
            },
            None => {
                tab.buffer = None;
            },
        }
        proof {
            lemma_vmap(list, tab_f(), tab_id, tab);
        }
        put_back(&mut state.tabs, pos, tab_id, tab, Ghost(list));
        return;
    }
    let held = tab.buffer;
    tab.buffer = None;
    match held {
        Some(b) => {
            tab.last_url = Some(b.to_url.clone());
            tab.last_prov = b.prov;
            finalize(acc, &b, ts);
        },
        None => {},
    }
    let ghost tab1 = tab_of(tab);
    proof {
        lemma_vmap(list, tab_f(), tab_id, tab);
    }
    if fb {
        tab.last_url = Some(to_url.to_owned());
        tab.last_prov = prov;
        proof {
            lemma_vmap(list, tab_f(), tab_id, tab);
            lemma_put_put(st1.tabs, tab_id, tab1, tab_of(tab));
        }
        put_back(&mut state.tabs, pos, tab_id, tab, Ghost(list));
        return;
    }
    proof {
        lemma_vmap(state.pending_origin@, pend_f(), tab_id, vstd::pervasive::arbitrary());
    }
    let origin = match tab_take(&mut state.pending_origin, tab_id) {
        Some(po) => (po.url, po.prov),
        None => (copy_opt(&tab.last_url), tab.last_prov),
    };
    tab.buffer = Some(Buffered { origin_url: origin.0, origin_prov: origin.1, to_url: to_url.to_owned(), prov, ts });
    proof {
        lemma_vmap(list, tab_f(), tab_id, tab);
        lemma_put_put(st1.tabs, tab_id, tab1, tab_of(tab));
    }
    put_back(&mut state.tabs, pos, tab_id, tab, Ghost(list));
}


/// A browser start (see [`start_v`]), crediting as the accumulator's
/// current id.
fn on_start(state: &mut DeriveState, acc: &mut Acc, ts: i64)
    ensures
        run_of(*final(state), *final(acc)) == start_v(run_of(*old(state), *old(acc)), ts, old(acc).cur_id),
        final(acc).cur_id == old(acc).cur_id,
        final(state).open_sessions@.len() == 0,
{
    let ghost cid = acc.cur_id;
    let ghost st0 = run_of(*state, *acc);
    while state.tabs.len() > 0
        invariant
            acc.cur_id == cid,
            state.watermark == old(state).watermark,
            flush_tabs(run_of(*state, *acc), Some(ts), cid) == flush_tabs(st0, Some(ts), cid),
        decreases state.tabs.len(),
    {
        let ghost st = run_of(*state, *acc);
        let t = min_tab(&state.tabs);
        proof {
            lemma_min_key(st.tabs);
            let m = min_key(st.tabs);
            let i = choose|i: int| 0 <= i < st.tabs.len() && st.tabs[i].0 == m;
            let k = choose|k: int| 0 <= k < state.tabs@.len() && state.tabs@[k].0 == t;
            assert(st.tabs[k].0 == t);
            assert(state.tabs@[i].0 == m);
            assert(t == m);
            lemma_present(st.tabs, t, i);
            lemma_vmap(state.tabs@, tab_f(), t, vstd::pervasive::arbitrary());
        }
        let gone = tab_take(&mut state.tabs, t);
        match gone {
            Some(tb) => match &tb.buffer {
                Some(b) => {
                    finalize(acc, b, ts);
                },
                None => {},
            },
            None => {},
        }
    }
    proof {
        assert(run_of(*state, *acc).tabs.len() == 0);
    }
    state.pending_origin = Vec::new();
    let ghost mid = run_of(*state, *acc);
    proof {
        assert(mid.pending =~= Seq::<(i64, (Option<Seq<char>>, Provenance))>::empty());
        assert(mid == DeriveV { pending: Seq::empty(), ..flush_tabs(st0, Some(ts), cid) });
    }
    while state.open_sessions.len() > 0
        invariant
            acc.cur_id == cid,
            close_sessions(run_of(*state, *acc)) == close_sessions(mid),
        decreases state.open_sessions.len(),
    {
        let ghost st = run_of(*state, *acc);
        let w = min_tab(&state.open_sessions);
        proof {
            lemma_min_key(st.sessions);
            let m = min_key(st.sessions);
            let i = choose|i: int| 0 <= i < st.sessions.len() && st.sessions[i].0 == m;
            let k = choose|k: int| 0 <= k < state.open_sessions@.len() && state.open_sessions@[k].0 == w;
            assert(st.sessions[k].0 == w);
            assert(state.open_sessions@[i].0 == m);
            assert(w == m);
            lemma_present(st.sessions, w, i);
            lemma_vmap(state.open_sessions@, session_f(), w, vstd::pervasive::arbitrary());
        }
        let gone = tab_take(&mut state.open_sessions, w);
        match gone {
            Some(sess) => {
                let rec = sess.to_record();
                acc.emit_session(rec);
            },
            None => {},
        }
    }
    proof {
        assert(run_of(*state, *acc).sessions.len() == 0);
    }
}

fn step_within(state: &mut DeriveState, acc: &mut Acc, ev: &Event, Ghost(bound): Ghost<int>)
    requires
        counts_within(run_of(*old(state), *old(acc)).sessions, bound),
        0 <= bound < u32::MAX,
    ensures
        run_of(*final(state), *final(acc)) == step_v(run_of(*old(state), *old(acc)), *ev, old(acc).cur_id),
        counts_within(run_of(*final(state), *final(acc)).sessions, bound + 1),
        final(acc).cur_id == old(acc).cur_id,
{
    proof {
        lemma_within_grows(run_of(*state, *acc).sessions, bound, bound + 1);
    }
    match ev {
        Event::Start { ts, .. } => {
            on_start(state, acc, *ts);
        },
        Event::Close { ts, tab_id, .. } => {
            on_close(state, acc, *tab_id, *ts);
        },
        Event::Link { new_tab_id, source_tab_id, .. } => {
            on_link(state, *new_tab_id, *source_tab_id);
        },
        Event::Nav { id, ts, tab_id, window_id, to_url, transition_type, qualifiers } => {
            on_nav(
                state,
                acc,
                *id,
                *ts,
                *tab_id,
                *window_id,
                to_url.as_str(),
                transition_type.as_str(),
                qualifiers,
                Ghost(bound),
            );
        },
        _ => {},
    }
}

/// Dispatch one event in global order (see [`step_v`]), crediting as the
/// accumulator's current id.
pub fn step(state: &mut DeriveState, acc: &mut Acc, ev: &Event)
    requires
        counts_within(run_of(*old(state), *old(acc)).sessions, u32::MAX - 1),
    ensures
        run_of(*final(state), *final(acc)) == step_v(run_of(*old(state), *old(acc)), *ev, old(acc).cur_id),
        counts_within(run_of(*final(state), *final(acc)).sessions, u32::MAX as int),
        final(acc).cur_id == old(acc).cur_id,
{
    step_within(state, acc, ev, Ghost((u32::MAX - 1) as int));
}


/// The statistics one visit contributes.
pub open spec fn unit_node(prov: Provenance, dwell_ms: u64) -> NodeStat {
    NodeStat { visits: 1, prov: prov_plus(zero_prov(), prov), dwell_ms }
}

/// The statistics one traversal contributes.
pub open spec fn unit_edge(kind: EdgeKind) -> EdgeStat {
    EdgeStat { weight: 1, kinds: kind_plus(zero_kind(), kind) }
}

/// The day a credit falls on.
pub open spec fn credit_date(c: CreditV) -> Seq<char> {
    match c {
        CreditV::Node { date, .. } => date,
        CreditV::Edge { date, .. } => date,
    }
}

/// The id of the event a credit was made for.
pub open spec fn credit_id(c: CreditV) -> i64 {
    match c {
        CreditV::Node { id, .. } => id,
        CreditV::Edge { id, .. } => id,
    }
}

/// The summed statistics of node `key` on `date` over the credits.
pub open spec fn node_total(cs: Seq<CreditV>, date: Seq<char>, key: Seq<char>) -> Option<NodeStat>
    decreases cs.len(),
{
    if cs.len() == 0 {
        None
    } else {
        let prev = node_total(cs.drop_last(), date, key);
        match cs.last() {
            CreditV::Node { date: d, key: k, prov, dwell_ms, .. } => if d == date && k == key {
                merged(prev, Some(unit_node(prov, dwell_ms)), |x: NodeStat, y: NodeStat| x.plus(y))
            } else {
                prev
            },
            _ => prev,
        }
    }
}

/// The summed statistics of the edge stored under `ekey` on `date`.
pub open spec fn edge_total(cs: Seq<CreditV>, date: Seq<char>, ekey: Seq<char>) -> Option<EdgeStat>
    decreases cs.len(),
{
    if cs.len() == 0 {
        None
    } else {
        let prev = edge_total(cs.drop_last(), date, ekey);
        match cs.last() {
            CreditV::Edge { date: d, from, to, kind, .. } => if d == date && from + seq!['\0'] + to == ekey {
                merged(prev, Some(unit_edge(kind)), |x: EdgeStat, y: EdgeStat| x.plus(y))
            } else {
                prev
            },
            _ => prev,
        }
    }
}

/// Whether some credit falls on `date`.
pub open spec fn has_date(cs: Seq<CreditV>, date: Seq<char>) -> bool {
    exists|i: int| 0 <= i < cs.len() && credit_date(cs[i]) == date
}

/// The largest event id among the credits on `date` (0 when none is larger).
pub open spec fn date_max_id(cs: Seq<CreditV>, date: Seq<char>) -> i64
    decreases cs.len(),
{
    if cs.len() == 0 {
        0
    } else {
        let p = date_max_id(cs.drop_last(), date);
        if credit_date(cs.last()) == date && credit_id(cs.last()) > p {
            credit_id(cs.last())
        } else {
            p
        }
    }
}

/// `bs` are the day buckets of the credits: one per day that has credits,
/// holding that day's largest event id and its summed node and edge
/// statistics.
pub open spec fn is_day_buckets(bs: Seq<DayBucket>, cs: Seq<CreditV>) -> bool {
    &&& forall|i: int, j: int| 0 <= i < j < bs.len() ==> (#[trigger] bs[i]).date@ != (#[trigger] bs[j]).date@
    &&& forall|i: int| 0 <= i < bs.len() ==> {
        let b = #[trigger] bs[i];
        &&& b.wf()
        &&& has_date(cs, b.date@)
        &&& b.max_id == date_max_id(cs, b.date@)
        &&& forall|k: Seq<char>| #[trigger] lookup(b.nodes@, k) == node_total(cs, b.date@, k)
        &&& forall|k: Seq<char>| #[trigger] lookup(b.edges@, k) == edge_total(cs, b.date@, k)
    }
    &&& forall|d: Seq<char>| has_date(cs, d) ==> exists|i: int| 0 <= i < bs.len() && (#[trigger] bs[i]).date@ == d
}

/// Every node credit's dwell is within the idle gap.
pub open spec fn dwells_capped(cs: Seq<CreditV>) -> bool {
    forall|i: int| 0 <= i < cs.len() ==> match #[trigger] cs[i] {
        CreditV::Node { dwell_ms, .. } => dwell_ms <= IDLE_GAP_MS,
        _ => true,
    }
}

proof fn lemma_prov_sum_count(x: ProvBreakdown, y: ProvBreakdown, p: Provenance)
    requires
        x.count(p) + y.count(p) <= u32::MAX,
    ensures
        x.sum(y).count(p) == x.count(p) + y.count(p),
{
}

proof fn lemma_kind_sum_count(x: KindBreakdown, y: KindBreakdown, k: EdgeKind)
    requires
        x.count(k) + y.count(k) <= u32::MAX,
    ensures
        x.sum(y).count(k) == x.count(k) + y.count(k),
{
}

proof fn lemma_node_total_bound(cs: Seq<CreditV>, date: Seq<char>, key: Seq<char>)
    requires
        dwells_capped(cs),
        cs.len() <= u32::MAX,
    ensures
        match node_total(cs, date, key) {
            Some(x) => 1 <= x.visits <= cs.len() && x.dwell_ms <= cs.len() * IDLE_GAP_MS && forall|p: Provenance|
                #[trigger] x.prov.count(p) <= x.visits,
            None => true,
        },
    decreases cs.len(),
{
    if cs.len() > 0 {
        let n = cs.len() - 1;
        assert(dwells_capped(cs.drop_last())) by {
            assert forall|i: int| 0 <= i < cs.drop_last().len() implies match #[trigger] cs.drop_last()[i] {
                CreditV::Node { dwell_ms, .. } => dwell_ms <= IDLE_GAP_MS,
                _ => true,
            } by {
                assert(cs.drop_last()[i] == cs[i]);
            }
        }
        lemma_node_total_bound(cs.drop_last(), date, key);
        assert(match cs[n] {
            CreditV::Node { dwell_ms, .. } => dwell_ms <= IDLE_GAP_MS,
            _ => true,
        });
        assert(n * IDLE_GAP_MS + IDLE_GAP_MS == cs.len() * IDLE_GAP_MS) by (nonlinear_arith)
            requires
                n == cs.len() - 1;
        assert(cs.len() * IDLE_GAP_MS <= u32::MAX * IDLE_GAP_MS) by (nonlinear_arith)
            requires
                cs.len() <= u32::MAX;
        let prev = node_total(cs.drop_last(), date, key);
        match cs.last() {
            CreditV::Node { date: d, key: k, prov, dwell_ms, .. } => {
                if d == date && k == key {
                    let u = unit_node(prov, dwell_ms);
                    match prev {
                        Some(x) => {
                            let r = x.plus(u);
                            assert forall|p: Provenance| #[trigger] r.prov.count(p) <= r.visits by {
                                assert(u.prov.count(p) <= 1);
                                assert(x.prov.count(p) <= x.visits);
                                lemma_prov_sum_count(x.prov, u.prov, p);
                            }
                        },
                        None => {
                            assert forall|p: Provenance| #[trigger] u.prov.count(p) <= u.visits by {
                                assert(u.prov.count(p) <= 1);
                            }
                        },
                    }
                }
            },
            _ => {},
        }
    }
}

proof fn lemma_edge_total_bound(cs: Seq<CreditV>, date: Seq<char>, ekey: Seq<char>)
    requires
        cs.len() <= u32::MAX,
    ensures
        match edge_total(cs, date, ekey) {
            Some(x) => 1 <= x.weight <= cs.len() && forall|k: EdgeKind| #[trigger] x.kinds.count(k) <= x.weight,
            None => true,
        },
    decreases cs.len(),
{
    if cs.len() > 0 {
        lemma_edge_total_bound(cs.drop_last(), date, ekey);
        let prev = edge_total(cs.drop_last(), date, ekey);
        match cs.last() {
            CreditV::Edge { date: d, from, to, kind, .. } => {
                if d == date && from + seq!['\0'] + to == ekey {
                    let u = unit_edge(kind);
                    match prev {
                        Some(x) => {
                            let r = x.plus(u);
                            assert forall|q: EdgeKind| #[trigger] r.kinds.count(q) <= r.weight by {
                                assert(u.kinds.count(q) <= 1);
                                assert(x.kinds.count(q) <= x.weight);
                                lemma_kind_sum_count(x.kinds, u.kinds, q);
                            }
                        },
                        None => {
                            assert forall|q: EdgeKind| #[trigger] u.kinds.count(q) <= u.weight by {
                                assert(u.kinds.count(q) <= 1);
                            }
                        },
                    }
                }
            },
            _ => {},
        }
    }
}

fn unit_node_of(prov: Provenance, dwell_ms: u64) -> (r: NodeStat)
    ensures
        r == unit_node(prov, dwell_ms),
{
    let mut b = ProvBreakdown::default();
    b.add(prov);
    proof {
        let z = prov_plus(zero_prov(), prov);
        assert(b.count(Provenance::Link) == z.count(Provenance::Link));
        assert(b.count(Provenance::Form) == z.count(Provenance::Form));
        assert(b.count(Provenance::TypedUrl) == z.count(Provenance::TypedUrl));
        assert(b.count(Provenance::SearchOrigin) == z.count(Provenance::SearchOrigin));
        assert(b.count(Provenance::Bookmark) == z.count(Provenance::Bookmark));
        assert(b.count(Provenance::Start) == z.count(Provenance::Start));
        assert(b.count(Provenance::Reload) == z.count(Provenance::Reload));
        assert(b.count(Provenance::Other) == z.count(Provenance::Other));
    }
    NodeStat { visits: 1, prov: b, dwell_ms }
}

fn unit_edge_of(kind: EdgeKind) -> (r: EdgeStat)
    ensures
        r == unit_edge(kind),
{
    let mut b = KindBreakdown::default();
    b.add(kind);
    proof {
        let z = kind_plus(zero_kind(), kind);
        assert(b.count(EdgeKind::Link) == z.count(EdgeKind::Link));
        assert(b.count(EdgeKind::SearchLink) == z.count(EdgeKind::SearchLink));
        assert(b.count(EdgeKind::Form) == z.count(EdgeKind::Form));
    }
    EdgeStat { weight: 1, kinds: b }
}

/// The position of the bucket for `date`, if any.
fn bucket_index(bs: &Vec<DayBucket>, date: &str) -> (r: Option<usize>)
    ensures
        match r {
            Some(j) => j < bs@.len() && bs@[j as int].date@ == date@,
            None => forall|i: int| 0 <= i < bs@.len() ==> (#[trigger] bs@[i]).date@ != date@,
        },
{
    let mut j: usize = 0;
    while j < bs.len()
        invariant
            j <= bs@.len(),
            forall|i: int| 0 <= i < j ==> (#[trigger] bs@[i]).date@ != date@,
        decreases bs.len() - j,
    {
        if str_eq(bs[j].date.as_str(), date) {
            return Some(j);
        }
        j += 1;
    }
    None
}


proof fn lemma_no_date(cs: Seq<CreditV>, d: Seq<char>)
    requires
        !has_date(cs, d),
    ensures
        date_max_id(cs, d) == 0,
        forall|k: Seq<char>| #[trigger] node_total(cs, d, k) is None,
        forall|k: Seq<char>| #[trigger] edge_total(cs, d, k) is None,
    decreases cs.len(),
{
    if cs.len() > 0 {
        assert(!has_date(cs.drop_last(), d)) by {
            if has_date(cs.drop_last(), d) {
                let i = choose|i: int| 0 <= i < cs.drop_last().len() && credit_date(cs.drop_last()[i]) == d;
                assert(cs[i] == cs.drop_last()[i]);
            }
        }
        lemma_no_date(cs.drop_last(), d);
        assert(credit_date(cs[cs.len() - 1]) != d);
        assert forall|k: Seq<char>| #[trigger] node_total(cs, d, k) is None by {
            assert(node_total(cs.drop_last(), d, k) is None);
        }
        assert forall|k: Seq<char>| #[trigger] edge_total(cs, d, k) is None by {
            assert(edge_total(cs.drop_last(), d, k) is None);
        }
    }
}

/// One credit folded into the day buckets: the bucket of its day (updated
/// in place at `pos`, or added) is `nb`; the others keep their values.
proof fn lemma_bucket_step(bs: Seq<DayBucket>, cs: Seq<CreditV>, i: int, pos: Option<int>, nb: DayBucket, out: Seq<DayBucket>)
    requires
        0 <= i < cs.len(),
        is_day_buckets(bs, cs.take(i)),
        nb.wf(),
        nb.date@ == credit_date(cs[i]),
        nb.max_id == date_max_id(cs.take(i + 1), nb.date@),
        forall|k: Seq<char>| #[trigger] lookup(nb.nodes@, k) == node_total(cs.take(i + 1), nb.date@, k),
        forall|k: Seq<char>| #[trigger] lookup(nb.edges@, k) == edge_total(cs.take(i + 1), nb.date@, k),
        match pos {
            Some(j) => 0 <= j < bs.len() && bs[j].date@ == nb.date@ && out == bs.update(j, nb),
            None => (forall|a: int| 0 <= a < bs.len() ==> (#[trigger] bs[a]).date@ != nb.date@) && out == bs.push(nb),
        },
    ensures
        is_day_buckets(out, cs.take(i + 1)),
{
    let pre = cs.take(i);
    let cur = cs.take(i + 1);
    assert(cur.drop_last() =~= pre);
    assert(cur.last() == cs[i]);
    let d = nb.date@;
    assert(has_date(cur, d)) by {
        assert(credit_date(cur[i]) == d);
    }
    assert forall|a: int| 0 <= a < out.len() && out[a].date@ != d implies {
        let b = #[trigger] out[a];
        &&& b.wf()
        &&& has_date(cur, b.date@)
        &&& b.max_id == date_max_id(cur, b.date@)
        &&& forall|k: Seq<char>| #[trigger] lookup(b.nodes@, k) == node_total(cur, b.date@, k)
        &&& forall|k: Seq<char>| #[trigger] lookup(b.edges@, k) == edge_total(cur, b.date@, k)
    } by {
        let b = out[a];
        assert(a < bs.len());
        assert(b == bs[a]);
        let w = choose|w: int| 0 <= w < pre.len() && credit_date(pre[w]) == b.date@;
        assert(cur[w] == pre[w]);
        assert forall|k: Seq<char>| #[trigger] lookup(b.nodes@, k) == node_total(cur, b.date@, k) by {
            assert(lookup(b.nodes@, k) == node_total(pre, b.date@, k));
        }
        assert forall|k: Seq<char>| #[trigger] lookup(b.edges@, k) == edge_total(cur, b.date@, k) by {
            assert(lookup(b.edges@, k) == edge_total(pre, b.date@, k));
        }
    }
    assert forall|a: int| 0 <= a < out.len() implies {
        let b = #[trigger] out[a];
        &&& b.wf()
        &&& has_date(cur, b.date@)
        &&& b.max_id == date_max_id(cur, b.date@)
        &&& forall|k: Seq<char>| #[trigger] lookup(b.nodes@, k) == node_total(cur, b.date@, k)
        &&& forall|k: Seq<char>| #[trigger] lookup(b.edges@, k) == edge_total(cur, b.date@, k)
    } by {
        if out[a].date@ == d {
            match pos {
                Some(j) => {
                    if a != j {
                        assert(out[a] == bs[a]);
                        assert(bs[a].date@ != bs[j].date@);
                    }
                },
                None => {
                    if a < bs.len() {
                        assert(out[a] == bs[a]);
                    }
                },
            }
            assert(out[a] == nb);
        }
    }
    assert forall|x: int, y: int| 0 <= x < y < out.len() implies (#[trigger] out[x]).date@ != (#[trigger] out[y]).date@ by {
        match pos {
            Some(j) => {
                if x != j {
                    assert(out[x] == bs[x]);
                }
                if y != j {
                    assert(out[y] == bs[y]);
                }
                if x == j {
                    assert(bs[j].date@ != bs[y].date@);
                }
                if y == j {
                    assert(bs[x].date@ != bs[j].date@);
                }
            },
            None => {
                assert(out[x] == bs[x]);
                if y < bs.len() {
                    assert(out[y] == bs[y]);
                }
            },
        }
    }
    assert forall|e: Seq<char>| has_date(cur, e) implies exists|a: int| 0 <= a < out.len() && (#[trigger] out[a]).date@ == e by {
        if e == d {
            match pos {
                Some(j) => {
                    assert(out[j].date@ == e);
                },
                None => {
                    assert(out[bs.len() as int].date@ == e);
                },
            }
        } else {
            let w = choose|w: int| 0 <= w < cur.len() && credit_date(cur[w]) == e;
            assert(w < i);
            assert(pre[w] == cur[w]);
            assert(has_date(pre, e));
            let a = choose|a: int| 0 <= a < bs.len() && (#[trigger] bs[a]).date@ == e;
            match pos {
                Some(j) => {
                    assert(a != j);
                    assert(out[a] == bs[a]);
                },
                None => {
                    assert(out[a] == bs[a]);
                },
            }
        }
    }
}

impl Acc {
    /// The UTC-day bucket deltas of the credits (see [`is_day_buckets`]).
    pub fn buckets(&self) -> (r: Vec<DayBucket>)
        requires
            self.credits@.len() <= u32::MAX,
            dwells_capped(credits_of(*self)),
        ensures
            is_day_buckets(r@, credits_of(*self)),
    {
        let ghost cs = credits_of(*self);
        let mut out: Vec<DayBucket> = Vec::new();
        let mut i: usize = 0;
        proof {
            assert(cs.take(0) =~= Seq::<CreditV>::empty());
        }
        while i < self.credits.len()
            invariant
                i <= self.credits@.len(),
                self.credits@.len() <= u32::MAX,
                cs == credits_of(*self),
                dwells_capped(cs),
                is_day_buckets(out@, cs.take(i as int)),
            decreases self.credits.len() - i,
        {
            let ghost pre = cs.take(i as int);
            let ghost cur = cs.take(i + 1);
            let ghost bs = out@;
            proof {
                assert(cur.drop_last() =~= pre);
                assert(cur.last() == cs[i as int]);
                assert(dwells_capped(pre)) by {
                    assert forall|x: int| 0 <= x < pre.len() implies match #[trigger] pre[x] {
                        CreditV::Node { dwell_ms, .. } => dwell_ms <= IDLE_GAP_MS,
                        _ => true,
                    } by {
                        assert(pre[x] == cs[x]);
                    }
                }
            }
            let c = &self.credits[i];
            let (date, id) = match c {
                Credit::Node { date, id, .. } => (date, *id),
                Credit::Edge { date, id, .. } => (date, *id),
            };
            let pos = bucket_index(&out, date.as_str());
            let mut b = match pos {
                Some(j) => out.remove(j),
                None => DayBucket::new(date.as_str()),
            };
            proof {
                match pos {
                    Some(j) => {
                        assert(b == bs[j as int]);
                    },
                    None => {
                        if has_date(pre, date@) {
                            let a = choose|a: int| 0 <= a < bs.len() && (#[trigger] bs[a]).date@ == date@;
                        }
                        lemma_no_date(pre, date@);
                        assert forall|k: Seq<char>| #[trigger] lookup(b.nodes@, k) == node_total(pre, date@, k) by {
                            assert(node_total(pre, date@, k) is None);
                        }
                        assert forall|k: Seq<char>| #[trigger] lookup(b.edges@, k) == edge_total(pre, date@, k) by {
                            assert(edge_total(pre, date@, k) is None);
                        }
                    },
                }
            }
            if id > b.max_id {
                b.max_id = id;
            }
            let ghost b1 = b;
            match c {
                Credit::Node { key, prov, dwell_ms, .. } => {
                    let u = unit_node_of(*prov, *dwell_ms);
                    let cur_stat = b.node(key.as_str());
                    let next = match cur_stat {
                        Some(x) => {
                            proof {
                                lemma_node_total_bound(pre, date@, key@);
                                assert(*dwell_ms <= IDLE_GAP_MS);
                                assert(pre.len() * IDLE_GAP_MS + IDLE_GAP_MS <= u64::MAX) by (nonlinear_arith)
                                    requires
                                        pre.len() < u32::MAX;
                                assert forall|p: Provenance| x.prov.count(p) + u.prov.count(p) <= u32::MAX by {
                                    assert(x.prov.count(p) <= x.visits);
                                    assert(u.prov.count(p) <= 1);
                                }
                            }
                            let mut y = x;
                            add_node_stat(&mut y, &u);
                            y
                        },
                        None => u,
                    };
                    b.insert_node(key.as_str(), next);
                    proof {
                        assert forall|k: Seq<char>| #[trigger] lookup(b.edges@, k) == edge_total(cur, date@, k) by {
                            assert(lookup(b1.edges@, k) == edge_total(pre, date@, k));
                        }
                        assert forall|k: Seq<char>| #[trigger] lookup(b.nodes@, k) == node_total(cur, date@, k) by {
                            if k != key@ {
                                assert(lookup(b1.nodes@, k) == node_total(pre, date@, k));
                            }
                        }
                    }
                },
                Credit::Edge { from, to, kind, .. } => {
                    let ek = edge_key(from.as_str(), to.as_str());
                    let u = unit_edge_of(*kind);
                    let cur_stat = b.edge(ek.as_str());
                    let next = match cur_stat {
                        Some(x) => {
                            proof {
                                lemma_edge_total_bound(pre, date@, ek@);
                                assert forall|q: EdgeKind| x.kinds.count(q) + u.kinds.count(q) <= u32::MAX by {
                                    assert(x.kinds.count(q) <= x.weight);
                                    assert(u.kinds.count(q) <= 1);
                                }
                            }
                            let mut y = x;
                            add_edge_stat(&mut y, &u);
                            y
                        },
                        None => u,
                    };
                    b.insert_edge(ek.as_str(), next);
                    proof {
                        assert forall|k: Seq<char>| #[trigger] lookup(b.nodes@, k) == node_total(cur, date@, k) by {
                            assert(lookup(b1.nodes@, k) == node_total(pre, date@, k));
                        }
                        assert forall|k: Seq<char>| #[trigger] lookup(b.edges@, k) == edge_total(cur, date@, k) by {
                            if k != ek@ {
                                assert(lookup(b1.edges@, k) == edge_total(pre, date@, k));
                            }
                        }
                    }
                },
            }
            let ghost nb = b;
            match pos {
                Some(j) => {
                    out.insert(j, b);
                    proof {
                        assert(out@ =~= bs.update(j as int, nb));
                        lemma_bucket_step(bs, cs, i as int, Some(j as int), nb, out@);
                    }
                },
                None => {
                    out.push(b);
                    proof {
                        lemma_bucket_step(bs, cs, i as int, None, nb, out@);
                    }
                },
            }
            i += 1;
        }
        proof {
            assert(cs.take(i as int) =~= cs);
        }
        out
    }
}


/// How much room the pass has used: its credits plus two per tab entry.
pub open spec fn load_of(st: DeriveV) -> int {
    (st.credits.len() + 2 * st.tabs.len()) as int
}

proof fn lemma_finalize_load(c: Seq<CreditV>, b: HeldV, depart: i64, id: i64)
    requires
        dwells_capped(c),
    ensures
        finalize_credits(c, b, depart, id).len() <= c.len() + 2,
        dwells_capped(finalize_credits(c, b, depart, id)),
{
    let r = finalize_credits(c, b, depart, id);
    assert forall|i: int| 0 <= i < r.len() implies match #[trigger] r[i] {
        CreditV::Node { dwell_ms, .. } => dwell_ms <= IDLE_GAP_MS,
        _ => true,
    } by {
        if i < c.len() {
            assert(r[i] == c[i]);
        }
    }
}

proof fn lemma_del_len<K, V>(s: Seq<(K, V)>, k: K)
    ensures
        a_del(s, k).len() <= s.len(),
        a_get(s, k) is Some ==> a_del(s, k).len() == s.len() - 1,
{
    if a_index(s, k) is Some {
        lemma_index_valid(s, k);
    }
}

proof fn lemma_flush_load(st: DeriveV, depart: Option<i64>, id: i64)
    requires
        dwells_capped(st.credits),
    ensures
        load_of(flush_tabs(st, depart, id)) <= load_of(st),
        dwells_capped(flush_tabs(st, depart, id).credits),
        flush_tabs(st, depart, id).tabs.len() == 0,
    decreases st.tabs.len(),
{
    if st.tabs.len() > 0 {
        let t = min_key(st.tabs);
        lemma_min_key(st.tabs);
        let i = choose|i: int| 0 <= i < st.tabs.len() && st.tabs[i].0 == t;
        lemma_present(st.tabs, t, i);
        lemma_del_len(st.tabs, t);
        let tab = a_get(st.tabs, t)->0;
        let rest = DeriveV { tabs: a_del(st.tabs, t), ..st };
        match tab.buffer {
            Some(b) => {
                let dep = if depart is Some { depart->0 } else { b.ts };
                lemma_finalize_load(rest.credits, b, dep, id);
                lemma_flush_load(finalize_v(rest, b, dep, id), depart, id);
            },
            None => {
                lemma_flush_load(rest, depart, id);
            },
        }
    }
}

proof fn lemma_close_sessions_keeps(st: DeriveV)
    ensures
        close_sessions(st).credits == st.credits,
        close_sessions(st).tabs == st.tabs,
        close_sessions(st).sessions.len() == 0,
    decreases st.sessions.len(),
{
    if st.sessions.len() > 0 {
        let w = min_key(st.sessions);
        lemma_min_key(st.sessions);
        let i = choose|i: int| 0 <= i < st.sessions.len() && st.sessions[i].0 == w;
        lemma_present(st.sessions, w, i);
        let s = a_get(st.sessions, w)->0;
        lemma_close_sessions_keeps(DeriveV { sessions: a_del(st.sessions, w), records: st.records.push(rec_of(s)), ..st });
    }
}

proof fn lemma_step_load(st: DeriveV, ev: Event, id: i64)
    requires
        dwells_capped(st.credits),
    ensures
        load_of(step_v(st, ev, id)) <= load_of(st) + 4,
        dwells_capped(step_v(st, ev, id).credits),
{
    match ev {
        Event::Start { ts, .. } => {
            lemma_flush_load(st, Some(ts), id);
            lemma_close_sessions_keeps(DeriveV { pending: Seq::empty(), ..flush_tabs(st, Some(ts), id) });
        },
        Event::Close { ts, tab_id, .. } => {
            lemma_del_len(st.tabs, tab_id);
            match a_get(st.tabs, tab_id) {
                Some(tab) => match tab.buffer {
                    Some(b) => {
                        lemma_finalize_load(st.credits, b, ts, id);
                    },
                    None => {},
                },
                None => {},
            }
        },
        Event::Link { new_tab_id, .. } => {
            lemma_put_len(st.tabs, new_tab_id);
            assert(a_put(st.tabs, new_tab_id, fresh_tab()).len() <= st.tabs.len() + 1);
        },
        Event::Nav { id: nid, ts, tab_id, window_id, to_url, transition_type, qualifiers } => {
            let st1 = session_v(st, nid, ts, window_id, to_url@);
            assert(st1.credits == st.credits && st1.tabs == st.tabs);
            lemma_put_len(st1.tabs, tab_id);
            let tab0 = match a_get(st1.tabs, tab_id) {
                Some(t) => t,
                None => fresh_tab(),
            };
            match tab0.buffer {
                Some(b) => {
                    let tab1 = TabV { last_url: Some(b.to_url), last_prov: b.prov, buffer: None };
                    lemma_finalize_load(st.credits, b, ts, id);
                    let h = TabV { last_url: Some(to_url@), last_prov: spec_classify(transition_type@), ..tab1 };
                    lemma_put_put(st1.tabs, tab_id, tab1, h);
                    let pend = match a_get(st1.pending, tab_id) {
                        Some(po) => po,
                        None => (tab1.last_url, tab1.last_prov),
                    };
                    let held = HeldV {
                        origin_url: pend.0,
                        origin_prov: pend.1,
                        to_url: to_url@,
                        prov: spec_classify(transition_type@),
                        ts,
                    };
                    lemma_put_put(st1.tabs, tab_id, tab1, TabV { buffer: Some(held), ..tab1 });
                    assert(a_put(st1.tabs, tab_id, h).len() <= st1.tabs.len() + 1);
                    assert(a_put(st1.tabs, tab_id, TabV { buffer: Some(held), ..tab1 }).len() <= st1.tabs.len() + 1);
                    assert(a_put(st1.tabs, tab_id, tab1).len() <= st1.tabs.len() + 1);
                    let cont = HeldV {
                        origin_url: b.origin_url,
                        origin_prov: b.origin_prov,
                        to_url: to_url@,
                        prov: spec_classify(transition_type@),
                        ts,
                    };
                    assert(a_put(st1.tabs, tab_id, TabV { buffer: Some(cont), ..tab0 }).len() <= st1.tabs.len() + 1);
                },
                None => {
                    let prov = spec_classify(transition_type@);
                    let h = TabV { last_url: Some(to_url@), last_prov: prov, ..tab0 };
                    let pend = match a_get(st1.pending, tab_id) {
                        Some(po) => po,
                        None => (tab0.last_url, tab0.last_prov),
                    };
                    let held = HeldV { origin_url: pend.0, origin_prov: pend.1, to_url: to_url@, prov, ts };
                    lemma_put_put(st1.tabs, tab_id, tab0, h);
                    lemma_put_put(st1.tabs, tab_id, tab0, TabV { buffer: Some(held), ..tab0 });
                    assert(a_put(st1.tabs, tab_id, h).len() <= st1.tabs.len() + 1);
                    assert(a_put(st1.tabs, tab_id, TabV { buffer: Some(held), ..tab0 }).len() <= st1.tabs.len() + 1);
                    assert(a_put(st1.tabs, tab_id, tab0).len() <= st1.tabs.len() + 1);
                },
            }
        },
        _ => {},
    }
}


/// The checkpoint a derivation state holds, with nothing emitted.
pub open spec fn checkpoint_of(state: DeriveState) -> DeriveV {
    DeriveV {
        watermark: state.watermark,
        tabs: vmap(state.tabs@, tab_f()),
        pending: vmap(state.pending_origin@, pend_f()),
        sessions: vmap(state.open_sessions@, session_f()),
        credits: Seq::empty(),
        records: Seq::empty(),
    }
}

/// Process `new_events` (in ascending id order) from the checkpoint into
/// UTC-day bucket deltas and closed session records, advancing the
/// checkpoint in place (see [`fold_v`]).
pub fn fold(state: &mut DeriveState, new_events: &[Event]) -> (r: (Vec<DayBucket>, Vec<SessionRec>))
    requires
        counts_within(checkpoint_of(*old(state)).sessions, u32::MAX - new_events@.len()),
        2 * old(state).tabs@.len() + 4 * new_events@.len() <= u32::MAX,
    ensures
        checkpoint_of(*final(state)) == checkpoint(fold_v(checkpoint_of(*old(state)), new_events@)),
        r.1@.map_values(|x: SessionRec| record_of(x)) == fold_v(checkpoint_of(*old(state)), new_events@).records,
        is_day_buckets(r.0@, fold_v(checkpoint_of(*old(state)), new_events@).credits),
{
    let ghost st0 = checkpoint_of(*state);
    let ghost n = new_events@.len();
    let ghost tabs0 = state.tabs@.len();
    let mut acc = Acc::default();
    proof {
        assert(credits_of(acc) =~= Seq::<CreditV>::empty());
        assert(records_of(acc) =~= Seq::<RecV>::empty());
        assert(run_of(*state, acc) == st0);
        assert(new_events@.take(0) =~= Seq::<Event>::empty());
    }
    let mut i: usize = 0;
    while i < new_events.len()
        invariant
            i <= new_events@.len(),
            n == new_events@.len(),
            2 * tabs0 + 4 * n <= u32::MAX,
            run_of(*state, acc) == fold_v(st0, new_events@.take(i as int)),
            counts_within(run_of(*state, acc).sessions, u32::MAX - n + i),
            load_of(run_of(*state, acc)) <= 2 * tabs0 + 4 * i,
            dwells_capped(run_of(*state, acc).credits),
        decreases new_events.len() - i,
    {
        let ev = &new_events[i];
        let ghost prev = run_of(*state, acc);
        proof {
            assert(new_events@.take(i + 1).drop_last() =~= new_events@.take(i as int));
            assert(new_events@.take(i + 1).last() == new_events@[i as int]);
        }
        match ev.id() {
            Some(id) => {
                acc.cur_id = id;
                proof {
                    assert(run_of(*state, acc) == prev);
                    lemma_step_load(prev, *ev, id);
                }
                step_within(state, &mut acc, ev, Ghost((u32::MAX - n + i) as int));
                state.watermark = id;
            },
            None => {
                proof {
                    lemma_within_grows(prev.sessions, u32::MAX - n + i, u32::MAX - n + i + 1);
                }
            },
        }
        i += 1;
    }
    proof {
        assert(new_events@.take(i as int) =~= new_events@);
    }
    let deltas = acc.buckets();
    proof {
        assert(checkpoint_of(*state) =~= checkpoint(run_of(*state, acc)));
    }
    (deltas, acc.sessions)
}

fn copy_held(b: &Buffered) -> (r: Buffered)
    ensures
        held_of(r) == held_of(*b),
{
    Buffered {
        origin_url: copy_opt(&b.origin_url),
        origin_prov: b.origin_prov,
        to_url: b.to_url.clone(),
        prov: b.prov,
        ts: b.ts,
    }
}

fn copy_tab(t: &TabState) -> (r: TabState)
    ensures
        tab_of(r) == tab_of(*t),
{
    TabState {
        last_url: copy_opt(&t.last_url),
        last_prov: t.last_prov,
        buffer: match &t.buffer {
            Some(b) => Some(copy_held(b)),
            None => None,
        },
    }
}

/// Every tab's held navigation, confirmed as left on arrival, as day
/// bucket deltas: the pages open right now, for display only (a held
/// navigation can still turn out to be a redirect).
pub fn provisional_buckets(state: &DeriveState) -> (r: Vec<DayBucket>)
    requires
        2 * state.tabs@.len() <= u32::MAX,
    ensures
        is_day_buckets(r@, flush_tabs(checkpoint_of(*state), None, 0).credits),
{
    let mut work: Vec<(i64, TabState)> = Vec::new();
    let mut i: usize = 0;
    while i < state.tabs.len()
        invariant
            i <= state.tabs@.len(),
            vmap(work@, tab_f()) == vmap(state.tabs@.take(i as int), tab_f()),
        decreases state.tabs.len() - i,
    {
        let t = copy_tab(&state.tabs[i].1);
        let ghost before = work@;
        let ghost e = state.tabs@[i as int];
        work.push((state.tabs[i].0, t));
        proof {
            assert(state.tabs@.take(i + 1) =~= state.tabs@.take(i as int).push(e));
            assert(vmap(work@, tab_f()) =~= vmap(before, tab_f()).push((e.0, tab_of(e.1))));
            assert(vmap(state.tabs@.take(i + 1), tab_f()) =~= vmap(state.tabs@.take(i as int), tab_f()).push((e.0, tab_of(e.1))));
        }
        i += 1;
    }
    proof {
        assert(state.tabs@.take(i as int) =~= state.tabs@);
    }
    let mut ghost_state = DeriveState {
        watermark: state.watermark,
        tabs: work,
        pending_origin: Vec::new(),
        open_sessions: Vec::new(),
    };
    let mut acc = Acc::default();
    let ghost start = run_of(ghost_state, acc);
    proof {
        assert(start.credits =~= Seq::<CreditV>::empty());
        lemma_flush_load(start, None, 0);
    }
    while ghost_state.tabs.len() > 0
        invariant
            acc.cur_id == 0,
            flush_tabs(run_of(ghost_state, acc), None, 0) == flush_tabs(start, None, 0),
            dwells_capped(run_of(ghost_state, acc).credits),
            load_of(run_of(ghost_state, acc)) <= load_of(start),
            load_of(start) <= u32::MAX,
        decreases ghost_state.tabs.len(),
    {
        let ghost st = run_of(ghost_state, acc);
        let t = min_tab(&ghost_state.tabs);
        proof {
            lemma_min_key(st.tabs);
            let m = min_key(st.tabs);
            let a = choose|a: int| 0 <= a < st.tabs.len() && st.tabs[a].0 == m;
            let k = choose|k: int| 0 <= k < ghost_state.tabs@.len() && ghost_state.tabs@[k].0 == t;
            assert(st.tabs[k].0 == t);
            assert(ghost_state.tabs@[a].0 == m);
            assert(t == m);
            lemma_present(st.tabs, t, a);
            lemma_vmap(ghost_state.tabs@, tab_f(), t, vstd::pervasive::arbitrary());
            lemma_del_len(st.tabs, t);
        }
        let gone = tab_take(&mut ghost_state.tabs, t);
        match gone {
            Some(tb) => match &tb.buffer {
                Some(b) => {
                    proof {
                        lemma_finalize_load(st.credits, held_of(*b), b.ts, 0);
                    }
                    finalize(&mut acc, b, b.ts);
                },
                None => {},
            },
            None => {},
        }
    }
    proof {
        assert(flush_tabs(run_of(ghost_state, acc), None, 0) == run_of(ghost_state, acc));
        assert(start.tabs == checkpoint_of(*state).tabs);
        lemma_flush_credits_only(start, checkpoint_of(*state), None, 0);
    }
    acc.buckets()
}


proof fn lemma_flush_credits_only(a: DeriveV, b: DeriveV, depart: Option<i64>, id: i64)
    requires
        a.tabs == b.tabs,
        a.credits == b.credits,
    ensures
        flush_tabs(a, depart, id).credits == flush_tabs(b, depart, id).credits,
    decreases a.tabs.len(),
{
    if a.tabs.len() > 0 {
        let t = min_key(a.tabs);
        lemma_min_key(a.tabs);
        let i = choose|i: int| 0 <= i < a.tabs.len() && a.tabs[i].0 == t;
        lemma_present(a.tabs, t, i);
        lemma_del_len(a.tabs, t);
        let tab = a_get(a.tabs, t)->0;
        let ra = DeriveV { tabs: a_del(a.tabs, t), ..a };
        let rb = DeriveV { tabs: a_del(b.tabs, t), ..b };
        match tab.buffer {
            Some(h) => {
                let dep = if depart is Some { depart->0 } else { h.ts };
                lemma_flush_credits_only(finalize_v(ra, h, dep, id), finalize_v(rb, h, dep, id), depart, id);
            },
            None => {
                lemma_flush_credits_only(ra, rb, depart, id);
            },
        }
    }
}


/// Summing the credits of two consecutive folds, per day and key, gives
/// the sums over all their credits: the node and edge statistics merge,
/// the largest event id is the larger one, and a day has credits when
/// either part has.
pub proof fn lemma_day_totals_split(c1: Seq<CreditV>, c2: Seq<CreditV>, d: Seq<char>, k: Seq<char>)
    requires
        (c1 + c2).len() <= u32::MAX,
        dwells_capped(c1 + c2),
    ensures
        node_total(c1 + c2, d, k) == merged(node_total(c1, d, k), node_total(c2, d, k), |x: NodeStat, y: NodeStat| x.plus(y)),
        edge_total(c1 + c2, d, k) == merged(edge_total(c1, d, k), edge_total(c2, d, k), |x: EdgeStat, y: EdgeStat| x.plus(y)),
        date_max_id(c1 + c2, d) == if date_max_id(c1, d) >= date_max_id(c2, d) {
            date_max_id(c1, d)
        } else {
            date_max_id(c2, d)
        },
        has_date(c1 + c2, d) == (has_date(c1, d) || has_date(c2, d)),
    decreases c2.len(),
{
    let whole = c1 + c2;
    if c2.len() == 0 {
        assert(whole =~= c1);
        if has_date(c2, d) {
            let i = choose|i: int| 0 <= i < c2.len() && credit_date(c2[i]) == d;
        }
        assert(date_max_id(c2, d) == 0);
        lemma_max_id_nonneg(c1, d);
    } else {
        let shorter = c1 + c2.drop_last();
        assert(whole.drop_last() =~= shorter);
        assert(whole.last() == c2.last());
        assert(dwells_capped(shorter)) by {
            assert forall|i: int| 0 <= i < shorter.len() implies match #[trigger] shorter[i] {
                CreditV::Node { dwell_ms, .. } => dwell_ms <= IDLE_GAP_MS,
                _ => true,
            } by {
                assert(shorter[i] == whole[i]);
            }
        }
        lemma_day_totals_split(c1, c2.drop_last(), d, k);
        lemma_node_total_bound(whole, d, k);
        lemma_edge_total_bound(whole, d, k);
        assert(dwells_capped(c1)) by {
            assert forall|i: int| 0 <= i < c1.len() implies match #[trigger] c1[i] {
                CreditV::Node { dwell_ms, .. } => dwell_ms <= IDLE_GAP_MS,
                _ => true,
            } by {
                assert(c1[i] == whole[i]);
            }
        }
        assert(dwells_capped(c2)) by {
            assert forall|i: int| 0 <= i < c2.len() implies match #[trigger] c2[i] {
                CreditV::Node { dwell_ms, .. } => dwell_ms <= IDLE_GAP_MS,
                _ => true,
            } by {
                assert(c2[i] == whole[c1.len() + i]);
            }
        }
        assert(dwells_capped(c2.drop_last())) by {
            assert forall|i: int| 0 <= i < c2.drop_last().len() implies match #[trigger] c2.drop_last()[i] {
                CreditV::Node { dwell_ms, .. } => dwell_ms <= IDLE_GAP_MS,
                _ => true,
            } by {
                assert(c2.drop_last()[i] == c2[i]);
            }
        }
        lemma_node_total_bound(c1, d, k);
        lemma_edge_total_bound(c1, d, k);
        lemma_node_total_bound(c2.drop_last(), d, k);
        lemma_edge_total_bound(c2.drop_last(), d, k);
        lemma_node_total_bound(shorter, d, k);
        lemma_edge_total_bound(shorter, d, k);
        match c2.last() {
            CreditV::Node { date: dd, key: kk, prov, dwell_ms, .. } => {
                if dd == d && kk == k {
                    let a = node_total(c1, d, k);
                    let b = node_total(c2.drop_last(), d, k);
                    let u = Some(unit_node(prov, dwell_ms));
                    assert(dwell_ms <= IDLE_GAP_MS) by {
                        assert(whole[whole.len() - 1] == c2.last());
                    }
                    lemma_fit_node(a, b, unit_node(prov, dwell_ms), c1.len() as int, c2.drop_last().len() as int);
                    crate::laws::lemma_node_merge_order_free(a, b, u);
                }
            },
            CreditV::Edge { date: dd, from, to, kind, .. } => {
                if dd == d && from + seq!['\0'] + to == k {
                    let a = edge_total(c1, d, k);
                    let b = edge_total(c2.drop_last(), d, k);
                    let u = Some(unit_edge(kind));
                    lemma_fit_edge(a, b, unit_edge(kind), c1.len() as int, c2.drop_last().len() as int);
                    crate::laws::lemma_edge_merge_order_free(a, b, u);
                }
            },
        }
        if credit_date(c2.last()) == d {
            assert(has_date(whole, d)) by {
                assert(credit_date(whole[whole.len() - 1]) == d);
            }
            assert(has_date(c2, d)) by {
                assert(credit_date(c2[c2.len() - 1]) == d);
            }
        } else {
            if has_date(whole, d) {
                let i = choose|i: int| 0 <= i < whole.len() && credit_date(whole[i]) == d;
                assert(i < whole.len() - 1);
                assert(shorter[i] == whole[i]);
            }
            if has_date(c2, d) {
                let i = choose|i: int| 0 <= i < c2.len() && credit_date(c2[i]) == d;
                assert(c2.drop_last()[i] == c2[i]);
            }
            if has_date(c2.drop_last(), d) {
                let i = choose|i: int| 0 <= i < c2.drop_last().len() && credit_date(c2.drop_last()[i]) == d;
                assert(c2.drop_last()[i] == c2[i]);
            }
            if has_date(shorter, d) {
                let i = choose|i: int| 0 <= i < shorter.len() && credit_date(shorter[i]) == d;
                assert(shorter[i] == whole[i]);
            }
        }
    }
}

proof fn lemma_max_id_nonneg(cs: Seq<CreditV>, d: Seq<char>)
    ensures
        date_max_id(cs, d) >= 0,
    decreases cs.len(),
{
    if cs.len() > 0 {
        lemma_max_id_nonneg(cs.drop_last(), d);
    }
}

proof fn lemma_fit_node(a: Option<NodeStat>, b: Option<NodeStat>, u: NodeStat, la: int, lb: int)
    requires
        match a {
            Some(x) => x.visits <= la && x.dwell_ms <= la * IDLE_GAP_MS && forall|p: Provenance| #[trigger] x.prov.count(p) <= x.visits,
            None => true,
        },
        match b {
            Some(x) => x.visits <= lb && x.dwell_ms <= lb * IDLE_GAP_MS && forall|p: Provenance| #[trigger] x.prov.count(p) <= x.visits,
            None => true,
        },
        u.visits == 1,
        u.dwell_ms <= IDLE_GAP_MS,
        forall|p: Provenance| #[trigger] u.prov.count(p) <= 1,
        0 <= la,
        0 <= lb,
        la + lb + 1 <= u32::MAX,
    ensures
        crate::laws::node_or_zero(a).can_add(crate::laws::node_or_zero(b)),
        crate::laws::node_or_zero(a).plus(crate::laws::node_or_zero(b)).can_add(crate::laws::node_or_zero(Some(u))),
{
    let za = crate::laws::node_or_zero(a);
    let zb = crate::laws::node_or_zero(b);
    assert(za.visits <= la && zb.visits <= lb);
    assert(za.dwell_ms <= la * IDLE_GAP_MS && zb.dwell_ms <= lb * IDLE_GAP_MS);
    assert(la * IDLE_GAP_MS + lb * IDLE_GAP_MS + IDLE_GAP_MS <= u64::MAX) by (nonlinear_arith)
        requires
            0 <= la,
            0 <= lb,
            la + lb + 1 <= u32::MAX;
    assert forall|p: Provenance| #[trigger] za.prov.count(p) + zb.prov.count(p) <= u32::MAX by {
        assert(za.prov.count(p) <= za.visits);
        assert(zb.prov.count(p) <= zb.visits);
    }
    let s = za.plus(zb);
    assert forall|p: Provenance| #[trigger] s.prov.count(p) + u.prov.count(p) <= u32::MAX by {
        assert(za.prov.count(p) <= za.visits);
        assert(zb.prov.count(p) <= zb.visits);
        lemma_prov_sum_count(za.prov, zb.prov, p);
    }
}

proof fn lemma_fit_edge(a: Option<EdgeStat>, b: Option<EdgeStat>, u: EdgeStat, la: int, lb: int)
    requires
        match a {
            Some(x) => x.weight <= la && forall|q: EdgeKind| #[trigger] x.kinds.count(q) <= x.weight,
            None => true,
        },
        match b {
            Some(x) => x.weight <= lb && forall|q: EdgeKind| #[trigger] x.kinds.count(q) <= x.weight,
            None => true,
        },
        u.weight == 1,
        forall|q: EdgeKind| #[trigger] u.kinds.count(q) <= 1,
        0 <= la,
        0 <= lb,
        la + lb + 1 <= u32::MAX,
    ensures
        crate::laws::edge_or_zero(a).can_add(crate::laws::edge_or_zero(b)),
        crate::laws::edge_or_zero(a).plus(crate::laws::edge_or_zero(b)).can_add(crate::laws::edge_or_zero(Some(u))),
{
    let za = crate::laws::edge_or_zero(a);
    let zb = crate::laws::edge_or_zero(b);
    assert forall|q: EdgeKind| #[trigger] za.kinds.count(q) + zb.kinds.count(q) <= u32::MAX by {
        assert(za.kinds.count(q) <= za.weight);
        assert(zb.kinds.count(q) <= zb.weight);
    }
    let s = za.plus(zb);
    assert forall|q: EdgeKind| #[trigger] s.kinds.count(q) + u.kinds.count(q) <= u32::MAX by {
        assert(za.kinds.count(q) <= za.weight);
        assert(zb.kinds.count(q) <= zb.weight);
        lemma_kind_sum_count(za.kinds, zb.kinds, q);
    }
}


/// A browser start forgets every tab and pending origin and closes every
/// session, so no chain survives a restart.
pub proof fn lemma_start_forgets(st: DeriveV, ts: i64, id: i64)
    requires
        dwells_capped(st.credits),
    ensures
        start_v(st, ts, id).tabs.len() == 0,
        start_v(st, ts, id).pending.len() == 0,
        start_v(st, ts, id).sessions.len() == 0,
{
    lemma_flush_load(st, Some(ts), id);
    lemma_close_sessions_keeps(DeriveV { pending: Seq::empty(), ..flush_tabs(st, Some(ts), id) });
    lemma_close_sessions_pending(DeriveV { pending: Seq::empty(), ..flush_tabs(st, Some(ts), id) });
}

proof fn lemma_close_sessions_pending(st: DeriveV)
    ensures
        close_sessions(st).pending == st.pending,
    decreases st.sessions.len(),
{
    if st.sessions.len() > 0 {
        let w = min_key(st.sessions);
        lemma_min_key(st.sessions);
        let i = choose|i: int| 0 <= i < st.sessions.len() && st.sessions[i].0 == w;
        lemma_present(st.sessions, w, i);
        let s = a_get(st.sessions, w)->0;
        lemma_close_sessions_pending(DeriveV { sessions: a_del(st.sessions, w), records: st.records.push(rec_of(s)), ..st });
    }
}


/// The statistics the buckets `bs` hold for node `key` on `date` (`None` when
/// no bucket is for that date, or its bucket lacks the key).
pub open spec fn day_node(bs: Seq<DayBucket>, date: Seq<char>, key: Seq<char>) -> Option<NodeStat> {
    if day_present(bs, date) {
        lookup(bs[choose|i: int| 0 <= i < bs.len() && (#[trigger] bs[i]).date@ == date].nodes@, key)
    } else {
        None
    }
}

/// The statistics the buckets `bs` hold for the edge stored under `ekey` on
/// `date` (`None` when there are none).
pub open spec fn day_edge(bs: Seq<DayBucket>, date: Seq<char>, ekey: Seq<char>) -> Option<EdgeStat> {
    if day_present(bs, date) {
        lookup(bs[choose|i: int| 0 <= i < bs.len() && (#[trigger] bs[i]).date@ == date].edges@, ekey)
    } else {
        None
    }
}

/// Some bucket of `bs` is for `date`.
pub open spec fn day_present(bs: Seq<DayBucket>, date: Seq<char>) -> bool {
    exists|i: int| 0 <= i < bs.len() && (#[trigger] bs[i]).date@ == date
}

/// The largest event id of the bucket for `date` (0 when there is none).
pub open spec fn day_max_id(bs: Seq<DayBucket>, date: Seq<char>) -> i64 {
    if day_present(bs, date) {
        bs[choose|i: int| 0 <= i < bs.len() && (#[trigger] bs[i]).date@ == date].max_id
    } else {
        0
    }
}

/// What day buckets hold, read per date, is the credits' totals.
proof fn lemma_day_view(bs: Seq<DayBucket>, cs: Seq<CreditV>, date: Seq<char>, key: Seq<char>)
    requires
        is_day_buckets(bs, cs),
    ensures
        day_present(bs, date) == has_date(cs, date),
        day_max_id(bs, date) == date_max_id(cs, date),
        day_node(bs, date, key) == node_total(cs, date, key),
        day_edge(bs, date, key) == edge_total(cs, date, key),
{
    if day_present(bs, date) {
        let i = choose|i: int| 0 <= i < bs.len() && (#[trigger] bs[i]).date@ == date;
        let b = bs[i];
        assert(has_date(cs, b.date@));
        assert(lookup(b.nodes@, key) == node_total(cs, b.date@, key));
        assert(lookup(b.edges@, key) == edge_total(cs, b.date@, key));
    } else {
        if has_date(cs, date) {
            let i = choose|i: int| 0 <= i < bs.len() && (#[trigger] bs[i]).date@ == date;
        }
        lemma_no_date(cs, date);
        assert(node_total(cs, date, key) is None);
        assert(edge_total(cs, date, key) is None);
    }
}

/// Folding keeps node dwells capped and emits at most four credits per event.
proof fn lemma_fold_load(st: DeriveV, evs: Seq<Event>)
    requires
        dwells_capped(st.credits),
    ensures
        load_of(fold_v(st, evs)) <= load_of(st) + 4 * evs.len(),
        dwells_capped(fold_v(st, evs).credits),
    decreases evs.len(),
{
    if evs.len() > 0 {
        lemma_fold_load(st, evs.drop_last());
        match crate::model::spec_event_id(evs.last()) {
            Some(id) => lemma_step_load(fold_v(st, evs.drop_last()), evs.last(), id),
            None => {},
        }
    }
}

/// Law: folding a stream in two calls, the second resuming from the state the
/// first left, is the same as folding it in one call: the same final state,
/// the first call's session records followed by the second's, and day buckets
/// that merge per date (statistics summed per key, the larger event id) into
/// the one-call buckets. The requirements are what `fold` states of the three
/// calls, and the bound under which one call over the whole stream is made.
pub proof fn lemma_fold_in_two_calls(
    s0: DeriveV,
    events: Seq<Event>,
    k: int,
    a: DeriveV,
    r: Seq<RecV>,
    d: Seq<DayBucket>,
    b1: DeriveV,
    r1: Seq<RecV>,
    d1: Seq<DayBucket>,
    b2: DeriveV,
    r2: Seq<RecV>,
    d2: Seq<DayBucket>,
)
    requires
        s0 == checkpoint(s0),
        2 * s0.tabs.len() + 4 * events.len() <= u32::MAX,
        0 <= k <= events.len(),
        a == checkpoint(fold_v(s0, events)),
        r == fold_v(s0, events).records,
        is_day_buckets(d, fold_v(s0, events).credits),
        b1 == checkpoint(fold_v(s0, events.take(k))),
        r1 == fold_v(s0, events.take(k)).records,
        is_day_buckets(d1, fold_v(s0, events.take(k)).credits),
        b2 == checkpoint(fold_v(b1, events.skip(k))),
        r2 == fold_v(b1, events.skip(k)).records,
        is_day_buckets(d2, fold_v(b1, events.skip(k)).credits),
    ensures
        b2 == a,
        r1 + r2 == r,
        forall|date: Seq<char>| #[trigger] day_present(d, date) == (day_present(d1, date) || day_present(d2, date)),
        forall|date: Seq<char>|
            #[trigger] day_max_id(d, date) == if day_max_id(d1, date) >= day_max_id(d2, date) {
                day_max_id(d1, date)
            } else {
                day_max_id(d2, date)
            },
        forall|date: Seq<char>, key: Seq<char>|
            #[trigger] day_node(d, date, key) == merged(
                day_node(d1, date, key),
                day_node(d2, date, key),
                |x: NodeStat, y: NodeStat| x.plus(y),
            ),
        forall|date: Seq<char>, key: Seq<char>|
            #[trigger] day_edge(d, date, key) == merged(
                day_edge(d1, date, key),
                day_edge(d2, date, key),
                |x: EdgeStat, y: EdgeStat| x.plus(y),
            ),
{
    let before = events.take(k);
    let after = events.skip(k);
    assert(before + after =~= events);
    lemma_fold_resumes_exactly(s0, before, after);
    let whole = fold_v(s0, events);
    let first = fold_v(s0, before);
    let resumed = fold_v(b1, after);
    assert(whole == after_outputs(resumed, first.credits, first.records));
    lemma_fold_load(s0, events);
    let c1 = first.credits;
    let c2 = resumed.credits;
    assert(whole.credits == c1 + c2);
    assert forall|date: Seq<char>, key: Seq<char>|
        #[trigger] day_node(d, date, key) == merged(
            day_node(d1, date, key),
            day_node(d2, date, key),
            |x: NodeStat, y: NodeStat| x.plus(y),
        ) && day_edge(d, date, key) == merged(
            day_edge(d1, date, key),
            day_edge(d2, date, key),
            |x: EdgeStat, y: EdgeStat| x.plus(y),
        ) && day_present(d, date) == (day_present(d1, date) || day_present(d2, date)) && day_max_id(d, date) == if day_max_id(
            d1,
            date,
        ) >= day_max_id(d2, date) {
            day_max_id(d1, date)
        } else {
            day_max_id(d2, date)
        } by {
        lemma_day_view(d, c1 + c2, date, key);
        lemma_day_view(d1, c1, date, key);
        lemma_day_view(d2, c2, date, key);
        lemma_day_totals_split(c1, c2, date, key);
    }
    assert forall|date: Seq<char>| #[trigger] day_present(d, date) == (day_present(d1, date) || day_present(d2, date)) by {
        assert(day_node(d, date, Seq::empty()) == day_node(d, date, Seq::empty()));
    }
    assert forall|date: Seq<char>|
        #[trigger] day_max_id(d, date) == if day_max_id(d1, date) >= day_max_id(d2, date) {
            day_max_id(d1, date)
        } else {
            day_max_id(d2, date)
        } by {
        assert(day_node(d, date, Seq::empty()) == day_node(d, date, Seq::empty()));
    }
    assert forall|date: Seq<char>, key: Seq<char>|
        #[trigger] day_edge(d, date, key) == merged(
            day_edge(d1, date, key),
            day_edge(d2, date, key),
            |x: EdgeStat, y: EdgeStat| x.plus(y),
        ) by {
        assert(day_node(d, date, key) == day_node(d, date, key));
    }
}


/// Law: confirming a navigation that a link or a form submission reached from
/// a page on another host credits a visit to the landing host and then an
/// edge from the origin's host to it, on the landing day: of kind SearchLink
/// from a search page, otherwise Form for a form submission and Link for a
/// link.
pub proof fn lemma_hop_credits_an_edge(c: Seq<CreditV>, b: HeldV, depart: i64, id: i64, from: Seq<char>, to: Seq<char>)
    requires
        b.prov == Provenance::Link || b.prov == Provenance::Form,
        b.origin_url matches Some(u) && spec_node_key(u, Granularity::Hostname) == Some(from),
        spec_node_key(b.to_url, Granularity::Hostname) == Some(to),
        from != to,
    ensures
        ({
            let r = finalize_credits(c, b, depart, id);
            &&& r.len() == c.len() + 2
            &&& r.take(c.len() as int) == c
            &&& r[c.len() as int] == CreditV::Node { date: spec_utc_date(b.ts), key: to, prov: b.prov, dwell_ms: dwell_of(b.ts, depart), id }
            &&& r[c.len() as int + 1] matches CreditV::Edge { date, from: f, to: t, kind, id: i } && date == spec_utc_date(b.ts) && f == from
                && t == to && i == id && kind == if b.origin_prov == Provenance::SearchOrigin {
                EdgeKind::SearchLink
            } else if b.prov == Provenance::Form {
                EdgeKind::Form
            } else {
                EdgeKind::Link
            }
        }),
{
    let r = finalize_credits(c, b, depart, id);
    assert(r.take(c.len() as int) =~= c);
}

/// Law: confirming a navigation reached any other way than by a link or a
/// form submission (typed, bookmark, search, start, ...) credits only the
/// visit to its host, never an edge.
pub proof fn lemma_other_arrivals_credit_no_edge(c: Seq<CreditV>, b: HeldV, depart: i64, id: i64, to: Seq<char>)
    requires
        b.prov != Provenance::Link && b.prov != Provenance::Form,
        spec_node_key(b.to_url, Granularity::Hostname) == Some(to),
    ensures
        finalize_credits(c, b, depart, id) == c.push(
            CreditV::Node { date: spec_utc_date(b.ts), key: to, prov: b.prov, dwell_ms: dwell_of(b.ts, depart), id },
        ),
{
}


/// Law: a page's dwell is the time from its arrival to its departure, never
/// negative and capped at the thirty-minute idle gap.
pub proof fn lemma_dwell_is_clamped_elapsed_time(arrive: i64, depart: i64)
    ensures
        depart <= arrive ==> dwell_of(arrive, depart) == 0,
        0 <= depart - arrive <= 1_800_000 ==> dwell_of(arrive, depart) == depart - arrive,
        depart - arrive >= 1_800_000 ==> dwell_of(arrive, depart) == 1_800_000,
{
}

/// Law: a client redirect less than a second after a tab's held navigation
/// moves that navigation's landing to the new page, keeping where it came
/// from, and credits nothing: the redirecting page is neither visited nor
/// part of an edge.
pub proof fn lemma_redirect_moves_the_landing(
    st: DeriveV,
    id: i64,
    ts: i64,
    tab_id: i64,
    window_id: i64,
    url: Seq<char>,
    transition_type: Seq<char>,
    qualifiers: Seq<String>,
    cid: i64,
    tab0: TabV,
    b: HeldV,
)
    requires
        spec_classify(transition_type) != Provenance::Reload,
        spec_classify(transition_type) != Provenance::Other,
        has_qual(qualifiers, "client_redirect"@),
        a_get(session_v(st, id, ts, window_id, url).tabs, tab_id) == Some(tab0),
        tab0.buffer == Some(b),
        ts - b.ts < 1_000,
    ensures
        nav_v(st, id, ts, tab_id, window_id, url, transition_type, qualifiers, cid).credits == session_v(
            st,
            id,
            ts,
            window_id,
            url,
        ).credits,
        a_get(nav_v(st, id, ts, tab_id, window_id, url, transition_type, qualifiers, cid).tabs, tab_id) == Some(
            TabV {
                buffer: Some(
                    HeldV {
                        origin_url: b.origin_url,
                        origin_prov: b.origin_prov,
                        to_url: url,
                        prov: spec_classify(transition_type),
                        ts,
                    },
                ),
                ..tab0
            },
        ),
{
    let st1 = session_v(st, id, ts, window_id, url);
    let held = HeldV { origin_url: b.origin_url, origin_prov: b.origin_prov, to_url: url, prov: spec_classify(transition_type), ts };
    lemma_get_put_same(st1.tabs, tab_id, TabV { buffer: Some(held), ..tab0 });
}

/// Law: a navigation that does not continue a redirect (none flagged, or a
/// second or more after the held one) confirms the tab's held navigation as
/// left at this navigation's time, crediting exactly what confirming it
/// credits.
pub proof fn lemma_next_page_confirms_the_held_one(
    st: DeriveV,
    id: i64,
    ts: i64,
    tab_id: i64,
    window_id: i64,
    url: Seq<char>,
    transition_type: Seq<char>,
    qualifiers: Seq<String>,
    cid: i64,
    tab0: TabV,
    b: HeldV,
)
    requires
        spec_classify(transition_type) != Provenance::Reload,
        spec_classify(transition_type) != Provenance::Other,
        !has_qual(qualifiers, "client_redirect"@) || ts - b.ts >= 1_000,
        a_get(session_v(st, id, ts, window_id, url).tabs, tab_id) == Some(tab0),
        tab0.buffer == Some(b),
    ensures
        nav_v(st, id, ts, tab_id, window_id, url, transition_type, qualifiers, cid).credits == finalize_credits(
            session_v(st, id, ts, window_id, url).credits,
            b,
            ts,
            cid,
        ),
{
}

} // verus!
