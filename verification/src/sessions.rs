//! The session flow built from raw events, honoring how each page was
//! reached: link and form navigations chain from the tab's current page (or,
//! for a tab opened from a link, from the source page); typed, bookmark,
//! search and start navigations begin a fresh flow; reloads change nothing;
//! redirect bursts collapse onto their landing host; back/forward moves only
//! advance the tab's position.
use vstd::prelude::*;
use crate::assoc::{a_del, a_get, a_index, a_put, lemma_absent, lemma_get_put_same, lemma_first, lemma_index_valid, lemma_present, lemma_vmap, min_tab, tab_index, tab_put, tab_take, vmap};
use crate::flow::{build_flow, is_flow, pairs_view, strs, FlowGraph};
use crate::interpret::{classify, node_key, spec_classify, spec_node_key};
use crate::model::{kind_rank, prov_rank, spec_display, EdgeKind, Event, Granularity, KindBreakdown, ProvBreakdown, Provenance};
use crate::rollup::REDIRECT_WINDOW_MS;
use crate::text::str_eq;

verus! {

/// A navigation held back one step (to see whether a redirect follows).
pub struct BufV {
    pub origin: Option<(Seq<char>, Provenance)>,
    pub to: Seq<char>,
    pub prov: Provenance,
    pub ts: i64,
}

/// The state of the session fold: per-tab confirmed page, held navigation
/// and spawn origin; the transitions and starts emitted so far; and how
/// each host was reached and what kind each hop was.
pub struct FlowRun {
    pub current: Seq<(i64, (Seq<char>, Provenance))>,
    pub buffer: Seq<(i64, BufV)>,
    pub pending: Seq<(i64, (Seq<char>, Provenance))>,
    pub transitions: Seq<(Seq<char>, Seq<char>)>,
    pub starts: Seq<Seq<char>>,
    pub host_prov: Seq<(Seq<char>, ProvBreakdown)>,
    pub trans_kind: Seq<((Seq<char>, Seq<char>), KindBreakdown)>,
}

pub open spec fn empty_run() -> FlowRun {
    FlowRun {
        current: Seq::empty(),
        buffer: Seq::empty(),
        pending: Seq::empty(),
        transitions: Seq::empty(),
        starts: Seq::empty(),
        host_prov: Seq::empty(),
        trans_kind: Seq::empty(),
    }
}

pub open spec fn zero_prov() -> ProvBreakdown {
    ProvBreakdown { link: 0, form: 0, typed_url: 0, search_origin: 0, bookmark: 0, start: 0, reload: 0, other: 0 }
}

pub open spec fn zero_kind() -> KindBreakdown {
    KindBreakdown { link: 0, search_link: 0, form: 0 }
}

/// `b` with one more `p`.
pub open spec fn prov_plus(b: ProvBreakdown, p: Provenance) -> ProvBreakdown {
    match p {
        Provenance::Link => ProvBreakdown { link: (b.link + 1) as u32, ..b },
        Provenance::Form => ProvBreakdown { form: (b.form + 1) as u32, ..b },
        Provenance::TypedUrl => ProvBreakdown { typed_url: (b.typed_url + 1) as u32, ..b },
        Provenance::SearchOrigin => ProvBreakdown { search_origin: (b.search_origin + 1) as u32, ..b },
        Provenance::Bookmark => ProvBreakdown { bookmark: (b.bookmark + 1) as u32, ..b },
        Provenance::Start => ProvBreakdown { start: (b.start + 1) as u32, ..b },
        Provenance::Reload => ProvBreakdown { reload: (b.reload + 1) as u32, ..b },
        Provenance::Other => ProvBreakdown { other: (b.other + 1) as u32, ..b },
    }
}

/// `b` with one more `k`.
pub open spec fn kind_plus(b: KindBreakdown, k: EdgeKind) -> KindBreakdown {
    match k {
        EdgeKind::Link => KindBreakdown { link: (b.link + 1) as u32, ..b },
        EdgeKind::SearchLink => KindBreakdown { search_link: (b.search_link + 1) as u32, ..b },
        EdgeKind::Form => KindBreakdown { form: (b.form + 1) as u32, ..b },
    }
}

pub open spec fn prov_or_zero(o: Option<ProvBreakdown>) -> ProvBreakdown {
    match o {
        Some(b) => b,
        None => zero_prov(),
    }
}

pub open spec fn kind_or_zero(o: Option<KindBreakdown>) -> KindBreakdown {
    match o {
        Some(b) => b,
        None => zero_kind(),
    }
}

/// The kind of a hop: a link out of a search page is a search link; a form
/// submission is a form hop; anything else is a plain link.
pub open spec fn hop_kind(origin_prov: Provenance, prov: Provenance) -> EdgeKind {
    if origin_prov == Provenance::SearchOrigin {
        EdgeKind::SearchLink
    } else if prov == Provenance::Form {
        EdgeKind::Form
    } else {
        EdgeKind::Link
    }
}

/// Settle tab `t`'s held navigation `b` (already taken out of the buffer):
/// record how its host was reached, then emit a transition (a real link or
/// form hop from a different page) or a column-0 start.
pub open spec fn flush(st: FlowRun, b: BufV, t: i64) -> FlowRun {
    let hp = a_put(st.host_prov, b.to, prov_plus(prov_or_zero(a_get(st.host_prov, b.to)), b.prov));
    let cur = a_put(st.current, t, (b.to, b.prov));
    match b.origin {
        Some(o) => if (b.prov == Provenance::Link || b.prov == Provenance::Form) && o.0 != b.to {
            let k = (o.0, b.to);
            FlowRun {
                host_prov: hp,
                current: cur,
                transitions: st.transitions.push(k),
                trans_kind: a_put(st.trans_kind, k, kind_plus(kind_or_zero(a_get(st.trans_kind, k)), hop_kind(o.1, b.prov))),
                ..st
            }
        } else {
            FlowRun { host_prov: hp, current: cur, starts: st.starts.push(b.to), ..st }
        },
        None => FlowRun { host_prov: hp, current: cur, starts: st.starts.push(b.to), ..st },
    }
}

/// The smallest tab key.
pub open spec fn min_key<V>(s: Seq<(i64, V)>) -> i64
    decreases s.len(),
{
    if s.len() <= 1 {
        s[0].0
    } else {
        let m = min_key(s.drop_last());
        if s.last().0 < m {
            s.last().0
        } else {
            m
        }
    }
}

pub proof fn lemma_min_key<V>(s: Seq<(i64, V)>)
    requires
        s.len() > 0,
    ensures
        exists|i: int| 0 <= i < s.len() && s[i].0 == min_key(s),
        forall|i: int| 0 <= i < s.len() ==> min_key(s) <= #[trigger] s[i].0,
    decreases s.len(),
{
    if s.len() > 1 {
        lemma_min_key(s.drop_last());
        let i = choose|i: int| 0 <= i < s.drop_last().len() && s.drop_last()[i].0 == min_key(s.drop_last());
        assert(s[i] == s.drop_last()[i]);
        assert forall|j: int| 0 <= j < s.len() implies min_key(s) <= #[trigger] s[j].0 by {
            if j < s.len() - 1 {
                assert(s[j] == s.drop_last()[j]);
            }
        }
        if s.last().0 < min_key(s.drop_last()) {
            assert(s[s.len() - 1].0 == min_key(s));
        }
    } else {
        assert(s[0].0 == min_key(s));
    }
}

/// Settle every held navigation, in increasing tab order.
pub open spec fn flush_all(st: FlowRun) -> FlowRun
    decreases st.buffer.len(),
{
    if st.buffer.len() == 0 {
        st
    } else {
        let t = min_key(st.buffer);
        proof {
            lemma_min_key(st.buffer);
            let i = choose|i: int| 0 <= i < st.buffer.len() && st.buffer[i].0 == t;
            lemma_present(st.buffer, t, i);
        }
        let b = a_get(st.buffer, t)->0;
        flush_all(flush(FlowRun { buffer: a_del(st.buffer, t), ..st }, b, t))
    }
}

/// The held navigation of a tab continues as a redirect when it is recent.
pub open spec fn continues(held: Option<BufV>, redirect: bool, ts: i64) -> bool {
    match held {
        Some(b) => redirect && ts - b.ts < REDIRECT_WINDOW_MS,
        None => false,
    }
}

/// The host of a tab's confirmed page, if any.
pub open spec fn page_host(p: Option<(Seq<char>, Provenance)>) -> Option<Seq<char>> {
    match p {
        Some(x) => Some(x.0),
        None => None,
    }
}

/// One navigation of tab `t` to `host` (reached as `prov`).
pub open spec fn fold_nav(st: FlowRun, t: i64, host: Seq<char>, prov: Provenance, redirect: bool, fb: bool, ts: i64) -> FlowRun {
    let held = a_get(st.buffer, t);
    if continues(held, redirect, ts) {
        // Redirect continuation: move the landing, keep the origin.
        let b = held.unwrap();
        FlowRun { buffer: a_put(st.buffer, t, BufV { origin: b.origin, to: host, prov, ts }), ..st }
    } else {
        let settled = match held {
            Some(b) => flush(FlowRun { buffer: a_del(st.buffer, t), ..st }, b, t),
            None => st,
        };
        if fb {
            FlowRun { current: a_put(settled.current, t, (host, prov)), ..settled }
        } else if page_host(a_get(settled.current, t)) == Some(host) {
            settled
        } else {
            let origin = if prov == Provenance::Link || prov == Provenance::Form {
                match a_get(settled.pending, t) {
                    Some(p) => Some(p),
                    None => a_get(settled.current, t),
                }
            } else {
                None
            };
            FlowRun {
                pending: a_del(settled.pending, t),
                buffer: a_put(settled.buffer, t, BufV { origin, to: host, prov, ts }),
                ..settled
            }
        }
    }
}

/// Whether some qualifier equals `q`.
pub open spec fn has_qual(qs: Seq<String>, q: Seq<char>) -> bool {
    exists|i: int| 0 <= i < qs.len() && qs[i]@ == q
}

/// One event of the session fold.
pub open spec fn fold_event(st: FlowRun, ev: Event, gran: Granularity) -> FlowRun {
    match ev {
        Event::Link { new_tab_id, source_tab_id, .. } => {
            let o = match a_get(st.buffer, source_tab_id) {
                Some(b) => Some((b.to, b.prov)),
                None => a_get(st.current, source_tab_id),
            };
            match o {
                Some(p) => FlowRun { pending: a_put(st.pending, new_tab_id, p), ..st },
                None => st,
            }
        },
        Event::Close { tab_id, .. } => match a_get(st.buffer, tab_id) {
            Some(b) => flush(FlowRun { buffer: a_del(st.buffer, tab_id), ..st }, b, tab_id),
            None => st,
        },
        Event::Start { .. } => flush_all(st),
        Event::Nav { tab_id, to_url, transition_type, qualifiers, ts, .. } => match spec_node_key(to_url@, gran) {
            Some(host) => {
                let prov = spec_classify(transition_type@);
                if prov == Provenance::Reload || prov == Provenance::Other {
                    st
                } else {
                    fold_nav(
                        st,
                        tab_id,
                        host,
                        prov,
                        has_qual(qualifiers@, "client_redirect"@),
                        has_qual(qualifiers@, "forward_back"@),
                        ts,
                    )
                }
            },
            None => st,
        },
        _ => st,
    }
}

/// The fold over a session's events, in order.
pub open spec fn session_run(events: Seq<Event>, gran: Granularity) -> FlowRun
    decreases events.len(),
{
    if events.len() == 0 {
        empty_run()
    } else {
        fold_event(session_run(events.drop_last(), gran), events.last(), gran)
    }
}

/// Counts never exceed the number of settled navigations.
pub open spec fn fits(st: FlowRun) -> bool {
    &&& forall|i: int, p: Provenance|
        0 <= i < st.host_prov.len() ==> #[trigger] st.host_prov[i].1.count(p) <= st.transitions.len() + st.starts.len()
    &&& forall|i: int, k: EdgeKind| 0 <= i < st.trans_kind.len() ==> #[trigger] st.trans_kind[i].1.count(k) <= st.transitions.len()
}

/// Settled plus held navigations.
pub open spec fn load(st: FlowRun) -> int {
    (st.transitions.len() + st.starts.len() + st.buffer.len()) as int
}

proof fn lemma_put_bound_prov(hp: Seq<(Seq<char>, ProvBreakdown)>, h: Seq<char>, p: Provenance, bound: int)
    requires
        forall|i: int, q: Provenance| 0 <= i < hp.len() ==> #[trigger] hp[i].1.count(q) <= bound,
        bound >= 0,
        bound + 1 <= u32::MAX,
    ensures
        forall|i: int, q: Provenance|
            0 <= i < a_put(hp, h, prov_plus(prov_or_zero(a_get(hp, h)), p)).len() ==> #[trigger] a_put(
                hp,
                h,
                prov_plus(prov_or_zero(a_get(hp, h)), p),
            )[i].1.count(q) <= bound + 1,
{
    let b = prov_or_zero(a_get(hp, h));
    let nb = prov_plus(b, p);
    if exists|j: int| 0 <= j < hp.len() && hp[j].0 == h {
        let j = choose|j: int| 0 <= j < hp.len() && hp[j].0 == h;
        crate::assoc::lemma_present(hp, h, j);
        let i0 = a_index(hp, h)->0;
        assert forall|q: Provenance| #[trigger] nb.count(q) <= bound + 1 by {
            assert(hp[i0].1.count(q) <= bound);
        }
    } else {
        lemma_absent(hp, h);
        assert forall|q: Provenance| #[trigger] nb.count(q) <= bound + 1 by {}
    }
    let r = a_put(hp, h, nb);
    assert forall|i: int, q: Provenance| 0 <= i < r.len() implies #[trigger] r[i].1.count(q) <= bound + 1 by {
        if r[i].1 == nb {
            assert(nb.count(q) <= bound + 1);
        } else {
            assert(r[i] == hp[i]);
        }
    }
}

proof fn lemma_put_bound_kind(
    tk: Seq<((Seq<char>, Seq<char>), KindBreakdown)>,
    h: (Seq<char>, Seq<char>),
    k: EdgeKind,
    bound: int,
)
    requires
        forall|i: int, q: EdgeKind| 0 <= i < tk.len() ==> #[trigger] tk[i].1.count(q) <= bound,
        bound >= 0,
        bound + 1 <= u32::MAX,
    ensures
        forall|i: int, q: EdgeKind|
            0 <= i < a_put(tk, h, kind_plus(kind_or_zero(a_get(tk, h)), k)).len() ==> #[trigger] a_put(
                tk,
                h,
                kind_plus(kind_or_zero(a_get(tk, h)), k),
            )[i].1.count(q) <= bound + 1,
{
    let b = kind_or_zero(a_get(tk, h));
    let nb = kind_plus(b, k);
    if exists|j: int| 0 <= j < tk.len() && tk[j].0 == h {
        let j = choose|j: int| 0 <= j < tk.len() && tk[j].0 == h;
        crate::assoc::lemma_present(tk, h, j);
        let i0 = a_index(tk, h)->0;
        assert forall|q: EdgeKind| #[trigger] nb.count(q) <= bound + 1 by {
            assert(tk[i0].1.count(q) <= bound);
        }
    } else {
        lemma_absent(tk, h);
        assert forall|q: EdgeKind| #[trigger] nb.count(q) <= bound + 1 by {}
    }
    let r = a_put(tk, h, nb);
    assert forall|i: int, q: EdgeKind| 0 <= i < r.len() implies #[trigger] r[i].1.count(q) <= bound + 1 by {
        if r[i].1 == nb {
            assert(nb.count(q) <= bound + 1);
        } else {
            assert(r[i] == tk[i]);
        }
    }
}

/// Settling a navigation keeps the counts bounded and moves one unit of load.
proof fn lemma_flush_fits(st: FlowRun, b: BufV, t: i64)
    requires
        fits(st),
        st.transitions.len() + st.starts.len() + 1 < u32::MAX,
    ensures
        fits(flush(st, b, t)),
        flush(st, b, t).transitions.len() + flush(st, b, t).starts.len() == st.transitions.len() + st.starts.len() + 1,
        flush(st, b, t).buffer == st.buffer,
        flush(st, b, t).pending == st.pending,
{
    let settled = (st.transitions.len() + st.starts.len()) as int;
    lemma_put_bound_prov(st.host_prov, b.to, b.prov, settled);
    let r = flush(st, b, t);
    match b.origin {
        Some(o) => {
            if (b.prov == Provenance::Link || b.prov == Provenance::Form) && o.0 != b.to {
                lemma_put_bound_kind(st.trans_kind, (o.0, b.to), hop_kind(o.1, b.prov), st.transitions.len() as int);
            }
        },
        None => {},
    }
    assert forall|i: int, k: EdgeKind| 0 <= i < r.trans_kind.len() implies #[trigger] r.trans_kind[i].1.count(k) <= r.transitions.len() by {
        if r.trans_kind != st.trans_kind {
        } else {
            assert(st.trans_kind[i].1.count(k) <= st.transitions.len());
        }
    }
}

proof fn lemma_flush_all_fits(st: FlowRun)
    requires
        fits(st),
        load(st) + 1 < u32::MAX,
    ensures
        fits(flush_all(st)),
        load(flush_all(st)) == load(st),
        flush_all(st).buffer.len() == 0,
    decreases st.buffer.len(),
{
    if st.buffer.len() > 0 {
        let t = min_key(st.buffer);
        lemma_min_key(st.buffer);
        let i = choose|i: int| 0 <= i < st.buffer.len() && st.buffer[i].0 == t;
        lemma_present(st.buffer, t, i);
        let b = a_get(st.buffer, t)->0;
        let st1 = FlowRun { buffer: a_del(st.buffer, t), ..st };
        lemma_flush_fits(st1, b, t);
        lemma_flush_all_fits(flush(st1, b, t));
    }
}

/// One event keeps the counts bounded and adds at most one unit of load.
proof fn lemma_event_fits(st: FlowRun, ev: Event, gran: Granularity)
    requires
        fits(st),
        load(st) + 2 < u32::MAX,
    ensures
        fits(fold_event(st, ev, gran)),
        load(fold_event(st, ev, gran)) <= load(st) + 1,
{
    match ev {
        Event::Link { new_tab_id, source_tab_id, .. } => {},
        Event::Close { tab_id, .. } => {
            if let Some(b) = a_get(st.buffer, tab_id) {
                lemma_index_valid(st.buffer, tab_id);
                lemma_flush_fits(FlowRun { buffer: a_del(st.buffer, tab_id), ..st }, b, tab_id);
            }
        },
        Event::Start { .. } => {
            lemma_flush_all_fits(st);
        },
        Event::Nav { tab_id, to_url, transition_type, qualifiers, ts, .. } => {
            match spec_node_key(to_url@, gran) {
                Some(host) => {
                    let prov = spec_classify(transition_type@);
                    if !(prov == Provenance::Reload || prov == Provenance::Other) {
                        lemma_nav_fits(
                            st,
                            tab_id,
                            host,
                            prov,
                            has_qual(qualifiers@, "client_redirect"@),
                            has_qual(qualifiers@, "forward_back"@),
                            ts,
                        );
                    }
                },
                None => {},
            }
        },
        _ => {},
    }
}

proof fn lemma_nav_fits(st: FlowRun, t: i64, host: Seq<char>, prov: Provenance, redirect: bool, fb: bool, ts: i64)
    requires
        fits(st),
        load(st) + 2 < u32::MAX,
    ensures
        fits(fold_nav(st, t, host, prov, redirect, fb, ts)),
        load(fold_nav(st, t, host, prov, redirect, fb, ts)) <= load(st) + 1,
{
    let held = a_get(st.buffer, t);
    if continues(held, redirect, ts) {
        lemma_index_valid(st.buffer, t);
    } else {
        let settled = match held {
            Some(b) => flush(FlowRun { buffer: a_del(st.buffer, t), ..st }, b, t),
            None => st,
        };
        if let Some(b) = held {
            lemma_index_valid(st.buffer, t);
            lemma_flush_fits(FlowRun { buffer: a_del(st.buffer, t), ..st }, b, t);
        }
        assert(load(settled) == load(st));
        assert(fits(settled));
        crate::assoc::lemma_put_len(settled.buffer, t);
    }
}

proof fn lemma_run_fits(events: Seq<Event>, gran: Granularity)
    requires
        events.len() + 2 < u32::MAX,
    ensures
        fits(session_run(events, gran)),
        load(session_run(events, gran)) <= events.len(),
    decreases events.len(),
{
    if events.len() > 0 {
        lemma_run_fits(events.drop_last(), gran);
        lemma_event_fits(session_run(events.drop_last(), gran), events.last(), gran);
    }
}

/// A navigation held back one step (see [`BufV`]).
pub struct Buf {
    pub origin: Option<(String, Provenance)>,
    pub to: String,
    pub prov: Provenance,
    pub ts: i64,
}

pub open spec fn page_v(p: (String, Provenance)) -> (Seq<char>, Provenance) {
    (p.0@, p.1)
}

pub open spec fn origin_v(o: Option<(String, Provenance)>) -> Option<(Seq<char>, Provenance)> {
    match o {
        Some(p) => Some(page_v(p)),
        None => None,
    }
}

pub open spec fn buf_v(b: Buf) -> BufV {
    BufV { origin: origin_v(b.origin), to: b.to@, prov: b.prov, ts: b.ts }
}

pub open spec fn page_f() -> spec_fn((String, Provenance)) -> (Seq<char>, Provenance) {
    |p: (String, Provenance)| page_v(p)
}

pub open spec fn buf_f() -> spec_fn(Buf) -> BufV {
    |b: Buf| buf_v(b)
}

pub open spec fn hp_v(s: Seq<(String, ProvBreakdown)>) -> Seq<(Seq<char>, ProvBreakdown)> {
    s.map_values(|e: (String, ProvBreakdown)| (e.0@, e.1))
}

pub open spec fn tk_v(s: Seq<((String, String), KindBreakdown)>) -> Seq<((Seq<char>, Seq<char>), KindBreakdown)> {
    s.map_values(|e: ((String, String), KindBreakdown)| ((e.0.0@, e.0.1@), e.1))
}

/// The executable state of the session fold.
pub struct Fold {
    pub current: Vec<(i64, (String, Provenance))>,
    pub buffer: Vec<(i64, Buf)>,
    pub pending: Vec<(i64, (String, Provenance))>,
    pub transitions: Vec<(String, String)>,
    pub starts: Vec<String>,
    pub host_prov: Vec<(String, ProvBreakdown)>,
    pub trans_kind: Vec<((String, String), KindBreakdown)>,
}

impl Fold {
    pub open spec fn run(self) -> FlowRun {
        FlowRun {
            current: vmap(self.current@, page_f()),
            buffer: vmap(self.buffer@, buf_f()),
            pending: vmap(self.pending@, page_f()),
            transitions: pairs_view(self.transitions@),
            starts: strs(self.starts@),
            host_prov: hp_v(self.host_prov@),
            trans_kind: tk_v(self.trans_kind@),
        }
    }
}

fn copy_page(p: &(String, Provenance)) -> (r: (String, Provenance))
    ensures
        page_v(r) == page_v(*p),
{
    (p.0.clone(), p.1)
}

fn copy_origin(o: &Option<(String, Provenance)>) -> (r: Option<(String, Provenance)>)
    ensures
        origin_v(r) == origin_v(*o),
{
    match o {
        Some(p) => Some(copy_page(p)),
        None => None,
    }
}

/// The page recorded for tab `t`, if any.
fn get_page(s: &Vec<(i64, (String, Provenance))>, t: i64) -> (r: Option<(String, Provenance)>)
    ensures
        origin_v(r) == a_get(vmap(s@, page_f()), t),
{
    proof {
        lemma_vmap(s@, page_f(), t, vstd::pervasive::arbitrary());
    }
    match tab_index(s, t) {
        Some(j) => Some(copy_page(&s[j].1)),
        None => None,
    }
}

fn put_page(s: &mut Vec<(i64, (String, Provenance))>, t: i64, v: (String, Provenance))
    ensures
        vmap(final(s)@, page_f()) == a_put(vmap(old(s)@, page_f()), t, page_v(v)),
{
    proof {
        lemma_vmap(s@, page_f(), t, v);
    }
    tab_put(s, t, v);
}

fn take_page(s: &mut Vec<(i64, (String, Provenance))>, t: i64) -> (r: Option<(String, Provenance)>)
    ensures
        vmap(final(s)@, page_f()) == a_del(vmap(old(s)@, page_f()), t),
        origin_v(r) == a_get(vmap(old(s)@, page_f()), t),
{
    proof {
        lemma_vmap(s@, page_f(), t, vstd::pervasive::arbitrary());
    }
    tab_take(s, t)
}

/// One more `p` for host `h`.
fn bump_prov(hp: &mut Vec<(String, ProvBreakdown)>, h: &str, p: Provenance)
    requires
        forall|i: int, q: Provenance| 0 <= i < old(hp)@.len() ==> #[trigger] old(hp)@[i].1.count(q) < u32::MAX,
    ensures
        hp_v(final(hp)@) == a_put(hp_v(old(hp)@), h@, prov_plus(prov_or_zero(a_get(hp_v(old(hp)@), h@)), p)),
{
    let ghost v0 = hp_v(hp@);
    let mut j: usize = 0;
    while j < hp.len()
        invariant
            j <= hp@.len(),
            hp@ == old(hp)@,
            v0 == hp_v(hp@),
            forall|i: int, q: Provenance| 0 <= i < hp@.len() ==> #[trigger] hp@[i].1.count(q) < u32::MAX,
            forall|a: int| 0 <= a < j ==> v0[a].0 != h@,
        decreases hp.len() - j,
    {
        if str_eq(hp[j].0.as_str(), h) {
            proof {
                lemma_first(v0, h@, j as int);
            }
            let mut b = hp[j].1;
            let ghost b0 = b;
            assert(b.count(p) < u32::MAX);
            b.add(p);
            proof {
                lemma_prov_plus(b0, b, p);
            }
            let k = hp[j].0.clone();
            hp.set(j, (k, b));
            proof {
                assert(hp_v(hp@) =~= v0.update(j as int, (h@, prov_plus(b0, p))));
            }
            return;
        }
        j += 1;
    }
    proof {
        lemma_absent(v0, h@);
    }
    let mut b = ProvBreakdown {
        link: 0,
        form: 0,
        typed_url: 0,
        search_origin: 0,
        bookmark: 0,
        start: 0,
        reload: 0,
        other: 0,
    };
    let ghost b0 = b;
    b.add(p);
    proof {
        lemma_prov_plus(b0, b, p);
    }
    hp.push((h.to_string(), b));
    proof {
        assert(hp_v(hp@) =~= v0.push((h@, prov_plus(zero_prov(), p))));
    }
}

/// One more `k` for hop `(o, t)`.
fn bump_kind(tk: &mut Vec<((String, String), KindBreakdown)>, o: &str, t: &str, k: EdgeKind)
    requires
        forall|i: int, q: EdgeKind| 0 <= i < old(tk)@.len() ==> #[trigger] old(tk)@[i].1.count(q) < u32::MAX,
    ensures
        tk_v(final(tk)@) == a_put(tk_v(old(tk)@), (o@, t@), kind_plus(kind_or_zero(a_get(tk_v(old(tk)@), (o@, t@))), k)),
{
    let ghost v0 = tk_v(tk@);
    let ghost key = (o@, t@);
    let mut j: usize = 0;
    while j < tk.len()
        invariant
            j <= tk@.len(),
            tk@ == old(tk)@,
            v0 == tk_v(tk@),
            key == (o@, t@),
            forall|i: int, q: EdgeKind| 0 <= i < tk@.len() ==> #[trigger] tk@[i].1.count(q) < u32::MAX,
            forall|a: int| 0 <= a < j ==> v0[a].0 != key,
        decreases tk.len() - j,
    {
        if str_eq(tk[j].0.0.as_str(), o) && str_eq(tk[j].0.1.as_str(), t) {
            proof {
                lemma_first(v0, key, j as int);
            }
            let mut b = tk[j].1;
            let ghost b0 = b;
            assert(b.count(k) < u32::MAX);
            b.add(k);
            proof {
                lemma_kind_plus(b0, b, k);
            }
            let kk = (tk[j].0.0.clone(), tk[j].0.1.clone());
            tk.set(j, (kk, b));
            proof {
                assert(tk_v(tk@) =~= v0.update(j as int, (key, kind_plus(b0, k))));
            }
            return;
        }
        j += 1;
    }
    proof {
        lemma_absent(v0, key);
    }
    let mut b = KindBreakdown { link: 0, search_link: 0, form: 0 };
    let ghost b0 = b;
    b.add(k);
    proof {
        lemma_kind_plus(b0, b, k);
    }
    tk.push(((o.to_string(), t.to_string()), b));
    proof {
        assert(tk_v(tk@) =~= v0.push((key, kind_plus(zero_kind(), k))));
    }
}

proof fn lemma_prov_plus(b: ProvBreakdown, b2: ProvBreakdown, p: Provenance)
    requires
        b2.count(p) == b.count(p) + 1,
        forall|q: Provenance| q != p ==> b2.count(q) == b.count(q),
    ensures
        b2 == prov_plus(b, p),
{
    assert(b2.count(Provenance::Link) == prov_plus(b, p).count(Provenance::Link));
    assert(b2.count(Provenance::Form) == prov_plus(b, p).count(Provenance::Form));
    assert(b2.count(Provenance::TypedUrl) == prov_plus(b, p).count(Provenance::TypedUrl));
    assert(b2.count(Provenance::SearchOrigin) == prov_plus(b, p).count(Provenance::SearchOrigin));
    assert(b2.count(Provenance::Bookmark) == prov_plus(b, p).count(Provenance::Bookmark));
    assert(b2.count(Provenance::Start) == prov_plus(b, p).count(Provenance::Start));
    assert(b2.count(Provenance::Reload) == prov_plus(b, p).count(Provenance::Reload));
    assert(b2.count(Provenance::Other) == prov_plus(b, p).count(Provenance::Other));
}

proof fn lemma_kind_plus(b: KindBreakdown, b2: KindBreakdown, k: EdgeKind)
    requires
        b2.count(k) == b.count(k) + 1,
        forall|q: EdgeKind| q != k ==> b2.count(q) == b.count(q),
    ensures
        b2 == kind_plus(b, k),
{
    assert(b2.count(EdgeKind::Link) == kind_plus(b, k).count(EdgeKind::Link));
    assert(b2.count(EdgeKind::SearchLink) == kind_plus(b, k).count(EdgeKind::SearchLink));
    assert(b2.count(EdgeKind::Form) == kind_plus(b, k).count(EdgeKind::Form));
}

/// The held navigation of tab `t`, taken out of the buffer.
fn take_buf(f: &mut Fold, t: i64) -> (r: Option<Buf>)
    ensures
        final(f).run() == (FlowRun { buffer: a_del(old(f).run().buffer, t), ..old(f).run() }),
        match r {
            Some(b) => a_get(old(f).run().buffer, t) == Some(buf_v(b)),
            None => a_get(old(f).run().buffer, t) is None,
        },
{
    proof {
        lemma_vmap(f.buffer@, buf_f(), t, vstd::pervasive::arbitrary());
    }
    tab_take(&mut f.buffer, t)
}

/// Hold navigation `b` for tab `t`.
fn hold(f: &mut Fold, t: i64, b: Buf)
    ensures
        final(f).run() == (FlowRun { buffer: a_put(old(f).run().buffer, t, buf_v(b)), ..old(f).run() }),
{
    proof {
        lemma_vmap(f.buffer@, buf_f(), t, b);
    }
    tab_put(&mut f.buffer, t, b);
}

/// Settle navigation `b` of tab `t` (see [`flush`]).
fn settle(f: &mut Fold, b: Buf, t: i64)
    requires
        fits(old(f).run()),
        old(f).run().transitions.len() + old(f).run().starts.len() + 1 < u32::MAX,
    ensures
        final(f).run() == flush(old(f).run(), buf_v(b), t),
{
    let ghost st = f.run();
    let ghost bv = buf_v(b);
    proof {
        assert forall|i: int, q: Provenance| 0 <= i < f.host_prov@.len() implies #[trigger] f.host_prov@[i].1.count(q) < u32::MAX by {
            assert(st.host_prov[i].1.count(q) <= st.transitions.len() + st.starts.len());
        }
        assert forall|i: int, q: EdgeKind| 0 <= i < f.trans_kind@.len() implies #[trigger] f.trans_kind@[i].1.count(q) < u32::MAX by {
            assert(st.trans_kind[i].1.count(q) <= st.transitions.len());
        }
    }
    bump_prov(&mut f.host_prov, b.to.as_str(), b.prov);
    let mut chained = false;
    if b.prov == Provenance::Link || b.prov == Provenance::Form {
        match &b.origin {
            Some(o) => {
                if !str_eq(o.0.as_str(), b.to.as_str()) {
                    let kind = if o.1 == Provenance::SearchOrigin {
                        EdgeKind::SearchLink
                    } else if b.prov == Provenance::Form {
                        EdgeKind::Form
                    } else {
                        EdgeKind::Link
                    };
                    bump_kind(&mut f.trans_kind, o.0.as_str(), b.to.as_str(), kind);
                    f.transitions.push((o.0.clone(), b.to.clone()));
                    chained = true;
                }
            },
            None => {},
        }
    }
    if !chained {
        f.starts.push(b.to.clone());
    }
    let prov = b.prov;
    put_page(&mut f.current, t, (b.to, prov));
    proof {
        let r = flush(st, bv, t);
        assert(f.run().host_prov == r.host_prov);
        assert(f.run().current == r.current);
        assert(f.run().transitions =~= r.transitions);
        assert(f.run().starts =~= r.starts);
        assert(f.run().trans_kind == r.trans_kind);
    }
}

/// Settle every held navigation in increasing tab order.
fn settle_all(f: &mut Fold)
    requires
        fits(old(f).run()),
        load(old(f).run()) + 1 < u32::MAX,
    ensures
        final(f).run() == flush_all(old(f).run()),
{
    while f.buffer.len() > 0
        invariant
            fits(f.run()),
            load(f.run()) == load(old(f).run()),
            load(old(f).run()) + 1 < u32::MAX,
            flush_all(f.run()) == flush_all(old(f).run()),
        decreases f.buffer.len(),
    {
        let ghost st = f.run();
        let t = min_tab(&f.buffer);
        proof {
            lemma_min_key(st.buffer);
            let m = min_key(st.buffer);
            let i = choose|i: int| 0 <= i < st.buffer.len() && st.buffer[i].0 == m;
            let k = choose|k: int| 0 <= k < f.buffer@.len() && f.buffer@[k].0 == t;
            assert(st.buffer[k].0 == t);
            assert(f.buffer@[i].0 == m);
            assert(t == m);
            lemma_present(st.buffer, t, i);
        }
        let b = take_buf(f, t);
        match b {
            Some(b) => {
                proof {
                    lemma_flush_fits(FlowRun { buffer: a_del(st.buffer, t), ..st }, buf_v(b), t);
                }
                settle(f, b, t);
            },
            None => {},
        }
    }
}

/// Whether some qualifier equals `q`.
pub(crate) fn has_qualifier(qs: &Vec<String>, q: &str) -> (r: bool)
    ensures
        r == has_qual(qs@, q@),
{
    let mut j: usize = 0;
    while j < qs.len()
        invariant
            j <= qs@.len(),
            forall|a: int| 0 <= a < j ==> qs@[a]@ != q@,
        decreases qs.len() - j,
    {
        if str_eq(qs[j].as_str(), q) {
            return true;
        }
        j += 1;
    }
    false
}

/// One navigation (see [`fold_nav`]).
fn nav_step(f: &mut Fold, t: i64, host: String, prov: Provenance, redirect: bool, fb: bool, ts: i64)
    requires
        fits(old(f).run()),
        load(old(f).run()) + 2 < u32::MAX,
    ensures
        final(f).run() == fold_nav(old(f).run(), t, host@, prov, redirect, fb, ts),
{
    let ghost st = f.run();
    proof {
        lemma_vmap(f.buffer@, buf_f(), t, vstd::pervasive::arbitrary());
    }
    if redirect {
        match tab_index(&f.buffer, t) {
            Some(j) => {
                if (ts as i128) - (f.buffer[j].1.ts as i128) < REDIRECT_WINDOW_MS as i128 {
                    let origin = copy_origin(&f.buffer[j].1.origin);
                    hold(f, t, Buf { origin, to: host, prov, ts });
                    return;
                }
            },
            None => {},
        }
    }
    let held = take_buf(f, t);
    match held {
        Some(b) => {
            proof {
                lemma_index_valid(st.buffer, t);
                lemma_flush_fits(FlowRun { buffer: a_del(st.buffer, t), ..st }, buf_v(b), t);
            }
            settle(f, b, t);
        },
        None => {},
    }
    let ghost settled = f.run();
    if fb {
        put_page(&mut f.current, t, (host, prov));
        return;
    }
    match get_page(&f.current, t) {
        Some(c) => {
            if str_eq(c.0.as_str(), host.as_str()) {
                return;
            }
        },
        None => {},
    }
    let origin = if prov == Provenance::Link || prov == Provenance::Form {
        match take_page(&mut f.pending, t) {
            Some(p) => Some(p),
            None => get_page(&f.current, t),
        }
    } else {
        take_page(&mut f.pending, t);
        None
    };
    hold(f, t, Buf { origin, to: host, prov, ts });
}

/// Some transition leads to `h`.
pub open spec fn is_target(tv: Seq<(Seq<char>, Seq<char>)>, h: Seq<char>) -> bool {
    exists|a: int| 0 <= a < tv.len() && tv[a].1 == h
}

/// The starts whose host is (`want`) or is not (`!want`) a transition target, in order.
pub open spec fn starts_where(starts: Seq<Seq<char>>, tv: Seq<(Seq<char>, Seq<char>)>, want: bool) -> Seq<Seq<char>>
    decreases starts.len(),
{
    if starts.len() == 0 {
        Seq::empty()
    } else {
        let r = starts_where(starts.drop_last(), tv, want);
        if is_target(tv, starts.last()) == want {
            r.push(starts.last())
        } else {
            r
        }
    }
}

/// The dominant provenance of a histogram (see [`ProvBreakdown::is_dominant`]).
pub open spec fn prov_dominant(b: ProvBreakdown) -> Provenance {
    choose|p: Provenance| b.is_dominant(p)
}

pub open spec fn kind_dominant(b: KindBreakdown) -> EdgeKind {
    choose|k: EdgeKind| b.is_dominant(k)
}

pub proof fn lemma_prov_dominant(b: ProvBreakdown, p: Provenance)
    requires
        b.is_dominant(p),
    ensures
        prov_dominant(b) == p,
{
    let q = prov_dominant(b);
    assert(b.is_dominant(q));
    if q != p {
        assert(b.count(q) == b.count(p));
        if prov_rank(q) < prov_rank(p) {
            assert(b.count(q) < b.count(p));
        } else {
            assert(prov_rank(p) != prov_rank(q));
            assert(b.count(p) < b.count(q));
        }
    }
}

proof fn lemma_kind_dominant(b: KindBreakdown, k: EdgeKind)
    requires
        b.is_dominant(k),
    ensures
        kind_dominant(b) == k,
{
    let q = kind_dominant(b);
    assert(b.is_dominant(q));
    if q != k {
        assert(b.count(q) == b.count(k));
        if kind_rank(q) < kind_rank(k) {
            assert(b.count(q) < b.count(k));
        } else {
            assert(kind_rank(k) != kind_rank(q));
            assert(b.count(k) < b.count(q));
        }
    }
}

/// `g` is `g0` with each bar colored by how its host was usually reached
/// and each ribbon by the usual kind of its hop.
pub open spec fn attached(
    g: FlowGraph,
    g0: FlowGraph,
    hp: Seq<(Seq<char>, ProvBreakdown)>,
    tk: Seq<((Seq<char>, Seq<char>), KindBreakdown)>,
) -> bool {
    &&& g.layers == g0.layers
    &&& g.nodes@.len() == g0.nodes@.len()
    &&& g.links@.len() == g0.links@.len()
    &&& forall|i: int|
        0 <= i < g.nodes@.len() ==> {
            let nd = #[trigger] g.nodes@[i];
            let n0 = g0.nodes@[i];
            &&& nd.key@ == n0.key@
            &&& nd.layer == n0.layer
            &&& nd.throughput == n0.throughput
            &&& nd.prov == match a_get(hp, n0.key@) {
                Some(b) => spec_display(prov_dominant(b)),
                None => n0.prov,
            }
        }
    &&& forall|l: int|
        0 <= l < g.links@.len() ==> {
            let k = #[trigger] g.links@[l];
            let k0 = g0.links@[l];
            &&& k.from == k0.from
            &&& k.to == k0.to
            &&& k.weight == k0.weight
            &&& k.kind == match a_get(tk, (g0.nodes@[k0.from as int].key@, g0.nodes@[k0.to as int].key@)) {
                Some(b) => kind_dominant(b),
                None => k0.kind,
            }
        }
}

/// The session flow of `events`: fold them, settle what is still held,
/// pin the starts that no transition leads to and detach the others, build
/// the layered flow, then color bars and ribbons.
pub open spec fn session_flow(g: FlowGraph, events: Seq<Event>, gran: Granularity) -> bool {
    let fs = flush_all(session_run(events, gran));
    let pinned = starts_where(fs.starts, fs.transitions, false);
    let detached = starts_where(fs.starts, fs.transitions, true);
    exists|g0: FlowGraph| #[trigger] is_flow(g0, fs.transitions, pinned, detached) && attached(g, g0, fs.host_prov, fs.trans_kind)
}

fn hp_index(hp: &Vec<(String, ProvBreakdown)>, h: &str) -> (r: Option<usize>)
    ensures
        match r {
            Some(j) => j < hp@.len() && a_get(hp_v(hp@), h@) == Some(hp@[j as int].1),
            None => a_get(hp_v(hp@), h@) is None,
        },
{
    let ghost v = hp_v(hp@);
    let mut j: usize = 0;
    while j < hp.len()
        invariant
            j <= hp@.len(),
            v == hp_v(hp@),
            forall|a: int| 0 <= a < j ==> v[a].0 != h@,
        decreases hp.len() - j,
    {
        if str_eq(hp[j].0.as_str(), h) {
            proof {
                lemma_first(v, h@, j as int);
            }
            return Some(j);
        }
        j += 1;
    }
    proof {
        lemma_absent(v, h@);
    }
    None
}

fn tk_index(tk: &Vec<((String, String), KindBreakdown)>, o: &str, t: &str) -> (r: Option<usize>)
    ensures
        match r {
            Some(j) => j < tk@.len() && a_get(tk_v(tk@), (o@, t@)) == Some(tk@[j as int].1),
            None => a_get(tk_v(tk@), (o@, t@)) is None,
        },
{
    let ghost v = tk_v(tk@);
    let ghost key = (o@, t@);
    let mut j: usize = 0;
    while j < tk.len()
        invariant
            j <= tk@.len(),
            v == tk_v(tk@),
            key == (o@, t@),
            forall|a: int| 0 <= a < j ==> v[a].0 != key,
        decreases tk.len() - j,
    {
        if str_eq(tk[j].0.0.as_str(), o) && str_eq(tk[j].0.1.as_str(), t) {
            proof {
                lemma_first(v, key, j as int);
            }
            return Some(j);
        }
        j += 1;
    }
    proof {
        lemma_absent(v, key);
    }
    None
}

/// Whether some transition leads to `h`.
fn targets(transitions: &Vec<(String, String)>, h: &str) -> (r: bool)
    ensures
        r == is_target(pairs_view(transitions@), h@),
{
    let mut a: usize = 0;
    while a < transitions.len()
        invariant
            a <= transitions@.len(),
            forall|b: int| 0 <= b < a ==> pairs_view(transitions@)[b].1 != h@,
        decreases transitions.len() - a,
    {
        if str_eq(transitions[a].1.as_str(), h) {
            proof {
                assert(pairs_view(transitions@)[a as int].1 == h@);
            }
            return true;
        }
        a += 1;
    }
    false
}

proof fn lemma_links_in_range(g: FlowGraph, tv: Seq<(Seq<char>, Seq<char>)>, pv: Seq<Seq<char>>, dv: Seq<Seq<char>>)
    requires
        is_flow(g, tv, pv, dv),
    ensures
        forall|l: int|
            0 <= l < g.links@.len() ==> (#[trigger] g.links@[l]).from < g.nodes@.len() && g.links@[l].to < g.nodes@.len(),
{
    if !(crate::flow::flow_keys(tv, pv).len() == 0 && dv.len() == 0) {
        let (back, det) = choose|back: Seq<bool>, det: Seq<crate::tally::Row>| #[trigger] crate::flow::flow_with(g, tv, pv, dv, back, det);
        assert forall|l: int| 0 <= l < g.links@.len() implies (#[trigger] g.links@[l]).from < g.nodes@.len() && g.links@[l].to
            < g.nodes@.len() by {
            let k = g.links@[l];
        }
    }
}

/// Build the session flow directly from a session's raw events, honoring how
/// each page was reached: link and form navigations chain (from the tab's
/// page, or for a link opened in a new tab from the source page); typed,
/// bookmark, search and start navigations begin a new flow, and when such a
/// landing host is also a mid-chain node it draws as its own standalone
/// start; reloads change nothing; redirect bursts collapse onto the landing
/// host; back/forward moves only advance the tab's position.
pub fn from_session_events(events: &[Event], gran: Granularity) -> (g: FlowGraph)
    requires
        3 * events@.len() < u32::MAX,
    ensures
        session_flow(g, events@, gran),
{
    let mut f = Fold {
        current: Vec::new(),
        buffer: Vec::new(),
        pending: Vec::new(),
        transitions: Vec::new(),
        starts: Vec::new(),
        host_prov: Vec::new(),
        trans_kind: Vec::new(),
    };
    let mut i: usize = 0;
    proof {
        assert(events@.take(0) =~= Seq::<Event>::empty());
        assert(f.run().current =~= Seq::<(i64, (Seq<char>, Provenance))>::empty());
        assert(f.run().buffer =~= Seq::<(i64, BufV)>::empty());
        assert(f.run().pending =~= Seq::<(i64, (Seq<char>, Provenance))>::empty());
        assert(f.run().transitions =~= Seq::<(Seq<char>, Seq<char>)>::empty());
        assert(f.run().starts =~= Seq::<Seq<char>>::empty());
        assert(f.run().host_prov =~= Seq::<(Seq<char>, ProvBreakdown)>::empty());
        assert(f.run().trans_kind =~= Seq::<((Seq<char>, Seq<char>), KindBreakdown)>::empty());
        assert(f.run() == session_run(events@.take(0), gran));
    }
    while i < events.len()
        invariant
            i <= events@.len(),
            3 * events@.len() < u32::MAX,
            f.run() == session_run(events@.take(i as int), gran),
            fits(f.run()),
            load(f.run()) <= i,
        decreases events.len() - i,
    {
        let ghost st = f.run();
        proof {
            assert(events@.take(i + 1).drop_last() =~= events@.take(i as int));
            lemma_event_fits(st, events@[i as int], gran);
        }
        match &events[i] {
            Event::Link { new_tab_id, source_tab_id, .. } => {
                proof {
                    lemma_vmap(f.buffer@, buf_f(), *source_tab_id, vstd::pervasive::arbitrary());
                }
                let o = match tab_index(&f.buffer, *source_tab_id) {
                    Some(j) => Some((f.buffer[j].1.to.clone(), f.buffer[j].1.prov)),
                    None => get_page(&f.current, *source_tab_id),
                };
                match o {
                    Some(p) => {
                        put_page(&mut f.pending, *new_tab_id, p);
                    },
                    None => {},
                }
            },
            Event::Close { tab_id, .. } => {
                let t = *tab_id;
                match take_buf(&mut f, t) {
                    Some(b) => {
                        proof {
                            lemma_index_valid(st.buffer, t);
                            lemma_flush_fits(FlowRun { buffer: a_del(st.buffer, t), ..st }, buf_v(b), t);
                        }
                        settle(&mut f, b, t);
                    },
                    None => {},
                }
            },
            Event::Start { .. } => {
                settle_all(&mut f);
            },
            Event::Nav { tab_id, to_url, transition_type, qualifiers, ts, .. } => {
                match node_key(to_url.as_str(), gran) {
                    Some(host) => {
                        let prov = classify(transition_type.as_str());
                        if !prov.is_ignored() {
                            let redirect = has_qualifier(qualifiers, "client_redirect");
                            let fb = has_qualifier(qualifiers, "forward_back");
                            nav_step(&mut f, *tab_id, host, prov, redirect, fb, *ts);
                        }
                    },
                    None => {},
                }
            },
            _ => {},
        }
        i += 1;
    }
    proof {
        assert(events@.take(events@.len() as int) =~= events@);
    }
    settle_all(&mut f);
    let ghost fs = f.run();
    proof {
        lemma_flush_all_fits(session_run(events@, gran));
    }
    // Starts that are also link targets become standalone entry points.
    let mut pinned: Vec<String> = Vec::new();
    let mut detached: Vec<String> = Vec::new();
    let mut a: usize = 0;
    proof {
        assert(fs.starts.take(0) =~= Seq::<Seq<char>>::empty());
    }
    while a < f.starts.len()
        invariant
            a <= f.starts@.len(),
            fs == f.run(),
            strs(pinned@) == starts_where(fs.starts.take(a as int), fs.transitions, false),
            strs(detached@) == starts_where(fs.starts.take(a as int), fs.transitions, true),
            pinned@.len() + detached@.len() == a,
        decreases f.starts.len() - a,
    {
        proof {
            assert(fs.starts.take(a + 1).drop_last() =~= fs.starts.take(a as int));
            assert(fs.starts.take(a + 1).last() == f.starts@[a as int]@);
        }
        if targets(&f.transitions, f.starts[a].as_str()) {
            detached.push(f.starts[a].clone());
            proof {
                assert(strs(detached@) =~= starts_where(fs.starts.take(a as int), fs.transitions, true).push(f.starts@[a as int]@));
            }
        } else {
            pinned.push(f.starts[a].clone());
            proof {
                assert(strs(pinned@) =~= starts_where(fs.starts.take(a as int), fs.transitions, false).push(f.starts@[a as int]@));
            }
        }
        a += 1;
    }
    proof {
        assert(fs.starts.take(f.starts@.len() as int) =~= fs.starts);
    }
    let mut g = build_flow(f.transitions.as_slice(), pinned.as_slice(), detached.as_slice());
    let ghost g0 = g;
    proof {
        lemma_links_in_range(g0, fs.transitions, strs(pinned@), strs(detached@));
    }
    // Color each bar by how its host was usually reached.
    let mut i: usize = 0;
    while i < g.nodes.len()
        invariant
            i <= g.nodes@.len(),
            g.nodes@.len() == g0.nodes@.len(),
            g.links@ == g0.links@,
            g.layers == g0.layers,
            fs == f.run(),
            forall|x: int|
                i <= x < g.nodes@.len() ==> #[trigger] g.nodes@[x] == g0.nodes@[x],
            forall|x: int|
                0 <= x < i ==> {
                    let nd = #[trigger] g.nodes@[x];
                    let n0 = g0.nodes@[x];
                    &&& nd.key@ == n0.key@
                    &&& nd.layer == n0.layer
                    &&& nd.throughput == n0.throughput
                    &&& nd.prov == match a_get(fs.host_prov, n0.key@) {
                        Some(b) => spec_display(prov_dominant(b)),
                        None => n0.prov,
                    }
                },
        decreases g.nodes.len() - i,
    {
        match hp_index(&f.host_prov, g.nodes[i].key.as_str()) {
            Some(j) => {
                let d = f.host_prov[j].1.dominant();
                proof {
                    lemma_prov_dominant(f.host_prov@[j as int].1, d);
                }
                let shown = d.display();
                let nd = crate::flow::FlowNode {
                    key: g.nodes[i].key.clone(),
                    layer: g.nodes[i].layer,
                    throughput: g.nodes[i].throughput,
                    prov: shown,
                };
                g.nodes.set(i, nd);
            },
            None => {},
        }
        i += 1;
    }
    // Color each ribbon by the usual kind of its hop.
    let ghost gn = g.nodes@;
    let mut l: usize = 0;
    while l < g.links.len()
        invariant
            l <= g.links@.len(),
            g.links@.len() == g0.links@.len(),
            g.layers == g0.layers,
            g.nodes@.len() == g0.nodes@.len(),
            g.nodes@ == gn,
            forall|x: int| 0 <= x < g.nodes@.len() ==> (#[trigger] g.nodes@[x]).key@ == g0.nodes@[x].key@,
            forall|x: int|
                0 <= x < g0.links@.len() ==> (#[trigger] g0.links@[x]).from < g0.nodes@.len() && g0.links@[x].to < g0.nodes@.len(),
            fs == f.run(),
            forall|x: int| l <= x < g.links@.len() ==> #[trigger] g.links@[x] == g0.links@[x],
            forall|x: int|
                0 <= x < l ==> {
                    let k = #[trigger] g.links@[x];
                    let k0 = g0.links@[x];
                    &&& k.from == k0.from
                    &&& k.to == k0.to
                    &&& k.weight == k0.weight
                    &&& k.kind == match a_get(fs.trans_kind, (g0.nodes@[k0.from as int].key@, g0.nodes@[k0.to as int].key@)) {
                        Some(b) => kind_dominant(b),
                        None => k0.kind,
                    }
                },
        decreases g.links.len() - l,
    {
        let k = g.links[l];
        proof {
            assert(g.links@[l as int] == g0.links@[l as int]);
        }
        match tk_index(&f.trans_kind, g.nodes[k.from].key.as_str(), g.nodes[k.to].key.as_str()) {
            Some(j) => {
                let d = f.trans_kind[j].1.dominant();
                proof {
                    lemma_kind_dominant(f.trans_kind@[j as int].1, d);
                }
                g.links.set(l, crate::flow::FlowLink { from: k.from, to: k.to, weight: k.weight, kind: d });
            },
            None => {},
        }
        l += 1;
    }
    proof {
        assert(attached(g, g0, fs.host_prov, fs.trans_kind));
    }
    g
}

/// The state of the chain fold: per tab the current link/form chain, the
/// spawn origin of a tab opened from a link, and the last navigation time;
/// plus the finished chains.
pub struct ChainRun {
    pub cur: Seq<(i64, Seq<Seq<char>>)>,
    pub pending: Seq<(i64, Seq<char>)>,
    pub last_ts: Seq<(i64, i64)>,
    pub out: Seq<Seq<Seq<char>>>,
}

/// End tab `t`'s chain, keeping it when it is an actual journey (two hosts or more).
pub open spec fn end_chain(st: ChainRun, t: i64) -> ChainRun {
    match a_get(st.cur, t) {
        Some(c) => ChainRun {
            cur: a_del(st.cur, t),
            out: if c.len() >= 2 {
                st.out.push(c)
            } else {
                st.out
            },
            ..st
        },
        None => st,
    }
}

/// End every open chain in increasing tab order.
pub open spec fn end_all(st: ChainRun) -> ChainRun
    decreases st.cur.len(),
{
    if st.cur.len() == 0 {
        st
    } else {
        let t = min_key(st.cur);
        proof {
            lemma_min_key(st.cur);
            let i = choose|i: int| 0 <= i < st.cur.len() && st.cur[i].0 == t;
            lemma_present(st.cur, t, i);
        }
        end_all(end_chain(st, t))
    }
}

/// One navigation of tab `t` to `host` in the chain fold.
pub open spec fn chain_nav(st: ChainRun, t: i64, host: Seq<char>, prov: Provenance, redirect: bool, fb: bool, ts: i64) -> ChainRun {
    let recent = match a_get(st.last_ts, t) {
        Some(p) => ts - p < REDIRECT_WINDOW_MS,
        None => false,
    };
    let st1 = ChainRun { last_ts: a_put(st.last_ts, t, ts), ..st };
    let chain = a_get(st1.cur, t);
    if redirect && recent {
        // Collapse the redirect onto the landing host in place.
        match chain {
            Some(c) => ChainRun {
                cur: a_put(
                    st1.cur,
                    t,
                    if c.len() > 0 {
                        c.update(c.len() - 1, host)
                    } else {
                        c.push(host)
                    },
                ),
                ..st1
            },
            None => st1,
        }
    } else if fb {
        st1
    } else if chain is Some && chain.unwrap().len() > 0 && chain.unwrap().last() == host {
        st1
    } else if prov == Provenance::Link || prov == Provenance::Form {
        let c = match chain {
            Some(c) => c,
            None => Seq::empty(),
        };
        let grown = if c.len() == 0 {
            match a_get(st1.pending, t) {
                Some(o) => seq![o, host],
                None => seq![host],
            }
        } else {
            c.push(host)
        };
        ChainRun { cur: a_put(st1.cur, t, grown), pending: a_del(st1.pending, t), ..st1 }
    } else {
        // Rootless: end the current chain and begin a fresh one.
        let st2 = end_chain(ChainRun { pending: a_del(st1.pending, t), ..st1 }, t);
        ChainRun { cur: a_put(st2.cur, t, seq![host]), ..st2 }
    }
}

/// One event of the chain fold.
pub open spec fn chain_event(st: ChainRun, ev: Event, gran: Granularity) -> ChainRun {
    match ev {
        Event::Link { new_tab_id, source_tab_id, .. } => match a_get(st.cur, source_tab_id) {
            Some(c) => if c.len() > 0 {
                ChainRun { pending: a_put(st.pending, new_tab_id, c.last()), ..st }
            } else {
                st
            },
            None => st,
        },
        Event::Close { tab_id, .. } => end_chain(st, tab_id),
        Event::Start { .. } => end_all(st),
        Event::Nav { tab_id, to_url, transition_type, qualifiers, ts, .. } => match spec_node_key(to_url@, gran) {
            Some(host) => {
                let prov = spec_classify(transition_type@);
                if prov == Provenance::Reload || prov == Provenance::Other {
                    st
                } else {
                    chain_nav(
                        st,
                        tab_id,
                        host,
                        prov,
                        has_qual(qualifiers@, "client_redirect"@),
                        has_qual(qualifiers@, "forward_back"@),
                        ts,
                    )
                }
            },
            None => st,
        },
        _ => st,
    }
}

pub open spec fn chain_run(events: Seq<Event>, gran: Granularity) -> ChainRun
    decreases events.len(),
{
    if events.len() == 0 {
        ChainRun { cur: Seq::empty(), pending: Seq::empty(), last_ts: Seq::empty(), out: Seq::empty() }
    } else {
        chain_event(chain_run(events.drop_last(), gran), events.last(), gran)
    }
}

pub open spec fn chain_f() -> spec_fn(Vec<String>) -> Seq<Seq<char>> {
    |c: Vec<String>| strs(c@)
}

pub open spec fn str_f() -> spec_fn(String) -> Seq<char> {
    |h: String| h@
}

/// The executable state of the chain fold.
pub struct ChainFold {
    pub cur: Vec<(i64, Vec<String>)>,
    pub pending: Vec<(i64, String)>,
    pub last_ts: Vec<(i64, i64)>,
    pub out: Vec<Vec<String>>,
}

impl ChainFold {
    pub open spec fn run(self) -> ChainRun {
        ChainRun {
            cur: vmap(self.cur@, chain_f()),
            pending: vmap(self.pending@, str_f()),
            last_ts: self.last_ts@,
            out: crate::flow::chains_view(self.out@),
        }
    }
}

fn copy_chain(c: &Vec<String>) -> (r: Vec<String>)
    ensures
        strs(r@) == strs(c@),
{
    let mut r: Vec<String> = Vec::new();
    let mut i: usize = 0;
    while i < c.len()
        invariant
            i <= c@.len(),
            r@.len() == i,
            strs(r@) == strs(c@).take(i as int),
        decreases c.len() - i,
    {
        r.push(c[i].clone());
        proof {
            assert(strs(r@) =~= strs(c@).take(i + 1));
        }
        i += 1;
    }
    proof {
        assert(strs(c@).take(c@.len() as int) =~= strs(c@));
    }
    r
}

fn end_tab(f: &mut ChainFold, t: i64)
    ensures
        final(f).run() == end_chain(old(f).run(), t),
{
    proof {
        lemma_vmap(f.cur@, chain_f(), t, vstd::pervasive::arbitrary());
    }
    match tab_take(&mut f.cur, t) {
        Some(c) => {
            if c.len() >= 2 {
                f.out.push(c);
                proof {
                    assert(f.run().out =~= old(f).run().out.push(strs(c@)));
                }
            }
        },
        None => {},
    }
}

fn end_every(f: &mut ChainFold)
    ensures
        final(f).run() == end_all(old(f).run()),
{
    while f.cur.len() > 0
        invariant
            end_all(f.run()) == end_all(old(f).run()),
        decreases f.cur.len(),
    {
        let ghost st = f.run();
        let t = min_tab(&f.cur);
        proof {
            lemma_min_key(st.cur);
            let m = min_key(st.cur);
            let i = choose|i: int| 0 <= i < st.cur.len() && st.cur[i].0 == m;
            let k = choose|k: int| 0 <= k < f.cur@.len() && f.cur@[k].0 == t;
            assert(st.cur[k].0 == t);
            assert(f.cur@[i].0 == m);
            assert(t == m);
            lemma_present(st.cur, t, i);
            lemma_present(f.cur@, t, i);
        }
        end_tab(f, t);
    }
}

fn chain_step(f: &mut ChainFold, t: i64, host: String, prov: Provenance, redirect: bool, fb: bool, ts: i64)
    ensures
        final(f).run() == chain_nav(old(f).run(), t, host@, prov, redirect, fb, ts),
{
    let ghost st = f.run();
    let recent = match tab_index(&f.last_ts, t) {
        Some(j) => (ts as i128) - (f.last_ts[j].1 as i128) < REDIRECT_WINDOW_MS as i128,
        None => false,
    };
    tab_put(&mut f.last_ts, t, ts);
    proof {
        lemma_vmap(f.cur@, chain_f(), t, vstd::pervasive::arbitrary());
        lemma_vmap(f.pending@, str_f(), t, vstd::pervasive::arbitrary());
    }
    let ci = tab_index(&f.cur, t);
    if redirect && recent {
        match ci {
            Some(j) => {
                let mut c = copy_chain(&f.cur[j].1);
                let ghost c0 = strs(c@);
                if c.len() > 0 {
                    let last = c.len() - 1;
                    c.set(last, host);
                    proof {
                        assert(strs(c@) =~= c0.update(c0.len() - 1, host@));
                    }
                } else {
                    c.push(host);
                    proof {
                        assert(strs(c@) =~= c0.push(host@));
                    }
                }
                proof {
                    lemma_vmap(f.cur@, chain_f(), t, c);
                }
                tab_put(&mut f.cur, t, c);
            },
            None => {},
        }
        return;
    }
    if fb {
        return;
    }
    match ci {
        Some(j) => {
            let n = f.cur[j].1.len();
            if n > 0 && str_eq(f.cur[j].1[n - 1].as_str(), host.as_str()) {
                proof {
                    assert(strs(f.cur@[j as int].1@).last() == host@);
                }
                return;
            }
        },
        None => {},
    }
    if prov == Provenance::Link || prov == Provenance::Form {
        let mut c = match ci {
            Some(j) => copy_chain(&f.cur[j].1),
            None => Vec::new(),
        };
        let ghost c0 = strs(c@);
        proof {
            assert(c0 == match a_get(st.cur, t) {
                Some(c) => c,
                None => Seq::<Seq<char>>::empty(),
            });
        }
        let was_empty = c.len() == 0;
        let o = tab_take(&mut f.pending, t);
        let ghost ov: Option<Seq<char>> = match &o {
            Some(x) => Some(x@),
            None => None,
        };
        if was_empty {
            match o {
                Some(origin) => {
                    c.push(origin);
                },
                None => {},
            }
        }
        c.push(host);
        proof {
            if was_empty {
                match ov {
                    Some(origin) => {
                        assert(strs(c@) =~= seq![origin, host@]);
                    },
                    None => {
                        assert(strs(c@) =~= seq![host@]);
                    },
                }
            } else {
                assert(strs(c@) =~= c0.push(host@));
            }
            lemma_vmap(f.cur@, chain_f(), t, c);
        }
        tab_put(&mut f.cur, t, c);
    } else {
        tab_take(&mut f.pending, t);
        end_tab(f, t);
        let mut c: Vec<String> = Vec::new();
        c.push(host);
        proof {
            assert(strs(c@) =~= seq![host@]);
            lemma_vmap(f.cur@, chain_f(), t, c);
        }
        tab_put(&mut f.cur, t, c);
    }
}

/// Reconstruct the per-tab link/form chains of a session, for journey
/// mining: each chain is the host sequence of one natural traversal; a
/// rootless navigation ends the current chain and begins a new one; redirect
/// bursts collapse onto the landing host and back/forward moves are skipped.
/// Only chains of two hosts or more are returned.
pub fn session_chains(events: &[Event], gran: Granularity) -> (r: Vec<Vec<String>>)
    ensures
        crate::flow::chains_view(r@) == end_all(chain_run(events@, gran)).out,
{
    let mut f = ChainFold { cur: Vec::new(), pending: Vec::new(), last_ts: Vec::new(), out: Vec::new() };
    let mut i: usize = 0;
    proof {
        assert(events@.take(0) =~= Seq::<Event>::empty());
        assert(f.run().cur =~= Seq::<(i64, Seq<Seq<char>>)>::empty());
        assert(f.run().pending =~= Seq::<(i64, Seq<char>)>::empty());
        assert(f.run().out =~= Seq::<Seq<Seq<char>>>::empty());
        assert(f.run() == chain_run(events@.take(0), gran));
    }
    while i < events.len()
        invariant
            i <= events@.len(),
            f.run() == chain_run(events@.take(i as int), gran),
        decreases events.len() - i,
    {
        proof {
            assert(events@.take(i + 1).drop_last() =~= events@.take(i as int));
        }
        match &events[i] {
            Event::Link { new_tab_id, source_tab_id, .. } => {
                proof {
                    lemma_vmap(f.cur@, chain_f(), *source_tab_id, vstd::pervasive::arbitrary());
                    lemma_vmap(f.pending@, str_f(), *new_tab_id, vstd::pervasive::arbitrary());
                }
                match tab_index(&f.cur, *source_tab_id) {
                    Some(j) => {
                        let n = f.cur[j].1.len();
                        if n > 0 {
                            let last = f.cur[j].1[n - 1].clone();
                            proof {
                                assert(strs(f.cur@[j as int].1@).last() == last@);
                                lemma_vmap(f.pending@, str_f(), *new_tab_id, last);
                            }
                            tab_put(&mut f.pending, *new_tab_id, last);
                        }
                    },
                    None => {},
                }
            },
            Event::Close { tab_id, .. } => {
                end_tab(&mut f, *tab_id);
            },
            Event::Start { .. } => {
                end_every(&mut f);
            },
            Event::Nav { tab_id, to_url, transition_type, qualifiers, ts, .. } => {
                match node_key(to_url.as_str(), gran) {
                    Some(host) => {
                        let prov = classify(transition_type.as_str());
                        if !prov.is_ignored() {
                            let redirect = has_qualifier(qualifiers, "client_redirect");
                            let fb = has_qualifier(qualifiers, "forward_back");
                            chain_step(&mut f, *tab_id, host, prov, redirect, fb, *ts);
                        }
                    },
                    None => {},
                }
            },
            _ => {},
        }
        i += 1;
    }
    proof {
        assert(events@.take(events@.len() as int) =~= events@);
    }
    end_every(&mut f);
    f.out
}


/// Law: a link opened from tab `s` into a new tab `n` and followed there is,
/// once `n` closes, a transition from the page on screen in `s`: the page
/// of its held navigation when it has one, not the page confirmed before it.
pub proof fn lemma_new_tab_link_starts_at_page_on_screen(
    st: FlowRun,
    link: Event,
    nav: Event,
    close: Event,
    gran: Granularity,
    s: i64,
    n: i64,
    b: BufV,
    h: Seq<char>,
)
    requires
        link matches Event::Link { new_tab_id, source_tab_id, .. } && new_tab_id == n && source_tab_id == s,
        nav matches Event::Nav { tab_id, to_url, transition_type, qualifiers, .. } && tab_id == n && spec_node_key(
            to_url@,
            gran,
        ) == Some(h) && spec_classify(transition_type@) == Provenance::Link && !has_qual(qualifiers@, "forward_back"@),
        close matches Event::Close { tab_id, .. } && tab_id == n,
        a_get(st.buffer, s) == Some(b),
        a_get(st.buffer, n) is None,
        a_get(st.current, n) is None,
        b.to != h,
    ensures
        fold_event(fold_event(fold_event(st, link, gran), nav, gran), close, gran).transitions == st.transitions.push(
            (b.to, h),
        ),
{
    let st1 = fold_event(st, link, gran);
    lemma_get_put_same(st.pending, n, (b.to, b.prov));
    assert(st1.pending == a_put(st.pending, n, (b.to, b.prov)));
    assert(a_get(st1.pending, n) == Some((b.to, b.prov)));
    let st2 = fold_event(st1, nav, gran);
    let nb = BufV { origin: Some((b.to, b.prov)), to: h, prov: Provenance::Link, ts: nav->Nav_ts };
    assert(st2.buffer == a_put(st1.buffer, n, nb));
    lemma_get_put_same(st1.buffer, n, nb);
    assert(st2.transitions == st.transitions);
}

/// Law: settling a held navigation that a link or a form submission reached
/// from a page `o` on another host adds the transition from `o` to the
/// landing host, and no start.
pub proof fn lemma_settled_hop_transition(st: FlowRun, b: BufV, t: i64, o: (Seq<char>, Provenance))
    requires
        b.prov == Provenance::Link || b.prov == Provenance::Form,
        b.origin == Some(o),
        o.0 != b.to,
    ensures
        flush(st, b, t).transitions == st.transitions.push((o.0, b.to)),
        flush(st, b, t).starts == st.starts,
{
}

/// Law: settling a held navigation reached any other way than by a link or
/// a form submission, or from no page, adds a column-0 start for its host
/// and no transition.
pub proof fn lemma_settled_start(st: FlowRun, b: BufV, t: i64)
    ensures
        !(b.prov == Provenance::Link || b.prov == Provenance::Form) ==> flush(st, b, t).transitions == st.transitions
            && flush(st, b, t).starts == st.starts.push(b.to),
        b.origin is None ==> flush(st, b, t).transitions == st.transitions && flush(st, b, t).starts == st.starts.push(
            b.to,
        ),
{
}


/// Law: a link opened from a tab with no held navigation starts at that
/// tab's confirmed page: followed in the new tab and closed, it is a
/// transition from that page.
pub proof fn lemma_new_tab_link_from_confirmed_page(
    st: FlowRun,
    link: Event,
    nav: Event,
    close: Event,
    gran: Granularity,
    s: i64,
    n: i64,
    c: (Seq<char>, Provenance),
    h: Seq<char>,
)
    requires
        link matches Event::Link { new_tab_id, source_tab_id, .. } && new_tab_id == n && source_tab_id == s,
        nav matches Event::Nav { tab_id, to_url, transition_type, qualifiers, .. } && tab_id == n && spec_node_key(
            to_url@,
            gran,
        ) == Some(h) && spec_classify(transition_type@) == Provenance::Link && !has_qual(qualifiers@, "forward_back"@),
        close matches Event::Close { tab_id, .. } && tab_id == n,
        a_get(st.buffer, s) is None,
        a_get(st.current, s) == Some(c),
        a_get(st.buffer, n) is None,
        a_get(st.current, n) is None,
        c.0 != h,
    ensures
        fold_event(fold_event(fold_event(st, link, gran), nav, gran), close, gran).transitions == st.transitions.push(
            (c.0, h),
        ),
{
    let st1 = fold_event(st, link, gran);
    lemma_get_put_same(st.pending, n, c);
    assert(a_get(st1.pending, n) == Some(c));
    let st2 = fold_event(st1, nav, gran);
    let nb = BufV { origin: Some(c), to: h, prov: Provenance::Link, ts: nav->Nav_ts };
    assert(st2.buffer == a_put(st1.buffer, n, nb));
    lemma_get_put_same(st1.buffer, n, nb);
}

/// Law: reloads, and navigations of no recognized kind, leave the session
/// flow unchanged.
pub proof fn lemma_reload_changes_nothing(st: FlowRun, nav: Event, gran: Granularity)
    requires
        nav matches Event::Nav { transition_type, .. } && (spec_classify(transition_type@) == Provenance::Reload
            || spec_classify(transition_type@) == Provenance::Other),
    ensures
        fold_event(st, nav, gran) == st,
{
}


/// Law: in the session flow, a client redirect less than a second after a
/// tab's held navigation moves its landing to the new host and keeps its
/// origin, emitting nothing: a redirect burst collapses onto where it lands.
pub proof fn lemma_flow_redirect_collapses(st: FlowRun, t: i64, host: Seq<char>, prov: Provenance, fb: bool, ts: i64, b: BufV)
    requires
        a_get(st.buffer, t) == Some(b),
        ts - b.ts < 1_000,
    ensures
        fold_nav(st, t, host, prov, true, fb, ts) == (FlowRun {
            buffer: a_put(st.buffer, t, BufV { origin: b.origin, to: host, prov, ts }),
            ..st
        }),
{
}

} // verus!
