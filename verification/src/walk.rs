//! The Session range's chronological walk (‹ / ›) over session records.
use vstd::prelude::*;
use crate::project::{range_days, TimeRange};
use crate::rollup::SessionRec;
use vstd::relations::{sorted_by, total_ordering};

verus! {

/// Where a session stands in time: its start, then its id.
pub open spec fn walk_key(r: SessionRec) -> (i64, i64) {
    (r.start_ts, r.id)
}

/// `(start, id)` pairs ordered by start, then id.
pub open spec fn key_leq(a: (i64, i64), b: (i64, i64)) -> bool {
    a.0 < b.0 || (a.0 == b.0 && a.1 <= b.1)
}

/// The session ids in the order [`session_order`] lists them.
pub open spec fn walk_order(sessions: Seq<SessionRec>) -> Seq<i64> {
    sessions.map_values(|r: SessionRec| walk_key(r)).sort_by(|a: (i64, i64), b: (i64, i64)| key_leq(a, b)).map_values(
        |k: (i64, i64)| k.1,
    )
}

proof fn lemma_key_leq_total()
    ensures
        total_ordering(|a: (i64, i64), b: (i64, i64)| key_leq(a, b)),
{
    let r = |a: (i64, i64), b: (i64, i64)| key_leq(a, b);
    assert forall|x: (i64, i64)| #[trigger] r(x, x) by {}
    assert forall|x: (i64, i64), y: (i64, i64)| #[trigger] r(x, y) && #[trigger] r(y, x) implies x == y by {}
    assert forall|x: (i64, i64), y: (i64, i64), z: (i64, i64)| #[trigger] r(x, y) && #[trigger] r(y, z) implies r(x, z) by {}
    assert forall|x: (i64, i64), y: (i64, i64)| #[trigger] r(x, y) || #[trigger] r(y, x) by {}
}

/// Session record ids in chronological order (oldest → newest): the order the
/// Session range's ‹/› buttons walk. Ordered by `(start_ts, id)`, so ties are
/// stable; the newest id is the live "Latest" session.
pub fn session_order(sessions: &[SessionRec]) -> (r: Vec<i64>)
    ensures
        r@ == walk_order(sessions@),
{
    let ghost leq = |a: (i64, i64), b: (i64, i64)| key_leq(a, b);
    let ghost ks = sessions@.map_values(|r: SessionRec| walk_key(r));
    let mut out: Vec<(i64, i64)> = Vec::new();
    let mut i: usize = 0;
    proof {
        lemma_key_leq_total();
        assert(ks.take(0) =~= Seq::<(i64, i64)>::empty());
    }
    while i < sessions.len()
        invariant
            i <= sessions@.len(),
            ks == sessions@.map_values(|r: SessionRec| walk_key(r)),
            leq == (|a: (i64, i64), b: (i64, i64)| key_leq(a, b)),
            total_ordering(leq),
            sorted_by(out@, leq),
            out@.to_multiset() == ks.take(i as int).to_multiset(),
        decreases sessions.len() - i,
    {
        let kv = (sessions[i].start_ts, sessions[i].id);
        let ghost o = out@;
        let mut pos: usize = 0;
        while pos < out.len() && !(kv.0 < out[pos].0 || (kv.0 == out[pos].0 && kv.1 < out[pos].1))
            invariant
                pos <= out@.len(),
                o == out@,
                forall|a: int| 0 <= a < pos ==> #[trigger] key_leq(o[a], kv),
            decreases out.len() - pos,
        {
            pos += 1;
        }
        out.insert(pos, kv);
        proof {
            let o2 = out@;
            assert(kv == ks[i as int]);
            vstd::seq_lib::to_multiset_insert(o, pos as int, kv);
            assert(ks.take(i + 1) =~= ks.take(i as int).push(kv));
            vstd::seq_lib::to_multiset_build(ks.take(i as int), kv);
            assert forall|a: int, b: int| 0 <= a < b < o2.len() implies #[trigger] leq(o2[a], o2[b]) by {
                if a < pos && b < pos {
                    assert(o2[a] == o[a] && o2[b] == o[b]);
                    assert(leq(o[a], o[b]));
                } else if a < pos && b == pos {
                    assert(o2[a] == o[a] && o2[b] == kv);
                    assert(key_leq(o[a], kv));
                } else if a < pos {
                    assert(o2[a] == o[a] && o2[b] == o[b - 1]);
                    assert(leq(o[a], o[b - 1]));
                } else if a == pos {
                    assert(o2[a] == kv && o2[b] == o[b - 1]);
                    if b - 1 > pos {
                        assert(leq(o[pos as int], o[b - 1]));
                    }
                } else {
                    assert(o2[a] == o[a - 1] && o2[b] == o[b - 1]);
                    assert(leq(o[a - 1], o[b - 1]));
                }
            }
        }
        i += 1;
    }
    proof {
        assert(ks.take(ks.len() as int) =~= ks);
        ks.lemma_sort_by_ensures(leq);
        vstd::seq_lib::lemma_sorted_unique(out@, ks.sort_by(leq), leq);
    }
    let mut ids: Vec<i64> = Vec::new();
    let mut j: usize = 0;
    while j < out.len()
        invariant
            j <= out@.len(),
            ids@ == out@.take(j as int).map_values(|k: (i64, i64)| k.1),
        decreases out.len() - j,
    {
        ids.push(out[j].1);
        proof {
            assert(out@.take(j + 1) =~= out@.take(j as int).push(out@[j as int]));
            assert(ids@ =~= out@.take(j + 1).map_values(|k: (i64, i64)| k.1));
        }
        j += 1;
    }
    proof {
        assert(out@.take(out@.len() as int) =~= out@);
    }
    ids
}

/// The outcome of a ‹/› step over the Session range's chronological list.
#[derive(Clone, Copy, Debug, PartialEq, Eq, Structural)]
pub enum SessionStep {
    /// Anchor to this specific session id.
    To(i64),
    /// Re-enter the live "latest session" view (clear the anchor).
    Live,
    /// The step is not possible (button disabled).
    Blocked,
}

/// The place in `order` of the session on display: the first place of the
/// anchored id; the newest (last) place in the live view, or when the anchor
/// is gone, so navigation never dead-ends.
pub open spec fn walk_at(order: Seq<i64>, current: Option<i64>) -> int {
    match current {
        Some(id) => if order.contains(id) {
            choose|i: int| 0 <= i < order.len() && order[i] == id && forall|j: int| 0 <= j < i ==> order[j] != id
        } else {
            order.len() - 1
        },
        None => order.len() - 1,
    }
}

/// What ‹ does: the previous (older) session, or `Blocked` at the oldest.
pub open spec fn back_step(order: Seq<i64>, current: Option<i64>) -> SessionStep {
    let i = walk_at(order, current);
    if order.len() > 0 && i > 0 {
        SessionStep::To(order[i - 1])
    } else {
        SessionStep::Blocked
    }
}

/// What › does: the next (newer) session, `Live` when that is the newest,
/// `Blocked` in the live view or at the newest.
pub open spec fn forward_step(order: Seq<i64>, current: Option<i64>) -> SessionStep {
    let i = walk_at(order, current);
    if current is None || order.len() == 0 || i >= order.len() - 1 {
        SessionStep::Blocked
    } else if i + 1 == order.len() - 1 {
        SessionStep::Live
    } else {
        SessionStep::To(order[i + 1])
    }
}

/// Index into `order` of the session on display (see [`walk_at`]), `None`
/// for an empty list.
fn session_index(order: &[i64], current: Option<i64>) -> (r: Option<usize>)
    ensures
        (order@.len() == 0) == (r is None),
        r matches Some(i) ==> i == walk_at(order@, current) && i < order@.len(),
{
    if order.len() == 0 {
        return None;
    }
    match current {
        None => Some(order.len() - 1),
        Some(id) => {
            let mut j: usize = 0;
            while j < order.len() && order[j] != id
                invariant
                    j <= order@.len(),
                    forall|a: int| 0 <= a < j ==> order@[a] != id,
                decreases order.len() - j,
            {
                j += 1;
            }
            if j < order.len() {
                proof {
                    assert(order@.contains(id));
                    let c = walk_at(order@, current);
                    assert(0 <= c < order@.len() && order@[c] == id && forall|b: int| 0 <= b < c ==> order@[b] != id);
                    if c < j {
                        assert(order@[c] != id);
                    } else if c > j {
                        assert(order@[j as int] != id);
                    }
                }
                Some(j)
            } else {
                proof {
                    assert(!order@.contains(id));
                }
                Some(order.len() - 1)
            }
        },
    }
}

/// ‹ over the Session range: the previous (older) session, or `Blocked` at
/// the oldest.
pub fn session_back(order: &[i64], current: Option<i64>) -> (r: SessionStep)
    ensures
        r == back_step(order@, current),
{
    match session_index(order, current) {
        Some(i) => {
            if i > 0 {
                SessionStep::To(order[i - 1])
            } else {
                SessionStep::Blocked
            }
        },
        None => SessionStep::Blocked,
    }
}

/// › over the Session range: the next (newer) session, `Live` when that newer
/// session is the newest (so › snaps back to the live view), or `Blocked` when
/// already at the newest/live session.
pub fn session_forward(order: &[i64], current: Option<i64>) -> (r: SessionStep)
    ensures
        r == forward_step(order@, current),
{
    if current.is_none() {
        return SessionStep::Blocked;
    }
    match session_index(order, current) {
        Some(i) => {
            let last = order.len() - 1;
            if i >= last {
                SessionStep::Blocked
            } else if i + 1 == last {
                SessionStep::Live
            } else {
                SessionStep::To(order[i + 1])
            }
        },
        None => SessionStep::Blocked,
    }
}


/// Session `i` is the latest: no session starts later, and every earlier one
/// starts strictly earlier (the first of the latest starts).
pub open spec fn is_latest(s: Seq<SessionRec>, i: int) -> bool {
    &&& 0 <= i < s.len()
    &&& forall|j: int| 0 <= j < s.len() ==> (#[trigger] s[j]).start_ts <= s[i].start_ts
    &&& forall|j: int| 0 <= j < i ==> (#[trigger] s[j]).start_ts < s[i].start_ts
}

/// The newest session by start (the first of equals): the live "Latest"
/// session for the Session range, and the default when no anchor is set.
/// `None` when there are no sessions.
pub fn latest_session(sessions: &[SessionRec]) -> (r: Option<usize>)
    ensures
        (sessions@.len() == 0) == (r is None),
        r matches Some(i) ==> is_latest(sessions@, i as int),
{
    if sessions.len() == 0 {
        return None;
    }
    let mut best: usize = 0;
    let mut i: usize = 1;
    while i < sessions.len()
        invariant
            1 <= i <= sessions@.len(),
            best < i,
            forall|j: int| 0 <= j < i ==> (#[trigger] sessions@[j]).start_ts <= sessions@[best as int].start_ts,
            forall|j: int| 0 <= j < best ==> (#[trigger] sessions@[j]).start_ts < sessions@[best as int].start_ts,
        decreases sessions.len() - i,
    {
        if sessions[i].start_ts > sessions[best].start_ts {
            best = i;
        }
        i += 1;
    }
    Some(best)
}

/// The indices `i` of `s`, in order, whose session `keep` accepts.
pub open spec fn picked(s: Seq<SessionRec>, keep: spec_fn(SessionRec) -> bool) -> Seq<int>
    decreases s.len(),
{
    if s.len() == 0 {
        Seq::empty()
    } else if keep(s.last()) {
        picked(s.drop_last(), keep).push(s.len() - 1)
    } else {
        picked(s.drop_last(), keep)
    }
}

/// The latest end among `s` (the first element's end for one session).
pub open spec fn latest_end(s: Seq<SessionRec>) -> int
    decreases s.len(),
{
    if s.len() <= 1 {
        if s.len() == 1 { s[0].end_ts as int } else { 0 }
    } else {
        let p = latest_end(s.drop_last());
        if s.last().end_ts > p { s.last().end_ts as int } else { p }
    }
}

/// Which sessions the Session range shows: with an anchored window
/// `[lo, hi)` (epoch ms) those overlapping it; otherwise those ending within
/// the range's trailing days of the latest session end.
pub open spec fn in_range_keep(s: Seq<SessionRec>, range: TimeRange, win: Option<(i64, i64)>) -> spec_fn(SessionRec) -> bool {
    match win {
        Some((lo, hi)) => |r: SessionRec| r.end_ts >= lo && r.start_ts < hi,
        None => |r: SessionRec| r.end_ts >= latest_end(s) - range_days(range) * 86_400_000,
    }
}

/// The sessions overlapping the selected window (see [`in_range_keep`]), as
/// indices into `sessions`, in order.
pub fn sessions_in_range(sessions: &[SessionRec], range: TimeRange, win: Option<(i64, i64)>) -> (r: Vec<usize>)
    ensures
        r@.map_values(|i: usize| i as int) == picked(sessions@, in_range_keep(sessions@, range, win)),
{
    let ghost s = sessions@;
    let ghost keep = in_range_keep(s, range, win);
    let mut cutoff: i128 = 0;
    if win.is_none() {
        let mut latest: i64 = 0;
        let mut i: usize = 0;
        while i < sessions.len()
            invariant
                i <= s.len(),
                s == sessions@,
                latest == latest_end(s.take(i as int)),
            decreases sessions.len() - i,
        {
            proof {
                assert(s.take(i + 1).drop_last() =~= s.take(i as int));
                assert(s.take(i + 1).last() == s[i as int]);
                if i == 0 {
                    assert(s.take(1)[0] == s[0]);
                }
            }
            if i == 0 || sessions[i].end_ts > latest {
                latest = sessions[i].end_ts;
            }
            i += 1;
        }
        proof {
            assert(s.take(s.len() as int) =~= s);
        }
        cutoff = latest as i128 - (range.days() as i128) * 86_400_000;
    }
    let mut out: Vec<usize> = Vec::new();
    let mut i: usize = 0;
    proof {
        assert(s.take(0) =~= Seq::<SessionRec>::empty());
    }
    while i < sessions.len()
        invariant
            i <= s.len(),
            s == sessions@,
            keep == in_range_keep(s, range, win),
            win is None ==> cutoff == latest_end(s) - range_days(range) * 86_400_000,
            out@.map_values(|j: usize| j as int) == picked(s.take(i as int), keep),
        decreases sessions.len() - i,
    {
        let r = &sessions[i];
        let k = match win {
            Some((lo, hi)) => r.end_ts >= lo && r.start_ts < hi,
            None => r.end_ts as i128 >= cutoff,
        };
        proof {
            assert(s.take(i + 1).drop_last() =~= s.take(i as int));
            assert(s.take(i + 1).last() == s[i as int]);
            assert(k == keep(s[i as int]));
        }
        if k {
            out.push(i);
            proof {
                assert(out@.map_values(|j: usize| j as int) =~= picked(s.take(i as int), keep).push(i as int));
            }
        }
        i += 1;
    }
    proof {
        assert(s.take(s.len() as int) =~= s);
    }
    out
}


/// `picked` lists, in increasing order, exactly the indices whose session
/// `keep` accepts.
proof fn lemma_picked(s: Seq<SessionRec>, keep: spec_fn(SessionRec) -> bool)
    ensures
        forall|i: int| #[trigger] picked(s, keep).contains(i) <==> 0 <= i < s.len() && keep(s[i]),
        forall|a: int, b: int| 0 <= a < b < picked(s, keep).len() ==> picked(s, keep)[a] < picked(s, keep)[b],
        forall|a: int| 0 <= a < picked(s, keep).len() ==> 0 <= #[trigger] picked(s, keep)[a] < s.len(),
    decreases s.len(),
{
    if s.len() > 0 {
        let p = s.drop_last();
        lemma_picked(p, keep);
        assert forall|i: int| 0 <= i < p.len() implies p[i] == s[i] by {}
        let q = picked(s, keep);
        let q0 = picked(p, keep);
        assert forall|i: int| #[trigger] q.contains(i) <==> 0 <= i < s.len() && keep(s[i]) by {
            if keep(s.last()) {
                assert(q == q0.push(s.len() - 1));
                if q.contains(i) && i != s.len() - 1 {
                    let a = choose|a: int| 0 <= a < q.len() && q[a] == i;
                    assert(q0.contains(i)) by {
                        assert(q0[a] == i);
                    }
                }
                if 0 <= i < s.len() && keep(s[i]) {
                    if i == s.len() - 1 {
                        assert(q[q.len() - 1] == i);
                    } else {
                        assert(q0.contains(i));
                        let a = choose|a: int| 0 <= a < q0.len() && q0[a] == i;
                        assert(q[a] == i);
                    }
                }
            }
        }
    }
}

/// The latest end is the largest end of any session, and some session ends
/// then.
proof fn lemma_latest_end(s: Seq<SessionRec>)
    requires
        s.len() > 0,
    ensures
        forall|j: int| 0 <= j < s.len() ==> (#[trigger] s[j]).end_ts <= latest_end(s),
        exists|j: int| 0 <= j < s.len() && (#[trigger] s[j]).end_ts == latest_end(s),
    decreases s.len(),
{
    if s.len() > 1 {
        let p = s.drop_last();
        lemma_latest_end(p);
        assert forall|j: int| 0 <= j < p.len() implies p[j] == s[j] by {}
        let j = choose|j: int| 0 <= j < p.len() && (#[trigger] p[j]).end_ts == latest_end(p);
        assert(s[j] == p[j]);
        assert(s[s.len() - 1] == s.last());
    } else {
        assert(s[0].end_ts == latest_end(s));
    }
}

/// Law: with an anchored window `[lo, hi)`, the sessions listed are exactly
/// those overlapping it (ending at or after `lo` and starting before `hi`;
/// one that began before the window and ran into it is listed), in their
/// stored order.
pub proof fn lemma_sessions_overlapping_window(s: Seq<SessionRec>, range: TimeRange, lo: i64, hi: i64)
    ensures
        forall|i: int|
            #[trigger] picked(s, in_range_keep(s, range, Some((lo, hi)))).contains(i) <==> 0 <= i < s.len() && s[i].end_ts
                >= lo && s[i].start_ts < hi,
        forall|a: int, b: int|
            0 <= a < b < picked(s, in_range_keep(s, range, Some((lo, hi)))).len() ==> picked(
                s,
                in_range_keep(s, range, Some((lo, hi))),
            )[a] < picked(s, in_range_keep(s, range, Some((lo, hi))))[b],
{
    lemma_picked(s, in_range_keep(s, range, Some((lo, hi))));
}

/// Law: without an anchor, the sessions listed are exactly those ending
/// within the range's trailing days (of 86 400 000 ms) of the latest end of
/// any session, which some session has.
pub proof fn lemma_sessions_in_trailing_days(s: Seq<SessionRec>, range: TimeRange)
    ensures
        forall|i: int|
            #[trigger] picked(s, in_range_keep(s, range, None)).contains(i) <==> 0 <= i < s.len() && s[i].end_ts >= latest_end(
                s,
            ) - range_days(range) * 86_400_000,
        s.len() > 0 ==> forall|j: int| 0 <= j < s.len() ==> (#[trigger] s[j]).end_ts <= latest_end(s),
        s.len() > 0 ==> exists|j: int| 0 <= j < s.len() && (#[trigger] s[j]).end_ts == latest_end(s),
{
    lemma_picked(s, in_range_keep(s, range, None));
    if s.len() > 0 {
        lemma_latest_end(s);
    }
}

} // verus!
