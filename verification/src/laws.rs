//! Properties that relate the library's operations to each other.
use vstd::prelude::*;
use crate::model::{spec_event_ts, Event, Granularity};
use crate::period::{new_hosts, window_hosts};
use crate::project::{days_from_civil, in_component, in_ego, reaches, spec_civil_from_days, step_ok, Filters};
use crate::projection::{edge_group, edge_kept, is_projection, node_kept, touches};
use crate::rollup::{first_index_of, merged, merged_stream, DayBucket, EdgeStat, NodeStat};
use crate::model::{Provenance, EdgeKind};
use crate::sample::{spec_with_scheme, starts_with};
use crate::model::GraphProjection;

verus! {

/// In a registrable-domain projection no edge is a self-loop: regrouping
/// drops the edges whose two hosts fall into one domain.
pub proof fn lemma_registrable_has_no_self_loops(r: GraphProjection, bs: Seq<DayBucket>, f: Filters)
    requires
        is_projection(r, bs, Granularity::Registrable, f),
    ensures
        forall|t: int| 0 <= t < r.edges@.len() ==> (#[trigger] r.edges@[t]).from@ != r.edges@[t].to@,
{
    assert forall|t: int| 0 <= t < r.edges@.len() implies (#[trigger] r.edges@[t]).from@ != r.edges@[t].to@ by {
        let e = r.edges@[t];
        assert(edge_kept(bs, Granularity::Registrable, f, e.from@, e.to@));
        let es = crate::projection::flat_edges(bs);
        let i = choose|i: int| 0 <= i < es.len() && edge_group(Granularity::Registrable, es[i].0@) == Some((e.from@, e.to@));
    }
}

/// Some node of `r` has key `k`.
pub open spec fn has_node(r: GraphProjection, k: Seq<char>) -> bool {
    exists|a: int| 0 <= a < r.nodes@.len() && (#[trigger] r.nodes@[a]).key@ == k
}

/// Every edge of a projection joins two of its nodes.
pub proof fn lemma_projection_edges_join_nodes(r: GraphProjection, bs: Seq<DayBucket>, g: Granularity, f: Filters)
    requires
        is_projection(r, bs, g, f),
    ensures
        forall|t: int| 0 <= t < r.edges@.len() ==> has_node(r, (#[trigger] r.edges@[t]).from@) && has_node(r, r.edges@[t].to@),
{
    assert forall|t: int| 0 <= t < r.edges@.len() implies has_node(r, (#[trigger] r.edges@[t]).from@) && has_node(r, r.edges@[t].to@) by {
        let e = r.edges@[t];
        assert(edge_kept(bs, g, f, e.from@, e.to@));
        assert(touches(r.edges@, e.from@) && touches(r.edges@, e.to@));
        assert(node_kept(bs, g, f, e.from@));
        assert(node_kept(bs, g, f, e.to@));
        let a = choose|a: int| 0 <= a < r.nodes@.len() && (#[trigger] r.nodes@[a]).key@ == e.from@;
        let b = choose|b: int| 0 <= b < r.nodes@.len() && (#[trigger] r.nodes@[b]).key@ == e.to@;
    }
}

/// Raising the minimum-visits filter only removes nodes.
pub proof fn lemma_min_visits_monotone(bs: Seq<DayBucket>, g: Granularity, f1: Filters, f2: Filters, k: Seq<char>)
    requires
        f1.min_visits <= f2.min_visits,
        f1.hide_search_hubs == f2.hide_search_hubs,
        f1.provenance_in == f2.provenance_in,
        node_kept(bs, g, f2, k),
    ensures
        node_kept(bs, g, f1, k),
{
}

/// `m` interleaves `a` and `b`: it consists of their elements, each stream
/// keeping its own order.
pub open spec fn interleaves(m: Seq<Event>, a: Seq<Event>, b: Seq<Event>) -> bool
    decreases m.len(),
{
    if m.len() == 0 {
        a.len() == 0 && b.len() == 0
    } else {
        (a.len() > 0 && m[0] == a[0] && interleaves(m.drop_first(), a.drop_first(), b))
            || (b.len() > 0 && m[0] == b[0] && interleaves(m.drop_first(), a, b.drop_first()))
    }
}

/// Merging never reorders two records of the same stream.
pub proof fn lemma_merge_interleaves(a: Seq<Event>, b: Seq<Event>)
    ensures
        interleaves(merged_stream(a, b), a, b),
    decreases a.len() + b.len(),
{
    let m = merged_stream(a, b);
    if a.len() == 0 && b.len() == 0 {
    } else if a.len() == 0 {
        lemma_merge_interleaves(a, b.drop_first());
        assert(m.drop_first() =~= merged_stream(a, b.drop_first()));
    } else if b.len() == 0 {
        lemma_merge_interleaves(a.drop_first(), b);
        assert(m.drop_first() =~= merged_stream(a.drop_first(), b));
    } else if crate::rollup::ts_before(b[0], a[0]) {
        lemma_merge_interleaves(a, b.drop_first());
        assert(m.drop_first() =~= merged_stream(a, b.drop_first()));
    } else {
        lemma_merge_interleaves(a.drop_first(), b);
        assert(m.drop_first() =~= merged_stream(a.drop_first(), b));
    }
}

/// Every record carries a timestamp and timestamps never decrease.
pub open spec fn ts_sorted(s: Seq<Event>) -> bool {
    &&& forall|i: int| 0 <= i < s.len() ==> spec_event_ts(#[trigger] s[i]) is Some
    &&& forall|i: int, j: int| 0 <= i < j < s.len() ==> spec_event_ts(#[trigger] s[i])->0 <= spec_event_ts(#[trigger] s[j])->0
}

/// Merging two time-ordered streams gives a time-ordered stream, which
/// starts with the earlier of the two heads.
pub proof fn lemma_merge_sorted(a: Seq<Event>, b: Seq<Event>)
    requires
        ts_sorted(a),
        ts_sorted(b),
    ensures
        ts_sorted(merged_stream(a, b)),
        merged_stream(a, b).len() == a.len() + b.len(),
        merged_stream(a, b).len() > 0 ==> (merged_stream(a, b)[0] == a[0] || merged_stream(a, b)[0] == b[0]),
    decreases a.len() + b.len(),
{
    let m = merged_stream(a, b);
    if a.len() == 0 || b.len() == 0 {
    } else {
        let (h, ra, rb) = if crate::rollup::ts_before(b[0], a[0]) {
            (b[0], a, b.drop_first())
        } else {
            (a[0], a.drop_first(), b)
        };
        assert(ts_sorted(ra) && ts_sorted(rb)) by {
            assert forall|i: int, j: int| 0 <= i < j < ra.len() implies spec_event_ts(#[trigger] ra[i])->0 <= spec_event_ts(#[trigger] ra[j])->0 by {
                if ra.len() < a.len() {
                    assert(ra[i] == a[i + 1] && ra[j] == a[j + 1]);
                }
            }
            assert forall|i: int, j: int| 0 <= i < j < rb.len() implies spec_event_ts(#[trigger] rb[i])->0 <= spec_event_ts(#[trigger] rb[j])->0 by {
                if rb.len() < b.len() {
                    assert(rb[i] == b[i + 1] && rb[j] == b[j + 1]);
                }
            }
            assert forall|i: int| 0 <= i < ra.len() implies spec_event_ts(#[trigger] ra[i]) is Some by {
                if ra.len() < a.len() {
                    assert(ra[i] == a[i + 1]);
                }
            }
            assert forall|i: int| 0 <= i < rb.len() implies spec_event_ts(#[trigger] rb[i]) is Some by {
                if rb.len() < b.len() {
                    assert(rb[i] == b[i + 1]);
                }
            }
        }
        lemma_merge_sorted(ra, rb);
        let rest = merged_stream(ra, rb);
        assert(m == seq![h] + rest);
        assert(spec_event_ts(a[0]) is Some && spec_event_ts(b[0]) is Some);
        if rest.len() > 0 {
            // the head of the rest is the head of `ra` or of `rb`, both no earlier than `h`
            if rest[0] == ra[0] && ra.len() > 0 {
                if ra.len() < a.len() {
                    assert(ra[0] == a[1]);
                }
            } else {
                if rb.len() < b.len() {
                    assert(rb[0] == b[1]);
                }
            }
            assert(spec_event_ts(h)->0 <= spec_event_ts(rest[0])->0);
        }
        assert forall|i: int| 0 <= i < m.len() implies spec_event_ts(#[trigger] m[i]) is Some by {
            if i > 0 {
                assert(m[i] == rest[i - 1]);
            }
        }
        assert forall|i: int, j: int| 0 <= i < j < m.len() implies spec_event_ts(#[trigger] m[i])->0 <= spec_event_ts(#[trigger] m[j])->0 by {
            if i == 0 {
                assert(m[j] == rest[j - 1]);
                if j > 1 {
                    assert(spec_event_ts(rest[0])->0 <= spec_event_ts(rest[j - 1])->0);
                }
            } else {
                assert(m[i] == rest[i - 1] && m[j] == rest[j - 1]);
            }
        }
    }
}

/// The hosts first seen in a window are among the window's hosts.
pub proof fn lemma_new_hosts_within_window(bs: Seq<DayBucket>, lo: int, hi: int)
    ensures
        new_hosts(bs, lo, hi).subset_of(window_hosts(bs, lo, hi)),
{
}

/// Re-attaching the scheme is idempotent.
pub proof fn lemma_with_scheme_idempotent(s: Seq<char>)
    ensures
        spec_with_scheme(spec_with_scheme(s)) == spec_with_scheme(s),
{
    reveal_strlit("https://");
    reveal_strlit("http://");
    if !(starts_with(s, "http://"@) || starts_with(s, "https://"@)) {
        let t = "https://"@ + s;
        assert(t.take("https://"@.len() as int) =~= "https://"@);
    }
}

/// Splitting an edge key gives back the two endpoints (for a source host
/// without a NUL character).
pub proof fn lemma_edge_key_roundtrip(from: Seq<char>, to: Seq<char>)
    requires
        forall|i: int| 0 <= i < from.len() ==> from[i] != '\0',
    ensures
        ({
            let key = from + seq!['\0'] + to;
            first_index_of(key, '\0') == Some(from.len() as int) && key.take(from.len() as int) == from
                && key.skip(from.len() + 1int) == to
        }),
{
    let key = from + seq!['\0'] + to;
    assert(key[from.len() as int] == '\0');
    let i = choose|i: int| 0 <= i < key.len() && key[i] == '\0' && forall|j: int| 0 <= j < i ==> key[j] != '\0';
    if i < from.len() {
        assert(key[i] == from[i]);
    }
    if i > from.len() {
        assert(key[from.len() as int] == '\0');
    }
    assert(key.take(from.len() as int) =~= from);
    assert(key.skip(from.len() + 1int) =~= to);
}

/// The direct neighbourhood of a node lies within its connected network.
pub proof fn lemma_ego_within_component(p: GraphProjection, focus: Seq<char>, k: Seq<char>)
    requires
        exists|i: int| 0 <= i < p.nodes@.len() && p.nodes@[i].key@ == focus,
        in_ego(p.edges@, focus, k),
    ensures
        in_component(p, focus, k),
{
    let es = p.edges@;
    if k == focus {
        let w = seq![focus];
        assert(w.len() > 0 && w[0] == focus && w[w.len() - 1] == k);
        assert(reaches(es, focus, k));
    } else {
        let w = seq![focus, k];
        assert(step_ok(es, w, 0));
        assert forall|i: int| 0 <= i < w.len() - 1 implies #[trigger] step_ok(es, w, i) by {}
        assert(w[w.len() - 1] == k);
        assert(reaches(es, focus, k));
    }
}


#[verifier::spinoff_prover]
#[verifier::rlimit(50)]
proof fn lemma_year_of_era(doe: int)
    requires
        0 <= doe < 146097,
    ensures
        ({
            let yoe = (doe - doe / 1460 + doe / 36524 - doe / 146096) / 365;
            &&& 0 <= yoe <= 399
            &&& 0 <= doe - (365 * yoe + yoe / 4 - yoe / 100) <= 365
        }),
{
}


/// Every day number is the day number of the civil date it converts to.
#[verifier::spinoff_prover]
#[verifier::rlimit(50)]
pub proof fn lemma_day_number_of_civil(z: int)
    ensures
        ({
            let (y, m, d) = spec_civil_from_days(z);
            days_from_civil(y, m, d) == z
        }),
{
    let zz = z + 719468;
    let era = zz / 146097;
    let doe = zz - era * 146097;
    assert(0 <= doe < 146097);
    lemma_year_of_era(doe);
    let yoe = (doe - doe / 1460 + doe / 36524 - doe / 146096) / 365;
    let doy = doe - (365 * yoe + yoe / 4 - yoe / 100);
    lemma_month_of_year(doy);
    let mp = (5 * doy + 2) / 153;
    let d = doy - (153 * mp + 2) / 5 + 1;
    let y = yoe + era * 400;
    lemma_era_of_year(era, yoe);
    assert(y / 400 == era);
    let m = if mp < 10 { mp + 3 } else { mp - 9 };
    assert((if m > 2 { m - 3 } else { m + 9 }) == mp);
    let yy = if m <= 2 { y + 1 } else { y };
    assert(spec_civil_from_days(z) == (yy, m, d));
    assert((if m <= 2 { yy - 1 } else { yy }) == y);
}

#[verifier::spinoff_prover]
#[verifier::rlimit(50)]
proof fn lemma_month_of_year(doy: int)
    requires
        0 <= doy <= 365,
    ensures
        ({
            let mp = (5 * doy + 2) / 153;
            &&& 0 <= mp <= 11
            &&& (153 * mp + 2) / 5 <= doy
            &&& (153 * mp + 2) / 5 + (doy - (153 * mp + 2) / 5 + 1) - 1 == doy
        }),
{
}

#[verifier::spinoff_prover]
#[verifier::rlimit(50)]
proof fn lemma_era_of_year(era: int, yoe: int)
    requires
        0 <= yoe <= 399,
    ensures
        (yoe + era * 400) / 400 == era,
        (yoe + era * 400) - era * 400 == yoe,
{
}


/// Whether `y` is a Gregorian leap year.
pub open spec fn is_leap_year(y: int) -> bool {
    (y % 4 == 0 && y % 100 != 0) || y % 400 == 0
}

/// The number of days in month `m` (1-12) of year `y`.
pub open spec fn month_length(y: int, m: int) -> int {
    if m == 2 {
        if is_leap_year(y) {
            29
        } else {
            28
        }
    } else if m == 4 || m == 6 || m == 9 || m == 11 {
        30
    } else {
        31
    }
}

/// Whether `(y, m, d)` is a date of the proleptic Gregorian calendar.
pub open spec fn is_civil_date(y: int, m: int, d: int) -> bool {
    1 <= m <= 12 && 1 <= d <= month_length(y, m)
}

#[verifier::spinoff_prover]
#[verifier::rlimit(50)]
proof fn lemma_era_day_inverse(yoe: int, doy: int)
    requires
        0 <= yoe <= 399,
        0 <= doy,
        doy <= 364 || (doy == 365 && (yoe + 1) % 4 == 0 && ((yoe + 1) % 100 != 0 || yoe == 399)),
    ensures
        ({
            let doe = 365 * yoe + yoe / 4 - yoe / 100 + doy;
            &&& 0 <= doe < 146097
            &&& (doe - doe / 1460 + doe / 36524 - doe / 146096) / 365 == yoe
        }),
{
}

#[verifier::spinoff_prover]
#[verifier::rlimit(50)]
proof fn lemma_month_day_inverse(mp: int, d: int, long_feb: bool)
    requires
        0 <= mp <= 11,
        1 <= d,
        d <= (if mp == 11 {
            if long_feb { 29int } else { 28 }
        } else if mp == 1 || mp == 3 || mp == 6 || mp == 8 {
            30
        } else {
            31
        }),
    ensures
        ({
            let doy = (153 * mp + 2) / 5 + d - 1;
            &&& 0 <= doy
            &&& doy <= 364 || (doy == 365 && long_feb)
            &&& (5 * doy + 2) / 153 == mp
            &&& doy - (153 * mp + 2) / 5 + 1 == d
        }),
{
}

#[verifier::spinoff_prover]
#[verifier::rlimit(50)]
proof fn lemma_leap_in_era(era: int, yoe: int)
    requires
        0 <= yoe <= 399,
    ensures
        is_leap_year(era * 400 + yoe + 1) <==> ((yoe + 1) % 4 == 0 && ((yoe + 1) % 100 != 0 || yoe == 399)),
{
}

/// The civil date of a date's day number is that date.
#[verifier::spinoff_prover]
#[verifier::rlimit(50)]
pub proof fn lemma_civil_of_day_number(y: int, m: int, d: int)
    requires
        is_civil_date(y, m, d),
    ensures
        spec_civil_from_days(days_from_civil(y, m, d)) == (y, m, d),
{
    let y0 = if m <= 2 { y - 1 } else { y };
    let era = y0 / 400;
    let yoe = y0 - era * 400;
    assert(0 <= yoe <= 399);
    let mp = if m > 2 { m - 3 } else { m + 9 };
    let long_feb = is_leap_year(y0 + 1);
    lemma_leap_in_era(era, yoe);
    assert(y0 + 1 == era * 400 + yoe + 1);
    lemma_month_day_inverse(mp, d, long_feb);
    let doy = (153 * mp + 2) / 5 + d - 1;
    lemma_era_day_inverse(yoe, doy);
    let doe = 365 * yoe + yoe / 4 - yoe / 100 + doy;
    assert(days_from_civil(y, m, d) == era * 146097 + doe - 719468);
    let zz = era * 146097 + doe;
    lemma_era_split(era, doe);
    assert(zz / 146097 == era);
    assert(zz - era * 146097 == doe);
    lemma_era_of_year(era, yoe);
}

#[verifier::spinoff_prover]
#[verifier::rlimit(50)]
proof fn lemma_era_split(era: int, doe: int)
    requires
        0 <= doe < 146097,
    ensures
        (era * 146097 + doe) / 146097 == era,
{
}


/// A node statistic of an absent entry counts as zero.
pub open spec fn node_or_zero(a: Option<NodeStat>) -> NodeStat {
    match a {
        Some(x) => x,
        None => NodeStat {
            visits: 0,
            prov: crate::model::ProvBreakdown {
                link: 0,
                form: 0,
                typed_url: 0,
                search_origin: 0,
                bookmark: 0,
                start: 0,
                reload: 0,
                other: 0,
            },
            dwell_ms: 0,
        },
    }
}

/// An edge statistic of an absent entry counts as zero.
pub open spec fn edge_or_zero(a: Option<EdgeStat>) -> EdgeStat {
    match a {
        Some(x) => x,
        None => EdgeStat { weight: 0, kinds: crate::model::KindBreakdown { link: 0, search_link: 0, form: 0 } },
    }
}

proof fn lemma_prov_sum_laws(x: crate::model::ProvBreakdown, y: crate::model::ProvBreakdown, z: crate::model::ProvBreakdown)
    requires
        x.can_merge(y),
        x.sum(y).can_merge(z),
    ensures
        x.sum(y).sum(z) == x.sum(y.sum(z)),
        x.sum(y) == y.sum(x),
{
    assert(x.count(Provenance::Link) + y.count(Provenance::Link) <= u32::MAX);
    assert(x.count(Provenance::Form) + y.count(Provenance::Form) <= u32::MAX);
    assert(x.count(Provenance::TypedUrl) + y.count(Provenance::TypedUrl) <= u32::MAX);
    assert(x.count(Provenance::SearchOrigin) + y.count(Provenance::SearchOrigin) <= u32::MAX);
    assert(x.count(Provenance::Bookmark) + y.count(Provenance::Bookmark) <= u32::MAX);
    assert(x.count(Provenance::Start) + y.count(Provenance::Start) <= u32::MAX);
    assert(x.count(Provenance::Reload) + y.count(Provenance::Reload) <= u32::MAX);
    assert(x.count(Provenance::Other) + y.count(Provenance::Other) <= u32::MAX);
    assert(x.sum(y).count(Provenance::Link) + z.count(Provenance::Link) <= u32::MAX);
    assert(x.sum(y).count(Provenance::Form) + z.count(Provenance::Form) <= u32::MAX);
    assert(x.sum(y).count(Provenance::TypedUrl) + z.count(Provenance::TypedUrl) <= u32::MAX);
    assert(x.sum(y).count(Provenance::SearchOrigin) + z.count(Provenance::SearchOrigin) <= u32::MAX);
    assert(x.sum(y).count(Provenance::Bookmark) + z.count(Provenance::Bookmark) <= u32::MAX);
    assert(x.sum(y).count(Provenance::Start) + z.count(Provenance::Start) <= u32::MAX);
    assert(x.sum(y).count(Provenance::Reload) + z.count(Provenance::Reload) <= u32::MAX);
    assert(x.sum(y).count(Provenance::Other) + z.count(Provenance::Other) <= u32::MAX);
}

/// Bucket merging sums a key's node statistics: merging two deltas one
/// after the other gives what merging their merge gives, and the order of
/// the deltas does not matter (as long as the sums fit).
#[verifier::spinoff_prover]
pub proof fn lemma_node_merge_order_free(a: Option<NodeStat>, b: Option<NodeStat>, c: Option<NodeStat>)
    requires
        node_or_zero(a).can_add(node_or_zero(b)),
        node_or_zero(a).plus(node_or_zero(b)).can_add(node_or_zero(c)),
    ensures
        merged(merged(a, b, |x: NodeStat, y: NodeStat| x.plus(y)), c, |x: NodeStat, y: NodeStat| x.plus(y))
            == merged(a, merged(b, c, |x: NodeStat, y: NodeStat| x.plus(y)), |x: NodeStat, y: NodeStat| x.plus(y)),
        merged(a, b, |x: NodeStat, y: NodeStat| x.plus(y)) == merged(b, a, |x: NodeStat, y: NodeStat| x.plus(y)),
{
    let za = node_or_zero(a);
    let zb = node_or_zero(b);
    let zc = node_or_zero(c);
    lemma_prov_sum_laws(za.prov, zb.prov, zc.prov);
    if a is Some && b is Some && c is Some {
        assert(za.plus(zb).plus(zc) == za.plus(zb.plus(zc)));
    }
    if a is Some && b is Some {
        assert(za.plus(zb) == zb.plus(za));
    }
}

/// Bucket merging sums a key's edge statistics: merging two deltas one
/// after the other gives what merging their merge gives, and the order of
/// the deltas does not matter (as long as the sums fit).
#[verifier::spinoff_prover]
pub proof fn lemma_edge_merge_order_free(a: Option<EdgeStat>, b: Option<EdgeStat>, c: Option<EdgeStat>)
    requires
        edge_or_zero(a).can_add(edge_or_zero(b)),
        edge_or_zero(a).plus(edge_or_zero(b)).can_add(edge_or_zero(c)),
    ensures
        merged(merged(a, b, |x: EdgeStat, y: EdgeStat| x.plus(y)), c, |x: EdgeStat, y: EdgeStat| x.plus(y))
            == merged(a, merged(b, c, |x: EdgeStat, y: EdgeStat| x.plus(y)), |x: EdgeStat, y: EdgeStat| x.plus(y)),
        merged(a, b, |x: EdgeStat, y: EdgeStat| x.plus(y)) == merged(b, a, |x: EdgeStat, y: EdgeStat| x.plus(y)),
{
    let za = edge_or_zero(a);
    let zb = edge_or_zero(b);
    let zc = edge_or_zero(c);
    assert(za.kinds.count(EdgeKind::Link) + zb.kinds.count(EdgeKind::Link) <= u32::MAX);
    assert(za.kinds.sum(zb.kinds).count(EdgeKind::Link) + zc.kinds.count(EdgeKind::Link) <= u32::MAX);
    assert(za.kinds.count(EdgeKind::SearchLink) + zb.kinds.count(EdgeKind::SearchLink) <= u32::MAX);
    assert(za.kinds.sum(zb.kinds).count(EdgeKind::SearchLink) + zc.kinds.count(EdgeKind::SearchLink) <= u32::MAX);
    assert(za.kinds.count(EdgeKind::Form) + zb.kinds.count(EdgeKind::Form) <= u32::MAX);
    assert(za.kinds.sum(zb.kinds).count(EdgeKind::Form) + zc.kinds.count(EdgeKind::Form) <= u32::MAX);
}

} // verus!
