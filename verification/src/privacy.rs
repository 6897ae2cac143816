//! Which stored events a privacy edit removes: forgetting a domain, or
//! deleting a span of time.
use vstd::prelude::*;
use crate::interpret::{host, registrable, spec_host, spec_registrable};
use crate::model::{spec_event_ts, Event};
use crate::text::str_eq;

verus! {

/// A navigation whose URL's host is `domain` itself or lies under the
/// registrable domain `domain`.
pub open spec fn spec_event_matches_host(e: Event, domain: Seq<char>) -> bool {
    match e {
        Event::Nav { to_url, .. } => match spec_host(to_url@) {
            Some(h) => h == domain || spec_registrable(h) == domain,
            None => false,
        },
        _ => false,
    }
}

/// Whether forgetting `domain` removes event `e`.
pub fn event_matches_host(e: &Event, domain: &str) -> (r: bool)
    ensures
        r == spec_event_matches_host(*e, domain@),
{
    match e {
        Event::Nav { to_url, .. } => match host(to_url.as_str()) {
            Some(h) => {
                if str_eq(h.as_str(), domain) {
                    true
                } else {
                    let r = registrable(h.as_str());
                    str_eq(r.as_str(), domain)
                }
            },
            None => false,
        },
        _ => false,
    }
}

/// An event with a timestamp inside `[from_ts, to_ts]` (an unrecognized
/// event has none).
pub open spec fn spec_event_in_span(e: Event, from_ts: i64, to_ts: i64) -> bool {
    match spec_event_ts(e) {
        Some(ts) => from_ts <= ts && ts <= to_ts,
        None => false,
    }
}

/// Whether deleting the time span `[from_ts, to_ts]` removes event `e`.
pub fn event_in_span(e: &Event, from_ts: i64, to_ts: i64) -> (r: bool)
    ensures
        r == spec_event_in_span(*e, from_ts, to_ts),
{
    match e.ts() {
        Some(ts) => from_ts <= ts && ts <= to_ts,
        None => false,
    }
}


/// Law: forgetting `domain` removes a navigation exactly when the host of its
/// URL is `domain` itself or has `domain` as its registrable domain. Every
/// other event is kept; in particular a host that merely shares its
/// registrable domain with `domain` (a sibling subdomain) is kept.
pub proof fn lemma_forget_removes_only_the_domain(e: Event, domain: Seq<char>, h: Seq<char>)
    requires
        e matches Event::Nav { to_url, .. } && spec_host(to_url@) == Some(h),
    ensures
        h == domain ==> spec_event_matches_host(e, domain),
        spec_registrable(h) == domain ==> spec_event_matches_host(e, domain),
        h != domain && spec_registrable(h) != domain ==> !spec_event_matches_host(e, domain),
{
}

/// Law: events that are not navigations to an `http(s)` host are never
/// removed by forgetting a domain.
pub proof fn lemma_forget_needs_a_web_host(e: Event, domain: Seq<char>)
    requires
        !(e matches Event::Nav { to_url, .. } && spec_host(to_url@) is Some),
    ensures
        !spec_event_matches_host(e, domain),
{
}


/// Law: deleting the span `[from_ts, to_ts]` removes exactly the events
/// stamped inside it, both ends included; events before or after it, and
/// unrecognized events, are kept.
pub proof fn lemma_span_is_inclusive(e: Event, from_ts: i64, to_ts: i64, ts: i64)
    requires
        spec_event_ts(e) == Some(ts),
    ensures
        spec_event_in_span(e, from_ts, to_ts) == (from_ts <= ts && ts <= to_ts),
        ts == from_ts && from_ts <= to_ts ==> spec_event_in_span(e, from_ts, to_ts),
        ts == to_ts && from_ts <= to_ts ==> spec_event_in_span(e, from_ts, to_ts),
        !spec_event_in_span(Event::Unknown, from_ts, to_ts),
{
}

} // verus!
