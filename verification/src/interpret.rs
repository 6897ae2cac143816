//! Interpretation helpers: transition classification, host extraction,
//! registrable-domain (eTLD+1) resolution, and node keying.
use vstd::prelude::*;
use vstd::utf8::encode_utf8;
use crate::model::{Granularity, Provenance};
use crate::text::{chars_of, join_chars, join_with, split_chars, split_on, str_eq, string_of,
    trim_end_char, trim_end_chars};
use crate::urls::{parse_url, parsed_url, psl_suffix, public_suffix};

verus! {

pub open spec fn spec_classify(t: Seq<char>) -> Provenance {
    if t == "link"@ {
        Provenance::Link
    } else if t == "form_submit"@ {
        Provenance::Form
    } else if t == "typed"@ {
        Provenance::TypedUrl
    } else if t == "generated"@ || t == "keyword"@ || t == "keyword_generated"@ {
        Provenance::SearchOrigin
    } else if t == "auto_bookmark"@ {
        Provenance::Bookmark
    } else if t == "start_page"@ {
        Provenance::Start
    } else if t == "reload"@ {
        Provenance::Reload
    } else {
        Provenance::Other
    }
}

/// Map a navigation `transitionType` to a [`Provenance`].
pub fn classify(transition_type: &str) -> (r: Provenance)
    ensures
        r == spec_classify(transition_type@),
{
    if str_eq(transition_type, "link") {
        Provenance::Link
    } else if str_eq(transition_type, "form_submit") {
        Provenance::Form
    } else if str_eq(transition_type, "typed") {
        Provenance::TypedUrl
    } else if str_eq(transition_type, "generated") || str_eq(transition_type, "keyword")
        || str_eq(transition_type, "keyword_generated") {
        Provenance::SearchOrigin
    } else if str_eq(transition_type, "auto_bookmark") {
        Provenance::Bookmark
    } else if str_eq(transition_type, "start_page") {
        Provenance::Start
    } else if str_eq(transition_type, "reload") {
        Provenance::Reload
    } else {
        Provenance::Other
    }
}

pub open spec fn is_http(scheme: Seq<char>) -> bool {
    scheme == "http"@ || scheme == "https"@
}

/// The host of an `http(s)` URL; `None` for any other scheme or a non-URL.
pub open spec fn spec_host(raw: Seq<char>) -> Option<Seq<char>> {
    match parsed_url(raw) {
        Some(u) => if is_http(u.scheme) {
            u.host
        } else {
            None
        },
        None => None,
    }
}

/// Extract the host of an `http(s)` URL; `None` for any other scheme
/// (`chrome://`, `file://`, `about:`, ...) so those are dropped.
pub fn host(raw: &str) -> (r: Option<String>)
    ensures
        match r {
            Some(h) => spec_host(raw@) == Some(h@),
            None => spec_host(raw@) is None,
        },
{
    let u = parse_url(raw)?;
    if str_eq(u.scheme.as_str(), "http") || str_eq(u.scheme.as_str(), "https") {
        u.host
    } else {
        None
    }
}

/// Whether `cand` is exactly an ICANN public suffix.
pub open spec fn whole_icann(cand: Seq<char>) -> bool {
    match psl_suffix(cand) {
        Some((len, icann)) => icann && len == (encode_utf8(cand).len() as usize) as nat,
        None => false,
    }
}

/// The first label index `i >= from` whose dotted tail is a whole ICANN suffix.
pub open spec fn first_icann(labels: Seq<Seq<char>>, from: int) -> Option<int>
    decreases labels.len() - from,
{
    if from < 0 || from >= labels.len() {
        None
    } else if whole_icann(join_with(labels.skip(from), '.')) {
        Some(from)
    } else {
        first_icann(labels, from + 1)
    }
}

/// The registrable domain of `host` under the ICANN section of the public
/// suffix list: one label above the longest ICANN suffix, or the (dot-trimmed)
/// host itself when no ICANN suffix is found or the host is a suffix.
pub open spec fn spec_registrable(host: Seq<char>) -> Seq<char> {
    let t = trim_end_char(host, '.');
    let labels = split_on(t, '.');
    match first_icann(labels, 0) {
        Some(i) => if i == 0 {
            t
        } else {
            join_with(labels.skip(i - 1), '.')
        },
        None => t,
    }
}

/// Registrable domain (eTLD+1) using the ICANN section of the public suffix
/// list only, so private entries are ignored: `erovelli.github.io` gives
/// `github.io`. IPs, `localhost` and unknown TLDs fall back to the host.
pub fn registrable(host: &str) -> (r: String)
    ensures
        r@ == spec_registrable(host@),
{
    let hc = chars_of(host);
    let t = trim_end_chars(&hc, '.');
    let labels = split_chars(&t, '.');
    let ghost lv = labels@.map_values(|v: Vec<char>| v@);
    assert(lv =~= split_on(t@, '.'));
    let mut i: usize = 0;
    while i < labels.len()
        invariant
            i <= labels.len(),
            lv == labels@.map_values(|v: Vec<char>| v@),
            lv =~= split_on(t@, '.'),
            t@ == trim_end_char(host@, '.'),
            first_icann(lv, 0) == first_icann(lv, i as int),
        decreases labels.len() - i,
    {
        let tail = join_chars(&labels, i, '.');
        assert(labels@.skip(i as int).map_values(|v: Vec<char>| v@) =~= lv.skip(i as int));
        let cand = string_of(&tail);
        let found = match public_suffix(cand.as_str()) {
            Some((len, icann)) => icann && len == cand.as_str().len(),
            None => false,
        };
        if found {
            assert(cand@ == join_with(lv.skip(i as int), '.'));
            assert(whole_icann(join_with(lv.skip(i as int), '.')));
            assert(first_icann(lv, i as int) == Some(i as int));
            if i == 0 {
                return string_of(&t);
            }
            let up = join_chars(&labels, i - 1, '.');
            assert(labels@.skip(i - 1).map_values(|v: Vec<char>| v@) =~= lv.skip(i - 1));
            return string_of(&up);
        }
        i += 1;
    }
    string_of(&t)
}

pub open spec fn spec_node_key(url: Seq<char>, g: Granularity) -> Option<Seq<char>> {
    match spec_host(url) {
        Some(h) => Some(
            match g {
                Granularity::Hostname => h,
                Granularity::Registrable => spec_registrable(h),
            },
        ),
        None => None,
    }
}

/// The graph node key for a URL at a granularity; `None` when the URL is not
/// `http(s)` (those navigations are not graphed).
pub fn node_key(url: &str, g: Granularity) -> (r: Option<String>)
    ensures
        match r {
            Some(k) => spec_node_key(url@, g) == Some(k@),
            None => spec_node_key(url@, g) is None,
        },
{
    let h = host(url)?;
    match g {
        Granularity::Hostname => Some(h),
        Granularity::Registrable => Some(registrable(h.as_str())),
    }
}

} // verus!
