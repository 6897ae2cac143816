//! Onboarding sample dataset helpers: the fixture stores URLs without their
//! scheme, and the scheme is re-attached at load time.
use vstd::prelude::*;
use crate::text::{chars_of, has_prefix, owned, push_str};

verus! {

/// The scheme stripped from the fixture's URLs; always what to prepend.
pub const URL_SCHEME: &'static str = "https://";

pub open spec fn starts_with(s: Seq<char>, p: Seq<char>) -> bool {
    p.len() <= s.len() && s.take(p.len() as int) == p
}

pub open spec fn spec_with_scheme(s: Seq<char>) -> Seq<char> {
    if starts_with(s, "http://"@) || starts_with(s, "https://"@) {
        s
    } else {
        "https://"@ + s
    }
}

/// Re-attach the stripped scheme to a stored URL. Idempotent: a URL that
/// already carries an `http(s)` scheme is returned unchanged.
pub fn with_scheme(schemeless: &str) -> (r: String)
    ensures
        r@ == spec_with_scheme(schemeless@),
{
    let cs = chars_of(schemeless);
    let http = chars_of("http://");
    let https = chars_of("https://");
    if has_prefix(&cs, &http) || has_prefix(&cs, &https) {
        owned(schemeless)
    } else {
        let mut r = owned(URL_SCHEME);
        push_str(&mut r, schemeless);
        r
    }
}

} // verus!
