//! URL facts the library reads: a parsed URL's scheme, host, path and query,
//! the decoded `key=value` pairs of a query string, the public-suffix lookup,
//! and Unicode lower-casing.
use vstd::prelude::*;
use vstd::string::StringSliceAdditionalSpecFns;

verus! {

/// The components of a parsed URL that the library reads.
pub struct UrlParts {
    pub scheme: String,
    pub host: Option<String>,
    pub path: String,
    pub query: Option<String>,
}

/// Plain-value view of [`UrlParts`].
pub struct UrlView {
    pub scheme: Seq<char>,
    pub host: Option<Seq<char>>,
    pub path: Seq<char>,
    pub query: Option<Seq<char>>,
}

pub open spec fn opt_view(o: Option<String>) -> Option<Seq<char>> {
    match o {
        Some(s) => Some(s@),
        None => None,
    }
}

impl View for UrlParts {
    type V = UrlView;

    open spec fn view(&self) -> UrlView {
        UrlView {
            scheme: self.scheme@,
            host: opt_view(self.host),
            path: self.path@,
            query: opt_view(self.query),
        }
    }
}

/// What `url::Url::parse` makes of `raw` (`None` when it is not a URL).
pub uninterp spec fn parsed_url(raw: Seq<char>) -> Option<UrlView>;

/// The decoded `(key, value)` pairs of a query string, in order, as
/// `form_urlencoded::parse` yields them.
pub uninterp spec fn form_pairs(query: Seq<char>) -> Seq<(Seq<char>, Seq<char>)>;

/// What the public-suffix list (`psl::suffix`) reports for `name`: the suffix
/// length in bytes and whether it is an ICANN entry (`None`: no suffix).
pub uninterp spec fn psl_suffix(name: Seq<char>) -> Option<(nat, bool)>;

/// Unicode lower-casing of a string (`str::to_lowercase`).
pub uninterp spec fn lowercase_of(s: Seq<char>) -> Seq<char>;

/// Parse `raw` with `url::Url::parse` and read its scheme, host, path and
/// query. The contract claims only that the result is what the named parse
/// gives for `raw`; nothing is stated about how `url` parses.
#[verifier::external_body]
pub fn parse_url(raw: &str) -> (r: Option<UrlParts>)
    ensures
        match r {
            Some(p) => parsed_url(raw@) == Some(p@),
            None => parsed_url(raw@) is None,
        },
{
    let u = url::Url::parse(raw).ok()?;
    Some(UrlParts {
        scheme: u.scheme().to_string(),
        host: u.host_str().map(|h| h.to_string()),
        path: u.path().to_string(),
        query: u.query().map(|q| q.to_string()),
    })
}

/// The percent-decoded pairs of `query` from `url::form_urlencoded::parse`
/// (the parser behind `Url::query_pairs`). The contract claims only that the
/// result is the named decoding of `query`.
#[verifier::external_body]
pub fn decode_form_pairs(query: &str) -> (r: Vec<(String, String)>)
    ensures
        r@.len() == form_pairs(query@).len(),
        forall|i: int|
            0 <= i < r@.len() ==> (#[trigger] r@[i]).0@ == form_pairs(query@)[i].0
                && r@[i].1@ == form_pairs(query@)[i].1,
{
    url::form_urlencoded::parse(query.as_bytes())
        .map(|(k, v)| (k.into_owned(), v.into_owned()))
        .collect()
}

/// `psl::suffix` on `name`'s bytes: the suffix length and whether its type is
/// `Icann`. The psl source returns `None` for a zero length and otherwise a
/// suffix sliced from the end of `name`, so a reported length is positive and
/// at most the byte length of `name`.
#[verifier::external_body]
pub fn public_suffix(name: &str) -> (r: Option<(usize, bool)>)
    ensures
        match r {
            Some((len, icann)) => psl_suffix(name@) == Some((len as nat, icann)) && 0 < len
                <= name.spec_bytes().len(),
            None => psl_suffix(name@) is None,
        },
{
    let s = psl::suffix(name.as_bytes())?;
    let icann = match s.typ() {
        Some(psl::Type::Icann) => true,
        _ => false,
    };
    Some((s.as_bytes().len(), icann))
}

/// `str::to_lowercase`: the result is the named lower-casing of `s`.
#[verifier::external_body]
pub fn to_lower(s: &str) -> (r: String)
    ensures
        r@ == lowercase_of(s@),
{
    s.to_lowercase()
}

} // verus!
