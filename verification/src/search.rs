//! Search-query extraction from captured navigation URLs, and a ranked
//! tally of the queries issued.
use vstd::prelude::*;
use crate::interpret::is_http;
use crate::sample::starts_with;
use crate::sorting::{is_stable_sort, sort_by_keys, KeyView, RankKey};
use crate::text::{chars_of, has_prefix, str_eq, string_of, trim_chars, trimmed};
use crate::urls::{decode_form_pairs, form_pairs, lowercase_of, parse_url, parsed_url, to_lower, UrlView};

verus! {

/// A recognized search-result URL: the engine's display name and the
/// decoded query terms.
#[derive(Clone, Debug, PartialEq, Eq)]
pub struct SearchQuery {
    pub engine: &'static str,
    pub terms: String,
}

/// An aggregated search term: how often a query was issued.
#[derive(Clone, Debug, PartialEq, Eq)]
pub struct SearchCount {
    pub engine: String,
    pub terms: String,
    pub count: u32,
}

pub open spec fn spec_engine_for(host: Seq<char>, path: Seq<char>) -> Option<(Seq<char>, Seq<char>)> {
    if (host == "google.com"@ || starts_with(host, "google."@)) && path == "/search"@ {
        Some(("Google"@, "q"@))
    } else if host == "bing.com"@ && path == "/search"@ {
        Some(("Bing"@, "q"@))
    } else if host == "duckduckgo.com"@ {
        Some(("DuckDuckGo"@, "q"@))
    } else if host == "search.brave.com"@ && path == "/search"@ {
        Some(("Brave"@, "q"@))
    } else if host == "ecosia.org"@ && path == "/search"@ {
        Some(("Ecosia"@, "q"@))
    } else if host == "startpage.com"@ {
        Some(("Startpage"@, "query"@))
    } else if (host == "youtube.com"@ || host == "m.youtube.com"@) && path == "/results"@ {
        Some(("YouTube"@, "search_query"@))
    } else {
        None
    }
}

/// The known search engine for `(host, path)` (host lower-cased and without
/// `www.`): its display name and the query parameter carrying the terms.
pub fn engine_for(host: &str, path: &str) -> (r: Option<(&'static str, &'static str)>)
    ensures
        match spec_engine_for(host@, path@) {
            Some((e, p)) => r matches Some((name, param)) && name@ == e && param@ == p,
            None => r is None,
        },
{
    let hc = chars_of(host);
    let google_dot = chars_of("google.");
    let is_search = str_eq(path, "/search");
    if (str_eq(host, "google.com") || has_prefix(&hc, &google_dot)) && is_search {
        return Some(("Google", "q"));
    }
    if str_eq(host, "bing.com") && is_search {
        Some(("Bing", "q"))
    } else if str_eq(host, "duckduckgo.com") {
        Some(("DuckDuckGo", "q"))
    } else if str_eq(host, "search.brave.com") && is_search {
        Some(("Brave", "q"))
    } else if str_eq(host, "ecosia.org") && is_search {
        Some(("Ecosia", "q"))
    } else if str_eq(host, "startpage.com") {
        Some(("Startpage", "query"))
    } else if (str_eq(host, "youtube.com") || str_eq(host, "m.youtube.com")) && str_eq(
        path,
        "/results",
    ) {
        Some(("YouTube", "search_query"))
    } else {
        None
    }
}

/// `h` without a leading `www.`.
pub open spec fn strip_www(h: Seq<char>) -> Seq<char> {
    if starts_with(h, "www."@) {
        h.skip(4)
    } else {
        h
    }
}

/// The first value whose key is `k` among decoded pairs.
pub open spec fn first_value(ps: Seq<(Seq<char>, Seq<char>)>, k: Seq<char>) -> Option<Seq<char>>
    decreases ps.len(),
{
    if ps.len() == 0 {
        None
    } else if ps[0].0 == k {
        Some(ps[0].1)
    } else {
        first_value(ps.drop_first(), k)
    }
}

pub open spec fn spec_extract_query(raw: Seq<char>) -> Option<(Seq<char>, Seq<char>)> {
    match parsed_url(raw) {
        Some(u) => if !is_http(u.scheme) {
            None
        } else {
            match u.host {
                Some(h) => match spec_engine_for(strip_www(lowercase_of(h)), u.path) {
                    Some((engine, param)) => {
                        let q = match u.query {
                            Some(q) => q,
                            None => Seq::<char>::empty(),
                        };
                        match first_value(form_pairs(q), param) {
                            Some(v) => if trimmed(v).len() > 0 {
                                Some((engine, trimmed(v)))
                            } else {
                                None
                            },
                            None => None,
                        }
                    },
                    None => None,
                },
                None => None,
            }
        },
        None => None,
    }
}

/// Extract the engine and decoded terms from a URL; `None` when it is not a
/// recognized `http(s)` search-result URL or carries no non-empty terms.
pub fn extract_query(raw: &str) -> (r: Option<SearchQuery>)
    ensures
        match spec_extract_query(raw@) {
            Some((e, t)) => r is Some && r->0.engine@ == e && r->0.terms@ == t,
            None => r is None,
        },
{
    let u = parse_url(raw)?;
    if !(str_eq(u.scheme.as_str(), "http") || str_eq(u.scheme.as_str(), "https")) {
        return None;
    }
    let h = match &u.host {
        Some(h) => h,
        None => {
            return None;
        },
    };
    let lower = to_lower(h.as_str());
    let lc = chars_of(lower.as_str());
    let www = chars_of("www.");
    proof {
        reveal_strlit("www.");
    }
    let host = if has_prefix(&lc, &www) {
        let mut v: Vec<char> = Vec::new();
        let mut i: usize = 4;
        while i < lc.len()
            invariant
                4 <= i <= lc@.len(),
                v@ == lc@.subrange(4, i as int),
            decreases lc.len() - i,
        {
            v.push(lc[i]);
            i += 1;
            assert(lc@.subrange(4, i as int) =~= lc@.subrange(4, i - 1).push(lc@[i - 1]));
        }
        string_of(&v)
    } else {
        lower.clone()
    };
    assert(host@ == strip_www(lowercase_of(h@)));
    let (engine, param) = engine_for(host.as_str(), u.path.as_str())?;
    let q = match &u.query {
        Some(q) => q.clone(),
        None => String::new(),
    };
    let ghost qv = match u@.query {
        Some(q) => q,
        None => Seq::<char>::empty(),
    };
    proof {
        assert(parsed_url(raw@) == Some(u@));
        assert(u@.host == Some(h@));
        assert(spec_engine_for(strip_www(lowercase_of(h@)), u@.path) == Some((engine@, param@)));
        assert(q@ == qv);
    }
    let pairs = decode_form_pairs(q.as_str());
    let ghost ps = form_pairs(q@);
    let mut i: usize = 0;
    assert(ps.skip(0) =~= ps);
    proof {
        assert(ps == form_pairs(qv));
        assert(is_http(u@.scheme));
    }
    let ghost outcome = match first_value(ps, param@) {
        Some(v) => if trimmed(v).len() > 0 {
            Some((engine@, trimmed(v)))
        } else {
            None
        },
        None => None,
    };
    assert(spec_extract_query(raw@) == outcome);
    while i < pairs.len()
        invariant
            i <= pairs@.len() == ps.len(),
            spec_extract_query(raw@) == outcome,
            outcome == match first_value(ps, param@) {
                Some(v) => if trimmed(v).len() > 0 {
                    Some((engine@, trimmed(v)))
                } else {
                    None
                },
                None => None,
            },
            forall|a: int| 0 <= a < pairs@.len() ==> (#[trigger] pairs@[a]).0@ == ps[a].0 && pairs@[a].1@ == ps[a].1,
            first_value(ps, param@) == first_value(ps.skip(i as int), param@),
        decreases pairs.len() - i,
    {
        if i == 0 {
            assert(ps.skip(0) =~= ps);
        }
        assert(ps.skip(i as int).drop_first() =~= ps.skip(i + 1));
        assert(ps.skip(i as int)[0] == ps[i as int]);
        if str_eq(pairs[i].0.as_str(), param) {
            assert(first_value(ps, param@) == Some(ps[i as int].1));
            let t = trim_chars(&chars_of(pairs[i].1.as_str()));
            if t.len() == 0 {
                return None;
            }
            return Some(SearchQuery { engine, terms: string_of(&t) });
        }
        i += 1;
    }
    if pairs.len() == 0 {
        assert(ps.skip(0) =~= ps);
    }
    None
}

/// The `(engine, terms)` of every URL that is a recognized search.
pub open spec fn query_items(urls: Seq<String>) -> Seq<(Seq<char>, Seq<char>)>
    decreases urls.len(),
{
    if urls.len() == 0 {
        Seq::empty()
    } else {
        let prev = query_items(urls.drop_last());
        match spec_extract_query(urls.last()@) {
            Some(q) => prev.push(q),
            None => prev,
        }
    }
}

/// The grouping key of a query: engine and lower-cased terms.
pub open spec fn query_key(q: (Seq<char>, Seq<char>)) -> (Seq<char>, Seq<char>) {
    (q.0, lowercase_of(q.1))
}

/// How many items share key `k`.
pub open spec fn key_count(items: Seq<(Seq<char>, Seq<char>)>, k: (Seq<char>, Seq<char>)) -> int
    decreases items.len(),
{
    if items.len() == 0 {
        0
    } else {
        key_count(items.drop_last(), k) + if query_key(items.last()) == k {
            1int
        } else {
            0
        }
    }
}

/// The terms of the first item with key `k` (its display casing).
pub open spec fn first_terms(items: Seq<(Seq<char>, Seq<char>)>, k: (Seq<char>, Seq<char>)) -> Seq<char>
    decreases items.len(),
{
    if items.len() == 0 {
        Seq::empty()
    } else if query_key(items[0]) == k {
        items[0].1
    } else {
        first_terms(items.drop_first(), k)
    }
}

/// `rows` holds one row per distinct key of `items`, with its first display
/// terms and its number of occurrences.
pub open spec fn is_query_tally(rows: Seq<SearchCount>, items: Seq<(Seq<char>, Seq<char>)>) -> bool {
    &&& forall|i: int, j: int| 0 <= i < j < rows.len() ==> query_key((#[trigger] rows[i].engine@, rows[i].terms@))
        != query_key((#[trigger] rows[j].engine@, rows[j].terms@))
    &&& forall|i: int| 0 <= i < rows.len() ==> {
        let k = query_key(((#[trigger] rows[i]).engine@, rows[i].terms@));
        key_count(items, k) > 0 && rows[i].terms@ == first_terms(items, k) && rows[i].count == key_count(items, k)
    }
    &&& forall|a: int| 0 <= a < items.len() ==> has_row(rows, query_key(#[trigger] items[a]))
}

/// Some row of `rows` has key `k`.
pub open spec fn has_row(rows: Seq<SearchCount>, k: (Seq<char>, Seq<char>)) -> bool {
    exists|i: int| 0 <= i < rows.len() && query_key(((#[trigger] rows[i]).engine@, rows[i].terms@)) == k
}

/// Rank key of a query row: count descending, then terms, then engine.
pub open spec fn count_key(c: SearchCount) -> KeyView {
    (-(c.count as int), c.terms@, c.engine@)
}

/// `s` is ordered by `key` (non-decreasing).
pub open spec fn sorted_by(s: Seq<SearchCount>) -> bool {
    forall|i: int, j: int| 0 <= i < j < s.len() ==> !crate::sorting::key_lt(count_key(#[trigger] s[j]), count_key(#[trigger] s[i]))
}

proof fn lemma_key_count_le(items: Seq<(Seq<char>, Seq<char>)>, k: (Seq<char>, Seq<char>))
    ensures
        0 <= key_count(items, k) <= items.len(),
    decreases items.len(),
{
    if items.len() > 0 {
        lemma_key_count_le(items.drop_last(), k);
    }
}

proof fn lemma_first_terms_push(items: Seq<(Seq<char>, Seq<char>)>, x: (Seq<char>, Seq<char>), k: (Seq<char>, Seq<char>))
    requires
        key_count(items, k) > 0 || query_key(x) == k,
    ensures
        first_terms(items.push(x), k) == if key_count(items, k) > 0 { first_terms(items, k) } else { x.1 },
    decreases items.len(),
{
    if items.len() == 0 {
        assert(items.push(x)[0] == x);
        assert(items.push(x).drop_first() =~= Seq::<(Seq<char>, Seq<char>)>::empty());
    } else {
        lemma_key_count_first(items, k);
        lemma_key_count_le(items.drop_first(), k);
        assert(items.push(x)[0] == items[0]);
        assert(items.push(x).drop_first() =~= items.drop_first().push(x));
        if query_key(items[0]) != k {
            lemma_key_count_first(items, k);
            lemma_first_terms_push(items.drop_first(), x, k);
        }
    }
}

proof fn lemma_key_count_first(items: Seq<(Seq<char>, Seq<char>)>, k: (Seq<char>, Seq<char>))
    requires
        items.len() > 0,
    ensures
        key_count(items, k) == key_count(items.drop_first(), k) + if query_key(items[0]) == k { 1int } else { 0 },
    decreases items.len(),
{
    if items.len() > 1 {
        lemma_key_count_first(items.drop_last(), k);
        assert(items.drop_last().drop_first() =~= items.drop_first().drop_last());
    } else {
        assert(items.drop_first() =~= Seq::<(Seq<char>, Seq<char>)>::empty());
        assert(items.drop_last() =~= Seq::<(Seq<char>, Seq<char>)>::empty());
    }
}

proof fn lemma_first_terms_key(items: Seq<(Seq<char>, Seq<char>)>, k: (Seq<char>, Seq<char>))
    requires
        key_count(items, k) > 0,
    ensures
        lowercase_of(first_terms(items, k)) == k.1,
    decreases items.len(),
{
    if query_key(items[0]) != k {
        lemma_key_count_first(items, k);
        lemma_first_terms_key(items.drop_first(), k);
    }
}

/// The index of the row whose key is `(engine, lower)`.
fn find_query_row(rows: &Vec<SearchCount>, lowers: &Vec<String>, engine: &str, lower: &str) -> (pos: Option<usize>)
    requires
        rows@.len() == lowers@.len(),
    ensures
        match pos {
            Some(j) => j < rows@.len() && rows@[j as int].engine@ == engine@ && lowers@[j as int]@ == lower@,
            None => forall|a: int| 0 <= a < rows@.len() ==> !((#[trigger] rows@[a]).engine@ == engine@ && lowers@[a]@ == lower@),
        },
{
    let mut j: usize = 0;
    while j < rows.len()
        invariant
            j <= rows@.len() == lowers@.len(),
            forall|a: int| 0 <= a < j ==> !((#[trigger] rows@[a]).engine@ == engine@ && lowers@[a]@ == lower@),
        decreases rows.len() - j,
    {
        if str_eq(rows[j].engine.as_str(), engine) && str_eq(lowers[j].as_str(), lower) {
            return Some(j);
        }
        j += 1;
    }
    None
}

/// Extract and aggregate search terms across `urls`: terms are grouped per
/// engine case-insensitively (keeping the first-seen casing), and the `top`
/// most frequent are returned by count descending, then terms, then engine.
pub fn top_searches(urls: &[String], top: usize) -> (r: Vec<SearchCount>)
    requires
        urls@.len() <= u32::MAX,
    ensures
        exists|s: Seq<SearchCount>|
            is_query_tally(s, query_items(urls@)) && sorted_by(s) && r@ == s.take(
                if top < s.len() {
                    top as int
                } else {
                    s.len() as int
                },
            ),
{
    // Extract the recognized queries.
    let mut items: Vec<(String, String)> = Vec::new();
    let mut i: usize = 0;
    while i < urls.len()
        invariant
            i <= urls@.len(),
            items@.len() <= i,
            items@.map_values(|q: (String, String)| (q.0@, q.1@)) == query_items(urls@.take(i as int)),
        decreases urls.len() - i,
    {
        assert(urls@.take(i + 1).drop_last() =~= urls@.take(i as int));
        match extract_query(urls[i].as_str()) {
            Some(q) => {
                items.push((q.engine.to_owned(), q.terms));
                assert(items@.map_values(|q: (String, String)| (q.0@, q.1@)) =~= query_items(urls@.take(i + 1)));
            },
            None => {},
        }
        i += 1;
    }
    assert(urls@.take(urls@.len() as int) =~= urls@);
    let ghost iv = query_items(urls@);
    // Group by (engine, lower-cased terms).
    let mut rows: Vec<SearchCount> = Vec::new();
    let mut lowers: Vec<String> = Vec::new();
    let mut a: usize = 0;
    assert(iv.take(0) =~= Seq::<(Seq<char>, Seq<char>)>::empty());
    while a < items.len()
        invariant
            a <= items@.len() <= urls@.len() <= u32::MAX,
            items@.map_values(|q: (String, String)| (q.0@, q.1@)) == iv,
            rows@.len() == lowers@.len(),
            forall|j: int| 0 <= j < rows@.len() ==> (#[trigger] lowers@[j])@ == lowercase_of(rows@[j].terms@),
            is_query_tally(rows@, iv.take(a as int)),
        decreases items.len() - a,
    {
        let ghost pre = iv.take(a as int);
        let ghost x = iv[a as int];
        let ghost post = iv.take(a + 1);
        assert(post =~= pre.push(x));
        assert(post.drop_last() =~= pre);
        let lower = to_lower(items[a].1.as_str());
        let ghost k = (items@[a as int].0@, lower@);
        assert(query_key(x) == k);
        let ghost rv0 = rows@;
        match find_query_row(&rows, &lowers, items[a].0.as_str(), lower.as_str()) {
            Some(j) => {
                proof {
                    assert(query_key((rv0[j as int].engine@, rv0[j as int].terms@)) == k);
                    lemma_key_count_le(pre, k);
                    lemma_first_terms_push(pre, x, k);
                }
                let old_row = &rows[j];
                let updated = SearchCount { engine: old_row.engine.clone(), terms: old_row.terms.clone(), count: old_row.count + 1 };
                rows.set(j, updated);
                proof {
                    let rv = rows@;
                    assert forall|b: int| 0 <= b < rv.len() implies {
                        let kb = query_key(((#[trigger] rv[b]).engine@, rv[b].terms@));
                        key_count(post, kb) > 0 && rv[b].terms@ == first_terms(post, kb) && rv[b].count == key_count(post, kb)
                    } by {
                        let kb = query_key((rv[b].engine@, rv[b].terms@));
                        assert(kb == query_key((rv0[b].engine@, rv0[b].terms@)));
                        if kb != k {
                            lemma_first_terms_push(pre, x, kb);
                        }
                    }
                    assert forall|c: int| 0 <= c < post.len() implies has_row(rv, query_key(#[trigger] post[c])) by {
                        if c < pre.len() {
                            assert(post[c] == pre[c]);
                            assert(has_row(rv0, query_key(pre[c])));
                            let b = choose|b: int| 0 <= b < rv0.len() && query_key(((#[trigger] rv0[b]).engine@, rv0[b].terms@)) == query_key(pre[c]);
                            assert(query_key((rv[b].engine@, rv[b].terms@)) == query_key((rv0[b].engine@, rv0[b].terms@)));
                        } else {
                            assert(post[c] == x);
                            assert(query_key((rv[j as int].engine@, rv[j as int].terms@)) == k);
                        }
                    }
                    assert forall|b: int, c: int| 0 <= b < c < rv.len() implies query_key((#[trigger] rv[b].engine@, rv[b].terms@))
                        != query_key((#[trigger] rv[c].engine@, rv[c].terms@)) by {
                        assert(query_key((rv[b].engine@, rv[b].terms@)) == query_key((rv0[b].engine@, rv0[b].terms@)));
                        assert(query_key((rv[c].engine@, rv[c].terms@)) == query_key((rv0[c].engine@, rv0[c].terms@)));
                    }
                }
            },
            None => {
                proof {
                    lemma_key_count_le(pre, k);
                    if key_count(pre, k) > 0 {
                        lemma_count_witness(pre, k);
                        let c = choose|c: int| 0 <= c < pre.len() && query_key(pre[c]) == k;
                        assert(query_key(pre[c]) == k);
                        assert(has_row(rv0, query_key(pre[c])));
                        let b = choose|b: int| 0 <= b < rv0.len() && query_key(((#[trigger] rv0[b]).engine@, rv0[b].terms@)) == query_key(pre[c]);
                        assert(0 <= b < rv0.len());
                        assert(query_key((rv0[b].engine@, rv0[b].terms@)) == k);
                        assert(lowers@[b]@ == lowercase_of(rv0[b].terms@));
                        assert(lowers@[b]@ == lower@);
                        assert(rows@[b].engine@ == items@[a as int].0@);
                        assert(false);
                    }
                    lemma_first_terms_push(pre, x, k);
                }
                rows.push(SearchCount { engine: items[a].0.clone(), terms: items[a].1.clone(), count: 1 });
                lowers.push(lower);
                proof {
                    let rv = rows@;
                    assert(rv =~= rv0.push(rv[rv0.len() as int]));
                    assert(query_key((rv[rv0.len() as int].engine@, rv[rv0.len() as int].terms@)) == k);
                    assert forall|b: int| 0 <= b < rv.len() implies {
                        let kb = query_key(((#[trigger] rv[b]).engine@, rv[b].terms@));
                        key_count(post, kb) > 0 && rv[b].terms@ == first_terms(post, kb) && rv[b].count == key_count(post, kb)
                    } by {
                        let kb = query_key((rv[b].engine@, rv[b].terms@));
                        assert(post.drop_last() == pre && post.last() == x);
                        assert(key_count(post, kb) == key_count(pre, kb) + if query_key(x) == kb { 1int } else { 0 });
                        if b < rv0.len() {
                            assert(rv[b] == rv0[b]);
                            assert(key_count(pre, kb) > 0);
                            lemma_first_terms_push(pre, x, kb);
                        }
                    }
                    assert forall|c: int| 0 <= c < post.len() implies has_row(rv, query_key(#[trigger] post[c])) by {
                        if c < pre.len() {
                            assert(post[c] == pre[c]);
                            assert(has_row(rv0, query_key(pre[c])));
                            let b = choose|b: int| 0 <= b < rv0.len() && query_key(((#[trigger] rv0[b]).engine@, rv0[b].terms@)) == query_key(pre[c]);
                            assert(rv[b] == rv0[b]);
                        } else {
                            assert(post[c] == x);
                            assert(query_key((rv[rv0.len() as int].engine@, rv[rv0.len() as int].terms@)) == k);
                        }
                    }
                    assert forall|b: int, c: int| 0 <= b < c < rv.len() implies query_key((#[trigger] rv[b].engine@, rv[b].terms@))
                        != query_key((#[trigger] rv[c].engine@, rv[c].terms@)) by {
                        if c == rv0.len() {
                            assert(rv[b] == rv0[b]);
                            if query_key((rv[b].engine@, rv[b].terms@)) == k {
                                assert(key_count(pre, k) > 0);
                            }
                        } else {
                            assert(rv[b] == rv0[b] && rv[c] == rv0[c]);
                        }
                    }
                }
            },
        }
        a += 1;
    }
    assert(iv.take(items@.len() as int) =~= iv);
    // Order the rows.
    let ghost g = rows@;
    let mut keys: Vec<RankKey> = Vec::new();
    let mut b: usize = 0;
    while b < rows.len()
        invariant
            b <= rows@.len(),
            rows@ == g,
            keys@.len() == b,
            forall|c: int| 0 <= c < b ==> (#[trigger] keys@[c])@ == count_key(g[c]),
        decreases rows.len() - b,
    {
        keys.push(RankKey { major: -(rows[b].count as i128), first: chars_of(rows[b].terms.as_str()), second: chars_of(rows[b].engine.as_str()) });
        b += 1;
    }
    let mut sorted = sort_by_keys(rows, &keys, Ghost(|c: SearchCount| count_key(c)));
    let ghost s = sorted@;
    proof {
        lemma_query_tally_permute(s, g, iv);
    }
    sorted.truncate(top);
    assert(sorted@ =~= s.take(if top < s.len() { top as int } else { s.len() as int }));
    sorted
}

proof fn lemma_count_witness(items: Seq<(Seq<char>, Seq<char>)>, k: (Seq<char>, Seq<char>))
    requires
        key_count(items, k) > 0,
    ensures
        exists|c: int| 0 <= c < items.len() && query_key(items[c]) == k,
    decreases items.len(),
{
    if query_key(items.last()) != k {
        lemma_count_witness(items.drop_last(), k);
        let c = choose|c: int| 0 <= c < items.drop_last().len() && query_key(items.drop_last()[c]) == k;
        assert(items[c] == items.drop_last()[c]);
    } else {
        assert(query_key(items[items.len() - 1]) == k);
    }
}

proof fn lemma_query_tally_permute(s: Seq<SearchCount>, g: Seq<SearchCount>, items: Seq<(Seq<char>, Seq<char>)>)
    requires
        is_query_tally(g, items),
        is_stable_sort(s, g, |c: SearchCount| count_key(c)),
        g.len() <= usize::MAX,
    ensures
        is_query_tally(s, items),
        sorted_by(s),
{
    let p = choose|p: Seq<usize>|
        #![trigger crate::sorting::is_index_perm(p, g.len())]
        crate::sorting::is_index_perm(p, g.len()) && s.len() == g.len() && (forall|i: int|
            0 <= i < s.len() ==> #[trigger] s[i] == g[p[i] as int]) && (forall|i: int, j: int|
            0 <= i < j < s.len() ==> !crate::sorting::key_lt(count_key(#[trigger] s[j]), count_key(#[trigger] s[i]))) && (
        forall|i: int, j: int|
            0 <= i < j < s.len() && count_key(#[trigger] s[i]) == count_key(#[trigger] s[j]) ==> p[i] < p[j]);
    assert forall|i: int, j: int| 0 <= i < j < s.len() implies query_key((#[trigger] s[i].engine@, s[i].terms@))
        != query_key((#[trigger] s[j].engine@, s[j].terms@)) by {
        assert(s[i] == g[p[i] as int] && s[j] == g[p[j] as int]);
        if p[i] < p[j] {
            assert(query_key((g[p[i] as int].engine@, g[p[i] as int].terms@)) != query_key((g[p[j] as int].engine@, g[p[j] as int].terms@)));
        } else {
            assert(query_key((g[p[j] as int].engine@, g[p[j] as int].terms@)) != query_key((g[p[i] as int].engine@, g[p[i] as int].terms@)));
        }
    }
    assert forall|i: int| 0 <= i < s.len() implies {
        let k = query_key(((#[trigger] s[i]).engine@, s[i].terms@));
        key_count(items, k) > 0 && s[i].terms@ == first_terms(items, k) && s[i].count == key_count(items, k)
    } by {
        assert(s[i] == g[p[i] as int]);
    }
    assert forall|a: int| 0 <= a < items.len() implies has_row(s, query_key(#[trigger] items[a])) by {
        assert(has_row(g, query_key(items[a])));
        let b = choose|b: int| 0 <= b < g.len() && query_key(((#[trigger] g[b]).engine@, g[b].terms@)) == query_key(items[a]);
        crate::tally::lemma_perm_onto(p, g.len(), b);
        let i = choose|i: int| 0 <= i < p.len() && p[i] == b;
        assert(s[i] == g[b]);
    }
}


/// Law: each engine is recognized by its host (lower-cased, without `www.`)
/// and path, and by nothing else, and reads its terms from its own query
/// parameter.
pub proof fn lemma_engine_table(h: Seq<char>, p: Seq<char>)
    ensures
        (spec_engine_for(h, p) == Some(("Google"@, "q"@))) == ((h == "google.com"@ || starts_with(h, "google."@)) && p
            == "/search"@),
        (spec_engine_for(h, p) == Some(("Bing"@, "q"@))) == (h == "bing.com"@ && p == "/search"@),
        (spec_engine_for(h, p) == Some(("DuckDuckGo"@, "q"@))) == (h == "duckduckgo.com"@),
        (spec_engine_for(h, p) == Some(("Brave"@, "q"@))) == (h == "search.brave.com"@ && p == "/search"@),
        (spec_engine_for(h, p) == Some(("Ecosia"@, "q"@))) == (h == "ecosia.org"@ && p == "/search"@),
        (spec_engine_for(h, p) == Some(("Startpage"@, "query"@))) == (h == "startpage.com"@),
        (spec_engine_for(h, p) == Some(("YouTube"@, "search_query"@))) == ((h == "youtube.com"@ || h == "m.youtube.com"@)
            && p == "/results"@),
{
    reveal_strlit("google.com");
    reveal_strlit("google.");
    reveal_strlit("/search");
    reveal_strlit("bing.com");
    reveal_strlit("duckduckgo.com");
    reveal_strlit("search.brave.com");
    reveal_strlit("ecosia.org");
    reveal_strlit("startpage.com");
    reveal_strlit("youtube.com");
    reveal_strlit("m.youtube.com");
    reveal_strlit("/results");
    reveal_strlit("Google");
    reveal_strlit("Bing");
    reveal_strlit("DuckDuckGo");
    reveal_strlit("Brave");
    reveal_strlit("Ecosia");
    reveal_strlit("Startpage");
    reveal_strlit("YouTube");
    reveal_strlit("q");
    reveal_strlit("query");
    reveal_strlit("search_query");
    lemma_not_google_prefix("bing.com"@);
    lemma_not_google_prefix("duckduckgo.com"@);
    lemma_not_google_prefix("search.brave.com"@);
    lemma_not_google_prefix("ecosia.org"@);
    lemma_not_google_prefix("startpage.com"@);
    lemma_not_google_prefix("youtube.com"@);
    lemma_not_google_prefix("m.youtube.com"@);
    lemma_differ("/search"@, "/results"@, 1);
    lemma_differ("google.com"@, "bing.com"@, 0);
    lemma_differ("google.com"@, "duckduckgo.com"@, 0);
    lemma_differ("google.com"@, "search.brave.com"@, 0);
    lemma_differ("google.com"@, "ecosia.org"@, 0);
    lemma_differ("google.com"@, "startpage.com"@, 0);
    lemma_differ("google.com"@, "youtube.com"@, 0);
    lemma_differ("google.com"@, "m.youtube.com"@, 0);
    lemma_differ("bing.com"@, "duckduckgo.com"@, 0);
    lemma_differ("bing.com"@, "search.brave.com"@, 0);
    lemma_differ("bing.com"@, "ecosia.org"@, 0);
    lemma_differ("bing.com"@, "startpage.com"@, 0);
    lemma_differ("bing.com"@, "youtube.com"@, 0);
    lemma_differ("bing.com"@, "m.youtube.com"@, 0);
    lemma_differ("duckduckgo.com"@, "search.brave.com"@, 0);
    lemma_differ("duckduckgo.com"@, "ecosia.org"@, 0);
    lemma_differ("duckduckgo.com"@, "startpage.com"@, 0);
    lemma_differ("duckduckgo.com"@, "youtube.com"@, 0);
    lemma_differ("duckduckgo.com"@, "m.youtube.com"@, 0);
    lemma_differ("search.brave.com"@, "ecosia.org"@, 0);
    lemma_differ("search.brave.com"@, "startpage.com"@, 1);
    lemma_differ("search.brave.com"@, "youtube.com"@, 0);
    lemma_differ("search.brave.com"@, "m.youtube.com"@, 0);
    lemma_differ("ecosia.org"@, "startpage.com"@, 0);
    lemma_differ("ecosia.org"@, "youtube.com"@, 0);
    lemma_differ("ecosia.org"@, "m.youtube.com"@, 0);
    lemma_differ("startpage.com"@, "youtube.com"@, 0);
    lemma_differ("startpage.com"@, "m.youtube.com"@, 0);
    lemma_differ("youtube.com"@, "m.youtube.com"@, 0);
    lemma_differ("Google"@, "Bing"@, 0);
    lemma_differ("Google"@, "DuckDuckGo"@, 0);
    lemma_differ("Google"@, "Brave"@, 0);
    lemma_differ("Google"@, "Ecosia"@, 0);
    lemma_differ("Google"@, "Startpage"@, 0);
    lemma_differ("Google"@, "YouTube"@, 0);
    lemma_differ("Bing"@, "DuckDuckGo"@, 0);
    lemma_differ("Bing"@, "Brave"@, 1);
    lemma_differ("Bing"@, "Ecosia"@, 0);
    lemma_differ("Bing"@, "Startpage"@, 0);
    lemma_differ("Bing"@, "YouTube"@, 0);
    lemma_differ("DuckDuckGo"@, "Brave"@, 0);
    lemma_differ("DuckDuckGo"@, "Ecosia"@, 0);
    lemma_differ("DuckDuckGo"@, "Startpage"@, 0);
    lemma_differ("DuckDuckGo"@, "YouTube"@, 0);
    lemma_differ("Brave"@, "Ecosia"@, 0);
    lemma_differ("Brave"@, "Startpage"@, 0);
    lemma_differ("Brave"@, "YouTube"@, 0);
    lemma_differ("Ecosia"@, "Startpage"@, 0);
    lemma_differ("Ecosia"@, "YouTube"@, 0);
    lemma_differ("Startpage"@, "YouTube"@, 0);
}

proof fn lemma_differ(a: Seq<char>, b: Seq<char>, i: int)
    requires
        0 <= i < a.len(),
        i < b.len(),
        a[i] != b[i],
    ensures
        a != b,
{
}

proof fn lemma_not_google_prefix(h: Seq<char>)
    requires
        h.len() > 0,
        h[0] != 'g',
    ensures
        !starts_with(h, "google."@),
        h != "google.com"@,
{
    reveal_strlit("google.");
    reveal_strlit("google.com");
    if starts_with(h, "google."@) {
        assert(h.take(7)[0] == h[0]);
    }
    if h == "google.com"@ {
        assert(h[0] == 'g');
    }
}

/// Law: a recognized search-result URL yields its engine and the first value
/// of the engine's parameter, trimmed, provided that is not empty; the host
/// is matched lower-cased and without `www.`.
pub proof fn lemma_extract_recognized(raw: Seq<char>, u: UrlView, h: Seq<char>, engine: Seq<char>, param: Seq<char>, v: Seq<char>)
    requires
        parsed_url(raw) == Some(u),
        is_http(u.scheme),
        u.host == Some(h),
        spec_engine_for(strip_www(lowercase_of(h)), u.path) == Some((engine, param)),
        first_value(form_pairs(if u.query is Some { u.query->0 } else { Seq::<char>::empty() }), param) == Some(v),
        trimmed(v).len() > 0,
    ensures
        spec_extract_query(raw) == Some((engine, trimmed(v))),
{
}

/// Law: a URL whose host and path match no engine yields nothing.
pub proof fn lemma_extract_unknown_engine(raw: Seq<char>, u: UrlView, h: Seq<char>)
    requires
        parsed_url(raw) == Some(u),
        u.host == Some(h),
        spec_engine_for(strip_www(lowercase_of(h)), u.path) is None,
    ensures
        spec_extract_query(raw) is None,
{
}


/// Law: the value read for a parameter is the one of its first occurrence.
pub proof fn lemma_first_value_is_first(ps: Seq<(Seq<char>, Seq<char>)>, k: Seq<char>, i: int)
    requires
        0 <= i < ps.len(),
        ps[i].0 == k,
        forall|j: int| 0 <= j < i ==> ps[j].0 != k,
    ensures
        first_value(ps, k) == Some(ps[i].1),
    decreases i,
{
    if i > 0 {
        lemma_first_value_is_first(ps.drop_first(), k, i - 1);
        assert forall|j: int| 0 <= j < i - 1 implies ps.drop_first()[j].0 != k by {
            assert(ps.drop_first()[j] == ps[j + 1]);
        }
    }
}

/// Law: a parameter that never occurs has no value.
pub proof fn lemma_first_value_absent(ps: Seq<(Seq<char>, Seq<char>)>, k: Seq<char>)
    requires
        forall|j: int| 0 <= j < ps.len() ==> ps[j].0 != k,
    ensures
        first_value(ps, k) is None,
    decreases ps.len(),
{
    if ps.len() > 0 {
        assert forall|j: int| 0 <= j < ps.drop_first().len() implies ps.drop_first()[j].0 != k by {
            assert(ps.drop_first()[j] == ps[j + 1]);
        }
        lemma_first_value_absent(ps.drop_first(), k);
    }
}

} // verus!
