use outdegree::export::{csv_field, csv_line};
use outdegree::favicon::{favicon_url, percent_encode, IconCache, CACHE_CAP};
use outdegree::interpret::{classify, host, node_key, registrable};
use outdegree::model::{Granularity, Provenance};
use outdegree::sample::with_scheme;
use outdegree::search::{extract_query, top_searches, SearchQuery};
use outdegree::stewardship::human_bytes;
use outdegree::svg::esc;
use outdegree::ui_prefs::{PrefView, UiPrefs};
use outdegree::project::{Filters, TimeRange};
use outdegree::views::{find, remove, upsert, SavedView};

#[test]
fn csv_field_quotes_only_when_needed() {
    assert_eq!(csv_field("plain"), "plain");
    assert_eq!(csv_field("a,b"), "\"a,b\"");
    assert_eq!(csv_field("say \"hi\""), "\"say \"\"hi\"\"\"");
    assert_eq!(csv_field("line\nbreak"), "\"line\nbreak\"");
    assert_eq!(csv_field(""), "");
}

#[test]
fn csv_line_joins_and_escapes() {
    assert_eq!(csv_line(&["host", "a,b.com", "12"]), "host,\"a,b.com\",12");
    assert_eq!(csv_line(&[]), "");
}

#[test]
fn favicon_url_encodes_scheme_and_carries_no_literal_slashes() {
    let base = "chrome-extension://abcdef/_favicon/";
    let url = favicon_url(base, "news.example", 16);
    assert_eq!(url, "chrome-extension://abcdef/_favicon/?pageUrl=https%3A%2F%2Fnews.example&size=16");
    let query = url.split_once("pageUrl=").unwrap().1;
    assert!(!query.contains("://"));
    assert!(query.starts_with("https%3A%2F%2F"));
}

#[test]
fn favicon_url_size_32_for_hidpi() {
    let url = favicon_url("x/_favicon/", "a.example", 32);
    assert!(url.ends_with("&size=32"));
}

#[test]
fn favicon_url_is_idempotent_on_already_schemed_host() {
    let url = favicon_url("b/_favicon/", "https://a.example", 16);
    assert!(url.contains("pageUrl=https%3A%2F%2Fa.example"));
}

#[test]
fn percent_encode_leaves_unreserved_and_escapes_the_rest() {
    assert_eq!(percent_encode("aZ0-_.~"), "aZ0-_.~");
    assert_eq!(percent_encode("a b"), "a%20b");
    assert_eq!(percent_encode("https://x/y?z=1&w"), "https%3A%2F%2Fx%2Fy%3Fz%3D1%26w");
    assert_eq!(percent_encode("é"), "%C3%A9");
}

#[test]
fn cache_loads_once_and_never_retries() {
    let mut c: IconCache<u32> = IconCache::new(CACHE_CAP);
    assert!(c.begin("a"), "first sighting should start a load");
    assert!(!c.begin("a"), "a Loading slot must not restart the load");
    c.set_ready("a", 7);
    assert_eq!(c.ready("a"), Some(&7));
    assert!(!c.begin("a"), "a Ready slot must not restart the load");
    assert!(c.begin("b"));
    c.set_failed("b");
    assert_eq!(c.ready("b"), None);
    assert!(!c.begin("b"), "a Failed slot must never retry within the session");
}

#[test]
fn cache_evicts_oldest_past_capacity() {
    let mut c: IconCache<u32> = IconCache::new(2);
    c.begin("a");
    c.begin("b");
    assert_eq!(c.len(), 2);
    c.begin("c");
    assert_eq!(c.len(), 2);
    assert!(!c.contains("a"));
    assert!(c.contains("b"));
    assert!(c.contains("c"));
    assert!(c.begin("a"));
}

#[test]
fn set_ready_after_eviction_is_a_noop() {
    let mut c: IconCache<u32> = IconCache::new(1);
    c.begin("a");
    c.begin("b");
    c.set_ready("a", 1);
    assert!(!c.contains("a"));
    assert_eq!(c.ready("a"), None);
    c.set_ready("b", 2);
    assert_eq!(c.ready("b"), Some(&2));
}

#[test]
fn cache_capacity_is_at_least_one() {
    let mut c: IconCache<u32> = IconCache::new(0);
    assert!(c.is_empty());
    assert!(c.begin("a"));
    assert_eq!(c.len(), 1);
}

#[test]
fn classify_every_transition_type() {
    assert_eq!(classify("link"), Provenance::Link);
    assert_eq!(classify("form_submit"), Provenance::Form);
    assert_eq!(classify("typed"), Provenance::TypedUrl);
    assert_eq!(classify("generated"), Provenance::SearchOrigin);
    assert_eq!(classify("keyword"), Provenance::SearchOrigin);
    assert_eq!(classify("keyword_generated"), Provenance::SearchOrigin);
    assert_eq!(classify("auto_bookmark"), Provenance::Bookmark);
    assert_eq!(classify("start_page"), Provenance::Start);
    assert_eq!(classify("reload"), Provenance::Reload);
    assert_eq!(classify("auto_subframe"), Provenance::Other);
    assert_eq!(classify("whatever"), Provenance::Other);
}

#[test]
fn host_only_http_https() {
    assert_eq!(host("https://example.com/path?q=1"), Some("example.com".into()));
    assert_eq!(host("http://localhost:3000/x"), Some("localhost".into()));
    assert_eq!(host("chrome://extensions"), None);
    assert_eq!(host("file:///home/user/x.html"), None);
    assert_eq!(host("about:blank"), None);
    assert_eq!(host("not a url"), None);
}

#[test]
fn registrable_icann_only() {
    assert_eq!(registrable("erovelli.github.io"), "github.io");
    assert_eq!(registrable("gist.github.com"), "github.com");
    assert_eq!(registrable("www.example.com"), "example.com");
    assert_eq!(registrable("example.com"), "example.com");
    assert_eq!(registrable("a.b.example.co.uk"), "example.co.uk");
}

#[test]
fn registrable_literal_fallback() {
    assert_eq!(registrable("localhost"), "localhost");
    assert_eq!(registrable("127.0.0.1"), "127.0.0.1");
    assert_eq!(registrable("192.168.0.1"), "192.168.0.1");
}

#[test]
fn node_key_granularity_and_drops() {
    assert_eq!(node_key("https://gist.github.com/x", Granularity::Hostname), Some("gist.github.com".into()));
    assert_eq!(node_key("https://gist.github.com/x", Granularity::Registrable), Some("github.com".into()));
    assert_eq!(node_key("chrome://newtab", Granularity::Hostname), None);
    assert_eq!(node_key("file:///x", Granularity::Registrable), None);
}

#[test]
fn with_scheme_is_prepend_and_idempotent() {
    assert_eq!(with_scheme("news.example/x"), "https://news.example/x");
    assert_eq!(with_scheme("https://a.example/"), "https://a.example/");
    assert_eq!(with_scheme("http://a.example/"), "http://a.example/");
}

#[test]
fn extracts_known_engines() {
    assert_eq!(
        extract_query("https://www.google.com/search?q=rust+lang&hl=en"),
        Some(SearchQuery { engine: "Google", terms: "rust lang".into() })
    );
    assert_eq!(
        extract_query("https://google.co.uk/search?q=tea"),
        Some(SearchQuery { engine: "Google", terms: "tea".into() })
    );
    assert_eq!(
        extract_query("https://duckduckgo.com/?q=privacy%20tools"),
        Some(SearchQuery { engine: "DuckDuckGo", terms: "privacy tools".into() })
    );
    assert_eq!(
        extract_query("https://www.youtube.com/results?search_query=lofi"),
        Some(SearchQuery { engine: "YouTube", terms: "lofi".into() })
    );
    assert_eq!(
        extract_query("https://www.bing.com/search?q=weather"),
        Some(SearchQuery { engine: "Bing", terms: "weather".into() })
    );
}

#[test]
fn ignores_non_search_urls() {
    assert_eq!(extract_query("https://www.google.com/maps?q=cafe"), None);
    assert_eq!(extract_query("https://www.google.com/search?q="), None);
    assert_eq!(extract_query("https://example.com/?q=hello"), None);
    assert_eq!(extract_query("chrome://settings/?q=x"), None);
    assert_eq!(extract_query("https://news.ycombinator.com/"), None);
}

#[test]
fn search_terms_are_trimmed_and_startpage_uses_query() {
    assert_eq!(
        extract_query("https://www.startpage.com/do/search?query=%20hi%20"),
        Some(SearchQuery { engine: "Startpage", terms: "hi".into() })
    );
    assert_eq!(extract_query("https://search.brave.com/search?q=a"), Some(SearchQuery { engine: "Brave", terms: "a".into() }));
    assert_eq!(extract_query("https://ecosia.org/search?q=%20%20"), None);
}

#[test]
fn aggregates_and_ranks_deterministically() {
    let urls = vec![
        "https://www.google.com/search?q=rust".to_string(),
        "https://www.google.com/search?q=Rust".to_string(),
        "https://duckduckgo.com/?q=rust".to_string(),
        "https://www.google.com/search?q=apples".to_string(),
        "https://news.ycombinator.com/".to_string(),
    ];
    let top = top_searches(&urls, 10);
    assert_eq!(top.len(), 3);
    assert_eq!(top[0].engine, "Google");
    assert_eq!(top[0].terms, "rust");
    assert_eq!(top[0].count, 2);
    assert_eq!(top[1].terms, "apples");
    assert_eq!(top[2].terms, "rust");
    assert_eq!(top[2].engine, "DuckDuckGo");
}

#[test]
fn top_limit_truncates() {
    let urls = vec![
        "https://www.google.com/search?q=a".to_string(),
        "https://www.google.com/search?q=b".to_string(),
        "https://www.google.com/search?q=c".to_string(),
    ];
    assert_eq!(top_searches(&urls, 2).len(), 2);
}

#[test]
fn human_bytes_scales_and_formats() {
    assert_eq!(human_bytes(0), "0 B");
    assert_eq!(human_bytes(512), "512 B");
    assert_eq!(human_bytes(1023), "1023 B");
    assert_eq!(human_bytes(1024), "1.0 KB");
    assert_eq!(human_bytes(1536), "1.5 KB");
    assert_eq!(human_bytes(50_534_154), "48.2 MB");
    assert_eq!(human_bytes(5 * 1024 * 1024 * 1024), "5.0 GB");
}

#[test]
fn esc_covers_xml_metacharacters() {
    assert_eq!(esc("a&b"), "a&amp;b");
    assert_eq!(esc("<x>"), "&lt;x&gt;");
    assert_eq!(esc("\"q\""), "&quot;q&quot;");
    assert_eq!(esc("'a'"), "&apos;a&apos;");
}

#[test]
fn defaults_match_the_dashboard_defaults() {
    let d = UiPrefs::default();
    assert_eq!(d.view, PrefView::Graph);
    assert_eq!(d.time_range, TimeRange::Year);
    assert_eq!(d.granularity, Granularity::Hostname);
    assert_eq!(d.min_visits, 0);
    assert!(!d.hide_search_hubs && !d.hide_isolated && !d.spa_mode && !d.locked);
    assert!(d.site_icons);
    assert!(!d.three_d);
}

fn view(name: &str, range: TimeRange) -> SavedView {
    SavedView { name: name.to_string(), range, gran: Granularity::Hostname, filters: Filters::default(), spa_mode: false }
}

#[test]
fn upsert_replaces_by_name_case_insensitively_and_sorts() {
    let mut list = vec![];
    list = upsert(list, view("Zebra", TimeRange::Day));
    list = upsert(list, view("apple", TimeRange::Week));
    list = upsert(list, view(" ZEBRA ", TimeRange::Month));
    assert_eq!(list.len(), 2);
    assert_eq!(list[0].name, "apple");
    assert_eq!(list[1].name, "ZEBRA");
    assert_eq!(list[1].range, TimeRange::Month, "replaced, not appended");
}

#[test]
fn remove_and_find_are_case_insensitive() {
    let list = vec![view("Reading", TimeRange::Year)];
    assert!(find(&list, "reading").is_some());
    let list = remove(list, "READING");
    assert!(list.is_empty());
}

#[test]
fn human_bytes_uses_the_counts_float_value_past_two_to_the_53() {
    assert_eq!(human_bytes(1 << 53), "8192.0 TB");
    assert_eq!(human_bytes((1 << 53) + 1), "8192.0 TB");
    assert_eq!(human_bytes((1 << 54) + 3), "16384.0 TB");
    assert_eq!(human_bytes(u64::MAX), "16777216.0 TB");
    assert_eq!(human_bytes(1280), "1.2 KB");
}
