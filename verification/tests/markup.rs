use outdegree::flow::{FlowGraph, FlowLink, FlowNode};
use outdegree::inspect::{NodeConnections, PageVisit};
use outdegree::markup::{
    async_region_html, card, conn_rows, describe, direct_visits_html, edge_legend_html, esc, journeys_html,
    keys_html, kind_counts_line, legend_html, plural, prov_label, static_html, time_spent_cell,
};
use outdegree::model::{EdgeKind, Event, KindBreakdown, NodeAgg, ProvBreakdown, Provenance};
use outdegree::search::SearchCount;

fn s(x: &str) -> String {
    x.to_string()
}

#[test]
fn esc_covers_html_metacharacters() {
    assert_eq!(esc("a&b"), "a&amp;b");
    assert_eq!(esc("<x>"), "&lt;x&gt;");
    assert_eq!(esc("\"q\""), "&quot;q&quot;");
    assert_eq!(esc("it's"), "it's");
}

#[test]
fn plural_counts_nouns() {
    assert_eq!(plural(1, "visit"), "1 visit");
    assert_eq!(plural(0, "node"), "0 nodes");
    assert_eq!(plural(2, "nav"), "2 navs");
    assert_eq!(plural(1234, "event"), "1234 events");
}

#[test]
fn card_widens_only_with_a_span() {
    assert_eq!(card("", "x"), "<section class=\"tbl-card\">x</section>");
    assert_eq!(card("wide", "<p>y</p>"), "<section class=\"tbl-card wide\"><p>y</p></section>");
}

#[test]
fn time_spent_cell_picks_the_measure() {
    assert_eq!(
        time_spent_cell(true, 5_000, 90_000),
        "<td class=\"num\" title=\"Foreground time — how long this site's tab was the focused, active tab.\">1m</td>"
    );
    assert_eq!(
        time_spent_cell(false, 3_600_000, 0),
        "<td class=\"num\" title=\"Estimated from the gaps between navigations (this window has no focus data), so it can include time a tab sat in the background.\">≈1h 0m</td>"
    );
    let dash = time_spent_cell(false, 999, 50_000);
    assert!(dash.ends_with("\">—</td>"));
    let fg_dash = time_spent_cell(true, 50_000, 999);
    assert!(fg_dash.ends_with("\">—</td>"));
}

#[test]
fn conn_rows_lists_each_host() {
    let rows = vec![(s("a.com"), 3u32), (s("b<c"), 1u32)];
    assert_eq!(
        conn_rows(&rows),
        "<button type=\"button\" class=\"insp-conn\" data-host=\"a.com\"><span class=\"insp-conn-host\">a.com</span><span class=\"insp-conn-n\">3</span></button>\
         <button type=\"button\" class=\"insp-conn\" data-host=\"b&lt;c\"><span class=\"insp-conn-host\">b&lt;c</span><span class=\"insp-conn-n\">1</span></button>"
    );
    assert_eq!(conn_rows(&[]), "");
}

#[test]
fn journeys_html_empty_and_rows() {
    assert_eq!(
        journeys_html(&[], false, 0),
        "<h3>Your common journeys</h3><p class=\"muted\">No repeated multi-step paths yet — they appear once you retrace the same link trail more than once.</p>"
    );
    let js = vec![(vec![s("a.com"), s("b.com")], 3u32)];
    assert_eq!(
        journeys_html(&js, false, 1),
        "<h3>Your common journeys</h3><p class=\"muted tbl-sub\">paths you retrace, by how often</p>\
         <table class=\"tbl\"><tr><th>Journey</th><th class=\"num\">Times</th></tr>\
         <tr><td>a.com → b.com</td><td class=\"num\">3×</td></tr></table>"
    );
    let capped = journeys_html(&js, true, 200);
    assert!(capped.contains("<p class=\"muted tbl-sub\">from your 150 most recent sessions (of 200 in range)</p>"));
}

#[test]
fn journeys_html_shows_at_most_fifteen() {
    let js: Vec<(Vec<String>, u32)> = (0..20).map(|i| (vec![format!("h{i}.com"), s("x.com")], 2u32)).collect();
    let h = journeys_html(&js, false, 20);
    assert_eq!(h.matches("<tr><td>").count(), 15);
    assert!(h.contains("h14.com"));
    assert!(!h.contains("h15.com"));
}

#[test]
fn async_region_notes_the_scan_cap() {
    assert_eq!(
        async_region_html(&[], true, &[], false),
        "<h4 class=\"insp-h\">Top pages</h4><p class=\"insp-muted\">None found — this window is beyond the 20k most recent events the scan covers.</p>"
    );
    assert_eq!(
        async_region_html(&[], false, &[], true),
        "<h4 class=\"insp-h\">Top pages</h4><p class=\"insp-muted\">No page-level detail for this site in the window.</p>"
    );
    let pages = vec![PageVisit { path_query: s("/a?q=1&b"), visits: 4 }];
    let searches = vec![SearchCount { engine: s("Google"), terms: s("rust"), count: 2 }];
    assert_eq!(
        async_region_html(&pages, true, &searches, true),
        "<h4 class=\"insp-h\">Top pages</h4>\
         <div class=\"insp-page\"><span class=\"insp-page-path\" title=\"/a?q=1&amp;b\">/a?q=1&amp;b</span><span class=\"insp-page-n\">4</span></div>\
         <p class=\"insp-cap\">from the 20k most recent events in this window</p>\
         <h4 class=\"insp-h\">Top searches</h4>\
         <div class=\"insp-page\"><span class=\"insp-page-path\" title=\"rust\">rust</span><span class=\"insp-page-n\">2</span></div>"
    );
    let hidden = async_region_html(&pages, false, &searches, false);
    assert!(!hidden.contains("Top searches"));
}

#[test]
fn edge_legend_lists_present_kinds() {
    let k = KindBreakdown { link: 2, search_link: 0, form: 1 };
    assert_eq!(
        edge_legend_html(&k),
        "<div class=\"legend-row is-key\"><span class=\"edge-swatch edge-link\"></span><span class=\"legend-label\">Link</span><span class=\"legend-pct\">67%</span></div>\
         <div class=\"legend-row is-key\"><span class=\"edge-swatch edge-form\"></span><span class=\"legend-label\">Form</span><span class=\"legend-pct\">33%</span></div>"
    );
    assert_eq!(edge_legend_html(&KindBreakdown { link: 0, search_link: 0, form: 0 }), "");
}

#[test]
fn legend_marks_the_filtered_provenance() {
    let mut b = ProvBreakdown::default();
    b.link = 1;
    b.reload = 1;
    assert_eq!(
        legend_html(&b, Some(Provenance::Link)),
        "<button type=\"button\" class=\"legend-row is-active\" data-prov=\"link\"><span class=\"dot dot-link glyph-circle\"></span><span class=\"legend-label\">Link</span><span class=\"legend-pct\">50%</span></button>\
         <button type=\"button\" class=\"legend-row is-dim\" data-prov=\"other\"><span class=\"dot dot-other glyph-cross\"></span><span class=\"legend-label\">Other</span><span class=\"legend-pct\">50%</span></button>"
    );
    let plain = legend_html(&b, None);
    assert!(plain.starts_with("<button type=\"button\" class=\"legend-row\" data-prov=\"link\">"));
}

#[test]
fn legend_percentages_sum_to_hundred() {
    let mut b = ProvBreakdown::default();
    b.search_origin = 1;
    b.link = 1;
    b.typed_url = 1;
    let h = legend_html(&b, None);
    assert_eq!(h.matches("<span class=\"legend-pct\">34%</span>").count(), 1);
    assert_eq!(h.matches("<span class=\"legend-pct\">33%</span>").count(), 2);
}

fn node(key: &str, prov: Provenance) -> FlowNode {
    FlowNode { key: s(key), layer: 0, throughput: 1, prov }
}

#[test]
fn keys_html_lists_present_categories() {
    let fg = FlowGraph {
        nodes: vec![node("a.com", Provenance::Link), node("b.com", Provenance::Start)],
        links: vec![FlowLink { from: 0, to: 1, weight: 1, kind: EdgeKind::SearchLink }],
        layers: 2,
    };
    assert_eq!(
        keys_html(&fg),
        "<div class=\"sankey-keys\"><div class=\"sankey-key\"><span class=\"sankey-key-title\">Bars · provenance</span>\
         <span class=\"key-item\"><span class=\"dot dot-link glyph-circle\"></span>Link</span>\
         <span class=\"key-item\"><span class=\"dot dot-external glyph-star\"></span>External</span></div>\
         <div class=\"sankey-key\"><span class=\"sankey-key-title\">Ribbons · link type</span>\
         <span class=\"key-item\"><span class=\"dot dot-edge-search\"></span>Search-link</span></div></div>"
    );
    let empty = FlowGraph { nodes: vec![], links: vec![], layers: 0 };
    assert_eq!(keys_html(&empty), "");
}

#[test]
fn direct_visits_chips() {
    let fg = FlowGraph { nodes: vec![node("a.com", Provenance::TypedUrl)], links: vec![], layers: 1 };
    let orphans = vec![(s("a.com"), 2u32), (s("z.com"), 1u32)];
    assert_eq!(
        direct_visits_html(&orphans, &fg),
        "<div class=\"direct-visits\"><h4>Direct visits</h4><div class=\"dv-chips\">\
         <span class=\"dv-chip\"><span class=\"dot dot-typed glyph-square\"></span>a.com ×2</span>\
         <span class=\"dv-chip\"><span class=\"dot dot-other glyph-cross\"></span>z.com</span></div></div>"
    );
    assert_eq!(direct_visits_html(&[], &fg), "");
}

#[test]
fn describe_formats_each_kind() {
    let nav = Event::Nav {
        id: 1,
        ts: 2,
        tab_id: 5,
        window_id: 1,
        to_url: s("https://a.com/"),
        transition_type: s("link"),
        qualifiers: vec![s("from_address_bar"), s("forward_back")],
    };
    assert_eq!(describe(&nav), (Some(1), "nav", Some(2), s("tab 5 → https://a.com/ [link from_address_bar,forward_back]")));
    let plain = Event::Nav {
        id: 3,
        ts: 4,
        tab_id: 6,
        window_id: 1,
        to_url: s("x"),
        transition_type: s("typed"),
        qualifiers: vec![],
    };
    assert_eq!(describe(&plain).3, "tab 6 → x [typed]");
    assert_eq!(describe(&Event::Link { id: 1, ts: 1, new_tab_id: 9, source_tab_id: 4 }).3, "tab 4 → new tab 9");
    assert_eq!(describe(&Event::Close { id: 1, ts: 1, tab_id: 4 }).3, "tab 4");
    assert_eq!(describe(&Event::Focus { id: 1, ts: 1, tab_id: 3, window_id: 7 }).3, "tab 3 active in window 7");
    assert_eq!(describe(&Event::Wfocus { id: 1, ts: 1, window_id: -1 }).3, "browser blurred");
    assert_eq!(describe(&Event::Wfocus { id: 1, ts: 1, window_id: 2 }).3, "window 2 focused");
    assert_eq!(describe(&Event::Start { id: 8, ts: 9 }), (Some(8), "start", Some(9), s("browser start")));
    assert_eq!(describe(&Event::Unknown), (None, "unknown", None, s("")));
}

#[test]
fn kind_counts_line_in_fixed_order() {
    let nav = Event::Nav {
        id: 1,
        ts: 1,
        tab_id: 1,
        window_id: 1,
        to_url: s("u"),
        transition_type: s("link"),
        qualifiers: vec![],
    };
    let evs = vec![
        Event::Focus { id: 2, ts: 2, tab_id: 1, window_id: 1 },
        nav.clone(),
        Event::Close { id: 3, ts: 3, tab_id: 1 },
        nav,
        Event::Unknown,
    ];
    assert_eq!(kind_counts_line(&evs), "nav 2 · close 1 · focus 1");
    assert_eq!(kind_counts_line(&[]), "");
}

#[test]
fn static_html_assembles_the_inspector() {
    let n = NodeAgg { key: s("a.com"), visits: 12, prov: ProvBreakdown::default(), dwell_ms: 0, fg_dwell_ms: 0 };
    let conns = NodeConnections { came_from: vec![(s("b.com"), 2)], went_to: vec![] };
    let h = static_html(
        "a.com",
        Provenance::SearchOrigin,
        Some(3),
        &n,
        "1m",
        "Foreground",
        "40%",
        &Some((s("6/1"), s("6/9"))),
        "",
        &conns,
        "",
        "…",
    );
    assert_eq!(
        h,
        "<div class=\"insp-head\"><span class=\"dot dot-search glyph-triangle\"></span>\
         <span class=\"insp-host\" title=\"a.com\">a.com</span>\
         <button type=\"button\" class=\"insp-x\" aria-label=\"Close inspector\">✕</button></div>\
         <div class=\"insp-note\">aggregating 3 hostnames</div>\
         <div class=\"insp-stats\"><div class=\"insp-stat\"><div class=\"insp-stat-v\">12</div>\
         <div class=\"insp-stat-l\">visits</div></div>\
         <div class=\"insp-stat\"><div class=\"insp-stat-v\" title=\"Foreground\">1m</div>\
         <div class=\"insp-stat-l\">time spent</div></div>\
         <div class=\"insp-stat\"><div class=\"insp-stat-v\">40%</div>\
         <div class=\"insp-stat-l\">of visits</div></div></div>\
         <div class=\"insp-seen\"><span class=\"insp-muted\">First seen</span><span>6/1</span></div>\
         <div class=\"insp-seen\"><span class=\"insp-muted\">Last seen</span><span>6/9</span></div>\
         <h4 class=\"insp-h\">Came from</h4>\
         <button type=\"button\" class=\"insp-conn\" data-host=\"b.com\"><span class=\"insp-conn-host\">b.com</span><span class=\"insp-conn-n\">2</span></button>\
         <div class=\"insp-async\" id=\"bg-insp-async\">…</div>\
         <div class=\"insp-foot\"><button type=\"button\" class=\"insp-forget\">Forget this site…</button></div>"
    );
    let none = NodeConnections { came_from: vec![], went_to: vec![] };
    let bare = static_html("x", Provenance::Link, None, &n, "—", "t", "1%", &None, "", &none, "", "");
    assert!(bare.contains("<p class=\"insp-muted\">No links to or from this site in view.</p>"));
    assert!(!bare.contains("aggregating"));
}

#[test]
fn prov_label_names() {
    assert_eq!(prov_label(Provenance::Start), "External");
    assert_eq!(prov_label(Provenance::SearchOrigin), "Search");
    assert_eq!(prov_label(Provenance::Reload), "Reload");
}
