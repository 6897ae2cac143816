use outdegree::graph::{frequent_sequences, relabel, search_destinations, top_edges};
use outdegree::inspect::{node_connections, top_pages, PageVisit};
use outdegree::model::{EdgeAgg, Event, Granularity, GraphProjection, KindBreakdown, NodeAgg, ProvBreakdown};
use outdegree::rollup::{merge_bucket, merge_streams, DayBucket, NodeStat};

fn node(key: &str, visits: u32) -> NodeAgg {
    NodeAgg { key: key.into(), visits, prov: ProvBreakdown::default(), dwell_ms: 0, fg_dwell_ms: 0 }
}

fn edge(f: &str, t: &str, w: u32) -> EdgeAgg {
    EdgeAgg { from: f.into(), to: t.into(), weight: w, kinds: KindBreakdown::default() }
}

fn nav(id: i64, ts: i64, url: &str) -> Event {
    Event::Nav {
        id,
        ts,
        tab_id: 1,
        window_id: 1,
        to_url: url.to_string(),
        transition_type: "link".into(),
        qualifiers: vec![],
    }
}

fn strings(v: &[&str]) -> Vec<String> {
    v.iter().map(|s| s.to_string()).collect()
}

#[test]
fn top_edges_orders_by_weight() {
    let p = GraphProjection {
        nodes: vec![node("a", 1), node("b", 1), node("c", 1)],
        edges: vec![edge("a", "b", 1), edge("b", "c", 9), edge("a", "c", 5)],
    };
    let te = top_edges(&p, 2);
    assert_eq!(te.len(), 2);
    assert_eq!((te[0].from.as_str(), te[0].to.as_str()), ("b", "c"));
    assert_eq!((te[1].from.as_str(), te[1].to.as_str()), ("a", "c"));
}

#[test]
fn search_destinations_use_the_search_link_channel_not_dominant() {
    let p = GraphProjection {
        nodes: vec![node("google", 1), node("wiki", 1), node("docs", 1)],
        edges: vec![
            EdgeAgg {
                from: "google".into(),
                to: "wiki".into(),
                weight: 12,
                kinds: KindBreakdown { link: 10, search_link: 2, ..Default::default() },
            },
            EdgeAgg {
                from: "google".into(),
                to: "docs".into(),
                weight: 5,
                kinds: KindBreakdown { search_link: 5, ..Default::default() },
            },
        ],
    };
    let d = search_destinations(&p, 10);
    assert_eq!(d, vec![("docs".to_string(), 5), ("wiki".to_string(), 2)]);
}

#[test]
fn frequent_sequences_per_tab_chains() {
    let chains = vec![strings(&["a", "b", "c"]), strings(&["a", "b", "d"]), strings(&["a", "b", "c"])];
    let seqs = frequent_sequences(&chains, 2, 4);
    assert!(seqs.iter().any(|(p, s)| p == &strings(&["a", "b"]) && *s == 3));
    assert!(seqs.iter().any(|(p, s)| p == &strings(&["a", "b", "c"]) && *s == 2));
    assert!(!seqs.iter().any(|(p, _)| p == &strings(&["a", "b", "d"])));
}

#[test]
fn frequent_sequences_lists_every_subsequence_once_by_support_then_pattern() {
    let chains = vec![strings(&["a", "b", "c"]), strings(&["a", "b", "d"]), strings(&["a", "b", "c"])];
    let seqs = frequent_sequences(&chains, 2, 4);
    assert_eq!(
        seqs,
        vec![
            (strings(&["a", "b"]), 3),
            (strings(&["a", "b", "c"]), 2),
            (strings(&["a", "c"]), 2),
            (strings(&["b", "c"]), 2),
        ]
    );
    // Gaps are allowed, an item counts once per chain, and max_len caps length.
    let gappy = vec![strings(&["x", "q", "y", "x", "y"])];
    let g = frequent_sequences(&gappy, 1, 2);
    assert_eq!(
        g,
        vec![
            (strings(&["q", "x"]), 1),
            (strings(&["q", "y"]), 1),
            (strings(&["x", "q"]), 1),
            (strings(&["x", "x"]), 1),
            (strings(&["x", "y"]), 1),
            (strings(&["y", "x"]), 1),
            (strings(&["y", "y"]), 1),
        ]
    );
    assert!(frequent_sequences(&chains, 2, 1).is_empty());
    assert!(frequent_sequences(&chains, 2, 0).is_empty());
    // With no support floor, a pattern still needs a supporting chain.
    let zero = frequent_sequences(&[strings(&["a", "b"])], 0, 3);
    assert_eq!(zero, vec![(strings(&["a", "b"]), 1)]);
}

#[test]
fn merge_streams_orders_by_ts() {
    let events = vec![nav(1, 100, "https://a.com/"), nav(2, 300, "https://a.com/")];
    let spa = vec![nav(1, 200, "https://a.com/")];
    let merged = merge_streams(&events, &spa);
    let ts: Vec<Option<i64>> = merged.iter().map(|e| e.ts()).collect();
    assert_eq!(ts, vec![Some(100), Some(200), Some(300)]);
}

#[test]
fn merge_streams_keeps_each_streams_internal_order() {
    let events = vec![nav(1, 500, "https://a.com/"), nav(2, 100, "https://a.com/")];
    let spa = vec![nav(7, 300, "https://a.com/")];
    let merged = merge_streams(&events, &spa);
    let ts: Vec<Option<i64>> = merged.iter().map(|e| e.ts()).collect();
    let p_first = ts.iter().position(|&t| t == Some(500)).unwrap();
    let p_second = ts.iter().position(|&t| t == Some(100)).unwrap();
    assert!(p_first < p_second, "events must keep id order across a backward ts jump, got {ts:?}");
}

#[test]
fn merge_streams_ties_go_to_events_and_tails_are_kept() {
    let events = vec![nav(1, 100, "https://e.com/")];
    let spa = vec![nav(9, 100, "https://s.com/"), nav(10, 50, "https://s.com/")];
    let merged = merge_streams(&events, &spa);
    let ids: Vec<Option<i64>> = merged.iter().map(|e| e.id()).collect();
    assert_eq!(ids, vec![Some(1), Some(9), Some(10)]);
    assert_eq!(merge_streams(&[], &spa).len(), 2);
    assert_eq!(merged[0], events[0]);
}

#[test]
fn merge_bucket_sums() {
    let mut a = DayBucket::new("2021-01-01");
    a.max_id = 5;
    a.insert_node("x", NodeStat { visits: 2, ..Default::default() });
    let mut b = DayBucket::new("2021-01-01");
    b.max_id = 9;
    b.insert_node("x", NodeStat { visits: 3, ..Default::default() });
    merge_bucket(&mut a, &b);
    assert_eq!(a.node("x").unwrap().visits, 5);
    assert_eq!(a.max_id, 9);
}

#[test]
fn merging_deltas_in_steps_or_at_once_agrees() {
    let stat = |v: u32, d: u64| NodeStat { visits: v, dwell_ms: d, ..Default::default() };
    let mut base = DayBucket::new("2021-01-01");
    base.insert_node("x", stat(1, 10));
    let mut d1 = DayBucket::new("2021-01-01");
    d1.insert_node("x", stat(2, 20));
    d1.insert_node("y", stat(4, 0));
    let mut d2 = DayBucket::new("2021-01-01");
    d2.insert_node("x", stat(3, 30));
    d2.insert_node("z", stat(5, 5));

    let mut stepwise = base.clone();
    merge_bucket(&mut stepwise, &d1);
    merge_bucket(&mut stepwise, &d2);

    let mut combined = d1.clone();
    merge_bucket(&mut combined, &d2);
    let mut at_once = base.clone();
    merge_bucket(&mut at_once, &combined);

    let mut swapped = base.clone();
    merge_bucket(&mut swapped, &d2);
    merge_bucket(&mut swapped, &d1);

    for k in ["x", "y", "z"] {
        assert_eq!(stepwise.node(k), at_once.node(k));
        assert_eq!(stepwise.node(k), swapped.node(k));
    }
    assert_eq!(stepwise.node("x").unwrap().visits, 6);
    assert_eq!(stepwise.node("x").unwrap().dwell_ms, 60);
}

#[test]
fn top_pages_groups_orders_and_caps() {
    let events = vec![
        nav(1, 1, "https://ex.com/a"),
        nav(2, 2, "https://ex.com/a"),
        nav(3, 3, "https://ex.com/b?q=1&x=2"),
        nav(4, 4, "https://ex.com/a?ref=z"),
        nav(5, 5, "https://other.com/a"),
        nav(6, 6, "chrome://settings/a"),
        nav(7, 7, "https://ex.com/"),
        nav(8, 8, "https://ex.com/"),
        nav(9, 9, "https://ex.com/"),
    ];
    let top = top_pages(&events, "ex.com", Granularity::Hostname, 8);
    assert_eq!(top[0], PageVisit { path_query: "/".into(), visits: 3 });
    assert_eq!(top[1], PageVisit { path_query: "/a".into(), visits: 2 });
    assert_eq!(top[2].path_query, "/a?ref=z");
    assert_eq!(top[2].visits, 1);
    assert_eq!(top[3].path_query, "/b?q=1&x=2");
    assert_eq!(top.len(), 4);
    assert_eq!(top_pages(&events, "ex.com", Granularity::Hostname, 2).len(), 2);
}

#[test]
fn top_pages_folds_subdomains_at_registrable_gran() {
    let events = vec![nav(1, 1, "https://a.ex.com/p"), nav(2, 2, "https://b.ex.com/p")];
    let top = top_pages(&events, "ex.com", Granularity::Registrable, 8);
    assert_eq!(top, vec![PageVisit { path_query: "/p".into(), visits: 2 }]);
}

#[test]
fn top_pages_truncates_long_query() {
    let long = "v".repeat(120);
    let url = format!("https://ex.com/s?{long}");
    let top = top_pages(&[nav(1, 1, &url)], "ex.com", Granularity::Hostname, 8);
    assert_eq!(top.len(), 1);
    assert!(top[0].path_query.starts_with("/s?"));
    assert!(top[0].path_query.ends_with('…'));
    assert!(top[0].path_query.chars().count() < url.chars().count());
}

#[test]
fn node_connections_selects_top5_in_and_out() {
    let proj = GraphProjection {
        nodes: ["hub", "a", "b", "c", "d", "e", "f", "x", "y"].iter().map(|k| node(k, 1)).collect(),
        edges: vec![
            edge("a", "hub", 6),
            edge("b", "hub", 5),
            edge("c", "hub", 4),
            edge("d", "hub", 3),
            edge("e", "hub", 2),
            edge("f", "hub", 1),
            edge("hub", "y", 9),
            edge("hub", "x", 9),
        ],
    };
    let c = node_connections(&proj, "hub", 5);
    assert_eq!(c.came_from.len(), 5);
    assert_eq!(c.came_from[0], ("a".into(), 6));
    assert_eq!(c.came_from[4], ("e".into(), 2));
    assert!(!c.came_from.iter().any(|(h, _)| h == "f"));
    assert_eq!(c.went_to, vec![("x".into(), 9), ("y".into(), 9)]);
}

#[test]
fn hubs_by_weighted_degree() {
    let p = GraphProjection {
        nodes: vec![node("hub", 1), node("a", 1), node("b", 1)],
        edges: vec![edge("hub", "a", 5), edge("hub", "b", 5), edge("a", "b", 1)],
    };
    let g = outdegree::graph::build(&p);
    let h = outdegree::graph::hubs(&g, 1);
    assert_eq!(h[0].0, "hub");
    assert_eq!(h[0].1, 10);
}

#[test]
fn directional_hubs_split_sources_from_sinks() {
    let p = GraphProjection {
        nodes: vec![node("launch", 1), node("sink", 1)],
        edges: vec![edge("launch", "sink", 8)],
    };
    let g = outdegree::graph::build(&p);
    let (pads, dests) = outdegree::graph::directional_hubs(&g, 10);
    assert_eq!(pads, vec![("launch".to_string(), 8)]);
    assert_eq!(dests, vec![("sink".to_string(), 8)]);
    assert!(!pads.iter().any(|(k, _)| k == "sink"));
    assert!(!dests.iter().any(|(k, _)| k == "launch"));
}

#[test]
fn build_skips_edges_to_unknown_nodes_and_hubs_count_both_directions() {
    let p = GraphProjection {
        nodes: vec![node("a", 1), node("b", 1)],
        edges: vec![edge("a", "b", 3), edge("b", "a", 2), edge("a", "ghost", 7), edge("b", "b", 1)],
    };
    let g = outdegree::graph::build(&p);
    assert_eq!(g.node_count(), 2);
    assert_eq!(g.edge_count(), 3);
    let h = outdegree::graph::hubs(&g, 10);
    assert_eq!(h, vec![("b".to_string(), 7), ("a".to_string(), 5)]);
    let (pads, dests) = outdegree::graph::directional_hubs(&g, 1);
    assert_eq!(pads, vec![("a".to_string(), 3)]);
    assert_eq!(dests, vec![("b".to_string(), 4)]);
}

#[test]
fn relabel_numbers_labels_by_first_appearance() {
    assert_eq!(relabel(&[5, 3, 5, 9, 3]), vec![0, 1, 0, 2, 1]);
    assert_eq!(relabel(&[]), Vec::<usize>::new());
    assert_eq!(relabel(&[7, 7, 7]), vec![0, 0, 0]);
}

#[test]
fn checked_hubs_refuse_sums_past_u32() {
    let p = GraphProjection {
        nodes: vec![node("a", 1), node("b", 1)],
        edges: vec![edge("a", "b", u32::MAX)],
    };
    let g = outdegree::graph::build(&p);
    assert_eq!(outdegree::graph::hub_sums_fit(&g), (true, true));
    assert_eq!(outdegree::graph::hubs_checked(&g, 10), Some(outdegree::graph::hubs(&g, 10)));
    assert_eq!(outdegree::graph::directional_hubs_checked(&g, 10), Some(outdegree::graph::directional_hubs(&g, 10)));

    let both = GraphProjection {
        nodes: vec![node("a", 1), node("b", 1)],
        edges: vec![edge("a", "b", u32::MAX), edge("b", "a", 1)],
    };
    let g2 = outdegree::graph::build(&both);
    // a and b each have weighted degree u32::MAX + 1; apart, each direction fits.
    assert_eq!(outdegree::graph::hub_sums_fit(&g2), (false, true));
    assert_eq!(outdegree::graph::hubs_checked(&g2, 10), None);
    assert!(outdegree::graph::directional_hubs_checked(&g2, 10).is_some());
}
