use outdegree::flow::{build, build_transitions, from_session_events, session_chains, split_orphans, FlowGraph};
use outdegree::model::{Event, Granularity};

fn chain(hosts: &[&str]) -> Vec<String> {
    hosts.iter().map(|s| s.to_string()).collect()
}

fn layer_of(g: &FlowGraph, k: &str) -> usize {
    g.nodes.iter().find(|n| n.key == k).unwrap().layer
}

fn weight(g: &FlowGraph, f: &str, t: &str) -> Option<u32> {
    g.links
        .iter()
        .find(|l| g.nodes[l.from].key == f && g.nodes[l.to].key == t)
        .map(|l| l.weight)
}

fn has(g: &FlowGraph, f: &str, t: &str) -> bool {
    weight(g, f, t).is_some()
}

fn nav(id: i64, tab: i64, url: &str, tt: &str) -> Event {
    Event::Nav {
        id,
        ts: id,
        tab_id: tab,
        window_id: 1,
        to_url: url.to_string(),
        transition_type: tt.to_string(),
        qualifiers: vec![],
    }
}

fn nav_q(id: i64, ts: i64, tab: i64, url: &str, tt: &str, quals: &[&str]) -> Event {
    Event::Nav {
        id,
        ts,
        tab_id: tab,
        window_id: 1,
        to_url: url.to_string(),
        transition_type: tt.to_string(),
        qualifiers: quals.iter().map(|s| s.to_string()).collect(),
    }
}

#[test]
fn rootless_navs_start_a_new_flow_not_an_edge() {
    let events = vec![
        nav(1, 1, "https://a.com/", "typed"),
        nav(2, 1, "https://b.com/", "link"),
        nav(3, 1, "https://c.com/", "typed"),
        nav(4, 1, "https://d.com/", "link"),
        nav(5, 1, "https://e.com/", "auto_bookmark"),
    ];
    let g = from_session_events(&events, Granularity::Hostname);
    assert!(has(&g, "a.com", "b.com"));
    assert!(has(&g, "c.com", "d.com"));
    assert!(!has(&g, "b.com", "c.com"), "typed URL must not chain from B");
    assert!(!has(&g, "d.com", "e.com"), "bookmark must not chain from D");
    assert_eq!(layer_of(&g, "a.com"), 0);
    assert_eq!(layer_of(&g, "c.com"), 0);
    assert_eq!(layer_of(&g, "e.com"), 0);
}

#[test]
fn reentering_a_mid_chain_host_keeps_the_chain_and_adds_a_standalone_start() {
    let events = vec![
        nav(1, 1, "https://a.com/", "typed"),
        nav(2, 1, "https://b.com/", "link"),
        nav(3, 1, "https://c.com/", "link"),
        nav(4, 1, "https://b.com/", "auto_bookmark"),
    ];
    let g = from_session_events(&events, Granularity::Hostname);
    assert!(has(&g, "a.com", "b.com"));
    assert!(has(&g, "b.com", "c.com"));
    assert_eq!(g.links.len(), 2, "bookmark must not add an edge");
    assert_eq!(layer_of(&g, "a.com"), 0);
    assert_eq!(layer_of(&g, "c.com"), 2, "chain still reaches column 2");
    let b_layers: Vec<usize> = g.nodes.iter().filter(|n| n.key == "b.com").map(|n| n.layer).collect();
    assert_eq!(b_layers.len(), 2, "expected a chain B and a standalone start B");
    assert!(b_layers.contains(&1), "chain B stays mid-layer");
    assert!(b_layers.contains(&0), "bookmark B is a column-0 start");
}

#[test]
fn repeated_reentry_aggregates_into_one_standalone_start() {
    let events = vec![
        nav(1, 1, "https://a.com/", "typed"),
        nav(2, 1, "https://b.com/", "link"),
        nav(3, 1, "https://c.com/", "link"),
        nav(4, 1, "https://b.com/", "auto_bookmark"),
        nav(5, 1, "https://x.com/", "typed"),
        nav(6, 1, "https://b.com/", "auto_bookmark"),
    ];
    let g = from_session_events(&events, Granularity::Hostname);
    let standalone = g.nodes.iter().filter(|n| n.key == "b.com" && n.layer == 0).collect::<Vec<_>>();
    assert_eq!(standalone.len(), 1, "re-entries collapse to one start node");
    assert_eq!(standalone[0].throughput, 2, "sized by entry count");
}

#[test]
fn directly_entered_host_on_a_cycle_is_not_duplicated_at_column_0() {
    let events = vec![
        nav(1, 1, "https://gh.com/", "start_page"),
        nav(1, 1, "https://site.com/", "link"),
        nav(1, 1, "https://gh.com/", "link"),
    ];
    let g = from_session_events(&events, Granularity::Hostname);
    let gh_count = g.nodes.iter().filter(|n| n.key == "gh.com").count();
    assert_eq!(gh_count, 1, "a directly-entered cyclic host must not duplicate");
    assert_eq!(layer_of(&g, "gh.com"), 0);
    assert!(has(&g, "gh.com", "site.com"));
    assert!(has(&g, "site.com", "gh.com"));
}

#[test]
fn link_navs_still_chain_and_reload_is_ignored() {
    let events = vec![
        nav(1, 1, "https://a.com/", "typed"),
        nav(2, 1, "https://b.com/", "link"),
        nav(3, 1, "https://b.com/", "reload"),
        nav(4, 1, "https://c.com/", "form_submit"),
    ];
    let g = from_session_events(&events, Granularity::Hostname);
    assert!(has(&g, "a.com", "b.com"));
    assert!(has(&g, "b.com", "c.com"));
    assert_eq!(g.links.len(), 2);
}

#[test]
fn aggregates_transitions_and_layers_a_path() {
    let g = build(&[chain(&["a", "b", "c"]), chain(&["a", "b"])]);
    assert_eq!(g.nodes.len(), 3);
    assert_eq!(layer_of(&g, "a"), 0);
    assert_eq!(layer_of(&g, "b"), 1);
    assert_eq!(layer_of(&g, "c"), 2);
    assert_eq!(weight(&g, "a", "b"), Some(2));
    assert_eq!(weight(&g, "b", "c"), Some(1));
    assert_eq!(g.layers, 3);
}

#[test]
fn throughput_is_max_of_in_and_out() {
    let g = build(&[chain(&["s", "hub", "x"]), chain(&["hub", "y"])]);
    let hub = g.nodes.iter().find(|n| n.key == "hub").unwrap();
    assert_eq!(hub.throughput, 2);
}

#[test]
fn cycles_do_not_blow_up_the_column_count() {
    let g = build(&[chain(&["a", "b", "a", "b"])]);
    assert_eq!(g.layers, 2);
    assert_eq!(layer_of(&g, "a"), 0);
    assert_eq!(layer_of(&g, "b"), 1);
    assert_eq!(g.links.len(), 2);
    assert_eq!(weight(&g, "a", "b"), Some(2));
    assert_eq!(weight(&g, "b", "a"), Some(1));
}

#[test]
fn session_start_hosts_are_pinned_to_the_left() {
    let g = build(&[chain(&["hub", "a"]), chain(&["b", "hub", "c"])]);
    assert_eq!(layer_of(&g, "hub"), 0);
    assert_eq!(layer_of(&g, "b"), 0);
    assert_eq!(layer_of(&g, "a"), 1);
    assert_eq!(layer_of(&g, "c"), 1);
    assert_eq!(weight(&g, "b", "hub"), Some(1));
}

#[test]
fn build_transitions_bridges_new_tab_links() {
    let tr: Vec<(String, String)> = [
        ("linkedin.com", "jobs1.com"),
        ("linkedin.com", "jobs2.com"),
        ("jobs1.com", "apply.com"),
    ]
    .iter()
    .map(|(a, b)| (a.to_string(), b.to_string()))
    .collect();
    let g = build_transitions(&tr, &["linkedin.com".to_string()]);
    assert_eq!(layer_of(&g, "linkedin.com"), 0);
    assert_eq!(layer_of(&g, "jobs1.com"), 1);
    assert_eq!(layer_of(&g, "jobs2.com"), 1);
    assert_eq!(layer_of(&g, "apply.com"), 2);
    assert_eq!(g.links.len(), 3);
    assert_eq!(g.nodes.iter().find(|n| n.key == "jobs2.com").unwrap().throughput, 1);
}

#[test]
fn empty_input_is_empty() {
    assert_eq!(build(&[]), FlowGraph::default());
    assert_eq!(build(&[chain(&["solo"])]).nodes.len(), 1);
    assert_eq!(build(&[chain(&["solo"])]).links.len(), 0);
}

#[test]
fn client_redirect_burst_collapses_to_one_ribbon() {
    let events = vec![
        nav_q(1, 100, 1, "https://a.com/", "typed", &[]),
        nav_q(2, 200, 1, "https://b.com/", "link", &[]),
        nav_q(3, 300, 1, "https://c.com/", "link", &["client_redirect"]),
        nav_q(4, 5_000, 1, "https://d.com/", "link", &[]),
    ];
    let g = from_session_events(&events, Granularity::Hostname);
    assert!(has(&g, "a.com", "c.com"), "burst collapses a→c");
    assert!(has(&g, "c.com", "d.com"));
    assert!(!has(&g, "a.com", "b.com"), "intermediate hop suppressed");
    assert!(!has(&g, "b.com", "c.com"));
    assert!(!g.nodes.iter().any(|n| n.key == "b.com"), "redirect hop is not a node");
}

#[test]
fn forward_back_navs_do_not_fabricate_a_ribbon() {
    let events = vec![
        nav_q(1, 100, 1, "https://a.com/", "typed", &[]),
        nav_q(2, 200, 1, "https://b.com/", "link", &[]),
        nav_q(3, 300, 1, "https://c.com/", "link", &["forward_back"]),
        nav_q(4, 400, 1, "https://d.com/", "link", &[]),
    ];
    let g = from_session_events(&events, Granularity::Hostname);
    assert!(has(&g, "a.com", "b.com"));
    assert!(has(&g, "c.com", "d.com"));
    assert!(!has(&g, "b.com", "c.com"), "back-button isn't a traversal");
}

#[test]
fn session_chains_split_on_rootless_and_mine_journeys() {
    let events = vec![
        nav_q(1, 100, 1, "https://a.com/", "typed", &[]),
        nav_q(2, 200, 1, "https://b.com/", "link", &[]),
        nav_q(3, 300, 1, "https://c.com/", "link", &[]),
        nav_q(4, 400, 1, "https://d.com/", "typed", &[]),
        nav_q(5, 500, 1, "https://e.com/", "link", &[]),
    ];
    let chains = session_chains(&events, Granularity::Hostname);
    assert!(chains.contains(&vec!["a.com".into(), "b.com".into(), "c.com".into()]));
    assert!(chains.contains(&vec!["d.com".into(), "e.com".into()]));
    let lone = session_chains(&[nav_q(1, 1, 1, "https://solo.com/", "typed", &[])], Granularity::Hostname);
    assert!(lone.is_empty());
}

#[test]
fn split_orphans_separates_direct_visits_from_the_flow() {
    let g = build(&[chain(&["a", "b"]), chain(&["c"])]);
    let (flow, orphans) = split_orphans(&g);
    let keys: std::collections::HashSet<&str> = flow.nodes.iter().map(|n| n.key.as_str()).collect();
    assert_eq!(keys, ["a", "b"].into_iter().collect());
    assert_eq!(flow.links.len(), 1);
    assert!(has(&flow, "a", "b"), "remapped link survives");
    assert_eq!(orphans, vec![("c".to_string(), 1)]);
}

#[test]
fn flow_links_are_sorted_and_weighted() {
    let g = build(&[chain(&["b", "a", "b"]), chain(&["a", "c"])]);
    let pairs: Vec<(usize, usize, u32)> = g.links.iter().map(|l| (l.from, l.to, l.weight)).collect();
    // keys intern in order b, a, c
    assert_eq!(g.nodes.iter().map(|n| n.key.as_str()).collect::<Vec<_>>(), vec!["b", "a", "c"]);
    assert_eq!(pairs, vec![(0, 1, 1), (1, 0, 1), (1, 2, 1)]);
}

#[test]
fn split_orphans_ranks_orphans_by_throughput_then_host() {
    let g = build_transitions(
        &[("x".to_string(), "y".to_string())],
        &["q".to_string(), "p".to_string(), "x".to_string()],
    );
    let (flow, orphans) = split_orphans(&g);
    assert_eq!(flow.nodes.len(), 2);
    assert_eq!(flow.layers, 2);
    assert_eq!(orphans, vec![("p".to_string(), 1), ("q".to_string(), 1)]);
}

fn pairs(ps: &[(&str, &str)]) -> Vec<(String, String)> {
    ps.iter().map(|(a, b)| (a.to_string(), b.to_string())).collect()
}

#[test]
fn the_link_closing_a_cycle_is_the_one_the_search_meets() {
    // a → b → c → b from a: the search reaches c through b, so c → b is the
    // link set aside and c sits one column after b.
    let g = build_transitions(&pairs(&[("a", "b"), ("b", "c"), ("c", "b")]), &["a".to_string()]);
    assert_eq!(layer_of(&g, "a"), 0);
    assert_eq!(layer_of(&g, "b"), 1);
    assert_eq!(layer_of(&g, "c"), 2);
    assert_eq!(g.layers, 3);
    assert_eq!(g.links.len(), 3);
    assert!(g.links.iter().all(|l| l.weight == 1));
}

#[test]
fn the_search_starts_from_the_first_host_seen() {
    // c is seen first, so the search enters the cycle there: b → c closes it.
    let g = build_transitions(&pairs(&[("c", "b"), ("b", "c")]), &[]);
    assert_eq!(layer_of(&g, "c"), 0);
    assert_eq!(layer_of(&g, "b"), 1);
    assert_eq!(g.layers, 2);
}

#[test]
fn every_link_carries_at_least_one_transition() {
    let g = build(&[chain(&["a", "b", "c"]), chain(&["a", "b"])]);
    assert_eq!(g.links.len(), 2);
    assert!(g.links.iter().all(|l| l.weight >= 1 && l.from != l.to));
}
