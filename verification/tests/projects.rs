use outdegree::model::{EdgeAgg, Granularity, GraphProjection, KindBreakdown, NodeAgg, ProvBreakdown};
use outdegree::project::{
    back_end, can_step_back, can_step_forward, civil_from_days, component, daily_series, day_number,
    ego, forward_end, layout_shape, layout_signature, period_delta, project, range_counts, select_window, session_back,
    session_forward, session_order, rank_surges, surge_candidates, visit_thresholds, PeriodDelta, Surge, SessionStep, wday_str, weekday, window_day_bounds, window_label, Filters, TimeRange,
};
use outdegree::rollup::{edge_key, DayBucket, EdgeStat, NodeStat, SessionRec};
use outdegree::walk::{latest_session, sessions_in_range};

fn bucket(date: &str) -> DayBucket {
    DayBucket::new(date)
}

fn bucket_with(date: &str, host: &str, visits: u32) -> DayBucket {
    let mut b = bucket(date);
    b.insert_node(host, NodeStat { visits, ..Default::default() });
    b
}

fn dn(date: &str) -> i64 {
    day_number(date).unwrap()
}

fn node(k: &str, v: u32) -> NodeAgg {
    NodeAgg { key: k.into(), visits: v, prov: ProvBreakdown::default(), dwell_ms: 0, fg_dwell_ms: 0 }
}

fn edge(f: &str, t: &str) -> EdgeAgg {
    EdgeAgg { from: f.into(), to: t.into(), weight: 1, kinds: KindBreakdown::default() }
}

#[test]
fn bucket_merge_sums_visits_and_weights() {
    let mut b1 = bucket("2021-01-01");
    b1.insert_node(
        "a.com",
        NodeStat { visits: 2, prov: ProvBreakdown { link: 2, ..Default::default() }, ..Default::default() },
    );
    b1.insert_node("b.com", NodeStat { visits: 1, ..Default::default() });
    b1.insert_edge(
        &edge_key("a.com", "b.com"),
        EdgeStat { weight: 1, kinds: KindBreakdown { link: 1, ..Default::default() } },
    );
    let mut b2 = bucket("2021-01-02");
    b2.insert_node(
        "a.com",
        NodeStat { visits: 3, prov: ProvBreakdown { link: 3, ..Default::default() }, ..Default::default() },
    );
    b2.insert_edge(
        &edge_key("a.com", "b.com"),
        EdgeStat { weight: 4, kinds: KindBreakdown { link: 4, ..Default::default() } },
    );

    let g = project(&[b1, b2], Granularity::Hostname, &Filters::default());
    assert_eq!(g.nodes.len(), 2);
    let a = g.nodes.iter().find(|n| n.key == "a.com").unwrap();
    assert_eq!(a.visits, 5);
    assert_eq!(g.edges.len(), 1);
    assert_eq!(g.edges[0].weight, 5);
}

#[test]
fn registrable_regroup_drops_self_loops() {
    let mut b = bucket("2021-01-01");
    for h in ["gist.github.com", "raw.github.com", "other.org"] {
        b.insert_node(h, NodeStat { visits: 1, ..Default::default() });
    }
    b.insert_edge(&edge_key("gist.github.com", "raw.github.com"), EdgeStat { weight: 2, ..Default::default() });
    b.insert_edge(&edge_key("gist.github.com", "other.org"), EdgeStat { weight: 1, ..Default::default() });

    let g = project(&[b], Granularity::Registrable, &Filters::default());
    assert_eq!(g.nodes.len(), 2);
    assert!(g.nodes.iter().any(|n| n.key == "github.com" && n.visits == 2));
    assert_eq!(g.edges.len(), 1);
    assert_eq!(g.edges[0].from, "github.com");
    assert_eq!(g.edges[0].to, "other.org");
}

#[test]
fn min_visits_filter_prunes_nodes_and_dangling_edges() {
    let mut b = bucket("2021-01-01");
    b.insert_node("big.com", NodeStat { visits: 10, ..Default::default() });
    b.insert_node("small.com", NodeStat { visits: 1, ..Default::default() });
    b.insert_edge(&edge_key("big.com", "small.com"), EdgeStat { weight: 5, ..Default::default() });
    let filters = Filters { min_visits: 5, ..Default::default() };
    let g = project(&[b], Granularity::Hostname, &filters);
    assert_eq!(g.nodes.len(), 1);
    assert_eq!(g.nodes[0].key, "big.com");
    assert_eq!(g.edges.len(), 0);
}

#[test]
fn hide_isolated_drops_degree_zero_nodes() {
    let mut b = bucket("2021-01-01");
    for h in ["hub.com", "leaf.com", "lonely.com"] {
        b.insert_node(h, NodeStat { visits: 3, ..Default::default() });
    }
    b.insert_edge(&edge_key("hub.com", "leaf.com"), EdgeStat { weight: 2, ..Default::default() });
    let filters = Filters { hide_isolated: true, ..Default::default() };
    let g = project(&[b], Granularity::Hostname, &filters);
    let keys: std::collections::HashSet<&str> = g.nodes.iter().map(|n| n.key.as_str()).collect();
    assert_eq!(keys, ["hub.com", "leaf.com"].into_iter().collect());
    assert!(!keys.contains("lonely.com"), "degree-0 node dropped");
}

#[test]
fn hide_search_hubs_removes_search_dominant_nodes() {
    let mut b = bucket("2021-01-01");
    b.insert_node(
        "google.com",
        NodeStat { visits: 9, prov: ProvBreakdown { search_origin: 9, ..Default::default() }, ..Default::default() },
    );
    b.insert_node(
        "wiki.org",
        NodeStat { visits: 4, prov: ProvBreakdown { link: 4, ..Default::default() }, ..Default::default() },
    );
    let filters = Filters { hide_search_hubs: true, ..Default::default() };
    let g = project(&[b], Granularity::Hostname, &filters);
    assert_eq!(g.nodes.len(), 1);
    assert_eq!(g.nodes[0].key, "wiki.org");
}

#[test]
fn project_orders_nodes_and_edges_and_filters_by_provenance() {
    let mut b = bucket("2021-01-01");
    b.insert_node("b.com", NodeStat { visits: 3, prov: ProvBreakdown { link: 3, ..Default::default() }, ..Default::default() });
    b.insert_node("a.com", NodeStat { visits: 3, prov: ProvBreakdown { link: 3, ..Default::default() }, ..Default::default() });
    b.insert_node("c.com", NodeStat { visits: 7, prov: ProvBreakdown { typed_url: 7, ..Default::default() }, ..Default::default() });
    b.insert_edge(&edge_key("a.com", "b.com"), EdgeStat { weight: 2, ..Default::default() });
    b.insert_edge(&edge_key("c.com", "a.com"), EdgeStat { weight: 2, ..Default::default() });
    b.insert_edge(&edge_key("b.com", "c.com"), EdgeStat { weight: 9, ..Default::default() });
    let g = project(&[b.clone()], Granularity::Hostname, &Filters::default());
    let keys: Vec<&str> = g.nodes.iter().map(|n| n.key.as_str()).collect();
    assert_eq!(keys, vec!["c.com", "a.com", "b.com"]);
    let pairs: Vec<(&str, &str)> = g.edges.iter().map(|e| (e.from.as_str(), e.to.as_str())).collect();
    assert_eq!(pairs, vec![("b.com", "c.com"), ("a.com", "b.com"), ("c.com", "a.com")]);
    assert!(g.nodes.iter().all(|n| n.fg_dwell_ms == 0));
    let only_links = Filters {
        provenance_in: Some(vec![outdegree::model::Provenance::Link]),
        ..Default::default()
    };
    let g2 = project(&[b], Granularity::Hostname, &only_links);
    let keys2: Vec<&str> = g2.nodes.iter().map(|n| n.key.as_str()).collect();
    assert_eq!(keys2, vec!["a.com", "b.com"]);
    assert_eq!(g2.edges.len(), 1);
}

#[test]
fn layout_signature_is_shape_only_and_order_independent() {
    let a = GraphProjection {
        nodes: vec![node("a", 5), node("b", 3), node("c", 1)],
        edges: vec![edge("a", "b"), edge("b", "c")],
    };
    let b = GraphProjection {
        nodes: vec![node("c", 99), node("a", 1), node("b", 2)],
        edges: vec![edge("b", "c"), edge("a", "b")],
    };
    assert_eq!(layout_signature(&a), layout_signature(&b));
    let diff_edge = GraphProjection {
        nodes: vec![node("a", 5), node("b", 3), node("c", 1)],
        edges: vec![edge("a", "b"), edge("a", "c")],
    };
    let diff_nodes = GraphProjection { nodes: vec![node("a", 5), node("b", 3)], edges: vec![edge("a", "b")] };
    assert_ne!(layout_signature(&a), layout_signature(&diff_edge));
    assert_ne!(layout_signature(&a), layout_signature(&diff_nodes));
}

#[test]
fn visit_thresholds_adapt_to_volume() {
    assert_eq!(visit_thresholds(0), vec![1]);
    assert_eq!(visit_thresholds(1), vec![1]);
    assert_eq!(visit_thresholds(3), vec![1, 2]);
    assert_eq!(visit_thresholds(8), vec![1, 2, 5]);
    assert_eq!(visit_thresholds(50), vec![1, 2, 5, 10, 20, 50]);
    assert_eq!(visit_thresholds(200), vec![1, 10, 20, 50, 100, 200]);
    let huge = visit_thresholds(1_000_000);
    assert_eq!(huge.len(), 6);
    assert_eq!(huge[0], 1);
    assert!(huge.windows(2).all(|w| w[0] < w[1]), "sorted & unique");
}

#[test]
fn daily_series_is_per_day_visits_ascending_in_window() {
    let bs = vec![
        bucket_with("2021-01-01", "a.com", 9),
        bucket_with("2021-01-08", "a.com", 2),
        bucket_with("2021-01-10", "b.com", 5),
        bucket_with("2021-01-11", "a.com", 3),
    ];
    let series = daily_series(&bs, TimeRange::Week, None);
    assert_eq!(
        series,
        vec![("2021-01-08".to_string(), 2), ("2021-01-10".to_string(), 5), ("2021-01-11".to_string(), 3)]
    );
    assert!(!series.iter().any(|(d, _)| d == "2021-01-01"), "pre-window day excluded");
}

#[test]
fn daily_series_sorts_by_day_and_skips_undated() {
    let bs = vec![
        bucket_with("2021-01-11", "a.com", 3),
        bucket_with("garbage", "z.com", 7),
        bucket_with("2021-01-09", "b.com", 4),
    ];
    assert_eq!(
        daily_series(&bs, TimeRange::Week, None),
        vec![("2021-01-09".to_string(), 4), ("2021-01-11".to_string(), 3)]
    );
    assert!(daily_series(&[bucket("bad")], TimeRange::Week, None).is_empty());
}

#[test]
fn period_delta_compares_window_against_the_prior_window() {
    let bs = vec![
        bucket_with("2021-01-03", "old.com", 4),
        bucket_with("2021-01-10", "old.com", 6),
        bucket_with("2021-01-12", "new.com", 2),
        bucket_with("2021-01-15", "old.com", 2),
    ];
    let d = period_delta(&bs, TimeRange::Week, None).unwrap();
    assert_eq!(d.visits_now, 10);
    assert_eq!(d.visits_prev, 4);
    assert_eq!(d.hosts_now, 2);
    assert_eq!(d.hosts_prev, 1);
    assert_eq!(d.new_hosts_now, 1);
    assert_eq!(visits_pct(&d), Some(150));
    assert!(!d.no_baseline());

    let only_now = vec![bucket_with("2021-01-15", "x.com", 3)];
    let d2 = period_delta(&only_now, TimeRange::Week, None).unwrap();
    assert!(d2.no_baseline());
    assert_eq!(visits_pct(&d2), None);
}

#[test]
fn surging_hosts_rank_jumps_and_respect_the_floor() {
    let bs = vec![
        bucket_with("2021-01-03", "boom.com", 2),
        bucket_with("2021-01-10", "boom.com", 20),
        bucket_with("2021-01-04", "flat.com", 5),
        bucket_with("2021-01-11", "flat.com", 5),
        bucket_with("2021-01-12", "fresh.com", 6),
        bucket_with("2021-01-13", "tiny.com", 1),
        bucket_with("2021-01-15", "boom.com", 0),
    ];
    let s = surging_hosts(&bs, TimeRange::Week, None, 3, 10);
    let hosts: Vec<&str> = s.iter().map(|x| x.host.as_str()).collect();
    assert_eq!(hosts, vec!["boom.com", "fresh.com"], "ranked by growth, floored");
    assert!(s.iter().find(|x| x.host == "fresh.com").unwrap().is_new());
    assert!(!s.iter().any(|x| x.host == "flat.com"), "flat is not a surge");
    assert!(!s.iter().any(|x| x.host == "tiny.com"), "below min_now floor");
}

#[test]
fn surging_hosts_breaks_ratio_ties_by_volume_then_name_and_caps() {
    let bs = vec![
        bucket_with("2021-01-03", "a.com", 2),
        bucket_with("2021-01-10", "a.com", 8),
        bucket_with("2021-01-04", "b.com", 1),
        bucket_with("2021-01-11", "b.com", 4),
        bucket_with("2021-01-12", "c.com", 4),
        bucket_with("2021-01-15", "d.com", 4),
    ];
    let s = surging_hosts(&bs, TimeRange::Week, None, 3, 10);
    let hosts: Vec<&str> = s.iter().map(|x| x.host.as_str()).collect();
    assert_eq!(hosts, vec!["a.com", "b.com", "c.com", "d.com"]);
    let capped = surging_hosts(&bs, TimeRange::Week, None, 3, 2);
    assert_eq!(capped.len(), 2);
    assert_eq!(capped[1].host, "b.com");
}

#[test]
fn day_number_matches_known_epochs() {
    assert_eq!(day_number("1970-01-01"), Some(0));
    assert_eq!(day_number("1970-01-02"), Some(1));
    assert_eq!(day_number("2021-01-01"), Some(18628));
    assert!(day_number("not-a-date").is_none());
    assert!(day_number("2021-02-01") > day_number("2021-01-31"));
}

#[test]
fn select_window_keeps_trailing_days_from_latest() {
    let bs = vec![bucket("2021-01-01"), bucket("2021-01-05"), bucket("2021-01-10"), bucket("2021-01-11")];
    let w = select_window(&bs, TimeRange::Week, None);
    let dates: std::collections::HashSet<&str> = w.iter().map(|b| b.date.as_str()).collect();
    assert_eq!(dates, ["2021-01-05", "2021-01-10", "2021-01-11"].into());
    let d = select_window(&bs, TimeRange::Day, None);
    assert_eq!(d.len(), 1);
    assert_eq!(d[0].date, "2021-01-11");
    assert_eq!(select_window(&bs, TimeRange::Year, None).len(), 4);
}

#[test]
fn select_window_passes_through_when_no_dates_parse() {
    let bs = vec![bucket("garbage"), bucket("also-bad")];
    assert_eq!(select_window(&bs, TimeRange::Day, None).len(), 2);
}

#[test]
fn ego_returns_focus_plus_neighbors() {
    let p = GraphProjection {
        nodes: vec![node("hub", 1), node("a", 1), node("b", 1), node("far", 1)],
        edges: vec![edge("hub", "a"), edge("b", "hub"), edge("a", "far")],
    };
    let g = ego(&p, "hub");
    let keys: std::collections::HashSet<&str> = g.nodes.iter().map(|x| x.key.as_str()).collect();
    assert_eq!(keys, ["hub", "a", "b"].into_iter().collect());
    assert_eq!(g.edges.len(), 2);
    assert!(g.edges.iter().all(|x| x.to != "far" && x.from != "far"));
}

#[test]
fn component_returns_the_whole_connected_network() {
    let p = GraphProjection {
        nodes: vec![node("a", 1), node("b", 1), node("c", 1), node("d", 1), node("x", 1), node("y", 1)],
        edges: vec![edge("a", "b"), edge("b", "c"), edge("c", "d"), edge("x", "y")],
    };
    let g = component(&p, "b");
    let keys: std::collections::HashSet<&str> = g.nodes.iter().map(|x| x.key.as_str()).collect();
    assert_eq!(keys, ["a", "b", "c", "d"].into_iter().collect());
    assert_eq!(g.edges.len(), 3);
    assert!(!keys.contains("x") && !keys.contains("y"));
    let gx = component(&p, "x");
    assert_eq!(gx.nodes.len(), 2);
}

#[test]
fn civil_from_days_inverts_day_number() {
    for date in ["1970-01-01", "2021-01-31", "2021-02-01", "2020-02-29", "2021-03-01", "2024-12-31", "2025-01-01"] {
        let z = dn(date);
        let (y, m, d) = civil_from_days(z);
        let got = format!("{y:04}-{m:02}-{d:02}");
        assert_eq!(got, date, "round-trip {date}");
    }
    assert_eq!(weekday(0), 4);
    assert_eq!(wday_str(weekday(0)), "Thu");
}

#[test]
fn window_day_bounds_span_each_granularity() {
    let bs = vec![bucket_with("2021-03-05", "a.com", 1)];
    let end = dn("2021-03-05");
    assert_eq!(window_day_bounds(&bs, TimeRange::Day, None), Some((end, end)));
    assert_eq!(window_day_bounds(&bs, TimeRange::Week, None), Some((end - 6, end)));
    assert_eq!(window_day_bounds(&bs, TimeRange::Month, None), Some((dn("2021-02-04"), end)));
    assert_eq!(window_day_bounds(&bs, TimeRange::Year, None), Some((end - 364, end)));
    let a = dn("2020-06-15");
    assert_eq!(window_day_bounds(&bs, TimeRange::Week, Some(a)), Some((a - 6, a)));
    assert_eq!(window_day_bounds(&[], TimeRange::Week, None), None);
}

#[test]
fn window_label_reads_bounds_in_utc() {
    assert_eq!(window_label(TimeRange::Day, dn("2021-01-01"), dn("2021-01-01")), "Fri, Jan 1");
    assert_eq!(window_label(TimeRange::Week, dn("2021-06-23"), dn("2021-06-29")), "Jun 23 – 29");
    assert_eq!(window_label(TimeRange::Week, dn("2021-06-30"), dn("2021-07-06")), "Jun 30 – Jul 6");
    assert_eq!(window_label(TimeRange::Year, dn("2024-07-07"), dn("2025-07-06")), "Jul 7, 2024 – Jul 6, 2025");
}

#[test]
fn select_window_anchor_excludes_future_and_earlier_buckets() {
    let bs = vec![
        bucket_with("2021-01-03", "old.com", 1),
        bucket_with("2021-01-10", "a.com", 1),
        bucket_with("2021-01-12", "b.com", 1),
        bucket_with("2021-01-15", "c.com", 1),
        bucket_with("2021-02-01", "future.com", 9),
    ];
    let w = select_window(&bs, TimeRange::Week, Some(dn("2021-01-15")));
    let dates: std::collections::HashSet<&str> = w.iter().map(|b| b.date.as_str()).collect();
    assert_eq!(dates, ["2021-01-10", "2021-01-12", "2021-01-15"].into());
}

#[test]
fn step_back_and_forward_move_one_range_duration() {
    let bs = vec![bucket_with("2021-01-01", "e.com", 1), bucket_with("2021-01-31", "l.com", 1)];
    let latest = dn("2021-01-31");
    assert_eq!(back_end(&bs, TimeRange::Week, None), Some(latest - 7));
    assert_eq!(back_end(&bs, TimeRange::Week, Some(latest - 7)), Some(latest - 14));
    assert_eq!(forward_end(&bs, TimeRange::Week, Some(latest - 14)), Some(latest - 7));
    assert_eq!(forward_end(&bs, TimeRange::Week, Some(latest - 7)), None);
    assert_eq!(forward_end(&bs, TimeRange::Week, Some(latest - 3)), None);
}

#[test]
fn can_step_back_clamps_before_earliest_data() {
    let bs = vec![bucket_with("2021-01-01", "e.com", 1), bucket_with("2021-01-31", "l.com", 1)];
    let earliest = dn("2021-01-01");
    assert!(can_step_back(&bs, TimeRange::Day, None));
    assert!(can_step_back(&bs, TimeRange::Day, Some(earliest + 1)));
    assert!(!can_step_back(&bs, TimeRange::Day, Some(earliest)));
    assert!(!can_step_back(&[], TimeRange::Day, None));
}

#[test]
fn can_step_forward_only_while_anchored_in_the_past() {
    let bs = vec![bucket_with("2021-01-01", "e.com", 1), bucket_with("2021-01-31", "l.com", 1)];
    let latest = dn("2021-01-31");
    assert!(!can_step_forward(&bs, TimeRange::Week, None));
    assert!(can_step_forward(&bs, TimeRange::Week, Some(latest - 30)));
    assert!(!can_step_forward(&bs, TimeRange::Week, Some(latest)));
}

#[test]
fn period_delta_and_stats_track_the_anchor() {
    let bs = vec![
        bucket_with("2021-01-03", "old.com", 4),
        bucket_with("2021-01-10", "old.com", 6),
        bucket_with("2021-01-12", "new.com", 2),
        bucket_with("2021-01-15", "old.com", 2),
        bucket_with("2021-02-01", "future.com", 99),
    ];
    let anchor = Some(dn("2021-01-15"));
    let d = period_delta(&bs, TimeRange::Week, anchor).unwrap();
    assert_eq!(d.visits_now, 10, "6 + 2 + 2 inside the anchored week");
    assert_eq!(d.visits_prev, 4, "prior week is anchor-relative");
    assert_eq!(d.hosts_now, 2);
    assert_eq!(d.new_hosts_now, 1);
    assert_eq!(visits_pct(&d), Some(150));

    let s = range_counts(&bs, TimeRange::Week, anchor);
    assert_eq!(s.window_visits, 10);
    assert_eq!(s.window_hosts, 2);
    assert!(!bs.is_empty() && s.window_visits != 99, "the future bucket is not in the anchored window");

    let surge = surging_hosts(&bs, TimeRange::Week, anchor, 3, 10);
    assert!(surge.iter().any(|x| x.host == "old.com" && x.now == 8 && x.prev == 4));
    assert!(!surge.iter().any(|x| x.host == "future.com"));
}

#[test]
fn range_counts_count_new_hosts_and_visits() {
    let older = bucket_with("2021-01-01", "old.com", 1);
    let mut today = bucket("2021-01-11");
    today.insert_node("old.com", NodeStat { visits: 3, ..Default::default() });
    today.insert_node("new.com", NodeStat { visits: 1, ..Default::default() });
    let s = range_counts(&[older, today], TimeRange::Day, None);
    assert_eq!(s.window_hosts, 2);
    assert_eq!(s.window_visits, 4);
    assert_eq!(s.new_hosts, 1, "only new.com is first-seen in-window");
    // Undated buckets count as inside the window; no end gives zeros.
    let undated = range_counts(&[bucket_with("2021-01-11", "a.com", 2), bucket_with("junk", "b.com", 5)], TimeRange::Day, None);
    assert_eq!((undated.window_hosts, undated.window_visits, undated.new_hosts), (2, 7, 1));
    let none = range_counts(&[bucket_with("junk", "b.com", 5)], TimeRange::Day, None);
    assert_eq!((none.window_hosts, none.window_visits, none.new_hosts), (0, 0, 0));
}

#[test]
fn layout_shape_sorts_keys_and_pairs() {
    let p = GraphProjection {
        nodes: vec![node("c", 99), node("a", 1), node("b", 2)],
        edges: vec![edge("b", "c"), edge("a", "c"), edge("a", "b")],
    };
    let (nodes, edges) = layout_shape(&p);
    assert_eq!(nodes, vec!["a".to_string(), "b".to_string(), "c".to_string()]);
    let pairs: Vec<(&str, &str)> = edges.iter().map(|(f, t)| (f.as_str(), t.as_str())).collect();
    assert_eq!(pairs, vec![("a", "b"), ("a", "c"), ("b", "c")]);
}

fn sess(id: i64, start_ts: i64) -> SessionRec {
    SessionRec {
        id,
        window_id: 1,
        start_ts,
        end_ts: start_ts + 1000,
        start_id: id,
        end_id: id,
        nav_count: 1,
        top_hosts: Vec::new(),
    }
}

#[test]
fn session_stepping_walks_oldest_to_newest_and_snaps_to_live() {
    // Deliberately out of order; ordered by (start_ts, id).
    let sessions = vec![sess(2, 200), sess(0, 0), sess(1, 100)];
    let order = session_order(&sessions);
    assert_eq!(order, vec![0, 1, 2]);

    // From live (newest): back goes to the second-newest, forward is blocked.
    assert_eq!(session_back(&order, None), SessionStep::To(1));
    assert_eq!(session_forward(&order, None), SessionStep::Blocked);
    // From the middle: back to the oldest, forward snaps to Live (newest is next).
    assert_eq!(session_back(&order, Some(1)), SessionStep::To(0));
    assert_eq!(session_forward(&order, Some(1)), SessionStep::Live);
    // At the oldest: back is blocked, forward steps to the middle.
    assert_eq!(session_back(&order, Some(0)), SessionStep::Blocked);
    assert_eq!(session_forward(&order, Some(0)), SessionStep::To(1));
    // Empty / single-session stores are fully clamped.
    assert_eq!(session_back(&[], None), SessionStep::Blocked);
    assert_eq!(session_back(&[9], None), SessionStep::Blocked);
    assert_eq!(session_forward(&[9], None), SessionStep::Blocked);
}

#[test]
fn session_order_breaks_start_ties_by_id_and_a_stale_anchor_means_newest() {
    let order = session_order(&[sess(7, 50), sess(3, 50), sess(5, 10)]);
    assert_eq!(order, vec![5, 3, 7]);
    // An anchor no longer in the list resolves to the newest place.
    assert_eq!(session_back(&order, Some(42)), SessionStep::To(3));
    assert_eq!(session_forward(&order, Some(42)), SessionStep::Blocked);
}

/// The dashboard's percentage change (computed in `f64`).
fn visits_pct(d: &PeriodDelta) -> Option<i32> {
    if d.visits_prev == 0 {
        return None;
    }
    Some((((d.visits_now as f64 - d.visits_prev as f64) / d.visits_prev as f64) * 100.0).round() as i32)
}

/// The surges found by the library, keyed by their `f32` growth factor and
/// ranked by it.
fn surging_hosts(bs: &[DayBucket], range: TimeRange, anchor: Option<i64>, min_now: u32, top: usize) -> Vec<Surge> {
    let keyed: Vec<(u32, Surge)> = surge_candidates(bs, range, anchor, min_now)
        .into_iter()
        .map(|s| ((s.now as f32 / s.prev.max(1) as f32).to_bits(), s))
        .collect();
    rank_surges(keyed, top)
}

fn surge(host: &str, now: u32, prev: u32) -> Surge {
    Surge { host: host.to_string(), now, prev }
}

#[test]
fn rank_surges_orders_by_key_then_volume_then_host() {
    let ranked = rank_surges(
        vec![(5, surge("c.com", 4, 1)), (9, surge("a.com", 3, 1)), (5, surge("b.com", 4, 1)), (5, surge("d.com", 6, 2))],
        3,
    );
    let hosts: Vec<&str> = ranked.iter().map(|s| s.host.as_str()).collect();
    assert_eq!(hosts, vec!["a.com", "d.com", "b.com"]);
}

#[test]
fn equal_float_growth_factors_fall_back_to_volume() {
    // 16777216 / 2 and 25165823 / 3 are the same `f32`, so the larger volume
    // ranks first although its exact ratio is smaller.
    let a = surge("a.com", 16777216, 2);
    let b = surge("b.com", 25165823, 3);
    let key = |s: &Surge| (s.now as f32 / s.prev.max(1) as f32).to_bits();
    assert_eq!(key(&a), key(&b));
    let ranked = rank_surges(vec![(key(&a), a.clone()), (key(&b), b.clone())], 10);
    assert_eq!(ranked, vec![b, a]);
}

#[test]
fn latest_session_is_the_first_of_the_latest_starts() {
    assert_eq!(latest_session(&[]), None);
    let ss = vec![sess(1, 100), sess(2, 300), sess(3, 300), sess(4, 200)];
    assert_eq!(latest_session(&ss), Some(1));
}

#[test]
fn sessions_in_range_by_anchor_or_trailing_days() {
    // Ends are start + 1000.
    let day = 86_400_000;
    let ss = vec![sess(1, 0), sess(2, 2 * day), sess(3, 9 * day)];
    assert_eq!(sessions_in_range(&ss, TimeRange::Week, Some((day, 3 * day))), vec![1]);
    assert_eq!(sessions_in_range(&ss, TimeRange::Week, None), vec![1, 2]);
    assert_eq!(sessions_in_range(&ss, TimeRange::Day, None), vec![2]);
    assert_eq!(sessions_in_range(&ss, TimeRange::Month, None), vec![0, 1, 2]);
    assert_eq!(sessions_in_range(&[], TimeRange::Year, None), Vec::<usize>::new());
}
