use outdegree::derive::{provisional_buckets, step};
use outdegree::model::{EdgeKind, Event, Provenance};
use outdegree::rollup::{
    edge_key, fold, merge_bucket, utc_date, Acc, Buffered, DayBucket, DeriveState, OpenSession, SessionRec, TabState,
};

const DAY: i64 = 86_400_000;
const T0: i64 = 1_609_459_200_000; // 2021-01-01T00:00:00Z

fn nav(id: i64, ts: i64, tab: i64, url: &str, tt: &str) -> Event {
    nav_q(id, ts, tab, 1, url, tt, &[])
}

fn nav_q(id: i64, ts: i64, tab: i64, window: i64, url: &str, tt: &str, q: &[&str]) -> Event {
    Event::Nav {
        id,
        ts,
        tab_id: tab,
        window_id: window,
        to_url: url.to_string(),
        transition_type: tt.to_string(),
        qualifiers: q.iter().map(|s| s.to_string()).collect(),
    }
}

fn run(events: &[Event]) -> (Vec<DayBucket>, Vec<SessionRec>, DeriveState) {
    let mut st = DeriveState::default();
    let (d, s) = fold(&mut st, events);
    (d, s, st)
}

fn bucket<'a>(ds: &'a [DayBucket], date: &str) -> &'a DayBucket {
    ds.iter().find(|b| b.date == date).expect("bucket for the day")
}

fn visits(ds: &[DayBucket], host: &str) -> u32 {
    ds.iter().filter_map(|b| b.node(host)).map(|n| n.visits).sum()
}

fn edge_weight(ds: &[DayBucket], from: &str, to: &str) -> u32 {
    let k = edge_key(from, to);
    ds.iter().filter_map(|b| b.edge(&k)).map(|e| e.weight).sum()
}

#[test]
fn utc_date_known_epochs() {
    assert_eq!(utc_date(0), "1970-01-01");
    assert_eq!(utc_date(1_609_459_200_000), "2021-01-01");
    assert_eq!(utc_date(1_609_459_200_000 + 86_399_000), "2021-01-01");
    assert_eq!(utc_date(1_609_459_200_000 + 86_400_000), "2021-01-02");
    assert_eq!(utc_date(1_582_934_400_000), "2020-02-29");
}

#[test]
fn utc_date_before_the_epoch_rounds_down() {
    assert_eq!(utc_date(-1), "1969-12-31");
    assert_eq!(utc_date(-DAY), "1969-12-31");
    assert_eq!(utc_date(-DAY - 1), "1969-12-30");
}

#[test]
fn new_tab_origin_is_the_source_tabs_current_page() {
    // Tab 1 opens a.com then b.com (still held); a link from it opens tab 2,
    // whose first page must chain from b.com, the page on screen at the time.
    let evs = vec![
        nav(1, T0, 1, "https://a.com/", "typed"),
        nav(2, T0 + 10_000, 1, "https://b.com/", "link"),
        Event::Link { id: 3, ts: T0 + 20_000, new_tab_id: 2, source_tab_id: 1 },
        nav(4, T0 + 21_000, 2, "https://c.com/", "link"),
        Event::Close { id: 5, ts: T0 + 30_000, tab_id: 2 },
        Event::Close { id: 6, ts: T0 + 40_000, tab_id: 1 },
    ];
    let (d, _, _) = run(&evs);
    assert_eq!(edge_weight(&d, "a.com", "b.com"), 1);
    assert_eq!(edge_weight(&d, "b.com", "c.com"), 1);
    assert_eq!(edge_weight(&d, "a.com", "c.com"), 0);
    assert_eq!(visits(&d, "a.com"), 1);
    assert_eq!(visits(&d, "c.com"), 1);
}

#[test]
fn two_tabs_interleave_without_crossing() {
    let evs = vec![
        nav(1, T0, 1, "https://a.com/", "typed"),
        nav(2, T0 + 1_000_000, 2, "https://x.com/", "typed"),
        nav(3, T0 + 2_000_000, 1, "https://b.com/", "link"),
        nav(4, T0 + 3_000_000, 2, "https://y.com/", "link"),
        Event::Start { id: 5, ts: T0 + 4_000_000 },
    ];
    let (d, _, _) = run(&evs);
    assert_eq!(edge_weight(&d, "a.com", "b.com"), 1);
    assert_eq!(edge_weight(&d, "x.com", "y.com"), 1);
    assert_eq!(edge_weight(&d, "a.com", "y.com"), 0);
    assert_eq!(edge_weight(&d, "x.com", "b.com"), 0);
}

#[test]
fn client_redirect_burst_collapses() {
    let evs = vec![
        nav(1, T0, 1, "https://a.com/", "typed"),
        nav(2, T0 + 5_000, 1, "https://r.com/", "link"),
        nav_q(3, T0 + 5_300, 1, 1, "https://s.com/", "link", &["client_redirect"]),
        nav_q(4, T0 + 5_600, 1, 1, "https://d.com/", "link", &["client_redirect"]),
        Event::Close { id: 5, ts: T0 + 60_000, tab_id: 1 },
    ];
    let (d, _, _) = run(&evs);
    assert_eq!(edge_weight(&d, "a.com", "d.com"), 1);
    assert_eq!(visits(&d, "r.com"), 0);
    assert_eq!(visits(&d, "s.com"), 0);
    assert_eq!(visits(&d, "d.com"), 1);
    // the landing's dwell runs from its arrival to the close
    let b = bucket(&d, "2021-01-01");
    assert_eq!(b.node("d.com").unwrap().dwell_ms, 60_000 - 5_600);
}

#[test]
fn slow_client_redirect_is_a_new_page() {
    let evs = vec![
        nav(1, T0, 1, "https://a.com/", "typed"),
        nav_q(2, T0 + 5_000, 1, 1, "https://b.com/", "link", &["client_redirect"]),
        Event::Close { id: 3, ts: T0 + 6_000, tab_id: 1 },
    ];
    let (d, _, _) = run(&evs);
    assert_eq!(visits(&d, "a.com"), 1);
    assert_eq!(edge_weight(&d, "a.com", "b.com"), 1);
}

#[test]
fn forward_back_adds_no_edge_but_moves_the_tab() {
    let evs = vec![
        nav(1, T0, 1, "https://search.com/", "generated"),
        nav(2, T0 + 1_000, 1, "https://a.com/", "link"),
        nav_q(3, T0 + 2_000, 1, 1, "https://search.com/", "generated", &["forward_back"]),
        nav(4, T0 + 3_000, 1, "https://b.com/", "link"),
        Event::Close { id: 5, ts: T0 + 4_000, tab_id: 1 },
    ];
    let (d, _, _) = run(&evs);
    // back to the results page: no edge a.com → search.com, no visit for it
    assert_eq!(edge_weight(&d, "a.com", "search.com"), 0);
    assert_eq!(visits(&d, "search.com"), 1);
    // the next link chains from the results page, as a search link
    assert_eq!(edge_weight(&d, "search.com", "b.com"), 1);
    let b = bucket(&d, "2021-01-01");
    let e = b.edge(&edge_key("search.com", "b.com")).unwrap();
    assert_eq!(e.kinds.search_link, 1);
    let first = b.edge(&edge_key("search.com", "a.com")).unwrap();
    assert_eq!(first.kinds.search_link, 1);
}

#[test]
fn typed_navigation_starts_a_new_chain() {
    let evs = vec![
        nav(1, T0, 1, "https://a.com/", "typed"),
        nav(2, T0 + 1_000, 1, "https://b.com/", "typed"),
        Event::Close { id: 3, ts: T0 + 2_000, tab_id: 1 },
    ];
    let (d, _, _) = run(&evs);
    assert_eq!(edge_weight(&d, "a.com", "b.com"), 0);
    assert_eq!(visits(&d, "a.com"), 1);
    assert_eq!(visits(&d, "b.com"), 1);
    let b = bucket(&d, "2021-01-01");
    assert_eq!(b.node("b.com").unwrap().prov.typed_url, 1);
}

#[test]
fn start_clears_state_so_no_phantom_edge() {
    let evs = vec![
        nav(1, T0, 7, "https://a.com/", "typed"),
        Event::Start { id: 2, ts: T0 + 10_000 },
        // tab ids are reused after a restart: this is a fresh tab
        nav(3, T0 + 20_000, 7, "https://b.com/", "link"),
        Event::Close { id: 4, ts: T0 + 30_000, tab_id: 7 },
    ];
    let (d, _, st) = run(&evs);
    assert_eq!(edge_weight(&d, "a.com", "b.com"), 0);
    assert_eq!(visits(&d, "a.com"), 1);
    assert_eq!(visits(&d, "b.com"), 1);
    assert_eq!(bucket(&d, "2021-01-01").node("a.com").unwrap().dwell_ms, 10_000);
    assert!(st.tabs.is_empty());
}

#[test]
fn close_flushes_the_held_page() {
    let evs = vec![nav(1, T0, 1, "https://a.com/", "typed"), Event::Close { id: 2, ts: T0 + 3_000, tab_id: 1 }];
    let (d, _, st) = run(&evs);
    assert_eq!(visits(&d, "a.com"), 1);
    assert_eq!(bucket(&d, "2021-01-01").max_id, 2);
    assert!(st.tabs.is_empty());
    assert_eq!(st.watermark, 2);
}

#[test]
fn held_page_stays_until_confirmed_but_shows_provisionally() {
    let evs = vec![nav(1, T0, 1, "https://a.com/", "typed")];
    let (d, _, st) = run(&evs);
    assert!(d.is_empty());
    let p = provisional_buckets(&st);
    assert_eq!(visits(&p, "a.com"), 1);
    assert_eq!(bucket(&p, "2021-01-01").node("a.com").unwrap().dwell_ms, 0);
}

#[test]
fn dwell_is_capped_at_the_idle_gap_and_visits_bucket_by_arrival_day() {
    let evs = vec![
        nav(1, T0 + DAY - 1_000, 1, "https://a.com/", "typed"),
        nav(2, T0 + 2 * DAY, 1, "https://b.com/", "link"),
        Event::Close { id: 3, ts: T0 + 2 * DAY + 500, tab_id: 1 },
    ];
    let (d, _, _) = run(&evs);
    let day1 = bucket(&d, "2021-01-01");
    assert_eq!(day1.node("a.com").unwrap().dwell_ms, 1_800_000);
    let day3 = bucket(&d, "2021-01-03");
    assert_eq!(day3.node("b.com").unwrap().dwell_ms, 500);
    assert_eq!(day3.edge(&edge_key("a.com", "b.com")).unwrap().weight, 1);
}

#[test]
fn sessions_split_on_the_idle_gap() {
    let evs = vec![
        nav(1, T0, 1, "https://a.com/", "typed"),
        nav(2, T0 + 60_000, 1, "https://a.com/x", "link"),
        nav(3, T0 + 120_000, 1, "https://b.com/", "link"),
        nav(4, T0 + 120_000 + 1_800_001, 1, "https://c.com/", "typed"),
    ];
    let (_, recs, st) = run(&evs);
    assert_eq!(recs.len(), 1);
    let r = &recs[0];
    assert_eq!((r.id, r.start_id, r.end_id), (1, 1, 3));
    assert_eq!((r.start_ts, r.end_ts), (T0, T0 + 120_000));
    assert_eq!(r.nav_count, 3);
    assert_eq!(r.top_hosts, vec![("a.com".to_string(), 2), ("b.com".to_string(), 1)]);
    assert_eq!(st.open_sessions.len(), 1);
}

#[test]
fn start_closes_sessions_in_window_order() {
    let evs = vec![
        nav_q(1, T0, 1, 9, "https://a.com/", "typed", &[]),
        nav_q(2, T0 + 1, 2, 4, "https://b.com/", "typed", &[]),
        Event::Start { id: 3, ts: T0 + 2 },
    ];
    let (_, recs, st) = run(&evs);
    assert_eq!(recs.iter().map(|r| r.window_id).collect::<Vec<_>>(), vec![4, 9]);
    assert!(st.open_sessions.is_empty());
}

#[test]
fn record_keeps_five_top_hosts_by_count_then_name() {
    let mut s = OpenSession::open(1, 1, T0, Some("h.com".to_string()));
    for (host, n) in [("c.com", 3), ("a.com", 3), ("b.com", 2), ("d.com", 1), ("e.com", 1), ("f.com", 4)] {
        for _ in 0..n {
            s.bump_host(host.to_string());
        }
    }
    let rec = s.to_record();
    let names: Vec<&str> = rec.top_hosts.iter().map(|(h, _)| h.as_str()).collect();
    assert_eq!(names, vec!["f.com", "a.com", "c.com", "b.com", "d.com"]);
    assert_eq!(s.provisional_record(), rec);
}

#[test]
fn host_counts_are_capped() {
    let mut s = OpenSession::open(1, 1, T0, None);
    for i in 0..70 {
        s.bump_host(format!("h{i}.com"));
    }
    assert_eq!(s.host_counts.len(), 64);
    s.bump_host("h0.com".to_string());
    assert_eq!(s.host_counts[0], ("h0.com".to_string(), 2));
}

#[test]
fn step_credits_with_the_current_id() {
    let mut st = DeriveState::default();
    let mut acc = Acc::default();
    acc.cur_id = 41;
    step(&mut st, &mut acc, &nav(41, T0, 1, "https://a.com/", "typed"));
    acc.cur_id = 42;
    step(&mut st, &mut acc, &Event::Close { id: 42, ts: T0 + 1, tab_id: 1 });
    let b = acc.buckets();
    assert_eq!(b.len(), 1);
    assert_eq!(b[0].max_id, 42);
    assert_eq!(b[0].node("a.com").unwrap().visits, 1);
}

#[test]
fn acc_records_credits_and_sessions() {
    let mut acc = Acc::default();
    acc.cur_id = 7;
    acc.node("2021-01-01", "a.com", Provenance::Link, 5);
    acc.node("2021-01-01", "a.com", Provenance::Form, 6);
    acc.edge("2021-01-01", "a.com", "b.com", EdgeKind::Form);
    acc.emit_session(OpenSession::open(1, 1, T0, None).to_record());
    let b = acc.buckets();
    let n = b[0].node("a.com").unwrap();
    assert_eq!((n.visits, n.dwell_ms, n.prov.link, n.prov.form), (2, 11, 1, 1));
    assert_eq!(b[0].edge(&edge_key("a.com", "b.com")).unwrap().kinds.form, 1);
    assert_eq!(acc.sessions.len(), 1);
}

fn sample_stream() -> Vec<Event> {
    vec![
        nav(1, T0, 1, "https://a.com/", "typed"),
        nav(2, T0 + 1_000, 1, "https://b.com/", "link"),
        Event::Link { id: 3, ts: T0 + 1_500, new_tab_id: 2, source_tab_id: 1 },
        nav(4, T0 + 2_000, 2, "https://c.com/", "link"),
        nav_q(5, T0 + 2_300, 2, 1, "https://d.com/", "link", &["client_redirect"]),
        nav(6, T0 + DAY - 10, 1, "https://e.com/", "form_submit"),
        Event::Focus { id: 7, ts: T0 + DAY, tab_id: 1, window_id: 1 },
        nav_q(8, T0 + DAY + 5, 1, 1, "https://b.com/", "link", &["forward_back"]),
        Event::Close { id: 9, ts: T0 + DAY + 10, tab_id: 2 },
        nav(10, T0 + 3 * DAY, 1, "https://f.com/", "link"),
        Event::Start { id: 11, ts: T0 + 3 * DAY + 100 },
        nav(12, T0 + 3 * DAY + 200, 1, "https://a.com/", "typed"),
        nav(13, T0 + 3 * DAY + 300, 1, "https://a.com/", "reload"),
        Event::Unknown,
        nav(14, T0 + 3 * DAY + 400, 1, "chrome://settings/", "link"),
        Event::Close { id: 15, ts: T0 + 3 * DAY + 500, tab_id: 1 },
    ]
}

fn merged_into(stored: &mut Vec<DayBucket>, deltas: &[DayBucket]) {
    for d in deltas {
        match stored.iter_mut().find(|b| b.date == d.date) {
            Some(b) => merge_bucket(b, d),
            None => stored.push(d.clone()),
        }
    }
}

#[test]
fn fold_equals_recompute_at_every_watermark_split() {
    let evs = sample_stream();
    let (whole, whole_recs, whole_state) = run(&evs);
    for split in 0..=evs.len() {
        let mut st = DeriveState::default();
        let (d1, mut r1) = fold(&mut st, &evs[..split]);
        let (d2, r2) = fold(&mut st, &evs[split..]);
        let mut stored = d1.clone();
        merged_into(&mut stored, &d2);
        assert_eq!(stored.len(), whole.len(), "split {split}");
        for b in &whole {
            let s = bucket(&stored, &b.date);
            assert_eq!(s.max_id, b.max_id, "split {split}");
            for (k, n) in &b.nodes {
                assert_eq!(s.node(k), Some(*n), "split {split} node {k}");
            }
            for (k, e) in &b.edges {
                assert_eq!(s.edge(k), Some(*e), "split {split} edge {k}");
            }
            assert_eq!(s.nodes.len(), b.nodes.len());
            assert_eq!(s.edges.len(), b.edges.len());
        }
        r1.extend(r2);
        assert_eq!(r1, whole_recs, "split {split}");
        assert_eq!(st.watermark, whole_state.watermark);
        assert_eq!(st.tabs.len(), whole_state.tabs.len());
    }
}

#[test]
fn tab_state_defaults_empty() {
    let t = TabState::default();
    assert!(t.last_url.is_none() && t.buffer.is_none());
    assert_eq!(t.last_prov, Provenance::Other);
    let b = Buffered {
        origin_url: None,
        origin_prov: Provenance::Other,
        to_url: "https://a.com/".into(),
        prov: Provenance::Link,
        ts: 0,
    };
    assert_eq!(b.clone().to_url, "https://a.com/");
}
