use outdegree::model::Event;
use outdegree::privacy::{event_in_span, event_matches_host};

fn nav(url: &str, ts: i64) -> Event {
    Event::Nav {
        id: 1,
        ts,
        tab_id: 1,
        window_id: 1,
        to_url: url.to_string(),
        transition_type: "link".to_string(),
        qualifiers: vec![],
    }
}

#[test]
fn forget_domain_matches_host_or_registrable_domain() {
    let e = nav("https://gist.github.com/x", 5);
    assert!(event_matches_host(&e, "gist.github.com"));
    assert!(event_matches_host(&e, "github.com"));
    assert!(!event_matches_host(&e, "gitlab.com"));
    assert!(!event_matches_host(&e, "com"));
    assert!(!event_matches_host(&nav("chrome://settings/", 5), "settings"));
    assert!(!event_matches_host(&Event::Close { id: 1, ts: 1, tab_id: 1 }, "github.com"));
    assert!(event_matches_host(&nav("https://erovelli.github.io/", 1), "github.io"));
}

#[test]
fn delete_range_is_inclusive_on_both_ends() {
    assert!(event_in_span(&nav("https://a.com/", 10), 10, 20));
    assert!(event_in_span(&nav("https://a.com/", 20), 10, 20));
    assert!(!event_in_span(&nav("https://a.com/", 21), 10, 20));
    assert!(!event_in_span(&nav("https://a.com/", 9), 10, 20));
    assert!(event_in_span(&Event::Start { id: 1, ts: 15 }, 10, 20));
    assert!(!event_in_span(&Event::Unknown, i64::MIN, i64::MAX));
}
