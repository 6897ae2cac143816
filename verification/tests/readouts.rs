use outdegree::model::{Granularity, Provenance};
use outdegree::project::{Filters, TimeRange};
use outdegree::render::available;
use outdegree::ui_text::{fmt_dwell, fmt_hour, fmt_k, level, percentages, prov_dot, prov_from_key, range_label, weekday_name};
use outdegree::views::{range_label as short_label, view_summary, SavedView};

#[test]
fn fmt_dwell_picks_the_two_largest_units() {
    assert_eq!(fmt_dwell(0), "0s");
    assert_eq!(fmt_dwell(45_999), "45s");
    assert_eq!(fmt_dwell(12 * 60_000 + 5_000), "12m");
    assert_eq!(fmt_dwell(80 * 60_000), "1h 20m");
    assert_eq!(fmt_dwell((2 * 86_400 + 3 * 3600 + 59) * 1000), "2d 3h");
}

#[test]
fn fmt_k_and_hours_and_weekdays() {
    assert_eq!(fmt_k(999), "999");
    assert_eq!(fmt_k(20_000), "20k");
    assert_eq!(fmt_k(1_999), "1k");
    assert_eq!(fmt_hour(0), "12 AM");
    assert_eq!(fmt_hour(9), "9 AM");
    assert_eq!(fmt_hour(12), "12 PM");
    assert_eq!(fmt_hour(23), "11 PM");
    assert_eq!(weekday_name(0), "Sunday");
    assert_eq!(weekday_name(6), "Saturday");
    assert_eq!(weekday_name(7), "—");
}

#[test]
fn level_bins_by_quartile_of_the_busiest_day() {
    assert_eq!(level(0, 10), 0);
    assert_eq!(level(10, 10), 4);
    assert_eq!(level(8, 10), 4);
    assert_eq!(level(3, 4), 3);
    assert_eq!(level(6, 10), 3);
    assert_eq!(level(5, 10), 2);
    assert_eq!(level(3, 10), 2);
    assert_eq!(level(1, 4), 1);
    assert_eq!(level(1, 0), 4);
}

#[test]
fn percentages_add_up_to_one_hundred() {
    assert_eq!(percentages(&[1, 1, 1]), vec![34, 33, 33]);
    assert_eq!(percentages(&[0, 0]), vec![0, 0]);
    assert_eq!(percentages(&[]), Vec::<u32>::new());
    assert_eq!(percentages(&[2, 1]), vec![67, 33]);
    assert_eq!(percentages(&[1, 2]), vec![33, 67]);
    assert_eq!(percentages(&[5, 0, 5]), vec![50, 0, 50]);
    let p = percentages(&[7, 13, 29, 1, 0, 3]);
    assert_eq!(p.iter().sum::<u32>(), 100);
}

#[test]
fn labels_and_provenance_keys() {
    assert_eq!(range_label(TimeRange::Day), "Today");
    assert_eq!(range_label(TimeRange::Session), "This session");
    assert_eq!(short_label(TimeRange::Week), "Week");
    assert_eq!(prov_from_key("external"), Some(Provenance::Start));
    assert_eq!(prov_from_key("typed"), Some(Provenance::TypedUrl));
    assert_eq!(prov_from_key("nope"), None);
    assert_eq!(prov_dot(Provenance::SearchOrigin), "dot-search");
    assert_eq!(prov_dot(Provenance::Other), "dot-other");
    assert!(!available());
}

#[test]
fn view_summary_lists_non_default_knobs() {
    let plain = SavedView {
        name: "a".into(),
        range: TimeRange::Month,
        gran: Granularity::Hostname,
        filters: Filters::default(),
        spa_mode: false,
    };
    assert_eq!(view_summary(&plain), "Month");
    let busy = SavedView {
        name: "b".into(),
        range: TimeRange::Week,
        gran: Granularity::Registrable,
        filters: Filters { min_visits: 5, hide_search_hubs: true, hide_isolated: true, provenance_in: None },
        spa_mode: true,
    };
    assert_eq!(view_summary(&busy), "Week · domains · ≥5 visits · no search hubs · no isolated · in-app navs");
}
