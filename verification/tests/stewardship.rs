use outdegree::stewardship::{nudge_state, Nudge, NUDGE_EVENT_THRESHOLD};

const DAY: i64 = 86_400_000;
const NOW: i64 = 1_700_000_000_000;

#[test]
fn hidden_below_the_event_threshold() {
    assert_eq!(nudge_state(0, None, None, NOW), Nudge::Hidden);
    assert_eq!(nudge_state(NUDGE_EVENT_THRESHOLD, None, None, NOW), Nudge::Hidden);
}

#[test]
fn shows_when_over_threshold_and_never_backed_up() {
    assert_eq!(nudge_state(NUDGE_EVENT_THRESHOLD + 1, None, None, NOW), Nudge::Show);
    assert_eq!(nudge_state(50_000, None, None, NOW), Nudge::Show);
}

#[test]
fn hidden_after_a_recent_backup() {
    assert_eq!(nudge_state(50_000, Some(NOW - 10 * DAY), None, NOW), Nudge::Hidden);
    assert_eq!(nudge_state(50_000, Some(NOW - 59 * DAY), None, NOW), Nudge::Hidden);
    assert_eq!(nudge_state(50_000, Some(NOW - 61 * DAY), None, NOW), Nudge::Show);
}

#[test]
fn snoozed_hides_until_it_elapses() {
    assert_eq!(nudge_state(50_000, None, Some(NOW + 5 * DAY), NOW), Nudge::Snoozed);
    assert_eq!(nudge_state(50_000, None, Some(NOW - DAY), NOW), Nudge::Show);
}

#[test]
fn recent_backup_wins_over_an_active_snooze() {
    assert_eq!(nudge_state(50_000, Some(NOW - DAY), Some(NOW + 5 * DAY), NOW), Nudge::Hidden);
}

#[test]
fn nudge_edges_exactly_stale_and_snooze_ending_now() {
    assert_eq!(nudge_state(50_000, Some(NOW - 60 * DAY), None, NOW), Nudge::Show);
    assert_eq!(nudge_state(50_000, None, Some(NOW), NOW), Nudge::Snoozed);
    assert_eq!(nudge_state(50_000, Some(i64::MIN), None, i64::MAX), Nudge::Show);
}
