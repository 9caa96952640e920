use dirwatch::schedule::SweepScheduler;

#[test]
fn poll_interval_is_floored_at_100ms() {
    let s = SweepScheduler::new(10, 0);
    assert_eq!(s.poll_interval_ms(), 100);
}

#[test]
fn first_poll_is_due_immediately() {
    let mut s = SweepScheduler::new(250, 1000);
    assert!(s.poll(1000));
    assert!(s.has_started());
}

#[test]
fn periodic_sweep_fires_once_per_interval() {
    let mut s = SweepScheduler::new(250, 0);
    assert!(s.poll(0));
    assert!(!s.poll(100));
    assert!(!s.poll(249));
    assert!(s.poll(250));
    assert!(!s.poll(300));
    assert!(s.poll(500));
}

#[test]
fn set_poll_interval_applies_live_and_reanchors() {
    let mut s = SweepScheduler::new(1000, 0);
    assert!(s.poll(0));
    assert_eq!(s.poll_interval_ms(), 1000);
    assert!(!s.poll(500));
    s.set_poll_interval_ms(250, 500);
    assert_eq!(s.poll_interval_ms(), 250);
    assert!(!s.poll(700));
    assert!(s.poll(750));
    assert!(s.poll(1000));
    s.set_poll_interval_ms(250, 1000);
    assert!(!s.poll(1100));
    assert!(s.poll(1250));
    s.set_poll_interval_ms(10, 1250);
    assert_eq!(s.poll_interval_ms(), 100);
}

#[test]
fn periodic_schedule_does_not_drift_when_ticks_are_late() {
    let mut s = SweepScheduler::new(250, 0);
    assert!(s.poll(0));
    assert!(s.poll(630));
    assert!(!s.poll(700));
    assert!(s.poll(750));
}

#[test]
fn fs_event_schedules_a_debounced_sweep() {
    let mut s = SweepScheduler::with_debounce(10_000, 150, 0);
    assert!(s.poll(0));
    s.note_fs_event(1000);
    assert!(!s.poll(1100));
    assert!(s.poll(1150));
    assert!(!s.poll(1200));
}

#[test]
fn burst_of_fs_events_collapses_into_one_sweep() {
    let mut s = SweepScheduler::with_debounce(10_000, 150, 0);
    assert!(s.poll(0));
    s.note_fs_event(1000);
    s.note_fs_event(1010);
    s.note_fs_event(1050);
    assert!(!s.poll(1100));
    assert!(s.poll(1150));
    assert!(!s.poll(1160));
}

#[test]
fn continuous_writer_is_not_starved_leading_edge_debounce() {
    let mut s = SweepScheduler::with_debounce(10_000, 150, 0);
    assert!(s.poll(0));
    s.note_fs_event(1000);
    assert!(s.poll(1150));
    s.note_fs_event(1160);
    assert!(s.poll(1310));
}

#[test]
fn coincident_poll_and_fs_deadline_is_a_single_sweep() {
    let mut s = SweepScheduler::with_debounce(200, 150, 0);
    assert!(s.poll(0));
    s.note_fs_event(50);
    assert!(s.poll(200));
    assert!(!s.poll(201));
}

#[test]
fn ms_until_next_reports_the_nearer_deadline() {
    let mut s = SweepScheduler::with_debounce(250, 150, 0);
    assert!(s.poll(0));
    assert_eq!(s.ms_until_next(0), 250);
    s.note_fs_event(0);
    assert_eq!(s.ms_until_next(0), 150);
}
