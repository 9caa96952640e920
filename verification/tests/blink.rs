use dirwatch::blink::{blink_half_ticks, cap_blink_active, cap_blink_ms, is_bright, TICK_MS};

#[test]
fn blink_half_is_a_whole_number_of_ticks() {
    let half = blink_half_ticks();
    assert!(half >= 1);
    let ms = half * TICK_MS;
    assert!(
        (400..=500).contains(&ms),
        "blink half-period {ms} ms is outside the accepted 400-500 ms"
    );
}

#[test]
fn phase_starts_bright_and_toggles_each_half_period() {
    let half = blink_half_ticks();
    assert!(is_bright(0));
    assert!(is_bright(half - 1));
    assert!(!is_bright(half));
    assert!(!is_bright(2 * half - 1));
    assert!(is_bright(2 * half));
}

#[test]
fn phase_is_periodic() {
    let half = blink_half_ticks();
    let period = 2 * half;
    for t in 0..(period * 3) {
        assert_eq!(
            is_bright(t),
            is_bright(t + period),
            "phase must repeat every full cycle"
        );
    }
}

#[test]
fn cap_blink_is_active_within_the_window_then_stops() {
    let start = 10_000;
    let dur = 3000;
    assert!(cap_blink_active(Some(start), start, dur));
    assert!(cap_blink_active(Some(start), start + dur - 1, dur));
    assert!(!cap_blink_active(Some(start), start + dur, dur));
    assert!(!cap_blink_active(Some(start), start + dur + 1, dur));
}

#[test]
fn cap_blink_is_not_active_before_it_starts() {
    assert!(!cap_blink_active(Some(10_000), 9_999, 3000));
    assert!(!cap_blink_active(Some(10_000), 0, 3000));
    assert!(!cap_blink_active(Some(10_000), 10_000, 0));
    assert!(cap_blink_active(Some(u64::MAX - 1), u64::MAX - 1, 3000));
    assert!(!cap_blink_active(Some(u64::MAX - 1), u64::MAX, 3000));
}

#[test]
fn cap_blink_never_active_when_untriggered() {
    assert!(!cap_blink_active(None, 0, 3000));
    assert!(!cap_blink_active(None, 999_999, 3000));
}

#[test]
fn cap_blink_ms_tracks_active_clamped_to_1_10_seconds() {
    assert_eq!(cap_blink_ms(5), 5000);
    assert_eq!(cap_blink_ms(1), 1000);
    assert_eq!(cap_blink_ms(10), 10_000);
    assert_eq!(cap_blink_ms(0), 1000);
    assert_eq!(cap_blink_ms(300), 10_000);
    assert_eq!(cap_blink_ms(-4), 1000);
}
