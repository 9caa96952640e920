use dirwatch::os::Os;
use dirwatch::runtime::{
    floor_ms, service_for, watches_subtree, worth_tracing, TailChunk, TailLoop, TailResult, Turn,
    WatchConfig, WatchLoop, TAIL_POLL_FLOOR_MS,
};
use dirwatch::watch::SweepStats;

fn quiet() -> TailResult {
    TailResult {
        new_text: None,
        rotated: false,
        reappeared: false,
        missing: false,
        encoding_label: String::new(),
        error: None,
        skipped_bytes: None,
        ready: false,
        more: false,
    }
}

fn gone() -> TailResult {
    TailResult {
        missing: true,
        ..quiet()
    }
}

fn failed(why: &str) -> TailResult {
    TailResult {
        error: Some(why.to_string()),
        ..quiet()
    }
}

fn text(t: &str) -> TailResult {
    TailResult {
        new_text: Some(t.to_string()),
        ..quiet()
    }
}

/// The pieces that several looks lead to.
fn pieces(looks: Vec<TailResult>) -> Vec<TailChunk> {
    let mut tail = TailLoop::new();
    looks
        .into_iter()
        .filter_map(|l| tail.step(l).chunk)
        .collect()
}

#[test]
fn tail_stream_emits_missing_once_not_repeatedly() {
    let got = pieces(vec![text("x\n"), gone(), gone(), gone()]);
    assert_eq!(got.iter().filter(|c| c.missing).count(), 1);
    assert_eq!(got.len(), 2);
}

#[test]
fn tail_stream_reports_missing_again_after_reappear_and_redelete() {
    let back = TailResult {
        reappeared: true,
        new_text: Some("y\n".to_string()),
        ..quiet()
    };
    let got = pieces(vec![text("x\n"), gone(), gone(), back, gone(), gone()]);
    assert_eq!(got.iter().filter(|c| c.missing).count(), 2);
    assert_eq!(got.iter().filter(|c| c.reappeared).count(), 1);
}

#[test]
fn tail_stream_reports_an_open_error_once() {
    let got = pieces(vec![failed("denied"), failed("denied"), failed("denied")]);
    assert_eq!(got.len(), 1);
    assert_eq!(got[0].error.as_deref(), Some("denied"));
}

#[test]
fn tail_stream_reports_ready_for_an_empty_file() {
    let first = TailResult {
        ready: true,
        encoding_label: "UTF-8/ASCII".to_string(),
        ..quiet()
    };
    let got = pieces(vec![first, quiet(), quiet()]);
    assert_eq!(got.len(), 1);
    assert!(got[0].ready);
    assert_eq!(got[0].new_text, None);
    assert_eq!(got[0].encoding_label, "UTF-8/ASCII");
}

#[test]
fn tail_stream_reports_a_read_error_once_and_does_not_spin() {
    let mut tail = TailLoop::new();
    let mut told = 0;
    for _ in 0..20 {
        let bad = TailResult {
            more: true,
            ..failed("input/output error")
        };
        let step = tail.step(bad);
        assert!(!step.again, "a look without text is never followed at once");
        told += step.chunk.is_some() as u32;
    }
    assert_eq!(told, 1);
}

#[test]
fn a_missing_file_replaced_by_a_directory_does_not_rearm_the_missing_marker() {
    let looks = vec![
        text("x\n"),
        gone(),
        failed("is a directory"),
        failed("is a directory"),
        gone(),
        gone(),
    ];
    let got = pieces(looks);
    assert_eq!(got.iter().filter(|c| c.missing).count(), 1);
    assert_eq!(got.iter().filter(|c| c.error.is_some()).count(), 1);
}

#[test]
fn a_failure_that_ended_is_reported_when_it_returns() {
    let got = pieces(vec![failed("a"), quiet(), failed("b")]);
    let told: Vec<_> = got.iter().filter_map(|c| c.error.as_deref()).collect();
    assert_eq!(told, ["a", "b"]);
}

#[test]
fn a_long_history_is_read_piece_by_piece() {
    let mut tail = TailLoop::new();
    let more = TailResult {
        more: true,
        ..text("a\n")
    };
    assert!(tail.step(more).again);
    assert!(!tail.step(text("b\n")).again);
    let dry = TailResult {
        more: true,
        ..quiet()
    };
    assert!(!tail.step(dry).again);
}

#[test]
fn a_skipped_front_is_news() {
    let got = pieces(vec![TailResult {
        skipped_bytes: Some(9),
        ..quiet()
    }]);
    assert_eq!(got.len(), 1);
    assert_eq!(got[0].skipped_bytes, Some(9));
}

#[test]
fn a_silent_piece_says_nothing() {
    let c = TailChunk::default();
    assert_eq!(c.new_text, None);
    assert!(!c.rotated && !c.reappeared && !c.missing && !c.ready);
    assert_eq!(c.encoding_label, "");
    assert_eq!(c.error, None);
    assert_eq!(c.skipped_bytes, None);
}

#[test]
fn the_loop_takes_stock_first_and_sweeps_later() {
    let mut l = WatchLoop::new(250, 1_000);
    assert_eq!(l.turn(250, false, 1_000), Turn::Start);
    assert_eq!(l.turn(250, false, 1_001), Turn::Rest);
    assert_eq!(l.turn(250, false, 1_249), Turn::Rest);
    assert_eq!(l.turn(250, false, 1_250), Turn::Sweep);
    assert_eq!(l.turn(250, false, 1_251), Turn::Rest);
}

#[test]
fn a_reported_change_brings_a_sweep_forward() {
    let mut l = WatchLoop::new(5_000, 0);
    assert_eq!(l.turn(5_000, false, 0), Turn::Start);
    assert_eq!(l.turn(5_000, true, 1_000), Turn::Rest);
    assert_eq!(l.turn(5_000, true, 1_149), Turn::Rest);
    assert_eq!(l.turn(5_000, false, 1_150), Turn::Sweep);
}

#[test]
fn a_live_poll_change_does_not_restart_the_watch_or_drop_activity() {
    let mut l = WatchLoop::new(60_000, 0);
    assert_eq!(l.turn(60_000, false, 0), Turn::Start);
    assert_eq!(l.turn(200, false, 1_000), Turn::Rest);
    assert_eq!(l.turn(200, false, 1_199), Turn::Rest);
    assert_eq!(l.turn(200, false, 1_200), Turn::Sweep);
}

#[test]
fn the_rest_is_bounded_on_both_sides() {
    let mut l = WatchLoop::new(5_000, 0);
    assert_eq!(l.rest_ms(0), 10);
    l.turn(5_000, false, 0);
    assert_eq!(l.rest_ms(0), 100);
    assert_eq!(l.rest_ms(4_950), 50);
    assert_eq!(l.rest_ms(4_999), 10);
}

#[test]
fn intervals_are_brought_up_to_the_floor() {
    assert_eq!(floor_ms(0), TAIL_POLL_FLOOR_MS);
    assert_eq!(floor_ms(99), 100);
    assert_eq!(floor_ms(100), 100);
    assert_eq!(floor_ms(2_000), 2_000);
}

#[test]
fn the_system_watches_the_subtree_except_on_linux() {
    for os in [Os::Windows, Os::MacOs] {
        assert!(!watches_subtree(os, 0));
        assert!(watches_subtree(os, 1));
    }
    assert!(!watches_subtree(Os::Linux, 0));
    assert!(!watches_subtree(Os::Linux, 10));
}

#[test]
fn a_sweep_is_traced_when_it_says_something_new() {
    let st = SweepStats {
        files: 3,
        dirs: 1,
        millis: 2,
    };
    assert!(worth_tracing(None, st, 1, 250));
    assert!(!worth_tracing(Some(st), st, 2, 250));
    assert!(worth_tracing(Some(st), SweepStats { files: 4, ..st }, 2, 250));
    assert!(worth_tracing(Some(st), SweepStats { dirs: 2, ..st }, 2, 250));
    assert!(!worth_tracing(Some(st), SweepStats { millis: 124, ..st }, 2, 250));
    assert!(worth_tracing(Some(st), SweepStats { millis: 125, ..st }, 2, 250));
    assert!(worth_tracing(Some(st), st, 200, 250));
    assert!(!worth_tracing(Some(st), SweepStats { millis: 0, ..st }, 3, 1));
}

#[test]
fn a_watch_is_made_as_the_configuration_says() {
    let cfg = WatchConfig {
        directory: "/w".to_string(),
        patterns: vec!["*.csv".to_string()],
        poll_interval_ms: 50,
        depth: 3,
    };
    let s = service_for(Os::Linux, &cfg);
    assert_eq!(s.directory(), "/w");
    assert_eq!(s.poll_interval_ms(), 100);
    assert_eq!(s.depth(), 3);
    assert!(s.wants("a.csv"));
    assert!(!s.wants("a.log"));
    let s = service_for(
        Os::Linux,
        &WatchConfig {
            patterns: vec![],
            ..cfg
        },
    );
    assert!(s.wants("a.log"));
    assert!(!s.wants("a.csv"));
}
