use dirwatch::search::{
    clamp_current, extend_matches, find_matches, matches_in_window, rescan_due, scan_inline,
    step_match, Match, DEBOUNCE_THRESHOLD_BYTES, DEBOUNCE_TICKS, MATCH_CAP,
};

#[test]
fn empty_query_finds_nothing() {
    assert!(find_matches("anything", "").is_empty());
}

#[test]
fn scan_inline_below_threshold_defers_at_or_above() {
    assert!(scan_inline(0));
    assert!(scan_inline(1024));
    assert!(scan_inline(DEBOUNCE_THRESHOLD_BYTES - 1));
    assert!(!scan_inline(DEBOUNCE_THRESHOLD_BYTES));
    assert!(!scan_inline(DEBOUNCE_THRESHOLD_BYTES + 1));
    assert!(!scan_inline(64 * 1024 * 1024));
}

#[test]
fn rescan_is_due_only_at_or_after_the_deadline_and_never_when_unarmed() {
    assert!(!rescan_due(None, 100));
    assert!(!rescan_due(Some(102), 100));
    assert!(!rescan_due(Some(102), 101));
    assert!(rescan_due(Some(102), 102));
    assert!(rescan_due(Some(102), 103));
}

#[test]
fn a_keystroke_burst_over_the_threshold_collapses_to_one_scan() {
    let mut deadline: Option<u64> = None;
    let mut scans = 0u32;
    for t in 0..5u64 {
        if rescan_due(deadline, t) {
            scans += 1;
        }
        assert!(!scan_inline(16 * 1024 * 1024));
        deadline = Some(t + DEBOUNCE_TICKS);
    }
    for t in 5..8u64 {
        if rescan_due(deadline, t) {
            scans += 1;
            deadline = None;
        }
    }
    assert_eq!(
        scans, 1,
        "a burst of 5 keystrokes must collapse to exactly one scan"
    );
    assert_eq!(
        deadline, None,
        "the deadline is cleared once the single rescan fires"
    );
}

#[test]
fn finds_all_case_insensitive_occurrences() {
    let t = "Error: an error occurred. ERROR again.";
    let m = find_matches(t, "error");
    assert_eq!(m.len(), 3);
    for r in &m {
        assert_eq!(r.end - r.start, 5);
        assert_eq!(t[r.start..r.end].to_ascii_lowercase(), "error");
    }
    assert_eq!(m[0], Match { start: 0, end: 5 });
}

#[test]
fn matches_are_non_overlapping() {
    let m = find_matches("aaaa", "aa");
    assert_eq!(
        m,
        vec![Match { start: 0, end: 2 }, Match { start: 2, end: 4 }]
    );
}

#[test]
fn query_longer_than_text_is_no_match() {
    assert!(find_matches("hi", "hello").is_empty());
}

#[test]
fn step_wraps_forward_and_back() {
    assert_eq!(step_match(None, 3, true), Some(0));
    assert_eq!(step_match(Some(0), 3, true), Some(1));
    assert_eq!(step_match(Some(2), 3, true), Some(0));
    assert_eq!(step_match(None, 3, false), Some(2));
    assert_eq!(step_match(Some(0), 3, false), Some(2));
    assert_eq!(step_match(Some(0), 0, true), None);
    assert_eq!(step_match(None, 0, false), None);
}

#[test]
fn clamp_current_keeps_index_valid() {
    assert_eq!(clamp_current(Some(2), 5), Some(2));
    assert_eq!(clamp_current(Some(9), 3), Some(2));
    assert_eq!(clamp_current(Some(0), 0), None);
    assert_eq!(clamp_current(None, 4), None);
}

#[test]
fn extend_matches_equals_a_full_rescan_including_a_straddling_match() {
    let full = "Error one\nan er";
    let tail = "ror two\nERROR three\n";
    let mut m = find_matches(full, "error");
    assert_eq!(m.len(), 1);
    let mut text = full.to_string();
    let old = text.len();
    text.push_str(tail);
    extend_matches(&text, "error", old, &mut m);
    assert_eq!(m, find_matches(&text, "error"));
    assert_eq!(m.len(), 3);
    for w in m.windows(2) {
        assert!(w[0].end <= w[1].start);
    }
}

#[test]
fn extend_matches_does_not_double_count_a_match_at_the_old_end() {
    let mut text = "xx error".to_string();
    let mut m = find_matches(&text, "error");
    assert_eq!(m.len(), 1);
    let old = text.len();
    text.push_str(" more");
    extend_matches(&text, "error", old, &mut m);
    assert_eq!(
        m.len(),
        1,
        "the match ending exactly at old_len must not be re-added"
    );
}

#[test]
fn matches_in_window_selects_only_touching_matches() {
    let text = "aa bb aa bb aa bb aa";
    let m = find_matches(text, "aa");
    assert_eq!(matches_in_window(&m, 0, 2), 0..1);
    assert_eq!(matches_in_window(&m, 7, 13), 1..3);
    assert_eq!(matches_in_window(&m, 3, 5), 1..1);
    assert_eq!(matches_in_window(&m, 0, text.len()), 0..4);
}

#[test]
fn match_list_is_capped_and_extend_respects_the_cap() {
    let text = "a".repeat(MATCH_CAP + 5_000);
    let mut m = find_matches(&text, "a");
    assert_eq!(m.len(), MATCH_CAP, "scan stops at the cap");
    let old = text.len();
    let mut grown = text.clone();
    grown.push_str("aaaa");
    extend_matches(&grown, "a", old, &mut m);
    assert_eq!(m.len(), MATCH_CAP, "extend does not grow past the cap");
    assert_eq!(find_matches(&"ab".repeat(1000), "a").len(), 1000);
}

#[test]
fn find_matches_handles_non_ascii_text_without_panicking() {
    let t = "héllo wörld error élan ERROR";
    let m = find_matches(t, "error");
    assert_eq!(m.len(), 2);
    for r in &m {
        assert!(t.is_char_boundary(r.start) && t.is_char_boundary(r.end));
    }
}

#[test]
fn extend_after_an_append_is_far_cheaper_than_a_rescan() {
    let line = "2026-09-09 12:00:00 INFO a routine line with no hits in it at all ok\n";
    let mut text = String::with_capacity(line.len() * 70_000);
    for i in 0..70_000 {
        if i % 1000 == 0 {
            text.push_str("2026-09-09 12:00:00 ERROR something failed here\n");
        } else {
            text.push_str(line);
        }
    }
    let t0 = std::time::Instant::now();
    let mut m = find_matches(&text, "error");
    let full = t0.elapsed();
    let old = text.len();
    text.push_str("2026-09-09 12:00:01 ERROR one more at the end of the file\n");
    let t1 = std::time::Instant::now();
    extend_matches(&text, "error", old, &mut m);
    let incr = t1.elapsed();
    assert_eq!(m, find_matches(&text, "error"));
    println!(
        "B3: full rescan {full:?} vs incremental extend {incr:?} on {} bytes",
        text.len()
    );
    assert!(
        incr * 20 < full.max(std::time::Duration::from_micros(200)),
        "incremental extend ({incr:?}) should be far below a full rescan ({full:?})"
    );
}
