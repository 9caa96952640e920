use dirwatch::bench::{
    buffer_sizes, gate_open, make_buffer, measure, result_text, run_sweep, shortest, timings,
    QUERIES,
};
use dirwatch::search::{find_matches, MATCH_CAP};

#[test]
fn make_buffer_reaches_the_target_and_is_line_terminated() {
    for size in [10 * 1024usize, 1024 * 1024] {
        let b = make_buffer(size);
        assert!(b.len() >= size, "buffer must reach the target size");
        assert!(b.ends_with('\n'), "buffer is whole lines");
    }
}

#[test]
fn sweep_emits_a_line_per_pair_plus_header_and_footer() {
    let lines: Vec<String> = run_sweep(1);
    let pairs = buffer_sizes().len() * QUERIES.len();
    assert_eq!(
        lines.len(),
        pairs + 2,
        "expected header + {pairs} measurement lines + footer"
    );
    assert!(lines.first().unwrap().contains("sweep START"));
    assert!(lines.last().unwrap().contains("sweep END"));
    for l in &lines[1..lines.len() - 1] {
        assert!(l.contains("buffer="), "line: {l}");
        assert!(l.contains("query="), "line: {l}");
        assert!(l.contains("matches="), "line: {l}");
        assert!(l.contains("scan="), "line: {l}");
    }
}

#[test]
fn measure_returns_the_same_count_as_a_plain_find_matches() {
    let text = make_buffer(64 * 1024);
    for q in QUERIES {
        let (count, _dt) = measure(&text, q, 1);
        assert_eq!(count, find_matches(&text, q).len(), "query {q}");
    }
}

#[test]
fn gate_needs_both_env_vars_nonempty_and_nonzero() {
    let on = &Some("1".to_string());
    let off = &Some("0".to_string());
    let empty = &Some(String::new());
    let none = &None;
    assert!(gate_open(on, on));
    assert!(!gate_open(none, on));
    assert!(!gate_open(on, none));
    assert!(!gate_open(off, on));
    assert!(!gate_open(on, off));
    assert!(!gate_open(empty, on));
    assert!(!gate_open(on, empty));
    assert!(!gate_open(none, none));
}

#[test]
fn the_shortest_time_counts() {
    assert_eq!(shortest(&[7]), 7);
    assert_eq!(shortest(&[9, 3, 5]), 3);
    assert_eq!(shortest(&[3, 9, 5]), 3);
    assert_eq!(shortest(&[9, 5, 3]), 3);
    assert_eq!(shortest(&[u64::MAX, u64::MAX]), u64::MAX);
}

#[test]
fn every_search_is_timed_and_there_is_at_least_one() {
    let text = make_buffer(4 * 1024);
    for (reps, want) in [(0, 1), (1, 1), (4, 4)] {
        let (count, times) = timings(&text, "error", reps);
        assert_eq!(count, find_matches(&text, "error").len());
        assert_eq!(times.len(), want);
    }
}

#[test]
fn a_row_names_what_was_searched_and_what_came_of_it() {
    assert_eq!(
        result_text("10KB", 10293, "err", 3, 1_234_500),
        "buffer=10KB actual_bytes=10293 query=\"err\" matches=3 scan=1.235ms"
    );
    assert_eq!(
        result_text("1MB", 7, "e", MATCH_CAP, 4_000),
        format!("buffer=1MB actual_bytes=7 query=\"e\" matches={MATCH_CAP}+ scan=0.004ms")
    );
}
