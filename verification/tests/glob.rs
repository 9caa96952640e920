use dirwatch::glob::{GlobMatcher, DEFAULT_PATTERNS};

fn m(pats: &[&str]) -> GlobMatcher {
    let owned: Vec<String> = pats.iter().map(|s| s.to_string()).collect();
    GlobMatcher::new(Some(&owned))
}

#[test]
fn defaults_match_log_and_txt_only() {
    let g = GlobMatcher::new(None);
    assert!(g.is_match("server.log"));
    assert!(g.is_match("notes.txt"));
    assert!(!g.is_match("data.md"));
    assert!(!g.is_match("logfile"));
}

#[test]
fn named_wildcard_pattern() {
    let g = m(&["step*.log"]);
    assert!(g.is_match("step1.log"));
    assert!(g.is_match("step.log"));
    assert!(!g.is_match("astep.log"));
    assert!(!g.is_match("step1.txt"));
}

#[test]
fn case_insensitive() {
    let g = m(&["*.LOG"]);
    assert!(g.is_match("App.Log"));
}

#[test]
fn matches_against_file_name_not_full_path() {
    let g = m(&["*.log"]);
    assert!(g.is_match("some/dir/x.log"));
    assert!(g.is_match("some\\dir\\x.log"));
    assert!(!g.is_match("log.dir/x.txt"));
}

#[test]
fn question_mark_matches_single_char() {
    let g = m(&["log?.txt"]);
    assert!(g.is_match("log1.txt"));
    assert!(!g.is_match("log12.txt"));
}

#[test]
fn empty_falls_back_to_defaults() {
    let g = GlobMatcher::new(Some(&[]));
    assert_eq!(g.patterns(), DEFAULT_PATTERNS);
}

#[test]
fn whitespace_only_patterns_fall_back_to_defaults() {
    let g = m(&["  ", ""]);
    assert_eq!(g.patterns(), DEFAULT_PATTERNS);
}

#[test]
fn a_question_mark_takes_one_character_of_any_kind() {
    let g = m(&["?.log"]);
    assert!(g.is_match("\u{130}.log"));
    assert!(g.is_match("\u{e9}.log"));
    assert!(!g.is_match("i\u{307}.log"));
    assert!(!g.is_match(".log"));
}

#[test]
fn a_name_without_wildcards_fits_itself_in_either_case() {
    for name in ["\u{130}x.log", "Stra\u{df}e.txt", "\u{c9}t\u{e9}.log", "a.b"] {
        assert!(m(&[name]).is_match(name), "{name}");
    }
    assert!(m(&["\u{c9}T\u{c9}.LOG"]).is_match("\u{e9}t\u{e9}.log"));
    assert!(!m(&["\u{130}.log"]).is_match("i.log"));
    assert!(!m(&["i.log"]).is_match("\u{130}.log"));
}
