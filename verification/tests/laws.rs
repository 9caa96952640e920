use dirwatch::buffer::{normalize_line_endings, TailBuf};
use dirwatch::cli::{CliOptions, DESC_COL};
use dirwatch::glob::GlobMatcher;
use dirwatch::layout::{dir_box_order, group_tile_boxes, TileLayout};
use dirwatch::os::Os;
use dirwatch::paths::{parse_path, resolve_watch_dir};
use dirwatch::render::{clip_line, clip_text, render_pieces, Piece};
use dirwatch::runtime::TailChunk;
use dirwatch::search::{find_matches, step_match, Match};
use dirwatch::session::{ButtonVis, OpenResult, SessionModel};
use dirwatch::settings::{commit_settings, ModelOpts, Settings, SettingsDraft};
use dirwatch::tailwin::TailWin;
use std::cmp::Ordering;

fn owned(v: &[&str]) -> Vec<String> {
    v.iter().map(|s| s.to_string()).collect()
}

fn glob(pats: &[&str]) -> GlobMatcher {
    GlobMatcher::new(Some(&owned(pats)))
}

#[test]
fn a_star_covers_everything() {
    for name in ["", "a", "a.b", "x y", "é*?"] {
        assert!(glob(&["*"]).is_match(name), "{name:?}");
    }
}

#[test]
fn a_word_covers_itself_only() {
    let m = glob(&["app.log"]);
    assert!(m.is_match("app.log") && m.is_match("APP.Log"));
    for name in ["app_log", "xapp.log", "app.logx", "", "app"] {
        assert!(!m.is_match(name), "{name:?}");
    }
}

#[test]
fn the_directory_of_a_file_does_not_count() {
    let m = glob(&["a*.log"]);
    for dir in ["", "/", "/b.log/", "C:\\b\\", "x/y\\"] {
        assert!(m.is_match(&format!("{dir}app.log")));
        assert!(!m.is_match(&format!("{dir}bpp.log")));
    }
}

#[test]
fn a_resolved_directory_is_rooted_and_final() {
    for input in ["", ".", "a/./b", "/a/../b/", "../x", "/..", "\"/q r\"", "a//b/../.."] {
        let once = resolve_watch_dir(Os::Linux, input, "/home/mike");
        assert!(once.starts_with('/'), "{once}");
        assert_eq!(resolve_watch_dir(Os::Linux, &once, "/elsewhere"), once);
        let parts = parse_path(Os::Linux, &once).parts;
        assert!(parts.iter().all(|p| p != "." && p != ".."), "{once}");
    }
}

#[test]
fn stepping_back_undoes_stepping_on() {
    for count in 1..5 {
        for i in 0..count {
            let on = step_match(Some(i), count, true);
            assert_eq!(step_match(on, count, false), Some(i));
        }
    }
}

#[test]
fn matches_are_in_order_and_whole() {
    let text = "aAé éaa aaaÉ\n";
    for q in ["a", "aa", "é", "a a"] {
        let ms = find_matches(text, q);
        for w in ms.windows(2) {
            assert!(w[0].end <= w[1].start);
        }
        for m in &ms {
            assert!(text.is_char_boundary(m.start) && text.is_char_boundary(m.end));
            assert!(text[m.start..m.end].eq_ignore_ascii_case(q));
        }
    }
}

fn taken_in(pieces: &[&str]) -> String {
    let mut out = String::new();
    let mut cr = false;
    for p in pieces {
        cr = normalize_line_endings(p, cr, &mut out);
    }
    if cr {
        normalize_line_endings("x", true, &mut out);
    }
    out
}

#[test]
fn a_text_may_come_in_any_pieces() {
    let text = "a\r\nb\rc\u{2028}d\u{7}\r\r\n\u{85}e";
    let whole = taken_in(&[text]);
    for (at, _) in text.char_indices() {
        assert_eq!(taken_in(&[&text[..at], &text[at..]]), whole, "{at}");
    }
    assert_eq!(taken_in(&[&whole]), whole);
}

#[test]
fn a_trimmed_text_keeps_its_end_below_a_note() {
    let mut buf = TailBuf::new();
    for i in 0..100 {
        buf.append_text(&format!("line {i}\n"));
    }
    let before = buf.text.clone();
    assert!(buf.cap_scrollback_to(400, 200));
    assert!(buf.text.starts_with("--- earlier"));
    let rest = &buf.text[buf.text.find('\n').unwrap() + 1..];
    assert!(before.ends_with(rest));
    assert!(rest.len() <= 200);
    assert!(rest.ends_with("line 99\n"));
    assert_eq!(buf.line_count(), buf.text.matches('\n').count());
}

fn shown(pieces: &[Piece]) -> String {
    pieces
        .iter()
        .map(|p| match p {
            Piece::Plain(text) => text.clone(),
            Piece::Hit { text, .. } => text.clone(),
            Piece::Clipped { bytes } => clip_text(*bytes),
        })
        .collect()
}

#[test]
fn highlighting_changes_no_text_and_no_rows() {
    let text = "error a\nno\nERROR b error\n\n";
    let ms = find_matches(text, "error");
    let plain = render_pieces(text, 0, &[], None, 100);
    let lit = render_pieces(text, 0, &ms, Some(ms[1].start), 100);
    assert_eq!(shown(&plain), shown(&lit));
    assert_eq!(
        shown(&lit).matches('\n').count(),
        render_rows(text),
        "{:?}",
        shown(&lit)
    );
    let none: Vec<Match> = vec![];
    assert_eq!(shown(&render_pieces("", 0, &none, None, 100)), "");
}

fn render_rows(text: &str) -> usize {
    text.matches('\n').count()
}

#[test]
fn a_row_is_bounded_and_cut_between_characters() {
    for max in 0..8 {
        let (front, left) = clip_line("aéé\u{10000}b", max);
        assert!(front.len() <= max);
        assert_eq!(front.len() + left, "aéé\u{10000}b".len());
        assert!("aéé\u{10000}b".starts_with(front));
    }
}

#[test]
fn an_untouched_form_changes_no_setting() {
    let opts = ModelOpts {
        max_windows: Some(7),
        active_seconds: Some(30),
        no_open: true,
    };
    let s = Settings::from_boot(2_000, &opts);
    let again = commit_settings(&SettingsDraft::from_live(1, &s), &s);
    assert_eq!(again.max_windows, s.max_windows);
    assert_eq!(again.active_seconds, s.active_seconds);
    assert_eq!(again.poll_ms, s.poll_ms);
    assert_eq!(again.tiles_per_box, s.tiles_per_box);
    assert_eq!(again.no_open, s.no_open);
}

#[test]
fn every_file_has_one_tile_and_boxes_stand_in_order() {
    let paths = owned(&["/w/b/x.log", "/w/a.log", "/w/B/y.log", "/w/a/z.log", "/w/b/w.log"]);
    for os in [Os::Linux, Os::MacOs, Os::Windows] {
        let boxes = group_tile_boxes(os, &paths, "/w");
        let mut tiles: Vec<String> = boxes
            .iter()
            .flat_map(|b| b.files.iter().map(|f| f.1.clone()))
            .collect();
        tiles.sort();
        let mut want = paths.clone();
        want.sort();
        assert_eq!(tiles, want);
        for w in boxes.windows(2) {
            assert_ne!(
                dir_box_order(os, "/w", &w[0].dir, &w[1].dir),
                Ordering::Greater
            );
        }
        assert_eq!(boxes[0].dir, "/w");
        assert_eq!(boxes.len(), if os == Os::Linux { 4 } else { 3 });
    }
}

#[test]
fn a_file_that_comes_later_is_shown() {
    let mut m = SessionModel::for_os(Os::Linux);
    let mut l = TileLayout::default();
    m.get_or_add("/w/a.log");
    l.refresh(&m, "/w", 4);
    assert_eq!(l.boxes.len(), 1);
    m.get_or_add("/w/sub/b.log");
    l.refresh(&m, "/w", 4);
    assert_eq!(l.boxes.len(), 2);
}

#[test]
fn windows_open_one_at_a_time_and_within_the_limit() {
    let mut m = SessionModel::for_os(Os::Linux);
    m.tune(2, 10, false);
    assert_eq!(m.try_open("/w/a"), OpenResult::Opened);
    assert_eq!(m.open_count(), 1);
    assert_eq!(m.try_open("/w/a"), OpenResult::AlreadyOpen);
    assert_eq!(m.try_open("/w/b"), OpenResult::Opened);
    assert_eq!(m.try_open("/w/c"), OpenResult::BlockedByCap);
    assert_eq!(m.open_count(), 2);
    assert_eq!((m.max_windows(), m.active_seconds()), (2, 10));
}

#[test]
fn a_file_written_again_in_the_past_of_the_clock_stays_active() {
    let mut m = SessionModel::for_os(Os::Linux);
    m.get_or_add("/w/a");
    m.mark_activity("/w/a", i64::MAX);
    assert_eq!(m.vis_of("/w/a", i64::MIN), ButtonVis::ActiveClosed);
}

#[test]
fn descriptions_line_up_in_the_help() {
    let help = CliOptions::help_text();
    let rows = [
        ("-h, --help", "Show this help"),
        ("-w, --max-windows <n>", "Max tail windows open at once"),
        ("    --no-open", "Do not auto-open windows"),
        ("    --version", "Print build ID and exit"),
    ];
    for (token, desc) in rows {
        assert!(help.contains(&format!("\n  {token:<DESC_COL$}{desc}")), "{token}");
    }
}

#[test]
fn numbers_on_the_command_line_come_out_in_range() {
    for n in ["-5", "0", "1", "7", "99", "100000000"] {
        let o = CliOptions::parse(&owned(&["--depth", n, "--max-windows", n]));
        if let Some(d) = o.depth {
            assert!((0..=10).contains(&d));
        }
        if let Some(w) = o.max_windows {
            assert!((1..=50).contains(&w));
        }
    }
}

fn said(text: &str) -> TailChunk {
    TailChunk {
        new_text: Some(text.to_string()),
        ..TailChunk::default()
    }
}

#[test]
fn matches_follow_the_text_as_it_grows_and_is_cut() {
    let mut tw = TailWin::new("/w/a.log");
    tw.change_query("err", 0);
    for i in 0..200 {
        tw.take_chunks_within(vec![said(&format!("row {i} err")), said("or\n")], 1_000, 500);
        assert_eq!(
            tw.matches.iter().map(|m| m.start).collect::<Vec<_>>(),
            find_matches(&tw.buf.text, "err")
                .iter()
                .map(|m| m.start)
                .collect::<Vec<_>>()
        );
        assert!(tw.current_match.map_or(true, |c| c < tw.matches.len()));
    }
    assert!(tw.buf.text.len() <= 1_100);
}

#[test]
fn a_window_that_does_not_follow_stays_where_it_is() {
    let mut tw = TailWin::new("/w/a.log");
    assert!(tw.take_chunks(vec![said("a\n")]), "a followed end is shown");
    tw.set_following(false);
    assert!(!tw.take_chunks(vec![said("b\n")]));
    assert_eq!(tw.buf.text, "a\nb\n");
    tw.set_following(true);
    assert!(tw.take_chunks(vec![said("c\n")]));
}

#[test]
fn a_match_is_shown_with_some_rows_above_it() {
    let mut tw = TailWin::new("/w/a.log");
    tw.take_chunks(vec![said("0\n1\n2\n3\n4\n5\nneedle\n")]);
    assert_eq!(tw.change_query("needle", 0), Some(3));
    assert_eq!(tw.current_match, Some(0));
    assert_eq!(tw.search_step(true), Some(3));
    tw.clear_search();
    assert_eq!(tw.search_step(true), None);
}

#[test]
fn the_visible_rows_are_drawn_with_their_matches() {
    let mut tw = TailWin::new("/w/a.log");
    tw.take_chunks(vec![said("no\nerr\nno\n")]);
    tw.change_query("ERR", 0);
    let pieces = tw.visible_pieces(1, 2);
    assert!(pieces
        .iter()
        .any(|p| matches!(p, Piece::Hit { text, current: true } if text == "err")));
    assert_eq!(shown(&tw.visible_pieces(0, 1)).trim_end(), "no");
}
