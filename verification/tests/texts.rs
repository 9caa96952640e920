use dirwatch::bench::millis_text;
use dirwatch::build_info::{banner, BUILD_ID, PRODUCT, VERSION};
use dirwatch::cli::CliOptions;
use dirwatch::encoding::detect;
use dirwatch::launch::{error_text, frame, launch_config, model_opts};
use dirwatch::layout;
use dirwatch::layout::{
    box_title, columns, empty_text, group_tile_boxes, is_wide, status_text, vis_color,
};
use dirwatch::notes::{dir_cap_text, file_cap_text, note_is, settle, Note, NoteKind, RootChange};
use dirwatch::os::Os;
use dirwatch::paths::{name_of, parent_of, parse_path, same_path, strip_surrounding_quotes};
use dirwatch::render;
use dirwatch::render::{clip_text, header_text, highlight_bg, next_enabled, prev_enabled};
use dirwatch::session::ButtonVis;
use dirwatch::settings::{prune_grace_secs, split_patterns, MISSING_PRUNE_GRACE_SECS};
use std::path::Path;

fn parse(args: &[&str]) -> CliOptions {
    let v: Vec<String> = args.iter().map(|s| s.to_string()).collect();
    CliOptions::parse(&v)
}

fn owned(v: &[&str]) -> Vec<String> {
    v.iter().map(|s| s.to_string()).collect()
}

#[test]
fn the_build_names_the_product() {
    assert_eq!(PRODUCT, "DirWatch 1.0");
    assert_eq!(VERSION, "1.0.0");
    assert_eq!(banner(), BUILD_ID);
    assert!(BUILD_ID.starts_with(PRODUCT));
}

#[test]
fn wrong_words_are_listed_above_the_help() {
    let o = parse(&["--bogus", "--depth"]);
    assert_eq!(o.errors.len(), 2);
    let text = error_text(&o.errors);
    let want = format!(
        "{BUILD_ID}\nerror: {}\nerror: {}\n\n{}",
        o.errors[0],
        o.errors[1],
        CliOptions::help_text().trim_end()
    );
    assert_eq!(text, want);
}

#[test]
fn a_text_has_an_empty_line_before_it_and_one_after_it() {
    assert_eq!(frame("x"), "\nx\n\n");
    assert_eq!(frame("x\ny\n"), "\nx\ny\n\n");
    assert_eq!(frame(""), "\n\n\n");
}

#[test]
fn a_start_without_words_watches_the_current_directory() {
    let cfg = launch_config(&parse(&[]), "/home/mike");
    assert_eq!(cfg.directory, "/home/mike");
    assert!(cfg.patterns.is_empty());
    assert_eq!(cfg.poll_interval_ms, 250);
    assert_eq!(cfg.depth, 0);
}

#[test]
fn a_start_takes_what_the_command_line_says() {
    let o = parse(&[
        "/var/log",
        "--poll-ms",
        "999999999",
        "-d",
        "4",
        "--max-windows",
        "7",
        "--active-secs",
        "30",
        "--no-open",
    ]);
    let cfg = launch_config(&o, "/home/mike");
    assert_eq!(cfg.directory, "/var/log");
    assert_eq!(cfg.poll_interval_ms, 60_000);
    assert_eq!(cfg.depth, 4);
    let m = model_opts(&o);
    assert_eq!(m.max_windows, Some(7));
    assert_eq!(m.active_seconds, Some(30));
    assert!(m.no_open);
    assert_eq!(launch_config(&parse(&["--poll-ms", "1"]), "/w").poll_interval_ms, 100);
}

#[test]
fn the_line_above_a_tail() {
    assert_eq!(header_text("/w/a.log", "", true), "/w/a.log   [...]   following");
    assert_eq!(
        header_text("/w/a.log", "UTF-16 LE", false),
        "/w/a.log   [UTF-16 LE]   paused"
    );
    assert_eq!(clip_text(12), " ... [12 more bytes not shown]");
}

#[test]
fn the_count_of_matches() {
    assert_eq!(render::count_text("", true, 5, Some(1)), "");
    assert_eq!(render::count_text("a", true, 5, Some(1)), "\u{2026}");
    assert_eq!(render::count_text("a", false, 0, None), "no matches");
    assert_eq!(render::count_text("a", false, 5, Some(1)), "2 of 5");
    assert_eq!(render::count_text("a", false, 5, None), "5 matches");
    assert_eq!(render::count_text("a", false, 100_000, Some(0)), "1 of 100000+");
    assert!(!prev_enabled(0) && prev_enabled(1));
    assert!(!next_enabled(0, false) && next_enabled(0, true) && next_enabled(1, false));
    assert_ne!(highlight_bg(true), highlight_bg(false));
    assert_eq!(highlight_bg(true), (0xF2, 0x8C, 0x28));
    assert_eq!(highlight_bg(false), (0x6E, 0x5A, 0x2A));
}

#[test]
fn the_words_of_the_main_window() {
    assert_eq!(layout::count_text(3, 10), "Open Windows: 3 of 10");
    assert_eq!(box_title(""), ".");
    assert_eq!(box_title("/w"), "/w");
    assert_eq!(empty_text(true), "Watching... no matching files yet.");
    assert_eq!(empty_text(false), "Stopped. Press Start Watching to begin.");
    assert_eq!(status_text(Some("ERROR: x"), true, "/w", &[]), "ERROR: x");
    assert_eq!(status_text(None, false, "/w", &[]), "stopped");
    assert_eq!(status_text(None, true, "/w", &[]), "watching /w (*.log *.txt)");
    assert_eq!(
        status_text(None, true, "/w", &owned(&["*.a", "b?"])),
        "watching /w (*.a b?)"
    );
}

#[test]
fn a_box_with_a_long_name_has_half_the_columns() {
    let short = group_tile_boxes(Os::Linux, &owned(&["/w/a.log"]), "/w");
    assert!(!is_wide(&short[0]));
    let edge = format!("/w/{}", "x".repeat(24));
    assert!(!is_wide(&group_tile_boxes(Os::Linux, &[edge], "/w")[0]));
    let long = format!("/w/{}", "x".repeat(25));
    assert!(is_wide(&group_tile_boxes(Os::Linux, &[long], "/w")[0]));
    assert_eq!(columns(4, false), 4);
    assert_eq!(columns(4, true), 2);
    assert_eq!(columns(5, true), 2);
    assert_eq!(columns(1, true), 1);
}

#[test]
fn every_state_has_its_colour() {
    assert_eq!(vis_color(ButtonVis::Idle), [0xE0, 0xE0, 0xE0]);
    assert_eq!(vis_color(ButtonVis::Open), [0x8F, 0xB8, 0xE0]);
    assert_eq!(vis_color(ButtonVis::ActiveOpen), [0x4C, 0xC2, 0x4C]);
    assert_eq!(vis_color(ButtonVis::ActiveClosed), [0xF2, 0xC7, 0x4C]);
    assert_eq!(vis_color(ButtonVis::Unread), [0xF2, 0xC7, 0x4C]);
    assert_eq!(vis_color(ButtonVis::Missing), [0xE0, 0x6C, 0x6C]);
}

#[test]
fn an_outage_is_logged_and_its_end_too() {
    let mut note: Option<Note> = None;
    let log = settle(
        &mut note,
        Some(RootChange::Error("cannot read /w: gone".to_string())),
        true,
        true,
        true,
    );
    assert_eq!(log, ["watch error: cannot read /w: gone"]);
    assert!(note_is(&note, NoteKind::WatchError));
    let log = settle(&mut note, Some(RootChange::Recovered), true, true, true);
    assert_eq!(log, ["watch recovered: directory reads again"]);
    assert!(note_is(&note, NoteKind::DirCap));
    let log = settle(&mut note, None, true, true, true);
    assert!(log.is_empty());
    assert!(note_is(&note, NoteKind::DirCap));
}

#[test]
fn a_limit_is_logged_when_it_is_first_met() {
    let mut note: Option<Note> = None;
    let log = settle(&mut note, None, true, false, true);
    assert_eq!(log, [format!("file cap: {}", file_cap_text())]);
    assert_eq!(note.as_ref().unwrap().text, format!("ERROR: {}", file_cap_text()));
    assert!(file_cap_text().starts_with("1000-file limit reached"));
    let mut note: Option<Note> = None;
    let log = settle(&mut note, None, true, true, true);
    assert_eq!(log, [format!("dir cap: {}", dir_cap_text())]);
    assert!(note_is(&note, NoteKind::DirCap));
    assert!(dir_cap_text().starts_with("200-directory limit reached"));
    let mut note: Option<Note> = None;
    assert!(settle(&mut note, None, false, true, true).is_empty());
    assert!(note.is_none());
}

#[test]
fn a_recovery_that_nothing_went_before_is_not_logged() {
    let mut note = Some(Note {
        kind: NoteKind::Plain,
        text: "stopped".to_string(),
    });
    assert!(settle(&mut note, Some(RootChange::Recovered), true, true, true).is_empty());
    assert_eq!(note.unwrap().text, "stopped");
}

#[test]
fn a_time_is_written_in_milliseconds() {
    assert_eq!(millis_text(0), "0.000");
    assert_eq!(millis_text(499), "0.000");
    assert_eq!(millis_text(500), "0.001");
    assert_eq!(millis_text(1_234_567), "1.235");
    assert_eq!(millis_text(10_050_000), "10.050");
}

#[test]
fn the_time_before_a_missing_file_is_let_go_can_be_set_for_a_trace() {
    let s = |t: &str| Some(t.to_string());
    assert_eq!(prune_grace_secs(false, s("5")), MISSING_PRUNE_GRACE_SECS);
    assert_eq!(prune_grace_secs(true, None), 3600);
    assert_eq!(prune_grace_secs(true, s(" 5 ")), 5);
    assert_eq!(prune_grace_secs(true, s("-5")), 1);
    assert_eq!(prune_grace_secs(true, s("x")), 3600);
}

#[test]
fn patterns_are_split_at_both_marks() {
    assert_eq!(split_patterns(" *.a ; ,\"b c\",*.d"), owned(&["*.a", "b c", "*.d"]));
    assert!(split_patterns(" ; ").is_empty());
}

#[test]
fn quotes_around_a_path_are_taken_off() {
    assert_eq!(strip_surrounding_quotes("\"/a b\""), "/a b");
    assert_eq!(strip_surrounding_quotes("\"/a b"), "\"/a b");
    assert_eq!(strip_surrounding_quotes("\""), "\"");
}

/// Where the tests run on a system of the Unix kind, its own paths are the measure.
#[test]
fn paths_are_taken_apart_as_the_system_does() {
    if std::path::MAIN_SEPARATOR != '/' {
        return;
    }
    let all = [
        "", "/", "//", "a", "a/", "/a", "/a/", "/a/b", "/a//b/", "/a/./b", "./a", "a/..", "..",
        ".", "/..", "/a/.", "/w/x.log", "/w/.", "/w//", "a//b", "./", "/./a", "/a/b/..",
    ];
    for p in all {
        let std_parent = Path::new(p).parent().map(|d| d.to_string_lossy().to_string());
        assert_eq!(parent_of(Os::Linux, p), std_parent.unwrap_or_default(), "{p:?}");
        let std_name = Path::new(p)
            .file_name()
            .map(|n| n.to_string_lossy().to_string())
            .unwrap_or(p.to_string());
        assert_eq!(name_of(Os::Linux, p), std_name, "{p:?}");
        for q in all {
            assert_eq!(
                same_path(Os::Linux, p, q),
                Path::new(p) == Path::new(q),
                "{p:?} {q:?}"
            );
        }
    }
}

#[test]
fn windows_paths_have_drives_and_shares() {
    let p = parse_path(Os::Windows, "C:\\a/b\\");
    assert_eq!(p.prefix, "C:");
    assert!(p.rooted);
    assert_eq!(p.parts, owned(&["a", "b"]));
    let p = parse_path(Os::Windows, "\\\\server\\share\\logs");
    assert_eq!(p.prefix, "\\\\server\\share");
    assert!(p.rooted);
    assert_eq!(p.parts, owned(&["logs"]));
    let p = parse_path(Os::Windows, "C:logs");
    assert_eq!(p.prefix, "C:");
    assert!(!p.rooted);
    assert_eq!(parent_of(Os::Windows, "C:\\logs\\a.log"), "C:\\logs");
    assert_eq!(name_of(Os::Windows, "C:\\logs\\a.log"), "a.log");
}

#[test]
fn a_found_encoding_names_its_codec() {
    let le = [b'a', 0, b'b', 0, b'c', 0, b'd', 0];
    let be = [0, b'a', 0, b'b', 0, b'c', 0, b'd'];
    assert_eq!(detect(b"plain", 5).codec(), "UTF-8");
    assert_eq!(detect(&le, 8).codec(), "UTF-16LE");
    assert_eq!(detect(&be, 8).codec(), "UTF-16BE");
    assert_eq!(detect(&[0xFF, 0xFE, b'a', 0], 4).codec(), "UTF-16LE");
    assert_eq!(detect(&[0xFE, 0xFF, 0, b'a'], 4).codec(), "UTF-16BE");
    assert_eq!(detect(&[0xEF, 0xBB, 0xBF, b'a'], 4).codec(), "UTF-8");
    assert_eq!(detect(&[], 0).codec(), "UTF-8");
}
