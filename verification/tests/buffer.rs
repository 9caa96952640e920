use dirwatch::buffer::{first_special, normalize_line_endings, TailBuf, CR_PLACEHOLDER};

#[test]
fn append_builds_line_index_incrementally() {
    let mut tw = TailBuf::new();
    tw.append_text("alpha\nbeta\n");
    assert_eq!(tw.line_starts, vec![0, 6, 11]);
    assert_eq!(tw.line_count(), 2);

    tw.append_text("gamma\n");
    assert_eq!(tw.line_starts, vec![0, 6, 11, 17]);
    assert_eq!(tw.line_count(), 3);
}

#[test]
fn line_count_handles_no_trailing_newline() {
    let mut tw = TailBuf::new();
    tw.append_text("a\nb\nc");
    assert_eq!(tw.line_starts, vec![0, 2, 4]);
    assert_eq!(tw.line_count(), 3);
}

fn norm(s: &str) -> String {
    let mut out = String::new();
    let pc = normalize_line_endings(s, false, &mut out);
    if pc {
        out.push(CR_PLACEHOLDER);
    }
    out
}

#[test]
fn normalize_crlf_becomes_lf_only() {
    assert_eq!(norm("a\r\nb\r\nc"), "a\nb\nc");
    assert_eq!(norm("é\r\nb\r\nc"), "é\nb\nc");
    assert_eq!(norm("a\r\nb\u{fffd}\r\nc"), "a\nb\u{fffd}\nc");
}

#[test]
fn normalize_lone_cr_becomes_a_single_visible_cell_not_a_break() {
    let o = norm("x\rprogress\ry");
    assert!(!o.contains('\n'));
    assert!(!o.contains('\r'));
    assert_eq!(o, format!("x{CR}progress{CR}y", CR = CR_PLACEHOLDER));
}

#[test]
fn normalize_neutralises_other_paragraph_separators_and_c0_controls() {
    for sep in [
        "\u{85}", "\u{2028}", "\u{2029}", "\u{1c}", "\u{1d}", "\u{1e}", "\u{7}",
    ] {
        let o = norm(&format!("a{sep}b"));
        assert!(!o.contains('\n'), "sep {sep:?} leaked a newline");
        assert!(!o.contains('\r'), "sep {sep:?} leaked a CR");
        assert_eq!(o, "a\u{fffd}b", "sep {sep:?} not neutralised");
    }
    assert_eq!(norm("a\tb"), "a\tb");
}

#[test]
fn append_crlf_indexes_one_line_per_logical_line() {
    let mut tw = TailBuf::new();
    tw.append_text("é\r\nb\r\n");
    assert_eq!(tw.text, "é\nb\n");
    assert_eq!(tw.line_count(), 2, "CRLF must be one row per line, not two");
}

#[test]
fn append_handles_a_crlf_split_across_two_chunks() {
    let mut tw = TailBuf::new();
    tw.append_text("é\r");
    tw.append_text("\nb\r\n");
    assert_eq!(tw.text, "é\nb\n");
    assert_eq!(tw.line_count(), 2);
}

#[test]
fn scrollback_cap_drops_oldest_lines_and_rebuilds_the_index() {
    let mut tw = TailBuf::new();
    for i in 0..10 {
        tw.append_text(&format!("line{i:02}\n"));
    }
    assert_eq!(tw.text.len(), 70);
    let before_lines = tw.line_count();

    let trimmed = tw.cap_scrollback_to(40, 20);
    assert!(trimmed, "over-cap buffer must trim");

    assert!(
        tw.text.starts_with("--- earlier "),
        "trimmed buffer must start with the dropped-lines marker, got: {:?}",
        &tw.text[..tw.text.len().min(30)]
    );
    assert!(tw.text.contains("dropped ---\n"));
    assert!(tw.text.contains("line09\n"), "newest line must be kept");
    assert!(!tw.text.contains("line00\n"), "oldest line must be dropped");
    let tail_bytes = tw.text.len() - (tw.text.find('\n').unwrap() + 1);
    assert!(
        tail_bytes <= 20,
        "kept tail {tail_bytes} must be <= trim_to"
    );

    assert_eq!(tw.line_starts[0], 0);
    let independent: Vec<usize> = std::iter::once(0)
        .chain(
            tw.text
                .bytes()
                .enumerate()
                .filter(|&(_, b)| b == b'\n')
                .map(|(i, _)| i + 1),
        )
        .collect();
    assert_eq!(tw.line_starts, independent, "index must match a fresh scan");
    assert!(tw.line_count() < before_lines);
}

#[test]
fn scrollback_cap_is_a_noop_under_the_cap() {
    let mut tw = TailBuf::new();
    tw.append_text("small\npayload\n");
    let saved = tw.text.clone();
    let saved_idx = tw.line_starts.clone();
    assert!(!tw.cap_scrollback_to(1024, 512));
    assert_eq!(tw.text, saved);
    assert_eq!(tw.line_starts, saved_idx);
}

#[test]
fn append_across_a_line_boundary_stays_consistent() {
    let mut tw = TailBuf::new();
    tw.append_text("he");
    tw.append_text("llo\nwor");
    tw.append_text("ld\n");
    assert_eq!(tw.text, "hello\nworld\n");
    assert_eq!(tw.line_count(), 2);
    assert_eq!(tw.slice_text(0, 2), "hello\nworld");
}

#[test]
fn slice_text_returns_exactly_the_requested_lines() {
    let mut tw = TailBuf::new();
    tw.append_text("l0\nl1\nl2\nl3\nl4\n");
    assert_eq!(tw.line_count(), 5);
    assert_eq!(tw.slice_text(1, 4), "l1\nl2\nl3");
    assert_eq!(tw.slice_text(0, 2), "l0\nl1");
    assert_eq!(tw.slice_text(3, 5), "l3\nl4");
}

#[test]
fn slice_text_keeps_every_blank_line_in_the_band() {
    let mut tw = TailBuf::new();
    tw.append_text("l0\nl1\n\n\n\nl5\nl6\n");
    assert_eq!(tw.line_count(), 7);
    for first in 0..7 {
        for last in (first + 1)..=7 {
            let s = tw.slice_text(first, last);
            assert_eq!(
                s.split('\n').count(),
                last - first,
                "slice [{first},{last}) = {s:?}"
            );
        }
    }
    assert_eq!(tw.slice_text(0, 5), "l0\nl1\n\n\n");
    assert_eq!(tw.slice_text(2, 5), "\n\n");
}

#[test]
fn slice_text_empty_and_out_of_range_are_safe() {
    let mut tw = TailBuf::new();
    tw.append_text("only\n");
    assert_eq!(tw.slice_text(0, 0), "");
    assert_eq!(tw.slice_text(5, 9), "");
}

#[test]
fn empty_buffer_has_zero_lines() {
    let tw = TailBuf::new();
    assert_eq!(tw.line_count(), 0);
    assert_eq!(tw.slice_text(0, 1), "");
}

#[test]
fn line_of_maps_byte_offset_to_its_line() {
    let mut tw = TailBuf::new();
    tw.append_text("l0\nl1\nl2\n");
    assert_eq!(tw.line_of(0), 0);
    assert_eq!(tw.line_of(1), 0);
    assert_eq!(tw.line_of(3), 1);
    assert_eq!(tw.line_of(5), 1);
    assert_eq!(tw.line_of(6), 2);
}

#[test]
fn scrollback_cap_bounds_a_single_over_cap_line_by_bytes() {
    let mut tw = TailBuf::new();
    tw.append_text(&format!("{}\n", "x".repeat(100)));
    assert!(
        tw.cap_scrollback_to(40, 20),
        "over the cap: byte-trimmed"
    );
    assert!(
        tw.text.starts_with("--- earlier 81 bytes dropped ---\n"),
        "{:?}",
        tw.text
    );
    assert!(tw.text.ends_with(&format!("{}\n", "x".repeat(19))));
    assert_eq!(tw.line_count(), 2, "marker row + the (cut) line");
    assert_eq!(tw.line_starts[0], 0);
    tw.append_text("yy\n");
    assert!(!tw.cap_scrollback_to(60, 20));
    let mut tw = TailBuf::new();
    tw.append_text(&"é".repeat(50));
    assert!(tw.cap_scrollback_to(40, 21));
    assert!(tw.text.ends_with(&"é".repeat(10)), "{:?}", tw.text);
    assert!(std::str::from_utf8(tw.text.as_bytes()).is_ok());
}

#[test]
fn scrollback_cap_finishes_the_byte_bound_in_the_same_call_after_a_line_cut() {
    let mut tw = TailBuf::new();
    tw.append_text("--- earlier 12345 bytes skipped ---\n");
    tw.append_text(&"g".repeat(200));
    assert!(tw.cap_scrollback_to(40, 20));
    assert!(
        tw.text.len() <= 40 + 48,
        "bounded in one call: {} bytes",
        tw.text.len()
    );
    assert!(
        tw.text
            .starts_with("--- earlier 1 lines and 180 bytes dropped ---\n"),
        "{:?}",
        &tw.text[..48]
    );
    assert!(tw.text.ends_with(&"g".repeat(20)));
}

#[test]
fn scrollback_cap_does_not_rethrash_on_an_unterminated_giant_last_line() {
    let mut tw = TailBuf::new();
    for i in 0..3 {
        tw.append_text(&format!("l{i}\n"));
    }
    tw.append_text(&"g".repeat(60));
    assert!(
        tw.cap_scrollback_to(40, 20),
        "first trim drops the three real lines AND cuts the giant line to the target"
    );
    assert!(
        tw.text
            .starts_with("--- earlier 3 lines and 40 bytes dropped ---\n"),
        "{:?}",
        tw.text
    );
    assert!(tw.text.ends_with(&"g".repeat(20)));
    assert!(!tw.cap_scrollback_to(100, 20));
    for _ in 0..5 {
        tw.append_text("gg");
        assert!(
            !tw.cap_scrollback_to(100, 20),
            "under the cap: no re-trim, no buffer copy"
        );
    }
    tw.append_text("\nm1\nm2\n");
    assert!(tw.cap_scrollback_to(40, 20));
    assert!(
        tw.text
            .starts_with("--- earlier 4 lines and 40 bytes dropped ---\n")
            || tw
                .text
                .starts_with("--- earlier 5 lines and 40 bytes dropped ---\n"),
        "running totals continue: {:?}",
        &tw.text[..48]
    );
    assert_eq!(tw.line_starts[0], 0);
}

#[test]
fn normaliser_fast_and_slow_paths_agree() {
    let cases = [
        "plain ascii\nlines\n",
        "café — smart ‘quotes’ … done\n",
        "a\r\nb\r\n",
        "lone\rcr\r",
        "nel\u{85}here\u{2028}and\u{2029}there\u{1c}\u{1d}\u{1e}\n",
        "\x00\x01\x07\x08\x0b\x0c\x1b[31mred\x1b[0m\x7f\n",
        "tab\tkept\n",
        "\u{FEFF}bom mid\n",
        "emoji 👨‍👩‍👧‍👦 ok\n",
        "\r",
        "x\u{2027}y\u{2030}z",
        "\u{E2}\u{80}",
    ];
    for c in cases {
        let mut fast = String::new();
        let pf = normalize_line_endings(c, false, &mut fast);
        let mut slow = String::new();
        let ps = normalize_line_endings(c, true, &mut slow);
        let slow = slow
            .strip_prefix(CR_PLACEHOLDER)
            .map(str::to_string)
            .unwrap_or(slow);
        assert_eq!(fast, slow, "fast vs slow differ for {c:?}");
        assert_eq!(pf, ps, "pending-CR result differs for {c:?}");
    }
    let mut e = String::new();
    assert!(!normalize_line_endings("", false, &mut e));
    assert!(normalize_line_endings("", true, &mut e));
    assert!(e.is_empty());
    assert_eq!(first_special("plain\nlines\twith\ttabs\n"), None);
    assert_eq!(first_special("café\n"), None);
    assert_eq!(first_special("a\r\n"), Some(1));
    assert_eq!(first_special("nel\u{85}"), Some(3));
    assert_eq!(first_special("x\u{2029}"), Some(1));
}

#[test]
fn scrollback_cap_stops_once_the_target_is_met() {
    let mut tw = TailBuf::new();
    for i in 0..10 {
        tw.append_text(&format!("line{i:02}\n"));
    }
    assert!(tw.cap_scrollback_to(40, 21));
    assert!(tw.text.ends_with("dropped ---\nline07\nline08\nline09\n"));
}

#[test]
fn as_many_line_feeds_stay_as_came() {
    for text in ["", "\n", "\r\n", "a\r\rb\n\nc\r\n", "\u{85}\n\u{2028}\r\n\x0b\r"] {
        let feeds = text.matches('\n').count();
        for cr in [false, true] {
            let mut out = String::new();
            normalize_line_endings(text, cr, &mut out);
            assert_eq!(out.matches('\n').count(), feeds, "{text:?}");
        }
    }
}
