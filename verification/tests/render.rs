use dirwatch::render::{clip_line, render_pieces, Piece};
use dirwatch::search::{find_matches, Match};

#[test]
fn clip_line_keeps_short_lines_and_cuts_long_ones_at_a_char_boundary() {
    assert_eq!(clip_line("short", 8192), ("short", 0));
    assert_eq!(clip_line("", 8192), ("", 0));
    let exact = "x".repeat(8192);
    assert_eq!(clip_line(&exact, 8192), (exact.as_str(), 0));
    let long = "y".repeat(10_000);
    let (kept, cut) = clip_line(&long, 8192);
    assert_eq!(kept.len(), 8192);
    assert_eq!(cut, 10_000 - 8192);
    let mut s = "a".repeat(7);
    s.push('\u{e9}');
    s.push_str(&"b".repeat(100));
    let (kept, cut) = clip_line(&s, 8);
    assert_eq!(kept, "aaaaaaa");
    assert_eq!(cut, s.len() - 7);
    assert!(s.is_char_boundary(kept.len()));
    let zeros = "\0".repeat(20_000);
    let (kept, cut) = clip_line(&zeros, 8192);
    assert_eq!((kept.len(), cut), (8192, 20_000 - 8192));
}
#[test]
fn render_pieces_bounds_every_line_and_keeps_the_row_count() {
    let long = "z".repeat(1_000_000);
    let pieces = render_pieces(&long, 0, &[], None, 8192);
    assert_eq!(
        pieces,
        vec![
            Piece::Plain("z".repeat(8192)),
            Piece::Clipped {
                bytes: 1_000_000 - 8192
            }
        ]
    );
    let mut text = String::new();
    for i in 0..20 {
        if i == 7 {
            text.push_str(&"L".repeat(9000));
        } else {
            text.push_str(&format!("line {i}"));
        }
        if i < 19 {
            text.push('\n');
        }
    }
    let pieces = render_pieces(&text, 0, &[], None, 8192);
    let rendered: String = pieces
        .iter()
        .map(|p| match p {
            Piece::Plain(t) | Piece::Hit { text: t, .. } => t.clone(),
            Piece::Clipped { .. } => String::new(),
        })
        .collect();
    assert_eq!(rendered.matches('\n').count(), 19, "row count preserved");
    assert_eq!(
        pieces
            .iter()
            .filter(|p| matches!(p, Piece::Clipped { .. }))
            .count(),
        1
    );
    assert!(rendered.contains("line 6\n") && rendered.contains("\nline 8"));
    assert_eq!(rendered.len(), text.len() - (9000 - 8192));
    assert_eq!(
        render_pieces("a\nb\nc", 0, &[], None, 8192),
        vec![Piece::Plain("a\nb\nc".to_string())]
    );
}
#[test]
fn render_pieces_highlights_hits_inside_the_rendered_part_only() {
    let visible = "xx err yy\n".to_string() + &"q".repeat(20) + "err" + &"q".repeat(20);
    let base = 100;
    let m = find_matches(&visible, "err")
        .into_iter()
        .map(|m| Match {
            start: m.start + base,
            end: m.end + base,
        })
        .collect::<Vec<_>>();
    assert_eq!(m.len(), 2);
    let pieces = render_pieces(&visible, base, &m, Some(m[0].start), 10);
    assert_eq!(
        pieces,
        vec![
            Piece::Plain("xx ".to_string()),
            Piece::Hit {
                text: "err".to_string(),
                current: true
            },
            Piece::Plain(" yy\n".to_string() + &"q".repeat(10)),
            Piece::Clipped { bytes: 33 },
        ]
    );
    let pieces = render_pieces(&visible, base, &m, Some(m[0].start), 8192);
    assert!(pieces.contains(&Piece::Hit {
        text: "err".to_string(),
        current: false
    }));
}

#[test]
fn render_pieces_skips_a_stale_mid_char_match_instead_of_panicking() {
    let visible = "aéb\n".to_string();
    let stale = vec![Match { start: 2, end: 3 }];
    let pieces = render_pieces(&visible, 0, &stale, Some(2), 8192);
    assert!(
        !pieces.iter().any(|p| matches!(p, Piece::Hit { .. })),
        "a stale mid-char match must be skipped, not highlighted: {pieces:?}"
    );
    let plain: String = pieces
        .iter()
        .filter_map(|p| match p {
            Piece::Plain(s) => Some(s.as_str()),
            _ => None,
        })
        .collect();
    assert_eq!(plain, "aéb\n");
}

#[test]
fn render_pieces_snaps_a_hit_end_off_a_char_boundary_back() {
    let visible = "aéb\n".to_string();
    let m = vec![Match { start: 0, end: 2 }];
    let pieces = render_pieces(&visible, 0, &m, Some(0), 8192);
    assert!(
        pieces.contains(&Piece::Hit {
            text: "a".to_string(),
            current: true
        }),
        "end snapped to a char boundary -> hit is 'a': {pieces:?}"
    );
}
