use dirwatch::visible::{scroll_to_row, visible_slice, SliceInput, VisibleSlice, PX, TAIL_LINE_H};

const LH: i64 = 18 * PX;

fn input(scroll_y: i64, total: usize) -> SliceInput {
    SliceInput {
        scroll_y,
        viewport_h: 360 * PX,
        line_h: LH,
        total_lines: total,
        overscan: 0,
    }
}

fn assert_height_invariant(s: VisibleSlice, total: usize, line_h: i64) {
    let rendered = (s.last - s.first) as u128 * line_h as u128;
    let sum = s.top_pad + rendered + s.bottom_pad;
    let content = total as u128 * line_h as u128;
    assert_eq!(sum, content, "height invariant broken (slice {s:?})");
}

#[test]
fn empty_file_renders_nothing() {
    let s = visible_slice(input(0, 0));
    assert_eq!(
        s,
        VisibleSlice {
            first: 0,
            last: 0,
            top_pad: 0,
            bottom_pad: 0
        }
    );
}

#[test]
fn zero_line_height_is_safe() {
    let mut i = input(0, 100);
    i.line_h = 0;
    let s = visible_slice(i);
    assert_eq!(s.first, 0);
    assert_eq!(s.last, 0);
}

#[test]
fn top_of_a_large_file_renders_only_the_first_screen() {
    let s = visible_slice(input(0, 100_000));
    assert_eq!(s.first, 0);
    assert_eq!(s.last, 20);
    assert_eq!(s.top_pad, 0);
    assert_eq!(s.bottom_pad, (100_000 - 20) * LH as u128);
    assert_height_invariant(s, 100_000, LH);
}

#[test]
fn scrolled_into_the_middle_renders_only_that_band() {
    let s = visible_slice(input(1000 * LH, 100_000));
    assert_eq!(s.first, 1000);
    assert_eq!(s.last, 1020);
    assert_eq!(s.top_pad, 1000 * LH as u128);
    assert_eq!(s.bottom_pad, (100_000 - 1020) * LH as u128);
    assert_height_invariant(s, 100_000, LH);
}

#[test]
fn rendered_line_count_is_bounded_by_viewport_not_file_size() {
    let big = visible_slice(input(500 * LH, 1_000_000));
    let rendered = big.last - big.first;
    assert!(
        rendered <= 22,
        "rendered {rendered} lines - should be ~viewport (20) + overscan (0), not file-sized"
    );
}

#[test]
fn overscan_widens_the_band_and_clamps_at_the_top() {
    let mut i = input(0, 100_000);
    i.overscan = 20;
    let s = visible_slice(i);
    assert_eq!(s.first, 0);
    assert_eq!(s.last, 40);
    assert_eq!(s.top_pad, 0);
    assert_height_invariant(s, 100_000, LH);
}

#[test]
fn overscan_widens_both_sides_in_the_middle() {
    let mut i = input(1000 * LH, 100_000);
    i.overscan = 20;
    let s = visible_slice(i);
    assert_eq!(s.first, 1000 - 20);
    assert_eq!(s.last, 1020 + 20);
    assert_height_invariant(s, 100_000, LH);
}

#[test]
fn bottom_of_file_clamps_last_to_total() {
    let s = visible_slice(input(10_000 * PX, 50));
    assert_eq!(s.last, 50);
    assert_eq!(s.bottom_pad, 0);
    assert_height_invariant(s, 50, LH);
}

#[test]
fn file_shorter_than_viewport_renders_all_lines() {
    let s = visible_slice(input(0, 5));
    assert_eq!(s.first, 0);
    assert_eq!(s.last, 5);
    assert_eq!(s.top_pad, 0);
    assert_eq!(s.bottom_pad, 0);
    assert_height_invariant(s, 5, LH);
}

#[test]
fn negative_scroll_is_clamped_to_zero() {
    let s = visible_slice(input(-500 * PX, 100_000));
    assert_eq!(s.first, 0);
    assert_eq!(s.top_pad, 0);
}

#[test]
fn a_row_of_which_only_a_part_is_in_view_is_drawn() {
    let s = visible_slice(input(1000 * LH + 1, 100_000));
    assert_eq!((s.first, s.last), (1000, 1021));
    let s = visible_slice(input(1000 * LH - 1, 100_000));
    assert_eq!((s.first, s.last), (999, 1020));
}

#[test]
fn the_largest_numbers_are_safe() {
    let i = SliceInput {
        scroll_y: i64::MAX,
        viewport_h: i64::MIN,
        line_h: i64::MAX,
        total_lines: usize::MAX,
        overscan: usize::MAX,
    };
    let s = visible_slice(i);
    assert_eq!(s.last, usize::MAX);
    assert_height_invariant(s, usize::MAX, i64::MAX);
}

#[test]
fn a_row_at_the_top_tells_how_far_the_text_is_scrolled() {
    assert_eq!(scroll_to_row(0), 0);
    assert_eq!(scroll_to_row(7), 7 * TAIL_LINE_H);
    assert_eq!(scroll_to_row(usize::MAX), i64::MAX);
}
