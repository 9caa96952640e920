//! Which rows of a long text are drawn, and whether its end is in view. Only the rows in view are
//! drawn, with some more on either side, so that a small scroll finds them drawn already; empty
//! space stands for the others.
//!
//! Lengths are whole numbers of parts of a pixel.

use vstd::prelude::*;

verus! {

/// One pixel.
pub const PX: i64 = 1024;

/// The height of a row of a tail.
pub const TAIL_LINE_H: i64 = 18 * PX;

/// The end counts as in view where it is so many rows away at most.
pub const FOLLOW_SLACK_LINES: i64 = 2;

/// What the rows in view depend on.
#[derive(Debug, Clone, Copy, PartialEq, Eq, Structural)]
pub struct SliceInput {
    /// How far the text was scrolled.
    pub scroll_y: i64,
    /// The height of the part in view.
    pub viewport_h: i64,
    /// The height of a row.
    pub line_h: i64,
    /// How many rows there are.
    pub total_lines: usize,
    /// How many rows more are drawn on either side.
    pub overscan: usize,
}

/// What is drawn.
#[derive(Debug, Clone, Copy, PartialEq, Eq, Structural)]
pub struct VisibleSlice {
    /// The first row that is drawn.
    pub first: usize,
    /// The row below the last one that is drawn.
    pub last: usize,
    /// The height of the rows above.
    pub top_pad: u128,
    /// The height of the rows below.
    pub bottom_pad: u128,
}

// ---------------------------------------------------------------------------------------------
// Model
// ---------------------------------------------------------------------------------------------

/// The greater of two numbers.
pub open spec fn greater(a: int, b: int) -> int {
    if a < b {
        b
    } else {
        a
    }
}

/// The lesser of two numbers.
pub open spec fn lesser(a: int, b: int) -> int {
    if a < b {
        a
    } else {
        b
    }
}

/// There are rows to draw.
pub open spec fn has_rows(i: SliceInput) -> bool {
    i.total_lines > 0 && i.line_h > 0
}

/// The height of all rows.
pub open spec fn content(i: SliceInput) -> int {
    i.total_lines * i.line_h
}

/// How far down the part in view begins. A text is scrolled neither above its beginning nor beyond
/// its end.
pub open spec fn top_of_view(i: SliceInput) -> int {
    lesser(greater(i.scroll_y as int, 0), greater(content(i) - i.viewport_h, 0))
}

/// How far down the part in view ends.
pub open spec fn end_of_view(i: SliceInput) -> int {
    top_of_view(i) + greater(i.viewport_h as int, 0)
}

/// The row below the last one that is drawn.
pub open spec fn last_row(i: SliceInput) -> int {
    lesser((end_of_view(i) + i.line_h - 1) / (i.line_h as int) + i.overscan, i.total_lines as int)
}

/// The first row that is drawn.
pub open spec fn first_row(i: SliceInput) -> int {
    lesser(greater(top_of_view(i) / (i.line_h as int) - i.overscan, 0), last_row(i))
}

/// How far the end is from the part in view.
pub open spec fn gap(y: int, viewport_h: int, content_h: int) -> int {
    greater(content_h - (y + viewport_h), 0)
}

/// Whether the end counts as in view.
pub open spec fn follows(y: int, viewport_h: int, content_h: int) -> bool {
    gap(y, viewport_h, content_h) <= FOLLOW_SLACK_LINES * TAIL_LINE_H
}

/// How far a tail is scrolled once a row stands at the top.
pub open spec fn offset_of(row: int) -> int {
    lesser(row * TAIL_LINE_H, i64::MAX as int)
}

// ---------------------------------------------------------------------------------------------
// Functions
// ---------------------------------------------------------------------------------------------

/// The height of so many rows.
fn height(rows: usize, line_h: i64) -> (r: u128)
    requires
        line_h > 0,
    ensures
        r == rows * line_h,
        r <= 0xffff_ffff_ffff_ffff * 0x7fff_ffff_ffff_ffff,
{
    let n: u64 = rows as u64;
    assert(0 <= n * line_h <= 0xffff_ffff_ffff_ffff * 0x7fff_ffff_ffff_ffff) by (nonlinear_arith)
        requires
            0 <= n <= 0xffff_ffff_ffff_ffff,
            0 < line_h <= 0x7fff_ffff_ffff_ffff,
    ;
    n as u128 * line_h as u128
}

/// What is drawn of a text. Nothing is where there are no rows or they have no height.
pub fn visible_slice(input: SliceInput) -> (r: VisibleSlice)
    ensures
        has_rows(input) ==> {
            &&& r.first == first_row(input)
            &&& r.last == last_row(input)
            &&& r.top_pad == r.first * input.line_h
            &&& r.bottom_pad == (input.total_lines - r.last) * input.line_h
        },
        !has_rows(input) ==> r == (VisibleSlice { first: 0, last: 0, top_pad: 0, bottom_pad: 0 }),
{
    if input.total_lines == 0 || input.line_h <= 0 {
        return VisibleSlice { first: 0, last: 0, top_pad: 0, bottom_pad: 0 };
    }
    let all = height(input.total_lines, input.line_h);
    let line_h: u128 = input.line_h as u128;
    let room: u128 = if input.viewport_h < 0 {
        0
    } else {
        input.viewport_h as u128
    };
    let furthest: i128 = all as i128 - input.viewport_h as i128;
    let wanted: i128 = if input.scroll_y < 0 {
        0
    } else {
        input.scroll_y as i128
    };
    let top: u128 = if furthest < 0 {
        0
    } else if wanted < furthest {
        wanted as u128
    } else {
        furthest as u128
    };
    assert(top == top_of_view(input));
    let end: u128 = top + room;
    let below: u128 = (end + line_h - 1) / line_h + input.overscan as u128;
    assert((end + line_h - 1) / line_h as int <= end + line_h - 1) by (nonlinear_arith)
        requires
            line_h >= 1,
            end >= 0,
    ;
    let last: usize = if below < input.total_lines as u128 {
        below as usize
    } else {
        input.total_lines
    };
    let row: u128 = top / line_h;
    let over: u128 = input.overscan as u128;
    let above: u128 = if row < over {
        0
    } else {
        row - over
    };
    let first: usize = if above < last as u128 {
        above as usize
    } else {
        last
    };
    VisibleSlice {
        first,
        last,
        top_pad: height(first, input.line_h),
        bottom_pad: height(input.total_lines - last, input.line_h),
    }
}

/// How far the end of a text is from the part in view.
pub fn follow_gap_px(abs_y: i64, viewport_h: i64, content_h: i64) -> (r: i128)
    ensures
        r == gap(abs_y as int, viewport_h as int, content_h as int),
{
    let left: i128 = content_h as i128 - (abs_y as i128 + viewport_h as i128);
    if left < 0 {
        0
    } else {
        left
    }
}

/// Whether the end of a tail counts as in view where it is so far away.
pub fn is_following(gap_px: i128) -> (r: bool)
    ensures
        r == (gap_px <= FOLLOW_SLACK_LINES * TAIL_LINE_H),
{
    gap_px <= (FOLLOW_SLACK_LINES * TAIL_LINE_H) as i128
}

/// How far a tail is scrolled once a row stands at the top.
pub fn scroll_to_row(row: usize) -> (r: i64)
    ensures
        r == offset_of(row as int),
{
    let far: u128 = height(row, TAIL_LINE_H);
    if far < i64::MAX as u128 {
        far as i64
    } else {
        i64::MAX
    }
}

// ---------------------------------------------------------------------------------------------
// Laws
// ---------------------------------------------------------------------------------------------

/// What is drawn and the space that stands for the rest are together as high as the whole text, so
/// that the scroll bar is that of the whole text.
pub proof fn heights_add_up(i: SliceInput)
    requires
        has_rows(i),
    ensures
        0 <= first_row(i) <= last_row(i) <= i.total_lines,
        first_row(i) * i.line_h + (last_row(i) - first_row(i)) * i.line_h + (i.total_lines
            - last_row(i)) * i.line_h == content(i),
{
    let (f, l, t, h) = (first_row(i), last_row(i), i.total_lines as int, i.line_h as int);
    lemma_view(i);
    assert(f * h + (l - f) * h + (t - l) * h == t * h) by (nonlinear_arith);
}

/// The part in view begins and ends at no negative height, and its rows are counted from there.
proof fn lemma_view(i: SliceInput)
    requires
        has_rows(i),
    ensures
        0 <= top_of_view(i) <= end_of_view(i),
        0 <= top_of_view(i) / (i.line_h as int),
        0 <= (end_of_view(i) + i.line_h - 1) / (i.line_h as int),
{
    let (top, end, h) = (top_of_view(i), end_of_view(i), i.line_h as int);
    assert(top / h >= 0) by (nonlinear_arith)
        requires
            top >= 0,
            h > 0,
    ;
    assert((end + h - 1) / h >= 0) by (nonlinear_arith)
        requires
            end >= 0,
            h > 0,
    ;
}

/// Every row of which some part is in view is drawn.
pub proof fn rows_in_view_are_drawn(i: SliceInput, row: int)
    requires
        has_rows(i),
        0 <= row < i.total_lines,
        top_of_view(i) < (row + 1) * i.line_h,
        row * i.line_h < end_of_view(i),
    ensures
        first_row(i) <= row < last_row(i),
{
    let (top, end, h) = (top_of_view(i), end_of_view(i), i.line_h as int);
    lemma_view(i);
    assert(top / h <= row) by (nonlinear_arith)
        requires
            0 <= top < (row + 1) * h,
            h > 0,
    ;
    assert(row < (end + h - 1) / h) by (nonlinear_arith)
        requires
            row * h < end,
            h > 0,
    ;
}

/// How many rows are drawn depends on the height of the part in view, not on the length of the
/// text.
pub proof fn a_long_text_costs_no_more(i: SliceInput)
    requires
        has_rows(i),
        i.viewport_h >= 0,
    ensures
        last_row(i) - first_row(i) <= i.viewport_h as int / (i.line_h as int) + 2 + 2 * i.overscan,
{
    let (top, v, h) = (top_of_view(i), i.viewport_h as int, i.line_h as int);
    lemma_view(i);
    assert((top + v + h - 1) / h <= top / h + v / h + 2) by (nonlinear_arith)
        requires
            top >= 0,
            v >= 0,
            h > 0,
    ;
}

/// Only the distance to the end counts, not which part of the text lies above it.
pub proof fn only_the_distance_to_the_end_counts(y: int, viewport_h: int, content_h: int, more: int)
    ensures
        follows(y + more, viewport_h, content_h + more) == follows(y, viewport_h, content_h),
{
}

/// Where the text is scrolled to a place that it has, every row of which some part lies in view is
/// drawn, and so many more on either side as are asked for, as far as there are any.
pub proof fn a_row_near_the_view_is_drawn(i: SliceInput, row: int, near: int)
    requires
        i.total_lines > 0,
        i.line_h > 0,
        i.viewport_h >= 0,
        0 <= i.scroll_y <= i.total_lines * i.line_h - i.viewport_h,
        0 <= row < i.total_lines,
        i.scroll_y < (row + 1) * i.line_h,
        row * i.line_h < i.scroll_y + i.viewport_h,
        row - i.overscan <= near <= row + i.overscan,
        0 <= near < i.total_lines,
    ensures
        first_row(i) <= near < last_row(i),
{
    rows_in_view_are_drawn(i, row);
    let (top, end, h) = (top_of_view(i), end_of_view(i), i.line_h as int);
    lemma_view(i);
    assert(top / h <= row) by (nonlinear_arith)
        requires
            0 <= top < (row + 1) * h,
            h > 0,
    ;
    assert(row < (end + h - 1) / h) by (nonlinear_arith)
        requires
            row * h < end,
            h > 0,
    ;
}

/// No row is drawn that lies further from the view than that.
pub proof fn a_row_far_from_the_view_is_not_drawn(i: SliceInput, row: int)
    requires
        i.total_lines > 0,
        i.line_h > 0,
        i.viewport_h >= 0,
        0 <= i.scroll_y <= i.total_lines * i.line_h - i.viewport_h,
        0 <= row < i.total_lines,
        (row + i.overscan + 1) * i.line_h <= i.scroll_y || (row - i.overscan) * i.line_h
            >= i.scroll_y + i.viewport_h,
    ensures
        !(first_row(i) <= row < last_row(i)),
{
    let (top, end, h, o) = (top_of_view(i), end_of_view(i), i.line_h as int, i.overscan as int);
    lemma_view(i);
    if (row + o + 1) * h <= top {
        assert(row + o + 1 <= top / h) by (nonlinear_arith)
            requires
                (row + o + 1) * h <= top,
                h > 0,
                row + o >= 0,
        ;
        assert(first_row(i) > row || first_row(i) == last_row(i));
    } else {
        assert((end + h - 1) / h <= row - o) by (nonlinear_arith)
            requires
                end <= (row - o) * h,
                end >= 0,
                h > 0,
        ;
    }
}

/// A text that is scrolled above its beginning shows its beginning, and one that is scrolled beyond
/// its end shows its end.
pub proof fn a_scroll_beyond_the_text_shows_its_end(i: SliceInput, end: i64)
    requires
        i.total_lines > 0,
        i.line_h > 0,
    ensures
        i.scroll_y < 0 ==> first_row(i) == first_row(SliceInput { scroll_y: 0, ..i })
            && last_row(i) == last_row(SliceInput { scroll_y: 0, ..i }),
        0 <= end == i.total_lines * i.line_h - i.viewport_h && i.scroll_y > end ==> first_row(i)
            == first_row(SliceInput { scroll_y: end, ..i }) && last_row(i) == last_row(
            SliceInput { scroll_y: end, ..i },
        ),
        i.viewport_h >= i.total_lines * i.line_h ==> first_row(i) == 0 && last_row(i)
            == i.total_lines,
{
    if i.viewport_h >= i.total_lines * i.line_h {
        let (end, h, n) = (end_of_view(i), i.line_h as int, i.total_lines as int);
        assert(top_of_view(i) == 0);
        assert(0int / h == 0) by (nonlinear_arith)
            requires
                h > 0,
        ;
        assert((end + h - 1) / h >= n) by (nonlinear_arith)
            requires
                end >= n * h,
                h > 0,
        ;
    }
}

/// The end counts as in view while it is no more than two rows below the part in view.
pub proof fn the_end_is_followed_from_two_rows_on(y: int, viewport_h: int, content_h: int)
    ensures
        follows(y, viewport_h, content_h) == (content_h - (y + viewport_h) <= 2 * 18 * 1024),
{
}

/// A row stands at the top once all rows above it are scrolled away.
pub proof fn a_row_at_the_top_has_all_others_above(row: int)
    requires
        0 <= row,
    ensures
        row * (18 * 1024) <= i64::MAX ==> offset_of(row) == row * (18 * 1024),
        row * (18 * 1024) > i64::MAX ==> offset_of(row) == i64::MAX,
{
}

} // verus!
