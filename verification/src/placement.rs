//! Where a window with a tail opens: beside the main window, each a step further than the last, and
//! on the same screen.
//!
//! Lengths are whole numbers of parts of a pixel.

use vstd::prelude::*;

use crate::visible::PX;

verus! {

/// The size of the main window.
pub const MAIN_W: i64 = 880 * PX;

/// The height of the main window.
pub const MAIN_H: i64 = 600 * PX;

/// The width of a window with a tail.
pub const TAIL_W: i64 = 520 * PX;

/// The height of a window with a tail.
pub const TAIL_H: i64 = 420 * PX;

/// The width of a screen of which nothing is known.
pub const ASSUMED_SCREEN_W: i64 = 1920 * PX;

/// The height of a screen of which nothing is known.
pub const ASSUMED_SCREEN_H: i64 = 1040 * PX;

/// How much further right and down the next window opens.
pub const CASCADE_STEP: i64 = 30 * PX;

/// So many windows open one further than the other before the row begins again.
pub const CASCADE_WRAP: usize = 12;

/// A place on the screen.
#[derive(Debug, Clone, Copy, PartialEq, Eq, Structural)]
pub struct Rect {
    /// Its left edge.
    pub x: i64,
    /// Its upper edge.
    pub y: i64,
    /// Its width.
    pub w: i64,
    /// Its height.
    pub h: i64,
}

/// What the place of a window depends on.
#[derive(Debug, Clone, Copy, PartialEq, Eq, Structural)]
pub struct PlaceInput {
    /// The screen.
    pub screen: Rect,
    /// The width of the window.
    pub win_w: i64,
    /// Its height.
    pub win_h: i64,
    /// The main window.
    pub main: Rect,
    /// How many windows with tails there are.
    pub open_index: usize,
}

// ---------------------------------------------------------------------------------------------
// Model
// ---------------------------------------------------------------------------------------------

/// The room to the right of the main window.
pub open spec fn room_right(i: PlaceInput) -> int {
    i.screen.x + i.screen.w - (i.main.x + i.main.w)
}

/// The room to the left of the main window.
pub open spec fn room_left(i: PlaceInput) -> int {
    i.main.x - i.screen.x
}

/// Where the first window opens: to the right of the main window, to the left where there is no
/// room, and in the corner of the screen where there is none either.
pub open spec fn anchor_at(i: PlaceInput) -> (int, int) {
    if room_right(i) >= i.win_w {
        (i.main.x + i.main.w + 8 * PX, i.main.y as int)
    } else if room_left(i) >= i.win_w {
        (i.main.x - i.win_w - 8 * PX, i.main.y as int)
    } else {
        (i.screen.x + 20 * PX, i.screen.y + 20 * PX)
    }
}

/// A place for something of the length `len` between `start` and `start + room`, as near to `at` as
/// can be. Where it does not fit it begins at the start.
pub open spec fn fitted(at: int, start: int, room: int, len: int) -> int {
    if at < start || room < len {
        start
    } else if at > start + room - len {
        start + room - len
    } else {
        at
    }
}

/// How far a window opens from the first.
pub open spec fn cascade(open_index: int) -> int {
    CASCADE_STEP * (open_index % (CASCADE_WRAP as int))
}

/// Where a window opens.
pub open spec fn spot(i: PlaceInput) -> (int, int) {
    let (x, y) = anchor_at(i);
    let step = cascade(i.open_index as int);
    (
        fitted(x + step, i.screen.x as int, i.screen.w as int, i.win_w as int),
        fitted(y + step, i.screen.y as int, i.screen.h as int, i.win_h as int),
    )
}

/// Whether what was told of the screen makes sense: the main window fits on it.
pub open spec fn is_usable(screen: Option<(i64, i64)>) -> bool {
    screen matches Some((w, h)) && w > MAIN_W && h > 0
}

/// What the place of a tail depends on, as far as it is known. Where nothing sensible is known of
/// the screen, it is taken to begin at the main window, so that the tail opens beside it.
pub open spec fn known_place(
    screen: Option<(i64, i64)>,
    main: Option<Rect>,
    open_index: usize,
) -> PlaceInput {
    let (w, h) = if is_usable(screen) {
        screen->0
    } else {
        (ASSUMED_SCREEN_W, ASSUMED_SCREEN_H)
    };
    PlaceInput {
        screen: match main {
            Some(m) if !is_usable(screen) => Rect { x: m.x, y: m.y, w, h },
            _ => Rect { x: 0, y: 0, w, h },
        },
        win_w: TAIL_W,
        win_h: TAIL_H,
        main: match main {
            Some(m) => m,
            None => Rect {
                x: ((w - MAIN_W) / 2) as i64,
                y: ((h - MAIN_H) / 2) as i64,
                w: MAIN_W,
                h: MAIN_H,
            },
        },
        open_index,
    }
}

// ---------------------------------------------------------------------------------------------
// Functions
// ---------------------------------------------------------------------------------------------

/// A place for something between two ends, as near to `at` as can be.
fn fit(at: i128, start: i64, room: i64, len: i64) -> (r: i128)
    ensures
        r == fitted(at as int, start as int, room as int, len as int),
{
    let first: i128 = start as i128;
    let last: i128 = first + room as i128 - len as i128;
    if at < first || last < first {
        first
    } else if at > last {
        last
    } else {
        at
    }
}

/// Where a window opens.
pub fn next_position(input: PlaceInput) -> (r: (i128, i128))
    ensures
        (r.0 as int, r.1 as int) == spot(input),
{
    let (x, y) = anchor(&input);
    let nth: usize = input.open_index % CASCADE_WRAP;
    assert(0 <= CASCADE_STEP * nth <= 30 * 1024 * 11) by (nonlinear_arith)
        requires
            CASCADE_STEP == 30 * 1024,
            0 <= nth <= 11,
    ;
    let step: i128 = CASCADE_STEP as i128 * nth as i128;
    (
        fit(x + step, input.screen.x, input.screen.w, input.win_w),
        fit(y + step, input.screen.y, input.screen.h, input.win_h),
    )
}

/// Where the first window opens.
fn anchor(input: &PlaceInput) -> (r: (i128, i128))
    ensures
        (r.0 as int, r.1 as int) == anchor_at(*input),
        -0x4_0000_0000_0000_0000 <= r.0 <= 0x4_0000_0000_0000_0000,
        -0x4_0000_0000_0000_0000 <= r.1 <= 0x4_0000_0000_0000_0000,
{
    let edge: i128 = input.main.x as i128 + input.main.w as i128;
    let right: i128 = input.screen.x as i128 + input.screen.w as i128 - edge;
    let left: i128 = input.main.x as i128 - input.screen.x as i128;
    if right >= input.win_w as i128 {
        (edge + 8 * PX as i128, input.main.y as i128)
    } else if left >= input.win_w as i128 {
        (input.main.x as i128 - input.win_w as i128 - 8 * PX as i128, input.main.y as i128)
    } else {
        (input.screen.x as i128 + 20 * PX as i128, input.screen.y as i128 + 20 * PX as i128)
    }
}

/// Half of what is left of a length, rounded down.
fn half_of(whole: i64, part: i64) -> (r: i64)
    requires
        part >= 0,
        whole >= i64::MIN + part,
    ensures
        r == (whole - part) / 2,
{
    let d: i64 = whole - part;
    if d >= 0 {
        (d as u64 / 2) as i64
    } else {
        let up: u64 = (-(d as i128)) as u64;
        let h: u64 = up / 2 + up % 2;
        (-(h as i128)) as i64
    }
}

/// Where the next tail opens, from what is known of the screen and the main window.
pub fn tail_position(
    screen_est: Option<(i64, i64)>,
    main_rect: Option<Rect>,
    open_index: usize,
) -> (r: (i128, i128))
    ensures
        (r.0 as int, r.1 as int) == spot(known_place(screen_est, main_rect, open_index)),
{
    let (w, h, usable) = match screen_est {
        Some((w, h)) => if w > MAIN_W && h > 0 {
            (w, h, true)
        } else {
            (ASSUMED_SCREEN_W, ASSUMED_SCREEN_H, false)
        },
        None => (ASSUMED_SCREEN_W, ASSUMED_SCREEN_H, false),
    };
    let (main, x, y) = match main_rect {
        Some(m) => if usable {
            (m, 0, 0)
        } else {
            (m, m.x, m.y)
        },
        None => (
            Rect { x: half_of(w, MAIN_W), y: half_of(h, MAIN_H), w: MAIN_W, h: MAIN_H },
            0,
            0,
        ),
    };
    next_position(
        PlaceInput {
            screen: Rect { x, y, w, h },
            win_w: TAIL_W,
            win_h: TAIL_H,
            main,
            open_index,
        },
    )
}

// ---------------------------------------------------------------------------------------------
// Laws
// ---------------------------------------------------------------------------------------------

/// A window that fits on the screen lies on it, however many there are.
pub proof fn windows_stay_on_the_screen(i: PlaceInput)
    requires
        i.win_w <= i.screen.w,
        i.win_h <= i.screen.h,
    ensures
        i.screen.x <= spot(i).0 <= i.screen.x + i.screen.w - i.win_w,
        i.screen.y <= spot(i).1 <= i.screen.y + i.screen.h - i.win_h,
{
}

/// The row of windows begins again after so many.
pub proof fn the_cascade_begins_again(i: PlaceInput, later: PlaceInput)
    requires
        later == (PlaceInput { open_index: later.open_index, ..i }),
        later.open_index == i.open_index + CASCADE_WRAP,
    ensures
        spot(later) == spot(i),
{
}

/// The first window stands to the right of the main window where there is room for it, else to its
/// left where there is, and so does not cover it.
pub proof fn the_first_window_is_beside_the_main_one(i: PlaceInput)
    requires
        i.open_index == 0,
        room_right(i) >= i.win_w || room_left(i) >= i.win_w,
    ensures
        room_right(i) >= i.win_w ==> spot(i).0 >= i.main.x + i.main.w,
        room_right(i) < i.win_w ==> spot(i).0 + i.win_w <= i.main.x,
{
}

/// Where a window opens: eight pixels to the right of the main window and level with it where there
/// is room for it, else eight pixels to its left where there is, else twenty pixels into the
/// screen; each window thirty pixels further right and down than the one before, the thirteenth
/// where the first is; and always as much on the screen as it can be.
pub proof fn a_window_opens_a_step_further(i: PlaceInput)
    ensures
        ({
            let right = i.screen.x + i.screen.w - (i.main.x + i.main.w) >= i.win_w;
            let left = i.main.x - i.screen.x >= i.win_w;
            let step = 30 * 1024 * (i.open_index as int % 12);
            let x = step + (if right {
                i.main.x + i.main.w + 8 * 1024
            } else if left {
                i.main.x - i.win_w - 8 * 1024
            } else {
                i.screen.x + 20 * 1024
            });
            let y = step + (if right || left {
                i.main.y as int
            } else {
                i.screen.y + 20 * 1024
            });
            &&& i.screen.w >= i.win_w ==> spot(i).0 == (if x < i.screen.x {
                i.screen.x as int
            } else if x > i.screen.x + i.screen.w - i.win_w {
                i.screen.x + i.screen.w - i.win_w
            } else {
                x
            })
            &&& i.screen.h >= i.win_h ==> spot(i).1 == (if y < i.screen.y {
                i.screen.y as int
            } else if y > i.screen.y + i.screen.h - i.win_h {
                i.screen.y + i.screen.h - i.win_h
            } else {
                y
            })
            &&& i.screen.w < i.win_w ==> spot(i).0 == i.screen.x
            &&& i.screen.h < i.win_h ==> spot(i).1 == i.screen.y
        }),
{
}

/// What is known of the screen and the main window is used. A screen no wider than the main window
/// is not believed; one of 1920 by 1040 pixels is assumed in its place, which begins at the main
/// window where that is known. A main window that is not known is taken to be in the middle.
pub proof fn what_is_known_is_used(w: i64, h: i64, m: Rect, n: usize)
    ensures
        w > 901_120 && h > 0 ==> known_place(Some((w, h)), Some(m), n) == (PlaceInput {
            screen: Rect { x: 0, y: 0, w, h },
            win_w: 532_480,
            win_h: 430_080,
            main: m,
            open_index: n,
        }),
        w <= 901_120 || h <= 0 ==> known_place(Some((w, h)), Some(m), n) == known_place(
            None,
            Some(m),
            n,
        ) && known_place(Some((w, h)), None, n) == known_place(None, None, n),
        known_place(None, Some(m), n) == (PlaceInput {
            screen: Rect { x: m.x, y: m.y, w: 1_966_080, h: 1_064_960 },
            win_w: 532_480,
            win_h: 430_080,
            main: m,
            open_index: n,
        }),
        known_place(None, None, n) == (PlaceInput {
            screen: Rect { x: 0, y: 0, w: 1_966_080, h: 1_064_960 },
            win_w: 532_480,
            win_h: 430_080,
            main: Rect { x: 532_480, y: 225_280, w: 901_120, h: 614_400 },
            open_index: n,
        }),
        w > 901_120 && h > 0 ==> known_place(Some((w, h)), None, n) == (PlaceInput {
            screen: Rect { x: 0, y: 0, w, h },
            win_w: 532_480,
            win_h: 430_080,
            main: Rect {
                x: ((w - 901_120) / 2) as i64,
                y: ((h - 614_400) / 2) as i64,
                w: 901_120,
                h: 614_400,
            },
            open_index: n,
        }),
{
}

} // verus!
