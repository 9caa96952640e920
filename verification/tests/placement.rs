use dirwatch::placement::{
    next_position, tail_position, PlaceInput, Rect, CASCADE_STEP, CASCADE_WRAP, MAIN_H, MAIN_W,
};
use dirwatch::visible::PX;

fn px(n: f32) -> i64 {
    (n * PX as f32) as i64
}

fn rect(x: f32, y: f32, w: f32, h: f32) -> Rect {
    Rect {
        x: px(x),
        y: px(y),
        w: px(w),
        h: px(h),
    }
}

fn at(x: f32, y: f32) -> (i128, i128) {
    (px(x) as i128, px(y) as i128)
}

fn screen() -> Rect {
    rect(0.0, 0.0, 1920.0, 1080.0)
}

fn main_left() -> Rect {
    rect(40.0, 40.0, 880.0, 600.0)
}

fn base() -> PlaceInput {
    PlaceInput {
        screen: screen(),
        win_w: px(500.0),
        win_h: px(400.0),
        main: main_left(),
        open_index: 0,
    }
}

#[test]
fn first_window_opens_to_the_right_when_there_is_room() {
    assert_eq!(next_position(base()), at(928.0, 40.0));
}

#[test]
fn first_window_opens_left_when_no_room_right() {
    let main = rect(1400.0, 50.0, 480.0, 600.0);
    let p = next_position(PlaceInput { main, ..base() });
    assert_eq!(p, at(892.0, 50.0));
}

#[test]
fn first_window_opens_in_the_corner_when_there_is_no_room_at_all() {
    let main = rect(100.0, 50.0, 1700.0, 600.0);
    let p = next_position(PlaceInput { main, ..base() });
    assert_eq!(p, at(20.0, 20.0));
}

#[test]
fn cascade_offsets_each_subsequent_window() {
    let p0 = next_position(base());
    let p1 = next_position(PlaceInput {
        open_index: 1,
        ..base()
    });
    let p2 = next_position(PlaceInput {
        open_index: 2,
        ..base()
    });
    assert_eq!(p1.0 - p0.0, CASCADE_STEP as i128);
    assert_eq!(p1.1 - p0.1, CASCADE_STEP as i128);
    assert_eq!(p2.0 - p0.0, 2 * CASCADE_STEP as i128);
}

#[test]
fn cascade_wraps_so_windows_do_not_march_off_screen() {
    let p0 = next_position(base());
    let pw = next_position(PlaceInput {
        open_index: CASCADE_WRAP,
        ..base()
    });
    assert_eq!(p0, pw);
}

#[test]
fn windows_stay_within_the_screen() {
    let p = next_position(PlaceInput {
        open_index: 9999,
        ..base()
    });
    assert!(p.0 >= 0 && p.0 <= at(1920.0 - 500.0, 0.0).0);
    assert!(p.1 >= 0 && p.1 <= at(1080.0 - 400.0, 0.0).0);
}

#[test]
fn a_window_larger_than_the_screen_begins_at_its_edge() {
    let p = next_position(PlaceInput {
        win_w: px(5000.0),
        win_h: px(5000.0),
        ..base()
    });
    assert_eq!(p, (0, 0));
}

#[test]
fn tail_position_uses_a_usable_screen_estimate() {
    let main = Rect {
        x: px(40.0),
        y: px(40.0),
        w: MAIN_W,
        h: MAIN_H,
    };
    let (x, y) = tail_position(Some((px(1920.0), px(1040.0))), Some(main), 0);
    assert_eq!((x, y), at(40.0 + 880.0 + 8.0, 40.0));
}

#[test]
fn tail_position_rejects_bogus_estimate_and_places_beside_main() {
    let main = Rect {
        x: px(-1600.0),
        y: px(100.0),
        w: MAIN_W,
        h: MAIN_H,
    };
    let bogus = Some((2 * px(-1600.0) + MAIN_W, px(1040.0)));
    let (x, y) = tail_position(bogus, Some(main), 0);
    assert_eq!((x, y), at(-1600.0 + 880.0 + 8.0, 100.0));
}

#[test]
fn tail_position_negative_x_main_stays_on_its_monitor() {
    let main = Rect {
        x: px(-1600.0),
        y: px(100.0),
        w: MAIN_W,
        h: MAIN_H,
    };
    let (x, _) = tail_position(Some((px(-2320.0), px(1040.0))), Some(main), 0);
    assert!(
        x < 0,
        "tail should stay on the main window's monitor, got x={x}"
    );
}

#[test]
fn tail_position_falls_back_when_nothing_known() {
    let (x, y) = tail_position(None, None, 0);
    assert!(x >= 0 && y >= 0);
    assert_eq!((x, y), at(1400.0, 220.0));
}

#[test]
fn tail_position_takes_the_main_window_to_be_in_the_middle() {
    let (x, y) = tail_position(Some((px(2560.0), px(1440.0))), None, 0);
    assert_eq!((x, y), at(840.0 + 880.0 + 8.0, 420.0));
    let (_, y) = tail_position(Some((px(2560.0), px(500.0))), None, 0);
    assert_eq!(y, 0);
}
