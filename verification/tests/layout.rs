use std::cmp::Ordering;

use dirwatch::fskey::{fs_is_case_insensitive, fs_key_str};
use dirwatch::layout::{dir_box_order, group_tile_boxes, tile_fill};
use dirwatch::os::Os;
use dirwatch::session::{ButtonVis, SessionModel};

fn sorted_dirs(os: Os, root: &str, mut dirs: Vec<&str>) -> Vec<String> {
    dirs.sort_by(|a, b| dir_box_order(os, root, a, b));
    dirs.into_iter().map(|s| s.to_string()).collect()
}

#[test]
fn watched_root_sorts_first_even_with_a_trailing_separator() {
    let got = sorted_dirs(Os::Windows, r"c:\users\aywik\",
        vec![
            r"c:\users\aywik\apple",
            r"c:\users\aywik",
            r"c:\users\aywik\zebra",
        ],
    );
    assert_eq!(got[0], r"c:\users\aywik");
    let got = sorted_dirs(Os::Linux, "/var/log/", vec!["/var/log/apt", "/var/log", "/var/log/zz"]);
    assert_eq!(got[0], "/var/log");
}

#[test]
fn watched_root_sorts_first() {
    let root = r"c:\users\aywik";
    let got = sorted_dirs(Os::Windows, root,
        vec![
            r"c:\users\aywik\Saved Games",
            r"c:\users\aywik",
            r"c:\users\aywik\upcheck",
        ],
    );
    assert_eq!(got[0], r"c:\users\aywik");
}

#[test]
fn subdirs_are_hierarchical_depth_first() {
    let root = r"c:\users\aywik";
    let got = sorted_dirs(Os::Windows, root,
        vec![
            r"c:\users\aywik\upcheck\logs",
            r"c:\users\aywik\Saved Games",
            r"c:\users\aywik",
            r"c:\users\aywik\upcheck",
        ],
    );
    assert_eq!(
        got,
        vec![
            r"c:\users\aywik".to_string(),
            r"c:\users\aywik\Saved Games".to_string(),
            r"c:\users\aywik\upcheck".to_string(),
            r"c:\users\aywik\upcheck\logs".to_string(),
        ]
    );
}

#[test]
fn dir_order_is_case_insensitive() {
    let root = r"C:\Users\Aywik";
    let got = sorted_dirs(Os::Windows, root,
        vec![
            r"c:\users\aywik\Zebra",
            r"c:\users\aywik",
            r"c:\users\aywik\apple",
        ],
    );
    assert_eq!(got[0], r"c:\users\aywik");
    assert_eq!(got[1], r"c:\users\aywik\apple");
    assert_eq!(got[2], r"c:\users\aywik\Zebra");
}

#[test]
fn a_new_dir_lands_in_sorted_position_not_appended() {
    let root = r"c:\w";
    let got = sorted_dirs(Os::Windows, root, vec![r"c:\w\zzz", r"c:\w", r"c:\w\mmm"]);
    assert_eq!(
        got,
        vec![
            r"c:\w".to_string(),
            r"c:\w\mmm".to_string(),
            r"c:\w\zzz".to_string()
        ]
    );
}

#[test]
fn dir_box_grouping_folds_case_like_the_cap_count() {
    for os in [Os::Windows, Os::MacOs, Os::Linux] {
        let a = fs_key_str(os, "/w/Logs");
        let b = fs_key_str(os, "/w/logs");
        let mut m = SessionModel::for_os(os);
        m.get_or_add("/w/Logs/a.log");
        m.get_or_add("/w/logs/b.log");
        if fs_is_case_insensitive(os) {
            assert_eq!(a, b, "one box: casings fold together");
            assert_eq!(
                m.dir_count(),
                1,
                "cap counts one dir; GUI must draw one box"
            );
        } else {
            assert_ne!(a, b, "two boxes: casings are distinct files");
            assert_eq!(
                m.dir_count(),
                2,
                "cap counts two dirs; GUI must draw two boxes"
            );
        }
    }
}

#[test]
fn only_active_closed_blinks_others_are_steady() {
    for v in [
        ButtonVis::Idle,
        ButtonVis::Open,
        ButtonVis::ActiveOpen,
        ButtonVis::Unread,
        ButtonVis::Missing,
    ] {
        assert_eq!(
            tile_fill(v, true),
            tile_fill(v, false),
            "{v:?} must not change with blink phase"
        );
    }
    assert_ne!(
        tile_fill(ButtonVis::ActiveClosed, true),
        tile_fill(ButtonVis::ActiveClosed, false),
        "active-closed must differ between bright and dim"
    );
    assert_eq!(
        tile_fill(ButtonVis::Unread, true),
        tile_fill(ButtonVis::ActiveClosed, true)
    );
}

#[test]
fn group_tile_boxes_matches_the_pre_cache_grouping_and_order() {
    let root = "/w";
    let paths = vec![
        "/w/b.log".to_string(),
        "/w/sub/z.log".to_string(),
        "/w/a.log".to_string(),
        "/w/sub/a.log".to_string(),
    ];
    let boxes = group_tile_boxes(Os::Linux, &paths, root);
    assert_eq!(boxes.len(), 2);
    assert_eq!(boxes[0].dir, "/w");
    assert_eq!(boxes[1].dir, "/w/sub");
    let root_names: Vec<&str> = boxes[0].files.iter().map(|(n, _)| n.as_str()).collect();
    assert_eq!(root_names, vec!["a.log", "b.log"]);
    let sub_names: Vec<&str> = boxes[1].files.iter().map(|(n, _)| n.as_str()).collect();
    assert_eq!(sub_names, vec!["a.log", "z.log"]);
    assert!(group_tile_boxes(Os::Linux, &[], root).is_empty());
}

#[test]
fn a_directory_comes_before_its_neighbours_only_with_all_its_own() {
    for (os, root, dirs) in [
        (
            Os::Windows,
            r"c:\w",
            vec![r"c:\w", r"c:\w\a", r"c:\w\A\x", r"c:\w\a\x\y", r"c:\w\a 2", r"c:\w\a1", r"c:\w\b"],
        ),
        (
            Os::Linux,
            "/w",
            vec!["/w", "/w/a", "/w/a/x", "/w/a/x/y", "/w/a b", "/w/a-1", "/w/a.d", "/w/b"],
        ),
    ] {
        let mut mixed = dirs.clone();
        mixed.reverse();
        assert_eq!(sorted_dirs(os, root, mixed), dirs);
    }
    assert_eq!(
        dir_box_order(Os::Windows, r"c:\w", r"c:\w\a\x", r"c:\w\a1"),
        Ordering::Less
    );
    assert_eq!(
        dir_box_order(Os::Linux, "/w", "/w/a-1", "/w/a/x"),
        Ordering::Greater
    );
    assert_eq!(
        dir_box_order(Os::Windows, r"c:\w", r"C:\w\A\", r"c:/W/a"),
        Ordering::Equal
    );
}
