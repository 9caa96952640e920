use dirwatch::os::Os;
use dirwatch::paths::{name_of, parent_of, parse_path, resolve_watch_dir, same_path};

#[test]
fn resolve_watch_dir_makes_relative_absolute_against_cwd() {
    let cwd = "/home/mike/logs";
    assert_eq!(
        resolve_watch_dir(Os::Linux, "sub", cwd),
        "/home/mike/logs/sub"
    );
}

#[test]
fn resolve_watch_dir_dot_and_empty_are_the_cwd() {
    let cwd = "/home/mike/logs";
    assert_eq!(
        resolve_watch_dir(Os::Linux, ".", cwd),
        "/home/mike/logs"
    );
    assert_eq!(
        resolve_watch_dir(Os::Linux, "   ", cwd),
        "/home/mike/logs"
    );
}

#[test]
fn resolve_watch_dir_strips_trailing_separator_and_dot_segments() {
    let cwd = "/home/mike";
    assert_eq!(
        resolve_watch_dir(Os::Linux, "logs/", cwd),
        "/home/mike/logs"
    );
    assert_eq!(
        resolve_watch_dir(Os::Linux, "./logs/./a/..", cwd),
        "/home/mike/logs"
    );
}

#[test]
fn resolve_watch_dir_leaves_absolute_unchanged_but_normalised() {
    let cwd = "/home/mike";
    assert_eq!(
        resolve_watch_dir(Os::Linux, "/var/log", cwd),
        "/var/log"
    );
    assert_eq!(
        resolve_watch_dir(Os::Linux, "/var/log/../log/app", cwd),
        "/var/log/app"
    );
}

#[test]
fn resolve_watch_dir_strips_surrounding_quotes_from_copy_as_path() {
    let cwd = "/home/mike";
    assert_eq!(
        resolve_watch_dir(Os::Linux, "\"/var/log\"", cwd),
        "/var/log"
    );
    assert_eq!(
        resolve_watch_dir(Os::Linux, "\"logs\"", cwd),
        "/home/mike/logs"
    );
    assert_eq!(
        resolve_watch_dir(Os::Linux, "\"logs", cwd),
        "/home/mike/\"logs"
    );
}

#[test]
fn resolve_watch_dir_windows_relative_joins_cwd() {
    let cwd = r"C:\Users\mike";
    assert_eq!(
        resolve_watch_dir(Os::Windows, r"logs\app", cwd),
        r"C:\Users\mike\logs\app"
    );
}

#[test]
fn resolve_watch_dir_preserves_windows_drive_relative() {
    let cwd = r"D:\work";
    let got = resolve_watch_dir(Os::Windows, "C:foo", cwd);
    assert!(got.starts_with("C:"));
    assert!(!got.to_lowercase().contains("work"));
}

#[test]
fn a_verbatim_prefix_is_one_piece() {
    let cwd = r"C:\Users\mike";
    let share = r"\\?\UNC\srv\share";
    let p = parse_path(Os::Windows, r"\\?\UNC\srv\share\logs\a/b");
    assert_eq!(p.prefix, share);
    assert!(p.rooted);
    assert_eq!(p.parts, vec!["logs", "a/b"]);
    assert_eq!(
        resolve_watch_dir(Os::Windows, r"\\?\UNC\srv\share\..", cwd),
        r"\\?\UNC\srv\share\"
    );
    assert_eq!(
        resolve_watch_dir(Os::Windows, r"\\?\UNC\srv\share\x\..\y\.\z", cwd),
        r"\\?\UNC\srv\share\y\z"
    );
    assert_eq!(
        resolve_watch_dir(Os::Windows, r"\\?\C:\logs\..\..", cwd),
        r"\\?\C:\"
    );
    assert_eq!(resolve_watch_dir(Os::Windows, "sub", r"\\?\C:"), r"\\?\C:\sub");
    let p = parse_path(Os::Windows, r"\\?\pics\a");
    assert_eq!(p.prefix, r"\\?\pics");
    let p = parse_path(Os::Windows, r"\\?\UNC\srv");
    assert_eq!(p.prefix, r"\\?\UNC\srv");
    assert!(!p.rooted);
    let p = parse_path(Os::Windows, r"\\?\C:x\a");
    assert_eq!(p.prefix, r"\\?\C:x");
}

#[test]
fn a_file_in_a_verbatim_directory_keeps_its_name() {
    let path = r"\\?\C:\logs\a/b.log";
    assert_eq!(parent_of(Os::Windows, path), r"\\?\C:\logs");
    assert_eq!(name_of(Os::Windows, path), "a/b.log");
    assert_eq!(parent_of(Os::Windows, r"\\?\C:\a\.\b"), r"\\?\C:\a\.");
    assert_eq!(parent_of(Os::Windows, r"\\?\UNC\srv\share\b"), r"\\?\UNC\srv\share\");
}

#[test]
fn a_device_and_a_share_are_prefixes_too() {
    let p = parse_path(Os::Windows, r"\\.\COM1\x");
    assert_eq!((p.prefix.as_str(), p.rooted), (r"\\.\COM1", true));
    let p = parse_path(Os::Windows, "//srv/share/x");
    assert_eq!((p.prefix.as_str(), p.rooted), ("//srv/share", true));
    assert!(same_path(Os::Windows, "//srv/share/x", r"\\srv\share\x\"));
    assert!(!same_path(Os::Windows, r"\\?\C:\x", r"C:\x"));
    assert!(same_path(Os::Windows, "c:./x", "c:x"));
    assert!(!same_path(Os::Linux, "./x", "x"));
}
