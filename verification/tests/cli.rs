use dirwatch::cli::CliOptions;
use dirwatch::session::MAX_WINDOWS_CEILING;

fn parse(args: &[&str]) -> CliOptions {
    let owned: Vec<String> = args.iter().map(|s| s.to_string()).collect();
    CliOptions::parse(&owned)
}

#[test]
fn parses_depth() {
    let o = parse(&["--depth", "2"]);
    assert_eq!(o.depth, Some(2));
    assert!(o.errors.is_empty());
}

#[test]
fn depth_negative_clamped_to_zero() {
    let o = parse(&["--depth", "-3"]);
    assert_eq!(o.depth, Some(0));
    assert!(o.errors.is_empty());
}

#[test]
fn depth_over_max_clamped_to_ten() {
    let o = parse(&["--depth", "99"]);
    assert_eq!(o.depth, Some(10));
    assert!(o.errors.is_empty());
}

#[test]
fn parses_no_open() {
    let o = parse(&["--no-open"]);
    assert!(o.no_open);
}

#[test]
fn parses_active_secs_and_max_windows() {
    let o = parse(&["--active-secs", "5", "--max-windows", "3"]);
    assert_eq!(o.active_seconds, Some(5));
    assert_eq!(o.max_windows, Some(3));
    assert!(o.errors.is_empty());
}

#[test]
fn unknown_switch_is_an_error() {
    let o = parse(&["--bogus"]);
    assert!(!o.errors.is_empty());
}

#[test]
fn missing_value_is_an_error() {
    let o = parse(&["--depth"]);
    assert!(!o.errors.is_empty());
}

#[test]
fn directory_is_a_positional_argument() {
    let o = parse(&["/tmp/logs"]);
    assert_eq!(o.directory.as_deref(), Some("/tmp/logs"));
    assert!(o.errors.is_empty());
}

#[test]
fn dash_d_is_depth() {
    let o = parse(&["-d", "2"]);
    assert_eq!(o.depth, Some(2));
    assert!(o.errors.is_empty());
}

#[test]
fn max_windows_clamped_to_ceiling() {
    let o = parse(&["--max-windows", "9999"]);
    assert_eq!(o.max_windows, Some(MAX_WINDOWS_CEILING));
    assert!(o.errors.is_empty());
}

#[test]
fn max_windows_floored_at_one() {
    let o = parse(&["--max-windows", "0"]);
    assert_eq!(o.max_windows, Some(1));
}

#[test]
fn dash_w_is_max_windows() {
    let o = parse(&["-w", "3"]);
    assert_eq!(o.max_windows, Some(3));
    assert!(o.errors.is_empty());
}

#[test]
fn parses_license() {
    let o = parse(&["--license"]);
    assert!(o.show_license);
}

#[test]
fn second_positional_is_an_error() {
    let o = parse(&["/one", "/two"]);
    assert_eq!(o.directory.as_deref(), Some("/one"));
    assert!(!o.errors.is_empty());
}

#[test]
fn combines_positional_dir_and_switches() {
    let o = parse(&[
        "/tmp",
        "-d",
        "1",
        "--no-open",
        "-w",
        "4",
        "--active-secs",
        "7",
        "--poll-ms",
        "250",
    ]);
    assert_eq!(o.directory.as_deref(), Some("/tmp"));
    assert_eq!(o.depth, Some(1));
    assert!(o.no_open);
    assert_eq!(o.max_windows, Some(4));
    assert_eq!(o.active_seconds, Some(7));
    assert_eq!(o.poll_interval_ms, Some(250));
    assert!(o.errors.is_empty());
}

#[test]
fn help_active_secs_spells_out_seconds() {
    let help = CliOptions::help_text();
    assert!(
        help.contains("for n seconds after a write"),
        "help should spell out 'seconds'"
    );
    assert!(
        !help.contains("for n s after a write"),
        "help must not use the terse 'n s'"
    );
}

#[test]
fn parses_log_dir_and_requires_a_value() {
    let o = parse(&["--log-dir", "C:\\logs\\dw"]);
    assert_eq!(o.log_dir.as_deref(), Some("C:\\logs\\dw"));
    assert!(o.errors.is_empty());
    let o = parse(&["--log-dir"]);
    assert!(o.log_dir.is_none());
    assert!(!o.errors.is_empty());
}

#[test]
fn help_documents_log_dir_and_the_per_os_log_locations() {
    let help = CliOptions::help_text();
    assert!(help.contains("--log-dir <path>"));
    assert!(help.contains("Logs:"));
    assert!(help.contains("%LOCALAPPDATA%\\DirWatch\\"));
    assert!(help.contains("~/Library/Logs/DirWatch/"));
    assert!(help.contains("$XDG_STATE_HOME/dirwatch/"));
    assert!(help.contains("DirWatch.log"));
    assert!(
        !help.contains("DirWatch_debug.log"),
        "the old name must not linger in help"
    );
}

#[test]
fn help_documents_the_debug_env_var() {
    let help = CliOptions::help_text();
    assert!(
        help.contains("DIRWATCH_DEBUG"),
        "help must document the DIRWATCH_DEBUG environment variable"
    );
    assert!(
        help.contains("Environment:"),
        "help must have an Environment section"
    );
}
