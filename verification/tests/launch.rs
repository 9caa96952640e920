use dirwatch::cli::CliOptions;
use dirwatch::launch::{decide_launch, LaunchPath};

fn parse(args: &[&str]) -> CliOptions {
    let owned: Vec<String> = args.iter().map(|s| s.to_string()).collect();
    CliOptions::parse(&owned)
}

#[test]
fn version_routes_to_version() {
    assert_eq!(decide_launch(&parse(&["--version"])), LaunchPath::Version);
}

#[test]
fn help_routes_to_help() {
    assert_eq!(decide_launch(&parse(&["--help"])), LaunchPath::Help);
    assert_eq!(decide_launch(&parse(&["-h"])), LaunchPath::Help);
}

#[test]
fn license_routes_to_license() {
    assert_eq!(decide_launch(&parse(&["--license"])), LaunchPath::License);
}

#[test]
fn bad_flag_routes_to_error() {
    assert_eq!(decide_launch(&parse(&["--bogus"])), LaunchPath::Error);
}

#[test]
fn bare_and_dir_route_to_gui() {
    assert_eq!(decide_launch(&parse(&[])), LaunchPath::Gui);
    assert_eq!(decide_launch(&parse(&["/tmp/logs"])), LaunchPath::Gui);
    assert_eq!(
        decide_launch(&parse(&["/tmp/logs", "-d", "1", "--no-open"])),
        LaunchPath::Gui
    );
}

#[test]
fn version_wins_over_gui_args() {
    assert_eq!(
        decide_launch(&parse(&["/tmp/logs", "--version"])),
        LaunchPath::Version
    );
}

#[test]
fn version_precedes_help_precedes_license() {
    assert_eq!(
        decide_launch(&parse(&["--license", "--help", "--version"])),
        LaunchPath::Version
    );
    assert_eq!(
        decide_launch(&parse(&["--license", "--help"])),
        LaunchPath::Help
    );
    assert_eq!(decide_launch(&parse(&["--license"])), LaunchPath::License);
}
