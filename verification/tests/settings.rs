use dirwatch::runtime::{WatchConfig, TAIL_POLL_FLOOR_MS};
use dirwatch::session::{SessionModel, MAX_WINDOWS_CEILING};
use dirwatch::settings::{
    apply_settings_to_model, commit_settings, split_patterns, ModelOpts, Settings, SettingsDraft,
    ACTIVE_SECS_CEILING, TILES_PER_BOX_DEFAULT, TILES_PER_BOX_MAX, TILES_PER_BOX_MIN,
};
use dirwatch::strings::digits;
use dirwatch::{POLL_INTERVAL_CEILING_MS, POLL_INTERVAL_FLOOR_MS};

fn live() -> Settings {
    Settings {
        max_windows: 10,
        active_seconds: 5,
        no_open: false,
        poll_ms: 250,
        tiles_per_box: 4,
    }
}

fn draft_of(s: &Settings) -> SettingsDraft {
    SettingsDraft::from_live(7, s)
}

#[test]
fn commit_passes_valid_values_through_unchanged() {
    let prev = live();
    let committed = commit_settings(&draft_of(&prev), &prev);
    assert_eq!(committed, prev);
}

#[test]
fn commit_clamps_max_windows_to_1_50() {
    let prev = live();
    let mut d = draft_of(&prev);
    d.max_windows = "9999".to_string();
    assert_eq!(
        commit_settings(&d, &prev).max_windows,
        MAX_WINDOWS_CEILING
    );
    d.max_windows = "0".to_string();
    assert_eq!(commit_settings(&d, &prev).max_windows, 1);
}

#[test]
fn commit_floors_active_secs_at_1() {
    let prev = live();
    let mut d = draft_of(&prev);
    d.active_seconds = "0".to_string();
    assert_eq!(commit_settings(&d, &prev).active_seconds, 1);
}

#[test]
fn commit_floors_poll_ms_at_100() {
    let prev = live();
    let mut d = draft_of(&prev);
    d.poll_ms = "50".to_string();
    assert_eq!(commit_settings(&d, &prev).poll_ms, POLL_INTERVAL_FLOOR_MS);
    d.poll_ms = "500".to_string();
    assert_eq!(commit_settings(&d, &prev).poll_ms, 500);
}

#[test]
fn commit_ceilings_poll_ms_and_active_secs_instead_of_wrapping() {
    let prev = live();
    let mut d = draft_of(&prev);
    d.poll_ms = "4294967396".to_string();
    assert_eq!(commit_settings(&d, &prev).poll_ms, POLL_INTERVAL_CEILING_MS);
    d.poll_ms = "10000000000".to_string();
    assert_eq!(commit_settings(&d, &prev).poll_ms, POLL_INTERVAL_CEILING_MS);
    let mut d = draft_of(&prev);
    d.active_seconds = "999999999".to_string();
    assert_eq!(
        commit_settings(&d, &prev).active_seconds,
        ACTIVE_SECS_CEILING
    );
}

#[test]
fn commit_clamps_tiles_per_box_to_2_10() {
    let prev = live();
    let mut d = draft_of(&prev);
    d.tiles_per_box = "1".to_string();
    assert_eq!(commit_settings(&d, &prev).tiles_per_box, TILES_PER_BOX_MIN);
    d.tiles_per_box = "99".to_string();
    assert_eq!(commit_settings(&d, &prev).tiles_per_box, TILES_PER_BOX_MAX);
}

#[test]
fn commit_unparseable_field_keeps_previous_value() {
    let prev = live();
    let mut d = draft_of(&prev);
    d.max_windows = "".to_string();
    d.poll_ms = "".to_string();
    let committed = commit_settings(&d, &prev);
    assert_eq!(committed.max_windows, prev.max_windows);
    assert_eq!(committed.poll_ms, prev.poll_ms);
}

#[test]
fn a_value_beyond_the_form_stays_where_its_field_holds_no_number() {
    let prev = Settings {
        active_seconds: 100_000,
        poll_ms: 90_000,
        ..live()
    };
    let mut d = draft_of(&prev);
    d.active_seconds = "soon".to_string();
    d.poll_ms = "99999999999999999999".to_string();
    let c = commit_settings(&d, &prev);
    assert_eq!((c.active_seconds, c.poll_ms), (100_000, 90_000));
    d.active_seconds = " 100001 ".to_string();
    assert_eq!(commit_settings(&d, &prev).active_seconds, ACTIVE_SECS_CEILING);
}

#[test]
fn commit_carries_the_auto_open_toggle() {
    let prev = live();
    let mut d = draft_of(&prev);
    d.no_open = true;
    assert!(commit_settings(&d, &prev).no_open);
}

#[test]
fn apply_settings_to_model_sets_the_three_model_knobs_live() {
    let mut m = SessionModel::new();
    let s = Settings {
        max_windows: 7,
        active_seconds: 12,
        no_open: true,
        poll_ms: 300,
        tiles_per_box: 6,
    };
    apply_settings_to_model(&mut m, &s);
    assert_eq!(m.max_windows, 7);
    assert_eq!(m.active_seconds, 12);
    assert!(m.no_open);
}

#[test]
fn from_boot_seeds_live_settings_from_cfg_and_opts() {
    let cfg = WatchConfig {
        directory: "/w".to_string(),
        patterns: vec!["*.log".into()],
        poll_interval_ms: 250,
        depth: 1,
    };
    let opts = ModelOpts {
        no_open: true,
        active_seconds: Some(9),
        max_windows: Some(3),
    };
    let s = Settings::from_boot(cfg.poll_interval_ms, &opts);
    assert_eq!(s.max_windows, 3);
    assert_eq!(s.active_seconds, 9);
    assert!(s.no_open);
    assert_eq!(s.poll_ms, 250);
    assert_eq!(s.tiles_per_box, TILES_PER_BOX_DEFAULT);
}

#[test]
fn from_boot_floors_a_below_floor_poll() {
    let cfg = WatchConfig {
        directory: "/w".to_string(),
        patterns: vec![],
        poll_interval_ms: 10,
        depth: 0,
    };
    let s = Settings::from_boot(cfg.poll_interval_ms, &ModelOpts::default());
    assert_eq!(s.poll_ms, POLL_INTERVAL_FLOOR_MS);
}

#[test]
fn digits_filter_strips_non_ascii_digits() {
    assert_eq!(digits("12a3"), "123");
    assert_eq!(digits("  4 5 "), "45");
    assert_eq!(digits("abc"), "");
}

#[test]
fn split_patterns_strips_surrounding_quotes_per_pattern() {
    assert_eq!(split_patterns("\"*.log\""), vec!["*.log".to_string()]);
    assert_eq!(
        split_patterns("\"*.log\"; *.txt"),
        vec!["*.log".to_string(), "*.txt".to_string()]
    );
    assert_eq!(split_patterns("\"*.log"), vec!["\"*.log".to_string()]);
}

#[test]
fn poll_floor_is_the_shared_core_constant() {
    assert_eq!(TAIL_POLL_FLOOR_MS, POLL_INTERVAL_FLOOR_MS as u64);
}
