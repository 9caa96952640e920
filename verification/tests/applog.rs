use dirwatch::applog::{
    log_line, needs_rotation, resolve, rotated_name, switched_on, LogEnv, CRASH_FILE,
    LOG_CAP_BYTES, LOG_FILE,
};
use dirwatch::build_info::BUILD_ID;
use dirwatch::os::Os;

fn env_of(pairs: &[(&str, &str)]) -> LogEnv {
    let of = |key: &str| {
        pairs
            .iter()
            .find(|(k, _)| *k == key)
            .map(|(_, v)| v.to_string())
    };
    LogEnv {
        local_app_data: of("LOCALAPPDATA"),
        user_profile: of("USERPROFILE"),
        home: of("HOME"),
        xdg_state_home: of("XDG_STATE_HOME"),
    }
}

#[test]
fn override_wins_on_every_os() {
    let env = env_of(&[
        ("LOCALAPPDATA", "C:\\Users\\x\\AppData\\Local"),
        ("HOME", "/h"),
    ]);
    for os in [Os::Windows, Os::MacOs, Os::Linux] {
        assert_eq!(
            resolve(os, Some("/custom/logs"), &env, "/exe"),
            "/custom/logs"
        );
    }
}

#[test]
fn windows_uses_localappdata_then_userprofile_then_exe_dir() {
    let exe = "C:\\Tools";
    let env = env_of(&[("LOCALAPPDATA", "C:\\Users\\x\\AppData\\Local")]);
    assert_eq!(
        resolve(Os::Windows, None, &env, exe),
        "C:\\Users\\x\\AppData\\Local\\DirWatch"
    );
    let env = env_of(&[("USERPROFILE", "C:\\Users\\x")]);
    assert_eq!(
        resolve(Os::Windows, None, &env, exe),
        "C:\\Users\\x\\AppData\\Local\\DirWatch"
    );
    let env = env_of(&[]);
    assert_eq!(resolve(Os::Windows, None, &env, exe), exe);
}

#[test]
fn macos_uses_library_logs() {
    let env = env_of(&[("HOME", "/Users/mike")]);
    assert_eq!(
        resolve(
            Os::MacOs,
            None,
            &env,
            "/Applications/DirWatch.app/Contents/MacOS"
        ),
        "/Users/mike/Library/Logs/DirWatch"
    );
}

#[test]
fn linux_uses_xdg_state_home_then_dot_local_state_and_ignores_a_relative_xdg() {
    let exe = "/tmp/.mount_dw/usr/bin";
    let env = env_of(&[
        ("XDG_STATE_HOME", "/var/state/mike"),
        ("HOME", "/home/mike"),
    ]);
    assert_eq!(
        resolve(Os::Linux, None, &env, exe),
        "/var/state/mike/dirwatch"
    );
    let env = env_of(&[("HOME", "/home/mike")]);
    assert_eq!(
        resolve(Os::Linux, None, &env, exe),
        "/home/mike/.local/state/dirwatch"
    );
    let env = env_of(&[("XDG_STATE_HOME", "state"), ("HOME", "/home/mike")]);
    assert_eq!(
        resolve(Os::Linux, None, &env, exe),
        "/home/mike/.local/state/dirwatch"
    );
    let env = env_of(&[]);
    assert_eq!(resolve(Os::Linux, None, &env, exe), exe);
}

#[test]
fn empty_env_values_are_treated_as_unset() {
    let env = env_of(&[("LOCALAPPDATA", ""), ("USERPROFILE", "C:\\Users\\x")]);
    assert_eq!(
        resolve(Os::Windows, None, &env, "C:\\T"),
        "C:\\Users\\x\\AppData\\Local\\DirWatch"
    );
}

/// Writes ten lines into a log that is put aside where it would grow beyond its limit.
#[test]
fn append_rotates_once_at_the_cap_and_keeps_writing() {
    let cap: u64 = 64;
    let mut live = String::new();
    let mut aside: Option<String> = None;
    for i in 0..10 {
        let line = format!("line {i:02} xxxxxxxxxxxx\n");
        if needs_rotation(live.len() as u64, line.len() as u64, cap) {
            aside = Some(std::mem::take(&mut live));
        }
        live.push_str(&line);
    }
    assert!(
        live.len() as u64 <= cap,
        "live file {} bytes must stay within the cap",
        live.len()
    );
    assert_eq!(rotated_name(LOG_FILE), "DirWatch.log.1");
    let aside = aside.expect("one rotated generation");
    assert!((live + &aside).contains("line 09"), "the newest line is on disk");
}

#[test]
fn a_log_is_put_aside_once_it_would_reach_its_limit() {
    assert!(!needs_rotation(0, 10, 64));
    assert!(!needs_rotation(53, 10, 64));
    assert!(needs_rotation(54, 10, 64));
    assert!(needs_rotation(55, 10, 64));
    assert!(!needs_rotation(u64::MAX - 2, 1, u64::MAX));
    assert!(needs_rotation(u64::MAX - 1, 1, u64::MAX));
    assert!(needs_rotation(u64::MAX, u64::MAX, u64::MAX));
    assert_eq!(LOG_CAP_BYTES, 5 * 1024 * 1024);
    assert_eq!(rotated_name(CRASH_FILE), format!("{CRASH_FILE}.1"));
}

#[test]
fn a_line_of_the_log_names_its_kind_its_build_and_its_time() {
    assert_eq!(
        log_line("ERR", 12345, "cannot read"),
        format!("ERR {BUILD_ID} [12345ms] cannot read")
    );
}

#[test]
fn only_a_set_switch_is_on() {
    assert!(!switched_on(&None));
    assert!(!switched_on(&Some(String::new())));
    assert!(!switched_on(&Some("0".to_string())));
    assert!(switched_on(&Some("1".to_string())));
    assert!(switched_on(&Some("00".to_string())));
}
