use dirwatch::session::{ButtonVis, OpenResult, SessionModel, MAX_DIR_BOXES, MAX_FILES};

const T0: i64 = 1_752_496_800;

#[test]
fn new_file_is_idle_until_activity() {
    let mut m = SessionModel::new();
    let e = m.get_or_add("a.log").unwrap().clone();
    assert_eq!(m.vis_entry(&e, T0), ButtonVis::Idle);
}

#[test]
fn activity_makes_a_closed_file_active_then_decays_to_unread() {
    let mut m = SessionModel::default();
    m.active_seconds = 10;
    m.no_open = true;
    let wants = m.mark_activity("a.log", T0);
    assert!(!wants);
    m.mark_unread_if_closed("a.log");
    assert_eq!(m.vis("a.log", T0 + 5), ButtonVis::ActiveClosed);
    assert_eq!(m.vis("a.log", T0 + 11), ButtonVis::Unread);
}

#[test]
fn open_window_is_active_open_while_writing_then_plain_open() {
    let mut m = SessionModel::default();
    m.active_seconds = 10;
    assert!(m.mark_activity("a.log", T0));
    assert_eq!(m.try_open("a.log"), OpenResult::Opened);
    assert_eq!(m.vis("a.log", T0 + 3), ButtonVis::ActiveOpen);
    assert_eq!(m.vis("a.log", T0 + 20), ButtonVis::Open);
}

#[test]
fn cap_blocks_further_opens_until_a_slot_frees() {
    let mut m = SessionModel::default();
    m.max_windows = 2;
    assert_eq!(m.try_open("a.log"), OpenResult::Opened);
    assert_eq!(m.try_open("b.log"), OpenResult::Opened);
    assert_eq!(m.try_open("c.log"), OpenResult::BlockedByCap);
    assert_eq!(m.open_count(), 2);
    m.mark_closed("a.log");
    assert_eq!(m.open_count(), 1);
    assert_eq!(m.try_open("c.log"), OpenResult::Opened);
}

#[test]
fn closed_stays_closed_no_auto_reopen() {
    let mut m = SessionModel::new();
    assert_eq!(m.try_open("a.log"), OpenResult::Opened);
    m.mark_closed("a.log");
    assert!(!m.mark_activity("a.log", T0));
}

#[test]
fn missing_overrides_everything() {
    let mut m = SessionModel::new();
    m.try_open("a.log");
    m.mark_activity("a.log", T0);
    m.mark_missing("a.log", T0);
    assert_eq!(m.vis("a.log", T0), ButtonVis::Missing);
}

#[test]
fn reopen_clears_unread() {
    let mut m = SessionModel::default();
    m.no_open = true;
    m.mark_activity("a.log", T0);
    m.mark_unread_if_closed("a.log");
    assert_eq!(m.vis("a.log", T0 + 30), ButtonVis::Unread);
    assert_eq!(m.try_open("a.log"), OpenResult::Opened);
    assert_eq!(m.vis("a.log", T0 + 30), ButtonVis::Open);
}

#[test]
fn vis_of_matches_vis_without_creating_entries() {
    let mut m = SessionModel::default();
    m.active_seconds = 10;
    m.mark_activity("a.log", T0);
    assert_eq!(m.vis_of("a.log", T0 + 5), m.vis("a.log", T0 + 5));
    assert_eq!(m.vis_of("ghost.log", T0), ButtonVis::Idle);
    assert!(m.entries().iter().all(|e| e.path != "ghost.log"));
}

#[test]
fn reset_clears_entries_and_open_count() {
    let mut m = SessionModel::new();
    m.try_open("a.log");
    m.reset();
    assert_eq!(m.open_count(), 0);
    assert_eq!(m.entry_count(), 0);
}

#[test]
fn structure_rev_bumps_on_add_and_reset_but_not_on_state_change() {
    let mut m = SessionModel::new();
    let r0 = m.structure_rev();

    m.get_or_add("/w/a.log");
    let r1 = m.structure_rev();
    assert_ne!(r0, r1, "adding a new entry must bump the structure rev");

    m.get_or_add("/w/a.log");
    assert_eq!(
        r1,
        m.structure_rev(),
        "re-adding a known path must not bump"
    );

    m.mark_activity("/w/a.log", 100);
    m.mark_unread_if_closed("/w/a.log");
    m.mark_missing("/w/a.log", 100);
    let _ = m.try_open("/w/a.log");
    m.mark_closed("/w/a.log");
    assert_eq!(
        r1,
        m.structure_rev(),
        "per-entry state changes must not bump the structure rev"
    );

    m.get_or_add("/w/b.log");
    let r2 = m.structure_rev();
    assert_ne!(r1, r2, "a second new entry must bump");

    m.reset();
    assert_ne!(r2, m.structure_rev(), "reset must bump the structure rev");
}

#[test]
fn dir_cap_counts_boxes_not_files_and_admits_many_files_per_dir() {
    let mut m = SessionModel::new();
    for i in 0..(MAX_DIR_BOXES as i32 * 3) {
        m.get_or_add(&format!("/w/logs/f{i}.log"));
    }
    m.get_or_add("/w/other/x.log");
    assert_eq!(
        m.dir_count(),
        2,
        "two directories, regardless of file count"
    );
    assert!(!m.dir_overflow());
    assert_eq!(m.entry_count(), MAX_DIR_BOXES * 3 + 1);
}

#[test]
fn dir_cap_admits_exactly_max_dir_boxes_then_drops_new_dirs() {
    let mut m = SessionModel::new();
    for i in 0..MAX_DIR_BOXES {
        m.get_or_add(&format!("/w/d{i}/a.log"));
    }
    assert_eq!(m.dir_count(), MAX_DIR_BOXES);
    assert_eq!(m.entry_count(), MAX_DIR_BOXES);
    assert!(!m.dir_overflow(), "at the cap, not over it");

    m.get_or_add("/w/overflow/z.log");
    assert!(m.dir_overflow());
    assert_eq!(m.dir_count(), MAX_DIR_BOXES, "no new box added");
    assert_eq!(
        m.entry_count(),
        MAX_DIR_BOXES,
        "the dropped file is not tracked"
    );
    assert!(
        m.entries().iter().all(|e| e.path != "/w/overflow/z.log"),
        "dropped file never appears in entries",
    );

    m.get_or_add("/w/d0/b.log");
    assert_eq!(m.dir_count(), MAX_DIR_BOXES);
    assert_eq!(m.entry_count(), MAX_DIR_BOXES + 1);
    assert!(m.entries().iter().any(|e| e.path == "/w/d0/b.log"));
}

#[test]
fn dropped_file_is_an_inert_noop_through_the_mutating_entry_points() {
    let mut m = SessionModel::new();
    for i in 0..MAX_DIR_BOXES {
        m.get_or_add(&format!("/w/d{i}/a.log"));
    }
    let ghost = "/w/nope/ghost.log";
    assert!(
        !m.mark_activity(ghost, T0),
        "dropped file wants no auto-open"
    );
    m.mark_unread_if_closed(ghost);
    assert_eq!(m.vis(ghost, T0), ButtonVis::Idle);
    assert!(m.entries().iter().all(|e| e.path != ghost));
    assert_eq!(m.dir_count(), MAX_DIR_BOXES);
}

#[test]
fn reset_clears_dir_cap_state() {
    let mut m = SessionModel::new();
    for i in 0..MAX_DIR_BOXES {
        m.get_or_add(&format!("/w/d{i}/a.log"));
    }
    m.get_or_add("/w/overflow/z.log");
    assert!(m.dir_overflow());
    m.reset();
    assert!(!m.dir_overflow(), "Restart clears the overflow latch");
    assert_eq!(m.dir_count(), 0, "Restart clears the directory set");
    m.get_or_add("/w/fresh/a.log");
    assert_eq!(m.dir_count(), 1);
}

#[test]
fn get_or_add_returns_none_for_a_dropped_path_no_sink() {
    let mut m = SessionModel::new();
    for i in 0..MAX_DIR_BOXES {
        m.get_or_add(&format!("/w/d{i}/a.log"));
    }
    assert!(m.get_or_add("/w/d0/second.log").is_some());
    assert!(m.get_or_add("/w/brand_new/z.log").is_none());
    assert!(m.dir_overflow());
    assert!(m.entries().iter().all(|e| e.path != "/w/brand_new/z.log"));
}

#[test]
fn file_cap_evicts_the_oldest_idle_tile_to_admit_a_new_file() {
    let mut m = SessionModel::new();
    for i in 0..MAX_FILES {
        let p = format!("/w/f{i:05}.log");
        m.get_or_add(&p);
        m.mark_activity(&p, T0 + i as i64);
    }
    assert_eq!(m.entry_count(), MAX_FILES);
    assert!(m.get_or_add("/w/new.log").is_some());
    assert_eq!(m.entry_count(), MAX_FILES, "still capped, not grown");
    assert!(
        m.entries().iter().all(|e| e.path != "/w/f00000.log"),
        "the oldest idle tile was evicted"
    );
    assert!(
        m.entries().iter().any(|e| e.path == "/w/new.log"),
        "the new file was admitted"
    );
    assert!(!m.file_overflow(), "an eviction is not an overflow");
}

#[test]
fn file_cap_evicts_a_missing_tile_before_any_idle_one() {
    let mut m = SessionModel::new();
    for i in 0..MAX_FILES {
        let p = format!("/w/f{i:05}.log");
        m.get_or_add(&p);
        m.mark_activity(&p, T0 + 1000 + i as i64);
    }
    m.mark_missing("/w/f00999.log", T0 + 2000);
    assert!(m.get_or_add("/w/new.log").is_some());
    assert!(
        m.entries().iter().all(|e| e.path != "/w/f00999.log"),
        "the Missing tile is evicted first, even though it was recently active"
    );
    assert!(
        m.entries().iter().any(|e| e.path == "/w/f00000.log"),
        "an older but present idle tile is kept"
    );
}

#[test]
fn file_cap_never_evicts_an_open_window_and_refuses_when_all_open() {
    let mut m = SessionModel::new();
    m.max_windows = MAX_FILES as i32 + 5;
    for i in 0..MAX_FILES {
        let p = format!("/w/f{i:05}.log");
        assert_eq!(m.try_open(&p), OpenResult::Opened);
    }
    assert_eq!(m.open_count(), MAX_FILES as i32);
    assert!(
        m.get_or_add("/w/new.log").is_none(),
        "refused: nothing safe to evict"
    );
    assert!(m.file_overflow(), "refusal latches file_overflow");
    assert_eq!(m.entry_count(), MAX_FILES, "not grown, not shrunk");
    m.reset();
    assert!(!m.file_overflow());
}

#[test]
fn file_cap_prefers_evicting_an_idle_tile_over_an_open_one() {
    let mut m = SessionModel::new();
    m.max_windows = MAX_FILES as i32 + 5;
    for i in 0..(MAX_FILES - 1) {
        let p = format!("/w/open{i:05}.log");
        assert_eq!(m.try_open(&p), OpenResult::Opened);
        m.mark_activity(&p, T0 + 5000 + i as i64);
    }
    m.get_or_add("/w/idle.log");
    m.mark_activity("/w/idle.log", T0);
    assert_eq!(m.entry_count(), MAX_FILES);
    assert!(m.get_or_add("/w/new.log").is_some());
    assert!(m.entries().iter().all(|e| e.path != "/w/idle.log"), "idle evicted");
    assert_eq!(
        m.open_count(),
        (MAX_FILES - 1) as i32,
        "no open window was evicted"
    );
    assert!(!m.file_overflow());
}

#[test]
fn prune_missing_removes_only_files_gone_the_whole_grace() {
    const HOUR: i64 = 3600;
    let mut m = SessionModel::new();
    m.get_or_add("/w/a.log");
    m.get_or_add("/w/b.log");
    m.mark_activity("/w/a.log", T0);
    m.mark_activity("/w/b.log", T0);
    m.mark_missing("/w/a.log", T0);
    m.mark_missing("/w/b.log", T0);
    assert!(m.prune_missing(T0 + HOUR / 2, HOUR).is_empty());
    assert_eq!(m.entry_count(), 2);
    let _ = m.mark_activity("/w/b.log", T0 + HOUR - 10);
    let removed = m.prune_missing(T0 + HOUR, HOUR);
    assert_eq!(removed, vec!["/w/a.log".to_string()]);
    assert_eq!(m.entry_count(), 1);
    assert!(m.entries().iter().any(|e| e.path == "/w/b.log"));
}

#[test]
fn prune_missing_leaves_an_open_window_alone() {
    const HOUR: i64 = 3600;
    let mut m = SessionModel::new();
    assert_eq!(m.try_open("/w/a.log"), OpenResult::Opened);
    m.mark_missing("/w/a.log", T0);
    let removed = m.prune_missing(T0 + HOUR * 3, HOUR);
    assert!(removed.is_empty());
    assert_eq!(m.entry_count(), 1);
}

#[test]
fn prune_missing_bumps_structure_rev_when_it_removes() {
    const HOUR: i64 = 3600;
    let mut m = SessionModel::new();
    m.get_or_add("/w/a.log");
    m.mark_missing("/w/a.log", T0);
    let r = m.structure_rev();
    let _ = m.prune_missing(T0 + 1, HOUR);
    assert_eq!(r, m.structure_rev());
    let _ = m.prune_missing(T0 + HOUR, HOUR);
    assert_ne!(r, m.structure_rev());
    assert_eq!(m.entry_count(), 0);
}

#[test]
fn remove_entry_keeps_the_dir_box_set_consistent() {
    let mut m = SessionModel::new();
    m.get_or_add("/w/one/a.log");
    m.get_or_add("/w/one/b.log");
    m.get_or_add("/w/two/c.log");
    assert_eq!(m.dir_count(), 2);
    m.remove("/w/one/a.log");
    assert_eq!(m.dir_count(), 2, "box stays while another file uses it");
    m.remove("/w/two/c.log");
    assert_eq!(m.dir_count(), 1, "box gone when its last file is removed");
}

#[test]
fn structure_rev_stays_when_there_is_nothing_to_clear() {
    let mut m = SessionModel::new();
    let r0 = m.structure_rev();
    m.reset();
    assert_eq!(m.structure_rev(), r0);
    m.get_or_add("/w/a.log");
    m.reset();
    let r1 = m.structure_rev();
    assert_ne!(r1, r0);
    m.reset();
    assert_eq!(m.structure_rev(), r1);
}

#[test]
fn settings_may_be_assigned_without_touching_the_files() {
    let mut m = SessionModel::new();
    m.mark_activity("/w/a.log", T0);
    assert_eq!(m.try_open("/w/a.log"), OpenResult::Opened);
    let rev = m.structure_rev();
    m.active_seconds = 60;
    m.max_windows = 1;
    m.no_open = true;
    assert_eq!((m.entry_count(), m.open_count()), (1, 1));
    assert_eq!(m.structure_rev(), rev);
    assert_eq!(m.vis("/w/a.log", T0 + 50), ButtonVis::ActiveOpen);
    assert_eq!(m.try_open("/w/b.log"), OpenResult::BlockedByCap);
    assert!(!m.mark_activity("/w/b.log", T0));
}
