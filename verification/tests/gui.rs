use dirwatch::blink;
use dirwatch::build_info;
use dirwatch::fskey::{fs_is_case_insensitive, fs_key_str};
use dirwatch::gui::{
    apply_event, auto_open_action, key_to_message, AutoOpenAction, DirWatch, Effect, Env, Key,
    Message, TailNews, ViewKind, TICK_MS,
};
use dirwatch::notes::{Note, NoteKind};
use dirwatch::os::Os;
use dirwatch::placement::{next_position, PlaceInput, Rect, TAIL_H, TAIL_W};
use dirwatch::runtime::{TailChunk, WatchConfig};
use dirwatch::search::{scan_inline, DEBOUNCE_THRESHOLD_BYTES, DEBOUNCE_TICKS};
use dirwatch::session::{ButtonVis, OpenResult, SessionModel, MAX_DIR_BOXES, MAX_FILES};
use dirwatch::settings::{ModelOpts, MISSING_PRUNE_GRACE_SECS};
use dirwatch::tailwin::{Scroll, TailWin, SCROLLBACK_CAP_BYTES};
use dirwatch::visible::{follow_gap_px, is_following, PX, TAIL_LINE_H};
use dirwatch::watch::WatchEvent;

const T0: i64 = 1_752_496_800;
const NOW: i64 = 1_752_500_000;
const MAIN: u64 = 1;
const ID: u64 = 77;

/// Which of Control and Command are held.
type Held = (bool, bool);
const CTRL: Held = (true, false);
const LOGO: Held = (false, true);
const PLAIN: Held = (false, false);

fn px(n: f32) -> i64 {
    (n * PX as f32) as i64
}

fn ch(s: &str) -> Key {
    Key::Character(s.to_string())
}

fn press(key: &Key, held: Held, id: u64) -> Option<Message> {
    key_to_message(key, held.0, held.1, id)
}

/// The program with everything around it that opens windows and finds files.
struct Rig {
    d: DirWatch,
    events: Vec<WatchEvent>,
    chunks: Vec<(u64, TailChunk)>,
    next_id: u64,
}

impl Rig {
    fn new() -> Rig {
        let cfg = WatchConfig {
            directory: "/w".to_string(),
            patterns: vec![],
            poll_interval_ms: 1000,
            depth: 0,
        };
        let (d, _effects) = DirWatch::boot(Os::Linux, cfg, &ModelOpts::default(), "/home/mike");
        let mut rig = Rig {
            d,
            events: vec![],
            chunks: vec![],
            next_id: 100,
        };
        rig.update(Message::MainOpened(MAIN));
        rig
    }

    fn update(&mut self, message: Message) -> Vec<Effect> {
        let env = Env {
            now_secs: NOW,
            now_ms: 5_000,
            cwd: "/home/mike".to_string(),
            grace_secs: MISSING_PRUNE_GRACE_SECS,
        };
        let effects = self.d.update(message, &env);
        for e in &effects {
            let id = self.next_id;
            match e {
                Effect::OpenTail { path, .. } => {
                    self.next_id += 1;
                    let path = path.clone();
                    self.d.update(Message::TailSpawned { id, path }, &env);
                }
                Effect::OpenSettings => {
                    self.next_id += 1;
                    self.d.update(Message::SettingsSpawned(id), &env);
                }
                _ => {}
            }
        }
        effects
    }

    fn find(&mut self, ev: WatchEvent) {
        self.events.push(ev);
    }

    fn send(&mut self, id: u64, chunk: TailChunk) {
        self.chunks.push((id, chunk));
    }

    fn tick(&mut self) -> Vec<Effect> {
        let events = std::mem::take(&mut self.events);
        let mut news: Vec<TailNews> = vec![];
        for (id, chunk) in std::mem::take(&mut self.chunks) {
            match news.iter_mut().find(|n| n.id == id) {
                Some(n) => n.chunks.push(chunk),
                None => news.push(TailNews {
                    id,
                    chunks: vec![chunk],
                }),
            }
        }
        self.update(Message::Tick { events, news })
    }

    fn tail(&self, id: u64) -> &TailWin {
        self.d.tail(id).unwrap()
    }

    fn tail_mut(&mut self, id: u64) -> &mut TailWin {
        &mut self.d.tails.iter_mut().find(|w| w.id == id).unwrap().tail
    }

    fn has_tail(&self, id: u64) -> bool {
        self.d.tail(id).is_some()
    }

    fn note(&self) -> Option<(NoteKind, String)> {
        self.d.note.as_ref().map(|n| (n.kind, n.text.clone()))
    }
}

fn app_with_tail(text: &str) -> (Rig, u64) {
    let mut app = Rig::new();
    app.update(Message::TailSpawned {
        id: ID,
        path: "/w/t.log".to_string(),
    });
    app.tail_mut(ID).buf.append_text(text);
    (app, ID)
}

fn app_with_injected_tail() -> (Rig, u64) {
    let (mut app, id) = app_with_tail("");
    app.tail_mut(id).loading = true;
    (app, id)
}

#[test]
fn clearing_the_query_empties_matches_and_selection() {
    let (mut app, id) = app_with_tail("error a\nerror b\n");
    let _ = app.update(Message::SearchChanged(id, "error".into()));
    assert_eq!(app.tail(id).matches.len(), 2);
    assert_eq!(app.tail(id).current_match, Some(0));
    let _ = app.update(Message::SearchCleared(id));
    let tw = &app.tail(id);
    assert!(tw.search_query.is_empty());
    assert!(tw.matches.is_empty());
    assert_eq!(tw.current_match, None);
    let _ = app.update(Message::EscPressed(id));
    assert!(app.tail(id).search_query.is_empty());
}

#[test]
fn small_buffer_search_scans_inline_no_debounce() {
    let (mut app, id) = app_with_tail("error one\nerror two\nok\n");
    assert!(app.tail(id).buf.text.len() < DEBOUNCE_THRESHOLD_BYTES);
    let _ = app.update(Message::SearchChanged(id, "error".into()));
    let tw = &app.tail(id);
    assert_eq!(tw.matches.len(), 2, "small buffer scans inline immediately");
    assert_eq!(tw.current_match, Some(0));
    assert_eq!(
        tw.search_rescan_due, None,
        "no debounce armed below the threshold"
    );
}

#[test]
fn large_buffer_search_is_debounced_then_fires_on_tick() {
    let mut big = String::with_capacity(DEBOUNCE_THRESHOLD_BYTES + 4096);
    big.push_str("needle here\n");
    while big.len() < DEBOUNCE_THRESHOLD_BYTES + 2048 {
        big.push_str("just a plain filler line with no hits at all in it whatsoever ok\n");
    }
    let (mut app, id) = app_with_tail(&big);
    assert!(app.tail(id).buf.text.len() >= DEBOUNCE_THRESHOLD_BYTES);

    let t0 = app.d.tick_count;
    let _ = app.update(Message::SearchChanged(id, "needle".into()));
    let tw = &app.tail(id);
    assert_eq!(tw.search_query, "needle");
    assert!(
        tw.matches.is_empty(),
        "large-buffer keystroke does NOT scan inline"
    );
    assert_eq!(
        tw.search_rescan_due,
        Some(t0 + DEBOUNCE_TICKS),
        "a rescan deadline is armed DEBOUNCE_TICKS out"
    );

    for _ in 0..DEBOUNCE_TICKS {
        app.tick();
    }
    let tw = &app.tail(id);
    assert_eq!(tw.matches.len(), 1, "the deferred rescan found the match");
    assert_eq!(tw.current_match, Some(0));
    assert_eq!(
        tw.search_rescan_due, None,
        "the deadline is cleared once it fires"
    );
}

#[test]
fn a_large_buffer_keystroke_burst_rearms_and_scans_once() {
    let mut big = String::with_capacity(DEBOUNCE_THRESHOLD_BYTES + 4096);
    big.push_str("alpha\n");
    while big.len() < DEBOUNCE_THRESHOLD_BYTES + 2048 {
        big.push_str("filler line here with nothing to match on this row at all fine\n");
    }
    let (mut app, id) = app_with_tail(&big);

    for q in ["a", "al", "alpha"] {
        let _ = app.update(Message::SearchChanged(id, q.into()));
        assert!(
            app.tail(id).matches.is_empty(),
            "no scan during the burst"
        );
    }
    let armed = app.tail(id)
        .search_rescan_due
        .expect("a deadline is armed after the burst");
    assert_eq!(armed, app.d.tick_count + DEBOUNCE_TICKS);

    for _ in 0..DEBOUNCE_TICKS {
        app.tick();
    }
    let tw = &app.tail(id);
    assert_eq!(tw.search_query, "alpha");
    assert_eq!(tw.matches.len(), 1, "one scan, for the FINAL query only");
    assert_eq!(tw.search_rescan_due, None);
}

#[test]
fn clearing_a_pending_debounce_cancels_the_rescan() {
    let mut big = String::with_capacity(DEBOUNCE_THRESHOLD_BYTES + 4096);
    big.push_str("zed\n");
    while big.len() < DEBOUNCE_THRESHOLD_BYTES + 2048 {
        big.push_str("a filler row with no match content on it here at all right ok\n");
    }
    let (mut app, id) = app_with_tail(&big);
    let _ = app.update(Message::SearchChanged(id, "zed".into()));
    assert!(app.tail(id).search_rescan_due.is_some());
    let _ = app.update(Message::SearchCleared(id));
    assert_eq!(
        app.tail(id).search_rescan_due, None,
        "clear cancels the pending rescan"
    );
    for _ in 0..(DEBOUNCE_TICKS + 1) {
        app.tick();
    }
    let tw = &app.tail(id);
    assert!(tw.search_query.is_empty());
    assert!(
        tw.matches.is_empty(),
        "no deferred scan fired after the clear"
    );
}

#[test]
fn refresh_matches_recomputes_and_clamps_current() {
    let mut tw = TailWin::new("test");
    tw.buf.append_text("alpha beta alpha\n");
    tw.search_query = "alpha".to_string();
    tw.current_match = Some(1);
    tw.refresh_matches();
    assert_eq!(tw.matches.len(), 2);
    assert_eq!(tw.current_match, Some(1));
    let m1 = tw.matches[1];
    assert_eq!(tw.buf.line_of(m1.start), 0);
}

#[test]
fn activity_on_a_new_file_wants_to_auto_open() {
    let mut m = SessionModel::new();
    let ev = WatchEvent::Activity("/w/a.log".to_string());
    assert_eq!(apply_event(&mut m, &ev, NOW), Some("/w/a.log".to_string()));
}

#[test]
fn discovered_never_auto_opens() {
    let mut m = SessionModel::new();
    let ev = WatchEvent::Discovered("/w/a.log".to_string());
    assert_eq!(apply_event(&mut m, &ev, NOW), None);
}

#[test]
fn activity_on_an_open_file_does_not_reopen() {
    let mut m = SessionModel::new();
    assert_eq!(m.try_open("/w/a.log"), OpenResult::Opened);
    let ev = WatchEvent::Activity("/w/a.log".to_string());
    assert_eq!(apply_event(&mut m, &ev, NOW), None);
}

#[test]
fn activity_on_a_user_closed_file_does_not_reopen_but_marks_unread() {
    let mut m = SessionModel::new();
    m.try_open("/w/a.log");
    m.mark_closed("/w/a.log");
    let ev = WatchEvent::Activity("/w/a.log".to_string());
    assert_eq!(apply_event(&mut m, &ev, NOW), None);
    let later = NOW + 10_000;
    assert_eq!(m.vis("/w/a.log", later), ButtonVis::Unread);
}

#[test]
fn no_open_mode_suppresses_auto_open() {
    let mut m = SessionModel::new();
    m.no_open = true;
    let ev = WatchEvent::Activity("/w/a.log".to_string());
    assert_eq!(apply_event(&mut m, &ev, NOW), None);
}

#[test]
fn reappeared_file_clears_missing_but_is_not_itself_activity() {
    let mut m = SessionModel::new();
    m.get_or_add("/w/a.log");
    m.mark_missing("/w/a.log", 0);
    let ev = WatchEvent::Reappeared("/w/a.log".to_string());
    assert_eq!(
        apply_event(&mut m, &ev, NOW),
        None,
        "reappearance alone must not auto-open"
    );
    assert_ne!(m.vis("/w/a.log", T0), ButtonVis::Missing);
    let ev = WatchEvent::Activity("/w/a.log".to_string());
    assert_eq!(apply_event(&mut m, &ev, NOW), Some("/w/a.log".to_string()));
}

#[test]
fn fresh_auto_open_flashes_attention_not_focus() {
    assert_eq!(
        auto_open_action(OpenResult::Opened),
        AutoOpenAction::FlashAttention
    );
}

#[test]
fn over_cap_auto_open_blinks_the_cap() {
    assert_eq!(
        auto_open_action(OpenResult::BlockedByCap),
        AutoOpenAction::BlinkCap
    );
}

#[test]
fn already_open_auto_open_does_nothing() {
    assert_eq!(
        auto_open_action(OpenResult::AlreadyOpen),
        AutoOpenAction::Nothing
    );
}

#[test]
fn ctrl_w_and_cmd_w_both_close_the_focused_tail() {
    let id = ID;
    for m in [CTRL, LOGO] {
        match press(&ch("w"), m, id) {
            Some(Message::CloseTail(got)) => {
                assert_eq!(got, id, "CloseTail carries the focused id")
            }
            other => panic!("expected CloseTail for modifiers {m:?}, got {other:?}"),
        }
    }
    assert!(matches!(
        press(&ch("W"), LOGO, id),
        Some(Message::CloseTail(_))
    ));
}

#[test]
fn ctrl_f_and_cmd_f_both_focus_search() {
    let id = ID;
    for m in [CTRL, LOGO] {
        match press(&ch("f"), m, id) {
            Some(Message::FocusSearch(got)) => {
                assert_eq!(got, id, "FocusSearch carries the focused id")
            }
            other => panic!("expected FocusSearch for modifiers {m:?}, got {other:?}"),
        }
    }
}

#[test]
fn bare_w_or_f_without_a_modifier_does_nothing() {
    let id = ID;
    assert!(press(&ch("w"), PLAIN, id).is_none());
    assert!(press(&ch("f"), PLAIN, id).is_none());
    assert!(press(&ch("w"), PLAIN, id).is_none());
}

#[test]
fn enter_and_esc_still_route_after_the_refactor() {
    let id = ID;
    assert!(matches!(
        press(
            &Key::Enter,
            PLAIN,
            id
        ),
        Some(Message::EnterPressed(_))
    ));
    assert!(matches!(
        press(
            &Key::Escape,
            PLAIN,
            id
        ),
        Some(Message::EscPressed(_))
    ));
}

#[test]
fn recovered_event_clears_the_error_note_and_reappeared_does_not_open_windows() {
    let (mut app, _id) = app_with_tail("x\n");
    app.d.model.get_or_add("/w/other.log");
    app.d.model.mark_missing("/w/other.log", 0);
    let tails_before = app.d.tails.len();

    app.find(WatchEvent::Error("cannot read /w: gone".to_string()));
    app.tick();
    assert_eq!(
        app.note(),
        Some((
            NoteKind::WatchError,
            "ERROR: cannot read /w: gone".to_string()
        ))
    );

    app.find(WatchEvent::Recovered);
    app.find(WatchEvent::Reappeared("/w/other.log".to_string()));
    app.tick();
    assert_eq!(app.note(), None, "Recovered clears the ERROR note");
    assert_eq!(
        app.d.tails.len(),
        tails_before,
        "Reappeared alone opens nothing"
    );
    assert_ne!(app.d.model.vis("/w/other.log", T0), ButtonVis::Missing);

    app.d.note = Some(Note {
        kind: NoteKind::Plain,
        text: "stopped".to_string(),
    });
    app.find(WatchEvent::Recovered);
    app.tick();
    assert_eq!(
        app.note(),
        Some((NoteKind::Plain, "stopped".to_string())),
        "Recovered leaves a non-error note alone"
    );
}

#[test]
fn cap_note_survives_a_real_root_outage_without_churn() {
    let (mut app, _id) = app_with_tail("x\n");
    for i in 0..(MAX_DIR_BOXES + 1) {
        app.d.model.get_or_add(&format!("/w/d{i}/a.log"));
    }
    assert!(app.d.model.dir_overflow(), "precondition: cap latched");

    app.tick();
    assert!(
        matches!(app.note(), Some((NoteKind::DirCap, _))),
        "cap note shown"
    );

    for _ in 0..3 {
        app.find(WatchEvent::Error("cannot read /w: gone".to_string()));
        app.tick();
        assert!(
            matches!(app.note(), Some((NoteKind::WatchError, _))),
            "a real error outranks the cap note while the root is unreadable"
        );
        app.find(WatchEvent::Recovered);
        app.tick();
        assert!(
            matches!(app.note(), Some((NoteKind::DirCap, _))),
            "on recovery the still-latched cap note is restored"
        );
    }
}

#[test]
fn file_cap_note_shows_only_when_a_file_is_refused_all_windows_open() {
    let (mut app, _id) = app_with_tail("x\n");
    app.d.model.max_windows = MAX_FILES as i32 + 5;
    for i in 0..MAX_FILES {
        let p = format!("/w/f{i:05}.log");
        assert_eq!(app.d.model.try_open(&p), OpenResult::Opened);
    }
    assert!(app.d.model.get_or_add("/w/new.log").is_none());
    assert!(app.d.model.file_overflow());
    app.tick();
    assert!(
        matches!(app.note(), Some((NoteKind::FileCap, _))),
        "file-cap refusal surfaces a FileCap note"
    );
}

#[test]
fn a_file_missing_past_the_grace_has_its_tile_pruned_on_tick() {
    let (mut app, _id) = app_with_tail("x\n");
    app.d.model.get_or_add("/w/gone.log");
    app.d.model.mark_missing("/w/gone.log", 0);
    assert_eq!(app.d.model.entry_count(), 1);
    app.tick();
    assert_eq!(
        app.d.model.entry_count(),
        0,
        "a file Missing far past the grace is pruned on Tick"
    );
}

#[test]
fn prune_is_skipped_while_the_root_is_unreadable() {
    let (mut app, _id) = app_with_tail("x\n");
    app.d.model.get_or_add("/w/gone.log");
    app.d.model.mark_missing("/w/gone.log", 0);
    app.find(WatchEvent::Error("cannot read /w: gone".to_string()));
    app.tick();
    assert!(matches!(app.note(), Some((NoteKind::WatchError, _))));
    assert_eq!(
        app.d.model.entry_count(),
        1,
        "nothing pruned while the root is unreadable"
    );
}

#[test]
fn restart_marks_tails_closing_and_view_renders_blank_for_them() {
    let (mut app, id) = app_with_tail("x\n");
    assert!(app.has_tail(id));
    let _ = app.update(Message::Restart);
    assert!(
        app.d.closing.contains(&id),
        "the closed tail id is marked closing until WindowClosed"
    );
    assert!(!app.has_tail(id), "tails cleared on Restart");
    assert_eq!(app.d.view_kind(id), ViewKind::Closing);

    let _ = app.update(Message::WindowClosed(id));
    assert!(!app.d.closing.contains(&id), "WindowClosed clears closing");
    assert_eq!(
        app.d.view_kind(id),
        ViewKind::Main,
        "an unknown id falls through to main"
    );
}

#[test]
fn empty_ready_chunk_ends_loading_and_a_skipped_marker_is_rendered() {
    let (mut app, id) = app_with_injected_tail();
    assert!(app.tail(id).loading);
    app.send(id, TailChunk {
        ready: true,
        encoding_label: "UTF-8/ASCII".to_string(),
        ..Default::default()
    });
    app.tick();
    assert!(
        !app.tail(id).loading,
        "ready ends loading even with no text"
    );
    assert_eq!(app.tail(id).encoding, "UTF-8/ASCII");
    assert_eq!(app.tail(id).buf.text, "");

    app.send(id, TailChunk {
        rotated: true,
        skipped_bytes: Some(12345),
        new_text: Some("tail-of-file\n".to_string()),
        ..Default::default()
    });
    app.tick();
    assert_eq!(
        app.tail(id).buf.text,
        "\n--- file rotated/truncated ---\n--- earlier 12345 bytes skipped ---\ntail-of-file\n",
        "rotated marker first, then the skip that belongs to the NEW file, then its text"
    );
}

#[test]
fn one_enter_in_a_tail_window_steps_exactly_one_match() {
    let (mut app, id) = app_with_tail("error a\nerror b\nerror c\n");
    let _ = app.update(Message::SearchChanged(id, "error".into()));
    assert_eq!(app.tail(id).matches.len(), 3);
    assert_eq!(app.tail(id).current_match, Some(0));
    let enter = press(
        &Key::Enter,
        PLAIN,
        id,
    );
    assert!(matches!(enter, Some(Message::EnterPressed(_))));
    let _ = app.update(enter.unwrap());
    assert_eq!(
        app.tail(id).current_match,
        Some(1),
        "one Enter == one step"
    );
    let _ = app.update(Message::EnterPressed(id));
    assert_eq!(app.tail(id).current_match, Some(2));
    let _ = app.update(Message::EnterPressed(id));
    assert_eq!(app.tail(id).current_match, Some(0), "wraps");
}

#[test]
fn typing_a_query_selects_and_pauses_on_the_first_match() {
    let (mut app, id) = app_with_tail("a\nb\nerror here\n");
    let effects = app.update(Message::SearchChanged(id, "error".into()));
    let tw = &app.tail(id);
    assert_eq!(tw.current_match, Some(0));
    assert!(!tw.following, "jumping to a match pauses follow");
    assert_eq!(tw.scroll_y, 0, "line 2 - 3 context lines clamps to the top");
    assert!(matches!(effects[..], [Effect::ScrollTo { id: at, row: 0 }] if at == id));
    let _ = app.update(Message::SearchChanged(id, String::new()));
    assert_eq!(app.tail(id).current_match, None);
    assert!(app.tail(id).matches.is_empty());
}

#[test]
fn resume_follow_reengages_following_from_a_paused_tail() {
    let (mut app, id) = app_with_tail("a\nb\nerror here\n");
    let _ = app.update(Message::SearchChanged(id, "error".into()));
    assert!(
        !app.tail(id).following,
        "precondition: search-jump paused follow"
    );
    let _ = app.update(Message::ResumeFollow(id));
    assert!(
        app.tail(id).following,
        "ResumeFollow must re-engage following"
    );
}

#[test]
fn path_to_win_uses_the_shared_fs_key_rule() {
    let (mut app, _id) = app_with_tail("x\n");
    let wid = ID;
    for os in [Os::Linux, Os::MacOs, Os::Windows] {
        app.d.path_to_win.clear();
        app.d
            .path_to_win
            .insert(&fs_key_str(os, "/w/Mixed.LOG"), wid);
        let hit = app
            .d
            .path_to_win
            .get(&fs_key_str(os, "/w/mixed.log"))
            .copied();
        if fs_is_case_insensitive(os) {
            assert_eq!(hit, Some(wid));
        } else {
            assert_eq!(hit, None);
        }
    }
}

#[test]
fn gui_and_blink_tick_periods_match() {
    assert_eq!(TICK_MS, blink::TICK_MS);
}

#[test]
fn cap_blocked_auto_open_marks_the_file_unread() {
    let (mut app, _id) = app_with_tail("x\n");
    assert_eq!(app.d.model.try_open("/w/t.log"), OpenResult::Opened);
    app.d.model.max_windows = 1;
    app.d.settings.max_windows = 1;
    app.d.model.active_seconds = 10;
    app.find(WatchEvent::Discovered("/w/closed.log".to_string()));
    app.find(WatchEvent::Activity("/w/closed.log".to_string()));
    app.tick();
    assert_eq!(app.d.tails.len(), 1, "cap held: no second window");
    assert!(app.d.cap_blink_start_ms.is_some(), "the cap blinked");
    let now = NOW;
    assert_eq!(
        app.d.model.vis_of("/w/closed.log", now),
        ButtonVis::ActiveClosed
    );
    assert_eq!(
        app.d.model.vis_of("/w/closed.log", now + 60),
        ButtonVis::Unread,
        "after the active window decays the tile reads Unread, not Idle"
    );
}

#[test]
fn error_then_recovered_in_one_tick_leaves_no_stale_error_note() {
    let (mut app, _id) = app_with_tail("x\n");
    app.find(WatchEvent::Error("cannot read /w: blip".into()));
    app.find(WatchEvent::Recovered);
    app.tick();
    assert_eq!(app.note(), None, "the batch's outcome is 'readable': no note");
    app.find(WatchEvent::Recovered);
    app.find(WatchEvent::Error("cannot read /w: gone".into()));
    app.tick();
    assert!(matches!(app.note(), Some((NoteKind::WatchError, _))));
    app.find(WatchEvent::Recovered);
    app.tick();
    assert_eq!(app.note(), None);
}

#[test]
fn tile_click_browse_and_settings_do_not_clear_a_live_watch_error_note() {
    let mut app = app_with_tail("x\n").0;
    app.d.model.get_or_add("/w/a.log");
    app.find(WatchEvent::Error("cannot read /w: gone".into()));
    app.tick();
    let err = app.note();
    assert!(matches!(err, Some((NoteKind::WatchError, _))));
    let _ = app.update(Message::TileClicked("/w/a.log".into()));
    app.tick();
    assert_eq!(app.note(), err, "a tile click leaves the error note alone");
    app.d.model.max_windows = 1;
    let _ = app.update(Message::TileClicked("/w/b.log".into()));
    assert!(app.d.cap_blink_start_ms.is_some());
    assert_eq!(
        app.note(), err,
        "an over-cap click leaves the error note alone"
    );
    let _ = app.update(Message::OpenSettings);
    assert_eq!(
        app.note(), err,
        "opening Settings leaves the error note alone"
    );
}

#[test]
fn tile_open_does_not_drop_or_relog_the_dir_cap_note() {
    let (mut app, _id) = app_with_tail("x\n");
    for i in 0..(MAX_DIR_BOXES + 1) {
        app.d.model.get_or_add(&format!("/w/d{i}/a.log"));
    }
    app.tick();
    let cap = app.note();
    assert!(matches!(cap, Some((NoteKind::DirCap, _))));
    let _ = app.update(Message::TileClicked("/w/d0/a.log".into()));
    assert_eq!(
        app.note(), cap,
        "the cap note survives a tail open (no blank frame)"
    );
    app.tick();
    assert_eq!(
        app.note(), cap,
        "and the next tick has nothing to restore (so nothing to re-log)"
    );
}

#[test]
fn stop_keeps_its_stopped_note_while_the_cap_is_latched() {
    let (mut app, _id) = app_with_tail("x\n");
    for i in 0..(MAX_DIR_BOXES + 1) {
        app.d.model.get_or_add(&format!("/w/d{i}/a.log"));
    }
    app.tick();
    assert!(matches!(app.note(), Some((NoteKind::DirCap, _))));
    let _ = app.update(Message::ToggleWatch);
    assert!(!app.d.running);
    assert_eq!(app.note(), Some((NoteKind::Plain, "stopped".to_string())));
    app.tick();
    app.tick();
    assert_eq!(
        app.note(),
        Some((NoteKind::Plain, "stopped".to_string())),
        "a stopped watch keeps its note; the cap note waits for the next Start"
    );
}

#[test]
fn settings_ok_and_cancel_render_blank_until_window_closed() {
    for ok in [true, false] {
        let (mut app, _id) = app_with_tail("x\n");
        let _ = app.update(Message::OpenSettings);
        let sid = app.d.settings_win.as_ref().unwrap().id;
        assert_eq!(app.d.view_kind(sid), ViewKind::Settings);
        let _ = app.update(if ok {
                Message::SettingsOk
            } else {
                Message::SettingsCancel
            },
        );
        assert!(app.d.settings_win.is_none());
        assert_eq!(
            app.d.view_kind(sid),
            ViewKind::Closing,
            "{} must render blank, never main_view, until WindowClosed",
            if ok { "OK" } else { "Cancel" }
        );
        let _ = app.update(Message::WindowClosed(sid));
        assert!(!app.d.closing.contains(&sid));
    }
}

#[test]
fn a_late_settings_opened_for_a_dead_window_does_not_rebind_the_live_draft() {
    let (mut app, _id) = app_with_tail("x\n");
    let _ = app.update(Message::OpenSettings);
    let dead = app.d.settings_win.as_ref().unwrap().id;
    let _ = app.update(Message::SettingsCancel);
    let _ = app.update(Message::WindowClosed(dead));
    let _ = app.update(Message::OpenSettings);
    let live = app.d.settings_win.as_ref().unwrap().id;
    assert_ne!(live, dead);
    let _ = app.update(Message::SettingsOpened(dead));
    assert_eq!(
        app.d.settings_win.as_ref().unwrap().id,
        live,
        "live draft keeps its id"
    );
    let _ = app.update(Message::EscPressed(live));
    assert!(
        app.d.settings_win.is_none(),
        "Esc reached the live Settings window"
    );
}

#[test]
fn settings_poll_change_retunes_open_tails_live() {
    let (mut app, _id) = app_with_tail("x\n");
    let _ = app.update(Message::OpenSettings);
    let _ = app.update(Message::SettingsPollMsChanged("2000".to_string()));
    let effects = app.update(Message::SettingsOk);
    assert_eq!(app.d.settings.poll_ms, 2000);
    assert!(effects.iter().any(|e| matches!(e, Effect::SetPoll(2000))));
}

#[test]
fn discovered_clears_missing_for_a_known_file() {
    let mut model = SessionModel::new();
    model.get_or_add("/w/a.log");
    model.mark_missing("/w/a.log", 0);
    assert_eq!(model.vis_of("/w/a.log", T0), ButtonVis::Missing);
    let opened = apply_event(
        &mut model,
        &WatchEvent::Discovered("/w/a.log".to_string()),
        NOW,
    );
    assert_eq!(opened, None, "Discovered never auto-opens");
    assert_ne!(model.vis_of("/w/a.log", T0), ButtonVis::Missing);
}

#[test]
fn enter_forces_a_pending_rescan_to_run_now() {
    let (mut app, id) = app_with_tail("");
    {
        let tw = app.tail_mut(id);
        let block = "err on this line\nwarn on this other line here padding padding padding\n";
        let mut s = String::with_capacity(5 * 1024 * 1024);
        while s.len() < 5 * 1024 * 1024 {
            s.push_str(block);
        }
        tw.buf.append_text(&s);
        assert!(
            !scan_inline(tw.buf.text.len()),
            "buffer is over the defer threshold"
        );
    }

    let _ = app.update(Message::SearchChanged(id, "err".into()));
    assert!(
        app.tail(id).search_rescan_due.is_some(),
        "large buffer defers"
    );
    for _ in 0..DEBOUNCE_TICKS {
        app.tick();
    }
    let err_count = app.tail(id).matches.len();
    assert!(err_count > 0, "the deferred 'err' scan populated matches");

    let _ = app.update(Message::SearchChanged(id, "warn".into()));
    assert!(
        app.tail(id).search_rescan_due.is_some(),
        "re-armed pending for the new query"
    );
    assert_eq!(
        app.tail(id).matches.len(),
        err_count,
        "matches still the previous query's until a scan runs"
    );

    let _ = app.update(Message::EnterPressed(id));
    let tw = &app.tail(id);
    assert_eq!(
        tw.search_rescan_due, None,
        "Enter cleared the pending deadline (forced now)"
    );
    assert!(
        !tw.matches.is_empty(),
        "forced scan repopulated for the new query"
    );
    let all_warn = tw
        .matches
        .iter()
        .all(|m| tw.buf.text[m.start..m.end].eq_ignore_ascii_case("warn"));
    assert!(
        all_warn,
        "forced scan recomputed for the CURRENT query 'warn'"
    );
    assert_eq!(
        tw.current_match,
        Some(0),
        "forced scan selects the first match"
    );

    let _ = app.update(Message::SearchChanged(id, "err".into()));
    assert!(
        app.tail(id).search_rescan_due.is_some(),
        "re-armed for Next test"
    );
    let _ = app.update(Message::SearchNext(id));
    assert_eq!(
        app.tail(id).search_rescan_due, None,
        "Next also forced the pending scan"
    );
    assert!(app.tail(id)
        .matches
        .iter()
        .all(|m| app.tail(id).buf.text[m.start..m.end].eq_ignore_ascii_case("err")));
}

#[test]
fn trim_during_pending_debounce_drops_stale_matches() {
    let (mut app, id) = app_with_injected_tail();

    {
        let tw = app.tail_mut(id);
        let filler = "plain filler line with no match here at all whatsoever ok fine yesx\n";
        let e_line = "ééééééééééééééééééééééééééééééééééééééé\n";
        let mut s = String::with_capacity(66 * 1024 * 1024);
        while s.len() < 65 * 1024 * 1024 {
            for _ in 0..9 {
                s.push_str(filler);
            }
            s.push_str(e_line);
        }
        tw.buf.append_text(&s);
        assert!(tw.buf.text.len() > SCROLLBACK_CAP_BYTES);
    }

    let _ = app.update(Message::SearchChanged(id, "éé".into()));
    assert!(
        app.tail(id).search_rescan_due.is_some(),
        "large buffer defers"
    );
    for _ in 0..DEBOUNCE_TICKS {
        app.tick();
    }
    assert!(
        !app.tail(id).matches.is_empty(),
        "the deferred scan populated matches"
    );

    let _ = app.update(Message::SearchChanged(id, "ééé".into()));
    assert!(
        app.tail(id).search_rescan_due.is_some(),
        "re-armed pending"
    );
    assert!(!app.tail(id).matches.is_empty());

    app.send(id, TailChunk {
        new_text: Some("z\n".to_string()),
        ..Default::default()
    });
    let len_before_tick = app.tail(id).buf.text.len();
    app.tick();
    let tw = &app.tail(id);
    assert!(
        tw.buf.text.len() < len_before_tick,
        "the trim ran (buffer shrank)"
    );

    let q = tw.search_query.clone();
    let n_boundary_bad = tw
        .matches
        .iter()
        .filter(|m| m.start < tw.buf.text.len() && !tw.buf.text.is_char_boundary(m.start))
        .count();
    let n_wrong_text = tw
        .matches
        .iter()
        .filter(|m| {
            m.end <= tw.buf.text.len()
                && tw.buf.text.is_char_boundary(m.start)
                && tw.buf.text.is_char_boundary(m.end)
                && !tw.buf.text[m.start..m.end].eq_ignore_ascii_case(&q)
        })
        .count();
    let n_out_of_range = tw.matches.iter().filter(|m| m.end > tw.buf.text.len()).count();
    assert_eq!(
        n_boundary_bad + n_wrong_text + n_out_of_range,
        0,
        "a trim during a pending debounce must not leave stale search-match offsets \
         ({} non-char-boundary, {} wrong-text, {} out-of-range, {} total matches, text_len={})",
        n_boundary_bad,
        n_wrong_text,
        n_out_of_range,
        tw.matches.len(),
        tw.buf.text.len()
    );
    assert!(
        tw.matches.is_empty() && tw.current_match.is_none(),
        "clear-on-trim: matches/current_match dropped, awaiting the deferred rescan"
    );
}

#[test]
fn main_and_catchall_titles_show_product_name_not_the_build_string() {
    let app = Rig::new();
    let main = app.d.main_id.expect("the main window is open");

    assert_eq!(app.d.title(main), "DirWatch 1.0");
    assert_eq!(app.d.title(main), build_info::PRODUCT);

    assert_ne!(
        app.d.title(main),
        build_info::BUILD_ID,
        "main title must not carry the full build string"
    );
    assert!(
        !app.d.title(main).contains("build "),
        "main title must not contain the 'build …' serial"
    );

    let orphan = ID;
    assert_eq!(app.d.title(orphan), "DirWatch 1.0");
    assert_ne!(app.d.title(orphan), build_info::BUILD_ID);
}

fn tick_with(app: &mut Rig, events: Vec<WatchEvent>) -> Vec<Effect> {
    app.events = events;
    app.tick()
}

#[test]
fn a_write_opens_a_window_and_flashes_it() {
    let mut app = Rig::new();
    let effects = tick_with(
        &mut app,
        vec![
            WatchEvent::Discovered("/w/a.log".to_string()),
            WatchEvent::Activity("/w/a.log".to_string()),
        ],
    );
    assert!(matches!(&effects[..], [Effect::OpenTail { path, auto: true }] if path == "/w/a.log"));
    let id = app.d.tails[0].id;
    assert_eq!(app.d.view_kind(id), ViewKind::Tail);
    assert_eq!(app.d.title(id), "a.log - DirWatch");
    assert!(app.d.model.is_open("/w/a.log"));
}

#[test]
fn a_second_click_focuses_the_window() {
    let mut app = Rig::new();
    app.d.model.get_or_add("/w/a.log");
    app.update(Message::TileClicked("/w/a.log".to_string()));
    let id = app.d.tails[0].id;
    let effects = app.update(Message::TileClicked("/w/a.log".to_string()));
    assert!(effects
        .iter()
        .any(|e| matches!(e, Effect::Focus(at) if *at == id)));
    assert_eq!(app.d.tails.len(), 1);
}

#[test]
fn closing_the_main_window_ends_the_program() {
    let (mut app, id) = app_with_tail("x\n");
    let effects = app.update(Message::WindowClosed(MAIN));
    assert!(matches!(effects[..], [Effect::Exit]));
    let (mut app, _) = app_with_tail("x\n");
    let effects = app.update(Message::WindowClosed(id));
    assert!(!effects.iter().any(|e| matches!(e, Effect::Exit)));
    assert!(!app.has_tail(id));
}

#[test]
fn a_stopped_watch_takes_no_findings() {
    let mut app = Rig::new();
    let effects = app.update(Message::ToggleWatch);
    assert!(effects.iter().any(|e| matches!(e, Effect::StopWatch)));
    let effects = tick_with(&mut app, vec![WatchEvent::Activity("/w/a.log".to_string())]);
    assert!(effects.is_empty());
    assert_eq!(app.d.model.entry_count(), 0);
    let effects = app.update(Message::ToggleWatch);
    assert!(effects
        .iter()
        .any(|e| matches!(e, Effect::StartWatch(c) if c.directory == "/w")));
    assert!(app.d.running);
}

#[test]
fn a_restart_watches_what_the_fields_say() {
    let mut app = Rig::new();
    app.update(Message::DirChanged("logs".to_string()));
    app.update(Message::DepthChanged("3x".to_string()));
    app.update(Message::PatternsChanged("*.a;*.b".to_string()));
    let cfg = app.d.config_from_fields("/home/mike");
    assert_eq!(cfg.directory, "/home/mike/logs");
    assert_eq!(cfg.depth, 3);
    assert_eq!(cfg.patterns, ["*.a", "*.b"]);
    let effects = app.update(Message::Restart);
    assert!(effects
        .iter()
        .any(|e| matches!(e, Effect::StartWatch(c) if c.directory == "/home/mike/logs")));
    assert_eq!(app.d.active_dir, "/home/mike/logs");
    assert_eq!(app.d.active_depth, 3);
}

#[test]
fn a_file_let_go_of_is_forgotten_outside_too() {
    let mut app = Rig::new();
    app.d.model.get_or_add("/w/gone.log");
    app.d.model.mark_missing("/w/gone.log", 0);
    let effects = app.tick();
    assert!(matches!(&effects[..], [Effect::Forget(p)] if p == "/w/gone.log"));
}

#[test]
fn the_limit_blinks_for_as_long_as_a_file_is_active() {
    let mut app = Rig::new();
    app.d.model.max_windows = 1;
    app.update(Message::TileClicked("/w/a.log".to_string()));
    assert!(!app.d.cap_blinking(5_000));
    app.update(Message::TileClicked("/w/b.log".to_string()));
    assert_eq!(app.d.cap_blink_start_ms, Some(5_000));
    assert!(app.d.cap_blinking(5_000));
    assert!(!app.d.cap_blinking(5_000 + blink::cap_blink_ms(app.d.settings.active_seconds)));
}

#[test]
fn settings_leave_watch_and_tails_alone() {
    let (mut app, id) = app_with_tail("x\n");
    let _ = app.update(Message::OpenSettings);
    let _ = app.update(Message::SettingsMaxWindowsChanged("99".to_string()));
    let _ = app.update(Message::SettingsActiveSecsChanged("5".to_string()));
    let effects = app.update(Message::SettingsOk);
    assert!(!effects
        .iter()
        .any(|e| matches!(e, Effect::StartWatch(_) | Effect::StopWatch)));
    assert!(app.has_tail(id));
    assert!(app.d.running);
    assert_eq!(app.d.settings.max_windows, 50);
    assert_eq!(app.d.model.max_windows(), 50);
    assert_eq!(app.d.model.active_seconds(), 5);
}

#[test]
fn scrolling_to_the_end_follows_again() {
    let (mut app, id) = app_with_tail("x\n");
    let up = Scroll {
        y: 100 * TAIL_LINE_H,
        viewport_h: px(360.0),
        content_h: 200 * TAIL_LINE_H,
    };
    app.update(Message::TailScrolled(id, up));
    assert!(!app.tail(id).following);
    assert_eq!(app.tail(id).scroll_y, 100 * TAIL_LINE_H);
    app.send(
        id,
        TailChunk {
            new_text: Some("y\n".to_string()),
            ..Default::default()
        },
    );
    assert!(app.tick().is_empty());
    let down = Scroll {
        y: 180 * TAIL_LINE_H,
        ..up
    };
    app.update(Message::TailScrolled(id, down));
    assert!(app.tail(id).following);
    app.send(
        id,
        TailChunk {
            new_text: Some("z\n".to_string()),
            ..Default::default()
        },
    );
    let effects = app.tick();
    assert!(matches!(effects[..], [Effect::SnapToBottom(at)] if at == id));
}

#[test]
fn no_window_opens_by_itself_where_the_user_must_ask() {
    let mut app = Rig::new();
    app.d.model.no_open = true;
    let effects = tick_with(
        &mut app,
        vec![
            WatchEvent::Discovered("/w/a.log".to_string()),
            WatchEvent::Activity("/w/a.log".to_string()),
            WatchEvent::Activity("/w/b.log".to_string()),
        ],
    );
    assert!(effects.is_empty());
    let effects = app.update(Message::TileClicked("/w/a.log".to_string()));
    assert!(matches!(effects[..], [Effect::OpenTail { auto: false, .. }]));
}

#[test]
fn a_window_that_the_user_closed_is_not_opened_again_by_any_finding() {
    let mut app = Rig::new();
    tick_with(&mut app, vec![WatchEvent::Activity("/w/a.log".to_string())]);
    let id = app.d.tails[0].id;
    app.update(Message::WindowClosed(id));
    let p = || "/w/a.log".to_string();
    let effects = tick_with(
        &mut app,
        vec![
            WatchEvent::Activity(p()),
            WatchEvent::Missing(p()),
            WatchEvent::Reappeared(p()),
            WatchEvent::Activity(p()),
            WatchEvent::Discovered(p()),
        ],
    );
    assert!(effects.is_empty());
    assert!(app.d.tails.is_empty());
    let effects = app.update(Message::TileClicked(p()));
    assert!(matches!(effects[..], [Effect::OpenTail { .. }]));
}

#[test]
fn follow_uses_an_absolute_pixel_gap_not_a_fraction() {
    let content_h = 250_000 * TAIL_LINE_H;
    let viewport_h = px(360.0);
    let at_bottom = content_h - viewport_h;
    assert!(is_following(follow_gap_px(
        at_bottom, viewport_h, content_h
    )));
    assert!(is_following(follow_gap_px(
        at_bottom - TAIL_LINE_H,
        viewport_h,
        content_h
    )));
    assert!(!is_following(follow_gap_px(
        at_bottom - 3 * TAIL_LINE_H,
        viewport_h,
        content_h
    )));
    let up = at_bottom - 1000 * TAIL_LINE_H;
    assert!(
        up as f64 / at_bottom as f64 > 0.995,
        "nearly all of the text lies above"
    );
    assert!(!is_following(follow_gap_px(up, viewport_h, content_h)));
    assert!(is_following(follow_gap_px(0, px(360.0), px(90.0))));
}

#[test]
fn main_window_opened_event_sets_the_real_rect_and_a_screen_estimate() {
    let (mut app, _id) = app_with_tail("x\n");
    let main = app.d.main_id.expect("the main window is open");
    let _ = app.update(Message::WindowPlaced {
        id: main,
        position: Some((px(243.0) as i32, px(84.0) as i32)),
        size: (px(880.0) as i32, px(600.0) as i32),
    });
    assert_eq!(app.d.screen_est, Some((px(1366.0), px(768.0))));
    let r = app.d.main_rect.unwrap();
    assert_eq!(
        (r.x, r.y, r.w, r.h),
        (px(243.0), px(84.0), px(880.0), px(600.0))
    );
    let _ = app.update(Message::WindowMoved {
        id: main,
        position: (px(10.0) as i32, px(20.0) as i32),
    });
    assert_eq!(app.d.main_rect.unwrap().x, px(10.0));
    assert_eq!(app.d.screen_est, Some((px(1366.0), px(768.0))));
    let (x, _y) = next_position(PlaceInput {
        screen: Rect {
            x: 0,
            y: 0,
            w: px(1366.0),
            h: px(768.0),
        },
        win_w: TAIL_W,
        win_h: TAIL_H,
        main: Rect {
            x: px(243.0),
            y: px(84.0),
            w: px(880.0),
            h: px(600.0),
        },
        open_index: 0,
    });
    assert!(
        x + TAIL_W as i128 <= px(1366.0) as i128,
        "tail at x={x} would be off a 1366-wide screen"
    );
}

#[test]
fn events_for_other_windows_do_not_touch_the_main_rect() {
    let (mut app, tail_id) = app_with_tail("x\n");
    let _ = app.update(Message::WindowMoved {
        id: tail_id,
        position: (px(5.0) as i32, px(5.0) as i32),
    });
    assert!(app.d.main_rect.is_none());
}

#[test]
fn a_resized_main_window_keeps_its_place() {
    let mut app = Rig::new();
    let _ = app.update(Message::WindowResized {
        id: MAIN,
        size: (1, 2),
    });
    assert!(app.d.main_rect.is_none());
    let _ = app.update(Message::WindowMoved {
        id: MAIN,
        position: (3, 4),
    });
    let _ = app.update(Message::WindowResized {
        id: MAIN,
        size: (5, 6),
    });
    assert_eq!(
        app.d.main_rect,
        Some(Rect {
            x: 3,
            y: 4,
            w: 5,
            h: 6
        })
    );
    assert!(app.d.screen_est.is_none());
}

#[test]
fn tails_open_one_step_further_than_the_last() {
    let mut app = Rig::new();
    let first = app.d.tail_place();
    let _ = app.update(Message::TailSpawned {
        id: ID,
        path: "/w/t.log".to_string(),
    });
    let second = app.d.tail_place();
    assert_ne!(first, second);
    assert_eq!(first, (px(1400.0) as i128, px(220.0) as i128));
    assert_eq!(second, (px(1400.0) as i128, px(250.0) as i128));
}
