//! The program behind its windows: what is watched, what is shown, and what every event leads to.
//!
//! Nothing here opens a window or touches a file. An event comes in as a message, the state moves
//! on, and what is to be done outside comes out as a list of effects. A window that the outside
//! opens comes back as a message with the number it got.

use vstd::prelude::*;

use crate::blink;
use crate::build_info;
use crate::cli;
use crate::fskey;
use crate::layout;
use crate::layout::Arrangement;
use crate::layout::TileLayout;
use crate::notes;
use crate::notes::Note;
use crate::notes::NoteKind;
use crate::notes::Remark;
use crate::notes::Root;
use crate::notes::RootChange;
use crate::os::Os;
use crate::paths;
use crate::placement;
use crate::placement::Rect;
use crate::runtime;
use crate::runtime::Chunk;
use crate::runtime::Config;
use crate::runtime::TailChunk;
use crate::runtime::WatchConfig;
use crate::schedule;
use crate::session;
use crate::session::OpenResult;
use crate::session::Session;
use crate::session::SessionModel;
use crate::settings;
use crate::settings::Draft;
use crate::settings::ModelOpts;
use crate::settings::Settings;
use crate::settings::SettingsDraft;
use crate::strings;
use crate::table;
use crate::table::Table;
use crate::tailwin;
use crate::tailwin::Scroll;
use crate::tailwin::Tail;
use crate::tailwin::TailWin;
use crate::watch;
use crate::watch::WatchEvent;

verus! {

/// How often the program looks at what has happened, in milliseconds.
pub const TICK_MS: u64 = blink::TICK_MS;

/// So many ticks pass before a window that opened by itself is brought to the front.
pub const RAISE_DEFER_TICKS: u64 = 3;

/// What the outside tells of the time and the place.
#[derive(Debug)]
pub struct Env {
    /// The time of day, in seconds.
    pub now_secs: i64,
    /// The time since the start, in milliseconds.
    pub now_ms: u64,
    /// The current directory.
    pub cwd: String,
    /// How long a file must be gone before its tile goes, in seconds.
    pub grace_secs: i64,
}

/// What came of one tailed file.
#[derive(Debug)]
pub struct TailNews {
    /// Its window.
    pub id: u64,
    /// The pieces.
    pub chunks: Vec<TailChunk>,
}

/// Something that happened.
#[derive(Debug)]
pub enum Message {
    /// A tenth of a second has passed; what the watch and the tails have found since.
    Tick {
        /// What the watch found.
        events: Vec<WatchEvent>,
        /// What came of the tailed files.
        news: Vec<TailNews>,
    },
    /// The directory was typed or picked.
    DirChanged(String),
    /// The depth was typed.
    DepthChanged(String),
    /// The patterns were typed.
    PatternsChanged(String),
    /// The watch is to stop, or to start.
    ToggleWatch,
    /// The watch is to start afresh.
    Restart,
    /// The settings are wanted.
    OpenSettings,
    /// The window for the settings has this number.
    SettingsSpawned(u64),
    /// The window for the settings has appeared.
    SettingsOpened(u64),
    /// How many windows may be open was typed.
    SettingsMaxWindowsChanged(String),
    /// For how long a file counts as active was typed.
    SettingsActiveSecsChanged(String),
    /// The poll interval was typed.
    SettingsPollMsChanged(String),
    /// How many tiles stand side by side was typed.
    SettingsTilesPerBoxChanged(String),
    /// Whether windows open only on request was switched.
    SettingsNoOpenToggled(bool),
    /// The settings are accepted.
    SettingsOk,
    /// The settings are dropped.
    SettingsCancel,
    /// A file's tile was clicked.
    TileClicked(String),
    /// The window for the tail of a file has this number.
    TailSpawned {
        /// The number.
        id: u64,
        /// The file.
        path: String,
    },
    /// The main window has this number.
    MainOpened(u64),
    /// A window has appeared, at a place where the system tells it.
    WindowPlaced {
        /// Its number.
        id: u64,
        /// Its upper left corner.
        position: Option<(i32, i32)>,
        /// Its width and its height.
        size: (i32, i32),
    },
    /// A window was moved.
    WindowMoved {
        /// Its number.
        id: u64,
        /// Its upper left corner.
        position: (i32, i32),
    },
    /// A window has another size.
    WindowResized {
        /// Its number.
        id: u64,
        /// Its width and its height.
        size: (i32, i32),
    },
    /// A window that opened by itself has appeared.
    AutoOpenRealized(u64),
    /// A window is to come to the front.
    AttemptRaise(u64),
    /// A window is gone.
    WindowClosed(u64),
    /// A tail was scrolled.
    TailScrolled(u64, Scroll),
    /// A tail is to be closed.
    CloseTail(u64),
    /// A query was typed.
    SearchChanged(u64, String),
    /// The next match is wanted.
    SearchNext(u64),
    /// The previous match is wanted.
    SearchPrev(u64),
    /// The search is given up.
    SearchCleared(u64),
    /// The search box is wanted.
    FocusSearch(u64),
    /// The end of a tail is wanted.
    ResumeFollow(u64),
    /// Enter was pressed.
    EnterPressed(u64),
    /// Escape was pressed.
    EscPressed(u64),
}

/// Something to be done outside.
#[derive(Debug)]
pub enum Effect {
    /// A line for the log of errors.
    LogError(String),
    /// A window for the tail of a file.
    OpenTail {
        /// The file.
        path: String,
        /// It opens by itself.
        auto: bool,
    },
    /// A window for the settings.
    OpenSettings,
    /// A window is to close.
    Close(u64),
    /// A window gets the focus.
    Focus(u64),
    /// A window asks for attention.
    Attention(u64),
    /// A window is to come to the front in a moment.
    Raise(u64),
    /// The search box of a tail gets the focus.
    FocusSearch(u64),
    /// The end of a tail is brought into view.
    SnapToBottom(u64),
    /// A row of a tail is brought to the top.
    ScrollTo {
        /// The window.
        id: u64,
        /// The row.
        row: usize,
    },
    /// The watch starts.
    StartWatch(WatchConfig),
    /// The watch stops.
    StopWatch,
    /// The watch and the tails take another poll interval.
    SetPoll(u32),
    /// A file is no longer tracked.
    Forget(String),
    /// The program ends.
    Exit,
}

/// Something to be done outside.
pub enum Act {
    /// A line for the log of errors.
    LogError(Seq<char>),
    /// A window for the tail of a file, by itself or not.
    OpenTail(Seq<char>, bool),
    /// A window for the settings.
    OpenSettings,
    /// A window is to close.
    Close(u64),
    /// A window gets the focus.
    Focus(u64),
    /// A window asks for attention.
    Attention(u64),
    /// A window is to come to the front in a moment.
    Raise(u64),
    /// The search box of a tail gets the focus.
    FocusSearch(u64),
    /// The end of a tail is brought into view.
    SnapToBottom(u64),
    /// A row of a tail is brought to the top.
    ScrollTo(u64, int),
    /// The watch starts.
    StartWatch(Config),
    /// The watch stops.
    StopWatch,
    /// The watch and the tails take another poll interval.
    SetPoll(u32),
    /// A file is no longer tracked.
    Forget(Seq<char>),
    /// The program ends.
    Exit,
}

impl View for Effect {
    type V = Act;

    open spec fn view(&self) -> Act {
        match self {
            Effect::LogError(s) => Act::LogError(s@),
            Effect::OpenTail { path, auto } => Act::OpenTail(path@, *auto),
            Effect::OpenSettings => Act::OpenSettings,
            Effect::Close(id) => Act::Close(*id),
            Effect::Focus(id) => Act::Focus(*id),
            Effect::Attention(id) => Act::Attention(*id),
            Effect::Raise(id) => Act::Raise(*id),
            Effect::FocusSearch(id) => Act::FocusSearch(*id),
            Effect::SnapToBottom(id) => Act::SnapToBottom(*id),
            Effect::ScrollTo { id, row } => Act::ScrollTo(*id, *row as int),
            Effect::StartWatch(cfg) => Act::StartWatch(cfg@),
            Effect::StopWatch => Act::StopWatch,
            Effect::SetPoll(ms) => Act::SetPoll(*ms),
            Effect::Forget(p) => Act::Forget(p@),
            Effect::Exit => Act::Exit,
        }
    }
}

/// The effects.
pub open spec fn acts_of(v: Seq<Effect>) -> Seq<Act> {
    v.map_values(|e: Effect| e@)
}

/// A window with the tail of a file.
#[derive(Debug)]
pub struct Win {
    /// Its number.
    pub id: u64,
    /// What it shows.
    pub tail: TailWin,
}

/// Windows, with their numbers.
pub open spec fn wins_of(v: Seq<Win>) -> Seq<(u64, Tail)> {
    v.map_values(|w: Win| (w.id, w.tail@))
}

/// The program.
#[derive(Debug)]
pub struct DirWatch {
    /// The naming rules in force.
    pub os: Os,
    /// The tracked files.
    pub model: SessionModel,
    /// A watch is running.
    pub running: bool,
    /// How the files are shown.
    pub tile_layout: TileLayout,
    /// The main window.
    pub main_id: Option<u64>,
    /// Where the main window is, as far as it is known.
    pub main_rect: Option<Rect>,
    /// The width and the height of the screen, as far as they can be told.
    pub screen_est: Option<(i64, i64)>,
    /// The directory as typed.
    pub dir_input: String,
    /// The depth as typed.
    pub depth_input: String,
    /// The patterns as typed.
    pub patterns_input: String,
    /// The directory being watched.
    pub active_dir: String,
    /// The patterns in force.
    pub active_patterns: Vec<String>,
    /// The depth in force.
    pub active_depth: i32,
    /// How many windows may be open.
    pub max_windows: i32,
    /// The note in the status line.
    pub note: Option<Note>,
    /// The settings in force.
    pub settings: Settings,
    /// The settings as they are being edited.
    pub settings_win: Option<SettingsDraft>,
    /// The windows with tails, in the order in which they opened.
    pub tails: Vec<Win>,
    /// The window of each file, by the identity of its path.
    pub path_to_win: Table<u64>,
    /// Windows that were told to close and are not gone yet.
    pub closing: Vec<u64>,
    /// How many ticks have passed.
    pub tick_count: u64,
    /// When a window was last refused, in milliseconds since the start.
    pub cap_blink_start_ms: Option<u64>,
    /// A window that is to come to the front, and at which tick.
    pub raise_pending: Option<(u64, u64)>,
}

/// The state of the program.
#[verifier::ext_equal]
pub struct Desk {
    /// The naming rules in force.
    pub os: Os,
    /// The tracked files.
    pub session: Session,
    /// A watch is running.
    pub running: bool,
    /// How the files are shown.
    pub layout: Arrangement,
    /// The main window.
    pub main_id: Option<u64>,
    /// Where the main window is, as far as it is known.
    pub main_rect: Option<Rect>,
    /// The width and the height of the screen, as far as they can be told.
    pub screen_est: Option<(i64, i64)>,
    /// The directory as typed.
    pub dir_input: Seq<char>,
    /// The depth as typed.
    pub depth_input: Seq<char>,
    /// The patterns as typed.
    pub patterns_input: Seq<char>,
    /// The directory being watched.
    pub active_dir: Seq<char>,
    /// The patterns in force.
    pub active_patterns: Seq<Seq<char>>,
    /// The depth in force.
    pub active_depth: i32,
    /// How many windows may be open.
    pub max_windows: i32,
    /// The note in the status line.
    pub note: Option<Remark>,
    /// The settings in force.
    pub settings: Settings,
    /// The settings as they are being edited.
    pub form: Option<Draft>,
    /// The windows with tails.
    pub tails: Seq<(u64, Tail)>,
    /// The window of each file, by the identity of its path.
    pub by_path: Seq<(Seq<char>, u64)>,
    /// Windows that were told to close and are not gone yet.
    pub closing: Set<u64>,
    /// How many ticks have passed.
    pub tick: u64,
    /// When a window was last refused, in milliseconds since the start.
    pub cap_blink: Option<u64>,
    /// A window that is to come to the front, and at which tick.
    pub raise: Option<(u64, u64)>,
}

/// The form that is open.
pub open spec fn form_of(d: Option<SettingsDraft>) -> Option<Draft> {
    match d {
        Some(x) => Some(x@),
        None => None,
    }
}

impl View for DirWatch {
    type V = Desk;

    open spec fn view(&self) -> Desk {
        Desk {
            os: self.os,
            session: self.model@,
            running: self.running,
            layout: self.tile_layout@,
            main_id: self.main_id,
            main_rect: self.main_rect,
            screen_est: self.screen_est,
            dir_input: self.dir_input@,
            depth_input: self.depth_input@,
            patterns_input: self.patterns_input@,
            active_dir: self.active_dir@,
            active_patterns: strings::views(self.active_patterns@),
            active_depth: self.active_depth,
            max_windows: self.max_windows,
            note: notes::remark_of(self.note),
            settings: self.settings,
            form: form_of(self.settings_win),
            tails: wins_of(self.tails@),
            by_path: self.path_to_win@,
            closing: self.closing@.to_set(),
            tick: self.tick_count,
            cap_blink: self.cap_blink_start_ms,
            raise: self.raise_pending,
        }
    }
}

// ---------------------------------------------------------------------------------------------
// Model
// ---------------------------------------------------------------------------------------------

/// The state and what is to be done outside.
#[verifier::ext_equal]
pub struct Out {
    /// The state.
    pub desk: Desk,
    /// What is to be done.
    pub acts: Seq<Act>,
}

/// A state with nothing to be done.
pub open spec fn quiet(d: Desk) -> Out {
    Out { desk: d, acts: seq![] }
}

/// One more thing to be done.
pub open spec fn and_do(o: Out, a: Act) -> Out {
    Out { acts: o.acts.push(a), ..o }
}

/// The window with a number.
pub open spec fn win_at(tails: Seq<(u64, Tail)>, id: u64) -> Option<int>
    decreases tails.len(),
{
    if tails.len() == 0 {
        None
    } else {
        match win_at(tails.drop_last(), id) {
            Some(i) => Some(i),
            None => if tails.last().0 == id {
                Some(tails.len() - 1)
            } else {
                None
            },
        }
    }
}

/// Whether a number is that of a tail.
pub open spec fn is_tail(d: Desk, id: u64) -> bool {
    win_at(d.tails, id) is Some
}

/// The state with another tail in a window.
pub open spec fn with_tail(d: Desk, i: int, t: Tail) -> Desk {
    Desk { tails: d.tails.update(i, (d.tails[i].0, t)), ..d }
}

/// A row to be brought to the top, if any.
pub open spec fn and_scroll(o: Out, id: u64, row: Option<int>) -> Out {
    match row {
        Some(r) => and_do(o, Act::ScrollTo(id, r)),
        None => o,
    }
}

/// Whether a number is that of the window with the settings.
pub open spec fn is_form(d: Desk, id: u64) -> bool {
    d.form matches Some(f) && f.id == id
}

/// The model once a file was listed: it is tracked where the limits allow, and it is there.
pub open spec fn listed(s: Session, path: Seq<char>) -> Session {
    let a = session::admitted(s, path);
    match session::place(a, path) {
        Some(i) => session::with_state(a, i, session::present(a.files[i])),
        None => a,
    }
}

/// The model after a finding of the watch.
pub open spec fn after_event(s: Session, ev: WatchEvent, now: i64) -> Session {
    match ev {
        WatchEvent::Discovered(p) => listed(s, p@),
        WatchEvent::Reappeared(p) => listed(s, p@),
        WatchEvent::Missing(p) => session::after_missing(s, p@, now),
        WatchEvent::Activity(p) => if session::activity_wants_window(s, p@) {
            session::after_activity(s, p@, now)
        } else {
            session::after_unread(session::after_activity(s, p@, now), p@)
        },
        WatchEvent::Error(_) => s,
        WatchEvent::Recovered => s,
    }
}

/// The file for which a finding calls for a window.
pub open spec fn event_wants(s: Session, ev: WatchEvent) -> Option<Seq<char>> {
    match ev {
        WatchEvent::Activity(p) => if session::activity_wants_window(s, p@) {
            Some(p@)
        } else {
            None
        },
        _ => None,
    }
}

/// What findings amount to: the model after them, the files that call for a window, and what last
/// became of the directory.
#[verifier::ext_equal]
pub struct Drained {
    /// The model.
    pub session: Session,
    /// The files that call for a window.
    pub wants: Seq<Seq<char>>,
    /// What last became of the directory.
    pub root: Option<Root>,
}

/// What findings amount to.
pub open spec fn drained(s: Session, evs: Seq<WatchEvent>, now: i64) -> Drained
    decreases evs.len(),
{
    if evs.len() == 0 {
        Drained { session: s, wants: seq![], root: None }
    } else {
        let d = drained(s, evs.drop_last(), now);
        let ev = evs.last();
        Drained {
            session: after_event(d.session, ev, now),
            wants: match event_wants(d.session, ev) {
                Some(p) => d.wants.push(p),
                None => d.wants,
            },
            root: match ev {
                WatchEvent::Error(m) => Some(Root::Down(m@)),
                WatchEvent::Recovered => Some(Root::Up),
                _ => d.root,
            },
        }
    }
}

/// One more tick, and a window brought to the front if it is time.
pub open spec fn ticked(d: Desk) -> Out {
    let t = if d.tick == u64::MAX {
        0u64
    } else {
        (d.tick + 1) as u64
    };
    match d.raise {
        Some((id, at)) if t >= at => Out {
            desk: Desk { tick: t, raise: None, ..d },
            acts: seq![Act::Raise(id)],
        },
        _ => quiet(Desk { tick: t, ..d }),
    }
}

/// Lines for the log.
pub open spec fn log_acts(log: Seq<Seq<char>>) -> Seq<Act> {
    log.map_values(|s: Seq<char>| Act::LogError(s))
}

/// The findings of a running watch taken in, and the note brought up to date.
pub open spec fn informed(o: Out, evs: Seq<WatchEvent>, now: i64) -> Out {
    let d = o.desk;
    let dr = if d.running {
        drained(d.session, evs, now)
    } else {
        Drained { session: d.session, wants: seq![], root: None }
    };
    let n = notes::after_tick(
        d.note,
        dr.root,
        d.running,
        dr.session.dir_overflow,
        dr.session.file_overflow,
    );
    Out {
        desk: Desk { session: dr.session, note: n.note, ..d },
        acts: o.acts + log_acts(n.log),
    }
}

/// The files that call for a window.
pub open spec fn wanted(d: Desk, evs: Seq<WatchEvent>, now: i64) -> Seq<Seq<char>> {
    if d.running {
        drained(d.session, evs, now).wants
    } else {
        seq![]
    }
}

/// A window opens by itself where the number allows. Where it does not, the file is unread and the
/// count blinks.
pub open spec fn opened_by_itself(o: Out, path: Seq<char>, now_ms: u64) -> Out {
    let s = o.desk.session;
    let a = session::after_open(s, path);
    match session::open_outcome(s, path) {
        OpenResult::Opened => and_do(
            Out { desk: Desk { session: a, ..o.desk }, ..o },
            Act::OpenTail(path, true),
        ),
        OpenResult::BlockedByCap => Out {
            desk: Desk {
                session: session::after_unread(a, path),
                cap_blink: Some(now_ms),
                ..o.desk
            },
            ..o
        },
        OpenResult::AlreadyOpen => Out { desk: Desk { session: a, ..o.desk }, ..o },
    }
}

/// Windows open by themselves, one after the other.
pub open spec fn opened_all(o: Out, want: Seq<Seq<char>>, now_ms: u64) -> Out
    decreases want.len(),
{
    if want.len() == 0 {
        o
    } else {
        opened_by_itself(opened_all(o, want.drop_last(), now_ms), want.last(), now_ms)
    }
}

/// Files that have been gone for long are let go of, but not while the directory cannot be read.
pub open spec fn pruned(o: Out, now: i64, grace: i64) -> Out {
    if notes::stands(o.desk.note, NoteKind::WatchError) {
        o
    } else {
        Out {
            desk: Desk { session: session::after_prune(o.desk.session, now, grace), ..o.desk },
            acts: o.acts + session::gone_paths(o.desk.session.files, now, grace).map_values(
                |p: Seq<char>| Act::Forget(p),
            ),
        }
    }
}

/// The arrangement brought up to date.
pub open spec fn rearranged(o: Out) -> Out {
    let d = o.desk;
    Out {
        desk: Desk {
            layout: layout::refreshed(
                d.layout,
                d.session,
                d.active_dir,
                d.settings.tiles_per_box,
            ),
            ..d
        },
        ..o
    }
}

/// What came of one tailed file, taken in.
pub open spec fn fed_one(o: Out, id: u64, cs: Seq<Chunk>) -> Out {
    let d = o.desk;
    match win_at(d.tails, id) {
        Some(i) => {
            let t = d.tails[i].1;
            let u = Out {
                desk: with_tail(
                    d,
                    i,
                    tailwin::fed(
                        t,
                        cs,
                        tailwin::SCROLLBACK_CAP_BYTES as int,
                        tailwin::SCROLLBACK_TRIM_TO as int,
                    ),
                ),
                ..o
            };
            if tailwin::any_adds(cs) && t.following {
                and_do(u, Act::SnapToBottom(id))
            } else {
                u
            }
        },
        None => o,
    }
}

/// What came of tailed files, taken in.
pub open spec fn fed_all(o: Out, news: Seq<TailNews>) -> Out
    decreases news.len(),
{
    if news.len() == 0 {
        o
    } else {
        fed_one(
            fed_all(o, news.drop_last()),
            news.last().id,
            tailwin::chunk_views(news.last().chunks@),
        )
    }
}

/// A search that was put off is run if it is due.
pub open spec fn scanned_one(o: Out, i: int) -> Out {
    let (id, t) = o.desk.tails[i];
    if tailwin::is_due(t, o.desk.tick) {
        let u = Tail { due: None, ..t };
        and_scroll(
            Out { desk: with_tail(o.desk, i, tailwin::jumped(tailwin::scanned(u))), ..o },
            id,
            tailwin::jump_row(tailwin::scanned(u)),
        )
    } else {
        o
    }
}

/// Searches that were put off are run in the first `n` windows.
pub open spec fn scanned_first(o: Out, n: int) -> Out
    decreases n,
{
    if n <= 0 {
        o
    } else {
        scanned_one(scanned_first(o, n - 1), n - 1)
    }
}

/// A tick.
pub open spec fn after_tick(d: Desk, evs: Seq<WatchEvent>, news: Seq<TailNews>, env: Env) -> Out {
    let o1 = ticked(d);
    let o2 = informed(o1, evs, env.now_secs);
    let o3 = opened_all(o2, wanted(o1.desk, evs, env.now_secs), env.now_ms);
    let o4 = pruned(o3, env.now_secs, env.grace_secs);
    let o5 = rearranged(o4);
    let o6 = fed_all(o5, news);
    scanned_first(o6, o6.desk.tails.len() as int)
}

/// What the fields say is to be watched. A depth that is no number leaves the one in force.
pub open spec fn config_of(d: Desk, cwd: Seq<char>) -> Config {
    Config {
        directory: paths::spelled(
            d.os,
            paths::normal(paths::named_dir(d.os, d.dir_input, cwd)),
        ),
        patterns: settings::listed_patterns(strings::pieces(d.patterns_input, ';', ',')),
        poll_interval_ms: d.settings.poll_ms,
        depth: cli::within(
            match strings::int_within(
                strings::trimmed(d.depth_input),
                i32::MIN as int,
                i32::MAX as int,
            ) {
                Some(v) => v,
                None => d.active_depth as int,
            },
            0,
            watch::MAX_DEPTH as int,
        ) as i32,
    }
}

/// The numbers of windows.
pub open spec fn ids_of(tails: Seq<(u64, Tail)>) -> Seq<u64> {
    tails.map_values(|w: (u64, Tail)| w.0)
}

/// A watch starts from what the fields say: the files are forgotten, and every tail closes.
pub open spec fn started(o: Out, cwd: Seq<char>) -> Out {
    let d = o.desk;
    let cfg = config_of(d, cwd);
    let s = settings::tuned(session::initial(d.os), d.settings);
    Out {
        desk: Desk {
            session: s,
            running: true,
            layout: Arrangement { built: false, ..d.layout },
            dir_input: cfg.directory,
            active_dir: cfg.directory,
            active_patterns: cfg.patterns,
            active_depth: cfg.depth,
            max_windows: s.max_windows,
            tails: seq![],
            by_path: seq![],
            closing: d.closing.union(ids_of(d.tails).to_set()),
            ..d
        },
        acts: o.acts.push(Act::StartWatch(cfg)) + ids_of(d.tails).map_values(
            |id: u64| Act::Close(id),
        ),
    }
}

/// The program at its start.
pub open spec fn at_start(os: Os, cfg: Config, opts: ModelOpts, cwd: Seq<char>) -> Out {
    let dir = paths::spelled(os, paths::normal(paths::named_dir(os, cfg.directory, cwd)));
    let d = Desk {
        os,
        session: settings::with_opts(session::initial(os), opts),
        running: false,
        layout: layout::none_made(),
        main_id: None,
        main_rect: None,
        screen_est: None,
        dir_input: dir,
        depth_input: strings::signed_decimal(cfg.depth as int),
        patterns_input: strings::joined(cfg.patterns, ';'),
        active_dir: dir,
        active_patterns: cfg.patterns,
        active_depth: cfg.depth,
        max_windows: 10,
        note: None,
        settings: settings::at_start(cfg.poll_interval_ms, opts),
        form: None,
        tails: seq![],
        by_path: seq![],
        closing: Set::empty(),
        tick: 0,
        cap_blink: None,
        raise: None,
    };
    started(rearranged(quiet(d)), cwd)
}

/// A tile was clicked: its window opens, comes to the front, or is refused.
pub open spec fn clicked(d: Desk, path: Seq<char>, now_ms: u64) -> Out {
    let a = Desk { session: session::after_open(d.session, path), ..d };
    match session::open_outcome(d.session, path) {
        OpenResult::AlreadyOpen => match table::lookup(
            d.by_path,
            fskey::key_of(d.os, path),
        ) {
            Some(id) => and_do(quiet(a), Act::Focus(id)),
            None => quiet(a),
        },
        OpenResult::BlockedByCap => quiet(Desk { cap_blink: Some(now_ms), ..a }),
        OpenResult::Opened => and_do(quiet(a), Act::OpenTail(path, false)),
    }
}

/// The window for the tail of a file is there.
pub open spec fn spawned(d: Desk, id: u64, path: Seq<char>) -> Desk {
    let t = tailwin::opened(path);
    Desk {
        tails: match win_at(d.tails, id) {
            Some(i) => d.tails.update(i, (id, t)),
            None => d.tails.push((id, t)),
        },
        by_path: table::put(d.by_path, fskey::key_of(d.os, path), id),
        ..d
    }
}

/// A window is gone.
pub open spec fn gone(d: Desk, id: u64) -> Out {
    if d.main_id == Some(id) {
        and_do(quiet(d), Act::Exit)
    } else if is_form(d, id) {
        quiet(Desk { form: None, ..d })
    } else {
        let e = match win_at(d.tails, id) {
            Some(i) => Desk {
                session: session::after_close(d.session, d.tails[i].1.path),
                by_path: table::erase(
                    d.by_path,
                    fskey::key_of(d.os, d.tails[i].1.path),
                ),
                tails: d.tails.remove(i),
                ..d
            },
            None => d,
        };
        quiet(Desk { closing: e.closing.remove(id), ..e })
    }
}

/// The settings are accepted: they are in force at once, and nothing else changes.
pub open spec fn accepted(d: Desk) -> Out {
    match d.form {
        None => quiet(d),
        Some(f) => {
            let v = settings::committed(f, d.settings);
            let s = settings::tuned(d.session, v);
            let o = and_do(
                quiet(
                    Desk {
                        form: None,
                        settings: v,
                        session: s,
                        max_windows: s.max_windows,
                        closing: d.closing.insert(f.id),
                        ..d
                    },
                ),
                Act::Close(f.id),
            );
            if v.poll_ms != d.settings.poll_ms {
                and_do(o, Act::SetPoll(v.poll_ms))
            } else {
                o
            }
        },
    }
}

/// The settings are dropped.
pub open spec fn dropped(d: Desk) -> Out {
    match d.form {
        None => quiet(d),
        Some(f) => and_do(
            quiet(Desk { form: None, closing: d.closing.insert(f.id), ..d }),
            Act::Close(f.id),
        ),
    }
}

/// A query was typed.
pub open spec fn queried(d: Desk, id: u64, query: Seq<char>) -> Out {
    match win_at(d.tails, id) {
        Some(i) => and_scroll(
            quiet(with_tail(d, i, tailwin::queried(d.tails[i].1, query, d.tick))),
            id,
            tailwin::query_row(d.tails[i].1, query),
        ),
        None => quiet(d),
    }
}

/// The next match is wanted.
pub open spec fn advanced(d: Desk, id: u64) -> Out {
    match win_at(d.tails, id) {
        Some(i) => and_scroll(
            quiet(with_tail(d, i, tailwin::advanced(d.tails[i].1))),
            id,
            tailwin::advance_row(d.tails[i].1),
        ),
        None => quiet(d),
    }
}

/// The previous match is wanted.
pub open spec fn stepped_back(d: Desk, id: u64) -> Out {
    match win_at(d.tails, id) {
        Some(i) => {
            let t = tailwin::stepped(d.tails[i].1, false);
            and_scroll(
                quiet(with_tail(d, i, tailwin::jumped(t))),
                id,
                tailwin::jump_row(t),
            )
        },
        None => quiet(d),
    }
}

/// The search is given up.
pub open spec fn unsearched(d: Desk, id: u64) -> Out {
    match win_at(d.tails, id) {
        Some(i) => and_do(
            quiet(with_tail(d, i, tailwin::unsearched(d.tails[i].1))),
            Act::FocusSearch(id),
        ),
        None => quiet(d),
    }
}

/// A tail was scrolled.
pub open spec fn scrolled(d: Desk, id: u64, s: Scroll) -> Desk {
    match win_at(d.tails, id) {
        Some(i) => with_tail(d, i, tailwin::scrolled(d.tails[i].1, s)),
        None => d,
    }
}

/// The end of a tail is followed.
pub open spec fn resumed(d: Desk, id: u64) -> Desk {
    match win_at(d.tails, id) {
        Some(i) => with_tail(d, i, Tail { following: true, ..d.tails[i].1 }),
        None => d,
    }
}

/// The main window has appeared. It opens in the middle of the screen, which tells how large the
/// screen is; what was told first stays.
pub open spec fn placed(d: Desk, position: Option<(i32, i32)>, size: (i32, i32)) -> Desk {
    match position {
        Some((x, y)) => Desk {
            main_rect: Some(
                Rect { x: x as i64, y: y as i64, w: size.0 as i64, h: size.1 as i64 },
            ),
            screen_est: match d.screen_est {
                Some(s) => Some(s),
                None => Some(((2 * x + size.0) as i64, (2 * y + size.1) as i64)),
            },
            ..d
        },
        None => d,
    }
}

/// The main window was moved. Where nothing was known of it, it is taken to have the size it opens
/// with.
pub open spec fn moved(d: Desk, x: i32, y: i32) -> Desk {
    let r = match d.main_rect {
        Some(r) => r,
        None => Rect { x: 0, y: 0, w: placement::MAIN_W, h: placement::MAIN_H },
    };
    Desk { main_rect: Some(Rect { x: x as i64, y: y as i64, ..r }), ..d }
}

/// The main window has another size.
pub open spec fn resized(d: Desk, w: i32, h: i32) -> Desk {
    match d.main_rect {
        Some(r) => Desk { main_rect: Some(Rect { w: w as i64, h: h as i64, ..r }), ..d },
        None => d,
    }
}

/// What the form becomes when a field is typed.
pub open spec fn edited(d: Desk, f: Draft) -> Out {
    quiet(
        Desk {
            form: match d.form {
                Some(_) => Some(f),
                None => None,
            },
            ..d
        },
    )
}

/// What every message leads to.
pub open spec fn after(d: Desk, m: Message, env: Env) -> Out {
    match m {
        Message::Tick { events, news } => after_tick(d, events@, news@, env),
        Message::DirChanged(s) => quiet(Desk { dir_input: s@, ..d }),
        Message::DepthChanged(s) => quiet(Desk { depth_input: strings::digits_in(s@), ..d }),
        Message::PatternsChanged(s) => quiet(Desk { patterns_input: s@, ..d }),
        Message::ToggleWatch => if d.running {
            and_do(
                quiet(
                    Desk {
                        running: false,
                        note: Some(Remark { kind: NoteKind::Plain, text: "stopped"@ }),
                        ..d
                    },
                ),
                Act::StopWatch,
            )
        } else {
            started(quiet(Desk { note: None, ..d }), env.cwd@)
        },
        Message::Restart => started(quiet(Desk { note: None, ..d }), env.cwd@),
        Message::OpenSettings => match d.form {
            Some(f) => and_do(quiet(d), Act::Focus(f.id)),
            None => and_do(quiet(d), Act::OpenSettings),
        },
        Message::SettingsSpawned(id) => quiet(
            Desk { form: Some(settings::shown_in(id, d.settings)), ..d },
        ),
        Message::SettingsOpened(_) => quiet(d),
        Message::SettingsMaxWindowsChanged(s) => edited(
            d,
            Draft { max_windows: strings::digits_in(s@), ..d.form->0 },
        ),
        Message::SettingsActiveSecsChanged(s) => edited(
            d,
            Draft { active_seconds: strings::digits_in(s@), ..d.form->0 },
        ),
        Message::SettingsPollMsChanged(s) => edited(
            d,
            Draft { poll_ms: strings::digits_in(s@), ..d.form->0 },
        ),
        Message::SettingsTilesPerBoxChanged(s) => edited(
            d,
            Draft { tiles_per_box: strings::digits_in(s@), ..d.form->0 },
        ),
        Message::SettingsNoOpenToggled(v) => edited(d, Draft { no_open: v, ..d.form->0 }),
        Message::SettingsOk => accepted(d),
        Message::SettingsCancel => dropped(d),
        Message::TileClicked(p) => clicked(d, p@, env.now_ms),
        Message::TailSpawned { id, path } => quiet(spawned(d, id, path@)),
        Message::MainOpened(id) => quiet(Desk { main_id: Some(id), ..d }),
        Message::AutoOpenRealized(id) => if is_tail(d, id) {
            and_do(
                quiet(
                    Desk {
                        raise: if d.os == Os::Windows {
                            Some((id, schedule::at_most_max(d.tick + RAISE_DEFER_TICKS)))
                        } else {
                            d.raise
                        },
                        ..d
                    },
                ),
                Act::Attention(id),
            )
        } else {
            quiet(d)
        },
        Message::AttemptRaise(id) => if is_tail(d, id) {
            and_do(quiet(d), Act::Focus(id))
        } else {
            quiet(d)
        },
        Message::WindowClosed(id) => gone(d, id),
        Message::WindowPlaced { id, position, size } => if d.main_id == Some(id) {
            quiet(placed(d, position, size))
        } else {
            quiet(d)
        },
        Message::WindowMoved { id, position } => if d.main_id == Some(id) {
            quiet(moved(d, position.0, position.1))
        } else {
            quiet(d)
        },
        Message::WindowResized { id, size } => if d.main_id == Some(id) {
            quiet(resized(d, size.0, size.1))
        } else {
            quiet(d)
        },
        Message::TailScrolled(id, s) => quiet(scrolled(d, id, s)),
        Message::CloseTail(id) => if is_tail(d, id) {
            and_do(quiet(d), Act::Close(id))
        } else {
            quiet(d)
        },
        Message::SearchChanged(id, q) => queried(d, id, q@),
        Message::SearchNext(id) => advanced(d, id),
        Message::SearchPrev(id) => stepped_back(d, id),
        Message::SearchCleared(id) => unsearched(d, id),
        Message::FocusSearch(id) => if is_tail(d, id) {
            and_do(quiet(d), Act::FocusSearch(id))
        } else {
            quiet(d)
        },
        Message::ResumeFollow(id) => if is_tail(d, id) {
            and_do(quiet(resumed(d, id)), Act::SnapToBottom(id))
        } else {
            quiet(d)
        },
        Message::EnterPressed(id) => if is_form(d, id) {
            accepted(d)
        } else {
            advanced(d, id)
        },
        Message::EscPressed(id) => if is_form(d, id) {
            dropped(d)
        } else {
            match win_at(d.tails, id) {
                Some(i) => if d.tails[i].1.query.len() > 0 {
                    unsearched(d, id)
                } else {
                    quiet(d)
                },
                None => quiet(d),
            }
        },
    }
}

// ---------------------------------------------------------------------------------------------
// Findings of the watch
// ---------------------------------------------------------------------------------------------

/// Takes a finding of the watch in, and returns the file for which it calls for a window.
pub fn apply_event(model: &mut SessionModel, ev: &WatchEvent, now: i64) -> (r: Option<String>)
    requires
        old(model).wf(),
    ensures
        final(model).wf(),
        final(model)@ == after_event(old(model)@, *ev, now),
        runtime::text_of(r) == event_wants(old(model)@, *ev),
{
    match ev {
        WatchEvent::Discovered(p) => {
            note_listed(model, p.as_str());
            None
        },
        WatchEvent::Reappeared(p) => {
            note_listed(model, p.as_str());
            None
        },
        WatchEvent::Missing(p) => {
            model.mark_missing(p.as_str(), now);
            None
        },
        WatchEvent::Activity(p) => activity(model, p.as_str(), now),
        WatchEvent::Error(_) => None,
        WatchEvent::Recovered => None,
    }
}

/// Takes note that a file was listed.
fn note_listed(model: &mut SessionModel, path: &str)
    requires
        old(model).wf(),
    ensures
        final(model).wf(),
        final(model)@ == listed(old(model)@, path@),
{
    if let Some(e) = model.get_or_add(path) {
        SessionModel::clear_missing(e);
    }
}

/// Takes note of a write, and returns the file if it calls for a window. A file that stays closed
/// is unread.
pub fn activity(model: &mut SessionModel, path: &str, now: i64) -> (r: Option<String>)
    requires
        old(model).wf(),
    ensures
        final(model).wf(),
        final(model)@ == (if session::activity_wants_window(old(model)@, path@) {
            session::after_activity(old(model)@, path@, now)
        } else {
            session::after_unread(session::after_activity(old(model)@, path@, now), path@)
        }),
        runtime::text_of(r) == (if session::activity_wants_window(old(model)@, path@) {
            Some(path@)
        } else {
            None
        }),
{
    if model.mark_activity(path, now) {
        Some(path.to_owned())
    } else {
        model.mark_unread_if_closed(path);
        None
    }
}

/// What a window that would open by itself leads to.
#[derive(Debug, Clone, Copy, PartialEq, Eq, Structural)]
pub enum AutoOpenAction {
    /// It opens, and asks for attention.
    FlashAttention,
    /// It is refused, and the count blinks.
    BlinkCap,
    /// It is open already.
    Nothing,
}

/// What a window that would open by itself leads to.
pub fn auto_open_action(result: OpenResult) -> (r: AutoOpenAction)
    ensures
        r == (match result {
            OpenResult::Opened => AutoOpenAction::FlashAttention,
            OpenResult::BlockedByCap => AutoOpenAction::BlinkCap,
            OpenResult::AlreadyOpen => AutoOpenAction::Nothing,
        }),
{
    match result {
        OpenResult::Opened => AutoOpenAction::FlashAttention,
        OpenResult::BlockedByCap => AutoOpenAction::BlinkCap,
        OpenResult::AlreadyOpen => AutoOpenAction::Nothing,
    }
}

// ---------------------------------------------------------------------------------------------
// Proofs
// ---------------------------------------------------------------------------------------------

/// One more effect is one more thing to be done.
pub broadcast proof fn lemma_acts_push(v: Seq<Effect>, e: Effect)
    ensures
        #[trigger] acts_of(v.push(e)) == acts_of(v).push(e@),
{
    assert(acts_of(v.push(e)) =~= acts_of(v).push(e@));
}

proof fn lemma_win_at(tails: Seq<(u64, Tail)>, id: u64)
    ensures
        win_at(tails, id) matches Some(i) ==> 0 <= i < tails.len() && tails[i].0 == id,
        win_at(tails, id) is None ==> forall|i: int|
            0 <= i < tails.len() ==> (#[trigger] tails[i]).0 != id,
    decreases tails.len(),
{
    if tails.len() > 0 {
        let init = tails.drop_last();
        lemma_win_at(init, id);
        if win_at(tails, id) is None {
            assert forall|i: int| 0 <= i < tails.len() implies (#[trigger] tails[i]).0 != id by {
                if i < init.len() {
                    assert(init[i] == tails[i]);
                }
            }
        }
        if win_at(init, id) is Some {
            let i = win_at(init, id)->0;
            assert(init[i] == tails[i]);
        }
    }
}

proof fn lemma_win_at_prefix(tails: Seq<(u64, Tail)>, id: u64, n: int)
    requires
        0 <= n <= tails.len(),
        win_at(tails.take(n), id) is Some,
    ensures
        win_at(tails, id) == win_at(tails.take(n), id),
    decreases tails.len() - n,
{
    if n < tails.len() {
        assert(tails.take(n + 1).drop_last() =~= tails.take(n));
        lemma_win_at_prefix(tails, id, n + 1);
    } else {
        assert(tails.take(n) =~= tails);
    }
}

/// No two windows have one number.
pub open spec fn numbers_differ(tails: Seq<(u64, Tail)>) -> bool {
    forall|i: int, j: int|
        0 <= i < j < tails.len() ==> (#[trigger] tails[i]).0 != (#[trigger] tails[j]).0
}

// ---------------------------------------------------------------------------------------------
// The program
// ---------------------------------------------------------------------------------------------

/// A row to be brought to the top, if any.
fn add_scroll(out: &mut Vec<Effect>, id: u64, row: Option<usize>)
    ensures
        acts_of(final(out)@) == (match row {
            Some(r) => acts_of(old(out)@).push(Act::ScrollTo(id, r as int)),
            None => acts_of(old(out)@),
        }),
{
    broadcast use lemma_acts_push;

    if let Some(row) = row {
        out.push(Effect::ScrollTo { id, row });
    }
}

/// Nothing to be done.
fn nothing() -> (r: Vec<Effect>)
    ensures
        acts_of(r@) == Seq::<Act>::empty(),
{
    let r: Vec<Effect> = Vec::new();
    assert(acts_of(r@) =~= Seq::<Act>::empty());
    r
}

/// One thing to be done.
fn only(e: Effect) -> (r: Vec<Effect>)
    ensures
        acts_of(r@) == Seq::<Act>::empty().push(e@),
{
    let mut r = nothing();
    proof {
        lemma_acts_push(r@, e);
    }
    r.push(e);
    r
}

impl DirWatch {
    /// What always holds: the files, the tails and the tables are sound, and no two windows have
    /// one number.
    pub open spec fn wf(&self) -> bool {
        &&& self.model.wf()
        &&& self.path_to_win.wf()
        &&& forall|i: int| 0 <= i < self.tails@.len() ==> (#[trigger] self.tails@[i]).tail.wf()
        &&& numbers_differ(self@.tails)
    }

    /// The place of a window with a tail.
    fn find(&self, id: u64) -> (r: Option<usize>)
        ensures
            match r {
                Some(i) => win_at(self@.tails, id) == Some(i as int) && i < self.tails@.len()
                    && self.tails@[i as int].id == id,
                None => win_at(self@.tails, id) is None,
            },
    {
        let ghost ts = self@.tails;
        let mut i: usize = 0;
        assert(ts.take(0) =~= Seq::<(u64, Tail)>::empty());
        while i < self.tails.len()
            invariant
                i <= self.tails@.len(),
                ts == wins_of(self.tails@),
                win_at(ts.take(i as int), id) is None,
            decreases self.tails@.len() - i,
        {
            assert(ts.take(i as int + 1).drop_last() =~= ts.take(i as int));
            assert(ts.take(i as int + 1).last() == (
                self.tails@[i as int].id,
                self.tails@[i as int].tail@,
            ));
            if self.tails[i].id == id {
                proof {
                    lemma_win_at_prefix(ts, id, i as int + 1);
                }
                return Some(i);
            }
            i += 1;
        }
        assert(ts.take(i as int) =~= ts);
        None
    }

    /// The tail in a window.
    pub fn tail(&self, id: u64) -> (r: Option<&TailWin>)
        ensures
            match r {
                Some(t) => win_at(self@.tails, id) matches Some(i) && t@ == self@.tails[i].1,
                None => win_at(self@.tails, id) is None,
            },
    {
        match self.find(id) {
            Some(i) => Some(&self.tails[i].tail),
            None => None,
        }
    }

    /// Takes note that a window was told to close.
    fn mark_closing(&mut self, id: u64)
        ensures
            final(self)@ == (Desk { closing: old(self)@.closing.insert(id), ..old(self)@ }),
            old(self).wf() ==> final(self).wf(),
    {
        let ghost before = self.closing@;
        self.closing.push(id);
        proof {
            let a = self.closing@;
            assert forall|x: u64| #[trigger] a.to_set().contains(x) == before.to_set().insert(
                id,
            ).contains(x) by {
                if before.contains(x) {
                    let k = choose|k: int| 0 <= k < before.len() && before[k] == x;
                    assert(a[k] == x);
                }
                assert(a[before.len() as int] == id);
                if a.contains(x) && x != id {
                    let k = choose|k: int| 0 <= k < a.len() && a[k] == x;
                    assert(before[k] == x);
                }
            }
            assert(a.to_set() =~= before.to_set().insert(id));
        }
    }

    /// Takes note that a window is gone.
    fn unmark_closing(&mut self, id: u64)
        ensures
            final(self)@ == (Desk { closing: old(self)@.closing.remove(id), ..old(self)@ }),
            old(self).wf() ==> final(self).wf(),
    {
        let ghost before = self.closing@;
        let mut kept: Vec<u64> = Vec::new();
        let mut i: usize = 0;
        while i < self.closing.len()
            invariant
                i <= self.closing@.len(),
                before == self.closing@,
                forall|x: u64|
                    #[trigger] kept@.contains(x) == (before.take(i as int).contains(x) && x != id),
            decreases self.closing@.len() - i,
        {
            let x = self.closing[i];
            let ghost k0 = kept@;
            if x != id {
                kept.push(x);
            }
            proof {
                let a = before.take(i as int);
                let b = before.take(i as int + 1);
                assert(b =~= a.push(x));
                assert forall|y: u64| #[trigger] kept@.contains(y) == (b.contains(y) && y
                    != id) by {
                    assert(k0.contains(y) == (a.contains(y) && y != id));
                    assert(b.contains(y) == (a.contains(y) || y == x)) by {
                        if a.contains(y) {
                            let k = choose|k: int| 0 <= k < a.len() && a[k] == y;
                            assert(b[k] == y);
                        }
                        if y == x {
                            assert(b[i as int] == y);
                        }
                    }
                    if x != id {
                        if k0.contains(y) {
                            let k = choose|k: int| 0 <= k < k0.len() && k0[k] == y;
                            assert(kept@[k] == y);
                        }
                        if y == x {
                            assert(kept@[k0.len() as int] == y);
                        }
                    }
                }
            }
            i += 1;
        }
        proof {
            assert(before.take(i as int) =~= before);
            assert(kept@.to_set() =~= before.to_set().remove(id));
        }
        self.closing = kept;
    }

    // -----------------------------------------------------------------------------------------
    // A tick
    // -----------------------------------------------------------------------------------------

    /// Takes the findings of a running watch in and brings the note up to date. Returns the files
    /// that call for a window.
    fn inform(&mut self, events: &Vec<WatchEvent>, now: i64, out: &mut Vec<Effect>) -> (wants: Vec<
        String,
    >)
        requires
            old(self).wf(),
        ensures
            final(self).wf(),
            (Out { desk: final(self)@, acts: acts_of(final(out)@) }) == informed(
                Out { desk: old(self)@, acts: acts_of(old(out)@) },
                events@,
                now,
            ),
            strings::views(wants@) == wanted(old(self)@, events@, now),
    {
        broadcast use {lemma_acts_push, strings::lemma_views_push};

        let ghost d0 = self@;
        let ghost evs = events@;
        let ghost s0 = self.model@;
        let mut wants: Vec<String> = Vec::new();
        let mut root: Option<RootChange> = None;
        assert(strings::views(wants@) =~= seq![]);
        if self.running {
            let mut i: usize = 0;
            proof {
                assert(evs.take(0) =~= Seq::<WatchEvent>::empty());
            }
            while i < events.len()
                invariant
                    i <= events@.len(),
                    evs == events@,
                    self.model.wf(),
                    self.running == old(self).running,
                    *self == (DirWatch { model: self.model, ..*old(self) }),
                    (Drained {
                        session: self.model@,
                        wants: strings::views(wants@),
                        root: notes::root_of(root),
                    }) == drained(s0, evs.take(i as int), now),
                decreases events@.len() - i,
            {
                broadcast use strings::lemma_views_push;

                let ev = &events[i];
                proof {
                    assert(evs.take(i as int + 1).drop_last() =~= evs.take(i as int));
                    assert(evs.take(i as int + 1).last() == *ev);
                }
                match ev {
                    WatchEvent::Error(m) => {
                        root = Some(RootChange::Error(m.clone()));
                    },
                    WatchEvent::Recovered => {
                        root = Some(RootChange::Recovered);
                    },
                    _ => {
                        if let Some(p) = apply_event(&mut self.model, ev, now) {
                            wants.push(p);
                        }
                    },
                }
                i += 1;
            }
            assert(evs.take(i as int) =~= evs);
        }
        let dirs_over = self.model.dir_overflow();
        let files_over = self.model.file_overflow();
        let ghost r0 = notes::root_of(root);
        let ghost n0 = notes::remark_of(self.note);
        let log = notes::settle(&mut self.note, root, self.running, dirs_over, files_over);
        let ghost acts0 = acts_of(out@);
        let ghost lines = strings::views(log@);
        let mut k: usize = 0;
        assert(acts0 + log_acts(lines.take(0)) =~= acts0);
        while k < log.len()
            invariant
                k <= log@.len(),
                lines == strings::views(log@),
                acts_of(out@) == acts0 + log_acts(lines.take(k as int)),
            decreases log@.len() - k,
        {
            broadcast use lemma_acts_push;

            out.push(Effect::LogError(log[k].clone()));
            proof {
                assert(log_acts(lines.take(k as int + 1)) =~= log_acts(
                    lines.take(k as int),
                ).push(Act::LogError(log@[k as int]@)));
                assert(acts_of(out@) =~= acts0 + log_acts(lines.take(k as int + 1)));
            }
            k += 1;
        }
        assert(lines.take(k as int) =~= lines);
        wants
    }

    /// A window opens by itself where the number allows.
    fn auto_open(&mut self, path: &str, now_ms: u64, out: &mut Vec<Effect>)
        requires
            old(self).wf(),
        ensures
            final(self).wf(),
            (Out { desk: final(self)@, acts: acts_of(final(out)@) }) == opened_by_itself(
                Out { desk: old(self)@, acts: acts_of(old(out)@) },
                path@,
                now_ms,
            ),
    {
        broadcast use lemma_acts_push;

        match auto_open_action(self.model.try_open(path)) {
            AutoOpenAction::FlashAttention => {
                out.push(Effect::OpenTail { path: path.to_owned(), auto: true });
            },
            AutoOpenAction::BlinkCap => {
                self.model.mark_unread_if_closed(path);
                self.cap_blink_start_ms = Some(now_ms);
            },
            AutoOpenAction::Nothing => {},
        }
    }

    /// Windows open by themselves, one after the other.
    fn auto_open_all(&mut self, wants: &Vec<String>, now_ms: u64, out: &mut Vec<Effect>)
        requires
            old(self).wf(),
        ensures
            final(self).wf(),
            (Out { desk: final(self)@, acts: acts_of(final(out)@) }) == opened_all(
                Out { desk: old(self)@, acts: acts_of(old(out)@) },
                strings::views(wants@),
                now_ms,
            ),
    {
        let ghost o0 = Out { desk: self@, acts: acts_of(out@) };
        let ghost ws = strings::views(wants@);
        let mut i: usize = 0;
        assert(ws.take(0) =~= Seq::<Seq<char>>::empty());
        while i < wants.len()
            invariant
                i <= wants@.len(),
                self.wf(),
                ws == strings::views(wants@),
                (Out { desk: self@, acts: acts_of(out@) }) == opened_all(
                    o0,
                    ws.take(i as int),
                    now_ms,
                ),
            decreases wants@.len() - i,
        {
            proof {
                assert(ws.take(i as int + 1).drop_last() =~= ws.take(i as int));
                assert(ws.take(i as int + 1).last() == wants@[i as int]@);
            }
            self.auto_open(wants[i].as_str(), now_ms, out);
            i += 1;
        }
        assert(ws.take(i as int) =~= ws);
    }

    /// Lets go of files that have been gone for long, unless the directory cannot be read.
    fn prune(&mut self, now: i64, grace: i64, out: &mut Vec<Effect>)
        requires
            old(self).wf(),
        ensures
            final(self).wf(),
            (Out { desk: final(self)@, acts: acts_of(final(out)@) }) == pruned(
                Out { desk: old(self)@, acts: acts_of(old(out)@) },
                now,
                grace,
            ),
    {
        if notes::note_is(&self.note, NoteKind::WatchError) {
            return ;
        }
        let removed = self.model.prune_missing(now, grace);
        let ghost acts0 = acts_of(out@);
        let ghost gone = strings::views(removed@);
        let ghost f = |p: Seq<char>| Act::Forget(p);
        let mut k: usize = 0;
        assert(acts0 + gone.take(0).map_values(f) =~= acts0);
        while k < removed.len()
            invariant
                k <= removed@.len(),
                gone == strings::views(removed@),
                f == (|p: Seq<char>| Act::Forget(p)),
                acts_of(out@) == acts0 + gone.take(k as int).map_values(f),
            decreases removed@.len() - k,
        {
            broadcast use lemma_acts_push;

            out.push(Effect::Forget(removed[k].clone()));
            proof {
                assert(gone.take(k as int + 1).map_values(f) =~= gone.take(
                    k as int,
                ).map_values(f).push(Act::Forget(removed@[k as int]@)));
                assert(acts_of(out@) =~= acts0 + gone.take(k as int + 1).map_values(f));
            }
            k += 1;
        }
        assert(gone.take(k as int) =~= gone);
    }

    /// Takes in what came of tailed files.
    fn feed(&mut self, news: Vec<TailNews>, out: &mut Vec<Effect>)
        requires
            old(self).wf(),
        ensures
            final(self).wf(),
            (Out { desk: final(self)@, acts: acts_of(final(out)@) }) == fed_all(
                Out { desk: old(self)@, acts: acts_of(old(out)@) },
                news@,
            ),
    {
        let ghost o0 = Out { desk: self@, acts: acts_of(out@) };
        let ghost all = news@;
        let ghost mut n: int = 0;
        let mut rest = news;
        proof {
            assert(all.skip(0) =~= all);
            assert(all.take(0) =~= Seq::<TailNews>::empty());
        }
        while rest.len() > 0
            invariant
                0 <= n <= all.len(),
                rest@ == all.skip(n),
                self.wf(),
                (Out { desk: self@, acts: acts_of(out@) }) == fed_all(o0, all.take(n)),
            decreases rest@.len(),
        {
            let item = rest.remove(0);
            proof {
                assert(all.skip(n)[0] == all[n]);
                assert(rest@ =~= all.skip(n + 1));
                assert(all.take(n + 1).drop_last() =~= all.take(n));
                assert(all.take(n + 1).last() == item);
            }
            self.feed_one(item, out);
            proof {
                n = n + 1;
            }
        }
        assert(all.take(n) =~= all);
    }

    /// Takes in what came of one tailed file.
    fn feed_one(&mut self, item: TailNews, out: &mut Vec<Effect>)
        requires
            old(self).wf(),
        ensures
            final(self).wf(),
            (Out { desk: final(self)@, acts: acts_of(final(out)@) }) == fed_one(
                Out { desk: old(self)@, acts: acts_of(old(out)@) },
                item.id,
                tailwin::chunk_views(item.chunks@),
            ),
    {
        broadcast use lemma_acts_push;

        let id = item.id;
        if let Some(i) = self.find(id) {
            let ghost before = self.tails@;
            let ghost d0 = self@;
            let w = &mut self.tails[i];
            let snap = w.tail.take_chunks(item.chunks);
            proof {
                lemma_tail_changed(d0, before, self.tails@, i as int);
            }
            if snap {
                out.push(Effect::SnapToBottom(id));
            }
        }
    }

    /// Runs the searches that were put off and are due.
    fn run_due_scans(&mut self, out: &mut Vec<Effect>)
        requires
            old(self).wf(),
        ensures
            final(self).wf(),
            (Out { desk: final(self)@, acts: acts_of(final(out)@) }) == scanned_first(
                Out { desk: old(self)@, acts: acts_of(old(out)@) },
                old(self)@.tails.len() as int,
            ),
    {
        let ghost o0 = Out { desk: self@, acts: acts_of(out@) };
        let tick = self.tick_count;
        let total = self.tails.len();
        let mut i: usize = 0;
        while i < total
            invariant
                i <= total == self.tails@.len(),
                tick == self.tick_count,
                self.wf(),
                (Out { desk: self@, acts: acts_of(out@) }) == scanned_first(o0, i as int),
            decreases total - i,
        {
            let ghost before = self.tails@;
            let ghost d0 = self@;
            let id = self.tails[i].id;
            if crate::search::rescan_due(self.tails[i].tail.search_rescan_due, tick) {
                let w = &mut self.tails[i];
                let row = w.tail.run_due_scan();
                proof {
                    lemma_tail_changed(d0, before, self.tails@, i as int);
                }
                add_scroll(out, id, row);
            }
            i += 1;
        }
    }

    /// A tick.
    fn tick(&mut self, events: Vec<WatchEvent>, news: Vec<TailNews>, env: &Env) -> (out: Vec<Effect>)
        requires
            old(self).wf(),
        ensures
            final(self).wf(),
            (Out { desk: final(self)@, acts: acts_of(out@) }) == after_tick(
                old(self)@,
                events@,
                news@,
                *env,
            ),
    {
        broadcast use lemma_acts_push;

        let mut out = nothing();
        self.tick_count = if self.tick_count == u64::MAX {
            0
        } else {
            self.tick_count + 1
        };
        if let Some((id, at)) = self.raise_pending {
            if self.tick_count >= at {
                self.raise_pending = None;
                out.push(Effect::Raise(id));
            }
        }
        assert((Out { desk: self@, acts: acts_of(out@) }) =~= ticked(old(self)@));
        let wants = self.inform(&events, env.now_secs, &mut out);
        self.auto_open_all(&wants, env.now_ms, &mut out);
        self.prune(env.now_secs, env.grace_secs, &mut out);
        let ghost o4 = Out { desk: self@, acts: acts_of(out@) };
        self.refresh_tile_layout();
        assert((Out { desk: self@, acts: acts_of(out@) }) =~= rearranged(o4));
        self.feed(news, &mut out);
        self.run_due_scans(&mut out);
        out
    }

    /// Brings the arrangement of the files up to date.
    pub fn refresh_tile_layout(&mut self)
        requires
            old(self).wf(),
        ensures
            final(self).wf(),
            final(self)@ == rearranged(quiet(old(self)@)).desk,
    {
        self.tile_layout.refresh(
            &self.model,
            self.active_dir.as_str(),
            self.settings.tiles_per_box,
        );
    }
}

/// One window's tail changed, and nothing else.
proof fn lemma_tail_changed(d: Desk, before: Seq<Win>, now: Seq<Win>, i: int)
    requires
        0 <= i < before.len(),
        d.tails == wins_of(before),
        now.len() == before.len(),
        now[i].id == before[i].id,
        forall|k: int| 0 <= k < now.len() && k != i ==> #[trigger] now[k] == before[k],
        numbers_differ(wins_of(before)),
    ensures
        wins_of(now) == with_tail(d, i, now[i].tail@).tails,
        numbers_differ(wins_of(now)),
{
    assert(wins_of(now) =~= with_tail(d, i, now[i].tail@).tails);
    assert forall|a: int, b: int| 0 <= a < b < now.len() implies (#[trigger] wins_of(now)[a]).0
        != (#[trigger] wins_of(now)[b]).0 by {
        assert(wins_of(before)[a].0 != wins_of(before)[b].0);
    }
}

// ---------------------------------------------------------------------------------------------
// Starting a watch
// ---------------------------------------------------------------------------------------------

impl DirWatch {
    /// What the fields say is to be watched.
    pub fn config_from_fields(&self, cwd: &str) -> (r: WatchConfig)
        ensures
            r@ == config_of(self@, cwd@),
    {
        let directory = paths::resolve_watch_dir(self.os, self.dir_input.as_str(), cwd);
        let typed = strings::trim(self.depth_input.as_str());
        let wanted = match strings::parse_i32(typed.as_str()) {
            Some(v) => v,
            None => self.active_depth,
        };
        WatchConfig {
            directory,
            patterns: settings::split_patterns(self.patterns_input.as_str()),
            poll_interval_ms: self.settings.poll_ms,
            depth: cli::clamp_i32(wanted, 0, watch::MAX_DEPTH),
        }
    }

    /// A watch starts from what the fields say.
    fn start_watch(&mut self, cwd: &str, out: &mut Vec<Effect>)
        requires
            old(self).wf(),
        ensures
            final(self).wf(),
            (Out { desk: final(self)@, acts: acts_of(final(out)@) }) == started(
                Out { desk: old(self)@, acts: acts_of(old(out)@) },
                cwd@,
            ),
    {
        broadcast use lemma_acts_push;

        let ghost d0 = self@;
        let ghost acts0 = acts_of(out@);
        let cfg = self.config_from_fields(cwd);
        let ghost c = cfg@;
        let mut model = SessionModel::for_os(self.os);
        settings::apply_settings_to_model(&mut model, &self.settings);
        self.max_windows = model.max_windows();
        self.model = model;
        self.running = true;
        self.tile_layout.built = false;
        self.active_dir = cfg.directory.clone();
        self.dir_input = cfg.directory.clone();
        self.active_patterns = strings::copy_all(cfg.patterns.as_slice());
        self.active_depth = cfg.depth;
        out.push(Effect::StartWatch(cfg));
        let ghost ids = ids_of(d0.tails);
        let ghost f = |id: u64| Act::Close(id);
        let ghost mid = *self;
        let mut i: usize = 0;
        proof {
            assert(ids.take(0).map_values(f) =~= Seq::<Act>::empty());
            assert(acts0.push(Act::StartWatch(c)) + ids.take(0).map_values(f) =~= acts0.push(
                Act::StartWatch(c),
            ));
            assert(d0.closing.union(ids.take(0).to_set()) =~= d0.closing);
        }
        while i < self.tails.len()
            invariant
                i <= self.tails@.len(),
                ids == ids_of(d0.tails),
                d0.tails == wins_of(self.tails@),
                f == (|id: u64| Act::Close(id)),
                *self == (DirWatch { closing: self.closing, ..mid }),
                self.closing@.to_set() == d0.closing.union(ids.take(i as int).to_set()),
                acts_of(out@) == acts0.push(Act::StartWatch(c)) + ids.take(i as int).map_values(f),
            decreases self.tails@.len() - i,
        {
            broadcast use lemma_acts_push;

            let id = self.tails[i].id;
            let ghost b0 = self.closing@;
            self.closing.push(id);
            out.push(Effect::Close(id));
            proof {
                lemma_pushed(b0, id);
                lemma_pushed(ids.take(i as int), id);
                assert(ids.take(i as int + 1) =~= ids.take(i as int).push(id));
                assert(self.closing@.to_set() =~= d0.closing.union(
                    ids.take(i as int + 1).to_set(),
                ));
                assert(ids.take(i as int + 1).map_values(f) =~= ids.take(i as int).map_values(
                    f,
                ).push(Act::Close(id)));
                assert(acts_of(out@) =~= acts0.push(Act::StartWatch(c)) + ids.take(
                    i as int + 1,
                ).map_values(f));
            }
            i += 1;
        }
        assert(ids.take(i as int) =~= ids);
        self.tails = Vec::new();
        self.path_to_win.clear();
        proof {
            assert(wins_of(self.tails@) =~= Seq::<(u64, Tail)>::empty());
            assert(self@ =~= started(Out { desk: d0, acts: acts0 }, cwd@).desk);
        }
    }

    /// The program at its start, with the watch that it starts.
    pub fn boot(os: Os, cfg: WatchConfig, opts: &ModelOpts, cwd: &str) -> (r: (Self, Vec<Effect>))
        ensures
            r.0.wf(),
            (Out { desk: r.0@, acts: acts_of(r.1@) }) == at_start(os, cfg@, *opts, cwd@),
    {
        let dir = paths::resolve_watch_dir(os, cfg.directory.as_str(), cwd);
        let mut model = SessionModel::for_os(os);
        settings::apply_opts(&mut model, opts);
        let mut app = DirWatch {
            os,
            model,
            running: false,
            tile_layout: TileLayout::default(),
            main_id: None,
            main_rect: None,
            screen_est: None,
            dir_input: dir.clone(),
            depth_input: strings::signed_decimal_of(cfg.depth as i64),
            patterns_input: strings::join(cfg.patterns.as_slice(), ';'),
            active_dir: dir,
            active_patterns: cfg.patterns,
            active_depth: cfg.depth,
            max_windows: 10,
            note: None,
            settings: Settings::from_boot(cfg.poll_interval_ms, opts),
            settings_win: None,
            tails: Vec::new(),
            path_to_win: Table::new(),
            closing: Vec::new(),
            tick_count: 0,
            cap_blink_start_ms: None,
            raise_pending: None,
        };
        proof {
            assert(app@.tails =~= Seq::<(u64, Tail)>::empty());
            assert(app@.closing =~= Set::<u64>::empty());
        }
        app.refresh_tile_layout();
        let mut out = nothing();
        app.start_watch(cwd, &mut out);
        (app, out)
    }
}

/// One more number in a list is one more in its set.
proof fn lemma_pushed(s: Seq<u64>, id: u64)
    ensures
        s.push(id).to_set() == s.to_set().insert(id),
{
    let a = s.push(id);
    assert forall|x: u64| #[trigger] a.to_set().contains(x) == s.to_set().insert(id).contains(
        x,
    ) by {
        if s.contains(x) {
            let k = choose|k: int| 0 <= k < s.len() && s[k] == x;
            assert(a[k] == x);
        }
        assert(a[s.len() as int] == id);
        if a.contains(x) && x != id {
            let k = choose|k: int| 0 <= k < a.len() && a[k] == x;
            assert(s[k] == x);
        }
    }
    assert(a.to_set() =~= s.to_set().insert(id));
}

// ---------------------------------------------------------------------------------------------
// Windows
// ---------------------------------------------------------------------------------------------

impl DirWatch {
    /// A tile was clicked.
    fn tile_clicked(&mut self, path: &str, now_ms: u64) -> (out: Vec<Effect>)
        requires
            old(self).wf(),
        ensures
            final(self).wf(),
            (Out { desk: final(self)@, acts: acts_of(out@) }) == clicked(
                old(self)@,
                path@,
                now_ms,
            ),
    {
        match self.model.try_open(path) {
            OpenResult::AlreadyOpen => {
                let key = fskey::fs_key_str(self.os, path);
                match self.path_to_win.get(key.as_str()) {
                    Some(id) => only(Effect::Focus(*id)),
                    None => nothing(),
                }
            },
            OpenResult::BlockedByCap => {
                self.cap_blink_start_ms = Some(now_ms);
                nothing()
            },
            OpenResult::Opened => only(Effect::OpenTail { path: path.to_owned(), auto: false }),
        }
    }

    /// The window for the tail of a file is there.
    fn spawn_tail(&mut self, id: u64, path: &str)
        requires
            old(self).wf(),
        ensures
            final(self).wf(),
            final(self)@ == spawned(old(self)@, id, path@),
    {
        let ghost before = self.tails@;
        let ghost d0 = self@;
        let win = Win { id, tail: TailWin::new(path) };
        let ghost wv = (id, win.tail@);
        match self.find(id) {
            Some(i) => {
                self.tails[i] = win;
                proof {
                    lemma_tail_changed(d0, before, self.tails@, i as int);
                }
            },
            None => {
                proof {
                    lemma_win_at(d0.tails, id);
                }
                self.tails.push(win);
                proof {
                    assert(wins_of(self.tails@) =~= d0.tails.push(wv));
                    assert forall|a: int, b: int|
                        0 <= a < b < self.tails@.len() implies (#[trigger] wins_of(
                        self.tails@,
                    )[a]).0 != (#[trigger] wins_of(self.tails@)[b]).0 by {
                        if b < before.len() {
                            assert(d0.tails[a].0 != d0.tails[b].0);
                        } else {
                            assert(d0.tails[a].0 != id);
                        }
                    }
                }
            },
        }
        let key = fskey::fs_key_str(self.os, path);
        self.path_to_win.insert(key.as_str(), id);
        assert(self@ =~= spawned(d0, id, path@));
    }

    /// A window is gone.
    fn window_closed(&mut self, id: u64) -> (out: Vec<Effect>)
        requires
            old(self).wf(),
        ensures
            final(self).wf(),
            (Out { desk: final(self)@, acts: acts_of(out@) }) == gone(old(self)@, id),
    {
        let ghost d0 = self@;
        if let Some(m) = self.main_id {
            if m == id {
                return only(Effect::Exit);
            }
        }
        if self.is_settings(id) {
            self.settings_win = None;
            return nothing();
        }
        if let Some(i) = self.find(id) {
            let ghost before = self.tails@;
            let win = self.tails.remove(i);
            let key = fskey::fs_key_str(self.os, win.tail.path.as_str());
            self.model.mark_closed(win.tail.path.as_str());
            let _id = self.path_to_win.remove(key.as_str());
            proof {
                assert(wins_of(self.tails@) =~= d0.tails.remove(i as int));
                assert forall|a: int, b: int| 0 <= a < b < self.tails@.len() implies (
                #[trigger] wins_of(self.tails@)[a]).0 != (#[trigger] wins_of(
                    self.tails@,
                )[b]).0 by {
                    let a2 = if a < i {
                        a
                    } else {
                        a + 1
                    };
                    let b2 = if b < i {
                        b
                    } else {
                        b + 1
                    };
                    assert(d0.tails[a2].0 != d0.tails[b2].0);
                }
            }
        }
        self.unmark_closing(id);
        nothing()
    }

    /// Whether a number is that of the window with the settings.
    fn is_settings(&self, id: u64) -> (r: bool)
        ensures
            r == is_form(self@, id),
    {
        match &self.settings_win {
            Some(d) => d.id == id,
            None => false,
        }
    }

    /// The settings are wanted.
    fn open_settings(&self) -> (out: Vec<Effect>)
        ensures
            acts_of(out@) == (match self@.form {
                Some(f) => Seq::<Act>::empty().push(Act::Focus(f.id)),
                None => Seq::<Act>::empty().push(Act::OpenSettings),
            }),
    {
        match &self.settings_win {
            Some(d) => only(Effect::Focus(d.id)),
            None => only(Effect::OpenSettings),
        }
    }

    /// The settings are accepted.
    fn settings_ok(&mut self) -> (out: Vec<Effect>)
        requires
            old(self).wf(),
        ensures
            final(self).wf(),
            (Out { desk: final(self)@, acts: acts_of(out@) }) == accepted(old(self)@),
    {
        broadcast use lemma_acts_push;

        let ghost d0 = self@;
        let (id, committed) = match &self.settings_win {
            Some(draft) => (draft.id, settings::commit_settings(draft, &self.settings)),
            None => {
                return nothing();
            },
        };
        self.settings_win = None;
        let poll_changed = committed.poll_ms != self.settings.poll_ms;
        self.settings = committed;
        settings::apply_settings_to_model(&mut self.model, &self.settings);
        self.max_windows = self.model.max_windows();
        self.mark_closing(id);
        let mut out = only(Effect::Close(id));
        if poll_changed {
            out.push(Effect::SetPoll(self.settings.poll_ms));
        }
        out
    }

    /// The settings are dropped.
    fn settings_cancel(&mut self) -> (out: Vec<Effect>)
        requires
            old(self).wf(),
        ensures
            final(self).wf(),
            (Out { desk: final(self)@, acts: acts_of(out@) }) == dropped(old(self)@),
    {
        let id = match &self.settings_win {
            Some(draft) => draft.id,
            None => {
                return nothing();
            },
        };
        self.settings_win = None;
        self.mark_closing(id);
        only(Effect::Close(id))
    }

    // -----------------------------------------------------------------------------------------
    // Search
    // -----------------------------------------------------------------------------------------

    /// A query was typed.
    fn search_changed(&mut self, id: u64, query: &str) -> (out: Vec<Effect>)
        requires
            old(self).wf(),
        ensures
            final(self).wf(),
            (Out { desk: final(self)@, acts: acts_of(out@) }) == queried(old(self)@, id, query@),
    {
        let mut out = nothing();
        if let Some(i) = self.find(id) {
            let ghost before = self.tails@;
            let ghost d0 = self@;
            let tick = self.tick_count;
            let w = &mut self.tails[i];
            let row = w.tail.change_query(query, tick);
            proof {
                lemma_tail_changed(d0, before, self.tails@, i as int);
            }
            add_scroll(&mut out, id, row);
        }
        out
    }

    /// The next match is wanted.
    fn search_next(&mut self, id: u64) -> (out: Vec<Effect>)
        requires
            old(self).wf(),
        ensures
            final(self).wf(),
            (Out { desk: final(self)@, acts: acts_of(out@) }) == advanced(old(self)@, id),
    {
        let mut out = nothing();
        if let Some(i) = self.find(id) {
            let ghost before = self.tails@;
            let ghost d0 = self@;
            let w = &mut self.tails[i];
            let row = w.tail.search_step_or_force();
            proof {
                lemma_tail_changed(d0, before, self.tails@, i as int);
            }
            add_scroll(&mut out, id, row);
        }
        out
    }

    /// The previous match is wanted.
    fn search_prev(&mut self, id: u64) -> (out: Vec<Effect>)
        requires
            old(self).wf(),
        ensures
            final(self).wf(),
            (Out { desk: final(self)@, acts: acts_of(out@) }) == stepped_back(old(self)@, id),
    {
        let mut out = nothing();
        if let Some(i) = self.find(id) {
            let ghost before = self.tails@;
            let ghost d0 = self@;
            let w = &mut self.tails[i];
            let row = w.tail.search_step(false);
            proof {
                lemma_tail_changed(d0, before, self.tails@, i as int);
            }
            add_scroll(&mut out, id, row);
        }
        out
    }

    /// The search is given up.
    fn search_cleared(&mut self, id: u64) -> (out: Vec<Effect>)
        requires
            old(self).wf(),
        ensures
            final(self).wf(),
            (Out { desk: final(self)@, acts: acts_of(out@) }) == unsearched(old(self)@, id),
    {
        if let Some(i) = self.find(id) {
            let ghost before = self.tails@;
            let ghost d0 = self@;
            let w = &mut self.tails[i];
            w.tail.clear_search();
            proof {
                lemma_tail_changed(d0, before, self.tails@, i as int);
            }
            only(Effect::FocusSearch(id))
        } else {
            nothing()
        }
    }

    /// A tail was scrolled.
    fn scroll(&mut self, id: u64, s: Scroll)
        requires
            old(self).wf(),
        ensures
            final(self).wf(),
            final(self)@ == scrolled(old(self)@, id, s),
    {
        if let Some(i) = self.find(id) {
            let ghost before = self.tails@;
            let ghost d0 = self@;
            let w = &mut self.tails[i];
            w.tail.take_scroll(s);
            proof {
                lemma_tail_changed(d0, before, self.tails@, i as int);
            }
        }
    }

    /// The end of a tail is followed.
    fn resume(&mut self, id: u64)
        requires
            old(self).wf(),
        ensures
            final(self).wf(),
            final(self)@ == resumed(old(self)@, id),
    {
        if let Some(i) = self.find(id) {
            let ghost before = self.tails@;
            let ghost d0 = self@;
            let w = &mut self.tails[i];
            w.tail.set_following(true);
            proof {
                lemma_tail_changed(d0, before, self.tails@, i as int);
            }
        }
    }

    /// Whether a number is that of the main window.
    fn is_main(&self, id: u64) -> (r: bool)
        ensures
            r == (self@.main_id == Some(id)),
    {
        match self.main_id {
            Some(m) => m == id,
            None => false,
        }
    }

    /// The main window has appeared.
    fn place_main(&mut self, position: Option<(i32, i32)>, size: (i32, i32))
        requires
            old(self).wf(),
        ensures
            final(self).wf(),
            final(self)@ == placed(old(self)@, position, size),
    {
        if let Some((x, y)) = position {
            let (w, h) = size;
            self.main_rect = Some(Rect { x: x as i64, y: y as i64, w: w as i64, h: h as i64 });
            if self.screen_est.is_none() {
                self.screen_est = Some((2 * x as i64 + w as i64, 2 * y as i64 + h as i64));
            }
        }
    }

    /// The main window was moved.
    fn move_main(&mut self, x: i32, y: i32)
        requires
            old(self).wf(),
        ensures
            final(self).wf(),
            final(self)@ == moved(old(self)@, x, y),
    {
        let (w, h) = match self.main_rect {
            Some(r) => (r.w, r.h),
            None => (placement::MAIN_W, placement::MAIN_H),
        };
        self.main_rect = Some(Rect { x: x as i64, y: y as i64, w, h });
    }

    /// The main window has another size.
    fn resize_main(&mut self, w: i32, h: i32)
        requires
            old(self).wf(),
        ensures
            final(self).wf(),
            final(self)@ == resized(old(self)@, w, h),
    {
        if let Some(r) = self.main_rect {
            self.main_rect = Some(Rect { x: r.x, y: r.y, w: w as i64, h: h as i64 });
        }
    }

    /// Where the next tail opens.
    pub fn tail_place(&self) -> (r: (i128, i128))
        ensures
            (r.0 as int, r.1 as int) == placement::spot(
                placement::known_place(
                    self@.screen_est,
                    self@.main_rect,
                    self@.tails.len() as usize,
                ),
            ),
    {
        placement::tail_position(self.screen_est, self.main_rect, self.tails.len())
    }

    // -----------------------------------------------------------------------------------------
    // Everything
    // -----------------------------------------------------------------------------------------

    /// Takes a message in, and returns what is to be done outside.
    #[verifier::rlimit(90)]
    #[verifier::spinoff_prover]
    pub fn update(&mut self, message: Message, env: &Env) -> (out: Vec<Effect>)
        requires
            old(self).wf(),
        ensures
            final(self).wf(),
            (Out { desk: final(self)@, acts: acts_of(out@) }) == after(old(self)@, message, *env),
    {
        match message {
            Message::Tick { events, news } => self.tick(events, news, env),
            Message::DirChanged(s) => {
                self.dir_input = s;
                nothing()
            },
            Message::DepthChanged(s) => {
                self.depth_input = strings::digits(s.as_str());
                nothing()
            },
            Message::PatternsChanged(s) => {
                self.patterns_input = s;
                nothing()
            },
            Message::ToggleWatch => {
                if self.running {
                    self.running = false;
                    self.note = Some(Note { kind: NoteKind::Plain, text: "stopped".to_owned() });
                    only(Effect::StopWatch)
                } else {
                    self.note = None;
                    let mut out = nothing();
                    self.start_watch(env.cwd.as_str(), &mut out);
                    out
                }
            },
            Message::Restart => {
                self.note = None;
                let mut out = nothing();
                self.start_watch(env.cwd.as_str(), &mut out);
                out
            },
            Message::OpenSettings => self.open_settings(),
            Message::SettingsSpawned(id) => {
                self.settings_win = Some(SettingsDraft::from_live(id, &self.settings));
                nothing()
            },
            Message::SettingsOpened(_) => nothing(),
            Message::SettingsMaxWindowsChanged(s) => {
                if let Some(d) = &mut self.settings_win {
                    d.max_windows = strings::digits(s.as_str());
                }
                nothing()
            },
            Message::SettingsActiveSecsChanged(s) => {
                if let Some(d) = &mut self.settings_win {
                    d.active_seconds = strings::digits(s.as_str());
                }
                nothing()
            },
            Message::SettingsPollMsChanged(s) => {
                if let Some(d) = &mut self.settings_win {
                    d.poll_ms = strings::digits(s.as_str());
                }
                nothing()
            },
            Message::SettingsTilesPerBoxChanged(s) => {
                if let Some(d) = &mut self.settings_win {
                    d.tiles_per_box = strings::digits(s.as_str());
                }
                nothing()
            },
            Message::SettingsNoOpenToggled(v) => {
                if let Some(d) = &mut self.settings_win {
                    d.no_open = v;
                }
                nothing()
            },
            Message::SettingsOk => self.settings_ok(),
            Message::SettingsCancel => self.settings_cancel(),
            Message::TileClicked(p) => self.tile_clicked(p.as_str(), env.now_ms),
            Message::TailSpawned { id, path } => {
                self.spawn_tail(id, path.as_str());
                nothing()
            },
            Message::MainOpened(id) => {
                self.main_id = Some(id);
                nothing()
            },
            Message::AutoOpenRealized(id) => {
                if self.find(id).is_some() {
                    if matches!(self.os, Os::Windows) {
                        self.raise_pending = Some(
                            (id, self.tick_count.saturating_add(RAISE_DEFER_TICKS)),
                        );
                    }
                    only(Effect::Attention(id))
                } else {
                    nothing()
                }
            },
            Message::AttemptRaise(id) => {
                if self.find(id).is_some() {
                    only(Effect::Focus(id))
                } else {
                    nothing()
                }
            },
            Message::WindowClosed(id) => self.window_closed(id),
            Message::WindowPlaced { id, position, size } => {
                if self.is_main(id) {
                    self.place_main(position, size);
                }
                nothing()
            },
            Message::WindowMoved { id, position } => {
                if self.is_main(id) {
                    self.move_main(position.0, position.1);
                }
                nothing()
            },
            Message::WindowResized { id, size } => {
                if self.is_main(id) {
                    self.resize_main(size.0, size.1);
                }
                nothing()
            },
            Message::TailScrolled(id, s) => {
                self.scroll(id, s);
                nothing()
            },
            Message::CloseTail(id) => {
                if self.find(id).is_some() {
                    only(Effect::Close(id))
                } else {
                    nothing()
                }
            },
            Message::SearchChanged(id, q) => self.search_changed(id, q.as_str()),
            Message::SearchNext(id) => self.search_next(id),
            Message::SearchPrev(id) => self.search_prev(id),
            Message::SearchCleared(id) => self.search_cleared(id),
            Message::FocusSearch(id) => {
                if self.find(id).is_some() {
                    only(Effect::FocusSearch(id))
                } else {
                    nothing()
                }
            },
            Message::ResumeFollow(id) => {
                if self.find(id).is_some() {
                    self.resume(id);
                    only(Effect::SnapToBottom(id))
                } else {
                    nothing()
                }
            },
            Message::EnterPressed(id) => {
                if self.is_settings(id) {
                    self.settings_ok()
                } else {
                    self.search_next(id)
                }
            },
            Message::EscPressed(id) => {
                if self.is_settings(id) {
                    return self.settings_cancel();
                }
                match self.find(id) {
                    Some(i) => {
                        proof {
                            strings::lemma_empty_text(self.tails@[i as int].tail.search_query@);
                        }
                        if self.tails[i].tail.search_query.as_str().as_bytes().len() > 0 {
                            self.search_cleared(id)
                        } else {
                            nothing()
                        }
                    },
                    None => nothing(),
                }
            },
        }
    }
}

// ---------------------------------------------------------------------------------------------
// What windows show
// ---------------------------------------------------------------------------------------------

/// What a window shows.
#[derive(Debug, Clone, Copy, PartialEq, Eq, Structural)]
pub enum ViewKind {
    /// The tail of a file.
    Tail,
    /// The settings.
    Settings,
    /// Nothing: it was told to close.
    Closing,
    /// The files.
    Main,
}

/// What a window shows.
pub open spec fn shows(d: Desk, id: u64) -> ViewKind {
    if is_tail(d, id) {
        ViewKind::Tail
    } else if is_form(d, id) {
        ViewKind::Settings
    } else if d.closing.contains(id) {
        ViewKind::Closing
    } else {
        ViewKind::Main
    }
}

/// The title of a window.
pub open spec fn title_words(d: Desk, id: u64) -> Seq<char> {
    if d.main_id == Some(id) {
        build_info::PRODUCT@
    } else if is_form(d, id) {
        "Settings - DirWatch"@
    } else {
        match win_at(d.tails, id) {
            Some(i) => paths::name_at_end(d.os, d.tails[i].1.path) + " - DirWatch"@,
            None => build_info::PRODUCT@,
        }
    }
}

impl DirWatch {
    /// What a window shows.
    pub fn view_kind(&self, id: u64) -> (r: ViewKind)
        ensures
            r == shows(self@, id),
    {
        if self.find(id).is_some() {
            return ViewKind::Tail;
        }
        if self.is_settings(id) {
            return ViewKind::Settings;
        }
        let mut i: usize = 0;
        while i < self.closing.len()
            invariant
                i <= self.closing@.len(),
                forall|k: int| 0 <= k < i ==> #[trigger] self.closing@[k] != id,
                !is_tail(self@, id),
                !is_form(self@, id),
            decreases self.closing@.len() - i,
        {
            if self.closing[i] == id {
                assert(self.closing@.contains(id));
                return ViewKind::Closing;
            }
            i += 1;
        }
        assert(!self.closing@.contains(id));
        ViewKind::Main
    }

    /// The title of a window.
    pub fn title(&self, id: u64) -> (r: String)
        ensures
            r@ == title_words(self@, id),
    {
        if let Some(m) = self.main_id {
            if m == id {
                return build_info::PRODUCT.to_owned();
            }
        }
        if self.is_settings(id) {
            return "Settings - DirWatch".to_owned();
        }
        match self.find(id) {
            Some(i) => {
                let mut out = paths::name_of(self.os, self.tails[i].tail.path.as_str());
                out.push_str(" - DirWatch");
                out
            },
            None => build_info::PRODUCT.to_owned(),
        }
    }

    /// Whether the count of windows is lit up because a window was refused a short while ago.
    pub fn cap_blinking(&self, now_ms: u64) -> (r: bool)
        ensures
            r == ({
                &&& blink::blinks(
                    self@.cap_blink,
                    now_ms,
                    blink::cap_ms(self@.session.active_seconds as int),
                )
                &&& blink::bright_at(self@.tick as int)
            }),
    {
        let lasting = blink::cap_blink_ms(self.model.active_seconds());
        blink::cap_blink_active(self.cap_blink_start_ms, now_ms, lasting) && blink::is_bright(
            self.tick_count,
        )
    }
}

/// A key.
#[derive(Debug)]
pub enum Key {
    /// A character.
    Character(String),
    /// Enter.
    Enter,
    /// Escape.
    Escape,
    /// Any other.
    Other,
}

/// A character is the one letter, in either case.
pub open spec fn is_letter(c: Seq<char>, lower: char, upper: char) -> bool {
    c.len() == 1 && (c[0] == lower || c[0] == upper)
}

/// What a key means in a window.
pub open spec fn key_means(key: Key, control: bool, logo: bool, id: u64) -> Option<Message> {
    match key {
        Key::Character(c) => if (control || logo) && is_letter(c@, 'w', 'W') {
            Some(Message::CloseTail(id))
        } else if (control || logo) && is_letter(c@, 'f', 'F') {
            Some(Message::FocusSearch(id))
        } else {
            None
        },
        Key::Enter => Some(Message::EnterPressed(id)),
        Key::Escape => Some(Message::EscPressed(id)),
        Key::Other => None,
    }
}

/// What a key means in a window: with Control or Command, `w` closes a tail and `f` searches it.
pub fn key_to_message(key: &Key, control: bool, logo: bool, id: u64) -> (r: Option<Message>)
    ensures
        r == key_means(*key, control, logo, id),
{
    let held = control || logo;
    match key {
        Key::Character(c) => {
            let cs = strings::chars_of(c.as_str());
            if held && cs.len() == 1 && (cs[0] == 'w' || cs[0] == 'W') {
                Some(Message::CloseTail(id))
            } else if held && cs.len() == 1 && (cs[0] == 'f' || cs[0] == 'F') {
                Some(Message::FocusSearch(id))
            } else {
                None
            }
        },
        Key::Enter => Some(Message::EnterPressed(id)),
        Key::Escape => Some(Message::EscPressed(id)),
        Key::Other => None,
    }
}

// ---------------------------------------------------------------------------------------------
// Laws
// ---------------------------------------------------------------------------------------------

/// A window that was told to close never shows the files: after a fresh start every tail that was
/// open shows nothing until it is gone.
pub proof fn a_closing_tail_shows_nothing(d: Desk, m: Message, env: Env, i: int)
    requires
        m is Restart || (m is ToggleWatch && !d.running),
        0 <= i < d.tails.len(),
        !is_form(d, d.tails[i].0),
    ensures
        shows(after(d, m, env).desk, d.tails[i].0) == ViewKind::Closing,
        after(d, m, env).acts.contains(Act::Close(d.tails[i].0)),
{
    let e = Desk { note: None, ..d };
    let id = d.tails[i].0;
    let ids = ids_of(d.tails);
    assert(ids[i] == id);
    assert(ids.to_set().contains(id));
    let o = started(quiet(e), env.cwd@);
    let acts = o.acts;
    let closes = ids.map_values(|x: u64| Act::Close(x));
    assert(closes[i] == Act::Close(id));
    assert(acts[1 + i] == Act::Close(id));
}

/// The same of the window with the settings, accepted or dropped.
pub proof fn a_closing_form_shows_nothing(d: Desk, f: Draft)
    requires
        d.form == Some(f),
        !is_tail(d, f.id),
    ensures
        shows(accepted(d).desk, f.id) == ViewKind::Closing,
        shows(dropped(d).desk, f.id) == ViewKind::Closing,
        accepted(d).acts[0] == Act::Close(f.id),
        dropped(d).acts == seq![Act::Close(f.id)],
{
    assert(dropped(d).acts =~= seq![Act::Close(f.id)]);
}

/// Nothing but a tick, a start and a stop touches the note: a click, a window, a search or the
/// settings never hide that the directory cannot be read.
#[verifier::spinoff_prover]
#[verifier::rlimit(40)]
pub proof fn only_the_watch_changes_the_note(d: Desk, m: Message, env: Env)
    requires
        !(m is Tick),
        !(m is ToggleWatch),
        !(m is Restart),
    ensures
        after(d, m, env).desk.note == d.note,
{
}

/// Accepting the settings leaves the watch, the tails and the files alone, and so does dropping
/// them.
pub proof fn settings_disturb_nothing(d: Desk)
    ensures
        ({
            let o = accepted(d);
            &&& o.desk.running == d.running
            &&& o.desk.tails == d.tails
            &&& o.desk.by_path == d.by_path
            &&& o.desk.session.files == d.session.files
            &&& o.desk.active_dir == d.active_dir
            &&& forall|i: int|
                0 <= i < o.acts.len() ==> !(#[trigger] o.acts[i] is StartWatch) && !(
                o.acts[i] is StopWatch)
        }),
        dropped(d).desk == (Desk {
            form: None,
            closing: dropped(d).desk.closing,
            ..d
        }),
        dropped(d).desk.settings == d.settings,
{
}

/// The last that was heard of the directory counts: what came before in the same tick does not.
pub proof fn the_last_word_on_the_directory_counts(
    s: Session,
    evs: Seq<WatchEvent>,
    m: String,
    now: i64,
)
    ensures
        drained(s, evs.push(WatchEvent::Recovered), now).root == Some(Root::Up),
        drained(s, evs.push(WatchEvent::Error(m)), now).root == Some(Root::Down(m@)),
{
    assert(evs.push(WatchEvent::Recovered).drop_last() =~= evs);
    assert(evs.push(WatchEvent::Error(m)).drop_last() =~= evs);
}

/// While the directory cannot be read no file is let go of, however long it has been gone.
pub proof fn an_outage_lets_go_of_nothing(o: Out, now: i64, grace: i64)
    requires
        notes::stands(o.desk.note, NoteKind::WatchError),
    ensures
        pruned(o, now, grace) == o,
{
}

/// A stopped watch is stopped: findings that still come change no file and open no window.
pub proof fn a_stopped_watch_finds_nothing(d: Desk, evs: Seq<WatchEvent>, now: i64)
    requires
        !d.running,
    ensures
        informed(quiet(d), evs, now).desk.session == d.session,
        wanted(d, evs, now).len() == 0,
{
}

/// The window of a file that was clicked is the one that comes to the front on the next click.
pub proof fn a_second_click_brings_the_window_forward(
    d: Desk,
    id: u64,
    path: Seq<char>,
    now_ms: u64,
)
    requires
        table::ordered(d.by_path),
        session::open_outcome(d.session, path) == OpenResult::AlreadyOpen,
    ensures
        clicked(spawned(d, id, path), path, now_ms).acts == seq![Act::Focus(id)],
{
    let e = spawned(d, id, path);
    let key = fskey::key_of(d.os, path);
    table::put_then_lookup(d.by_path, key, id, key);
    assert(clicked(e, path, now_ms).acts =~= seq![Act::Focus(id)]);
}

/// Closing the main window ends the program.
pub proof fn closing_the_main_window_ends_it(d: Desk, id: u64)
    requires
        d.main_id == Some(id),
    ensures
        gone(d, id).acts == seq![Act::Exit],
{
    assert(gone(d, id).acts =~= seq![Act::Exit]);
}

/// A window for the settings that appears late does not take the place of the one that is open.
pub proof fn a_late_window_takes_no_form(d: Desk, id: u64, env: Env)
    ensures
        after(d, Message::SettingsOpened(id), env) == quiet(d),
{
}

/// A window that would open by itself and is refused makes its file unread, so that the write is
/// not lost on the user.
pub proof fn a_refused_window_leaves_a_mark(o: Out, path: Seq<char>, now_ms: u64, i: int)
    requires
        session::open_outcome(o.desk.session, path) == OpenResult::BlockedByCap,
        session::place(o.desk.session, path) == Some(i),
    ensures
        opened_by_itself(o, path, now_ms).desk.session.files[i].unread,
        opened_by_itself(o, path, now_ms).desk.cap_blink == Some(now_ms),
        opened_by_itself(o, path, now_ms).acts == o.acts,
{
    session::lemma_position(
        o.desk.session.os,
        o.desk.session.files,
        fskey::key_of(o.desk.session.os, path),
    );
}

/// What is to be done stays to be done through the rest of a tick.
proof fn lemma_rest_keeps(o: Out, news: Seq<TailNews>, n: int, x: Act)
    requires
        o.acts.contains(x),
    ensures
        fed_all(o, news).acts.contains(x),
        scanned_first(o, n).acts.contains(x),
    decreases news.len() + if n > 0 {
        n
    } else {
        0
    },
{
    if news.len() > 0 {
        lemma_rest_keeps(o, news.drop_last(), 0, x);
        let p = fed_all(o, news.drop_last());
        lemma_push_keeps(p.acts, Act::SnapToBottom(news.last().id), x);
    }
    if n > 0 {
        lemma_rest_keeps(o, seq![], n - 1, x);
        let p = scanned_first(o, n - 1);
        let (id, t) = p.desk.tails[n - 1];
        if let Some(r) = tailwin::jump_row(tailwin::scanned(Tail { due: None, ..t })) {
            lemma_push_keeps(p.acts, Act::ScrollTo(id, r), x);
        }
    }
}

proof fn lemma_push_keeps(acts: Seq<Act>, a: Act, x: Act)
    requires
        acts.contains(x),
    ensures
        acts.push(a).contains(x),
{
    let k = choose|k: int| 0 <= k < acts.len() && acts[k] == x;
    assert(acts.push(a)[k] == x);
}

proof fn lemma_opening_keeps(o: Out, want: Seq<Seq<char>>, k: int, now_ms: u64, x: Act)
    requires
        0 <= k <= want.len(),
        opened_all(o, want.take(k), now_ms).acts.contains(x),
    ensures
        opened_all(o, want, now_ms).acts.contains(x),
    decreases want.len(),
{
    if k < want.len() {
        let init = want.drop_last();
        assert(init.take(k) =~= want.take(k));
        lemma_opening_keeps(o, init, k, now_ms, x);
        lemma_push_keeps(
            opened_all(o, init, now_ms).acts,
            Act::OpenTail(want.last(), true),
            x,
        );
    } else {
        assert(want.take(k) =~= want);
    }
}

/// Every file that calls for a window gets one in the same tick, unless it has one or there are too
/// many when its turn comes.
pub proof fn every_call_for_a_window_is_answered(
    d: Desk,
    evs: Seq<WatchEvent>,
    news: Seq<TailNews>,
    env: Env,
    k: int,
)
    requires
        0 <= k < wanted(ticked(d).desk, evs, env.now_secs).len(),
        ({
            let want = wanted(ticked(d).desk, evs, env.now_secs);
            let turn = opened_all(
                informed(ticked(d), evs, env.now_secs),
                want.take(k),
                env.now_ms,
            );
            session::open_outcome(turn.desk.session, want[k]) == OpenResult::Opened
        }),
    ensures
        after_tick(d, evs, news, env).acts.contains(
            Act::OpenTail(wanted(ticked(d).desk, evs, env.now_secs)[k], true),
        ),
{
    let o1 = ticked(d);
    let want = wanted(o1.desk, evs, env.now_secs);
    let o2 = informed(o1, evs, env.now_secs);
    let x = Act::OpenTail(want[k], true);
    let upto = want.take(k + 1);
    assert(upto.drop_last() =~= want.take(k));
    let at = opened_all(o2, upto, env.now_ms);
    assert(at.acts[at.acts.len() - 1] == x);
    lemma_opening_keeps(o2, want, k + 1, env.now_ms, x);
    let o3 = opened_all(o2, want, env.now_ms);
    let j = choose|j: int| 0 <= j < o3.acts.len() && o3.acts[j] == x;
    let o4 = pruned(o3, env.now_secs, env.grace_secs);
    assert(o4.acts[j] == x);
    let o5 = rearranged(o4);
    lemma_rest_keeps(o5, news, 0, x);
    let o6 = fed_all(o5, news);
    lemma_rest_keeps(o6, seq![], o6.desk.tails.len() as int, x);
}

/// A file that was written gets a window by itself, as long as it may be tracked, it has none, the
/// user did not close it, windows may open by themselves, and there are not too many.
pub proof fn a_written_file_gets_a_window(
    d: Desk,
    path: String,
    news: Seq<TailNews>,
    env: Env,
    i: int,
)
    requires
        d.running,
        !d.session.no_open,
        session::open_total(d.session.files) < d.session.max_windows,
        session::place(session::admitted(d.session, path@), path@) == Some(i),
        !session::admitted(d.session, path@).files[i].user_closed,
        !session::admitted(d.session, path@).files[i].window_open,
    ensures
        after_tick(d, seq![WatchEvent::Activity(path)], news, env).acts.contains(
            Act::OpenTail(path@, true),
        ),
{
    let ev = WatchEvent::Activity(path);
    let evs = seq![ev];
    let o1 = ticked(d);
    let s = d.session;
    assert(evs.drop_last() =~= Seq::<WatchEvent>::empty());
    reveal_with_fuel(drained, 2);
    let want = wanted(o1.desk, evs, env.now_secs);
    assert(want =~= seq![path@]);
    assert(want.take(0) =~= Seq::<Seq<char>>::empty());
    session::a_called_for_window_opens(s, path@, env.now_secs);
    every_call_for_a_window_is_answered(d, evs, news, env, 0);
}

/// The state of a file where it has a place.
proof fn lemma_closed_at_place(s: Session, path: Seq<char>)
    requires
        session::is_closed(s, path),
    ensures
        session::place(s, path) matches Some(i) ==> 0 <= i < s.files.len()
            && s.files[i].user_closed && !s.files[i].window_open,
{
    session::lemma_position(s.os, s.files, fskey::key_of(s.os, path));
}

/// Listing a file, or taking note of a write to it, opens no closed window.
proof fn lemma_closed_on_listing(s: Session, p: Seq<char>, path: Seq<char>, now: i64)
    requires
        session::is_closed(s, path),
        fskey::key_of(s.os, p) != fskey::key_of(s.os, path) || session::place(s, path) is Some,
    ensures
        session::is_closed(listed(s, p), path),
        session::is_closed(session::after_activity(s, p, now), path),
        session::is_closed(session::after_unread(s, p), path),
{
    let a = session::admitted(s, p);
    session::lemma_closed_on_admission(s, p, path);
    session::lemma_position(a.os, a.files, fskey::key_of(a.os, p));
    if let Some(i) = session::place(a, p) {
        let f = a.files[i];
        session::lemma_closed_on_change(a, i, session::present(f), path);
        session::lemma_closed_on_change(a, i, session::written(f, now), path);
        session::lemma_closed_on_change(a, i, session::File { unread: true, ..f }, path);
    }
}

/// Nothing that the watch finds calls for the window of a file whose window the user closed, and it
/// stays closed for as long as the file is tracked.
pub proof fn no_finding_reopens_a_closed_window(
    s: Session,
    ev: WatchEvent,
    path: Seq<char>,
    now: i64,
)
    requires
        session::place(s, path) is Some,
        session::is_closed(s, path),
    ensures
        event_wants(s, ev) matches Some(q) ==> fskey::key_of(s.os, q) != fskey::key_of(s.os, path),
        session::is_closed(after_event(s, ev, now), path),
{
    let key = fskey::key_of(s.os, path);
    lemma_closed_at_place(s, path);
    match ev {
        WatchEvent::Discovered(p) => lemma_closed_on_listing(s, p@, path, now),
        WatchEvent::Reappeared(p) => lemma_closed_on_listing(s, p@, path, now),
        WatchEvent::Activity(p) => {
            lemma_closed_on_listing(s, p@, path, now);
            if fskey::key_of(s.os, p@) != key {
                lemma_closed_on_listing(session::after_activity(s, p@, now), p@, path, now);
            } else {
                let b = session::after_activity(s, p@, now);
                session::lemma_place_after_activity(s, p@, now);
                lemma_closed_on_listing(b, p@, path, now);
            }
        },
        WatchEvent::Missing(p) => {
            session::lemma_position(s.os, s.files, fskey::key_of(s.os, p@));
            if let Some(i) = session::place(s, p@) {
                session::lemma_closed_on_change(
                    s,
                    i,
                    session::after_missing(s, p@, now).files[i],
                    path,
                );
            }
        },
        _ => {},
    }
}

/// None of the things to be done is to open the tail of a file.
pub open spec fn opens_nothing(acts: Seq<Act>) -> bool {
    forall|i: int| 0 <= i < acts.len() ==> !(#[trigger] acts[i] is OpenTail)
}

proof fn lemma_nothing_wanted(s: Session, evs: Seq<WatchEvent>, now: i64)
    requires
        s.no_open,
    ensures
        drained(s, evs, now).session.no_open,
        drained(s, evs, now).wants == Seq::<Seq<char>>::empty(),
    decreases evs.len(),
{
    if evs.len() > 0 {
        lemma_nothing_wanted(s, evs.drop_last(), now);
    }
}

proof fn lemma_rest_opens_nothing(o: Out, news: Seq<TailNews>, n: int)
    requires
        opens_nothing(o.acts),
    ensures
        opens_nothing(fed_all(o, news).acts),
        opens_nothing(scanned_first(o, n).acts),
    decreases news.len() + if n > 0 {
        n
    } else {
        0
    },
{
    if news.len() > 0 {
        lemma_rest_opens_nothing(o, news.drop_last(), 0);
    }
    if n > 0 {
        lemma_rest_opens_nothing(o, seq![], n - 1);
    }
}

/// Where windows open only when the user asks, no tick opens one, whatever is found.
pub proof fn nothing_opens_unasked(d: Desk, evs: Seq<WatchEvent>, news: Seq<TailNews>, env: Env)
    requires
        d.session.no_open,
    ensures
        opens_nothing(after_tick(d, evs, news, env).acts),
{
    let o1 = ticked(d);
    lemma_nothing_wanted(d.session, evs, env.now_secs);
    let o2 = informed(o1, evs, env.now_secs);
    let o4 = pruned(o2, env.now_secs, env.grace_secs);
    assert(opens_nothing(o2.acts));
    assert(opens_nothing(o4.acts));
    let o5 = rearranged(o4);
    lemma_rest_opens_nothing(o5, news, 0);
    let o6 = fed_all(o5, news);
    lemma_rest_opens_nothing(o6, seq![], o6.desk.tails.len() as int);
}

/// The window of which a message tells the place.
pub open spec fn told_of(m: Message) -> Option<u64> {
    match m {
        Message::WindowPlaced { id, .. } => Some(id),
        Message::WindowMoved { id, .. } => Some(id),
        Message::WindowResized { id, .. } => Some(id),
        _ => None,
    }
}

/// Only what happens to the main window tells where it is.
pub proof fn other_windows_place_nothing(d: Desk, m: Message, env: Env)
    requires
        told_of(m) is Some,
        told_of(m) != d.main_id,
    ensures
        after(d, m, env) == quiet(d),
{
    let o = after(d, m, env);
    match m {
        Message::WindowPlaced { .. } => {
            assert(o == quiet(d));
        },
        Message::WindowMoved { .. } => {
            assert(o == quiet(d));
        },
        Message::WindowResized { .. } => {
            assert(o == quiet(d));
        },
        _ => {},
    }
}

/// The screen is told from the place where the main window first appears, which is its middle.
/// Later moves do not change what was told.
pub proof fn the_screen_is_told_once(
    d: Desk,
    at: (i32, i32),
    size: (i32, i32),
    later: (i32, i32),
)
    requires
        d.screen_est is None,
    ensures
        ({
            let p = placed(d, Some(at), size);
            let m = moved(p, later.0, later.1);
            &&& p.screen_est matches Some((w, h)) && w - size.0 == 2 * at.0 && h - size.1 == 2
                * at.1
            &&& m.screen_est == p.screen_est
            &&& placed(m, Some(later), size).screen_est == p.screen_est
            &&& m.main_rect == Some(
                Rect {
                    x: later.0 as i64,
                    y: later.1 as i64,
                    w: size.0 as i64,
                    h: size.1 as i64,
                },
            )
        }),
{
}

} // verus!
