//! The loops behind a watch and behind a tail, one turn at a time: the caller sleeps, reads files
//! and hands messages on, and asks here what to do next.

use vstd::prelude::*;

use crate::cli;
use crate::glob;
use crate::glob::GlobMatcher;
use crate::os::Os;
use crate::schedule;
use crate::schedule::Schedule;
use crate::schedule::SweepScheduler;
use crate::strings;
use crate::watch;
use crate::watch::SweepStats;
use crate::watch::WatchService;
use crate::watch::Watched;

verus! {

/// How many pieces of a tail may wait to be taken in.
pub const TAIL_CHANNEL_CHUNKS: usize = 8;

/// How many findings of a watch may wait to be taken in.
pub const WATCH_EVENT_CHANNEL_CAP: usize = 1024;

/// The shortest time between two looks at a tailed file, in milliseconds.
pub const TAIL_POLL_FLOOR_MS: u64 = 100;

/// The cost of every so many sweeps is worth a line in the trace.
pub const SWEEP_TRACE_EVERY: u64 = 200;

/// The longest and the shortest rest of a watch, in milliseconds.
pub const REST_MAX_MS: u64 = 100;

/// The shortest rest of a watch, in milliseconds.
pub const REST_MIN_MS: u64 = 10;

/// What is to be watched.
#[derive(Debug)]
pub struct WatchConfig {
    /// The directory.
    pub directory: String,
    /// The patterns; none stand for the default ones.
    pub patterns: Vec<String>,
    /// The time between two regular sweeps, in milliseconds.
    pub poll_interval_ms: u32,
    /// How many levels of subdirectories are looked through.
    pub depth: i32,
}

/// What is to be watched.
#[verifier::ext_equal]
pub struct Config {
    /// The directory.
    pub directory: Seq<char>,
    /// The patterns; none stand for the default ones.
    pub patterns: Seq<Seq<char>>,
    /// The time between two regular sweeps, in milliseconds.
    pub poll_interval_ms: u32,
    /// How many levels of subdirectories are looked through.
    pub depth: i32,
}

impl View for WatchConfig {
    type V = Config;

    open spec fn view(&self) -> Config {
        Config {
            directory: self.directory@,
            patterns: strings::views(self.patterns@),
            poll_interval_ms: self.poll_interval_ms,
            depth: self.depth,
        }
    }
}

impl Clone for WatchConfig {
    fn clone(&self) -> (r: Self)
        ensures
            r@ == self@,
    {
        WatchConfig {
            directory: self.directory.clone(),
            patterns: strings::copy_all(self.patterns.as_slice()),
            poll_interval_ms: self.poll_interval_ms,
            depth: self.depth,
        }
    }
}

// ---------------------------------------------------------------------------------------------
// The loop of a watch
// ---------------------------------------------------------------------------------------------

/// A watch of what a configuration says.
pub fn service_for(os: Os, cfg: &WatchConfig) -> (r: WatchService)
    ensures
        r.wf(),
        r@ == (Watched { os, started: false, root_down: false, known: seq![], pruned: seq![] }),
        r.root() == cfg@.directory,
        r.patterns() == glob::effective(
            if cfg@.patterns.len() == 0 {
                None
            } else {
                Some(cfg@.patterns)
            },
        ),
        r.levels() == cli::within(cfg@.depth as int, 0, watch::MAX_DEPTH as int),
        r.interval() == schedule::floored(cfg@.poll_interval_ms as u64),
{
    let matcher = GlobMatcher::new(
        if cfg.patterns.len() == 0 {
            None
        } else {
            Some(cfg.patterns.as_slice())
        },
    );
    WatchService::new(os, cfg.directory.as_str(), matcher, cfg.poll_interval_ms, cfg.depth)
}

/// Whether the system is asked to report changes below the directory as well. Where each directory
/// takes a handle of its own it is not: the regular sweep finds those changes.
pub fn watches_subtree(os: Os, depth: i32) -> (r: bool)
    ensures
        r == (os != Os::Linux && depth > 0),
{
    match os {
        Os::Linux => false,
        _ => depth > 0,
    }
}

/// What a turn of the loop calls for.
#[derive(Debug, Clone, Copy, PartialEq, Eq, Structural)]
pub enum Turn {
    /// The first sweep, which only takes stock.
    Start,
    /// A sweep.
    Sweep,
    /// Nothing.
    Rest,
}

/// The loop of a watch between two turns.
pub struct Pace {
    /// When sweeps are due.
    pub sched: Schedule,
    /// The interval last asked for.
    pub poll: u64,
}

/// The schedule of a turn before it is asked whether a sweep is due.
pub open spec fn prepared(p: Pace, want: u64, changed: bool, now: u64) -> Schedule {
    let s = if want != p.poll {
        schedule::retuned(p.sched, want, now)
    } else {
        p.sched
    };
    if changed {
        schedule::notified(s, now)
    } else {
        s
    }
}

/// The loop after a turn.
pub open spec fn after_turn(p: Pace, want: u64, changed: bool, now: u64) -> Pace {
    Pace { sched: schedule::polled(prepared(p, want, changed, now), now), poll: want }
}

/// What a turn calls for.
pub open spec fn turn_of(p: Pace, want: u64, changed: bool, now: u64) -> Turn {
    let s = prepared(p, want, changed, now);
    if !schedule::is_due(s, now) {
        Turn::Rest
    } else if s.started {
        Turn::Sweep
    } else {
        Turn::Start
    }
}

/// The loop of a watch.
#[derive(Debug)]
pub struct WatchLoop {
    sched: SweepScheduler,
    poll: u64,
}

impl View for WatchLoop {
    type V = Pace;

    closed spec fn view(&self) -> Pace {
        Pace { sched: self.sched@, poll: self.poll }
    }
}

impl WatchLoop {
    /// A loop that begins now.
    pub fn new(poll_interval_ms: u32, now_ms: u64) -> (r: Self)
        ensures
            r@ == (Pace {
                sched: schedule::starting(
                    poll_interval_ms as u64,
                    SweepScheduler::DEFAULT_DEBOUNCE_MS,
                    now_ms,
                ),
                poll: schedule::floored(poll_interval_ms as u64),
            }),
    {
        WatchLoop {
            sched: SweepScheduler::new(poll_interval_ms as u64, now_ms),
            poll: floor_ms(poll_interval_ms as u64),
        }
    }

    /// One turn: puts another interval into force if one is wanted, takes note of a reported
    /// change, and says whether a sweep is due.
    pub fn turn(&mut self, want_poll: u64, changed: bool, now_ms: u64) -> (r: Turn)
        ensures
            r == turn_of(old(self)@, want_poll, changed, now_ms),
            final(self)@ == after_turn(old(self)@, want_poll, changed, now_ms),
    {
        if want_poll != self.poll {
            self.sched.set_poll_interval_ms(want_poll, now_ms);
            self.poll = want_poll;
        }
        if changed {
            self.sched.note_fs_event(now_ms);
        }
        let first = !self.sched.has_started();
        if self.sched.poll(now_ms) {
            if first {
                Turn::Start
            } else {
                Turn::Sweep
            }
        } else {
            Turn::Rest
        }
    }

    /// How long the loop rests before the next turn: until a sweep is due, but never so long that a
    /// reported change would go unseen.
    pub fn rest_ms(&self, now_ms: u64) -> (r: u64)
        ensures
            r == cli::within(
                schedule::until_next(self@.sched, now_ms),
                REST_MIN_MS as int,
                REST_MAX_MS as int,
            ),
    {
        let t = self.sched.ms_until_next(now_ms);
        if t < REST_MIN_MS {
            REST_MIN_MS
        } else if t > REST_MAX_MS {
            REST_MAX_MS
        } else {
            t
        }
    }
}

/// A poll interval, brought up to the floor.
pub fn floor_ms(ms: u64) -> (r: u64)
    ensures
        r == schedule::floored(ms),
        r == (if ms < TAIL_POLL_FLOOR_MS {
            TAIL_POLL_FLOOR_MS
        } else {
            ms
        }),
{
    if ms < crate::POLL_INTERVAL_FLOOR_MS as u64 {
        crate::POLL_INTERVAL_FLOOR_MS as u64
    } else {
        ms
    }
}

/// Whether the cost of a sweep is worth a line in the trace: the first, one that found other
/// numbers than the last in the trace, a slow one, and every so many.
pub fn worth_tracing(last: Option<SweepStats>, st: SweepStats, sweeps: u64, interval_ms: u32) -> (r:
    bool)
    ensures
        r == ({
            ||| last is None
            ||| last->0.files != st.files
            ||| last->0.dirs != st.dirs
            ||| st.millis >= (if interval_ms < 2 {
                1
            } else {
                interval_ms as int / 2
            })
            ||| sweeps % SWEEP_TRACE_EVERY == 0
        }),
{
    let slow: u64 = if interval_ms < 2 {
        1
    } else {
        (interval_ms / 2) as u64
    };
    let changed = match last {
        None => true,
        Some(l) => l.files != st.files || l.dirs != st.dirs,
    };
    changed || st.millis >= slow || sweeps % SWEEP_TRACE_EVERY == 0
}

// ---------------------------------------------------------------------------------------------
// The loop of a tail
// ---------------------------------------------------------------------------------------------

/// What one look at a tailed file brought.
#[derive(Debug)]
pub struct TailResult {
    /// New text.
    pub new_text: Option<String>,
    /// The file was replaced or cut short.
    pub rotated: bool,
    /// The file is back.
    pub reappeared: bool,
    /// The file is not there.
    pub missing: bool,
    /// The encoding in words.
    pub encoding_label: String,
    /// The file could not be read, for this reason.
    pub error: Option<String>,
    /// So many bytes at the front are left out.
    pub skipped_bytes: Option<u64>,
    /// This is the first look at a file that is there.
    pub ready: bool,
    /// There is more to read at once.
    pub more: bool,
}

/// A piece of a tail, for its window.
#[derive(Debug)]
pub struct TailChunk {
    /// New text.
    pub new_text: Option<String>,
    /// The file was replaced or cut short.
    pub rotated: bool,
    /// The file is back.
    pub reappeared: bool,
    /// The file is gone.
    pub missing: bool,
    /// The encoding in words.
    pub encoding_label: String,
    /// The file cannot be read, for this reason.
    pub error: Option<String>,
    /// So many bytes at the front are left out.
    pub skipped_bytes: Option<u64>,
    /// This is the first piece of a file that is there.
    pub ready: bool,
}

/// An optional text.
pub open spec fn text_of(t: Option<String>) -> Option<Seq<char>> {
    match t {
        Some(s) => Some(s@),
        None => None,
    }
}

/// What one look at a tailed file brought.
#[verifier::ext_equal]
pub struct Look {
    /// New text.
    pub new_text: Option<Seq<char>>,
    /// The file was replaced or cut short.
    pub rotated: bool,
    /// The file is back.
    pub reappeared: bool,
    /// The file is not there.
    pub missing: bool,
    /// The encoding in words.
    pub encoding_label: Seq<char>,
    /// The file could not be read, for this reason.
    pub error: Option<Seq<char>>,
    /// So many bytes at the front are left out.
    pub skipped_bytes: Option<u64>,
    /// This is the first look at a file that is there.
    pub ready: bool,
    /// There is more to read at once.
    pub more: bool,
}

/// A piece of a tail.
#[verifier::ext_equal]
pub struct Chunk {
    /// New text.
    pub new_text: Option<Seq<char>>,
    /// The file was replaced or cut short.
    pub rotated: bool,
    /// The file is back.
    pub reappeared: bool,
    /// The file is gone.
    pub missing: bool,
    /// The encoding in words.
    pub encoding_label: Seq<char>,
    /// The file cannot be read, for this reason.
    pub error: Option<Seq<char>>,
    /// So many bytes at the front are left out.
    pub skipped_bytes: Option<u64>,
    /// This is the first piece of a file that is there.
    pub ready: bool,
}

impl View for TailResult {
    type V = Look;

    open spec fn view(&self) -> Look {
        Look {
            new_text: text_of(self.new_text),
            rotated: self.rotated,
            reappeared: self.reappeared,
            missing: self.missing,
            encoding_label: self.encoding_label@,
            error: text_of(self.error),
            skipped_bytes: self.skipped_bytes,
            ready: self.ready,
            more: self.more,
        }
    }
}

impl View for TailChunk {
    type V = Chunk;

    open spec fn view(&self) -> Chunk {
        Chunk {
            new_text: text_of(self.new_text),
            rotated: self.rotated,
            reappeared: self.reappeared,
            missing: self.missing,
            encoding_label: self.encoding_label@,
            error: text_of(self.error),
            skipped_bytes: self.skipped_bytes,
            ready: self.ready,
        }
    }
}

/// A piece that says nothing.
pub open spec fn silent() -> Chunk {
    Chunk {
        new_text: None,
        rotated: false,
        reappeared: false,
        missing: false,
        encoding_label: seq![],
        error: None,
        skipped_bytes: None,
        ready: false,
    }
}

impl Default for TailChunk {
    fn default() -> (r: Self)
        ensures
            r@ == silent(),
    {
        let r = TailChunk {
            new_text: None,
            rotated: false,
            reappeared: false,
            missing: false,
            encoding_label: String::new(),
            error: None,
            skipped_bytes: None,
            ready: false,
        };
        assert(r@ =~= silent());
        r
    }
}

/// What has been said of a tailed file: that it is gone, that it cannot be read.
pub struct Told {
    /// That it is gone.
    pub missing: bool,
    /// That it cannot be read.
    pub error: bool,
}

/// What has been said after a look. A look that failed says nothing about whether the file is
/// there.
pub open spec fn told_after(t: Told, l: Look) -> Told {
    Told { missing: l.missing || (l.error is Some && t.missing), error: l.error is Some }
}

/// The piece for a look; what has been said is not said again.
pub open spec fn piece_of(t: Told, l: Look) -> Chunk {
    Chunk {
        new_text: l.new_text,
        rotated: l.rotated,
        reappeared: l.reappeared,
        missing: l.missing && !t.missing,
        encoding_label: l.encoding_label,
        error: if t.error {
            None
        } else {
            l.error
        },
        skipped_bytes: l.skipped_bytes,
        ready: l.ready,
    }
}

/// Whether a piece has anything to say.
pub open spec fn has_news(c: Chunk) -> bool {
    ||| c.new_text is Some
    ||| c.rotated
    ||| c.reappeared
    ||| c.missing
    ||| c.error is Some
    ||| c.skipped_bytes is Some
    ||| c.ready
}

/// What a look at a tailed file leads to.
#[derive(Debug)]
pub struct TailStep {
    /// The piece to send, if there is anything to say.
    pub chunk: Option<TailChunk>,
    /// The next look follows at once.
    pub again: bool,
}

/// The loop of a tail.
#[derive(Debug)]
pub struct TailLoop {
    reported_missing: bool,
    reported_error: bool,
}

impl View for TailLoop {
    type V = Told;

    closed spec fn view(&self) -> Told {
        Told { missing: self.reported_missing, error: self.reported_error }
    }
}

impl TailLoop {
    /// A loop in which nothing has been said.
    pub fn new() -> (r: Self)
        ensures
            r@ == (Told { missing: false, error: false }),
    {
        TailLoop { reported_missing: false, reported_error: false }
    }

    /// What a look leads to. A file that is gone or cannot be read is reported once, and the next
    /// look follows at once only where this one brought text and there is more.
    pub fn step(&mut self, r: TailResult) -> (out: TailStep)
        ensures
            final(self)@ == told_after(old(self)@, r@),
            match out.chunk {
                Some(c) => c@ == piece_of(old(self)@, r@) && has_news(c@),
                None => !has_news(piece_of(old(self)@, r@)),
            },
            out.again == (r.more && r.new_text is Some),
    {
        let had_text = r.new_text.is_some();
        let again = r.more && had_text;
        let missing_edge = r.missing && !self.reported_missing;
        if r.missing {
            self.reported_missing = true;
        } else if r.error.is_none() {
            self.reported_missing = false;
        }
        let had_error = self.reported_error;
        self.reported_error = r.error.is_some();
        let error_edge = if had_error {
            None
        } else {
            r.error
        };
        if had_text || r.rotated || r.reappeared || missing_edge || error_edge.is_some()
            || r.skipped_bytes.is_some() || r.ready {
            let chunk = TailChunk {
                new_text: r.new_text,
                rotated: r.rotated,
                reappeared: r.reappeared,
                missing: missing_edge,
                encoding_label: r.encoding_label,
                error: error_edge,
                skipped_bytes: r.skipped_bytes,
                ready: r.ready,
            };
            TailStep { chunk: Some(chunk), again }
        } else {
            TailStep { chunk: None, again }
        }
    }
}

// ---------------------------------------------------------------------------------------------
// Laws
// ---------------------------------------------------------------------------------------------

/// The first sweep is the one that takes stock, and there is no second of its kind: once a sweep
/// was called for, every later one is an ordinary sweep.
pub proof fn stock_is_taken_once(p: Pace, want: u64, changed: bool, now: u64)
    ensures
        turn_of(p, want, changed, now) != Turn::Rest ==> after_turn(
            p,
            want,
            changed,
            now,
        ).sched.started,
        p.sched.started ==> turn_of(p, want, changed, now) != Turn::Start,
        p.sched.started ==> after_turn(p, want, changed, now).sched.started,
{
}

/// The first turn of a new loop calls for the first sweep, whatever the interval.
pub proof fn the_first_turn_takes_stock(interval: u32, start: u64, changed: bool, now: u64)
    requires
        start <= now,
    ensures
        ({
            let p = Pace {
                sched: schedule::starting(
                    interval as u64,
                    SweepScheduler::DEFAULT_DEBOUNCE_MS,
                    start,
                ),
                poll: schedule::floored(interval as u64),
            };
            turn_of(p, p.poll, changed, now) == Turn::Start
        }),
{
}

/// What has been said after several looks.
pub open spec fn told_after_all(t: Told, ls: Seq<Look>) -> Told
    decreases ls.len(),
{
    if ls.len() == 0 {
        t
    } else {
        told_after(told_after_all(t, ls.drop_last()), ls.last())
    }
}

/// How often several looks lead to a note that the file is gone.
pub open spec fn missing_notes(t: Told, ls: Seq<Look>) -> int
    decreases ls.len(),
{
    if ls.len() == 0 {
        0
    } else {
        missing_notes(t, ls.drop_last()) + (if piece_of(
            told_after_all(t, ls.drop_last()),
            ls.last(),
        ).missing {
            1int
        } else {
            0
        })
    }
}

/// How often several looks lead to a note that the file cannot be read.
pub open spec fn error_notes(t: Told, ls: Seq<Look>) -> int
    decreases ls.len(),
{
    if ls.len() == 0 {
        0
    } else {
        error_notes(t, ls.drop_last()) + (if piece_of(
            told_after_all(t, ls.drop_last()),
            ls.last(),
        ).error is Some {
            1int
        } else {
            0
        })
    }
}

/// As long as no look finds the file there, it is reported as gone once at most, however often
/// looks that find it gone alternate with looks that fail.
pub proof fn a_disappearance_is_reported_once(t: Told, ls: Seq<Look>)
    requires
        forall|i: int| 0 <= i < ls.len() ==> (#[trigger] ls[i]).missing || ls[i].error is Some,
    ensures
        missing_notes(t, ls) <= 1,
        t.missing ==> missing_notes(t, ls) == 0 && told_after_all(t, ls).missing,
        missing_notes(t, ls) == 1 ==> told_after_all(t, ls).missing,
    decreases ls.len(),
{
    if ls.len() > 0 {
        let init = ls.drop_last();
        assert forall|i: int| 0 <= i < init.len() implies (#[trigger] init[i]).missing
            || init[i].error is Some by {
            assert(init[i] == ls[i]);
        }
        a_disappearance_is_reported_once(t, init);
        lemma_notes_nonneg(t, init);
        assert(ls[ls.len() - 1].missing || ls[ls.len() - 1].error is Some);
    }
}

proof fn lemma_notes_nonneg(t: Told, ls: Seq<Look>)
    ensures
        missing_notes(t, ls) >= 0,
        error_notes(t, ls) >= 0,
    decreases ls.len(),
{
    if ls.len() > 0 {
        lemma_notes_nonneg(t, ls.drop_last());
    }
}

/// As long as every look fails, it is reported once that the file cannot be read.
pub proof fn a_failure_is_reported_once(t: Told, ls: Seq<Look>)
    requires
        forall|i: int| 0 <= i < ls.len() ==> (#[trigger] ls[i]).error is Some,
    ensures
        error_notes(t, ls) == (if t.error || ls.len() == 0 {
            0int
        } else {
            1
        }),
        ls.len() > 0 || t.error ==> told_after_all(t, ls).error,
    decreases ls.len(),
{
    if ls.len() > 0 {
        let init = ls.drop_last();
        assert forall|i: int| 0 <= i < init.len() implies (#[trigger] init[i]).error is Some by {
            assert(init[i] == ls[i]);
        }
        a_failure_is_reported_once(t, init);
        assert(ls[ls.len() - 1].error is Some);
    }
}

/// A look that finds the file there makes its next disappearance news again.
pub proof fn a_present_file_can_disappear_again(t: Told, present: Look, gone: Look)
    requires
        !present.missing,
        present.error is None,
        gone.missing,
    ensures
        piece_of(told_after(t, present), gone).missing,
{
}

/// The text of the pieces that looks lead to, joined in their order.
pub open spec fn handed_on(t: Told, ls: Seq<Look>) -> Seq<char>
    decreases ls.len(),
{
    if ls.len() == 0 {
        seq![]
    } else {
        let c = piece_of(told_after_all(t, ls.drop_last()), ls.last());
        handed_on(t, ls.drop_last()) + (if has_news(c) && c.new_text is Some {
            c.new_text->0
        } else {
            seq![]
        })
    }
}

/// The text that looks brought, joined in their order.
pub open spec fn brought(ls: Seq<Look>) -> Seq<char>
    decreases ls.len(),
{
    if ls.len() == 0 {
        seq![]
    } else {
        brought(ls.drop_last()) + (if ls.last().new_text is Some {
            ls.last().new_text->0
        } else {
            seq![]
        })
    }
}

/// No text is lost on its way to the window, and none is made up: whatever else the looks say, the
/// text of the pieces is the text of the looks.
pub proof fn no_text_is_lost(t: Told, ls: Seq<Look>)
    ensures
        handed_on(t, ls) == brought(ls),
    decreases ls.len(),
{
    if ls.len() > 0 {
        no_text_is_lost(t, ls.drop_last());
    }
}

/// What a look says reaches the window, whatever has been said before and whatever else the look
/// says: its text, its encoding, that the file was replaced, is back or is there for the first
/// time, how much was left out, and, where this is news, that it is gone or cannot be read. A
/// piece says nothing that the look does not, and one that would say nothing is not sent.
pub proof fn a_look_is_passed_on_whole(t: Told, l: Look)
    ensures
        piece_of(t, l).new_text == l.new_text,
        piece_of(t, l).rotated == l.rotated,
        piece_of(t, l).reappeared == l.reappeared,
        piece_of(t, l).encoding_label == l.encoding_label,
        piece_of(t, l).skipped_bytes == l.skipped_bytes,
        piece_of(t, l).ready == l.ready,
        piece_of(t, l).missing == (l.missing && !t.missing),
        piece_of(t, l).error == (if t.error {
            None
        } else {
            l.error
        }),
        has_news(piece_of(t, l)) == (l.new_text is Some || l.rotated || l.reappeared || l.ready
            || l.skipped_bytes is Some || (l.missing && !t.missing) || (l.error is Some
            && !t.error)),
        has_news(piece_of(t, l)) == (piece_of(t, l) != (Chunk {
            encoding_label: l.encoding_label,
            ..silent()
        })),
{
    let blank = Chunk { encoding_label: l.encoding_label, ..silent() };
    if piece_of(t, l) == blank {
        assert(!has_news(blank));
    }
}

/// That a file is gone has been said once a look finds it gone, and no longer once a look finds it
/// there; a look that fails changes nothing in this. That it cannot be read has been said exactly
/// after a look that failed.
pub proof fn what_was_said_follows_the_looks(t: Told, l: Look)
    ensures
        l.missing ==> told_after(t, l).missing,
        !l.missing && l.error is None ==> !told_after(t, l).missing,
        !l.missing && l.error is Some ==> told_after(t, l).missing == t.missing,
        told_after(t, l).error == (l.error is Some),
{
}

/// A turn calls for a sweep exactly where a regular sweep is due, or where changes were reported
/// long enough ago. Where none is called for and nothing new came, nothing changes.
pub proof fn a_turn_calls_for_what_is_due(p: Pace, now: u64)
    ensures
        (turn_of(p, p.poll, false, now) != Turn::Rest) == (now >= p.sched.poll_due || (
        p.sched.fs_due is Some && now >= p.sched.fs_due->0)),
        turn_of(p, p.poll, false, now) == Turn::Rest ==> after_turn(p, p.poll, false, now) == p,
        turn_of(p, p.poll, false, now) == Turn::Start ==> !p.sched.started,
        turn_of(p, p.poll, false, now) == Turn::Sweep ==> p.sched.started,
{
}

/// A reported change leads to a sweep: at the turn that takes note of it, or at any turn once the
/// waiting time is over.
pub proof fn a_reported_change_leads_to_a_sweep(
    p: Pace,
    want: u64,
    now: u64,
    later: u64,
    changed: bool,
)
    requires
        p.sched.fs_due is Some ==> p.sched.fs_due->0 <= now + p.sched.debounce,
        now + p.sched.debounce <= later,
    ensures
        turn_of(p, want, true, now) != Turn::Rest || turn_of(
            after_turn(p, want, true, now),
            want,
            changed,
            later,
        ) != Turn::Rest,
{
}

/// Another interval counts from the turn at which it is asked for; the same interval, and the same
/// after it was brought up to the floor, changes nothing.
pub proof fn another_interval_counts_from_now(p: Pace, want: u64, now: u64)
    requires
        p.sched.poll_due > now,
        p.sched.fs_due is None,
        now + want + 100 <= u64::MAX,
    ensures
        want == p.poll ==> after_turn(p, want, false, now) == p,
        want != p.poll && want >= 100 && want != p.sched.interval ==> after_turn(
            p,
            want,
            false,
            now,
        ).sched.poll_due == now + want && after_turn(p, want, false, now).sched.interval == want,
        want != p.poll && want < 100 && p.sched.interval != 100 ==> after_turn(
            p,
            want,
            false,
            now,
        ).sched.poll_due == now + 100,
        after_turn(p, want, false, now).poll == want,
        after_turn(p, want, false, now).sched.started == p.sched.started,
{
}

} // verus!
