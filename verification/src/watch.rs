//! Watching one directory for files whose names fit the patterns. A sweep compares what the
//! directory holds with what was there before, and that comparison alone decides what happened: a
//! file is new, was written, is gone, or is back. Files are told apart by their full paths.

use vstd::prelude::*;

use crate::cli;
use crate::fskey;
use crate::glob::GlobMatcher;
use crate::os::Os;
use crate::table;
use crate::table::Table;

verus! {

/// The deepest level of subdirectories that can be watched.
pub const MAX_DEPTH: i32 = 10;

/// For how many sweeps in a row a missing file is remembered as such.
pub const MISSING_PRUNE_SWEEPS: u32 = 20;

/// How many stamps of files no longer remembered are kept at most.
pub const PRUNED_STAMPS_MAX: usize = 10_000;

/// What tells two versions of a file apart.
#[derive(Debug, Clone, Copy, PartialEq, Eq, Structural)]
pub struct Stamp {
    /// Its length in bytes.
    pub length: u64,
    /// When it was last written, in nanoseconds since the epoch, if the system says.
    pub write: Option<i128>,
}

/// A matching file, as a directory listing shows it.
#[derive(Debug)]
pub struct Listed {
    /// Its full path.
    pub path: String,
    /// Its stamp.
    pub stamp: Stamp,
}

/// What is remembered of a file.
#[derive(Debug)]
pub struct KnownFile {
    /// Its full path as last seen.
    pub path: String,
    /// Its stamp when last seen; none where it was written and nobody has heard of it.
    pub stamp: Option<Stamp>,
    /// It was there at the last sweep, as far as anybody has heard.
    pub exists: bool,
    /// For how many sweeps in a row it has been missing.
    pub missing_sweeps: u32,
    /// Somebody has heard that there is such a file.
    pub told: bool,
}

/// Something that a sweep found out.
#[derive(Debug, Clone, PartialEq, Eq)]
pub enum WatchEvent {
    /// A file that was never seen before.
    Discovered(String),
    /// A file was written.
    Activity(String),
    /// A file is gone.
    Missing(String),
    /// A file is back.
    Reappeared(String),
    /// The directory cannot be read, for this reason.
    Error(String),
    /// The directory can be read again.
    Recovered,
}

/// What a sweep cost.
#[derive(Debug, Clone, Copy, PartialEq, Eq, Structural)]
pub struct SweepStats {
    /// How many matching files there were.
    pub files: usize,
    /// How many directories were read.
    pub dirs: usize,
    /// How long it took, in milliseconds.
    pub millis: u64,
}

/// What a look at the directory brought: the matching files in the order in which they were met,
/// and how many directories were read.
#[derive(Debug)]
pub struct Survey {
    /// The matching files.
    pub files: Vec<Listed>,
    /// How many directories were read.
    pub dirs: usize,
}

// ---------------------------------------------------------------------------------------------
// Model
// ---------------------------------------------------------------------------------------------

/// What a watch remembers between sweeps.
#[verifier::ext_equal]
pub struct Watched {
    /// The naming rules in force.
    pub os: Os,
    /// The first sweep is over.
    pub started: bool,
    /// The directory could not be read at the last sweep.
    pub root_down: bool,
    /// The files that are there, or were a short while ago, by identity.
    pub known: Seq<(Seq<char>, KnownFile)>,
    /// The stamps of files that have been gone for long, by identity.
    pub pruned: Seq<(Seq<char>, Option<Stamp>)>,
}

/// A file that is there.
pub open spec fn present(f: Listed) -> KnownFile {
    KnownFile {
        path: f.path,
        stamp: Some(f.stamp),
        exists: true,
        missing_sweeps: 0,
        told: true,
    }
}

/// A listed file is reported as written only where its stamp says that it was.
pub open spec fn write_events(f: Listed, before: Option<Stamp>) -> Seq<WatchEvent> {
    if before == Some(f.stamp) {
        seq![]
    } else {
        seq![WatchEvent::Activity(f.path)]
    }
}

/// What a file is reported as that is remembered: as new where nobody has heard of it, as back
/// where it was gone, and as written where it was.
pub open spec fn known_events(f: Listed, prev: KnownFile) -> Seq<WatchEvent> {
    (if !prev.told {
        seq![WatchEvent::Discovered(f.path)]
    } else if !prev.exists {
        seq![WatchEvent::Reappeared(f.path)]
    } else {
        seq![]
    }) + write_events(f, prev.stamp)
}

/// What a listed file is reported as.
pub open spec fn file_events(w: Watched, f: Listed) -> Seq<WatchEvent> {
    let key = fskey::key_of(w.os, f.path@);
    match table::lookup(w.known, key) {
        Some(prev) => known_events(f, prev),
        None => match table::lookup(w.pruned, key) {
            Some(before) => seq![WatchEvent::Reappeared(f.path)] + write_events(f, before),
            None => if w.started {
                seq![WatchEvent::Discovered(f.path), WatchEvent::Activity(f.path)]
            } else {
                seq![WatchEvent::Discovered(f.path)]
            },
        },
    }
}

/// What is remembered once a file was listed.
pub open spec fn with_file(w: Watched, f: Listed) -> Watched {
    let key = fskey::key_of(w.os, f.path@);
    Watched {
        known: table::put(w.known, key, present(f)),
        pruned: if table::lookup(w.known, key) is None {
            table::erase(w.pruned, key)
        } else {
            w.pruned
        },
        ..w
    }
}

/// What is remembered once files were listed.
pub open spec fn with_files(w: Watched, files: Seq<Listed>) -> Watched
    decreases files.len(),
{
    if files.len() == 0 {
        w
    } else {
        with_file(with_files(w, files.drop_last()), files.last())
    }
}

/// What listed files are reported as.
pub open spec fn files_events(w: Watched, files: Seq<Listed>) -> Seq<WatchEvent>
    decreases files.len(),
{
    if files.len() == 0 {
        seq![]
    } else {
        files_events(w, files.drop_last()) + file_events(
            with_files(w, files.drop_last()),
            files.last(),
        )
    }
}

/// Whether a file with the given identity was listed.
pub open spec fn was_listed(os: Os, files: Seq<Listed>, key: Seq<char>) -> bool {
    exists|i: int| 0 <= i < files.len() && fskey::key_of(os, #[trigger] files[i].path@) == key
}

/// What is remembered of a file that was not listed.
pub open spec fn absent(k: KnownFile) -> KnownFile {
    if k.exists {
        KnownFile { exists: false, missing_sweeps: 1, ..k }
    } else {
        KnownFile {
            missing_sweeps: if k.missing_sweeps == u32::MAX {
                u32::MAX
            } else {
                (k.missing_sweeps + 1) as u32
            },
            ..k
        }
    }
}

/// Whether a file that was not listed has been gone for so long that only its stamp is kept. While
/// the directory cannot be read, no file counts as gone for long.
pub open spec fn gone_for_long(k: KnownFile, root_down: bool) -> bool {
    !k.exists && absent(k).missing_sweeps > MISSING_PRUNE_SWEEPS && !root_down
}

/// The known files after a sweep that listed `files`.
pub open spec fn known_after(
    os: Os,
    rows: Seq<(Seq<char>, KnownFile)>,
    files: Seq<Listed>,
    root_down: bool,
) -> Seq<(Seq<char>, KnownFile)>
    decreases rows.len(),
{
    if rows.len() == 0 {
        seq![]
    } else {
        let before = known_after(os, rows.drop_last(), files, root_down);
        let (key, k) = rows.last();
        if was_listed(os, files, key) {
            before.push((key, k))
        } else if gone_for_long(k, root_down) {
            before
        } else {
            before.push((key, absent(k)))
        }
    }
}

/// The files that are reported missing by a sweep that listed `files`, in the order of their
/// identities: those that were there and that somebody has heard of.
pub open spec fn missing_events(
    os: Os,
    rows: Seq<(Seq<char>, KnownFile)>,
    files: Seq<Listed>,
) -> Seq<WatchEvent>
    decreases rows.len(),
{
    if rows.len() == 0 {
        seq![]
    } else {
        let before = missing_events(os, rows.drop_last(), files);
        let (key, k) = rows.last();
        if !was_listed(os, files, key) && k.exists && k.told {
            before.push(WatchEvent::Missing(k.path))
        } else {
            before
        }
    }
}

/// The kept stamps with one more. When there are too many, the others are dropped.
pub open spec fn with_stamp(
    pruned: Seq<(Seq<char>, Option<Stamp>)>,
    key: Seq<char>,
    s: Option<Stamp>,
) -> Seq<(Seq<char>, Option<Stamp>)> {
    if pruned.len() >= PRUNED_STAMPS_MAX {
        table::put(seq![], key, s)
    } else {
        table::put(pruned, key, s)
    }
}

/// The kept stamps after a sweep that listed `files`. Of a file that nobody has heard of none is
/// kept.
pub open spec fn pruned_after(
    os: Os,
    rows: Seq<(Seq<char>, KnownFile)>,
    files: Seq<Listed>,
    root_down: bool,
    pruned: Seq<(Seq<char>, Option<Stamp>)>,
) -> Seq<(Seq<char>, Option<Stamp>)>
    decreases rows.len(),
{
    if rows.len() == 0 {
        pruned
    } else {
        let before = pruned_after(os, rows.drop_last(), files, root_down, pruned);
        let (key, k) = rows.last();
        if !was_listed(os, files, key) && gone_for_long(k, root_down) && k.told {
            with_stamp(before, key, k.stamp)
        } else {
            before
        }
    }
}

/// The files that a look at the directory brought; none where it cannot be read.
pub open spec fn files_found(found: Result<Survey, String>) -> Seq<Listed> {
    match found {
        Ok(s) => s.files@,
        Err(_) => seq![],
    }
}

/// What is reported of the directory itself: that it cannot be read, once, and that it can be read
/// again, once.
pub open spec fn root_events(w: Watched, found: Result<Survey, String>) -> Seq<WatchEvent> {
    match found {
        Ok(_) => if w.root_down {
            seq![WatchEvent::Recovered]
        } else {
            seq![]
        },
        Err(reason) => if w.root_down {
            seq![]
        } else {
            seq![WatchEvent::Error(reason)]
        },
    }
}

/// The watch once the state of the directory itself was taken note of.
pub open spec fn after_root(w: Watched, found: Result<Survey, String>) -> Watched {
    Watched { root_down: found is Err, ..w }
}

/// What a sweep reports: the directory itself, then the files that are there, then those that are
/// not.
pub open spec fn sweep_events(w: Watched, found: Result<Survey, String>) -> Seq<WatchEvent> {
    let files = files_found(found);
    let r = after_root(w, found);
    root_events(w, found) + files_events(r, files) + missing_events(
        w.os,
        with_files(r, files).known,
        files,
    )
}

/// What is remembered after a sweep.
pub open spec fn after_sweep(w: Watched, found: Result<Survey, String>) -> Watched {
    let files = files_found(found);
    let seen = with_files(after_root(w, found), files);
    Watched {
        known: known_after(w.os, seen.known, files, seen.root_down),
        pruned: pruned_after(w.os, seen.known, files, seen.root_down, seen.pruned),
        ..seen
    }
}

/// What becomes of a file when a finding on it could not be handed on: it is as if it had not been
/// found.
pub open spec fn unheard(k: KnownFile, e: WatchEvent) -> KnownFile {
    match e {
        WatchEvent::Discovered(_) => KnownFile { told: false, ..k },
        WatchEvent::Activity(_) => KnownFile { stamp: None, ..k },
        WatchEvent::Missing(_) => KnownFile { exists: true, missing_sweeps: 0, ..k },
        WatchEvent::Reappeared(_) => KnownFile { exists: false, missing_sweeps: 0, ..k },
        WatchEvent::Error(_) => k,
        WatchEvent::Recovered => k,
    }
}

/// The file that a finding is about.
pub open spec fn subject(e: WatchEvent) -> Option<String> {
    match e {
        WatchEvent::Discovered(p) => Some(p),
        WatchEvent::Activity(p) => Some(p),
        WatchEvent::Missing(p) => Some(p),
        WatchEvent::Reappeared(p) => Some(p),
        WatchEvent::Error(_) => None,
        WatchEvent::Recovered => None,
    }
}

/// What is remembered once a finding was taken back.
pub open spec fn without(w: Watched, e: WatchEvent) -> Watched {
    match subject(e) {
        Some(p) => {
            let key = fskey::key_of(w.os, p@);
            match table::lookup(w.known, key) {
                Some(k) => Watched { known: table::put(w.known, key, unheard(k, e)), ..w },
                None => w,
            }
        },
        None => Watched { root_down: e is Recovered, ..w },
    }
}

/// What is remembered once findings were taken back.
pub open spec fn without_all(w: Watched, evs: Seq<WatchEvent>) -> Watched
    decreases evs.len(),
{
    if evs.len() == 0 {
        w
    } else {
        without(without_all(w, evs.drop_last()), evs.last())
    }
}

/// No file is remembered and has its stamp kept besides.
pub open spec fn apart(w: Watched) -> bool {
    forall|key: Seq<char>|
        (#[trigger] table::lookup(w.known, key)) is Some ==> table::lookup(w.pruned, key) is None
}

/// Every file is remembered under its own identity.
pub open spec fn keyed(w: Watched) -> bool {
    forall|key: Seq<char>|
        (#[trigger] table::lookup(w.known, key)) matches Some(k) ==> fskey::key_of(w.os, k.path@)
            == key
}

/// What always holds of a watch.
pub open spec fn sound(w: Watched) -> bool {
    &&& table::ordered(w.known)
    &&& table::ordered(w.pruned)
    &&& w.pruned.len() <= PRUNED_STAMPS_MAX
    &&& apart(w)
    &&& keyed(w)
}

// ---------------------------------------------------------------------------------------------
// The service
// ---------------------------------------------------------------------------------------------

/// Watches one directory.
#[derive(Debug)]
pub struct WatchService {
    os: Os,
    directory: String,
    matcher: GlobMatcher,
    poll_interval_ms: u32,
    depth: i32,
    known: Table<KnownFile>,
    pruned: Table<Option<Stamp>>,
    started: bool,
    last_sweep: SweepStats,
    root_error_reported: bool,
}

impl View for WatchService {
    type V = Watched;

    closed spec fn view(&self) -> Watched {
        Watched {
            os: self.os,
            started: self.started,
            root_down: self.root_error_reported,
            known: self.known@,
            pruned: self.pruned@,
        }
    }
}

impl WatchService {
    /// What always holds.
    pub closed spec fn wf(&self) -> bool {
        &&& self.tables_wf()
        &&& apart(self@)
        &&& keyed(self@)
    }

    /// What holds in the middle of a sweep too.
    closed spec fn tables_wf(&self) -> bool {
        &&& self.known.wf()
        &&& self.pruned.wf()
        &&& self.pruned@.len() <= PRUNED_STAMPS_MAX
        &&& 0 <= self.depth <= MAX_DEPTH
        &&& self.poll_interval_ms >= crate::POLL_INTERVAL_FLOOR_MS
    }

    /// The directory watched.
    pub closed spec fn root(&self) -> Seq<char> {
        self.directory@
    }

    /// The patterns in force.
    pub closed spec fn patterns(&self) -> Seq<Seq<char>> {
        self.matcher@
    }

    /// How many levels of subdirectories are watched.
    pub closed spec fn levels(&self) -> int {
        self.depth as int
    }

    /// The poll interval, in milliseconds.
    pub closed spec fn interval(&self) -> int {
        self.poll_interval_ms as int
    }

    /// What the last sweep cost.
    pub closed spec fn cost(&self) -> SweepStats {
        self.last_sweep
    }

    /// What was given to `new` stays as it was.
    pub open spec fn same_setup(&self, other: &Self) -> bool {
        &&& self.root() == other.root()
        &&& self.patterns() == other.patterns()
        &&& self.levels() == other.levels()
        &&& self.interval() == other.interval()
    }

    /// What always holds of a watch.
    pub proof fn lemma_sound(&self)
        requires
            self.wf(),
        ensures
            sound(self@),
            0 <= self.levels() <= MAX_DEPTH,
    {
        self.known.lemma_ordered();
        self.pruned.lemma_ordered();
    }

    /// A watch that has seen nothing. The interval is brought up to the floor, and the depth into
    /// its range.
    pub fn new(os: Os, directory: &str, matcher: GlobMatcher, poll_interval_ms: u32, depth: i32) -> (r:
        Self)
        ensures
            r.wf(),
            r@ == (Watched { os, started: false, root_down: false, known: seq![], pruned: seq![] }),
            r.root() == directory@,
            r.patterns() == matcher@,
            r.levels() == cli::within(depth as int, 0, MAX_DEPTH as int),
            r.interval() == (if poll_interval_ms < crate::POLL_INTERVAL_FLOOR_MS {
                crate::POLL_INTERVAL_FLOOR_MS as int
            } else {
                poll_interval_ms as int
            }),
            r.cost() == (SweepStats { files: 0, dirs: 0, millis: 0 }),
    {
        WatchService {
            os,
            directory: directory.to_owned(),
            matcher,
            poll_interval_ms: if poll_interval_ms < crate::POLL_INTERVAL_FLOOR_MS {
                crate::POLL_INTERVAL_FLOOR_MS
            } else {
                poll_interval_ms
            },
            depth: cli::clamp_i32(depth, 0, MAX_DEPTH),
            known: Table::new(),
            pruned: Table::new(),
            started: false,
            last_sweep: SweepStats { files: 0, dirs: 0, millis: 0 },
            root_error_reported: false,
        }
    }

    /// The directory watched.
    pub fn directory(&self) -> (r: &str)
        ensures
            r@ == self.root(),
    {
        self.directory.as_str()
    }

    /// The poll interval, in milliseconds.
    pub fn poll_interval_ms(&self) -> (r: u32)
        ensures
            r == self.interval(),
    {
        self.poll_interval_ms
    }

    /// How many levels of subdirectories are watched.
    pub fn depth(&self) -> (r: i32)
        ensures
            r == self.levels(),
    {
        self.depth
    }

    /// Whether a file of this name is watched.
    pub fn wants(&self, name: &str) -> (r: bool)
        ensures
            r == crate::glob::fits(self.patterns(), name@),
    {
        self.matcher.is_match(name)
    }

    /// What to say when the directory cannot be read.
    pub fn unreadable(&self, reason: &str) -> (r: String)
        ensures
            r@ == "cannot read "@ + self.root() + ": "@ + reason@,
    {
        let mut out = "cannot read ".to_owned();
        out.push_str(self.directory.as_str());
        out.push_str(": ");
        out.push_str(reason);
        out
    }

    /// The first sweep: whatever is there is discovered, and nothing counts as written.
    pub fn start(&mut self, found: Result<Survey, String>, millis: u64) -> (r: Vec<WatchEvent>)
        requires
            old(self).wf(),
        ensures
            final(self).wf(),
            final(self).same_setup(old(self)),
            r@ == sweep_events(old(self)@, found),
            final(self)@ == (Watched { started: true, ..after_sweep(old(self)@, found) }),
            final(self).cost() == stats_of(found, millis),
    {
        let events = self.sweep(found, millis);
        self.started = true;
        events
    }

    /// Compares what a look at the directory brought with what was there before.
    pub fn sweep(&mut self, found: Result<Survey, String>, millis: u64) -> (r: Vec<WatchEvent>)
        requires
            old(self).wf(),
        ensures
            final(self).wf(),
            final(self).same_setup(old(self)),
            r@ == sweep_events(old(self)@, found),
            final(self)@ == after_sweep(old(self)@, found),
            final(self).cost() == stats_of(found, millis),
    {
        let ghost w0 = self@;
        let mut events: Vec<WatchEvent> = Vec::new();
        let (files, dirs) = match found {
            Ok(s) => {
                if self.root_error_reported {
                    self.root_error_reported = false;
                    events.push(WatchEvent::Recovered);
                }
                (s.files, s.dirs)
            },
            Err(reason) => {
                if !self.root_error_reported {
                    self.root_error_reported = true;
                    events.push(WatchEvent::Error(reason));
                }
                (Vec::new(), 0)
            },
        };
        self.last_sweep = SweepStats { files: files.len(), dirs, millis };
        assert(files@ =~= files_found(found));
        assert(events@ =~= root_events(w0, found));
        let ghost w1 = self@;
        assert(w1 == after_root(w0, found));
        let ghost mut ev = events@;
        let mut seen: Table<bool> = Table::new();
        let mut i: usize = 0;
        assert(files@.take(0) =~= Seq::<Listed>::empty());
        assert(ev + files_events(w1, files@.take(0)) =~= ev);
        while i < files.len()
            invariant
                i <= files@.len(),
                self.tables_wf(),
                self.same_setup(old(self)),
                self.cost() == stats_of(found, millis),
                seen.wf(),
                w1 == after_root(w0, found),
                self@ == with_files(w1, files@.take(i as int)),
                events@ == ev + files_events(w1, files@.take(i as int)),
                forall|key: Seq<char>|
                    table::lookup(seen@, key) is Some <==> #[trigger] was_listed(
                        w0.os,
                        files@.take(i as int),
                        key,
                    ),
            decreases files@.len() - i,
        {
            let f = &files[i];
            let key = fskey::fs_key_str(self.os, f.path.as_str());
            let ghost before = files@.take(i as int);
            let ghost next = files@.take(i as int + 1);
            proof {
                assert(next.drop_last() =~= before);
                assert(next.last() == *f);
                lemma_with_files_os(w1, before);
                assert forall|k: Seq<char>| #[trigger] was_listed(w0.os, next, k) <==> (was_listed(
                    w0.os,
                    before,
                    k,
                ) || k == key@) by {
                    if was_listed(w0.os, before, k) {
                        let j = choose|j: int|
                            0 <= j < before.len() && fskey::key_of(
                                w0.os,
                                #[trigger] before[j].path@,
                            ) == k;
                        assert(next[j].path@ == before[j].path@);
                    }
                    if k == key@ {
                        assert(fskey::key_of(w0.os, next[i as int].path@) == k);
                    }
                    if was_listed(w0.os, next, k) {
                        let j = choose|j: int|
                            0 <= j < next.len() && fskey::key_of(
                                w0.os,
                                #[trigger] next[j].path@,
                            ) == k;
                        if j < i {
                            assert(before[j].path@ == next[j].path@);
                        }
                    }
                }
                seen.lemma_ordered();
                assert forall|k: Seq<char>|
                    (#[trigger] table::lookup(table::put(seen@, key@, true), k)) is Some <==> (
                    table::lookup(seen@, k) is Some || k == key@) by {
                    table::put_then_lookup(seen@, key@, true, k);
                }
            }
            seen.insert(key.as_str(), true);
            self.take_file(f, key.as_str(), &mut events);
            proof {
                assert(events@ =~= ev + files_events(w1, next));
                assert forall|k: Seq<char>|
                    table::lookup(seen@, k) is Some <==> #[trigger] was_listed(
                        w0.os,
                        next,
                        k,
                    ) by {
                    assert(was_listed(w0.os, before, k) <==> was_listed(w0.os, before, k));
                }
            }
            i += 1;
        }
        proof {
            assert(files@.take(i as int) =~= files@);
            lemma_with_files_os(w1, files@);
        }
        self.age(&files, &seen, &mut events);
        proof {
            assert(events@ =~= sweep_events(w0, found));
            old(self).lemma_sound();
            lemma_sweep_sound(w0, found);
        }
        events
    }

    /// Takes note of a listed file.
    fn take_file(&mut self, f: &Listed, key: &str, events: &mut Vec<WatchEvent>)
        requires
            old(self).tables_wf(),
            key@ == fskey::key_of(old(self)@.os, f.path@),
        ensures
            final(self).tables_wf(),
            final(self).same_setup(old(self)),
            final(self).cost() == old(self).cost(),
            final(self)@ == with_file(old(self)@, *f),
            final(events)@ == old(events)@ + file_events(old(self)@, *f),
    {
        let ghost w0 = self@;
        let ghost ev = events@;
        let mut pruned_too = false;
        match self.known.get(key) {
            Some(prev) => {
                if !prev.told {
                    events.push(WatchEvent::Discovered(f.path.clone()));
                } else if !prev.exists {
                    events.push(WatchEvent::Reappeared(f.path.clone()));
                }
                report_write(f, &prev.stamp, events);
            },
            None => {
                pruned_too = true;
            },
        }
        if pruned_too {
            proof {
                self.pruned.lemma_ordered();
                lemma_erase_len(self.pruned@, key@);
            }
            match self.pruned.remove(key) {
                Some(before) => {
                    events.push(WatchEvent::Reappeared(f.path.clone()));
                    report_write(f, &before, events);
                },
                None => {
                    events.push(WatchEvent::Discovered(f.path.clone()));
                    if self.started {
                        events.push(WatchEvent::Activity(f.path.clone()));
                    }
                },
            }
        }
        self.known.insert(
            key,
            KnownFile {
                path: f.path.clone(),
                stamp: Some(f.stamp),
                exists: true,
                missing_sweeps: 0,
                told: true,
            },
        );
        assert(events@ =~= ev + file_events(w0, *f));
    }

    /// Takes note of the known files that were not listed.
    fn age(&mut self, files: &Vec<Listed>, seen: &Table<bool>, events: &mut Vec<WatchEvent>)
        requires
            old(self).tables_wf(),
            seen.wf(),
            forall|key: Seq<char>|
                table::lookup(seen@, key) is Some <==> #[trigger] was_listed(
                    old(self)@.os,
                    files@,
                    key,
                ),
        ensures
            final(self).tables_wf(),
            final(self).same_setup(old(self)),
            final(self).cost() == old(self).cost(),
            final(events)@ == old(events)@ + missing_events(
                old(self)@.os,
                old(self)@.known,
                files@,
            ),
            final(self)@ == (Watched {
                known: known_after(
                    old(self)@.os,
                    old(self)@.known,
                    files@,
                    old(self)@.root_down,
                ),
                pruned: pruned_after(
                    old(self)@.os,
                    old(self)@.known,
                    files@,
                    old(self)@.root_down,
                    old(self)@.pruned,
                ),
                ..old(self)@
            }),
    {
        let ghost w0 = self@;
        let ghost rows = self@.known;
        let ghost down = self@.root_down;
        let ghost os = self@.os;
        let ghost ev = events@;
        let ghost mut p: int = 0;
        let root_down = self.root_error_reported;
        let mut i: usize = 0;
        proof {
            assert(rows.take(0) =~= Seq::<(Seq<char>, KnownFile)>::empty());
            assert(rows.skip(0) =~= rows);
            assert(known_after(os, rows.take(0), files@, down) + rows.skip(0) =~= rows);
            assert(ev + missing_events(os, rows.take(0), files@) =~= ev);
        }
        while i < self.known.len()
            invariant
                self.tables_wf(),
                self.same_setup(old(self)),
                self.cost() == old(self).cost(),
                seen.wf(),
                os == w0.os,
                rows == w0.known,
                down == w0.root_down,
                down == root_down,
                forall|key: Seq<char>|
                    table::lookup(seen@, key) is Some <==> #[trigger] was_listed(os, files@, key),
                0 <= p <= rows.len(),
                i == known_after(os, rows.take(p), files@, down).len(),
                events@ == ev + missing_events(os, rows.take(p), files@),
                self@ == (Watched {
                    known: known_after(os, rows.take(p), files@, down) + rows.skip(p),
                    pruned: pruned_after(os, rows.take(p), files@, down, w0.pruned),
                    ..w0
                }),
            decreases self.known@.len() - i,
        {
            let ghost front = known_after(os, rows.take(p), files@, down);
            proof {
                assert(self@.known == self.known@);
                assert(p < rows.len());
                assert(self.known@[i as int] == rows[p]);
                assert(rows.take(p + 1).drop_last() =~= rows.take(p));
                assert(rows.take(p + 1).last() == rows[p]);
            }
            if seen.get(self.known.name_at(i)).is_some() {
                proof {
                    assert(was_listed(os, files@, rows[p].0));
                    assert(front.push(rows[p]) + rows.skip(p + 1) =~= front + rows.skip(p));
                }
                i += 1;
            } else {
                proof {
                    assert(!was_listed(os, files@, rows[p].0));
                }
                let k = self.known.value_at(i);
                if k.exists {
                    if k.told {
                        events.push(WatchEvent::Missing(k.path.clone()));
                    }
                    let now = KnownFile {
                        path: k.path.clone(),
                        stamp: k.stamp,
                        exists: false,
                        missing_sweeps: 1,
                        told: k.told,
                    };
                    self.known.set_value_at(i, now);
                    proof {
                        assert((front + rows.skip(p)).update(i as int, (rows[p].0, now))
                            =~= front.push((rows[p].0, now)) + rows.skip(p + 1));
                    }
                    i += 1;
                } else {
                    let count: u32 = if k.missing_sweeps == u32::MAX {
                        u32::MAX
                    } else {
                        k.missing_sweeps + 1
                    };
                    if count > MISSING_PRUNE_SWEEPS && !root_down {
                        let name = self.known.name_at(i).to_owned();
                        let gone = self.known.remove_at(i);
                        proof {
                            assert((front + rows.skip(p)).remove(i as int) =~= front + rows.skip(
                                p + 1,
                            ));
                        }
                        if gone.told {
                            if self.pruned.len() >= PRUNED_STAMPS_MAX {
                                self.pruned.clear();
                            }
                            proof {
                                lemma_put_len(self.pruned@, name@, gone.stamp);
                            }
                            self.pruned.insert(name.as_str(), gone.stamp);
                        }
                    } else {
                        let now = KnownFile {
                            path: k.path.clone(),
                            stamp: k.stamp,
                            exists: false,
                            missing_sweeps: count,
                            told: k.told,
                        };
                        self.known.set_value_at(i, now);
                        proof {
                            assert((front + rows.skip(p)).update(i as int, (rows[p].0, now))
                                =~= front.push((rows[p].0, now)) + rows.skip(p + 1));
                        }
                        i += 1;
                    }
                }
            }
            proof {
                p = p + 1;
                assert(events@ =~= ev + missing_events(os, rows.take(p), files@));
            }
        }
        proof {
            assert(self@.known == self.known@);
            assert(p == rows.len());
            assert(rows.take(p) =~= rows);
            let front = known_after(os, rows, files@, down);
            assert(front + rows.skip(p) =~= front);
        }
    }

    /// Takes back findings that could not be handed on: the next sweep reports them again, unless
    /// they no longer hold then.
    pub fn take_back(&mut self, undelivered: &[WatchEvent])
        requires
            old(self).wf(),
        ensures
            final(self).wf(),
            final(self).same_setup(old(self)),
            final(self).cost() == old(self).cost(),
            final(self)@ == without_all(old(self)@, undelivered@),
    {
        let ghost w0 = self@;
        let mut i: usize = 0;
        assert(undelivered@.take(0) =~= Seq::<WatchEvent>::empty());
        while i < undelivered.len()
            invariant
                i <= undelivered@.len(),
                self.wf(),
                self.same_setup(old(self)),
                self.cost() == old(self).cost(),
                self@ == without_all(w0, undelivered@.take(i as int)),
            decreases undelivered@.len() - i,
        {
            proof {
                let next = undelivered@.take(i as int + 1);
                assert(next.drop_last() =~= undelivered@.take(i as int));
                assert(next.last() == undelivered@[i as int]);
            }
            self.take_back_one(&undelivered[i]);
            i += 1;
        }
        assert(undelivered@.take(i as int) =~= undelivered@);
    }

    /// Takes one finding back.
    fn take_back_one(&mut self, e: &WatchEvent)
        requires
            old(self).wf(),
        ensures
            final(self).wf(),
            final(self).same_setup(old(self)),
            final(self).cost() == old(self).cost(),
            final(self)@ == without(old(self)@, *e),
    {
        let ghost w0 = self@;
        proof {
            self.lemma_sound();
            lemma_without_sound(w0, *e);
        }
        let path: &String = match e {
            WatchEvent::Discovered(p) => p,
            WatchEvent::Activity(p) => p,
            WatchEvent::Missing(p) => p,
            WatchEvent::Reappeared(p) => p,
            WatchEvent::Error(_) => {
                self.root_error_reported = false;
                return ;
            },
            WatchEvent::Recovered => {
                self.root_error_reported = true;
                return ;
            },
        };
        let key = fskey::fs_key_str(self.os, path.as_str());
        let back = match self.known.get(key.as_str()) {
            Some(k) => Some(unheard_of(k, e)),
            None => None,
        };
        if let Some(k) = back {
            self.known.insert(key.as_str(), k);
        }
    }

    /// What the last sweep cost.
    pub fn last_sweep(&self) -> (r: SweepStats)
        ensures
            r == self.cost(),
    {
        self.last_sweep
    }

    /// How many files are remembered.
    pub fn tracked_count(&self) -> (r: usize)
        ensures
            r == self@.known.len(),
    {
        self.known.len()
    }

    /// How many stamps of files gone for long are kept.
    pub fn pruned_count(&self) -> (r: usize)
        ensures
            r == self@.pruned.len(),
    {
        self.pruned.len()
    }
}

/// What a look at the directory cost.
pub open spec fn stats_of(found: Result<Survey, String>, millis: u64) -> SweepStats {
    match found {
        Ok(s) => SweepStats { files: s.files@.len() as usize, dirs: s.dirs, millis },
        Err(_) => SweepStats { files: 0, dirs: 0, millis },
    }
}

fn report_write(f: &Listed, before: &Option<Stamp>, events: &mut Vec<WatchEvent>)
    ensures
        final(events)@ == old(events)@ + write_events(*f, *before),
{
    let ghost ev = events@;
    let same = match before {
        Some(s) => f.stamp == *s,
        None => false,
    };
    if !same {
        events.push(WatchEvent::Activity(f.path.clone()));
    }
    assert(events@ =~= ev + write_events(*f, *before));
}

fn unheard_of(k: &KnownFile, e: &WatchEvent) -> (r: KnownFile)
    ensures
        r == unheard(*k, *e),
{
    let mut r = KnownFile {
        path: k.path.clone(),
        stamp: k.stamp,
        exists: k.exists,
        missing_sweeps: k.missing_sweeps,
        told: k.told,
    };
    match e {
        WatchEvent::Discovered(_) => {
            r.told = false;
        },
        WatchEvent::Activity(_) => {
            r.stamp = None;
        },
        WatchEvent::Missing(_) => {
            r.exists = true;
            r.missing_sweeps = 0;
        },
        WatchEvent::Reappeared(_) => {
            r.exists = false;
            r.missing_sweeps = 0;
        },
        WatchEvent::Error(_) => {},
        WatchEvent::Recovered => {},
    }
    r
}

// ---------------------------------------------------------------------------------------------
// Lemmas
// ---------------------------------------------------------------------------------------------

proof fn lemma_with_files_os(w: Watched, files: Seq<Listed>)
    ensures
        with_files(w, files).os == w.os,
        with_files(w, files).started == w.started,
        with_files(w, files).root_down == w.root_down,
    decreases files.len(),
{
    if files.len() > 0 {
        lemma_with_files_os(w, files.drop_last());
    }
}

proof fn lemma_put_len<V>(rows: Seq<(Seq<char>, V)>, name: Seq<char>, v: V)
    ensures
        rows.len() <= table::put(rows, name, v).len() <= rows.len() + 1,
    decreases rows.len(),
{
    if rows.len() > 0 {
        lemma_put_len(rows.drop_last(), name, v);
    }
}

proof fn lemma_erase_len<V>(rows: Seq<(Seq<char>, V)>, name: Seq<char>)
    ensures
        table::erase(rows, name).len() <= rows.len(),
    decreases rows.len(),
{
    if rows.len() > 0 {
        lemma_erase_len(rows.drop_last(), name);
    }
}

/// What is remembered of one file after a sweep.
proof fn lemma_known_after(
    os: Os,
    rows: Seq<(Seq<char>, KnownFile)>,
    files: Seq<Listed>,
    root_down: bool,
    key: Seq<char>,
)
    requires
        table::ordered(rows),
    ensures
        table::lookup(known_after(os, rows, files, root_down), key) == (match table::lookup(
            rows,
            key,
        ) {
            None => None,
            Some(k) => if was_listed(os, files, key) {
                Some(k)
            } else if gone_for_long(k, root_down) {
                None
            } else {
                Some(absent(k))
            },
        }),
        table::ordered(known_after(os, rows, files, root_down)),
        forall|i: int|
            0 <= i < known_after(os, rows, files, root_down).len() ==> exists|j: int|
                0 <= j < rows.len() && rows[j].0 == (#[trigger] known_after(
                    os,
                    rows,
                    files,
                    root_down,
                )[i]).0,
    decreases rows.len(),
{
    let after = known_after(os, rows, files, root_down);
    if rows.len() > 0 {
        let init = rows.drop_last();
        let last = rows.len() - 1;
        assert(table::ordered(init)) by {
            assert forall|i: int, j: int| 0 <= i < j < init.len() implies table::precedes(
                (#[trigger] init[i]).0,
                (#[trigger] init[j]).0,
            ) by {
                assert(table::precedes(rows[i].0, rows[j].0));
            }
        }
        lemma_known_after(os, init, files, root_down, key);
        let before = known_after(os, init, files, root_down);
        if after.len() > before.len() {
            assert(after.drop_last() =~= before);
        }
        // The last name occurs nowhere before.
        table::lemma_lookup_none(init, rows[last].0);
        assert forall|i: int| 0 <= i < init.len() implies (#[trigger] init[i]).0
            != rows[last].0 by {
            assert(table::precedes(rows[i].0, rows[last].0));
            table::lemma_precedes_strict(rows[last].0, rows[last].0);
        }
        assert forall|i: int| 0 <= i < after.len() implies exists|j: int|
            0 <= j < rows.len() && rows[j].0 == (#[trigger] after[i]).0 by {
            if i < before.len() {
                assert(after[i] == before[i]);
                let j = choose|j: int| 0 <= j < init.len() && init[j].0 == before[i].0;
                assert(rows[j].0 == after[i].0);
            } else {
                assert(rows[last].0 == after[i].0);
            }
        }
        assert forall|i: int, j: int| 0 <= i < j < after.len() implies table::precedes(
            (#[trigger] after[i]).0,
            (#[trigger] after[j]).0,
        ) by {
            assert(after[i] == before[i]);
            if j < before.len() {
                assert(after[j] == before[j]);
            } else {
                let k = choose|k: int| 0 <= k < init.len() && init[k].0 == before[i].0;
                assert(table::precedes(rows[k].0, rows[last].0));
            }
        }
    }
}

/// What is remembered of one file once files were listed.
proof fn lemma_with_files(w: Watched, files: Seq<Listed>, key: Seq<char>)
    requires
        table::ordered(w.known),
        table::ordered(w.pruned),
    ensures
        table::ordered(with_files(w, files).known),
        table::ordered(with_files(w, files).pruned),
        !was_listed(w.os, files, key) ==> table::lookup(with_files(w, files).known, key)
            == table::lookup(w.known, key) && table::lookup(with_files(w, files).pruned, key)
            == table::lookup(w.pruned, key),
    decreases files.len(),
{
    if files.len() > 0 {
        let init = files.drop_last();
        let f = files.last();
        lemma_with_files(w, init, key);
        lemma_with_files_os(w, init);
        let mid = with_files(w, init);
        let fkey = fskey::key_of(w.os, f.path@);
        table::put_then_lookup(mid.known, fkey, present(f), key);
        table::erase_then_lookup(mid.pruned, fkey, key);
        if !was_listed(w.os, files, key) {
            assert(fskey::key_of(w.os, files[files.len() - 1].path@) != key);
            assert(!was_listed(w.os, init, key)) by {
                if was_listed(w.os, init, key) {
                    let j = choose|j: int|
                        0 <= j < init.len() && fskey::key_of(w.os, #[trigger] init[j].path@) == key;
                    assert(files[j].path@ == init[j].path@);
                }
            }
        }
    }
}

/// What is kept of one file once stamps were added.
proof fn lemma_pruned_after(
    os: Os,
    rows: Seq<(Seq<char>, KnownFile)>,
    files: Seq<Listed>,
    root_down: bool,
    pruned: Seq<(Seq<char>, Option<Stamp>)>,
    key: Seq<char>,
)
    requires
        table::ordered(rows),
        table::ordered(pruned),
        pruned.len() <= PRUNED_STAMPS_MAX,
    ensures
        table::ordered(pruned_after(os, rows, files, root_down, pruned)),
        pruned_after(os, rows, files, root_down, pruned).len() <= PRUNED_STAMPS_MAX,
        table::lookup(pruned_after(os, rows, files, root_down, pruned), key) is Some ==> (
        table::lookup(pruned_after(os, rows, files, root_down, pruned), key) == table::lookup(
            pruned,
            key,
        ) || (match table::lookup(rows, key) {
            Some(k) => !was_listed(os, files, key) && gone_for_long(k, root_down) && k.told
                && table::lookup(pruned_after(os, rows, files, root_down, pruned), key) == Some(
                k.stamp,
            ),
            None => false,
        })),
    decreases rows.len(),
{
    if rows.len() > 0 {
        let init = rows.drop_last();
        let last = rows.len() - 1;
        table::lemma_ordered_prefix(rows);
        lemma_pruned_after(os, init, files, root_down, pruned, key);
        let before = pruned_after(os, init, files, root_down, pruned);
        let (name, k) = rows.last();
        table::lemma_lookup_none(init, name);
        assert forall|i: int| 0 <= i < init.len() implies (#[trigger] init[i]).0 != name by {
            assert(table::precedes(rows[i].0, rows[last].0));
            table::lemma_precedes_strict(name, name);
        }
        if !was_listed(os, files, name) && gone_for_long(k, root_down) && k.told {
            let base = if before.len() >= PRUNED_STAMPS_MAX {
                Seq::<(Seq<char>, Option<Stamp>)>::empty()
            } else {
                before
            };
            assert(table::lookup(Seq::<(Seq<char>, Option<Stamp>)>::empty(), key) is None);
            table::put_then_lookup(base, name, k.stamp, key);
            lemma_put_len(base, name, k.stamp);
        }
    }
}

/// A sweep keeps what always holds.
pub proof fn lemma_sweep_sound(w: Watched, found: Result<Survey, String>)
    requires
        sound(w),
    ensures
        sound(after_sweep(w, found)),
{
    let files = files_found(found);
    let r = after_root(w, found);
    let seen = with_files(r, files);
    let a = after_sweep(w, found);
    lemma_with_files_os(r, files);
    lemma_with_files_sound(r, files);
    lemma_known_after(w.os, seen.known, files, seen.root_down, seq![]);
    lemma_pruned_after(w.os, seen.known, files, seen.root_down, seen.pruned, seq![]);
    assert forall|key: Seq<char>| (#[trigger] table::lookup(a.known, key)) is Some implies
        table::lookup(a.pruned, key) is None && fskey::key_of(
        a.os,
        table::lookup(a.known, key)->0.path@,
    ) == key by {
        lemma_known_after(w.os, seen.known, files, seen.root_down, key);
        lemma_pruned_after(w.os, seen.known, files, seen.root_down, seen.pruned, key);
        assert(table::lookup(seen.known, key) is Some);
        assert(table::lookup(seen.pruned, key) is None);
    }
}

proof fn lemma_with_files_sound(w: Watched, files: Seq<Listed>)
    requires
        sound(w),
    ensures
        sound(with_files(w, files)),
    decreases files.len(),
{
    if files.len() > 0 {
        let init = files.drop_last();
        let f = files.last();
        lemma_with_files_sound(w, init);
        let mid = with_files(w, init);
        let a = with_files(w, files);
        let fkey = fskey::key_of(mid.os, f.path@);
        table::put_then_lookup(mid.known, fkey, present(f), fkey);
        table::erase_then_lookup(mid.pruned, fkey, fkey);
        lemma_erase_len(mid.pruned, fkey);
        assert forall|key: Seq<char>| (#[trigger] table::lookup(a.known, key)) is Some implies
            table::lookup(a.pruned, key) is None && fskey::key_of(
            a.os,
            table::lookup(a.known, key)->0.path@,
        ) == key by {
            table::put_then_lookup(mid.known, fkey, present(f), key);
            table::erase_then_lookup(mid.pruned, fkey, key);
            if key != fkey {
                assert(table::lookup(mid.known, key) is Some);
            } else {
                assert(table::lookup(mid.known, key) is Some ==> table::lookup(mid.pruned, key)
                    is None);
            }
        }
    }
}

/// Taking a finding back keeps what always holds.
proof fn lemma_without_sound(w: Watched, e: WatchEvent)
    requires
        sound(w),
    ensures
        sound(without(w, e)),
{
    if let Some(p) = subject(e) {
        let key = fskey::key_of(w.os, p@);
        if let Some(k) = table::lookup(w.known, key) {
            let a = without(w, e);
            table::put_then_lookup(w.known, key, unheard(k, e), key);
            assert forall|other: Seq<char>|
                (#[trigger] table::lookup(a.known, other)) is Some implies table::lookup(
                a.pruned,
                other,
            ) is None && fskey::key_of(a.os, table::lookup(a.known, other)->0.path@) == other by {
                table::put_then_lookup(w.known, key, unheard(k, e), other);
                assert(table::lookup(w.known, other) is Some);
            }
        }
    }
}

// ---------------------------------------------------------------------------------------------
// Laws
// ---------------------------------------------------------------------------------------------

/// An outage is reported once when it begins and once when it ends, however many sweeps it lasts.
pub proof fn outage_is_reported_once(w: Watched, a: String, b: String, s: Survey, t: Survey)
    ensures
        !w.root_down ==> root_events(w, Err(a)) == seq![WatchEvent::Error(a)],
        root_events(after_sweep(w, Err(a)), Err(b)) == Seq::<WatchEvent>::empty(),
        root_events(after_sweep(w, Err(a)), Ok(s)) == seq![WatchEvent::Recovered],
        root_events(after_sweep(w, Ok(s)), Ok(t)) == Seq::<WatchEvent>::empty(),
{
    lemma_with_files_os(after_root(w, Err(a)), seq![]);
    lemma_with_files_os(after_root(w, Ok(s)), s.files@);
}

/// A file that has not changed since the last sweep is not reported at all.
pub proof fn unchanged_file_is_not_reported(w: Watched, f: Listed)
    requires
        table::lookup(w.known, fskey::key_of(w.os, f.path@)) matches Some(k) && k.told && k.exists
            && k.stamp == Some(f.stamp),
    ensures
        file_events(w, f) == Seq::<WatchEvent>::empty(),
{
    assert(file_events(w, f) =~= Seq::<WatchEvent>::empty());
}

/// A file that is back with the stamp it had is reported as back and not as written, be it
/// remembered or only its stamp kept.
pub proof fn unchanged_return_is_no_write(w: Watched, f: Listed)
    requires
        ({
            let key = fskey::key_of(w.os, f.path@);
            match table::lookup(w.known, key) {
                Some(k) => k.told && !k.exists && k.stamp == Some(f.stamp),
                None => table::lookup(w.pruned, key) == Some(Some(f.stamp)),
            }
        }),
    ensures
        file_events(w, f) == seq![WatchEvent::Reappeared(f.path)],
{
    assert(file_events(w, f) =~= seq![WatchEvent::Reappeared(f.path)]);
}

/// The watch after sweeps that could not read the directory.
pub open spec fn after_outage(w: Watched, reasons: Seq<String>) -> Watched
    decreases reasons.len(),
{
    if reasons.len() == 0 {
        w
    } else {
        after_sweep(after_outage(w, reasons.drop_last()), Err(reasons.last()))
    }
}

/// However long the directory cannot be read, no file is forgotten, and a file that is unchanged
/// when it can be read again is not taken to have been written.
pub proof fn outage_forgets_nothing(w: Watched, reasons: Seq<String>, f: Listed)
    requires
        table::ordered(w.known),
        table::ordered(w.pruned),
        reasons.len() > 0,
        table::lookup(w.known, fskey::key_of(w.os, f.path@)) matches Some(k) && k.told && k.stamp
            == Some(f.stamp),
    ensures
        after_outage(w, reasons).pruned == w.pruned,
        file_events(after_outage(w, reasons), f) == seq![WatchEvent::Reappeared(f.path)],
{
    lemma_outage(w, reasons, fskey::key_of(w.os, f.path@));
    assert(file_events(after_outage(w, reasons), f) =~= seq![WatchEvent::Reappeared(f.path)]);
}

proof fn lemma_outage(w: Watched, reasons: Seq<String>, key: Seq<char>)
    requires
        table::ordered(w.known),
        table::ordered(w.pruned),
        table::lookup(w.known, key) is Some,
    ensures
        after_outage(w, reasons).os == w.os,
        after_outage(w, reasons).pruned == w.pruned,
        table::ordered(after_outage(w, reasons).known),
        match table::lookup(after_outage(w, reasons).known, key) {
            Some(k) => k.stamp == table::lookup(w.known, key)->0.stamp && k.told == table::lookup(
                w.known,
                key,
            )->0.told && (reasons.len() > 0 ==> !k.exists),
            None => false,
        },
    decreases reasons.len(),
{
    if reasons.len() > 0 {
        let before = after_outage(w, reasons.drop_last());
        lemma_outage(w, reasons.drop_last(), key);
        let found: Result<Survey, String> = Err(reasons.last());
        let seen = with_files(after_root(before, found), seq![]);
        lemma_known_after(w.os, seen.known, seq![], true, key);
        lemma_no_prune_while_down(w.os, seen.known, seq![], seen.pruned);
        assert(!was_listed(w.os, Seq::<Listed>::empty(), key));
    }
}

proof fn lemma_no_prune_while_down(
    os: Os,
    rows: Seq<(Seq<char>, KnownFile)>,
    files: Seq<Listed>,
    pruned: Seq<(Seq<char>, Option<Stamp>)>,
)
    ensures
        pruned_after(os, rows, files, true, pruned) == pruned,
        known_after(os, rows, files, true).len() == rows.len(),
    decreases rows.len(),
{
    if rows.len() > 0 {
        lemma_no_prune_while_down(os, rows.drop_last(), files, pruned);
    }
}

/// A file that is gone is reported once: after the sweep that reported it, one that finds the same
/// files reports no file missing.
pub proof fn missing_is_reported_once(
    os: Os,
    rows: Seq<(Seq<char>, KnownFile)>,
    files: Seq<Listed>,
    root_down: bool,
)
    ensures
        missing_events(os, known_after(os, rows, files, root_down), files) == Seq::<
            WatchEvent,
        >::empty(),
    decreases rows.len(),
{
    if rows.len() > 0 {
        missing_is_reported_once(os, rows.drop_last(), files, root_down);
        let before = known_after(os, rows.drop_last(), files, root_down);
        let after = known_after(os, rows, files, root_down);
        if after.len() > before.len() {
            assert(after.drop_last() =~= before);
        }
    }
}

/// Only files that were there, and that somebody has heard of, are ever reported missing.
pub proof fn only_known_files_go_missing(
    os: Os,
    rows: Seq<(Seq<char>, KnownFile)>,
    files: Seq<Listed>,
    i: int,
)
    requires
        0 <= i < missing_events(os, rows, files).len(),
    ensures
        exists|j: int|
            0 <= j < rows.len() && (#[trigger] rows[j]).1.exists && rows[j].1.told && !was_listed(
                os,
                files,
                rows[j].0,
            ) && missing_events(os, rows, files)[i] == WatchEvent::Missing(rows[j].1.path),
    decreases rows.len(),
{
    let init = rows.drop_last();
    let before = missing_events(os, init, files);
    let all = missing_events(os, rows, files);
    if i < before.len() {
        only_known_files_go_missing(os, init, files, i);
        let j = choose|j: int|
            0 <= j < init.len() && (#[trigger] init[j]).1.exists && init[j].1.told && !was_listed(
                os,
                files,
                init[j].0,
            ) && before[i] == WatchEvent::Missing(init[j].1.path);
        assert(rows[j] == init[j]);
        assert(all[i] == before[i]);
    } else {
        assert(rows[rows.len() - 1] == rows.last());
    }
}

/// No two listed files are one and the same.
pub open spec fn listed_once(os: Os, files: Seq<Listed>) -> bool {
    forall|i: int, j: int|
        0 <= i < j < files.len() ==> fskey::key_of(os, #[trigger] files[i].path@) != fskey::key_of(
            os,
            #[trigger] files[j].path@,
        )
}

/// At the first sweep every file that is there is discovered, and none counts as written.
pub proof fn first_sweep_reports_no_write(w: Watched, files: Seq<Listed>)
    requires
        !w.started,
        w.known.len() == 0,
        w.pruned.len() == 0,
        listed_once(w.os, files),
    ensures
        files_events(w, files) == files.map_values(|f: Listed| WatchEvent::Discovered(f.path)),
    decreases files.len(),
{
    if files.len() > 0 {
        let init = files.drop_last();
        let f = files.last();
        assert(listed_once(w.os, init)) by {
            assert forall|i: int, j: int| 0 <= i < j < init.len() implies fskey::key_of(
                w.os,
                #[trigger] init[i].path@,
            ) != fskey::key_of(w.os, #[trigger] init[j].path@) by {
                assert(files[i].path@ == init[i].path@ && files[j].path@ == init[j].path@);
            }
        }
        first_sweep_reports_no_write(w, init);
        let key = fskey::key_of(w.os, f.path@);
        assert(!was_listed(w.os, init, key)) by {
            if was_listed(w.os, init, key) {
                let j = choose|j: int|
                    0 <= j < init.len() && fskey::key_of(w.os, #[trigger] init[j].path@) == key;
                assert(files[j].path@ == init[j].path@);
                assert(files[files.len() - 1].path@ == f.path@);
            }
        }
        lemma_with_files(w, init, key);
        lemma_with_files_os(w, init);
        let found = |g: Listed| WatchEvent::Discovered(g.path);
        assert(files.map_values(found) =~= init.map_values(found).push(
            WatchEvent::Discovered(f.path),
        ));
        assert(files_events(w, files) =~= files.map_values(found));
    } else {
        assert(files_events(w, files) =~= files.map_values(
            |f: Listed| WatchEvent::Discovered(f.path),
        ));
    }
}

/// What is remembered of a file that was listed.
proof fn lemma_listed_is_known(w: Watched, files: Seq<Listed>, i: int)
    requires
        table::ordered(w.known),
        table::ordered(w.pruned),
        listed_once(w.os, files),
        0 <= i < files.len(),
    ensures
        table::lookup(with_files(w, files).known, fskey::key_of(w.os, files[i].path@)) == Some(
            present(files[i]),
        ),
    decreases files.len(),
{
    let init = files.drop_last();
    let last = files.len() - 1;
    let mid = with_files(w, init);
    let key = fskey::key_of(w.os, files[i].path@);
    lemma_with_files_os(w, init);
    lemma_with_files(w, init, key);
    table::put_then_lookup(
        mid.known,
        fskey::key_of(w.os, files[last].path@),
        present(files[last]),
        key,
    );
    if i < last {
        lemma_listed_once_prefix(w.os, files);
        lemma_listed_is_known(w, init, i);
        assert(init[i] == files[i]);
        assert(key != fskey::key_of(w.os, files[last].path@));
    }
}

proof fn lemma_listed_once_prefix(os: Os, files: Seq<Listed>)
    requires
        listed_once(os, files),
        files.len() > 0,
    ensures
        listed_once(os, files.drop_last()),
{
    let init = files.drop_last();
    assert forall|i: int, j: int| 0 <= i < j < init.len() implies fskey::key_of(
        os,
        #[trigger] init[i].path@,
    ) != fskey::key_of(os, #[trigger] init[j].path@) by {
        assert(files[i].path@ == init[i].path@ && files[j].path@ == init[j].path@);
    }
}

/// Files that are remembered as they are listed are not reported, and nothing is remembered anew.
proof fn lemma_nothing_new(w: Watched, files: Seq<Listed>)
    requires
        table::ordered(w.known),
        forall|i: int|
            0 <= i < files.len() ==> table::lookup(
                w.known,
                fskey::key_of(w.os, (#[trigger] files[i]).path@),
            ) == Some(present(files[i])),
    ensures
        files_events(w, files) == Seq::<WatchEvent>::empty(),
        with_files(w, files) == w,
    decreases files.len(),
{
    if files.len() > 0 {
        let init = files.drop_last();
        assert forall|i: int| 0 <= i < init.len() implies table::lookup(
            w.known,
            fskey::key_of(w.os, (#[trigger] init[i]).path@),
        ) == Some(present(init[i])) by {
            assert(init[i] == files[i]);
        }
        lemma_nothing_new(w, init);
        let f = files[files.len() - 1];
        table::lemma_put_same(w.known, fskey::key_of(w.os, f.path@), present(f));
        assert(files_events(w, files) =~= Seq::<WatchEvent>::empty());
    } else {
        assert(files_events(w, files) =~= Seq::<WatchEvent>::empty());
    }
}

/// A sweep that finds what the last one found reports nothing at all.
pub proof fn a_second_look_reports_nothing(w: Watched, s: Survey)
    requires
        sound(w),
        listed_once(w.os, s.files@),
    ensures
        sweep_events(after_sweep(w, Ok(s)), Ok(s)) == Seq::<WatchEvent>::empty(),
{
    let found: Result<Survey, String> = Ok(s);
    let files = s.files@;
    let r = after_root(w, found);
    let seen = with_files(r, files);
    let a = after_sweep(w, found);
    lemma_with_files_os(r, files);
    lemma_with_files(r, files, seq![]);
    lemma_known_after(w.os, seen.known, files, false, seq![]);
    assert forall|i: int| 0 <= i < files.len() implies table::lookup(
        a.known,
        fskey::key_of(a.os, (#[trigger] files[i]).path@),
    ) == Some(present(files[i])) by {
        let key = fskey::key_of(w.os, files[i].path@);
        lemma_listed_is_known(r, files, i);
        lemma_known_after(w.os, seen.known, files, false, key);
        assert(was_listed(w.os, files, key));
    }
    lemma_nothing_new(a, files);
    missing_is_reported_once(w.os, seen.known, files, false);
    assert(after_root(a, found) == a);
    assert(sweep_events(a, found) =~= Seq::<WatchEvent>::empty());
}

/// Whether a listed file was written since it was last seen, or is new: its stamp is another than
/// the one remembered, or nothing is remembered of it and it is not there from the start.
pub open spec fn is_written(w: Watched, f: Listed) -> bool {
    let key = fskey::key_of(w.os, f.path@);
    match table::lookup(w.known, key) {
        Some(k) => k.stamp != Some(f.stamp),
        None => match table::lookup(w.pruned, key) {
            Some(before) => before != Some(f.stamp),
            None => w.started,
        },
    }
}

/// Whether nothing is remembered of a listed file, or nobody has heard of it.
pub open spec fn is_new(w: Watched, f: Listed) -> bool {
    let key = fskey::key_of(w.os, f.path@);
    match table::lookup(w.known, key) {
        Some(k) => !k.told,
        None => table::lookup(w.pruned, key) is None,
    }
}

/// Whether a listed file was gone, as far as anybody has heard.
pub open spec fn is_back(w: Watched, f: Listed) -> bool {
    let key = fskey::key_of(w.os, f.path@);
    match table::lookup(w.known, key) {
        Some(k) => k.told && !k.exists,
        None => table::lookup(w.pruned, key) is Some,
    }
}

/// What a listed file is reported as tells whether it is new and whether it was written.
proof fn lemma_file_events(w: Watched, f: Listed, p: String)
    ensures
        file_events(w, f).contains(WatchEvent::Activity(p)) <==> p == f.path && is_written(w, f),
        file_events(w, f).contains(WatchEvent::Discovered(p)) <==> p == f.path && is_new(w, f),
        file_events(w, f).contains(WatchEvent::Reappeared(p)) <==> p == f.path && is_back(w, f),
        forall|a: int, b: int|
            0 <= a < b < file_events(w, f).len() ==> #[trigger] file_events(w, f)[a]
                != #[trigger] file_events(w, f)[b],
        forall|a: int|
            0 <= a < file_events(w, f).len() ==> subject(#[trigger] file_events(w, f)[a]) == Some(
                f.path,
            ) && !(file_events(w, f)[a] is Missing),
{
    let evs = file_events(w, f);
    assert(evs.len() > 0 ==> evs.contains(evs[0]));
    assert(evs.len() > 1 ==> evs.contains(evs[1]));
    assert(evs.len() <= 2);
    assert forall|e: WatchEvent| evs.contains(e) implies (evs.len() > 0 && e == evs[0]) || (
    evs.len() > 1 && e == evs[1]) by {
        let k = choose|k: int| 0 <= k < evs.len() && evs[k] == e;
        assert(k == 0 || k == 1);
    }
}

proof fn lemma_files_events(w: Watched, files: Seq<Listed>, p: String)
    requires
        table::ordered(w.known),
        table::ordered(w.pruned),
        listed_once(w.os, files),
    ensures
        files_events(w, files).contains(WatchEvent::Activity(p)) <==> exists|i: int|
            0 <= i < files.len() && (#[trigger] files[i]).path == p && is_written(w, files[i]),
        files_events(w, files).contains(WatchEvent::Discovered(p)) <==> exists|i: int|
            0 <= i < files.len() && (#[trigger] files[i]).path == p && is_new(w, files[i]),
        files_events(w, files).contains(WatchEvent::Reappeared(p)) <==> exists|i: int|
            0 <= i < files.len() && (#[trigger] files[i]).path == p && is_back(w, files[i]),
    decreases files.len(),
{
    if files.len() > 0 {
        let init = files.drop_last();
        let last = files.len() - 1;
        let f = files[last];
        let mid = with_files(w, init);
        let key = fskey::key_of(w.os, f.path@);
        lemma_listed_once_prefix(w.os, files);
        lemma_files_events(w, init, p);
        lemma_with_files_os(w, init);
        assert(!was_listed(w.os, init, key)) by {
            if was_listed(w.os, init, key) {
                let j = choose|j: int|
                    0 <= j < init.len() && fskey::key_of(w.os, #[trigger] init[j].path@) == key;
                assert(files[j].path@ == init[j].path@);
            }
        }
        lemma_with_files(w, init, key);
        lemma_file_events(mid, f, p);
        assert(is_written(mid, f) == is_written(w, f));
        assert(is_new(mid, f) == is_new(w, f));
        assert(is_back(mid, f) == is_back(w, f));
        let a = files_events(w, init);
        let b = file_events(mid, f);
        lemma_contains_either(a, b, WatchEvent::Activity(p));
        lemma_contains_either(a, b, WatchEvent::Discovered(p));
        lemma_contains_either(a, b, WatchEvent::Reappeared(p));
        assert forall|i: int| 0 <= i < init.len() implies #[trigger] files[i] == init[i] by {}
        assert forall|i: int| 0 <= i < init.len() implies #[trigger] init[i] == files[i] by {}
    }
}

proof fn lemma_contains_either(a: Seq<WatchEvent>, b: Seq<WatchEvent>, e: WatchEvent)
    ensures
        (a + b).contains(e) <==> a.contains(e) || b.contains(e),
{
    let c = a + b;
    if a.contains(e) {
        let k = choose|k: int| 0 <= k < a.len() && a[k] == e;
        assert(c[k] == e);
    }
    if b.contains(e) {
        let k = choose|k: int| 0 <= k < b.len() && b[k] == e;
        assert(c[a.len() + k] == e);
    }
    if c.contains(e) {
        let k = choose|k: int| 0 <= k < c.len() && c[k] == e;
        if k < a.len() {
            assert(a[k] == e);
        } else {
            assert(b[k - a.len()] == e);
        }
    }
}

/// Whether a file that is remembered under an identity and path, that was there, and that somebody
/// has heard of, was not listed.
pub open spec fn is_gone(w: Watched, files: Seq<Listed>, key: Seq<char>, p: String) -> bool {
    &&& !was_listed(w.os, files, key)
    &&& table::lookup(w.known, key) matches Some(k) && k.exists && k.told && k.path == p
}

/// What a sweep reports of the directory itself.
proof fn lemma_reported_root(w: Watched, found: Result<Survey, String>, e: WatchEvent)
    requires
        sound(w),
        listed_once(w.os, files_found(found)),
        e is Error || e is Recovered,
    ensures
        sweep_events(w, found).contains(e) <==> match e {
            WatchEvent::Error(r) => found == Result::<Survey, String>::Err(r) && !w.root_down,
            _ => found is Ok && w.root_down,
        },
{
    let files = files_found(found);
    let r = after_root(w, found);
    let first = root_events(w, found);
    let listed = files_events(r, files);
    let missing = missing_events(w.os, with_files(r, files).known, files);
    lemma_contains_either(first, listed, e);
    lemma_contains_either(first + listed, missing, e);
    lemma_files_subjects(r, files);
    if listed.contains(e) {
        let k = choose|k: int| 0 <= k < listed.len() && listed[k] == e;
        assert(subject(listed[k]) is Some);
    }
    if missing.contains(e) {
        let k = choose|k: int| 0 <= k < missing.len() && missing[k] == e;
        only_known_files_go_missing(w.os, with_files(r, files).known, files, k);
    }
    if first.len() > 0 {
        assert(first.contains(first[0]));
    }
    if first.contains(e) {
        let k = choose|k: int| 0 <= k < first.len() && first[k] == e;
        assert(k == 0);
    }
}

/// What is reported of listed files is about files that are there.
proof fn lemma_files_subjects(w: Watched, files: Seq<Listed>)
    ensures
        forall|a: int|
            0 <= a < files_events(w, files).len() ==> subject(#[trigger] files_events(w, files)[a])
                is Some && !(files_events(w, files)[a] is Missing),
    decreases files.len(),
{
    if files.len() > 0 {
        let init = files.drop_last();
        lemma_files_subjects(w, init);
        let before = files_events(w, init);
        let own = file_events(with_files(w, init), files.last());
        lemma_file_events(with_files(w, init), files.last(), files.last().path);
        assert forall|a: int| 0 <= a < files_events(w, files).len() implies subject(
            #[trigger] files_events(w, files)[a],
        ) is Some && !(files_events(w, files)[a] is Missing) by {
            if a < before.len() {
                assert(files_events(w, files)[a] == before[a]);
            } else {
                assert(files_events(w, files)[a] == own[a - before.len()]);
            }
        }
    }
}

/// What a sweep reports of files.
proof fn lemma_reported(w: Watched, found: Result<Survey, String>, p: String)
    requires
        sound(w),
        listed_once(w.os, files_found(found)),
    ensures
        sweep_events(w, found).contains(WatchEvent::Activity(p)) <==> exists|i: int|
            0 <= i < files_found(found).len() && (#[trigger] files_found(found)[i]).path == p
                && is_written(w, files_found(found)[i]),
        sweep_events(w, found).contains(WatchEvent::Discovered(p)) <==> exists|i: int|
            0 <= i < files_found(found).len() && (#[trigger] files_found(found)[i]).path == p
                && is_new(w, files_found(found)[i]),
        sweep_events(w, found).contains(WatchEvent::Reappeared(p)) <==> exists|i: int|
            0 <= i < files_found(found).len() && (#[trigger] files_found(found)[i]).path == p
                && is_back(w, files_found(found)[i]),
        sweep_events(w, found).contains(WatchEvent::Missing(p)) <==> exists|key: Seq<char>|
            is_gone(w, files_found(found), key, p),
{
    let files = files_found(found);
    let r = after_root(w, found);
    let first = root_events(w, found);
    let listed = files_events(r, files);
    let rows = with_files(r, files).known;
    let missing = missing_events(w.os, rows, files);
    lemma_files_events(r, files, p);
    lemma_files_subjects(r, files);
    lemma_with_files_sound(r, files);
    assert forall|i: int| 0 <= i < files.len() implies is_written(r, #[trigger] files[i])
        == is_written(w, files[i]) && is_new(r, files[i]) == is_new(w, files[i]) && is_back(
        r,
        files[i],
    ) == is_back(w, files[i]) by {}
    assert forall|e: WatchEvent| missing.contains(e) implies e is Missing by {
        let k = choose|k: int| 0 <= k < missing.len() && missing[k] == e;
        only_known_files_go_missing(w.os, rows, files, k);
    }
    assert forall|e: WatchEvent| first.contains(e) implies subject(e) is None by {
        let k = choose|k: int| 0 <= k < first.len() && first[k] == e;
        assert(k == 0);
    }
    let e1 = WatchEvent::Activity(p);
    let e2 = WatchEvent::Discovered(p);
    let e3 = WatchEvent::Reappeared(p);
    let e4 = WatchEvent::Missing(p);
    lemma_contains_either(first, listed, e1);
    lemma_contains_either(first + listed, missing, e1);
    lemma_contains_either(first, listed, e2);
    lemma_contains_either(first + listed, missing, e2);
    lemma_contains_either(first, listed, e3);
    lemma_contains_either(first + listed, missing, e3);
    lemma_contains_either(first, listed, e4);
    lemma_contains_either(first + listed, missing, e4);
    if missing.contains(e4) {
        let k = choose|k: int| 0 <= k < missing.len() && missing[k] == e4;
        only_known_files_go_missing(w.os, rows, files, k);
        let j = choose|j: int|
            0 <= j < rows.len() && (#[trigger] rows[j]).1.exists && rows[j].1.told && !was_listed(
                w.os,
                files,
                rows[j].0,
            ) && missing[k] == WatchEvent::Missing(rows[j].1.path);
        table::lemma_lookup_at(rows, j);
        lemma_with_files(r, files, rows[j].0);
        assert(is_gone(w, files, rows[j].0, p));
    }
    if exists|key: Seq<char>| is_gone(w, files, key, p) {
        let key = choose|key: Seq<char>| is_gone(w, files, key, p);
        lemma_with_files(r, files, key);
        table::lemma_lookup_none(rows, key);
        let j = choose|j: int| 0 <= j < rows.len() && (#[trigger] rows[j]).0 == key;
        table::lemma_lookup_at(rows, j);
        lemma_missing_holds(w.os, rows, files, j);
    }
}

/// A sweep reports exactly the files that were written as written, exactly the files that are new
/// as discovered, and exactly the files that were gone as back.
pub proof fn every_write_is_reported(w: Watched, s: Survey, p: String)
    requires
        sound(w),
        listed_once(w.os, s.files@),
    ensures
        sweep_events(w, Ok(s)).contains(WatchEvent::Activity(p)) <==> exists|i: int|
            0 <= i < s.files@.len() && (#[trigger] s.files@[i]).path == p && is_written(
                w,
                s.files@[i],
            ),
        sweep_events(w, Ok(s)).contains(WatchEvent::Discovered(p)) <==> exists|i: int|
            0 <= i < s.files@.len() && (#[trigger] s.files@[i]).path == p && is_new(
                w,
                s.files@[i],
            ),
        sweep_events(w, Ok(s)).contains(WatchEvent::Reappeared(p)) <==> exists|i: int|
            0 <= i < s.files@.len() && (#[trigger] s.files@[i]).path == p && is_back(
                w,
                s.files@[i],
            ),
{
    lemma_reported(w, Ok(s), p);
}

proof fn lemma_missing_holds(os: Os, rows: Seq<(Seq<char>, KnownFile)>, files: Seq<Listed>, j: int)
    requires
        0 <= j < rows.len(),
        rows[j].1.exists,
        rows[j].1.told,
        !was_listed(os, files, rows[j].0),
    ensures
        missing_events(os, rows, files).contains(WatchEvent::Missing(rows[j].1.path)),
    decreases rows.len(),
{
    let init = rows.drop_last();
    let before = missing_events(os, init, files);
    let all = missing_events(os, rows, files);
    let e = WatchEvent::Missing(rows[j].1.path);
    if j < init.len() {
        lemma_missing_holds(os, init, files, j);
        let k = choose|k: int| 0 <= k < before.len() && before[k] == e;
        assert(all[k] == e);
    } else {
        assert(all[all.len() - 1] == e);
    }
}

/// A file that was there at the last sweep and was not found by this one is reported missing, be it
/// that the file is gone or that the directory cannot be read.
pub proof fn every_disappearance_is_reported(
    w: Watched,
    found: Result<Survey, String>,
    key: Seq<char>,
)
    requires
        sound(w),
        table::lookup(w.known, key) matches Some(k) && k.exists && k.told,
        !was_listed(w.os, files_found(found), key),
    ensures
        sweep_events(w, found).contains(
            WatchEvent::Missing(table::lookup(w.known, key)->0.path),
        ),
{
    let files = files_found(found);
    let r = after_root(w, found);
    let rows = with_files(r, files).known;
    let missing = missing_events(w.os, rows, files);
    let e = WatchEvent::Missing(table::lookup(w.known, key)->0.path);
    lemma_with_files(r, files, key);
    table::lemma_lookup_none(rows, key);
    let j = choose|j: int| 0 <= j < rows.len() && (#[trigger] rows[j]).0 == key;
    table::lemma_lookup_at(rows, j);
    lemma_missing_holds(w.os, rows, files, j);
    lemma_contains_either(root_events(w, found) + files_events(r, files), missing, e);
}

// ---------------------------------------------------------------------------------------------
// Findings that could not be handed on
// ---------------------------------------------------------------------------------------------

/// Some finding is one of those that `f` picks.
spec fn some_of(evs: Seq<WatchEvent>, f: spec_fn(WatchEvent) -> bool) -> bool {
    exists|i: int| 0 <= i < evs.len() && f(#[trigger] evs[i])
}

/// A finding about a file.
spec fn about(os: Os, e: WatchEvent, key: Seq<char>) -> bool {
    subject(e) matches Some(p) && fskey::key_of(os, p@) == key
}

spec fn discoveries(os: Os, key: Seq<char>) -> spec_fn(WatchEvent) -> bool {
    |e: WatchEvent| e is Discovered && about(os, e, key)
}

spec fn writes(os: Os, key: Seq<char>) -> spec_fn(WatchEvent) -> bool {
    |e: WatchEvent| e is Activity && about(os, e, key)
}

spec fn losses(os: Os, key: Seq<char>) -> spec_fn(WatchEvent) -> bool {
    |e: WatchEvent| e is Missing && about(os, e, key)
}

spec fn returns_of(os: Os, key: Seq<char>) -> spec_fn(WatchEvent) -> bool {
    |e: WatchEvent| e is Reappeared && about(os, e, key)
}

proof fn lemma_some_of(evs: Seq<WatchEvent>, f: spec_fn(WatchEvent) -> bool)
    requires
        evs.len() > 0,
    ensures
        some_of(evs, f) == (some_of(evs.drop_last(), f) || f(evs.last())),
{
    let init = evs.drop_last();
    if some_of(init, f) {
        let i = choose|i: int| 0 <= i < init.len() && f(#[trigger] init[i]);
        assert(f(evs[i]));
    }
    if f(evs.last()) {
        assert(f(evs[evs.len() - 1]));
    }
    if some_of(evs, f) {
        let i = choose|i: int| 0 <= i < evs.len() && f(#[trigger] evs[i]);
        if i < init.len() {
            assert(f(init[i]));
        }
    }
}

proof fn lemma_without_all_sound(w: Watched, evs: Seq<WatchEvent>)
    requires
        sound(w),
    ensures
        sound(without_all(w, evs)),
        without_all(w, evs).os == w.os,
        without_all(w, evs).started == w.started,
        without_all(w, evs).pruned == w.pruned,
    decreases evs.len(),
{
    if evs.len() > 0 {
        lemma_without_all_sound(w, evs.drop_last());
        lemma_without_sound(without_all(w, evs.drop_last()), evs.last());
    }
}

/// What is remembered of one file once findings were taken back.
proof fn lemma_without_all(w: Watched, evs: Seq<WatchEvent>, key: Seq<char>)
    requires
        sound(w),
    ensures
        match (table::lookup(w.known, key), table::lookup(without_all(w, evs).known, key)) {
            (Some(a), Some(b)) => {
                let left = some_of(evs, losses(w.os, key));
                let back = some_of(evs, returns_of(w.os, key));
                &&& b.path == a.path
                &&& b.told == (a.told && !some_of(evs, discoveries(w.os, key)))
                &&& b.stamp == (if some_of(evs, writes(w.os, key)) {
                    None
                } else {
                    a.stamp
                })
                &&& !left && !back ==> b.exists == a.exists
                &&& left && !back ==> b.exists
                &&& !left && back ==> !b.exists
            },
            (None, None) => true,
            _ => false,
        },
    decreases evs.len(),
{
    if evs.len() > 0 {
        let init = evs.drop_last();
        let e = evs.last();
        lemma_without_all(w, init, key);
        lemma_without_all_sound(w, init);
        lemma_some_of(evs, discoveries(w.os, key));
        lemma_some_of(evs, writes(w.os, key));
        lemma_some_of(evs, losses(w.os, key));
        lemma_some_of(evs, returns_of(w.os, key));
        let mid = without_all(w, init);
        if let Some(p) = subject(e) {
            let other = fskey::key_of(w.os, p@);
            if let Some(k) = table::lookup(mid.known, other) {
                table::put_then_lookup(mid.known, other, unheard(k, e), key);
            }
        }
    }
}

/// What is remembered of the directory once findings were taken back.
proof fn lemma_without_all_root(w: Watched, evs: Seq<WatchEvent>)
    ensures
        ({
            let down = some_of(evs, |e: WatchEvent| e is Error);
            let up = some_of(evs, |e: WatchEvent| e is Recovered);
            &&& !down && !up ==> without_all(w, evs).root_down == w.root_down
            &&& down && !up ==> !without_all(w, evs).root_down
            &&& !down && up ==> without_all(w, evs).root_down
        }),
    decreases evs.len(),
{
    if evs.len() > 0 {
        lemma_without_all_root(w, evs.drop_last());
        lemma_some_of(evs, |e: WatchEvent| e is Error);
        lemma_some_of(evs, |e: WatchEvent| e is Recovered);
    }
}

/// What is remembered after a sweep of a file that it listed.
proof fn lemma_after_listed(w: Watched, found: Result<Survey, String>, i: int)
    requires
        sound(w),
        listed_once(w.os, files_found(found)),
        0 <= i < files_found(found).len(),
    ensures
        table::lookup(
            after_sweep(w, found).known,
            fskey::key_of(w.os, files_found(found)[i].path@),
        ) == Some(present(files_found(found)[i])),
{
    let files = files_found(found);
    let r = after_root(w, found);
    let seen = with_files(r, files);
    let key = fskey::key_of(w.os, files[i].path@);
    lemma_with_files_os(r, files);
    lemma_with_files_sound(r, files);
    lemma_listed_is_known(r, files, i);
    lemma_known_after(w.os, seen.known, files, seen.root_down, key);
    assert(was_listed(w.os, files, key));
}

/// What is remembered after a sweep of a file that it did not list.
proof fn lemma_after_unlisted(w: Watched, found: Result<Survey, String>, key: Seq<char>)
    requires
        sound(w),
        !was_listed(w.os, files_found(found), key),
    ensures
        table::lookup(after_sweep(w, found).known, key) == (match table::lookup(w.known, key) {
            None => None,
            Some(k) => if gone_for_long(k, found is Err) {
                None
            } else {
                Some(absent(k))
            },
        }),
        table::lookup(after_sweep(w, found).pruned, key) is Some ==> (table::lookup(
            after_sweep(w, found).pruned,
            key,
        ) == table::lookup(w.pruned, key) || (table::lookup(w.known, key) matches Some(k)
            && k.told && gone_for_long(k, found is Err) && table::lookup(
            after_sweep(w, found).pruned,
            key,
        ) == Some(k.stamp))),
{
    let files = files_found(found);
    let r = after_root(w, found);
    let seen = with_files(r, files);
    lemma_with_files_os(r, files);
    lemma_with_files_sound(r, files);
    lemma_with_files(r, files, key);
    lemma_known_after(w.os, seen.known, files, seen.root_down, key);
    lemma_pruned_after(w.os, seen.known, files, seen.root_down, seen.pruned, key);
}

/// A sweep that finds again what the last one found reports exactly the findings of that one which
/// could not be handed on. So nothing is lost where nobody takes findings for a while. The last
/// sweep may have been the first one.
pub proof fn what_was_not_handed_on_comes_again(
    w: Watched,
    found: Result<Survey, String>,
    started: bool,
    undelivered: Seq<WatchEvent>,
    e: WatchEvent,
)
    requires
        sound(w),
        listed_once(w.os, files_found(found)),
        forall|i: int|
            0 <= i < undelivered.len() ==> sweep_events(w, found).contains(
                #[trigger] undelivered[i],
            ),
    ensures
        sweep_events(
            without_all(Watched { started, ..after_sweep(w, found) }, undelivered),
            found,
        ).contains(e) <==> undelivered.contains(e),
{
    let files = files_found(found);
    let w1 = Watched { started, ..after_sweep(w, found) };
    let w2 = without_all(w1, undelivered);
    lemma_sweep_sound(w, found);
    lemma_with_files_os(after_root(w, found), files);
    assert(sound(w1));
    lemma_without_all_sound(w1, undelivered);
    if undelivered.contains(e) {
        let j = choose|j: int| 0 <= j < undelivered.len() && undelivered[j] == e;
        assert(sweep_events(w, found).contains(undelivered[j]));
    }
    match e {
        WatchEvent::Error(_) => {
            lemma_root_comes_again(w, found, undelivered, w1, e);
        },
        WatchEvent::Recovered => {
            lemma_root_comes_again(w, found, undelivered, w1, e);
        },
        WatchEvent::Missing(p) => {
            lemma_loss_comes_again(w, found, undelivered, w1, p);
        },
        WatchEvent::Discovered(p) => {
            lemma_file_comes_again(w, found, undelivered, w1, e, p);
        },
        WatchEvent::Activity(p) => {
            lemma_file_comes_again(w, found, undelivered, w1, e, p);
        },
        WatchEvent::Reappeared(p) => {
            lemma_file_comes_again(w, found, undelivered, w1, e, p);
        },
    }
}

proof fn lemma_root_comes_again(
    w: Watched,
    found: Result<Survey, String>,
    undelivered: Seq<WatchEvent>,
    w1: Watched,
    e: WatchEvent,
)
    requires
        sound(w),
        sound(w1),
        w1.root_down == (found is Err),
        w1.os == w.os,
        e is Error || e is Recovered,
        listed_once(w.os, files_found(found)),
        forall|i: int|
            0 <= i < undelivered.len() ==> sweep_events(w, found).contains(
                #[trigger] undelivered[i],
            ),
    ensures
        sweep_events(without_all(w1, undelivered), found).contains(e) <==> undelivered.contains(e),
{
    let w2 = without_all(w1, undelivered);
    let fails = |x: WatchEvent| x is Error;
    let ends = |x: WatchEvent| x is Recovered;
    lemma_without_all_root(w1, undelivered);
    lemma_without_all_sound(w1, undelivered);
    lemma_reported_root(w2, found, e);
    assert forall|i: int| 0 <= i < undelivered.len() implies ((#[trigger] undelivered[i] is Error
        ==> found == Result::<Survey, String>::Err(undelivered[i]->Error_0)) && (undelivered[i]
        is Recovered ==> found is Ok)) by {
        if undelivered[i] is Error || undelivered[i] is Recovered {
            lemma_reported_root(w, found, undelivered[i]);
        }
    }
    if undelivered.contains(e) {
        let j = choose|j: int| 0 <= j < undelivered.len() && undelivered[j] == e;
        assert(e is Error ==> fails(undelivered[j]));
        assert(e is Recovered ==> ends(undelivered[j]));
    }
    if some_of(undelivered, fails) {
        let j = choose|j: int| 0 <= j < undelivered.len() && fails(#[trigger] undelivered[j]);
        assert(found is Err);
        if e is Error && found == Result::<Survey, String>::Err(e->Error_0) {
            assert(undelivered[j] == e);
        }
    }
    if some_of(undelivered, ends) {
        let j = choose|j: int| 0 <= j < undelivered.len() && ends(#[trigger] undelivered[j]);
        assert(found is Ok);
        if e is Recovered {
            assert(undelivered[j] == e);
        }
    }
}

proof fn lemma_loss_comes_again(
    w: Watched,
    found: Result<Survey, String>,
    undelivered: Seq<WatchEvent>,
    w1: Watched,
    p: String,
)
    requires
        sound(w),
        sound(w1),
        w1.known == after_sweep(w, found).known,
        w1.os == w.os,
        listed_once(w.os, files_found(found)),
        forall|i: int|
            0 <= i < undelivered.len() ==> sweep_events(w, found).contains(
                #[trigger] undelivered[i],
            ),
    ensures
        sweep_events(without_all(w1, undelivered), found).contains(WatchEvent::Missing(p))
            <==> undelivered.contains(WatchEvent::Missing(p)),
{
    let files = files_found(found);
    let w2 = without_all(w1, undelivered);
    let key = fskey::key_of(w.os, p@);
    lemma_without_all_sound(w1, undelivered);
    lemma_without_all(w1, undelivered, key);
    lemma_reported(w, found, p);
    lemma_reported(w2, found, p);
    // Of a file that was not listed, nothing but its loss was found.
    assert forall|i: int|
        0 <= i < undelivered.len() && about(w.os, #[trigger] undelivered[i], key) && !(
        undelivered[i] is Missing) implies was_listed(w.os, files, key) by {
        lemma_about_is_listed(w, found, undelivered[i], key);
    }
    assert forall|i: int|
        0 <= i < undelivered.len() && about(w.os, #[trigger] undelivered[i], key)
            && undelivered[i] is Missing implies is_gone(
        w,
        files,
        key,
        undelivered[i]->Missing_0,
    ) by {
        let q = undelivered[i]->Missing_0;
        lemma_reported(w, found, q);
        let k2 = choose|k2: Seq<char>| is_gone(w, files, k2, q);
        assert(table::lookup(w.known, k2) is Some);
    }
    let missed = losses(w.os, key);
    if undelivered.contains(WatchEvent::Missing(p)) {
        let j = choose|j: int|
            0 <= j < undelivered.len() && undelivered[j] == WatchEvent::Missing(p);
        assert(missed(undelivered[j]));
        assert(is_gone(w, files, key, p));
        lemma_after_unlisted(w, found, key);
        assert(!some_of(undelivered, returns_of(w.os, key)));
        assert(!some_of(undelivered, discoveries(w.os, key)));
        assert(is_gone(w2, files, key, p));
    }
    if sweep_events(w2, found).contains(WatchEvent::Missing(p)) {
        let k2 = choose|k2: Seq<char>| is_gone(w2, files, k2, p);
        assert(table::lookup(w2.known, k2) is Some);
        assert(k2 == key);
        lemma_after_unlisted(w, found, key);
        assert(!some_of(undelivered, returns_of(w.os, key)));
        assert(some_of(undelivered, missed));
        let j = choose|j: int| 0 <= j < undelivered.len() && missed(#[trigger] undelivered[j]);
        assert(is_gone(w, files, key, undelivered[j]->Missing_0));
        assert(undelivered[j] == WatchEvent::Missing(p));
    }
}

/// A finding about a file, other than its loss, comes from a listed file; its loss does not.
proof fn lemma_about_is_listed(
    w: Watched,
    found: Result<Survey, String>,
    e: WatchEvent,
    key: Seq<char>,
)
    requires
        sound(w),
        listed_once(w.os, files_found(found)),
        sweep_events(w, found).contains(e),
        about(w.os, e, key),
    ensures
        !(e is Missing) ==> exists|i: int|
            0 <= i < files_found(found).len() && (#[trigger] files_found(found)[i]).path
                == subject(e)->0 && (e is Discovered ==> is_new(w, files_found(found)[i])) && (
            e is Reappeared ==> is_back(w, files_found(found)[i])),
        was_listed(w.os, files_found(found), key) == !(e is Missing),
{
    let files = files_found(found);
    let p = subject(e)->0;
    lemma_reported(w, found, p);
    if e is Missing {
        let k2 = choose|k2: Seq<char>| is_gone(w, files, k2, p);
        assert(table::lookup(w.known, k2) is Some);
        assert(k2 == key);
    } else {
        let i = choose|i: int|
            0 <= i < files.len() && (#[trigger] files[i]).path == p && (e is Discovered ==> is_new(
                w,
                files[i],
            )) && (e is Reappeared ==> is_back(w, files[i]));
        assert(fskey::key_of(w.os, files[i].path@) == key);
    }
}

proof fn lemma_file_comes_again(
    w: Watched,
    found: Result<Survey, String>,
    undelivered: Seq<WatchEvent>,
    w1: Watched,
    e: WatchEvent,
    p: String,
)
    requires
        sound(w),
        sound(w1),
        w1.known == after_sweep(w, found).known,
        w1.os == w.os,
        subject(e) == Some(p),
        !(e is Missing),
        listed_once(w.os, files_found(found)),
        forall|i: int|
            0 <= i < undelivered.len() ==> sweep_events(w, found).contains(
                #[trigger] undelivered[i],
            ),
    ensures
        sweep_events(without_all(w1, undelivered), found).contains(e) <==> undelivered.contains(e),
{
    let files = files_found(found);
    let w2 = without_all(w1, undelivered);
    let key = fskey::key_of(w.os, p@);
    lemma_without_all_sound(w1, undelivered);
    lemma_without_all(w1, undelivered, key);
    lemma_reported(w, found, p);
    lemma_reported(w2, found, p);
    if was_listed(w.os, files, key) {
        let i = choose|i: int|
            0 <= i < files.len() && fskey::key_of(w.os, #[trigger] files[i].path@) == key;
        lemma_after_listed(w, found, i);
        // What was found of this file was found under this very path.
        assert forall|j: int|
            0 <= j < undelivered.len() && about(
                w.os,
                #[trigger] undelivered[j],
                key,
            ) implies subject(undelivered[j]) == Some(files[i].path) && !(undelivered[j]
            is Missing) && (undelivered[j] is Discovered ==> is_new(w, files[i])) && (undelivered[j]
            is Reappeared ==> is_back(w, files[i])) by {
            lemma_about_is_listed(w, found, undelivered[j], key);
            let q = subject(undelivered[j])->0;
            let m = choose|m: int|
                0 <= m < files.len() && (#[trigger] files[m]).path == q && (undelivered[j]
                    is Discovered ==> is_new(w, files[m])) && (undelivered[j] is Reappeared
                    ==> is_back(w, files[m]));
            assert(fskey::key_of(w.os, files[m].path@) == key);
            if m < i {
                assert(fskey::key_of(w.os, files[m].path@) != fskey::key_of(w.os, files[i].path@));
            } else if i < m {
                assert(fskey::key_of(w.os, files[i].path@) != fskey::key_of(w.os, files[m].path@));
            }
        }
        assert(!some_of(undelivered, losses(w.os, key)));
        // No other listed file is this one.
        assert forall|m: int| 0 <= m < files.len() && (#[trigger] files[m]).path == p implies m
            == i by {
            if m < i {
                assert(fskey::key_of(w.os, files[m].path@) != fskey::key_of(w.os, files[i].path@));
            } else if i < m {
                assert(fskey::key_of(w.os, files[i].path@) != fskey::key_of(w.os, files[m].path@));
            }
        }
        let pick = match e {
            WatchEvent::Discovered(_) => discoveries(w.os, key),
            WatchEvent::Activity(_) => writes(w.os, key),
            _ => returns_of(w.os, key),
        };
        if undelivered.contains(e) {
            let j = choose|j: int| 0 <= j < undelivered.len() && undelivered[j] == e;
            assert(pick(undelivered[j]));
            assert(about(w.os, undelivered[j], key));
            assert(files[i].path == p);
            if e is Reappeared {
                if some_of(undelivered, discoveries(w.os, key)) {
                    let d = discoveries(w.os, key);
                    let m = choose|m: int|
                        0 <= m < undelivered.len() && d(#[trigger] undelivered[m]);
                    assert(about(w.os, undelivered[m], key));
                }
                assert(is_back(w2, files[i]));
            }
            if e is Discovered {
                assert(is_new(w2, files[i]));
            }
            if e is Activity {
                assert(is_written(w2, files[i]));
            }
        }
        if sweep_events(w2, found).contains(e) {
            assert(files[i].path == p);
            assert(some_of(undelivered, pick));
            let j = choose|j: int| 0 <= j < undelivered.len() && pick(#[trigger] undelivered[j]);
            assert(about(w.os, undelivered[j], key));
            assert(undelivered[j] == e);
        }
    } else {
        if undelivered.contains(e) {
            let j = choose|j: int| 0 <= j < undelivered.len() && undelivered[j] == e;
            lemma_about_is_listed(w, found, undelivered[j], key);
        }
        if sweep_events(w2, found).contains(e) {
            lemma_about_is_listed(w2, found, e, key);
        }
    }
}

/// The watch after sweeps: what each found, and what of its findings could not be handed on.
pub open spec fn after_rounds(
    w: Watched,
    rounds: Seq<(Result<Survey, String>, Seq<WatchEvent>)>,
) -> Watched
    decreases rounds.len(),
{
    if rounds.len() == 0 {
        w
    } else {
        let (found, undelivered) = rounds.last();
        without_all(after_sweep(after_rounds(w, rounds.drop_last()), found), undelivered)
    }
}

/// A file whose discovery could not be handed on is discovered at the next sweep that lists it,
/// whatever else that sweep and the sweeps before it list, and whatever else is handed on. Where a
/// sweep lists a file under several spellings, one of them is reported.
pub proof fn a_discovery_not_handed_on_comes_again(
    w: Watched,
    found: Result<Survey, String>,
    started: bool,
    undelivered: Seq<WatchEvent>,
    p: String,
    rounds: Seq<(Result<Survey, String>, Seq<WatchEvent>)>,
    s: Survey,
)
    requires
        sound(w),
        sweep_events(w, found).contains(WatchEvent::Discovered(p)),
        undelivered.contains(WatchEvent::Discovered(p)),
        forall|j: int|
            0 <= j < rounds.len() ==> !was_listed(
                w.os,
                files_found((#[trigger] rounds[j]).0),
                fskey::key_of(w.os, p@),
            ),
        was_listed(w.os, s.files@, fskey::key_of(w.os, p@)),
    ensures
        exists|i: int|
            0 <= i < s.files@.len() && fskey::key_of(w.os, (#[trigger] s.files@[i]).path@)
                == fskey::key_of(w.os, p@) && sweep_events(
                after_rounds(
                    without_all(Watched { started, ..after_sweep(w, found) }, undelivered),
                    rounds,
                ),
                Ok(s),
            ).contains(WatchEvent::Discovered(s.files@[i].path)),
{
    let key = fskey::key_of(w.os, p@);
    let w1 = Watched { started, ..after_sweep(w, found) };
    let w2 = without_all(w1, undelivered);
    let v = after_rounds(w2, rounds);
    lemma_reported_is_known(w, found, WatchEvent::Discovered(p));
    lemma_taken_back(w, found, started, undelivered, key);
    let j = choose|j: int|
        0 <= j < undelivered.len() && undelivered[j] == WatchEvent::Discovered(p);
    assert(discoveries(w.os, key)(undelivered[j]));
    assert(never_told(w2, key));
    lemma_still_never_told(w2, rounds, key);
    let i = lemma_first_listed(v, s, key);
    assert(is_new(v, s.files@[i]));
    lemma_file_events(v, s.files@[i], s.files@[i].path);
    assert(file_events(v, s.files@[i]).contains(WatchEvent::Discovered(s.files@[i].path)));
}

/// A file whose write could not be handed on is reported as written at the next sweep that lists
/// it, whatever else that sweep and the sweeps before it list, and whatever else is handed on.
/// Where a sweep lists a file under several spellings, one of them is reported.
pub proof fn a_write_not_handed_on_comes_again(
    w: Watched,
    found: Result<Survey, String>,
    undelivered: Seq<WatchEvent>,
    p: String,
    rounds: Seq<(Result<Survey, String>, Seq<WatchEvent>)>,
    s: Survey,
)
    requires
        sound(w),
        w.started,
        sweep_events(w, found).contains(WatchEvent::Activity(p)),
        undelivered.contains(WatchEvent::Activity(p)),
        forall|j: int|
            0 <= j < rounds.len() ==> !was_listed(
                w.os,
                files_found((#[trigger] rounds[j]).0),
                fskey::key_of(w.os, p@),
            ),
        was_listed(w.os, s.files@, fskey::key_of(w.os, p@)),
    ensures
        exists|i: int|
            0 <= i < s.files@.len() && fskey::key_of(w.os, (#[trigger] s.files@[i]).path@)
                == fskey::key_of(w.os, p@) && sweep_events(
                after_rounds(without_all(after_sweep(w, found), undelivered), rounds),
                Ok(s),
            ).contains(WatchEvent::Activity(s.files@[i].path)),
{
    let key = fskey::key_of(w.os, p@);
    let w1 = after_sweep(w, found);
    let w2 = without_all(w1, undelivered);
    let v = after_rounds(w2, rounds);
    lemma_with_files_os(after_root(w, found), files_found(found));
    assert(w1 == Watched { started: true, ..w1 });
    lemma_reported_is_known(w, found, WatchEvent::Activity(p));
    lemma_taken_back(w, found, true, undelivered, key);
    let j = choose|j: int| 0 <= j < undelivered.len() && undelivered[j] == WatchEvent::Activity(p);
    assert(writes(w.os, key)(undelivered[j]));
    assert(write_untold(w2, key));
    lemma_still_untold(w2, rounds, key);
    let i = lemma_first_listed(v, s, key);
    assert(is_written(v, s.files@[i]));
    lemma_file_events(v, s.files@[i], s.files@[i].path);
    assert(file_events(v, s.files@[i]).contains(WatchEvent::Activity(s.files@[i].path)));
}

/// Nobody has heard of a file.
spec fn never_told(w: Watched, key: Seq<char>) -> bool {
    match table::lookup(w.known, key) {
        Some(k) => !k.told,
        None => table::lookup(w.pruned, key) is None,
    }
}

/// Whatever a file is listed with next, it counts as written.
spec fn write_untold(w: Watched, key: Seq<char>) -> bool {
    match table::lookup(w.known, key) {
        Some(k) => k.stamp is None,
        None => match table::lookup(w.pruned, key) {
            Some(before) => before is None,
            None => true,
        },
    }
}

/// A file that a sweep reports as discovered or written is known after it.
proof fn lemma_reported_is_known(w: Watched, found: Result<Survey, String>, e: WatchEvent)
    requires
        sound(w),
        e is Discovered || e is Activity,
        sweep_events(w, found).contains(e),
    ensures
        table::lookup(after_sweep(w, found).known, fskey::key_of(w.os, subject(e)->0@)) is Some,
{
    let files = files_found(found);
    let r = after_root(w, found);
    let first = root_events(w, found);
    let listed = files_events(r, files);
    let seen = with_files(r, files);
    let missing = missing_events(w.os, seen.known, files);
    let key = fskey::key_of(w.os, subject(e)->0@);
    lemma_contains_either(first, listed, e);
    lemma_contains_either(first + listed, missing, e);
    if missing.contains(e) {
        let k = choose|k: int| 0 <= k < missing.len() && missing[k] == e;
        only_known_files_go_missing(w.os, seen.known, files, k);
    }
    if first.contains(e) {
        let k = choose|k: int| 0 <= k < first.len() && first[k] == e;
        assert(k == 0);
    }
    lemma_subject_is_listed(r, files, e);
    lemma_listed_somehow(r, files, key);
    lemma_with_files_os(r, files);
    lemma_with_files_sound(r, files);
    lemma_known_after(w.os, seen.known, files, seen.root_down, key);
}

/// What is reported of listed files is about one of them.
proof fn lemma_subject_is_listed(w: Watched, files: Seq<Listed>, e: WatchEvent)
    requires
        files_events(w, files).contains(e),
    ensures
        subject(e) is Some,
        was_listed(w.os, files, fskey::key_of(w.os, subject(e)->0@)),
    decreases files.len(),
{
    if files.len() > 0 {
        let init = files.drop_last();
        let last = files.len() - 1;
        let own = file_events(with_files(w, init), files[last]);
        lemma_contains_either(files_events(w, init), own, e);
        if own.contains(e) {
            lemma_file_events(with_files(w, init), files[last], files[last].path);
            let a = choose|a: int| 0 <= a < own.len() && own[a] == e;
            assert(subject(own[a]) == Some(files[last].path));
        } else {
            lemma_subject_is_listed(w, init, e);
            let key = fskey::key_of(w.os, subject(e)->0@);
            let j = choose|j: int|
                0 <= j < init.len() && fskey::key_of(w.os, #[trigger] init[j].path@) == key;
            assert(fskey::key_of(w.os, files[j].path@) == key);
        }
    }
}

/// What is remembered of one file after a sweep whose findings were taken back in part.
proof fn lemma_taken_back(
    w: Watched,
    found: Result<Survey, String>,
    started: bool,
    undelivered: Seq<WatchEvent>,
    key: Seq<char>,
)
    requires
        sound(w),
        table::lookup(after_sweep(w, found).known, key) is Some,
    ensures
        ({
            let w2 = without_all(Watched { started, ..after_sweep(w, found) }, undelivered);
            &&& sound(w2)
            &&& w2.os == w.os
            &&& w2.started == started
            &&& table::lookup(w2.known, key) matches Some(k) && (some_of(
                undelivered,
                discoveries(w.os, key),
            ) ==> !k.told) && (some_of(undelivered, writes(w.os, key)) ==> k.stamp is None)
        }),
{
    let w1 = Watched { started, ..after_sweep(w, found) };
    lemma_sweep_sound(w, found);
    lemma_with_files_os(after_root(w, found), files_found(found));
    assert(sound(w1));
    lemma_without_all_sound(w1, undelivered);
    lemma_without_all(w1, undelivered, key);
}

/// Nobody hears of a file while it is not listed.
proof fn lemma_still_never_told(
    w: Watched,
    rounds: Seq<(Result<Survey, String>, Seq<WatchEvent>)>,
    key: Seq<char>,
)
    requires
        sound(w),
        never_told(w, key),
        forall|j: int|
            0 <= j < rounds.len() ==> !was_listed(
                w.os,
                files_found((#[trigger] rounds[j]).0),
                key,
            ),
    ensures
        sound(after_rounds(w, rounds)),
        after_rounds(w, rounds).os == w.os,
        never_told(after_rounds(w, rounds), key),
    decreases rounds.len(),
{
    if rounds.len() > 0 {
        let init = rounds.drop_last();
        assert forall|j: int| 0 <= j < init.len() implies !was_listed(
            w.os,
            files_found((#[trigger] init[j]).0),
            key,
        ) by {
            assert(init[j] == rounds[j]);
        }
        lemma_still_never_told(w, init, key);
        lemma_round(after_rounds(w, init), rounds[rounds.len() - 1], key);
    }
}

/// A write that nobody has heard of stays so while the file is not listed.
proof fn lemma_still_untold(
    w: Watched,
    rounds: Seq<(Result<Survey, String>, Seq<WatchEvent>)>,
    key: Seq<char>,
)
    requires
        sound(w),
        w.started,
        write_untold(w, key),
        forall|j: int|
            0 <= j < rounds.len() ==> !was_listed(
                w.os,
                files_found((#[trigger] rounds[j]).0),
                key,
            ),
    ensures
        sound(after_rounds(w, rounds)),
        after_rounds(w, rounds).os == w.os,
        after_rounds(w, rounds).started,
        write_untold(after_rounds(w, rounds), key),
    decreases rounds.len(),
{
    if rounds.len() > 0 {
        let init = rounds.drop_last();
        assert forall|j: int| 0 <= j < init.len() implies !was_listed(
            w.os,
            files_found((#[trigger] init[j]).0),
            key,
        ) by {
            assert(init[j] == rounds[j]);
        }
        lemma_still_untold(w, init, key);
        lemma_round(after_rounds(w, init), rounds[rounds.len() - 1], key);
    }
}

/// One more sweep that does not list a file.
proof fn lemma_round(
    w: Watched,
    round: (Result<Survey, String>, Seq<WatchEvent>),
    key: Seq<char>,
)
    requires
        sound(w),
        !was_listed(w.os, files_found(round.0), key),
    ensures
        ({
            let v = without_all(after_sweep(w, round.0), round.1);
            &&& sound(v)
            &&& v.os == w.os
            &&& v.started == w.started
            &&& never_told(w, key) ==> never_told(v, key)
            &&& write_untold(w, key) ==> write_untold(v, key)
        }),
{
    let a = after_sweep(w, round.0);
    lemma_sweep_sound(w, round.0);
    lemma_with_files_os(after_root(w, round.0), files_found(round.0));
    lemma_after_unlisted(w, round.0, key);
    lemma_without_all_sound(a, round.1);
    lemma_without_all(a, round.1, key);
    if table::lookup(w.known, key) is Some {
        assert(table::lookup(w.pruned, key) is None);
    }
}

/// Of the spellings under which a sweep lists a file, the first is reported by what was remembered
/// before the sweep.
proof fn lemma_first_listed(w: Watched, s: Survey, key: Seq<char>) -> (i: int)
    requires
        sound(w),
        was_listed(w.os, s.files@, key),
    ensures
        0 <= i < s.files@.len(),
        fskey::key_of(w.os, s.files@[i].path@) == key,
        forall|e: WatchEvent|
            #[trigger] file_events(w, s.files@[i]).contains(e) ==> sweep_events(
                w,
                Ok(s),
            ).contains(e),
{
    let found: Result<Survey, String> = Ok(s);
    let files = s.files@;
    let r = after_root(w, found);
    let i = lemma_first_of(r, files, key);
    assert(file_events(r, files[i]) == file_events(w, files[i]));
    assert forall|e: WatchEvent|
        #[trigger] file_events(w, files[i]).contains(e) implies sweep_events(
        w,
        found,
    ).contains(e) by {
        let first = root_events(w, found);
        let listed = files_events(r, files);
        lemma_contains_either(first, listed, e);
        lemma_contains_either(
            first + listed,
            missing_events(w.os, with_files(r, files).known, files),
            e,
        );
    }
    i
}

proof fn lemma_first_of(w: Watched, files: Seq<Listed>, key: Seq<char>) -> (i: int)
    requires
        table::ordered(w.known),
        table::ordered(w.pruned),
        was_listed(w.os, files, key),
    ensures
        0 <= i < files.len(),
        fskey::key_of(w.os, files[i].path@) == key,
        forall|e: WatchEvent|
            #[trigger] file_events(w, files[i]).contains(e) ==> files_events(
                w,
                files,
            ).contains(e),
    decreases files.len(),
{
    let init = files.drop_last();
    let last = files.len() - 1;
    let mid = with_files(w, init);
    let own = file_events(mid, files[last]);
    lemma_with_files_os(w, init);
    lemma_with_files(w, init, key);
    let j = choose|j: int|
        0 <= j < files.len() && fskey::key_of(w.os, #[trigger] files[j].path@) == key;
    if was_listed(w.os, init, key) {
        let i = lemma_first_of(w, init, key);
        assert(files[i] == init[i]);
        assert forall|e: WatchEvent|
            #[trigger] file_events(w, files[i]).contains(e) implies files_events(
            w,
            files,
        ).contains(e) by {
            lemma_contains_either(files_events(w, init), own, e);
        }
        i
    } else {
        if j < last {
            assert(fskey::key_of(w.os, init[j].path@) == key);
        }
        assert(own == file_events(w, files[last]));
        assert forall|e: WatchEvent|
            #[trigger] file_events(w, files[last]).contains(e) implies files_events(
            w,
            files,
        ).contains(e) by {
            lemma_contains_either(files_events(w, init), own, e);
        }
        last
    }
}

/// The watch after sweeps of whose findings none could be handed on.
pub open spec fn after_unheard(w: Watched, looks: Seq<Survey>) -> Watched
    decreases looks.len(),
{
    if looks.len() == 0 {
        w
    } else {
        let v = after_unheard(w, looks.drop_last());
        let s = looks.last();
        without_all(after_sweep(v, Ok(s)), sweep_events(v, Ok(s)))
    }
}

/// However long nobody takes findings, a new file that is still there is reported once somebody
/// does: as new, and as written unless it was there from the start.
pub proof fn a_new_file_is_heard_of_in_the_end(w: Watched, looks: Seq<Survey>, s: Survey, i: int)
    requires
        sound(w),
        0 <= i < s.files@.len(),
        is_new(w, s.files@[i]),
        table::lookup(w.known, fskey::key_of(w.os, s.files@[i].path@)) is None,
        listed_once(w.os, s.files@),
        forall|j: int|
            0 <= j < looks.len() ==> listed_once(w.os, (#[trigger] looks[j]).files@) && was_listed(
                w.os,
                looks[j].files@,
                fskey::key_of(w.os, s.files@[i].path@),
            ),
    ensures
        sweep_events(after_unheard(w, looks), Ok(s)).contains(
            WatchEvent::Discovered(s.files@[i].path),
        ),
        w.started ==> sweep_events(after_unheard(w, looks), Ok(s)).contains(
            WatchEvent::Activity(s.files@[i].path),
        ),
{
    lemma_unheard(w, looks, fskey::key_of(w.os, s.files@[i].path@));
    every_write_is_reported(after_unheard(w, looks), s, s.files@[i].path);
}

/// Nobody has heard of a file, nor of any write to it since the first sweep.
spec fn is_unheard(w: Watched, key: Seq<char>) -> bool {
    match table::lookup(w.known, key) {
        Some(k) => !k.told && (w.started ==> k.stamp is None),
        None => table::lookup(w.pruned, key) is None,
    }
}

proof fn lemma_unheard(w: Watched, looks: Seq<Survey>, key: Seq<char>)
    requires
        sound(w),
        is_unheard(w, key),
        forall|j: int|
            0 <= j < looks.len() ==> listed_once(w.os, (#[trigger] looks[j]).files@) && was_listed(
                w.os,
                looks[j].files@,
                key,
            ),
    ensures
        sound(after_unheard(w, looks)),
        after_unheard(w, looks).os == w.os,
        after_unheard(w, looks).started == w.started,
        is_unheard(after_unheard(w, looks), key),
    decreases looks.len(),
{
    if looks.len() > 0 {
        let init = looks.drop_last();
        assert forall|j: int| 0 <= j < init.len() implies listed_once(
            w.os,
            (#[trigger] init[j]).files@,
        ) && was_listed(w.os, init[j].files@, key) by {
            assert(init[j] == looks[j]);
        }
        lemma_unheard(w, init, key);
        let v = after_unheard(w, init);
        let s = looks[looks.len() - 1];
        let found: Result<Survey, String> = Ok(s);
        let files = s.files@;
        let evs = sweep_events(v, found);
        let v1 = after_sweep(v, found);
        let i = choose|i: int|
            0 <= i < files.len() && fskey::key_of(w.os, #[trigger] files[i].path@) == key;
        every_write_is_reported(v, s, files[i].path);
        assert(is_new(v, files[i]));
        lemma_after_listed(v, found, i);
        lemma_sweep_sound(v, found);
        lemma_with_files_os(after_root(v, found), files);
        lemma_without_all_sound(v1, evs);
        lemma_without_all(v1, evs, key);
        let d = WatchEvent::Discovered(files[i].path);
        let a = choose|a: int| 0 <= a < evs.len() && evs[a] == d;
        assert(discoveries(w.os, key)(evs[a]));
        if w.started {
            assert(is_written(v, files[i]));
            let wr = WatchEvent::Activity(files[i].path);
            let b = choose|b: int| 0 <= b < evs.len() && evs[b] == wr;
            assert(writes(w.os, key)(evs[b]));
        }
    }
}

// ---------------------------------------------------------------------------------------------
// Files that come back
// ---------------------------------------------------------------------------------------------

/// The watch after several sweeps.
pub open spec fn after_sweeps(w: Watched, looks: Seq<Result<Survey, String>>) -> Watched
    decreases looks.len(),
{
    if looks.len() == 0 {
        w
    } else {
        after_sweep(after_sweeps(w, looks.drop_last()), looks.last())
    }
}

/// Something is remembered of a file: the file itself, or the stamp it had.
pub open spec fn remembered(w: Watched, key: Seq<char>) -> bool {
    table::lookup(w.known, key) is Some || table::lookup(w.pruned, key) is Some
}

proof fn lemma_away(w: Watched, looks: Seq<Result<Survey, String>>, key: Seq<char>)
    requires
        sound(w),
        table::lookup(w.known, key) matches Some(k) && k.told,
        forall|j: int|
            0 <= j < looks.len() ==> !was_listed(w.os, files_found(#[trigger] looks[j]), key),
    ensures
        sound(after_sweeps(w, looks)),
        after_sweeps(w, looks).os == w.os,
        match table::lookup(after_sweeps(w, looks).known, key) {
            Some(k) => k.told && k.stamp == table::lookup(w.known, key)->0.stamp && (looks.len()
                > 0 ==> !k.exists),
            None => table::lookup(after_sweeps(w, looks).pruned, key) is Some ==> table::lookup(
                after_sweeps(w, looks).pruned,
                key,
            ) == Some(table::lookup(w.known, key)->0.stamp),
        },
    decreases looks.len(),
{
    if looks.len() > 0 {
        let init = looks.drop_last();
        assert forall|j: int| 0 <= j < init.len() implies !was_listed(
            w.os,
            files_found(#[trigger] init[j]),
            key,
        ) by {
            assert(init[j] == looks[j]);
        }
        lemma_away(w, init, key);
        let v = after_sweeps(w, init);
        let found = looks[looks.len() - 1];
        lemma_sweep_sound(v, found);
        lemma_with_files_os(after_root(v, found), files_found(found));
        lemma_after_unlisted(v, found, key);
        assert(table::lookup(v.known, key) is Some ==> table::lookup(v.pruned, key) is None);
    }
}

/// No file is reported as back twice by one sweep.
proof fn lemma_back_once(w: Watched, files: Seq<Listed>, p: String, a: int, b: int)
    requires
        table::ordered(w.known),
        table::ordered(w.pruned),
        listed_once(w.os, files),
        0 <= a < files_events(w, files).len(),
        0 <= b < files_events(w, files).len(),
        files_events(w, files)[a] == WatchEvent::Reappeared(p),
        files_events(w, files)[b] == WatchEvent::Reappeared(p),
    ensures
        a == b,
    decreases files.len(),
{
    let init = files.drop_last();
    let last = files.len() - 1;
    let f = files[last];
    let mid = with_files(w, init);
    let before = files_events(w, init);
    let own = file_events(mid, f);
    lemma_listed_once_prefix(w.os, files);
    lemma_file_events(mid, f, p);
    lemma_files_events(w, init, p);
    let e = WatchEvent::Reappeared(p);
    // Where the last file is this one, no earlier one is.
    if own.contains(e) && before.contains(e) {
        let i = choose|i: int|
            0 <= i < init.len() && (#[trigger] init[i]).path == p && is_back(w, init[i]);
        assert(files[i].path == p);
        assert(fskey::key_of(w.os, files[i].path@) != fskey::key_of(w.os, files[last].path@));
    }
    if a < before.len() && b < before.len() {
        lemma_back_once(w, init, p, a, b);
    } else if a >= before.len() && b >= before.len() {
        assert(own[a - before.len()] == e && own[b - before.len()] == e);
        if a < b {
            assert(own[a - before.len()] != own[b - before.len()]);
        } else if b < a {
            assert(own[b - before.len()] != own[a - before.len()]);
        }
    } else if a < before.len() {
        assert(before[a] == e && own[b - before.len()] == e);
    } else {
        assert(before[b] == e && own[a - before.len()] == e);
    }
}

/// A file that was missing for one sweep or for many, and of which something is still remembered,
/// is reported as back when it is listed again: once, as written exactly where its stamp is another
/// than it was, and never as new. It is then remembered as it is, and no stamp of it is kept
/// besides.
pub proof fn a_return_is_reported_once(
    w: Watched,
    looks: Seq<Result<Survey, String>>,
    s: Survey,
    i: int,
    stamp: Stamp,
)
    requires
        sound(w),
        0 <= i < s.files@.len(),
        listed_once(w.os, s.files@),
        table::lookup(w.known, fskey::key_of(w.os, s.files@[i].path@)) matches Some(k) && k.told
            && k.stamp == Some(stamp),
        looks.len() > 0,
        forall|j: int|
            0 <= j < looks.len() ==> !was_listed(
                w.os,
                files_found(#[trigger] looks[j]),
                fskey::key_of(w.os, s.files@[i].path@),
            ),
        remembered(after_sweeps(w, looks), fskey::key_of(w.os, s.files@[i].path@)),
    ensures
        ({
            let v = after_sweeps(w, looks);
            let f = s.files@[i];
            let key = fskey::key_of(w.os, f.path@);
            let evs = sweep_events(v, Ok(s));
            &&& evs.contains(WatchEvent::Reappeared(f.path))
            &&& forall|a: int, b: int|
                0 <= a < evs.len() && 0 <= b < evs.len() && #[trigger] evs[a]
                    == WatchEvent::Reappeared(f.path) && #[trigger] evs[b]
                    == WatchEvent::Reappeared(f.path) ==> a == b
            &&& evs.contains(WatchEvent::Activity(f.path)) <==> f.stamp != stamp
            &&& !evs.contains(WatchEvent::Discovered(f.path))
            &&& table::lookup(after_sweep(v, Ok(s)).known, key) == Some(present(f))
            &&& table::lookup(after_sweep(v, Ok(s)).pruned, key) is None
        }),
{
    let found: Result<Survey, String> = Ok(s);
    let files = s.files@;
    let f = files[i];
    let key = fskey::key_of(w.os, f.path@);
    lemma_away(w, looks, key);
    let v = after_sweeps(w, looks);
    every_write_is_reported(v, s, f.path);
    assert forall|m: int| 0 <= m < files.len() && (#[trigger] files[m]).path == f.path implies m
        == i by {
        if m < i {
            assert(fskey::key_of(w.os, files[m].path@) != fskey::key_of(w.os, files[i].path@));
        } else if i < m {
            assert(fskey::key_of(w.os, files[i].path@) != fskey::key_of(w.os, files[m].path@));
        }
    }
    assert(is_back(v, f));
    lemma_after_listed(v, found, i);
    lemma_sweep_sound(v, found);
    assert(table::lookup(after_sweep(v, found).known, key) is Some);
    let r = after_root(v, found);
    let first = root_events(v, found);
    let listed = files_events(r, files);
    let missing = missing_events(v.os, with_files(r, files).known, files);
    let evs = sweep_events(v, found);
    let e = WatchEvent::Reappeared(f.path);
    assert forall|a: int| 0 <= a < evs.len() && #[trigger] evs[a] == e implies first.len() <= a
        < first.len() + listed.len() by {
        if a >= first.len() + listed.len() {
            let k = a - first.len() - listed.len();
            assert(missing[k] == e);
            only_known_files_go_missing(v.os, with_files(r, files).known, files, k);
        } else if a < first.len() {
            assert(first[a] == e);
        }
    }
    assert forall|a: int, b: int|
        0 <= a < evs.len() && 0 <= b < evs.len() && #[trigger] evs[a] == e && #[trigger] evs[b]
            == e implies a == b by {
        assert(listed[a - first.len()] == e && listed[b - first.len()] == e);
        lemma_back_once(r, files, f.path, a - first.len(), b - first.len());
    }
}

/// Nothing that was remembered is forgotten by a sweep for which there is room: as long as the
/// files at hand and the stamps kept are not more than the stamps that can be kept.
pub proof fn with_room_nothing_is_forgotten(
    w: Watched,
    found: Result<Survey, String>,
    key: Seq<char>,
)
    requires
        sound(w),
        table::lookup(w.known, key) matches Some(k) ==> k.told,
        remembered(w, key),
        with_files(after_root(w, found), files_found(found)).known.len() + w.pruned.len()
            <= PRUNED_STAMPS_MAX,
    ensures
        remembered(after_sweep(w, found), key),
{
    let files = files_found(found);
    let r = after_root(w, found);
    let seen = with_files(r, files);
    lemma_with_files_os(r, files);
    lemma_with_files_sound(r, files);
    lemma_with_files(r, files, key);
    lemma_known_after(w.os, seen.known, files, seen.root_down, key);
    lemma_fewer_stamps(r, files);
    lemma_room(w.os, seen.known, files, seen.root_down, seen.pruned, key);
    if was_listed(w.os, files, key) {
        lemma_listed_somehow(r, files, key);
    }
}

proof fn lemma_fewer_stamps(w: Watched, files: Seq<Listed>)
    ensures
        with_files(w, files).pruned.len() <= w.pruned.len(),
    decreases files.len(),
{
    if files.len() > 0 {
        let init = files.drop_last();
        lemma_fewer_stamps(w, init);
        let mid = with_files(w, init);
        lemma_erase_len(mid.pruned, fskey::key_of(mid.os, files.last().path@));
    }
}

proof fn lemma_listed_somehow(w: Watched, files: Seq<Listed>, key: Seq<char>)
    requires
        table::ordered(w.known),
        table::ordered(w.pruned),
        was_listed(w.os, files, key),
    ensures
        table::lookup(with_files(w, files).known, key) is Some,
    decreases files.len(),
{
    let init = files.drop_last();
    let last = files.len() - 1;
    let mid = with_files(w, init);
    let fkey = fskey::key_of(w.os, files[last].path@);
    lemma_with_files_os(w, init);
    lemma_with_files(w, init, key);
    table::put_then_lookup(mid.known, fkey, present(files[last]), key);
    if fkey != key {
        let j = choose|j: int|
            0 <= j < files.len() && fskey::key_of(w.os, #[trigger] files[j].path@) == key;
        assert(init[j].path@ == files[j].path@);
        lemma_listed_somehow(w, init, key);
    }
}

proof fn lemma_room(
    os: Os,
    rows: Seq<(Seq<char>, KnownFile)>,
    files: Seq<Listed>,
    root_down: bool,
    pruned: Seq<(Seq<char>, Option<Stamp>)>,
    key: Seq<char>,
)
    requires
        table::ordered(rows),
        table::ordered(pruned),
        rows.len() + pruned.len() <= PRUNED_STAMPS_MAX,
    ensures
        table::ordered(pruned_after(os, rows, files, root_down, pruned)),
        pruned_after(os, rows, files, root_down, pruned).len() <= rows.len() + pruned.len(),
        table::lookup(pruned, key) is Some ==> table::lookup(
            pruned_after(os, rows, files, root_down, pruned),
            key,
        ) is Some,
        (table::lookup(rows, key) matches Some(k) && !was_listed(os, files, key) && gone_for_long(
            k,
            root_down,
        ) && k.told) ==> table::lookup(pruned_after(os, rows, files, root_down, pruned), key)
            is Some,
    decreases rows.len(),
{
    if rows.len() > 0 {
        let init = rows.drop_last();
        table::lemma_ordered_prefix(rows);
        lemma_room(os, init, files, root_down, pruned, key);
        let before = pruned_after(os, init, files, root_down, pruned);
        let (name, k) = rows.last();
        table::put_then_lookup(before, name, k.stamp, key);
        lemma_put_len(before, name, k.stamp);
    }
}

// ---------------------------------------------------------------------------------------------
// Sweeps that follow each other
// ---------------------------------------------------------------------------------------------

/// A sweep tells what changed since the last one: a file that both list is reported as written
/// exactly where its stamp is another, and as nothing else; a file that only the second lists, and
/// of which nothing is remembered from before, is reported as discovered and as written. Exactly
/// the files that only the first lists are reported as gone.
pub proof fn a_sweep_tells_what_changed_since_the_last(
    w: Watched,
    first: Survey,
    second: Survey,
    j: int,
    p: String,
)
    requires
        sound(w),
        listed_once(w.os, first.files@),
        listed_once(w.os, second.files@),
        0 <= j < second.files@.len(),
    ensures
        ({
            let f = second.files@[j];
            let key = fskey::key_of(w.os, f.path@);
            let told = sweep_events(
                Watched { started: true, ..after_sweep(w, Ok(first)) },
                Ok(second),
            );
            &&& forall|i: int|
                0 <= i < first.files@.len() && fskey::key_of(
                    w.os,
                    (#[trigger] first.files@[i]).path@,
                ) == key ==> told.contains(WatchEvent::Activity(f.path)) == (first.files@[i].stamp
                    != f.stamp) && !told.contains(WatchEvent::Discovered(f.path))
                    && !told.contains(WatchEvent::Reappeared(f.path))
            &&& (forall|i: int|
                0 <= i < first.files@.len() ==> fskey::key_of(
                    w.os,
                    (#[trigger] first.files@[i]).path@,
                ) != key) && table::lookup(w.known, key) is None && table::lookup(w.pruned, key)
                is None ==> told.contains(WatchEvent::Discovered(f.path)) && told.contains(
                WatchEvent::Activity(f.path),
            ) && !told.contains(WatchEvent::Reappeared(f.path))
            &&& told.contains(WatchEvent::Missing(p)) <==> exists|i: int|
                0 <= i < first.files@.len() && (#[trigger] first.files@[i]).path == p && forall|
                    k: int,
                |
                    0 <= k < second.files@.len() ==> fskey::key_of(
                        w.os,
                        (#[trigger] second.files@[k]).path@,
                    ) != fskey::key_of(w.os, p@)
        }),
{
    let a: Result<Survey, String> = Ok(first);
    let b: Result<Survey, String> = Ok(second);
    let before = first.files@;
    let now = second.files@;
    let f = now[j];
    let key = fskey::key_of(w.os, f.path@);
    let v = Watched { started: true, ..after_sweep(w, a) };
    let told = sweep_events(v, b);
    lemma_sweep_sound(w, a);
    lemma_with_files_os(after_root(w, a), before);
    assert(sound(v));
    lemma_reported(v, b, f.path);
    lemma_reported(v, b, p);
    assert forall|m: int| 0 <= m < now.len() && (#[trigger] now[m]).path == f.path implies m
        == j by {
        if m < j {
            assert(fskey::key_of(w.os, now[m].path@) != fskey::key_of(w.os, now[j].path@));
        } else if j < m {
            assert(fskey::key_of(w.os, now[j].path@) != fskey::key_of(w.os, now[m].path@));
        }
    }
    assert(now[j].path == f.path);
    assert forall|i: int|
        0 <= i < before.len() && fskey::key_of(
            w.os,
            (#[trigger] before[i]).path@,
        ) == key implies told.contains(WatchEvent::Activity(f.path)) == (before[i].stamp != f.stamp)
        && !told.contains(WatchEvent::Discovered(f.path)) && !told.contains(
        WatchEvent::Reappeared(f.path),
    ) by {
        lemma_after_listed(w, a, i);
        assert(table::lookup(v.known, key) == Some(present(before[i])));
        assert(!is_new(v, f) && !is_back(v, f));
        assert(is_written(v, f) == (before[i].stamp != f.stamp));
    }
    if (forall|i: int|
        0 <= i < before.len() ==> fskey::key_of(w.os, (#[trigger] before[i]).path@) != key)
        && table::lookup(w.known, key) is None && table::lookup(w.pruned, key) is None {
        assert(!was_listed(w.os, before, key));
        lemma_after_unlisted(w, a, key);
        assert(is_new(v, f) && is_written(v, f) && !is_back(v, f));
    }
    let pkey = fskey::key_of(w.os, p@);
    if told.contains(WatchEvent::Missing(p)) {
        let k2 = choose|k2: Seq<char>| is_gone(v, now, k2, p);
        assert(table::lookup(v.known, k2) is Some);
        assert(k2 == pkey);
        assert(was_listed(w.os, before, pkey)) by {
            if !was_listed(w.os, before, pkey) {
                lemma_after_unlisted(w, a, pkey);
            }
        }
        let i = choose|i: int|
            0 <= i < before.len() && fskey::key_of(w.os, #[trigger] before[i].path@) == pkey;
        lemma_after_listed(w, a, i);
        assert(before[i].path == p);
        assert forall|k: int| 0 <= k < now.len() implies fskey::key_of(
            w.os,
            (#[trigger] now[k]).path@,
        ) != pkey by {
            if fskey::key_of(w.os, now[k].path@) == pkey {
                assert(was_listed(w.os, now, pkey));
            }
        }
    }
    if exists|i: int|
        0 <= i < before.len() && (#[trigger] before[i]).path == p && forall|k: int|
            0 <= k < now.len() ==> fskey::key_of(w.os, (#[trigger] now[k]).path@) != pkey {
        let i = choose|i: int|
            0 <= i < before.len() && (#[trigger] before[i]).path == p && forall|k: int|
                0 <= k < now.len() ==> fskey::key_of(w.os, (#[trigger] now[k]).path@) != pkey;
        lemma_after_listed(w, a, i);
        assert(is_gone(v, now, pkey, p));
    }
}

/// A file that was listed, was not found by the next sweep, and is listed again by the one after
/// is reported as back, as written exactly where its stamp is another, and not as discovered. It
/// does not matter whether the file was gone or the directory could not be read.
pub proof fn a_file_that_was_away_is_back(
    w: Watched,
    first: Survey,
    between: Result<Survey, String>,
    last: Survey,
    i: int,
    j: int,
)
    requires
        sound(w),
        listed_once(w.os, first.files@),
        listed_once(w.os, last.files@),
        0 <= i < first.files@.len(),
        0 <= j < last.files@.len(),
        fskey::key_of(w.os, first.files@[i].path@) == fskey::key_of(w.os, last.files@[j].path@),
        between matches Ok(s) ==> forall|k: int|
            0 <= k < s.files@.len() ==> fskey::key_of(w.os, (#[trigger] s.files@[k]).path@)
                != fskey::key_of(w.os, first.files@[i].path@),
    ensures
        ({
            let f = last.files@[j];
            let told = sweep_events(after_sweep(after_sweep(w, Ok(first)), between), Ok(last));
            &&& told.contains(WatchEvent::Reappeared(f.path))
            &&& told.contains(WatchEvent::Activity(f.path)) == (first.files@[i].stamp != f.stamp)
            &&& !told.contains(WatchEvent::Discovered(f.path))
        }),
{
    let a: Result<Survey, String> = Ok(first);
    let c: Result<Survey, String> = Ok(last);
    let now = last.files@;
    let f = now[j];
    let key = fskey::key_of(w.os, f.path@);
    let v1 = after_sweep(w, a);
    let v2 = after_sweep(v1, between);
    lemma_sweep_sound(w, a);
    lemma_sweep_sound(v1, between);
    lemma_with_files_os(after_root(w, a), first.files@);
    lemma_with_files_os(after_root(v1, between), files_found(between));
    lemma_after_listed(w, a, i);
    assert(!was_listed(w.os, files_found(between), key));
    lemma_after_unlisted(v1, between, key);
    assert(table::lookup(v2.known, key) == Some(absent(present(first.files@[i]))));
    lemma_reported(v2, c, f.path);
    assert forall|m: int| 0 <= m < now.len() && (#[trigger] now[m]).path == f.path implies m
        == j by {
        if m < j {
            assert(fskey::key_of(w.os, now[m].path@) != fskey::key_of(w.os, now[j].path@));
        } else if j < m {
            assert(fskey::key_of(w.os, now[j].path@) != fskey::key_of(w.os, now[m].path@));
        }
    }
    assert(now[j].path == f.path);
    assert(is_back(v2, f) && !is_new(v2, f));
    assert(is_written(v2, f) == (first.files@[i].stamp != f.stamp));
}

/// The first sweep of a watch that has seen nothing discovers every file that is there and reports
/// nothing else; the second then tells what changed.
pub proof fn a_fresh_watch_takes_stock(os: Os, s: Survey, e: WatchEvent)
    requires
        listed_once(os, s.files@),
    ensures
        sweep_events(
            Watched { os, started: false, root_down: false, known: seq![], pruned: seq![] },
            Ok(s),
        ).contains(e) <==> exists|i: int|
            0 <= i < s.files@.len() && e == WatchEvent::Discovered((#[trigger] s.files@[i]).path),
{
    let w = Watched { os, started: false, root_down: false, known: seq![], pruned: seq![] };
    let found: Result<Survey, String> = Ok(s);
    let files = s.files@;
    let r = after_root(w, found);
    assert(r == w);
    first_sweep_reports_no_write(w, files);
    let listed = files_events(r, files);
    let rows = with_files(r, files).known;
    let missing = missing_events(os, rows, files);
    lemma_contains_either(root_events(w, found), listed, e);
    lemma_contains_either(root_events(w, found) + listed, missing, e);
    assert(sound(w));
    lemma_with_files_sound(r, files);
    if missing.contains(e) {
        let k = choose|k: int| 0 <= k < missing.len() && missing[k] == e;
        only_known_files_go_missing(os, rows, files, k);
        let j = choose|j: int|
            0 <= j < rows.len() && (#[trigger] rows[j]).1.exists && rows[j].1.told && !was_listed(
                os,
                files,
                rows[j].0,
            ) && missing[k] == WatchEvent::Missing(rows[j].1.path);
        table::lemma_lookup_at(rows, j);
        lemma_with_files(r, files, rows[j].0);
        assert(false);
    }
    if listed.contains(e) {
        let k = choose|k: int| 0 <= k < listed.len() && listed[k] == e;
        assert(e == WatchEvent::Discovered(files[k].path));
    }
    if exists|i: int|
        0 <= i < files.len() && e == WatchEvent::Discovered((#[trigger] files[i]).path) {
        let i = choose|i: int|
            0 <= i < files.len() && e == WatchEvent::Discovered((#[trigger] files[i]).path);
        assert(listed[i] == e);
    }
}

/// That the directory cannot be read is reported at the sweep at which this begins, with the
/// reason, and that it can be read again at the sweep at which this ends; files that are there are
/// not reported in between as anything but gone.
pub proof fn an_outage_is_told_at_both_ends(w: Watched, reason: String, again: String, s: Survey)
    requires
        sound(w),
        !w.root_down,
        listed_once(w.os, s.files@),
    ensures
        sweep_events(w, Err(reason)).contains(WatchEvent::Error(reason)),
        !sweep_events(after_sweep(w, Err(reason)), Err(again)).contains(WatchEvent::Error(again)),
        sweep_events(after_sweep(w, Err(reason)), Ok(s)).contains(WatchEvent::Recovered),
        !sweep_events(w, Ok(s)).contains(WatchEvent::Recovered),
        !sweep_events(after_sweep(after_sweep(w, Err(reason)), Ok(s)), Ok(s)).contains(
            WatchEvent::Recovered,
        ),
        sweep_events(after_sweep(after_sweep(w, Err(reason)), Ok(s)), Err(again)).contains(
            WatchEvent::Error(again),
        ),
{
    let down = after_sweep(w, Err(reason));
    let up = after_sweep(down, Ok(s));
    lemma_sweep_sound(w, Err(reason));
    lemma_sweep_sound(down, Ok(s));
    lemma_with_files_os(after_root(w, Err(reason)), seq![]);
    lemma_with_files_os(after_root(down, Ok(s)), s.files@);
    lemma_reported_root(w, Err(reason), WatchEvent::Error(reason));
    lemma_reported_root(down, Err(again), WatchEvent::Error(again));
    lemma_reported_root(down, Ok(s), WatchEvent::Recovered);
    lemma_reported_root(w, Ok(s), WatchEvent::Recovered);
    lemma_reported_root(up, Ok(s), WatchEvent::Recovered);
    lemma_reported_root(up, Err(again), WatchEvent::Error(again));
}

/// What a sweep costs is what it found and how long it took.
pub proof fn a_sweep_costs_what_it_found(s: Survey, reason: String, millis: u64)
    requires
        s.files@.len() <= usize::MAX,
    ensures
        stats_of(Ok(s), millis).files == s.files@.len(),
        stats_of(Ok(s), millis).dirs == s.dirs,
        stats_of(Ok(s), millis).millis == millis,
        stats_of(Err(reason), millis) == (SweepStats { files: 0, dirs: 0, millis }),
{
}

} // verus!
