//! The tracked files and what their buttons show: which files have a window, which changed unseen,
//! which are gone. The model decides; whoever draws the windows carries the decisions out. Time is
//! always passed in.

use vstd::prelude::*;

use crate::fskey;
use crate::os::Os;
use crate::paths;
use crate::strings;

verus! {

/// The largest number of tail windows that can be asked for.
pub const MAX_WINDOWS_CEILING: i32 = 50;

/// The largest number of directories that tracked files may lie in. A file in one more directory is
/// not tracked.
pub const MAX_DIR_BOXES: usize = 200;

/// The largest number of tracked files. One more file takes the place of the least useful one.
pub const MAX_FILES: usize = 1000;

/// What a file's button shows.
#[derive(Debug, Clone, Copy, PartialEq, Eq, Structural)]
pub enum ButtonVis {
    /// Nothing to report.
    Idle,
    /// Its window is open.
    Open,
    /// Its window is open and it was just written.
    ActiveOpen,
    /// It was just written, and has no window.
    ActiveClosed,
    /// It changed while it had no window.
    Unread,
    /// It is gone.
    Missing,
}

/// What came of an attempt to open a window.
#[derive(Debug, Clone, Copy, PartialEq, Eq, Structural)]
pub enum OpenResult {
    /// A window is now owed.
    Opened,
    /// There is one already.
    AlreadyOpen,
    /// No more windows are allowed.
    BlockedByCap,
}

/// The state of one file.
#[verifier::ext_equal]
pub struct File {
    /// Its path.
    pub path: Seq<char>,
    /// It has a window.
    pub window_open: bool,
    /// It is gone.
    pub missing: bool,
    /// It changed while it had no window.
    pub unread: bool,
    /// The user closed its window.
    pub user_closed: bool,
    /// When it was last written, in seconds.
    pub last_activity: Option<i64>,
    /// Since when it has been gone.
    pub missing_since: Option<i64>,
}

/// The state of the model.
#[verifier::ext_equal]
pub struct Session {
    /// The naming rules in force.
    pub os: Os,
    /// The tracked files, in the order in which they came to be tracked.
    pub files: Seq<File>,
    /// A file was turned away because its directory was one too many.
    pub dir_overflow: bool,
    /// A file was turned away because every tracked file has a window.
    pub file_overflow: bool,
    /// How many files made room for others.
    pub evicted_total: u64,
    /// For how long a written file counts as active, in seconds.
    pub active_seconds: i64,
    /// How many windows may be open.
    pub max_windows: i32,
    /// Windows open only when the user asks.
    pub no_open: bool,
    /// Changes whenever the set of tracked files does.
    pub structure_rev: u64,
}

// ---------------------------------------------------------------------------------------------
// Model
// ---------------------------------------------------------------------------------------------

/// The state of a file that has only just come to be tracked.
pub open spec fn fresh(path: Seq<char>) -> File {
    File {
        path,
        window_open: false,
        missing: false,
        unread: false,
        user_closed: false,
        last_activity: None,
        missing_since: None,
    }
}

/// A model that tracks nothing, with the default settings.
pub open spec fn initial(os: Os) -> Session {
    Session {
        os,
        files: seq![],
        dir_overflow: false,
        file_overflow: false,
        evicted_total: 0,
        active_seconds: 5,
        max_windows: 10,
        no_open: false,
        structure_rev: 0,
    }
}

/// A counter `n` steps on; it starts over after its last value.
pub open spec fn counter_plus(c: u64, n: nat) -> u64 {
    ((c + n) % 0x1_0000_0000_0000_0000) as u64
}

/// The identity of a path's directory.
pub open spec fn dir_key(os: Os, path: Seq<char>) -> Seq<char> {
    fskey::key_of(os, paths::parent_dir(os, path))
}

/// Where the file with the given identity key stands.
pub open spec fn position(os: Os, files: Seq<File>, key: Seq<char>) -> Option<int>
    decreases files.len(),
{
    if files.len() == 0 {
        None
    } else {
        match position(os, files.drop_last(), key) {
            Some(i) => Some(i),
            None => if fskey::key_of(os, files.last().path) == key {
                Some(files.len() - 1)
            } else {
                None
            },
        }
    }
}

/// Where the file at `path` stands.
pub open spec fn place(s: Session, path: Seq<char>) -> Option<int> {
    position(s.os, s.files, fskey::key_of(s.os, path))
}

/// The directories that hold tracked files.
pub open spec fn dir_keys(os: Os, files: Seq<File>) -> Set<Seq<char>> {
    files.map_values(|f: File| dir_key(os, f.path)).to_set()
}

/// How many files have a window.
pub open spec fn open_total(files: Seq<File>) -> int
    decreases files.len(),
{
    if files.len() == 0 {
        0
    } else {
        open_total(files.drop_last()) + one_if(files.last().window_open)
    }
}

/// 1 for true, 0 for false.
pub open spec fn one_if(b: bool) -> int {
    if b {
        1
    } else {
        0
    }
}

/// When a file was last written; one never written counts as written before all others.
pub open spec fn rank(f: File) -> int {
    match f.last_activity {
        Some(t) => t as int,
        None => i64::MIN - 1,
    }
}

/// The file without a window that was written longest ago, the first of several; among the missing
/// ones only, where `missing` says so.
pub open spec fn oldest(files: Seq<File>, missing: bool) -> Option<int>
    decreases files.len(),
{
    if files.len() == 0 {
        None
    } else {
        let before = oldest(files.drop_last(), missing);
        let f = files.last();
        if f.window_open || (missing && !f.missing) {
            before
        } else {
            match before {
                Some(i) => if rank(f) < rank(files[i]) {
                    Some(files.len() - 1)
                } else {
                    Some(i)
                },
                None => Some(files.len() - 1),
            }
        }
    }
}

/// The file to give up when one more comes: a missing one before any other, never one with a
/// window, and of those left the one written longest ago.
pub open spec fn victim(files: Seq<File>) -> Option<int> {
    match oldest(files, true) {
        Some(i) => Some(i),
        None => oldest(files, false),
    }
}

/// The model without its `i`-th file.
pub open spec fn without(s: Session, i: int) -> Session {
    Session { files: s.files.remove(i), structure_rev: counter_plus(s.structure_rev, 1), ..s }
}

/// The model with one more file.
pub open spec fn with_file(s: Session, path: Seq<char>) -> Session {
    Session {
        files: s.files.push(fresh(path)),
        structure_rev: counter_plus(s.structure_rev, 1),
        ..s
    }
}

/// The model once `path` has asked to be tracked.
pub open spec fn admitted(s: Session, path: Seq<char>) -> Session {
    if place(s, path) is Some {
        s
    } else if !dir_keys(s.os, s.files).contains(dir_key(s.os, path)) && dir_keys(
        s.os,
        s.files,
    ).len() >= MAX_DIR_BOXES {
        Session { dir_overflow: true, ..s }
    } else if s.files.len() < MAX_FILES {
        with_file(s, path)
    } else {
        match victim(s.files) {
            Some(v) => with_file(
                Session { evicted_total: counter_plus(s.evicted_total, 1), ..without(s, v) },
                path,
            ),
            None => Session { file_overflow: true, ..s },
        }
    }
}

/// The model with its `i`-th file in another state.
pub open spec fn with_state(s: Session, i: int, f: File) -> Session {
    Session { files: s.files.update(i, f), ..s }
}

/// A file that is there.
pub open spec fn present(f: File) -> File {
    File { missing: false, missing_since: None, ..f }
}

/// A file that was just written.
pub open spec fn written(f: File, now: i64) -> File {
    File { last_activity: Some(now), ..present(f) }
}

/// Whether a written file is to have a window without being asked.
pub open spec fn wants_window(s: Session, f: File) -> bool {
    !s.no_open && !f.user_closed && !f.window_open
}

/// The model once a write to `path` was seen.
pub open spec fn after_activity(s: Session, path: Seq<char>, now: i64) -> Session {
    let a = admitted(s, path);
    match place(a, path) {
        Some(i) => with_state(a, i, written(a.files[i], now)),
        None => a,
    }
}

/// Whether that write calls for a window.
pub open spec fn activity_wants_window(s: Session, path: Seq<char>) -> bool {
    let a = admitted(s, path);
    match place(a, path) {
        Some(i) => wants_window(a, a.files[i]),
        None => false,
    }
}

/// The model once `path` was found to have changed.
pub open spec fn after_unread(s: Session, path: Seq<char>) -> Session {
    let a = admitted(s, path);
    match place(a, path) {
        Some(i) => if a.files[i].window_open {
            a
        } else {
            with_state(a, i, File { unread: true, ..a.files[i] })
        },
        None => a,
    }
}

/// What comes of asking for a window on `path`.
pub open spec fn open_outcome(s: Session, path: Seq<char>) -> OpenResult {
    let a = admitted(s, path);
    match place(a, path) {
        Some(i) => if a.files[i].window_open {
            OpenResult::AlreadyOpen
        } else if open_total(s.files) >= s.max_windows {
            OpenResult::BlockedByCap
        } else {
            OpenResult::Opened
        },
        None => OpenResult::BlockedByCap,
    }
}

/// The model once a window on `path` was asked for.
pub open spec fn after_open(s: Session, path: Seq<char>) -> Session {
    let a = admitted(s, path);
    if open_outcome(s, path) is Opened {
        let i = place(a, path)->0;
        with_state(
            a,
            i,
            File { window_open: true, user_closed: false, unread: false, ..a.files[i] },
        )
    } else {
        a
    }
}

/// The model once the user closed the window on `path`.
pub open spec fn after_close(s: Session, path: Seq<char>) -> Session {
    match place(s, path) {
        Some(i) => if s.files[i].window_open {
            with_state(s, i, File { window_open: false, user_closed: true, ..s.files[i] })
        } else {
            s
        },
        None => s,
    }
}

/// The model once `path` was found to be gone.
pub open spec fn after_missing(s: Session, path: Seq<char>, now: i64) -> Session {
    match place(s, path) {
        Some(i) => with_state(
            s,
            i,
            File {
                missing: true,
                missing_since: match s.files[i].missing_since {
                    Some(t) => Some(t),
                    None => Some(now),
                },
                ..s.files[i]
            },
        ),
        None => s,
    }
}

/// A file without a window that has been gone for at least `grace` seconds.
pub open spec fn long_gone(f: File, now: i64, grace: i64) -> bool {
    !f.window_open && (f.missing_since matches Some(t) && now - t >= grace)
}

/// The files that are not long gone.
pub open spec fn survivors(files: Seq<File>, now: i64, grace: i64) -> Seq<File>
    decreases files.len(),
{
    if files.len() == 0 {
        seq![]
    } else if long_gone(files.last(), now, grace) {
        survivors(files.drop_last(), now, grace)
    } else {
        survivors(files.drop_last(), now, grace).push(files.last())
    }
}

/// The paths of the files that are long gone.
pub open spec fn gone_paths(files: Seq<File>, now: i64, grace: i64) -> Seq<Seq<char>>
    decreases files.len(),
{
    if files.len() == 0 {
        seq![]
    } else if long_gone(files.last(), now, grace) {
        gone_paths(files.drop_last(), now, grace).push(files.last().path)
    } else {
        gone_paths(files.drop_last(), now, grace)
    }
}

/// The model without the files that are long gone.
pub open spec fn after_prune(s: Session, now: i64, grace: i64) -> Session {
    Session {
        files: survivors(s.files, now, grace),
        structure_rev: counter_plus(s.structure_rev, gone_paths(s.files, now, grace).len()),
        ..s
    }
}

/// The model with nothing tracked and no file turned away.
pub open spec fn after_reset(s: Session) -> Session {
    Session {
        files: seq![],
        dir_overflow: false,
        file_overflow: false,
        structure_rev: if s.files.len() == 0 {
            s.structure_rev
        } else {
            counter_plus(s.structure_rev, 1)
        },
        ..s
    }
}

/// Whether a file was written within the last `active_seconds`.
pub open spec fn is_active(f: File, active_seconds: i64, now: i64) -> bool {
    f.last_activity matches Some(t) && now - t <= active_seconds
}

/// What a file's button shows: that it is gone before all else, then its window, then that it is
/// being written, then that it changed unseen.
pub open spec fn appearance(f: File, active_seconds: i64, now: i64) -> ButtonVis {
    let active = is_active(f, active_seconds, now);
    if f.missing {
        ButtonVis::Missing
    } else if f.window_open && active {
        ButtonVis::ActiveOpen
    } else if f.window_open {
        ButtonVis::Open
    } else if active {
        ButtonVis::ActiveClosed
    } else if f.unread {
        ButtonVis::Unread
    } else {
        ButtonVis::Idle
    }
}

/// What the button of the file at `path` shows; an unknown file is idle.
pub open spec fn appearance_at(s: Session, path: Seq<char>, now: i64) -> ButtonVis {
    match place(s, path) {
        Some(i) => appearance(s.files[i], s.active_seconds, now),
        None => ButtonVis::Idle,
    }
}

// ---------------------------------------------------------------------------------------------
// Entries
// ---------------------------------------------------------------------------------------------

/// The state of one file.
#[derive(Debug, Clone)]
pub struct FileEntry {
    /// Its path.
    pub path: String,
    /// It has a window.
    pub window_open: bool,
    /// It is gone.
    pub missing: bool,
    /// It changed while it had no window.
    pub unread: bool,
    /// The user closed its window; only they open it again.
    pub user_closed: bool,
    /// When it was last written, in seconds, if ever.
    pub last_activity: Option<i64>,
    /// Since when it has been gone without a break.
    pub missing_since: Option<i64>,
}

impl View for FileEntry {
    type V = File;

    open spec fn view(&self) -> File {
        File {
            path: self.path@,
            window_open: self.window_open,
            missing: self.missing,
            unread: self.unread,
            user_closed: self.user_closed,
            last_activity: self.last_activity,
            missing_since: self.missing_since,
        }
    }
}

/// The states of a sequence of files.
pub open spec fn states(v: Seq<FileEntry>) -> Seq<File> {
    v.map_values(|e: FileEntry| e@)
}

impl FileEntry {
    /// The state of a file that has only just come to be tracked.
    pub fn new(path: &str) -> (r: Self)
        ensures
            r@ == fresh(path@),
    {
        FileEntry {
            path: path.to_owned(),
            window_open: false,
            missing: false,
            unread: false,
            user_closed: false,
            last_activity: None,
            missing_since: None,
        }
    }
}

/// The tracked files.
#[derive(Debug)]
pub struct SessionModel {
    os: Os,
    keys: Vec<String>,
    files: Vec<FileEntry>,
    dirs: Vec<String>,
    dir_overflow: bool,
    file_overflow: bool,
    evicted_total: u64,
    /// For how long a written file counts as active, in seconds.
    pub active_seconds: i64,
    /// How many windows may be open.
    pub max_windows: i32,
    /// Windows open only when the user asks.
    pub no_open: bool,
    open_count: i32,
    structure_rev: u64,
}

impl View for SessionModel {
    type V = Session;

    closed spec fn view(&self) -> Session {
        Session {
            os: self.os,
            files: states(self.files@),
            dir_overflow: self.dir_overflow,
            file_overflow: self.file_overflow,
            evicted_total: self.evicted_total,
            active_seconds: self.active_seconds,
            max_windows: self.max_windows,
            no_open: self.no_open,
            structure_rev: self.structure_rev,
        }
    }
}

/// No two files have one identity.
pub open spec fn distinct(os: Os, files: Seq<File>) -> bool {
    forall|i: int, j: int|
        0 <= i < j < files.len() ==> fskey::key_of(os, #[trigger] files[i].path) != fskey::key_of(
            os,
            #[trigger] files[j].path,
        )
}

impl SessionModel {
    /// What always holds: no file is tracked twice, the limits are kept, and the tables beside the
    /// files agree with them.
    pub closed spec fn wf(&self) -> bool {
        &&& distinct(self.os, self@.files)
        &&& self.files@.len() <= MAX_FILES
        &&& self.dirs@.len() <= MAX_DIR_BOXES
        &&& self.keys@.len() == self.files@.len()
        &&& forall|i: int|
            0 <= i < self.keys@.len() ==> (#[trigger] self.keys@[i])@ == fskey::key_of(
                self.os,
                self.files@[i].path@,
            )
        &&& strings::views(self.dirs@).no_duplicates()
        &&& strings::views(self.dirs@).to_set() =~= dir_keys(self.os, self@.files)
        &&& self.open_count == open_total(self@.files)
    }

    /// Two models differ in nothing but the settings.
    pub closed spec fn same_but_settings(&self, other: &Self) -> bool {
        &&& self.os == other.os
        &&& self.keys == other.keys
        &&& self.files == other.files
        &&& self.dirs == other.dirs
        &&& self.dir_overflow == other.dir_overflow
        &&& self.file_overflow == other.file_overflow
        &&& self.evicted_total == other.evicted_total
        &&& self.open_count == other.open_count
        &&& self.structure_rev == other.structure_rev
    }

    /// What the invariant says of the state.
    pub proof fn lemma_wf(&self)
        requires
            self.wf(),
        ensures
            distinct(self@.os, self@.files),
            self@.files.len() <= MAX_FILES,
            dir_keys(self@.os, self@.files).len() <= MAX_DIR_BOXES,
            0 <= open_total(self@.files) <= self@.files.len(),
    {
        strings::views(self.dirs@).unique_seq_to_set();
        lemma_open_total_bounds(self@.files);
    }

    /// A model that tracks nothing, for a system whose names differ by case.
    pub fn new() -> (r: Self)
        ensures
            r.wf(),
            r@ == initial(Os::Linux),
    {
        SessionModel::for_os(Os::Linux)
    }

    /// A model that tracks nothing, by the naming rules of `os`.
    pub fn for_os(os: Os) -> (r: Self)
        ensures
            r.wf(),
            r@ == initial(os),
    {
        let r = SessionModel {
            os,
            keys: Vec::new(),
            files: Vec::new(),
            dirs: Vec::new(),
            dir_overflow: false,
            file_overflow: false,
            evicted_total: 0,
            active_seconds: 5,
            max_windows: 10,
            no_open: false,
            open_count: 0,
            structure_rev: 0,
        };
        assert(r@.files =~= Seq::<File>::empty());
        assert(strings::views(r.dirs@).to_set() =~= dir_keys(os, r@.files));
        r
    }

    /// How many windows may be open.
    pub fn max_windows(&self) -> (r: i32)
        ensures
            r == self@.max_windows,
    {
        self.max_windows
    }

    /// For how long a written file counts as active, in seconds.
    pub fn active_seconds(&self) -> (r: i64)
        ensures
            r == self@.active_seconds,
    {
        self.active_seconds
    }

    /// Puts settings into force.
    pub fn tune(&mut self, max_windows: i32, active_seconds: i64, no_open: bool)
        requires
            old(self).wf(),
        ensures
            final(self).wf(),
            final(self)@ == (Session { max_windows, active_seconds, no_open, ..old(self)@ }),
            final(self).same_but_settings(old(self)),
    {
        self.max_windows = max_windows;
        self.active_seconds = active_seconds;
        self.no_open = no_open;
    }

    /// How many files have a window.
    pub fn open_count(&self) -> (r: i32)
        requires
            self.wf(),
        ensures
            r == open_total(self@.files),
    {
        self.open_count
    }

    /// The tracked files, in the order in which they came to be tracked.
    pub fn entries(&self) -> (r: &[FileEntry])
        ensures
            states(r@) == self@.files,
    {
        self.files.as_slice()
    }

    /// How many files are tracked.
    pub fn entry_count(&self) -> (r: usize)
        ensures
            r == self@.files.len(),
    {
        self.files.len()
    }

    /// A number that changes whenever the set of tracked files does.
    pub fn structure_rev(&self) -> (r: u64)
        ensures
            r == self@.structure_rev,
    {
        self.structure_rev
    }

    /// How many directories hold tracked files.
    pub fn dir_count(&self) -> (r: usize)
        requires
            self.wf(),
        ensures
            r == dir_keys(self@.os, self@.files).len(),
    {
        proof {
            strings::views(self.dirs@).unique_seq_to_set();
        }
        self.dirs.len()
    }

    /// Whether a file was turned away because its directory was one too many.
    pub fn dir_overflow(&self) -> (r: bool)
        ensures
            r == self@.dir_overflow,
    {
        self.dir_overflow
    }

    /// Whether a file was turned away because every tracked file has a window.
    pub fn file_overflow(&self) -> (r: bool)
        ensures
            r == self@.file_overflow,
    {
        self.file_overflow
    }

    /// How many files made room for others.
    pub fn evicted_total(&self) -> (r: u64)
        ensures
            r == self@.evicted_total,
    {
        self.evicted_total
    }

    /// The naming rules in force.
    pub fn os(&self) -> (r: Os)
        ensures
            r == self@.os,
    {
        self.os
    }
}

// ---------------------------------------------------------------------------------------------
// Lemmas
// ---------------------------------------------------------------------------------------------

proof fn lemma_open_total_bounds(files: Seq<File>)
    ensures
        0 <= open_total(files) <= files.len(),
    decreases files.len(),
{
    if files.len() > 0 {
        lemma_open_total_bounds(files.drop_last());
    }
}

proof fn lemma_open_total_update(files: Seq<File>, i: int, f: File)
    requires
        0 <= i < files.len(),
    ensures
        open_total(files.update(i, f)) == open_total(files) - one_if(files[i].window_open)
            + one_if(f.window_open),
    decreases files.len(),
{
    let g = files.update(i, f);
    if i < files.len() - 1 {
        lemma_open_total_update(files.drop_last(), i, f);
        assert(g.drop_last() =~= files.drop_last().update(i, f));
        assert(g.last() == files.last());
    } else {
        assert(g.drop_last() =~= files.drop_last());
    }
}

proof fn lemma_open_total_remove(files: Seq<File>, i: int)
    requires
        0 <= i < files.len(),
    ensures
        open_total(files.remove(i)) == open_total(files) - one_if(files[i].window_open),
    decreases files.len(),
{
    let g = files.remove(i);
    if i < files.len() - 1 {
        lemma_open_total_remove(files.drop_last(), i);
        assert(g.drop_last() =~= files.drop_last().remove(i));
        assert(g.last() == files.last());
    } else {
        assert(g =~= files.drop_last());
    }
}

/// A file's place holds the file with that identity, and every such file has a place.
pub proof fn lemma_position(os: Os, files: Seq<File>, key: Seq<char>)
    ensures
        match position(os, files, key) {
            Some(i) => 0 <= i < files.len() && fskey::key_of(os, files[i].path) == key,
            None => forall|i: int|
                0 <= i < files.len() ==> fskey::key_of(os, #[trigger] files[i].path) != key,
        },
    decreases files.len(),
{
    if files.len() > 0 {
        lemma_position(os, files.drop_last(), key);
        let init = files.drop_last();
        match position(os, init, key) {
            Some(i) => {
                assert(init[i] == files[i]);
            },
            None => {
                assert forall|i: int|
                    0 <= i < files.len() && position(os, files, key) is None implies fskey::key_of(
                    os,
                    #[trigger] files[i].path,
                ) != key by {
                    if i < files.len() - 1 {
                        assert(init[i].path == files[i].path);
                    }
                }
            },
        }
    }
}

/// Where identities are distinct, a file that has the identity is the one with the place.
pub proof fn lemma_position_is(os: Os, files: Seq<File>, key: Seq<char>, i: int)
    requires
        distinct(os, files),
        0 <= i < files.len(),
        fskey::key_of(os, files[i].path) == key,
    ensures
        position(os, files, key) == Some(i),
{
    lemma_position(os, files, key);
    let j = position(os, files, key)->0;
    if j < i {
        assert(fskey::key_of(os, files[j].path) != fskey::key_of(os, files[i].path));
    } else if i < j {
        assert(fskey::key_of(os, files[i].path) != fskey::key_of(os, files[j].path));
    }
}

/// A directory is counted exactly when a tracked file lies in it.
pub proof fn lemma_dir_keys(os: Os, files: Seq<File>, d: Seq<char>)
    ensures
        dir_keys(os, files).contains(d) <==> exists|i: int|
            0 <= i < files.len() && dir_key(os, #[trigger] files[i].path) == d,
        dir_keys(os, files).finite(),
{
    let ds = files.map_values(|f: File| dir_key(os, f.path));
    if dir_keys(os, files).contains(d) {
        let i = choose|i: int| 0 <= i < ds.len() && ds[i] == d;
        assert(dir_key(os, files[i].path) == d);
    }
    if exists|i: int| 0 <= i < files.len() && dir_key(os, #[trigger] files[i].path) == d {
        let i = choose|i: int| 0 <= i < files.len() && dir_key(os, #[trigger] files[i].path) == d;
        assert(ds[i] == d);
    }
}

fn counter_next(c: u64) -> (r: u64)
    ensures
        r == counter_plus(c, 1),
{
    if c == u64::MAX {
        0
    } else {
        c + 1
    }
}

/// The identity of a path's directory.
fn dir_key_of(os: Os, path: &str) -> (r: String)
    ensures
        r@ == dir_key(os, path@),
{
    fskey::fs_key_str(os, paths::parent_of(os, path).as_str())
}

/// Where a string stands among others.
fn index_in(v: &[String], s: &str) -> (r: Option<usize>)
    ensures
        match r {
            Some(i) => i < v@.len() && v@[i as int]@ == s@,
            None => forall|i: int| 0 <= i < v@.len() ==> (#[trigger] v@[i])@ != s@,
        },
{
    let mut i: usize = 0;
    while i < v.len()
        invariant
            i <= v@.len(),
            forall|k: int| 0 <= k < i ==> (#[trigger] v@[k])@ != s@,
        decreases v@.len() - i,
    {
        if strings::same_str(v[i].as_str(), s) {
            return Some(i);
        }
        i += 1;
    }
    None
}

impl SessionModel {
    /// Where the file at `path` stands.
    fn find(&self, path: &str) -> (r: Option<usize>)
        requires
            self.wf(),
        ensures
            match r {
                Some(i) => i < self.files@.len() && place(self@, path@) == Some(i as int),
                None => place(self@, path@) is None,
            },
    {
        let key = fskey::fs_key_str(self.os, path);
        let r = index_in(self.keys.as_slice(), key.as_str());
        proof {
            lemma_position(self@.os, self@.files, key@);
            match r {
                Some(i) => {
                    assert(self@.files[i as int].path == self.files@[i as int].path@);
                    lemma_position_is(self@.os, self@.files, key@, i as int);
                },
                None => {
                    match position(self@.os, self@.files, key@) {
                        Some(j) => {
                            assert(self@.files[j].path == self.files@[j].path@);
                            assert(self.keys@[j]@ == key@);
                        },
                        None => {},
                    }
                },
            }
        }
        r
    }

    /// The file to give up when one more comes.
    fn pick_eviction_victim(&self) -> (r: Option<usize>)
        ensures
            match r {
                Some(i) => i < self.files@.len() && victim(self@.files) == Some(i as int),
                None => victim(self@.files) is None,
            },
    {
        match self.pick_oldest(true) {
            Some(i) => Some(i),
            None => self.pick_oldest(false),
        }
    }

    fn pick_oldest(&self, missing: bool) -> (r: Option<usize>)
        ensures
            match r {
                Some(i) => i < self.files@.len() && oldest(self@.files, missing) == Some(i as int),
                None => oldest(self@.files, missing) is None,
            },
    {
        let mut best: Option<usize> = None;
        let mut i: usize = 0;
        while i < self.files.len()
            invariant
                i <= self.files@.len(),
                match best {
                    Some(b) => b < i && oldest(self@.files.take(i as int), missing) == Some(
                        b as int,
                    ),
                    None => oldest(self@.files.take(i as int), missing) is None,
                },
            decreases self.files@.len() - i,
        {
            let e = &self.files[i];
            proof {
                let next = self@.files.take(i as int + 1);
                assert(next.drop_last() =~= self@.files.take(i as int));
                assert(next.last() == e@);
                if let Some(b) = best {
                    assert(next[b as int] == self.files@[b as int]@);
                }
            }
            if !e.window_open && !(missing && !e.missing) {
                match best {
                    Some(b) => {
                        if rank_of(e) < rank_of(&self.files[b]) {
                            best = Some(i);
                        }
                    },
                    None => {
                        best = Some(i);
                    },
                }
            }
            i += 1;
        }
        assert(self@.files.take(i as int) =~= self@.files);
        best
    }

    /// Stops tracking the `i`-th file.
    fn remove_entry(&mut self, i: usize)
        requires
            old(self).wf(),
            i < old(self)@.files.len(),
        ensures
            final(self).wf(),
            final(self)@ == without(old(self)@, i as int),
    {
        let ghost before = *self;
        let ghost fs = self@.files;
        let entry = self.files.remove(i);
        let _key = self.keys.remove(i);
        proof {
            lemma_open_total_remove(fs, i as int);
            lemma_open_total_bounds(fs.remove(i as int));
            assert(states(self.files@) =~= fs.remove(i as int));
        }
        if entry.window_open {
            self.open_count = self.open_count - 1;
        }
        let dkey = dir_key_of(self.os, entry.path.as_str());
        if !self.dir_in_use(dkey.as_str()) {
            self.forget_dir(dkey.as_str());
        }
        self.structure_rev = counter_next(self.structure_rev);
        proof {
            let now = self@.files;
            assert(now =~= fs.remove(i as int));
            assert(distinct(self.os, now)) by {
                assert forall|a: int, b: int| 0 <= a < b < now.len() implies fskey::key_of(
                    self.os,
                    #[trigger] now[a].path,
                ) != fskey::key_of(self.os, #[trigger] now[b].path) by {
                    let a2 = if a < i {
                        a
                    } else {
                        a + 1
                    };
                    let b2 = if b < i {
                        b
                    } else {
                        b + 1
                    };
                    assert(now[a].path == fs[a2].path && now[b].path == fs[b2].path);
                }
            }
            assert forall|k: int| 0 <= k < self.keys@.len() implies (
            #[trigger] self.keys@[k])@ == fskey::key_of(self.os, self.files@[k].path@) by {
                let k2 = if k < i {
                    k
                } else {
                    k + 1
                };
                assert(self.keys@[k] == before.keys@[k2]);
                assert(self.files@[k] == before.files@[k2]);
            }
            assert forall|d: Seq<char>|
                strings::views(self.dirs@).to_set().contains(d) <==> dir_keys(
                    self.os,
                    now,
                ).contains(d) by {
                lemma_dir_keys(self.os, now, d);
                lemma_dir_keys(self.os, fs, d);
                assert(strings::views(before.dirs@).to_set().contains(d) <==> dir_keys(
                    self.os,
                    fs,
                ).contains(d));
                if d != dkey@ {
                    if dir_keys(self.os, fs).contains(d) {
                        let k = choose|k: int|
                            0 <= k < fs.len() && dir_key(self.os, #[trigger] fs[k].path) == d;
                        assert(k != i);
                        let k2 = if k < i {
                            k
                        } else {
                            k - 1
                        };
                        assert(now[k2].path == fs[k].path);
                    }
                    if dir_keys(self.os, now).contains(d) {
                        let k = choose|k: int|
                            0 <= k < now.len() && dir_key(self.os, #[trigger] now[k].path) == d;
                        let k2 = if k < i {
                            k
                        } else {
                            k + 1
                        };
                        assert(now[k].path == fs[k2].path);
                    }
                } else {
                    assert(fs[i as int].path == entry.path@);
                }
            }
        }
    }

    /// Whether a tracked file lies in the directory with the given identity.
    fn dir_in_use(&self, dkey: &str) -> (r: bool)
        ensures
            r == dir_keys(self.os, states(self.files@)).contains(dkey@),
    {
        proof {
            lemma_dir_keys(self.os, states(self.files@), dkey@);
        }
        let mut i: usize = 0;
        while i < self.files.len()
            invariant
                i <= self.files@.len(),
                forall|k: int|
                    0 <= k < i ==> dir_key(self.os, #[trigger] states(self.files@)[k].path)
                        != dkey@,
            decreases self.files@.len() - i,
        {
            let d = dir_key_of(self.os, self.files[i].path.as_str());
            if strings::same_str(d.as_str(), dkey) {
                proof {
                    assert(dir_key(self.os, states(self.files@)[i as int].path) == dkey@);
                    lemma_dir_keys(self.os, states(self.files@), dkey@);
                }
                return true;
            }
            i += 1;
        }
        proof {
            lemma_dir_keys(self.os, states(self.files@), dkey@);
        }
        false
    }

    /// Drops a directory from the table of directories.
    fn forget_dir(&mut self, dkey: &str)
        requires
            strings::views(old(self).dirs@).no_duplicates(),
        ensures
            *final(self) == (SessionModel { dirs: final(self).dirs, ..*old(self) }),
            strings::views(final(self).dirs@).no_duplicates(),
            final(self).dirs@.len() <= old(self).dirs@.len(),
            strings::views(final(self).dirs@).to_set() =~= strings::views(
                old(self).dirs@,
            ).to_set().remove(dkey@),
    {
        let ghost was = strings::views(self.dirs@);
        match index_in(self.dirs.as_slice(), dkey) {
            Some(j) => {
                assert(was[j as int] == dkey@);
                self.dirs.remove(j);
                proof {
                    let now = strings::views(self.dirs@);
                    assert(now =~= was.remove(j as int));
                    assert forall|d: Seq<char>| now.to_set().contains(d) <==> was.to_set().remove(
                        dkey@,
                    ).contains(d) by {
                        if now.to_set().contains(d) {
                            let k = choose|k: int| 0 <= k < now.len() && now[k] == d;
                            let k2 = if k < j {
                                k
                            } else {
                                k + 1
                            };
                            assert(was[k2] == d);
                            assert(was[j as int] != was[k2]);
                        }
                        if was.to_set().remove(dkey@).contains(d) {
                            let k = choose|k: int| 0 <= k < was.len() && was[k] == d;
                            let k2 = if k < j {
                                k
                            } else {
                                k - 1
                            };
                            assert(now[k2] == d);
                        }
                    }
                    assert forall|a: int, b: int|
                        0 <= a < now.len() && 0 <= b < now.len() && a != b implies now[a]
                        != now[b] by {
                        let a2 = if a < j {
                            a
                        } else {
                            a + 1
                        };
                        let b2 = if b < j {
                            b
                        } else {
                            b + 1
                        };
                        assert(was[a2] != was[b2]);
                    }
                }
            },
            None => {
                assert(!was.to_set().contains(dkey@)) by {
                    if was.contains(dkey@) {
                        let k = choose|k: int| 0 <= k < was.len() && was[k] == dkey@;
                        assert(self.dirs@[k]@ == dkey@);
                    }
                }
            },
        }
    }
}

fn rank_of(e: &FileEntry) -> (r: i128)
    ensures
        r == rank(e@),
{
    match e.last_activity {
        Some(t) => t as i128,
        None => i64::MIN as i128 - 1,
    }
}

impl SessionModel {
    /// Starts to track one more file.
    fn insert_entry(&mut self, path: &str)
        requires
            old(self).wf(),
            place(old(self)@, path@) is None,
            old(self)@.files.len() < MAX_FILES,
            dir_keys(old(self)@.os, old(self)@.files).contains(dir_key(old(self)@.os, path@))
                || dir_keys(old(self)@.os, old(self)@.files).len() < MAX_DIR_BOXES,
        ensures
            final(self).wf(),
            final(self)@ == with_file(old(self)@, path@),
    {
        let ghost before = *self;
        let ghost fs = self@.files;
        let dkey = dir_key_of(self.os, path);
        proof {
            strings::views(self.dirs@).unique_seq_to_set();
            lemma_position(self@.os, fs, fskey::key_of(self@.os, path@));
        }
        match index_in(self.dirs.as_slice(), dkey.as_str()) {
            Some(j) => {
                assert(strings::views(self.dirs@)[j as int] == dkey@);
            },
            None => {
                let ghost was = strings::views(self.dirs@);
                proof {
                    if was.contains(dkey@) {
                        let k = choose|k: int| 0 <= k < was.len() && was[k] == dkey@;
                        assert(self.dirs@[k]@ == dkey@);
                    }
                    strings::lemma_views_push(self.dirs@, dkey);
                }
                self.dirs.push(dkey.clone());
                assert(strings::views(self.dirs@) =~= was.push(dkey@));
                assert(strings::views(self.dirs@).to_set() =~= was.to_set().insert(dkey@)) by {
                    broadcast use vstd::seq_lib::group_seq_properties;

                    was.lemma_push_to_set_commute(dkey@);
                }
            },
        }
        self.keys.push(fskey::fs_key_str(self.os, path));
        self.files.push(FileEntry::new(path));
        self.structure_rev = counter_next(self.structure_rev);
        proof {
            let now = self@.files;
            assert(now =~= fs.push(fresh(path@)));
            assert(now.drop_last() =~= fs);
            assert(distinct(self.os, now)) by {
                assert forall|a: int, b: int| 0 <= a < b < now.len() implies fskey::key_of(
                    self.os,
                    #[trigger] now[a].path,
                ) != fskey::key_of(self.os, #[trigger] now[b].path) by {
                    assert(now[a].path == fs[a].path);
                    if b < fs.len() {
                        assert(now[b].path == fs[b].path);
                    }
                }
            }
            assert forall|d: Seq<char>|
                strings::views(self.dirs@).to_set().contains(d) <==> dir_keys(
                    self.os,
                    now,
                ).contains(d) by {
                lemma_dir_keys(self.os, now, d);
                lemma_dir_keys(self.os, fs, d);
                assert(strings::views(before.dirs@).to_set().contains(d) <==> dir_keys(
                    self.os,
                    fs,
                ).contains(d));
                if dir_keys(self.os, fs).contains(d) {
                    let k = choose|k: int|
                        0 <= k < fs.len() && dir_key(self.os, #[trigger] fs[k].path) == d;
                    assert(now[k].path == fs[k].path);
                }
                if d == dkey@ {
                    assert(dir_key(self.os, now[fs.len() as int].path) == d);
                }
                if dir_keys(self.os, now).contains(d) {
                    let k = choose|k: int|
                        0 <= k < now.len() && dir_key(self.os, #[trigger] now[k].path) == d;
                    if k < fs.len() {
                        assert(now[k].path == fs[k].path);
                    }
                }
            }
        }
    }

    /// Tracks `path` if the limits allow it, and says where it stands. A file in a directory that
    /// is one too many is turned away. When the model is full the least useful file makes room;
    /// where every file has a window, the newcomer is turned away.
    fn add_or_drop(&mut self, path: &str) -> (r: Option<usize>)
        requires
            old(self).wf(),
        ensures
            final(self).wf(),
            final(self)@ == admitted(old(self)@, path@),
            match r {
                Some(i) => i < final(self)@.files.len() && place(final(self)@, path@) == Some(
                    i as int,
                ),
                None => place(final(self)@, path@) is None,
            },
    {
        let ghost s0 = self@;
        if let Some(i) = self.find(path) {
            return Some(i);
        }
        let dkey = dir_key_of(self.os, path);
        proof {
            strings::views(self.dirs@).unique_seq_to_set();
            let was = strings::views(self.dirs@);
            assert forall|k: int| 0 <= k < self.dirs@.len() implies was[k] == (
            #[trigger] self.dirs@[k])@ by {}
            if was.to_set().contains(dkey@) {
                let k = choose|k: int| 0 <= k < was.len() && was[k] == dkey@;
                assert(self.dirs@[k]@ == dkey@);
            }
        }
        let known = index_in(self.dirs.as_slice(), dkey.as_str());
        proof {
            if let Some(j) = known {
                assert(strings::views(self.dirs@)[j as int] == dkey@);
            }
            assert(dir_keys(s0.os, s0.files).contains(dkey@) == (known is Some));
        }
        if known.is_none() && self.dirs.len() >= MAX_DIR_BOXES {
            self.dir_overflow = true;
            return None;
        }
        if self.files.len() >= MAX_FILES {
            match self.pick_eviction_victim() {
                Some(v) => {
                    self.remove_entry(v);
                    self.evicted_total = counter_next(self.evicted_total);
                    proof {
                        lemma_removal_frees(s0, v as int, path@);
                    }
                },
                None => {
                    self.file_overflow = true;
                    return None;
                },
            }
        }
        self.insert_entry(path);
        proof {
            lemma_place_of_newcomer(self@, path@);
        }
        Some(self.files.len() - 1)
    }
}

/// Giving up a file gives no other file a place and opens no new directory.
proof fn lemma_removal_frees(s: Session, v: int, path: Seq<char>)
    requires
        0 <= v < s.files.len(),
        place(s, path) is None,
    ensures
        place(without(s, v), path) is None,
        dir_keys(s.os, s.files.remove(v)).subset_of(dir_keys(s.os, s.files)),
        dir_keys(s.os, s.files.remove(v)).len() <= dir_keys(s.os, s.files).len(),
        // A directory that was one of many still is, or there is room for it again.
        dir_keys(s.os, s.files).contains(dir_key(s.os, path)) && !dir_keys(
            s.os,
            s.files.remove(v),
        ).contains(dir_key(s.os, path)) ==> dir_keys(s.os, s.files.remove(v)).len() < dir_keys(
            s.os,
            s.files,
        ).len(),
{
    let key = fskey::key_of(s.os, path);
    let rest = s.files.remove(v);
    lemma_position(s.os, s.files, key);
    lemma_position(s.os, rest, key);
    if let Some(j) = position(s.os, rest, key) {
        let j2 = if j < v {
            j
        } else {
            j + 1
        };
        assert(rest[j].path == s.files[j2].path);
    }
    let all = dir_keys(s.os, s.files);
    let left = dir_keys(s.os, rest);
    assert forall|d: Seq<char>| left.contains(d) implies all.contains(d) by {
        lemma_dir_keys(s.os, rest, d);
        lemma_dir_keys(s.os, s.files, d);
        let k = choose|k: int| 0 <= k < rest.len() && dir_key(s.os, #[trigger] rest[k].path) == d;
        let k2 = if k < v {
            k
        } else {
            k + 1
        };
        assert(rest[k].path == s.files[k2].path);
    }
    lemma_dir_keys(s.os, s.files, dir_key(s.os, path));
    lemma_dir_keys(s.os, rest, dir_key(s.os, path));
    vstd::set_lib::lemma_len_subset(left, all);
    let d = dir_key(s.os, path);
    if all.contains(d) && !left.contains(d) {
        assert(left.subset_of(all.remove(d)));
        vstd::set_lib::lemma_len_subset(left, all.remove(d));
    }
}

/// The file that came last has the last place.
proof fn lemma_place_of_newcomer(s: Session, path: Seq<char>)
    requires
        distinct(s.os, s.files),
        s.files.len() > 0,
        s.files.last().path == path,
    ensures
        place(s, path) == Some(s.files.len() - 1),
{
    lemma_position_is(s.os, s.files, fskey::key_of(s.os, path), s.files.len() - 1);
}

/// A change in one file's state, its path aside, keeps the invariant.
proof fn lemma_state_change(a: SessionModel, b: SessionModel, i: int, e: FileEntry)
    requires
        a.wf(),
        0 <= i < a.files@.len(),
        b == (SessionModel { files: b.files, open_count: b.open_count, ..a }),
        b.files@ == a.files@.update(i, e),
        e.path@ == a.files@[i].path@,
        b.open_count == a.open_count - one_if(a.files@[i].window_open) + one_if(e.window_open),
    ensures
        b.wf(),
        b@ == with_state(a@, i, e@),
{
    let fa = a@.files;
    let fb = b@.files;
    assert(fb =~= fa.update(i, e@));
    lemma_open_total_update(fa, i, e@);
    assert forall|k: int| 0 <= k < fb.len() implies fa[k].path == (#[trigger] fb[k]).path by {}
    assert(distinct(b.os, fb)) by {
        assert forall|x: int, y: int| 0 <= x < y < fb.len() implies fskey::key_of(
            b.os,
            #[trigger] fb[x].path,
        ) != fskey::key_of(b.os, #[trigger] fb[y].path) by {
            assert(fb[x].path == fa[x].path && fb[y].path == fa[y].path);
        }
    }
    assert forall|k: int| 0 <= k < b.keys@.len() implies (#[trigger] b.keys@[k])@
        == fskey::key_of(b.os, b.files@[k].path@) by {
        assert(a.keys@[k]@ == fskey::key_of(a.os, a.files@[k].path@));
    }
    assert(fa.map_values(|f: File| dir_key(a.os, f.path)) =~= fb.map_values(
        |f: File| dir_key(a.os, f.path),
    ));
}

impl SessionModel {
    /// Stops tracking `path`.
    pub fn remove(&mut self, path: &str)
        requires
            old(self).wf(),
        ensures
            final(self).wf(),
            final(self)@ == (match place(old(self)@, path@) {
                Some(i) => without(old(self)@, i),
                None => old(self)@,
            }),
    {
        if let Some(i) = self.find(path) {
            self.remove_entry(i);
        }
    }

    /// The entry of `path`, which comes to be tracked if it was not. There is none for a file that
    /// the limits turn away. The path and the window of the entry are the model's: as long as the
    /// holder leaves those two alone the model stays sound.
    pub fn get_or_add(&mut self, path: &str) -> (r: Option<&mut FileEntry>)
        requires
            old(self).wf(),
        ensures
            match r {
                Some(e) => {
                    let a = admitted(old(self)@, path@);
                    let i = place(a, path@);
                    &&& i is Some
                    &&& (*e)@ == a.files[i->0]
                    &&& final(self)@ == with_state(a, i->0, (*final(e))@)
                    &&& (*final(e))@.path == (*e)@.path && (*final(e)).window_open
                        == (*e).window_open ==> final(self).wf()
                },
                None => {
                    &&& place(admitted(old(self)@, path@), path@) is None
                    &&& final(self)@ == admitted(old(self)@, path@)
                    &&& final(self).wf()
                },
            },
    {
        match self.add_or_drop(path) {
            Some(i) => {
                let ghost mid = *self;
                proof {
                    assert forall|b: SessionModel, fe: FileEntry|
                        #![trigger b.wf(), fe@]
                        #![trigger b@, fe@]
                        b == (SessionModel { files: b.files, ..mid }) && b.files@
                            == mid.files@.update(i as int, fe) implies b@ == with_state(
                        mid@,
                        i as int,
                        fe@,
                    ) && (fe.path@ == mid.files@[i as int].path@ && fe.window_open
                        == mid.files@[i as int].window_open ==> b.wf()) by {
                        assert(states(b.files@) =~= states(mid.files@).update(i as int, fe@));
                        if fe.path@ == mid.files@[i as int].path@ && fe.window_open
                            == mid.files@[i as int].window_open {
                            lemma_state_change(mid, b, i as int, fe);
                        }
                    }
                }
                let e = &mut self.files[i];
                Some(e)
            },
            None => None,
        }
    }

    /// Whether the file at `path` has a window.
    pub fn is_open(&self, path: &str) -> (r: bool)
        requires
            self.wf(),
        ensures
            r == (match place(self@, path@) {
                Some(i) => self@.files[i].window_open,
                None => false,
            }),
    {
        match self.find(path) {
            Some(i) => self.files[i].window_open,
            None => false,
        }
    }

    /// Takes note of a write, and says whether it calls for a window.
    pub fn mark_activity(&mut self, path: &str, now: i64) -> (r: bool)
        requires
            old(self).wf(),
        ensures
            final(self).wf(),
            final(self)@ == after_activity(old(self)@, path@, now),
            r == activity_wants_window(old(self)@, path@),
    {
        match self.add_or_drop(path) {
            Some(i) => {
                let ghost mid = *self;
                let e = &mut self.files[i];
                e.missing = false;
                e.missing_since = None;
                e.last_activity = Some(now);
                proof {
                    lemma_state_change(mid, *self, i as int, self.files@[i as int]);
                }
                !self.no_open && !self.files[i].user_closed && !self.files[i].window_open
            },
            None => false,
        }
    }

    /// Takes note that a file is there.
    pub fn clear_missing(e: &mut FileEntry)
        ensures
            final(e)@ == present(old(e)@),
    {
        e.missing = false;
        e.missing_since = None;
    }

    /// A file that changed while it had no window is unread.
    pub fn mark_unread_if_closed(&mut self, path: &str)
        requires
            old(self).wf(),
        ensures
            final(self).wf(),
            final(self)@ == after_unread(old(self)@, path@),
    {
        if let Some(i) = self.add_or_drop(path) {
            if !self.files[i].window_open {
                let ghost mid = *self;
                let e = &mut self.files[i];
                e.unread = true;
                proof {
                    lemma_state_change(mid, *self, i as int, self.files@[i as int]);
                }
            }
        }
    }

    /// Asks for a window. None opens beyond the allowed number.
    pub fn try_open(&mut self, path: &str) -> (r: OpenResult)
        requires
            old(self).wf(),
        ensures
            final(self).wf(),
            final(self)@ == after_open(old(self)@, path@),
            r == open_outcome(old(self)@, path@),
    {
        let cap = self.max_windows;
        let count = self.open_count;
        match self.add_or_drop(path) {
            Some(i) => {
                proof {
                    lemma_admission_keeps_windows(old(self)@, path@);
                    lemma_open_total_bounds(self@.files);
                }
                if self.files[i].window_open {
                    return OpenResult::AlreadyOpen;
                }
                if count >= cap {
                    return OpenResult::BlockedByCap;
                }
                let ghost mid = *self;
                let e = &mut self.files[i];
                e.window_open = true;
                e.user_closed = false;
                e.unread = false;
                self.open_count = self.open_count + 1;
                proof {
                    lemma_state_change(mid, *self, i as int, self.files@[i as int]);
                }
                OpenResult::Opened
            },
            None => OpenResult::BlockedByCap,
        }
    }

    /// The user closed a window. It stays closed until they open it again.
    pub fn mark_closed(&mut self, path: &str)
        requires
            old(self).wf(),
        ensures
            final(self).wf(),
            final(self)@ == after_close(old(self)@, path@),
    {
        if let Some(i) = self.find(path) {
            if self.files[i].window_open {
                let ghost mid = *self;
                proof {
                    lemma_open_total_update(
                        self@.files,
                        i as int,
                        File { window_open: false, ..self@.files[i as int] },
                    );
                    lemma_open_total_bounds(
                        self@.files.update(
                            i as int,
                            File { window_open: false, ..self@.files[i as int] },
                        ),
                    );
                }
                let e = &mut self.files[i];
                e.window_open = false;
                e.user_closed = true;
                self.open_count = self.open_count - 1;
                proof {
                    lemma_state_change(mid, *self, i as int, self.files@[i as int]);
                }
            }
        }
    }

    /// Takes note that a file is gone. The first such note sets the time.
    pub fn mark_missing(&mut self, path: &str, now: i64)
        requires
            old(self).wf(),
        ensures
            final(self).wf(),
            final(self)@ == after_missing(old(self)@, path@, now),
    {
        if let Some(i) = self.find(path) {
            let ghost mid = *self;
            let e = &mut self.files[i];
            e.missing = true;
            if e.missing_since.is_none() {
                e.missing_since = Some(now);
            }
            proof {
                lemma_state_change(mid, *self, i as int, self.files@[i as int]);
            }
        }
    }

    /// Stops tracking the files without a window that have been gone for `grace_secs` or more, and
    /// returns their paths.
    pub fn prune_missing(&mut self, now: i64, grace_secs: i64) -> (r: Vec<String>)
        requires
            old(self).wf(),
        ensures
            final(self).wf(),
            final(self)@ == after_prune(old(self)@, now, grace_secs),
            strings::views(r@) == gone_paths(old(self)@.files, now, grace_secs),
    {
        let ghost s0 = self@;
        let ghost all = self@.files;
        let ghost mut p: int = 0;
        let mut removed: Vec<String> = Vec::new();
        let mut i: usize = 0;
        proof {
            assert(all.take(0) =~= Seq::<File>::empty());
            assert(survivors(all.take(0), now, grace_secs) =~= Seq::<File>::empty());
            assert(all.skip(0) =~= all);
            assert(strings::views(removed@) =~= Seq::<Seq<char>>::empty());
            assert(Seq::<File>::empty() + all =~= all);
        }
        while i < self.files.len()
            invariant
                self.wf(),
                0 <= p <= all.len(),
                i == survivors(all.take(p), now, grace_secs).len(),
                self@ == (Session {
                    files: survivors(all.take(p), now, grace_secs) + all.skip(p),
                    structure_rev: counter_plus(s0.structure_rev, removed@.len()),
                    ..s0
                }),
                strings::views(removed@) == gone_paths(all.take(p), now, grace_secs),
            decreases self.files@.len() - i,
        {
            let gone = {
                let e = &self.files[i];
                !e.window_open && since_at_least(e.missing_since, now, grace_secs)
            };
            proof {
                assert(self@.files.len() == self.files@.len());
                assert(p < all.len());
                assert(self@.files[i as int] == all[p]);
                assert(all.take(p + 1).drop_last() =~= all.take(p));
                assert(all.take(p + 1).last() == all[p]);
                assert(gone == long_gone(all[p], now, grace_secs));
            }
            if gone {
                let path = self.files[i].path.clone();
                self.remove_entry(i);
                proof {
                    strings::lemma_views_push(removed@, path);
                    let kept = survivors(all.take(p), now, grace_secs);
                    assert((kept + all.skip(p)).remove(i as int) =~= kept + all.skip(p + 1));
                }
                removed.push(path);
            } else {
                proof {
                    let kept = survivors(all.take(p), now, grace_secs);
                    assert(kept.push(all[p]) + all.skip(p + 1) =~= kept + all.skip(p));
                }
                i += 1;
            }
            proof {
                p = p + 1;
            }
        }
        proof {
            assert(self@.files.len() == self.files@.len());
            assert(p == all.len());
            assert(all.take(p) =~= all);
            assert(all.skip(p) =~= Seq::<File>::empty());
            let kept = survivors(all, now, grace_secs);
            assert(kept + Seq::<File>::empty() =~= kept);
            assert(strings::views(removed@).len() == removed@.len());
        }
        removed
    }

    /// Forgets every file.
    pub fn reset(&mut self)
        requires
            old(self).wf(),
        ensures
            final(self).wf(),
            final(self)@ == after_reset(old(self)@),
    {
        assert(self@.files.len() == self.files@.len());
        if self.files.len() > 0 {
            self.structure_rev = counter_next(self.structure_rev);
        }
        self.keys = Vec::new();
        self.files = Vec::new();
        self.dirs = Vec::new();
        self.dir_overflow = false;
        self.file_overflow = false;
        self.open_count = 0;
        assert(self@.files =~= Seq::<File>::empty());
        assert(strings::views(self.dirs@).to_set() =~= dir_keys(self.os, self@.files));
    }

    /// What a file's button shows.
    pub fn vis_entry(&self, e: &FileEntry, now: i64) -> (r: ButtonVis)
        ensures
            r == appearance(e@, self@.active_seconds, now),
    {
        if e.missing {
            return ButtonVis::Missing;
        }
        let active = match e.last_activity {
            Some(t) => now as i128 - t as i128 <= self.active_seconds as i128,
            None => false,
        };
        if e.window_open {
            if active {
                ButtonVis::ActiveOpen
            } else {
                ButtonVis::Open
            }
        } else if active {
            ButtonVis::ActiveClosed
        } else if e.unread {
            ButtonVis::Unread
        } else {
            ButtonVis::Idle
        }
    }

    /// What the button of `path` shows; the file comes to be tracked if it was not.
    pub fn vis(&mut self, path: &str, now: i64) -> (r: ButtonVis)
        requires
            old(self).wf(),
        ensures
            final(self).wf(),
            final(self)@ == admitted(old(self)@, path@),
            r == appearance_at(final(self)@, path@, now),
    {
        match self.add_or_drop(path) {
            Some(i) => self.vis_entry(&self.files[i], now),
            None => ButtonVis::Idle,
        }
    }

    /// What the button of `path` shows; an unknown file is idle.
    pub fn vis_of(&self, path: &str, now: i64) -> (r: ButtonVis)
        requires
            self.wf(),
        ensures
            r == appearance_at(self@, path@, now),
    {
        match self.find(path) {
            Some(i) => self.vis_entry(&self.files[i], now),
            None => ButtonVis::Idle,
        }
    }
}

/// Whether a point in time lies at least `grace` seconds back.
fn since_at_least(since: Option<i64>, now: i64, grace: i64) -> (r: bool)
    ensures
        r == (since matches Some(t) && now - t >= grace),
{
    match since {
        Some(t) => now as i128 - t as i128 >= grace as i128,
        None => false,
    }
}

impl Default for SessionModel {
    fn default() -> (r: Self)
        ensures
            r.wf(),
            r@ == initial(Os::Linux),
    {
        SessionModel::new()
    }
}

// ---------------------------------------------------------------------------------------------
// Laws
// ---------------------------------------------------------------------------------------------

/// The settings may be assigned at will: the invariant does not speak of them, and nothing else of
/// the state depends on them.
pub proof fn settings_stand_apart(a: SessionModel, b: SessionModel)
    requires
        a.same_but_settings(&b),
    ensures
        a.wf() == b.wf(),
        b@ == (Session {
            active_seconds: b@.active_seconds,
            max_windows: b@.max_windows,
            no_open: b@.no_open,
            ..a@
        }),
{
}

/// What is given up has no window, is missing where any file without a window is, and was written
/// no later than any other that could have been given up instead.
pub proof fn victim_is_the_least_useful(files: Seq<File>)
    ensures
        match victim(files) {
            Some(v) => {
                &&& 0 <= v < files.len()
                &&& !files[v].window_open
                &&& forall|i: int|
                    0 <= i < files.len() && !(#[trigger] files[i]).window_open && (files[i].missing
                        || !files[v].missing) ==> rank(files[v]) <= rank(files[i])
                &&& !files[v].missing ==> forall|i: int|
                    0 <= i < files.len() && (#[trigger] files[i]).missing ==> files[i].window_open
            },
            None => forall|i: int| 0 <= i < files.len() ==> (#[trigger] files[i]).window_open,
        },
{
    lemma_oldest(files, true);
    lemma_oldest(files, false);
}

proof fn lemma_oldest(files: Seq<File>, missing: bool)
    ensures
        match oldest(files, missing) {
            Some(v) => {
                &&& 0 <= v < files.len()
                &&& !files[v].window_open
                &&& missing ==> files[v].missing
                &&& forall|i: int|
                    0 <= i < files.len() && !(#[trigger] files[i]).window_open && (missing
                        ==> files[i].missing) ==> rank(files[v]) <= rank(files[i])
            },
            None => forall|i: int|
                0 <= i < files.len() ==> (#[trigger] files[i]).window_open || (missing
                    && !files[i].missing),
        },
    decreases files.len(),
{
    if files.len() > 0 {
        let init = files.drop_last();
        lemma_oldest(init, missing);
        assert forall|i: int| 0 <= i < init.len() implies init[i] == #[trigger] files[i] by {}
    }
}

/// Letting a file in leaves every file with a window as it is, and opens none.
pub proof fn admission_keeps_open_windows(s: Session, path: Seq<char>, i: int)
    requires
        0 <= i < s.files.len(),
        s.files[i].window_open,
    ensures
        admitted(s, path).files.contains(s.files[i]),
        open_total(admitted(s, path).files) == open_total(s.files),
{
    lemma_admission_keeps_windows(s, path);
    victim_is_the_least_useful(s.files);
    let a = admitted(s, path);
    if a.files =~= s.files {
        assert(a.files[i] == s.files[i]);
    } else if s.files.len() < MAX_FILES {
        assert(a.files[i] == s.files[i]);
    } else {
        let v = victim(s.files)->0;
        let j = if i < v {
            i
        } else {
            i - 1
        };
        assert(a.files[j] == s.files[i]);
    }
}

proof fn lemma_admission_keeps_windows(s: Session, path: Seq<char>)
    ensures
        open_total(admitted(s, path).files) == open_total(s.files),
{
    victim_is_the_least_useful(s.files);
    assert(s.files.push(fresh(path)).drop_last() =~= s.files);
    if let Some(v) = victim(s.files) {
        lemma_open_total_remove(s.files, v);
        assert(s.files.remove(v).push(fresh(path)).drop_last() =~= s.files.remove(v));
    }
}

/// Windows are opened one at a time and never beyond the allowed number.
pub proof fn windows_stay_within_the_cap(s: Session, path: Seq<char>)
    requires
        distinct(s.os, s.files),
    ensures
        open_outcome(s, path) is Opened ==> open_total(after_open(s, path).files) == open_total(
            s.files,
        ) + 1 && open_total(after_open(s, path).files) <= s.max_windows,
        !(open_outcome(s, path) is Opened) ==> open_total(after_open(s, path).files)
            == open_total(s.files),
{
    lemma_admission_keeps_windows(s, path);
    let a = admitted(s, path);
    lemma_position(a.os, a.files, fskey::key_of(a.os, path));
    if open_outcome(s, path) is Opened {
        let i = place(a, path)->0;
        lemma_open_total_update(a.files, i, after_open(s, path).files[i]);
    }
}

/// A window that the user closed stays closed: no later write calls for it again.
pub proof fn closed_stays_closed(s: Session, path: Seq<char>, now: i64)
    requires
        distinct(s.os, s.files),
        place(s, path) is Some,
        s.files[place(s, path)->0].window_open,
    ensures
        !activity_wants_window(after_close(s, path), path),
        !activity_wants_window(after_activity(after_close(s, path), path, now), path),
{
    let key = fskey::key_of(s.os, path);
    lemma_position(s.os, s.files, key);
    let i = place(s, path)->0;
    let c = after_close(s, path);
    lemma_same_paths_same_places(s, c, path);
    let d = after_activity(c, path, now);
    lemma_same_paths_same_places(c, d, path);
}

/// A write that calls for a window gets one, as long as the number allows.
pub proof fn a_called_for_window_opens(s: Session, path: Seq<char>, now: i64)
    requires
        activity_wants_window(s, path),
        open_total(s.files) < s.max_windows,
    ensures
        open_outcome(after_activity(s, path, now), path) is Opened,
        after_open(after_activity(s, path, now), path).files[place(
            admitted(s, path),
            path,
        )->0].window_open,
{
    let a = admitted(s, path);
    lemma_position(a.os, a.files, fskey::key_of(a.os, path));
    let i = place(a, path)->0;
    let b = after_activity(s, path, now);
    lemma_same_paths_same_places(a, b, path);
    lemma_admission_keeps_windows(s, path);
    lemma_open_total_update(a.files, i, b.files[i]);
}

/// A file, if it is tracked at all, has no window because the user closed it.
pub open spec fn is_closed(s: Session, path: Seq<char>) -> bool {
    forall|i: int|
        0 <= i < s.files.len() && fskey::key_of(s.os, #[trigger] s.files[i].path)
            == fskey::key_of(s.os, path) ==> s.files[i].user_closed && !s.files[i].window_open
}

/// Letting another file in opens no closed window.
pub proof fn lemma_closed_on_admission(s: Session, other: Seq<char>, path: Seq<char>)
    requires
        is_closed(s, path),
        fskey::key_of(s.os, other) != fskey::key_of(s.os, path) || place(s, path) is Some,
    ensures
        is_closed(admitted(s, other), path),
{
    let a = admitted(s, other);
    victim_is_the_least_useful(s.files);
    assert forall|i: int|
        0 <= i < a.files.len() && fskey::key_of(a.os, #[trigger] a.files[i].path) == fskey::key_of(
            a.os,
            path,
        ) implies a.files[i].user_closed && !a.files[i].window_open by {
        if a.files == s.files || s.files.len() < MAX_FILES {
            if i < s.files.len() {
                assert(a.files[i] == s.files[i]);
            }
        } else if i < a.files.len() - 1 {
            let v = victim(s.files)->0;
            let k = if i < v {
                i
            } else {
                i + 1
            };
            assert(a.files[i] == s.files[k]);
        }
    }
}

/// A change of a file's state that opens no window opens no closed window.
pub proof fn lemma_closed_on_change(s: Session, i: int, f: File, path: Seq<char>)
    requires
        is_closed(s, path),
        0 <= i < s.files.len(),
        f.path == s.files[i].path,
        f.user_closed == s.files[i].user_closed,
        f.window_open == s.files[i].window_open,
    ensures
        is_closed(with_state(s, i, f), path),
{
    let t = with_state(s, i, f);
    assert forall|j: int|
        0 <= j < t.files.len() && fskey::key_of(t.os, #[trigger] t.files[j].path) == fskey::key_of(
            t.os,
            path,
        ) implies t.files[j].user_closed && !t.files[j].window_open by {
        assert(s.files[j].path == t.files[j].path);
    }
}

/// A file that was written keeps its place.
pub proof fn lemma_place_after_activity(s: Session, path: Seq<char>, now: i64)
    ensures
        place(after_activity(s, path, now), path) == place(admitted(s, path), path),
{
    let a = admitted(s, path);
    lemma_position(a.os, a.files, fskey::key_of(a.os, path));
    lemma_same_paths_same_places(a, after_activity(s, path, now), path);
}

/// Files with the same paths have the same places.
proof fn lemma_same_paths_same_places(a: Session, b: Session, path: Seq<char>)
    requires
        a.os == b.os,
        a.files.len() == b.files.len(),
        forall|i: int| 0 <= i < a.files.len() ==> (#[trigger] a.files[i]).path == b.files[i].path,
    ensures
        place(a, path) == place(b, path),
{
    lemma_same_paths_same_positions(a.os, a.files, b.files, fskey::key_of(a.os, path));
}

proof fn lemma_same_paths_same_positions(os: Os, a: Seq<File>, b: Seq<File>, key: Seq<char>)
    requires
        a.len() == b.len(),
        forall|i: int| 0 <= i < a.len() ==> (#[trigger] a[i]).path == b[i].path,
    ensures
        position(os, a, key) == position(os, b, key),
    decreases a.len(),
{
    if a.len() > 0 {
        let x = a.drop_last();
        let y = b.drop_last();
        assert forall|i: int| 0 <= i < x.len() implies (#[trigger] x[i]).path == y[i].path by {
            assert(a[i].path == b[i].path);
        }
        lemma_same_paths_same_positions(os, x, y, key);
        assert(a[a.len() - 1].path == b[b.len() - 1].path);
    }
}

/// A file that is turned away leaves no trace but the mark that one was: nothing about the tracked
/// files changes, it calls for no window, and it gets none.
pub proof fn turned_away_is_inert(s: Session, path: Seq<char>, now: i64)
    requires
        place(admitted(s, path), path) is None,
    ensures
        admitted(s, path).files == s.files,
        admitted(s, path).structure_rev == s.structure_rev,
        after_activity(s, path, now) == admitted(s, path),
        after_unread(s, path) == admitted(s, path),
        after_open(s, path) == admitted(s, path),
        !activity_wants_window(s, path),
        open_outcome(s, path) is BlockedByCap,
        appearance_at(admitted(s, path), path, now) is Idle,
{
    let a = admitted(s, path);
    let key = fskey::key_of(s.os, path);
    lemma_position(a.os, a.files, key);
    if a.files != s.files {
        assert(a.files.last().path == path);
        assert(fskey::key_of(a.os, a.files[a.files.len() - 1].path) == key);
    }
}

/// The revision moves exactly when a file comes: an admission that lets no file in leaves it alone.
pub proof fn revision_tells_the_set_apart(s: Session, path: Seq<char>)
    requires
        distinct(s.os, s.files),
        s.files.len() <= MAX_FILES,
    ensures
        admitted(s, path).structure_rev == s.structure_rev <==> admitted(s, path).files == s.files,
{
    victim_is_the_least_useful(s.files);
    let a = admitted(s, path);
    let r = s.structure_rev;
    assert(counter_plus(r, 1) != r);
    assert(counter_plus(counter_plus(r, 1), 1) != r);
    lemma_position(s.os, s.files, fskey::key_of(s.os, path));
    if place(s, path) is None && a.files != s.files {
    } else if a.files == s.files && place(s, path) is None {
        if a.structure_rev != s.structure_rev {
            assert(a.files.last().path == path);
            assert(fskey::key_of(s.os, s.files[s.files.len() - 1].path) == fskey::key_of(
                s.os,
                path,
            ));
        }
    }
}

/// The revision moves exactly when a file goes, and no change of a file's state moves it.
pub proof fn revision_moves_only_with_the_set(
    s: Session,
    path: Seq<char>,
    now: i64,
    grace: i64,
    i: int,
)
    requires
        s.files.len() <= MAX_FILES,
    ensures
        after_reset(s).structure_rev == s.structure_rev <==> after_reset(s).files == s.files,
        after_prune(s, now, grace).structure_rev == s.structure_rev <==> after_prune(
            s,
            now,
            grace,
        ).files == s.files,
        0 <= i < s.files.len() ==> without(s, i).structure_rev != s.structure_rev,
        after_activity(s, path, now).structure_rev == admitted(s, path).structure_rev,
        after_unread(s, path).structure_rev == admitted(s, path).structure_rev,
        after_open(s, path).structure_rev == admitted(s, path).structure_rev,
        after_close(s, path).structure_rev == s.structure_rev,
        after_missing(s, path, now).structure_rev == s.structure_rev,
{
    let r = s.structure_rev;
    assert(counter_plus(r, 1) != r);
    if s.files.len() == 0 {
        assert(after_reset(s).files =~= s.files);
    }
    lemma_survivors_len(s.files, now, grace);
    if gone_paths(s.files, now, grace).len() == 0 {
        lemma_all_survive(s.files, now, grace);
    }
}

proof fn lemma_survivors_len(files: Seq<File>, now: i64, grace: i64)
    ensures
        survivors(files, now, grace).len() + gone_paths(files, now, grace).len() == files.len(),
    decreases files.len(),
{
    if files.len() > 0 {
        lemma_survivors_len(files.drop_last(), now, grace);
    }
}

proof fn lemma_all_survive(files: Seq<File>, now: i64, grace: i64)
    requires
        gone_paths(files, now, grace).len() == 0,
    ensures
        survivors(files, now, grace) == files,
    decreases files.len(),
{
    if files.len() > 0 {
        lemma_all_survive(files.drop_last(), now, grace);
        assert(files.drop_last().push(files.last()) =~= files);
    } else {
        assert(survivors(files, now, grace) =~= files);
    }
}

/// A prune takes no file that has a window and no file that is there.
pub proof fn prune_spares_open_and_present(s: Session, now: i64, grace: i64, i: int)
    requires
        0 <= i < s.files.len(),
        s.files[i].window_open || s.files[i].missing_since is None,
    ensures
        after_prune(s, now, grace).files.contains(s.files[i]),
{
    lemma_survives(s.files, now, grace, i);
}

proof fn lemma_survives(files: Seq<File>, now: i64, grace: i64, i: int)
    requires
        0 <= i < files.len(),
        !long_gone(files[i], now, grace),
    ensures
        survivors(files, now, grace).contains(files[i]),
    decreases files.len(),
{
    let init = files.drop_last();
    let left = survivors(init, now, grace);
    if i == files.len() - 1 {
        assert(left.push(files.last())[left.len() as int] == files[i]);
    } else {
        lemma_survives(init, now, grace, i);
        assert(init[i] == files[i]);
        let k = choose|k: int| 0 <= k < left.len() && left[k] == files[i];
        assert(left.push(files.last())[k] == files[i]);
    }
}

/// That a file was turned away is remembered through everything that can happen to the files, until
/// they are all forgotten.
pub proof fn a_limit_once_met_is_remembered(s: Session, path: Seq<char>, now: i64, grace: i64)
    ensures
        s.dir_overflow ==> {
            &&& admitted(s, path).dir_overflow
            &&& after_activity(s, path, now).dir_overflow
            &&& after_unread(s, path).dir_overflow
            &&& after_open(s, path).dir_overflow
            &&& after_close(s, path).dir_overflow
            &&& after_missing(s, path, now).dir_overflow
            &&& after_prune(s, now, grace).dir_overflow
        },
        s.file_overflow ==> {
            &&& admitted(s, path).file_overflow
            &&& after_activity(s, path, now).file_overflow
            &&& after_unread(s, path).file_overflow
            &&& after_open(s, path).file_overflow
            &&& after_close(s, path).file_overflow
            &&& after_missing(s, path, now).file_overflow
            &&& after_prune(s, now, grace).file_overflow
        },
        !after_reset(s).dir_overflow,
        !after_reset(s).file_overflow,
{
}

/// What a file's button shows, told from what is known of the file.
pub proof fn a_button_shows_what_matters_most(f: File, active_seconds: i64, now: i64)
    ensures
        f.missing ==> appearance(f, active_seconds, now) is Missing,
        !f.missing && f.window_open && f.last_activity is Some && now - f.last_activity->0
            <= active_seconds ==> appearance(f, active_seconds, now) is ActiveOpen,
        !f.missing && f.window_open && !(f.last_activity is Some && now - f.last_activity->0
            <= active_seconds) ==> appearance(f, active_seconds, now) is Open,
        !f.missing && !f.window_open && f.last_activity is Some && now - f.last_activity->0
            <= active_seconds ==> appearance(f, active_seconds, now) is ActiveClosed,
        !f.missing && !f.window_open && !(f.last_activity is Some && now - f.last_activity->0
            <= active_seconds) && f.unread ==> appearance(f, active_seconds, now) is Unread,
        !f.missing && !f.window_open && !(f.last_activity is Some && now - f.last_activity->0
            <= active_seconds) && !f.unread ==> appearance(f, active_seconds, now) is Idle,
{
}

/// What happens to a tracked file, the `i`-th: it is found under any spelling of its path, and each
/// event changes what it is about and nothing else.
pub proof fn events_change_what_they_are_about(s: Session, path: Seq<char>, now: i64, i: int)
    requires
        distinct(s.os, s.files),
        0 <= i < s.files.len(),
        fskey::key_of(s.os, s.files[i].path) == fskey::key_of(s.os, path),
    ensures
        ({
            let f = s.files[i];
            &&& admitted(s, path) == s
            &&& after_activity(s, path, now) == (Session {
                files: s.files.update(
                    i,
                    File { last_activity: Some(now), missing: false, missing_since: None, ..f },
                ),
                ..s
            })
            &&& activity_wants_window(s, path) == (!s.no_open && !f.user_closed && !f.window_open)
            &&& f.window_open ==> after_unread(s, path) == s
            &&& !f.window_open ==> after_unread(s, path) == (Session {
                files: s.files.update(i, File { unread: true, ..f }),
                ..s
            })
            &&& f.window_open ==> open_outcome(s, path) is AlreadyOpen && after_open(s, path) == s
            &&& !f.window_open && open_total(s.files) >= s.max_windows ==> open_outcome(s, path)
                is BlockedByCap && after_open(s, path) == s
            &&& !f.window_open && open_total(s.files) < s.max_windows ==> open_outcome(s, path)
                is Opened && after_open(s, path) == (Session {
                files: s.files.update(
                    i,
                    File { window_open: true, user_closed: false, unread: false, ..f },
                ),
                ..s
            })
            &&& !f.window_open ==> after_close(s, path) == s
            &&& f.window_open ==> after_close(s, path) == (Session {
                files: s.files.update(i, File { window_open: false, user_closed: true, ..f }),
                ..s
            })
            &&& after_missing(s, path, now) == (Session {
                files: s.files.update(
                    i,
                    File {
                        missing: true,
                        missing_since: Some(
                            if f.missing_since is Some {
                                f.missing_since->0
                            } else {
                                now
                            },
                        ),
                        ..f
                    },
                ),
                ..s
            })
            &&& appearance_at(s, path, now) == appearance(f, s.active_seconds, now)
        }),
{
    lemma_position_is(s.os, s.files, fskey::key_of(s.os, path), i);
}

/// What happens to a file that is not tracked: it cannot be closed, cannot go missing, and shows
/// nothing.
pub proof fn an_unknown_file_is_left_alone(s: Session, path: Seq<char>, now: i64)
    requires
        forall|i: int|
            0 <= i < s.files.len() ==> fskey::key_of(s.os, (#[trigger] s.files[i]).path)
                != fskey::key_of(s.os, path),
    ensures
        after_close(s, path) == s,
        after_missing(s, path, now) == s,
        appearance_at(s, path, now) is Idle,
{
    lemma_position(s.os, s.files, fskey::key_of(s.os, path));
}

/// A new file is tracked as long as there is room: it stands behind the others, which stay as they
/// are, and nothing is known of it. A write to it is noted and, unless windows open only on
/// request, calls for a window; one that is asked for opens as long as the number allows.
pub proof fn a_new_file_is_tracked(s: Session, path: Seq<char>, now: i64)
    requires
        forall|i: int|
            0 <= i < s.files.len() ==> fskey::key_of(s.os, (#[trigger] s.files[i]).path)
                != fskey::key_of(s.os, path),
        s.files.len() < 1000,
        dir_keys(s.os, s.files).len() < 200 || exists|i: int|
            0 <= i < s.files.len() && fskey::key_of(
                s.os,
                paths::parent_dir(s.os, (#[trigger] s.files[i]).path),
            ) == fskey::key_of(s.os, paths::parent_dir(s.os, path)),
    ensures
        ({
            let blank = File {
                path,
                window_open: false,
                missing: false,
                unread: false,
                user_closed: false,
                last_activity: None,
                missing_since: None,
            };
            let a = admitted(s, path);
            let opens = open_total(s.files) < s.max_windows;
            &&& a.files == s.files.push(blank)
            &&& a.structure_rev != s.structure_rev
            &&& a == (Session { files: a.files, structure_rev: a.structure_rev, ..s })
            &&& after_activity(s, path, now) == (Session {
                files: s.files.push(File { last_activity: Some(now), ..blank }),
                ..a
            })
            &&& activity_wants_window(s, path) == !s.no_open
            &&& after_unread(s, path) == (Session {
                files: s.files.push(File { unread: true, ..blank }),
                ..a
            })
            &&& opens ==> open_outcome(s, path) is Opened && after_open(s, path) == (Session {
                files: s.files.push(File { window_open: true, ..blank }),
                ..a
            })
            &&& !opens ==> open_outcome(s, path) is BlockedByCap && after_open(s, path) == a
        }),
{
    let key = fskey::key_of(s.os, path);
    lemma_position(s.os, s.files, key);
    let d = fskey::key_of(s.os, paths::parent_dir(s.os, path));
    lemma_dir_keys(s.os, s.files, d);
    assert(dir_key(s.os, path) == d);
    if exists|i: int|
        0 <= i < s.files.len() && fskey::key_of(
            s.os,
            paths::parent_dir(s.os, (#[trigger] s.files[i]).path),
        ) == d {
        let i = choose|i: int|
            0 <= i < s.files.len() && fskey::key_of(
                s.os,
                paths::parent_dir(s.os, (#[trigger] s.files[i]).path),
            ) == d;
        assert(dir_key(s.os, s.files[i].path) == d);
    }
    let a = admitted(s, path);
    let n = s.files.len() as int;
    assert(a == with_file(s, path));
    assert(a.files.drop_last() =~= s.files);
    assert(place(a, path) == Some(n));
    assert(a.files[n] == fresh(path));
    let f1 = File { last_activity: Some(now), ..fresh(path) };
    let f2 = File { unread: true, ..fresh(path) };
    let f3 = File { window_open: true, ..fresh(path) };
    assert(a.files.update(n, f1) =~= s.files.push(f1));
    assert(a.files.update(n, f2) =~= s.files.push(f2));
    assert(a.files.update(n, f3) =~= s.files.push(f3));
    assert(counter_plus(s.structure_rev, 1) != s.structure_rev);
}

/// A new file in a directory too many is turned away, and so is any new file where every tracked
/// one has a window and there is no room.
pub proof fn a_file_too_many_is_turned_away(s: Session, path: Seq<char>)
    requires
        forall|i: int|
            0 <= i < s.files.len() ==> fskey::key_of(s.os, (#[trigger] s.files[i]).path)
                != fskey::key_of(s.os, path),
    ensures
        dir_keys(s.os, s.files).len() >= 200 && (forall|i: int|
            0 <= i < s.files.len() ==> fskey::key_of(
                s.os,
                paths::parent_dir(s.os, (#[trigger] s.files[i]).path),
            ) != fskey::key_of(s.os, paths::parent_dir(s.os, path))) ==> admitted(s, path) == (
        Session { dir_overflow: true, ..s }),
        (dir_keys(s.os, s.files).len() < 200 || exists|i: int|
            0 <= i < s.files.len() && fskey::key_of(
                s.os,
                paths::parent_dir(s.os, (#[trigger] s.files[i]).path),
            ) == fskey::key_of(s.os, paths::parent_dir(s.os, path))) && s.files.len() >= 1000
            && (forall|i: int| 0 <= i < s.files.len() ==> (#[trigger] s.files[i]).window_open)
            ==> admitted(s, path) == (Session { file_overflow: true, ..s }),
{
    let key = fskey::key_of(s.os, path);
    lemma_position(s.os, s.files, key);
    let d = fskey::key_of(s.os, paths::parent_dir(s.os, path));
    lemma_dir_keys(s.os, s.files, d);
    assert(dir_key(s.os, path) == d);
    victim_is_the_least_useful(s.files);
    assert forall|i: int| 0 <= i < s.files.len() implies dir_key(
        s.os,
        (#[trigger] s.files[i]).path,
    ) == fskey::key_of(s.os, paths::parent_dir(s.os, s.files[i].path)) by {}
}

/// Where there is no room, one file without a window makes place for a new one: a missing one
/// before one that is there, and of these one that nobody has seen written, or else the one written
/// longest ago. All others stay as they are, and it is counted.
pub proof fn the_least_useful_file_makes_room(s: Session, path: Seq<char>, j: int) -> (v: int)
    requires
        forall|i: int|
            0 <= i < s.files.len() ==> fskey::key_of(s.os, (#[trigger] s.files[i]).path)
                != fskey::key_of(s.os, path),
        s.files.len() >= 1000,
        dir_keys(s.os, s.files).len() < 200,
        0 <= j < s.files.len(),
        !s.files[j].window_open,
    ensures
        0 <= v < s.files.len(),
        !s.files[v].window_open,
        s.files[j].missing ==> s.files[v].missing,
        s.files[v].missing == s.files[j].missing ==> s.files[v].last_activity is None || (
        s.files[j].last_activity is Some && s.files[v].last_activity->0
            <= s.files[j].last_activity->0),
        admitted(s, path).files == s.files.remove(v).push(
            File {
                path,
                window_open: false,
                missing: false,
                unread: false,
                user_closed: false,
                last_activity: None,
                missing_since: None,
            },
        ),
        s.evicted_total < u64::MAX ==> admitted(s, path).evicted_total == s.evicted_total + 1,
        admitted(s, path).dir_overflow == s.dir_overflow,
        admitted(s, path).file_overflow == s.file_overflow,
{
    let key = fskey::key_of(s.os, path);
    lemma_position(s.os, s.files, key);
    victim_is_the_least_useful(s.files);
    assert(s.files[j] == s.files[j]);
    assert(rank(s.files[j]) == rank(s.files[j]));
    victim(s.files)->0
}

/// A prune takes exactly the files without a window that have been gone for at least the grace, in
/// their order, and tells their paths.
pub proof fn a_prune_takes_what_is_long_gone(s: Session, f: File, now: i64, grace: i64)
    ensures
        ({
            let t = Session { files: s.files.push(f), ..s };
            let goes = !f.window_open && f.missing_since is Some && now - f.missing_since->0
                >= grace;
            &&& after_prune(Session { files: seq![], ..s }, now, grace).files == Seq::<
                File,
            >::empty()
            &&& gone_paths(seq![], now, grace) == Seq::<Seq<char>>::empty()
            &&& after_prune(t, now, grace).files == (if goes {
                after_prune(s, now, grace).files
            } else {
                after_prune(s, now, grace).files.push(f)
            })
            &&& gone_paths(t.files, now, grace) == (if goes {
                gone_paths(s.files, now, grace).push(f.path)
            } else {
                gone_paths(s.files, now, grace)
            })
            &&& after_prune(s, now, grace) == (Session {
                files: after_prune(s, now, grace).files,
                structure_rev: after_prune(s, now, grace).structure_rev,
                ..s
            })
        }),
{
    assert(s.files.push(f).drop_last() =~= s.files);
}

/// Windows are counted one by one.
pub proof fn every_window_counts(files: Seq<File>, f: File)
    ensures
        open_total(seq![]) == 0,
        open_total(files.push(f)) == open_total(files) + (if f.window_open {
            1int
        } else {
            0
        }),
{
    assert(files.push(f).drop_last() =~= files);
}

/// A file that is taken off the list leaves the others as they are.
pub proof fn a_removal_takes_one_file(s: Session, i: int)
    requires
        0 <= i < s.files.len(),
    ensures
        without(s, i).files == s.files.remove(i),
        without(s, i) == (Session {
            files: s.files.remove(i),
            structure_rev: without(s, i).structure_rev,
            ..s
        }),
{
}

/// A new model tracks nothing, counts a file as active for five seconds, allows ten windows and
/// opens them by itself. A reset forgets the files and that any was turned away, and keeps the
/// rest.
pub proof fn a_model_starts_empty(os: Os, s: Session)
    ensures
        initial(os).os == os,
        initial(os).files.len() == 0,
        initial(os).active_seconds == 5 && initial(os).max_windows == 10 && !initial(os).no_open,
        !initial(os).dir_overflow && !initial(os).file_overflow && initial(os).evicted_total == 0,
        after_reset(s) == (Session {
            files: seq![],
            dir_overflow: false,
            file_overflow: false,
            structure_rev: after_reset(s).structure_rev,
            ..s
        }),
{
}

} // verus!
