//! The note in the status line: what it is about, what may replace it, and what clears it.
//!
//! A note about an unreadable directory outranks the notes about limits, which fill in only where
//! no other note stands. A directory that reads again clears nothing but a note of its own kind.

use vstd::prelude::*;

use crate::session;
use crate::strings;

verus! {

/// What a note is about.
#[derive(Debug, Clone, Copy, PartialEq, Eq, Structural)]
pub enum NoteKind {
    /// The directory cannot be read.
    WatchError,
    /// There are more directories than are shown.
    DirCap,
    /// There are more files than are shown.
    FileCap,
    /// Anything else.
    Plain,
}

/// What became of the watched directory.
#[derive(Debug, Clone, PartialEq, Eq)]
pub enum RootChange {
    /// It cannot be read, for this reason.
    Error(String),
    /// It reads again.
    Recovered,
}

/// A note.
#[derive(Debug)]
pub struct Note {
    /// What it is about.
    pub kind: NoteKind,
    /// Its words.
    pub text: String,
}

/// A note.
#[verifier::ext_equal]
pub struct Remark {
    /// What it is about.
    pub kind: NoteKind,
    /// Its words.
    pub text: Seq<char>,
}

impl View for Note {
    type V = Remark;

    open spec fn view(&self) -> Remark {
        Remark { kind: self.kind, text: self.text@ }
    }
}

/// The note that stands.
pub open spec fn remark_of(n: Option<Note>) -> Option<Remark> {
    match n {
        Some(x) => Some(x@),
        None => None,
    }
}

/// What became of the watched directory, where it cannot be read with the reason.
pub enum Root {
    /// It cannot be read.
    Down(Seq<char>),
    /// It reads again.
    Up,
}

/// What became of the watched directory.
pub open spec fn root_of(r: Option<RootChange>) -> Option<Root> {
    match r {
        Some(RootChange::Error(m)) => Some(Root::Down(m@)),
        Some(RootChange::Recovered) => Some(Root::Up),
        None => None,
    }
}

// ---------------------------------------------------------------------------------------------
// Model
// ---------------------------------------------------------------------------------------------

/// The note and the lines for the log.
#[verifier::ext_equal]
pub struct Noted {
    /// The note that stands.
    pub note: Option<Remark>,
    /// The lines.
    pub log: Seq<Seq<char>>,
}

/// Whether a note of a kind stands.
pub open spec fn stands(n: Option<Remark>, kind: NoteKind) -> bool {
    n matches Some(r) && r.kind == kind
}

/// The words about too many directories.
pub open spec fn dir_cap_words() -> Seq<char> {
    strings::decimal(session::MAX_DIR_BOXES as nat)
        + "-directory limit reached \u{2014} some folders are not shown; narrow the directory or reduce Depth"@
}

/// The words about too many files.
pub open spec fn file_cap_words() -> Seq<char> {
    strings::decimal(session::MAX_FILES as nat)
        + "-file limit reached \u{2014} every tile is an open window, so new files are not shown; close some windows or narrow the patterns"@
}

/// Whether the directory reads again and a note said that it did not.
pub open spec fn recovers(n: Option<Remark>, root: Option<Root>) -> bool {
    root is Some && root->0 is Up && stands(n, NoteKind::WatchError)
}

/// The note once it is known what became of the directory.
pub open spec fn after_root(n: Option<Remark>, root: Option<Root>) -> Noted {
    match root {
        Some(Root::Up) => if stands(n, NoteKind::WatchError) {
            Noted { note: None, log: seq!["watch recovered: directory reads again"@] }
        } else {
            Noted { note: n, log: seq![] }
        },
        Some(Root::Down(m)) => Noted {
            note: Some(Remark { kind: NoteKind::WatchError, text: "ERROR: "@ + m }),
            log: seq!["watch error: "@ + m],
        },
        None => Noted { note: n, log: seq![] },
    }
}

/// The note once a limit was looked at. It fills in where no note stands; a note that was only
/// covered for a while is not logged again.
pub open spec fn with_limit(
    n: Noted,
    over: bool,
    kind: NoteKind,
    words: Seq<char>,
    label: Seq<char>,
    quiet: bool,
) -> Noted {
    if over && n.note is None {
        Noted {
            note: Some(Remark { kind, text: "ERROR: "@ + words }),
            log: if quiet {
                n.log
            } else {
                n.log.push(label + words)
            },
        }
    } else {
        n
    }
}

/// The note after a tick, and what the log gets.
pub open spec fn after_tick(
    n: Option<Remark>,
    root: Option<Root>,
    running: bool,
    dirs_over: bool,
    files_over: bool,
) -> Noted {
    let quiet = recovers(n, root);
    let a = after_root(n, root);
    let b = with_limit(
        a,
        running && dirs_over,
        NoteKind::DirCap,
        dir_cap_words(),
        "dir cap: "@,
        quiet,
    );
    with_limit(
        b,
        running && files_over,
        NoteKind::FileCap,
        file_cap_words(),
        "file cap: "@,
        quiet,
    )
}

// ---------------------------------------------------------------------------------------------
// Functions
// ---------------------------------------------------------------------------------------------

/// Whether a note of a kind stands.
pub fn note_is(n: &Option<Note>, kind: NoteKind) -> (r: bool)
    ensures
        r == stands(remark_of(*n), kind),
{
    match n {
        Some(x) => x.kind == kind,
        None => false,
    }
}

/// The words about too many directories.
pub fn dir_cap_text() -> (r: String)
    ensures
        r@ == dir_cap_words(),
{
    let mut out = strings::decimal_of(session::MAX_DIR_BOXES as u64);
    out.push_str(
        "-directory limit reached \u{2014} some folders are not shown; narrow the directory or reduce Depth",
    );
    out
}

/// The words about too many files.
pub fn file_cap_text() -> (r: String)
    ensures
        r@ == file_cap_words(),
{
    let mut out = strings::decimal_of(session::MAX_FILES as u64);
    out.push_str(
        "-file limit reached \u{2014} every tile is an open window, so new files are not shown; close some windows or narrow the patterns",
    );
    out
}

/// Two texts, one after the other.
fn joined(a: &str, b: &str) -> (r: String)
    ensures
        r@ == a@ + b@,
{
    let mut out = a.to_owned();
    out.push_str(b);
    out
}

/// Brings the note up to date after a tick, and returns the lines for the log.
pub fn settle(
    note: &mut Option<Note>,
    root: Option<RootChange>,
    running: bool,
    dirs_over: bool,
    files_over: bool,
) -> (log: Vec<String>)
    ensures
        (Noted { note: remark_of(*final(note)), log: strings::views(log@) }) == after_tick(
            remark_of(*old(note)),
            root_of(root),
            running,
            dirs_over,
            files_over,
        ),
{
    broadcast use strings::lemma_views_push;

    let mut log: Vec<String> = Vec::new();
    let ghost n0 = remark_of(*note);
    let ghost c0 = root_of(root);
    assert(strings::views(log@) =~= seq![]);
    let mut quiet = false;
    match root {
        Some(RootChange::Recovered) => {
            if note_is(note, NoteKind::WatchError) {
                *note = None;
                quiet = true;
                log.push("watch recovered: directory reads again".to_owned());
                assert(strings::views(log@) =~= seq!["watch recovered: directory reads again"@]);
            }
        },
        Some(RootChange::Error(m)) => {
            log.push(joined("watch error: ", m.as_str()));
            *note = Some(
                Note { kind: NoteKind::WatchError, text: joined("ERROR: ", m.as_str()) },
            );
            assert(strings::views(log@) =~= seq!["watch error: "@ + m@]);
        },
        None => {},
    }
    assert((Noted { note: remark_of(*note), log: strings::views(log@) }) == after_root(n0, c0));
    assert(quiet == recovers(n0, c0));
    if running && dirs_over && note.is_none() {
        let words = dir_cap_text();
        if !quiet {
            log.push(joined("dir cap: ", words.as_str()));
        }
        *note = Some(Note { kind: NoteKind::DirCap, text: joined("ERROR: ", words.as_str()) });
    }
    if running && files_over && note.is_none() {
        let words = file_cap_text();
        if !quiet {
            log.push(joined("file cap: ", words.as_str()));
        }
        *note = Some(Note { kind: NoteKind::FileCap, text: joined("ERROR: ", words.as_str()) });
    }
    log
}

// ---------------------------------------------------------------------------------------------
// Laws
// ---------------------------------------------------------------------------------------------

/// A directory that reads again clears no note but one about an unreadable directory.
pub proof fn recovery_spares_other_notes(
    n: Option<Remark>,
    running: bool,
    dirs_over: bool,
    files_over: bool,
)
    requires
        n is Some,
        !stands(n, NoteKind::WatchError),
    ensures
        after_tick(n, Some(Root::Up), running, dirs_over, files_over).note == n,
        after_tick(n, Some(Root::Up), running, dirs_over, files_over).log.len() == 0,
{
}

/// A note that stands stays until something happens to the directory.
pub proof fn a_note_stays(n: Option<Remark>, running: bool, dirs_over: bool, files_over: bool)
    requires
        n is Some,
    ensures
        after_tick(n, None, running, dirs_over, files_over) == (Noted { note: n, log: seq![] }),
{
}

/// An unreadable directory outranks every note.
pub proof fn an_outage_outranks_all(
    n: Option<Remark>,
    m: Seq<char>,
    running: bool,
    dirs_over: bool,
    files_over: bool,
)
    ensures
        after_tick(n, Some(Root::Down(m)), running, dirs_over, files_over).note == Some(
            Remark { kind: NoteKind::WatchError, text: "ERROR: "@ + m },
        ),
{
}

/// A limit that an outage had covered comes back when the directory reads again, and is not logged
/// a second time.
pub proof fn a_covered_limit_comes_back_quietly(m: Seq<char>, files_over: bool)
    ensures
        ({
            let down = after_tick(
                Some(Remark { kind: NoteKind::DirCap, text: "ERROR: "@ + dir_cap_words() }),
                Some(Root::Down(m)),
                true,
                true,
                files_over,
            );
            let up = after_tick(down.note, Some(Root::Up), true, true, files_over);
            &&& up.note == Some(
                Remark { kind: NoteKind::DirCap, text: "ERROR: "@ + dir_cap_words() },
            )
            &&& up.log == seq!["watch recovered: directory reads again"@]
        }),
{
}

/// Where no note stands and the watch runs, a limit that was met is noted and logged once, that on
/// directories before that on files; where none was met, or the watch does not run, nothing is.
pub proof fn a_limit_is_noted_where_no_note_stands(dirs_over: bool, files_over: bool)
    ensures
        after_tick(None, None, false, dirs_over, files_over) == (Noted { note: None, log: seq![] }),
        after_tick(None, None, true, false, false) == (Noted { note: None, log: seq![] }),
        after_tick(None, None, true, true, files_over) == (Noted {
            note: Some(
                Remark { kind: NoteKind::DirCap, text: "ERROR: "@ + dir_cap_words() },
            ),
            log: seq!["dir cap: "@ + dir_cap_words()],
        }),
        after_tick(None, None, true, false, true) == (Noted {
            note: Some(
                Remark { kind: NoteKind::FileCap, text: "ERROR: "@ + file_cap_words() },
            ),
            log: seq!["file cap: "@ + file_cap_words()],
        }),
{
    let none = Seq::<Seq<char>>::empty();
    assert(none.push("dir cap: "@ + dir_cap_words()) =~= seq!["dir cap: "@ + dir_cap_words()]);
    assert(none.push("file cap: "@ + file_cap_words()) =~= seq!["file cap: "@ + file_cap_words()]);
}

/// An unreadable directory is noted and logged with its reason, whatever note stood. Once the
/// directory reads again that note goes, which is logged, and where a limit was met that is noted
/// in its place without a line.
pub proof fn an_outage_is_noted_and_cleared(n: Option<Remark>, m: Seq<char>, words: Seq<char>)
    ensures
        after_tick(n, Some(Root::Down(m)), true, true, true).log == seq!["watch error: "@ + m],
        after_tick(n, Some(Root::Down(m)), false, false, false) == (Noted {
            note: Some(Remark { kind: NoteKind::WatchError, text: "ERROR: "@ + m }),
            log: seq!["watch error: "@ + m],
        }),
        ({
            let down = Some(Remark { kind: NoteKind::WatchError, text: words });
            let back = seq!["watch recovered: directory reads again"@];
            &&& after_tick(down, Some(Root::Up), true, false, false) == (Noted {
                note: None,
                log: back,
            })
            &&& after_tick(down, Some(Root::Up), false, true, true) == (Noted {
                note: None,
                log: back,
            })
            &&& after_tick(down, Some(Root::Up), true, true, true) == (Noted {
                note: Some(
                    Remark { kind: NoteKind::DirCap, text: "ERROR: "@ + dir_cap_words() },
                ),
                log: back,
            })
            &&& after_tick(down, Some(Root::Up), true, false, true) == (Noted {
                note: Some(
                    Remark { kind: NoteKind::FileCap, text: "ERROR: "@ + file_cap_words() },
                ),
                log: back,
            })
            &&& after_tick(None, Some(Root::Up), true, false, false) == (Noted {
                note: None,
                log: seq![],
            })
        }),
{
}

/// The notes on limits name the numbers: two hundred directories, a thousand files.
pub proof fn notes_on_limits_name_the_numbers()
    ensures
        dir_cap_words() == strings::decimal(200)
            + "-directory limit reached \u{2014} some folders are not shown; narrow the directory or reduce Depth"@,
        file_cap_words() == strings::decimal(1000)
            + "-file limit reached \u{2014} every tile is an open window, so new files are not shown; close some windows or narrow the patterns"@,
{
}

} // verus!
