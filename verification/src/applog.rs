//! Where the logs go, how large they get, and what a line in them looks like.

use vstd::prelude::*;

use crate::build_info;
use crate::os::Os;
use crate::paths;
use crate::strings;

verus! {

/// The log of errors, and of the trace where it is switched on.
pub const LOG_FILE: &'static str = "DirWatch.log";

/// The log of crashes.
pub const CRASH_FILE: &'static str = "DirWatch_crash.log";

/// A log that would exceed this is put aside, in bytes.
pub const LOG_CAP_BYTES: u64 = 5 * 1024 * 1024;

/// The name of the directory for logs.
pub const APP_DIR: &'static str = "DirWatch";

/// The same, where such names are in lower case.
pub const APP_DIR_XDG: &'static str = "dirwatch";

/// The parts of the environment that say where logs go.
#[derive(Debug)]
pub struct LogEnv {
    /// `LOCALAPPDATA`
    pub local_app_data: Option<String>,
    /// `USERPROFILE`
    pub user_profile: Option<String>,
    /// `HOME`
    pub home: Option<String>,
    /// `XDG_STATE_HOME`
    pub xdg_state_home: Option<String>,
}

// ---------------------------------------------------------------------------------------------
// Model
// ---------------------------------------------------------------------------------------------

/// A value that is set to something.
pub open spec fn value_of(v: Option<String>) -> Option<Seq<char>> {
    match v {
        Some(s) if s@.len() > 0 => Some(s@),
        _ => None,
    }
}

/// The character between names in a path.
pub open spec fn separator(os: Os) -> char {
    match os {
        Os::Windows => '\\',
        _ => '/',
    }
}

/// A character that ends a name in a path.
pub open spec fn ends_name(os: Os, c: char) -> bool {
    c == '/' || (os == Os::Windows && c == '\\')
}

/// Nothing but the letter of a drive.
pub open spec fn is_drive(os: Os, dir: Seq<char>) -> bool {
    os == Os::Windows && dir.len() == 2 && paths::is_letter(dir[0]) && dir[1] == ':'
}

/// A name below a directory.
pub open spec fn below(os: Os, dir: Seq<char>, name: Seq<char>) -> Seq<char> {
    if dir.len() == 0 || ends_name(os, dir.last()) || is_drive(os, dir) {
        dir + name
    } else {
        dir.push(separator(os)) + name
    }
}

/// The directory for logs, where the environment tells one: on each system the place for what a
/// program keeps for one user. An `XDG_STATE_HOME` that does not begin at the root does not count.
pub open spec fn usual_place(os: Os, env: LogEnv) -> Option<Seq<char>> {
    match os {
        Os::Windows => match value_of(env.local_app_data) {
            Some(p) => Some(below(os, p, APP_DIR@)),
            None => match value_of(env.user_profile) {
                Some(p) => Some(
                    below(os, below(os, below(os, p, "AppData"@), "Local"@), APP_DIR@),
                ),
                None => None,
            },
        },
        Os::MacOs => match value_of(env.home) {
            Some(p) => Some(below(os, below(os, below(os, p, "Library"@), "Logs"@), APP_DIR@)),
            None => None,
        },
        Os::Linux => match value_of(env.xdg_state_home) {
            Some(p) if p[0] == '/' => Some(below(os, p, APP_DIR_XDG@)),
            _ => match value_of(env.home) {
                Some(p) => Some(
                    below(os, below(os, below(os, p, ".local"@), "state"@), APP_DIR_XDG@),
                ),
                None => None,
            },
        },
    }
}

/// The directory for logs: the one asked for, else the usual one, else that of the program.
pub open spec fn place(os: Os, asked: Option<Seq<char>>, env: LogEnv, exe_dir: Seq<char>) -> Seq<
    char,
> {
    match asked {
        Some(d) => d,
        None => match usual_place(os, env) {
            Some(d) => d,
            None => exe_dir,
        },
    }
}

/// A line of a log: what kind of line, of which build, when, and the words.
pub open spec fn line_words(tag: Seq<char>, ms: u64, words: Seq<char>) -> Seq<char> {
    tag + " "@ + build_info::BUILD_ID@ + " ["@ + strings::decimal(ms as nat) + "ms] "@ + words
}

// ---------------------------------------------------------------------------------------------
// Functions
// ---------------------------------------------------------------------------------------------

/// A name below a directory.
pub fn join_below(os: Os, dir: &str, name: &str) -> (r: String)
    ensures
        r@ == below(os, dir@, name@),
{
    let cs = strings::chars_of(dir);
    let mut out = dir.to_owned();
    if cs.len() > 0 {
        let c = cs[cs.len() - 1];
        let windows = matches!(os, Os::Windows);
        let drive = windows && cs.len() == 2 && c == ':' && (('A' <= cs[0] && cs[0] <= 'Z') || (
        'a' <= cs[0] && cs[0] <= 'z'));
        if !(c == '/' || (windows && c == '\\') || drive) {
            out.push(
                if windows {
                    '\\'
                } else {
                    '/'
                },
            );
        }
    }
    out.push_str(name);
    out
}

/// A value that is set to something.
fn nonempty(v: &Option<String>) -> (r: Option<&str>)
    ensures
        match r {
            Some(s) => value_of(*v) == Some(s@),
            None => value_of(*v) is None,
        },
{
    match v {
        Some(s) => {
            proof {
                strings::lemma_empty_text(s@);
            }
            if s.as_str().as_bytes().len() > 0 {
                Some(s.as_str())
            } else {
                None
            }
        },
        None => None,
    }
}

/// Two names and then a third below a directory.
fn three_below(os: Os, dir: &str, a: &str, b: &str, c: &str) -> (r: String)
    ensures
        r@ == below(os, below(os, below(os, dir@, a@), b@), c@),
{
    let x = join_below(os, dir, a);
    let y = join_below(os, x.as_str(), b);
    join_below(os, y.as_str(), c)
}

/// The directory for logs.
pub fn resolve(os: Os, override_dir: Option<&str>, env: &LogEnv, exe_dir: &str) -> (r: String)
    ensures
        r@ == place(
            os,
            match override_dir {
                Some(d) => Some(d@),
                None => None,
            },
            *env,
            exe_dir@,
        ),
{
    if let Some(d) = override_dir {
        return d.to_owned();
    }
    match os {
        Os::Windows => {
            if let Some(p) = nonempty(&env.local_app_data) {
                return join_below(os, p, APP_DIR);
            }
            if let Some(p) = nonempty(&env.user_profile) {
                return three_below(os, p, "AppData", "Local", APP_DIR);
            }
        },
        Os::MacOs => {
            if let Some(p) = nonempty(&env.home) {
                return three_below(os, p, "Library", "Logs", APP_DIR);
            }
        },
        Os::Linux => {
            if let Some(p) = nonempty(&env.xdg_state_home) {
                let cs = strings::chars_of(p);
                if cs[0] == '/' {
                    return join_below(os, p, APP_DIR_XDG);
                }
            }
            if let Some(p) = nonempty(&env.home) {
                return three_below(os, p, ".local", "state", APP_DIR_XDG);
            }
        },
    }
    exe_dir.to_owned()
}

/// Whether a log of `len` bytes is put aside before `adding` more are written: where it would hold
/// `cap` bytes or more with them.
pub open spec fn rotates(len: u64, adding: u64, cap: u64) -> bool {
    len + adding >= cap
}

/// How many bytes a log has once `adding` more were written.
pub open spec fn len_after(len: u64, adding: u64, cap: u64) -> int {
    if rotates(len, adding, cap) {
        adding as int
    } else {
        len + adding
    }
}

/// Whether a log of `len` bytes is put aside before `adding` more are written.
pub fn needs_rotation(len: u64, adding: u64, cap: u64) -> (r: bool)
    ensures
        r == rotates(len, adding, cap),
{
    len.saturating_add(adding) >= cap
}

/// The name under which a log is put aside.
pub fn rotated_name(file: &str) -> (r: String)
    ensures
        r@ == file@ + ".1"@,
{
    let mut out = file.to_owned();
    out.push_str(".1");
    out
}

/// A line of a log.
pub fn log_line(tag: &str, ms: u64, words: &str) -> (r: String)
    ensures
        r@ == line_words(tag@, ms, words@),
{
    let mut out = tag.to_owned();
    out.push_str(" ");
    out.push_str(build_info::BUILD_ID);
    out.push_str(" [");
    out.push_str(strings::decimal_of(ms).as_str());
    out.push_str("ms] ");
    out.push_str(words);
    out
}

/// A switch in the environment is on where it is set to something other than `0`.
pub open spec fn is_on(v: Option<String>) -> bool {
    v matches Some(s) && s@.len() > 0 && s@ != seq!['0']
}

/// Whether a switch in the environment is on.
pub fn switched_on(v: &Option<String>) -> (r: bool)
    ensures
        r == is_on(*v),
{
    match v {
        Some(s) => {
            let cs = strings::chars_of(s.as_str());
            if cs.len() == 1 && cs[0] == '0' {
                assert(s@ =~= seq!['0']);
                return false;
            }
            cs.len() > 0
        },
        None => false,
    }
}

// ---------------------------------------------------------------------------------------------
// Laws
// ---------------------------------------------------------------------------------------------

/// A log to which a line was added stays within its limit, as long as the line alone does: it is
/// put aside first where the line does not fit.
pub proof fn a_log_stays_within_its_limit(len: u64, adding: u64, cap: u64)
    requires
        adding <= cap,
    ensures
        len_after(len, adding, cap) <= cap,
{
}

/// The directory that was asked for is the one that is used, on every system.
pub proof fn what_is_asked_for_wins(os: Os, d: Seq<char>, env: LogEnv, exe_dir: Seq<char>)
    ensures
        place(os, Some(d), env, exe_dir) == d,
{
}

/// A log is put aside before a line is added exactly where it would reach its limit with the line.
pub proof fn a_log_is_put_aside_at_its_limit(len: u64, adding: u64, cap: u64)
    ensures
        rotates(len, adding, cap) == (len + adding >= cap),
        len + adding < cap ==> len_after(len, adding, cap) == len + adding,
        len + adding >= cap ==> len_after(len, adding, cap) == adding,
{
}

/// A name below a directory stands behind one separator: the one that the directory ends with, or
/// one that is added.
pub proof fn a_name_stands_behind_one_separator(dir: Seq<char>, name: Seq<char>)
    ensures
        below(Os::Linux, seq![], name) == name,
        dir.len() > 0 && dir.last() == '/' ==> below(Os::Linux, dir, name) == dir + name
            && below(Os::MacOs, dir, name) == dir + name && below(Os::Windows, dir, name) == dir
            + name,
        dir.len() > 0 && dir.last() != '/' ==> below(Os::Linux, dir, name) == dir.push('/') + name
            && below(Os::MacOs, dir, name) == dir.push('/') + name,
        dir.len() > 0 && dir.last() == '\\' ==> below(Os::Windows, dir, name) == dir + name,
        dir.len() > 2 && dir.last() != '/' && dir.last() != '\\' ==> below(Os::Windows, dir, name)
            == dir.push('\\') + name,
{
    assert(Seq::<char>::empty() + name =~= name);
}

/// Where the logs go when nobody asks for a place: on Windows below `LOCALAPPDATA`, else below the
/// profile; on macOS below the home directory; on Linux below `XDG_STATE_HOME` where that begins at
/// the root, else below the home directory; and beside the program where the environment tells
/// nothing. A variable that is set to nothing tells nothing.
pub proof fn logs_go_to_the_usual_place(env: LogEnv, exe: Seq<char>)
    ensures
        ({
            let local = env.local_app_data is Some && env.local_app_data->0@.len() > 0;
            let profile = env.user_profile is Some && env.user_profile->0@.len() > 0;
            let home = env.home is Some && env.home->0@.len() > 0;
            let xdg = env.xdg_state_home is Some && env.xdg_state_home->0@.len() > 0
                && env.xdg_state_home->0@[0] == '/';
            &&& local ==> place(Os::Windows, None, env, exe) == below(
                Os::Windows,
                env.local_app_data->0@,
                "DirWatch"@,
            )
            &&& !local && profile ==> place(Os::Windows, None, env, exe) == below(
                Os::Windows,
                below(
                    Os::Windows,
                    below(Os::Windows, env.user_profile->0@, "AppData"@),
                    "Local"@,
                ),
                "DirWatch"@,
            )
            &&& !local && !profile ==> place(Os::Windows, None, env, exe) == exe
            &&& home ==> place(Os::MacOs, None, env, exe) == below(
                Os::MacOs,
                below(Os::MacOs, below(Os::MacOs, env.home->0@, "Library"@), "Logs"@),
                "DirWatch"@,
            )
            &&& !home ==> place(Os::MacOs, None, env, exe) == exe
            &&& xdg ==> place(Os::Linux, None, env, exe) == below(
                Os::Linux,
                env.xdg_state_home->0@,
                "dirwatch"@,
            )
            &&& !xdg && home ==> place(Os::Linux, None, env, exe) == below(
                Os::Linux,
                below(Os::Linux, below(Os::Linux, env.home->0@, ".local"@), "state"@),
                "dirwatch"@,
            )
            &&& !xdg && !home ==> place(Os::Linux, None, env, exe) == exe
        }),
{
}

/// A switch is on where it is set to anything but nothing and a lone zero.
pub proof fn a_switch_is_on_unless_zero(s: String)
    ensures
        !is_on(None),
        is_on(Some(s)) == !(s@.len() == 0 || (s@.len() == 1 && s@[0] == '0')),
{
    if s@.len() == 1 && s@[0] == '0' {
        assert(s@ =~= seq!['0']);
    }
}

/// A line names its kind, the build, the time and the words, in this order.
pub proof fn a_line_names_kind_build_and_time(tag: Seq<char>, ms: u64, words: Seq<char>)
    ensures
        line_words(tag, ms, words) == tag + " "@ + build_info::BUILD_ID@ + " ["@ + strings::decimal(
            ms as nat,
        ) + "ms] "@ + words,
{
}

} // verus!
