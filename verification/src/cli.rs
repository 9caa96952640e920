//! The command line.

use vstd::prelude::*;
use vstd::utf8::*;

use crate::build_info;
use crate::glob;
use crate::glob::GlobMatcher;
use crate::session::MAX_WINDOWS_CEILING;
use crate::strings;
use crate::watch::MAX_DEPTH;

verus! {

/// What a command line asks for.
#[derive(Debug, Clone)]
pub struct CliOptions {
    /// The directory to watch.
    pub directory: Option<String>,
    /// The file-name patterns, in the order given.
    pub patterns: Vec<String>,
    /// The poll interval, in milliseconds.
    pub poll_interval_ms: Option<i32>,
    /// How many levels of subdirectories to watch.
    pub depth: Option<i32>,
    /// Windows open only when the user asks.
    pub no_open: bool,
    /// For how long a written file counts as active, in seconds.
    pub active_seconds: Option<i32>,
    /// How many windows may be open.
    pub max_windows: Option<i32>,
    /// Show the help text.
    pub show_help: bool,
    /// Show the version.
    pub show_version: bool,
    /// Show the license.
    pub show_license: bool,
    /// Where the logs go.
    pub log_dir: Option<String>,
    /// What is wrong with the command line.
    pub errors: Vec<String>,
}

/// What a command line asks for.
#[verifier::ext_equal]
pub struct Request {
    /// The directory to watch.
    pub directory: Option<Seq<char>>,
    /// The file-name patterns, in the order given.
    pub patterns: Seq<Seq<char>>,
    /// The poll interval, in milliseconds.
    pub poll_interval_ms: Option<i32>,
    /// How many levels of subdirectories to watch.
    pub depth: Option<i32>,
    /// Windows open only when the user asks.
    pub no_open: bool,
    /// For how long a written file counts as active, in seconds.
    pub active_seconds: Option<i32>,
    /// How many windows may be open.
    pub max_windows: Option<i32>,
    /// Show the help text.
    pub show_help: bool,
    /// Show the version.
    pub show_version: bool,
    /// Show the license.
    pub show_license: bool,
    /// Where the logs go.
    pub log_dir: Option<Seq<char>>,
    /// What is wrong with the command line.
    pub errors: Seq<Seq<char>>,
}

/// The contents of a string that may be there.
pub open spec fn text_of(s: Option<String>) -> Option<Seq<char>> {
    match s {
        Some(t) => Some(t@),
        None => None,
    }
}

impl View for CliOptions {
    type V = Request;

    open spec fn view(&self) -> Request {
        Request {
            directory: text_of(self.directory),
            patterns: strings::views(self.patterns@),
            poll_interval_ms: self.poll_interval_ms,
            depth: self.depth,
            no_open: self.no_open,
            active_seconds: self.active_seconds,
            max_windows: self.max_windows,
            show_help: self.show_help,
            show_version: self.show_version,
            show_license: self.show_license,
            log_dir: text_of(self.log_dir),
            errors: strings::views(self.errors@),
        }
    }
}

/// An option.
#[derive(Debug, Clone, Copy, PartialEq, Eq, Structural)]
pub enum Flag {
    /// `--help`
    Help,
    /// `--version`
    Version,
    /// `--license`
    License,
    /// `--pattern`
    Pattern,
    /// `--patterns`
    Patterns,
    /// `--poll-ms`
    PollMs,
    /// `--depth`
    Depth,
    /// `--no-open`
    NoOpen,
    /// `--log-dir`
    LogDir,
    /// `--active-secs`
    ActiveSecs,
    /// `--max-windows`
    MaxWindows,
}

// ---------------------------------------------------------------------------------------------
// Grammar
// ---------------------------------------------------------------------------------------------

/// A command line that asks for nothing.
pub open spec fn nothing() -> Request {
    Request {
        directory: None,
        patterns: seq![],
        poll_interval_ms: None,
        depth: None,
        no_open: false,
        active_seconds: None,
        max_windows: None,
        show_help: false,
        show_version: false,
        show_license: false,
        log_dir: None,
        errors: seq![],
    }
}

/// The option that an argument in lower case spells.
pub open spec fn flag_of(lower: Seq<char>) -> Option<Flag> {
    if lower == "--help"@ || lower == "-h"@ || lower == "/?"@ {
        Some(Flag::Help)
    } else if lower == "--version"@ {
        Some(Flag::Version)
    } else if lower == "--license"@ {
        Some(Flag::License)
    } else if lower == "--pattern"@ || lower == "-p"@ {
        Some(Flag::Pattern)
    } else if lower == "--patterns"@ {
        Some(Flag::Patterns)
    } else if lower == "--poll-ms"@ {
        Some(Flag::PollMs)
    } else if lower == "--depth"@ || lower == "-d"@ {
        Some(Flag::Depth)
    } else if lower == "--no-open"@ {
        Some(Flag::NoOpen)
    } else if lower == "--log-dir"@ {
        Some(Flag::LogDir)
    } else if lower == "--active-secs"@ {
        Some(Flag::ActiveSecs)
    } else if lower == "--max-windows"@ || lower == "-w"@ {
        Some(Flag::MaxWindows)
    } else {
        None
    }
}

/// Whether an option stands alone.
pub open spec fn is_switch(f: Flag) -> bool {
    f is Help || f is Version || f is License || f is NoOpen
}

/// What is said when an option lacks a value, or its value is no integer.
pub open spec fn complaint(f: Flag) -> Seq<char> {
    match f {
        Flag::Pattern => "--pattern requires a glob"@,
        Flag::Patterns => "--patterns requires a ;-separated list"@,
        Flag::PollMs => "--poll-ms requires an integer"@,
        Flag::Depth => "--depth requires a non-negative integer"@,
        Flag::LogDir => "--log-dir requires a directory path"@,
        Flag::ActiveSecs => "--active-secs requires an integer"@,
        Flag::MaxWindows => "--max-windows requires an integer"@,
        _ => seq![],
    }
}

/// `v`, but no less than `lo` and no more than `hi`.
pub open spec fn within(v: int, lo: int, hi: int) -> int {
    if v < lo {
        lo
    } else if v > hi {
        hi
    } else {
        v
    }
}

/// A request with one more complaint.
pub open spec fn with_error(o: Request, e: Seq<char>) -> Request {
    Request { errors: o.errors.push(e), ..o }
}

/// A request with a switch thrown.
pub open spec fn with_switch(o: Request, f: Flag) -> Request {
    match f {
        Flag::Help => Request { show_help: true, ..o },
        Flag::Version => Request { show_version: true, ..o },
        Flag::License => Request { show_license: true, ..o },
        Flag::NoOpen => Request { no_open: true, ..o },
        _ => o,
    }
}

/// The integer that a value spells, where it fits.
pub open spec fn number(v: Seq<char>) -> Option<int> {
    strings::int_within(v, i32::MIN as int, i32::MAX as int)
}

/// A request with an option's value. Numbers are brought into their range.
pub open spec fn with_value(o: Request, f: Flag, v: Seq<char>) -> Request {
    match f {
        Flag::Pattern => Request { patterns: o.patterns.push(v), ..o },
        Flag::Patterns => Request {
            patterns: o.patterns + glob::kept_patterns(strings::pieces(v, ';', ',')),
            ..o
        },
        Flag::LogDir => Request { log_dir: Some(v), ..o },
        Flag::PollMs => match number(v) {
            Some(n) => Request { poll_interval_ms: Some(n as i32), ..o },
            None => with_error(o, complaint(f)),
        },
        Flag::Depth => match number(v) {
            Some(n) => Request { depth: Some(within(n, 0, MAX_DEPTH as int) as i32), ..o },
            None => with_error(o, complaint(f)),
        },
        Flag::ActiveSecs => match number(v) {
            Some(n) => Request {
                active_seconds: Some(within(n, 1, i32::MAX as int) as i32),
                ..o
            },
            None => with_error(o, complaint(f)),
        },
        Flag::MaxWindows => match number(v) {
            Some(n) => Request {
                max_windows: Some(within(n, 1, MAX_WINDOWS_CEILING as int) as i32),
                ..o
            },
            None => with_error(o, complaint(f)),
        },
        _ => o,
    }
}

/// A request with an argument that is no option: the first one, unless it begins with a dash, is
/// the directory.
pub open spec fn with_word(o: Request, a: Seq<char>) -> Request {
    if !(a.len() > 0 && a[0] == '-') && o.directory is None {
        Request { directory: Some(a), ..o }
    } else {
        with_error(o, "unknown argument: "@ + a)
    }
}

/// The request that `o` becomes with the arguments from the `i`-th on. `lowered` are the arguments
/// in lower case.
pub open spec fn request_from(
    args: Seq<Seq<char>>,
    lowered: Seq<Seq<char>>,
    i: int,
    o: Request,
) -> Request
    decreases args.len() - i,
{
    if i < 0 || i >= args.len() {
        o
    } else {
        match flag_of(lowered[i]) {
            None => request_from(args, lowered, i + 1, with_word(o, args[i])),
            Some(f) => if is_switch(f) {
                request_from(args, lowered, i + 1, with_switch(o, f))
            } else if i + 1 < args.len() {
                request_from(args, lowered, i + 2, with_value(o, f, args[i + 1]))
            } else {
                request_from(args, lowered, i + 1, with_error(o, complaint(f)))
            },
        }
    }
}

/// What the arguments ask for.
pub open spec fn request(args: Seq<Seq<char>>, lowered: Seq<Seq<char>>) -> Request {
    request_from(args, lowered, 0, nothing())
}

/// The arguments in lower case.
pub open spec fn lowered_args(args: Seq<Seq<char>>) -> Seq<Seq<char>> {
    args.map_values(|a: Seq<char>| strings::lowercase(a))
}

// ---------------------------------------------------------------------------------------------
// Parsing
// ---------------------------------------------------------------------------------------------

fn flag_named(lower: &str) -> (r: Option<Flag>)
    ensures
        r == flag_of(lower@),
{
    if strings::same_str(lower, "--help") || strings::same_str(lower, "-h") || strings::same_str(
        lower,
        "/?",
    ) {
        Some(Flag::Help)
    } else if strings::same_str(lower, "--version") {
        Some(Flag::Version)
    } else if strings::same_str(lower, "--license") {
        Some(Flag::License)
    } else if strings::same_str(lower, "--pattern") || strings::same_str(lower, "-p") {
        Some(Flag::Pattern)
    } else if strings::same_str(lower, "--patterns") {
        Some(Flag::Patterns)
    } else if strings::same_str(lower, "--poll-ms") {
        Some(Flag::PollMs)
    } else if strings::same_str(lower, "--depth") || strings::same_str(lower, "-d") {
        Some(Flag::Depth)
    } else if strings::same_str(lower, "--no-open") {
        Some(Flag::NoOpen)
    } else if strings::same_str(lower, "--log-dir") {
        Some(Flag::LogDir)
    } else if strings::same_str(lower, "--active-secs") {
        Some(Flag::ActiveSecs)
    } else if strings::same_str(lower, "--max-windows") || strings::same_str(lower, "-w") {
        Some(Flag::MaxWindows)
    } else {
        None
    }
}

fn complaint_text(f: Flag) -> (r: String)
    ensures
        r@ == complaint(f),
{
    match f {
        Flag::Pattern => "--pattern requires a glob".to_owned(),
        Flag::Patterns => "--patterns requires a ;-separated list".to_owned(),
        Flag::PollMs => "--poll-ms requires an integer".to_owned(),
        Flag::Depth => "--depth requires a non-negative integer".to_owned(),
        Flag::LogDir => "--log-dir requires a directory path".to_owned(),
        Flag::ActiveSecs => "--active-secs requires an integer".to_owned(),
        Flag::MaxWindows => "--max-windows requires an integer".to_owned(),
        _ => String::new(),
    }
}

/// `v`, but no less than `lo` and no more than `hi`.
pub fn clamp_i32(v: i32, lo: i32, hi: i32) -> (r: i32)
    ensures
        r == within(v as int, lo as int, hi as int),
{
    if v < lo {
        lo
    } else if v > hi {
        hi
    } else {
        v
    }
}

impl Default for CliOptions {
    fn default() -> (r: Self)
        ensures
            r@ == nothing(),
    {
        let r = CliOptions {
            directory: None,
            patterns: Vec::new(),
            poll_interval_ms: None,
            depth: None,
            no_open: false,
            active_seconds: None,
            max_windows: None,
            show_help: false,
            show_version: false,
            show_license: false,
            log_dir: None,
            errors: Vec::new(),
        };
        assert(r@.patterns =~= Seq::<Seq<char>>::empty());
        assert(r@.errors =~= Seq::<Seq<char>>::empty());
        r
    }
}

impl CliOptions {
    /// Reads a command line, the program's name aside. Options are told without regard to case.
    pub fn parse(args: &[String]) -> (r: CliOptions)
        ensures
            r@ == request(strings::views(args@), lowered_args(strings::views(args@))),
    {
        let mut lowered: Vec<String> = Vec::new();
        let mut i: usize = 0;
        while i < args.len()
            invariant
                i <= args@.len(),
                lowered@.len() == i,
                forall|k: int|
                    0 <= k < i ==> (#[trigger] lowered@[k])@ == strings::lowercase(args@[k]@),
            decreases args@.len() - i,
        {
            lowered.push(strings::to_lowercase(args[i].as_str()));
            i += 1;
        }
        assert(strings::views(lowered@) =~= lowered_args(strings::views(args@)));
        CliOptions::parse_folded(args, lowered.as_slice())
    }

    /// Reads a command line of which `lowered` holds each argument in lower case.
    pub fn parse_folded(args: &[String], lowered: &[String]) -> (r: CliOptions)
        requires
            args@.len() == lowered@.len(),
        ensures
            r@ == request(strings::views(args@), strings::views(lowered@)),
    {
        let mut o = CliOptions::default();
        let mut i: usize = 0;
        let total = args.len();
        while i < total
            invariant
                i <= args@.len() == lowered@.len() == total,
                request_from(strings::views(args@), strings::views(lowered@), i as int, o@)
                    == request(strings::views(args@), strings::views(lowered@)),
            decreases args@.len() - i,
        {
            match flag_named(lowered[i].as_str()) {
                None => {
                    o.take_word(args[i].as_str());
                    i += 1;
                },
                Some(f) => {
                    let switch = match f {
                        Flag::Help | Flag::Version | Flag::License | Flag::NoOpen => true,
                        _ => false,
                    };
                    if switch {
                        o.throw_switch(f);
                        i += 1;
                    } else if i < total - 1 {
                        o.take_value(f, args[i + 1].as_str());
                        i += 2;
                    } else {
                        o.complain(complaint_text(f));
                        i += 1;
                    }
                },
            }
        }
        o
    }

    fn complain(&mut self, e: String)
        ensures
            final(self)@ == with_error(old(self)@, e@),
    {
        proof {
            strings::lemma_views_push(self.errors@, e);
        }
        self.errors.push(e);
    }

    fn throw_switch(&mut self, f: Flag)
        ensures
            final(self)@ == with_switch(old(self)@, f),
    {
        match f {
            Flag::Help => {
                self.show_help = true;
            },
            Flag::Version => {
                self.show_version = true;
            },
            Flag::License => {
                self.show_license = true;
            },
            Flag::NoOpen => {
                self.no_open = true;
            },
            _ => {},
        }
    }

    fn take_word(&mut self, a: &str)
        ensures
            final(self)@ == with_word(old(self)@, a@),
    {
        let cs = strings::chars_of(a);
        let dashed = cs.len() > 0 && cs[0] == '-';
        if !dashed && self.directory.is_none() {
            self.directory = Some(a.to_owned());
        } else {
            let mut e = "unknown argument: ".to_owned();
            e.push_str(a);
            self.complain(e);
        }
    }

    fn take_value(&mut self, f: Flag, v: &str)
        ensures
            final(self)@ == with_value(old(self)@, f, v@),
    {
        match f {
            Flag::Pattern => {
                let p = v.to_owned();
                proof {
                    strings::lemma_views_push(self.patterns@, p);
                }
                self.patterns.push(p);
            },
            Flag::Patterns => {
                let ps = strings::split_at_either(v, ';', ',');
                let mut more = glob::kept(ps.as_slice());
                let ghost before = self.patterns@;
                let ghost added = more@;
                self.patterns.append(&mut more);
                assert(strings::views(self.patterns@) =~= strings::views(before) + strings::views(
                    added,
                ));
            },
            Flag::LogDir => {
                self.log_dir = Some(v.to_owned());
            },
            Flag::PollMs => match strings::parse_i32(v) {
                Some(n) => {
                    self.poll_interval_ms = Some(n);
                },
                None => {
                    self.complain(complaint_text(f));
                },
            },
            Flag::Depth => match strings::parse_i32(v) {
                Some(n) => {
                    self.depth = Some(clamp_i32(n, 0, MAX_DEPTH));
                },
                None => {
                    self.complain(complaint_text(f));
                },
            },
            Flag::ActiveSecs => match strings::parse_i32(v) {
                Some(n) => {
                    self.active_seconds = Some(clamp_i32(n, 1, i32::MAX));
                },
                None => {
                    self.complain(complaint_text(f));
                },
            },
            Flag::MaxWindows => match strings::parse_i32(v) {
                Some(n) => {
                    self.max_windows = Some(clamp_i32(n, 1, MAX_WINDOWS_CEILING));
                },
                None => {
                    self.complain(complaint_text(f));
                },
            },
            _ => {},
        }
    }

    /// The help text.
    pub fn help_text() -> (r: String)
        ensures
            r@ == help_view(),
    {
        let mut out = "\n".to_owned();
        out.push_str(build_info::banner());
        out.push_str(HELP_INTRO);
        out.push_str(options_text().as_str());
        out.push_str("\nDefaults: patterns ");
        out.push_str(GlobMatcher::DEFAULT_PATTERNS_STR);
        out.push_str(HELP_TAIL);
        assert(out@ =~= help_view());
        out
    }
}

// ---------------------------------------------------------------------------------------------
// Help
// ---------------------------------------------------------------------------------------------

/// The column at which the descriptions of the options start, after the margin.
pub const DESC_COL: usize = 24;

/// What the help text says before the options.
pub const HELP_INTRO: &'static str = "\n\nWatches a directory and opens a tail window for each new/appended .log/.txt file.\n\nUsage: DirWatch [directory] [options]\n\n";

/// What the help text says after the default patterns.
pub const HELP_TAIL: &'static str = "\n\nEnvironment:\n  DIRWATCH_DEBUG=1       Write a verbose diagnostic trace to DirWatch.log\n                        (default: only real errors are logged)\n\nLogs:\n  DirWatch.log (errors; the trace with DIRWATCH_DEBUG) and DirWatch_crash.log are\n  written to --log-dir if given, else the per-user log directory:\n    Windows  %LOCALAPPDATA%\\DirWatch\\\n    macOS    ~/Library/Logs/DirWatch/\n    Linux    $XDG_STATE_HOME/dirwatch/  (default ~/.local/state/dirwatch/)\n  falling back to the directory beside the executable. Each log is capped at\n  5 MB and rotated once to a .1 file. A double-clicked launch has no command\n  line: put --log-dir in the shortcut's target to use it there.\n\nWith no options, DirWatch watches the current directory. Watch multiple\ndirectories by launching one instance per directory.\n";

/// `n` spaces.
pub open spec fn spaces(n: nat) -> Seq<char> {
    Seq::new(n, |i: int| ' ')
}

/// How many spaces stand between an option and its description: enough to reach the column, but at
/// least one.
pub open spec fn gap_after(token: Seq<char>) -> nat {
    let n = encode_utf8(token).len();
    if n + 1 < DESC_COL {
        (DESC_COL - n) as nat
    } else {
        1
    }
}

/// The line of an option.
pub open spec fn option_line(token: Seq<char>, desc: Seq<char>) -> Seq<char> {
    "  "@ + token + spaces(gap_after(token)) + desc + "\n"@
}

/// The lines of all options.
pub open spec fn option_lines() -> Seq<char> {
    option_line(
        "[directory]"@,
        "Directory to watch (positional; default: current directory)"@,
    ) + option_line(
        "-h, --help"@,
        "Show this help"@,
    ) + option_line(
        "-d, --depth <n>"@,
        "Watch subdirectories down to n levels (0 = top level, max 10)"@,
    ) + option_line(
        "-w, --max-windows <n>"@,
        "Max tail windows open at once (default 10, max 50)"@,
    ) + option_line(
        "-p, --pattern <glob>"@,
        "Add a filename pattern (repeatable), e.g. step*.log"@,
    ) + option_line(
        "    --patterns <list>"@,
        "Semicolon/comma-separated patterns, e.g. \"*.log;*.txt\""@,
    ) + option_line(
        "    --poll-ms <n>"@,
        "Polling fallback interval in ms (default 250)"@,
    ) + option_line(
        "    --active-secs <n>"@,
        "Mark a file 'active' for n seconds after a write (default 5)"@,
    ) + option_line(
        "    --no-open"@,
        "Do not auto-open windows; open only on click"@,
    ) + option_line(
        "    --log-dir <path>"@,
        "Write DirWatch.log / DirWatch_crash.log here (see Logs below)"@,
    ) + option_line(
        "    --version"@,
        "Print build ID and exit"@,
    ) + option_line(
        "    --license"@,
        "Print the license (MIT) and exit"@,
    )
}

/// The help text.
pub open spec fn help_view() -> Seq<char> {
    "\n"@ + build_info::BUILD_ID@ + HELP_INTRO@ + option_lines() + "\nDefaults: patterns "@
        + GlobMatcher::DEFAULT_PATTERNS_STR@ + HELP_TAIL@
}

fn push_option(out: &mut String, token: &str, desc: &str)
    ensures
        final(out)@ == old(out)@ + option_line(token@, desc@),
{
    let ghost before = out@;
    let n = token.as_bytes().len();
    let pad: usize = if n < DESC_COL - 1 {
        DESC_COL - n
    } else {
        1
    };
    out.push_str("  ");
    out.push_str(token);
    let mut i: usize = 0;
    while i < pad
        invariant
            i <= pad,
            out@ == before + "  "@ + token@ + spaces(i as nat),
        decreases pad - i,
    {
        out.push(' ');
        i += 1;
        assert(out@ =~= before + "  "@ + token@ + spaces(i as nat));
    }
    out.push_str(desc);
    out.push_str("\n");
    assert(out@ =~= before + option_line(token@, desc@));
}

fn options_text() -> (r: String)
    ensures
        r@ == option_lines(),
{
    let mut out = String::new();
    push_option(
        &mut out,
        "[directory]",
        "Directory to watch (positional; default: current directory)",
    );
    push_option(
        &mut out,
        "-h, --help",
        "Show this help",
    );
    push_option(
        &mut out,
        "-d, --depth <n>",
        "Watch subdirectories down to n levels (0 = top level, max 10)",
    );
    push_option(
        &mut out,
        "-w, --max-windows <n>",
        "Max tail windows open at once (default 10, max 50)",
    );
    push_option(
        &mut out,
        "-p, --pattern <glob>",
        "Add a filename pattern (repeatable), e.g. step*.log",
    );
    push_option(
        &mut out,
        "    --patterns <list>",
        "Semicolon/comma-separated patterns, e.g. \"*.log;*.txt\"",
    );
    push_option(
        &mut out,
        "    --poll-ms <n>",
        "Polling fallback interval in ms (default 250)",
    );
    push_option(
        &mut out,
        "    --active-secs <n>",
        "Mark a file 'active' for n seconds after a write (default 5)",
    );
    push_option(
        &mut out,
        "    --no-open",
        "Do not auto-open windows; open only on click",
    );
    push_option(
        &mut out,
        "    --log-dir <path>",
        "Write DirWatch.log / DirWatch_crash.log here (see Logs below)",
    );
    push_option(
        &mut out,
        "    --version",
        "Print build ID and exit",
    );
    push_option(
        &mut out,
        "    --license",
        "Print the license (MIT) and exit",
    );
    assert(out@ =~= option_lines());
    out
}

// ---------------------------------------------------------------------------------------------
// Laws
// ---------------------------------------------------------------------------------------------

/// Numbers that are in their ranges.
pub open spec fn in_range(o: Request) -> bool {
    &&& o.depth matches Some(d) ==> 0 <= d <= MAX_DEPTH
    &&& o.active_seconds matches Some(s) ==> 1 <= s
    &&& o.max_windows matches Some(w) ==> 1 <= w <= MAX_WINDOWS_CEILING
}

/// Whatever is typed, depth, active time and window count come out within their ranges.
pub proof fn numbers_come_out_in_range(args: Seq<Seq<char>>, lowered: Seq<Seq<char>>)
    ensures
        in_range(request(args, lowered)),
{
    lemma_in_range(args, lowered, 0, nothing());
}

proof fn lemma_in_range(args: Seq<Seq<char>>, lowered: Seq<Seq<char>>, i: int, o: Request)
    requires
        in_range(o),
    ensures
        in_range(request_from(args, lowered, i, o)),
    decreases args.len() - i,
{
    if 0 <= i < args.len() {
        match flag_of(lowered[i]) {
            None => {
                lemma_in_range(args, lowered, i + 1, with_word(o, args[i]));
            },
            Some(f) => {
                if is_switch(f) {
                    lemma_in_range(args, lowered, i + 1, with_switch(o, f));
                } else if i + 1 < args.len() {
                    lemma_in_range(args, lowered, i + 2, with_value(o, f, args[i + 1]));
                } else {
                    lemma_in_range(args, lowered, i + 1, with_error(o, complaint(f)));
                }
            },
        }
    }
}

/// The first directory stands, and a complaint once made stays made: further arguments change
/// neither.
pub proof fn first_directory_stands(
    args: Seq<Seq<char>>,
    lowered: Seq<Seq<char>>,
    i: int,
    o: Request,
)
    ensures
        o.directory is Some ==> request_from(args, lowered, i, o).directory == o.directory,
        o.errors.is_prefix_of(request_from(args, lowered, i, o).errors),
    decreases args.len() - i,
{
    if 0 <= i < args.len() {
        let next = match flag_of(lowered[i]) {
            None => with_word(o, args[i]),
            Some(f) => if is_switch(f) {
                with_switch(o, f)
            } else if i + 1 < args.len() {
                with_value(o, f, args[i + 1])
            } else {
                with_error(o, complaint(f))
            },
        };
        let step: int = match flag_of(lowered[i]) {
            Some(f) if !is_switch(f) && i + 1 < args.len() => 2,
            _ => 1,
        };
        first_directory_stands(args, lowered, i + step, next);
        assert(o.errors.is_prefix_of(next.errors));
    }
}

/// The description of every option starts at the same column, as long as the option leaves room.
pub proof fn descriptions_line_up(token: Seq<char>, desc: Seq<char>)
    requires
        is_ascii_chars(token),
        token.len() < DESC_COL,
    ensures
        option_line(token, desc).subrange(2 + DESC_COL as int, 2 + DESC_COL + desc.len()) == desc,
        option_line(token, desc).subrange(2, 2 + token.len() as int) == token,
        forall|i: int|
            2 + token.len() <= i < 2 + DESC_COL ==> #[trigger] option_line(token, desc)[i] == ' ',
{
    is_ascii_chars_encode_utf8(token);
    reveal_strlit("  ");
    let line = option_line(token, desc);
    assert(line.subrange(2 + DESC_COL as int, 2 + DESC_COL + desc.len()) =~= desc);
    assert(line.subrange(2, 2 + token.len() as int) =~= token);
}

/// Whether a command line, from the `i`-th argument on, ends with no option that still waits for
/// its value. `lowered` are the arguments in lower case.
pub open spec fn complete_from(lowered: Seq<Seq<char>>, i: int) -> bool
    decreases lowered.len() - i,
{
    if i < 0 || i >= lowered.len() {
        i == lowered.len()
    } else if lowered[i] == "-p"@ || lowered[i] == "--pattern"@ || lowered[i] == "--patterns"@
        || lowered[i] == "--poll-ms"@ || lowered[i] == "-d"@ || lowered[i] == "--depth"@
        || lowered[i] == "--log-dir"@ || lowered[i] == "--active-secs"@ || lowered[i] == "-w"@
        || lowered[i] == "--max-windows"@ {
        i + 1 < lowered.len() && complete_from(lowered, i + 2)
    } else {
        complete_from(lowered, i + 1)
    }
}

/// What every spelling stands for.
proof fn lemma_spellings(l: Seq<char>)
    ensures
        (l == "-p"@ || l == "--pattern"@) == (flag_of(l) == Some(Flag::Pattern)),
        (l == "--patterns"@) == (flag_of(l) == Some(Flag::Patterns)),
        (l == "--poll-ms"@) == (flag_of(l) == Some(Flag::PollMs)),
        (l == "-d"@ || l == "--depth"@) == (flag_of(l) == Some(Flag::Depth)),
        (l == "--log-dir"@) == (flag_of(l) == Some(Flag::LogDir)),
        (l == "--active-secs"@) == (flag_of(l) == Some(Flag::ActiveSecs)),
        (l == "-w"@ || l == "--max-windows"@) == (flag_of(l) == Some(Flag::MaxWindows)),
        (l == "-h"@ || l == "--help"@ || l == "/?"@) == (flag_of(l) == Some(Flag::Help)),
        (l == "--version"@) == (flag_of(l) == Some(Flag::Version)),
        (l == "--license"@) == (flag_of(l) == Some(Flag::License)),
        (l == "--no-open"@) == (flag_of(l) == Some(Flag::NoOpen)),
{
    reveal_strlit("-p");
    reveal_strlit("--pattern");
    reveal_strlit("--patterns");
    reveal_strlit("--poll-ms");
    reveal_strlit("-d");
    reveal_strlit("--depth");
    reveal_strlit("--log-dir");
    reveal_strlit("--active-secs");
    reveal_strlit("-w");
    reveal_strlit("--max-windows");
    reveal_strlit("-h");
    reveal_strlit("--help");
    reveal_strlit("/?");
    reveal_strlit("--version");
    reveal_strlit("--license");
    reveal_strlit("--no-open");
    assert("-p"@[1] == 'p' && "-d"@[1] == 'd' && "-w"@[1] == 'w' && "-h"@[1] == 'h' && "/?"@[1]
        == '?');
    assert("--pattern"@[2] == 'p' && "--poll-ms"@[2] == 'p' && "--log-dir"@[2] == 'l'
        && "--version"@[2] == 'v' && "--license"@[2] == 'l' && "--no-open"@[2] == 'n');
    assert("--pattern"@[3] == 'a' && "--poll-ms"@[3] == 'o' && "--log-dir"@[3] == 'o'
        && "--license"@[3] == 'i');
    assert("--active-secs"@[2] == 'a' && "--max-windows"@[2] == 'm');
    assert("--patterns"@.len() == 10 && "--depth"@.len() == 7 && "--help"@.len() == 6);
    assert("-p"@.len() == 2 && "-d"@.len() == 2 && "-w"@.len() == 2 && "-h"@.len() == 2
        && "/?"@.len() == 2);
    assert("--pattern"@.len() == 9 && "--poll-ms"@.len() == 9 && "--log-dir"@.len() == 9
        && "--version"@.len() == 9 && "--license"@.len() == 9 && "--no-open"@.len() == 9);
    assert("--active-secs"@.len() == 13 && "--max-windows"@.len() == 13);
}

/// Arguments before the first that is read have no say.
proof fn lemma_shift(
    a: Seq<Seq<char>>,
    la: Seq<Seq<char>>,
    b: Seq<Seq<char>>,
    lb: Seq<Seq<char>>,
    j: int,
    o: Request,
)
    requires
        a.len() == la.len(),
        b.len() == lb.len(),
        0 <= j,
    ensures
        request_from(a + b, la + lb, a.len() + j, o) == request_from(b, lb, j, o),
    decreases b.len() - j,
{
    if j < b.len() {
        assert((a + b)[a.len() + j] == b[j]);
        assert((la + lb)[a.len() + j] == lb[j]);
        if j + 1 < b.len() {
            assert((a + b)[a.len() + j + 1] == b[j + 1]);
        }
        match flag_of(lb[j]) {
            None => {
                lemma_shift(a, la, b, lb, j + 1, with_word(o, b[j]));
            },
            Some(f) => {
                if is_switch(f) {
                    lemma_shift(a, la, b, lb, j + 1, with_switch(o, f));
                } else if j + 1 < b.len() {
                    lemma_shift(a, la, b, lb, j + 2, with_value(o, f, b[j + 1]));
                } else {
                    lemma_shift(a, la, b, lb, j + 1, with_error(o, complaint(f)));
                }
            },
        }
    }
}

/// Arguments after a complete command line add to what it asks for.
proof fn lemma_in_turn(
    a: Seq<Seq<char>>,
    la: Seq<Seq<char>>,
    b: Seq<Seq<char>>,
    lb: Seq<Seq<char>>,
    i: int,
    o: Request,
)
    requires
        a.len() == la.len(),
        b.len() == lb.len(),
        0 <= i <= a.len(),
        complete_from(la, i),
    ensures
        request_from(a + b, la + lb, i, o) == request_from(b, lb, 0, request_from(a, la, i, o)),
    decreases a.len() - i,
{
    if i < a.len() {
        assert((a + b)[i] == a[i]);
        assert((la + lb)[i] == la[i]);
        lemma_spellings(la[i]);
        match flag_of(la[i]) {
            None => {
                lemma_in_turn(a, la, b, lb, i + 1, with_word(o, a[i]));
            },
            Some(f) => {
                if is_switch(f) {
                    lemma_in_turn(a, la, b, lb, i + 1, with_switch(o, f));
                } else {
                    assert(complete_from(la, i + 2));
                    assert(i + 1 < a.len());
                    assert((a + b)[i + 1] == a[i + 1]);
                    lemma_in_turn(a, la, b, lb, i + 2, with_value(o, f, a[i + 1]));
                }
            },
        }
    } else {
        lemma_shift(a, la, b, lb, 0, o);
    }
}

/// A command line with nothing on it asks for nothing.
pub proof fn an_empty_line_asks_for_nothing()
    ensures
        request(seq![], seq![]) == (Request {
            directory: None,
            patterns: seq![],
            poll_interval_ms: None,
            depth: None,
            no_open: false,
            active_seconds: None,
            max_windows: None,
            show_help: false,
            show_version: false,
            show_license: false,
            log_dir: None,
            errors: seq![],
        }),
{
}

/// Every option that takes a value has its effect, and no other: after a complete command line,
/// the option `a`, in lower case `l`, and the value `v` change the one field that they are about.
/// A pattern is added to the others, a list of patterns likewise, and a number is brought into its
/// range. A value that is no number, or too large a one, changes nothing but is complained of.
pub proof fn every_option_has_its_effect(
    args: Seq<Seq<char>>,
    lowered: Seq<Seq<char>>,
    a: Seq<char>,
    l: Seq<char>,
    v: Seq<char>,
    lv: Seq<char>,
)
    requires
        args.len() == lowered.len(),
        complete_from(lowered, 0),
    ensures
        ({
            let r = request(args, lowered);
            let next = request(args.push(a).push(v), lowered.push(l).push(lv));
            let n = strings::int_value(v);
            let fits = n is Some && i32::MIN <= n->0 <= i32::MAX;
            &&& l == "-p"@ || l == "--pattern"@ ==> next == (Request {
                patterns: r.patterns.push(v),
                ..r
            })
            &&& l == "--patterns"@ ==> next == (Request {
                patterns: r.patterns + glob::kept_patterns(strings::pieces(v, ';', ',')),
                ..r
            })
            &&& l == "--log-dir"@ ==> next == (Request { log_dir: Some(v), ..r })
            &&& l == "--poll-ms"@ && fits ==> next == (Request {
                poll_interval_ms: Some(n->0 as i32),
                ..r
            })
            &&& (l == "-d"@ || l == "--depth"@) && fits ==> next == (Request {
                depth: Some(
                    (if n->0 < 0 {
                        0
                    } else if n->0 > 10 {
                        10
                    } else {
                        n->0
                    }) as i32,
                ),
                ..r
            })
            &&& l == "--active-secs"@ && fits ==> next == (Request {
                active_seconds: Some(
                    (if n->0 < 1 {
                        1
                    } else {
                        n->0
                    }) as i32,
                ),
                ..r
            })
            &&& (l == "-w"@ || l == "--max-windows"@) && fits ==> next == (Request {
                max_windows: Some(
                    (if n->0 < 1 {
                        1
                    } else if n->0 > 50 {
                        50
                    } else {
                        n->0
                    }) as i32,
                ),
                ..r
            })
            &&& l == "--poll-ms"@ && !fits ==> next == (Request {
                errors: r.errors.push("--poll-ms requires an integer"@),
                ..r
            })
            &&& (l == "-d"@ || l == "--depth"@) && !fits ==> next == (Request {
                errors: r.errors.push("--depth requires a non-negative integer"@),
                ..r
            })
            &&& l == "--active-secs"@ && !fits ==> next == (Request {
                errors: r.errors.push("--active-secs requires an integer"@),
                ..r
            })
            &&& (l == "-w"@ || l == "--max-windows"@) && !fits ==> next == (Request {
                errors: r.errors.push("--max-windows requires an integer"@),
                ..r
            })
        }),
{
    let b = seq![a, v];
    let lb = seq![l, lv];
    let r = request(args, lowered);
    lemma_in_turn(args, lowered, b, lb, 0, nothing());
    lemma_spellings(l);
    assert(args.push(a).push(v) =~= args + b);
    assert(lowered.push(l).push(lv) =~= lowered + lb);
    assert(lb[0] == l && b[0] == a && b[1] == v);
    if let Some(f) = flag_of(l) {
        if !is_switch(f) {
            assert(request_from(b, lb, 0, r) == request_from(b, lb, 2, with_value(r, f, v)));
            assert(request_from(b, lb, 2, with_value(r, f, v)) == with_value(r, f, v));
        }
    }
}

/// Every switch has its effect, and no other.
pub proof fn every_switch_has_its_effect(
    args: Seq<Seq<char>>,
    lowered: Seq<Seq<char>>,
    a: Seq<char>,
    l: Seq<char>,
)
    requires
        args.len() == lowered.len(),
        complete_from(lowered, 0),
    ensures
        ({
            let r = request(args, lowered);
            let next = request(args.push(a), lowered.push(l));
            &&& l == "-h"@ || l == "--help"@ || l == "/?"@ ==> next == (Request {
                show_help: true,
                ..r
            })
            &&& l == "--version"@ ==> next == (Request { show_version: true, ..r })
            &&& l == "--license"@ ==> next == (Request { show_license: true, ..r })
            &&& l == "--no-open"@ ==> next == (Request { no_open: true, ..r })
        }),
{
    lemma_one_more(args, lowered, a, l);
}

/// An argument that is no option is the directory to watch, if it is the first and has no dash in
/// front. Any other is complained of, and changes nothing else.
pub proof fn a_word_is_the_directory(
    args: Seq<Seq<char>>,
    lowered: Seq<Seq<char>>,
    a: Seq<char>,
    l: Seq<char>,
)
    requires
        args.len() == lowered.len(),
        complete_from(lowered, 0),
        l != "-h"@ && l != "--help"@ && l != "/?"@ && l != "--version"@ && l != "--license"@ && l
            != "--no-open"@ && l != "-p"@ && l != "--pattern"@ && l != "--patterns"@ && l
            != "--poll-ms"@ && l != "-d"@ && l != "--depth"@ && l != "--log-dir"@ && l
            != "--active-secs"@ && l != "-w"@ && l != "--max-windows"@,
    ensures
        ({
            let r = request(args, lowered);
            let next = request(args.push(a), lowered.push(l));
            &&& r.directory is None && (a.len() == 0 || a[0] != '-') ==> next == (Request {
                directory: Some(a),
                ..r
            })
            &&& r.directory is Some || (a.len() > 0 && a[0] == '-') ==> next == (Request {
                errors: r.errors.push("unknown argument: "@ + a),
                ..r
            })
        }),
{
    lemma_one_more(args, lowered, a, l);
}

/// An option that lacks its value is complained of, and changes nothing else.
pub proof fn an_option_without_its_value_is_complained_of(
    args: Seq<Seq<char>>,
    lowered: Seq<Seq<char>>,
    a: Seq<char>,
    l: Seq<char>,
)
    requires
        args.len() == lowered.len(),
        complete_from(lowered, 0),
    ensures
        ({
            let r = request(args, lowered);
            let next = request(args.push(a), lowered.push(l));
            &&& l == "-p"@ || l == "--pattern"@ ==> next == (Request {
                errors: r.errors.push("--pattern requires a glob"@),
                ..r
            })
            &&& l == "--patterns"@ ==> next == (Request {
                errors: r.errors.push("--patterns requires a ;-separated list"@),
                ..r
            })
            &&& l == "--poll-ms"@ ==> next == (Request {
                errors: r.errors.push("--poll-ms requires an integer"@),
                ..r
            })
            &&& l == "-d"@ || l == "--depth"@ ==> next == (Request {
                errors: r.errors.push("--depth requires a non-negative integer"@),
                ..r
            })
            &&& l == "--log-dir"@ ==> next == (Request {
                errors: r.errors.push("--log-dir requires a directory path"@),
                ..r
            })
            &&& l == "--active-secs"@ ==> next == (Request {
                errors: r.errors.push("--active-secs requires an integer"@),
                ..r
            })
            &&& l == "-w"@ || l == "--max-windows"@ ==> next == (Request {
                errors: r.errors.push("--max-windows requires an integer"@),
                ..r
            })
        }),
{
    lemma_one_more(args, lowered, a, l);
}

proof fn lemma_one_more(
    args: Seq<Seq<char>>,
    lowered: Seq<Seq<char>>,
    a: Seq<char>,
    l: Seq<char>,
)
    requires
        args.len() == lowered.len(),
        complete_from(lowered, 0),
    ensures
        ({
            let r = request(args, lowered);
            request(args.push(a), lowered.push(l)) == (match flag_of(l) {
                None => with_word(r, a),
                Some(f) => if is_switch(f) {
                    with_switch(r, f)
                } else {
                    with_error(r, complaint(f))
                },
            })
        }),
        (l == "-p"@ || l == "--pattern"@) == (flag_of(l) == Some(Flag::Pattern)),
        (l == "--patterns"@) == (flag_of(l) == Some(Flag::Patterns)),
        (l == "--poll-ms"@) == (flag_of(l) == Some(Flag::PollMs)),
        (l == "-d"@ || l == "--depth"@) == (flag_of(l) == Some(Flag::Depth)),
        (l == "--log-dir"@) == (flag_of(l) == Some(Flag::LogDir)),
        (l == "--active-secs"@) == (flag_of(l) == Some(Flag::ActiveSecs)),
        (l == "-w"@ || l == "--max-windows"@) == (flag_of(l) == Some(Flag::MaxWindows)),
        (l == "-h"@ || l == "--help"@ || l == "/?"@) == (flag_of(l) == Some(Flag::Help)),
        (l == "--version"@) == (flag_of(l) == Some(Flag::Version)),
        (l == "--license"@) == (flag_of(l) == Some(Flag::License)),
        (l == "--no-open"@) == (flag_of(l) == Some(Flag::NoOpen)),
{
    let b = seq![a];
    let lb = seq![l];
    let r = request(args, lowered);
    lemma_in_turn(args, lowered, b, lb, 0, nothing());
    lemma_spellings(l);
    assert(args.push(a) =~= args + b);
    assert(lowered.push(l) =~= lowered + lb);
    assert(lb[0] == l && b[0] == a);
    let next = match flag_of(l) {
        None => with_word(r, a),
        Some(f) => if is_switch(f) {
            with_switch(r, f)
        } else {
            with_error(r, complaint(f))
        },
    };
    assert(request_from(b, lb, 0, r) == request_from(b, lb, 1, next));
    assert(request_from(b, lb, 1, next) == next);
}

/// The patterns of a command line of pairs, each an option for a pattern and the pattern, are these
/// patterns in their order, and nothing else is asked for.
pub proof fn patterns_are_taken_in_order(args: Seq<Seq<char>>, lowered: Seq<Seq<char>>, n: nat)
    requires
        args.len() == 2 * n,
        lowered.len() == 2 * n,
        forall|k: int|
            0 <= k < n ==> (#[trigger] lowered[2 * k]) == "-p"@ || lowered[2 * k] == "--pattern"@,
    ensures
        request(args, lowered).patterns == Seq::new(n, |k: int| args[2 * k + 1]),
        request(args, lowered) == (Request {
            patterns: request(args, lowered).patterns,
            ..request(seq![], seq![])
        }),
        complete_from(lowered, 0),
    decreases n,
{
    if n == 0 {
        assert(args =~= seq![]);
        assert(lowered =~= seq![]);
        assert(request(args, lowered).patterns =~= Seq::new(n, |k: int| args[2 * k + 1]));
    } else {
        let m = (n - 1) as nat;
        let a = args.take(2 * m as int);
        let l = lowered.take(2 * m as int);
        assert forall|k: int| 0 <= k < m implies (#[trigger] l[2 * k]) == "-p"@ || l[2 * k]
            == "--pattern"@ by {
            assert(l[2 * k] == lowered[2 * k]);
        }
        patterns_are_taken_in_order(a, l, m);
        let x = 2 * m as int;
        every_option_has_its_effect(a, l, args[x], lowered[x], args[x + 1], lowered[x + 1]);
        assert(a.push(args[x]).push(args[x + 1]) =~= args);
        assert(l.push(lowered[x]).push(lowered[x + 1]) =~= lowered);
        assert(lowered[2 * (m as int)] == "-p"@ || lowered[2 * (m as int)] == "--pattern"@);
        assert(request(args, lowered).patterns =~= Seq::new(n, |k: int| args[2 * k + 1]));
        lemma_complete_pair(l, lowered, 0);
    }
}

proof fn lemma_complete_pair(l: Seq<Seq<char>>, all: Seq<Seq<char>>, i: int)
    requires
        all.len() == l.len() + 2,
        forall|k: int| 0 <= k < l.len() ==> #[trigger] all[k] == l[k],
        all[l.len() as int] == "-p"@ || all[l.len() as int] == "--pattern"@,
        0 <= i <= l.len(),
        complete_from(l, i),
    ensures
        complete_from(all, i),
    decreases l.len() - i,
{
    if i < l.len() {
        assert(all[i] == l[i]);
        lemma_spellings(l[i]);
        if i + 2 <= l.len() && complete_from(l, i + 2) {
            lemma_complete_pair(l, all, i + 2);
        }
        if complete_from(l, i + 1) {
            lemma_complete_pair(l, all, i + 1);
        }
    } else {
        assert(complete_from(all, i + 2));
        assert(complete_from(all, i));
    }
}

} // verus!
