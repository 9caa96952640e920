//! What a command line leads to: a text, or the windows and what they watch.

use vstd::prelude::*;

use crate::build_info;
use crate::cli;
use crate::cli::CliOptions;
use crate::cli::Request;
use crate::runtime::Config;
use crate::runtime::WatchConfig;
use crate::settings::ModelOpts;
use crate::strings;
use crate::watch;

verus! {

/// How often the directory is looked through unless told otherwise, in milliseconds.
pub const DEFAULT_POLL_MS: i32 = 250;

/// What a command line leads to.
#[derive(Debug, Clone, Copy, PartialEq, Eq, Structural)]
pub enum LaunchPath {
    /// The version is shown.
    Version,
    /// The help text is shown.
    Help,
    /// The license is shown.
    License,
    /// What is wrong with the command line is shown.
    Error,
    /// The windows open.
    Gui,
}

/// What a command line leads to: a request for a text outranks everything, the version first, and
/// no window opens for a command line that is wrong.
pub open spec fn path_of(o: Request) -> LaunchPath {
    if o.show_version {
        LaunchPath::Version
    } else if o.show_help {
        LaunchPath::Help
    } else if o.show_license {
        LaunchPath::License
    } else if o.errors.len() > 0 {
        LaunchPath::Error
    } else {
        LaunchPath::Gui
    }
}

/// What a command line leads to.
pub fn decide_launch(opts: &CliOptions) -> (r: LaunchPath)
    ensures
        r == path_of(opts@),
{
    if opts.show_version {
        LaunchPath::Version
    } else if opts.show_help {
        LaunchPath::Help
    } else if opts.show_license {
        LaunchPath::License
    } else if opts.errors.len() > 0 {
        LaunchPath::Error
    } else {
        LaunchPath::Gui
    }
}

/// A text with one empty line before it and one after it. The last line of the text is ended first,
/// where the text does not end it.
pub open spec fn framed(body: Seq<char>) -> Seq<char> {
    seq!['\n'] + body + if body.len() > 0 && body.last() == '\n' {
        seq!['\n']
    } else {
        seq!['\n', '\n']
    }
}

/// A text with one empty line before it and one after it.
pub fn frame(body: &str) -> (r: String)
    ensures
        r@ == framed(body@),
{
    let cs = strings::chars_of(body);
    let mut out = String::new();
    out.push('\n');
    out.push_str(body);
    if cs.len() == 0 || cs[cs.len() - 1] != '\n' {
        out.push('\n');
    }
    out.push('\n');
    assert(out@ =~= framed(body@));
    out
}

/// One line for each thing that is wrong.
pub open spec fn error_lines(errors: Seq<Seq<char>>) -> Seq<char>
    decreases errors.len(),
{
    if errors.len() == 0 {
        seq![]
    } else {
        error_lines(errors.drop_last()) + "error: "@ + errors.last() + seq!['\n']
    }
}

/// What is shown of a command line that is wrong: the build, what is wrong, and the help text.
pub open spec fn error_words(errors: Seq<Seq<char>>) -> Seq<char> {
    build_info::BUILD_ID@ + seq!['\n'] + error_lines(errors) + seq!['\n'] + strings::trimmed_end(
        cli::help_view(),
    )
}

/// What is shown of a command line that is wrong.
pub fn error_text(errors: &[String]) -> (r: String)
    ensures
        r@ == error_words(strings::views(errors@)),
{
    let ghost all = strings::views(errors@);
    let ghost start = build_info::BUILD_ID@ + seq!['\n'];
    let mut out = build_info::banner().to_owned();
    out.push('\n');
    assert(out@ =~= start);
    let mut i: usize = 0;
    assert(all.take(0) =~= Seq::<Seq<char>>::empty());
    assert(start + error_lines(all.take(0)) =~= start);
    while i < errors.len()
        invariant
            i <= errors@.len(),
            all == strings::views(errors@),
            out@ == start + error_lines(all.take(i as int)),
        decreases errors@.len() - i,
    {
        let ghost before = out@;
        out.push_str("error: ");
        out.push_str(errors[i].as_str());
        out.push('\n');
        proof {
            assert(all.take(i as int + 1).drop_last() =~= all.take(i as int));
            assert(all.take(i as int + 1).last() == errors@[i as int]@);
            assert(out@ =~= start + error_lines(all.take(i as int + 1)));
        }
        i += 1;
    }
    assert(all.take(i as int) =~= all);
    out.push('\n');
    let help = strings::trim_end(CliOptions::help_text().as_str());
    out.push_str(help.as_str());
    assert(out@ =~= error_words(all));
    out
}

/// What is watched at the start: the directory named, or else the current one, with the numbers
/// brought into their ranges.
pub open spec fn config_of(o: Request, cwd: Seq<char>) -> Config {
    Config {
        directory: match o.directory {
            Some(d) => d,
            None => cwd,
        },
        patterns: o.patterns,
        poll_interval_ms: cli::within(
            match o.poll_interval_ms {
                Some(ms) => ms as int,
                None => DEFAULT_POLL_MS as int,
            },
            crate::POLL_INTERVAL_FLOOR_MS as int,
            crate::POLL_INTERVAL_CEILING_MS as int,
        ) as u32,
        depth: cli::within(
            match o.depth {
                Some(d) => d as int,
                None => 0,
            },
            0,
            watch::MAX_DEPTH as int,
        ) as i32,
    }
}

/// What is watched at the start.
pub fn launch_config(opts: &CliOptions, cwd: &str) -> (r: WatchConfig)
    ensures
        r@ == config_of(opts@, cwd@),
{
    let directory = match &opts.directory {
        Some(d) => d.clone(),
        None => cwd.to_owned(),
    };
    let poll = match opts.poll_interval_ms {
        Some(ms) => ms,
        None => DEFAULT_POLL_MS,
    };
    let depth = match opts.depth {
        Some(d) => d,
        None => 0,
    };
    WatchConfig {
        directory,
        patterns: strings::copy_all(opts.patterns.as_slice()),
        poll_interval_ms: cli::clamp_i32(
            poll,
            crate::POLL_INTERVAL_FLOOR_MS as i32,
            crate::POLL_INTERVAL_CEILING_MS as i32,
        ) as u32,
        depth: cli::clamp_i32(depth, 0, watch::MAX_DEPTH),
    }
}

/// What the command line says about windows.
pub fn model_opts(opts: &CliOptions) -> (r: ModelOpts)
    ensures
        r == (ModelOpts {
            no_open: opts@.no_open,
            active_seconds: opts@.active_seconds,
            max_windows: opts@.max_windows,
        }),
{
    ModelOpts {
        no_open: opts.no_open,
        active_seconds: opts.active_seconds,
        max_windows: opts.max_windows,
    }
}

/// Whatever the command line says, the interval and the depth are in their ranges.
pub proof fn launch_numbers_are_in_range(o: Request, cwd: Seq<char>)
    ensures
        crate::POLL_INTERVAL_FLOOR_MS <= config_of(o, cwd).poll_interval_ms
            <= crate::POLL_INTERVAL_CEILING_MS,
        0 <= config_of(o, cwd).depth <= watch::MAX_DEPTH,
{
}

/// A command line that is wrong never opens a window.
pub proof fn a_wrong_command_line_opens_nothing(o: Request)
    requires
        o.errors.len() > 0,
    ensures
        path_of(o) != LaunchPath::Gui,
{
}

/// A request for a text is met before anything else, the version before the help text and the help
/// text before the license. Where none is asked for, the windows open unless something is wrong.
pub proof fn a_text_comes_before_the_windows(o: Request)
    ensures
        o.show_version <==> path_of(o) is Version,
        o.show_help && !o.show_version <==> path_of(o) is Help,
        o.show_license && !o.show_version && !o.show_help <==> path_of(o) is License,
        path_of(o) is Gui <==> !o.show_version && !o.show_help && !o.show_license
            && o.errors.len() == 0,
        path_of(o) is Error <==> !o.show_version && !o.show_help && !o.show_license
            && o.errors.len() > 0,
{
}

/// A frame keeps its text, with a line feed in front of it and an empty line behind it.
pub proof fn a_frame_keeps_its_text(body: Seq<char>)
    ensures
        framed(body)[0] == '\n',
        framed(body).subrange(1, 1 + body.len() as int) == body,
        forall|i: int| body.len() < i < framed(body).len() ==> #[trigger] framed(body)[i] == '\n',
        framed(body).len() == (if body.len() > 0 && body[body.len() - 1] == '\n' {
            body.len() + 2
        } else {
            body.len() + 3
        }),
{
    assert(framed(body).subrange(1, 1 + body.len() as int) =~= body);
}

/// Everything that is wrong is told in a line of its own, in the order in which it was found, behind
/// the build and in front of the help text.
pub proof fn every_mistake_has_its_line(errors: Seq<Seq<char>>, e: Seq<char>)
    ensures
        error_words(seq![]) == "DirWatch 1.0 build 2026-09-20.i61"@ + seq!['\n', '\n']
            + strings::trimmed_end(cli::help_view()),
        ({
            let words = error_words(errors);
            let at = words.len() - strings::trimmed_end(cli::help_view()).len() - 1;
            error_words(errors.push(e)) == words.take(at) + "error: "@ + e + seq!['\n']
                + words.skip(at)
        }),
{
    let help = strings::trimmed_end(cli::help_view());
    let start = build_info::BUILD_ID@ + seq!['\n'];
    assert(error_lines(seq![]) =~= seq![]);
    assert(error_words(seq![]) =~= "DirWatch 1.0 build 2026-09-20.i61"@ + seq!['\n', '\n'] + help);
    assert(errors.push(e).drop_last() =~= errors);
    let words = error_words(errors);
    let at = words.len() - help.len() - 1;
    assert(words.take(at) =~= start + error_lines(errors));
    assert(words.skip(at) =~= seq!['\n'] + help);
    assert(error_words(errors.push(e)) =~= words.take(at) + "error: "@ + e + seq!['\n']
        + words.skip(at));
}

/// What the command line names is watched: the directory, or else the current one, with the patterns
/// as they are, every 250 milliseconds unless told otherwise but never more often than every 100 nor
/// less often than every 60000, and down to the depth named, 0 to 10.
pub proof fn the_command_line_is_followed(o: Request, cwd: Seq<char>)
    ensures
        o.directory is None ==> config_of(o, cwd).directory == cwd,
        o.directory is Some ==> config_of(o, cwd).directory == o.directory->0,
        config_of(o, cwd).patterns == o.patterns,
        o.poll_interval_ms is None ==> config_of(o, cwd).poll_interval_ms == 250,
        o.poll_interval_ms is Some ==> config_of(o, cwd).poll_interval_ms as int == (
        if o.poll_interval_ms->0 < 100 {
            100
        } else if o.poll_interval_ms->0 > 60000 {
            60000
        } else {
            o.poll_interval_ms->0 as int
        }),
        o.depth is None ==> config_of(o, cwd).depth == 0,
        o.depth is Some ==> config_of(o, cwd).depth as int == (if o.depth->0 < 0 {
            0
        } else if o.depth->0 > 10 {
            10
        } else {
            o.depth->0 as int
        }),
{
}

} // verus!
