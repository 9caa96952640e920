//! What the user can tune: the values in force, the form in which they are edited, and the bounds
//! that both keep.

use vstd::prelude::*;

use crate::paths;
use crate::session;
use crate::session::Session;
use crate::session::SessionModel;
use crate::strings;

verus! {

/// How many tiles stand side by side in a box, unless told otherwise.
pub const TILES_PER_BOX_DEFAULT: usize = 4;

/// The fewest tiles side by side.
pub const TILES_PER_BOX_MIN: usize = 2;

/// The most tiles side by side.
pub const TILES_PER_BOX_MAX: usize = 10;

/// The longest time for which a written file counts as active, in seconds (one day).
pub const ACTIVE_SECS_CEILING: i64 = 86_400;

/// How long a file must be gone before its tile goes, in seconds (one hour).
pub const MISSING_PRUNE_GRACE_SECS: i64 = 3600;

/// What the command line says about windows.
#[derive(Debug, Clone, Copy, PartialEq, Eq, Structural)]
pub struct ModelOpts {
    /// Windows open only when the user asks.
    pub no_open: bool,
    /// For how long a written file counts as active, in seconds.
    pub active_seconds: Option<i32>,
    /// How many windows may be open.
    pub max_windows: Option<i32>,
}

impl Default for ModelOpts {
    fn default() -> (r: Self)
        ensures
            r == (ModelOpts { no_open: false, active_seconds: None, max_windows: None }),
    {
        ModelOpts { no_open: false, active_seconds: None, max_windows: None }
    }
}

/// The values in force.
#[derive(Debug, Clone, Copy, PartialEq, Eq, Structural)]
pub struct Settings {
    /// How many windows may be open.
    pub max_windows: i32,
    /// For how long a written file counts as active, in seconds.
    pub active_seconds: i64,
    /// Windows open only when the user asks.
    pub no_open: bool,
    /// How often the directory is looked through, in milliseconds.
    pub poll_ms: u32,
    /// How many tiles stand side by side in a box.
    pub tiles_per_box: usize,
}

/// The values as they are being edited.
#[derive(Debug, Clone)]
pub struct SettingsDraft {
    /// The window in which they are edited.
    pub id: u64,
    /// How many windows may be open.
    pub max_windows: String,
    /// For how long a written file counts as active, in seconds.
    pub active_seconds: String,
    /// Windows open only when the user asks.
    pub no_open: bool,
    /// How often the directory is looked through, in milliseconds.
    pub poll_ms: String,
    /// How many tiles stand side by side in a box.
    pub tiles_per_box: String,
}

/// The values as they are being edited.
#[verifier::ext_equal]
pub struct Draft {
    /// The window in which they are edited.
    pub id: u64,
    /// How many windows may be open.
    pub max_windows: Seq<char>,
    /// For how long a written file counts as active, in seconds.
    pub active_seconds: Seq<char>,
    /// Windows open only when the user asks.
    pub no_open: bool,
    /// How often the directory is looked through, in milliseconds.
    pub poll_ms: Seq<char>,
    /// How many tiles stand side by side in a box.
    pub tiles_per_box: Seq<char>,
}

impl View for SettingsDraft {
    type V = Draft;

    open spec fn view(&self) -> Draft {
        Draft {
            id: self.id,
            max_windows: self.max_windows@,
            active_seconds: self.active_seconds@,
            no_open: self.no_open,
            poll_ms: self.poll_ms@,
            tiles_per_box: self.tiles_per_box@,
        }
    }
}

// ---------------------------------------------------------------------------------------------
// Model
// ---------------------------------------------------------------------------------------------

/// The nearest value in `lo..=hi`.
pub open spec fn bounded(v: int, lo: int, hi: int) -> int {
    if v < lo {
        lo
    } else if v > hi {
        hi
    } else {
        v
    }
}

/// The number that a field spells.
pub open spec fn spelled_in(field: Seq<char>) -> Option<int> {
    strings::int_within(strings::trimmed(field), i64::MIN as int, i64::MAX as int)
}

/// The number that a field spells, brought into `lo..=hi`, or the value in force, as it is, where
/// it spells none.
pub open spec fn field_or(field: Seq<char>, cur: int, lo: int, hi: int) -> int {
    match spelled_in(field) {
        Some(v) => bounded(v, lo, hi),
        None => cur,
    }
}

/// What the values become once a form is accepted.
pub open spec fn committed(d: Draft, prev: Settings) -> Settings {
    Settings {
        max_windows: field_or(
            d.max_windows,
            prev.max_windows as int,
            1,
            session::MAX_WINDOWS_CEILING as int,
        ) as i32,
        active_seconds: field_or(
            d.active_seconds,
            prev.active_seconds as int,
            1,
            ACTIVE_SECS_CEILING as int,
        ) as i64,
        no_open: d.no_open,
        poll_ms: field_or(
            d.poll_ms,
            prev.poll_ms as int,
            crate::POLL_INTERVAL_FLOOR_MS as int,
            crate::POLL_INTERVAL_CEILING_MS as int,
        ) as u32,
        tiles_per_box: field_or(
            d.tiles_per_box,
            prev.tiles_per_box as int,
            TILES_PER_BOX_MIN as int,
            TILES_PER_BOX_MAX as int,
        ) as usize,
    }
}

/// The form that shows the values in force.
pub open spec fn shown_in(id: u64, s: Settings) -> Draft {
    Draft {
        id,
        max_windows: strings::signed_decimal(s.max_windows as int),
        active_seconds: strings::signed_decimal(s.active_seconds as int),
        no_open: s.no_open,
        poll_ms: strings::signed_decimal(s.poll_ms as int),
        tiles_per_box: strings::signed_decimal(s.tiles_per_box as int),
    }
}

/// The values at the start, from the poll interval and the command line.
pub open spec fn at_start(poll_interval_ms: u32, opts: ModelOpts) -> Settings {
    Settings {
        max_windows: (match opts.max_windows {
            Some(m) => bounded(m as int, 1, session::MAX_WINDOWS_CEILING as int),
            None => 10,
        }) as i32,
        active_seconds: (match opts.active_seconds {
            Some(s) => if s < 1 {
                1
            } else {
                s as int
            },
            None => 5,
        }) as i64,
        no_open: opts.no_open,
        poll_ms: if poll_interval_ms < crate::POLL_INTERVAL_FLOOR_MS {
            crate::POLL_INTERVAL_FLOOR_MS
        } else {
            poll_interval_ms
        },
        tiles_per_box: TILES_PER_BOX_DEFAULT,
    }
}

/// The values in force that concern the tracked files, put into a model.
pub open spec fn tuned(s: Session, v: Settings) -> Session {
    Session {
        max_windows: bounded(v.max_windows as int, 1, session::MAX_WINDOWS_CEILING as int) as i32,
        active_seconds: if v.active_seconds < 1 {
            1
        } else {
            v.active_seconds
        },
        no_open: v.no_open,
        ..s
    }
}

/// What the command line says, put into a model.
pub open spec fn with_opts(s: Session, o: ModelOpts) -> Session {
    Session {
        max_windows: match o.max_windows {
            Some(m) => bounded(m as int, 1, session::MAX_WINDOWS_CEILING as int) as i32,
            None => s.max_windows,
        },
        active_seconds: match o.active_seconds {
            Some(v) => if v < 1 {
                1
            } else {
                v as i64
            },
            None => s.active_seconds,
        },
        no_open: o.no_open,
        ..s
    }
}

/// The patterns in a list with `;` or `,` between them, without quotes, and without empty ones.
pub open spec fn listed_patterns(parts: Seq<Seq<char>>) -> Seq<Seq<char>>
    decreases parts.len(),
{
    if parts.len() == 0 {
        seq![]
    } else {
        let before = listed_patterns(parts.drop_last());
        let p = paths::unquoted(strings::trimmed(parts.last()));
        if p.len() > 0 {
            before.push(p)
        } else {
            before
        }
    }
}

// ---------------------------------------------------------------------------------------------
// Functions
// ---------------------------------------------------------------------------------------------

fn clamp(v: i64, lo: i64, hi: i64) -> (r: i64)
    requires
        lo <= hi,
    ensures
        r == bounded(v as int, lo as int, hi as int),
{
    if v < lo {
        lo
    } else if v > hi {
        hi
    } else {
        v
    }
}

/// The number in a field, brought into `lo..=hi`, or the value in force where it holds none.
fn field(text: &str, cur: i128, lo: i64, hi: i64) -> (r: i128)
    requires
        lo <= hi,
    ensures
        r == field_or(text@, cur as int, lo as int, hi as int),
{
    match strings::parse_i64(strings::trim(text).as_str()) {
        Some(v) => clamp(v, lo, hi) as i128,
        None => cur,
    }
}

impl Settings {
    /// The values at the start.
    pub fn from_boot(poll_interval_ms: u32, opts: &ModelOpts) -> (r: Settings)
        ensures
            r == at_start(poll_interval_ms, *opts),
    {
        Settings {
            max_windows: match opts.max_windows {
                Some(m) => clamp(m as i64, 1, session::MAX_WINDOWS_CEILING as i64) as i32,
                None => 10,
            },
            active_seconds: match opts.active_seconds {
                Some(s) => if s < 1 {
                    1
                } else {
                    s as i64
                },
                None => 5,
            },
            no_open: opts.no_open,
            poll_ms: if poll_interval_ms < crate::POLL_INTERVAL_FLOOR_MS {
                crate::POLL_INTERVAL_FLOOR_MS
            } else {
                poll_interval_ms
            },
            tiles_per_box: TILES_PER_BOX_DEFAULT,
        }
    }
}

impl SettingsDraft {
    /// The form for a window that opens now.
    pub fn from_live(id: u64, s: &Settings) -> (r: SettingsDraft)
        ensures
            r@ == shown_in(id, *s),
    {
        SettingsDraft {
            id,
            max_windows: strings::signed_decimal_of(s.max_windows as i64),
            active_seconds: strings::signed_decimal_of(s.active_seconds),
            no_open: s.no_open,
            poll_ms: strings::signed_decimal_of(s.poll_ms as i64),
            tiles_per_box: strings::decimal_of(s.tiles_per_box as u64),
        }
    }
}

/// Accepts a form: each field within its bounds, and a field that spells no number keeps the value
/// in force.
pub fn commit_settings(draft: &SettingsDraft, prev: &Settings) -> (r: Settings)
    ensures
        r == committed(draft@, *prev),
{
    let max_windows = field(
        draft.max_windows.as_str(),
        prev.max_windows as i128,
        1,
        session::MAX_WINDOWS_CEILING as i64,
    );
    let active_seconds = field(
        draft.active_seconds.as_str(),
        prev.active_seconds as i128,
        1,
        ACTIVE_SECS_CEILING,
    );
    let poll_ms = field(
        draft.poll_ms.as_str(),
        prev.poll_ms as i128,
        crate::POLL_INTERVAL_FLOOR_MS as i64,
        crate::POLL_INTERVAL_CEILING_MS as i64,
    );
    let tiles_per_box = field(
        draft.tiles_per_box.as_str(),
        prev.tiles_per_box as i128,
        TILES_PER_BOX_MIN as i64,
        TILES_PER_BOX_MAX as i64,
    );
    Settings {
        max_windows: max_windows as i32,
        active_seconds: active_seconds as i64,
        no_open: draft.no_open,
        poll_ms: poll_ms as u32,
        tiles_per_box: tiles_per_box as usize,
    }
}

/// Puts the command line into force.
pub fn apply_opts(model: &mut SessionModel, opts: &ModelOpts)
    requires
        old(model).wf(),
    ensures
        final(model).wf(),
        final(model)@ == with_opts(old(model)@, *opts),
{
    let max_windows = match opts.max_windows {
        Some(m) => clamp(m as i64, 1, session::MAX_WINDOWS_CEILING as i64) as i32,
        None => model.max_windows(),
    };
    let active_seconds = match opts.active_seconds {
        Some(s) => if s < 1 {
            1
        } else {
            s as i64
        },
        None => model.active_seconds(),
    };
    model.tune(max_windows, active_seconds, opts.no_open);
}

/// Puts settings into force without a new look at the directory.
pub fn apply_settings_to_model(model: &mut SessionModel, s: &Settings)
    requires
        old(model).wf(),
    ensures
        final(model).wf(),
        final(model)@ == tuned(old(model)@, *s),
{
    let max_windows = clamp(s.max_windows as i64, 1, session::MAX_WINDOWS_CEILING as i64) as i32;
    let active_seconds = if s.active_seconds < 1 {
        1
    } else {
        s.active_seconds
    };
    model.tune(max_windows, active_seconds, s.no_open);
}

/// The patterns in a list with `;` or `,` between them.
pub fn split_patterns(s: &str) -> (r: Vec<String>)
    ensures
        strings::views(r@) == listed_patterns(strings::pieces(s@, ';', ',')),
{
    let parts = strings::split_at_either(s, ';', ',');
    let ghost all = strings::views(parts@);
    let mut out: Vec<String> = Vec::new();
    let mut i: usize = 0;
    assert(strings::views(out@) =~= listed_patterns(all.take(0)));
    while i < parts.len()
        invariant
            i <= parts@.len(),
            all == strings::views(parts@),
            strings::views(out@) == listed_patterns(all.take(i as int)),
        decreases parts@.len() - i,
    {
        let p = paths::strip_surrounding_quotes(strings::trim(parts[i].as_str()).as_str());
        proof {
            assert(all.take(i as int + 1).drop_last() =~= all.take(i as int));
            assert(all.take(i as int + 1).last() == parts@[i as int]@);
            strings::lemma_empty_text(p@);
        }
        if p.as_str().as_bytes().len() > 0 {
            proof {
                strings::lemma_views_push(out@, p);
            }
            out.push(p);
        }
        i += 1;
    }
    assert(all.take(i as int) =~= all);
    out
}

/// How long a file must be gone before its tile goes: an hour, or, with the trace switched on, the
/// number of seconds asked for, which is at least one.
pub open spec fn grace(trace: bool, wanted: Option<Seq<char>>) -> int {
    match wanted {
        Some(w) if trace => {
            match strings::int_within(strings::trimmed(w), i64::MIN as int, i64::MAX as int) {
                Some(n) => if n < 1 {
                    1
                } else {
                    n
                },
                None => MISSING_PRUNE_GRACE_SECS as int,
            }
        },
        _ => MISSING_PRUNE_GRACE_SECS as int,
    }
}

/// How long a file must be gone before its tile goes.
pub fn prune_grace_secs(trace: bool, wanted: Option<String>) -> (r: i64)
    ensures
        r == grace(
            trace,
            match wanted {
                Some(w) => Some(w@),
                None => None,
            },
        ),
{
    if !trace {
        return MISSING_PRUNE_GRACE_SECS;
    }
    match wanted {
        Some(w) => match strings::parse_i64(strings::trim(w.as_str()).as_str()) {
            Some(n) => if n < 1 {
                1
            } else {
                n
            },
            None => MISSING_PRUNE_GRACE_SECS,
        },
        None => MISSING_PRUNE_GRACE_SECS,
    }
}

// ---------------------------------------------------------------------------------------------
// Laws
// ---------------------------------------------------------------------------------------------

/// The values within the bounds of the form.
pub open spec fn in_bounds(s: Settings) -> bool {
    &&& 1 <= s.max_windows <= session::MAX_WINDOWS_CEILING
    &&& 1 <= s.active_seconds <= ACTIVE_SECS_CEILING
    &&& crate::POLL_INTERVAL_FLOOR_MS <= s.poll_ms <= crate::POLL_INTERVAL_CEILING_MS
    &&& TILES_PER_BOX_MIN <= s.tiles_per_box <= TILES_PER_BOX_MAX
}

/// Whatever is typed, values within their bounds stay within them, and what is typed comes to be
/// within them in any case.
pub proof fn accepted_values_are_in_bounds(d: Draft, prev: Settings)
    ensures
        in_bounds(prev) ==> in_bounds(committed(d, prev)),
        spelled_in(d.max_windows) is Some ==> 1 <= committed(d, prev).max_windows
            <= session::MAX_WINDOWS_CEILING,
        spelled_in(d.active_seconds) is Some ==> 1 <= committed(d, prev).active_seconds
            <= ACTIVE_SECS_CEILING,
        spelled_in(d.poll_ms) is Some ==> crate::POLL_INTERVAL_FLOOR_MS <= committed(
            d,
            prev,
        ).poll_ms <= crate::POLL_INTERVAL_CEILING_MS,
        spelled_in(d.tiles_per_box) is Some ==> TILES_PER_BOX_MIN <= committed(
            d,
            prev,
        ).tiles_per_box <= TILES_PER_BOX_MAX,
{
}

/// A form that is accepted as it was shown changes nothing.
pub proof fn an_untouched_form_changes_nothing(id: u64, s: Settings)
    requires
        in_bounds(s),
    ensures
        committed(shown_in(id, s), s) == s,
{
    strings::lemma_signed_decimal_reads_back(s.max_windows as int);
    strings::lemma_signed_decimal_reads_back(s.active_seconds as int);
    strings::lemma_signed_decimal_reads_back(s.poll_ms as int);
    strings::lemma_signed_decimal_reads_back(s.tiles_per_box as int);
}

/// A field that spells no number leaves its value as it was, whatever that is.
pub proof fn a_bad_field_keeps_its_value(d: Draft, prev: Settings)
    ensures
        spelled_in(d.max_windows) is None ==> committed(d, prev).max_windows == prev.max_windows,
        spelled_in(d.active_seconds) is None ==> committed(d, prev).active_seconds
            == prev.active_seconds,
        spelled_in(d.poll_ms) is None ==> committed(d, prev).poll_ms == prev.poll_ms,
        spelled_in(d.tiles_per_box) is None ==> committed(d, prev).tiles_per_box
            == prev.tiles_per_box,
{
}

/// A field that spells a number, white space aside, sets its value to that number, brought into
/// its bounds; the switch is taken as it stands.
pub proof fn a_number_in_a_field_sets_its_value(d: Draft, prev: Settings)
    ensures
        ({
            let c = committed(d, prev);
            let w = strings::int_value(strings::trimmed(d.max_windows));
            let a = strings::int_value(strings::trimmed(d.active_seconds));
            let p = strings::int_value(strings::trimmed(d.poll_ms));
            let t = strings::int_value(strings::trimmed(d.tiles_per_box));
            &&& c.no_open == d.no_open
            &&& w is Some && i64::MIN <= w->0 <= i64::MAX ==> c.max_windows == (if w->0 < 1 {
                1
            } else if w->0 > 50 {
                50
            } else {
                w->0
            })
            &&& a is Some && i64::MIN <= a->0 <= i64::MAX ==> c.active_seconds == (if a->0 < 1 {
                1
            } else if a->0 > 86_400 {
                86_400
            } else {
                a->0
            })
            &&& p is Some && i64::MIN <= p->0 <= i64::MAX ==> c.poll_ms == (if p->0
                < crate::POLL_INTERVAL_FLOOR_MS {
                crate::POLL_INTERVAL_FLOOR_MS as int
            } else if p->0 > crate::POLL_INTERVAL_CEILING_MS {
                crate::POLL_INTERVAL_CEILING_MS as int
            } else {
                p->0
            })
            &&& t is Some && i64::MIN <= t->0 <= i64::MAX ==> c.tiles_per_box == (if t->0 < 2 {
                2
            } else if t->0 > 10 {
                10
            } else {
                t->0
            })
            &&& w is None ==> c.max_windows == prev.max_windows
            &&& a is None ==> c.active_seconds == prev.active_seconds
            &&& p is None ==> c.poll_ms == prev.poll_ms
            &&& t is None ==> c.tiles_per_box == prev.tiles_per_box
        }),
{
}

/// The values at the start are those of the command line within their bounds, or ten windows, five
/// seconds and four tiles where it says nothing.
pub proof fn the_command_line_sets_the_start(poll: u32, o: ModelOpts)
    ensures
        ({
            let s = at_start(poll, o);
            &&& s.no_open == o.no_open
            &&& s.tiles_per_box == 4
            &&& s.poll_ms == (if poll < 100 {
                100
            } else {
                poll
            })
            &&& o.max_windows is None ==> s.max_windows == 10
            &&& o.max_windows is Some && 1 <= o.max_windows->0 <= 50 ==> s.max_windows
                == o.max_windows->0
            &&& o.max_windows is Some && o.max_windows->0 < 1 ==> s.max_windows == 1
            &&& o.max_windows is Some && o.max_windows->0 > 50 ==> s.max_windows == 50
            &&& o.active_seconds is None ==> s.active_seconds == 5
            &&& o.active_seconds is Some && o.active_seconds->0 >= 1 ==> s.active_seconds
                == o.active_seconds->0
            &&& o.active_seconds is Some && o.active_seconds->0 < 1 ==> s.active_seconds == 1
        }),
{
}

/// Settings that are put into force change the three values of the model that they are about, and
/// nothing else of it; what the command line does not say stays.
pub proof fn settings_change_their_own_values(s: Session, v: Settings, o: ModelOpts)
    ensures
        1 <= v.max_windows <= 50 && v.active_seconds >= 1 ==> tuned(s, v) == (Session {
            max_windows: v.max_windows,
            active_seconds: v.active_seconds,
            no_open: v.no_open,
            ..s
        }),
        tuned(s, v) == (Session {
            max_windows: tuned(s, v).max_windows,
            active_seconds: tuned(s, v).active_seconds,
            no_open: v.no_open,
            ..s
        }),
        v.max_windows < 1 ==> tuned(s, v).max_windows == 1,
        v.max_windows > 50 ==> tuned(s, v).max_windows == 50,
        v.active_seconds < 1 ==> tuned(s, v).active_seconds == 1,
        with_opts(s, o) == (Session {
            max_windows: with_opts(s, o).max_windows,
            active_seconds: with_opts(s, o).active_seconds,
            no_open: o.no_open,
            ..s
        }),
        o.max_windows is None ==> with_opts(s, o).max_windows == s.max_windows,
        o.active_seconds is None ==> with_opts(s, o).active_seconds == s.active_seconds,
        o.max_windows is Some && 1 <= o.max_windows->0 <= 50 ==> with_opts(s, o).max_windows
            == o.max_windows->0,
        o.active_seconds is Some && o.active_seconds->0 >= 1 ==> with_opts(s, o).active_seconds
            == o.active_seconds->0,
        o.max_windows is Some && o.max_windows->0 < 1 ==> with_opts(s, o).max_windows == 1,
        o.max_windows is Some && o.max_windows->0 > 50 ==> with_opts(s, o).max_windows == 50,
        o.active_seconds is Some && o.active_seconds->0 < 1 ==> with_opts(s, o).active_seconds
            == 1,
{
}

/// A form shows the values in force.
pub proof fn a_form_shows_the_values_in_force(id: u64, s: Settings)
    ensures
        shown_in(id, s).id == id,
        shown_in(id, s).no_open == s.no_open,
        shown_in(id, s).max_windows == strings::signed_decimal(s.max_windows as int),
        shown_in(id, s).active_seconds == strings::signed_decimal(s.active_seconds as int),
        shown_in(id, s).poll_ms == strings::signed_decimal(s.poll_ms as int),
        shown_in(id, s).tiles_per_box == strings::signed_decimal(s.tiles_per_box as int),
{
}

/// Of a list of patterns each counts without white space and quotes around it, and a blank one does
/// not count.
pub proof fn every_listed_pattern_counts(parts: Seq<Seq<char>>, p: Seq<char>)
    ensures
        listed_patterns(seq![]) == Seq::<Seq<char>>::empty(),
        listed_patterns(parts.push(p)) == (if paths::unquoted(strings::trimmed(p)).len() > 0 {
            listed_patterns(parts).push(paths::unquoted(strings::trimmed(p)))
        } else {
            listed_patterns(parts)
        }),
{
    assert(parts.push(p).drop_last() =~= parts);
}

/// A tile of a file that is gone stays for an hour. With the trace switched on another number of
/// seconds counts where one is asked for, but at least one second.
pub proof fn a_tile_stays_for_an_hour(trace: bool, w: Seq<char>)
    ensures
        grace(trace, None) == 3600,
        grace(false, Some(w)) == 3600,
        ({
            let n = strings::int_value(strings::trimmed(w));
            &&& n is Some && 1 <= n->0 <= i64::MAX ==> grace(true, Some(w)) == n->0
            &&& n is Some && i64::MIN <= n->0 < 1 ==> grace(true, Some(w)) == 1
            &&& n is None ==> grace(true, Some(w)) == 3600
        }),
{
}

} // verus!
