//! What the parts of the program's step do to its state, and what they call for outside.

use vstd::prelude::*;

use crate::fskey;
use crate::gui::accepted;
use crate::gui::Act;
use crate::gui::advanced;
use crate::gui::after;
use crate::gui::after_tick;
use crate::gui::at_start;
use crate::gui::clicked;
use crate::gui::Desk;
use crate::gui::drained;
use crate::gui::Drained;
use crate::gui::dropped;
use crate::gui::Env;
use crate::gui::fed_all;
use crate::gui::gone;
use crate::gui::ids_of;
use crate::gui::informed;
use crate::gui::Key;
use crate::gui::key_means;
use crate::gui::log_acts;
use crate::gui::Message;
use crate::gui::moved;
use crate::gui::opened_all;
use crate::gui::Out;
use crate::gui::placed;
use crate::gui::pruned;
use crate::gui::queried;
use crate::gui::rearranged;
use crate::gui::resized;
use crate::gui::resumed;
use crate::gui::scanned_first;
use crate::gui::scrolled;
use crate::gui::shows;
use crate::gui::spawned;
use crate::gui::started;
use crate::gui::stepped_back;
use crate::gui::TailNews;
use crate::gui::ticked;
use crate::gui::title_words;
use crate::gui::unsearched;
use crate::gui::wanted;
use crate::gui::win_at;
use crate::layout;
use crate::notes::NoteKind;
use crate::notes::Remark;
use crate::notes::Root;
use crate::notes;
use crate::os::Os;
use crate::paths;
use crate::placement::Rect;
use crate::runtime::Config;
use crate::session::File;
use crate::session::Session;
use crate::session;
use crate::settings::Draft;
use crate::settings::ModelOpts;
use crate::settings;
use crate::strings;
use crate::table;
use crate::tailwin::Scroll;
use crate::tailwin::Tail;
use crate::tailwin;
use crate::watch::WatchEvent;

verus! {

proof fn lemma_win_at(tails: Seq<(u64, Tail)>, id: u64)
    ensures
        win_at(tails, id) matches Some(i) ==> {
            &&& 0 <= i < tails.len()
            &&& tails[i].0 == id
            &&& forall|j: int| 0 <= j < i ==> (#[trigger] tails[j]).0 != id
        },
        win_at(tails, id) is None ==> forall|j: int|
            0 <= j < tails.len() ==> (#[trigger] tails[j]).0 != id,
    decreases tails.len(),
{
    if tails.len() > 0 {
        let init = tails.drop_last();
        lemma_win_at(init, id);
        assert forall|j: int| 0 <= j < init.len() implies (#[trigger] tails[j]) == init[j] by {}
        match win_at(init, id) {
            Some(i) => {
                assert(tails[i] == init[i]);
                assert forall|j: int| 0 <= j < i implies (#[trigger] tails[j]).0 != id by {
                    assert(init[j] == tails[j]);
                }
            },
            None => {
                assert forall|j: int| 0 <= j < init.len() implies (#[trigger] tails[j]).0 != id by {
                    assert(init[j] == tails[j]);
                }
            },
        }
    }
}

/// The window with a number is the first that has it, and there is none where none has it.
pub proof fn a_window_is_known_by_its_number(tails: Seq<(u64, Tail)>, id: u64, i: int)
    ensures
        0 <= i < tails.len() && tails[i].0 == id && (forall|j: int|
            0 <= j < i ==> (#[trigger] tails[j]).0 != id) ==> win_at(tails, id) == Some(i),
        (forall|j: int| 0 <= j < tails.len() ==> (#[trigger] tails[j]).0 != id) ==> win_at(
            tails,
            id,
        ) is None,
{
    lemma_win_at(tails, id);
}

/// Settings that are accepted are in force at once, and their window is told to close. The watch is
/// told of another poll interval, and only of another one.
pub proof fn accepted_settings_are_in_force(d: Desk)
    ensures
        d.form is None ==> accepted(d) == (Out { desk: d, acts: seq![] }),
        d.form is Some ==> {
            let f = d.form->0;
            let v = settings::committed(f, d.settings);
            accepted(d) == (Out {
                desk: Desk {
                    form: None,
                    closing: d.closing.insert(f.id),
                    settings: v,
                    session: settings::tuned(d.session, v),
                    max_windows: settings::tuned(d.session, v).max_windows,
                    ..d
                },
                acts: if v.poll_ms == d.settings.poll_ms {
                    seq![Act::Close(f.id)]
                } else {
                    seq![Act::Close(f.id), Act::SetPoll(v.poll_ms)]
                },
            })
        },
{
    if d.form is Some {
        let f = d.form->0;
        let v = settings::committed(f, d.settings);
        if v.poll_ms == d.settings.poll_ms {
            assert(accepted(d).acts =~= seq![Act::Close(f.id)]);
        } else {
            assert(accepted(d).acts =~= seq![Act::Close(f.id), Act::SetPoll(v.poll_ms)]);
        }
    }
}

/// Settings that are dropped leave everything as it was, and their window is told to close.
pub proof fn dropped_settings_leave_no_trace(d: Desk)
    ensures
        d.form is None ==> dropped(d) == (Out { desk: d, acts: seq![] }),
        d.form is Some ==> dropped(d) == (Out {
            desk: Desk { form: None, closing: d.closing.insert(d.form->0.id), ..d },
            acts: seq![Act::Close(d.form->0.id)],
        }),
{
    if d.form is Some {
        assert(dropped(d).acts =~= seq![Act::Close(d.form->0.id)]);
    }
}

/// A start takes what the fields say: the directory as looked up from here, the patterns, and the
/// depth from 0 to 10, where a field that spells no number leaves the depth in force. No file is
/// tracked, every tail is told to close, and the outside is told first what to watch. Everything else
/// stays.
pub proof fn a_start_takes_what_the_fields_say(d: Desk, cwd: Seq<char>)
    ensures
        ({
            let o = started(Out { desk: d, acts: seq![] }, cwd);
            let depth = match strings::int_within(
                strings::trimmed(d.depth_input),
                -0x8000_0000,
                0x7fff_ffff,
            ) {
                Some(v) => v,
                None => d.active_depth as int,
            };
            let cfg = Config {
                directory: paths::spelled(
                    d.os,
                    paths::normal(paths::named_dir(d.os, d.dir_input, cwd)),
                ),
                patterns: settings::listed_patterns(strings::pieces(d.patterns_input, ';', ',')),
                poll_interval_ms: d.settings.poll_ms,
                depth: (if depth < 0 {
                    0
                } else if depth > 10 {
                    10
                } else {
                    depth
                }) as i32,
            };
            let s = settings::tuned(session::initial(d.os), d.settings);
            &&& o.desk == (Desk {
                running: true,
                session: s,
                max_windows: s.max_windows,
                layout: o.desk.layout,
                dir_input: cfg.directory,
                active_dir: cfg.directory,
                active_patterns: cfg.patterns,
                active_depth: cfg.depth,
                tails: seq![],
                by_path: seq![],
                closing: o.desk.closing,
                ..d
            })
            &&& !o.desk.layout.built
            &&& forall|id: u64| #[trigger]
                o.desk.closing.contains(id) <==> d.closing.contains(id) || exists|i: int|
                    0 <= i < d.tails.len() && (#[trigger] d.tails[i]).0 == id
            &&& o.acts.len() == 1 + d.tails.len()
            &&& o.acts[0] == Act::StartWatch(cfg)
            &&& forall|i: int|
                0 <= i < d.tails.len() ==> o.acts[1 + i] == Act::Close((#[trigger] d.tails[i]).0)
        }),
{
    let ids = ids_of(d.tails);
    let o = started(Out { desk: d, acts: seq![] }, cwd);
    assert forall|id: u64| #[trigger]
        o.desk.closing.contains(id) <==> d.closing.contains(id) || exists|i: int|
            0 <= i < d.tails.len() && (#[trigger] d.tails[i]).0 == id by {
        if ids.contains(id) {
            let k = choose|k: int| 0 <= k < ids.len() && ids[k] == id;
            assert(d.tails[k].0 == id);
        }
        if exists|i: int| 0 <= i < d.tails.len() && (#[trigger] d.tails[i]).0 == id {
            let i = choose|i: int| 0 <= i < d.tails.len() && (#[trigger] d.tails[i]).0 == id;
            assert(ids[i] == id);
        }
    }
    assert forall|i: int| 0 <= i < d.tails.len() implies o.acts[1 + i] == Act::Close(
        (#[trigger] d.tails[i]).0,
    ) by {
        assert(ids[i] == d.tails[i].0);
    }
}

/// A click on the tile of a file that is tracked opens its window where there is none and there may
/// be one more. Where it has one, that window comes to the front. Where there are too many, the count
/// blinks, and that is all.
pub proof fn a_click_opens_a_window_or_shows_it(d: Desk, path: Seq<char>, now_ms: u64, i: int)
    requires
        session::place(d.session, path) == Some(i),
    ensures
        ({
            let f = d.session.files[i];
            let win = table::lookup(d.by_path, fskey::key_of(d.os, path));
            &&& f.window_open && win is Some ==> clicked(d, path, now_ms) == (Out {
                desk: d,
                acts: seq![Act::Focus(win->0)],
            })
            &&& f.window_open && win is None ==> clicked(d, path, now_ms) == (Out {
                desk: d,
                acts: seq![],
            })
            &&& !f.window_open && session::open_total(d.session.files) >= d.session.max_windows
                ==> clicked(d, path, now_ms) == (Out {
                desk: Desk { cap_blink: Some(now_ms), ..d },
                acts: seq![],
            })
            &&& !f.window_open && session::open_total(d.session.files) < d.session.max_windows
                ==> clicked(d, path, now_ms) == (Out {
                desk: Desk {
                    session: Session {
                        files: d.session.files.update(
                            i,
                            File { window_open: true, user_closed: false, unread: false, ..f },
                        ),
                        ..d.session
                    },
                    ..d
                },
                acts: seq![Act::OpenTail(path, false)],
            })
        }),
{
    let o = clicked(d, path, now_ms);
    let f = d.session.files[i];
    if f.window_open {
        if let Some(id) = table::lookup(d.by_path, fskey::key_of(d.os, path)) {
            assert(o.acts =~= seq![Act::Focus(id)]);
        }
    } else if session::open_total(d.session.files) < d.session.max_windows {
        assert(o.acts =~= seq![Act::OpenTail(path, false)]);
    }
}

/// A window that has come shows the tail of its file, empty at first, and is from then on the window
/// of that file. All other windows stay, and so does what belongs to other files.
pub proof fn a_window_that_comes_belongs_to_its_file(
    d: Desk,
    id: u64,
    path: Seq<char>,
    other: Seq<char>,
)
    requires
        table::ordered(d.by_path),
        forall|j: int| 0 <= j < d.tails.len() ==> (#[trigger] d.tails[j]).0 != id,
    ensures
        spawned(d, id, path).tails == d.tails.push((id, tailwin::opened(path))),
        table::lookup(spawned(d, id, path).by_path, fskey::key_of(d.os, path)) == Some(id),
        fskey::key_of(d.os, other) != fskey::key_of(d.os, path) ==> table::lookup(
            spawned(d, id, path).by_path,
            fskey::key_of(d.os, other),
        ) == table::lookup(d.by_path, fskey::key_of(d.os, other)),
        spawned(d, id, path) == (Desk {
            tails: spawned(d, id, path).tails,
            by_path: spawned(d, id, path).by_path,
            ..d
        }),
{
    lemma_win_at(d.tails, id);
    let key = fskey::key_of(d.os, path);
    table::put_then_lookup(d.by_path, key, id, key);
    table::put_then_lookup(d.by_path, key, id, fskey::key_of(d.os, other));
}

/// A tail whose window is gone is dropped: its file has no window, is closed by the user, and can be
/// opened again; the other windows stay in order, and the number is no longer awaited.
pub proof fn a_window_that_goes_leaves_its_file_closed(d: Desk, i: int, other: Seq<char>)
    requires
        table::ordered(d.by_path),
        0 <= i < d.tails.len(),
        forall|j: int| 0 <= j < i ==> (#[trigger] d.tails[j]).0 != d.tails[i].0,
        d.main_id != Some(d.tails[i].0),
        d.form is None || d.form->0.id != d.tails[i].0,
    ensures
        ({
            let id = d.tails[i].0;
            let path = d.tails[i].1.path;
            let key = fskey::key_of(d.os, path);
            let o = gone(d, id);
            &&& o.acts.len() == 0
            &&& o.desk.tails == d.tails.take(i) + d.tails.skip(i + 1)
            &&& o.desk.session == session::after_close(d.session, path)
            &&& table::lookup(o.desk.by_path, key) is None
            &&& fskey::key_of(d.os, other) != key ==> table::lookup(
                o.desk.by_path,
                fskey::key_of(d.os, other),
            ) == table::lookup(d.by_path, fskey::key_of(d.os, other))
            &&& o.desk.closing == d.closing.remove(id)
            &&& o.desk == (Desk {
                tails: o.desk.tails,
                session: o.desk.session,
                by_path: o.desk.by_path,
                closing: o.desk.closing,
                ..d
            })
        }),
{
    let id = d.tails[i].0;
    let key = fskey::key_of(d.os, d.tails[i].1.path);
    a_window_is_known_by_its_number(d.tails, id, i);
    table::erase_then_lookup(d.by_path, key, key);
    table::erase_then_lookup(d.by_path, key, fskey::key_of(d.os, other));
    assert(d.tails.remove(i) =~= d.tails.take(i) + d.tails.skip(i + 1));
}

/// Any other window that is gone takes with it what it was: the program, the form, or the wait for
/// it.
pub proof fn any_other_window_that_goes_takes_its_part(d: Desk, id: u64)
    requires
        forall|j: int| 0 <= j < d.tails.len() ==> (#[trigger] d.tails[j]).0 != id,
    ensures
        d.main_id == Some(id) ==> gone(d, id) == (Out { desk: d, acts: seq![Act::Exit] }),
        d.main_id != Some(id) && d.form is Some && d.form->0.id == id ==> gone(d, id) == (Out {
            desk: Desk { form: None, ..d },
            acts: seq![],
        }),
        d.main_id != Some(id) && (d.form is None || d.form->0.id != id) ==> gone(d, id) == (Out {
            desk: Desk { closing: d.closing.remove(id), ..d },
            acts: seq![],
        }),
{
    lemma_win_at(d.tails, id);
    if d.main_id == Some(id) {
        assert(gone(d, id).acts =~= seq![Act::Exit]);
    }
}

/// A row to be brought to the top of a window, if any.
pub open spec fn scroll_to(id: u64, row: Option<int>) -> Seq<Act> {
    match row {
        Some(r) => seq![Act::ScrollTo(id, r)],
        None => seq![],
    }
}

/// What is asked of a tail is done in its own window alone: a query, the next and the previous match,
/// the end of a search, a scroll, and the way back to the end. A match that is to be shown is brought
/// into view there.
pub proof fn a_tail_is_searched_in_its_own_window(d: Desk, i: int, query: Seq<char>, s: Scroll)
    requires
        0 <= i < d.tails.len(),
        forall|j: int| 0 <= j < i ==> (#[trigger] d.tails[j]).0 != d.tails[i].0,
    ensures
        ({
            let id = d.tails[i].0;
            let t = d.tails[i].1;
            let back = tailwin::stepped(t, false);
            &&& queried(d, id, query) == (Out {
                desk: Desk {
                    tails: d.tails.update(i, (id, tailwin::queried(t, query, d.tick))),
                    ..d
                },
                acts: scroll_to(id, tailwin::query_row(t, query)),
            })
            &&& advanced(d, id) == (Out {
                desk: Desk { tails: d.tails.update(i, (id, tailwin::advanced(t))), ..d },
                acts: scroll_to(id, tailwin::advance_row(t)),
            })
            &&& stepped_back(d, id) == (Out {
                desk: Desk { tails: d.tails.update(i, (id, tailwin::jumped(back))), ..d },
                acts: scroll_to(id, tailwin::jump_row(back)),
            })
            &&& unsearched(d, id) == (Out {
                desk: Desk { tails: d.tails.update(i, (id, tailwin::unsearched(t))), ..d },
                acts: seq![Act::FocusSearch(id)],
            })
            &&& scrolled(d, id, s) == (Desk {
                tails: d.tails.update(i, (id, tailwin::scrolled(t, s))),
                ..d
            })
            &&& resumed(d, id) == (Desk {
                tails: d.tails.update(i, (id, Tail { following: true, ..t })),
                ..d
            })
        }),
{
    let id = d.tails[i].0;
    let t = d.tails[i].1;
    a_window_is_known_by_its_number(d.tails, id, i);
    assert(queried(d, id, query).acts =~= scroll_to(id, tailwin::query_row(t, query)));
    assert(advanced(d, id).acts =~= scroll_to(id, tailwin::advance_row(t)));
    assert(stepped_back(d, id).acts =~= scroll_to(
        id,
        tailwin::jump_row(tailwin::stepped(t, false)),
    ));
    assert(unsearched(d, id).acts =~= seq![Act::FocusSearch(id)]);
}

/// What is asked of a window that shows no tail is not done.
pub proof fn nothing_is_asked_of_a_window_without_a_tail(
    d: Desk,
    id: u64,
    query: Seq<char>,
    s: Scroll,
)
    requires
        forall|j: int| 0 <= j < d.tails.len() ==> (#[trigger] d.tails[j]).0 != id,
    ensures
        ({
            let same = Out { desk: d, acts: seq![] };
            &&& queried(d, id, query) == same
            &&& advanced(d, id) == same
            &&& stepped_back(d, id) == same
            &&& unsearched(d, id) == same
            &&& scrolled(d, id, s) == d
            &&& resumed(d, id) == d
        }),
{
    lemma_win_at(d.tails, id);
}

/// Where the main window is, is known from where it appeared, or from where it was moved to, with the
/// size that it has; before it appeared it is taken to be 880 by 600 pixels large.
pub proof fn the_main_window_is_where_it_was_put(d: Desk, x: i32, y: i32, w: i32, h: i32)
    ensures
        placed(d, None, (w, h)) == d,
        placed(d, Some((x, y)), (w, h)).main_rect == Some(
            Rect { x: x as i64, y: y as i64, w: w as i64, h: h as i64 },
        ),
        d.screen_est is Some ==> placed(d, Some((x, y)), (w, h)).screen_est == d.screen_est,
        d.screen_est is None ==> placed(d, Some((x, y)), (w, h)).screen_est == Some(
            ((x + x + w) as i64, (y + y + h) as i64),
        ),
        d.main_rect is Some ==> moved(d, x, y) == (Desk {
            main_rect: Some(Rect { x: x as i64, y: y as i64, ..d.main_rect->0 }),
            ..d
        }),
        d.main_rect is None ==> moved(d, x, y) == (Desk {
            main_rect: Some(Rect { x: x as i64, y: y as i64, w: 901120, h: 614400 }),
            ..d
        }),
        d.main_rect is Some ==> resized(d, w, h) == (Desk {
            main_rect: Some(Rect { w: w as i64, h: h as i64, ..d.main_rect->0 }),
            ..d
        }),
        d.main_rect is None ==> resized(d, w, h) == d,
{
}

/// A window with a tail shows it; else the one with the form shows the settings; else one that was
/// told to close shows nothing; and any other shows the files. Titles name the file, the settings or
/// the program.
pub proof fn a_window_shows_what_it_is_for(d: Desk, id: u64, i: int)
    requires
        0 <= i < d.tails.len(),
        forall|j: int| 0 <= j < i ==> (#[trigger] d.tails[j]).0 != d.tails[i].0,
    ensures
        shows(d, d.tails[i].0) is Tail,
        d.main_id != Some(d.tails[i].0) && (d.form is None || d.form->0.id != d.tails[i].0)
            ==> title_words(d, d.tails[i].0) == paths::name_at_end(d.os, d.tails[i].1.path)
            + " - DirWatch"@,
        d.main_id == Some(id) ==> title_words(d, id) == "DirWatch 1.0"@,
        d.main_id != Some(id) && d.form is Some && d.form->0.id == id ==> title_words(d, id)
            == "Settings - DirWatch"@,
        (forall|j: int| 0 <= j < d.tails.len() ==> (#[trigger] d.tails[j]).0 != id) ==> {
            &&& shows(d, id) is Settings <==> d.form is Some && d.form->0.id == id
            &&& shows(d, id) is Closing <==> !(d.form is Some && d.form->0.id == id)
                && d.closing.contains(id)
            &&& shows(d, id) is Main <==> !(d.form is Some && d.form->0.id == id)
                && !d.closing.contains(id)
            &&& !(d.form is Some && d.form->0.id == id) ==> title_words(d, id) == "DirWatch 1.0"@
        },
{
    a_window_is_known_by_its_number(d.tails, d.tails[i].0, i);
    lemma_win_at(d.tails, id);
}

/// With Control or Command held, `w` asks for the end of a tail and `f` for a search, in either case
/// of the letter. Enter and Escape need no other key, and nothing else means anything.
pub proof fn keys_mean_one_thing(c: String, control: bool, logo: bool, id: u64)
    ensures
        (control || logo) && (c@ == seq!['w'] || c@ == seq!['W']) ==> key_means(
            Key::Character(c),
            control,
            logo,
            id,
        ) == Some(Message::CloseTail(id)),
        (control || logo) && (c@ == seq!['f'] || c@ == seq!['F']) ==> key_means(
            Key::Character(c),
            control,
            logo,
            id,
        ) == Some(Message::FocusSearch(id)),
        !(control || logo) ==> key_means(Key::Character(c), control, logo, id) is None,
        c@ != seq!['w'] && c@ != seq!['W'] && c@ != seq!['f'] && c@ != seq!['F'] ==> key_means(
            Key::Character(c),
            control,
            logo,
            id,
        ) is None,
        key_means(Key::Enter, control, logo, id) == Some(Message::EnterPressed(id)),
        key_means(Key::Escape, control, logo, id) == Some(Message::EscPressed(id)),
        key_means(Key::Other, control, logo, id) is None,
{
    let k = c@;
    if k.len() == 1 {
        assert(k =~= seq![k[0]]);
    }
}

/// A tick counts, and brings a window to the front whose time has come, once.
pub proof fn a_tick_counts(d: Desk)
    ensures
        ticked(d).desk.tick as int == (if d.tick == 0xffff_ffff_ffff_ffff {
            0
        } else {
            d.tick + 1
        }),
        ({
            let t = ticked(d).desk.tick;
            &&& d.raise is Some && t >= (d.raise->0).1 ==> ticked(d) == (Out {
                desk: Desk { tick: t, raise: None, ..d },
                acts: seq![Act::Raise((d.raise->0).0)],
            })
            &&& d.raise is None || t < (d.raise->0).1 ==> ticked(d) == (Out {
                desk: Desk { tick: t, ..d },
                acts: seq![],
            })
        }),
{
}

/// Every finding is taken in, in order. A file that was listed is tracked where it may be, and is
/// there; a file that is gone is marked; what is heard of the directory changes no file.
pub proof fn a_listing_or_a_loss_is_taken_in(
    s: Session,
    evs: Seq<WatchEvent>,
    p: String,
    now: i64,
)
    ensures
        drained(s, seq![], now) == (Drained { session: s, wants: seq![], root: None }),
        ({
            let b = drained(s, evs, now);
            let a = session::admitted(b.session, p@);
            let found = drained(s, evs.push(WatchEvent::Discovered(p)), now);
            &&& drained(s, evs.push(WatchEvent::Reappeared(p)), now) == found
            &&& found.wants == b.wants && found.root == b.root
            &&& session::place(a, p@) is None ==> found.session == a
            &&& session::place(a, p@) is Some ==> {
                let i = session::place(a, p@)->0;
                found.session == (Session {
                    files: a.files.update(
                        i,
                        File { missing: false, missing_since: None, ..a.files[i] },
                    ),
                    ..a
                })
            }
            &&& drained(s, evs.push(WatchEvent::Missing(p)), now) == (Drained {
                session: session::after_missing(b.session, p@, now),
                ..b
            })
            &&& drained(s, evs.push(WatchEvent::Error(p)), now) == (Drained {
                root: Some(Root::Down(p@)),
                ..b
            })
            &&& drained(s, evs.push(WatchEvent::Recovered), now) == (Drained {
                root: Some(Root::Up),
                ..b
            })
        }),
{
    assert(evs.push(WatchEvent::Discovered(p)).drop_last() =~= evs);
    assert(evs.push(WatchEvent::Reappeared(p)).drop_last() =~= evs);
    assert(evs.push(WatchEvent::Missing(p)).drop_last() =~= evs);
    assert(evs.push(WatchEvent::Error(p)).drop_last() =~= evs);
    assert(evs.push(WatchEvent::Recovered).drop_last() =~= evs);
}

/// A write is taken in: the file is tracked where it may be, and it was written now. It calls for a
/// window where windows may open by themselves, the file has none and the user did not close it; else
/// the file is unread, unless it has a window.
pub proof fn a_write_is_taken_in(s: Session, evs: Seq<WatchEvent>, p: String, now: i64)
    ensures
        ({
            let b = drained(s, evs, now);
            let a = session::admitted(b.session, p@);
            let c = session::after_activity(b.session, p@, now);
            let w = drained(s, evs.push(WatchEvent::Activity(p)), now);
            let at = session::place(a, p@);
            let calls = at is Some && !a.no_open && !a.files[at->0].user_closed
                && !a.files[at->0].window_open;
            &&& w.root == b.root
            &&& calls ==> w.session == c && w.wants == b.wants.push(p@)
            &&& !calls ==> w.session == session::after_unread(c, p@) && w.wants == b.wants
        }),
{
    assert(evs.push(WatchEvent::Activity(p)).drop_last() =~= evs);
}

/// Windows open by themselves one after the other, as long as there are not too many. A file that
/// gets none is unread, and the count blinks.
pub proof fn windows_open_one_by_one(o: Out, want: Seq<Seq<char>>, path: Seq<char>, now_ms: u64)
    ensures
        opened_all(o, seq![], now_ms) == o,
        ({
            let b = opened_all(o, want, now_ms);
            let a = session::admitted(b.desk.session, path);
            let at = session::place(a, path);
            let f = a.files[at->0];
            let full = session::open_total(b.desk.session.files) >= b.desk.session.max_windows;
            let r = opened_all(o, want.push(path), now_ms);
            &&& at is Some && f.window_open ==> r == (Out {
                desk: Desk { session: a, ..b.desk },
                acts: b.acts,
            })
            &&& at is Some && !f.window_open && !full ==> r == (Out {
                desk: Desk {
                    session: Session {
                        files: a.files.update(
                            at->0,
                            File { window_open: true, user_closed: false, unread: false, ..f },
                        ),
                        ..a
                    },
                    ..b.desk
                },
                acts: b.acts.push(Act::OpenTail(path, true)),
            })
            &&& at is None || (!f.window_open && full) ==> r == (Out {
                desk: Desk {
                    session: session::after_unread(a, path),
                    cap_blink: Some(now_ms),
                    ..b.desk
                },
                acts: b.acts,
            })
        }),
{
    assert(want.push(path).drop_last() =~= want);
}

/// What came of a tailed file is taken into its own window, within 64 mebibytes of which 48 stay, and
/// into no other. The end is brought into view where something was added and the end is followed.
pub proof fn news_comes_to_its_window(o: Out, news: Seq<TailNews>, n: TailNews, i: int)
    ensures
        fed_all(o, seq![]) == o,
        ({
            let b = fed_all(o, news);
            let r = fed_all(o, news.push(n));
            let cs = tailwin::chunk_views(n.chunks@);
            let added = exists|k: int|
                0 <= k < cs.len() && ((#[trigger] cs[k]).rotated || cs[k].missing
                    || cs[k].reappeared || cs[k].skipped_bytes is Some || cs[k].error is Some
                    || cs[k].new_text is Some);
            &&& (forall|j: int|
                0 <= j < b.desk.tails.len() ==> (#[trigger] b.desk.tails[j]).0 != n.id) ==> r == b
            &&& 0 <= i < b.desk.tails.len() && b.desk.tails[i].0 == n.id && (forall|j: int|
                0 <= j < i ==> (#[trigger] b.desk.tails[j]).0 != n.id) ==> r == (Out {
                desk: Desk {
                    tails: b.desk.tails.update(
                        i,
                        (n.id, tailwin::fed(b.desk.tails[i].1, cs, 67108864, 50331648)),
                    ),
                    ..b.desk
                },
                acts: if added && b.desk.tails[i].1.following {
                    b.acts.push(Act::SnapToBottom(n.id))
                } else {
                    b.acts
                },
            })
        }),
{
    assert(news.push(n).drop_last() =~= news);
    let b = fed_all(o, news);
    let cs = tailwin::chunk_views(n.chunks@);
    lemma_win_at(b.desk.tails, n.id);
    if 0 <= i < b.desk.tails.len() && b.desk.tails[i].0 == n.id && (forall|j: int|
        0 <= j < i ==> (#[trigger] b.desk.tails[j]).0 != n.id) {
        a_window_is_known_by_its_number(b.desk.tails, n.id, i);
    }
    let added = exists|k: int|
        0 <= k < cs.len() && ((#[trigger] cs[k]).rotated || cs[k].missing || cs[k].reappeared
            || cs[k].skipped_bytes is Some || cs[k].error is Some || cs[k].new_text is Some);
    if tailwin::any_adds(cs) {
        let k = choose|k: int| 0 <= k < cs.len() && tailwin::adds(#[trigger] cs[k]);
        assert(cs[k].rotated || cs[k].missing || cs[k].reappeared || cs[k].skipped_bytes is Some
            || cs[k].error is Some || cs[k].new_text is Some);
    }
    if added {
        let k = choose|k: int|
            0 <= k < cs.len() && ((#[trigger] cs[k]).rotated || cs[k].missing || cs[k].reappeared
                || cs[k].skipped_bytes is Some || cs[k].error is Some || cs[k].new_text is Some);
        assert(tailwin::adds(cs[k]));
    }
}

/// Each window's search that was put off is run once its tick has come, and its first match is
/// brought into view. A window whose search is not due stays as it is.
pub proof fn a_search_that_is_due_is_run(o: Out, n: int)
    requires
        n >= 0,
    ensures
        scanned_first(o, 0) == o,
        ({
            let b = scanned_first(o, n);
            let id = b.desk.tails[n].0;
            let t = b.desk.tails[n].1;
            let r = scanned_first(o, n + 1);
            let u = tailwin::scanned(Tail { due: None, ..t });
            &&& t.due is None || b.desk.tick < t.due->0 ==> r == b
            &&& t.due is Some && b.desk.tick >= t.due->0 ==> r == (Out {
                desk: Desk { tails: b.desk.tails.update(n, (id, tailwin::jumped(u))), ..b.desk },
                acts: b.acts + scroll_to(id, tailwin::jump_row(u)),
            })
        }),
{
    let b = scanned_first(o, n);
    let id = b.desk.tails[n].0;
    let t = b.desk.tails[n].1;
    let u = tailwin::scanned(Tail { due: None, ..t });
    if t.due is Some && b.desk.tick >= t.due->0 {
        assert(scanned_first(o, n + 1).acts =~= b.acts + scroll_to(id, tailwin::jump_row(u)));
    }
}

proof fn lemma_opening_rests_on_files(o: Out, p: Out, want: Seq<Seq<char>>, now_ms: u64)
    requires
        o.desk.session == p.desk.session,
    ensures
        ({
            let a = opened_all(o, want, now_ms);
            let b = opened_all(p, want, now_ms);
            &&& a.desk.session == b.desk.session
            &&& a.desk == (Desk { session: a.desk.session, cap_blink: a.desk.cap_blink, ..o.desk })
            &&& p.acts.len() == 0 ==> a.acts == o.acts + b.acts
        }),
    decreases want.len(),
{
    if want.len() > 0 {
        lemma_opening_rests_on_files(o, p, want.drop_last(), now_ms);
        if p.acts.len() == 0 {
            assert(opened_all(o, want, now_ms).acts =~= o.acts + opened_all(
                p,
                want,
                now_ms,
            ).acts);
        }
    } else if p.acts.len() == 0 {
        assert(o.acts =~= o.acts + p.acts);
    }
}

proof fn lemma_feeding_rests_on_tails(o: Out, news: Seq<TailNews>)
    ensures
        ({
            let a = fed_all(o, news);
            &&& a.desk == (Desk { tails: a.desk.tails, ..o.desk })
            &&& a.desk.tails.len() == o.desk.tails.len()
            &&& o.acts.len() <= a.acts.len() && a.acts.take(o.acts.len() as int) =~= o.acts
        }),
    decreases news.len(),
{
    if news.len() > 0 {
        lemma_feeding_rests_on_tails(o, news.drop_last());
        let b = fed_all(o, news.drop_last());
        let a = fed_all(o, news);
        lemma_win_at(b.desk.tails, news.last().id);
        assert forall|k: int| 0 <= k < o.acts.len() implies a.acts[k] == o.acts[k] by {
            assert(b.acts.take(o.acts.len() as int)[k] == b.acts[k]);
        }
        assert(a.acts.take(o.acts.len() as int) =~= o.acts);
    }
}

proof fn lemma_searching_rests_on_tails(o: Out, n: int)
    requires
        0 <= n <= o.desk.tails.len(),
    ensures
        ({
            let a = scanned_first(o, n);
            &&& a.desk == (Desk { tails: a.desk.tails, ..o.desk })
            &&& a.desk.tails.len() == o.desk.tails.len()
            &&& o.acts.len() <= a.acts.len() && a.acts.take(o.acts.len() as int) =~= o.acts
            &&& forall|k: int|
                n <= k < a.desk.tails.len() ==> #[trigger] a.desk.tails[k] == o.desk.tails[k]
            &&& forall|k: int|
                0 <= k < n ==> (#[trigger] a.desk.tails[k]).1.due is None || a.desk.tails[k].1.due->0
                    > o.desk.tick
        }),
    decreases n,
{
    if n > 0 {
        lemma_searching_rests_on_tails(o, n - 1);
        let b = scanned_first(o, n - 1);
        let a = scanned_first(o, n);
        a_search_that_is_due_is_run(o, n - 1);
        let t = b.desk.tails[n - 1].1;
        let u = tailwin::scanned(Tail { due: None, ..t });
        assert(tailwin::jumped(u).due is None);
        assert forall|k: int| 0 <= k < o.acts.len() implies a.acts[k] == o.acts[k] by {
            assert(b.acts.take(o.acts.len() as int)[k] == b.acts[k]);
        }
        assert(a.acts.take(o.acts.len() as int) =~= o.acts);
    }
}

/// What is left of a tick once the files were seen to.
proof fn lemma_second_half(o4: Out, news: Seq<TailNews>)
    ensures
        ({
            let o6 = fed_all(rearranged(o4), news);
            let r = scanned_first(o6, o6.desk.tails.len() as int);
            let d = o4.desk;
            &&& r.desk == (Desk { tails: r.desk.tails, layout: r.desk.layout, ..d })
            &&& r.desk.layout == layout::refreshed(
                d.layout,
                d.session,
                d.active_dir,
                d.settings.tiles_per_box,
            )
            &&& r.desk.tails.len() == d.tails.len()
            &&& forall|k: int|
                0 <= k < d.tails.len() ==> (#[trigger] r.desk.tails[k]).1.due is None
                    || r.desk.tails[k].1.due->0 > d.tick
            &&& o4.acts.len() <= r.acts.len() && r.acts.take(o4.acts.len() as int) == o4.acts
        }),
{
    let o5 = rearranged(o4);
    let o6 = fed_all(o5, news);
    let r = scanned_first(o6, o6.desk.tails.len() as int);
    lemma_feeding_rests_on_tails(o5, news);
    lemma_searching_rests_on_tails(o6, o6.desk.tails.len() as int);
    let front = o4.acts;
    assert forall|k: int| 0 <= k < front.len() implies r.acts[k] == front[k] by {
        assert(o6.acts.take(front.len() as int)[k] == front[k]);
        assert(r.acts.take(o6.acts.len() as int)[k] == o6.acts[k]);
    }
    assert(r.acts.take(front.len() as int) =~= front);
}

/// The note and the files once the findings of a tick were taken in.
proof fn lemma_findings(o1: Out, evs: Seq<WatchEvent>, now: i64)
    ensures
        ({
            let d = o1.desk;
            let o2 = informed(o1, evs, now);
            let dr = if d.running {
                drained(d.session, evs, now)
            } else {
                Drained { session: d.session, wants: seq![], root: None }
            };
            let n = notes::after_tick(
                d.note,
                dr.root,
                d.running,
                dr.session.dir_overflow,
                dr.session.file_overflow,
            );
            &&& o2.desk == (Desk { session: dr.session, note: n.note, ..d })
            &&& o2.acts == o1.acts + Seq::new(n.log.len(), |k: int| Act::LogError(n.log[k]))
            &&& wanted(d, evs, now) == dr.wants
        }),
{
    let d = o1.desk;
    let dr = if d.running {
        drained(d.session, evs, now)
    } else {
        Drained { session: d.session, wants: seq![], root: None }
    };
    let n = notes::after_tick(
        d.note,
        dr.root,
        d.running,
        dr.session.dir_overflow,
        dr.session.file_overflow,
    );
    assert(log_acts(n.log) =~= Seq::new(n.log.len(), |k: int| Act::LogError(n.log[k])));
}

/// What a prune lets go of.
proof fn lemma_pruned(o3: Out, now: i64, grace: i64)
    ensures
        ({
            let o4 = pruned(o3, now, grace);
            let held = o3.desk.note is Some && o3.desk.note->0.kind == NoteKind::WatchError;
            let gone = session::gone_paths(o3.desk.session.files, now, grace);
            let forgets = if held {
                seq![]
            } else {
                Seq::new(gone.len(), |k: int| Act::Forget(gone[k]))
            };
            &&& o4.desk == (Desk {
                session: if held {
                    o3.desk.session
                } else {
                    session::after_prune(o3.desk.session, now, grace)
                },
                ..o3.desk
            })
            &&& o4.acts == o3.acts + forgets
        }),
{
    let o4 = pruned(o3, now, grace);
    let held = o3.desk.note is Some && o3.desk.note->0.kind == NoteKind::WatchError;
    let gone = session::gone_paths(o3.desk.session.files, now, grace);
    if held {
        assert(o4.acts =~= o3.acts + Seq::<Act>::empty());
    } else {
        assert(o4.acts =~= o3.acts + Seq::new(gone.len(), |k: int| Act::Forget(gone[k])));
    }
}

/// A tick takes in what a running watch found and nothing of a stopped one, opens the windows that
/// this calls for, lets go of files that have been gone for long unless the directory cannot be read,
/// and shows the files that are then tracked. The note and the log follow what was heard of the
/// directory and of the limits. The log is told first, then the windows, then what is let go of, in
/// front of all that concerns the tails. No search that is due is left undone, and everything else
/// stays as it is.
pub proof fn a_tick_takes_everything_in(
    d: Desk,
    evs: Seq<WatchEvent>,
    news: Seq<TailNews>,
    env: Env,
)
    ensures
        ({
            let r = after_tick(d, evs, news, env);
            let none = Drained { session: d.session, wants: seq![], root: None };
            let dr = if d.running {
                drained(d.session, evs, env.now_secs)
            } else {
                none
            };
            let n = notes::after_tick(
                d.note,
                dr.root,
                d.running,
                dr.session.dir_overflow,
                dr.session.file_overflow,
            );
            let opened = opened_all(
                Out { desk: Desk { session: dr.session, ..d }, acts: seq![] },
                dr.wants,
                env.now_ms,
            );
            let held = n.note is Some && n.note->0.kind == NoteKind::WatchError;
            let s = opened.desk.session;
            let logs = Seq::new(n.log.len(), |k: int| Act::LogError(n.log[k]));
            let gone = session::gone_paths(s.files, env.now_secs, env.grace_secs);
            let forgets = if held {
                seq![]
            } else {
                Seq::new(gone.len(), |k: int| Act::Forget(gone[k]))
            };
            let front = ticked(d).acts + logs + opened.acts + forgets;
            &&& r.desk.note == n.note
            &&& r.desk.session == (if held {
                s
            } else {
                session::after_prune(s, env.now_secs, env.grace_secs)
            })
            &&& r.desk.layout == layout::refreshed(
                d.layout,
                r.desk.session,
                d.active_dir,
                d.settings.tiles_per_box,
            )
            &&& r.desk.tick == ticked(d).desk.tick && r.desk.raise == ticked(d).desk.raise
            &&& r.desk.tails.len() == d.tails.len()
            &&& forall|k: int|
                0 <= k < d.tails.len() ==> (#[trigger] r.desk.tails[k]).1.due is None
                    || r.desk.tails[k].1.due->0 > r.desk.tick
            &&& r.desk == (Desk {
                note: r.desk.note,
                session: r.desk.session,
                layout: r.desk.layout,
                tick: r.desk.tick,
                raise: r.desk.raise,
                tails: r.desk.tails,
                cap_blink: r.desk.cap_blink,
                ..d
            })
            &&& front.len() <= r.acts.len() && r.acts.take(front.len() as int) == front
        }),
{
    let now = env.now_secs;
    let o1 = ticked(d);
    let o2 = informed(o1, evs, now);
    let want = wanted(o1.desk, evs, now);
    let o3 = opened_all(o2, want, env.now_ms);
    let o4 = pruned(o3, now, env.grace_secs);
    let p = Out { desk: Desk { session: o2.desk.session, ..d }, acts: seq![] };
    lemma_findings(o1, evs, now);
    lemma_opening_rests_on_files(o2, p, want, env.now_ms);
    lemma_pruned(o3, now, env.grace_secs);
    lemma_second_half(o4, news);
}

/// The program starts with a watch on what it was told to watch, spelled in its fields, with no
/// window yet and no note.
pub proof fn the_program_starts_with_a_watch(os: Os, cfg: Config, opts: ModelOpts, cwd: Seq<char>)
    ensures
        ({
            let o = at_start(os, cfg, opts, cwd);
            let named = paths::spelled(os, paths::normal(paths::named_dir(os, cfg.directory, cwd)));
            &&& o.desk.os == os && o.desk.running && o.desk.note is None && o.desk.form is None
            &&& o.desk.main_id is None && o.desk.main_rect is None && o.desk.screen_est is None
            &&& o.desk.tails.len() == 0 && o.desk.by_path.len() == 0
            &&& forall|id: u64| !(#[trigger] o.desk.closing.contains(id))
            &&& o.desk.tick == 0 && o.desk.cap_blink is None && o.desk.raise is None
            &&& o.desk.settings == settings::at_start(cfg.poll_interval_ms, opts)
            &&& o.desk.session == settings::tuned(session::initial(os), o.desk.settings)
            &&& o.desk.dir_input == paths::spelled(
                os,
                paths::normal(paths::named_dir(os, named, cwd)),
            )
            &&& o.desk.active_dir == o.desk.dir_input
            &&& o.desk.depth_input == strings::signed_decimal(cfg.depth as int)
            &&& o.desk.patterns_input == strings::joined(cfg.patterns, ';')
            &&& o.acts.len() == 1
            &&& o.acts[0] == Act::StartWatch(
                Config {
                    directory: o.desk.active_dir,
                    patterns: o.desk.active_patterns,
                    depth: o.desk.active_depth,
                    poll_interval_ms: o.desk.settings.poll_ms,
                },
            )
        }),
{
    let o = at_start(os, cfg, opts, cwd);
    let none = Seq::<(u64, Tail)>::empty();
    assert(ids_of(none) =~= Seq::<u64>::empty());
    assert(ids_of(none).to_set() =~= Set::<u64>::empty());
}

/// What is typed is kept as it was typed, of numbers the digits alone: in the fields of the main
/// window, and in those of the settings while they are open. Nothing else changes, and nothing is to
/// be done.
pub proof fn what_is_typed_is_kept(d: Desk, m: Message, env: Env)
    ensures
        ({
            let o = after(d, m, env);
            &&& m matches Message::DirChanged(s) ==> o.desk == (Desk { dir_input: s@, ..d })
                && o.acts.len() == 0
            &&& m matches Message::PatternsChanged(s) ==> o.desk == (Desk {
                patterns_input: s@,
                ..d
            }) && o.acts.len() == 0
            &&& m matches Message::DepthChanged(s) ==> o.desk == (Desk {
                depth_input: strings::digits_in(s@),
                ..d
            }) && o.acts.len() == 0
            &&& m matches Message::SettingsMaxWindowsChanged(s) ==> d.form is Some ==> o.desk == (
            Desk { form: Some(Draft { max_windows: strings::digits_in(s@), ..d.form->0 }), ..d })
                && o.acts.len() == 0
            &&& m matches Message::SettingsActiveSecsChanged(s) ==> d.form is Some ==> o.desk == (
            Desk {
                form: Some(Draft { active_seconds: strings::digits_in(s@), ..d.form->0 }),
                ..d
            }) && o.acts.len() == 0
            &&& m matches Message::SettingsPollMsChanged(s) ==> d.form is Some ==> o.desk == (Desk {
                form: Some(Draft { poll_ms: strings::digits_in(s@), ..d.form->0 }),
                ..d
            }) && o.acts.len() == 0
            &&& m matches Message::SettingsTilesPerBoxChanged(s) ==> d.form is Some ==> o.desk == (
            Desk { form: Some(Draft { tiles_per_box: strings::digits_in(s@), ..d.form->0 }), ..d })
                && o.acts.len() == 0
            &&& m matches Message::SettingsNoOpenToggled(b) ==> d.form is Some ==> o.desk == (Desk {
                form: Some(Draft { no_open: b, ..d.form->0 }),
                ..d
            }) && o.acts.len() == 0
        }),
{
}

/// What is asked of a window with a tail is done, and of any other window it is not: it gets the
/// focus, is told to close, or gets the focus in its search box.
#[verifier::rlimit(25)]
pub proof fn a_tail_does_what_it_is_asked(d: Desk, m: Message, id: u64, env: Env)
    requires
        m == Message::AttemptRaise(id) || m == Message::CloseTail(id) || m == Message::FocusSearch(
            id,
        ),
    ensures
        after(d, m, env).desk == d,
        win_at(d.tails, id) is None ==> after(d, m, env).acts.len() == 0,
        win_at(d.tails, id) is Some ==> after(d, m, env).acts.len() == 1 && after(d, m, env).acts[0]
            == (if m is AttemptRaise {
            Act::Focus(id)
        } else if m is CloseTail {
            Act::Close(id)
        } else {
            Act::FocusSearch(id)
        }),
{
}

/// A tail that is to follow its end again does, and its end is brought into view. One that opened by
/// itself asks for attention, and on Windows comes to the front three ticks later.
pub proof fn a_tail_follows_or_asks_for_attention(d: Desk, m: Message, id: u64, env: Env)
    requires
        m == Message::ResumeFollow(id) || m == Message::AutoOpenRealized(id),
        d.tick < u64::MAX - 3,
    ensures
        win_at(d.tails, id) is None ==> after(d, m, env).desk == d && after(d, m, env).acts.len()
            == 0,
        win_at(d.tails, id) is Some ==> after(d, m, env).acts.len() == 1 && after(d, m, env).acts[0]
            == (if m is ResumeFollow {
            Act::SnapToBottom(id)
        } else {
            Act::Attention(id)
        }),
        win_at(d.tails, id) is Some && m is ResumeFollow ==> after(d, m, env).desk == resumed(
            d,
            id,
        ),
        win_at(d.tails, id) is Some && m is AutoOpenRealized && d.os == Os::Windows ==> after(
            d,
            m,
            env,
        ).desk == (Desk { raise: Some((id, (d.tick + 3) as u64)), ..d }),
        m is AutoOpenRealized && d.os != Os::Windows ==> after(d, m, env).desk == d,
{
}

/// A watch is stopped where it runs, and started afresh where it does not or a fresh start is asked
/// for.
pub proof fn a_watch_is_switched(d: Desk, m: Message, env: Env)
    requires
        m is ToggleWatch || m is Restart,
    ensures
        m is ToggleWatch && d.running ==> after(d, m, env).acts.len() == 1 && after(
            d,
            m,
            env,
        ).acts[0] == Act::StopWatch && after(d, m, env).desk == (Desk {
            running: false,
            note: Some(Remark { kind: NoteKind::Plain, text: "stopped"@ }),
            ..d
        }),
        m is Restart || !d.running ==> after(d, m, env) == started(
            Out { desk: Desk { note: None, ..d }, acts: seq![] },
            env.cwd@,
        ),
{
}

/// Enter accepts the settings in their window and goes to the next match elsewhere. Escape drops them,
/// and elsewhere gives a search up where there is one.
pub proof fn enter_and_escape_do_what_the_window_is_for(d: Desk, m: Message, id: u64, env: Env)
    requires
        m == Message::EnterPressed(id) || m == Message::EscPressed(id),
    ensures
        ({
            let settings = d.form is Some && d.form->0.id == id;
            let i = win_at(d.tails, id);
            &&& settings && m is EnterPressed ==> after(d, m, env) == accepted(d)
            &&& settings && m is EscPressed ==> after(d, m, env) == dropped(d)
            &&& !settings && m is EnterPressed ==> after(d, m, env) == advanced(d, id)
            &&& !settings && m is EscPressed && i is Some && d.tails[i->0].1.query.len() > 0
                ==> after(d, m, env) == unsearched(d, id)
            &&& !settings && m is EscPressed && (i is None || d.tails[i->0].1.query.len() == 0)
                ==> after(d, m, env).desk == d && after(d, m, env).acts.len() == 0
        }),
{
}

/// The settings open once, show the values in force, and are accepted or dropped.
pub proof fn the_settings_open_once(d: Desk, m: Message, env: Env)
    requires
        m is OpenSettings || m is SettingsSpawned || m is SettingsOk || m is SettingsCancel,
    ensures
        m is OpenSettings ==> after(d, m, env).desk == d && after(d, m, env).acts.len() == 1
            && after(d, m, env).acts[0] == (if d.form is Some {
            Act::Focus(d.form->0.id)
        } else {
            Act::OpenSettings
        }),
        m matches Message::SettingsSpawned(id) ==> after(d, m, env).acts.len() == 0 && after(
            d,
            m,
            env,
        ).desk == (Desk { form: Some(settings::shown_in(id, d.settings)), ..d }),
        m is SettingsOk ==> after(d, m, env) == accepted(d),
        m is SettingsCancel ==> after(d, m, env) == dropped(d),
{
}

} // verus!
