//! A tail window: the text of one file as it grows, whether its end is followed, and the search in
//! it.

use vstd::prelude::*;
use vstd::utf8::*;

use crate::buffer;
use crate::buffer::Buf;
use crate::buffer::TailBuf;
use crate::render;
use crate::render::Piece;
use crate::runtime::Chunk;
use crate::runtime::TailChunk;
use crate::schedule;
use crate::search;
use crate::search::Match;
use crate::strings;
use crate::utf8text;
use crate::visible;

verus! {

/// A window holds no more text than this, in bytes.
pub const SCROLLBACK_CAP_BYTES: usize = 64 * 1024 * 1024;

/// Text that exceeds the bound is brought down to this, in bytes.
pub const SCROLLBACK_TRIM_TO: usize = 48 * 1024 * 1024;

/// A window opens with no more of a file than this, in bytes.
pub const INITIAL_LOAD_CAP: u64 = 48 * 1024 * 1024;

/// So many rows are kept above a match that is brought into view.
pub const ROWS_ABOVE_MATCH: usize = 3;

/// Where a tail was scrolled to.
#[derive(Debug, Clone, Copy, PartialEq, Eq, Structural)]
pub struct Scroll {
    /// How far down.
    pub y: i64,
    /// The height of the part in view.
    pub viewport_h: i64,
    /// The height of all there is.
    pub content_h: i64,
}

/// A tail window.
#[derive(Debug)]
pub struct TailWin {
    /// The file.
    pub path: String,
    /// Its text.
    pub buf: TailBuf,
    /// Its encoding in words.
    pub encoding: String,
    /// Nothing has come yet.
    pub loading: bool,
    /// The end is kept in view.
    pub following: bool,
    /// How far it is scrolled.
    pub scroll_y: i64,
    /// What is searched for.
    pub search_query: String,
    /// Where it was found.
    pub matches: Vec<Match>,
    /// The selected match.
    pub current_match: Option<usize>,
    /// The tick at which a search that was put off is due.
    pub search_rescan_due: Option<u64>,
}

/// The state of a tail window.
#[verifier::ext_equal]
pub struct Tail {
    /// The file.
    pub path: Seq<char>,
    /// Its text.
    pub buf: Buf,
    /// Its encoding in words.
    pub encoding: Seq<char>,
    /// Nothing has come yet.
    pub loading: bool,
    /// The end is kept in view.
    pub following: bool,
    /// How far it is scrolled.
    pub scroll_y: i64,
    /// What is searched for.
    pub query: Seq<char>,
    /// Where it was found.
    pub matches: Seq<Match>,
    /// The selected match.
    pub current: Option<usize>,
    /// The tick at which a search that was put off is due.
    pub due: Option<u64>,
}

impl View for TailWin {
    type V = Tail;

    open spec fn view(&self) -> Tail {
        Tail {
            path: self.path@,
            buf: self.buf@,
            encoding: self.encoding@,
            loading: self.loading,
            following: self.following,
            scroll_y: self.scroll_y,
            query: self.search_query@,
            matches: self.matches@,
            current: self.current_match,
            due: self.search_rescan_due,
        }
    }
}

// ---------------------------------------------------------------------------------------------
// Model
// ---------------------------------------------------------------------------------------------

/// A window that has just opened.
pub open spec fn opened(path: Seq<char>) -> Tail {
    Tail {
        path,
        buf: buffer::empty_buf(),
        encoding: seq![],
        loading: true,
        following: true,
        scroll_y: 0,
        query: seq![],
        matches: seq![],
        current: None,
        due: None,
    }
}

/// The matches of the query in the text.
pub open spec fn all_matches(t: Tail) -> Seq<Match> {
    search::found(buffer::bytes_of(t.buf), encode_utf8(t.query))
}

/// What always holds of a window: matches come in order, the selected one is among them, and
/// unless a search is due they are those of the query in the text.
pub open spec fn sound(t: Tail) -> bool {
    &&& search::in_order(t.matches)
    &&& t.matches.len() <= search::MATCH_CAP
    &&& t.current matches Some(i) ==> i < t.matches.len()
    &&& t.due is None ==> t.matches == all_matches(t)
}

/// A number that was picked, as a place in a list.
pub open spec fn as_place(n: Option<int>) -> Option<usize> {
    match n {
        Some(i) => Some(i as usize),
        None => None,
    }
}

/// The window once its text was searched again.
pub open spec fn searched(t: Tail) -> Tail {
    Tail {
        matches: all_matches(t),
        current: as_place(search::clamped(t.current, all_matches(t).len() as int)),
        ..t
    }
}

/// The window once the text after its first `old_len` bytes was searched.
pub open spec fn searched_on(t: Tail, old_len: int) -> Tail {
    if t.query.len() == 0 {
        t
    } else {
        let ms = search::extended(
            t.matches,
            buffer::bytes_of(t.buf),
            encode_utf8(t.query),
            old_len,
        );
        Tail { matches: ms, current: as_place(search::clamped(t.current, ms.len() as int)), ..t }
    }
}

/// The buffer with one more text, if it is to be added.
pub open spec fn noted(b: Buf, add: bool, text: Seq<char>) -> Buf {
    if add {
        buffer::appended(b, text)
    } else {
        b
    }
}

/// What a piece adds to the text: notes of what befell the file, then the new text.
pub open spec fn with_notes(b: Buf, c: Chunk) -> Buf {
    let b1 = noted(b, c.rotated, "\n--- file rotated/truncated ---\n"@);
    let b2 = noted(b1, c.missing, "\n--- file missing ---\n"@);
    let b3 = noted(b2, c.reappeared, "\n--- file reappeared ---\n"@);
    let b4 = match c.skipped_bytes {
        Some(n) => buffer::appended(b3, skip_note(n)),
        None => b3,
    };
    let b5 = match c.error {
        Some(e) => buffer::appended(b4, "\n--- "@ + e + " ---\n"@),
        None => b4,
    };
    match c.new_text {
        Some(t) => buffer::appended(b5, t),
        None => b5,
    }
}

/// The note that the front of a file was left out.
pub open spec fn skip_note(n: u64) -> Seq<char> {
    "--- earlier "@ + strings::decimal(n as nat) + " bytes skipped ---\n"@
}

/// Whether a piece adds anything to the text.
pub open spec fn adds(c: Chunk) -> bool {
    c.rotated || c.missing || c.reappeared || c.skipped_bytes is Some || c.error is Some
        || c.new_text is Some
}

/// The window with one more piece.
pub open spec fn with_chunk(t: Tail, c: Chunk) -> Tail {
    Tail {
        buf: with_notes(t.buf, c),
        loading: t.loading && !c.ready,
        encoding: if c.encoding_label.len() > 0 {
            c.encoding_label
        } else {
            t.encoding
        },
        ..t
    }
}

/// The window with more pieces.
pub open spec fn with_chunks(t: Tail, cs: Seq<Chunk>) -> Tail
    decreases cs.len(),
{
    if cs.len() == 0 {
        t
    } else {
        with_chunk(with_chunks(t, cs.drop_last()), cs.last())
    }
}

/// Whether any piece adds to the text.
pub open spec fn any_adds(cs: Seq<Chunk>) -> bool {
    exists|i: int| 0 <= i < cs.len() && adds(#[trigger] cs[i])
}

/// The window once text was added: no longer loading, within its bound, and with its matches
/// brought up to date. Where a search is due they are left to it, but dropped if the text moved.
pub open spec fn settled(t: Tail, old_len: int, cap: int, trim_to: int) -> Tail {
    let u = Tail { buf: buffer::trimmed_to(t.buf, cap, trim_to), loading: false, ..t };
    let moved = buffer::is_trimmed(t.buf, cap, trim_to);
    if t.due is Some {
        if moved {
            Tail { matches: seq![], current: None, ..u }
        } else {
            u
        }
    } else if moved {
        searched(u)
    } else {
        searched_on(u, old_len)
    }
}

/// The window once pieces were taken in.
pub open spec fn fed(t: Tail, cs: Seq<Chunk>, cap: int, trim_to: int) -> Tail {
    let u = with_chunks(t, cs);
    if any_adds(cs) {
        settled(u, buffer::bytes_of(t.buf).len() as int, cap, trim_to)
    } else {
        u
    }
}

/// The window once the selected match was brought into view: the end is no longer followed.
pub open spec fn jumped(t: Tail) -> Tail {
    match jump_row(t) {
        Some(row) => Tail {
            following: false,
            scroll_y: visible::offset_of(row) as i64,
            ..t
        },
        None => t,
    }
}

/// The window once it was scrolled: its end is followed where it is in view.
pub open spec fn scrolled(t: Tail, s: Scroll) -> Tail {
    Tail {
        following: visible::follows(s.y as int, s.viewport_h as int, s.content_h as int),
        scroll_y: s.y,
        ..t
    }
}

/// Whether a match is selected.
pub open spec fn has_selection(t: Tail) -> bool {
    t.current matches Some(i) && i < t.matches.len()
}

/// The row at the top once the selected match was brought into view.
pub open spec fn jump_row(t: Tail) -> Option<int> {
    if has_selection(t) {
        let line = buffer::line_at(
            buffer::bytes_of(t.buf),
            t.matches[t.current->0 as int].start as int,
        );
        Some(
            if line > ROWS_ABOVE_MATCH {
                line - ROWS_ABOVE_MATCH
            } else {
                0
            },
        )
    } else {
        None
    }
}

/// The window once the query was searched for and the first match selected.
pub open spec fn scanned(t: Tail) -> Tail {
    let u = searched(t);
    Tail { current: as_place(search::stepped(None, u.matches.len() as int, true)), ..u }
}

/// The window once the next or the previous match was selected.
pub open spec fn stepped(t: Tail, forward: bool) -> Tail {
    Tail {
        current: as_place(search::stepped(t.current, t.matches.len() as int, forward)),
        ..t
    }
}

/// The window with another query, before any search.
pub open spec fn asked(t: Tail, query: Seq<char>) -> Tail {
    Tail { query, due: None, ..t }
}

/// Whether a query is searched for at once: an empty one, and any in a text that is not too long.
pub open spec fn at_once(t: Tail, query: Seq<char>) -> bool {
    query.len() == 0 || buffer::bytes_of(t.buf).len() < search::DEBOUNCE_THRESHOLD_BYTES
}

/// The window once a query was typed at a tick.
pub open spec fn queried(t: Tail, query: Seq<char>, tick: u64) -> Tail {
    if at_once(t, query) {
        jumped(scanned(asked(t, query)))
    } else {
        Tail { query, due: Some(schedule::at_most_max(tick + search::DEBOUNCE_TICKS)), ..t }
    }
}

/// The row to show once a query was typed.
pub open spec fn query_row(t: Tail, query: Seq<char>) -> Option<int> {
    if at_once(t, query) {
        jump_row(scanned(asked(t, query)))
    } else {
        None
    }
}

/// The window once the next match was asked for: a search that is due is run in its place.
pub open spec fn advanced(t: Tail) -> Tail {
    if t.due is Some {
        jumped(scanned(Tail { due: None, ..t }))
    } else {
        jumped(stepped(t, true))
    }
}

/// The row to show once the next match was asked for.
pub open spec fn advance_row(t: Tail) -> Option<int> {
    if t.due is Some {
        jump_row(scanned(Tail { due: None, ..t }))
    } else {
        jump_row(stepped(t, true))
    }
}

/// Whether a search that was put off is due at a tick.
pub open spec fn is_due(t: Tail, tick: u64) -> bool {
    t.due matches Some(d) && tick >= d
}

/// The window without a search.
pub open spec fn unsearched(t: Tail) -> Tail {
    Tail { query: seq![], matches: seq![], current: None, due: None, ..t }
}

// ---------------------------------------------------------------------------------------------
// Proofs
// ---------------------------------------------------------------------------------------------

proof fn lemma_searched_sound(t: Tail)
    requires
        buffer::bytes_of(t.buf).len() <= usize::MAX,
    ensures
        sound(searched(t)),
        sound(scanned(t)),
{
    search::matches_are_in_order(buffer::bytes_of(t.buf), encode_utf8(t.query));
}

proof fn lemma_no_query(text: Seq<u8>)
    ensures
        search::found(text, encode_utf8(Seq::<char>::empty())) == Seq::<Match>::empty(),
        encode_utf8(Seq::<char>::empty()).len() == 0,
{
    assert(encode_utf8(Seq::<char>::empty()) =~= Seq::<u8>::empty());
}

/// Notes only add to the text.
proof fn lemma_notes_add(b: Buf, c: Chunk)
    ensures
        exists|more: Seq<char>| #[trigger] (b.text + more) == with_notes(b, c).text,
        !adds(c) ==> with_notes(b, c) == b,
{
    let b1 = noted(b, c.rotated, "\n--- file rotated/truncated ---\n"@);
    lemma_noted(b, c.rotated, "\n--- file rotated/truncated ---\n"@);
    let b2 = noted(b1, c.missing, "\n--- file missing ---\n"@);
    lemma_noted(b1, c.missing, "\n--- file missing ---\n"@);
    lemma_adds_trans(b.text, b1.text, b2.text);
    let b3 = noted(b2, c.reappeared, "\n--- file reappeared ---\n"@);
    lemma_noted(b2, c.reappeared, "\n--- file reappeared ---\n"@);
    lemma_adds_trans(b.text, b2.text, b3.text);
    let b4 = match c.skipped_bytes {
        Some(n) => buffer::appended(b3, skip_note(n)),
        None => b3,
    };
    lemma_noted(b3, c.skipped_bytes is Some, skip_note(c.skipped_bytes->0));
    lemma_adds_trans(b.text, b3.text, b4.text);
    let e = "\n--- "@ + c.error->0 + " ---\n"@;
    let b5 = match c.error {
        Some(x) => buffer::appended(b4, "\n--- "@ + x + " ---\n"@),
        None => b4,
    };
    lemma_noted(b4, c.error is Some, e);
    lemma_adds_trans(b.text, b4.text, b5.text);
    lemma_noted(b5, c.new_text is Some, c.new_text->0);
    lemma_adds_trans(b.text, b5.text, with_notes(b, c).text);
}

proof fn lemma_noted(b: Buf, add: bool, text: Seq<char>)
    ensures
        exists|more: Seq<char>| #[trigger] (b.text + more) == noted(b, add, text).text,
{
    if add {
        assert(b.text + buffer::take_in(text, b.cr).text == noted(b, add, text).text);
    } else {
        assert(b.text + Seq::<char>::empty() =~= b.text);
    }
}

proof fn lemma_adds_trans(a: Seq<char>, b: Seq<char>, c: Seq<char>)
    requires
        exists|more: Seq<char>| #[trigger] (a + more) == b,
        exists|more: Seq<char>| #[trigger] (b + more) == c,
    ensures
        exists|more: Seq<char>| #[trigger] (a + more) == c,
{
    let x = choose|more: Seq<char>| #[trigger] (a + more) == b;
    let y = choose|more: Seq<char>| #[trigger] (b + more) == c;
    assert(a + (x + y) =~= (a + x) + y);
}

/// Pieces only add to the text, and touch nothing of the search.
proof fn lemma_chunks_add(t: Tail, cs: Seq<Chunk>)
    ensures
        exists|more: Seq<char>|
            #[trigger] (t.buf.text + more) == with_chunks(t, cs).buf.text,
        !any_adds(cs) ==> with_chunks(t, cs).buf == t.buf,
        with_chunks(t, cs).query == t.query,
        with_chunks(t, cs).matches == t.matches,
        with_chunks(t, cs).current == t.current,
        with_chunks(t, cs).due == t.due,
        with_chunks(t, cs).following == t.following,
        with_chunks(t, cs).path == t.path,
    decreases cs.len(),
{
    if cs.len() > 0 {
        let init = cs.drop_last();
        lemma_chunks_add(t, init);
        let u = with_chunks(t, init);
        lemma_notes_add(u.buf, cs.last());
        lemma_adds_trans(t.buf.text, u.buf.text, with_chunks(t, cs).buf.text);
        if !any_adds(cs) {
            assert(!adds(cs[cs.len() - 1]));
            assert forall|i: int| 0 <= i < init.len() implies !adds(#[trigger] init[i]) by {
                assert(init[i] == cs[i]);
            }
        }
    } else {
        assert(t.buf.text + Seq::<char>::empty() =~= t.buf.text);
    }
}

/// Matches stay those of the query in the text, however it grows and wherever it is cut.
pub proof fn matches_stay_current(t: Tail, cs: Seq<Chunk>, cap: int, trim_to: int)
    requires
        sound(t),
        buffer::bytes_of(with_chunks(t, cs).buf).len() <= usize::MAX,
        buffer::bytes_of(fed(t, cs, cap, trim_to).buf).len() <= usize::MAX,
    ensures
        sound(fed(t, cs, cap, trim_to)),
{
    lemma_chunks_add(t, cs);
    let u = with_chunks(t, cs);
    if any_adds(cs) {
        let moved = buffer::is_trimmed(u.buf, cap, trim_to);
        let v = Tail { buf: buffer::trimmed_to(u.buf, cap, trim_to), loading: false, ..u };
        if t.due is None {
            if moved {
                lemma_searched_sound(v);
            } else {
                lemma_untrimmed(u.buf, cap, trim_to);
                let more = choose|more: Seq<char>| #[trigger] (t.buf.text + more) == u.buf.text;
                utf8text::lemma_encode_concat(t.buf.text, more);
                search::extending_equals_searching_again(
                    buffer::bytes_of(t.buf),
                    encode_utf8(more),
                    encode_utf8(t.query),
                );
                strings::lemma_empty_text(t.query);
                search::matches_are_in_order(buffer::bytes_of(u.buf), encode_utf8(t.query));
                if t.query.len() == 0 {
                    assert(t.query =~= Seq::<char>::empty());
                    lemma_no_query(buffer::bytes_of(t.buf));
                    lemma_no_query(buffer::bytes_of(u.buf));
                }
            }
        }
    }
}

/// A buffer from which nothing was dropped is as it was.
proof fn lemma_untrimmed(b: Buf, cap: int, trim_to: int)
    requires
        !buffer::is_trimmed(b, cap, trim_to),
    ensures
        buffer::trimmed_to(b, cap, trim_to) == b,
{
}

// ---------------------------------------------------------------------------------------------
// The window
// ---------------------------------------------------------------------------------------------

/// The pieces.
pub open spec fn chunk_views(v: Seq<TailChunk>) -> Seq<Chunk> {
    v.map_values(|c: TailChunk| c@)
}

impl TailWin {
    /// The index of lines fits the text, and the matches are sound.
    pub open spec fn wf(&self) -> bool {
        self.buf.wf() && sound(self@)
    }

    /// A window that has just opened.
    pub fn new(path: &str) -> (r: Self)
        ensures
            r.wf(),
            r@ == opened(path@),
    {
        let r = TailWin {
            path: path.to_owned(),
            buf: TailBuf::new(),
            encoding: String::new(),
            loading: true,
            following: true,
            scroll_y: 0,
            search_query: String::new(),
            matches: Vec::new(),
            current_match: None,
            search_rescan_due: None,
        };
        proof {
            assert(r@ =~= opened(path@));
            lemma_no_query(buffer::bytes_of(r@.buf));
        }
        r
    }

    /// Searches the whole text.
    pub fn refresh_matches(&mut self)
        requires
            old(self).buf.wf(),
        ensures
            final(self).wf(),
            final(self)@ == searched(old(self)@),
    {
        let _len = self.buf.byte_len();
        proof {
            lemma_searched_sound(self@);
        }
        self.matches = search::find_matches(self.buf.text.as_str(), self.search_query.as_str());
        self.current_match = search::clamp_current(self.current_match, self.matches.len());
    }

    /// Searches the text after its first `old_len` bytes.
    pub fn extend_matches(&mut self, old_len: usize)
        ensures
            final(self).buf == old(self).buf,
            final(self)@ == searched_on(old(self)@, old_len as int),
    {
        proof {
            strings::lemma_empty_text(self.search_query@);
        }
        if self.search_query.as_str().as_bytes().len() == 0 {
            return;
        }
        search::extend_matches(
            self.buf.text.as_str(),
            self.search_query.as_str(),
            old_len,
            &mut self.matches,
        );
        self.current_match = search::clamp_current(self.current_match, self.matches.len());
    }

    /// Adds what a piece brings, and says whether it brought any text.
    fn take_chunk(&mut self, c: TailChunk) -> (r: bool)
        requires
            old(self).buf.wf(),
        ensures
            final(self).buf.wf(),
            final(self)@ == with_chunk(old(self)@, c@),
            r == adds(c@),
    {
        if c.ready {
            self.loading = false;
        }
        proof {
            strings::lemma_empty_text(c.encoding_label@);
        }
        if c.encoding_label.as_str().as_bytes().len() > 0 {
            self.encoding = c.encoding_label;
        }
        let mut added = false;
        if c.rotated {
            self.buf.append_text("\n--- file rotated/truncated ---\n");
            added = true;
        }
        if c.missing {
            self.buf.append_text("\n--- file missing ---\n");
            added = true;
        }
        if c.reappeared {
            self.buf.append_text("\n--- file reappeared ---\n");
            added = true;
        }
        if let Some(n) = c.skipped_bytes {
            let mut note = "--- earlier ".to_owned();
            note.push_str(strings::decimal_of(n).as_str());
            note.push_str(" bytes skipped ---\n");
            self.buf.append_text(note.as_str());
            added = true;
        }
        if let Some(e) = c.error {
            let mut note = "\n--- ".to_owned();
            note.push_str(e.as_str());
            note.push_str(" ---\n");
            self.buf.append_text(note.as_str());
            added = true;
        }
        if let Some(t) = c.new_text {
            self.buf.append_text(t.as_str());
            added = true;
        }
        added
    }

    /// Takes in what came since the last time, within the bounds of a window. Says whether the end
    /// is to be brought into view.
    pub fn take_chunks(&mut self, chunks: Vec<TailChunk>) -> (r: bool)
        requires
            old(self).wf(),
        ensures
            final(self).wf(),
            final(self)@ == fed(
                old(self)@,
                chunk_views(chunks@),
                SCROLLBACK_CAP_BYTES as int,
                SCROLLBACK_TRIM_TO as int,
            ),
            r == (any_adds(chunk_views(chunks@)) && old(self)@.following),
    {
        self.take_chunks_within(chunks, SCROLLBACK_CAP_BYTES, SCROLLBACK_TRIM_TO)
    }

    /// Takes in what came since the last time. Text that exceeds `cap` bytes is brought down to
    /// `trim_to`.
    pub fn take_chunks_within(&mut self, chunks: Vec<TailChunk>, cap: usize, trim_to: usize) -> (r:
        bool)
        requires
            old(self).wf(),
        ensures
            final(self).wf(),
            final(self)@ == fed(old(self)@, chunk_views(chunks@), cap as int, trim_to as int),
            r == (any_adds(chunk_views(chunks@)) && old(self)@.following),
    {
        let ghost t0 = self@;
        let ghost cs = chunk_views(chunks@);
        let old_len = self.buf.byte_len();
        let mut added = false;
        let mut rest = chunks;
        let ghost mut n: int = 0;
        proof {
            assert(cs.skip(0) =~= cs);
            assert(with_chunks(t0, cs.take(0)) == t0);
        }
        while rest.len() > 0
            invariant
                0 <= n <= cs.len(),
                chunk_views(rest@) == cs.skip(n),
                self.buf.wf(),
                self@ == with_chunks(t0, cs.take(n)),
                added == any_adds(cs.take(n)),
            decreases rest@.len(),
        {
            let ghost rest0 = rest@;
            let c = rest.remove(0);
            let ghost cv = c@;
            proof {
                assert(chunk_views(rest0).len() == rest0.len());
                assert(cs.skip(n)[0] == cv);
                assert(rest@ =~= rest0.drop_first());
                assert(cs.skip(n).drop_first() =~= cs.skip(n + 1));
                assert(chunk_views(rest@) =~= cs.skip(n + 1));
                assert(cs.take(n + 1).drop_last() =~= cs.take(n));
                assert(cs.take(n + 1).last() == cv);
            }
            let more = self.take_chunk(c);
            proof {
                assert(any_adds(cs.take(n + 1)) == (any_adds(cs.take(n)) || adds(cv))) by {
                    let a = cs.take(n);
                    let b = cs.take(n + 1);
                    if any_adds(a) {
                        let i = choose|i: int| 0 <= i < a.len() && adds(#[trigger] a[i]);
                        assert(b[i] == a[i]);
                    }
                    if adds(cv) {
                        assert(adds(b[n]));
                    }
                    if any_adds(b) {
                        let i = choose|i: int| 0 <= i < b.len() && adds(#[trigger] b[i]);
                        if i < n {
                            assert(a[i] == b[i]);
                        }
                    }
                }
            }
            if more {
                added = true;
            }
            proof {
                n = n + 1;
            }
        }
        proof {
            assert(chunk_views(rest@).len() == 0);
            assert(cs.take(n) =~= cs);
        }
        let _full = self.buf.byte_len();
        let ghost u = self@;
        if added {
            self.loading = false;
            let moved = self.buf.cap_scrollback_to(cap, trim_to);
            let _len = self.buf.byte_len();
            proof {
                matches_stay_current(t0, cs, cap as int, trim_to as int);
                lemma_chunks_add(t0, cs);
            }
            if self.search_rescan_due.is_some() {
                if moved {
                    self.matches = Vec::new();
                    self.current_match = None;
                    assert(self@ =~= fed(t0, cs, cap as int, trim_to as int));
                }
            } else if moved {
                self.refresh_matches();
            } else {
                self.extend_matches(old_len);
            }
        } else {
            proof {
                lemma_chunks_add(t0, cs);
                matches_stay_current(t0, cs, cap as int, trim_to as int);
            }
        }
        added && self.following
    }

    /// Brings the selected match into view: tells the row at the top, and stops following the end.
    pub fn jump_to_current_match(&mut self) -> (r: Option<usize>)
        requires
            old(self).wf(),
        ensures
            final(self).wf(),
            final(self)@ == jumped(old(self)@),
            match r {
                Some(row) => jump_row(old(self)@) == Some(row as int),
                None => jump_row(old(self)@) is None,
            },
    {
        let ci = match self.current_match {
            Some(ci) => ci,
            None => {
                return None;
            },
        };
        if ci >= self.matches.len() {
            return None;
        }
        let line = self.buf.line_of(self.matches[ci].start);
        let row: usize = if line > ROWS_ABOVE_MATCH {
            line - ROWS_ABOVE_MATCH
        } else {
            0
        };
        self.following = false;
        self.scroll_y = visible::scroll_to_row(row);
        Some(row)
    }

    /// Searches for the query, selects the first match and brings it into view.
    pub fn apply_search_scan(&mut self) -> (r: Option<usize>)
        requires
            old(self).buf.wf(),
        ensures
            final(self).wf(),
            final(self)@ == jumped(scanned(old(self)@)),
            match r {
                Some(row) => jump_row(scanned(old(self)@)) == Some(row as int),
                None => jump_row(scanned(old(self)@)) is None,
            },
    {
        let _len = self.buf.byte_len();
        proof {
            lemma_searched_sound(self@);
        }
        self.refresh_matches();
        self.current_match = search::step_match(None, self.matches.len(), true);
        self.jump_to_current_match()
    }

    /// A query was typed. In a long text the search waits until typing pauses.
    pub fn change_query(&mut self, query: &str, tick: u64) -> (r: Option<usize>)
        requires
            old(self).wf(),
        ensures
            final(self).wf(),
            final(self)@ == queried(old(self)@, query@, tick),
            match r {
                Some(row) => query_row(old(self)@, query@) == Some(row as int),
                None => query_row(old(self)@, query@) is None,
            },
    {
        self.search_query = query.to_owned();
        proof {
            strings::lemma_empty_text(query@);
        }
        if query.as_bytes().len() == 0 || search::scan_inline(self.buf.byte_len()) {
            self.search_rescan_due = None;
            return self.apply_search_scan();
        }
        self.search_rescan_due = Some(tick.saturating_add(search::DEBOUNCE_TICKS));
        None
    }

    /// Selects the next or the previous match and brings it into view.
    pub fn search_step(&mut self, forward: bool) -> (r: Option<usize>)
        requires
            old(self).wf(),
        ensures
            final(self).wf(),
            final(self)@ == jumped(stepped(old(self)@, forward)),
            match r {
                Some(row) => jump_row(stepped(old(self)@, forward)) == Some(row as int),
                None => jump_row(stepped(old(self)@, forward)) is None,
            },
    {
        self.current_match = search::step_match(self.current_match, self.matches.len(), forward);
        self.jump_to_current_match()
    }

    /// Selects the next match; a search that is due is run in its place.
    pub fn search_step_or_force(&mut self) -> (r: Option<usize>)
        requires
            old(self).wf(),
        ensures
            final(self).wf(),
            final(self)@ == advanced(old(self)@),
            match r {
                Some(row) => advance_row(old(self)@) == Some(row as int),
                None => advance_row(old(self)@) is None,
            },
    {
        if self.search_rescan_due.is_some() {
            self.search_rescan_due = None;
            self.apply_search_scan()
        } else {
            self.search_step(true)
        }
    }

    /// Runs a search that was put off.
    pub fn run_due_scan(&mut self) -> (r: Option<usize>)
        requires
            old(self).wf(),
        ensures
            final(self).wf(),
            final(self)@ == jumped(scanned(Tail { due: None, ..old(self)@ })),
            match r {
                Some(row) => jump_row(scanned(Tail { due: None, ..old(self)@ })) == Some(
                    row as int,
                ),
                None => jump_row(scanned(Tail { due: None, ..old(self)@ })) is None,
            },
    {
        self.search_rescan_due = None;
        self.apply_search_scan()
    }

    /// Gives up the search.
    pub fn clear_search(&mut self)
        requires
            old(self).wf(),
        ensures
            final(self).wf(),
            final(self)@ == unsearched(old(self)@),
    {
        self.search_query = String::new();
        self.matches = Vec::new();
        self.current_match = None;
        self.search_rescan_due = None;
        proof {
            assert(self@ =~= unsearched(old(self)@));
            lemma_no_query(buffer::bytes_of(self@.buf));
        }
    }

    /// Takes note that it was scrolled.
    pub fn take_scroll(&mut self, s: Scroll)
        requires
            old(self).wf(),
        ensures
            final(self).wf(),
            final(self)@ == scrolled(old(self)@, s),
    {
        self.following = visible::is_following(
            visible::follow_gap_px(s.y, s.viewport_h, s.content_h),
        );
        self.scroll_y = s.y;
    }

    /// Follows the end, or stops following it.
    pub fn set_following(&mut self, following: bool)
        requires
            old(self).wf(),
        ensures
            final(self).wf(),
            final(self)@ == (Tail { following, ..old(self)@ }),
    {
        self.following = following;
    }

    /// What is shown of the lines from `first` up to `last`.
    pub fn visible_pieces(&self, first: usize, last: usize) -> (r: Vec<Piece>)
        requires
            self.wf(),
        ensures
            render::shown(r@) == render::picture(
                buffer::lines_between(buffer::bytes_of(self@.buf), first as int, last as int),
                first_byte(self@, first as int),
                if self@.query.len() == 0 {
                    seq![]
                } else {
                    self@.matches
                },
                selected_start(self@),
                render::MAX_RENDER_LINE_BYTES as int,
            ),
    {
        let visible = self.buf.slice_text(first, last);
        let total = self.buf.byte_len();
        proof {
            buffer::lemma_starts(buffer::bytes_of(self@.buf));
            strings::lemma_empty_text(self.search_query@);
        }
        let base = if first < self.buf.line_starts.len() {
            self.buf.line_starts[first]
        } else {
            0
        };
        let cur = match self.current_match {
            Some(i) if i < self.matches.len() => Some(self.matches[i].start),
            _ => None,
        };
        proof {
            let b = buffer::bytes_of(self@.buf);
            let idx = buffer::line_index(b);
            if first < idx.len() && first < last && last < idx.len() {
                assert(buffer::starts_of(b)[first as int] < buffer::starts_of(b)[last as int]);
            }
            assert(base + encode_utf8(visible@).len() <= usize::MAX);
        }
        if self.search_query.as_str().as_bytes().len() == 0 {
            let none: Vec<Match> = Vec::new();
            assert(none@ =~= seq![]);
            render::render_pieces(
                visible,
                base,
                none.as_slice(),
                cur,
                render::MAX_RENDER_LINE_BYTES,
            )
        } else {
            render::render_pieces(
                visible,
                base,
                self.matches.as_slice(),
                cur,
                render::MAX_RENDER_LINE_BYTES,
            )
        }
    }
}

/// Where a line starts, in bytes; 0 where there is no such line.
pub open spec fn first_byte(t: Tail, first: int) -> int {
    let idx = buffer::line_index(buffer::bytes_of(t.buf));
    if first < idx.len() {
        idx[first] as int
    } else {
        0
    }
}

/// Where the selected match starts.
pub open spec fn selected_start(t: Tail) -> Option<usize> {
    if has_selection(t) {
        Some(t.matches[t.current->0 as int].start)
    } else {
        None
    }
}

// ---------------------------------------------------------------------------------------------
// Laws
// ---------------------------------------------------------------------------------------------

/// Typing more of a query in a long text runs no search until typing pauses: each keystroke puts
/// the search off again, and the last query typed is the one that is searched for.
pub proof fn a_burst_of_typing_is_one_search(
    t: Tail,
    first: Seq<char>,
    last: Seq<char>,
    early: u64,
    late: u64,
)
    requires
        early <= late,
        late + search::DEBOUNCE_TICKS <= u64::MAX,
        buffer::bytes_of(t.buf).len() >= search::DEBOUNCE_THRESHOLD_BYTES,
        first.len() > 0,
        last.len() > 0,
    ensures
        ({
            let u = queried(queried(t, first, early), last, late);
            &&& u.matches == t.matches
            &&& u.query == last
            &&& !is_due(u, late)
            &&& is_due(u, (late + search::DEBOUNCE_TICKS) as u64)
        }),
{
}

/// A search that was put off finds what a search at once would have found.
pub proof fn a_late_search_finds_the_same(t: Tail, query: Seq<char>, tick: u64)
    requires
        !at_once(t, query),
    ensures
        scanned(Tail { due: None, ..queried(t, query, tick) }) == scanned(asked(t, query)),
{
}

/// The next match of the query is asked for while a search is due: it is run, so no match of an
/// earlier query is ever selected.
pub proof fn next_never_steps_through_old_matches(t: Tail)
    requires
        t.due is Some,
    ensures
        advanced(t).matches == all_matches(t),
        advanced(t).due is None,
{
}

/// A window whose end is not followed stays where it is, whatever comes.
pub proof fn a_paused_window_stays(t: Tail, cs: Seq<Chunk>, cap: int, trim_to: int)
    requires
        !t.following,
    ensures
        !fed(t, cs, cap, trim_to).following,
{
    lemma_chunks_add(t, cs);
}

/// An empty file that is there ends the loading.
pub proof fn an_empty_file_is_ready(t: Tail, c: Chunk, cap: int, trim_to: int)
    requires
        c.ready,
    ensures
        !fed(t, seq![c], cap, trim_to).loading,
{
    assert(seq![c].drop_last() =~= Seq::<Chunk>::empty());
    assert(with_chunks(t, seq![c].drop_last()) == t);
    assert(with_chunks(t, seq![c]) == with_chunk(t, c));
}

/// Everything that a piece says comes to stand in the text, in this order: that the file was
/// replaced, that it is gone, that it is back, how much was left out, why it cannot be read, and
/// the new text. The piece also tells the encoding, unless it names none, and ends the loading
/// where the file is there.
pub proof fn a_piece_comes_to_stand_in_the_text(t: Tail, cs: Seq<Chunk>, c: Chunk)
    ensures
        with_chunks(t, seq![]) == t,
        ({
            let before = with_chunks(t, cs);
            let after = with_chunks(t, cs.push(c));
            let said = (if c.rotated {
                "\n--- file rotated/truncated ---\n"@
            } else {
                seq![]
            }) + (if c.missing {
                "\n--- file missing ---\n"@
            } else {
                seq![]
            }) + (if c.reappeared {
                "\n--- file reappeared ---\n"@
            } else {
                seq![]
            }) + (if c.skipped_bytes is Some {
                "--- earlier "@ + strings::decimal(c.skipped_bytes->0 as nat)
                    + " bytes skipped ---\n"@
            } else {
                seq![]
            }) + (if c.error is Some {
                "\n--- "@ + c.error->0 + " ---\n"@
            } else {
                seq![]
            }) + (if c.new_text is Some {
                c.new_text->0
            } else {
                seq![]
            });
            after == (Tail {
                buf: buffer::appended(before.buf, said),
                loading: before.loading && !c.ready,
                encoding: if c.encoding_label.len() > 0 {
                    c.encoding_label
                } else {
                    before.encoding
                },
                ..before
            })
        }),
{
    let b = with_chunks(t, cs).buf;
    assert(cs.push(c).drop_last() =~= cs);
    let n = Seq::<char>::empty();
    let s1 = if c.rotated {
        "\n--- file rotated/truncated ---\n"@
    } else {
        n
    };
    let s2 = if c.missing {
        "\n--- file missing ---\n"@
    } else {
        n
    };
    let s3 = if c.reappeared {
        "\n--- file reappeared ---\n"@
    } else {
        n
    };
    let s4 = if c.skipped_bytes is Some {
        skip_note(c.skipped_bytes->0)
    } else {
        n
    };
    let s5 = if c.error is Some {
        "\n--- "@ + c.error->0 + " ---\n"@
    } else {
        n
    };
    let s6 = if c.new_text is Some {
        c.new_text->0
    } else {
        n
    };
    buffer::plain_text_is_appended_as_it_is(b, s1, s2);
    let b1 = buffer::appended(b, s1);
    buffer::plain_text_is_appended_as_it_is(b1, s2, s3);
    let b2 = buffer::appended(b1, s2);
    buffer::plain_text_is_appended_as_it_is(b2, s3, s4);
    let b3 = buffer::appended(b2, s3);
    buffer::plain_text_is_appended_as_it_is(b3, s4, s5);
    let b4 = buffer::appended(b3, s4);
    buffer::plain_text_is_appended_as_it_is(b4, s5, s6);
    let b5 = buffer::appended(b4, s5);
    buffer::plain_text_is_appended_as_it_is(b5, s6, n);
    assert(with_notes(b, c) == buffer::appended(b5, s6));
    buffer::plain_text_is_appended_as_it_is(b, s1 + s2, s3);
    buffer::plain_text_is_appended_as_it_is(b, s1 + s2 + s3, s4);
    buffer::plain_text_is_appended_as_it_is(b, s1 + s2 + s3 + s4, s5);
    buffer::plain_text_is_appended_as_it_is(b, s1 + s2 + s3 + s4 + s5, s6);
}

/// Once pieces were taken in, the text is all of them behind what was there, brought within its
/// bound; nothing is searched for anew where nothing was added, and a window to which something was
/// added is no longer loading. Query, scroll and whether the end is followed stay.
pub proof fn a_window_shows_what_came(t: Tail, cs: Seq<Chunk>, cap: int, trim_to: int)
    ensures
        ({
            let u = with_chunks(t, cs);
            let v = fed(t, cs, cap, trim_to);
            let added = exists|i: int|
                0 <= i < cs.len() && ((#[trigger] cs[i]).rotated || cs[i].missing
                    || cs[i].reappeared || cs[i].skipped_bytes is Some || cs[i].error is Some
                    || cs[i].new_text is Some);
            &&& !added ==> v == u
            &&& added ==> v.buf == buffer::trimmed_to(u.buf, cap, trim_to) && !v.loading
            &&& v.encoding == u.encoding
            &&& v.path == t.path && v.query == t.query && v.due == t.due && v.scroll_y
                == t.scroll_y && v.following == t.following
        }),
{
    lemma_chunks_add(t, cs);
    lemma_chunks_keep_scroll(t, cs);
    let added = exists|i: int|
        0 <= i < cs.len() && ((#[trigger] cs[i]).rotated || cs[i].missing || cs[i].reappeared
            || cs[i].skipped_bytes is Some || cs[i].error is Some || cs[i].new_text is Some);
    if any_adds(cs) {
        let i = choose|i: int| 0 <= i < cs.len() && adds(#[trigger] cs[i]);
        assert(cs[i].rotated || cs[i].missing || cs[i].reappeared || cs[i].skipped_bytes is Some
            || cs[i].error is Some || cs[i].new_text is Some);
    }
    if added {
        let i = choose|i: int|
            0 <= i < cs.len() && ((#[trigger] cs[i]).rotated || cs[i].missing || cs[i].reappeared
                || cs[i].skipped_bytes is Some || cs[i].error is Some || cs[i].new_text is Some);
        assert(adds(cs[i]));
    }
}

proof fn lemma_chunks_keep_scroll(t: Tail, cs: Seq<Chunk>)
    ensures
        with_chunks(t, cs).scroll_y == t.scroll_y,
    decreases cs.len(),
{
    if cs.len() > 0 {
        lemma_chunks_keep_scroll(t, cs.drop_last());
    }
}

/// A query that is typed is searched for at once in a text of less than four mebibytes: every
/// match is found, the first is selected and brought into view, and where there is none the window
/// stays where it is. In a longer text the search waits for two ticks, unless the query is empty.
pub proof fn a_typed_query_is_searched_for(t: Tail, query: Seq<char>, tick: u64)
    requires
        encode_utf8(t.buf.text).len() <= usize::MAX,
        tick < u64::MAX - 2,
    ensures
        ({
            let text = encode_utf8(t.buf.text);
            let ms = search::found(text, encode_utf8(query));
            let u = queried(t, query, tick);
            let now = query.len() == 0 || text.len() < 4 * 1024 * 1024;
            &&& u.query == query
            &&& u.buf == t.buf && u.path == t.path && u.encoding == t.encoding && u.loading
                == t.loading
            &&& now ==> u.matches == ms && u.due is None
            &&& now && ms.len() == 0 ==> u.current is None && u.following == t.following
                && u.scroll_y == t.scroll_y && query_row(t, query) is None
            &&& now && ms.len() > 0 ==> u.current == Some(0usize) && !u.following && query_row(
                t,
                query,
            ) == Some(
                if buffer::line_at(text, ms[0].start as int) > 3 {
                    buffer::line_at(text, ms[0].start as int) - 3
                } else {
                    0
                },
            ) && u.scroll_y == visible::offset_of(query_row(t, query)->0)
            &&& !now ==> u == (Tail { query, due: Some((tick + 2) as u64), ..t }) && query_row(
                t,
                query,
            ) is None
        }),
{
    search::matches_are_in_order(encode_utf8(t.buf.text), encode_utf8(query));
}

/// The next and the previous match are the neighbours of the selected one, around the ends, and are
/// brought into view three rows below the top, or at the top of the text. The matches themselves do
/// not change.
pub proof fn a_step_selects_and_shows_the_neighbour(t: Tail, forward: bool)
    requires
        t.matches.len() <= usize::MAX,
        t.current is Some ==> t.current->0 < t.matches.len(),
        t.due is None,
    ensures
        ({
            let n = t.matches.len() as int;
            let u = jumped(stepped(t, forward));
            let text = encode_utf8(t.buf.text);
            &&& u.matches == t.matches && u.query == t.query && u.buf == t.buf && u.due is None
            &&& n == 0 ==> u.current is None && u.scroll_y == t.scroll_y && u.following
                == t.following
            &&& n > 0 ==> u.current is Some && !u.following
            &&& n > 0 && t.current is None ==> u.current->0 == (if forward {
                0
            } else {
                n - 1
            })
            &&& n > 0 && t.current is Some && forward ==> u.current->0 == (if t.current->0 + 1
                == n {
                0
            } else {
                t.current->0 + 1
            })
            &&& n > 0 && t.current is Some && !forward ==> u.current->0 == (if t.current->0 == 0 {
                n - 1
            } else {
                t.current->0 - 1
            })
            &&& n > 0 ==> jump_row(stepped(t, forward)) == Some(
                if buffer::line_at(text, t.matches[u.current->0 as int].start as int) > 3 {
                    buffer::line_at(text, t.matches[u.current->0 as int].start as int) - 3
                } else {
                    0
                },
            ) && u.scroll_y == visible::offset_of(jump_row(stepped(t, forward))->0)
            &&& advanced(t) == jumped(stepped(t, true)) && advance_row(t) == jump_row(
                stepped(t, true),
            )
        }),
{
    let n = t.matches.len() as int;
    search::a_step_goes_to_the_neighbour(
        match t.current {
            Some(i) => i,
            None => 0,
        },
        n,
    );
}

/// A new window holds nothing, is loading, and follows the end. A search that is given up leaves
/// nothing behind. Scrolling sets where the window stands, and nothing else but whether the end is
/// followed.
pub proof fn a_window_starts_and_a_search_ends_empty(path: Seq<char>, t: Tail, s: Scroll)
    ensures
        opened(path).path == path && opened(path).buf.text.len() == 0 && !opened(path).buf.cr
            && !opened(path).buf.marker && opened(path).buf.dropped_lines == 0 && opened(
            path,
        ).buf.dropped_bytes == 0,
        opened(path).loading && opened(path).following && opened(path).scroll_y == 0,
        opened(path).query.len() == 0 && opened(path).matches.len() == 0 && opened(path).current
            is None && opened(path).due is None && opened(path).encoding.len() == 0,
        unsearched(t) == (Tail { query: seq![], matches: seq![], current: None, due: None, ..t }),
        scrolled(t, s) == (Tail {
            scroll_y: s.y,
            following: s.content_h - (s.y + s.viewport_h) <= 2 * 18 * 1024,
            ..t
        }),
{
}

/// A search that was put off is run once its tick has come, and not before; it then finds the
/// matches of the query and selects the first.
pub proof fn a_search_put_off_is_run_in_its_time(t: Tail, tick: u64)
    ensures
        is_due(t, tick) == (t.due is Some && tick >= t.due->0),
        scanned(t).matches == search::found(encode_utf8(t.buf.text), encode_utf8(t.query)),
        scanned(t).matches.len() == 0 ==> scanned(t).current is None,
        scanned(t).matches.len() > 0 ==> scanned(t).current == Some(0usize),
        scanned(t) == (Tail { matches: scanned(t).matches, current: scanned(t).current, ..t }),
{
}

} // verus!
