//! What a tail window shows: the visible lines cut into pieces of plain text and matches, none of
//! them too long to draw, and the words around them.

use vstd::prelude::*;
use vstd::utf8::*;

use crate::buffer;
use crate::search;
use crate::search::Match;
use crate::strings;
use crate::utf8text;

verus! {

/// How many bytes of one line are shown at most.
pub const MAX_RENDER_LINE_BYTES: usize = 8192;

/// A piece of what is shown.
#[derive(Debug, Clone, PartialEq, Eq)]
pub enum Piece {
    /// Plain text, of one line or several.
    Plain(String),
    /// A match.
    Hit {
        /// Its text.
        text: String,
        /// It is the selected one.
        current: bool,
    },
    /// The rest of a line that is too long.
    Clipped {
        /// How many bytes are not shown.
        bytes: usize,
    },
}

/// A piece of what is shown, with its text in bytes.
pub enum Shown {
    /// Plain text.
    Plain(Seq<u8>),
    /// A match, and whether it is the selected one.
    Hit(Seq<u8>, bool),
    /// How many bytes of a line are not shown.
    Clipped(usize),
}

impl View for Piece {
    type V = Shown;

    open spec fn view(&self) -> Shown {
        match self {
            Piece::Plain(t) => Shown::Plain(encode_utf8(t@)),
            Piece::Hit { text, current } => Shown::Hit(encode_utf8(text@), *current),
            Piece::Clipped { bytes } => Shown::Clipped(*bytes),
        }
    }
}

/// The pieces, with their texts in bytes.
pub open spec fn shown(v: Seq<Piece>) -> Seq<Shown> {
    v.map_values(|p: Piece| p@)
}

// ---------------------------------------------------------------------------------------------
// Model
// ---------------------------------------------------------------------------------------------

/// The last place between characters at or before `at`.
pub open spec fn boundary_down(b: Seq<u8>, at: int) -> int
    decreases at,
{
    if at <= 0 || is_char_boundary(b, at) {
        at
    } else {
        boundary_down(b, at - 1)
    }
}

/// How many bytes of a line are shown: all of them, or as many whole characters as fit `max`.
pub open spec fn shown_len(line: Seq<u8>, max: int) -> int {
    if line.len() <= max {
        line.len() as int
    } else {
        boundary_down(line, max)
    }
}

/// The stretches between line feeds.
pub open spec fn rows(b: Seq<u8>) -> Seq<Seq<u8>>
    decreases b.len(),
{
    if b.len() == 0 {
        seq![seq![]]
    } else {
        let before = rows(b.drop_last());
        if b.last() == 10 {
            before.push(seq![])
        } else {
            before.drop_last().push(before.last().push(b.last()))
        }
    }
}

/// Where the part of a match begins that falls on a row, within the row.
pub open spec fn hit_start(kept: Seq<u8>, at: int, m: Match) -> int {
    let s = if m.start > at {
        m.start - at
    } else {
        0
    };
    if s < kept.len() {
        s
    } else {
        kept.len() as int
    }
}

/// Where it ends, brought back between characters.
pub open spec fn hit_end(kept: Seq<u8>, at: int, m: Match) -> int {
    let e = if m.end > at {
        m.end - at
    } else {
        0
    };
    let e2 = if e < kept.len() {
        e
    } else {
        kept.len() as int
    };
    snapped(kept, hit_start(kept, at, m), e2)
}

/// The last place between characters at or before `e`, but not before `s`.
pub open spec fn snapped(b: Seq<u8>, s: int, e: int) -> int
    decreases e - s,
{
    if e <= s || is_char_boundary(b, e) {
        e
    } else {
        snapped(b, s, e - 1)
    }
}

/// Whether a match shows on a row that begins at byte `at` and of which `kept` is shown. One that
/// begins inside a character does not.
pub open spec fn is_hit(kept: Seq<u8>, at: int, m: Match) -> bool {
    &&& m.end > at
    &&& hit_start(kept, at, m) < kept.len()
    &&& is_char_boundary(kept, hit_start(kept, at, m))
    &&& hit_start(kept, at, m) < hit_end(kept, at, m)
}

/// Pieces that are done, and plain text that goes on.
#[verifier::ext_equal]
pub struct Paint {
    /// The pieces.
    pub done: Seq<Shown>,
    /// The plain text since the last piece.
    pub plain: Seq<u8>,
}

/// The plain text so far becomes a piece.
pub open spec fn flushed(p: Paint) -> Paint {
    if p.plain.len() > 0 {
        Paint { done: p.done.push(Shown::Plain(p.plain)), plain: seq![] }
    } else {
        p
    }
}

/// One more piece.
pub open spec fn with_piece(p: Paint, piece: Shown) -> Paint {
    Paint { done: flushed(p).done.push(piece), plain: seq![] }
}

/// More plain text.
pub open spec fn with_plain(p: Paint, more: Seq<u8>) -> Paint {
    Paint { plain: p.plain + more, ..p }
}

/// A row from byte `cursor` on, with the matches in `ms` set apart.
pub open spec fn row_painted(
    p: Paint,
    kept: Seq<u8>,
    at: int,
    ms: Seq<Match>,
    cur: Option<usize>,
    cursor: int,
) -> Paint
    decreases ms.len(),
{
    if ms.len() == 0 {
        with_plain(p, kept.subrange(cursor, kept.len() as int))
    } else {
        let m = ms[0];
        if is_hit(kept, at, m) {
            let s = hit_start(kept, at, m);
            let e = hit_end(kept, at, m);
            row_painted(
                with_piece(
                    with_plain(p, kept.subrange(cursor, s)),
                    Shown::Hit(kept.subrange(s, e), cur == Some(m.start)),
                ),
                kept,
                at,
                ms.drop_first(),
                cur,
                e,
            )
        } else {
            row_painted(p, kept, at, ms.drop_first(), cur, cursor)
        }
    }
}

/// A row, cut to at most `max` bytes.
pub open spec fn line_painted(
    p: Paint,
    line: Seq<u8>,
    at: int,
    ms: Seq<Match>,
    cur: Option<usize>,
    max: int,
) -> Paint {
    let n = shown_len(line, max);
    let q = row_painted(p, line.take(n), at, ms, cur, 0);
    if n < line.len() {
        with_piece(q, Shown::Clipped((line.len() - n) as usize))
    } else {
        q
    }
}

/// How many bytes rows take, with the line feed after each.
pub open spec fn rows_len(rs: Seq<Seq<u8>>) -> int
    decreases rs.len(),
{
    if rs.len() == 0 {
        0
    } else {
        rows_len(rs.drop_last()) + rs.last().len() + 1
    }
}

/// Rows that begin at byte `base`, each on a line of its own.
pub open spec fn rows_painted(
    rs: Seq<Seq<u8>>,
    base: int,
    ms: Seq<Match>,
    cur: Option<usize>,
    max: int,
) -> Paint
    decreases rs.len(),
{
    if rs.len() == 0 {
        Paint { done: seq![], plain: seq![] }
    } else {
        let before = rows_painted(rs.drop_last(), base, ms, cur, max);
        let p = if rs.len() > 1 {
            with_plain(before, seq![10u8])
        } else {
            before
        };
        line_painted(p, rs.last(), base + rows_len(rs.drop_last()), ms, cur, max)
    }
}

/// What is shown of the text `visible`, which begins at byte `base`.
pub open spec fn picture(
    visible: Seq<u8>,
    base: int,
    ms: Seq<Match>,
    cur: Option<usize>,
    max: int,
) -> Seq<Shown> {
    flushed(rows_painted(rows(visible), base, ms, cur, max)).done
}

// ---------------------------------------------------------------------------------------------
// Cutting lines
// ---------------------------------------------------------------------------------------------

proof fn lemma_boundary_down(b: Seq<u8>, at: int)
    requires
        valid_utf8(b),
        0 <= at <= b.len(),
    ensures
        0 <= boundary_down(b, at) <= at,
        is_char_boundary(b, boundary_down(b, at)),
    decreases at,
{
    if at <= 0 {
        is_char_boundary_start_end_of_seq(b);
    } else if !is_char_boundary(b, at) {
        lemma_boundary_down(b, at - 1);
    }
}

/// The part of a line that is shown, and how many bytes are not.
pub fn clip_line(line: &str, max: usize) -> (r: (&str, usize))
    ensures
        encode_utf8(r.0@) == encode_utf8(line@).take(shown_len(encode_utf8(line@), max as int)),
        r.1 == encode_utf8(line@).len() - shown_len(encode_utf8(line@), max as int),
{
    let total = line.as_bytes().len();
    let ghost b = encode_utf8(line@);
    if total <= max {
        assert(b.take(b.len() as int) =~= b);
        return (line, 0);
    }
    proof {
        encode_utf8_valid_utf8(line@);
        lemma_boundary_down(b, max as int);
    }
    let mut cut: usize = max;
    while cut > 0 && !line.is_char_boundary(cut)
        invariant
            cut <= max < total,
            b == encode_utf8(line@),
            boundary_down(b, cut as int) == boundary_down(b, max as int),
        decreases cut,
    {
        cut -= 1;
    }
    let (kept, _rest) = line.split_at(cut);
    (kept, total - cut)
}

// ---------------------------------------------------------------------------------------------
// Painting
// ---------------------------------------------------------------------------------------------

/// Plain text that goes on, and pieces.
struct Canvas {
    pieces: Vec<Piece>,
    plain: String,
}

impl Canvas {
    spec fn paint(&self) -> Paint {
        Paint { done: shown(self.pieces@), plain: encode_utf8(self.plain@) }
    }

    fn add_plain(&mut self, t: &str)
        ensures
            final(self).paint() == with_plain(old(self).paint(), encode_utf8(t@)),
    {
        proof {
            utf8text::lemma_encode_concat(self.plain@, t@);
        }
        self.plain.push_str(t);
    }

    fn flush(&mut self)
        ensures
            final(self).paint() == flushed(old(self).paint()),
    {
        let ghost p = self.paint();
        if self.plain.as_str().as_bytes().len() > 0 {
            let t = self.plain.clone();
            let ghost before = self.pieces@;
            self.pieces.push(Piece::Plain(t));
            self.plain = String::new();
            assert(shown(self.pieces@) =~= shown(before).push(Shown::Plain(p.plain)));
            assert(encode_utf8(self.plain@) =~= seq![]);
        }
    }

    fn add_piece(&mut self, piece: Piece)
        ensures
            final(self).paint() == with_piece(old(self).paint(), piece@),
    {
        self.flush();
        let ghost before = self.pieces@;
        let ghost mid = self.paint();
        self.pieces.push(piece);
        proof {
            assert(shown(self.pieces@) =~= shown(before).push(piece@));
            assert(mid.plain =~= seq![]);
        }
    }
}

/// A match that lies after the row, or before it, does not show.
proof fn lemma_outside_is_no_hit(kept: Seq<u8>, at: int, m: Match)
    requires
        m.end <= at || m.start >= at + kept.len(),
        0 <= at,
    ensures
        !is_hit(kept, at, m),
{
}

/// Matches that do not show leave no trace.
proof fn lemma_skip_front(
    p: Paint,
    kept: Seq<u8>,
    at: int,
    ms: Seq<Match>,
    cur: Option<usize>,
    cursor: int,
    n: int,
)
    requires
        0 <= n <= ms.len(),
        forall|i: int| 0 <= i < n ==> !is_hit(kept, at, #[trigger] ms[i]),
    ensures
        row_painted(p, kept, at, ms, cur, cursor) == row_painted(
            p,
            kept,
            at,
            ms.skip(n),
            cur,
            cursor,
        ),
    decreases n,
{
    if n > 0 {
        let rest = ms.drop_first();
        assert(!is_hit(kept, at, ms[0]));
        assert forall|i: int| 0 <= i < n - 1 implies !is_hit(kept, at, #[trigger] rest[i]) by {
            assert(rest[i] == ms[i + 1]);
        }
        lemma_skip_front(p, kept, at, rest, cur, cursor, n - 1);
        assert(rest.skip(n - 1) =~= ms.skip(n));
    } else {
        assert(ms.skip(0) =~= ms);
    }
}

/// Where no match shows, the row is plain.
proof fn lemma_no_hits(
    p: Paint,
    kept: Seq<u8>,
    at: int,
    ms: Seq<Match>,
    cur: Option<usize>,
    cursor: int,
)
    requires
        forall|i: int| 0 <= i < ms.len() ==> !is_hit(kept, at, #[trigger] ms[i]),
    ensures
        row_painted(p, kept, at, ms, cur, cursor) == with_plain(
            p,
            kept.subrange(cursor, kept.len() as int),
        ),
{
    lemma_skip_front(p, kept, at, ms, cur, cursor, ms.len() as int);
    assert(ms.skip(ms.len() as int) =~= Seq::<Match>::empty());
}

proof fn lemma_snapped(b: Seq<u8>, s: int, e: int)
    requires
        s <= e,
    ensures
        s <= snapped(b, s, e) <= e,
        snapped(b, s, e) > s ==> is_char_boundary(b, snapped(b, s, e)),
    decreases e - s,
{
    if e > s && !is_char_boundary(b, e) {
        lemma_snapped(b, s, e - 1);
    }
}

/// Paints one row.
fn paint_row(c: &mut Canvas, kept: &str, at: usize, matches: &[Match], cur: Option<usize>)
    requires
        search::in_order(matches@),
        at + encode_utf8(kept@).len() <= usize::MAX,
    ensures
        final(c).paint() == row_painted(
            old(c).paint(),
            encode_utf8(kept@),
            at as int,
            matches@,
            cur,
            0,
        ),
{
    let ghost b = encode_utf8(kept@);
    let ghost p0 = c.paint();
    let ghost goal = row_painted(p0, b, at as int, matches@, cur, 0);
    let n = kept.as_bytes().len();
    let window = search::matches_in_window(matches, at, at + n);
    let lo = window.start;
    let hi = window.end;
    proof {
        encode_utf8_valid_utf8(kept@);
        is_char_boundary_start_end_of_seq(b);
        assert forall|i: int| 0 <= i < lo implies !is_hit(
            b,
            at as int,
            #[trigger] matches@[i],
        ) by {
            lemma_outside_is_no_hit(b, at as int, matches@[i]);
        }
        lemma_skip_front(p0, b, at as int, matches@, cur, 0, lo as int);
    }
    let mut cursor: usize = 0;
    let mut i: usize = lo;
    while i < hi
        invariant
            lo <= i <= hi <= matches@.len(),
            search::in_order(matches@),
            n == b.len(),
            b == encode_utf8(kept@),
            valid_utf8(b),
            at + n <= usize::MAX,
            cursor <= n,
            is_char_boundary(b, cursor as int),
            is_char_boundary(b, n as int),
            i > lo ==> cursor == 0 || at + cursor <= matches@[i - 1].end,
            i == lo ==> cursor == 0,
            goal == row_painted(
                c.paint(),
                b,
                at as int,
                matches@.skip(i as int),
                cur,
                cursor as int,
            ),
        decreases hi - i,
    {
        let m = matches[i];
        let ghost rest = matches@.skip(i as int);
        proof {
            assert(rest[0] == m);
            assert(rest.drop_first() =~= matches@.skip(i as int + 1));
        }
        let mut s: usize = m.start.saturating_sub(at);
        if s > n {
            s = n;
        }
        let mut e: usize = m.end.saturating_sub(at);
        if e > n {
            e = n;
        }
        assert(s == hit_start(b, at as int, m));
        let ghost e0 = e as int;
        let mut painted = false;
        if m.end > at && s < n && kept.is_char_boundary(s) {
            assert(m.start <= m.end);
            proof {
                lemma_snapped(b, s as int, e0);
            }
            while e > s && !kept.is_char_boundary(e)
                invariant
                    s <= e <= e0 <= n == b.len(),
                    b == encode_utf8(kept@),
                    snapped(b, s as int, e as int) == snapped(b, s as int, e0),
                decreases e,
            {
                e -= 1;
            }
            assert(e == hit_end(b, at as int, m));
            painted = s < e;
        }
        assert(painted == is_hit(b, at as int, m));
        if painted {
            proof {
                // Matches do not overlap, so this one begins where the last one ended or later.
                if i > lo && cursor > 0 {
                    assert(matches@[i - 1].end <= matches@[i as int].start);
                }
                assert(cursor <= s);
            }
            c.add_plain(utf8text::part(kept, cursor, s));
            let t = utf8text::part(kept, s, e).to_owned();
            let current = match cur {
                Some(x) => x == m.start,
                None => false,
            };
            assert(current == (cur == Some(m.start)));
            c.add_piece(Piece::Hit { text: t, current });
            cursor = e;
        } else {
            proof {
                if i > lo && cursor > 0 {
                    assert(matches@[i - 1].end <= matches@[i as int].start);
                    assert(matches@[i as int].start <= matches@[i as int].end);
                }
            }
        }
        i += 1;
    }
    proof {
        let rest = matches@.skip(hi as int);
        assert forall|k: int| 0 <= k < rest.len() implies !is_hit(
            b,
            at as int,
            #[trigger] rest[k],
        ) by {
            assert(rest[k] == matches@[hi + k]);
            lemma_outside_is_no_hit(b, at as int, rest[k]);
        }
        lemma_no_hits(c.paint(), b, at as int, rest, cur, cursor as int);
    }
    c.add_plain(utf8text::part(kept, cursor, n));
}

/// A row among the rows of a text: what precedes a line feed, and what follows the last.
proof fn lemma_rows_split(b: Seq<u8>, k: int)
    requires
        0 <= k < b.len(),
        b[k] == 10,
    ensures
        rows(b) == rows(b.take(k)) + rows(b.skip(k + 1)),
        rows(b.take(k)).len() >= 1,
    decreases b.len(),
{
    lemma_rows_nonempty(b.take(k));
    if k == b.len() - 1 {
        assert(b.drop_last() =~= b.take(k));
        assert(b.skip(k + 1) =~= Seq::<u8>::empty());
        assert(rows(b) =~= rows(b.take(k)) + rows(b.skip(k + 1)));
    } else {
        let init = b.drop_last();
        assert(init[k] == b[k]);
        lemma_rows_split(init, k);
        assert(init.take(k) =~= b.take(k));
        let tail = b.skip(k + 1);
        assert(tail.drop_last() =~= init.skip(k + 1));
        assert(tail.last() == b.last());
        lemma_rows_nonempty(init.skip(k + 1));
        let x = rows(b.take(k));
        let y = rows(init.skip(k + 1));
        assert((x + y).drop_last() =~= x + y.drop_last());
        assert((x + y).last() == y.last());
        assert(rows(b) =~= x + rows(tail));
    }
}

proof fn lemma_rows_nonempty(b: Seq<u8>)
    ensures
        rows(b).len() >= 1,
    decreases b.len(),
{
    if b.len() > 0 {
        lemma_rows_nonempty(b.drop_last());
    }
}

/// Text without a line feed is one row.
proof fn lemma_one_row(b: Seq<u8>)
    requires
        forall|p: int| 0 <= p < b.len() ==> #[trigger] b[p] != 10,
    ensures
        rows(b) == seq![b],
    decreases b.len(),
{
    if b.len() > 0 {
        let init = b.drop_last();
        assert forall|p: int| 0 <= p < init.len() implies #[trigger] init[p] != 10 by {
            assert(init[p] == b[p]);
        }
        lemma_one_row(init);
        assert(b[b.len() - 1] != 10);
        assert(init.push(b.last()) =~= b);
        assert(rows(b) =~= seq![b]);
    } else {
        assert(b =~= Seq::<u8>::empty());
        assert(rows(b) =~= seq![b]);
    }
}

/// Cuts the text `visible`, which begins at byte `base`, into pieces: each line no longer than
/// `max_line`, and the matches set apart where they show. `cur_start` tells the selected match.
pub fn render_pieces(
    visible: &str,
    base: usize,
    matches: &[Match],
    cur_start: Option<usize>,
    max_line: usize,
) -> (r: Vec<Piece>)
    requires
        search::in_order(matches@),
        base + encode_utf8(visible@).len() <= usize::MAX,
    ensures
        shown(r@) == picture(
            encode_utf8(visible@),
            base as int,
            matches@,
            cur_start,
            max_line as int,
        ),
{
    let ghost b = encode_utf8(visible@);
    let total = visible.as_bytes().len();
    let mut c = Canvas { pieces: Vec::new(), plain: String::new() };
    let mut rest = visible;
    let mut off: usize = 0;
    let mut first = true;
    let ghost mut done: Seq<Seq<u8>> = seq![];
    proof {
        encode_utf8_valid_utf8(visible@);
        assert(b.skip(0) =~= b);
        assert(done + rows(b) =~= rows(b));
        assert(c.paint() =~= rows_painted(done, base as int, matches@, cur_start, max_line as int));
    }
    loop
        invariant_except_break
            search::in_order(matches@),
            b == encode_utf8(visible@),
            total == b.len(),
            base + b.len() <= usize::MAX,
            off <= total,
            encode_utf8(rest@) == b.skip(off as int),
            rows(b) == done + rows(b.skip(off as int)),
            off == rows_len(done),
            first == (done.len() == 0),
            c.paint() == rows_painted(
                done,
                base as int,
                matches@,
                cur_start,
                max_line as int,
            ),
        ensures
            c.paint() == rows_painted(
                rows(b),
                base as int,
                matches@,
                cur_start,
                max_line as int,
            ),
        decreases total - off,
    {
        let ghost r = encode_utf8(rest@);
        let bytes = rest.as_bytes();
        let len = bytes.len();
        let mut k: usize = 0;
        while k < len && bytes[k] != 10
            invariant
                k <= len == r.len(),
                bytes@ == r,
                forall|p: int| 0 <= p < k ==> #[trigger] r[p] != 10,
            decreases len - k,
        {
            k += 1;
        }
        if !first {
            assert(encode_utf8("\n"@) =~= seq![10u8]) by {
                reveal_strlit("\n");
                is_ascii_chars_encode_utf8("\n"@);
            }
            c.add_plain("\n");
        }
        first = false;
        let ghost before = rows_painted(
            done,
            base as int,
            matches@,
            cur_start,
            max_line as int,
        );
        proof {
            encode_utf8_valid_utf8(rest@);
            is_char_boundary_start_end_of_seq(r);
            if k < len {
                utf8text::lemma_ascii_is_whole(r, k as int);
            }
        }
        let line = utf8text::part(rest, 0, k);
        let ghost l = r.subrange(0, k as int);
        let (kept, cut) = clip_line(line, max_line);
        proof {
            lemma_shown_len(line@, max_line as int);
        }
        paint_row(&mut c, kept, base + off, matches, cur_start);
        if cut > 0 {
            c.add_piece(Piece::Clipped { bytes: cut });
        }
        proof {
            let next = done.push(l);
            assert(next.drop_last() =~= done);
            assert(c.paint() == rows_painted(
                next,
                base as int,
                matches@,
                cur_start,
                max_line as int,
            ));
            assert(rows_len(next) == off + k + 1);
            if k < len {
                lemma_rows_split(r, k as int);
                assert(r.take(k as int) =~= l);
                lemma_one_row(l);
                assert(r.skip(k as int + 1) =~= b.skip(off + k + 1));
                assert(done + (seq![l] + rows(b.skip(off + k + 1))) =~= next + rows(
                    b.skip(off + k + 1),
                ));
            } else {
                assert(r =~= l);
                lemma_one_row(l);
                assert(done + seq![l] =~= next);
            }
            done = next;
        }
        if k >= len {
            break;
        }
        rest = utf8text::part(rest, k + 1, len);
        off = off + k + 1;
    }
    c.flush();
    c.pieces
}

proof fn lemma_shown_len(line: Seq<char>, max: int)
    requires
        0 <= max,
    ensures
        0 <= shown_len(encode_utf8(line), max) <= encode_utf8(line).len(),
        shown_len(encode_utf8(line), max) <= max || encode_utf8(line).len() <= max,
{
    encode_utf8_valid_utf8(line);
    if encode_utf8(line).len() > max {
        lemma_boundary_down(encode_utf8(line), max);
    }
}

// ---------------------------------------------------------------------------------------------
// Laws
// ---------------------------------------------------------------------------------------------

/// The text that pieces show.
pub open spec fn text_shown(ps: Seq<Shown>) -> Seq<u8>
    decreases ps.len(),
{
    if ps.len() == 0 {
        seq![]
    } else {
        text_shown(ps.drop_last()) + piece_text(ps.last())
    }
}

/// The text that a piece shows.
pub open spec fn piece_text(p: Shown) -> Seq<u8> {
    match p {
        Shown::Plain(t) => t,
        Shown::Hit(t, _) => t,
        Shown::Clipped(_) => seq![],
    }
}

/// Everything shown so far.
pub open spec fn all_text(p: Paint) -> Seq<u8> {
    text_shown(p.done) + p.plain
}

/// The rows, each cut to at most `max` bytes, with line feeds between them.
pub open spec fn cut_rows(rs: Seq<Seq<u8>>, max: int) -> Seq<u8>
    decreases rs.len(),
{
    if rs.len() == 0 {
        seq![]
    } else {
        let before = cut_rows(rs.drop_last(), max);
        let last = rs.last().take(shown_len(rs.last(), max));
        if rs.len() > 1 {
            before.push(10) + last
        } else {
            before + last
        }
    }
}

proof fn lemma_with_piece_text(p: Paint, piece: Shown)
    ensures
        all_text(with_piece(p, piece)) == all_text(p) + piece_text(piece),
{
    let f = flushed(p);
    if p.plain.len() > 0 {
        assert(f.done.drop_last() =~= p.done);
    } else {
        assert(p.plain =~= seq![]);
    }
    assert(text_shown(f.done) =~= all_text(p));
    let w = with_piece(p, piece);
    assert(w.done.drop_last() =~= f.done);
    assert(all_text(w) =~= all_text(p) + piece_text(piece));
}

/// Setting matches apart changes nothing about the text of a row.
proof fn lemma_row_text(
    p: Paint,
    kept: Seq<u8>,
    at: int,
    ms: Seq<Match>,
    cur: Option<usize>,
    cursor: int,
)
    requires
        search::in_order(ms),
        0 <= at,
        0 <= cursor <= kept.len(),
        cursor > 0 && ms.len() > 0 ==> at + cursor <= ms[0].start || at + cursor <= ms[0].end
            && forall|i: int| 0 <= i < ms.len() ==> at + cursor <= (#[trigger] ms[i]).start,
    ensures
        all_text(row_painted(p, kept, at, ms, cur, cursor)) == all_text(p) + kept.subrange(
            cursor,
            kept.len() as int,
        ),
    decreases ms.len(),
{
    if ms.len() == 0 {
        assert(all_text(row_painted(p, kept, at, ms, cur, cursor)) =~= all_text(p)
            + kept.subrange(cursor, kept.len() as int));
    } else {
        let m = ms[0];
        let rest = ms.drop_first();
        assert(search::in_order(rest)) by {
            assert forall|i: int| 0 <= i < rest.len() implies (#[trigger] rest[i]).start
                <= rest[i].end by {
                assert(rest[i] == ms[i + 1]);
            }
            assert forall|i: int, j: int| 0 <= i < j < rest.len() implies (
            #[trigger] rest[i]).end <= (#[trigger] rest[j]).start by {
                assert(rest[i] == ms[i + 1] && rest[j] == ms[j + 1]);
            }
        }
        if is_hit(kept, at, m) {
            let s = hit_start(kept, at, m);
            let e = hit_end(kept, at, m);
            lemma_snapped(
                kept,
                s,
                if m.end - at < kept.len() {
                    m.end - at
                } else {
                    kept.len() as int
                },
            );
            assert(cursor <= s);
            let a = with_plain(p, kept.subrange(cursor, s));
            let piece = Shown::Hit(kept.subrange(s, e), cur == Some(m.start));
            lemma_with_piece_text(a, piece);
            if rest.len() > 0 {
                assert(rest[0] == ms[1]);
                assert(ms[0].end <= ms[1].start);
                assert forall|i: int| 0 <= i < rest.len() implies at + e <= (
                #[trigger] rest[i]).start by {
                    assert(rest[i] == ms[i + 1]);
                    assert(ms[0].end <= ms[i + 1].start);
                }
            }
            lemma_row_text(with_piece(a, piece), kept, at, rest, cur, e);
            assert(all_text(a) =~= all_text(p) + kept.subrange(cursor, s));
            assert(all_text(p) + kept.subrange(cursor, s) + kept.subrange(s, e) + kept.subrange(
                e,
                kept.len() as int,
            ) =~= all_text(p) + kept.subrange(cursor, kept.len() as int));
        } else {
            if rest.len() > 0 && cursor > 0 {
                assert(rest[0] == ms[1]);
                assert(ms[0].start <= ms[0].end);
                assert(ms[0].end <= ms[1].start);
                assert forall|i: int| 0 <= i < rest.len() implies at + cursor <= (
                #[trigger] rest[i]).start by {
                    assert(rest[i] == ms[i + 1]);
                    assert(ms[0].end <= ms[i + 1].start);
                }
            }
            lemma_row_text(p, kept, at, rest, cur, cursor);
        }
    }
}

/// What is shown is the text itself, each line cut to at most `max` bytes: setting matches apart
/// neither adds nor loses a byte, and every line keeps its row.
pub proof fn highlighting_changes_no_text(
    visible: Seq<u8>,
    base: int,
    ms: Seq<Match>,
    cur: Option<usize>,
    max: int,
)
    requires
        search::in_order(ms),
        0 <= base,
    ensures
        text_shown(picture(visible, base, ms, cur, max)) == cut_rows(rows(visible), max),
{
    let p = rows_painted(rows(visible), base, ms, cur, max);
    lemma_rows_text(rows(visible), base, ms, cur, max);
    if p.plain.len() > 0 {
        assert(flushed(p).done.drop_last() =~= p.done);
    } else {
        assert(all_text(p) =~= text_shown(p.done));
    }
}

proof fn lemma_rows_text(
    rs: Seq<Seq<u8>>,
    base: int,
    ms: Seq<Match>,
    cur: Option<usize>,
    max: int,
)
    requires
        search::in_order(ms),
        0 <= base,
    ensures
        all_text(rows_painted(rs, base, ms, cur, max)) == cut_rows(rs, max),
        rows_len(rs) >= 0,
    decreases rs.len(),
{
    if rs.len() > 0 {
        let init = rs.drop_last();
        lemma_rows_text(init, base, ms, cur, max);
        let before = rows_painted(init, base, ms, cur, max);
        let p = if rs.len() > 1 {
            with_plain(before, seq![10u8])
        } else {
            before
        };
        let line = rs.last();
        let n = shown_len(line, max);
        let kept = line.take(n);
        let at = base + rows_len(init);
        lemma_row_text(p, kept, at, ms, cur, 0);
        let q = row_painted(p, kept, at, ms, cur, 0);
        assert(kept.subrange(0, kept.len() as int) =~= kept);
        if n < line.len() {
            lemma_with_piece_text(q, Shown::Clipped((line.len() - n) as usize));
            assert(all_text(q) + Seq::<u8>::empty() =~= all_text(q));
        }
        if rs.len() > 1 {
            assert(all_text(p) =~= all_text(before).push(10));
        }
    } else {
        assert(all_text(rows_painted(rs, base, ms, cur, max)) =~= cut_rows(rs, max));
    }
}

/// As many line feeds are shown as the text holds: every line keeps its row, however long it is
/// and whatever matches on it.
pub proof fn every_line_keeps_its_row(
    visible: Seq<u8>,
    base: int,
    ms: Seq<Match>,
    cur: Option<usize>,
    max: int,
)
    requires
        search::in_order(ms),
        0 <= base,
        0 <= max,
    ensures
        buffer::feeds(text_shown(picture(visible, base, ms, cur, max))) == buffer::feeds(visible),
{
    highlighting_changes_no_text(visible, base, ms, cur, max);
    lemma_rows_feedless(visible);
    lemma_cut_feeds(rows(visible), max);
}

proof fn lemma_rows_feedless(b: Seq<u8>)
    ensures
        rows(b).len() == buffer::feeds(b) + 1,
        forall|i: int| 0 <= i < rows(b).len() ==> buffer::feeds(#[trigger] rows(b)[i]) == 0,
    decreases b.len(),
{
    if b.len() > 0 {
        let init = b.drop_last();
        lemma_rows_feedless(init);
        let before = rows(init);
        if b.last() != 10 {
            let l = before.last();
            assert(buffer::feeds(before[before.len() - 1]) == 0);
            assert(l.push(b.last()).drop_last() =~= l);
        }
    } else {
        assert(rows(b)[0] =~= Seq::<u8>::empty());
    }
}

proof fn lemma_no_feeds_in_part(b: Seq<u8>, n: int)
    requires
        buffer::feeds(b) == 0,
        0 <= n <= b.len(),
    ensures
        buffer::feeds(b.take(n)) == 0,
{
    buffer::lemma_feeds_concat(b.take(n), b.skip(n));
    assert(b.take(n) + b.skip(n) =~= b);
    buffer::lemma_feeds_nonneg(b.take(n));
    buffer::lemma_feeds_nonneg(b.skip(n));
}

proof fn lemma_boundary_down_range(b: Seq<u8>, at: int)
    requires
        0 <= at,
    ensures
        0 <= boundary_down(b, at) <= at,
    decreases at,
{
    if at > 0 && !is_char_boundary(b, at) {
        lemma_boundary_down_range(b, at - 1);
    }
}

proof fn lemma_cut_feeds(rs: Seq<Seq<u8>>, max: int)
    requires
        forall|i: int| 0 <= i < rs.len() ==> buffer::feeds(#[trigger] rs[i]) == 0,
        0 <= max,
    ensures
        buffer::feeds(cut_rows(rs, max)) == (if rs.len() == 0 {
            0
        } else {
            rs.len() - 1
        }),
    decreases rs.len(),
{
    if rs.len() > 0 {
        let init = rs.drop_last();
        assert forall|i: int| 0 <= i < init.len() implies buffer::feeds(#[trigger] init[i])
            == 0 by {
            assert(init[i] == rs[i]);
        }
        lemma_cut_feeds(init, max);
        let line = rs.last();
        assert(buffer::feeds(rs[rs.len() - 1]) == 0);
        lemma_boundary_down_range(line, max);
        let n = shown_len(line, max);
        lemma_no_feeds_in_part(line, n);
        let before = cut_rows(init, max);
        if rs.len() > 1 {
            buffer::lemma_feeds_concat(before.push(10), line.take(n));
            assert(before.push(10).drop_last() =~= before);
        } else {
            buffer::lemma_feeds_concat(before, line.take(n));
        }
    }
}

/// No row shows more than `max` bytes of its line, and a line that fits is shown whole.
pub proof fn rows_are_bounded(line: Seq<char>, max: int)
    requires
        0 <= max,
    ensures
        shown_len(encode_utf8(line), max) <= max,
        encode_utf8(line).len() <= max ==> shown_len(encode_utf8(line), max) == encode_utf8(
            line,
        ).len(),
        is_char_boundary(encode_utf8(line), shown_len(encode_utf8(line), max)),
{
    lemma_shown_len(line, max);
    encode_utf8_valid_utf8(line);
    is_char_boundary_start_end_of_seq(encode_utf8(line));
    if encode_utf8(line).len() > max {
        lemma_boundary_down(encode_utf8(line), max);
    }
}

// ---------------------------------------------------------------------------------------------
// Words around the text
// ---------------------------------------------------------------------------------------------

/// What stands for the rest of a line that is too long.
pub open spec fn clip_words(bytes: usize) -> Seq<char> {
    " ... ["@ + strings::decimal(bytes as nat) + " more bytes not shown]"@
}

/// What stands for the rest of a line that is too long.
pub fn clip_text(bytes: usize) -> (r: String)
    ensures
        r@ == clip_words(bytes),
{
    let mut out = " ... [".to_owned();
    out.push_str(strings::decimal_of(bytes as u64).as_str());
    out.push_str(" more bytes not shown]");
    out
}

/// The line above a tail: the file, its encoding and whether the end is followed.
pub open spec fn header_words(path: Seq<char>, encoding: Seq<char>, following: bool) -> Seq<char> {
    path + "   ["@ + (if encoding.len() == 0 {
        "..."@
    } else {
        encoding
    }) + "]   "@ + (if following {
        "following"@
    } else {
        "paused"@
    })
}

/// The line above a tail: the file, its encoding and whether the end is followed.
pub fn header_text(path: &str, encoding: &str, following: bool) -> (r: String)
    ensures
        r@ == header_words(path@, encoding@, following),
{
    let mut out = path.to_owned();
    out.push_str("   [");
    if encoding.as_bytes().len() == 0 {
        proof {
            strings::lemma_empty_text(encoding@);
        }
        out.push_str("...");
    } else {
        proof {
            strings::lemma_empty_text(encoding@);
        }
        out.push_str(encoding);
    }
    out.push_str("]   ");
    if following {
        out.push_str("following");
    } else {
        out.push_str("paused");
    }
    out
}

/// The number of matches in words; a list that is full may not be complete.
pub open spec fn total_words(matches: usize) -> Seq<char> {
    if matches >= search::MATCH_CAP {
        strings::decimal(search::MATCH_CAP as nat) + "+"@
    } else {
        strings::decimal(matches as nat)
    }
}

/// What stands beside the search box: nothing without a query; an ellipsis while a scan is due;
/// that nothing was found; or which match of how many is selected.
pub open spec fn count_words(
    query: Seq<char>,
    pending: bool,
    matches: usize,
    current: Option<usize>,
) -> Seq<char> {
    if query.len() == 0 {
        ""@
    } else if pending {
        "\u{2026}"@
    } else if matches == 0 {
        "no matches"@
    } else {
        match current {
            Some(i) => strings::decimal((i + 1) as nat) + " of "@ + total_words(matches),
            None => total_words(matches) + " matches"@,
        }
    }
}

/// The words beside the search box.
pub fn count_text(query: &str, pending: bool, matches: usize, current: Option<usize>) -> (r: String)
    requires
        current matches Some(i) ==> i < usize::MAX,
    ensures
        r@ == count_words(query@, pending, matches, current),
{
    proof {
        strings::lemma_empty_text(query@);
    }
    if query.as_bytes().len() == 0 {
        return "".to_owned();
    }
    if pending {
        return "\u{2026}".to_owned();
    }
    if matches == 0 {
        return "no matches".to_owned();
    }
    let mut total = strings::decimal_of(if matches >= search::MATCH_CAP {
        search::MATCH_CAP as u64
    } else {
        matches as u64
    });
    if matches >= search::MATCH_CAP {
        total.push_str("+");
    }
    match current {
        Some(i) => {
            let mut out = strings::decimal_of((i + 1) as u64);
            out.push_str(" of ");
            out.push_str(total.as_str());
            out
        },
        None => {
            total.push_str(" matches");
            total
        },
    }
}

/// Whether the previous match can be asked for.
pub fn prev_enabled(matches: usize) -> (r: bool)
    ensures
        r == (matches > 0),
{
    matches > 0
}

/// Whether the next match can be asked for: asking runs a scan that is due.
pub fn next_enabled(matches: usize, pending: bool) -> (r: bool)
    ensures
        r == (matches > 0 || pending),
{
    matches > 0 || pending
}

/// Behind the selected match.
pub const HIT_CURRENT_RGB: (u8, u8, u8) = (0xF2, 0x8C, 0x28);

/// Behind the other matches.
pub const HIT_OTHER_RGB: (u8, u8, u8) = (0x6E, 0x5A, 0x2A);

/// The colour behind a match.
pub fn highlight_bg(is_current: bool) -> (r: (u8, u8, u8))
    ensures
        r == (if is_current {
            HIT_CURRENT_RGB
        } else {
            HIT_OTHER_RGB
        }),
{
    if is_current {
        HIT_CURRENT_RGB
    } else {
        HIT_OTHER_RGB
    }
}

/// Done pieces stay done.
proof fn lemma_row_keeps(
    p: Paint,
    kept: Seq<u8>,
    at: int,
    ms: Seq<Match>,
    cur: Option<usize>,
    cursor: int,
)
    ensures
        p.done.is_prefix_of(row_painted(p, kept, at, ms, cur, cursor).done),
    decreases ms.len(),
{
    if ms.len() > 0 {
        let m = ms[0];
        if is_hit(kept, at, m) {
            let s = hit_start(kept, at, m);
            let e = hit_end(kept, at, m);
            let q = with_piece(
                with_plain(p, kept.subrange(cursor, s)),
                Shown::Hit(kept.subrange(s, e), cur == Some(m.start)),
            );
            lemma_row_keeps(q, kept, at, ms.drop_first(), cur, e);
        } else {
            lemma_row_keeps(p, kept, at, ms.drop_first(), cur, cursor);
        }
    }
}

/// A match that shows on a row becomes a piece.
proof fn lemma_row_hits(
    p: Paint,
    kept: Seq<u8>,
    at: int,
    ms: Seq<Match>,
    cur: Option<usize>,
    cursor: int,
    k: int,
)
    requires
        0 <= k < ms.len(),
        is_hit(kept, at, ms[k]),
    ensures
        row_painted(p, kept, at, ms, cur, cursor).done.contains(
            Shown::Hit(
                kept.subrange(hit_start(kept, at, ms[k]), hit_end(kept, at, ms[k])),
                cur == Some(ms[k].start),
            ),
        ),
    decreases ms.len(),
{
    let m = ms[0];
    let rest = ms.drop_first();
    let s = hit_start(kept, at, m);
    let e = hit_end(kept, at, m);
    let piece = Shown::Hit(kept.subrange(s, e), cur == Some(m.start));
    let q = with_piece(with_plain(p, kept.subrange(cursor, s)), piece);
    if k == 0 {
        lemma_row_keeps(q, kept, at, rest, cur, e);
        let all = row_painted(q, kept, at, rest, cur, e).done;
        assert(q.done[q.done.len() - 1] == piece);
        assert(all[q.done.len() - 1] == piece);
    } else {
        assert(rest[k - 1] == ms[k]);
        if is_hit(kept, at, m) {
            lemma_row_hits(q, kept, at, rest, cur, e, k - 1);
        } else {
            lemma_row_hits(p, kept, at, rest, cur, cursor, k - 1);
        }
    }
}

/// A match that shows on one of several rows becomes a piece.
proof fn lemma_rows_hit(
    rs: Seq<Seq<u8>>,
    base: int,
    ms: Seq<Match>,
    cur: Option<usize>,
    max: int,
    r: int,
    k: int,
)
    requires
        0 <= r < rs.len(),
        0 <= k < ms.len(),
        rs[r].len() <= max,
        is_hit(rs[r], base + rows_len(rs.take(r)), ms[k]),
    ensures
        ({
            let at = base + rows_len(rs.take(r));
            rows_painted(rs, base, ms, cur, max).done.contains(
                Shown::Hit(
                    rs[r].subrange(hit_start(rs[r], at, ms[k]), hit_end(rs[r], at, ms[k])),
                    cur == Some(ms[k].start),
                ),
            )
        }),
    decreases rs.len(),
{
    let init = rs.drop_last();
    let last = rs.len() - 1;
    let before = rows_painted(init, base, ms, cur, max);
    let p = if rs.len() > 1 {
        with_plain(before, seq![10u8])
    } else {
        before
    };
    let line = rs[last];
    let n = shown_len(line, max);
    let at = base + rows_len(init);
    let q = row_painted(p, line.take(n), at, ms, cur, 0);
    let all = rows_painted(rs, base, ms, cur, max);
    lemma_row_keeps(p, line.take(n), at, ms, cur, 0);
    assert(q.done.is_prefix_of(all.done));
    let here = base + rows_len(rs.take(r));
    let piece = Shown::Hit(
        rs[r].subrange(hit_start(rs[r], here, ms[k]), hit_end(rs[r], here, ms[k])),
        cur == Some(ms[k].start),
    );
    if r == last {
        assert(rs.take(r) =~= init);
        assert(line.take(n) =~= line);
        lemma_row_hits(p, line, at, ms, cur, 0, k);
        let i = choose|i: int| 0 <= i < q.done.len() && q.done[i] == piece;
        assert(all.done[i] == piece);
    } else {
        assert(init.take(r) =~= rs.take(r));
        assert(init[r] == rs[r]);
        lemma_rows_hit(init, base, ms, cur, max, r, k);
        let i = choose|i: int| 0 <= i < before.done.len() && before.done[i] == piece;
        assert(q.done[i] == piece);
        assert(all.done[i] == piece);
    }
}

/// The rows of a text lie in it one after the other, each followed by a line feed or the end.
proof fn lemma_rows_lie(b: Seq<u8>, r: int)
    requires
        0 <= r < rows(b).len(),
    ensures
        0 <= rows_len(rows(b).take(r)),
        rows_len(rows(b).take(r)) + rows(b)[r].len() <= b.len(),
        rows(b)[r] == b.subrange(
            rows_len(rows(b).take(r)),
            rows_len(rows(b).take(r)) + rows(b)[r].len(),
        ),
        r == rows(b).len() - 1 ==> rows_len(rows(b).take(r)) + rows(b)[r].len() == b.len(),
        r < rows(b).len() - 1 ==> rows_len(rows(b).take(r)) + rows(b)[r].len() < b.len()
            && b[rows_len(rows(b).take(r)) + rows(b)[r].len()] == 10,
        rows_len(rows(b).take(r)) == 0 || b[rows_len(rows(b).take(r)) - 1] == 10,
    decreases b.len(),
{
    let all = rows(b);
    if b.len() == 0 {
        assert(all.take(0) =~= Seq::<Seq<u8>>::empty());
        assert(all[0] =~= b.subrange(0, 0));
    } else {
        let init = b.drop_last();
        let before = rows(init);
        lemma_rows_feedless(init);
        lemma_rows_lie(init, before.len() - 1);
        let m = before.len() - 1;
        if b.last() == 10 {
            if r < before.len() {
                lemma_rows_lie(init, r);
                assert(all.take(r) =~= before.take(r));
                let o = rows_len(before.take(r));
                assert(b.subrange(o, o + before[r].len()) =~= init.subrange(
                    o,
                    o + before[r].len(),
                ));
                if o > 0 {
                    assert(init[o - 1] == b[o - 1]);
                }
                if r < m {
                    assert(init[o + before[r].len()] == b[o + before[r].len()]);
                }
            } else {
                assert(all.take(r) =~= before);
                assert(before.drop_last() =~= before.take(m));
                assert(all[r] =~= b.subrange(b.len() as int, b.len() as int));
            }
        } else {
            if r < m {
                lemma_rows_lie(init, r);
                assert(all.take(r) =~= before.take(r));
                assert(all[r] == before[r]);
                let o = rows_len(before.take(r));
                assert(b.subrange(o, o + before[r].len()) =~= init.subrange(
                    o,
                    o + before[r].len(),
                ));
                if o > 0 {
                    assert(init[o - 1] == b[o - 1]);
                }
                assert(init[o + before[r].len()] == b[o + before[r].len()]);
            } else {
                assert(all.take(r) =~= before.take(m));
                let o = rows_len(before.take(m));
                assert(all[r] == before[m].push(b.last()));
                assert(all[r] =~= b.subrange(o, b.len() as int));
                if o > 0 {
                    assert(init[o - 1] == b[o - 1]);
                }
            }
        }
    }
}

/// A stretch without a line feed lies on one row.
proof fn lemma_row_of(b: Seq<u8>, s: int, e: int) -> (r: int)
    requires
        0 <= s < e <= b.len(),
        forall|i: int| s <= i < e ==> #[trigger] b[i] != 10,
    ensures
        0 <= r < rows(b).len(),
        rows_len(rows(b).take(r)) <= s,
        e <= rows_len(rows(b).take(r)) + rows(b)[r].len(),
{
    lemma_rows_feedless(b);
    buffer::lemma_feeds_nonneg(b);
    lemma_rows_lie(b, rows(b).len() - 1);
    lemma_row_from(b, s, e, rows(b).len() - 1)
}

proof fn lemma_row_from(b: Seq<u8>, s: int, e: int, r: int) -> (q: int)
    requires
        0 <= s < e <= b.len(),
        forall|i: int| s <= i < e ==> #[trigger] b[i] != 10,
        0 <= r < rows(b).len(),
        e <= rows_len(rows(b).take(r)) + rows(b)[r].len(),
    ensures
        0 <= q < rows(b).len(),
        rows_len(rows(b).take(q)) <= s,
        e <= rows_len(rows(b).take(q)) + rows(b)[q].len(),
    decreases r,
{
    let all = rows(b);
    lemma_rows_lie(b, r);
    let o = rows_len(all.take(r));
    if o <= s {
        r
    } else {
        if r == 0 {
            assert(all.take(0) =~= Seq::<Seq<u8>>::empty());
        }
        assert(o > 0);
        assert(b[o - 1] == 10);
        assert(e <= o - 1);
        assert(all.take(r).drop_last() =~= all.take(r - 1));
        assert(all.take(r).last() == all[r - 1]);
        lemma_row_from(b, s, e, r - 1)
    }
}

/// Every match is set apart: where a match lies within what is in view, on one line, between
/// characters, and its line is not too long to be shown whole, a piece shows just its text, as the
/// selected one exactly where it is selected.
pub proof fn every_match_in_view_is_set_apart(
    visible: Seq<char>,
    base: int,
    ms: Seq<Match>,
    cur: Option<usize>,
    max: int,
    k: int,
)
    requires
        0 <= base,
        0 <= k < ms.len(),
        base <= ms[k].start < ms[k].end <= base + encode_utf8(visible).len(),
        forall|i: int|
            ms[k].start - base <= i < ms[k].end - base ==> #[trigger] encode_utf8(visible)[i] != 10,
        is_char_boundary(encode_utf8(visible), ms[k].start - base),
        is_char_boundary(encode_utf8(visible), ms[k].end - base),
        encode_utf8(visible).len() <= max,
    ensures
        picture(encode_utf8(visible), base, ms, cur, max).contains(
            Shown::Hit(
                encode_utf8(visible).subrange(ms[k].start - base, ms[k].end - base),
                cur == Some(ms[k].start),
            ),
        ),
{
    let b = encode_utf8(visible);
    let m = ms[k];
    let s = m.start - base;
    let e = m.end - base;
    encode_utf8_valid_utf8(visible);
    let r = lemma_row_of(b, s, e);
    lemma_rows_lie(b, r);
    let rs = rows(b);
    let o = rows_len(rs.take(r));
    let row = rs[r];
    // The row is whole characters.
    if o > 0 {
        utf8text::lemma_ascii_is_whole(b, o - 1);
    } else {
        is_char_boundary_start_end_of_seq(b);
    }
    valid_utf8_split(b, o);
    let rest = b.subrange(o, b.len() as int);
    let n = row.len() as int;
    if n < rest.len() {
        assert(rest[n] == b[o + n]);
        utf8text::lemma_ascii_is_whole(rest, n);
    } else {
        is_char_boundary_start_end_of_seq(rest);
    }
    valid_utf8_split(rest, n);
    assert(rest.subrange(0, n) =~= row);
    is_char_boundary_iff_not_is_continuation_byte(b, s);
    assert(row[s - o] == b[s]);
    is_char_boundary_iff_not_is_continuation_byte(row, s - o);
    if e - o < row.len() {
        is_char_boundary_iff_not_is_continuation_byte(b, e);
        assert(row[e - o] == b[e]);
        is_char_boundary_iff_not_is_continuation_byte(row, e - o);
    } else {
        is_char_boundary_start_end_of_seq(row);
    }
    let at = base + o;
    assert(hit_start(row, at, m) == s - o);
    assert(hit_end(row, at, m) == e - o);
    assert(is_hit(row, at, m));
    lemma_rows_hit(rs, base, ms, cur, max, r, k);
    assert(row.subrange(s - o, e - o) =~= b.subrange(s, e));
    let p = rows_painted(rs, base, ms, cur, max);
    let piece = Shown::Hit(b.subrange(s, e), cur == Some(m.start));
    let i = choose|i: int| 0 <= i < p.done.len() && p.done[i] == piece;
    assert(flushed(p).done[i] == piece);
}

/// A line of text without matches is shown as it is; where it is too long, as many whole characters
/// as fit are shown, and how many bytes are left.
pub proof fn a_line_without_matches_is_shown_as_it_is(
    line: Seq<u8>,
    base: int,
    cur: Option<usize>,
    max: int,
)
    requires
        0 <= max,
        line.len() <= usize::MAX,
        forall|i: int| 0 <= i < line.len() ==> #[trigger] line[i] != 10,
    ensures
        line.len() == 0 ==> picture(line, base, seq![], cur, max) == Seq::<Shown>::empty(),
        0 < line.len() <= max ==> picture(line, base, seq![], cur, max) == seq![
            Shown::Plain(line),
        ],
        line.len() > max ==> ({
            let n = shown_len(line, max);
            &&& 0 <= n <= max
            &&& n == 0 || is_char_boundary(line, n)
            &&& forall|k: int| n < k <= max ==> !is_char_boundary(line, k)
            &&& n > 0 ==> picture(line, base, seq![], cur, max) == seq![
                Shown::Plain(line.take(n)),
                Shown::Clipped((line.len() - n) as usize),
            ]
            &&& n == 0 ==> picture(line, base, seq![], cur, max) == seq![
                Shown::Clipped(line.len() as usize),
            ]
        }),
{
    lemma_one_row(line);
    let none = Seq::<Match>::empty();
    let rs = seq![line];
    assert(rows(line) == rs);
    assert(rs.drop_last() =~= Seq::<Seq<u8>>::empty());
    assert(rs.last() == line);
    let p0 = Paint { done: seq![], plain: seq![] };
    assert(rows_painted(rs.drop_last(), base, none, cur, max) == p0);
    let n = shown_len(line, max);
    lemma_boundary_down_range(line, max);
    let kept = line.take(n);
    assert(kept.subrange(0, kept.len() as int) =~= kept);
    assert(p0.plain + kept =~= kept);
    let q = row_painted(p0, kept, base + rows_len(rs.drop_last()), none, cur, 0);
    assert(q == (Paint { done: seq![], plain: kept }));
    if line.len() <= max {
        assert(kept =~= line);
        assert(rows_painted(rs, base, none, cur, max) == q);
        if line.len() > 0 {
            assert(flushed(q).done =~= seq![Shown::Plain(line)]);
        }
    } else {
        lemma_boundary_down_last(line, max);
        let clip = Shown::Clipped((line.len() - n) as usize);
        let z = with_piece(q, clip);
        assert(rows_painted(rs, base, none, cur, max) == z);
        assert(flushed(z) == z);
        if n > 0 {
            assert(z.done =~= seq![Shown::Plain(kept), clip]);
        } else {
            assert(z.done =~= seq![clip]);
        }
    }
}

proof fn lemma_boundary_down_last(b: Seq<u8>, at: int)
    requires
        0 <= at,
    ensures
        forall|k: int| boundary_down(b, at) < k <= at ==> !is_char_boundary(b, k),
        boundary_down(b, at) == 0 || is_char_boundary(b, boundary_down(b, at)),
    decreases at,
{
    if at > 0 && !is_char_boundary(b, at) {
        lemma_boundary_down_last(b, at - 1);
    }
}

/// What stands beside the search box and above the text says what is the case.
pub proof fn the_words_say_what_is_the_case(
    path: Seq<char>,
    label: Seq<char>,
    query: Seq<char>,
    pending: bool,
    n: usize,
    i: usize,
)
    ensures
        count_words(seq![], pending, n, Some(i)) == ""@,
        query.len() > 0 ==> count_words(query, true, n, Some(i)) == "\u{2026}"@,
        query.len() > 0 ==> count_words(query, false, 0, None) == "no matches"@,
        query.len() > 0 && 0 < n < 100_000 ==> count_words(query, false, n, Some(i))
            == strings::decimal((i + 1) as nat) + " of "@ + strings::decimal(n as nat),
        query.len() > 0 && 0 < n < 100_000 ==> count_words(query, false, n, None)
            == strings::decimal(n as nat) + " matches"@,
        query.len() > 0 && n >= 100_000 ==> count_words(query, false, n, Some(i))
            == strings::decimal((i + 1) as nat) + " of "@ + (strings::decimal(100_000) + "+"@),
        label.len() > 0 ==> header_words(path, label, true) == path + "   ["@ + label + "]   "@
            + "following"@ && header_words(path, label, false) == path + "   ["@ + label + "]   "@
            + "paused"@,
        header_words(path, seq![], true) == path + "   ["@ + "..."@ + "]   "@ + "following"@,
        clip_words(n) == " ... ["@ + strings::decimal(n as nat) + " more bytes not shown]"@,
{
}

} // verus!
