//! The text of a tail window: what was read so far, with an index of its lines.

use vstd::prelude::*;
use vstd::utf8::*;

use crate::strings;
use crate::utf8text;

verus! {

/// What a carriage return that ends no line is shown as.
pub const CR_PLACEHOLDER: char = '\u{240D}';

// ---------------------------------------------------------------------------------------------
// Normal line ends
// ---------------------------------------------------------------------------------------------

/// A character that could pass for the end of a line, or is a control character, tab and line feed
/// aside.
pub open spec fn is_special(c: char) -> bool {
    ||| (c < '\u{20}' && c != '\n' && c != '\t')
    ||| c == '\u{85}'
    ||| c == '\u{2028}'
    ||| c == '\u{2029}'
}

/// Text that was taken in, and whether a carriage return at its end still waits to be told.
pub struct Intake {
    /// The text.
    pub text: Seq<char>,
    /// A carriage return waits for the next character.
    pub cr: bool,
}

/// A character taken in, where no carriage return waits.
pub open spec fn take_plain(text: Seq<char>, c: char) -> Intake {
    if c == '\r' {
        Intake { text, cr: true }
    } else if is_special(c) {
        Intake { text: text.push('\u{FFFD}'), cr: false }
    } else {
        Intake { text: text.push(c), cr: false }
    }
}

/// A character taken in. A carriage return and the line feed after it are one line end; one without
/// a line feed is shown; other characters that could end a line are replaced.
pub open spec fn take_char(i: Intake, c: char) -> Intake {
    if i.cr && c == '\n' {
        Intake { text: i.text.push('\n'), cr: false }
    } else if i.cr {
        take_plain(i.text.push(CR_PLACEHOLDER), c)
    } else {
        take_plain(i.text, c)
    }
}

/// Text taken in, after a carriage return where `cr` says so.
pub open spec fn take_in(chunk: Seq<char>, cr: bool) -> Intake
    decreases chunk.len(),
{
    if chunk.len() == 0 {
        Intake { text: seq![], cr }
    } else {
        take_char(take_in(chunk.drop_last(), cr), chunk.last())
    }
}

/// Where text is taken in after other text, the other text stands before it.
proof fn lemma_take_char_prefix(p: Seq<char>, i: Intake, c: char)
    ensures
        take_char(Intake { text: p + i.text, cr: i.cr }, c).text == p + take_char(i, c).text,
        take_char(Intake { text: p + i.text, cr: i.cr }, c).cr == take_char(i, c).cr,
{
    assert((p + i.text).push(CR_PLACEHOLDER) =~= p + i.text.push(CR_PLACEHOLDER));
    let a = take_char(Intake { text: p + i.text, cr: i.cr }, c).text;
    assert(a =~= p + take_char(i, c).text);
}

/// Text without special characters passes through unchanged.
proof fn lemma_plain_text_passes(chunk: Seq<char>)
    requires
        forall|i: int| 0 <= i < chunk.len() ==> !is_special(#[trigger] chunk[i]),
    ensures
        take_in(chunk, false).text == chunk,
        !take_in(chunk, false).cr,
    decreases chunk.len(),
{
    if chunk.len() > 0 {
        let init = chunk.drop_last();
        assert forall|i: int| 0 <= i < init.len() implies !is_special(#[trigger] init[i]) by {
            assert(init[i] == chunk[i]);
        }
        lemma_plain_text_passes(init);
        assert(!is_special(chunk[chunk.len() - 1]));
        assert(init.push(chunk.last()) =~= chunk);
    } else {
        assert(chunk =~= seq![]);
    }
}

/// The bytes at `i` are those of a special character.
spec fn special_bytes(b: Seq<u8>, i: int) -> bool {
    ||| (b[i] < 0x20 && b[i] != 10 && b[i] != 9)
    ||| (b[i] == 0xC2 && i + 1 < b.len() && b[i + 1] == 0x85)
    ||| (b[i] == 0xE2 && i + 2 < b.len() && b[i + 1] == 0x80 && (b[i + 2] == 0xA8 || b[i + 2]
        == 0xA9))
}

proof fn lemma_width_2(c: u32)
    by (bit_vector)
    requires
        0x80 <= c <= 0x7FF,
    ensures
        ((0xC0 | ((c >> 6) & 0x1F) as u8) == 0xC2u8 && (0x80 | (c & 0x3F) as u8) == 0x85u8)
            == (c == 0x85),
        (0xC0 | ((c >> 6) & 0x1F) as u8) >= 0xC0u8,
        (0xC0 | ((c >> 6) & 0x1F) as u8) <= 0xDFu8,
{
}

proof fn lemma_width_3(c: u32)
    by (bit_vector)
    requires
        0x800 <= c <= 0xFFFF,
    ensures
        ((0xE0 | ((c >> 12) & 0x0F) as u8) == 0xE2u8 && (0x80 | ((c >> 6) & 0x3F) as u8) == 0x80u8
            && ((0x80 | (c & 0x3F) as u8) == 0xA8u8 || (0x80 | (c & 0x3F) as u8) == 0xA9u8)) == (c
            == 0x2028 || c == 0x2029),
        (0xE0 | ((c >> 12) & 0x0F) as u8) >= 0xE0u8,
        (0xE0 | ((c >> 12) & 0x0F) as u8) <= 0xEFu8,
{
}

proof fn lemma_width_4(c: u32)
    by (bit_vector)
    requires
        0x10000 <= c <= 0x10FFFF,
    ensures
        (0xF0 | ((c >> 18) & 0x7) as u8) >= 0xF0u8,
{
}

proof fn lemma_width_1(c: u32)
    by (bit_vector)
    requires
        c <= 0x7F,
    ensures
        (c & 0x7F) as u8 == c,
{
}

/// A character is special exactly where its bytes are.
proof fn lemma_special_scalar(c: char, rest: Seq<u8>)
    ensures
        special_bytes(encode_scalar(c as u32) + rest, 0) == is_special(c),
{
    let u = c as u32;
    let e = encode_scalar(u);
    let b = e + rest;
    char_is_scalar(c);
    if has_width_1_encoding(u) {
        lemma_width_1(u);
        assert(b[0] == e[0]);
    } else if has_width_2_encoding(u) {
        lemma_width_2(u);
        assert(b[0] == e[0] && b[1] == e[1]);
    } else if has_width_3_encoding(u) {
        lemma_width_3(u);
        assert(b[0] == e[0] && b[1] == e[1] && b[2] == e[2]);
    } else {
        lemma_width_4(u);
        assert(b[0] == e[0]);
    }
}

/// The first character of a text is special exactly where its first bytes are.
proof fn lemma_special_char(s: Seq<char>)
    requires
        s.len() > 0,
    ensures
        special_bytes(encode_utf8(s), 0) == is_special(s[0]),
{
    lemma_special_scalar(s[0], encode_utf8(s.drop_first()));
}

/// The same, for the `k`-th character.
proof fn lemma_special_at(s: Seq<char>, k: int)
    requires
        0 <= k < s.len(),
    ensures
        special_bytes(encode_utf8(s), utf8text::offset_of(s, k)) == is_special(s[k]),
        utf8text::offset_of(s, k) < encode_utf8(s).len(),
{
    utf8text::lemma_offset_of(s, k);
    utf8text::lemma_offset_step(s, k);
    utf8text::lemma_offset_of(s, k + 1);
    lemma_special_char(s.skip(k));
    let b = encode_utf8(s);
    let o = utf8text::offset_of(s, k);
    let rest = b.subrange(o, b.len() as int);
    assert(rest[0] == b[o]);
    if o + 1 < b.len() {
        assert(rest[1] == b[o + 1]);
    }
    if o + 2 < b.len() {
        assert(rest[2] == b[o + 2]);
    }
}

/// The byte offset of the first special character.
pub fn first_special(chunk: &str) -> (r: Option<usize>)
    ensures
        match r {
            Some(i) => exists|k: int|
                0 <= k < chunk@.len() && i == #[trigger] utf8text::offset_of(chunk@, k)
                    && is_special(chunk@[k]) && forall|j: int|
                    0 <= j < k ==> !is_special(#[trigger] chunk@[j]),
            None => forall|j: int| 0 <= j < chunk@.len() ==> !is_special(#[trigger] chunk@[j]),
        },
{
    let b = chunk.as_bytes();
    let total = b.len();
    let mut i: usize = 0;
    while i < total
        invariant
            i <= total == b@.len(),
            b@ == encode_utf8(chunk@),
            forall|j: int|
                #![trigger chunk@[j]]
                0 <= j < chunk@.len() && utf8text::offset_of(chunk@, j) < i ==> !is_special(
                    chunk@[j],
                ),
        decreases total - i,
    {
        let c = b[i];
        let special = (c < 0x20 && c != 10 && c != 9) || (c == 0xC2 && i < total - 1 && b[i + 1]
            == 0x85) || (c == 0xE2 && total - i > 2 && b[i + 1] == 0x80 && (b[i + 2] == 0xA8
            || b[i + 2] == 0xA9));
        assert(special == special_bytes(b@, i as int));
        if special {
            proof {
                encode_utf8_valid_utf8(chunk@);
                is_char_boundary_iff_not_is_continuation_byte(b@, i as int);
                let k = utf8text::lemma_boundary_is_offset(chunk@, i as int);
                if k == chunk@.len() {
                    assert(chunk@.take(k) =~= chunk@);
                }
                lemma_special_at(chunk@, k);
                assert forall|j: int| 0 <= j < k implies !is_special(#[trigger] chunk@[j]) by {
                    utf8text::lemma_offset_monotonic(chunk@, j, k);
                }
                assert(i == utf8text::offset_of(chunk@, k));
            }
            return Some(i);
        }
        proof {
            assert forall|j: int|
                #![trigger chunk@[j]]
                0 <= j < chunk@.len() && utf8text::offset_of(chunk@, j) < i + 1 implies !is_special(
                chunk@[j],
            ) by {
                if utf8text::offset_of(chunk@, j) == i {
                    lemma_special_at(chunk@, j);
                }
            }
        }
        i += 1;
    }
    proof {
        assert forall|j: int| 0 <= j < chunk@.len() implies !is_special(#[trigger] chunk@[j]) by {
            lemma_special_at(chunk@, j);
        }
    }
    None
}

/// Takes `chunk` in at the end of `out`, and says whether a carriage return at its end still waits.
pub fn normalize_line_endings(chunk: &str, pending_cr: bool, out: &mut String) -> (r: bool)
    ensures
        final(out)@ == old(out)@ + take_in(chunk@, pending_cr).text,
        r == take_in(chunk@, pending_cr).cr,
{
    let ghost before = out@;
    let start: usize = if pending_cr {
        0
    } else {
        match first_special(chunk) {
            Some(i) => i,
            None => {
                proof {
                    lemma_plain_text_passes(chunk@);
                }
                out.push_str(chunk);
                return false;
            },
        }
    };
    let ghost k: int = if pending_cr {
        0
    } else {
        choose|k: int|
            0 <= k < chunk@.len() && start == #[trigger] utf8text::offset_of(chunk@, k)
                && is_special(chunk@[k]) && forall|j: int|
                0 <= j < k ==> !is_special(#[trigger] chunk@[j])
    };
    proof {
        if pending_cr {
            assert(chunk@.take(0) =~= Seq::<char>::empty());
            assert(utf8text::offset_of(chunk@, 0) == 0);
        }
        utf8text::lemma_offset_is_boundary(chunk@, k);
        utf8text::lemma_offset_of(chunk@, k);
    }
    let (head, tail) = chunk.split_at(start);
    proof {
        strings::lemma_encode_injective(head@, chunk@.take(k));
        strings::lemma_encode_injective(tail@, chunk@.skip(k));
        if !pending_cr {
            assert forall|j: int| 0 <= j < k implies !is_special(
                #[trigger] chunk@.take(k)[j],
            ) by {
                assert(!is_special(chunk@[j]));
            }
            lemma_plain_text_passes(chunk@.take(k));
        }
    }
    out.push_str(head);
    let mut prev_cr = pending_cr;
    proof {
        assert(chunk@.take(k + 0) =~= chunk@.take(k));
        if pending_cr {
            assert(head@ =~= Seq::<char>::empty());
        }
        assert(out@ =~= before + take_in(chunk@.take(k), pending_cr).text);
    }
    for ch in it: tail.chars()
        invariant
            it.seq() == tail@,
            tail@ == chunk@.skip(k),
            0 <= k <= chunk@.len(),
            out@ == before + take_in(chunk@.take(k + it.index() as int), pending_cr).text,
            prev_cr == take_in(chunk@.take(k + it.index() as int), pending_cr).cr,
    {
        let ghost i = it.index() as int;
        let ghost now = chunk@.take(k + i);
        let ghost next = chunk@.take(k + i + 1);
        proof {
            assert(ch == chunk@[k + i]);
            assert(next.drop_last() =~= now);
            assert(next.last() == ch);
        }
        let ghost mid = take_in(now, pending_cr);
        if prev_cr && ch == '\n' {
            prev_cr = false;
            out.push('\n');
        } else {
            if prev_cr {
                out.push(CR_PLACEHOLDER);
            }
            prev_cr = false;
            if ch == '\r' {
                prev_cr = true;
            } else if special(ch) {
                out.push('\u{FFFD}');
            } else {
                out.push(ch);
            }
        }
        proof {
            lemma_take_char_prefix(before, mid, ch);
            assert(out@ =~= before + take_in(next, pending_cr).text);
        }
    }
    proof {
        assert(chunk@.take(k + tail@.len() as int) =~= chunk@);
    }
    prev_cr
}

fn special(c: char) -> (r: bool)
    ensures
        r == is_special(c),
{
    (c < '\u{20}' && c != '\n' && c != '\t') || c == '\u{85}' || c == '\u{2028}' || c == '\u{2029}'
}

// ---------------------------------------------------------------------------------------------
// Laws of normal line ends
// ---------------------------------------------------------------------------------------------

/// Text may come in pieces of any size: what was taken in is the same.
pub proof fn pieces_do_not_matter(a: Seq<char>, b: Seq<char>, cr: bool)
    ensures
        take_in(a + b, cr).text == take_in(a, cr).text + take_in(b, take_in(a, cr).cr).text,
        take_in(a + b, cr).cr == take_in(b, take_in(a, cr).cr).cr,
    decreases b.len(),
{
    if b.len() == 0 {
        assert(a + b =~= a);
        assert(take_in(a, cr).text + Seq::<char>::empty() =~= take_in(a, cr).text);
    } else {
        pieces_do_not_matter(a, b.drop_last(), cr);
        assert((a + b).drop_last() =~= a + b.drop_last());
        assert((a + b).last() == b.last());
        lemma_take_char_prefix(
            take_in(a, cr).text,
            take_in(b.drop_last(), take_in(a, cr).cr),
            b.last(),
        );
    }
}

/// Nothing in what was taken in could pass for the end of a line but the line feed.
pub proof fn only_line_feeds_end_lines(chunk: Seq<char>, cr: bool)
    ensures
        forall|i: int|
            0 <= i < take_in(chunk, cr).text.len() ==> !is_special(
                #[trigger] take_in(chunk, cr).text[i],
            ),
    decreases chunk.len(),
{
    if chunk.len() > 0 {
        only_line_feeds_end_lines(chunk.drop_last(), cr);
        let before = take_in(chunk.drop_last(), cr);
        let after = take_in(chunk, cr);
        assert forall|i: int| 0 <= i < after.text.len() implies !is_special(
            #[trigger] after.text[i],
        ) by {
            if i < before.text.len() {
                assert(after.text[i] == before.text[i]);
            }
        }
    }
}

/// How many line feeds a text holds.
pub open spec fn line_feeds(text: Seq<char>) -> int
    decreases text.len(),
{
    if text.len() == 0 {
        0
    } else {
        line_feeds(text.drop_last()) + (if text.last() == '\n' {
            1int
        } else {
            0
        })
    }
}

proof fn lemma_line_feeds_push(text: Seq<char>, c: char)
    ensures
        line_feeds(text.push(c)) == line_feeds(text) + (if c == '\n' {
            1int
        } else {
            0
        }),
{
    assert(text.push(c).drop_last() =~= text);
}

/// No line is lost and none is added: what was taken in holds as many line feeds as what came.
pub proof fn every_line_feed_is_kept(chunk: Seq<char>, cr: bool)
    ensures
        line_feeds(take_in(chunk, cr).text) == line_feeds(chunk),
    decreases chunk.len(),
{
    if chunk.len() > 0 {
        let before = take_in(chunk.drop_last(), cr).text;
        let shown = before.push(CR_PLACEHOLDER);
        every_line_feed_is_kept(chunk.drop_last(), cr);
        lemma_line_feeds_push(before, chunk.last());
        lemma_line_feeds_push(before, '\u{FFFD}');
        lemma_line_feeds_push(before, CR_PLACEHOLDER);
        lemma_line_feeds_push(shown, chunk.last());
        lemma_line_feeds_push(shown, '\u{FFFD}');
    }
}

/// What was taken in passes through unchanged a second time.
pub proof fn taking_in_twice_changes_nothing(chunk: Seq<char>, cr: bool)
    ensures
        take_in(take_in(chunk, cr).text, false).text == take_in(chunk, cr).text,
{
    only_line_feeds_end_lines(chunk, cr);
    lemma_plain_text_passes(take_in(chunk, cr).text);
}

// ---------------------------------------------------------------------------------------------
// The buffer
// ---------------------------------------------------------------------------------------------

/// The text of a tail window and where its lines start.
#[derive(Debug)]
pub struct TailBuf {
    /// The text.
    pub text: String,
    /// Where each line starts, in bytes. Where the text ends in a line feed, the end of the text
    /// is the last entry.
    pub line_starts: Vec<usize>,
    /// How many lines were dropped from the front.
    pub dropped_lines: usize,
    /// How many bytes were dropped from the front of a line too long to keep.
    pub dropped_bytes: usize,
    /// The first line says what was dropped.
    pub has_drop_marker: bool,
    /// A carriage return at the end of what was appended still waits.
    pub pending_cr: bool,
}

/// The state of a buffer.
#[verifier::ext_equal]
pub struct Buf {
    /// The text.
    pub text: Seq<char>,
    /// How many lines were dropped from the front.
    pub dropped_lines: usize,
    /// How many bytes were dropped from the front of a line too long to keep.
    pub dropped_bytes: usize,
    /// The first line says what was dropped.
    pub marker: bool,
    /// A carriage return at the end of what was appended still waits.
    pub cr: bool,
}

impl View for TailBuf {
    type V = Buf;

    open spec fn view(&self) -> Buf {
        Buf {
            text: self.text@,
            dropped_lines: self.dropped_lines,
            dropped_bytes: self.dropped_bytes,
            marker: self.has_drop_marker,
            cr: self.pending_cr,
        }
    }
}

/// The bytes of a buffer's text.
pub open spec fn bytes_of(b: Buf) -> Seq<u8> {
    encode_utf8(b.text)
}

/// Where lines start: at 0, and after every line feed.
pub open spec fn starts_of(b: Seq<u8>) -> Seq<usize>
    decreases b.len(),
{
    if b.len() == 0 {
        seq![0usize]
    } else if b.last() == 10 {
        starts_of(b.drop_last()).push(b.len() as usize)
    } else {
        starts_of(b.drop_last())
    }
}

/// The index of lines: where lines start, and nothing for an empty text.
pub open spec fn line_index(b: Seq<u8>) -> Seq<usize> {
    if b.len() == 0 {
        seq![]
    } else {
        starts_of(b)
    }
}

/// How many lines there are. What follows the last line feed is a line unless it is empty.
pub open spec fn lines_in(b: Seq<u8>) -> int {
    if b.len() == 0 {
        0
    } else if b.last() == 10 {
        starts_of(b).len() - 1
    } else {
        starts_of(b).len() as int
    }
}

/// The bytes of the lines from `first` up to `last`, without the line feed that ends the last.
pub open spec fn lines_between(b: Seq<u8>, first: int, last: int) -> Seq<u8> {
    let idx = line_index(b);
    if first >= last || first >= idx.len() {
        seq![]
    } else if last < idx.len() {
        b.subrange(idx[first] as int, idx[last] - 1)
    } else {
        b.subrange(idx[first] as int, b.len() as int)
    }
}

/// How many entries from the front on do not exceed `x`, where the entries ascend.
pub open spec fn count_up_to(s: Seq<usize>, x: int) -> int
    decreases s.len(),
{
    if s.len() == 0 {
        0
    } else if s.last() <= x {
        s.len() as int
    } else {
        count_up_to(s.drop_last(), x)
    }
}

/// No entry is negative.
proof fn lemma_count_none(s: Seq<usize>, x: int)
    requires
        x < 0,
    ensures
        count_up_to(s, x) == 0,
    decreases s.len(),
{
    if s.len() > 0 {
        lemma_count_none(s.drop_last(), x);
    }
}

/// The line that holds the byte at `off`.
pub open spec fn line_at(b: Seq<u8>, off: int) -> int {
    let n = count_up_to(line_index(b), off);
    if n > 0 {
        n - 1
    } else {
        0
    }
}

/// The text of a buffer once `chunk` was appended.
pub open spec fn appended(b: Buf, chunk: Seq<char>) -> Buf {
    Buf { text: b.text + take_in(chunk, b.cr).text, cr: take_in(chunk, b.cr).cr, ..b }
}

/// The line that says what was dropped.
pub open spec fn drop_note(lines: usize, bytes: usize) -> Seq<char> {
    if bytes == 0 {
        "--- earlier "@ + strings::decimal(lines as nat) + " lines dropped ---\n"@
    } else if lines == 0 {
        "--- earlier "@ + strings::decimal(bytes as nat) + " bytes dropped ---\n"@
    } else {
        "--- earlier "@ + strings::decimal(lines as nat) + " lines and "@ + strings::decimal(
            bytes as nat,
        ) + " bytes dropped ---\n"@
    }
}

/// A sum, or the largest number that can be told.
pub open spec fn sum_or_max(a: usize, b: int) -> usize {
    if a + b > usize::MAX {
        usize::MAX
    } else {
        (a + b) as usize
    }
}

/// `a - b`, but no less than 0.
pub open spec fn less_or_zero(a: int, b: int) -> int {
    if a > b {
        a - b
    } else {
        0
    }
}

/// The characters from byte `at` on.
pub open spec fn text_from(text: Seq<char>, at: int) -> Seq<char> {
    decode_utf8(encode_utf8(text).subrange(at, encode_utf8(text).len() as int))
}

/// The buffer with nothing but the note of what was dropped and `kept`.
pub open spec fn with_note(b: Buf, kept: Seq<char>) -> Buf {
    Buf { text: drop_note(b.dropped_lines, b.dropped_bytes) + kept, marker: true, ..b }
}

/// How many lines at the front are no content.
pub open spec fn note_lines(b: Buf) -> int {
    if b.marker {
        1
    } else {
        0
    }
}

/// How many lines have to go until no more than `trim_to` bytes are left. The last line stays.
pub open spec fn lines_to_cut(b: Buf, trim_to: int) -> int {
    let bytes = bytes_of(b);
    let n = count_up_to(line_index(bytes), bytes.len() - trim_to - 1);
    if n < lines_in(bytes) - 1 {
        n
    } else {
        lines_in(bytes) - 1
    }
}

/// Whether dropping whole lines drops any content.
pub open spec fn cuts_lines(b: Buf, trim_to: int) -> bool {
    lines_in(bytes_of(b)) >= 2 && lines_to_cut(b, trim_to) > note_lines(b)
}

/// The buffer with whole lines dropped.
pub open spec fn without_lines(b: Buf, trim_to: int) -> Buf {
    let n = lines_to_cut(b, trim_to);
    with_note(
        Buf { dropped_lines: sum_or_max(b.dropped_lines, n - note_lines(b)), ..b },
        text_from(b.text, line_index(bytes_of(b))[n] as int),
    )
}

/// Where the last line starts.
pub open spec fn last_start(b: Buf) -> int {
    line_index(bytes_of(b))[lines_in(bytes_of(b)) - 1] as int
}

/// How many lines of content precede the last line.
pub open spec fn older_lines(b: Buf) -> int {
    less_or_zero(lines_in(bytes_of(b)) - 1, note_lines(b))
}

/// Whether the last line is too long to keep, or anything but the note precedes it.
pub open spec fn cuts_bytes(b: Buf, trim_to: int) -> bool {
    bytes_of(b).len() - last_start(b) > trim_to || older_lines(b) > 0
}

/// The first place between characters at or after `at`.
pub open spec fn boundary_from(b: Seq<u8>, at: int) -> int
    decreases b.len() - at,
{
    if at >= b.len() || is_char_boundary(b, at) {
        at
    } else {
        boundary_from(b, at + 1)
    }
}

/// Where the part of the last line that is kept begins.
pub open spec fn kept_from(b: Buf, trim_to: int) -> int {
    let bytes = bytes_of(b);
    boundary_from(
        bytes,
        last_start(b) + less_or_zero(bytes.len() - last_start(b), trim_to),
    )
}

/// The buffer with nothing kept but the end of the last line.
pub open spec fn without_bytes(b: Buf, trim_to: int) -> Buf {
    with_note(
        Buf {
            dropped_lines: sum_or_max(b.dropped_lines, older_lines(b)),
            dropped_bytes: sum_or_max(b.dropped_bytes, kept_from(b, trim_to) - last_start(b)),
            ..b
        },
        text_from(b.text, kept_from(b, trim_to)),
    )
}

/// The buffer once whole lines were dropped where that drops any content.
pub open spec fn line_cut(b: Buf, trim_to: int) -> Buf {
    if cuts_lines(b, trim_to) {
        without_lines(b, trim_to)
    } else {
        b
    }
}

/// The buffer brought down to `trim_to` bytes where it exceeds `cap`: by whole lines, and where the
/// last line alone exceeds the cap, by the front of that line.
pub open spec fn trimmed_to(b: Buf, cap: int, trim_to: int) -> Buf {
    let c = line_cut(b, trim_to);
    if bytes_of(b).len() <= cap {
        b
    } else if bytes_of(c).len() <= cap {
        c
    } else if cuts_bytes(c, trim_to) {
        without_bytes(c, trim_to)
    } else {
        c
    }
}

/// Whether anything was dropped.
pub open spec fn is_trimmed(b: Buf, cap: int, trim_to: int) -> bool {
    let c = line_cut(b, trim_to);
    bytes_of(b).len() > cap && (cuts_lines(b, trim_to) || cuts_bytes(c, trim_to))
}

/// A buffer that holds nothing.
pub open spec fn empty_buf() -> Buf {
    Buf { text: seq![], dropped_lines: 0, dropped_bytes: 0, marker: false, cr: false }
}

// ---------------------------------------------------------------------------------------------
// Facts about lines
// ---------------------------------------------------------------------------------------------

/// Lines start at 0 and after line feeds, in ascending order.
pub proof fn lemma_starts(b: Seq<u8>)
    requires
        b.len() <= usize::MAX,
    ensures
        starts_of(b).len() >= 1,
        starts_of(b)[0] == 0,
        forall|i: int|
            0 < i < starts_of(b).len() ==> 0 < (#[trigger] starts_of(b)[i]) <= b.len()
                && b[starts_of(b)[i] - 1] == 10,
        forall|i: int, j: int|
            0 <= i < j < starts_of(b).len() ==> (#[trigger] starts_of(b)[i]) < (
            #[trigger] starts_of(b)[j]),
    decreases b.len(),
{
    if b.len() > 0 {
        let init = b.drop_last();
        lemma_starts(init);
        let s = starts_of(init);
        assert forall|i: int| 0 < i < s.len() implies 0 < (#[trigger] s[i]) <= b.len() && b[s[i]
            - 1] == 10 by {
            assert(init[s[i] - 1] == b[s[i] - 1]);
        }
    }
}

/// The last start lies after the last line feed.
proof fn lemma_last_start_after_feeds(b: Seq<u8>)
    requires
        b.len() <= usize::MAX,
    ensures
        forall|p: int| starts_of(b).last() <= p < b.len() ==> #[trigger] b[p] != 10,
        b.len() > 0 && b.last() == 10 <==> b.len() > 0 && starts_of(b).last() == b.len(),
    decreases b.len(),
{
    if b.len() > 0 {
        let init = b.drop_last();
        lemma_last_start_after_feeds(init);
        lemma_starts(init);
        lemma_starts(b);
        if b.last() != 10 {
            assert forall|p: int| starts_of(b).last() <= p < b.len() implies #[trigger] b[p]
                != 10 by {
                if p < init.len() {
                    assert(init[p] == b[p]);
                }
            }
            let s = starts_of(b);
            assert(s[s.len() - 1] <= init.len());
        }
    }
}

/// Every start lies between characters.
proof fn lemma_start_is_boundary(text: Seq<char>, i: int)
    requires
        encode_utf8(text).len() <= usize::MAX,
        0 <= i < starts_of(encode_utf8(text)).len(),
    ensures
        starts_of(encode_utf8(text))[i] <= encode_utf8(text).len(),
        is_char_boundary(encode_utf8(text), starts_of(encode_utf8(text))[i] as int),
        i > 0 ==> is_char_boundary(encode_utf8(text), starts_of(encode_utf8(text))[i] - 1),
{
    let b = encode_utf8(text);
    encode_utf8_valid_utf8(text);
    lemma_starts(b);
    if i > 0 {
        utf8text::lemma_ascii_is_whole(b, starts_of(b)[i] - 1);
    }
}

/// The number of entries that do not exceed `x`, where the entries ascend.
proof fn lemma_count_up_to(s: Seq<usize>, x: int, n: int)
    requires
        0 <= n <= s.len(),
        forall|i: int| 0 <= i < n ==> #[trigger] s[i] <= x,
        forall|i: int| n <= i < s.len() ==> #[trigger] s[i] > x,
    ensures
        count_up_to(s, x) == n,
    decreases s.len(),
{
    if s.len() > 0 {
        if n < s.len() {
            assert(s[s.len() - 1] > x);
            let init = s.drop_last();
            assert forall|i: int| 0 <= i < n implies #[trigger] init[i] <= x by {
                assert(init[i] == s[i]);
            }
            assert forall|i: int| n <= i < init.len() implies #[trigger] init[i] > x by {
                assert(init[i] == s[i]);
            }
            lemma_count_up_to(init, x, n);
        } else {
            assert(s[s.len() - 1] <= x);
        }
    }
}

/// How many of the ascending entries do not exceed `x`.
fn count_le(s: &Vec<usize>, x: usize) -> (r: usize)
    requires
        forall|i: int, j: int| 0 <= i < j < s@.len() ==> (#[trigger] s@[i]) < (#[trigger] s@[j]),
    ensures
        r == count_up_to(s@, x as int),
        r <= s@.len(),
        forall|i: int| 0 <= i < r ==> #[trigger] s@[i] <= x,
        forall|i: int| r <= i < s@.len() ==> #[trigger] s@[i] > x,
{
    let mut lo: usize = 0;
    let mut hi: usize = s.len();
    while lo < hi
        invariant
            lo <= hi <= s@.len(),
            forall|i: int, j: int|
                0 <= i < j < s@.len() ==> (#[trigger] s@[i]) < (#[trigger] s@[j]),
            forall|i: int| 0 <= i < lo ==> #[trigger] s@[i] <= x,
            forall|i: int| hi <= i < s@.len() ==> #[trigger] s@[i] > x,
        decreases hi - lo,
    {
        let mid = lo + (hi - lo) / 2;
        if s[mid] <= x {
            lo = mid + 1;
        } else {
            hi = mid;
        }
    }
    proof {
        lemma_count_up_to(s@, x as int, lo as int);
    }
    lo
}

impl TailBuf {
    /// The index of lines fits the text.
    pub open spec fn wf(&self) -> bool {
        self.line_starts@ == line_index(encode_utf8(self.text@))
    }

    /// A buffer that holds nothing.
    pub fn new() -> (r: Self)
        ensures
            r.wf(),
            r@ == empty_buf(),
    {
        let r = TailBuf {
            text: String::new(),
            line_starts: Vec::new(),
            dropped_lines: 0,
            dropped_bytes: 0,
            has_drop_marker: false,
            pending_cr: false,
        };
        assert(r.line_starts@ =~= seq![]);
        r
    }

    /// How many bytes the text has.
    pub fn byte_len(&self) -> (r: usize)
        ensures
            r == bytes_of(self@).len(),
    {
        self.text.as_str().as_bytes().len()
    }

    /// How many lines there are.
    pub fn line_count(&self) -> (r: usize)
        requires
            self.wf(),
        ensures
            r == lines_in(bytes_of(self@)),
    {
        let b = self.text.as_str().as_bytes();
        let total = b.len();
        let n = self.line_starts.len();
        proof {
            lemma_starts(b@);
        }
        if n == 0 {
            0
        } else if b[total - 1] == 10 {
            n - 1
        } else {
            n
        }
    }

    /// The lines from `first` up to `last`.
    pub fn slice_text(&self, first: usize, last: usize) -> (r: &str)
        requires
            self.wf(),
        ensures
            encode_utf8(r@) == lines_between(bytes_of(self@), first as int, last as int),
    {
        let text = self.text.as_str();
        let total = text.as_bytes().len();
        let ghost b = encode_utf8(text@);
        proof {
            encode_utf8_valid_utf8(text@);
            lemma_starts(b);
            is_char_boundary_start_end_of_seq(b);
        }
        if first >= last || first >= self.line_starts.len() {
            let (head, _tail) = text.split_at(0);
            assert(encode_utf8(head@) =~= seq![]);
            return head;
        }
        let start = self.line_starts[first];
        let end: usize = if last < self.line_starts.len() {
            proof {
                assert(starts_of(b)[first as int] < starts_of(b)[last as int]);
                lemma_start_is_boundary(text@, last as int);
            }
            self.line_starts[last] - 1
        } else {
            total
        };
        proof {
            lemma_start_is_boundary(text@, first as int);
            assert(start <= end);
        }
        utf8text::part(text, start, end)
    }

    /// The line that holds the byte at `off`.
    pub fn line_of(&self, off: usize) -> (r: usize)
        requires
            self.wf(),
        ensures
            r == line_at(bytes_of(self@), off as int),
    {
        let _total = self.text.as_str().as_bytes().len();
        proof {
            lemma_starts(encode_utf8(self.text@));
        }
        let n = count_le(&self.line_starts, off);
        if n > 0 {
            n - 1
        } else {
            0
        }
    }

    /// Appends `chunk`, with its line ends made plain.
    pub fn append_text(&mut self, chunk: &str)
        requires
            old(self).wf(),
        ensures
            final(self).wf(),
            final(self)@ == appended(old(self)@, chunk@),
    {
        if chunk.is_empty() {
            assert(chunk@ =~= seq![]);
            assert(self.text@ + Seq::<char>::empty() =~= self.text@);
            return;
        }
        let ghost before = encode_utf8(self.text@);
        let ghost was = self.text@;
        let base = self.text.as_str().as_bytes().len();
        let cr = normalize_line_endings(chunk, self.pending_cr, &mut self.text);
        self.pending_cr = cr;
        proof {
            utf8text::lemma_encode_concat(was, take_in(chunk@, old(self)@.cr).text);
            assert(encode_utf8(self.text@).take(base as int) =~= before);
        }
        self.index_from(base);
    }

    /// Extends the index of lines over the bytes from `base` on.
    fn index_from(&mut self, base: usize)
        requires
            base <= encode_utf8(old(self).text@).len(),
            old(self).line_starts@ == line_index(encode_utf8(old(self).text@).take(base as int)),
        ensures
            final(self).wf(),
            final(self)@ == old(self)@,
    {
        let ghost b = encode_utf8(self.text@);
        let total = self.text.as_str().as_bytes().len();
        if total == base {
            assert(b.take(base as int) =~= b);
            return;
        }
        if self.line_starts.len() == 0 {
            proof {
                lemma_starts(b.take(base as int));
                assert(b.take(0) =~= Seq::<u8>::empty());
            }
            self.line_starts.push(0);
            assert(self.line_starts@ =~= starts_of(b.take(base as int)));
        }
        let ghost view = self@;
        let mut i: usize = base;
        while i < total
            invariant
                base <= i <= total == b.len(),
                b == encode_utf8(self.text@),
                self@ == view,
                self.line_starts@ == starts_of(b.take(i as int)),
            decreases total - i,
        {
            proof {
                assert(b.take(i as int + 1).drop_last() =~= b.take(i as int));
                assert(b.take(i as int + 1).last() == b[i as int]);
            }
            let c = self.text.as_str().as_bytes()[i];
            i += 1;
            if c == 10 {
                self.line_starts.push(i);
            }
        }
        assert(b.take(i as int) =~= b);
    }

    /// Replaces the text by the note of what was dropped and `kept`.
    fn rebuild_with_marker(&mut self, kept: &str)
        ensures
            final(self).wf(),
            final(self)@ == with_note(old(self)@, kept@),
    {
        let mut text = drop_marker(self.dropped_lines, self.dropped_bytes);
        text.push_str(kept);
        self.text = text;
        self.has_drop_marker = true;
        self.line_starts = Vec::new();
        assert(encode_utf8(self.text@).take(0) =~= Seq::<u8>::empty());
        assert(self.line_starts@ =~= line_index(encode_utf8(self.text@).take(0)));
        self.index_from(0);
    }

    /// Brings the text down to `trim_to` bytes where it exceeds `cap`, and says whether anything
    /// was dropped.
    pub fn cap_scrollback_to(&mut self, cap: usize, trim_to: usize) -> (r: bool)
        requires
            old(self).wf(),
        ensures
            final(self).wf(),
            final(self)@ == trimmed_to(old(self)@, cap as int, trim_to as int),
            r == is_trimmed(old(self)@, cap as int, trim_to as int),
    {
        if self.byte_len() <= cap {
            return false;
        }
        let trimmed = self.cut_lines(trim_to);
        if self.byte_len() <= cap {
            return true;
        }
        if self.cut_bytes(trim_to) {
            true
        } else {
            trimmed
        }
    }

    /// Drops whole lines where that drops any content.
    fn cut_lines(&mut self, trim_to: usize) -> (r: bool)
        requires
            old(self).wf(),
            bytes_of(old(self)@).len() > 0,
        ensures
            final(self).wf(),
            final(self)@ == line_cut(old(self)@, trim_to as int),
            r == cuts_lines(old(self)@, trim_to as int),
            bytes_of(final(self)@).len() > 0,
    {
        let ghost b0 = self@;
        let ghost b = bytes_of(self@);
        let total = self.byte_len();
        proof {
            lemma_starts(b);
            lemma_last_start_after_feeds(b);
        }
        let lines = self.line_count();
        let note: usize = if self.has_drop_marker {
            1
        } else {
            0
        };
        if lines < 2 {
            return false;
        }
        let mut n: usize = if total > trim_to {
            count_le(&self.line_starts, total - trim_to - 1)
        } else {
            0
        };
        proof {
            if total <= trim_to {
                lemma_count_none(line_index(b), total - trim_to - 1);
            }
        }
        if n > lines - 1 {
            n = lines - 1;
        }
        assert(n == lines_to_cut(b0, trim_to as int));
        if n <= note {
            return false;
        }
        self.dropped_lines = self.dropped_lines.saturating_add(n - note);
        let at = self.line_starts[n];
        proof {
            lemma_start_is_boundary(self.text@, n as int);
        }
        let kept = self.tail_from(at);
        self.rebuild_with_marker(kept.as_str());
        proof {
            lemma_note_is_not_empty(self.dropped_lines, self.dropped_bytes, kept@);
        }
        true
    }

    /// The text from byte `at` on.
    fn tail_from(&self, at: usize) -> (r: String)
        requires
            is_char_boundary(encode_utf8(self.text@), at as int),
        ensures
            r@ == text_from(self.text@, at as int),
    {
        let (_head, tail) = self.text.as_str().split_at(at);
        proof {
            encode_utf8_decode_utf8(tail@);
        }
        tail.to_owned()
    }

    /// Drops everything but the end of the last line, where that line is too long or other content
    /// precedes it.
    fn cut_bytes(&mut self, trim_to: usize) -> (r: bool)
        requires
            old(self).wf(),
            bytes_of(old(self)@).len() > 0,
        ensures
            final(self).wf(),
            final(self)@ == (if cuts_bytes(old(self)@, trim_to as int) {
                without_bytes(old(self)@, trim_to as int)
            } else {
                old(self)@
            }),
            r == cuts_bytes(old(self)@, trim_to as int),
    {
        let ghost b0 = self@;
        let ghost b = bytes_of(self@);
        let total = self.byte_len();
        proof {
            lemma_starts(b);
            lemma_last_start_after_feeds(b);
            encode_utf8_valid_utf8(self.text@);
            is_char_boundary_start_end_of_seq(b);
        }
        let lines = self.line_count();
        let note: usize = if self.has_drop_marker {
            1
        } else {
            0
        };
        let last = lines - 1;
        let start = self.line_starts[last];
        let older: usize = last.saturating_sub(note);
        proof {
            lemma_start_is_boundary(self.text@, last as int);
        }
        let line_len = total - start;
        if line_len <= trim_to && older == 0 {
            return false;
        }
        let mut at: usize = start + line_len.saturating_sub(trim_to);
        while at < total && !self.text.as_str().is_char_boundary(at)
            invariant
                start <= at <= total == b.len(),
                b == encode_utf8(self.text@),
                self.wf(),
                self@ == b0,
                boundary_from(b, at as int) == kept_from(b0, trim_to as int),
            decreases total - at,
        {
            at += 1;
        }
        self.dropped_lines = self.dropped_lines.saturating_add(older);
        self.dropped_bytes = self.dropped_bytes.saturating_add(at - start);
        let kept = self.tail_from(at);
        self.rebuild_with_marker(kept.as_str());
        true
    }
}

/// The note of what was dropped is never empty.
proof fn lemma_note_is_not_empty(lines: usize, bytes: usize, kept: Seq<char>)
    ensures
        encode_utf8(drop_note(lines, bytes) + kept).len() > 0,
        drop_note(lines, bytes).len() > 0,
{
    reveal_strlit("--- earlier ");
    let s = drop_note(lines, bytes) + kept;
    assert(s.len() > 0);
    utf8text::lemma_offset_monotonic(s, 0, s.len() as int);
    assert(s.take(s.len() as int) =~= s);
}

/// The line that says what was dropped.
pub fn drop_marker(lines: usize, bytes: usize) -> (r: String)
    ensures
        r@ == drop_note(lines, bytes),
{
    let mut out = "--- earlier ".to_owned();
    if bytes == 0 {
        out.push_str(strings::decimal_of(lines as u64).as_str());
        out.push_str(" lines dropped ---\n");
    } else if lines == 0 {
        out.push_str(strings::decimal_of(bytes as u64).as_str());
        out.push_str(" bytes dropped ---\n");
    } else {
        out.push_str(strings::decimal_of(lines as u64).as_str());
        out.push_str(" lines and ");
        out.push_str(strings::decimal_of(bytes as u64).as_str());
        out.push_str(" bytes dropped ---\n");
    }
    out
}

// ---------------------------------------------------------------------------------------------
// Laws of the buffer
// ---------------------------------------------------------------------------------------------

/// How many line feeds there are.
pub open spec fn feeds(b: Seq<u8>) -> int
    decreases b.len(),
{
    if b.len() == 0 {
        0
    } else {
        feeds(b.drop_last()) + (if b.last() == 10 {
            1int
        } else {
            0
        })
    }
}

/// Line feeds add up.
pub proof fn lemma_feeds_concat(a: Seq<u8>, b: Seq<u8>)
    ensures
        feeds(a + b) == feeds(a) + feeds(b),
    decreases b.len(),
{
    if b.len() == 0 {
        assert(a + b =~= a);
    } else {
        lemma_feeds_concat(a, b.drop_last());
        assert((a + b).drop_last() =~= a + b.drop_last());
    }
}

/// There is no negative number of line feeds.
pub proof fn lemma_feeds_nonneg(b: Seq<u8>)
    ensures
        feeds(b) >= 0,
    decreases b.len(),
{
    if b.len() > 0 {
        lemma_feeds_nonneg(b.drop_last());
    }
}

/// As many line feeds precede a line as lines do.
proof fn lemma_feeds_before(b: Seq<u8>, j: int)
    requires
        b.len() <= usize::MAX,
        0 <= j < starts_of(b).len(),
    ensures
        starts_of(b)[j] <= b.len(),
        feeds(b.take(starts_of(b)[j] as int)) == j,
        feeds(b) == starts_of(b).len() - 1,
    decreases b.len(),
{
    lemma_starts(b);
    if b.len() > 0 {
        let init = b.drop_last();
        let s = starts_of(init);
        lemma_starts(init);
        lemma_feeds_before(init, 0);
        if j < s.len() {
            lemma_feeds_before(init, j);
            assert(starts_of(b)[j] == s[j]);
            assert(b.take(s[j] as int) =~= init.take(s[j] as int));
        } else {
            assert(b.take(b.len() as int) =~= b);
        }
    } else {
        assert(b.take(0) =~= b);
    }
}

/// A stretch of `n` lines shows as exactly `n` rows: one line feed less than lines.
pub proof fn a_row_for_every_line(b: Seq<u8>, first: int, last: int)
    requires
        b.len() <= usize::MAX,
        0 <= first < last <= lines_in(b),
    ensures
        feeds(lines_between(b, first, last)) == last - first - 1,
{
    let idx = line_index(b);
    lemma_starts(b);
    lemma_feeds_before(b, first);
    let from = idx[first] as int;
    if last < idx.len() {
        lemma_feeds_before(b, last);
        let to = idx[last] as int;
        assert(idx[first] < idx[last]);
        let part = b.subrange(from, to);
        assert(b.take(to) =~= b.take(from) + part);
        lemma_feeds_concat(b.take(from), part);
        assert(part.last() == b[to - 1]);
        assert(part.drop_last() =~= b.subrange(from, to - 1));
    } else {
        let part = b.subrange(from, b.len() as int);
        assert(b =~= b.take(from) + part);
        lemma_feeds_concat(b.take(from), part);
    }
}

/// The lines of a text are what lies between its line feeds: none holds one.
pub proof fn a_line_holds_no_line_feed(b: Seq<u8>, i: int)
    requires
        b.len() <= usize::MAX,
        0 <= i < lines_in(b),
    ensures
        forall|p: int|
            0 <= p < lines_between(b, i, i + 1).len() ==> #[trigger] lines_between(b, i, i + 1)[p]
                != 10,
{
    a_row_for_every_line(b, i, i + 1);
    lemma_no_feeds(lines_between(b, i, i + 1));
}

proof fn lemma_no_feeds(b: Seq<u8>)
    ensures
        0 <= feeds(b),
        feeds(b) == 0 ==> forall|p: int| 0 <= p < b.len() ==> #[trigger] b[p] != 10,
    decreases b.len(),
{
    if b.len() > 0 {
        lemma_no_feeds(b.drop_last());
        assert forall|p: int| 0 <= p < b.len() && feeds(b) == 0 implies #[trigger] b[p] != 10 by {
            if p < b.len() - 1 {
                assert(b.drop_last()[p] == b[p]);
            }
        }
    }
}

/// Where the first line feed stands, the second line starts.
proof fn lemma_second_start(b: Seq<u8>, k: int)
    requires
        b.len() <= usize::MAX,
        0 < k <= b.len(),
        b[k - 1] == 10,
        forall|p: int| 0 <= p < k - 1 ==> #[trigger] b[p] != 10,
    ensures
        starts_of(b).len() >= 2,
        starts_of(b)[1] == k,
    decreases b.len(),
{
    let init = b.drop_last();
    if k < b.len() {
        assert forall|p: int| 0 <= p < k - 1 implies #[trigger] init[p] != 10 by {
            assert(init[p] == b[p]);
        }
        assert(init[k - 1] == b[k - 1]);
        lemma_second_start(init, k);
    } else {
        assert forall|p: int| 0 <= p < init.len() implies #[trigger] init[p] != 10 by {
            assert(init[p] == b[p]);
        }
        lemma_all_plain(init);
    }
}

proof fn lemma_all_plain(b: Seq<u8>)
    requires
        forall|p: int| 0 <= p < b.len() ==> #[trigger] b[p] != 10,
    ensures
        feeds(b) == 0,
        starts_of(b) == seq![0usize],
    decreases b.len(),
{
    if b.len() > 0 {
        let init = b.drop_last();
        assert forall|p: int| 0 <= p < init.len() implies #[trigger] init[p] != 10 by {
            assert(init[p] == b[p]);
        }
        lemma_all_plain(init);
        assert(b[b.len() - 1] != 10);
    }
}

/// Digits are ASCII and no line feeds.
proof fn lemma_decimal_is_plain(n: nat)
    ensures
        is_ascii_chars(strings::decimal(n)),
        forall|i: int| 0 <= i < strings::decimal(n).len() ==> #[trigger] strings::decimal(n)[i]
            != '\n',
{
    strings::lemma_decimal_reads_back(n);
    let d = strings::decimal(n);
    assert forall|i: int| 0 <= i < d.len() implies '\0' <= #[trigger] d[i] <= '\u{7f}' && d[i]
        != '\n' by {
        assert(strings::digit(d[i]));
    }
}

/// The note is one line.
proof fn lemma_note_is_one_line(lines: usize, bytes: usize)
    ensures
        is_ascii_chars(drop_note(lines, bytes)),
        drop_note(lines, bytes).len() > 0,
        drop_note(lines, bytes).last() == '\n',
        forall|i: int|
            0 <= i < drop_note(lines, bytes).len() - 1 ==> #[trigger] drop_note(lines, bytes)[i]
                != '\n',
{
    reveal_strlit("--- earlier ");
    reveal_strlit(" lines dropped ---\n");
    reveal_strlit(" bytes dropped ---\n");
    reveal_strlit(" lines and ");
    lemma_decimal_is_plain(lines as nat);
    lemma_decimal_is_plain(bytes as nat);
    let l = strings::decimal(lines as nat);
    let b = strings::decimal(bytes as nat);
    let note = drop_note(lines, bytes);
    let a = "--- earlier "@;
    assert(is_ascii_chars(a));
    if bytes == 0 {
        let z = " lines dropped ---\n"@;
        assert(note =~= a + l + z);
        assert forall|i: int| 0 <= i < note.len() implies '\0' <= #[trigger] note[i] <= '\u{7f}'
            && (i < note.len() - 1 ==> note[i] != '\n') by {
            if i >= a.len() && i < a.len() + l.len() {
                assert(note[i] == l[i - a.len()]);
            } else if i >= a.len() + l.len() {
                assert(note[i] == z[i - a.len() - l.len()]);
            }
        }
    } else if lines == 0 {
        let z = " bytes dropped ---\n"@;
        assert(note =~= a + b + z);
        assert forall|i: int| 0 <= i < note.len() implies '\0' <= #[trigger] note[i] <= '\u{7f}'
            && (i < note.len() - 1 ==> note[i] != '\n') by {
            if i >= a.len() && i < a.len() + b.len() {
                assert(note[i] == b[i - a.len()]);
            } else if i >= a.len() + b.len() {
                assert(note[i] == z[i - a.len() - b.len()]);
            }
        }
    } else {
        let m = " lines and "@;
        let z = " bytes dropped ---\n"@;
        assert(note =~= a + l + m + b + z);
        let p1 = a.len();
        let p2 = p1 + l.len();
        let p3 = p2 + m.len();
        let p4 = p3 + b.len();
        assert forall|i: int| 0 <= i < note.len() implies '\0' <= #[trigger] note[i] <= '\u{7f}'
            && (i < note.len() - 1 ==> note[i] != '\n') by {
            if i < p1 {
                assert(note[i] == a[i]);
            } else if i < p2 {
                assert(note[i] == l[i - p1]);
            } else if i < p3 {
                assert(note[i] == m[i - p2]);
            } else if i < p4 {
                assert(note[i] == b[i - p3]);
            } else {
                assert(note[i] == z[i - p4]);
            }
        }
    }
}

/// Where there is a note, the text begins with it.
pub open spec fn note_leads(b: Buf) -> bool {
    b.marker ==> drop_note(b.dropped_lines, b.dropped_bytes).is_prefix_of(b.text)
}

/// How many bytes the note takes.
pub open spec fn note_len(b: Buf) -> int {
    encode_utf8(drop_note(b.dropped_lines, b.dropped_bytes)).len() as int
}

/// The note stays at the front: appending keeps it there, and trimming renews it.
pub proof fn the_note_leads(b: Buf, chunk: Seq<char>, cap: int, trim_to: int)
    requires
        note_leads(b),
    ensures
        note_leads(empty_buf()),
        note_leads(appended(b, chunk)),
        note_leads(trimmed_to(b, cap, trim_to)),
{
    let n = drop_note(b.dropped_lines, b.dropped_bytes);
    if b.marker {
        let a = appended(b, chunk).text;
        assert forall|i: int| 0 <= i < n.len() implies n[i] == #[trigger] a[i] by {}
        assert(n =~= a.subrange(0, n.len() as int));
    }
}

/// A buffer with a note has its second line where the note ends.
proof fn lemma_note_is_first_line(b: Buf)
    requires
        b.marker,
        note_leads(b),
        bytes_of(b).len() <= usize::MAX,
    ensures
        starts_of(bytes_of(b)).len() >= 2,
        starts_of(bytes_of(b))[1] == note_len(b),
{
    let n = drop_note(b.dropped_lines, b.dropped_bytes);
    let rest = b.text.skip(n.len() as int);
    lemma_note_is_one_line(b.dropped_lines, b.dropped_bytes);
    assert(b.text =~= n + rest);
    utf8text::lemma_encode_concat(n, rest);
    is_ascii_chars_encode_utf8(n);
    let e = encode_utf8(n);
    let all = bytes_of(b);
    assert(n[n.len() - 1] == '\n');
    assert(all[e.len() - 1] == e[e.len() - 1]);
    assert(e[e.len() - 1] == 10);
    assert forall|p: int| 0 <= p < e.len() - 1 implies #[trigger] all[p] != 10 by {
        assert(all[p] == e[p]);
        assert(n[p] as u8 == e[p]);
        assert(n[p] != '\n');
    }
    lemma_second_start(all, e.len() as int);
}

/// The bytes of a buffer with a note.
proof fn lemma_with_note_bytes(b: Buf, text: Seq<char>, at: int)
    requires
        0 <= at <= encode_utf8(text).len(),
        is_char_boundary(encode_utf8(text), at),
    ensures
        bytes_of(with_note(b, text_from(text, at))) == encode_utf8(
            drop_note(b.dropped_lines, b.dropped_bytes),
        ) + encode_utf8(text).subrange(at, encode_utf8(text).len() as int),
{
    let all = encode_utf8(text);
    encode_utf8_valid_utf8(text);
    valid_utf8_split(all, at);
    decode_utf8_encode_utf8(all.subrange(at, all.len() as int));
    utf8text::lemma_encode_concat(
        drop_note(b.dropped_lines, b.dropped_bytes),
        text_from(text, at),
    );
}

proof fn lemma_boundary_from(text: Seq<char>, at: int)
    requires
        0 <= at <= encode_utf8(text).len(),
    ensures
        at <= boundary_from(encode_utf8(text), at) <= encode_utf8(text).len(),
        is_char_boundary(encode_utf8(text), boundary_from(encode_utf8(text), at)),
    decreases encode_utf8(text).len() - at,
{
    let b = encode_utf8(text);
    encode_utf8_valid_utf8(text);
    if at >= b.len() {
        is_char_boundary_start_end_of_seq(b);
    } else if !is_char_boundary(b, at) {
        lemma_boundary_from(text, at + 1);
    }
}

/// Trimming bounds the text: afterwards it fits the cap, or is no more than the note and `trim_to`
/// bytes. What is left after the note is the end of what was there.
pub proof fn trimming_bounds_the_text(b: Buf, cap: int, trim_to: int)
    requires
        note_leads(b),
        0 <= trim_to <= cap,
        bytes_of(b).len() <= usize::MAX,
        bytes_of(line_cut(b, trim_to)).len() <= usize::MAX,
    ensures
        ({
            let r = trimmed_to(b, cap, trim_to);
            bytes_of(r).len() <= cap || bytes_of(r).len() <= note_len(r) + trim_to
        }),
{
    let c = line_cut(b, trim_to);
    if bytes_of(b).len() > cap && bytes_of(c).len() > cap {
        the_note_leads(b, seq![], cap, trim_to);
        assert(note_leads(c)) by {
            if cuts_lines(b, trim_to) {
                let n = drop_note(c.dropped_lines, c.dropped_bytes);
                assert(n =~= c.text.subrange(0, n.len() as int));
            }
        }
        let bytes = bytes_of(c);
        lemma_starts(bytes);
        lemma_last_start_after_feeds(bytes);
        let start = last_start(c);
        if cuts_bytes(c, trim_to) {
            let from = start + less_or_zero(bytes.len() - start, trim_to);
            lemma_start_is_boundary(c.text, lines_in(bytes) - 1);
            lemma_boundary_from(c.text, from);
            let d = Buf {
                dropped_lines: sum_or_max(c.dropped_lines, older_lines(c)),
                dropped_bytes: sum_or_max(c.dropped_bytes, kept_from(c, trim_to) - start),
                ..c
            };
            lemma_with_note_bytes(d, c.text, kept_from(c, trim_to));
        } else {
            if c.marker {
                lemma_note_is_first_line(c);
                assert(lines_in(bytes) - 1 <= 1);
            }
        }
    }
}

/// Nothing but the front is ever dropped: after the note comes the end of what was there.
pub proof fn trimming_keeps_the_end(b: Buf, cap: int, trim_to: int) -> (from: int)
    requires
        is_trimmed(b, cap, trim_to),
        0 <= trim_to <= cap,
        bytes_of(b).len() <= usize::MAX,
        bytes_of(line_cut(b, trim_to)).len() <= usize::MAX,
    ensures
        0 <= from <= bytes_of(b).len(),
        bytes_of(trimmed_to(b, cap, trim_to)) == encode_utf8(
            drop_note(
                trimmed_to(b, cap, trim_to).dropped_lines,
                trimmed_to(b, cap, trim_to).dropped_bytes,
            ),
        ) + bytes_of(b).subrange(from, bytes_of(b).len() as int),
{
    let r = trimmed_to(b, cap, trim_to);
    let c = line_cut(b, trim_to);
    let whole = bytes_of(b);
    let mut from1: int = 0;
    if cuts_lines(b, trim_to) {
        let n = lines_to_cut(b, trim_to);
        lemma_starts(whole);
        lemma_last_start_after_feeds(whole);
        lemma_cut_in_range(b, trim_to);
        lemma_start_is_boundary(b.text, n);
        from1 = line_index(whole)[n] as int;
        let d = Buf { dropped_lines: sum_or_max(b.dropped_lines, n - note_lines(b)), ..b };
        lemma_with_note_bytes(d, b.text, from1);
    }
    if bytes_of(c).len() <= cap || !cuts_bytes(c, trim_to) {
        from1
    } else {
        let bytes = bytes_of(c);
        lemma_starts(bytes);
        lemma_last_start_after_feeds(bytes);
        let start = last_start(c);
        let at = start + less_or_zero(bytes.len() - start, trim_to);
        lemma_start_is_boundary(c.text, lines_in(bytes) - 1);
        lemma_boundary_from(c.text, at);
        let k = kept_from(c, trim_to);
        let d = Buf {
            dropped_lines: sum_or_max(c.dropped_lines, older_lines(c)),
            dropped_bytes: sum_or_max(c.dropped_bytes, k - start),
            ..c
        };
        lemma_with_note_bytes(d, c.text, k);
        if cuts_lines(b, trim_to) {
            let note = encode_utf8(drop_note(c.dropped_lines, c.dropped_bytes));
            // The last line of a text with a note lies after the note.
            assert(note_leads(c)) by {
                let n = drop_note(c.dropped_lines, c.dropped_bytes);
                assert(n =~= c.text.subrange(0, n.len() as int));
            }
            lemma_note_is_first_line(c);
            let kept = whole.subrange(from1, whole.len() as int);
            assert(bytes =~= note + kept);
            lemma_cut_leaves_something(b, trim_to);
            assert(start >= note.len()) by {
                let s = starts_of(bytes);
                assert(s[1] == note.len());
                if lines_in(bytes) - 1 > 1 {
                    assert(s[1] < s[lines_in(bytes) - 1]);
                } else if lines_in(bytes) == 1 {
                    // A single line would end where the note does.
                    assert(s.len() == 2);
                    assert(s[1] == bytes.len());
                }
            }
            let from = from1 + (k - note.len());
            assert(bytes.subrange(k, bytes.len() as int) =~= whole.subrange(
                from,
                whole.len() as int,
            ));
            from
        } else {
            k
        }
    }
}

/// The line that the kept part begins with exists.
proof fn lemma_cut_in_range(b: Buf, trim_to: int)
    requires
        cuts_lines(b, trim_to),
        bytes_of(b).len() <= usize::MAX,
    ensures
        0 < lines_to_cut(b, trim_to) < lines_in(bytes_of(b)),
        lines_to_cut(b, trim_to) < line_index(bytes_of(b)).len(),
{
    lemma_starts(bytes_of(b));
}

/// Dropping lines leaves at least the last one.
proof fn lemma_cut_leaves_something(b: Buf, trim_to: int)
    requires
        cuts_lines(b, trim_to),
        bytes_of(b).len() <= usize::MAX,
    ensures
        line_index(bytes_of(b))[lines_to_cut(b, trim_to)] < bytes_of(b).len(),
{
    let bytes = bytes_of(b);
    let s = starts_of(bytes);
    let n = lines_to_cut(b, trim_to);
    lemma_starts(bytes);
    lemma_last_start_after_feeds(bytes);
    lemma_cut_in_range(b, trim_to);
    if n < s.len() - 1 {
        assert(s[n] < s[s.len() - 1]);
        assert(s[s.len() - 1] <= bytes.len());
    }
}

/// How text is taken in, one character at a time: a line feed ends a line, and takes a carriage
/// return that waits with it; any other character shows such a carriage return first. A carriage
/// return waits; control characters other than the tab, and the other characters that could end a
/// line, are replaced; every other character stays as it is.
pub proof fn a_character_is_taken_in(chunk: Seq<char>, cr: bool, c: char)
    ensures
        take_in(seq![], cr).text == Seq::<char>::empty() && take_in(seq![], cr).cr == cr,
        ({
            let t = take_in(chunk, cr);
            let u = take_in(chunk.push(c), cr);
            let shown = if t.cr && c != '\n' {
                t.text.push('\u{240D}')
            } else {
                t.text
            };
            &&& c == '\n' ==> u.text == t.text.push('\n') && !u.cr
            &&& c == '\r' ==> u.text == shown && u.cr
            &&& c != '\n' && c != '\r' && c != '\t' && (c < '\u{20}' || c == '\u{85}' || c
                == '\u{2028}' || c == '\u{2029}') ==> u.text == shown.push('\u{FFFD}') && !u.cr
            &&& c == '\t' || (c >= '\u{20}' && c != '\u{85}' && c != '\u{2028}' && c
                != '\u{2029}') ==> u.text == shown.push(c) && !u.cr
        }),
{
    assert(chunk.push(c).drop_last() =~= chunk);
}

/// Text of ordinary characters, tabs and line feeds is appended as it is, whatever was there; and
/// text that comes in two parts is appended like the whole.
pub proof fn plain_text_is_appended_as_it_is(b: Buf, x: Seq<char>, y: Seq<char>)
    ensures
        !b.cr && (forall|i: int|
            0 <= i < x.len() ==> (#[trigger] x[i] == '\n' || x[i] == '\t' || (x[i] >= '\u{20}'
                && x[i] != '\u{85}' && x[i] != '\u{2028}' && x[i] != '\u{2029}'))) ==> appended(
            b,
            x,
        ) == (Buf { text: b.text + x, ..b }),
        appended(appended(b, x), y) == appended(b, x + y),
        appended(b, seq![]) == b,
        appended(b, x) == (Buf {
            text: b.text + take_in(x, b.cr).text,
            cr: take_in(x, b.cr).cr,
            ..b
        }),
{
    pieces_do_not_matter(x, y, b.cr);
    assert((b.text + take_in(x, b.cr).text) + take_in(y, take_in(x, b.cr).cr).text =~= b.text + (
    take_in(x, b.cr).text + take_in(y, take_in(x, b.cr).cr).text));
    assert(b.text + Seq::<char>::empty() =~= b.text);
    if !b.cr && (forall|i: int|
        0 <= i < x.len() ==> (#[trigger] x[i] == '\n' || x[i] == '\t' || (x[i] >= '\u{20}' && x[i]
            != '\u{85}' && x[i] != '\u{2028}' && x[i] != '\u{2029}'))) {
        assert forall|i: int| 0 <= i < x.len() implies !is_special(#[trigger] x[i]) by {
            assert(x[i] == '\n' || x[i] == '\t' || (x[i] >= '\u{20}' && x[i] != '\u{85}' && x[i]
                != '\u{2028}' && x[i] != '\u{2029}'));
        }
        lemma_plain_text_passes(x);
    }
}

/// A line begins with the text and after every line feed that has something behind it: one more
/// byte makes one more line exactly where it is the first or follows a line feed.
pub proof fn a_byte_behind_a_line_feed_makes_a_line(b: Seq<u8>, x: u8)
    requires
        b.len() < usize::MAX,
    ensures
        lines_in(seq![]) == 0,
        lines_in(b.push(x)) == lines_in(b) + (if b.len() == 0 || b.last() == 10 {
            1int
        } else {
            0
        }),
{
    let c = b.push(x);
    assert(c.drop_last() =~= b);
    lemma_starts(b);
    lemma_starts(c);
    if b.len() == 0 {
        assert(b =~= seq![]);
    }
}

/// The stretch from one line up to another is that part of the text which begins behind as many
/// line feeds as there are lines before it, and ends before the line feed of its last line, or
/// where the text does.
pub proof fn a_stretch_of_lines_is_part_of_the_text(b: Seq<u8>, first: int, last: int) -> (r: (
    int,
    int,
))
    requires
        b.len() <= usize::MAX,
        0 <= first < last <= lines_in(b),
    ensures
        0 <= r.0 <= r.1 <= b.len(),
        lines_between(b, first, last) == b.subrange(r.0, r.1),
        feeds(b.take(r.0)) == first,
        r.0 == 0 || b[r.0 - 1] == 10,
        r.1 == b.len() || b[r.1] == 10,
        feeds(b.subrange(r.0, r.1)) == last - first - 1,
        r.1 == b.len() ==> last == lines_in(b),
{
    let idx = line_index(b);
    lemma_starts(b);
    lemma_feeds_before(b, first);
    a_row_for_every_line(b, first, last);
    let from = idx[first] as int;
    if last < idx.len() {
        assert(idx[first] < idx[last]);
        (from, idx[last] - 1)
    } else {
        (from, b.len() as int)
    }
}

/// No lines are an empty text: where the stretch is empty, or begins behind the last line.
pub proof fn no_lines_are_no_text(b: Seq<u8>, first: int, last: int)
    requires
        b.len() <= usize::MAX,
        0 <= first,
    ensures
        first >= last ==> lines_between(b, first, last) == Seq::<u8>::empty(),
        lines_between(seq![], first, last) == Seq::<u8>::empty(),
        first > lines_in(b) ==> lines_between(b, first, last) == Seq::<u8>::empty(),
{
    lemma_starts(b);
}

/// The line of a byte is told by how many line feeds precede it.
pub proof fn a_byte_lies_behind_as_many_line_feeds(b: Seq<u8>, off: int)
    requires
        b.len() <= usize::MAX,
        0 <= off < b.len(),
    ensures
        line_at(b, off) == feeds(b.take(off)),
{
    let idx = line_index(b);
    lemma_starts(b);
    let n = lemma_count(idx, off);
    assert(idx[0] <= off);
    assert(n > 0);
    lemma_feeds_before(b, n - 1);
    let from = idx[n - 1] as int;
    let rest = b.subrange(from, off);
    assert(b.take(off) =~= b.take(from) + rest);
    lemma_feeds_concat(b.take(from), rest);
    assert forall|q: int| 0 <= q < rest.len() implies #[trigger] rest[q] != 10 by {
        if rest[q] == 10 {
            assert(b[from + q] == 10);
            let j = lemma_feed_has_start(b, from + q);
            if j <= n - 1 {
                if j < n - 1 {
                    assert(idx[j] < idx[n - 1]);
                }
                assert(false);
            } else {
                assert(idx[n] > off);
                if j > n {
                    assert(idx[n] < idx[j]);
                }
                assert(false);
            }
        }
    }
    lemma_feeds_none(rest);
}

proof fn lemma_feeds_none(b: Seq<u8>)
    requires
        forall|q: int| 0 <= q < b.len() ==> #[trigger] b[q] != 10,
    ensures
        feeds(b) == 0,
    decreases b.len(),
{
    if b.len() > 0 {
        let init = b.drop_last();
        assert forall|q: int| 0 <= q < init.len() implies #[trigger] init[q] != 10 by {
            assert(init[q] == b[q]);
        }
        lemma_feeds_none(init);
        assert(b[b.len() - 1] != 10);
    }
}

/// Behind every line feed a line starts.
proof fn lemma_feed_has_start(b: Seq<u8>, p: int) -> (j: int)
    requires
        b.len() <= usize::MAX,
        0 <= p < b.len(),
        b[p] == 10,
    ensures
        0 <= j < starts_of(b).len(),
        starts_of(b)[j] == p + 1,
    decreases b.len(),
{
    let init = b.drop_last();
    if p == b.len() - 1 {
        starts_of(init).len() as int
    } else {
        assert(init[p] == b[p]);
        lemma_feed_has_start(init, p)
    }
}

/// How many entries do not exceed `x`, as a place in the list.
proof fn lemma_count(s: Seq<usize>, x: int) -> (n: int)
    requires
        forall|i: int, j: int|
            0 <= i < j < s.len() ==> (#[trigger] s[i]) < (#[trigger] s[j]),
    ensures
        n == count_up_to(s, x),
        0 <= n <= s.len(),
        n > 0 ==> s[n - 1] <= x,
        n < s.len() ==> s[n] > x,
    decreases s.len(),
{
    if s.len() > 0 && s.last() > x {
        let init = s.drop_last();
        assert forall|i: int, j: int| 0 <= i < j < init.len() implies (#[trigger] init[i]) < (
        #[trigger] init[j]) by {
            assert(s[i] < s[j]);
        }
        let n = lemma_count(init, x);
        n
    } else {
        s.len() as int
    }
}

/// Text within its bound is left alone, and what is not trimmed is as it was.
pub proof fn text_within_its_bound_is_left_alone(b: Buf, cap: int, trim_to: int)
    ensures
        encode_utf8(b.text).len() <= cap ==> trimmed_to(b, cap, trim_to) == b && !is_trimmed(
            b,
            cap,
            trim_to,
        ),
        !is_trimmed(b, cap, trim_to) ==> trimmed_to(b, cap, trim_to) == b,
        trimmed_to(b, cap, trim_to).cr == b.cr,
        is_trimmed(b, cap, trim_to) ==> trimmed_to(b, cap, trim_to).marker,
{
}

/// Where dropping whole lines is enough, whole lines are dropped and no more of them than needed:
/// what is kept begins behind a line feed and is no longer than asked for, unless it is the last
/// line alone; with one line more it would be longer. The lines dropped, the note aside, are
/// counted.
pub proof fn no_more_lines_are_dropped_than_needed(b: Buf, cap: int, trim_to: int) -> (from: int)
    requires
        is_trimmed(b, cap, trim_to),
        cuts_lines(b, trim_to),
        encode_utf8(line_cut(b, trim_to).text).len() <= cap,
        0 <= trim_to <= cap,
        encode_utf8(b.text).len() <= usize::MAX,
        b.dropped_lines + encode_utf8(b.text).len() <= usize::MAX,
    ensures
        ({
            let whole = encode_utf8(b.text);
            let r = trimmed_to(b, cap, trim_to);
            let kept = whole.subrange(from, whole.len() as int);
            &&& 0 < from < whole.len()
            &&& whole[from - 1] == 10
            &&& encode_utf8(r.text) == encode_utf8(drop_note(r.dropped_lines, r.dropped_bytes))
                + kept
            &&& kept.len() <= trim_to || lines_in(kept) == 1
            &&& forall|p: int|
                0 <= p < from && (p == 0 || #[trigger] whole[p - 1] == 10) ==> whole.len() - p
                    > trim_to
            &&& r.dropped_lines == b.dropped_lines + feeds(whole.take(from)) - (if b.marker {
                1int
            } else {
                0
            })
            &&& r.dropped_bytes == b.dropped_bytes
        }),
{
    let whole = bytes_of(b);
    let n = lines_to_cut(b, trim_to);
    let s = starts_of(whole);
    lemma_starts(whole);
    lemma_last_start_after_feeds(whole);
    lemma_cut_in_range(b, trim_to);
    lemma_cut_leaves_something(b, trim_to);
    lemma_start_is_boundary(b.text, n);
    lemma_feeds_before(whole, n);
    let from = s[n] as int;
    let d = Buf { dropped_lines: sum_or_max(b.dropped_lines, n - note_lines(b)), ..b };
    lemma_with_note_bytes(d, b.text, from);
    let kept = whole.subrange(from, whole.len() as int);
    let m = lemma_count(line_index(whole), whole.len() - trim_to - 1);
    assert forall|p: int| 0 <= p < from && (p == 0 || #[trigger] whole[p - 1] == 10) implies
        whole.len() - p > trim_to by {
        let j: int = if p == 0 {
            0
        } else {
            lemma_feed_has_start(whole, p - 1)
        };
        assert(s[j] == p);
        if j >= n {
            if j > n {
                assert(s[n] < s[j]);
            }
            assert(false);
        }
        if j < m - 1 {
            assert(s[j] < s[m - 1]);
        }
    }
    assert(whole =~= whole.take(from) + kept);
    lemma_feeds_concat(whole.take(from), kept);
    lemma_feeds_before(whole, 0);
    lemma_lines_by_feeds(kept);
    lemma_lines_by_feeds(whole);
    assert(kept.last() == whole.last());
    lemma_feeds_bound(whole.take(from));
    from
}

proof fn lemma_feeds_bound(b: Seq<u8>)
    ensures
        0 <= feeds(b) <= b.len(),
    decreases b.len(),
{
    if b.len() > 0 {
        lemma_feeds_bound(b.drop_last());
    }
}

/// There are as many lines as line feeds, and one more where something follows the last.
proof fn lemma_lines_by_feeds(b: Seq<u8>)
    requires
        0 < b.len() <= usize::MAX,
    ensures
        lines_in(b) == feeds(b) + (if b.last() == 10 {
            0int
        } else {
            1
        }),
{
    lemma_starts(b);
    lemma_feeds_before(b, 0);
}

/// The note names what was dropped: lines, bytes, or both.
pub proof fn the_note_names_what_was_dropped(lines: usize, bytes: usize)
    ensures
        drop_note(lines, 0) == "--- earlier "@ + strings::decimal(lines as nat)
            + " lines dropped ---\n"@,
        bytes > 0 ==> drop_note(0, bytes) == "--- earlier "@ + strings::decimal(bytes as nat)
            + " bytes dropped ---\n"@,
        lines > 0 && bytes > 0 ==> drop_note(lines, bytes) == "--- earlier "@ + strings::decimal(
            lines as nat,
        ) + " lines and "@ + strings::decimal(bytes as nat) + " bytes dropped ---\n"@,
{
}

} // verus!
