//! Searching the text of a tail window. Offsets count bytes; letters of the ASCII alphabet match in
//! either case, all other bytes as they are.

use vstd::prelude::*;
use vstd::utf8::*;

verus! {

/// The largest number of matches that are kept.
pub const MATCH_CAP: usize = 100_000;

/// From this size on, a text is not searched at every keystroke.
pub const DEBOUNCE_THRESHOLD_BYTES: usize = 4 * 1024 * 1024;

/// For how many ticks after the last keystroke the search of a large text waits.
pub const DEBOUNCE_TICKS: u64 = 2;

/// A match: the bytes from `start` up to `end`.
#[derive(Debug, Clone, Copy, PartialEq, Eq, Structural)]
pub struct Match {
    /// Where it starts.
    pub start: usize,
    /// Where it ends.
    pub end: usize,
}

// ---------------------------------------------------------------------------------------------
// Model
// ---------------------------------------------------------------------------------------------

/// A byte, in lower case where it is an ASCII letter.
pub open spec fn fold_byte(b: u8) -> u8 {
    if 65 <= b <= 90 {
        (b + 32) as u8
    } else {
        b
    }
}

/// Whether `query` stands at offset `at` of `text`, case aside.
pub open spec fn stands_at(text: Seq<u8>, query: Seq<u8>, at: int) -> bool {
    &&& 0 <= at
    &&& at + query.len() <= text.len()
    &&& forall|k: int|
        0 <= k < query.len() ==> fold_byte(#[trigger] text[at + k]) == fold_byte(query[k])
}

/// The matches at or after `from`: the first one, then the first one after its end, and so on.
pub open spec fn hits(text: Seq<u8>, query: Seq<u8>, from: int) -> Seq<Match>
    decreases text.len() - from,
{
    if query.len() == 0 || from < 0 || from + query.len() > text.len() {
        seq![]
    } else if stands_at(text, query, from) {
        seq![spanning(from, query.len() as int)] + hits(text, query, from + query.len())
    } else {
        hits(text, query, from + 1)
    }
}

/// The match of `len` bytes at `start`.
pub open spec fn spanning(start: int, len: int) -> Match {
    Match { start: start as usize, end: (start + len) as usize }
}

/// The first matches, as many as are kept.
pub open spec fn capped(ms: Seq<Match>) -> Seq<Match> {
    if ms.len() > MATCH_CAP {
        ms.take(MATCH_CAP as int)
    } else {
        ms
    }
}

/// The matches of `query` in `text` that are kept.
pub open spec fn found(text: Seq<u8>, query: Seq<u8>) -> Seq<Match> {
    capped(hits(text, query, 0))
}

/// Matches that are kept, and those found from `from` on after them.
pub open spec fn continued(ms: Seq<Match>, text: Seq<u8>, query: Seq<u8>, from: int) -> Seq<Match> {
    if ms.len() >= MATCH_CAP {
        ms
    } else {
        capped(ms + hits(text, query, from))
    }
}

/// Where the search goes on after the text grew from `old_len` bytes: where a match could reach
/// past the old end, but not before the end of the last match.
pub open spec fn resume_at(ms: Seq<Match>, query_len: int, old_len: int) -> int {
    let last_end = if ms.len() == 0 {
        0
    } else {
        ms.last().end as int
    };
    let overlap = if old_len > query_len - 1 {
        old_len - (query_len - 1)
    } else {
        0
    };
    if last_end > overlap {
        last_end
    } else {
        overlap
    }
}

/// The matches once the text grew from `old_len` bytes.
pub open spec fn extended(
    ms: Seq<Match>,
    text: Seq<u8>,
    query: Seq<u8>,
    old_len: int,
) -> Seq<Match> {
    if query.len() == 0 {
        ms
    } else {
        continued(ms, text, query, resume_at(ms, query.len() as int, old_len))
    }
}

/// Matches that follow each other without overlap.
pub open spec fn in_order(ms: Seq<Match>) -> bool {
    &&& forall|i: int| 0 <= i < ms.len() ==> (#[trigger] ms[i]).start <= ms[i].end
    &&& forall|i: int, j: int|
        0 <= i < j < ms.len() ==> (#[trigger] ms[i]).end <= (#[trigger] ms[j]).start
}

/// The selected match one step on, around the end.
pub open spec fn stepped(cur: Option<usize>, count: int, forward: bool) -> Option<int> {
    if count == 0 {
        None
    } else {
        match (cur, forward) {
            (None, true) => Some(0),
            (None, false) => Some(count - 1),
            (Some(i), true) => Some((i + 1) % count),
            (Some(i), false) => Some((i + count - 1) % count),
        }
    }
}

/// The selected match, where there are only `count`.
pub open spec fn clamped(cur: Option<usize>, count: int) -> Option<int> {
    match cur {
        None => None,
        Some(i) => if count == 0 {
            None
        } else if i < count {
            Some(i as int)
        } else {
            Some(count - 1)
        },
    }
}

// ---------------------------------------------------------------------------------------------
// Search
// ---------------------------------------------------------------------------------------------

/// Whether a text of this size is searched at every keystroke.
pub fn scan_inline(text_len: usize) -> (r: bool)
    ensures
        r == (text_len < DEBOUNCE_THRESHOLD_BYTES),
{
    text_len < DEBOUNCE_THRESHOLD_BYTES
}

/// Whether a search that waits for tick `deadline` is due.
pub fn rescan_due(deadline: Option<u64>, tick_count: u64) -> (r: bool)
    ensures
        r == (deadline matches Some(d) && tick_count >= d),
{
    match deadline {
        Some(d) => tick_count >= d,
        None => false,
    }
}

/// The matches of `query` in `text`, as many as are kept. Nothing matches an empty query.
pub fn find_matches(text: &str, query: &str) -> (r: Vec<Match>)
    ensures
        r@ == found(encode_utf8(text@), encode_utf8(query@)),
{
    let mut out: Vec<Match> = Vec::new();
    scan_from(text, query, 0, &mut out);
    assert(Seq::<Match>::empty() + hits(encode_utf8(text@), encode_utf8(query@), 0) =~= hits(
        encode_utf8(text@),
        encode_utf8(query@),
        0,
    ));
    out
}

/// Adds the matches that came with the text after its first `old_len` bytes.
pub fn extend_matches(text: &str, query: &str, old_len: usize, matches: &mut Vec<Match>)
    ensures
        final(matches)@ == extended(
            old(matches)@,
            encode_utf8(text@),
            encode_utf8(query@),
            old_len as int,
        ),
{
    let n = query.as_bytes().len();
    if n == 0 {
        return;
    }
    let last_end: usize = if matches.len() == 0 {
        0
    } else {
        matches[matches.len() - 1].end
    };
    let overlap: usize = old_len.saturating_sub(n - 1);
    let from: usize = if last_end > overlap {
        last_end
    } else {
        overlap
    };
    scan_from(text, query, from, matches);
}

fn fold(b: u8) -> (r: u8)
    ensures
        r == fold_byte(b),
{
    if 65 <= b && b <= 90 {
        b + 32
    } else {
        b
    }
}

fn is_at(hay: &[u8], needle: &[u8], at: usize) -> (r: bool)
    requires
        at + needle@.len() <= hay@.len(),
    ensures
        r == stands_at(hay@, needle@, at as int),
{
    let total = hay.len();
    let mut k: usize = 0;
    while k < needle.len()
        invariant
            k <= needle@.len(),
            at + needle@.len() <= hay@.len() == total,
            forall|j: int|
                0 <= j < k ==> fold_byte(#[trigger] hay@[at + j]) == fold_byte(needle@[j]),
        decreases needle@.len() - k,
    {
        if fold(hay[at + k]) != fold(needle[k]) {
            assert(fold_byte(hay@[at + k]) != fold_byte(needle@[k as int]));
            return false;
        }
        k += 1;
    }
    true
}

/// Adds the matches from byte `from` on.
fn scan_from(text: &str, query: &str, from: usize, out: &mut Vec<Match>)
    ensures
        final(out)@ == continued(old(out)@, encode_utf8(text@), encode_utf8(query@), from as int),
{
    let hay = text.as_bytes();
    let needle = query.as_bytes();
    let n = needle.len();
    let ghost before = out@;
    let ghost all = out@ + hits(hay@, needle@, from as int);
    if n == 0 || n > hay.len() {
        assert(all =~= out@);
        return;
    }
    if out.len() >= MATCH_CAP {
        return;
    }
    let total = hay.len();
    let last = total - n;
    let mut i: usize = from;
    while i <= last
        invariant
            0 < n == needle@.len() <= hay@.len() == total,
            before == old(out)@,
            last == hay@.len() - n,
            before.len() < MATCH_CAP,
            out@.len() <= MATCH_CAP,
            hay@ == encode_utf8(text@),
            needle@ == encode_utf8(query@),
            all == before + hits(hay@, needle@, from as int),
            all == out@ + hits(hay@, needle@, i as int),
        decreases hay@.len() - i,
    {
        if out.len() >= MATCH_CAP {
            assert(out@ =~= capped(all));
            return;
        }
        if is_at(hay, needle, i) {
            let ghost was = out@;
            let m = Match { start: i, end: i + n };
            out.push(m);
            proof {
                assert(was.push(m) + hits(hay@, needle@, i + n) =~= was + (seq![
                    spanning(i as int, n as int),
                ] + hits(hay@, needle@, i + n)));
            }
            if total - i - n < n {
                assert(hits(hay@, needle@, i + n) =~= Seq::<Match>::empty());
                assert(all =~= out@);
                return;
            }
            i = i + n;
        } else {
            if i == last {
                assert(hits(hay@, needle@, i + 1) =~= Seq::<Match>::empty());
                assert(all =~= out@);
                return;
            }
            i = i + 1;
        }
    }
    assert(hits(hay@, needle@, i as int) =~= Seq::<Match>::empty());
    assert(all =~= out@);
}

/// The matches that touch the bytes from `from` up to `to`, as a range of indices.
pub fn matches_in_window(matches: &[Match], from: usize, to: usize) -> (r: core::ops::Range<usize>)
    requires
        in_order(matches@),
    ensures
        r.start <= r.end <= matches@.len(),
        // Everything before the range ends at or before the window,
        forall|i: int| 0 <= i < r.start ==> (#[trigger] matches@[i]).end <= from,
        // everything from its start on ends after the window's start,
        forall|i: int| r.start <= i < matches@.len() ==> (#[trigger] matches@[i]).end > from,
        // and the range goes on as long as matches start before the window's end.
        forall|i: int| r.start <= i < r.end ==> (#[trigger] matches@[i]).start < to,
        forall|i: int| r.end <= i < matches@.len() ==> (#[trigger] matches@[i]).start >= to,
{
    let lo = first_ending_after(matches, from);
    let hi = first_starting_at(matches, to);
    if hi < lo {
        assert forall|i: int| lo <= i < matches@.len() implies (#[trigger] matches@[i]).start
            >= to by {
            assert(matches@[hi as int].start >= to);
            assert(matches@[hi as int].end <= matches@[i].start);
        }
        lo..lo
    } else {
        lo..hi
    }
}

fn first_ending_after(matches: &[Match], from: usize) -> (r: usize)
    requires
        in_order(matches@),
    ensures
        r <= matches@.len(),
        forall|i: int| 0 <= i < r ==> (#[trigger] matches@[i]).end <= from,
        forall|i: int| r <= i < matches@.len() ==> (#[trigger] matches@[i]).end > from,
{
    let mut lo: usize = 0;
    let mut hi: usize = matches.len();
    while lo < hi
        invariant
            lo <= hi <= matches@.len(),
            in_order(matches@),
            forall|i: int| 0 <= i < lo ==> (#[trigger] matches@[i]).end <= from,
            forall|i: int| hi <= i < matches@.len() ==> (#[trigger] matches@[i]).end > from,
        decreases hi - lo,
    {
        let mid = lo + (hi - lo) / 2;
        if matches[mid].end <= from {
            assert forall|i: int| 0 <= i < mid + 1 implies (#[trigger] matches@[i]).end <= from by {
                if i < mid {
                    assert(matches@[i].end <= matches@[mid as int].start);
                }
            }
            lo = mid + 1;
        } else {
            assert forall|i: int| mid <= i < matches@.len() implies (#[trigger] matches@[i]).end
                > from by {
                if i > mid {
                    assert(matches@[mid as int].end <= matches@[i].start);
                }
            }
            hi = mid;
        }
    }
    lo
}

fn first_starting_at(matches: &[Match], to: usize) -> (r: usize)
    requires
        in_order(matches@),
    ensures
        r <= matches@.len(),
        forall|i: int| 0 <= i < r ==> (#[trigger] matches@[i]).start < to,
        forall|i: int| r <= i < matches@.len() ==> (#[trigger] matches@[i]).start >= to,
{
    let mut lo: usize = 0;
    let mut hi: usize = matches.len();
    while lo < hi
        invariant
            lo <= hi <= matches@.len(),
            in_order(matches@),
            forall|i: int| 0 <= i < lo ==> (#[trigger] matches@[i]).start < to,
            forall|i: int| hi <= i < matches@.len() ==> (#[trigger] matches@[i]).start >= to,
        decreases hi - lo,
    {
        let mid = lo + (hi - lo) / 2;
        if matches[mid].start < to {
            assert forall|i: int| 0 <= i < mid + 1 implies (#[trigger] matches@[i]).start < to by {
                if i < mid {
                    assert(matches@[i].end <= matches@[mid as int].start);
                }
            }
            lo = mid + 1;
        } else {
            assert forall|i: int| mid <= i < matches@.len() implies (#[trigger] matches@[i]).start
                >= to by {
                if i > mid {
                    assert(matches@[mid as int].end <= matches@[i].start);
                }
            }
            hi = mid;
        }
    }
    lo
}

/// The selected match one step on, around the end. With none selected, the first or the last.
pub fn step_match(cur: Option<usize>, count: usize, forward: bool) -> (r: Option<usize>)
    ensures
        match r {
            Some(i) => stepped(cur, count as int, forward) == Some(i as int) && i < count,
            None => stepped(cur, count as int, forward) is None,
        },
{
    if count == 0 {
        return None;
    }
    match (cur, forward) {
        (None, true) => Some(0),
        (None, false) => Some(count - 1),
        (Some(i), true) => Some(((i as u128 + 1) % count as u128) as usize),
        (Some(i), false) => Some(((i as u128 + count as u128 - 1) % count as u128) as usize),
    }
}

/// The selected match, where there are only `count`.
pub fn clamp_current(cur: Option<usize>, count: usize) -> (r: Option<usize>)
    ensures
        match r {
            Some(i) => clamped(cur, count as int) == Some(i as int) && i < count,
            None => clamped(cur, count as int) is None,
        },
{
    match cur {
        None => None,
        Some(i) => if count == 0 {
            None
        } else if i < count {
            Some(i)
        } else {
            Some(count - 1)
        },
    }
}

// ---------------------------------------------------------------------------------------------
// Laws
// ---------------------------------------------------------------------------------------------

/// Where the search of a text stops looking.
spec fn stop(text: Seq<u8>, query: Seq<u8>, from: int) -> int
    decreases text.len() - from,
{
    if query.len() == 0 || from < 0 || from + query.len() > text.len() {
        from
    } else if stands_at(text, query, from) {
        stop(text, query, from + query.len())
    } else {
        stop(text, query, from + 1)
    }
}

/// Every match lies where it was looked for, covers the query, and ends within the text.
proof fn lemma_hits_shape(text: Seq<u8>, query: Seq<u8>, from: int)
    requires
        0 <= from,
        text.len() <= usize::MAX,
    ensures
        forall|i: int|
            0 <= i < hits(text, query, from).len() ==> {
                let m = #[trigger] hits(text, query, from)[i];
                &&& from <= m.start
                &&& m.end == m.start + query.len()
                &&& m.end <= text.len()
                &&& stands_at(text, query, m.start as int)
            },
        in_order(hits(text, query, from)),
    decreases text.len() - from,
{
    let all = hits(text, query, from);
    if query.len() == 0 || from + query.len() > text.len() {
    } else if stands_at(text, query, from) {
        let rest = hits(text, query, from + query.len());
        lemma_hits_shape(text, query, from + query.len());
        assert forall|i: int| 0 <= i < all.len() implies {
            let m = #[trigger] all[i];
            &&& from <= m.start
            &&& m.end == m.start + query.len()
            &&& m.end <= text.len()
            &&& stands_at(text, query, m.start as int)
        } by {
            if i > 0 {
                assert(all[i] == rest[i - 1]);
            }
        }
        assert forall|i: int, j: int| 0 <= i < j < all.len() implies (#[trigger] all[i]).end <= (
        #[trigger] all[j]).start by {
            assert(all[j] == rest[j - 1]);
            if i > 0 {
                assert(all[i] == rest[i - 1]);
            }
        }
    } else {
        lemma_hits_shape(text, query, from + 1);
    }
}

/// The search of the longer text goes on where that of the shorter one stopped.
proof fn lemma_hits_append(a: Seq<u8>, b: Seq<u8>, query: Seq<u8>, from: int)
    requires
        0 <= from,
        query.len() > 0,
    ensures
        hits(a + b, query, from) == hits(a, query, from) + hits(a + b, query, stop(a, query, from)),
    decreases a.len() - from,
{
    let t = a + b;
    if from + query.len() > a.len() {
        assert(hits(a, query, from) + hits(t, query, from) =~= hits(t, query, from));
    } else {
        assert(stands_at(t, query, from) == stands_at(a, query, from)) by {
            assert forall|k: int| 0 <= k < query.len() implies #[trigger] t[from + k] == a[from
                + k] by {}
            if stands_at(t, query, from) {
                assert forall|k: int| 0 <= k < query.len() implies fold_byte(
                    #[trigger] a[from + k],
                ) == fold_byte(query[k]) by {
                    assert(t[from + k] == a[from + k]);
                }
            }
        }
        if stands_at(a, query, from) {
            lemma_hits_append(a, b, query, from + query.len());
            let head = seq![spanning(from, query.len() as int)];
            assert(head + (hits(a, query, from + query.len()) + hits(
                t,
                query,
                stop(a, query, from),
            )) =~= (head + hits(a, query, from + query.len())) + hits(
                t,
                query,
                stop(a, query, from),
            ));
        } else {
            lemma_hits_append(a, b, query, from + 1);
        }
    }
}

/// The search stops at the end of the last match, or where the query no longer fits.
proof fn lemma_stop(a: Seq<u8>, query: Seq<u8>, from: int)
    requires
        0 <= from,
        query.len() > 0,
        a.len() <= usize::MAX,
    ensures
        ({
            let h = hits(a, query, from);
            let last_end = if h.len() == 0 {
                from
            } else {
                h.last().end as int
            };
            let fit = a.len() - query.len() + 1;
            stop(a, query, from) == (if last_end > fit {
                last_end
            } else {
                fit
            })
        }),
    decreases a.len() - from,
{
    if from + query.len() > a.len() {
    } else if stands_at(a, query, from) {
        lemma_stop(a, query, from + query.len());
        let rest = hits(a, query, from + query.len());
        let all = hits(a, query, from);
        if rest.len() > 0 {
            assert(all.last() == rest.last());
        } else {
            assert(all.last() == spanning(from, query.len() as int));
        }
    } else {
        lemma_stop(a, query, from + 1);
        let h = hits(a, query, from + 1);
        lemma_hits_shape(a, query, from + 1);
        if h.len() > 0 {
            assert(h.last() == h[h.len() - 1]);
        }
    }
}

/// Searching what was appended comes to the same as searching the whole text again, with a match
/// across the seam and at the limit too.
pub proof fn extending_equals_searching_again(text: Seq<u8>, more: Seq<u8>, query: Seq<u8>)
    requires
        text.len() + more.len() <= usize::MAX,
    ensures
        extended(found(text, query), text + more, query, text.len() as int) == found(
            text + more,
            query,
        ),
{
    let whole = text + more;
    let h = hits(text, query, 0);
    if query.len() == 0 {
        assert(h =~= hits(whole, query, 0));
    } else {
        lemma_hits_append(text, more, query, 0);
        lemma_stop(text, query, 0);
        lemma_hits_shape(text, query, 0);
        let rest = hits(whole, query, stop(text, query, 0));
        if h.len() >= MATCH_CAP {
            assert(capped(h + rest) =~= capped(h));
            assert(found(text, query).len() == MATCH_CAP);
        } else {
            if h.len() > 0 {
                assert(h.last() == h[h.len() - 1]);
            }
            assert(found(text, query) == h);
            assert(resume_at(h, query.len() as int, text.len() as int) == stop(text, query, 0));
        }
    }
}

/// Matches come in order, do not overlap, cover the query, and lie within the text.
pub proof fn matches_are_in_order(text: Seq<u8>, query: Seq<u8>)
    requires
        text.len() <= usize::MAX,
    ensures
        in_order(found(text, query)),
        found(text, query).len() <= MATCH_CAP,
        forall|i: int|
            0 <= i < found(text, query).len() ==> {
                let m = #[trigger] found(text, query)[i];
                &&& m.end == m.start + query.len()
                &&& m.end <= text.len()
                &&& stands_at(text, query, m.start as int)
            },
{
    lemma_hits_shape(text, query, 0);
    let h = hits(text, query, 0);
    let f = found(text, query);
    assert forall|i: int| 0 <= i < f.len() implies #[trigger] f[i] == h[i] by {}
}

/// The leading byte of a folded character is of the same width.
proof fn lemma_fold_keeps_width(a: u8, b: u8)
    requires
        fold_byte(a) == fold_byte(b),
    ensures
        is_leading_byte_width_1(a) == is_leading_byte_width_1(b),
        is_leading_byte_width_2(a) == is_leading_byte_width_2(b),
        is_leading_byte_width_3(a) == is_leading_byte_width_3(b),
        is_leading_byte_width_4(a) == is_leading_byte_width_4(b),
        is_continuation_byte(a) == is_continuation_byte(b),
{
}

/// Where a valid text begins with a valid query, case aside, the query ends between characters.
proof fn lemma_prefix_ends_between_chars(text: Seq<u8>, query: Seq<u8>)
    requires
        valid_utf8(text),
        valid_utf8(query),
        stands_at(text, query, 0),
    ensures
        is_char_boundary(text, query.len() as int),
    decreases query.len(),
{
    if query.len() == 0 {
    } else {
        assert(fold_byte(text[0int + 0int]) == fold_byte(query[0]));
        lemma_fold_keeps_width(text[0], query[0]);
        let w = length_of_first_scalar(query);
        assert(w == length_of_first_scalar(text));
        let t = pop_first_scalar(text);
        let q = pop_first_scalar(query);
        assert forall|k: int| 0 <= k < q.len() implies fold_byte(#[trigger] t[0int + k]) == fold_byte(
            q[k],
        ) by {
            assert(fold_byte(text[0int + (w + k)]) == fold_byte(query[w + k]));
        }
        lemma_prefix_ends_between_chars(t, q);
    }
}

/// No match cuts a character: each starts and ends between two.
pub proof fn matches_keep_characters_whole(text: Seq<char>, query: Seq<char>, at: int)
    requires
        query.len() > 0,
        stands_at(encode_utf8(text), encode_utf8(query), at),
    ensures
        is_char_boundary(encode_utf8(text), at),
        is_char_boundary(encode_utf8(text), at + encode_utf8(query).len()),
{
    let t = encode_utf8(text);
    let q = encode_utf8(query);
    encode_utf8_valid_utf8(text);
    encode_utf8_valid_utf8(query);
    encode_utf8_first_scalar(query);
    assert(q.len() > 0);
    is_char_boundary_start_end_of_seq(q);
    is_char_boundary_iff_not_is_continuation_byte(q, 0);
    assert(fold_byte(t[at + 0int]) == fold_byte(q[0]));
    lemma_fold_keeps_width(t[at], q[0]);
    is_char_boundary_iff_not_is_continuation_byte(t, at);
    valid_utf8_split(t, at);
    let rest = t.subrange(at, t.len() as int);
    assert forall|k: int| 0 <= k < q.len() implies fold_byte(#[trigger] rest[0int + k]) == fold_byte(
        q[k],
    ) by {
        assert(fold_byte(t[at + k]) == fold_byte(q[k]));
    }
    lemma_prefix_ends_between_chars(rest, q);
    lemma_boundary_in_suffix(t, at, q.len() as int);
}

/// A boundary of a suffix is a boundary of the whole.
pub proof fn lemma_boundary_in_suffix(t: Seq<u8>, at: int, k: int)
    requires
        valid_utf8(t),
        is_char_boundary(t, at),
        0 <= at <= t.len(),
        0 <= k <= t.len() - at,
        is_char_boundary(t.subrange(at, t.len() as int), k),
    ensures
        is_char_boundary(t, at + k),
{
    let rest = t.subrange(at, t.len() as int);
    valid_utf8_split(t, at);
    if at + k < t.len() {
        is_char_boundary_iff_not_is_continuation_byte(rest, k);
        assert(rest[k] == t[at + k]);
        is_char_boundary_iff_not_is_continuation_byte(t, at + k);
    } else {
        is_char_boundary_start_end_of_seq(t);
    }
}

/// One step on and one step back lead to the same match.
pub proof fn stepping_back_undoes_a_step(i: usize, count: int)
    requires
        i < count <= usize::MAX,
    ensures
        stepped(Some(stepped(Some(i), count, true)->0 as usize), count, false) == Some(i as int),
        stepped(Some(stepped(Some(i), count, false)->0 as usize), count, true) == Some(i as int),
{
    let f = (i + 1) % count;
    let b = (i + count - 1) % count;
    if i + 1 < count {
        vstd::arithmetic::div_mod::lemma_small_mod((i + 1) as nat, count as nat);
        vstd::arithmetic::div_mod::lemma_mod_add_multiples_vanish(i as int, count);
    } else {
        vstd::arithmetic::div_mod::lemma_mod_self_0(count);
        vstd::arithmetic::div_mod::lemma_small_mod((count - 1) as nat, count as nat);
    }
    vstd::arithmetic::div_mod::lemma_small_mod(i as nat, count as nat);
    if i == 0 {
        vstd::arithmetic::div_mod::lemma_small_mod((count - 1) as nat, count as nat);
        vstd::arithmetic::div_mod::lemma_mod_self_0(count);
    } else {
        vstd::arithmetic::div_mod::lemma_mod_add_multiples_vanish((i - 1) as int, count);
        vstd::arithmetic::div_mod::lemma_small_mod((i - 1) as nat, count as nat);
    }
}

proof fn lemma_hits_cover(text: Seq<u8>, query: Seq<u8>, from: int, p: int) -> (i: int)
    requires
        0 <= from <= p,
        query.len() > 0,
        text.len() <= usize::MAX,
        stands_at(text, query, p),
    ensures
        0 <= i < hits(text, query, from).len(),
        hits(text, query, from)[i].start <= p < hits(text, query, from)[i].end,
    decreases text.len() - from,
{
    if stands_at(text, query, from) {
        if p < from + query.len() {
            0
        } else {
            let i = lemma_hits_cover(text, query, from + query.len(), p);
            assert(hits(text, query, from)[i + 1] == hits(text, query, from + query.len())[i]);
            i + 1
        }
    } else {
        lemma_hits_cover(text, query, from + 1, p)
    }
}

/// A search finds every place: where each byte of the text equals the byte of the query, or differs
/// from it only by the case of an ASCII letter, a match is kept that begins there or reaches over
/// it from before. Only what lies behind the last of as many matches as are kept is left out. The
/// first match begins no later than any such place.
pub proof fn every_place_is_found(text: Seq<u8>, query: Seq<u8>, p: int)
    requires
        query.len() > 0,
        text.len() <= usize::MAX,
        0 <= p,
        p + query.len() <= text.len(),
        forall|k: int|
            0 <= k < query.len() ==> (#[trigger] text[p + k]) == query[k] || (65 <= text[p + k]
                <= 90 && query[k] == text[p + k] + 32) || (97 <= text[p + k] <= 122 && text[p + k]
                == query[k] + 32),
    ensures
        found(text, query).len() > 0,
        found(text, query)[0].start <= p,
        found(text, query).len() < 100_000 || p < found(text, query).last().end ==> exists|i: int|
            0 <= i < found(text, query).len() && (#[trigger] found(text, query)[i]).start <= p
                < found(text, query)[i].end,
{
    let h = hits(text, query, 0);
    let f = found(text, query);
    assert forall|k: int| 0 <= k < query.len() implies fold_byte(#[trigger] text[p + k])
        == fold_byte(query[k]) by {
        assert(text[p + k] == query[k] || (65 <= text[p + k] <= 90 && query[k] == text[p + k] + 32)
            || (97 <= text[p + k] <= 122 && text[p + k] == query[k] + 32));
    }
    let i = lemma_hits_cover(text, query, 0, p);
    lemma_hits_shape(text, query, 0);
    assert(f[0] == h[0]);
    if i > 0 {
        assert(h[0].end <= h[i].start);
    }
    if i < f.len() {
        assert(f[i] == h[i]);
    } else {
        assert(f.last() == h[MATCH_CAP - 1]);
        assert(h[MATCH_CAP - 1].end <= h[i].start);
    }
}

/// Every match is a place where the query stands, case aside, byte for byte; matches do not
/// overlap and come in the order of the text; nothing matches an empty query.
pub proof fn every_match_is_such_a_place(text: Seq<u8>, query: Seq<u8>, i: int, k: int)
    requires
        text.len() <= usize::MAX,
        0 <= i < found(text, query).len(),
        0 <= k < query.len(),
    ensures
        found(text, query)[i].end == found(text, query)[i].start + query.len(),
        found(text, query)[i].end <= text.len(),
        ({
            let t = text[found(text, query)[i].start + k];
            let q = query[k];
            t == q || (65 <= t <= 90 && q == t + 32) || (97 <= t <= 122 && t == q + 32)
        }),
        i > 0 ==> found(text, query)[i - 1].end <= found(text, query)[i].start,
        found(text, query).len() <= 100_000,
        found(text, seq![]) == Seq::<Match>::empty(),
{
    matches_are_in_order(text, query);
    let m = found(text, query)[i];
    assert(stands_at(text, query, m.start as int));
    assert(fold_byte(text[m.start + k]) == fold_byte(query[k]));
}

/// Stepping goes to the neighbour, and from either end to the other end; with none selected it
/// begins at the end that it comes from.
pub proof fn a_step_goes_to_the_neighbour(i: usize, count: int)
    requires
        0 <= count <= usize::MAX,
    ensures
        stepped(None, 0, true) is None && stepped(None, 0, false) is None,
        stepped(Some(i), 0, true) is None && stepped(Some(i), 0, false) is None,
        count > 0 ==> stepped(None, count, true) == Some(0int) && stepped(None, count, false)
            == Some(count - 1),
        i + 1 < count ==> stepped(Some(i), count, true) == Some(i + 1),
        i + 1 == count ==> stepped(Some(i), count, true) == Some(0int),
        0 < i < count ==> stepped(Some(i), count, false) == Some(i - 1),
        0 == i < count ==> stepped(Some(i), count, false) == Some(count - 1),
{
    if i + 1 < count {
        vstd::arithmetic::div_mod::lemma_small_mod((i + 1) as nat, count as nat);
    } else if i + 1 == count {
        vstd::arithmetic::div_mod::lemma_mod_self_0(count);
    }
    if 0 < i < count {
        vstd::arithmetic::div_mod::lemma_mod_add_multiples_vanish((i - 1) as int, count);
        vstd::arithmetic::div_mod::lemma_small_mod((i - 1) as nat, count as nat);
    } else if 0 == i < count {
        vstd::arithmetic::div_mod::lemma_small_mod((count - 1) as nat, count as nat);
    }
}

/// The selected match stays selected as long as it is there; otherwise the last one is, if any.
pub proof fn a_selection_stays_where_it_can(i: usize, count: int)
    requires
        0 <= count,
    ensures
        clamped(None, count) is None,
        i < count ==> clamped(Some(i), count) == Some(i as int),
        0 < count <= i ==> clamped(Some(i), count) == Some(count - 1),
        clamped(Some(i), 0) is None,
{
}

} // verus!
