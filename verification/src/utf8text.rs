//! Facts about text and its UTF-8 bytes.

use vstd::prelude::*;
use vstd::utf8::*;

verus! {

/// The bytes of two texts one after the other.
pub proof fn lemma_encode_concat(a: Seq<char>, b: Seq<char>)
    ensures
        encode_utf8(a + b) == encode_utf8(a) + encode_utf8(b),
    decreases a.len(),
{
    if a.len() == 0 {
        assert(a + b =~= b);
        assert(encode_utf8(a) + encode_utf8(b) =~= encode_utf8(b));
    } else {
        assert((a + b).drop_first() =~= a.drop_first() + b);
        lemma_encode_concat(a.drop_first(), b);
        assert(encode_utf8(a + b) =~= encode_utf8(a) + encode_utf8(b));
    }
}

/// The byte offset of the `k`-th character.
pub open spec fn offset_of(s: Seq<char>, k: int) -> int {
    encode_utf8(s.take(k)).len() as int
}

/// The bytes from the `k`-th character on are those of the characters from there on.
pub proof fn lemma_offset_of(s: Seq<char>, k: int)
    requires
        0 <= k <= s.len(),
    ensures
        0 <= offset_of(s, k) <= encode_utf8(s).len(),
        encode_utf8(s).subrange(offset_of(s, k), encode_utf8(s).len() as int) == encode_utf8(
            s.skip(k),
        ),
        encode_utf8(s).subrange(0, offset_of(s, k)) == encode_utf8(s.take(k)),
{
    assert(s.take(k) + s.skip(k) =~= s);
    lemma_encode_concat(s.take(k), s.skip(k));
    let all = encode_utf8(s);
    assert(all.subrange(offset_of(s, k), all.len() as int) =~= encode_utf8(s.skip(k)));
    assert(all.subrange(0, offset_of(s, k)) =~= encode_utf8(s.take(k)));
}

/// Every character takes at least one byte.
pub proof fn lemma_offset_step(s: Seq<char>, k: int)
    requires
        0 <= k < s.len(),
    ensures
        offset_of(s, k + 1) == offset_of(s, k) + encode_scalar(s[k] as u32).len(),
        offset_of(s, k + 1) > offset_of(s, k),
{
    assert(s.take(k + 1) =~= s.take(k) + seq![s[k]]);
    lemma_encode_concat(s.take(k), seq![s[k]]);
    assert(seq![s[k]].drop_first() =~= Seq::<char>::empty());
    reveal_with_fuel(encode_utf8, 2);
    assert(encode_utf8(seq![s[k]]) =~= encode_scalar(s[k] as u32));
}

/// Later characters lie at later offsets.
pub proof fn lemma_offset_monotonic(s: Seq<char>, i: int, j: int)
    requires
        0 <= i < j <= s.len(),
    ensures
        offset_of(s, i) < offset_of(s, j),
    decreases j - i,
{
    lemma_offset_step(s, j - 1);
    if i < j - 1 {
        lemma_offset_monotonic(s, i, j - 1);
    }
}

/// The offset of a character lies between characters.
pub proof fn lemma_offset_is_boundary(s: Seq<char>, k: int)
    requires
        0 <= k <= s.len(),
    ensures
        is_char_boundary(encode_utf8(s), offset_of(s, k)),
    decreases k,
{
    encode_utf8_valid_utf8(s);
    if k == 0 {
        assert(s.take(0) =~= Seq::<char>::empty());
    } else {
        let rest = s.drop_first();
        encode_utf8_first_scalar(s);
        lemma_offset_is_boundary(rest, k - 1);
        let all = encode_utf8(s);
        assert(pop_first_scalar(all) =~= encode_utf8(rest));
        assert(s.take(k) =~= seq![s[0]] + rest.take(k - 1));
        lemma_encode_concat(seq![s[0]], rest.take(k - 1));
        assert(seq![s[0]].drop_first() =~= Seq::<char>::empty());
        reveal_with_fuel(encode_utf8, 2);
        assert(encode_utf8(seq![s[0]]) =~= encode_scalar(s[0] as u32));
        lemma_offset_of(s, k);
    }
}

/// What lies between characters is the offset of one.
pub proof fn lemma_boundary_is_offset(s: Seq<char>, at: int) -> (k: int)
    requires
        is_char_boundary(encode_utf8(s), at),
        0 <= at <= encode_utf8(s).len(),
    ensures
        0 <= k <= s.len(),
        offset_of(s, k) == at,
    decreases s.len(),
{
    encode_utf8_valid_utf8(s);
    if at == 0 {
        assert(s.take(0) =~= Seq::<char>::empty());
        0
    } else {
        let rest = s.drop_first();
        let all = encode_utf8(s);
        encode_utf8_first_scalar(s);
        let w = length_of_first_scalar(all);
        assert(pop_first_scalar(all) =~= encode_utf8(rest));
        encode_utf8_valid_utf8(rest);
        reveal_with_fuel(is_char_boundary, 2);
        let k = lemma_boundary_is_offset(rest, at - w);
        assert(s.take(k + 1) =~= seq![s[0]] + rest.take(k));
        lemma_encode_concat(seq![s[0]], rest.take(k));
        assert(seq![s[0]].drop_first() =~= Seq::<char>::empty());
        reveal_with_fuel(encode_utf8, 2);
        assert(encode_utf8(seq![s[0]]) =~= encode_scalar(s[0] as u32));
        k + 1
    }
}

/// An ASCII byte is a whole character: there is a boundary before it and one after it.
pub proof fn lemma_ascii_is_whole(b: Seq<u8>, i: int)
    requires
        valid_utf8(b),
        0 <= i < b.len(),
        b[i] <= 0x7f,
    ensures
        is_char_boundary(b, i),
        is_char_boundary(b, i + 1),
{
    is_char_boundary_iff_not_is_continuation_byte(b, i);
    valid_utf8_split(b, i);
    let rest = b.subrange(i, b.len() as int);
    reveal_with_fuel(is_char_boundary, 2);
    assert(length_of_first_scalar(rest) == 1);
    assert(is_char_boundary(rest, 1));
    crate::search::lemma_boundary_in_suffix(b, i, 1);
}

/// A boundary of a text is one of every prefix that holds it.
pub proof fn lemma_boundary_in_prefix(b: Seq<u8>, at: int, end: int)
    requires
        valid_utf8(b),
        0 <= at <= end <= b.len(),
        is_char_boundary(b, at),
        is_char_boundary(b, end),
    ensures
        valid_utf8(b.subrange(0, end)),
        is_char_boundary(b.subrange(0, end), at),
{
    valid_utf8_split(b, end);
    let h = b.subrange(0, end);
    if at < end {
        is_char_boundary_iff_not_is_continuation_byte(b, at);
        assert(h[at] == b[at]);
        is_char_boundary_iff_not_is_continuation_byte(h, at);
    } else {
        is_char_boundary_start_end_of_seq(h);
    }
}

/// The part of a text from byte `start` up to byte `end`.
pub fn part(t: &str, start: usize, end: usize) -> (r: &str)
    requires
        start <= end <= encode_utf8(t@).len(),
        is_char_boundary(encode_utf8(t@), start as int),
        is_char_boundary(encode_utf8(t@), end as int),
    ensures
        encode_utf8(r@) == encode_utf8(t@).subrange(start as int, end as int),
{
    let ghost b = encode_utf8(t@);
    proof {
        encode_utf8_valid_utf8(t@);
        lemma_boundary_in_prefix(b, start as int, end as int);
    }
    let (head, _tail) = t.split_at(end);
    let (_front, mid) = head.split_at(start);
    assert(b.subrange(0, end as int).subrange(start as int, end as int) =~= b.subrange(
        start as int,
        end as int,
    ));
    mid
}

} // verus!
