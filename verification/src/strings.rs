//! Character-level string operations shared by the rest of the library.

use vstd::prelude::*;
use vstd::utf8::*;

verus! {

/// `String::push` appends one character.
pub assume_specification[ String::push ](s: &mut String, c: char)
    ensures
        final(s)@ == old(s)@.push(c),
;

/// `String::push_str` appends a whole string.
pub assume_specification[ String::push_str ](s: &mut String, t: &str)
    ensures
        final(s)@ == old(s)@ + t@,
;

/// The contents of a sequence of strings.
pub open spec fn views(v: Seq<String>) -> Seq<Seq<char>> {
    v.map_values(|s: String| s@)
}

/// Appending a string appends its contents.
pub broadcast proof fn lemma_views_push(v: Seq<String>, s: String)
    ensures
        #[trigger] views(v.push(s)) == views(v).push(s@),
{
    assert(views(v.push(s)) =~= views(v).push(s@));
}

/// The characters of `s`, in order.
pub fn chars_of(s: &str) -> (r: Vec<char>)
    ensures
        r@ == s@,
{
    let mut out: Vec<char> = Vec::new();
    for c in it: s.chars()
        invariant
            it.seq() == s@,
            out@ == s@.subrange(0, it.index() as int),
    {
        out.push(c);
        assert(out@ =~= s@.subrange(0, it.index() as int + 1));
    }
    assert(out@ =~= s@);
    out
}

/// The string made of the given characters.
pub fn string_of(cs: &[char]) -> (r: String)
    ensures
        r@ == cs@,
{
    let mut out = String::new();
    let mut i: usize = 0;
    while i < cs.len()
        invariant
            i <= cs@.len(),
            out@ == cs@.subrange(0, i as int),
        decreases cs@.len() - i,
    {
        out.push(cs[i]);
        i += 1;
        assert(out@ =~= cs@.subrange(0, i as int));
    }
    assert(out@ =~= cs@);
    out
}

/// A copy of every string.
pub fn copy_all(v: &[String]) -> (r: Vec<String>)
    ensures
        views(r@) == views(v@),
{
    let mut out: Vec<String> = Vec::new();
    let mut i: usize = 0;
    while i < v.len()
        invariant
            i <= v@.len(),
            out@.len() == i,
            forall|k: int| 0 <= k < i ==> (#[trigger] out@[k])@ == v@[k]@,
        decreases v@.len() - i,
    {
        out.push(v[i].clone());
        i += 1;
    }
    assert(views(out@) =~= views(v@));
    out
}

/// Equal encodings come from equal strings.
pub proof fn lemma_encode_injective(a: Seq<char>, b: Seq<char>)
    ensures
        encode_utf8(a) == encode_utf8(b) ==> a == b,
{
    encode_utf8_decode_utf8(a);
    encode_utf8_decode_utf8(b);
}

/// A text is empty exactly if it has no bytes.
pub proof fn lemma_empty_text(s: Seq<char>)
    ensures
        (encode_utf8(s).len() == 0) == (s.len() == 0),
{
    if encode_utf8(s).len() == 0 {
        assert(encode_utf8(s) =~= encode_utf8(Seq::<char>::empty()));
        lemma_encode_injective(s, Seq::<char>::empty());
    } else {
        if s.len() == 0 {
            assert(s =~= Seq::<char>::empty());
        }
    }
}

/// Two strings hold the same characters.
pub fn same_str(a: &str, b: &str) -> (r: bool)
    ensures
        r == (a@ == b@),
{
    let x = a.as_bytes();
    let y = b.as_bytes();
    if x.len() != y.len() {
        return false;
    }
    let mut i: usize = 0;
    while i < x.len()
        invariant
            i <= x@.len(),
            x@.len() == y@.len(),
            x@ == encode_utf8(a@),
            y@ == encode_utf8(b@),
            x@.subrange(0, i as int) == y@.subrange(0, i as int),
        decreases x@.len() - i,
    {
        if x[i] != y[i] {
            return false;
        }
        i += 1;
        assert(x@.subrange(0, i as int) =~= x@.subrange(0, i as int - 1).push(x@[i as int - 1]));
        assert(y@.subrange(0, i as int) =~= y@.subrange(0, i as int - 1).push(y@[i as int - 1]));
    }
    proof {
        assert(x@.subrange(0, i as int) =~= x@);
        assert(y@.subrange(0, i as int) =~= y@);
        lemma_encode_injective(a@, b@);
    }
    true
}

/// Lexicographic order of byte strings.
pub open spec fn bytes_less(a: Seq<u8>, b: Seq<u8>) -> bool
    decreases a.len(),
{
    if b.len() == 0 {
        false
    } else if a.len() == 0 {
        true
    } else if a[0] != b[0] {
        a[0] < b[0]
    } else {
        bytes_less(a.drop_first(), b.drop_first())
    }
}

/// `a` sorts strictly before `b` by their UTF-8 bytes.
pub fn str_less(a: &str, b: &str) -> (r: bool)
    ensures
        r == bytes_less(encode_utf8(a@), encode_utf8(b@)),
{
    let x = a.as_bytes();
    let y = b.as_bytes();
    let mut i: usize = 0;
    assert(x@.skip(0) =~= x@);
    assert(y@.skip(0) =~= y@);
    while i < x.len() && i < y.len() && x[i] == y[i]
        invariant
            i <= x@.len(),
            i <= y@.len(),
            x@ == encode_utf8(a@),
            y@ == encode_utf8(b@),
            bytes_less(x@, y@) == bytes_less(x@.skip(i as int), y@.skip(i as int)),
        decreases x@.len() - i,
    {
        proof {
            let p = x@.skip(i as int);
            let q = y@.skip(i as int);
            assert(p.drop_first() =~= x@.skip(i as int + 1));
            assert(q.drop_first() =~= y@.skip(i as int + 1));
        }
        i += 1;
    }
    if i >= y.len() {
        false
    } else if i >= x.len() {
        true
    } else {
        x[i] < y[i]
    }
}

/// The byte order of strings is total: one of two different byte strings comes first.
pub proof fn lemma_bytes_less_total(a: Seq<u8>, b: Seq<u8>)
    ensures
        !(bytes_less(a, b) && bytes_less(b, a)),
        a != b ==> bytes_less(a, b) || bytes_less(b, a),
        !bytes_less(a, a),
    decreases a.len(),
{
    if a.len() > 0 && b.len() > 0 && a[0] == b[0] {
        lemma_bytes_less_total(a.drop_first(), b.drop_first());
        if a.drop_first() == b.drop_first() {
            assert(a =~= seq![a[0]] + a.drop_first());
            assert(b =~= seq![b[0]] + b.drop_first());
        }
    }
    if a.len() == 0 && b.len() == 0 {
        assert(a =~= b);
    }
    lemma_bytes_less_irreflexive(a);
}

proof fn lemma_bytes_less_irreflexive(a: Seq<u8>)
    ensures
        !bytes_less(a, a),
    decreases a.len(),
{
    if a.len() > 0 {
        lemma_bytes_less_irreflexive(a.drop_first());
    }
}

/// The byte order of strings is transitive.
pub proof fn lemma_bytes_less_trans(a: Seq<u8>, b: Seq<u8>, c: Seq<u8>)
    requires
        bytes_less(a, b),
        bytes_less(b, c),
    ensures
        bytes_less(a, c),
    decreases a.len(),
{
    if a.len() > 0 && b.len() > 0 && c.len() > 0 && a[0] == b[0] && b[0] == c[0] {
        lemma_bytes_less_trans(a.drop_first(), b.drop_first(), c.drop_first());
    }
}

// ---------------------------------------------------------------------------------------------
// White space
// ---------------------------------------------------------------------------------------------

/// The characters with the Unicode `White_Space` property.
pub open spec fn white_space(c: char) -> bool {
    ||| '\u{9}' <= c <= '\u{d}'
    ||| c == ' '
    ||| c == '\u{85}'
    ||| c == '\u{a0}'
    ||| c == '\u{1680}'
    ||| '\u{2000}' <= c <= '\u{200a}'
    ||| c == '\u{2028}'
    ||| c == '\u{2029}'
    ||| c == '\u{202f}'
    ||| c == '\u{205f}'
    ||| c == '\u{3000}'
}

/// Whether `c` has the Unicode `White_Space` property.
pub fn is_white_space(c: char) -> (r: bool)
    ensures
        r == white_space(c),
{
    ('\u{9}' <= c && c <= '\u{d}') || c == ' ' || c == '\u{85}' || c == '\u{a0}' || c == '\u{1680}'
        || ('\u{2000}' <= c && c <= '\u{200a}') || c == '\u{2028}' || c == '\u{2029}'
        || c == '\u{202f}' || c == '\u{205f}' || c == '\u{3000}'
}

/// `s` without its leading white space.
pub open spec fn trimmed_start(s: Seq<char>) -> Seq<char>
    decreases s.len(),
{
    if s.len() > 0 && white_space(s[0]) {
        trimmed_start(s.drop_first())
    } else {
        s
    }
}

/// `s` without its trailing white space.
pub open spec fn trimmed_end(s: Seq<char>) -> Seq<char>
    decreases s.len(),
{
    if s.len() > 0 && white_space(s.last()) {
        trimmed_end(s.drop_last())
    } else {
        s
    }
}

/// `s` without white space at either end.
pub open spec fn trimmed(s: Seq<char>) -> Seq<char> {
    trimmed_end(trimmed_start(s))
}

/// `cs` without white space at either end.
pub fn trim_chars(cs: &[char]) -> (r: &[char])
    ensures
        r@ == trimmed(cs@),
{
    let mut lo: usize = 0;
    let mut hi: usize = cs.len();
    assert(cs@.skip(0) =~= cs@);
    while lo < hi && is_white_space(cs[lo])
        invariant
            lo <= hi == cs@.len(),
            trimmed_start(cs@) == trimmed_start(cs@.skip(lo as int)),
        decreases hi - lo,
    {
        assert(cs@.skip(lo as int).drop_first() =~= cs@.skip(lo as int + 1));
        lo += 1;
    }
    assert(trimmed_start(cs@) =~= cs@.subrange(lo as int, hi as int));
    while lo < hi && is_white_space(cs[hi - 1])
        invariant
            lo <= hi <= cs@.len(),
            trimmed(cs@) == trimmed_end(cs@.subrange(lo as int, hi as int)),
        decreases hi - lo,
    {
        assert(cs@.subrange(lo as int, hi as int).drop_last() =~= cs@.subrange(
            lo as int,
            hi as int - 1,
        ));
        hi -= 1;
    }
    vstd::slice::slice_subrange(cs, lo, hi)
}

/// `s` without its trailing white space.
pub fn trim_end(s: &str) -> (r: String)
    ensures
        r@ == trimmed_end(s@),
{
    let cs = chars_of(s);
    let mut hi: usize = cs.len();
    assert(cs@.take(hi as int) =~= cs@);
    while hi > 0 && is_white_space(cs[hi - 1])
        invariant
            hi <= cs@.len(),
            trimmed_end(cs@) == trimmed_end(cs@.take(hi as int)),
        decreases hi,
    {
        assert(cs@.take(hi as int).drop_last() =~= cs@.take(hi as int - 1));
        hi -= 1;
    }
    assert(cs@.subrange(0, hi as int) =~= cs@.take(hi as int));
    string_of(vstd::slice::slice_subrange(cs.as_slice(), 0, hi))
}

/// `s` without white space at either end.
pub fn trim(s: &str) -> (r: String)
    ensures
        r@ == trimmed(s@),
{
    let cs = chars_of(s);
    string_of(trim_chars(cs.as_slice()))
}

// ---------------------------------------------------------------------------------------------
// Splitting and joining
// ---------------------------------------------------------------------------------------------

/// The stretches of `s` between occurrences of `a` and `b`, empty ones too.
pub open spec fn pieces(s: Seq<char>, a: char, b: char) -> Seq<Seq<char>>
    decreases s.len(),
{
    if s.len() == 0 {
        seq![seq![]]
    } else {
        let before = pieces(s.drop_last(), a, b);
        if s.last() == a || s.last() == b {
            before.push(seq![])
        } else {
            before.drop_last().push(before.last().push(s.last()))
        }
    }
}

/// Splits at every `a` and every `b`.
pub fn split_at_either(s: &str, a: char, b: char) -> (r: Vec<String>)
    ensures
        views(r@) == pieces(s@, a, b),
{
    let cs = chars_of(s);
    split_chars(cs.as_slice(), a, b)
}

/// Splits at every `a` and every `b`.
pub fn split_chars(cs: &[char], a: char, b: char) -> (r: Vec<String>)
    ensures
        views(r@) == pieces(cs@, a, b),
{
    let mut done: Vec<String> = Vec::new();
    let mut cur = String::new();
    let mut i: usize = 0;
    assert(views(done@).push(cur@) =~= pieces(cs@.take(0), a, b));
    while i < cs.len()
        invariant
            i <= cs@.len(),
            views(done@).push(cur@) == pieces(cs@.take(i as int), a, b),
        decreases cs@.len() - i,
    {
        broadcast use lemma_views_push;

        let c = cs[i];
        let ghost before = views(done@).push(cur@);
        proof {
            assert(cs@.take(i as int + 1).drop_last() =~= cs@.take(i as int));
            assert(before.drop_last() =~= views(done@));
            assert(before.last() == cur@);
        }
        if c == a || c == b {
            done.push(cur);
            cur = String::new();
        } else {
            cur.push(c);
        }
        i += 1;
    }
    proof {
        lemma_views_push(done@, cur);
        assert(cs@.take(i as int) =~= cs@);
    }
    done.push(cur);
    done
}

/// The parts with `sep` between each two.
pub open spec fn joined(parts: Seq<Seq<char>>, sep: char) -> Seq<char>
    decreases parts.len(),
{
    if parts.len() == 0 {
        seq![]
    } else if parts.len() == 1 {
        parts[0]
    } else {
        joined(parts.drop_last(), sep).push(sep) + parts.last()
    }
}

/// Joins the parts with `sep` between each two.
pub fn join(parts: &[String], sep: char) -> (r: String)
    ensures
        r@ == joined(views(parts@), sep),
{
    let mut out = String::new();
    let mut i: usize = 0;
    assert(views(parts@).take(0) =~= Seq::<Seq<char>>::empty());
    while i < parts.len()
        invariant
            i <= parts@.len(),
            out@ == joined(views(parts@).take(i as int), sep),
        decreases parts@.len() - i,
    {
        let ghost next = views(parts@).take(i as int + 1);
        proof {
            assert(next.drop_last() =~= views(parts@).take(i as int));
            assert(next.last() == parts@[i as int]@);
        }
        if i > 0 {
            out.push(sep);
        }
        let ghost mid = out@;
        out.push_str(parts[i].as_str());
        proof {
            if i == 0 {
                assert(mid =~= Seq::<char>::empty());
                assert(mid + parts@[0]@ =~= parts@[0]@);
            }
        }
        i += 1;
    }
    assert(views(parts@).take(i as int) =~= views(parts@));
    out
}

// ---------------------------------------------------------------------------------------------
// Numbers
// ---------------------------------------------------------------------------------------------

/// An ASCII decimal digit.
pub open spec fn digit(c: char) -> bool {
    '0' <= c <= '9'
}

/// Every character is an ASCII decimal digit.
pub open spec fn all_digits(s: Seq<char>) -> bool {
    forall|i: int| 0 <= i < s.len() ==> digit(#[trigger] s[i])
}

/// The number that a run of decimal digits denotes.
pub open spec fn digits_value(s: Seq<char>) -> int
    decreases s.len(),
{
    if s.len() == 0 {
        0
    } else {
        10 * digits_value(s.drop_last()) + (s.last() as int - '0' as int)
    }
}

/// The integer that `s` spells: an optional sign, then at least one decimal digit, and nothing
/// else.
pub open spec fn int_value(s: Seq<char>) -> Option<int> {
    if s.len() == 0 {
        None
    } else if s[0] == '-' || s[0] == '+' {
        let rest = s.drop_first();
        if rest.len() > 0 && all_digits(rest) {
            Some(
                if s[0] == '-' {
                    -digits_value(rest)
                } else {
                    digits_value(rest)
                },
            )
        } else {
            None
        }
    } else if all_digits(s) {
        Some(digits_value(s))
    } else {
        None
    }
}

/// The integer that `s` spells, when it lies in `lo..=hi`.
pub open spec fn int_within(s: Seq<char>, lo: int, hi: int) -> Option<int> {
    match int_value(s) {
        Some(v) if lo <= v <= hi => Some(v),
        _ => None,
    }
}

/// The value of a run of digits, as long as it stays within `limit`.
fn digits_capped(cs: &[char], from: usize, limit: u64) -> (r: Option<u64>)
    requires
        from <= cs@.len(),
        limit <= 0x8000_0000_0000_0000,
    ensures
        match r {
            Some(v) => all_digits(cs@.skip(from as int)) && v == digits_value(
                cs@.skip(from as int),
            ) && v <= limit,
            None => !all_digits(cs@.skip(from as int)) || digits_value(cs@.skip(from as int))
                > limit,
        },
{
    let mut i: usize = from;
    let mut acc: u64 = 0;
    let mut over = false;
    let ghost rest = cs@.skip(from as int);
    while i < cs.len()
        invariant
            from <= i <= cs@.len(),
            rest == cs@.skip(from as int),
            limit <= 0x8000_0000_0000_0000,
            all_digits(rest.take(i - from)),
            !over ==> acc == digits_value(rest.take(i - from)) && acc <= limit,
            over ==> digits_value(rest.take(i - from)) > limit,
        decreases cs@.len() - i,
    {
        let c = cs[i];
        proof {
            let now = rest.take(i - from);
            let next = rest.take(i - from + 1);
            assert(next.drop_last() =~= now);
            assert(next.last() == c);
            assert(c == rest[i - from]);
        }
        if !('0' <= c && c <= '9') {
            return None;
        }
        let d: u64 = (c as u32 - '0' as u32) as u64;
        if !over {
            if acc > 0x0ccc_cccc_cccc_cccc || acc * 10 + d > limit {
                over = true;
            } else {
                acc = acc * 10 + d;
            }
        }
        i += 1;
        assert(all_digits(rest.take(i - from))) by {
            assert forall|k: int| 0 <= k < i - from implies digit(
                #[trigger] rest.take(i - from)[k],
            ) by {
                if k < i - from - 1 {
                    assert(rest.take(i - from - 1)[k] == rest[k]);
                }
            }
        }
    }
    assert(rest.take(i - from) =~= rest);
    if over {
        None
    } else {
        Some(acc)
    }
}

/// Reads a signed 64-bit integer.
pub fn parse_i64(s: &str) -> (r: Option<i64>)
    ensures
        match r {
            Some(v) => int_within(s@, i64::MIN as int, i64::MAX as int) == Some(v as int),
            None => int_within(s@, i64::MIN as int, i64::MAX as int) is None,
        },
{
    let cs = chars_of(s);
    if cs.len() == 0 {
        return None;
    }
    let neg = cs[0] == '-';
    let from: usize = if neg || cs[0] == '+' {
        1
    } else {
        0
    };
    proof {
        assert(cs@.skip(0) =~= cs@);
        assert(cs@.skip(1) =~= cs@.drop_first());
        lemma_digits_value_nonneg(cs@.skip(from as int));
    }
    if from == cs.len() {
        return None;
    }
    let limit: u64 = if neg {
        0x8000_0000_0000_0000
    } else {
        0x7fff_ffff_ffff_ffff
    };
    match digits_capped(cs.as_slice(), from, limit) {
        None => None,
        Some(v) => if !neg {
            Some(v as i64)
        } else if v == 0x8000_0000_0000_0000 {
            Some(i64::MIN)
        } else {
            Some(-(v as i64))
        },
    }
}

/// A run of decimal digits denotes a non-negative number.
pub proof fn lemma_digits_value_nonneg(s: Seq<char>)
    ensures
        all_digits(s) ==> digits_value(s) >= 0,
    decreases s.len(),
{
    if s.len() > 0 && all_digits(s) {
        assert(digit(s[s.len() - 1]));
        assert(all_digits(s.drop_last())) by {
            assert forall|k: int| 0 <= k < s.len() - 1 implies digit(
                #[trigger] s.drop_last()[k],
            ) by {
                assert(digit(s[k]));
            }
        }
        lemma_digits_value_nonneg(s.drop_last());
    }
}

/// Reads a signed 32-bit integer.
pub fn parse_i32(s: &str) -> (r: Option<i32>)
    ensures
        match r {
            Some(v) => int_within(s@, i32::MIN as int, i32::MAX as int) == Some(v as int),
            None => int_within(s@, i32::MIN as int, i32::MAX as int) is None,
        },
{
    match parse_i64(s) {
        Some(v) if i32::MIN as i64 <= v && v <= i32::MAX as i64 => Some(v as i32),
        _ => None,
    }
}

/// The decimal digits of `n`, most significant first.
pub open spec fn decimal(n: nat) -> Seq<char>
    decreases n,
{
    if n < 10 {
        seq![('0' as int + n) as char]
    } else {
        decimal(n / 10).push(('0' as int + n % 10) as char)
    }
}

/// The decimal spelling of `n`.
pub fn decimal_of(n: u64) -> (r: String)
    ensures
        r@ == decimal(n as nat),
    decreases n,
{
    let d: char = digit_char((n % 10) as u8);
    if n < 10 {
        let mut out = String::new();
        out.push(d);
        assert(out@ =~= decimal(n as nat));
        out
    } else {
        let mut out = decimal_of(n / 10);
        out.push(d);
        out
    }
}

fn digit_char(d: u8) -> (r: char)
    requires
        d < 10,
    ensures
        r == ('0' as int + d) as char,
{
    (48u8 + d) as char
}

/// A decimal spelling reads back as the number it came from.
pub proof fn lemma_decimal_reads_back(n: nat)
    ensures
        all_digits(decimal(n)),
        decimal(n).len() > 0,
        digits_value(decimal(n)) == n,
        int_value(decimal(n)) == Some(n as int),
    decreases n,
{
    if n < 10 {
        let s = decimal(n);
        assert(s.drop_last() =~= Seq::<char>::empty());
        assert(s.last() as int == '0' as int + n);
        reveal_with_fuel(digits_value, 2);
    } else {
        lemma_decimal_reads_back(n / 10);
        let s = decimal(n);
        assert(s.drop_last() =~= decimal(n / 10));
        assert(s.last() as int == '0' as int + n % 10);
        assert forall|k: int| 0 <= k < s.len() implies digit(#[trigger] s[k]) by {
            if k < s.len() - 1 {
                assert(s[k] == decimal(n / 10)[k]);
            }
        }
    }
    assert(digit(decimal(n)[0]));
}

/// The decimal spelling of an integer, with a minus sign where it is negative.
pub open spec fn signed_decimal(n: int) -> Seq<char> {
    if n < 0 {
        seq!['-'] + decimal((-n) as nat)
    } else {
        decimal(n as nat)
    }
}

/// The decimal spelling of `n`.
pub fn signed_decimal_of(n: i64) -> (r: String)
    ensures
        r@ == signed_decimal(n as int),
{
    if n >= 0 {
        return decimal_of(n as u64);
    }
    let mut out = String::new();
    out.push('-');
    let size: u64 = (-(n as i128)) as u64;
    out.push_str(decimal_of(size).as_str());
    assert(out@ =~= signed_decimal(n as int));
    out
}

/// The spelling of an integer reads back as the integer it came from.
pub proof fn lemma_signed_decimal_reads_back(n: int)
    ensures
        int_value(signed_decimal(n)) == Some(n),
        trimmed(signed_decimal(n)) == signed_decimal(n),
{
    let s = signed_decimal(n);
    if n < 0 {
        lemma_decimal_reads_back((-n) as nat);
        assert(s.drop_first() =~= decimal((-n) as nat));
        assert(s.last() == decimal((-n) as nat).last());
        assert(digit(decimal((-n) as nat)[decimal((-n) as nat).len() - 1]));
    } else {
        lemma_decimal_reads_back(n as nat);
        assert(digit(s[0]));
        assert(digit(s[s.len() - 1]));
    }
    lemma_not_white(s[0]);
    lemma_not_white(s.last());
}

proof fn lemma_not_white(c: char)
    requires
        digit(c) || c == '-',
    ensures
        !white_space(c),
{
}

/// The decimal digits of `s`, in their order; everything else is left out.
pub open spec fn digits_in(s: Seq<char>) -> Seq<char>
    decreases s.len(),
{
    if s.len() == 0 {
        seq![]
    } else {
        let before = digits_in(s.drop_last());
        if digit(s.last()) {
            before.push(s.last())
        } else {
            before
        }
    }
}

/// Keeps the decimal digits of `s`.
pub fn digits(s: &str) -> (r: String)
    ensures
        r@ == digits_in(s@),
{
    let cs = chars_of(s);
    let mut out = String::new();
    let mut i: usize = 0;
    while i < cs.len()
        invariant
            i <= cs@.len(),
            cs@ == s@,
            out@ == digits_in(cs@.take(i as int)),
        decreases cs@.len() - i,
    {
        let c = cs[i];
        assert(cs@.take(i as int + 1).drop_last() =~= cs@.take(i as int));
        if '0' <= c && c <= '9' {
            out.push(c);
        }
        i += 1;
    }
    assert(cs@.take(i as int) =~= cs@);
    out
}

// ---------------------------------------------------------------------------------------------
// Case
// ---------------------------------------------------------------------------------------------

/// The lower-case form of an ASCII letter; every other character is left alone.
pub open spec fn ascii_lower(c: char) -> char {
    if 'A' <= c <= 'Z' {
        (c as int + 32) as char
    } else {
        c
    }
}

/// Nothing but ASCII characters.
pub open spec fn is_ascii(s: Seq<char>) -> bool {
    is_ascii_chars(s)
}

/// ASCII text in lower case.
pub open spec fn ascii_folded(s: Seq<char>) -> Seq<char> {
    s.map_values(|c: char| ascii_lower(c))
}

/// What `str::to_lowercase` makes of a string.
pub uninterp spec fn lowercase(s: Seq<char>) -> Seq<char>;

/// `str::to_lowercase`: the lower-case form of `s` by the Unicode `Lowercase` mapping. On ASCII
/// text that mapping is the one-for-one ASCII one. Nothing else is said of it.
#[verifier::external_body]
pub(crate) fn to_lowercase(s: &str) -> (r: String)
    ensures
        r@ == lowercase(s@),
        is_ascii(s@) ==> r@ == ascii_folded(s@),
{
    s.to_lowercase()
}

/// What `char::to_lowercase` makes of a character.
pub uninterp spec fn char_lowercase(c: char) -> Seq<char>;

/// `char::to_lowercase`: the one or more characters of the Unicode lower-case mapping of `c`. An
/// ASCII character maps to one, its ASCII lower case.
#[verifier::external_body]
pub(crate) fn char_to_lowercase(c: char) -> (r: Vec<char>)
    ensures
        r@ == char_lowercase(c),
        r@.len() >= 1,
        c <= '\u{7f}' ==> r@ == seq![ascii_lower(c)],
{
    c.to_lowercase().collect()
}

// ---------------------------------------------------------------------------------------------
// Laws
// ---------------------------------------------------------------------------------------------

/// White space is taken off up to the first and the last character that is none, and nothing else
/// is: what goes in front and behind is white space, and what is left neither begins nor ends with
/// any.
pub proof fn trimming_takes_white_space_only(s: Seq<char>) -> (r: (int, int))
    ensures
        0 <= r.0 <= r.1 <= s.len(),
        trimmed(s) == s.subrange(r.0, r.1),
        forall|i: int| 0 <= i < r.0 || r.1 <= i < s.len() ==> white_space(#[trigger] s[i]),
        r.0 < r.1 ==> !white_space(s[r.0]) && !white_space(s[r.1 - 1]),
{
    let a = lemma_trimmed_start(s);
    let t = trimmed_start(s);
    let n = trimming_the_end_takes_white_space_only(t);
    assert(trimmed(s) =~= s.subrange(a, a + n));
    assert forall|i: int| 0 <= i < a || a + n <= i < s.len() implies white_space(
        #[trigger] s[i],
    ) by {
        if i >= a {
            assert(t[i - a] == s[i]);
        }
    }
    if n > 0 {
        assert(t[0] == s[a]);
        assert(t[n - 1] == s[a + n - 1]);
    }
    (a, a + n)
}

proof fn lemma_trimmed_start(s: Seq<char>) -> (a: int)
    ensures
        0 <= a <= s.len(),
        trimmed_start(s) == s.skip(a),
        forall|i: int| 0 <= i < a ==> white_space(#[trigger] s[i]),
        a < s.len() ==> !white_space(s[a]),
    decreases s.len(),
{
    if s.len() > 0 && white_space(s[0]) {
        let rest = s.drop_first();
        let b = lemma_trimmed_start(rest);
        assert(rest.skip(b) =~= s.skip(b + 1));
        assert forall|i: int| 0 <= i < b + 1 implies white_space(#[trigger] s[i]) by {
            if i > 0 {
                assert(rest[i - 1] == s[i]);
            }
        }
        b + 1
    } else {
        assert(s.skip(0) =~= s);
        0
    }
}

/// White space at the end is taken off, and nothing else.
pub proof fn trimming_the_end_takes_white_space_only(s: Seq<char>) -> (n: int)
    ensures
        0 <= n <= s.len(),
        trimmed_end(s) == s.take(n),
        forall|i: int| n <= i < s.len() ==> white_space(#[trigger] s[i]),
        n > 0 ==> !white_space(s[n - 1]),
    decreases s.len(),
{
    if s.len() > 0 && white_space(s.last()) {
        let init = s.drop_last();
        let n = trimming_the_end_takes_white_space_only(init);
        assert(init.take(n) =~= s.take(n));
        assert forall|i: int| n <= i < s.len() implies white_space(#[trigger] s[i]) by {
            if i < init.len() {
                assert(init[i] == s[i]);
            }
        }
        if n > 0 {
            assert(init[n - 1] == s[n - 1]);
        }
        n
    } else {
        assert(s.take(s.len() as int) =~= s);
        s.len() as int
    }
}

/// The blank, the tabulators, the line feed, the form feed, the carriage return and the wide
/// blanks are white space; no printable ASCII character but the blank is.
pub proof fn blanks_are_white_space(c: char)
    ensures
        c == ' ' || c == '\t' || c == '\n' || c == '\r' || c == '\u{b}' || c == '\u{c}' || c
            == '\u{85}' || c == '\u{a0}' || c == '\u{2028}' || c == '\u{2029}' || c == '\u{3000}'
            ==> white_space(c),
        '!' <= c <= '~' ==> !white_space(c),
        c < '\t' ==> !white_space(c),
        c > '\u{3000}' ==> !white_space(c),
{
}

/// Text without a separator is one piece, and a separator parts what stands before it from what
/// stands behind it.
pub proof fn a_separator_parts_the_pieces(x: Seq<char>, sep: char, y: Seq<char>, a: char, b: char)
    requires
        sep == a || sep == b,
    ensures
        pieces(x.push(sep) + y, a, b) == pieces(x, a, b) + pieces(y, a, b),
        (forall|i: int| 0 <= i < y.len() ==> #[trigger] y[i] != a && y[i] != b) ==> pieces(y, a, b)
            == seq![y],
    decreases y.len(),
{
    lemma_pieces_some(x, a, b);
    lemma_pieces_some(y, a, b);
    if y.len() == 0 {
        assert(x.push(sep) + y =~= x.push(sep));
        assert(x.push(sep).drop_last() =~= x);
        assert(y =~= Seq::<char>::empty());
        assert(pieces(x, a, b).push(seq![]) =~= pieces(x, a, b) + pieces(y, a, b));
    } else {
        let init = y.drop_last();
        let c = y.last();
        let whole = x.push(sep) + y;
        a_separator_parts_the_pieces(x, sep, init, a, b);
        lemma_pieces_some(init, a, b);
        assert(whole.drop_last() =~= x.push(sep) + init);
        assert(whole.last() == c);
        let p = pieces(x, a, b);
        let q = pieces(init, a, b);
        if c == a || c == b {
            assert((p + q).push(seq![]) =~= p + q.push(seq![]));
        } else {
            assert((p + q).last() == q.last());
            assert((p + q).drop_last().push(q.last().push(c)) =~= p + q.drop_last().push(
                q.last().push(c),
            ));
        }
        if forall|i: int| 0 <= i < y.len() ==> #[trigger] y[i] != a && y[i] != b {
            assert forall|i: int| 0 <= i < init.len() implies #[trigger] init[i] != a && init[i]
                != b by {
                assert(init[i] == y[i]);
            }
            assert(y[y.len() - 1] == c);
            assert(init.push(c) =~= y);
            assert(q.drop_last().push(q.last().push(c)) =~= seq![y]);
        }
    }
}

proof fn lemma_pieces_some(s: Seq<char>, a: char, b: char)
    ensures
        pieces(s, a, b).len() > 0,
    decreases s.len(),
{
    if s.len() > 0 {
        lemma_pieces_some(s.drop_last(), a, b);
    }
}

/// Joined parts stand one after the other with one separator between each two.
pub proof fn parts_are_joined_in_order(parts: Seq<Seq<char>>, last: Seq<char>, sep: char)
    ensures
        joined(seq![], sep) == Seq::<char>::empty(),
        joined(seq![last], sep) == last,
        parts.len() > 0 ==> joined(parts.push(last), sep) == joined(parts, sep) + seq![sep] + last,
{
    if parts.len() > 0 {
        assert(parts.push(last).drop_last() =~= parts);
        assert(joined(parts, sep).push(sep) + last =~= joined(parts, sep) + seq![sep] + last);
    }
}

/// A number is spelled by digits, the last of which counts ones and each other ten times as much as
/// the next, with at most one sign in front; nothing else spells a number.
pub proof fn digits_spell_a_number(s: Seq<char>, c: char)
    ensures
        int_value(seq![]) is None,
        '0' <= c <= '9' ==> int_value(seq![c]) == Some(c as int - '0' as int),
        !('0' <= c <= '9') ==> int_value(seq![c]) is None,
        s.len() > 0 && (forall|i: int| 0 <= i < s.len() ==> '0' <= #[trigger] s[i] <= '9') && '0'
            <= c <= '9' ==> int_value(s) is Some && int_value(s.push(c)) == Some(
            10 * int_value(s)->0 + (c as int - '0' as int),
        ),
        s.len() > 0 && (forall|i: int| 0 <= i < s.len() ==> '0' <= #[trigger] s[i] <= '9')
            ==> int_value(seq!['-'] + s) == Some(-int_value(s)->0) && int_value(seq!['+'] + s)
            == int_value(s),
        int_value(s) is Some ==> (forall|i: int|
            1 <= i < s.len() ==> '0' <= #[trigger] s[i] <= '9') && (('0' <= s[0] <= '9') || ((s[0]
            == '-' || s[0] == '+') && s.len() > 1)),
{
    let one = seq![c];
    reveal_with_fuel(digits_value, 2);
    assert(one.drop_last() =~= Seq::<char>::empty());
    assert(one.drop_first() =~= Seq::<char>::empty());
    if digit(c) {
        assert(all_digits(one));
    } else {
        assert(!digit(one[0]));
    }
    if s.len() > 0 && (forall|i: int| 0 <= i < s.len() ==> '0' <= #[trigger] s[i] <= '9') {
        assert forall|i: int| 0 <= i < s.len() implies digit(#[trigger] s[i]) by {
            assert('0' <= s[i] <= '9');
        }
        assert(digit(s[0]));
        if digit(c) {
            let t = s.push(c);
            assert(t.drop_last() =~= s);
            assert forall|i: int| 0 <= i < t.len() implies digit(#[trigger] t[i]) by {
                if i < s.len() {
                    assert(t[i] == s[i]);
                }
            }
            assert(t[0] == s[0]);
        }
        assert((seq!['-'] + s).drop_first() =~= s);
        assert((seq!['+'] + s).drop_first() =~= s);
    }
    if int_value(s) is Some {
        if s[0] == '-' || s[0] == '+' {
            assert forall|i: int| 1 <= i < s.len() implies '0' <= #[trigger] s[i] <= '9' by {
                assert(digit(s.drop_first()[i - 1]));
            }
        } else {
            assert forall|i: int| 0 <= i < s.len() implies '0' <= #[trigger] s[i] <= '9' by {
                assert(digit(s[i]));
            }
            assert('0' <= s[0] <= '9');
        }
    }
}

/// A number counts where it lies in its range.
pub proof fn a_number_counts_within_its_range(s: Seq<char>, lo: int, hi: int)
    ensures
        int_within(s, lo, hi) == (if int_value(s) is Some && lo <= int_value(s)->0 <= hi {
            int_value(s)
        } else {
            None
        }),
{
}

/// Digits are kept in their order and nothing else is.
pub proof fn digits_are_kept(s: Seq<char>, c: char)
    ensures
        digits_in(seq![]) == Seq::<char>::empty(),
        digits_in(s.push(c)) == (if '0' <= c <= '9' {
            digits_in(s).push(c)
        } else {
            digits_in(s)
        }),
{
    assert(s.push(c).drop_last() =~= s);
}

/// Of two byte strings the one comes first that has the lower byte where they first differ, or
/// that ends there.
pub proof fn the_first_difference_decides(a: Seq<u8>, b: Seq<u8>, k: int)
    requires
        0 <= k <= a.len(),
        k <= b.len(),
        forall|i: int| 0 <= i < k ==> #[trigger] a[i] == b[i],
    ensures
        k < a.len() && k < b.len() && a[k] != b[k] ==> bytes_less(a, b) == (a[k] < b[k]),
        k == a.len() && k < b.len() ==> bytes_less(a, b),
        k == b.len() ==> !bytes_less(a, b),
    decreases k,
{
    if k > 0 {
        assert(a[0] == b[0]);
        assert forall|i: int| 0 <= i < k - 1 implies #[trigger] a.drop_first()[i]
            == b.drop_first()[i] by {
            assert(a[i + 1] == b[i + 1]);
        }
        the_first_difference_decides(a.drop_first(), b.drop_first(), k - 1);
    }
}

} // verus!
