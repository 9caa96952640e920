//! Which encoding a log file is in, told from its first bytes.
//!
//! A byte order mark decides. Without one, many zero bytes at every other place mean UTF-16, and
//! anything else is read as UTF-8.

use encoding_rs::Encoding;
use vstd::prelude::*;

verus! {

/// A codec.
#[verifier::external_type_specification]
#[verifier::external_body]
pub struct ExEncoding(encoding_rs::Encoding);

/// The name of a codec in the Encoding Standard.
pub uninterp spec fn codec_name(codec: &'static Encoding) -> Seq<char>;

/// `encoding_rs::Encoding::name`. Claimed: it gives the name of the codec.
#[verifier::external_body]
fn name_of(codec: &'static Encoding) -> (r: &'static str)
    ensures
        r@ == codec_name(codec),
{
    codec.name()
}

/// `encoding_rs::UTF_8`. Claimed: it is the codec of the name `UTF-8`.
#[verifier::external_body]
fn utf_8() -> (r: &'static Encoding)
    ensures
        codec_name(r) == "UTF-8"@,
{
    encoding_rs::UTF_8
}

/// `encoding_rs::UTF_16LE`. Claimed: it is the codec of the name `UTF-16LE`.
#[verifier::external_body]
fn utf_16_le() -> (r: &'static Encoding)
    ensures
        codec_name(r) == "UTF-16LE"@,
{
    encoding_rs::UTF_16LE
}

/// `encoding_rs::UTF_16BE`. Claimed: it is the codec of the name `UTF-16BE`.
#[verifier::external_body]
fn utf_16_be() -> (r: &'static Encoding)
    ensures
        codec_name(r) == "UTF-16BE"@,
{
    encoding_rs::UTF_16BE
}

/// What the first bytes of a file say of its encoding.
#[derive(Debug, Clone)]
pub struct Detected {
    /// The codec.
    pub encoding: &'static Encoding,
    /// How many bytes the byte order mark takes.
    pub bom_length: usize,
    /// The finding in words.
    pub label: &'static str,
}

impl Detected {
    /// The name of the codec in the Encoding Standard.
    pub fn codec(&self) -> (r: &'static str)
        ensures
            r@ == codec_name(self.encoding),
    {
        name_of(self.encoding)
    }
}

/// What can be found.
pub enum Finding {
    /// The mark of UTF-8.
    MarkUtf8,
    /// The mark of UTF-16, little end first.
    MarkLe,
    /// The mark of UTF-16, big end first.
    MarkBe,
    /// No mark, and zero bytes as in UTF-16, little end first.
    LooksLe,
    /// No mark, and zero bytes as in UTF-16, big end first.
    LooksBe,
    /// None of these.
    Plain,
}

/// How many bytes are zero at even places, or at odd ones.
pub open spec fn zeros(s: Seq<u8>, odd: bool) -> int
    decreases s.len(),
{
    if s.len() == 0 {
        0
    } else {
        zeros(s.drop_last(), odd) + (if s.last() == 0 && (((s.len() - 1) % 2 == 1) == odd) {
            1int
        } else {
            0
        })
    }
}

/// More than six tenths of the places of one kind hold a zero byte, and none of the other kind.
pub open spec fn looks_wide(s: Seq<u8>, odd: bool) -> bool {
    &&& s.len() >= 4
    &&& 10 * zeros(s, odd) > 3 * s.len()
    &&& zeros(s, !odd) == 0
}

/// What the bytes say.
pub open spec fn finding(s: Seq<u8>) -> Finding {
    if s.len() >= 3 && s[0] == 0xEF && s[1] == 0xBB && s[2] == 0xBF {
        Finding::MarkUtf8
    } else if s.len() >= 2 && s[0] == 0xFF && s[1] == 0xFE {
        Finding::MarkLe
    } else if s.len() >= 2 && s[0] == 0xFE && s[1] == 0xFF {
        Finding::MarkBe
    } else if looks_wide(s, true) {
        Finding::LooksLe
    } else if looks_wide(s, false) {
        Finding::LooksBe
    } else {
        Finding::Plain
    }
}

/// The name of the codec, the length of the mark, and the words for a finding.
pub open spec fn account(f: Finding) -> (Seq<char>, usize, Seq<char>) {
    match f {
        Finding::MarkUtf8 => ("UTF-8"@, 3, "UTF-8 (BOM)"@),
        Finding::MarkLe => ("UTF-16LE"@, 2, "UTF-16 LE (BOM)"@),
        Finding::MarkBe => ("UTF-16BE"@, 2, "UTF-16 BE (BOM)"@),
        Finding::LooksLe => ("UTF-16LE"@, 0, "UTF-16 LE (heuristic)"@),
        Finding::LooksBe => ("UTF-16BE"@, 0, "UTF-16 BE (heuristic)"@),
        Finding::Plain => ("UTF-8"@, 0, "UTF-8/ASCII"@),
    }
}

/// The bytes that count: at most `count` of them.
pub open spec fn head(sample: Seq<u8>, count: usize) -> Seq<u8> {
    if count < sample.len() {
        sample.take(count as int)
    } else {
        sample
    }
}

/// Tells the encoding of a file from its first bytes, of which `count` are valid.
pub fn detect(sample: &[u8], count: usize) -> (r: Detected)
    ensures
        (codec_name(r.encoding), r.bom_length, r.label@) == account(
            finding(head(sample@, count)),
        ),
{
    let ghost s = head(sample@, count);
    let count: usize = if count < sample.len() {
        count
    } else {
        sample.len()
    };
    if count >= 3 && sample[0] == 0xEF && sample[1] == 0xBB && sample[2] == 0xBF {
        return Detected { encoding: utf_8(), bom_length: 3, label: "UTF-8 (BOM)" };
    }
    if count >= 2 && sample[0] == 0xFF && sample[1] == 0xFE {
        return Detected { encoding: utf_16_le(), bom_length: 2, label: "UTF-16 LE (BOM)" };
    }
    if count >= 2 && sample[0] == 0xFE && sample[1] == 0xFF {
        return Detected { encoding: utf_16_be(), bom_length: 2, label: "UTF-16 BE (BOM)" };
    }
    if count >= 4 {
        let mut zero_odd: usize = 0;
        let mut zero_even: usize = 0;
        let mut i: usize = 0;
        while i < count
            invariant
                i <= count == s.len(),
                count <= sample@.len(),
                forall|k: int| 0 <= k < count ==> #[trigger] s[k] == sample@[k],
                zero_odd == zeros(s.take(i as int), true),
                zero_even == zeros(s.take(i as int), false),
                zero_odd <= i,
                zero_even <= i,
            decreases count - i,
        {
            proof {
                assert(s.take(i as int + 1).drop_last() =~= s.take(i as int));
                assert(s.take(i as int + 1).last() == sample@[i as int]);
            }
            if sample[i] == 0 {
                if i % 2 == 0 {
                    zero_even += 1;
                } else {
                    zero_odd += 1;
                }
            }
            i += 1;
        }
        assert(s.take(count as int) =~= s);
        let bar: u128 = 3 * (count as u128);
        if 10 * (zero_odd as u128) > bar && zero_even == 0 {
            return Detected {
                encoding: utf_16_le(),
                bom_length: 0,
                label: "UTF-16 LE (heuristic)",
            };
        }
        if 10 * (zero_even as u128) > bar && zero_odd == 0 {
            return Detected {
                encoding: utf_16_be(),
                bom_length: 0,
                label: "UTF-16 BE (heuristic)",
            };
        }
    }
    Detected { encoding: utf_8(), bom_length: 0, label: "UTF-8/ASCII" }
}

/// How many of the places of one kind there are, all of them zero, and none of the other kind.
proof fn lemma_alternating(s: Seq<u8>, odd: bool)
    requires
        forall|k: int| 0 <= k < s.len() ==> (#[trigger] s[k] == 0) == ((k % 2 == 1) == odd),
    ensures
        zeros(s, !odd) == 0,
        zeros(s, odd) == (if odd {
            s.len() as int / 2
        } else {
            (s.len() as int + 1) / 2
        }),
    decreases s.len(),
{
    if s.len() > 0 {
        let init = s.drop_last();
        assert forall|k: int| 0 <= k < init.len() implies (#[trigger] init[k] == 0) == ((k % 2
            == 1) == odd) by {
            assert(init[k] == s[k]);
        }
        lemma_alternating(init, odd);
        assert(s.last() == s[s.len() - 1]);
    }
}

/// Two or more ASCII characters in UTF-16 without a mark are recognised as such, whichever end
/// comes first.
pub proof fn wide_ascii_is_recognised(s: Seq<u8>, odd: bool)
    requires
        s.len() >= 4,
        s.len() % 2 == 0,
        forall|k: int|
            0 <= k < s.len() ==> (#[trigger] s[k] == 0) == ((k % 2 == 1) == odd) && s[k] < 0x80,
    ensures
        finding(s) == (if odd {
            Finding::LooksLe
        } else {
            Finding::LooksBe
        }),
{
    lemma_alternating(s, odd);
    assert(s[0] < 0x80 && s[1] < 0x80);
    assert((s.len() as int + 1) / 2 == s.len() as int / 2);
}

proof fn lemma_no_zeros(s: Seq<u8>, odd: bool)
    requires
        forall|k: int| 0 <= k < s.len() ==> #[trigger] s[k] != 0,
    ensures
        zeros(s, odd) == 0,
    decreases s.len(),
{
    if s.len() > 0 {
        let init = s.drop_last();
        assert forall|k: int| 0 <= k < init.len() implies #[trigger] init[k] != 0 by {
            assert(init[k] == s[k]);
        }
        lemma_no_zeros(init, odd);
        assert(s.last() == s[s.len() - 1]);
    }
}

/// ASCII text is read as UTF-8.
pub proof fn ascii_is_plain(s: Seq<u8>)
    requires
        forall|k: int| 0 <= k < s.len() ==> 0 < #[trigger] s[k] < 0x80,
    ensures
        finding(s) == Finding::Plain,
{
    lemma_no_zeros(s, true);
    lemma_no_zeros(s, false);
    if s.len() >= 1 {
        assert(s[0] < 0x80);
    }
}

/// The places of one kind that hold a zero byte.
proof fn lemma_zeros_counts(s: Seq<u8>, odd: bool, places: Set<int>)
    requires
        forall|k: int|
            places.contains(k) <==> 0 <= k < s.len() && (k % 2 == 1) == odd && s[k] == 0,
    ensures
        places.finite(),
        places.len() == zeros(s, odd),
    decreases s.len(),
{
    if s.len() == 0 {
        assert(places =~= Set::<int>::empty());
    } else {
        let init = s.drop_last();
        let last = s.len() - 1;
        let fewer = places.remove(last);
        assert forall|k: int|
            fewer.contains(k) <==> 0 <= k < init.len() && (k % 2 == 1) == odd && init[k] == 0 by {
            if 0 <= k < init.len() {
                assert(init[k] == s[k]);
            }
        }
        lemma_zeros_counts(init, odd, fewer);
        if places.contains(last) {
            assert(places =~= fewer.insert(last));
        } else {
            assert(places =~= fewer);
        }
    }
}

/// A byte order mark at the front decides, whatever follows it.
pub proof fn a_mark_decides(sample: Seq<u8>, count: usize)
    ensures
        sample.len() >= 3 && count >= 3 && sample[0] == 0xEF && sample[1] == 0xBB && sample[2]
            == 0xBF ==> account(finding(head(sample, count))) == ("UTF-8"@, 3usize, "UTF-8 (BOM)"@),
        sample.len() >= 2 && count >= 2 && sample[0] == 0xFF && sample[1] == 0xFE ==> account(
            finding(head(sample, count)),
        ) == ("UTF-16LE"@, 2usize, "UTF-16 LE (BOM)"@),
        sample.len() >= 2 && count >= 2 && sample[0] == 0xFE && sample[1] == 0xFF ==> account(
            finding(head(sample, count)),
        ) == ("UTF-16BE"@, 2usize, "UTF-16 BE (BOM)"@),
{
}

/// Text without zero bytes and without a mark is read as UTF-8, whatever its other bytes.
pub proof fn text_without_zero_bytes_is_utf8(sample: Seq<u8>, count: usize)
    requires
        forall|k: int| 0 <= k < sample.len() && k < count ==> #[trigger] sample[k] != 0,
        !(sample.len() >= 3 && count >= 3 && sample[0] == 0xEF && sample[1] == 0xBB && sample[2]
            == 0xBF),
        !(sample.len() >= 2 && count >= 2 && sample[0] == 0xFF && sample[1] == 0xFE),
        !(sample.len() >= 2 && count >= 2 && sample[0] == 0xFE && sample[1] == 0xFF),
    ensures
        account(finding(head(sample, count))) == ("UTF-8"@, 0usize, "UTF-8/ASCII"@),
{
    let s = head(sample, count);
    assert forall|k: int| 0 <= k < s.len() implies #[trigger] s[k] != 0 by {
        assert(s[k] == sample[k]);
    }
    lemma_no_zeros(s, true);
    lemma_no_zeros(s, false);
}

/// Without a mark the zero bytes decide: UTF-16 takes at least four bytes, zero bytes at more than
/// three tenths of all places, and all of them at odd places for the little end first, at even
/// places for the big end first. Everything else is read as UTF-8. Only the bytes that count have a
/// say.
pub proof fn without_a_mark_the_zero_bytes_decide(
    sample: Seq<u8>,
    count: usize,
    at_odd: Set<int>,
    at_even: Set<int>,
)
    requires
        !(sample.len() >= 3 && count >= 3 && sample[0] == 0xEF && sample[1] == 0xBB && sample[2]
            == 0xBF),
        !(sample.len() >= 2 && count >= 2 && sample[0] == 0xFF && sample[1] == 0xFE),
        !(sample.len() >= 2 && count >= 2 && sample[0] == 0xFE && sample[1] == 0xFF),
        forall|k: int|
            #[trigger] at_odd.contains(k) <==> 0 <= k < sample.len() && k < count && k % 2 == 1
                && sample[k] == 0,
        forall|k: int|
            #[trigger] at_even.contains(k) <==> 0 <= k < sample.len() && k < count && k % 2 == 0
                && sample[k] == 0,
    ensures
        ({
            let n: int = if count < sample.len() {
                count as int
            } else {
                sample.len() as int
            };
            account(finding(head(sample, count))) == (if n >= 4 && 10 * at_odd.len() > 3 * n
                && at_even.len() == 0 {
                ("UTF-16LE"@, 0usize, "UTF-16 LE (heuristic)"@)
            } else if n >= 4 && 10 * at_even.len() > 3 * n && at_odd.len() == 0 {
                ("UTF-16BE"@, 0usize, "UTF-16 BE (heuristic)"@)
            } else {
                ("UTF-8"@, 0usize, "UTF-8/ASCII"@)
            })
        }),
{
    let s = head(sample, count);
    assert forall|k: int|
        at_odd.contains(k) <==> 0 <= k < s.len() && (k % 2 == 1) == true && s[k] == 0 by {
        if 0 <= k < s.len() {
            assert(s[k] == sample[k]);
        }
    }
    assert forall|k: int|
        at_even.contains(k) <==> 0 <= k < s.len() && (k % 2 == 1) == false && s[k] == 0 by {
        if 0 <= k < s.len() {
            assert(s[k] == sample[k]);
        }
    }
    lemma_zeros_counts(s, true, at_odd);
    lemma_zeros_counts(s, false, at_even);
}

} // verus!
