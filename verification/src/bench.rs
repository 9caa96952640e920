//! How long a search takes: texts of several sizes, up to the largest that a window holds, and
//! queries from the one with the most matches on.

use vstd::prelude::*;
use vstd::utf8::*;

use crate::applog;
use crate::search;
use crate::strings;
use crate::tailwin;
use crate::utf8text;

verus! {

/// The queries: one word as it is typed, and another.
pub const QUERIES: [&'static str; 6] = ["e", "er", "err", "erro", "error", "warn"];

/// An ordinary line.
pub const PLAIN: &'static str =
    "2026-09-18 12:00:00 INFO a routine log line with no notable hits here ok\n";

/// A line with an error.
pub const HIT: &'static str =
    "2026-09-18 12:00:00 ERROR something failed on this particular line here!\n";

/// The sizes, with their names, in bytes.
pub open spec fn sizes() -> Seq<(Seq<char>, usize)> {
    seq![
        ("10KB"@, 10240usize),
        ("1MB"@, 1048576usize),
        ("16MB"@, 16777216usize),
        ("48MB(INITIAL_LOAD_CAP)"@, 50331648usize),
        ("64MB(SCROLLBACK_CAP)"@, tailwin::SCROLLBACK_CAP_BYTES),
    ]
}

/// The sizes, with their names, in bytes.
pub fn buffer_sizes() -> (r: [(&'static str, usize); 5])
    ensures
        r@.map_values(|p: (&'static str, usize)| (p.0@, p.1)) == sizes(),
{
    let r = [
        ("10KB", 10240usize),
        ("1MB", 1048576usize),
        ("16MB", 16777216usize),
        ("48MB(INITIAL_LOAD_CAP)", tailwin::INITIAL_LOAD_CAP as usize),
        ("64MB(SCROLLBACK_CAP)", tailwin::SCROLLBACK_CAP_BYTES),
    ];
    assert(r@.map_values(|p: (&'static str, usize)| (p.0@, p.1)) =~= sizes());
    r
}

/// Whether times are to be taken: both switches are on.
pub fn gate_open(debug: &Option<String>, bench: &Option<String>) -> (r: bool)
    ensures
        r == (applog::is_on(*debug) && applog::is_on(*bench)),
{
    applog::switched_on(debug) && applog::switched_on(bench)
}

// ---------------------------------------------------------------------------------------------
// Texts
// ---------------------------------------------------------------------------------------------

/// A line of the text: every fiftieth has an error.
pub open spec fn line(i: nat) -> Seq<char> {
    if i % 50 == 0 {
        HIT@
    } else {
        PLAIN@
    }
}

/// The first lines.
pub open spec fn lines(k: nat) -> Seq<char>
    decreases k,
{
    if k == 0 {
        seq![]
    } else {
        lines((k - 1) as nat) + line((k - 1) as nat)
    }
}

/// As many lines as it takes to reach `target` bytes, and no more.
pub open spec fn reaches(s: Seq<char>, target: int) -> bool {
    exists|k: nat| #[trigger] is_first_lines(s, k, target)
}

/// The first `k` lines, which reach `target` bytes where one less does not.
pub open spec fn is_first_lines(s: Seq<char>, k: nat, target: int) -> bool {
    &&& s == lines(k)
    &&& encode_utf8(s).len() >= target
    &&& k > 0 ==> encode_utf8(lines((k - 1) as nat)).len() < target
}

/// A text of at least `target` bytes, in whole lines.
pub fn make_buffer(target: usize) -> (r: String)
    ensures
        reaches(r@, target as int),
{
    let mut s = String::new();
    let mut i: u64 = 0;
    let ghost mut k: nat = 0;
    proof {
        assert(s@ =~= lines(0));
        assert(encode_utf8(s@) =~= seq![]);
    }
    while s.as_str().as_bytes().len() < target
        invariant
            s@ == lines(k),
            i == k % 50,
            k > 0 ==> encode_utf8(lines((k - 1) as nat)).len() < target,
        decreases
            if encode_utf8(s@).len() < target {
                target - encode_utf8(s@).len()
            } else {
                0
            },
    {
        let ghost before = s@;
        let ghost more = line(k);
        proof {
            reveal_strlit(
                "2026-09-18 12:00:00 ERROR something failed on this particular line here!\n",
            );
            reveal_strlit(
                "2026-09-18 12:00:00 INFO a routine log line with no notable hits here ok\n",
            );
            strings::lemma_empty_text(more);
            utf8text::lemma_encode_concat(before, more);
        }
        if i == 0 {
            s.push_str(HIT);
        } else {
            s.push_str(PLAIN);
        }
        i = if i == 49 {
            0
        } else {
            i + 1
        };
        proof {
            k = k + 1;
            assert(s@ == lines(k));
        }
    }
    assert(is_first_lines(s@, k, target as int));
    s
}

// ---------------------------------------------------------------------------------------------
// Times
// ---------------------------------------------------------------------------------------------

/// A point in time.
#[verifier::external_type_specification]
#[verifier::external_body]
pub struct ExInstant(std::time::Instant);

/// `std::time::Instant::now`. Nothing is claimed of the time.
#[verifier::external_body]
fn now() -> std::time::Instant {
    std::time::Instant::now()
}

/// `std::time::Instant::elapsed`, in nanoseconds. Nothing is claimed of the time.
#[verifier::external_body]
fn nanos_since(start: &std::time::Instant) -> u64 {
    start.elapsed().as_nanos() as u64
}

/// Searches a text `reps` times, at least once. Returns how many matches there are and how long each
/// search took, in nanoseconds. The times rest on the clock, and nothing is stated of them but how
/// many there are.
pub fn timings(text: &str, query: &str, reps: u32) -> (r: (usize, Vec<u64>))
    ensures
        r.0 == search::found(encode_utf8(text@), encode_utf8(query@)).len(),
        r.1@.len() == (if reps == 0 {
            1
        } else {
            reps as int
        }),
{
    let rounds: u32 = if reps == 0 {
        1
    } else {
        reps
    };
    let mut times: Vec<u64> = Vec::new();
    let mut count: usize = 0;
    let mut i: u32 = 0;
    while i < rounds
        invariant
            i <= rounds,
            rounds >= 1,
            times@.len() == i,
            i > 0 ==> count == search::found(encode_utf8(text@), encode_utf8(query@)).len(),
        decreases rounds - i,
    {
        let start = now();
        let matches = search::find_matches(text, query);
        let _current = search::clamp_current(None, matches.len());
        times.push(nanos_since(&start));
        count = matches.len();
        i += 1;
    }
    (count, times)
}

/// The shortest of several times: whatever else the machine does only adds to a time.
pub fn shortest(times: &[u64]) -> (r: u64)
    requires
        times@.len() > 0,
    ensures
        times@.contains(r),
        forall|i: int| 0 <= i < times@.len() ==> r <= #[trigger] times@[i],
{
    let mut best: u64 = times[0];
    let mut i: usize = 1;
    while i < times.len()
        invariant
            1 <= i <= times@.len(),
            times@.contains(best),
            forall|j: int| 0 <= j < i ==> best <= #[trigger] times@[j],
        decreases times@.len() - i,
    {
        if times[i] < best {
            best = times[i];
        }
        i += 1;
    }
    best
}

/// Searches a text `reps` times, at least once. Returns how many matches there are and the shortest
/// of the times that `timings` reports, in nanoseconds. Nothing is stated of the time itself.
pub fn measure(text: &str, query: &str, reps: u32) -> (r: (usize, u64))
    ensures
        r.0 == search::found(encode_utf8(text@), encode_utf8(query@)).len(),
{
    let (count, times) = timings(text, query, reps);
    (count, shortest(times.as_slice()))
}

/// A time in milliseconds, with three places after the point.
pub open spec fn millis_words(nanos: u64) -> Seq<char> {
    let micros = (nanos + 500) / 1000;
    let part = micros % 1000;
    strings::decimal((micros / 1000) as nat) + "."@ + (if part < 100 {
        "0"@
    } else {
        ""@
    }) + (if part < 10 {
        "0"@
    } else {
        ""@
    }) + strings::decimal(part as nat)
}

/// A time in milliseconds, with three places after the point.
pub fn millis_text(nanos: u64) -> (r: String)
    ensures
        r@ == millis_words(nanos),
{
    let micros: u64 = ((nanos as u128 + 500) / 1000) as u64;
    let part = micros % 1000;
    let mut out = strings::decimal_of(micros / 1000);
    out.push_str(".");
    out.push_str(
        if part < 100 {
            "0"
        } else {
            ""
        },
    );
    out.push_str(
        if part < 10 {
            "0"
        } else {
            ""
        },
    );
    out.push_str(strings::decimal_of(part).as_str());
    out
}

/// The line for one text and one query.
pub open spec fn result_words(
    label: Seq<char>,
    bytes: int,
    query: Seq<char>,
    count: int,
    nanos: u64,
) -> Seq<char> {
    "buffer="@ + label + " actual_bytes="@ + strings::decimal(bytes as nat) + " query=\""@ + query
        + "\" matches="@ + strings::decimal(count as nat) + (if count >= search::MATCH_CAP {
        "+"@
    } else {
        ""@
    }) + " scan="@ + millis_words(nanos) + "ms"@
}

/// The line for one text and one query, whatever the time.
pub open spec fn tells(row: Seq<char>, label: Seq<char>, size: int, query: Seq<char>) -> bool {
    exists|text: Seq<char>, nanos: u64|
        reaches(text, size) && row == #[trigger] result_words(
            label,
            encode_utf8(text).len() as int,
            query,
            search::found(encode_utf8(text), encode_utf8(query)).len() as int,
            nanos,
        )
}

/// The first line.
pub open spec fn head_words(reps: u32) -> Seq<char> {
    "search-scan sweep START reps="@ + strings::decimal(reps as nat)
        + " (measures refresh_matches: find_matches + clamp_current)"@
}

/// The line for one text and one query, given what was measured.
pub fn result_text(label: &str, bytes: usize, query: &str, count: usize, nanos: u64) -> (r: String)
    ensures
        r@ == result_words(label@, bytes as int, query@, count as int, nanos),
{
    let mut out = "buffer=".to_owned();
    out.push_str(label);
    out.push_str(" actual_bytes=");
    out.push_str(strings::decimal_of(bytes as u64).as_str());
    out.push_str(" query=\"");
    out.push_str(query);
    out.push_str("\" matches=");
    out.push_str(strings::decimal_of(count as u64).as_str());
    out.push_str(
        if count >= search::MATCH_CAP {
            "+"
        } else {
            ""
        },
    );
    out.push_str(" scan=");
    out.push_str(millis_text(nanos).as_str());
    out.push_str("ms");
    out
}

/// The queries, as texts.
pub open spec fn query(j: int) -> Seq<char> {
    QUERIES@[j]@
}

/// Searches every text for every query, and returns the lines for the log: one at either end, and
/// one for each text and query.
pub fn run_sweep(reps: u32) -> (r: Vec<String>)
    ensures
        r@.len() == 2 + sizes().len() * QUERIES@.len(),
        r@[0]@ == head_words(reps),
        r@.last()@ == "search-scan sweep END"@,
        forall|i: int, j: int|
            0 <= i < sizes().len() && 0 <= j < QUERIES@.len() ==> tells(
                r@[1 + i * QUERIES@.len() + j]@,
                #[trigger] sizes()[i].0,
                sizes()[i].1 as int,
                #[trigger] query(j),
            ),
{
    let mut out: Vec<String> = Vec::new();
    let mut head = "search-scan sweep START reps=".to_owned();
    head.push_str(strings::decimal_of(reps as u64).as_str());
    head.push_str(" (measures refresh_matches: find_matches + clamp_current)");
    out.push(head);
    let all = buffer_sizes();
    let queries = QUERIES;
    let mut i: usize = 0;
    while i < 5
        invariant
            i <= 5,
            queries@ == QUERIES@,
            queries@.len() == 6,
            all@.map_values(|p: (&'static str, usize)| (p.0@, p.1)) == sizes(),
            out@.len() == 1 + 6 * i,
            out@[0]@ == head_words(reps),
            forall|a: int, j: int|
                0 <= a < i && 0 <= j < 6 ==> tells(
                    out@[1 + a * 6 + j]@,
                    #[trigger] sizes()[a].0,
                    sizes()[a].1 as int,
                    #[trigger] query(j),
                ),
        decreases 5 - i,
    {
        let (label, size) = all[i];
        assert(sizes()[i as int] == (label@, size));
        let text = make_buffer(size);
        let bytes = text.as_str().as_bytes().len();
        let mut j: usize = 0;
        while j < 6
            invariant
                j <= 6,
                i < 5,
                queries@ == QUERIES@,
                queries@.len() == 6,
                sizes()[i as int] == (label@, size),
                reaches(text@, size as int),
                bytes == encode_utf8(text@).len(),
                out@.len() == 1 + 6 * i + j,
                out@[0]@ == head_words(reps),
                forall|a: int, b: int|
                    0 <= a < i && 0 <= b < 6 ==> tells(
                        out@[1 + a * 6 + b]@,
                        #[trigger] sizes()[a].0,
                        sizes()[a].1 as int,
                        #[trigger] query(b),
                    ),
                forall|b: int|
                    0 <= b < j ==> tells(
                        out@[1 + i * 6 + b]@,
                        label@,
                        size as int,
                        #[trigger] query(b),
                    ),
            decreases 6 - j,
        {
            let q = queries[j];
            let (count, nanos) = measure(text.as_str(), q, reps);
            let row = result_text(label, bytes, q, count, nanos);
            assert(tells(row@, label@, size as int, query(j as int)));
            out.push(row);
            j += 1;
        }
        i += 1;
    }
    out.push("search-scan sweep END".to_owned());
    out
}

/// Texts of five sizes are searched, from 10240 bytes to the 67108864 that a window holds at most.
pub proof fn the_sizes_span_what_a_window_holds()
    ensures
        sizes().len() == 5,
        sizes()[0] == ("10KB"@, 10240usize),
        sizes()[1] == ("1MB"@, 1048576usize),
        sizes()[2] == ("16MB"@, 16777216usize),
        sizes()[3] == ("48MB(INITIAL_LOAD_CAP)"@, 50331648usize),
        sizes()[4] == ("64MB(SCROLLBACK_CAP)"@, 67108864usize),
{
}

/// Every fiftieth line of a text has an error, the first one among them, and all others have none.
pub proof fn every_fiftieth_line_has_an_error(k: nat)
    ensures
        lines(0) == Seq::<char>::empty(),
        k % 50 == 0 ==> lines(k + 1) == lines(k)
            + "2026-09-18 12:00:00 ERROR something failed on this particular line here!\n"@,
        k % 50 != 0 ==> lines(k + 1) == lines(k)
            + "2026-09-18 12:00:00 INFO a routine log line with no notable hits here ok\n"@,
{
}

/// A text is large enough, and it would not be without its last line. Two texts that are large enough
/// for one size are the same.
pub proof fn a_text_is_as_large_as_it_must_be(s: Seq<char>, t: Seq<char>, k: nat, target: int)
    requires
        s == lines(k),
        encode_utf8(s).len() >= target,
        k > 0 ==> encode_utf8(lines((k - 1) as nat)).len() < target,
        reaches(t, target),
    ensures
        reaches(s, target),
        t == s,
{
    assert(is_first_lines(s, k, target));
    let j = choose|j: nat| #[trigger] is_first_lines(t, j, target);
    if j < k {
        lemma_more_lines_are_longer(j, (k - 1) as nat);
    } else if k < j {
        lemma_more_lines_are_longer(k, (j - 1) as nat);
    }
}

proof fn lemma_more_lines_are_longer(j: nat, k: nat)
    requires
        j <= k,
    ensures
        encode_utf8(lines(j)).len() <= encode_utf8(lines(k)).len(),
    decreases k - j,
{
    if j < k {
        lemma_more_lines_are_longer(j, (k - 1) as nat);
        utf8text::lemma_encode_concat(lines((k - 1) as nat), line((k - 1) as nat));
    }
}

/// The digits of a number below a thousand.
proof fn lemma_three_digits(h: nat, t: nat, u: nat)
    requires
        h < 10,
        t < 10,
        u < 10,
    ensures
        ({
            let d = strings::decimal(100 * h + 10 * t + u);
            &&& h > 0 ==> d == seq![
                ('0' as int + h) as char,
                ('0' as int + t) as char,
                ('0' as int + u) as char,
            ]
            &&& h == 0 && t > 0 ==> d == seq![('0' as int + t) as char, ('0' as int + u) as char]
            &&& h == 0 && t == 0 ==> d == seq![('0' as int + u) as char]
        }),
{
    let n: nat = 100 * h + 10 * t + u;
    let m: nat = 10 * h + t;
    assert(n / 10 == m && n % 10 == u);
    assert(m / 10 == h && m % 10 == t);
    if h > 0 {
        assert(strings::decimal(h) =~= seq![('0' as int + h) as char]);
        assert(strings::decimal(m) =~= seq![('0' as int + h) as char, ('0' as int + t) as char]);
        assert(strings::decimal(n) =~= seq![
            ('0' as int + h) as char,
            ('0' as int + t) as char,
            ('0' as int + u) as char,
        ]);
    } else if t > 0 {
        assert(strings::decimal(m) =~= seq![('0' as int + t) as char]);
        assert(strings::decimal(n) =~= seq![('0' as int + t) as char, ('0' as int + u) as char]);
    }
}

/// A time is told in milliseconds with three digits behind the point, rounded to the nearest.
pub proof fn a_time_is_told_to_the_microsecond(nanos: u64, whole: nat, h: nat, t: nat, u: nat)
    requires
        h < 10,
        t < 10,
        u < 10,
        ({
            let micros = 1000 * whole + 100 * h + 10 * t + u;
            1000 * micros <= nanos + 500 < 1000 * micros + 1000
        }),
    ensures
        millis_words(nanos) == strings::decimal(whole) + seq![
            '.',
            ('0' as int + h) as char,
            ('0' as int + t) as char,
            ('0' as int + u) as char,
        ],
{
    let micros: nat = 1000 * whole + 100 * h + 10 * t + u;
    assert((nanos + 500) / 1000 == micros);
    assert(micros % 1000 == 100 * h + 10 * t + u && micros / 1000 == whole);
    reveal_strlit(".");
    reveal_strlit("0");
    reveal_strlit("");
    lemma_three_digits(h, t, u);
    assert(('0' as int + 0) as char == '0');
    assert(millis_words(nanos) =~= strings::decimal(whole) + seq![
        '.',
        ('0' as int + h) as char,
        ('0' as int + t) as char,
        ('0' as int + u) as char,
    ]);
}

/// A line names the text, its size, the query, the number of matches, marked where there may be more
/// than were counted, and the time.
pub proof fn a_line_names_what_was_measured(
    label: Seq<char>,
    bytes: int,
    query: Seq<char>,
    count: int,
    nanos: u64,
    reps: u32,
)
    requires
        0 <= bytes,
        0 <= count,
    ensures
        result_words(label, bytes, query, count, nanos) == "buffer="@ + label + " actual_bytes="@
            + strings::decimal(bytes as nat) + " query=\""@ + query + "\" matches="@
            + strings::decimal(count as nat) + (if count < 100000 {
            ""@
        } else {
            "+"@
        }) + " scan="@ + millis_words(nanos) + "ms"@,
        head_words(reps) == "search-scan sweep START reps="@ + strings::decimal(reps as nat)
            + " (measures refresh_matches: find_matches + clamp_current)"@,
{
}

/// The queries are one word as it is typed, and another word.
pub proof fn a_word_is_searched_for_as_it_is_typed()
    ensures
        QUERIES@.len() == 6,
        forall|j: int| 0 <= j < 5 ==> #[trigger] query(j) == "error"@.take(j + 1),
        query(5) == "warn"@,
{
    reveal_strlit("e");
    reveal_strlit("er");
    reveal_strlit("err");
    reveal_strlit("erro");
    reveal_strlit("error");
    assert(query(0) =~= "error"@.take(1));
    assert(query(1) =~= "error"@.take(2));
    assert(query(2) =~= "error"@.take(3));
    assert(query(3) =~= "error"@.take(4));
    assert(query(4) =~= "error"@.take(5));
}

} // verus!
