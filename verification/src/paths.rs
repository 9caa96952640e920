//! Paths as text, by the naming rules of a given system: splitting into components, resolving a
//! typed directory, and telling a file's directory and name apart. Nothing here looks at the disk.

use vstd::prelude::*;

use crate::os::Os;
use crate::strings;

verus! {

/// A path taken apart.
#[verifier::ext_equal]
pub struct PathView {
    /// The drive (`C:`), share (`\\server\share`), device (`\\.\COM1`) or verbatim prefix (`\\?\C:`,
    /// `\\?\UNC\server\share`), as written.
    pub prefix: Seq<char>,
    /// Whether the components start at the root.
    pub rooted: bool,
    /// The components, from the root down.
    pub parts: Seq<Seq<char>>,
}

/// A path taken apart.
#[derive(Debug)]
pub struct PathParts {
    /// The drive (`C:`), share (`\\server\share`), device (`\\.\COM1`) or verbatim prefix (`\\?\C:`,
    /// `\\?\UNC\server\share`), as written.
    pub prefix: String,
    /// Whether the components start at the root.
    pub rooted: bool,
    /// The components, from the root down.
    pub parts: Vec<String>,
}

impl View for PathParts {
    type V = PathView;

    open spec fn view(&self) -> PathView {
        PathView {
            prefix: self.prefix@,
            rooted: self.rooted,
            parts: strings::views(self.parts@),
        }
    }
}

// ---------------------------------------------------------------------------------------------
// Grammar
// ---------------------------------------------------------------------------------------------

/// `\` separates components on Windows alone.
pub open spec fn second_separator(os: Os) -> char {
    if os is Windows {
        '\\'
    } else {
        '/'
    }
}

/// What separates components.
pub open spec fn is_sep(os: Os, c: char) -> bool {
    c == '/' || c == second_separator(os)
}

/// An ASCII letter.
pub open spec fn is_letter(c: char) -> bool {
    'a' <= c <= 'z' || 'A' <= c <= 'Z'
}

/// How a path is taken apart.
#[derive(Debug, Clone, Copy, PartialEq, Eq, Structural)]
pub struct Rules {
    /// What separates components.
    pub slash: char,
    /// What separates them too.
    pub back: char,
    /// A lone `.` is a component like any other.
    pub keeps_dots: bool,
}

/// A path on Windows that is taken as it stands: `\\?\` and what follows.
pub open spec fn is_verbatim(os: Os, s: Seq<char>) -> bool {
    &&& os is Windows
    &&& s.len() >= 4
    &&& s[0] == '\\'
    &&& s[1] == '\\'
    &&& s[2] == '?'
    &&& s[3] == '\\'
}

/// How paths are taken apart on a system.
pub open spec fn plain_rules(os: Os) -> Rules {
    Rules { slash: '/', back: second_separator(os), keeps_dots: false }
}

/// How verbatim paths are taken apart: `/` and `.` mean nothing there.
pub open spec fn verbatim_rules() -> Rules {
    Rules { slash: '\\', back: '\\', keeps_dots: true }
}

/// How a path is taken apart.
pub open spec fn rules_of(os: Os, s: Seq<char>) -> Rules {
    if is_verbatim(os, s) {
        verbatim_rules()
    } else {
        plain_rules(os)
    }
}

/// What separates components by given rules.
pub open spec fn cuts(q: Rules, c: char) -> bool {
    c == q.slash || c == q.back
}

/// The end of the run of non-separators that starts at `from`.
pub open spec fn run_end(q: Rules, s: Seq<char>, from: int) -> int
    decreases s.len() - from,
{
    if 0 <= from < s.len() && !cuts(q, s[from]) {
        run_end(q, s, from + 1)
    } else {
        from
    }
}

/// Whether a path begins with a device: `\\.\` and its name.
pub open spec fn is_device(os: Os, s: Seq<char>) -> bool {
    &&& os is Windows
    &&& s.len() >= 4
    &&& is_sep(os, s[0])
    &&& is_sep(os, s[1])
    &&& s[2] == '.'
    &&& is_sep(os, s[3])
}

/// Whether a path begins with a share: two separators, a server, a separator and a share name.
pub open spec fn is_share(os: Os, s: Seq<char>) -> bool {
    let server = run_end(plain_rules(os), s, 2);
    &&& os is Windows
    &&& !is_verbatim(os, s)
    &&& !is_device(os, s)
    &&& s.len() > 2
    &&& is_sep(os, s[0])
    &&& is_sep(os, s[1])
    &&& server > 2
    &&& server + 1 < s.len()
    &&& !is_sep(os, s[server + 1])
}

/// Whether a verbatim path begins with a share: `\\?\UNC\` and what follows.
pub open spec fn is_verbatim_share(s: Seq<char>) -> bool {
    s.len() >= 8 && s[4] == 'U' && s[5] == 'N' && s[6] == 'C' && s[7] == '\\'
}

/// Whether a verbatim path begins with a drive and nothing more.
pub open spec fn is_verbatim_drive(s: Seq<char>) -> bool {
    s.len() >= 6 && is_letter(s[4]) && s[5] == ':' && (s.len() == 6 || s[6] == '/' || s[6] == '\\')
}

/// The length of the prefix of a verbatim path: a share with its server, a drive, or else the first
/// name.
pub open spec fn verbatim_len(s: Seq<char>) -> int {
    let q = verbatim_rules();
    if is_verbatim_share(s) {
        let server = run_end(q, s, 8);
        if server + 1 < s.len() && !cuts(q, s[server + 1]) {
            run_end(q, s, server + 1)
        } else {
            server
        }
    } else if is_verbatim_drive(s) {
        6
    } else {
        run_end(q, s, 4)
    }
}

/// The length of the drive, share, device or verbatim prefix that a path begins with.
pub open spec fn prefix_len(os: Os, s: Seq<char>) -> int {
    let q = plain_rules(os);
    if is_verbatim(os, s) {
        verbatim_len(s)
    } else if is_device(os, s) {
        run_end(q, s, 4)
    } else if is_share(os, s) {
        run_end(q, s, run_end(q, s, 2) + 1)
    } else if os is Windows && s.len() >= 2 && is_letter(s[0]) && s[1] == ':' {
        2
    } else {
        0
    }
}

/// Whether a separator follows the prefix.
pub open spec fn sep_after_prefix(os: Os, s: Seq<char>) -> bool {
    prefix_len(os, s) < s.len() && is_sep(os, s[prefix_len(os, s)])
}

/// Whether the components of a path start at the root. Those of a share or a device always do.
pub open spec fn is_rooted(os: Os, s: Seq<char>) -> bool {
    sep_after_prefix(os, s) || is_share(os, s) || is_device(os, s)
}

/// The length of the prefix and the root separator.
pub open spec fn root_len(os: Os, s: Seq<char>) -> int {
    prefix_len(os, s) + (if sep_after_prefix(os, s) {
        1int
    } else {
        0
    })
}

/// The pieces that are components: not the empty ones, and no `.` but one that a path begins with
/// that has neither prefix nor root. In a verbatim path every `.` is one.
pub open spec fn kept(ps: Seq<Seq<char>>, keeps_dots: bool, bare: bool) -> Seq<Seq<char>>
    decreases ps.len(),
{
    if ps.len() == 0 {
        seq![]
    } else {
        let before = kept(ps.drop_last(), keeps_dots, bare);
        if ps.last().len() == 0 || (is_dot(ps.last()) && !keeps_dots && (!bare || ps.len() > 1)) {
            before
        } else {
            before.push(ps.last())
        }
    }
}

/// The current directory.
pub open spec fn is_dot(p: Seq<char>) -> bool {
    p.len() == 1 && p[0] == '.'
}

/// The directory above.
pub open spec fn is_dot_dot(p: Seq<char>) -> bool {
    p.len() == 2 && p[0] == '.' && p[1] == '.'
}

/// A path taken apart.
pub open spec fn parsed(os: Os, s: Seq<char>) -> PathView {
    PathView {
        prefix: s.take(prefix_len(os, s)),
        rooted: is_rooted(os, s),
        parts: kept(
            strings::pieces(
                s.skip(root_len(os, s)),
                rules_of(os, s).slash,
                rules_of(os, s).back,
            ),
            rules_of(os, s).keeps_dots,
            !is_rooted(os, s) && prefix_len(os, s) == 0,
        ),
    }
}

/// A prefix by which it can be told from others: whichever separators it is written with, unless it
/// is verbatim.
pub open spec fn prefix_key(os: Os, p: Seq<char>) -> Seq<char> {
    if is_verbatim(os, p) {
        p
    } else {
        p.map_values(
            |c: char|
                if is_sep(os, c) {
                    second_separator(os)
                } else {
                    c
                },
        )
    }
}

/// The place that a path names.
pub open spec fn located(os: Os, s: Seq<char>) -> PathView {
    PathView { prefix: prefix_key(os, parsed(os, s).prefix), ..parsed(os, s) }
}

/// A path that names one place whatever the current directory is.
pub open spec fn absolute(os: Os, p: PathView) -> bool {
    p.rooted && (os is Windows ==> p.prefix.len() > 0)
}

/// `rel` seen from `base`.
pub open spec fn beneath(base: PathView, rel: PathView) -> PathView {
    if rel.rooted {
        PathView { prefix: base.prefix, rooted: true, parts: rel.parts }
    } else {
        PathView { prefix: base.prefix, rooted: base.rooted, parts: base.parts + rel.parts }
    }
}

/// The components without `.`, and with each `..` and the name before it taken out. At the root
/// there is nothing above; in a relative path a `..` with no name before it stays.
pub open spec fn collapsed(parts: Seq<Seq<char>>, anchored: bool) -> Seq<Seq<char>>
    decreases parts.len(),
{
    if parts.len() == 0 {
        seq![]
    } else {
        let before = collapsed(parts.drop_last(), anchored);
        if is_dot(parts.last()) {
            before
        } else if is_dot_dot(parts.last()) {
            if before.len() > 0 && !is_dot_dot(before.last()) {
                before.drop_last()
            } else if before.len() == 0 && anchored {
                before
            } else {
                before.push(parts.last())
            }
        } else {
            before.push(parts.last())
        }
    }
}

/// The shortest spelling of the same path, found on the text alone.
pub open spec fn normal(p: PathView) -> PathView {
    PathView {
        prefix: p.prefix,
        rooted: p.rooted,
        parts: collapsed(p.parts, p.rooted || p.prefix.len() > 0),
    }
}

/// Whether a separator stands before the components: that of the root, or one that sets a prefix
/// other than a drive apart.
pub open spec fn set_apart(p: PathView) -> bool {
    p.rooted || (p.prefix.len() > 2 && p.parts.len() > 0)
}

/// The spelling of a path with the system's own separator.
pub open spec fn spelled(os: Os, p: PathView) -> Seq<char> {
    let text = p.prefix + (if set_apart(p) {
        seq![second_separator(os)]
    } else {
        seq![]
    }) + strings::joined(p.parts, second_separator(os));
    if text.len() == 0 {
        seq!['.']
    } else {
        text
    }
}

/// `s` without white space at its ends and then without one pair of double quotes around it.
pub open spec fn unquoted(s: Seq<char>) -> Seq<char> {
    let t = strings::trimmed(s);
    if t.len() >= 2 && t[0] == '"' && t.last() == '"' {
        t.subrange(1, t.len() - 1)
    } else {
        t
    }
}

/// The directory that `input` names, seen from `cwd`, before it is put in normal form. Nothing
/// typed means the current directory; what is absolute, or names a drive or a share, stands as
/// typed.
pub open spec fn named_dir(os: Os, input: Seq<char>, cwd: Seq<char>) -> PathView {
    let typed = strings::trimmed(unquoted(input));
    let p = parsed(
        os,
        if typed.len() == 0 {
            seq!['.']
        } else {
            typed
        },
    );
    if absolute(os, p) || p.prefix.len() > 0 {
        p
    } else {
        beneath(parsed(os, cwd), p)
    }
}

// ---------------------------------------------------------------------------------------------
// Taking a path apart
// ---------------------------------------------------------------------------------------------

fn other_separator(os: Os) -> (r: char)
    ensures
        r == second_separator(os),
{
    match os {
        Os::Windows => '\\',
        _ => '/',
    }
}

fn sep(os: Os, c: char) -> (r: bool)
    ensures
        r == is_sep(os, c),
{
    c == '/' || c == other_separator(os)
}

fn cut(q: Rules, c: char) -> (r: bool)
    ensures
        r == cuts(q, c),
{
    c == q.slash || c == q.back
}

fn plain(os: Os) -> (r: Rules)
    ensures
        r == plain_rules(os),
{
    Rules { slash: '/', back: other_separator(os), keeps_dots: false }
}

fn verbatim(os: Os, cs: &[char]) -> (r: bool)
    ensures
        r == is_verbatim(os, cs@),
{
    is_windows(os) && cs.len() >= 4 && cs[0] == '\\' && cs[1] == '\\' && cs[2] == '?' && cs[3]
        == '\\'
}

fn rules_for(os: Os, cs: &[char]) -> (r: Rules)
    ensures
        r == rules_of(os, cs@),
{
    if verbatim(os, cs) {
        Rules { slash: '\\', back: '\\', keeps_dots: true }
    } else {
        plain(os)
    }
}

proof fn lemma_run_end(q: Rules, s: Seq<char>, from: int)
    requires
        0 <= from <= s.len(),
    ensures
        from <= run_end(q, s, from) <= s.len(),
        run_end(q, s, from) < s.len() ==> cuts(q, s[run_end(q, s, from)]),
    decreases s.len() - from,
{
    if from < s.len() && !cuts(q, s[from]) {
        lemma_run_end(q, s, from + 1);
    }
}

/// The prefix and root lie within the path.
pub proof fn lemma_root_len(os: Os, s: Seq<char>)
    ensures
        0 <= prefix_len(os, s) <= root_len(os, s) <= s.len(),
{
    let q = plain_rules(os);
    let v = verbatim_rules();
    if is_verbatim(os, s) {
        lemma_run_end(v, s, 4);
        if is_verbatim_share(s) {
            lemma_run_end(v, s, 8);
            if run_end(v, s, 8) + 1 < s.len() {
                lemma_run_end(v, s, run_end(v, s, 8) + 1);
            }
        }
    } else if is_device(os, s) {
        lemma_run_end(q, s, 4);
    } else if is_share(os, s) {
        lemma_run_end(q, s, 2);
        lemma_run_end(q, s, run_end(q, s, 2) + 1);
    }
}

fn end_of_run(q: Rules, cs: &[char], from: usize) -> (r: usize)
    requires
        from <= cs@.len(),
    ensures
        r == run_end(q, cs@, from as int),
        from <= r <= cs@.len(),
{
    let mut i: usize = from;
    while i < cs.len() && !cut(q, cs[i])
        invariant
            from <= i <= cs@.len(),
            run_end(q, cs@, from as int) == run_end(q, cs@, i as int),
        decreases cs@.len() - i,
    {
        i += 1;
    }
    i
}

fn is_windows(os: Os) -> (r: bool)
    ensures
        r == (os is Windows),
{
    match os {
        Os::Windows => true,
        _ => false,
    }
}

fn letter(c: char) -> (r: bool)
    ensures
        r == is_letter(c),
{
    ('a' <= c && c <= 'z') || ('A' <= c && c <= 'Z')
}

/// The length of the prefix of a verbatim path.
fn verbatim_end(cs: &[char]) -> (r: usize)
    requires
        cs@.len() >= 4,
    ensures
        r == verbatim_len(cs@),
{
    let q = Rules { slash: '\\', back: '\\', keeps_dots: true };
    let n = cs.len();
    if n >= 8 && cs[4] == 'U' && cs[5] == 'N' && cs[6] == 'C' && cs[7] == '\\' {
        let server = end_of_run(q, cs, 8);
        if server < n - 1 && !cut(q, cs[server + 1]) {
            end_of_run(q, cs, server + 1)
        } else {
            server
        }
    } else if n >= 6 && letter(cs[4]) && cs[5] == ':' && (n == 6 || cs[6] == '/' || cs[6] == '\\') {
        6
    } else {
        end_of_run(q, cs, 4)
    }
}

/// The length of the prefix, and whether it is one whose components start at the root.
fn prefix_of(os: Os, cs: &[char]) -> (r: (usize, bool))
    ensures
        r.0 == prefix_len(os, cs@),
        r.1 == (is_share(os, cs@) || is_device(os, cs@)),
        r.0 <= cs@.len(),
{
    proof {
        lemma_root_len(os, cs@);
        if cs@.len() >= 2 {
            lemma_run_end(plain_rules(os), cs@, 2);
        }
    }
    if !is_windows(os) || cs.len() < 2 {
        return (0, false);
    }
    if verbatim(os, cs) {
        return (verbatim_end(cs), false);
    }
    let q = plain(os);
    if sep(os, cs[0]) && sep(os, cs[1]) {
        if cs.len() >= 4 && cs[2] == '.' && sep(os, cs[3]) {
            return (end_of_run(q, cs, 4), true);
        }
        let server = end_of_run(q, cs, 2);
        if server > 2 && server < cs.len() - 1 && !sep(os, cs[server + 1]) {
            return (end_of_run(q, cs, server + 1), true);
        }
    }
    if letter(cs[0]) && cs[1] == ':' {
        return (2, false);
    }
    (0, false)
}

/// The components among the pieces.
fn keep_parts(ps: &[String], keeps_dots: bool, bare: bool) -> (r: Vec<String>)
    ensures
        strings::views(r@) == kept(strings::views(ps@), keeps_dots, bare),
{
    let mut out: Vec<String> = Vec::new();
    let mut i: usize = 0;
    assert(strings::views(out@) =~= kept(strings::views(ps@).take(0), keeps_dots, bare));
    while i < ps.len()
        invariant
            i <= ps@.len(),
            strings::views(out@) == kept(
                strings::views(ps@).take(i as int),
                keeps_dots,
                bare,
            ),
        decreases ps@.len() - i,
    {
        broadcast use strings::lemma_views_push;

        proof {
            let next = strings::views(ps@).take(i as int + 1);
            assert(next.drop_last() =~= strings::views(ps@).take(i as int));
            assert(next.last() == ps@[i as int]@);
        }
        let p = ps[i].as_str();
        if !(p.is_empty() || (dot(p) && !keeps_dots && (!bare || i > 0))) {
            out.push(ps[i].clone());
        }
        i += 1;
    }
    assert(strings::views(ps@).take(i as int) =~= strings::views(ps@));
    out
}

fn dot(p: &str) -> (r: bool)
    ensures
        r == is_dot(p@),
{
    let cs = strings::chars_of(p);
    cs.len() == 1 && cs[0] == '.'
}

fn dot_dot(p: &str) -> (r: bool)
    ensures
        r == is_dot_dot(p@),
{
    let cs = strings::chars_of(p);
    cs.len() == 2 && cs[0] == '.' && cs[1] == '.'
}

/// Takes a path apart.
pub fn parse_path(os: Os, s: &str) -> (r: PathParts)
    ensures
        r@ == parsed(os, s@),
{
    let cs = strings::chars_of(s);
    let (plen, rooted_anyhow) = prefix_of(os, cs.as_slice());
    let q = rules_for(os, cs.as_slice());
    let after = plen < cs.len() && sep(os, cs[plen]);
    let start: usize = if after {
        plen + 1
    } else {
        plen
    };
    let rooted = after || rooted_anyhow;
    let prefix = strings::string_of(vstd::slice::slice_subrange(cs.as_slice(), 0, plen));
    let n = cs.len();
    let body = vstd::slice::slice_subrange(cs.as_slice(), start, n);
    let ps = strings::split_chars(body, q.slash, q.back);
    let parts = keep_parts(ps.as_slice(), q.keeps_dots, !rooted && plen == 0);
    PathParts { prefix, rooted, parts }
}

fn key_of_prefix(os: Os, p: &str) -> (r: String)
    ensures
        r@ == prefix_key(os, p@),
{
    let cs = strings::chars_of(p);
    if verbatim(os, cs.as_slice()) {
        return p.to_owned();
    }
    let back = other_separator(os);
    let mut out: Vec<char> = Vec::new();
    let mut i: usize = 0;
    while i < cs.len()
        invariant
            i <= cs@.len(),
            out@.len() == i,
            back == second_separator(os),
            forall|k: int|
                0 <= k < i ==> #[trigger] out@[k] == (if is_sep(os, cs@[k]) {
                    second_separator(os)
                } else {
                    cs@[k]
                }),
        decreases cs@.len() - i,
    {
        if sep(os, cs[i]) {
            out.push(back);
        } else {
            out.push(cs[i]);
        }
        i += 1;
    }
    assert(out@ =~= prefix_key(os, p@));
    strings::string_of(out.as_slice())
}

/// The place that a path names.
pub fn locate(os: Os, s: &str) -> (r: PathParts)
    ensures
        r@ == located(os, s@),
{
    let p = parse_path(os, s);
    let prefix = key_of_prefix(os, p.prefix.as_str());
    PathParts { prefix, rooted: p.rooted, parts: p.parts }
}

/// Whether two paths are the same, component by component.
pub fn same_path(os: Os, a: &str, b: &str) -> (r: bool)
    ensures
        r == (located(os, a@) == located(os, b@)),
{
    let x = locate(os, a);
    let y = locate(os, b);
    same_place(&x, &y)
}

/// Whether two places are the same.
pub fn same_place(x: &PathParts, y: &PathParts) -> (r: bool)
    ensures
        r == (x@ == y@),
{
    if !strings::same_str(x.prefix.as_str(), y.prefix.as_str()) || x.rooted != y.rooted
        || x.parts.len() != y.parts.len() {
        assert(x@.parts.len() == x.parts@.len() && y@.parts.len() == y.parts@.len());
        return false;
    }
    let mut i: usize = 0;
    while i < x.parts.len()
        invariant
            i <= x.parts@.len() == y.parts@.len(),
            forall|k: int| 0 <= k < i ==> (#[trigger] x.parts@[k])@ == y.parts@[k]@,
        decreases x.parts@.len() - i,
    {
        if !strings::same_str(x.parts[i].as_str(), y.parts[i].as_str()) {
            assert(x@.parts[i as int] != y@.parts[i as int]);
            return false;
        }
        i += 1;
    }
    assert(x@.parts =~= y@.parts);
    true
}

// ---------------------------------------------------------------------------------------------
// Resolving a typed directory
// ---------------------------------------------------------------------------------------------

/// `s` without white space at its ends and then without one pair of double quotes around it.
pub fn strip_surrounding_quotes(s: &str) -> (r: String)
    ensures
        r@ == unquoted(s@),
{
    let cs = strings::chars_of(s);
    let t = strings::trim_chars(cs.as_slice());
    if t.len() >= 2 && t[0] == '"' && t[t.len() - 1] == '"' {
        strings::string_of(vstd::slice::slice_subrange(t, 1, t.len() - 1))
    } else {
        strings::string_of(t)
    }
}

/// Puts a path in normal form: no `.`, and no `..` that a name before it cancels.
pub fn normalize_components(os: Os, p: &PathParts) -> (r: String)
    ensures
        r@ == spelled(os, normal(p@)),
{
    let anchored = p.rooted || !p.prefix.as_str().is_empty();
    let parts = collapse(p.parts.as_slice(), anchored);
    let s = other_separator(os);
    let mut out = String::new();
    out.push_str(p.prefix.as_str());
    if p.rooted || (!short_prefix(p.prefix.as_str()) && parts.len() > 0) {
        out.push(s);
    }
    out.push_str(strings::join(parts.as_slice(), s).as_str());
    assert(strings::views(parts@).len() == parts@.len());
    assert(out@ =~= p@.prefix + (if set_apart(normal(p@)) {
        seq![second_separator(os)]
    } else {
        seq![]
    }) + strings::joined(strings::views(parts@), second_separator(os)));
    if out.as_str().is_empty() {
        out.push('.');
        assert(out@ =~= seq!['.']);
    }
    out
}

fn short_prefix(p: &str) -> (r: bool)
    ensures
        r == (p@.len() <= 2),
{
    strings::chars_of(p).len() <= 2
}

fn collapse(parts: &[String], anchored: bool) -> (r: Vec<String>)
    ensures
        strings::views(r@) == collapsed(strings::views(parts@), anchored),
{
    let mut out: Vec<String> = Vec::new();
    let mut i: usize = 0;
    assert(strings::views(out@) =~= collapsed(strings::views(parts@).take(0), anchored));
    while i < parts.len()
        invariant
            i <= parts@.len(),
            strings::views(out@) == collapsed(strings::views(parts@).take(i as int), anchored),
        decreases parts@.len() - i,
    {
        broadcast use strings::lemma_views_push;

        let ghost before = strings::views(out@);
        proof {
            let next = strings::views(parts@).take(i as int + 1);
            assert(next.drop_last() =~= strings::views(parts@).take(i as int));
            assert(next.last() == parts@[i as int]@);
            if out@.len() > 0 {
                assert(before.last() == out@.last()@);
                assert(strings::views(out@.drop_last()) =~= before.drop_last());
            }
        }
        let p = parts[i].as_str();
        if dot(p) {
        } else if dot_dot(p) {
            let n = out.len();
            if n > 0 && !dot_dot(out[n - 1].as_str()) {
                out.pop();
            } else if n == 0 && anchored {
            } else {
                out.push(parts[i].clone());
            }
        } else {
            out.push(parts[i].clone());
        }
        i += 1;
    }
    assert(strings::views(parts@).take(i as int) =~= strings::views(parts@));
    out
}

/// The directory that the user's `input` names, as an absolute path in normal form where `cwd` is
/// absolute. The directory need not exist.
pub fn resolve_watch_dir(os: Os, input: &str, cwd: &str) -> (r: String)
    ensures
        r@ == spelled(os, normal(named_dir(os, input@, cwd@))),
{
    let inner = strip_surrounding_quotes(input);
    let typed = strings::trim(inner.as_str());
    let p = if typed.as_str().is_empty() {
        let mut here = String::new();
        here.push('.');
        assert(here@ =~= seq!['.']);
        parse_path(os, here.as_str())
    } else {
        parse_path(os, typed.as_str())
    };
    let prefixed = !p.prefix.as_str().is_empty();
    if prefixed || (p.rooted && !is_windows(os)) {
        return normalize_components(os, &p);
    }
    let mut whole = parse_path(os, cwd);
    let ghost base = whole@;
    if p.rooted {
        whole = PathParts { prefix: whole.prefix, rooted: true, parts: p.parts };
        assert(whole@ == beneath(base, p@));
    } else {
        let ghost mid = whole.parts@;
        let mut more = p.parts;
        whole.parts.append(&mut more);
        assert(strings::views(whole.parts@) =~= base.parts + p@.parts);
        assert(whole@ == beneath(base, p@));
    }
    normalize_components(os, &whole)
}

// ---------------------------------------------------------------------------------------------
// A file's directory and name
// ---------------------------------------------------------------------------------------------

/// The last character is a `.` that stands alone between separators, or at the root.
pub open spec fn ends_in_dot(q: Rules, s: Seq<char>, floor: int, rooted: bool) -> bool {
    &&& !q.keeps_dots
    &&& s.len() > floor
    &&& s.last() == '.'
    &&& if s.len() - 1 == floor {
        rooted
    } else {
        cuts(q, s[s.len() - 2])
    }
}

/// `s` without the separators and lone dots at its end, but for the first `floor` characters.
pub open spec fn bare_end(q: Rules, s: Seq<char>, floor: int, rooted: bool) -> Seq<char>
    decreases s.len(),
{
    if s.len() > floor && s.len() > 0 && (cuts(q, s.last()) || ends_in_dot(
        q,
        s,
        floor,
        rooted,
    )) {
        bare_end(q, s.drop_last(), floor, rooted)
    } else {
        s
    }
}

/// `s` without its last run of non-separators, but for the first `floor` characters.
pub open spec fn before_name(q: Rules, s: Seq<char>, floor: int) -> Seq<char>
    decreases s.len(),
{
    if s.len() > floor && s.len() > 0 && !cuts(q, s.last()) {
        before_name(q, s.drop_last(), floor)
    } else {
        s
    }
}

/// The directory that holds a path: what precedes its last component. A root holds itself alone,
/// so there the directory is empty, as it is for a lone name.
pub open spec fn parent_dir(os: Os, path: Seq<char>) -> Seq<char> {
    let q = rules_of(os, path);
    let floor = root_len(os, path);
    let t = bare_end(q, path, floor, is_rooted(os, path));
    if t.len() <= floor {
        seq![]
    } else {
        bare_end(q, before_name(q, t, floor), floor, is_rooted(os, path))
    }
}

/// The name at the end of a path, or the whole path where it does not end in one.
pub open spec fn name_at_end(os: Os, path: Seq<char>) -> Seq<char> {
    let q = rules_of(os, path);
    let floor = root_len(os, path);
    let t = bare_end(q, path, floor, is_rooted(os, path));
    let name = t.skip(before_name(q, t, floor).len() as int);
    if name.len() == 0 || is_dot(name) || is_dot_dot(name) {
        path
    } else {
        name
    }
}

fn bare_end_of(q: Rules, cs: &[char], n: usize, floor: usize, rooted: bool) -> (r: usize)
    requires
        floor <= n <= cs@.len(),
    ensures
        floor <= r <= n,
        cs@.take(r as int) == bare_end(q, cs@.take(n as int), floor as int, rooted),
{
    let mut k: usize = n;
    while k > floor && (cut(q, cs[k - 1]) || (!q.keeps_dots && cs[k - 1] == '.' && ((k - 1 == floor
        && rooted) || (k - 1 > floor && cut(q, cs[k - 2])))))
        invariant
            floor <= k <= n <= cs@.len(),
            bare_end(q, cs@.take(n as int), floor as int, rooted) == bare_end(
                q,
                cs@.take(k as int),
                floor as int,
                rooted,
            ),
        decreases k,
    {
        proof {
            let t = cs@.take(k as int);
            assert(t.last() == cs@[k - 1]);
            if k >= 2 {
                assert(t[k - 2] == cs@[k - 2]);
            }
            assert(t.drop_last() =~= cs@.take(k - 1));
        }
        k -= 1;
    }
    proof {
        let t = cs@.take(k as int);
        if k > floor {
            assert(t.last() == cs@[k - 1]);
            if k >= 2 {
                assert(t[k - 2] == cs@[k - 2]);
            }
        }
    }
    k
}

fn before_name_of(q: Rules, cs: &[char], n: usize, floor: usize) -> (r: usize)
    requires
        floor <= n <= cs@.len(),
    ensures
        floor <= r <= n,
        cs@.take(r as int) == before_name(q, cs@.take(n as int), floor as int),
{
    let mut k: usize = n;
    while k > floor && !cut(q, cs[k - 1])
        invariant
            floor <= k <= n <= cs@.len(),
            before_name(q, cs@.take(n as int), floor as int) == before_name(
                q,
                cs@.take(k as int),
                floor as int,
            ),
        decreases k,
    {
        proof {
            assert(cs@.take(k as int).last() == cs@[k - 1]);
            assert(cs@.take(k as int).drop_last() =~= cs@.take(k - 1));
        }
        k -= 1;
    }
    proof {
        if k > floor {
            assert(cs@.take(k as int).last() == cs@[k - 1]);
        }
    }
    k
}

/// The length of the prefix and root of a path, and whether it is rooted.
fn root_of(os: Os, cs: &[char]) -> (r: (usize, bool))
    ensures
        r.0 == root_len(os, cs@),
        r.1 == is_rooted(os, cs@),
        r.0 <= cs@.len(),
{
    let (plen, rooted_anyhow) = prefix_of(os, cs);
    let after = plen < cs.len() && sep(os, cs[plen]);
    if after {
        (plen + 1, true)
    } else {
        (plen, rooted_anyhow)
    }
}

/// The directory that holds a path.
pub fn parent_of(os: Os, path: &str) -> (r: String)
    ensures
        r@ == parent_dir(os, path@),
{
    let cs = strings::chars_of(path);
    let (floor, rooted) = root_of(os, cs.as_slice());
    let q = rules_for(os, cs.as_slice());
    let n = cs.len();
    assert(cs@.take(n as int) =~= cs@);
    let t = bare_end_of(q, cs.as_slice(), n, floor, rooted);
    if t <= floor {
        return String::new();
    }
    let b = before_name_of(q, cs.as_slice(), t, floor);
    let e = bare_end_of(q, cs.as_slice(), b, floor, rooted);
    strings::string_of(vstd::slice::slice_subrange(cs.as_slice(), 0, e))
}

/// The name at the end of a path, or the whole path where it does not end in one.
pub fn name_of(os: Os, path: &str) -> (r: String)
    ensures
        r@ == name_at_end(os, path@),
{
    let cs = strings::chars_of(path);
    let (floor, rooted) = root_of(os, cs.as_slice());
    let q = rules_for(os, cs.as_slice());
    let n = cs.len();
    assert(cs@.take(n as int) =~= cs@);
    let t = bare_end_of(q, cs.as_slice(), n, floor, rooted);
    let b = before_name_of(q, cs.as_slice(), t, floor);
    assert(cs@.take(t as int).skip(b as int) =~= cs@.subrange(b as int, t as int));
    let name = strings::string_of(vstd::slice::slice_subrange(cs.as_slice(), b, t));
    if name.as_str().is_empty() || dot(name.as_str()) || dot_dot(name.as_str()) {
        path.to_owned()
    } else {
        name
    }
}

// ---------------------------------------------------------------------------------------------
// Laws
// ---------------------------------------------------------------------------------------------

/// A normal form holds no `.`, and no `..` either where the path is anchored at a root, a drive or
/// a share.
pub proof fn normal_form_has_no_dots(parts: Seq<Seq<char>>, anchored: bool)
    ensures
        forall|i: int|
            0 <= i < collapsed(parts, anchored).len() ==> !is_dot(
                #[trigger] collapsed(parts, anchored)[i],
            ) && (anchored ==> !is_dot_dot(collapsed(parts, anchored)[i])),
    decreases parts.len(),
{
    if parts.len() > 0 {
        normal_form_has_no_dots(parts.drop_last(), anchored);
        let before = collapsed(parts.drop_last(), anchored);
        let after = collapsed(parts, anchored);
        assert forall|i: int| 0 <= i < after.len() implies !is_dot(#[trigger] after[i]) && (
        anchored ==> !is_dot_dot(after[i])) by {
            if i < before.len() {
                assert(after[i] == before[i]);
            }
            if before.len() > 0 {
                assert(!is_dot(before[before.len() - 1]));
            }
        }
    }
}

/// In a normal form every `..` stands before every name.
proof fn lemma_dot_dots_lead(parts: Seq<Seq<char>>, anchored: bool)
    ensures
        forall|i: int, j: int|
            0 <= i < j < collapsed(parts, anchored).len() && is_dot_dot(
                #[trigger] collapsed(parts, anchored)[j],
            ) ==> is_dot_dot(#[trigger] collapsed(parts, anchored)[i]),
    decreases parts.len(),
{
    if parts.len() > 0 {
        lemma_dot_dots_lead(parts.drop_last(), anchored);
        let before = collapsed(parts.drop_last(), anchored);
        let after = collapsed(parts, anchored);
        assert forall|i: int, j: int|
            0 <= i < j < after.len() && is_dot_dot(#[trigger] after[j]) implies is_dot_dot(
            #[trigger] after[i],
        ) by {
            assert(after[i] == before[i]);
            if j < before.len() {
                assert(after[j] == before[j]);
            } else {
                assert(is_dot_dot(before.last()));
                if i < before.len() - 1 {
                    assert(is_dot_dot(before[before.len() - 1]));
                }
            }
        }
    }
}

/// A sequence without dots to take out collapses to itself.
proof fn lemma_collapsed_fixed(parts: Seq<Seq<char>>, anchored: bool)
    requires
        forall|i: int|
            0 <= i < parts.len() ==> !is_dot(#[trigger] parts[i]) && (anchored ==> !is_dot_dot(
                parts[i],
            )),
        forall|i: int, j: int|
            0 <= i < j < parts.len() && is_dot_dot(#[trigger] parts[j]) ==> is_dot_dot(
                #[trigger] parts[i],
            ),
    ensures
        collapsed(parts, anchored) == parts,
    decreases parts.len(),
{
    if parts.len() > 0 {
        let init = parts.drop_last();
        assert forall|i: int| 0 <= i < init.len() implies !is_dot(#[trigger] init[i]) && (anchored
            ==> !is_dot_dot(init[i])) by {
            assert(init[i] == parts[i]);
        }
        assert forall|i: int, j: int|
            0 <= i < j < init.len() && is_dot_dot(#[trigger] init[j]) implies is_dot_dot(
            #[trigger] init[i],
        ) by {
            assert(init[i] == parts[i] && init[j] == parts[j]);
        }
        lemma_collapsed_fixed(init, anchored);
        let last = parts[parts.len() - 1];
        assert(!is_dot(last));
        if is_dot_dot(last) && init.len() > 0 {
            assert(is_dot_dot(parts[parts.len() - 2]));
        }
        assert(init.push(parts.last()) =~= parts);
    } else {
        assert(parts =~= seq![]);
    }
}

/// Normal form is final: taking it twice changes nothing.
pub proof fn normal_form_is_final(p: PathView)
    ensures
        normal(normal(p)) == normal(p),
{
    let anchored = p.rooted || p.prefix.len() > 0;
    normal_form_has_no_dots(p.parts, anchored);
    lemma_dot_dots_lead(p.parts, anchored);
    lemma_collapsed_fixed(collapsed(p.parts, anchored), anchored);
}

/// What a user types is resolved to a rooted path whenever the current directory is one, unless
/// they name a drive by its letter alone.
pub proof fn resolved_is_rooted(os: Os, input: Seq<char>, cwd: Seq<char>)
    requires
        parsed(os, cwd).rooted,
    ensures
        normal(named_dir(os, input, cwd)).rooted || (os is Windows && named_dir(
            os,
            input,
            cwd,
        ).prefix.len() > 0),
{
    let typed = strings::trimmed(unquoted(input));
    let t = if typed.len() == 0 {
        seq!['.']
    } else {
        typed
    };
    lemma_root_len(os, t);
    if !(os is Windows) {
        assert(parsed(os, t).prefix.len() == 0);
    }
}

/// On Linux and macOS a path is rooted where it begins with a slash, and has no prefix.
pub proof fn a_slash_in_front_is_the_root(os: Os, s: Seq<char>)
    requires
        !(os is Windows),
    ensures
        parsed(os, s).prefix == Seq::<char>::empty(),
        parsed(os, s).rooted == (s.len() > 0 && s[0] == '/'),
        parsed(os, seq![]).parts == Seq::<Seq<char>>::empty(),
        parsed(os, seq!['/']).parts == Seq::<Seq<char>>::empty(),
        located(os, s).rooted == parsed(os, s).rooted && located(os, s).parts == parsed(
            os,
            s,
        ).parts && located(os, s).prefix.len() == 0,
{
    reveal_with_fuel(strings::pieces, 2);
    reveal_with_fuel(kept, 2);
    let none = Seq::<char>::empty();
    let root = seq!['/'];
    assert(none.skip(0) =~= none);
    assert(root.skip(1) =~= none);
    assert(seq![none].drop_last() =~= Seq::<Seq<char>>::empty());
    assert(seq![none].last() == none);
    assert(kept(seq![none], false, true) == Seq::<Seq<char>>::empty());
    assert(kept(seq![none], false, false) == Seq::<Seq<char>>::empty());
    assert(s.take(0) =~= none);
}

/// A name behind a separator is one more component; nothing behind it, and a lone dot, are none. On
/// Windows either separator will do, and this holds of paths that begin with a drive, or with one
/// separator or none.
pub proof fn a_name_behind_a_separator_is_a_component(
    os: Os,
    s: Seq<char>,
    sep: char,
    name: Seq<char>,
)
    requires
        sep == '/' || (os is Windows && sep == '\\'),
        s.len() > 0,
        os is Windows ==> s.len() >= 3 && !((s[0] == '/' || s[0] == '\\') && (s[1] == '/' || s[1]
            == '\\')),
        forall|i: int|
            0 <= i < name.len() ==> (#[trigger] name[i]) != '/' && (os is Windows ==> name[i]
                != '\\'),
    ensures
        ({
            let p = parsed(os, s);
            let q = parsed(os, s.push(sep) + name);
            &&& q.prefix == p.prefix
            &&& q.rooted == p.rooted
            &&& name.len() == 0 || name == seq!['.'] ==> q.parts == p.parts
            &&& name.len() > 0 && name != seq!['.'] ==> q.parts == p.parts.push(name)
        }),
{
    let whole = s.push(sep) + name;
    lemma_root_len(os, s);
    lemma_root_len(os, whole);
    assert(whole[0] == s[0]);
    if s.len() > 1 {
        assert(whole[1] == s[1]);
    }
    if s.len() > 2 {
        assert(whole[2] == s[2]);
    }
    let r = root_len(os, s);
    assert(prefix_len(os, whole) == prefix_len(os, s));
    assert(root_len(os, whole) == r);
    assert(whole.take(prefix_len(os, s)) =~= s.take(prefix_len(os, s)));
    let a = s.skip(r);
    let rules = rules_of(os, s);
    assert(whole.skip(r) =~= a.push(sep) + name);
    strings::a_separator_parts_the_pieces(a, sep, name, rules.slash, rules.back);
    let ps = strings::pieces(a, rules.slash, rules.back);
    strings::a_separator_parts_the_pieces(seq![], sep, a, rules.slash, rules.back);
    lemma_some_pieces(a, rules.slash, rules.back);
    assert(ps + seq![name] =~= ps.push(name));
    assert(ps.push(name).drop_last() =~= ps);
    if is_dot(name) {
        assert(name =~= seq!['.']);
    }
}

proof fn lemma_some_pieces(s: Seq<char>, a: char, b: char)
    ensures
        strings::pieces(s, a, b).len() > 0,
    decreases s.len(),
{
    if s.len() > 0 {
        lemma_some_pieces(s.drop_last(), a, b);
    }
}

/// A path of one name has this component alone.
pub proof fn a_lone_name_is_a_component(os: Os, name: Seq<char>)
    requires
        !(os is Windows),
        name.len() > 0,
        forall|i: int| 0 <= i < name.len() ==> (#[trigger] name[i]) != '/',
    ensures
        parsed(os, name).parts == seq![name],
        !parsed(os, name).rooted,
        name != seq!['.'] ==> parsed(os, seq!['/'] + name).parts == seq![name] && parsed(
            os,
            seq!['/'] + name,
        ).rooted,
{
    reveal_with_fuel(kept, 2);
    assert(name[0] != '/');
    assert(name.skip(0) =~= name);
    strings::a_separator_parts_the_pieces(seq![], '/', name, '/', '/');
    assert(seq![name].drop_last() =~= Seq::<Seq<char>>::empty());
    assert(seq![name].last() == name);
    assert(Seq::<Seq<char>>::empty().push(name) =~= seq![name]);
    assert((seq!['/'] + name).skip(1) =~= name);
    if is_dot(name) {
        assert(name =~= seq!['.']);
    }
}

/// On Windows a letter and a colon in front are the drive, and what follows is rooted where it
/// begins with a separator.
pub proof fn a_letter_and_a_colon_are_a_drive(s: Seq<char>)
    requires
        s.len() >= 2,
        ('a' <= s[0] <= 'z') || ('A' <= s[0] <= 'Z'),
        s[1] == ':',
    ensures
        parsed(Os::Windows, s).prefix == s.take(2),
        parsed(Os::Windows, s).rooted == (s.len() > 2 && (s[2] == '/' || s[2] == '\\')),
{
}

/// Normal form is told from the components, one after the other: a dot goes; two dots take the name
/// before them with them, have nothing to take at the root, and stay where a relative path goes up;
/// every other component stays.
pub proof fn dots_are_taken_out_one_by_one(parts: Seq<Seq<char>>, p: Seq<char>, anchored: bool)
    ensures
        collapsed(seq![], anchored) == Seq::<Seq<char>>::empty(),
        ({
            let before = collapsed(parts, anchored);
            let after = collapsed(parts.push(p), anchored);
            &&& p == seq!['.'] ==> after == before
            &&& p == seq!['.', '.'] && before.len() > 0 && before.last() != seq!['.', '.']
                ==> after == before.drop_last()
            &&& p == seq!['.', '.'] && before.len() == 0 && anchored ==> after == before
            &&& p == seq!['.', '.'] && ((before.len() == 0 && !anchored) || (before.len() > 0
                && before.last() == seq!['.', '.'])) ==> after == before.push(p)
            &&& p != seq!['.'] && p != seq!['.', '.'] ==> after == before.push(p)
        }),
{
    assert(parts.push(p).drop_last() =~= parts);
    if is_dot(p) {
        assert(p =~= seq!['.']);
    }
    if is_dot_dot(p) {
        assert(p =~= seq!['.', '.']);
    }
    let before = collapsed(parts, anchored);
    if before.len() > 0 && is_dot_dot(before.last()) {
        assert(before.last() =~= seq!['.', '.']);
    }
}

/// A normal form keeps prefix and root and takes the dots out of the components. It is spelled with
/// the system's separator: prefix, root, and the components with one separator between each two; a
/// path of nothing is the current directory.
pub proof fn a_normal_path_is_spelled_in_order(os: Os, p: PathView)
    ensures
        normal(p).prefix == p.prefix && normal(p).rooted == p.rooted,
        normal(p).parts == collapsed(p.parts, p.rooted || p.prefix.len() > 0),
        ({
            let sep = if os is Windows {
                '\\'
            } else {
                '/'
            };
            &&& p.rooted ==> spelled(os, p) == p.prefix.push(sep) + strings::joined(p.parts, sep)
            &&& !p.rooted && p.prefix.len() <= 2 && (p.prefix + strings::joined(p.parts, sep)).len()
                > 0 ==> spelled(os, p) == p.prefix + strings::joined(p.parts, sep)
            &&& !p.rooted && p.prefix.len() == 0 && p.parts.len() == 0 ==> spelled(os, p) == seq![
                '.',
            ]
        }),
{
    let sep = second_separator(os);
    let none = Seq::<char>::empty();
    assert(p.prefix + seq![sep] =~= p.prefix.push(sep));
    assert(p.prefix + none =~= p.prefix);
    assert(p.prefix + none + strings::joined(p.parts, sep) =~= p.prefix + strings::joined(
        p.parts,
        sep,
    ));
}

/// White space and then one pair of quotes around a text are taken off.
pub proof fn one_pair_of_quotes_is_taken_off(s: Seq<char>, inner: Seq<char>)
    ensures
        strings::trimmed(s) == seq!['"'] + inner + seq!['"'] ==> unquoted(s) == inner,
        (strings::trimmed(s).len() < 2 || strings::trimmed(s)[0] != '"' || strings::trimmed(
            s,
        ).last() != '"') ==> unquoted(s) == strings::trimmed(s),
{
    let t = seq!['"'] + inner + seq!['"'];
    if strings::trimmed(s) == t {
        assert(t[0] == '"' && t.last() == '"');
        assert(t.subrange(1, t.len() - 1) =~= inner);
    }
}

/// What a user types is resolved against the current directory: on Linux and macOS a path that
/// begins at the root stands for itself, any other is looked up below the current directory, and
/// nothing typed is the current directory.
pub proof fn what_is_typed_is_looked_up_from_here(os: Os, input: Seq<char>, cwd: Seq<char>)
    requires
        !(os is Windows),
    ensures
        ({
            let typed = strings::trimmed(unquoted(input));
            let d = named_dir(os, input, cwd);
            &&& typed.len() > 0 && typed[0] == '/' ==> d == parsed(os, typed)
            &&& typed.len() > 0 && typed[0] != '/' ==> d == (PathView {
                prefix: d.prefix,
                rooted: parsed(os, cwd).rooted,
                parts: parsed(os, cwd).parts + parsed(os, typed).parts,
            }) && d.prefix.len() == 0
            &&& typed.len() == 0 ==> normal(d) == normal(parsed(os, cwd))
        }),
{
    let typed = strings::trimmed(unquoted(input));
    a_slash_in_front_is_the_root(os, typed);
    a_slash_in_front_is_the_root(os, cwd);
    let dot = seq!['.'];
    if typed.len() == 0 {
        a_slash_in_front_is_the_root(os, dot);
        a_lone_name_is_a_component(os, dot);
        let here = parsed(os, cwd).parts;
        assert(here + seq![dot] =~= here.push(dot));
        dots_are_taken_out_one_by_one(here, dot, parsed(os, cwd).rooted);
    }
}

/// On Windows what is absolute, or names a drive or a share, stands for itself; what begins with a
/// separator is looked up from the root of the current drive, and anything else below the current
/// directory.
pub proof fn what_is_typed_on_windows_is_looked_up_from_here(input: Seq<char>, cwd: Seq<char>)
    ensures
        ({
            let os = Os::Windows;
            let typed = strings::trimmed(unquoted(input));
            let p = parsed(os, typed);
            let here = parsed(os, cwd);
            let d = named_dir(os, input, cwd);
            &&& typed.len() > 0 && p.prefix.len() > 0 ==> d == p
            &&& typed.len() > 0 && p.prefix.len() == 0 && p.rooted ==> d == (PathView {
                prefix: here.prefix,
                rooted: true,
                parts: p.parts,
            })
            &&& typed.len() > 0 && p.prefix.len() == 0 && !p.rooted ==> d == (PathView {
                prefix: here.prefix,
                rooted: here.rooted,
                parts: here.parts + p.parts,
            })
        }),
{
}

proof fn lemma_before_name(q: Rules, base: Seq<char>, name: Seq<char>, floor: int)
    requires
        base.len() >= floor,
        base.len() == floor || (base.len() > 0 && cuts(q, base.last())),
        forall|i: int| 0 <= i < name.len() ==> !cuts(q, #[trigger] name[i]),
    ensures
        before_name(q, base + name, floor) == base,
    decreases name.len(),
{
    let whole = base + name;
    if name.len() == 0 {
        assert(whole =~= base);
    } else {
        let init = name.drop_last();
        assert(whole.last() == name[name.len() - 1]);
        assert(whole.drop_last() =~= base + init);
        assert forall|i: int| 0 <= i < init.len() implies !cuts(q, #[trigger] init[i]) by {
            assert(init[i] == name[i]);
        }
        lemma_before_name(q, base, init, floor);
    }
}

/// A file lies in the directory that its path names before the last separator, and its name is what
/// stands behind it. On Windows either separator will do, and this holds of paths that begin with a
/// drive, or with one separator or none.
pub proof fn a_file_lies_in_its_directory(os: Os, dir: Seq<char>, sep: char, name: Seq<char>)
    requires
        sep == '/' || (os is Windows && sep == '\\'),
        dir.len() > 0,
        os is Windows ==> dir.len() >= 3 && !((dir[0] == '/' || dir[0] == '\\') && (dir[1] == '/'
            || dir[1] == '\\')),
        dir.last() != '/' && (os is Windows ==> dir.last() != '\\'),
        dir.last() == '.' ==> dir.len() > 1 && dir[dir.len() - 2] != '/' && (os is Windows
            ==> dir[dir.len() - 2] != '\\'),
        name.len() > 0,
        name != seq!['.'],
        forall|i: int|
            0 <= i < name.len() ==> (#[trigger] name[i]) != '/' && (os is Windows ==> name[i]
                != '\\'),
    ensures
        parent_dir(os, dir.push(sep) + name) == dir,
        name != seq!['.', '.'] ==> name_at_end(os, dir.push(sep) + name) == name,
{
    let path = dir.push(sep) + name;
    let q = rules_of(os, path);
    assert(path[0] == dir[0]);
    if dir.len() > 1 {
        assert(path[1] == dir[1]);
    }
    if dir.len() > 2 {
        assert(path[2] == dir[2]);
    }
    let floor = root_len(os, path);
    let rooted = is_rooted(os, path);
    assert(!is_verbatim(os, path) && !is_device(os, path) && !is_share(os, path));
    assert(floor <= dir.len());
    assert forall|i: int| 0 <= i < name.len() implies !cuts(q, #[trigger] name[i]) by {
        assert(name[i] != '/' && (os is Windows ==> name[i] != '\\'));
    }
    assert(path.last() == name[name.len() - 1]);
    if path.last() == '.' {
        if name.len() == 1 {
            assert(name =~= seq!['.']);
        } else {
            assert(path[path.len() - 2] == name[name.len() - 2]);
        }
    }
    assert(!ends_in_dot(q, path, floor, rooted));
    assert(bare_end(q, path, floor, rooted) == path);
    let base = dir.push(sep);
    assert(cuts(q, base.last()));
    lemma_before_name(q, base, name, floor);
    assert(base.drop_last() =~= dir);
    assert(bare_end(q, base, floor, rooted) == bare_end(q, dir, floor, rooted));
    assert(!cuts(q, dir.last()));
    if dir.last() == '.' && dir.len() > floor {
        assert(!cuts(q, dir[dir.len() - 2]));
        if dir.len() - 1 == floor {
            assert(!rooted || cuts(q, dir[floor - 1]));
        }
    }
    assert(bare_end(q, dir, floor, rooted) == dir);
    assert(path.skip(base.len() as int) =~= name);
    if is_dot(name) {
        assert(name =~= seq!['.']);
    }
    if is_dot_dot(name) {
        assert(name =~= seq!['.', '.']);
    }
}

/// On Linux and macOS a file at the root lies in the root, and one without a directory in none.
pub proof fn a_file_at_the_root_lies_in_the_root(os: Os, name: Seq<char>)
    requires
        !(os is Windows),
        name.len() > 0,
        name != seq!['.'],
        forall|i: int| 0 <= i < name.len() ==> (#[trigger] name[i]) != '/',
    ensures
        parent_dir(os, seq!['/'] + name) == seq!['/'],
        parent_dir(os, name) == Seq::<char>::empty(),
        name != seq!['.', '.'] ==> name_at_end(os, seq!['/'] + name) == name && name_at_end(
            os,
            name,
        ) == name,
{
    let q = plain_rules(os);
    let root = seq!['/'];
    let path = root + name;
    let none = Seq::<char>::empty();
    assert(name[0] != '/');
    assert forall|i: int| 0 <= i < name.len() implies !cuts(q, #[trigger] name[i]) by {
        assert(name[i] != '/');
    }
    assert(path.last() == name[name.len() - 1]);
    if name.len() > 1 {
        assert(path[path.len() - 2] == name[name.len() - 2]);
    } else if name[0] == '.' {
        assert(name =~= seq!['.']);
    }
    assert(bare_end(q, path, 1, true) == path);
    lemma_before_name(q, root, name, 1);
    assert(bare_end(q, root, 1, true) == root);
    assert(path.skip(1) =~= name);
    assert(!cuts(q, name[name.len() - 1]));
    if name.len() > 1 {
        assert(!cuts(q, name[name.len() - 2]));
    }
    assert(bare_end(q, name, 0, false) == name);
    assert(none + name =~= name);
    lemma_before_name(q, none, name, 0);
    assert(name.skip(0) =~= name);
    if is_dot(name) {
        assert(name =~= seq!['.']);
    }
    if is_dot_dot(name) {
        assert(name =~= seq!['.', '.']);
    }
}

} // verus!
