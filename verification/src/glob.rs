//! File-name patterns: `*` stands for any run of characters, `?` for exactly one, and everything
//! else for itself, without regard to case. A pattern covers the whole name, and only the name:
//! the directory part of a path does not count.

use vstd::prelude::*;

use crate::strings;

verus! {

/// The patterns in force when none are given.
pub const DEFAULT_PATTERNS: [&'static str; 2] = ["*.log", "*.txt"];

/// One element of a compiled pattern.
#[derive(Debug, Clone, Copy)]
pub enum Token {
    /// Any run of characters, the empty one too.
    Star,
    /// Exactly one character.
    Any,
    /// This character, in either case.
    Lit(char),
}

/// A list of patterns, compiled.
#[derive(Debug)]
pub struct GlobMatcher {
    patterns: Vec<String>,
    programs: Vec<Vec<Token>>,
}

/// A path separator of either kind.
pub open spec fn is_separator(c: char) -> bool {
    c == '/' || c == '\\'
}

/// What follows the last separator of a path.
pub open spec fn base_name(path: Seq<char>) -> Seq<char>
    decreases path.len(),
{
    if path.len() == 0 || is_separator(path.last()) {
        seq![]
    } else {
        base_name(path.drop_last()).push(path.last())
    }
}

/// The token that a pattern character stands for.
pub open spec fn token_of(c: char) -> Token {
    if c == '*' {
        Token::Star
    } else if c == '?' {
        Token::Any
    } else {
        Token::Lit(c)
    }
}

/// The compiled form of a pattern: one token for each character.
pub open spec fn compiled(pattern: Seq<char>) -> Seq<Token>
    decreases pattern.len(),
{
    if pattern.len() == 0 {
        seq![]
    } else {
        compiled(pattern.drop_last()).push(token_of(pattern.last()))
    }
}

/// The same character, case aside.
pub open spec fn alike(a: char, b: char) -> bool {
    strings::char_lowercase(a) == strings::char_lowercase(b)
}

/// Whether a program covers a whole name.
pub open spec fn covers(prog: Seq<Token>, name: Seq<char>) -> bool
    decreases prog.len() + name.len(),
{
    if prog.len() == 0 {
        name.len() == 0
    } else {
        match prog[0] {
            Token::Star => covers(prog.drop_first(), name) || (name.len() > 0 && covers(
                prog,
                name.drop_first(),
            )),
            Token::Any => name.len() > 0 && covers(prog.drop_first(), name.drop_first()),
            Token::Lit(c) => name.len() > 0 && alike(name[0], c) && covers(
                prog.drop_first(),
                name.drop_first(),
            ),
        }
    }
}

/// The patterns that a given list amounts to: each without surrounding white space, the empty ones
/// left out, and the defaults where nothing is left.
pub open spec fn effective(given: Option<Seq<Seq<char>>>) -> Seq<Seq<char>> {
    let kept = match given {
        Some(ps) => kept_patterns(ps),
        None => seq![],
    };
    if kept.len() == 0 {
        default_patterns()
    } else {
        kept
    }
}

/// The default patterns.
pub open spec fn default_patterns() -> Seq<Seq<char>> {
    seq!["*.log"@, "*.txt"@]
}

/// Each pattern without surrounding white space, the empty ones left out.
pub open spec fn kept_patterns(ps: Seq<Seq<char>>) -> Seq<Seq<char>>
    decreases ps.len(),
{
    if ps.len() == 0 {
        seq![]
    } else {
        let t = strings::trimmed(ps.last());
        if t.len() == 0 {
            kept_patterns(ps.drop_last())
        } else {
            kept_patterns(ps.drop_last()).push(t)
        }
    }
}

/// Whether a path's name fits one of the patterns.
pub open spec fn fits(patterns: Seq<Seq<char>>, path: Seq<char>) -> bool {
    exists|i: int|
        0 <= i < patterns.len() && covers(compiled(#[trigger] patterns[i]), base_name(path))
}

impl View for GlobMatcher {
    type V = Seq<Seq<char>>;

    /// The patterns in force.
    closed spec fn view(&self) -> Seq<Seq<char>> {
        strings::views(self.patterns@)
    }
}

impl GlobMatcher {
    /// The default patterns, joined with a space.
    pub const DEFAULT_PATTERNS_STR: &'static str = "*.log *.txt";

    /// Each program is the compiled form of its pattern.
    #[verifier::type_invariant]
    closed spec fn wf(self) -> bool {
        &&& self.programs@.len() == self.patterns@.len()
        &&& forall|i: int|
            0 <= i < self.patterns@.len() ==> (#[trigger] self.programs@[i])@ == compiled(
                self.patterns@[i]@,
            )
    }

    /// Builds a matcher. No list, or one with nothing but blank patterns, means the defaults.
    pub fn new(patterns: Option<&[String]>) -> (r: Self)
        ensures
            r@ == effective(
                match patterns {
                    Some(ps) => Some(strings::views(ps@)),
                    None => None,
                },
            ),
    {
        let mut list: Vec<String> = match patterns {
            Some(ps) => kept(ps),
            None => Vec::new(),
        };
        assert(strings::views(Seq::<String>::empty()) =~= Seq::<Seq<char>>::empty());
        if list.len() == 0 {
            list.push("*.log".to_owned());
            list.push("*.txt".to_owned());
            assert(strings::views(list@) =~= default_patterns());
        }
        let programs = compile_all(list.as_slice());
        GlobMatcher { patterns: list, programs }
    }

    /// The patterns in force.
    pub fn patterns(&self) -> (r: &[String])
        ensures
            strings::views(r@) == self@,
    {
        self.patterns.as_slice()
    }

    /// Whether the name at the end of `path` fits one of the patterns.
    pub fn is_match(&self, path: &str) -> (r: bool)
        ensures
            r == fits(self@, path@),
    {
        proof {
            use_type_invariant(self);
        }
        let name = file_name(path);
        let cs = strings::chars_of(name.as_str());
        let mut i: usize = 0;
        while i < self.programs.len()
            invariant
                i <= self.programs@.len(),
                self.wf(),
                cs@ == base_name(path@),
                forall|k: int| 0 <= k < i ==> !covers(compiled(#[trigger] self@[k]), cs@),
            decreases self.programs@.len() - i,
        {
            assert(self@[i as int] == self.patterns@[i as int]@);
            if matches(self.programs[i].as_slice(), cs.as_slice()) {
                return true;
            }
            i += 1;
        }
        false
    }
}

impl Clone for GlobMatcher {
    fn clone(&self) -> (r: Self)
        ensures
            r@ == self@,
    {
        let patterns = strings::copy_all(self.patterns.as_slice());
        let programs = compile_all(patterns.as_slice());
        GlobMatcher { patterns, programs }
    }
}

/// Compiles each pattern.
fn compile_all(list: &[String]) -> (r: Vec<Vec<Token>>)
    ensures
        r@.len() == list@.len(),
        forall|k: int| 0 <= k < r@.len() ==> (#[trigger] r@[k])@ == compiled(list@[k]@),
{
    let mut programs: Vec<Vec<Token>> = Vec::new();
    let mut i: usize = 0;
    while i < list.len()
        invariant
            i <= list@.len(),
            programs@.len() == i,
            forall|k: int| 0 <= k < i ==> (#[trigger] programs@[k])@ == compiled(list@[k]@),
        decreases list@.len() - i,
    {
        programs.push(compile(list[i].as_str()));
        i += 1;
    }
    programs
}

/// Each pattern without surrounding white space, the empty ones left out.
pub fn kept(ps: &[String]) -> (r: Vec<String>)
    ensures
        strings::views(r@) == kept_patterns(strings::views(ps@)),
{
    broadcast use strings::lemma_views_push;

    let mut out: Vec<String> = Vec::new();
    let mut i: usize = 0;
    assert(strings::views(out@) =~= kept_patterns(strings::views(ps@).take(0)));
    while i < ps.len()
        invariant
            i <= ps@.len(),
            strings::views(out@) == kept_patterns(strings::views(ps@).take(i as int)),
        decreases ps@.len() - i,
    {
        broadcast use strings::lemma_views_push;

        let t = strings::trim(ps[i].as_str());
        proof {
            let next = strings::views(ps@).take(i as int + 1);
            assert(next.drop_last() =~= strings::views(ps@).take(i as int));
            assert(next.last() == ps@[i as int]@);
        }
        if !t.as_str().is_empty() {
            out.push(t);
        }
        i += 1;
    }
    assert(strings::views(ps@).take(i as int) =~= strings::views(ps@));
    out
}

/// The name at the end of a path: what follows the last separator of either kind.
pub fn file_name(path: &str) -> (r: String)
    ensures
        r@ == base_name(path@),
{
    let cs = strings::chars_of(path);
    let mut i: usize = cs.len();
    assert(cs@.subrange(i as int, cs@.len() as int) =~= Seq::<char>::empty());
    assert(cs@.take(i as int) =~= cs@);
    while i > 0 && cs[i - 1] != '/' && cs[i - 1] != '\\'
        invariant
            i <= cs@.len(),
            base_name(cs@) == base_name(cs@.take(i as int)) + cs@.subrange(
                i as int,
                cs@.len() as int,
            ),
        decreases i,
    {
        proof {
            assert(cs@.take(i as int).drop_last() =~= cs@.take(i as int - 1));
            assert(cs@.take(i as int).last() == cs@[i as int - 1]);
            assert(base_name(cs@.take(i as int - 1)).push(cs@[i as int - 1]) + cs@.subrange(
                i as int,
                cs@.len() as int,
            ) =~= base_name(cs@.take(i as int - 1)) + cs@.subrange(
                i as int - 1,
                cs@.len() as int,
            ));
        }
        i -= 1;
    }
    proof {
        if i > 0 {
            assert(cs@.take(i as int).last() == cs@[i as int - 1]);
        }
        assert(base_name(cs@) =~= cs@.subrange(i as int, cs@.len() as int));
    }
    let n = cs.len();
    strings::string_of(vstd::slice::slice_subrange(cs.as_slice(), i, n))
}

/// Whether two characters are the same, case aside.
fn same_letter(a: char, b: char) -> (r: bool)
    ensures
        r == alike(a, b),
{
    if a == b {
        return true;
    }
    let x = strings::char_to_lowercase(a);
    let y = strings::char_to_lowercase(b);
    if x.len() != y.len() {
        return false;
    }
    let mut i: usize = 0;
    while i < x.len()
        invariant
            i <= x@.len() == y@.len(),
            x@ == strings::char_lowercase(a),
            y@ == strings::char_lowercase(b),
            forall|k: int| 0 <= k < i ==> x@[k] == y@[k],
        decreases x@.len() - i,
    {
        if x[i] != y[i] {
            return false;
        }
        i += 1;
    }
    assert(x@ =~= y@);
    true
}

/// Compiles a pattern.
pub fn compile(glob: &str) -> (r: Vec<Token>)
    ensures
        r@ == compiled(glob@),
{
    let cs = strings::chars_of(glob);
    let mut out: Vec<Token> = Vec::new();
    let mut i: usize = 0;
    while i < cs.len()
        invariant
            i <= cs@.len(),
            out@ == compiled(cs@.take(i as int)),
        decreases cs@.len() - i,
    {
        let c = cs[i];
        let t = if c == '*' {
            Token::Star
        } else if c == '?' {
            Token::Any
        } else {
            Token::Lit(c)
        };
        out.push(t);
        i += 1;
        assert(cs@.take(i as int).drop_last() =~= cs@.take(i as int - 1));
    }
    assert(cs@.take(i as int) =~= cs@);
    out
}

/// No token of `prog` in `from..to` is a star.
spec fn starless(prog: Seq<Token>, from: int, to: int) -> bool {
    forall|k: int| from <= k < to ==> !(#[trigger] prog[k] is Star)
}

/// A star covers whatever precedes a suffix that the rest covers.
proof fn lemma_star_absorbs(prog: Seq<Token>, name: Seq<char>, a: int, b: int)
    requires
        prog.len() > 0,
        prog[0] is Star,
        0 <= a <= b <= name.len(),
        covers(prog, name.skip(b)),
    ensures
        covers(prog, name.skip(a)),
    decreases b - a,
{
    if a < b {
        lemma_star_absorbs(prog, name, a + 1, b);
        assert(name.skip(a).drop_first() =~= name.skip(a + 1));
    }
}

/// Where a star covers a suffix, what follows the star covers some later suffix.
proof fn lemma_star_splits(prog: Seq<Token>, name: Seq<char>, a: int) -> (k: int)
    requires
        prog.len() > 0,
        prog[0] is Star,
        0 <= a <= name.len(),
        covers(prog, name.skip(a)),
    ensures
        a <= k <= name.len(),
        covers(prog.drop_first(), name.skip(k)),
    decreases name.len() - a,
{
    if covers(prog.drop_first(), name.skip(a)) {
        a
    } else {
        assert(name.skip(a).drop_first() =~= name.skip(a + 1));
        lemma_star_splits(prog, name, a + 1)
    }
}

/// A run of tokens without a star takes one character each.
proof fn lemma_starless_run(prog: Seq<Token>, name: Seq<char>, from: int, to: int, k: int)
    requires
        0 <= from <= to <= prog.len(),
        0 <= k <= name.len(),
        starless(prog, from, to),
        covers(prog.skip(from), name.skip(k)),
    ensures
        k + (to - from) <= name.len(),
        covers(prog.skip(to), name.skip(k + (to - from))),
    decreases to - from,
{
    if from < to {
        assert(!(prog[from] is Star));
        assert(prog.skip(from)[0] == prog[from]);
        assert(prog.skip(from).drop_first() =~= prog.skip(from + 1));
        assert(name.skip(k).drop_first() =~= name.skip(k + 1));
        lemma_starless_run(prog, name, from + 1, to, k + 1);
    }
}

/// Whether a program covers a whole name, by going back to the last star on a mismatch.
pub fn matches(prog: &[Token], name: &[char]) -> (r: bool)
    ensures
        r == covers(prog@, name@),
{
    let mut ti: usize = 0;
    let mut ni: usize = 0;
    let mut star_ti: Option<usize> = None;
    let mut star_ni: usize = 0;
    assert(prog@.skip(0) =~= prog@);
    assert(name@.skip(0) =~= name@);
    while ni < name.len()
        invariant
            ti <= prog@.len(),
            ni <= name@.len(),
            star_ni <= ni,
            star_ti is None ==> star_ni == 0,
            star_ti is None ==> covers(prog@, name@) == covers(
                prog@.skip(ti as int),
                name@.skip(ni as int),
            ),
            star_ti matches Some(sti) ==> {
                &&& sti < ti
                &&& prog@[sti as int] is Star
                &&& starless(prog@, sti + 1, ti as int)
                &&& ni - star_ni == ti - sti - 1
                &&& covers(prog@, name@) == covers(
                    prog@.skip(sti as int),
                    name@.skip(star_ni as int),
                )
                &&& covers(prog@.skip(sti + 1), name@.skip(star_ni as int)) == covers(
                    prog@.skip(ti as int),
                    name@.skip(ni as int),
                )
            },
        decreases
                name@.len() - star_ni,
                prog@.len() - (match star_ti {
                    Some(sti) => sti as int,
                    None => -1,
                }),
                prog@.len() - ti,
    {
        let ghost p = prog@.skip(ti as int);
        let ghost n = name@.skip(ni as int);
        proof {
            if ti < prog@.len() {
                assert(p[0] == prog@[ti as int]);
                assert(p.drop_first() =~= prog@.skip(ti as int + 1));
            }
            assert(n[0] == name@[ni as int]);
            assert(n.drop_first() =~= name@.skip(ni as int + 1));
        }
        let mut step = false;
        let mut star = false;
        if ti < prog.len() {
            match prog[ti] {
                Token::Lit(c) => {
                    step = same_letter(name[ni], c);
                },
                Token::Any => {
                    step = true;
                },
                Token::Star => {
                    star = true;
                },
            }
        }
        if step {
            ti += 1;
            ni += 1;
        } else if star {
            proof {
                if let Some(sti) = star_ti {
                    let q = prog@.skip(sti as int);
                    assert(q[0] == prog@[sti as int]);
                    assert(q.drop_first() =~= prog@.skip(sti + 1));
                    if covers(q, name@.skip(star_ni as int)) {
                        let k = lemma_star_splits(q, name@, star_ni as int);
                        lemma_starless_run(prog@, name@, sti + 1, ti as int, k);
                        lemma_star_absorbs(p, name@, ni as int, k + (ti - sti - 1));
                    }
                }
            }
            star_ti = Some(ti);
            star_ni = ni;
            ti += 1;
        } else {
            match star_ti {
                Some(sti) => {
                    proof {
                        let q = prog@.skip(sti as int);
                        assert(q[0] == prog@[sti as int]);
                        assert(q.drop_first() =~= prog@.skip(sti + 1));
                        assert(name@.skip(star_ni as int).drop_first() =~= name@.skip(
                            star_ni as int + 1,
                        ));
                    }
                    ti = sti + 1;
                    star_ni += 1;
                    ni = star_ni;
                },
                None => {
                    return false;
                },
            }
        }
    }
    proof {
        assert(name@.skip(ni as int) =~= Seq::<char>::empty());
        if let Some(sti) = star_ti {
            let q = prog@.skip(sti as int);
            assert(q[0] == prog@[sti as int]);
            assert(q.drop_first() =~= prog@.skip(sti + 1));
            if covers(q, name@.skip(star_ni as int)) {
                let k = lemma_star_splits(q, name@, star_ni as int);
                lemma_starless_run(prog@, name@, sti + 1, ti as int, k);
                assert(k == star_ni);
            }
        }
        assert(covers(prog@, name@) == covers(prog@.skip(ti as int), seq![]));
    }
    while ti < prog.len() && is_star(&prog[ti])
        invariant
            ti <= prog@.len(),
            covers(prog@, name@) == covers(prog@.skip(ti as int), seq![]),
        decreases prog@.len() - ti,
    {
        assert(prog@.skip(ti as int).drop_first() =~= prog@.skip(ti as int + 1));
        ti += 1;
    }
    ti == prog.len()
}

fn is_star(t: &Token) -> (r: bool)
    ensures
        r == (*t is Star),
{
    match t {
        Token::Star => true,
        _ => false,
    }
}

// ---------------------------------------------------------------------------------------------
// Laws
// ---------------------------------------------------------------------------------------------

/// A lone star covers every name.
pub proof fn star_covers_everything(name: Seq<char>)
    ensures
        covers(seq![Token::Star], name),
    decreases name.len(),
{
    if name.len() == 0 {
        assert(seq![Token::Star].drop_first() =~= Seq::<Token>::empty());
        assert(covers(Seq::<Token>::empty(), name));
    } else {
        star_covers_everything(name.drop_first());
    }
}

/// A question mark covers exactly one character, whichever it is.
pub proof fn a_question_mark_covers_one_character(name: Seq<char>)
    ensures
        covers(compiled(seq!['?']), name) == (name.len() == 1),
{
    lemma_compiled(seq!['?']);
    let prog = compiled(seq!['?']);
    assert(prog[0] == token_of('?'));
    assert(prog.drop_first() =~= Seq::<Token>::empty());
    if name.len() > 0 {
        assert(covers(prog.drop_first(), name.drop_first()) == (name.drop_first().len() == 0));
    }
}

/// The same text, case aside.
pub open spec fn same_text(a: Seq<char>, b: Seq<char>) -> bool {
    &&& a.len() == b.len()
    &&& forall|i: int| 0 <= i < a.len() ==> alike(#[trigger] a[i], b[i])
}

/// A pattern has one token for each of its characters.
proof fn lemma_compiled(pattern: Seq<char>)
    ensures
        compiled(pattern).len() == pattern.len(),
        forall|i: int|
            0 <= i < pattern.len() ==> #[trigger] compiled(pattern)[i] == token_of(pattern[i]),
    decreases pattern.len(),
{
    if pattern.len() > 0 {
        lemma_compiled(pattern.drop_last());
    }
}

/// A pattern without wildcards covers exactly the name that it spells, case aside. So every such
/// name is covered by itself.
pub proof fn literal_covers_itself_only(word: Seq<char>, name: Seq<char>)
    requires
        forall|i: int| 0 <= i < word.len() ==> #[trigger] word[i] != '*' && word[i] != '?',
    ensures
        covers(compiled(word), name) == same_text(name, word),
        covers(compiled(word), word),
{
    lemma_compiled(word);
    let prog = compiled(word);
    assert forall|i: int| 0 <= i < prog.len() implies #[trigger] prog[i] == Token::Lit(word[i]) by {
        assert(word[i] != '*' && word[i] != '?');
    }
    lemma_spelled(prog, word, name);
    lemma_spelled(prog, word, word);
}

proof fn lemma_spelled(prog: Seq<Token>, word: Seq<char>, name: Seq<char>)
    requires
        prog.len() == word.len(),
        forall|i: int| 0 <= i < prog.len() ==> #[trigger] prog[i] == Token::Lit(word[i]),
    ensures
        covers(prog, name) == same_text(name, word),
    decreases word.len(),
{
    if word.len() > 0 && name.len() > 0 {
        assert(prog[0] == Token::Lit(word[0]));
        let p = prog.drop_first();
        let w = word.drop_first();
        let n = name.drop_first();
        assert forall|i: int| 0 <= i < p.len() implies #[trigger] p[i] == Token::Lit(w[i]) by {
            assert(prog[i + 1] == Token::Lit(word[i + 1]));
        }
        lemma_spelled(p, w, n);
        if same_text(n, w) && alike(name[0], word[0]) {
            assert forall|i: int| 0 <= i < name.len() implies alike(#[trigger] name[i], word[i]) by {
                if i > 0 {
                    assert(alike(n[i - 1], w[i - 1]));
                }
            }
        }
        if same_text(name, word) {
            assert(alike(name[0], word[0]));
            assert forall|i: int| 0 <= i < n.len() implies alike(#[trigger] n[i], w[i]) by {
                assert(alike(name[i + 1], word[i + 1]));
            }
        }
    } else if word.len() > 0 {
        assert(prog[0] == Token::Lit(word[0]));
    }
}

/// Case does not count: names that differ by case alone are covered by the same programs.
pub proof fn case_does_not_count(prog: Seq<Token>, a: Seq<char>, b: Seq<char>)
    requires
        same_text(a, b),
    ensures
        covers(prog, a) == covers(prog, b),
    decreases prog.len() + a.len(),
{
    if prog.len() > 0 {
        if a.len() > 0 {
            assert(alike(a[0], b[0]));
            assert forall|i: int| 0 <= i < a.len() - 1 implies alike(
                #[trigger] a.drop_first()[i],
                b.drop_first()[i],
            ) by {
                assert(alike(a[i + 1], b[i + 1]));
            }
            case_does_not_count(prog.drop_first(), a.drop_first(), b.drop_first());
            case_does_not_count(prog, a.drop_first(), b.drop_first());
        }
        case_does_not_count(prog.drop_first(), a, b);
    }
}

/// The directory part of a path has no say: a path fits exactly when its name alone does.
pub proof fn only_the_name_counts(patterns: Seq<Seq<char>>, dir: Seq<char>, name: Seq<char>)
    requires
        dir.len() > 0 ==> is_separator(dir.last()),
        forall|i: int| 0 <= i < name.len() ==> !is_separator(#[trigger] name[i]),
    ensures
        base_name(dir + name) == name,
        fits(patterns, dir + name) == fits(patterns, name),
    decreases name.len(),
{
    lemma_base_name_append(dir, name);
    lemma_base_name_append(seq![], name);
    assert(Seq::<char>::empty() + name =~= name);
}

proof fn lemma_base_name_append(dir: Seq<char>, name: Seq<char>)
    requires
        dir.len() > 0 ==> is_separator(dir.last()),
        forall|i: int| 0 <= i < name.len() ==> !is_separator(#[trigger] name[i]),
    ensures
        base_name(dir + name) == name,
    decreases name.len(),
{
    if name.len() == 0 {
        assert(dir + name =~= dir);
        assert(name =~= seq![]);
    } else {
        let p = dir + name;
        assert(p.drop_last() =~= dir + name.drop_last());
        assert(p.last() == name.last());
        assert(!is_separator(name[name.len() - 1]));
        assert forall|i: int| 0 <= i < name.len() - 1 implies !is_separator(
            #[trigger] name.drop_last()[i],
        ) by {
            assert(!is_separator(name[i]));
        }
        lemma_base_name_append(dir, name.drop_last());
        assert(name.drop_last().push(name.last()) =~= name);
    }
}

/// A pattern that begins with some character, compiled.
proof fn lemma_compiled_front(c: char, rest: Seq<char>)
    ensures
        compiled(seq![c] + rest).len() == rest.len() + 1,
        compiled(seq![c] + rest)[0] == token_of(c),
        compiled(seq![c] + rest).drop_first() == compiled(rest),
{
    let whole = seq![c] + rest;
    lemma_compiled(whole);
    lemma_compiled(rest);
    assert(whole[0] == c);
    assert forall|i: int| 0 <= i < rest.len() implies #[trigger] compiled(whole).drop_first()[i]
        == compiled(rest)[i] by {
        assert(compiled(whole)[i + 1] == token_of(whole[i + 1]));
    }
    assert(compiled(whole).drop_first() =~= compiled(rest));
}

/// What a pattern covers, told from its first character: an empty pattern covers the empty name
/// alone; after a star the rest of the pattern may begin anywhere in the name; a question mark
/// takes one character, whichever it is; any other character takes itself in either case.
pub proof fn a_pattern_is_read_from_its_front(c: char, rest: Seq<char>, name: Seq<char>)
    ensures
        covers(compiled(seq![]), name) == (name.len() == 0),
        c == '*' ==> (covers(compiled(seq![c] + rest), name) <==> exists|k: int|
            0 <= k <= name.len() && covers(compiled(rest), #[trigger] name.skip(k))),
        c == '?' ==> covers(compiled(seq![c] + rest), name) == (name.len() > 0 && covers(
            compiled(rest),
            name.skip(1),
        )),
        c != '*' && c != '?' ==> covers(compiled(seq![c] + rest), name) == (name.len() > 0
            && strings::char_lowercase(name[0]) == strings::char_lowercase(c) && covers(
            compiled(rest),
            name.skip(1),
        )),
{
    lemma_compiled_front(c, rest);
    let prog = compiled(seq![c] + rest);
    if name.len() > 0 {
        assert(name.skip(1) =~= name.drop_first());
    }
    if c == '*' {
        assert(name.skip(0) =~= name);
        if covers(prog, name) {
            let k = lemma_star_splits(prog, name, 0);
            assert(covers(compiled(rest), name.skip(k)));
        }
        if exists|k: int| 0 <= k <= name.len() && covers(compiled(rest), #[trigger] name.skip(k)) {
            let k = choose|k: int|
                0 <= k <= name.len() && covers(compiled(rest), #[trigger] name.skip(k));
            assert(covers(prog, name.skip(k)));
            lemma_star_absorbs(prog, name, 0, k);
        }
    }
}

/// A path fits a list of patterns where it fits any of them, and a pattern has to cover the whole
/// of its name.
pub proof fn any_pattern_will_do(patterns: Seq<Seq<char>>, p: Seq<char>, name: Seq<char>)
    requires
        forall|i: int| 0 <= i < name.len() ==> #[trigger] name[i] != '/' && name[i] != '\\',
    ensures
        !fits(seq![], name),
        fits(patterns.push(p), name) == (fits(patterns, name) || covers(compiled(p), name)),
{
    assert forall|i: int| 0 <= i < name.len() implies !is_separator(#[trigger] name[i]) by {
        assert(name[i] != '/' && name[i] != '\\');
    }
    lemma_base_name_append(seq![], name);
    assert(Seq::<char>::empty() + name =~= name);
    let all = patterns.push(p);
    if fits(patterns, name) {
        let i = choose|i: int|
            0 <= i < patterns.len() && covers(compiled(#[trigger] patterns[i]), base_name(name));
        assert(all[i] == patterns[i]);
    }
    if covers(compiled(p), name) {
        assert(all[patterns.len() as int] == p);
    }
    if fits(all, name) {
        let i = choose|i: int|
            0 <= i < all.len() && covers(compiled(#[trigger] all[i]), base_name(name));
        if i < patterns.len() {
            assert(patterns[i] == all[i]);
        }
    }
}

/// Whatever directory a file lies in, and whichever way its path is written, its name decides.
pub proof fn a_path_fits_by_its_name(
    patterns: Seq<Seq<char>>,
    dir: Seq<char>,
    sep: char,
    name: Seq<char>,
)
    requires
        sep == '/' || sep == '\\',
        forall|i: int| 0 <= i < name.len() ==> #[trigger] name[i] != '/' && name[i] != '\\',
    ensures
        fits(patterns, dir.push(sep) + name) == fits(patterns, name),
        base_name(dir.push(sep) + name) == name,
        base_name(name) == name,
{
    assert forall|i: int| 0 <= i < name.len() implies !is_separator(#[trigger] name[i]) by {
        assert(name[i] != '/' && name[i] != '\\');
    }
    only_the_name_counts(patterns, dir.push(sep), name);
    only_the_name_counts(patterns, seq![], name);
    assert(Seq::<char>::empty() + name =~= name);
}

/// Of the patterns that are given, each counts without the white space around it, the blank ones
/// do not count, and where none is left the default ones do.
pub proof fn blank_patterns_do_not_count(ps: Seq<Seq<char>>, p: Seq<char>)
    ensures
        effective(None) == seq!["*.log"@, "*.txt"@],
        effective(Some(seq![])) == seq!["*.log"@, "*.txt"@],
        kept_patterns(seq![]) == Seq::<Seq<char>>::empty(),
        strings::trimmed(p).len() == 0 ==> kept_patterns(ps.push(p)) == kept_patterns(ps)
            && effective(Some(ps.push(p))) == effective(Some(ps)),
        strings::trimmed(p).len() > 0 ==> kept_patterns(ps.push(p)) == kept_patterns(ps).push(
            strings::trimmed(p),
        ) && effective(Some(ps.push(p))) == kept_patterns(ps).push(strings::trimmed(p)),
{
    assert(ps.push(p).drop_last() =~= ps);
}

} // verus!
