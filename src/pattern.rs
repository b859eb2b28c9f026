//! The syntax tree of a compiled pattern and the character predicates of its leaves.
use vstd::prelude::*;

verus! {

/// How often a quantified sub-pattern may occur.
#[derive(Debug, PartialEq, Eq, Clone, Copy)]
pub enum Repetition {
    /// Exactly once (no quantifier).
    Once,
    /// `+`: one or more times.
    Plus,
    /// `*`: any number of times, including zero.
    Star,
    /// `?`: zero or one time.
    Optional,
}

/// A compiled pattern.
#[derive(Debug, PartialEq)]
pub enum RegexAst {
    /// Children that must match one after the other; with no children it matches the empty string.
    Concat(Vec<RegexAst>),
    /// Branches of which any one may match.
    Alternate(Vec<RegexAst>),
    /// A quantified sub-pattern.
    Repeat(Box<RegexAst>, Repetition),
    /// A sub-pattern whose matched text is recorded under a group id.
    CaptureGroup(u32, Box<RegexAst>),
    /// `\d`: an ASCII digit.
    Digit,
    /// `\w`: an ASCII letter, an ASCII digit or `_`.
    Word,
    /// `[abc]`: one of the listed characters.
    PositiveGroup(String),
    /// `[^abc]`: any character but the listed ones.
    NegativeGroup(String),
    /// Exactly this character.
    Literal(char),
    /// `.`: any character.
    Wildcard,
    /// `^`: the start of the line.
    StartOfLine,
    /// `$`: the end of the line.
    EndOfLine,
    /// `\N`: the text that group `N` captured last.
    Backreference(u32),
}

fn clone_list(kids: &Vec<RegexAst>) -> (r: Vec<RegexAst>)
    ensures
        syntax_list(r, 0) == syntax_list(*kids, 0),
    decreases kids, 0int,
{
    let mut r: Vec<RegexAst> = Vec::new();
    let mut k: usize = 0;
    while k < kids.len()
        invariant
            k <= kids@.len(),
            r@.len() == k,
            forall|t: int| 0 <= t < k ==> syntax_of(#[trigger] r@[t]) == syntax_of(kids@[t]),
        decreases kids@.len() - k,
    {
        r.push(kids[k].duplicate());
        k += 1;
    }
    proof {
        lemma_syntax_list(r, 0);
        lemma_syntax_list(*kids, 0);
        assert(syntax_list(r, 0) =~= syntax_list(*kids, 0));
    }
    r
}

impl RegexAst {
    /// A copy of the tree.
    fn duplicate(&self) -> (r: RegexAst)
        ensures
            syntax_of(r) == syntax_of(*self),
        decreases self, 1int,
    {
        match self {
            RegexAst::Concat(kids) => RegexAst::Concat(clone_list(kids)),
            RegexAst::Alternate(kids) => RegexAst::Alternate(clone_list(kids)),
            RegexAst::Repeat(sub, rep) => RegexAst::Repeat(Box::new(sub.duplicate()), *rep),
            RegexAst::CaptureGroup(id, sub) => RegexAst::CaptureGroup(*id, Box::new(sub.duplicate())),
            RegexAst::Digit => RegexAst::Digit,
            RegexAst::Word => RegexAst::Word,
            RegexAst::PositiveGroup(set) => RegexAst::PositiveGroup(set.clone()),
            RegexAst::NegativeGroup(set) => RegexAst::NegativeGroup(set.clone()),
            RegexAst::Literal(c) => RegexAst::Literal(*c),
            RegexAst::Wildcard => RegexAst::Wildcard,
            RegexAst::StartOfLine => RegexAst::StartOfLine,
            RegexAst::EndOfLine => RegexAst::EndOfLine,
            RegexAst::Backreference(id) => RegexAst::Backreference(*id),
        }
    }
}

impl Clone for RegexAst {
    fn clone(&self) -> (r: RegexAst)
        ensures
            syntax_of(r) == syntax_of(*self),
    {
        self.duplicate()
    }
}

/// The pattern failed to compile.
#[derive(Debug, PartialEq, Eq, Clone, Copy)]
pub enum MalformedPattern {
    /// A `(` without its `)`.
    UnclosedGroup,
    /// A `[` without its `]`.
    UnclosedBracket,
    /// A `\` followed by neither `d`, `w` nor a digit, or by nothing.
    UnknownEscape,
    /// A `)` that closes no group.
    UnmatchedParen,
}

/// The mathematical form of a pattern: what a `RegexAst` says, with sequences for its lists.
pub enum Syntax {
    Concat(Seq<Syntax>),
    Alternate(Seq<Syntax>),
    Repeat(Box<Syntax>, Repetition),
    CaptureGroup(u32, Box<Syntax>),
    Digit,
    Word,
    PositiveGroup(Seq<char>),
    NegativeGroup(Seq<char>),
    Literal(char),
    Wildcard,
    StartOfLine,
    EndOfLine,
    Backreference(u32),
}

pub open spec fn syntax_of(ast: RegexAst) -> Syntax
    decreases ast, 1int,
{
    match ast {
        RegexAst::Concat(kids) => Syntax::Concat(syntax_list(kids, 0)),
        RegexAst::Alternate(kids) => Syntax::Alternate(syntax_list(kids, 0)),
        RegexAst::Repeat(sub, rep) => Syntax::Repeat(Box::new(syntax_of(*sub)), rep),
        RegexAst::CaptureGroup(id, sub) => Syntax::CaptureGroup(id, Box::new(syntax_of(*sub))),
        RegexAst::Digit => Syntax::Digit,
        RegexAst::Word => Syntax::Word,
        RegexAst::PositiveGroup(set) => Syntax::PositiveGroup(set@),
        RegexAst::NegativeGroup(set) => Syntax::NegativeGroup(set@),
        RegexAst::Literal(c) => Syntax::Literal(c),
        RegexAst::Wildcard => Syntax::Wildcard,
        RegexAst::StartOfLine => Syntax::StartOfLine,
        RegexAst::EndOfLine => Syntax::EndOfLine,
        RegexAst::Backreference(id) => Syntax::Backreference(id),
    }
}

/// The forms of `kids[k..]`.
pub open spec fn syntax_list(kids: Vec<RegexAst>, k: int) -> Seq<Syntax>
    decreases kids, kids.len() - k,
{
    if 0 <= k < kids.len() {
        seq![syntax_of(kids[k])] + syntax_list(kids, k + 1)
    } else {
        seq![]
    }
}

pub proof fn lemma_syntax_list(kids: Vec<RegexAst>, k: int)
    requires
        0 <= k <= kids.len(),
    ensures
        syntax_list(kids, k) == Seq::new((kids.len() - k) as nat, |i: int| syntax_of(kids[k + i])),
    decreases kids.len() - k,
{
    if k < kids.len() {
        lemma_syntax_list(kids, k + 1);
    }
    assert(syntax_list(kids, k) =~= Seq::new((kids.len() - k) as nat, |i: int| syntax_of(kids[k + i])));
}

pub open spec fn is_digit_char(c: char) -> bool {
    '0' <= c && c <= '9'
}

pub open spec fn is_word_char(c: char) -> bool {
    ||| is_digit_char(c)
    ||| 'a' <= c && c <= 'z'
    ||| 'A' <= c && c <= 'Z'
    ||| c == '_'
}

/// Whether a node consumes exactly one character when it matches.
pub open spec fn is_char_node(node: Syntax) -> bool {
    match node {
        Syntax::Digit | Syntax::Word | Syntax::Wildcard | Syntax::Literal(_)
        | Syntax::PositiveGroup(_) | Syntax::NegativeGroup(_) => true,
        _ => false,
    }
}

/// Whether a single-character node accepts `c`.
pub open spec fn char_matches(node: Syntax, c: char) -> bool {
    match node {
        Syntax::Digit => is_digit_char(c),
        Syntax::Word => is_word_char(c),
        Syntax::Wildcard => true,
        Syntax::Literal(l) => c == l,
        Syntax::PositiveGroup(set) => set.contains(c),
        Syntax::NegativeGroup(set) => !set.contains(c),
        _ => false,
    }
}

fn char_in(set: &String, c: char) -> (r: bool)
    ensures
        r == set@.contains(c),
{
    let s = set.as_str();
    let n = s.unicode_len();
    let mut i: usize = 0;
    while i < n
        invariant
            n == s@.len(),
            s@ == set@,
            i <= n,
            forall|j: int| 0 <= j < i ==> s@[j] != c,
        decreases n - i,
    {
        if s.get_char(i) == c {
            return true;
        }
        i += 1;
    }
    false
}

/// Whether the single-character node `node` accepts `c`.
pub fn match_pattern_with_char(node: &RegexAst, c: char) -> (r: bool)
    requires
        is_char_node(syntax_of(*node)),
    ensures
        r == char_matches(syntax_of(*node), c),
{
    match node {
        RegexAst::Digit => '0' <= c && c <= '9',
        RegexAst::Word => ('0' <= c && c <= '9') || ('a' <= c && c <= 'z') || ('A' <= c && c
            <= 'Z') || c == '_',
        RegexAst::Wildcard => true,
        RegexAst::Literal(l) => c == *l,
        RegexAst::PositiveGroup(set) => char_in(set, c),
        RegexAst::NegativeGroup(set) => !char_in(set, c),
        _ => false,
    }
}

} // verus!
