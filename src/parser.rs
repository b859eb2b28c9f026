//! The pattern compiler: recursive descent over the characters of a pattern.
//!
//! ```text
//! alternation   := concatenation ('|' concatenation)*
//! concatenation := repeat*
//! repeat        := atom ('*' | '+' | '?')?
//! atom          := '^' | '$' | '.' | '\' ('d' | 'w' | DIGIT)
//!                | '(' alternation ')' | '[' '^'? charset ']' | any other character
//! ```
//!
//! Each parse function takes the pattern, the index to read from and the number of groups
//! opened so far, and gives back the tree, the index after it and the new number of groups.
use vstd::prelude::*;
use crate::pattern::{MalformedPattern, RegexAst, Repetition, Syntax, is_digit_char, syntax_of, syntax_list, lemma_syntax_list};

verus! {

/// A parsed piece: the tree, the index after it, and the number of groups opened so far.
pub type Parsed<T> = Result<(T, int, int), MalformedPattern>;

/// A list of one item stands for that item; any other list for their concatenation.
pub open spec fn collapse_concat(parts: Seq<Syntax>) -> Syntax {
    if parts.len() == 1 {
        parts[0]
    } else {
        Syntax::Concat(parts)
    }
}

/// A single branch stands for itself; more branches for their alternation.
pub open spec fn collapse_alternate(branches: Seq<Syntax>) -> Syntax {
    if branches.len() == 1 {
        branches[0]
    } else {
        Syntax::Alternate(branches)
    }
}

/// The quantifier at index `j`, if any.
pub open spec fn repetition_at(p: Seq<char>, j: int) -> Repetition {
    if 0 <= j < p.len() {
        if p[j] == '*' {
            Repetition::Star
        } else if p[j] == '+' {
            Repetition::Plus
        } else if p[j] == '?' {
            Repetition::Optional
        } else {
            Repetition::Once
        }
    } else {
        Repetition::Once
    }
}

/// The members of a bracket expression read from `i` up to its closing `]`, after `acc`;
/// a `\` takes the next character as a member. `None` where no `]` closes it.
pub open spec fn class_from(p: Seq<char>, i: int, acc: Seq<char>) -> Option<(Seq<char>, int)>
    decreases p.len() - i,
{
    if i < 0 || i >= p.len() {
        None
    } else if p[i] == ']' {
        Some((acc, i + 1))
    } else if p[i] == '\\' {
        if i + 1 < p.len() {
            class_from(p, i + 2, acc.push(p[i + 1]))
        } else {
            None
        }
    } else {
        class_from(p, i + 1, acc.push(p[i]))
    }
}

/// `[` has been read; `i` is the index after it.
pub open spec fn parse_class(p: Seq<char>, i: int, g: int) -> Parsed<Syntax> {
    if 0 <= i < p.len() && p[i] == '^' {
        match class_from(p, i + 1, seq![]) {
            Some((set, k)) => Ok((Syntax::NegativeGroup(set), k, g)),
            None => Err(MalformedPattern::UnclosedBracket),
        }
    } else {
        match class_from(p, i, seq![]) {
            Some((set, k)) => Ok((Syntax::PositiveGroup(set), k, g)),
            None => Err(MalformedPattern::UnclosedBracket),
        }
    }
}

/// `\` has been read; `i` is the index after it.
pub open spec fn parse_escape(p: Seq<char>, i: int, g: int) -> Parsed<Syntax> {
    if 0 <= i < p.len() {
        let e = p[i];
        if e == 'd' {
            Ok((Syntax::Digit, i + 1, g))
        } else if e == 'w' {
            Ok((Syntax::Word, i + 1, g))
        } else if is_digit_char(e) {
            Ok((Syntax::Backreference((e as u32 - '0' as u32) as u32), i + 1, g))
        } else {
            Err(MalformedPattern::UnknownEscape)
        }
    } else {
        Err(MalformedPattern::UnknownEscape)
    }
}

/// atom, read at index `i`.
pub open spec fn spec_atom(p: Seq<char>, i: int, g: int) -> Parsed<Syntax>
    decreases p.len() - i, 0int,
{
    if i < 0 || i >= p.len() {
        Err(MalformedPattern::UnknownEscape)
    } else {
        let c = p[i];
        if c == '^' {
            Ok((Syntax::StartOfLine, i + 1, g))
        } else if c == '$' {
            Ok((Syntax::EndOfLine, i + 1, g))
        } else if c == '.' {
            Ok((Syntax::Wildcard, i + 1, g))
        } else if c == '[' {
            parse_class(p, i + 1, g)
        } else if c == '\\' {
            parse_escape(p, i + 1, g)
        } else if c == '(' {
            match spec_alternation(p, i + 1, g + 1) {
                Ok((inner, j, g1)) => if 0 <= j < p.len() && p[j] == ')' {
                    Ok((Syntax::CaptureGroup((g + 1) as u32, Box::new(inner)), j + 1, g1))
                } else {
                    Err(MalformedPattern::UnclosedGroup)
                },
                Err(e) => Err(e),
            }
        } else {
            Ok((Syntax::Literal(c), i + 1, g))
        }
    }
}

/// repeat, read at index `i`.
pub open spec fn spec_repeat(p: Seq<char>, i: int, g: int) -> Parsed<Syntax>
    decreases p.len() - i, 1int,
{
    match spec_atom(p, i, g) {
        Ok((a, j, g1)) => match repetition_at(p, j) {
            Repetition::Once => Ok((a, j, g1)),
            rep => Ok((Syntax::Repeat(Box::new(a), rep), j + 1, g1)),
        },
        Err(e) => Err(e),
    }
}

/// The rest of a concatenation from index `i`, after the parts `acc`: repeats up to the
/// end of the pattern, a `)` or a `|`. A repeat reads at least one character, so the test
/// `i < j` always holds; it makes the descent's measure visible.
pub open spec fn more_pieces(p: Seq<char>, i: int, g: int, acc: Seq<Syntax>) -> Parsed<Seq<Syntax>>
    decreases p.len() - i, 2int,
{
    if 0 <= i < p.len() && p[i] != ')' && p[i] != '|' {
        match spec_repeat(p, i, g) {
            Ok((r, j, g1)) => if i < j <= p.len() {
                more_pieces(p, j, g1, acc.push(r))
            } else {
                Err(MalformedPattern::UnknownEscape)
            },
            Err(e) => Err(e),
        }
    } else {
        Ok((acc, i, g))
    }
}

/// concatenation, read at index `i`.
pub open spec fn spec_concatenation(p: Seq<char>, i: int, g: int) -> Parsed<Syntax>
    decreases p.len() - i, 3int,
{
    match more_pieces(p, i, g, seq![]) {
        Ok((parts, j, g1)) => Ok((collapse_concat(parts), j, g1)),
        Err(e) => Err(e),
    }
}

/// The rest of an alternation from index `j`, after the branches `acc`. The test `j < k`
/// always holds, as a branch starts after its `|`; it makes the descent's measure visible.
pub open spec fn more_branches(p: Seq<char>, j: int, g: int, acc: Seq<Syntax>) -> Parsed<Syntax>
    decreases p.len() - j, 4int,
{
    if 0 <= j < p.len() && p[j] == '|' {
        match spec_concatenation(p, j + 1, g) {
            Ok((c, k, g1)) => if j < k <= p.len() {
                more_branches(p, k, g1, acc.push(c))
            } else {
                Err(MalformedPattern::UnknownEscape)
            },
            Err(e) => Err(e),
        }
    } else {
        Ok((collapse_alternate(acc), j, g))
    }
}

/// alternation, read at index `i`. (A concatenation never moves backwards: the test on `j`
/// always holds.)
pub open spec fn spec_alternation(p: Seq<char>, i: int, g: int) -> Parsed<Syntax>
    decreases p.len() - i, 5int,
{
    match spec_concatenation(p, i, g) {
        Ok((c, j, g1)) => if i <= j <= p.len() {
            more_branches(p, j, g1, seq![c])
        } else {
            Err(MalformedPattern::UnknownEscape)
        },
        Err(e) => Err(e),
    }
}

/// What a whole pattern compiles to: one alternation that reads every character.
pub open spec fn compile(p: Seq<char>) -> Result<Syntax, MalformedPattern> {
    match spec_alternation(p, 0, 0) {
        Ok((ast, j, _)) => if j == p.len() {
            Ok(ast)
        } else {
            Err(MalformedPattern::UnmatchedParen)
        },
        Err(e) => Err(e),
    }
}

/// The executable result `r` is the parse `s`.
pub open spec fn agrees(r: Result<(RegexAst, usize, u32), MalformedPattern>, s: Parsed<Syntax>) -> bool {
    match r {
        Ok((a, j, g1)) => s == Parsed::<Syntax>::Ok((syntax_of(a), j as int, g1 as int)),
        Err(e) => s == Parsed::<Syntax>::Err(e),
    }
}

/// The index and group count of a successful parse stay in bounds.
pub open spec fn advances(r: Result<(RegexAst, usize, u32), MalformedPattern>, i: int, len: int, strict: bool) -> bool {
    match r {
        Ok((_, j, g1)) => (if strict { i < j } else { i <= j }) && j <= len && g1 <= j,
        Err(_) => true,
    }
}

/// The character at index `i`.
fn char_at(p: &Vec<char>, i: usize) -> (c: char)
    requires
        i < p@.len(),
    ensures
        c == p@[i as int],
{
    p[i]
}

/// The quantifier at index `j`.
fn get_repition_type(p: &Vec<char>, j: usize) -> (r: Repetition)
    ensures
        r == repetition_at(p@, j as int),
{
    if j >= p.len() {
        Repetition::Once
    } else if p[j] == '*' {
        Repetition::Star
    } else if p[j] == '+' {
        Repetition::Plus
    } else if p[j] == '?' {
        Repetition::Optional
    } else {
        Repetition::Once
    }
}

/// The members of a bracket expression from index `i`, and the index after its `]`.
fn parse_class_items(pat: &str, p: &Vec<char>, i: usize) -> (r: Option<(String, usize)>)
    requires
        pat@ == p@,
        i <= p@.len(),
    ensures
        match r {
            Some((set, k)) => class_from(p@, i as int, seq![]) == Some((set@, k as int)) && i < k
                <= p@.len(),
            None => class_from(p@, i as int, seq![]) is None,
        },
{
    let mut set = String::new();
    let mut k: usize = i;
    loop
        invariant
            pat@ == p@,
            i <= k <= p@.len(),
            class_from(p@, i as int, seq![]) == class_from(p@, k as int, set@),
        decreases p@.len() - k,
    {
        if k >= p.len() {
            return None;
        }
        if p[k] == ']' {
            return Some((set, k + 1));
        }
        if p[k] == '\\' {
            if k + 1 < p.len() {
                let ghost before = set@;
                set.append(pat.substring_char(k + 1, k + 2));
                assert(set@ =~= before.push(p@[k + 1]));
                k += 2;
            } else {
                return None;
            }
        } else {
            let ghost before = set@;
            set.append(pat.substring_char(k, k + 1));
            assert(set@ =~= before.push(p@[k as int]));
            k += 1;
        }
    }
}

fn parse_atom(pat: &str, p: &Vec<char>, i: usize, g: u32) -> (r: Result<(RegexAst, usize, u32), MalformedPattern>)
    requires
        pat@ == p@,
        i < p@.len() < u32::MAX,
        g <= i,
    ensures
        agrees(r, spec_atom(p@, i as int, g as int)),
        advances(r, i as int, p@.len() as int, true),
    decreases p@.len() - i, 0int,
{
    let c = char_at(p, i);
    if c == '^' {
        Ok((RegexAst::StartOfLine, i + 1, g))
    } else if c == '$' {
        Ok((RegexAst::EndOfLine, i + 1, g))
    } else if c == '.' {
        Ok((RegexAst::Wildcard, i + 1, g))
    } else if c == '[' {
        if i + 1 < p.len() && p[i + 1] == '^' {
            match parse_class_items(pat, p, i + 2) {
                Some((set, k)) => Ok((RegexAst::NegativeGroup(set), k, g)),
                None => Err(MalformedPattern::UnclosedBracket),
            }
        } else {
            match parse_class_items(pat, p, i + 1) {
                Some((set, k)) => Ok((RegexAst::PositiveGroup(set), k, g)),
                None => Err(MalformedPattern::UnclosedBracket),
            }
        }
    } else if c == '\\' {
        if i + 1 >= p.len() {
            return Err(MalformedPattern::UnknownEscape);
        }
        let e = p[i + 1];
        if e == 'd' {
            Ok((RegexAst::Digit, i + 2, g))
        } else if e == 'w' {
            Ok((RegexAst::Word, i + 2, g))
        } else if '0' <= e && e <= '9' {
            Ok((RegexAst::Backreference(e as u32 - '0' as u32), i + 2, g))
        } else {
            Err(MalformedPattern::UnknownEscape)
        }
    } else if c == '(' {
        let id = g + 1;
        match parse_alternation(pat, p, i + 1, id) {
            Ok((inner, j, g1)) => {
                if j < p.len() && p[j] == ')' {
                    Ok((RegexAst::CaptureGroup(id, Box::new(inner)), j + 1, g1))
                } else {
                    Err(MalformedPattern::UnclosedGroup)
                }
            },
            Err(e) => Err(e),
        }
    } else {
        Ok((RegexAst::Literal(c), i + 1, g))
    }
}

fn parse_repeat(pat: &str, p: &Vec<char>, i: usize, g: u32) -> (r: Result<(RegexAst, usize, u32), MalformedPattern>)
    requires
        pat@ == p@,
        i < p@.len() < u32::MAX,
        g <= i,
    ensures
        agrees(r, spec_repeat(p@, i as int, g as int)),
        advances(r, i as int, p@.len() as int, true),
    decreases p@.len() - i, 1int,
{
    match parse_atom(pat, p, i, g) {
        Ok((node, j, g1)) => {
            let rep = get_repition_type(p, j);
            match rep {
                Repetition::Once => Ok((node, j, g1)),
                _ => Ok((RegexAst::Repeat(Box::new(node), rep), j + 1, g1)),
            }
        },
        Err(e) => Err(e),
    }
}

fn collapse_parts(parts: Vec<RegexAst>) -> (r: RegexAst)
    ensures
        syntax_of(r) == collapse_concat(syntax_list(parts, 0)),
{
    proof {
        lemma_syntax_list(parts, 0);
    }
    if parts.len() == 1 {
        let mut parts = parts;
        let ghost first = parts@[0];
        match parts.pop() {
            Some(only) => {
                assert(only == first);
                only
            },
            None => RegexAst::Concat(parts),
        }
    } else {
        RegexAst::Concat(parts)
    }
}

fn collapse_branches(branches: Vec<RegexAst>) -> (r: RegexAst)
    ensures
        syntax_of(r) == collapse_alternate(syntax_list(branches, 0)),
{
    proof {
        lemma_syntax_list(branches, 0);
    }
    if branches.len() == 1 {
        let mut branches = branches;
        let ghost first = branches@[0];
        match branches.pop() {
            Some(only) => {
                assert(only == first);
                only
            },
            None => RegexAst::Alternate(branches),
        }
    } else {
        RegexAst::Alternate(branches)
    }
}

fn parse_concatination(pat: &str, p: &Vec<char>, i: usize, g: u32) -> (r: Result<(RegexAst, usize, u32), MalformedPattern>)
    requires
        pat@ == p@,
        i <= p@.len() < u32::MAX,
        g <= i,
    ensures
        agrees(r, spec_concatenation(p@, i as int, g as int)),
        advances(r, i as int, p@.len() as int, false),
    decreases p@.len() - i, 3int,
{
    let mut parts: Vec<RegexAst> = Vec::new();
    let ghost mut models: Seq<Syntax> = seq![];
    let mut k: usize = i;
    let mut gk: u32 = g;
    while k < p.len() && p[k] != ')' && p[k] != '|'
        invariant
            pat@ == p@,
            i <= k <= p@.len() < u32::MAX,
            gk <= k,
            parts@.len() == models.len(),
            forall|t: int| 0 <= t < models.len() ==> syntax_of(#[trigger] parts@[t]) == models[t],
            more_pieces(p@, i as int, g as int, seq![]) == more_pieces(p@, k as int, gk as int, models),
        decreases p@.len() - k,
    {
        match parse_repeat(pat, p, k, gk) {
            Ok((node, j, g1)) => {
                proof {
                    models = models.push(syntax_of(node));
                }
                parts.push(node);
                k = j;
                gk = g1;
            },
            Err(e) => {
                return Err(e);
            },
        }
    }
    proof {
        lemma_syntax_list(parts, 0);
        assert(syntax_list(parts, 0) =~= models);
    }
    Ok((collapse_parts(parts), k, gk))
}

fn parse_alternation(pat: &str, p: &Vec<char>, i: usize, g: u32) -> (r: Result<(RegexAst, usize, u32), MalformedPattern>)
    requires
        pat@ == p@,
        i <= p@.len() < u32::MAX,
        g <= i,
    ensures
        agrees(r, spec_alternation(p@, i as int, g as int)),
        advances(r, i as int, p@.len() as int, false),
    decreases p@.len() - i, 5int,
{
    let (first, j0, g0) = match parse_concatination(pat, p, i, g) {
        Ok(t) => t,
        Err(e) => {
            return Err(e);
        },
    };
    let ghost mut models: Seq<Syntax> = seq![syntax_of(first)];
    let mut branches: Vec<RegexAst> = Vec::new();
    branches.push(first);
    let mut j: usize = j0;
    let mut gj: u32 = g0;
    while j < p.len() && p[j] == '|'
        invariant
            pat@ == p@,
            i <= j <= p@.len() < u32::MAX,
            gj <= j,
            branches@.len() == models.len(),
            forall|t: int| 0 <= t < models.len() ==> syntax_of(#[trigger] branches@[t]) == models[t],
            spec_alternation(p@, i as int, g as int) == more_branches(p@, j as int, gj as int, models),
        decreases p@.len() - j,
    {
        match parse_concatination(pat, p, j + 1, gj) {
            Ok((node, k, g1)) => {
                proof {
                    models = models.push(syntax_of(node));
                }
                branches.push(node);
                j = k;
                gj = g1;
            },
            Err(e) => {
                return Err(e);
            },
        }
    }
    proof {
        lemma_syntax_list(branches, 0);
        assert(syntax_list(branches, 0) =~= models);
    }
    Ok((collapse_branches(branches), j, gj))
}

/// Compiles `pattern`, or says why it is malformed.
pub fn pattern_to_ast(pattern: &str) -> (r: Result<RegexAst, MalformedPattern>)
    requires
        pattern@.len() < u32::MAX,
    ensures
        match r {
            Ok(ast) => compile(pattern@) == Result::<Syntax, MalformedPattern>::Ok(syntax_of(ast)),
            Err(e) => compile(pattern@) == Result::<Syntax, MalformedPattern>::Err(e),
        },
{
    let p = crate::matcher::chars_of(pattern);
    match parse_alternation(pattern, &p, 0, 0) {
        Ok((ast, j, _)) => {
            if j == p.len() {
                Ok(ast)
            } else {
                Err(MalformedPattern::UnmatchedParen)
            }
        },
        Err(e) => Err(e),
    }
}

} // verus!
