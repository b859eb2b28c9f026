//! Matching a compiled pattern against a line of characters.
//!
//! A node matched from a start offset yields the set of offsets at which it may end,
//! together with the capture bindings that the attempt leaves behind.
use vstd::prelude::*;
use std::collections::HashMap;
use crate::offsets::{add_bits, any_bit, bits_set, last_bit, list_bits, listed, no_bits, one_bit, strictly_increasing};
use crate::pattern::{RegexAst, Repetition, Syntax, char_matches, lemma_syntax_list, match_pattern_with_char, syntax_list, syntax_of};

verus! {

/// Group id to the text that the group captured last.
pub type CaptureMap = Map<u32, Seq<char>>;

/// The bindings held by an executable capture table.
pub open spec fn captures_view(c: HashMap<u32, Vec<char>>) -> CaptureMap {
    c@.map_values(|v: Vec<char>| v@)
}

/// The largest offset of a non-empty set of end offsets.
pub open spec fn last_end(ends: Set<int>) -> int {
    choose|e: int| ends.contains(e) && forall|q: int| ends.contains(q) ==> q <= e
}

/// Ends of a node that consumes no input or a single character.
pub open spec fn leaf_ends(s: Seq<char>, node: Syntax, start: int) -> Set<int> {
    match node {
        Syntax::StartOfLine => if start == 0 { set![start] } else { Set::empty() },
        Syntax::EndOfLine => if start == s.len() { set![start] } else { Set::empty() },
        _ => if 0 <= start < s.len() && char_matches(node, s[start]) {
            set![start + 1]
        } else {
            Set::empty()
        },
    }
}

/// Ends of a backreference to group `id` from `start`.
pub open spec fn backref_ends(s: Seq<char>, id: u32, start: int, caps: CaptureMap) -> Set<int> {
    if caps.contains_key(id) && start + caps[id].len() <= s.len() && s.subrange(
        start,
        start + caps[id].len(),
    ) == caps[id] {
        set![start + caps[id].len()]
    } else {
        Set::empty()
    }
}

/// Matches `node` against `s` from offset `start`, with the bindings `caps` in force.
/// Returns the offsets at which the node may end, and the bindings afterwards.
pub open spec fn match_node(s: Seq<char>, node: Syntax, start: int, caps: CaptureMap) -> (
    Set<int>,
    CaptureMap,
)
    decreases node, 0int,
{
    match node {
        Syntax::Concat(kids) => {
            let (ends, c) = concat_from(s, kids, 0, set![start], caps);
            if ends.is_empty() {
                (ends, caps)
            } else {
                (ends, c)
            }
        },
        Syntax::Alternate(kids) => alternate_from(s, kids, 0, start, caps),
        Syntax::Repeat(sub, rep) => match rep {
            Repetition::Once => match_node(s, *sub, start, caps),
            Repetition::Optional => {
                let (ends, c) = match_node(s, *sub, start, caps);
                (ends.insert(start), c)
            },
            Repetition::Star => expand(s, *sub, set![start], start, caps),
            Repetition::Plus => {
                let (ends, c) = match_node(s, *sub, start, caps);
                expand(s, *sub, ends, start, c)
            },
        },
        Syntax::CaptureGroup(id, sub) => {
            let (ends, c) = match_node(s, *sub, start, caps);
            if ends.is_empty() {
                (ends, c)
            } else {
                (ends, c.insert(id, s.subrange(start, last_end(ends))))
            }
        },
        Syntax::Backreference(id) => (backref_ends(s, id, start, caps), caps),
        _ => (leaf_ends(s, node, start), caps),
    }
}

/// Matches `node` from every offset of `cur` that is at least `p`, in increasing order,
/// each attempt seeing the bindings the previous one left; returns the union of the ends.
pub open spec fn step(s: Seq<char>, node: Syntax, cur: Set<int>, p: int, caps: CaptureMap) -> (
    Set<int>,
    CaptureMap,
)
    decreases node, s.len() + 1 - p,
{
    if p > s.len() {
        (Set::empty(), caps)
    } else if cur.contains(p) {
        let (ends, c) = match_node(s, node, p, caps);
        let (rest, c2) = step(s, node, cur, p + 1, c);
        (ends.union(rest), c2)
    } else {
        step(s, node, cur, p + 1, caps)
    }
}

/// Matches the children of a concatenation from index `k` on, starting at the offsets `cur`.
pub open spec fn concat_from(
    s: Seq<char>,
    kids: Seq<Syntax>,
    k: int,
    cur: Set<int>,
    caps: CaptureMap,
) -> (Set<int>, CaptureMap)
    decreases kids, kids.len() - k,
{
    if k < 0 || k >= kids.len() {
        (cur, caps)
    } else {
        let (next, c) = step(s, kids[k], cur, 0, caps);
        concat_from(s, kids, k + 1, next, c)
    }
}

/// Tries the branches from index `k` on, each against the same bindings `caps`. The ends are
/// the union of the branches' ends; the bindings are those of the first branch that matched.
pub open spec fn alternate_from(
    s: Seq<char>,
    kids: Seq<Syntax>,
    k: int,
    start: int,
    caps: CaptureMap,
) -> (Set<int>, CaptureMap)
    decreases kids, kids.len() - k,
{
    if k < 0 || k >= kids.len() {
        (Set::empty(), caps)
    } else {
        let (ends, c) = match_node(s, kids[k], start, caps);
        let (rest, c2) = alternate_from(s, kids, k + 1, start, caps);
        if ends.is_empty() {
            (rest, c2)
        } else {
            (ends.union(rest), c)
        }
    }
}

/// Repetition: scans the offsets from `p` up in increasing order; from each offset already
/// reached it matches `sub` once more and adds the ends to the reached set.
pub open spec fn expand(s: Seq<char>, sub: Syntax, reached: Set<int>, p: int, caps: CaptureMap) -> (
    Set<int>,
    CaptureMap,
)
    decreases sub, s.len() + 1 - p,
{
    if p > s.len() {
        (reached, caps)
    } else if reached.contains(p) {
        let (ends, c) = match_node(s, sub, p, caps);
        expand(s, sub, reached.union(ends), p + 1, c)
    } else {
        expand(s, sub, reached, p + 1, caps)
    }
}

/// Whether `ast` matches somewhere in `s`: some start offset, with no bindings yet, has an end.
pub open spec fn line_matches(s: Seq<char>, ast: Syntax) -> bool {
    exists|start: int|
        0 <= start <= s.len() && !(#[trigger] match_node(s, ast, start, Map::empty()).0).is_empty()
}

/// The bindings of the first attempt, from start offset `start` on, at which `ast` matches.
pub open spec fn first_match_from(s: Seq<char>, ast: Syntax, start: int) -> Option<CaptureMap>
    decreases s.len() + 1 - start,
{
    if start < 0 || start > s.len() {
        None
    } else {
        let (ends, c) = match_node(s, ast, start, Map::empty());
        if !ends.is_empty() {
            Some(c)
        } else {
            first_match_from(s, ast, start + 1)
        }
    }
}

pub open spec fn within(ends: Set<int>, lo: int, hi: int) -> bool {
    forall|q: int| ends.contains(q) ==> lo <= q <= hi
}

/// Every end of a node lies between its start offset and the end of the line.
pub proof fn lemma_ends_in_range(s: Seq<char>, node: Syntax, start: int, caps: CaptureMap)
    requires
        0 <= start <= s.len(),
    ensures
        within(match_node(s, node, start, caps).0, start, s.len() as int),
    decreases node, 0int,
{
    match node {
        Syntax::Concat(kids) => {
            lemma_concat_in_range(s, kids, 0, set![start], start, caps);
        },
        Syntax::Alternate(kids) => {
            lemma_alternate_in_range(s, kids, 0, start, caps);
        },
        Syntax::Repeat(sub, rep) => {
            lemma_ends_in_range(s, *sub, start, caps);
            match rep {
                Repetition::Star => {
                    lemma_expand_in_range(s, *sub, set![start], start, start, caps);
                },
                Repetition::Plus => {
                    let (ends, c) = match_node(s, *sub, start, caps);
                    lemma_expand_in_range(s, *sub, ends, start, start, c);
                },
                _ => {},
            }
        },
        Syntax::CaptureGroup(_, sub) => {
            lemma_ends_in_range(s, *sub, start, caps);
        },
        _ => {},
    }
}

proof fn lemma_step_in_range(s: Seq<char>, node: Syntax, cur: Set<int>, p: int, lo: int, caps: CaptureMap)
    requires
        0 <= lo,
        within(cur, lo, s.len() as int),
    ensures
        within(step(s, node, cur, p, caps).0, lo, s.len() as int),
    decreases node, s.len() + 1 - p,
{
    if p <= s.len() {
        if cur.contains(p) {
            let (ends, c) = match_node(s, node, p, caps);
            lemma_ends_in_range(s, node, p, caps);
            lemma_step_in_range(s, node, cur, p + 1, lo, c);
        } else {
            lemma_step_in_range(s, node, cur, p + 1, lo, caps);
        }
    }
}

proof fn lemma_concat_in_range(s: Seq<char>, kids: Seq<Syntax>, k: int, cur: Set<int>, lo: int, caps: CaptureMap)
    requires
        0 <= lo,
        within(cur, lo, s.len() as int),
    ensures
        within(concat_from(s, kids, k, cur, caps).0, lo, s.len() as int),
    decreases kids, kids.len() - k,
{
    if 0 <= k < kids.len() {
        let (next, c) = step(s, kids[k], cur, 0, caps);
        lemma_step_in_range(s, kids[k], cur, 0, lo, caps);
        lemma_concat_in_range(s, kids, k + 1, next, lo, c);
    }
}

proof fn lemma_alternate_in_range(s: Seq<char>, kids: Seq<Syntax>, k: int, start: int, caps: CaptureMap)
    requires
        0 <= start <= s.len(),
    ensures
        within(alternate_from(s, kids, k, start, caps).0, start, s.len() as int),
    decreases kids, kids.len() - k,
{
    if 0 <= k < kids.len() {
        lemma_ends_in_range(s, kids[k], start, caps);
        lemma_alternate_in_range(s, kids, k + 1, start, caps);
    }
}

proof fn lemma_expand_in_range(s: Seq<char>, sub: Syntax, reached: Set<int>, p: int, lo: int, caps: CaptureMap)
    requires
        0 <= lo,
        within(reached, lo, s.len() as int),
    ensures
        within(expand(s, sub, reached, p, caps).0, lo, s.len() as int),
    decreases sub, s.len() + 1 - p,
{
    if p <= s.len() {
        if reached.contains(p) {
            let (ends, c) = match_node(s, sub, p, caps);
            lemma_ends_in_range(s, sub, p, caps);
            lemma_expand_in_range(s, sub, reached.union(ends), p + 1, lo, c);
        } else {
            lemma_expand_in_range(s, sub, reached, p + 1, lo, caps);
        }
    }
}

/// Copies `s[from..to]`.
fn copy_range(s: &[char], from: usize, to: usize) -> (r: Vec<char>)
    requires
        from <= to <= s@.len(),
    ensures
        r@ == s@.subrange(from as int, to as int),
{
    let mut r: Vec<char> = Vec::new();
    let mut i: usize = from;
    while i < to
        invariant
            from <= i <= to <= s@.len(),
            r@ == s@.subrange(from as int, i as int),
        decreases to - i,
    {
        r.push(s[i]);
        i += 1;
    }
    r
}

/// Whether `s` holds `text` at offset `at`.
fn holds_at(s: &[char], at: usize, text: &Vec<char>) -> (r: bool)
    requires
        at <= s@.len(),
    ensures
        r == (at + text@.len() <= s@.len() && s@.subrange(at as int, at + text@.len()) == text@),
{
    if text.len() > s.len() - at {
        return false;
    }
    let n = s.len();
    let mut i: usize = 0;
    while i < text.len()
        invariant
            n == s@.len(),
            at <= s@.len(),
            at + text@.len() <= s@.len(),
            i <= text@.len(),
            forall|j: int| 0 <= j < i ==> s@[at + j] == text@[j],
        decreases text@.len() - i,
    {
        if s[at + i] != text[i] {
            assert(s@.subrange(at as int, at + text@.len())[i as int] != text@[i as int]);
            return false;
        }
        i += 1;
    }
    assert(s@.subrange(at as int, at + text@.len()) =~= text@);
    true
}

/// The ends of `node` from `start`, as flags over `0..=s.len()`; updates `caps` as `match_node` says.
fn match_bits(s: &[char], node: &RegexAst, start: usize, caps: &mut HashMap<u32, Vec<char>>) -> (r: Vec<bool>)
    requires
        start <= s@.len() < usize::MAX,
    ensures
        r@.len() == s@.len() + 1,
        bits_set(r@) == match_node(s@, syntax_of(*node), start as int, captures_view(*old(caps))).0,
        captures_view(*final(caps)) == match_node(s@, syntax_of(*node), start as int, captures_view(*old(caps))).1,
    decreases node, 0int,
{
    broadcast use vstd::std_specs::hash::group_hash_axioms;
    let n = s.len();
    match node {
        RegexAst::Concat(kids) => {
            let saved = caps.clone();
            let r = match_concat(s, kids, start, caps);
            if !any_bit(&r) {
                *caps = saved;
            }
            r
        },
        RegexAst::Alternate(kids) => match_alternate(s, kids, start, caps),
        RegexAst::Repeat(sub, rep) => match rep {
            Repetition::Once => match_bits(s, sub, start, caps),
            Repetition::Optional => {
                let r = match_bits(s, sub, start, caps);
                let mut here = one_bit(n + 1, start);
                add_bits(&mut here, &r);
                proof {
                    assert(bits_set(here@) =~= bits_set(r@).insert(start as int));
                }
                here
            },
            Repetition::Star => {
                let here = one_bit(n + 1, start);
                expand_bits(s, sub, here, start, caps)
            },
            Repetition::Plus => {
                let r = match_bits(s, sub, start, caps);
                expand_bits(s, sub, r, start, caps)
            },
        },
        RegexAst::CaptureGroup(id, sub) => {
            let ghost c0 = captures_view(*caps);
            let r = match_bits(s, sub, start, caps);
            if any_bit(&r) {
                let e = last_bit(&r);
                proof {
                    lemma_ends_in_range(s@, syntax_of(**sub), start as int, c0);
                    assert(last_end(bits_set(r@)) == e);
                }
                let text = copy_range(s, start, e);
                let ghost c1 = captures_view(*caps);
                caps.insert(*id, text);
                proof {
                    assert(captures_view(*caps) =~= c1.insert(*id, s@.subrange(start as int, e as int)));
                }
            }
            r
        },
        RegexAst::Backreference(id) => {
            match caps.get(id) {
                Some(text) => {
                    if holds_at(s, start, text) {
                        one_bit(n + 1, start + text.len())
                    } else {
                        no_bits(n + 1)
                    }
                },
                None => no_bits(n + 1),
            }
        },
        RegexAst::StartOfLine => {
            if start == 0 {
                one_bit(n + 1, start)
            } else {
                no_bits(n + 1)
            }
        },
        RegexAst::EndOfLine => {
            if start == n {
                one_bit(n + 1, start)
            } else {
                no_bits(n + 1)
            }
        },
        RegexAst::Digit | RegexAst::Word | RegexAst::Wildcard | RegexAst::Literal(_)
        | RegexAst::PositiveGroup(_) | RegexAst::NegativeGroup(_) => {
            if start < n && match_pattern_with_char(node, s[start]) {
                one_bit(n + 1, start + 1)
            } else {
                no_bits(n + 1)
            }
        },
    }
}

/// The union of the ends of `node` from each offset flagged in `cur`, taken in increasing order.
fn ends_from(s: &[char], node: &RegexAst, cur: &Vec<bool>, caps: &mut HashMap<u32, Vec<char>>) -> (r: Vec<bool>)
    requires
        s@.len() < usize::MAX,
        cur@.len() == s@.len() + 1,
    ensures
        r@.len() == s@.len() + 1,
        bits_set(r@) == step(s@, syntax_of(*node), bits_set(cur@), 0, captures_view(*old(caps))).0,
        captures_view(*final(caps)) == step(s@, syntax_of(*node), bits_set(cur@), 0, captures_view(*old(caps))).1,
    decreases node, 1int,
{
    let ghost c0 = captures_view(*caps);
    let ghost whole = step(s@, syntax_of(*node), bits_set(cur@), 0, c0);
    let n = s.len();
    let mut acc = no_bits(n + 1);
    let mut p: usize = 0;
    while p <= n
        invariant
            p <= n + 1,
            n == s@.len() < usize::MAX,
            acc@.len() == n + 1,
            cur@.len() == n + 1,
            whole == step(s@, syntax_of(*node), bits_set(cur@), 0, c0),
            whole.0 == bits_set(acc@).union(step(s@, syntax_of(*node), bits_set(cur@), p as int, captures_view(*caps)).0),
            whole.1 == step(s@, syntax_of(*node), bits_set(cur@), p as int, captures_view(*caps)).1,
        decreases n + 1 - p,
    {
        let ghost cp = captures_view(*caps);
        if cur[p] {
            let r = match_bits(s, node, p, caps);
            let ghost a0 = bits_set(acc@);
            add_bits(&mut acc, &r);
            proof {
                let rest = step(s@, syntax_of(*node), bits_set(cur@), p + 1, captures_view(*caps)).0;
                assert(a0.union(bits_set(r@).union(rest)) =~= bits_set(acc@).union(rest));
            }
        }
        p += 1;
    }
    assert(bits_set(acc@).union(Set::empty()) =~= bits_set(acc@));
    acc
}

fn match_concat(s: &[char], kids: &Vec<RegexAst>, start: usize, caps: &mut HashMap<u32, Vec<char>>) -> (r: Vec<bool>)
    requires
        start <= s@.len() < usize::MAX,
    ensures
        r@.len() == s@.len() + 1,
        bits_set(r@) == concat_from(s@, syntax_list(*kids, 0), 0, set![start as int], captures_view(*old(caps))).0,
        captures_view(*final(caps)) == concat_from(s@, syntax_list(*kids, 0), 0, set![start as int], captures_view(*old(caps))).1,
    decreases kids, 0int,
{
    proof {
        lemma_syntax_list(*kids, 0);
    }
    let ghost whole = concat_from(s@, syntax_list(*kids, 0), 0, set![start as int], captures_view(*caps));
    let mut cur = one_bit(s.len() + 1, start);
    let mut k: usize = 0;
    while k < kids.len()
        invariant
            start <= s@.len() < usize::MAX,
            k <= kids@.len(),
            cur@.len() == s@.len() + 1,
            whole == concat_from(s@, syntax_list(*kids, 0), k as int, bits_set(cur@), captures_view(*caps)),
        decreases kids@.len() - k,
    {
        proof {
            lemma_syntax_list(*kids, 0);
            assert(syntax_list(*kids, 0)[k as int] == syntax_of(kids@[k as int]));
        }
        let next = ends_from(s, &kids[k], &cur, caps);
        cur = next;
        k += 1;
    }
    cur
}

fn match_alternate(s: &[char], kids: &Vec<RegexAst>, start: usize, caps: &mut HashMap<u32, Vec<char>>) -> (r: Vec<bool>)
    requires
        start <= s@.len() < usize::MAX,
    ensures
        r@.len() == s@.len() + 1,
        bits_set(r@) == alternate_from(s@, syntax_list(*kids, 0), 0, start as int, captures_view(*old(caps))).0,
        captures_view(*final(caps)) == alternate_from(s@, syntax_list(*kids, 0), 0, start as int, captures_view(*old(caps))).1,
    decreases kids, 0int,
{
    proof {
        lemma_syntax_list(*kids, 0);
    }
    let ghost c0 = captures_view(*caps);
    let ghost whole = alternate_from(s@, syntax_list(*kids, 0), 0, start as int, c0);
    let mut acc = no_bits(s.len() + 1);
    let mut chosen: Option<HashMap<u32, Vec<char>>> = None;
    let mut k: usize = 0;
    while k < kids.len()
        invariant
            start <= s@.len() < usize::MAX,
            k <= kids@.len(),
            acc@.len() == s@.len() + 1,
            captures_view(*caps) == c0,
            whole == alternate_from(s@, syntax_list(*kids, 0), 0, start as int, c0),
            whole.0 == bits_set(acc@).union(alternate_from(s@, syntax_list(*kids, 0), k as int, start as int, c0).0),
            whole.1 == match chosen {
                Some(c) => captures_view(c),
                None => alternate_from(s@, syntax_list(*kids, 0), k as int, start as int, c0).1,
            },
        decreases kids@.len() - k,
    {
        proof {
            lemma_syntax_list(*kids, 0);
            assert(syntax_list(*kids, 0)[k as int] == syntax_of(kids@[k as int]));
        }
        let mut trial = caps.clone();
        let r = match_bits(s, &kids[k], start, &mut trial);
        let hit = any_bit(&r);
        let ghost a0 = bits_set(acc@);
        add_bits(&mut acc, &r);
        proof {
            let rest = alternate_from(s@, syntax_list(*kids, 0), k + 1, start as int, c0).0;
            assert(a0.union(bits_set(r@).union(rest)) =~= bits_set(acc@).union(rest));
            if !hit {
                assert(a0.union(rest) =~= bits_set(acc@).union(rest));
            }
        }
        if hit && chosen.is_none() {
            chosen = Some(trial);
        }
        k += 1;
    }
    assert(bits_set(acc@).union(Set::empty()) =~= bits_set(acc@));
    match chosen {
        Some(c) => {
            *caps = c;
        },
        None => {},
    }
    acc
}

/// Repetition from the flagged offsets, scanning offsets from `from` up.
fn expand_bits(s: &[char], sub: &RegexAst, reached: Vec<bool>, from: usize, caps: &mut HashMap<u32, Vec<char>>) -> (r: Vec<bool>)
    requires
        from <= s@.len() < usize::MAX,
        reached@.len() == s@.len() + 1,
    ensures
        r@.len() == s@.len() + 1,
        bits_set(r@) == expand(s@, syntax_of(*sub), bits_set(reached@), from as int, captures_view(*old(caps))).0,
        captures_view(*final(caps)) == expand(s@, syntax_of(*sub), bits_set(reached@), from as int, captures_view(*old(caps))).1,
    decreases sub, 1int,
{
    let ghost whole = expand(s@, syntax_of(*sub), bits_set(reached@), from as int, captures_view(*caps));
    let n = s.len();
    let mut reached = reached;
    let mut p: usize = from;
    while p <= n
        invariant
            from <= p <= n + 1,
            n == s@.len() < usize::MAX,
            reached@.len() == n + 1,
            whole == expand(s@, syntax_of(*sub), bits_set(reached@), p as int, captures_view(*caps)),
        decreases n + 1 - p,
    {
        if reached[p] {
            let r = match_bits(s, sub, p, caps);
            add_bits(&mut reached, &r);
        }
        p += 1;
    }
    reached
}

/// The characters of `line`.
pub fn chars_of(line: &str) -> (r: Vec<char>)
    ensures
        r@ == line@,
{
    let mut r: Vec<char> = Vec::new();
    for c in it: line.chars()
        invariant
            r@ == it.seq().take(it.index() as int),
    {
        r.push(c);
    }
    r
}

/// Every offset at which `node` may end when matched from `input_ind`, in increasing order.
/// `captures` is updated with what the node's groups capture.
pub fn solve(
    input_chars: &[char],
    node: &RegexAst,
    input_ind: usize,
    captures: &mut HashMap<u32, Vec<char>>,
) -> (r: Vec<usize>)
    requires
        input_ind <= input_chars@.len() < usize::MAX,
    ensures
        listed(r@) == match_node(input_chars@, syntax_of(*node), input_ind as int, captures_view(*old(captures))).0,
        strictly_increasing(r@),
        captures_view(*final(captures)) == match_node(
            input_chars@,
            syntax_of(*node),
            input_ind as int,
            captures_view(*old(captures)),
        ).1,
{
    let bits = match_bits(input_chars, node, input_ind, captures);
    list_bits(&bits)
}

/// Tries `ast` at every start offset of `s` from `from` on, each attempt with no bindings,
/// and returns the bindings of the first that matches.
fn first_match(s: &[char], ast: &RegexAst, from: usize) -> (r: Option<HashMap<u32, Vec<char>>>)
    requires
        from <= s@.len() + 1,
        s@.len() < usize::MAX,
    ensures
        match r {
            Some(c) => first_match_from(s@, syntax_of(*ast), from as int) == Some(captures_view(c)),
            None => first_match_from(s@, syntax_of(*ast), from as int) is None,
        },
{
    let n = s.len();
    let mut start: usize = from;
    while start <= n
        invariant
            from <= start <= n + 1,
            n == s@.len() < usize::MAX,
            first_match_from(s@, syntax_of(*ast), from as int) == first_match_from(s@, syntax_of(*ast), start as int),
        decreases n + 1 - start,
    {
        let mut captures: HashMap<u32, Vec<char>> = HashMap::new();
        proof {
            assert(captures_view(captures) =~= Map::empty());
        }
        let bits = match_bits(s, ast, start, &mut captures);
        if any_bit(&bits) {
            return Some(captures);
        }
        start += 1;
    }
    None
}

proof fn lemma_first_match_iff(s: Seq<char>, ast: Syntax, from: int)
    requires
        0 <= from,
    ensures
        first_match_from(s, ast, from) is Some <==> exists|start: int|
            from <= start <= s.len() && !(#[trigger] match_node(s, ast, start, Map::empty()).0).is_empty(),
    decreases s.len() + 1 - from,
{
    if from <= s.len() {
        lemma_first_match_iff(s, ast, from + 1);
        if !match_node(s, ast, from, Map::empty()).0.is_empty() {
        } else {
            assert forall|start: int| from <= start <= s.len() && !(#[trigger] match_node(s, ast, start, Map::empty()).0).is_empty()
                implies from + 1 <= start by {}
        }
    }
}

/// Whether `ast` matches somewhere in `line`.
pub fn is_match(line: &str, ast: &RegexAst) -> (r: bool)
    requires
        line@.len() < usize::MAX,
    ensures
        r == line_matches(line@, syntax_of(*ast)),
{
    let s = chars_of(line);
    let found = first_match(s.as_slice(), ast, 0);
    proof {
        lemma_first_match_iff(s@, syntax_of(*ast), 0);
    }
    found.is_some()
}

/// The bindings of the first start offset at which `ast` matches `line`, or `None` where it
/// matches nowhere.
pub fn find_captures(line: &str, ast: &RegexAst) -> (r: Option<HashMap<u32, Vec<char>>>)
    requires
        line@.len() < usize::MAX,
    ensures
        match r {
            Some(c) => first_match_from(line@, syntax_of(*ast), 0) == Some(captures_view(c)),
            None => first_match_from(line@, syntax_of(*ast), 0) is None,
        },
        r is Some <==> line_matches(line@, syntax_of(*ast)),
{
    let s = chars_of(line);
    proof {
        lemma_first_match_iff(s@, syntax_of(*ast), 0);
    }
    first_match(s.as_slice(), ast, 0)
}

} // verus!
