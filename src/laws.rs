//! Properties of matching that hold for every line and every pattern they name.
use vstd::prelude::*;
use crate::matcher::{
    CaptureMap, alternate_from, concat_from, expand, leaf_ends, line_matches, match_node, step,
};
use crate::pattern::{Repetition, Syntax, char_matches, is_char_node};

verus! {

/// Matching from offsets that were never reached does nothing.
proof fn lemma_step_none(s: Seq<char>, node: Syntax, p: int, caps: CaptureMap)
    ensures
        step(s, node, Set::empty(), p, caps) == (Set::<int>::empty(), caps),
    decreases s.len() + 1 - p,
{
    if p <= s.len() {
        lemma_step_none(s, node, p + 1, caps);
    }
}

/// Matching from the one offset `at` is matching the node there.
proof fn lemma_step_single(s: Seq<char>, node: Syntax, at: int, p: int, caps: CaptureMap)
    requires
        p <= at <= s.len(),
    ensures
        step(s, node, set![at], p, caps) == match_node(s, node, at, caps),
    decreases s.len() + 1 - p,
{
    if p < at {
        lemma_step_single(s, node, at, p + 1, caps);
    } else {
        let (ends, c) = match_node(s, node, at, caps);
        lemma_step_after(s, node, at, p + 1, c);
        assert(ends.union(Set::empty()) =~= ends);
    }
}

proof fn lemma_step_after(s: Seq<char>, node: Syntax, at: int, p: int, caps: CaptureMap)
    requires
        at < p,
    ensures
        step(s, node, set![at], p, caps) == (Set::<int>::empty(), caps),
    decreases s.len() + 1 - p,
{
    if p <= s.len() {
        lemma_step_after(s, node, at, p + 1, caps);
    }
}

/// Whether every node of `atoms` consumes exactly one character.
pub open spec fn all_char_nodes(atoms: Seq<Syntax>) -> bool {
    forall|i: int| 0 <= i < atoms.len() ==> is_char_node(#[trigger] atoms[i])
}

/// Whether the nodes of `atoms` accept, one by one, the characters of `s` from offset `at`.
pub open spec fn accepts_at(s: Seq<char>, atoms: Seq<Syntax>, at: int) -> bool {
    &&& 0 <= at
    &&& at + atoms.len() <= s.len()
    &&& forall|i: int| 0 <= i < atoms.len() ==> char_matches(#[trigger] atoms[i], s[at + i])
}

proof fn lemma_concat_chars(s: Seq<char>, atoms: Seq<Syntax>, k: int, at: int, caps: CaptureMap)
    requires
        all_char_nodes(atoms),
        0 <= k <= atoms.len(),
        0 <= at <= s.len(),
    ensures
        concat_from(s, atoms, k, set![at], caps).1 == caps,
        concat_from(s, atoms, k, set![at], caps).0 == if accepts_at(s, atoms.subrange(k, atoms.len() as int), at) {
            set![at + atoms.len() - k]
        } else {
            Set::<int>::empty()
        },
    decreases atoms.len() - k,
{
    let rest = atoms.subrange(k, atoms.len() as int);
    if k < atoms.len() {
        let node = atoms[k];
        assert(is_char_node(node));
        lemma_step_single(s, node, at, 0, caps);
        assert(match_node(s, node, at, caps) == (leaf_ends(s, node, at), caps));
        let ends = leaf_ends(s, node, at);
        let tail = atoms.subrange(k + 1, atoms.len() as int);
        if ends.is_empty() {
            assert(!(0 <= at < s.len() && char_matches(node, s[at])));
            lemma_concat_empty(s, atoms, k + 1, caps);
            if accepts_at(s, rest, at) {
                assert(rest[0] == node);
            }
        } else {
            assert(ends == set![at + 1]);
            lemma_concat_chars(s, atoms, k + 1, at + 1, caps);
            assert forall|i: int| 0 <= i < tail.len() implies (char_matches(tail[i], s[at + 1 + i])
                <==> char_matches(rest[i + 1], s[at + (i + 1)])) by {
                assert(tail[i] == rest[i + 1]);
            }
            if accepts_at(s, tail, at + 1) {
                assert forall|i: int| 0 <= i < rest.len() implies char_matches(#[trigger] rest[i], s[at + i]) by {
                    if i > 0 {
                        assert(char_matches(tail[i - 1], s[at + 1 + (i - 1)]));
                    }
                }
            }
            if accepts_at(s, rest, at) {
                assert forall|i: int| 0 <= i < tail.len() implies char_matches(#[trigger] tail[i], s[(at + 1) + i]) by {
                    assert(char_matches(rest[i + 1], s[at + (i + 1)]));
                }
            }
        }
    } else {
        assert(accepts_at(s, rest, at));
    }
}

proof fn lemma_concat_empty(s: Seq<char>, kids: Seq<Syntax>, k: int, caps: CaptureMap)
    ensures
        concat_from(s, kids, k, Set::empty(), caps) == (Set::<int>::empty(), caps),
    decreases kids.len() - k,
{
    if 0 <= k < kids.len() {
        lemma_step_none(s, kids[k], 0, caps);
        lemma_concat_empty(s, kids, k + 1, caps);
    }
}

/// A concatenation of single-character nodes (no quantifier, alternation or group) matches
/// from `at` exactly when its nodes accept the characters from `at` one by one, and then it
/// ends right after them; the bindings stay as they were.
pub proof fn law_char_sequence(s: Seq<char>, atoms: Seq<Syntax>, at: int, caps: CaptureMap)
    requires
        all_char_nodes(atoms),
        0 <= at <= s.len(),
    ensures
        match_node(s, Syntax::Concat(atoms), at, caps) == (
            if accepts_at(s, atoms, at) {
                set![at + atoms.len()]
            } else {
                Set::<int>::empty()
            },
            caps,
        ),
{
    lemma_concat_chars(s, atoms, 0, at, caps);
    assert(atoms.subrange(0, atoms.len() as int) =~= atoms);
}

/// A line matches such a concatenation exactly when its nodes accept the characters at some
/// offset of the line.
pub proof fn law_char_sequence_line(s: Seq<char>, atoms: Seq<Syntax>)
    requires
        all_char_nodes(atoms),
    ensures
        line_matches(s, Syntax::Concat(atoms)) <==> exists|at: int| accepts_at(s, atoms, at),
{
    if line_matches(s, Syntax::Concat(atoms)) {
        let at = choose|at: int|
            0 <= at <= s.len() && !(#[trigger] match_node(s, Syntax::Concat(atoms), at, Map::empty()).0).is_empty();
        law_char_sequence(s, atoms, at, Map::empty());
        assert(accepts_at(s, atoms, at));
    }
    if exists|at: int| accepts_at(s, atoms, at) {
        let at = choose|at: int| accepts_at(s, atoms, at);
        law_char_sequence(s, atoms, at, Map::empty());
        assert(match_node(s, Syntax::Concat(atoms), at, Map::empty()).0.contains(at + atoms.len()));
    }
}

/// Whether `atoms` are the literals of the characters of `text`, in order.
pub open spec fn spells(atoms: Seq<Syntax>, text: Seq<char>) -> bool {
    &&& atoms.len() == text.len()
    &&& forall|i: int| 0 <= i < atoms.len() ==> #[trigger] atoms[i] == Syntax::Literal(text[i])
}

/// A line matches a concatenation of literals exactly when it holds their text somewhere.
pub proof fn law_literal_substring(s: Seq<char>, atoms: Seq<Syntax>, text: Seq<char>)
    requires
        spells(atoms, text),
    ensures
        line_matches(s, Syntax::Concat(atoms)) <==> exists|at: int|
            0 <= at && at + text.len() <= s.len() && #[trigger] s.subrange(at, at + text.len()) == text,
{
    assert(all_char_nodes(atoms));
    law_char_sequence_line(s, atoms);
    assert forall|at: int| 0 <= at && at + text.len() <= s.len() implies (accepts_at(s, atoms, at)
        <==> s.subrange(at, at + text.len()) == text) by {
        if accepts_at(s, atoms, at) {
            assert forall|i: int| 0 <= i < text.len() implies s.subrange(at, at + text.len())[i] == text[i] by {
                assert(atoms[i] == Syntax::Literal(text[i]));
                assert(char_matches(atoms[i], s[at + i]));
            }
            assert(s.subrange(at, at + text.len()) =~= text);
        }
        if s.subrange(at, at + text.len()) == text {
            assert forall|i: int| 0 <= i < atoms.len() implies char_matches(#[trigger] atoms[i], s[at + i]) by {
                assert(atoms[i] == Syntax::Literal(text[i]));
                assert(s.subrange(at, at + text.len())[i] == text[i]);
            }
        }
    }
    if exists|at: int| accepts_at(s, atoms, at) {
        let at = choose|at: int| accepts_at(s, atoms, at);
        assert(s.subrange(at, at + text.len()) == text);
    }
    if exists|at: int| 0 <= at && at + text.len() <= s.len() && #[trigger] s.subrange(at, at + text.len()) == text {
        let at = choose|at: int| 0 <= at && at + text.len() <= s.len() && #[trigger] s.subrange(at, at + text.len()) == text;
        assert(accepts_at(s, atoms, at));
    }
}

/// The empty concatenation matches the empty string at every offset of every line.
pub proof fn law_empty_concat(s: Seq<char>, at: int, caps: CaptureMap)
    requires
        0 <= at <= s.len(),
    ensures
        match_node(s, Syntax::Concat(seq![]), at, caps) == (set![at], caps),
        line_matches(s, Syntax::Concat(seq![])),
{
    assert(concat_from(s, seq![], 0, set![at], caps) == (set![at], caps));
    assert(concat_from(s, seq![], 0, set![0int], Map::empty()) == (set![0int], Map::<u32, Seq<char>>::empty()));
    assert(match_node(s, Syntax::Concat(seq![]), 0, Map::empty()).0.contains(0));
}

/// Repetition keeps every offset it has reached.
proof fn lemma_expand_keeps(s: Seq<char>, sub: Syntax, reached: Set<int>, p: int, caps: CaptureMap)
    ensures
        reached.subset_of(expand(s, sub, reached, p, caps).0),
    decreases s.len() + 1 - p,
{
    if p <= s.len() {
        if reached.contains(p) {
            let (ends, c) = match_node(s, sub, p, caps);
            lemma_expand_keeps(s, sub, reached.union(ends), p + 1, c);
        } else {
            lemma_expand_keeps(s, sub, reached, p + 1, caps);
        }
    }
}

/// Repetition from no offset reaches none.
proof fn lemma_expand_none(s: Seq<char>, sub: Syntax, p: int, caps: CaptureMap)
    ensures
        expand(s, sub, Set::empty(), p, caps) == (Set::<int>::empty(), caps),
    decreases s.len() + 1 - p,
{
    if p <= s.len() {
        lemma_expand_none(s, sub, p + 1, caps);
    }
}

/// `*` always allows zero repetitions: the start offset is among its ends.
pub proof fn law_star_allows_zero(s: Seq<char>, sub: Syntax, at: int, caps: CaptureMap)
    ensures
        match_node(s, Syntax::Repeat(Box::new(sub), Repetition::Star), at, caps).0.contains(at),
{
    lemma_expand_keeps(s, sub, set![at], at, caps);
}

/// `+` needs one occurrence: it has an end exactly when its sub-pattern has one.
pub proof fn law_plus_needs_one(s: Seq<char>, sub: Syntax, at: int, caps: CaptureMap)
    ensures
        match_node(s, Syntax::Repeat(Box::new(sub), Repetition::Plus), at, caps).0.is_empty()
            <==> match_node(s, sub, at, caps).0.is_empty(),
{
    let (ends, c) = match_node(s, sub, at, caps);
    lemma_expand_keeps(s, sub, ends, at, c);
    if ends.is_empty() {
        assert(ends == Set::<int>::empty());
        lemma_expand_none(s, sub, at, c);
    } else {
        let q = choose|q: int| ends.contains(q);
        assert(match_node(s, Syntax::Repeat(Box::new(sub), Repetition::Plus), at, caps).0.contains(q));
    }
}

proof fn lemma_alternate_union(s: Seq<char>, kids: Seq<Syntax>, k: int, at: int, caps: CaptureMap)
    requires
        0 <= k,
    ensures
        forall|q: int|
            alternate_from(s, kids, k, at, caps).0.contains(q) <==> exists|i: int|
                k <= i < kids.len() && (#[trigger] match_node(s, kids[i], at, caps)).0.contains(q),
    decreases kids.len() - k,
{
    if k < kids.len() {
        lemma_alternate_union(s, kids, k + 1, at, caps);
        let (ends, c) = match_node(s, kids[k], at, caps);
        let rest = alternate_from(s, kids, k + 1, at, caps).0;
        assert(alternate_from(s, kids, k, at, caps).0 == if ends.is_empty() {
            rest
        } else {
            ends.union(rest)
        });
        assert forall|q: int|
            alternate_from(s, kids, k, at, caps).0.contains(q) <==> exists|i: int|
                k <= i < kids.len() && (#[trigger] match_node(s, kids[i], at, caps)).0.contains(q) by {
            if ends.contains(q) {
                assert(match_node(s, kids[k], at, caps).0.contains(q));
                assert(!ends.is_empty());
            }
            if rest.contains(q) {
                let i = choose|i: int| k + 1 <= i < kids.len() && (#[trigger] match_node(s, kids[i], at, caps)).0.contains(q);
                assert(k <= i < kids.len());
            }
            if exists|i: int| k <= i < kids.len() && (#[trigger] match_node(s, kids[i], at, caps)).0.contains(q) {
                let i = choose|i: int| k <= i < kids.len() && (#[trigger] match_node(s, kids[i], at, caps)).0.contains(q);
                if i > k {
                    assert(alternate_from(s, kids, k + 1, at, caps).0.contains(q));
                }
            }
        }
    }
}

/// An alternation ends wherever any one of its branches ends, each branch matched against
/// the same bindings.
pub proof fn law_alternation_union(s: Seq<char>, branches: Seq<Syntax>, at: int, caps: CaptureMap)
    ensures
        forall|q: int|
            match_node(s, Syntax::Alternate(branches), at, caps).0.contains(q) <==> exists|i: int|
                0 <= i < branches.len() && (#[trigger] match_node(s, branches[i], at, caps)).0.contains(q),
{
    assert(match_node(s, Syntax::Alternate(branches), at, caps) == alternate_from(s, branches, 0, at, caps));
    lemma_alternate_union(s, branches, 0, at, caps);
}

/// A failed match leaves the bindings as they were: an attempt that finds no end cannot leak
/// captures into the next one.
pub proof fn law_failure_keeps_captures(s: Seq<char>, node: Syntax, at: int, caps: CaptureMap)
    ensures
        match_node(s, node, at, caps).0.is_empty() ==> match_node(s, node, at, caps).1 == caps,
    decreases node,
{
    match node {
        Syntax::Alternate(kids) => {
            lemma_alternate_failure(s, kids, 0, at, caps);
        },
        Syntax::Repeat(sub, rep) => {
            law_failure_keeps_captures(s, *sub, at, caps);
            match rep {
                Repetition::Star => {
                    law_star_allows_zero(s, *sub, at, caps);
                },
                Repetition::Plus => {
                    let (ends, c) = match_node(s, *sub, at, caps);
                    lemma_expand_keeps(s, *sub, ends, at, c);
                    if ends.is_empty() {
                        assert(ends == Set::<int>::empty());
                        lemma_expand_none(s, *sub, at, c);
                    } else {
                        let q = choose|q: int| ends.contains(q);
                        assert(expand(s, *sub, ends, at, c).0.contains(q));
                    }
                },
                Repetition::Optional => {
                    assert(match_node(s, node, at, caps).0.contains(at));
                },
                Repetition::Once => {},
            }
        },
        Syntax::CaptureGroup(_, sub) => {
            law_failure_keeps_captures(s, *sub, at, caps);
        },
        _ => {},
    }
}

proof fn lemma_alternate_failure(s: Seq<char>, kids: Seq<Syntax>, k: int, at: int, caps: CaptureMap)
    ensures
        alternate_from(s, kids, k, at, caps).0.is_empty() ==> alternate_from(s, kids, k, at, caps).1 == caps,
    decreases kids.len() - k,
{
    if 0 <= k < kids.len() {
        lemma_alternate_failure(s, kids, k + 1, at, caps);
        let (ends, c) = match_node(s, kids[k], at, caps);
        if !ends.is_empty() {
            let q = choose|q: int| ends.contains(q);
            assert(alternate_from(s, kids, k, at, caps).0.contains(q));
        }
    }
}

} // verus!
