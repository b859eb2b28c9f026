use minigrep::{find_captures, is_match, match_pattern, pattern_to_ast, solve};
use minigrep::{MalformedPattern, RegexAst, Repetition};
use std::collections::HashMap;

fn compiled(pattern: &str) -> RegexAst {
    pattern_to_ast(pattern).expect("pattern compiles")
}

fn matches(line: &str, pattern: &str) -> bool {
    is_match(line, &compiled(pattern))
}

fn ends(line: &str, pattern: &str, start: usize) -> Vec<usize> {
    let chars: Vec<char> = line.chars().collect();
    let mut captures = HashMap::new();
    solve(&chars, &compiled(pattern), start, &mut captures)
}

fn group(line: &str, pattern: &str, id: u32) -> Option<String> {
    let captures = find_captures(line, &compiled(pattern))?;
    captures.get(&id).map(|text| text.iter().collect())
}

#[test]
fn literal_is_substring_search() {
    assert!(matches("xxabcyy", "abc"));
    assert!(matches("abc", "abc"));
    assert!(!matches("xxabdyy", "abc"));
    assert!(!matches("ab", "abc"));
    assert!(matches("dog", "d"));
    assert!(!matches("cat", "d"));
}

#[test]
fn literal_ends_at_the_right_offset() {
    assert_eq!(ends("aab", "ab", 1), vec![3]);
    assert_eq!(ends("aab", "ab", 0), Vec::<usize>::new());
    assert_eq!(ends("aab", "ab", 3), Vec::<usize>::new());
}

#[test]
fn classes_without_quantifiers() {
    assert!(matches("a1_", "\\w\\d\\w"));
    assert!(!matches("a_1", "\\d\\d"));
    assert!(matches("x9", ".\\d"));
    assert_eq!(ends("ab7", "\\w\\d", 1), vec![3]);
}

#[test]
fn empty_concat_matches_everywhere() {
    let empty = RegexAst::Concat(vec![]);
    assert!(is_match("", &empty));
    assert!(is_match("abc", &empty));
    let chars: Vec<char> = "abc".chars().collect();
    for start in 0..=3 {
        let mut captures = HashMap::new();
        assert_eq!(solve(&chars, &empty, start, &mut captures), vec![start]);
    }
    assert!(matches("", ""));
}

#[test]
fn star_allows_zero() {
    assert!(matches("", "a*"));
    assert!(matches("bbb", "ba*b"));
    assert_eq!(ends("aaa", "a*", 0), vec![0, 1, 2, 3]);
}

#[test]
fn plus_needs_one() {
    assert!(!matches("", "a+"));
    assert!(matches("a", "a+"));
    assert!(!matches("bb", "ba+b"));
    assert_eq!(ends("aab", "a+", 0), vec![1, 2]);
}

#[test]
fn optional_quantifier() {
    assert!(matches("color", "colou?r"));
    assert!(matches("colour", "colou?r"));
    assert!(!matches("colouur", "^colou?r$"));
}

#[test]
fn anchors_compose() {
    assert!(matches("abc", "^abc$"));
    assert!(!matches("xabc", "^abc$"));
    assert!(!matches("abcx", "^abc$"));
    assert!(matches("abcx", "^abc"));
    assert!(matches("xabc", "abc$"));
}

#[test]
fn capture_and_backreference() {
    assert!(matches("cat and cat", "(cat) and \\1"));
    assert!(!matches("cat and dog", "(cat) and \\1"));
    assert!(matches("abab", "^(\\w\\w)\\1$"));
    assert!(!matches("abba", "^(\\w\\w)\\1$"));
}

#[test]
fn alternation_picks_a_branch() {
    assert!(matches("cat", "(cat|dog)"));
    assert!(matches("dog", "(cat|dog)"));
    assert!(!matches("cow", "(cat|dog)"));
    assert_eq!(group("cat", "(cat|dog)", 1), Some("cat".to_string()));
    assert_eq!(group("dog", "(cat|dog)", 1), Some("dog".to_string()));
}

#[test]
fn alternation_keeps_every_continuation() {
    assert!(matches("ab", "^(a|ab)$"));
    assert!(matches("abc", "^(a|ab)c$"));
}

#[test]
fn character_classes() {
    assert!(matches("d", "[^abc]"));
    assert!(!matches("a", "[^abc]"));
    assert!(matches("b", "[abc]"));
    assert!(!matches("z", "[abc]"));
    assert_eq!(ends("123", "\\d+", 0), vec![1, 2, 3]);
    assert_eq!(ends("12a3", "\\d+", 0), vec![1, 2]);
}

#[test]
fn escaped_bracket_in_class() {
    assert!(matches("]", "[a\\]]"));
    assert_eq!(compiled("[a\\]b]"), RegexAst::PositiveGroup("a]b".to_string()));
}

#[test]
fn matching_twice_gives_the_same_answer() {
    let ast = compiled("(a+)b\\1");
    let first = is_match("xaabaa", &ast);
    let second = is_match("xaabaa", &ast);
    assert!(first);
    assert_eq!(first, second);
    assert_eq!(ast, compiled("(a+)b\\1"));
}

#[test]
fn lines_are_matched_independently() {
    let ast = compiled("(a)x|\\1");
    let _ = is_match("ax", &ast);
    assert_eq!(is_match("a", &ast), is_match("a", &compiled("(a)x|\\1")));
    assert!(!is_match("a", &ast));
    let ast = compiled("(\\w) \\1");
    assert!(is_match("q q", &ast));
    assert!(!is_match("p q", &ast));
}

#[test]
fn failed_branch_leaves_no_capture() {
    assert!(!matches("a", "(a)x|\\1"));
    assert!(!matches("ab", "(a)x|b\\1"));
}

#[test]
fn backreference_to_missing_group_fails() {
    assert!(!matches("a", "\\1"));
    assert!(!matches("", "\\0"));
}

#[test]
fn nested_repetition_terminates() {
    assert!(matches("aab", "(a*)*b"));
    assert!(!matches("aaaaaaaaaaaaaaaaaaaaaaaaaaaaaa", "(a*)*c"));
}

#[test]
fn tree_shapes() {
    assert_eq!(compiled("a"), RegexAst::Literal('a'));
    assert_eq!(compiled(""), RegexAst::Concat(vec![]));
    assert_eq!(
        compiled("ab"),
        RegexAst::Concat(vec![RegexAst::Literal('a'), RegexAst::Literal('b')])
    );
    assert_eq!(
        compiled("a|"),
        RegexAst::Alternate(vec![RegexAst::Literal('a'), RegexAst::Concat(vec![])])
    );
    assert_eq!(
        compiled("a?"),
        RegexAst::Repeat(Box::new(RegexAst::Literal('a')), Repetition::Optional)
    );
    assert_eq!(
        compiled("^.$"),
        RegexAst::Concat(vec![RegexAst::StartOfLine, RegexAst::Wildcard, RegexAst::EndOfLine])
    );
    assert_eq!(compiled("[^xy]"), RegexAst::NegativeGroup("xy".to_string()));
    assert_eq!(compiled("\\7"), RegexAst::Backreference(7));
}

#[test]
fn group_ids_follow_opening_parens() {
    assert_eq!(
        compiled("((a)b)"),
        RegexAst::CaptureGroup(
            1,
            Box::new(RegexAst::Concat(vec![
                RegexAst::CaptureGroup(2, Box::new(RegexAst::Literal('a'))),
                RegexAst::Literal('b'),
            ]))
        )
    );
    assert_eq!(
        compiled("(a)(b)"),
        RegexAst::Concat(vec![
            RegexAst::CaptureGroup(1, Box::new(RegexAst::Literal('a'))),
            RegexAst::CaptureGroup(2, Box::new(RegexAst::Literal('b'))),
        ])
    );
    assert_eq!(group("ab", "((a)b)", 1), Some("ab".to_string()));
    assert_eq!(group("ab", "((a)b)", 2), Some("a".to_string()));
}

#[test]
fn malformed_patterns() {
    assert_eq!(pattern_to_ast("(a"), Err(MalformedPattern::UnclosedGroup));
    assert_eq!(pattern_to_ast("[ab"), Err(MalformedPattern::UnclosedBracket));
    assert_eq!(pattern_to_ast("["), Err(MalformedPattern::UnclosedBracket));
    assert_eq!(pattern_to_ast("\\q"), Err(MalformedPattern::UnknownEscape));
    assert_eq!(pattern_to_ast("a\\"), Err(MalformedPattern::UnknownEscape));
    assert_eq!(pattern_to_ast("a)"), Err(MalformedPattern::UnmatchedParen));
}

#[test]
fn match_pattern_compiles_then_matches() {
    assert_eq!(match_pattern("apple pie", "\\w+ pie"), Ok(true));
    assert_eq!(match_pattern("apple", "^pie"), Ok(false));
    assert_eq!(match_pattern("apple", "(pie"), Err(MalformedPattern::UnclosedGroup));
}

#[test]
fn captures_of_first_matching_start() {
    assert_eq!(group("xx12yy", "(\\d+)", 1), Some("12".to_string()));
    assert!(find_captures("abc", &compiled("\\d")).is_none());
}

#[test]
fn cloned_tree_is_equal() {
    let ast = compiled("^(a|[^b]+)*\\1$");
    let copy = ast.clone();
    assert_eq!(copy, ast);
    assert_eq!(is_match("aa", &copy), is_match("aa", &ast));
}
