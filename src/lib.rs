//! A small regular-expression engine: a recursive-descent pattern compiler and a
//! position-set matcher with capture groups and backreferences.
use vstd::prelude::*;

pub mod laws;
pub mod matcher;
pub mod offsets;
pub mod parser;
pub mod pattern;

pub use crate::matcher::{find_captures, is_match, solve};
pub use crate::parser::pattern_to_ast;
pub use crate::pattern::{MalformedPattern, RegexAst, Repetition};

use crate::matcher::line_matches;
use crate::parser::compile;

verus! {

/// Compiles `pattern` and tells whether it matches somewhere in `input_line`.
pub fn match_pattern(input_line: &str, pattern: &str) -> (r: Result<bool, MalformedPattern>)
    requires
        pattern@.len() < u32::MAX,
        input_line@.len() < usize::MAX,
    ensures
        match compile(pattern@) {
            Ok(ast) => r == Result::<bool, MalformedPattern>::Ok(line_matches(input_line@, ast)),
            Err(e) => r == Result::<bool, MalformedPattern>::Err(e),
        },
{
    match pattern_to_ast(pattern) {
        Ok(ast) => Ok(is_match(input_line, &ast)),
        Err(e) => Err(e),
    }
}

} // verus!
