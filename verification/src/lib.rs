//! Front end of a small experimental language: a lexer for multi-radix
//! integer, float and escaped string literals, and a precedence-climbing
//! expression parser producing an abstract syntax tree of top-level
//! function and data declarations.
//!
//! The library's behaviour is pinned to a mathematical model: the lexer to
//! [`lexer::spec_next`], the parser to the step-indexed functions around
//! [`parser::sp_root`]. [`parse_string`] returns exactly the outcome the
//! mathematical parser settles on for the source text, so parsing is a
//! function of the source alone.

pub mod lexer;
pub mod operators;
pub mod parser;
pub mod position;

use vstd::prelude::*;

verus! {

use crate::parser::decl_count;
use crate::parser::parse_settles;
use crate::parser::stats_view;
use crate::parser::ParseError;
use crate::parser::Parser;
use crate::parser::Root;

/// Parses a whole source text into its sequence of top-level statements, or
/// the diagnostic of the first failure.
///
/// The result is exactly the outcome the mathematical parser settles on for
/// this source; in particular parsing the same text twice yields
/// structurally identical trees (see
/// [`parser::lemma_parse_deterministic`]). On success the tree holds one
/// statement per top-level `fn` or `data` declaration.
pub fn parse_string(s: &str) -> (r: Result<Root, ParseError>)
    requires
        s@.len() < usize::MAX,
    ensures
        match r {
            Ok(root) => parse_settles(s@, Ok(stats_view(root@))),
            Err(pe) => parse_settles(s@, Err(pe@)),
        },
        r matches Ok(root) ==> root@.len() == decl_count(s@, 0),
{
    let mut parser = Parser::new(s);
    let r = parser.parse();
    proof {
        if r is Ok {
            crate::parser::lemma_stats_view_len(r->Ok_0@);
            crate::parser::lemma_statement_count(s@, stats_view(r->Ok_0@));
        }
    }
    r
}

} // verus!
