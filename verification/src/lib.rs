//! Boolean logic expressions: a lexer, a recursive-descent parser and an
//! evaluator for the operators `AND`, `OR`, `NOT`, the literals `TRUE` and
//! `FALSE`, and parenthesised grouping.
//!
//! Every function is stated against a mathematical model. An input is a
//! sequence of bytes and an expression is a [`expr::Tree`]. Which tokens an
//! input has is said by [`lexer::tokens_of`], which tree a line of tokens
//! stands for by [`grammar::derives`]; the lexer and the parser are proved
//! to read exactly that, and the evaluator to give the tree's value.

pub mod expr;
pub mod grammar;
pub mod lexer;
pub mod parser;
pub mod render;

use crate::expr::{evaluate, Tree};
use crate::grammar::{normal, stands_for};
use crate::lexer::SyntaxError;
use crate::parser::parse_spec;
pub use crate::parser::BooleanLogicParser;
use crate::render::{render, text};
use vstd::pervasive::unreached;
use vstd::prelude::*;
use vstd::string::StringSliceAdditionalSpecFns;

verus! {

/// What evaluating an input line gives: the truth value of the tree that the
/// grammar reads in it, or the first violation of the grammar.
pub open spec fn outcome(s: Seq<u8>) -> Result<bool, SyntaxError> {
    match parse_spec(s) {
        Ok(tree) => Ok(tree.value()),
        Err(e) => Err(e),
    }
}

/// Parses and evaluates one line: `Ok` with the truth value of the tree
/// that the line stands for, `Err` with the first violation of the grammar
/// where it stands for none.
pub fn evaluate_expression(input: &str) -> (r: Result<bool, SyntaxError>)
    ensures
        r == outcome(input.spec_bytes()),
        r matches Ok(value) ==> exists|tree: Tree| #[trigger]
            stands_for(input.spec_bytes(), tree) && value == tree.value(),
        r is Err ==> forall|tree: Tree| !#[trigger] stands_for(input.spec_bytes(), tree),
{
    match BooleanLogicParser::parse(input) {
        Err(e) => Err(e),
        Ok(expression) => match evaluate(&expression) {
            Ok(value) => Ok(value),
            Err(_) => unreached(),
        },
    }
}

/// Evaluation keeps no state: lines with the same text have the same
/// outcome, however often and in whatever order they are evaluated.
pub proof fn lemma_same_text_same_outcome(a: &str, b: &str)
    requires
        a@ == b@,
    ensures
        outcome(a.spec_bytes()) == outcome(b.spec_bytes()),
{
}

/// Evaluating a normal tree written down as text gives the value of the
/// tree.
pub proof fn lemma_outcome_of_text(tree: Tree)
    requires
        normal(tree),
    ensures
        outcome(text(render(tree))) == Ok::<bool, SyntaxError>(tree.value()),
{
    crate::render::lemma_parses_own_text(tree);
}

/// Evaluates one line of boolean logic: `Ok` with the truth value of the
/// tree that the line stands for, `Err` with the first violation of the
/// grammar where it stands for none. No line is left out and none panics.
pub fn eval_boolean_logic(input: &str) -> (r: Result<bool, SyntaxError>)
    ensures
        r == outcome(input.spec_bytes()),
        r matches Ok(value) ==> exists|tree: Tree| #[trigger]
            stands_for(input.spec_bytes(), tree) && value == tree.value(),
        r is Err ==> forall|tree: Tree| !#[trigger] stands_for(input.spec_bytes(), tree),
{
    evaluate_expression(input)
}

} // verus!
