//! The grammar and its recursive-descent parser.
//!
//! ```text
//! expression      := or_expression
//! or_expression   := and_expression ( "OR" and_expression )*
//! and_expression  := not_expression ( "AND" not_expression )*
//! not_expression  := "NOT"? atom
//! atom            := "TRUE" | "FALSE" | "(" expression ")"
//! ```
//!
//! Which tree a line stands for is said by the relation `derives` of the
//! module `grammar`. How a line is read, and which error is reported where
//! it stands for no tree, is said here, by one spec function for each rule.
//! Each takes the index of the token at which it starts and the length of
//! the input (`end`, the offset reported where the tokens run out), and
//! gives the tree it reads together with the number of tokens it takes, or
//! the first error. The executable functions return the same tree, and the
//! index behind what they read. That the rules read a line as the tree it
//! stands for, and reject it only where it stands for none, is proved in
//! `grammar`.

use crate::expr::{chain_trees, Expression, Tree};
use crate::grammar::{
    derives, kinds, lemma_parse_is_the_grammar, lemma_parser_is_the_grammar,
    lemma_rejects_what_stands_for_nothing, stands_for,
};
use crate::lexer::{left, lex, tokenize, Lexeme, SyntaxError, SyntaxErrorKind, Token};
use vstd::prelude::*;
use vstd::string::StringSliceAdditionalSpecFns;

verus! {

/// The token at index `i` exists and is `token`.
pub open spec fn is_token(t: Seq<Lexeme>, i: int, token: Token) -> bool {
    0 <= i < t.len() && t[i].token == token
}

/// The error of the given kind at token `i`: at its offset, or at `end` where
/// there is no such token.
pub open spec fn fail(kind: SyntaxErrorKind, t: Seq<Lexeme>, i: int, end: usize) -> SyntaxError {
    SyntaxError { kind, position: if 0 <= i < t.len() { t[i].start } else { end } }
}

/// The operator that joins the operands of a chain.
pub open spec fn operator(disjunction: bool) -> Token {
    if disjunction {
        Token::Or
    } else {
        Token::And
    }
}

/// The tree of a chain of operands: the operand itself where there is one,
/// a node over all of them where there are more.
pub open spec fn join(operands: Seq<Tree>, disjunction: bool) -> Tree {
    if operands.len() == 1 {
        operands[0]
    } else if disjunction {
        Tree::Or(operands)
    } else {
        Tree::And(operands)
    }
}

/// `atom := "TRUE" | "FALSE" | "(" expression ")"`
pub open spec fn atom(t: Seq<Lexeme>, i: int, end: usize) -> Result<(Tree, nat), SyntaxError>
    decreases left(t.len(), i), 0int,
{
    if is_token(t, i, Token::True) {
        Ok((Tree::Literal(true), 1))
    } else if is_token(t, i, Token::False) {
        Ok((Tree::Literal(false), 1))
    } else if is_token(t, i, Token::Open) {
        match chain(t, i + 1, end, true) {
            Err(e) => Err(e),
            Ok((tree, n)) => if is_token(t, i + 1 + n, Token::Close) {
                Ok((tree, n + 2))
            } else {
                Err(fail(SyntaxErrorKind::ExpectedClose, t, i + 1 + n, end))
            },
        }
    } else {
        Err(fail(SyntaxErrorKind::ExpectedOperand, t, i, end))
    }
}

/// `not_expression := "NOT"? atom`
pub open spec fn not_expression(t: Seq<Lexeme>, i: int, end: usize) -> Result<
    (Tree, nat),
    SyntaxError,
>
    decreases left(t.len(), i), 1int,
{
    if is_token(t, i, Token::Not) {
        match atom(t, i + 1, end) {
            Err(e) => Err(e),
            Ok((tree, n)) => Ok((Tree::Not(Box::new(tree)), n + 1)),
        }
    } else {
        atom(t, i, end)
    }
}

/// One operand of a chain: an `and_expression` in a disjunction, a
/// `not_expression` in a conjunction.
pub open spec fn operand(t: Seq<Lexeme>, i: int, end: usize, disjunction: bool) -> Result<
    (Tree, nat),
    SyntaxError,
>
    decreases left(t.len(), i), (if disjunction { 4int } else { 2int }),
{
    if disjunction {
        chain(t, i, end, false)
    } else {
        not_expression(t, i, end)
    }
}

/// `( operator operand )*`, after a chain that began at token `from`, has
/// taken `used` tokens and has read the operands `acc`. An operator commits:
/// the operand behind it must follow.
pub open spec fn chain_rest(
    t: Seq<Lexeme>,
    from: int,
    used: nat,
    end: usize,
    disjunction: bool,
    acc: Seq<Tree>,
) -> Result<(Seq<Tree>, nat), SyntaxError>
    decreases left(t.len(), from + used), 0int,
{
    if is_token(t, from + used, operator(disjunction)) {
        match operand(t, from + used + 1, end, disjunction) {
            Err(e) => Err(e),
            Ok((tree, n)) => chain_rest(t, from, used + 1 + n, end, disjunction, acc.push(tree)),
        }
    } else {
        Ok((acc, used))
    }
}

/// `operand ( operator operand )*`
pub open spec fn chain(t: Seq<Lexeme>, i: int, end: usize, disjunction: bool) -> Result<
    (Tree, nat),
    SyntaxError,
>
    decreases left(t.len(), i), (if disjunction { 5int } else { 3int }),
{
    match operand(t, i, end, disjunction) {
        Err(e) => Err(e),
        Ok((first, n)) => match chain_rest(t, i, n, end, disjunction, seq![first]) {
            Err(e) => Err(e),
            Ok((operands, used)) => Ok((join(operands, disjunction), used)),
        },
    }
}

/// `and_expression := not_expression ( "AND" not_expression )*`
pub open spec fn and_expression(t: Seq<Lexeme>, i: int, end: usize) -> Result<
    (Tree, nat),
    SyntaxError,
> {
    chain(t, i, end, false)
}

/// `or_expression := and_expression ( "OR" and_expression )*`
pub open spec fn or_expression(t: Seq<Lexeme>, i: int, end: usize) -> Result<
    (Tree, nat),
    SyntaxError,
> {
    chain(t, i, end, true)
}

/// A whole line of tokens: one expression and nothing behind it.
pub open spec fn sentence(t: Seq<Lexeme>, end: usize) -> Result<Tree, SyntaxError> {
    match or_expression(t, 0, end) {
        Err(e) => Err(e),
        Ok((tree, n)) => if n == t.len() {
            Ok(tree)
        } else {
            Err(fail(SyntaxErrorKind::TrailingInput, t, n as int, end))
        },
    }
}

/// The tree that an input line stands for, or its first error.
pub open spec fn parse_spec(s: Seq<u8>) -> Result<Tree, SyntaxError> {
    match lex(s) {
        Err(e) => Err(e),
        Ok(t) => sentence(t, s.len() as usize),
    }
}

/// A result of an executable rule says what the grammar says: on success the
/// expression stands for the grammar's tree and `r.1` is the index behind the
/// tokens taken, on failure the error is the grammar's. What was read is at
/// least one token, lies within the tokens, and is well formed.
pub open spec fn agrees(
    r: Result<(Expression, usize), SyntaxError>,
    model: Result<(Tree, nat), SyntaxError>,
    pos: usize,
    len: nat,
) -> bool {
    match model {
        Ok((tree, n)) => {
            &&& r is Ok
            &&& r->Ok_0.0@ == tree
            &&& r->Ok_0.1 == pos + n
            &&& 1 <= n
            &&& pos + n <= len
            &&& tree.well_formed()
        },
        Err(e) => r == Err::<(Expression, usize), SyntaxError>(e),
    }
}

/// The error of the given kind at token `pos`.
fn fail_at(kind: SyntaxErrorKind, tokens: &Vec<Lexeme>, pos: usize, end: usize) -> (e: SyntaxError)
    ensures
        e == fail(kind, tokens@, pos as int, end),
{
    if pos < tokens.len() {
        SyntaxError { kind, position: tokens[pos].start }
    } else {
        SyntaxError { kind, position: end }
    }
}

/// Whether the token at `pos` exists and is `token`.
fn at(tokens: &Vec<Lexeme>, pos: usize, token: Token) -> (r: bool)
    ensures
        r == is_token(tokens@, pos as int, token),
        r ==> pos < usize::MAX,
{
    pos < tokens.len() && tokens[pos].token == token
}

/// Reads an atom at token `pos`.
pub fn parse_atom(tokens: &Vec<Lexeme>, pos: usize, end: usize) -> (r: Result<
    (Expression, usize),
    SyntaxError,
>)
    ensures
        agrees(r, atom(tokens@, pos as int, end), pos, tokens@.len()),
    decreases left(tokens@.len(), pos as int), 0int,
{
    if at(tokens, pos, Token::True) {
        Ok((Expression::Literal(true), pos + 1))
    } else if at(tokens, pos, Token::False) {
        Ok((Expression::Literal(false), pos + 1))
    } else if at(tokens, pos, Token::Open) {
        match parse_chain(tokens, pos + 1, end, true) {
            Err(e) => Err(e),
            Ok((inner, behind)) => if at(tokens, behind, Token::Close) {
                Ok((inner, behind + 1))
            } else {
                Err(fail_at(SyntaxErrorKind::ExpectedClose, tokens, behind, end))
            },
        }
    } else {
        Err(fail_at(SyntaxErrorKind::ExpectedOperand, tokens, pos, end))
    }
}

/// Reads an optional `NOT` and the atom behind it.
pub fn parse_not(tokens: &Vec<Lexeme>, pos: usize, end: usize) -> (r: Result<
    (Expression, usize),
    SyntaxError,
>)
    ensures
        agrees(r, not_expression(tokens@, pos as int, end), pos, tokens@.len()),
    decreases left(tokens@.len(), pos as int), 1int,
{
    if at(tokens, pos, Token::Not) {
        match parse_atom(tokens, pos + 1, end) {
            Err(e) => Err(e),
            Ok((inner, behind)) => Ok((Expression::Not(Box::new(inner)), behind)),
        }
    } else {
        parse_atom(tokens, pos, end)
    }
}

/// Reads one operand of a chain.
fn parse_operand(tokens: &Vec<Lexeme>, pos: usize, end: usize, disjunction: bool) -> (r: Result<
    (Expression, usize),
    SyntaxError,
>)
    ensures
        agrees(r, operand(tokens@, pos as int, end, disjunction), pos, tokens@.len()),
    decreases left(tokens@.len(), pos as int), (if disjunction { 4int } else { 2int }),
{
    if disjunction {
        parse_chain(tokens, pos, end, false)
    } else {
        parse_not(tokens, pos, end)
    }
}

/// Reads a chain: one operand, then operator and operand for as long as the
/// operator follows, gathered from the left.
fn parse_chain(tokens: &Vec<Lexeme>, pos: usize, end: usize, disjunction: bool) -> (r: Result<
    (Expression, usize),
    SyntaxError,
>)
    ensures
        agrees(r, chain(tokens@, pos as int, end, disjunction), pos, tokens@.len()),
    decreases left(tokens@.len(), pos as int), (if disjunction { 5int } else { 3int }),
{
    let ghost t = tokens@;
    let (first, first_end) = match parse_operand(tokens, pos, end, disjunction) {
        Ok(x) => x,
        Err(e) => {
            return Err(e);
        },
    };
    let ghost whole = chain_rest(
        t,
        pos as int,
        (first_end - pos) as nat,
        end,
        disjunction,
        seq![first@],
    );
    let joint: Token = if disjunction { Token::Or } else { Token::And };
    let mut operands: Vec<Expression> = Vec::new();
    operands.push(first);
    let mut behind: usize = first_end;
    assert(chain_trees(operands) =~= seq![first@]);
    while at(tokens, behind, joint)
        invariant
            t == tokens@,
            chain(t, pos as int, end, disjunction) == match whole {
                Err(e) => Err::<(Tree, nat), SyntaxError>(e),
                Ok((trees, used)) => Ok((join(trees, disjunction), used)),
            },
            joint == operator(disjunction),
            pos < behind <= t.len(),
            operands@.len() >= 1,
            forall|j: int|
                0 <= j < operands@.len() ==> (#[trigger] chain_trees(operands)[j]).well_formed(),
            whole == chain_rest(
                t,
                pos as int,
                (behind - pos) as nat,
                end,
                disjunction,
                chain_trees(operands),
            ),
        decreases t.len() - behind,
    {
        let ghost before = chain_trees(operands);
        match parse_operand(tokens, behind + 1, end, disjunction) {
            Err(e) => {
                return Err(e);
            },
            Ok((next, next_end)) => {
                operands.push(next);
                behind = next_end;
                assert(chain_trees(operands) =~= before.push(next@));
            },
        }
    }
    let ghost all = chain_trees(operands);
    if operands.len() == 1 {
        let only = operands.pop().unwrap();
        assert(only@ == all[0]);
        Ok((only, behind))
    } else if disjunction {
        Ok((Expression::Or(operands), behind))
    } else {
        Ok((Expression::And(operands), behind))
    }
}

/// Reads an `and_expression` at token `pos`.
pub fn parse_and(tokens: &Vec<Lexeme>, pos: usize, end: usize) -> (r: Result<
    (Expression, usize),
    SyntaxError,
>)
    ensures
        agrees(r, and_expression(tokens@, pos as int, end), pos, tokens@.len()),
{
    parse_chain(tokens, pos, end, false)
}

/// Reads an `or_expression` at token `pos`.
pub fn parse_or(tokens: &Vec<Lexeme>, pos: usize, end: usize) -> (r: Result<
    (Expression, usize),
    SyntaxError,
>)
    ensures
        agrees(r, or_expression(tokens@, pos as int, end), pos, tokens@.len()),
{
    parse_chain(tokens, pos, end, true)
}

/// Reads a whole line of tokens: one expression, and nothing behind it.
/// `end` is the offset reported where the tokens run out. The line is read
/// as the tree it stands for by the grammar, and rejected where it stands
/// for none.
pub fn parse_tokens(tokens: &Vec<Lexeme>, end: usize) -> (r: Result<Expression, SyntaxError>)
    ensures
        match sentence(tokens@, end) {
            Ok(tree) => r is Ok && r->Ok_0@ == tree && tree.well_formed(),
            Err(e) => r == Err::<Expression, SyntaxError>(e),
        },
        r matches Ok(e) ==> derives(3, kinds(tokens@), e@),
        r is Err ==> forall|tree: Tree| !#[trigger] derives(3, kinds(tokens@), tree),
{
    proof {
        lemma_parser_is_the_grammar(tokens@, end);
    }
    match parse_or(tokens, 0, end) {
        Err(e) => Err(e),
        Ok((expression, behind)) => if behind == tokens.len() {
            Ok(expression)
        } else {
            Err(fail_at(SyntaxErrorKind::TrailingInput, tokens, behind, end))
        },
    }
}

/// The parser of boolean expressions.
pub struct BooleanLogicParser;

impl BooleanLogicParser {
    /// Parses one line: `Ok` with the expression that the line stands for,
    /// `Err` with the first violation where it stands for none.
    pub fn parse(input: &str) -> (r: Result<Expression, SyntaxError>)
        ensures
            match parse_spec(input.spec_bytes()) {
                Ok(tree) => r is Ok && r->Ok_0@ == tree && tree.well_formed(),
                Err(e) => r == Err::<Expression, SyntaxError>(e),
            },
            r matches Ok(e) ==> stands_for(input.spec_bytes(), e@),
            r is Err ==> forall|tree: Tree| !#[trigger] stands_for(input.spec_bytes(), tree),
    {
        let bytes = input.as_bytes();
        let length: usize = bytes.len();
        proof {
            assert(bytes@.len() == length);
            lemma_rejects_what_stands_for_nothing(bytes@);
            if parse_spec(bytes@) is Ok {
                lemma_parse_is_the_grammar(bytes@, parse_spec(bytes@)->Ok_0);
            }
        }
        match tokenize(bytes) {
            Err(e) => Err(e),
            Ok(tokens) => parse_tokens(&tokens, length),
        }
    }
}

} // verus!
