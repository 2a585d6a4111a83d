use boolean_logic::expr::{evaluate, Expression, InvalidTree};
use boolean_logic::lexer::{tokenize, Lexeme, SyntaxError, SyntaxErrorKind, Token};
use boolean_logic::parser::{parse_and, parse_atom, parse_not, parse_or, parse_tokens};
use boolean_logic::BooleanLogicParser;

fn lit(b: bool) -> Expression {
    Expression::Literal(b)
}

fn not(e: Expression) -> Expression {
    Expression::Not(Box::new(e))
}

fn tokens_of(line: &str) -> Vec<Lexeme> {
    tokenize(line.as_bytes()).unwrap()
}

#[test]
fn tokens_carry_their_offsets() {
    assert_eq!(
        tokenize(b"NOT (TRUE  OR FALSE) AND TRUE"),
        Ok(vec![
            Lexeme { token: Token::Not, start: 0 },
            Lexeme { token: Token::Open, start: 4 },
            Lexeme { token: Token::True, start: 5 },
            Lexeme { token: Token::Or, start: 11 },
            Lexeme { token: Token::False, start: 14 },
            Lexeme { token: Token::Close, start: 19 },
            Lexeme { token: Token::And, start: 21 },
            Lexeme { token: Token::True, start: 25 },
        ])
    );
}

#[test]
fn empty_and_blank_lines_have_no_tokens() {
    assert_eq!(tokenize(b""), Ok(vec![]));
    assert_eq!(tokenize(b" \t\r\n"), Ok(vec![]));
}

#[test]
fn the_first_unknown_word_is_reported() {
    assert_eq!(
        tokenize(b"TRUE ANDY ORR"),
        Err(SyntaxError { kind: SyntaxErrorKind::UnknownWord, position: 5 })
    );
    assert_eq!(
        tokenize(b"(FALSEE)"),
        Err(SyntaxError { kind: SyntaxErrorKind::UnknownWord, position: 1 })
    );
}

#[test]
fn a_single_operand_is_no_chain() {
    assert_eq!(BooleanLogicParser::parse("TRUE"), Ok(lit(true)));
    assert_eq!(BooleanLogicParser::parse("(FALSE)"), Ok(lit(false)));
    assert_eq!(BooleanLogicParser::parse("NOT TRUE"), Ok(not(lit(true))));
}

#[test]
fn a_chain_gathers_its_operands_in_order() {
    assert_eq!(
        BooleanLogicParser::parse("TRUE AND FALSE AND TRUE"),
        Ok(Expression::And(vec![lit(true), lit(false), lit(true)]))
    );
    assert_eq!(
        BooleanLogicParser::parse("FALSE OR FALSE OR TRUE"),
        Ok(Expression::Or(vec![lit(false), lit(false), lit(true)]))
    );
}

#[test]
fn precedence_shapes_the_tree() {
    assert_eq!(
        BooleanLogicParser::parse("TRUE AND FALSE OR TRUE"),
        Ok(Expression::Or(vec![Expression::And(vec![lit(true), lit(false)]), lit(true)]))
    );
    assert_eq!(
        BooleanLogicParser::parse("TRUE AND (FALSE OR TRUE)"),
        Ok(Expression::And(vec![lit(true), Expression::Or(vec![lit(false), lit(true)])]))
    );
    assert_eq!(
        BooleanLogicParser::parse("NOT TRUE AND FALSE"),
        Ok(Expression::And(vec![not(lit(true)), lit(false)]))
    );
    assert_eq!(
        BooleanLogicParser::parse("NOT (TRUE AND FALSE)"),
        Ok(not(Expression::And(vec![lit(true), lit(false)])))
    );
}

#[test]
fn parse_reports_the_first_violation() {
    assert_eq!(
        BooleanLogicParser::parse("(TRUE OR"),
        Err(SyntaxError { kind: SyntaxErrorKind::ExpectedOperand, position: 8 })
    );
    assert_eq!(
        BooleanLogicParser::parse("(TRUE OR FALSE"),
        Err(SyntaxError { kind: SyntaxErrorKind::ExpectedClose, position: 14 })
    );
    assert_eq!(
        BooleanLogicParser::parse("TRUE NOT"),
        Err(SyntaxError { kind: SyntaxErrorKind::TrailingInput, position: 5 })
    );
}

#[test]
fn rules_return_the_index_behind_what_they_read() {
    let line = "NOT TRUE AND FALSE OR TRUE";
    let tokens = tokens_of(line);
    assert_eq!(parse_atom(&tokens, 1, line.len()), Ok((lit(true), 2)));
    assert_eq!(parse_not(&tokens, 0, line.len()), Ok((not(lit(true)), 2)));
    assert_eq!(
        parse_and(&tokens, 0, line.len()),
        Ok((Expression::And(vec![not(lit(true)), lit(false)]), 4))
    );
    assert_eq!(
        parse_or(&tokens, 0, line.len()),
        Ok((
            Expression::Or(vec![Expression::And(vec![not(lit(true)), lit(false)]), lit(true)]),
            6
        ))
    );
    assert_eq!(parse_or(&tokens, 3, line.len()), Ok((Expression::Or(vec![lit(false), lit(true)]), 6)));
}

#[test]
fn rules_fail_where_no_operand_stands() {
    let line = "TRUE AND";
    let tokens = tokens_of(line);
    let expected = Err(SyntaxError { kind: SyntaxErrorKind::ExpectedOperand, position: 5 });
    assert_eq!(parse_atom(&tokens, 1, line.len()), expected);
    assert_eq!(parse_not(&tokens, 1, line.len()), expected);
    let at_end = Err(SyntaxError { kind: SyntaxErrorKind::ExpectedOperand, position: 8 });
    assert_eq!(parse_atom(&tokens, 2, line.len()), at_end);
    assert_eq!(parse_atom(&tokens, 7, line.len()), at_end);
    assert_eq!(parse_and(&tokens, 0, line.len()), at_end);
    assert_eq!(parse_or(&tokens, 0, line.len()), at_end);
}

#[test]
fn a_line_of_tokens_is_one_expression() {
    assert_eq!(parse_tokens(&tokens_of("TRUE"), 4), Ok(lit(true)));
    assert_eq!(
        parse_tokens(&tokens_of("TRUE TRUE"), 9),
        Err(SyntaxError { kind: SyntaxErrorKind::TrailingInput, position: 5 })
    );
    assert_eq!(
        parse_tokens(&vec![], 0),
        Err(SyntaxError { kind: SyntaxErrorKind::ExpectedOperand, position: 0 })
    );
}

#[test]
fn evaluation_of_trees() {
    assert_eq!(evaluate(&lit(true)), Ok(true));
    assert_eq!(evaluate(&not(lit(true))), Ok(false));
    assert_eq!(evaluate(&Expression::And(vec![lit(true)])), Ok(true));
    assert_eq!(evaluate(&Expression::Or(vec![lit(false)])), Ok(false));
    assert_eq!(evaluate(&Expression::And(vec![lit(true), lit(true), lit(false)])), Ok(false));
    assert_eq!(evaluate(&Expression::Or(vec![lit(false), lit(false), lit(true)])), Ok(true));
    assert_eq!(
        evaluate(&Expression::And(vec![
            Expression::Or(vec![lit(true), lit(false)]),
            not(lit(false))
        ])),
        Ok(true)
    );
}

#[test]
fn grouping_does_not_change_a_chain() {
    let flat = Expression::Or(vec![lit(false), lit(false), lit(true)]);
    let left = Expression::Or(vec![Expression::Or(vec![lit(false), lit(false)]), lit(true)]);
    let right = Expression::Or(vec![lit(false), Expression::Or(vec![lit(false), lit(true)])]);
    assert_eq!(evaluate(&flat), Ok(true));
    assert_eq!(evaluate(&left), Ok(true));
    assert_eq!(evaluate(&right), Ok(true));
}

#[test]
fn a_chain_without_operands_is_invalid() {
    assert_eq!(evaluate(&Expression::And(vec![])), Err(InvalidTree));
    assert_eq!(evaluate(&Expression::Or(vec![])), Err(InvalidTree));
    assert_eq!(evaluate(&not(Expression::Or(vec![]))), Err(InvalidTree));
    assert_eq!(
        evaluate(&Expression::And(vec![lit(false), Expression::Or(vec![])])),
        Err(InvalidTree)
    );
    assert_eq!(
        evaluate(&Expression::Or(vec![lit(true), Expression::And(vec![]), lit(true)])),
        Err(InvalidTree)
    );
}

#[test]
fn written_trees_are_read_back() {
    assert_eq!(
        BooleanLogicParser::parse("NOT (TRUE OR FALSE) AND FALSE OR TRUE"),
        Ok(Expression::Or(vec![
            Expression::And(vec![not(Expression::Or(vec![lit(true), lit(false)])), lit(false)]),
            lit(true)
        ]))
    );
    assert_eq!(
        BooleanLogicParser::parse("(TRUE AND FALSE) AND TRUE"),
        Ok(Expression::And(vec![Expression::And(vec![lit(true), lit(false)]), lit(true)]))
    );
    assert_eq!(
        BooleanLogicParser::parse("TRUE OR (FALSE OR TRUE)"),
        Ok(Expression::Or(vec![lit(true), Expression::Or(vec![lit(false), lit(true)])]))
    );
    assert_eq!(BooleanLogicParser::parse("NOT (NOT TRUE)"), Ok(not(not(lit(true)))));
    assert_eq!(
        BooleanLogicParser::parse("TRUE AND (FALSE OR TRUE) AND FALSE"),
        Ok(Expression::And(vec![
            lit(true),
            Expression::Or(vec![lit(false), lit(true)]),
            lit(false)
        ]))
    );
}

#[test]
fn parentheses_that_change_nothing_leave_no_trace() {
    let plain = BooleanLogicParser::parse("TRUE AND FALSE");
    assert_eq!(plain, Ok(Expression::And(vec![lit(true), lit(false)])));
    assert_eq!(BooleanLogicParser::parse("((TRUE AND FALSE))"), plain);
    assert_eq!(BooleanLogicParser::parse("(TRUE) AND (FALSE)"), plain);
    assert_eq!(BooleanLogicParser::parse("(NOT TRUE)"), Ok(not(lit(true))));
}

#[test]
fn a_chain_reduces_from_the_left() {
    let values = [true, true, false, true];
    let mut all = true;
    let mut any = false;
    for n in 1..=values.len() {
        all = all && values[n - 1];
        any = any || !values[n - 1];
        let conjunction: Vec<Expression> = values[..n].iter().map(|b| lit(*b)).collect();
        let disjunction: Vec<Expression> = values[..n].iter().map(|b| lit(!*b)).collect();
        assert_eq!(evaluate(&Expression::And(conjunction)), Ok(all));
        assert_eq!(evaluate(&Expression::Or(disjunction)), Ok(any));
    }
}
