use boolean_logic::lexer::{SyntaxError, SyntaxErrorKind};
use boolean_logic::{eval_boolean_logic, evaluate_expression};

fn error(kind: SyntaxErrorKind, position: usize) -> Result<bool, SyntaxError> {
    Err(SyntaxError { kind, position })
}

#[test]
fn test_true() {
    assert_eq!(eval_boolean_logic("TRUE"), Ok(true));
}

#[test]
fn test_false() {
    assert_eq!(eval_boolean_logic("FALSE"), Ok(false));
}

// An operator stands between its operands. Written in front of them it
// stands where an operand is due, and the line is rejected.
#[test]
fn test_and_true_false() {
    assert_eq!(
        eval_boolean_logic("AND TRUE FALSE"),
        error(SyntaxErrorKind::ExpectedOperand, 0)
    );
    assert_eq!(eval_boolean_logic("TRUE AND FALSE"), Ok(false));
}

#[test]
fn test_or_true_false() {
    assert_eq!(
        eval_boolean_logic("OR TRUE FALSE"),
        error(SyntaxErrorKind::ExpectedOperand, 0)
    );
    assert_eq!(eval_boolean_logic("TRUE OR FALSE"), Ok(true));
}

#[test]
fn test_not_true() {
    assert_eq!(eval_boolean_logic("NOT TRUE"), Ok(false));
}

#[test]
fn test_complex_expression() {
    assert_eq!(
        eval_boolean_logic("AND (OR TRUE FALSE) (NOT FALSE)"),
        error(SyntaxErrorKind::ExpectedOperand, 0)
    );
    assert_eq!(eval_boolean_logic("(TRUE OR FALSE) AND (NOT FALSE)"), Ok(true));
}

#[test]
fn eval_boolean_logic_rejects_malformed_lines() {
    assert_eq!(eval_boolean_logic(""), error(SyntaxErrorKind::ExpectedOperand, 0));
    assert_eq!(eval_boolean_logic("TRUE AND"), error(SyntaxErrorKind::ExpectedOperand, 8));
    assert_eq!(eval_boolean_logic("(TRUE"), error(SyntaxErrorKind::ExpectedClose, 5));
    assert_eq!(eval_boolean_logic("MAYBE"), error(SyntaxErrorKind::UnknownWord, 0));
    assert_eq!(eval_boolean_logic("TRUE FALSE"), error(SyntaxErrorKind::TrailingInput, 5));
    assert_eq!(eval_boolean_logic("TRUE)"), error(SyntaxErrorKind::TrailingInput, 4));
    assert_eq!(eval_boolean_logic("NOT NOT TRUE"), error(SyntaxErrorKind::ExpectedOperand, 4));
}

#[test]
fn eval_boolean_logic_gives_the_same_result_twice() {
    let lines = ["TRUE AND (FALSE OR TRUE)", "NOT TRUE", "TRUE AND", "(TRUE", "MAYBE", ""];
    for line in lines {
        let first = eval_boolean_logic(line);
        for other in lines {
            let _ = eval_boolean_logic(other);
        }
        assert_eq!(eval_boolean_logic(line), first);
        assert_eq!(evaluate_expression(line), first);
    }
}

#[test]
fn eval_boolean_logic_follows_precedence() {
    assert_eq!(eval_boolean_logic("TRUE AND FALSE OR TRUE"), Ok(true));
    assert_eq!(eval_boolean_logic("TRUE AND (FALSE OR TRUE)"), Ok(true));
    assert_eq!(eval_boolean_logic("NOT TRUE OR FALSE AND TRUE"), Ok(false));
    assert_eq!(eval_boolean_logic("FALSE OR FALSE OR TRUE"), Ok(true));
}

#[test]
fn literals_evaluate_to_themselves() {
    assert_eq!(evaluate_expression("TRUE"), Ok(true));
    assert_eq!(evaluate_expression("FALSE"), Ok(false));
}

#[test]
fn negation() {
    assert_eq!(evaluate_expression("NOT TRUE"), Ok(false));
    assert_eq!(evaluate_expression("NOT FALSE"), Ok(true));
}

#[test]
fn binary_operators() {
    assert_eq!(evaluate_expression("TRUE AND FALSE"), Ok(false));
    assert_eq!(evaluate_expression("TRUE AND TRUE"), Ok(true));
    assert_eq!(evaluate_expression("FALSE AND FALSE"), Ok(false));
    assert_eq!(evaluate_expression("TRUE OR FALSE"), Ok(true));
    assert_eq!(evaluate_expression("FALSE OR FALSE"), Ok(false));
    assert_eq!(evaluate_expression("FALSE OR TRUE"), Ok(true));
}

#[test]
fn and_binds_tighter_than_or() {
    assert_eq!(evaluate_expression("TRUE AND FALSE OR TRUE"), Ok(true));
    assert_eq!(evaluate_expression("TRUE OR TRUE AND FALSE"), Ok(true));
    assert_eq!(evaluate_expression("FALSE AND TRUE OR FALSE"), Ok(false));
}

#[test]
fn parentheses_override_precedence() {
    assert_eq!(evaluate_expression("TRUE AND (FALSE OR TRUE)"), Ok(true));
    assert_eq!(evaluate_expression("(TRUE OR TRUE) AND FALSE"), Ok(false));
    assert_eq!(evaluate_expression("((TRUE))"), Ok(true));
}

#[test]
fn composition() {
    assert_eq!(evaluate_expression("(TRUE OR FALSE) AND (NOT FALSE)"), Ok(true));
}

#[test]
fn not_binds_to_the_atom_behind_it() {
    assert_eq!(evaluate_expression("NOT TRUE OR TRUE"), Ok(true));
    assert_eq!(evaluate_expression("NOT (TRUE OR TRUE)"), Ok(false));
    assert_eq!(evaluate_expression("NOT FALSE AND FALSE"), Ok(false));
    assert_eq!(evaluate_expression("NOT (NOT TRUE)"), Ok(true));
}

#[test]
fn not_is_not_applied_twice_in_a_row() {
    assert_eq!(
        evaluate_expression("NOT NOT TRUE"),
        error(SyntaxErrorKind::ExpectedOperand, 4)
    );
}

#[test]
fn same_line_same_result() {
    let lines = ["TRUE AND (FALSE OR TRUE)", "NOT TRUE", "TRUE AND", "MAYBE", ""];
    for line in lines {
        assert_eq!(evaluate_expression(line), evaluate_expression(line));
    }
}

#[test]
fn longer_chains() {
    assert_eq!(evaluate_expression("FALSE OR FALSE OR TRUE"), Ok(true));
    assert_eq!(evaluate_expression("FALSE OR FALSE OR FALSE"), Ok(false));
    assert_eq!(evaluate_expression("TRUE AND TRUE AND TRUE"), Ok(true));
    assert_eq!(evaluate_expression("TRUE AND TRUE AND FALSE"), Ok(false));
    assert_eq!(evaluate_expression("(FALSE OR FALSE) OR TRUE"), Ok(true));
    assert_eq!(evaluate_expression("FALSE OR (FALSE OR TRUE)"), Ok(true));
}

#[test]
fn malformed_lines_are_rejected() {
    assert_eq!(evaluate_expression(""), error(SyntaxErrorKind::ExpectedOperand, 0));
    assert_eq!(evaluate_expression("TRUE AND"), error(SyntaxErrorKind::ExpectedOperand, 8));
    assert_eq!(evaluate_expression("(TRUE"), error(SyntaxErrorKind::ExpectedClose, 5));
    assert_eq!(evaluate_expression("MAYBE"), error(SyntaxErrorKind::UnknownWord, 0));
}

#[test]
fn each_kind_of_error() {
    assert_eq!(evaluate_expression("TRUE AND maybe"), error(SyntaxErrorKind::UnknownWord, 9));
    assert_eq!(evaluate_expression("TRUE OR )"), error(SyntaxErrorKind::ExpectedOperand, 8));
    assert_eq!(evaluate_expression("()"), error(SyntaxErrorKind::ExpectedOperand, 1));
    assert_eq!(evaluate_expression("(TRUE FALSE)"), error(SyntaxErrorKind::ExpectedClose, 6));
    assert_eq!(evaluate_expression("TRUE FALSE"), error(SyntaxErrorKind::TrailingInput, 5));
    assert_eq!(evaluate_expression("TRUE )"), error(SyntaxErrorKind::TrailingInput, 5));
    assert_eq!(evaluate_expression("   "), error(SyntaxErrorKind::ExpectedOperand, 3));
}

#[test]
fn a_lexical_error_comes_before_a_grammatical_one() {
    assert_eq!(evaluate_expression("AND TRUE x"), error(SyntaxErrorKind::UnknownWord, 9));
}

#[test]
fn keywords_are_exact() {
    assert_eq!(evaluate_expression("true"), error(SyntaxErrorKind::UnknownWord, 0));
    assert_eq!(evaluate_expression("True"), error(SyntaxErrorKind::UnknownWord, 0));
    assert_eq!(evaluate_expression("TRUEAND FALSE"), error(SyntaxErrorKind::UnknownWord, 0));
    assert_eq!(evaluate_expression("NOTTRUE"), error(SyntaxErrorKind::UnknownWord, 0));
    assert_eq!(evaluate_expression("TRUE & FALSE"), error(SyntaxErrorKind::UnknownWord, 5));
    assert_eq!(evaluate_expression("TRU"), error(SyntaxErrorKind::UnknownWord, 0));
    assert_eq!(evaluate_expression("TRUE OR FALS\u{c9}"), error(SyntaxErrorKind::UnknownWord, 8));
}

#[test]
fn whitespace_runs_are_tolerated() {
    assert_eq!(evaluate_expression("  TRUE   AND\tTRUE  "), Ok(true));
    assert_eq!(evaluate_expression("( TRUE )OR( FALSE )"), Ok(true));
    assert_eq!(evaluate_expression("NOT\n(FALSE)\r\n"), Ok(true));
    assert_eq!(evaluate_expression("NOT(TRUE)"), Ok(false));
}
