use lispy::eval::eval;
use lispy::token::{LispyError, Token};

#[test]
fn test_addition() {
    let subject = eval("(+ 1 (- 3 2))".to_string());
    let expectation = Token::Number(2);

    assert_eq!(subject, Ok(expectation));
}

#[test]
fn adds_and_multiplies_two_numbers() {
    assert_eq!(eval("(+ 20 22)".to_string()), Ok(Token::Number(42)));
    assert_eq!(eval("(* 6 7)".to_string()), Ok(Token::Number(42)));
}

#[test]
fn chained_subtraction_is_left_associative() {
    assert_eq!(eval("(- 4 2 1)".to_string()), Ok(Token::Number(1)));
}

#[test]
fn division_truncates_toward_zero() {
    assert_eq!(eval("(/ 8 2 2)".to_string()), Ok(Token::Number(2)));
    assert_eq!(eval("(/ 3 2)".to_string()), Ok(Token::Number(1)));
}

#[test]
fn division_by_zero_is_reported() {
    assert_eq!(eval("(/ 1 0)".to_string()), Err(LispyError::DivisionByZero));
}

#[test]
fn empty_input_is_reported() {
    assert_eq!(eval("".to_string()), Err(LispyError::EmptyInput));
}

#[test]
fn whitespace_only_input_is_reported_as_empty() {
    assert_eq!(eval("   \t ".to_string()), Err(LispyError::EmptyInput));
}

#[test]
fn a_lone_closing_marker_builds_no_tree() {
    assert_eq!(eval(")".to_string()), Err(LispyError::EmptyInput));
}

#[test]
fn a_bare_number_evaluates_to_itself() {
    assert_eq!(eval("7".to_string()), Ok(Token::Number(7)));
}

#[test]
fn a_bare_operator_applies_to_nothing() {
    assert_eq!(eval("+".to_string()), Ok(Token::Number(0)));
}

#[test]
fn a_group_without_an_operator_is_not_a_number() {
    assert_eq!(eval("(1 2)".to_string()), Err(LispyError::NotApplicable));
}

#[test]
fn an_unclosed_group_closes_at_end_of_input() {
    assert_eq!(eval("(+ 1 2".to_string()), Ok(Token::Number(3)));
}

#[test]
fn trailing_garbage_is_dropped_silently() {
    assert_eq!(eval("(+ 1 2) xyz".to_string()), Ok(Token::Number(3)));
}

#[test]
fn deep_nesting_evaluates_inner_groups_first() {
    assert_eq!(
        eval("(* 2 (+ 1 (- 10 4 3)))".to_string()),
        Ok(Token::Number(8))
    );
}
