use lispy::operations::{divide, identity, product, subtract, sum};
use lispy::token::{LispyError, Token};

#[test]
fn sum_nothing() {
    let subject = sum(vec![]);
    let expectation = Token::Number(0);
    assert_eq!(subject.unwrap(), expectation);
}

#[test]
fn sum_one_number() {
    let subject = sum(vec![Token::Number(1)]);
    let expectation = Token::Number(1);
    assert_eq!(subject.unwrap(), expectation);
}

#[test]
fn sum_two_numbers() {
    let subject = sum(vec![Token::Number(1), Token::Number(2)]);
    let expectation = Token::Number(3);
    assert_eq!(subject.unwrap(), expectation);
}

#[test]
fn sum_three_numbers() {
    let subject = sum(vec![Token::Number(1), Token::Number(2), Token::Number(3)]);
    let expectation = Token::Number(6);
    assert_eq!(subject.unwrap(), expectation);
}

#[test]
fn subtract_nothing() {
    let subject = subtract(vec![]);
    let expectation = Token::Number(0);
    assert_eq!(subject.unwrap(), expectation);
}

#[test]
fn subtract_one_number() {
    let subject = subtract(vec![Token::Number(1)]);
    let expectation = Token::Number(1);
    assert_eq!(subject.unwrap(), expectation);
}

#[test]
fn subtract_two_numbers() {
    let subject = subtract(vec![Token::Number(1), Token::Number(2)]);
    let expectation = Token::Number(-1);
    assert_eq!(subject.unwrap(), expectation);
}

#[test]
fn subtract_three_numbers() {
    let subject = subtract(vec![Token::Number(4), Token::Number(2), Token::Number(1)]);
    let expectation = Token::Number(1);
    assert_eq!(subject.unwrap(), expectation);
}

#[test]
fn multiply_nothing() {
    let subject = product(vec![]);
    let expectation = Token::Number(0);
    assert_eq!(subject.unwrap(), expectation);
}

#[test]
fn multiply_one_number() {
    let subject = product(vec![Token::Number(1)]);
    let expectation = Token::Number(1);
    assert_eq!(subject.unwrap(), expectation);
}

#[test]
fn multiply_two_numbers() {
    let subject = product(vec![Token::Number(2), Token::Number(3)]);
    let expectation = Token::Number(6);
    assert_eq!(subject.unwrap(), expectation);
}

#[test]
fn multiply_three_numbers() {
    let subject = product(vec![Token::Number(2), Token::Number(3), Token::Number(4)]);
    let expectation = Token::Number(24);
    assert_eq!(subject.unwrap(), expectation);
}

#[test]
fn divide_nothing() {
    let subject = divide(vec![]);
    let expectation = Token::Number(0);
    assert_eq!(subject.unwrap(), expectation);
}

#[test]
fn divide_one_number() {
    let subject = divide(vec![Token::Number(1)]);
    let expectation = Token::Number(1);
    assert_eq!(subject.unwrap(), expectation);
}

#[test]
fn divide_two_numbers() {
    let subject = divide(vec![Token::Number(4), Token::Number(2)]);
    let expectation = Token::Number(2);
    assert_eq!(subject.unwrap(), expectation);
}

#[test]
fn divide_ignore_remainder() {
    let subject = divide(vec![Token::Number(3), Token::Number(2)]);
    let expectation = Token::Number(1);
    assert_eq!(subject.unwrap(), expectation);
}

#[test]
fn divide_three_numbers() {
    let subject = divide(vec![Token::Number(8), Token::Number(2), Token::Number(2)]);
    let expectation = Token::Number(2);
    assert_eq!(subject.unwrap(), expectation);
}

#[test]
fn divide_by_zero_is_reported() {
    let subject = divide(vec![Token::Number(1), Token::Number(0)]);
    assert_eq!(subject, Err(LispyError::DivisionByZero));
}

#[test]
fn non_number_arguments_coerce_to_zero() {
    let subject = sum(vec![Token::Number(5), Token::List(vec![])]);
    assert_eq!(subject.unwrap(), Token::Number(5));
}

#[test]
fn sum_wraps_at_the_32_bit_boundary() {
    let subject = sum(vec![Token::Number(i32::MAX), Token::Number(1)]);
    assert_eq!(subject.unwrap(), Token::Number(i32::MIN));
}

#[test]
fn divide_minimum_by_minus_one_wraps() {
    let subject = divide(vec![Token::Number(i32::MIN), Token::Number(-1)]);
    assert_eq!(subject.unwrap(), Token::Number(i32::MIN));
}

#[test]
fn identity_wraps_the_arguments_in_a_list() {
    let subject = identity(vec![Token::Number(1), Token::Number(2)]);
    let expectation = Token::List(vec![Token::Number(1), Token::Number(2)]);
    assert_eq!(subject.unwrap(), expectation);
}
