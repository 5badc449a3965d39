use lispy::token::{Oper, Token};

#[test]
fn builds_sum() {
    let subject = Token::build_operator(&b"+"[..]);
    let expectation = Token::Func(Oper::Sum);
    assert_eq!(subject, expectation);
}

#[test]
fn builds_subtract() {
    let subject = Token::build_operator(&b"-"[..]);
    let expectation = Token::Func(Oper::Subtract);
    assert_eq!(subject, expectation);
}

#[test]
fn builds_number() {
    let subject = Token::build_number(&b"1"[..]);
    let expectation = Token::Number(1);
    assert_eq!(subject, expectation);
}

#[test]
fn builds_product_and_divide() {
    assert_eq!(Token::build_operator(&b"*"[..]), Token::Func(Oper::Product));
    assert_eq!(Token::build_operator(&b"/"[..]), Token::Func(Oper::Divide));
}

#[test]
fn rejects_an_unknown_operator() {
    let subject = Token::build_operator(&b"%"[..]);
    let expectation = Token::Error("Parse Error: bad operation provided".to_string());
    assert_eq!(subject, expectation);
}

#[test]
fn number_overflow_becomes_an_error_token() {
    let subject = Token::build_number(&b"2147483648"[..]);
    let expectation = Token::Error("unable to convert a string to a number".to_string());
    assert_eq!(subject, expectation);
}

#[test]
fn largest_number_still_fits() {
    let subject = Token::build_number(&b"2147483647"[..]);
    assert_eq!(subject, Token::Number(i32::MAX));
}

#[test]
fn leading_zeros_do_not_overflow() {
    let subject = Token::build_number(&b"000000000012"[..]);
    assert_eq!(subject, Token::Number(12));
}

#[test]
fn non_digits_make_an_error_token() {
    let subject = Token::build_number(&b"12a"[..]);
    let expectation = Token::Error("unable to convert a string to a number".to_string());
    assert_eq!(subject, expectation);
}
