use lispy::parse::{render_tokens, token_text, tokenize};
use lispy::token::{Oper, Token};

#[test]
fn tokenizes_a_simple_expression() {
    let subject = tokenize("(+ 1 2)");
    let expectation = vec![
        Token::BeginSexpr,
        Token::Func(Oper::Sum),
        Token::Number(1),
        Token::Number(2),
        Token::EndSexpr,
    ];
    assert_eq!(subject, expectation);
}

#[test]
fn tokenizes_all_four_operators() {
    let subject = tokenize("+ - * /");
    let expectation = vec![
        Token::Func(Oper::Sum),
        Token::Func(Oper::Subtract),
        Token::Func(Oper::Product),
        Token::Func(Oper::Divide),
    ];
    assert_eq!(subject, expectation);
}

#[test]
fn stops_silently_at_the_first_unrecognized_character() {
    let subject = tokenize("(+ 1 2) xyz");
    let expectation = vec![
        Token::BeginSexpr,
        Token::Func(Oper::Sum),
        Token::Number(1),
        Token::Number(2),
        Token::EndSexpr,
    ];
    assert_eq!(subject, expectation);
}

#[test]
fn an_overflowing_literal_becomes_an_error_token() {
    let subject = tokenize("2147483648");
    let expectation = vec![Token::Error(
        "unable to convert a string to a number".to_string(),
    )];
    assert_eq!(subject, expectation);
}

#[test]
fn a_minus_before_digits_is_an_operator() {
    // there is no unary minus literal: `-3` reads as the operator, then 3
    let subject = tokenize("-3");
    let expectation = vec![Token::Func(Oper::Subtract), Token::Number(3)];
    assert_eq!(subject, expectation);
}

#[test]
fn renders_the_canonical_textual_form() {
    let tokens = tokenize("(+ 1 2)");
    assert_eq!(render_tokens(&tokens), " ( + 1 2 )".to_string());
}

#[test]
fn retokenizing_the_rendered_form_is_idempotent() {
    let first = tokenize("  (* 12 (+ 3 4))  ");
    let rendered = render_tokens(&first);
    let second = tokenize(rendered.as_str());
    assert_eq!(first, second);
}

#[test]
fn renders_a_multi_digit_number() {
    let tokens = vec![Token::Number(1053)];
    assert_eq!(render_tokens(&tokens), " 1053".to_string());
}

#[test]
fn prints_a_negative_number() {
    assert_eq!(token_text(&Token::Number(-45)), "-45".to_string());
    assert_eq!(token_text(&Token::Number(1053)), "1053".to_string());
}

#[test]
fn prints_a_non_number_as_the_placeholder() {
    assert_eq!(token_text(&Token::BeginSexpr), "Foo".to_string());
}

#[test]
fn tokens_with_no_textual_form_render_as_nothing() {
    let tokens = vec![Token::Number(7), Token::Error("boom".to_string())];
    assert_eq!(render_tokens(&tokens), " 7".to_string());
}
