use lispy::ast::Ast;
use lispy::token::Token;

#[test]
fn test_ast_from_token_vec() {
    // Test case for (+ 1 2 3)
    let expectation = Ast::new(
        "sexpr",
        Token::BeginSexpr,
        vec![
            Ast::new("number", Token::Number(1), vec![]),
            Ast::new("number", Token::Number(2), vec![]),
            Ast::new("number", Token::Number(3), vec![]),
        ],
    );
    let subject_args = vec![
        Token::BeginSexpr,
        Token::Number(1),
        Token::Number(2),
        Token::Number(3),
        Token::EndSexpr,
    ];
    let subject = Ast::from_token_vec(subject_args).unwrap();
    assert_eq!(subject, expectation);
}

#[test]
fn test_ast_eval() {
    // Test case for (+ 1 2 3)
    let subject = Ast::new(
        "sexpr",
        Token::BeginSexpr,
        vec![
            Ast::new("plus", Token::build_operator(&b"+"[..]), vec![]),
            Ast::new("number", Token::Number(1), vec![]),
            Ast::new("number", Token::Number(2), vec![]),
            Ast::new("number", Token::Number(3), vec![]),
        ],
    );
    let expectation = Token::Number(6);
    assert_eq!(subject.eval(), Ok(expectation));
}

#[test]
fn test_ast_from_embeded_sexpr() {
    // Test case for (+ 1 2 (3))
    let expectation = Ast::new(
        "sexpr",
        Token::BeginSexpr,
        vec![
            Ast::new("number", Token::Number(1), vec![]),
            Ast::new("number", Token::Number(2), vec![]),
            Ast::new(
                "sexpr",
                Token::BeginSexpr,
                vec![Ast::new("number", Token::Number(3), vec![])],
            ),
        ],
    );
    let subject_args = vec![
        Token::BeginSexpr,
        Token::Number(1),
        Token::Number(2),
        Token::BeginSexpr,
        Token::Number(3),
        Token::EndSexpr,
        Token::EndSexpr,
    ];
    let subject = Ast::from_token_vec(subject_args).unwrap();
    assert_eq!(subject, expectation);
}

#[test]
fn built_trees_reduce_to_marker_free_values() {
    // no operator in front: the first child is discarded and the rest
    // stands as a plain list, with no structural marker anywhere in it
    let tokens = lispy::parse::tokenize("(1 2 (3 4))");
    let ast = Ast::from_token_vec(tokens).unwrap();
    let value = ast.eval().unwrap();
    let expectation = Token::List(vec![
        Token::Number(2),
        Token::List(vec![Token::Number(4)]),
    ]);
    assert_eq!(value, expectation);
}

#[test]
fn stray_marker_is_not_applicable() {
    let subject = Ast::new("marker", Token::EndSexpr, vec![]);
    assert_eq!(subject.eval(), Err(lispy::token::LispyError::NotApplicable));
}

#[test]
fn empty_group_evaluates_to_empty_list() {
    let subject = Ast::new("sexpr", Token::BeginSexpr, vec![]);
    assert_eq!(subject.eval(), Ok(Token::List(vec![])));
}

#[test]
fn bare_function_applies_to_nothing() {
    let subject = Ast::new("func", Token::build_operator(&b"*"[..]), vec![]);
    assert_eq!(subject.eval(), Ok(Token::Number(0)));
}
