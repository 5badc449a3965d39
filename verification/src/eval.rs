//! The evaluation entry point: one line of text in, the number it denotes or
//! a typed error out.  Nothing here terminates the process: every failure
//! the pipeline can meet is returned as a `LispyError`.
use crate::ast::{
    leaf_model, lemma_children_unfold, spec_children, spec_eval, spec_eval_args, spec_from_token_vec,
    spec_node, Ast, AstM,
};
use crate::operations::{fold_step, fold_vals, spec_fold};
use crate::parse::{lemma_render_roundtrip, renderable, spec_render, spec_tokenize, tokenize};
use crate::token::{result_model, LispyError, LispyRet, Oper, Tok, Token};
use vstd::prelude::*;

verus! {

/// What evaluating a line of text yields: the number its expression
/// denotes; `EmptyInput` when no tree could be built from the tokens;
/// `NotApplicable` when the final value is not a number; or the error met
/// during evaluation.
pub open spec fn spec_evaluate(text: Seq<char>) -> Result<Tok, LispyError> {
    match spec_from_token_vec(spec_tokenize(text)) {
        Option::None => Err(LispyError::EmptyInput),
        Option::Some(a) => match spec_eval(a) {
            Ok(v) => match v {
                Tok::Num(n) => Ok(Tok::Num(n)),
                _ => Err(LispyError::NotApplicable),
            },
            Err(e) => Err(e),
        },
    }
}

/// Tokenize a line, build its tree, and reduce it to a number.
pub fn eval(expression: String) -> (r: LispyRet)
    ensures
        result_model(r) == spec_evaluate(expression@),
{
    let tokens = tokenize(expression.as_str());
    let ast = match Ast::from_token_vec(tokens) {
        Option::Some(a) => a,
        Option::None => {
            return Err(LispyError::EmptyInput);
        },
    };
    let ret_token = match ast.eval() {
        Ok(t) => t,
        Err(e) => {
            return Err(e);
        },
    };
    match ret_token {
        Token::Number(i) => Ok(Token::Number(i)),
        _ => Err(LispyError::NotApplicable),
    }
}

/// The five tokens of the form `(op a b)`.
pub open spec fn binary_form(op: Oper, a: i32, b: i32) -> Seq<Tok> {
    seq![Tok::Open, Tok::Op(op), Tok::Num(a), Tok::Num(b), Tok::Close]
}

/// Any text that reads as the tokens of `(op a b)` evaluates to one fold
/// step applied to `a` and `b` — or to the division-by-zero error.
proof fn lemma_eval_binary_form(op: Oper, a: i32, b: i32, text: Seq<char>)
    requires
        spec_tokenize(text) == binary_form(op, a, b),
    ensures
        op == Oper::Divide && b == 0 ==> spec_evaluate(text) == Err::<Tok, LispyError>(
            LispyError::DivisionByZero,
        ),
        !(op == Oper::Divide && b == 0) ==> spec_evaluate(text) == Ok::<Tok, LispyError>(
            Tok::Num(fold_step(op, a, b)),
        ),
{
    let ts = binary_form(op, a, b);
    let leaf_f = leaf_model("func"@, Tok::Op(op));
    let leaf_a = leaf_model("number"@, Tok::Num(a));
    let leaf_b = leaf_model("number"@, Tok::Num(b));
    // the tree built from the five tokens
    lemma_children_unfold(ts, 1);
    lemma_children_unfold(ts, 2);
    lemma_children_unfold(ts, 3);
    lemma_children_unfold(ts, 4);
    assert(spec_node(ts, 4) == (Option::<AstM>::None, 5int));
    assert(spec_children(ts, 4) == (Seq::<AstM>::empty(), 5int));
    assert(spec_children(ts, 3) == (seq![leaf_b] + Seq::<AstM>::empty(), 5int));
    assert(spec_children(ts, 2) == (seq![leaf_a] + (seq![leaf_b] + Seq::<AstM>::empty()), 5int));
    let cs = spec_children(ts, 1).0;
    assert(cs =~= seq![leaf_f, leaf_a, leaf_b]);
    let a0 = AstM { tag: "sexpr"@, val: Tok::Open, children: cs };
    assert(spec_node(ts, 0) == (Option::Some(a0), 5int));
    // its evaluation
    assert(spec_eval(leaf_a) == Ok::<Tok, LispyError>(Tok::Num(a)));
    assert(spec_eval(leaf_b) == Ok::<Tok, LispyError>(Tok::Num(b)));
    assert(spec_eval_args(cs, 3) == Ok::<Seq<Tok>, LispyError>(Seq::empty()));
    let vals = seq![Tok::Num(a), Tok::Num(b)];
    assert(cs[1] == leaf_a);
    assert(cs[2] == leaf_b);
    assert(spec_eval_args(cs, 2) == Ok::<Seq<Tok>, LispyError>(
        seq![Tok::Num(b)] + Seq::<Tok>::empty(),
    ));
    assert(spec_eval_args(cs, 1) == Ok::<Seq<Tok>, LispyError>(vals)) by {
        assert(seq![Tok::Num(a)] + (seq![Tok::Num(b)] + Seq::<Tok>::empty()) =~= vals);
    }
    // the fold over the two numbers
    assert(vals.drop_first() =~= seq![Tok::Num(b)]);
    assert(seq![Tok::Num(b)].drop_first() =~= Seq::<Tok>::empty());
    if !(op == Oper::Divide && b == 0) {
        assert(fold_vals(op, fold_step(op, a, b), Seq::<Tok>::empty()) == Ok::<i32, LispyError>(
            fold_step(op, a, b),
        ));
        assert(fold_vals(op, a, seq![Tok::Num(b)]) == Ok::<i32, LispyError>(fold_step(op, a, b)));
        assert(spec_fold(op, vals) == Ok::<Tok, LispyError>(Tok::Num(fold_step(op, a, b))));
    }
}

/// For every pair of integers, a text denoting `(+ a b)` evaluates to
/// exactly `a + b`, wrapped into 32 bits where it overflows.
pub proof fn lemma_eval_sum(a: i32, b: i32, text: Seq<char>)
    requires
        spec_tokenize(text) == binary_form(Oper::Sum, a, b),
    ensures
        spec_evaluate(text) == Ok::<Tok, LispyError>(
            Tok::Num(vstd::wrapping::i32_specs::wrapping_add(a, b)),
        ),
        i32::MIN <= a + b <= i32::MAX ==> spec_evaluate(text) == Ok::<Tok, LispyError>(
            Tok::Num((a + b) as i32),
        ),
{
    lemma_eval_binary_form(Oper::Sum, a, b, text);
}

/// For every pair of integers, a text denoting `(* a b)` evaluates to
/// exactly `a * b`, wrapped into 32 bits where it overflows.
pub proof fn lemma_eval_product(a: i32, b: i32, text: Seq<char>)
    requires
        spec_tokenize(text) == binary_form(Oper::Product, a, b),
    ensures
        spec_evaluate(text) == Ok::<Tok, LispyError>(
            Tok::Num(vstd::wrapping::i32_specs::wrapping_mul(a, b)),
        ),
        i32::MIN <= a * b <= i32::MAX ==> spec_evaluate(text) == Ok::<Tok, LispyError>(
            Tok::Num((a * b) as i32),
        ),
{
    lemma_eval_binary_form(Oper::Product, a, b, text);
}

/// For every pair of integers, a text denoting `(- a b)` evaluates to
/// exactly `a - b`, wrapped into 32 bits where it overflows.
pub proof fn lemma_eval_subtract(a: i32, b: i32, text: Seq<char>)
    requires
        spec_tokenize(text) == binary_form(Oper::Subtract, a, b),
    ensures
        spec_evaluate(text) == Ok::<Tok, LispyError>(
            Tok::Num(vstd::wrapping::i32_specs::wrapping_sub(a, b)),
        ),
        i32::MIN <= a - b <= i32::MAX ==> spec_evaluate(text) == Ok::<Tok, LispyError>(
            Tok::Num((a - b) as i32),
        ),
{
    lemma_eval_binary_form(Oper::Subtract, a, b, text);
}

/// For every pair of integers, a text denoting `(/ a b)` evaluates to the
/// quotient truncated toward zero, and a divisor equal to zero is reported
/// as the division-by-zero error, never as an abort.
pub proof fn lemma_eval_divide(a: i32, b: i32, text: Seq<char>)
    requires
        spec_tokenize(text) == binary_form(Oper::Divide, a, b),
    ensures
        b == 0 ==> spec_evaluate(text) == Err::<Tok, LispyError>(LispyError::DivisionByZero),
        b != 0 ==> spec_evaluate(text) == Ok::<Tok, LispyError>(
            Tok::Num(crate::operations::div_step(a, b)),
        ),
{
    lemma_eval_binary_form(Oper::Divide, a, b, text);
}

/// Such a text exists for every pair of nonnegative integers: the canonical
/// form of the tokens of `(op a b)` reads back as exactly those tokens.
pub proof fn lemma_binary_form_text(op: Oper, a: i32, b: i32)
    requires
        0 <= a,
        0 <= b,
    ensures
        spec_tokenize(spec_render(binary_form(op, a, b))) == binary_form(op, a, b),
{
    let ts = binary_form(op, a, b);
    assert forall|k: int| 0 <= k < ts.len() implies renderable(#[trigger] ts[k]) by {
        assert(ts[0] == Tok::Open);
        assert(ts[1] == Tok::Op(op));
        assert(ts[2] == Tok::Num(a));
        assert(ts[3] == Tok::Num(b));
        assert(ts[4] == Tok::Close);
    }
    lemma_render_roundtrip(ts);
}

} // verus!
