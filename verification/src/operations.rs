//! The four built-in arithmetic folds and the identity fold, reducing an
//! ordered list of already-evaluated values to a single value.
use crate::token::{
    lemma_tokens_model, result_model, token_model, tokens_model, LispyError, LispyRet, Oper, Tok,
    Token,
};
use vstd::prelude::*;

verus! {

/// The folds operate on numbers only: any other argument is coerced to zero.
pub open spec fn coerce_i32(t: Tok) -> i32 {
    match t {
        Tok::Num(n) => n,
        _ => 0,
    }
}

/// Division truncating toward zero.
pub open spec fn trunc_div(a: int, b: int) -> int {
    if a >= 0 && b > 0 {
        a / b
    } else if a < 0 && b < 0 {
        (-a) / (-b)
    } else if a < 0 {
        -((-a) / b)
    } else {
        -(a / (-b))
    }
}

/// One 32-bit truncating division step; the single overflowing quotient
/// wraps back to `i32::MIN`.
pub open spec fn div_step(acc: i32, x: i32) -> i32 {
    if acc == i32::MIN && x == -1 {
        i32::MIN
    } else {
        trunc_div(acc as int, x as int) as i32
    }
}

/// One fold step, with the wrapping semantics of 32-bit arithmetic.
pub open spec fn fold_step(op: Oper, acc: i32, x: i32) -> i32 {
    match op {
        Oper::Sum => vstd::wrapping::i32_specs::wrapping_add(acc, x),
        Oper::Subtract => vstd::wrapping::i32_specs::wrapping_sub(acc, x),
        Oper::Product => vstd::wrapping::i32_specs::wrapping_mul(acc, x),
        Oper::Divide => div_step(acc, x),
    }
}

/// The running fold after the seed, left to right; a division step whose
/// argument coerces to zero fails, and nothing after it is folded.
pub open spec fn fold_vals(op: Oper, acc: i32, rest: Seq<Tok>) -> Result<i32, LispyError>
    decreases rest.len(),
{
    if rest.len() == 0 {
        Ok(acc)
    } else {
        let x = coerce_i32(rest[0]);
        if op == Oper::Divide && x == 0 {
            Err(LispyError::DivisionByZero)
        } else {
            fold_vals(op, fold_step(op, acc, x), rest.drop_first())
        }
    }
}

/// What a built-in fold yields on an argument list: zero on no arguments
/// (for all four operations), else the first argument folded with the rest.
pub open spec fn spec_fold(op: Oper, args: Seq<Tok>) -> Result<Tok, LispyError> {
    if args.len() == 0 {
        Ok(Tok::Num(0))
    } else {
        match fold_vals(op, coerce_i32(args[0]), args.drop_first()) {
            Ok(n) => Ok(Tok::Num(n)),
            Err(e) => Err(e),
        }
    }
}

/// The identity fold: the evaluated arguments, unchanged, as a list value.
pub fn identity(vector: Vec<Token>) -> (r: LispyRet)
    ensures
        result_model(r) == Ok::<Tok, LispyError>(Tok::Lst(tokens_model(vector@))),
{
    Ok(Token::List(vector))
}

fn convert_to_int(input: &Token) -> (r: i32)
    ensures
        r == coerce_i32(input@),
{
    match input {
        Token::Number(i) => *i,
        _ => 0,
    }
}

/// A truncating 32-bit quotient stays in range except for
/// `i32::MIN / -1`, which lands one past `i32::MAX`.
proof fn lemma_trunc_div_range(a: int, b: int)
    requires
        i32::MIN <= a <= i32::MAX,
        i32::MIN <= b <= i32::MAX,
        b != 0,
    ensures
        !(a == i32::MIN && b == -1) ==> i32::MIN <= trunc_div(a, b) <= i32::MAX,
        (a == i32::MIN && b == -1) ==> trunc_div(a, b) == 0x8000_0000,
{
    broadcast use vstd::arithmetic::div_mod::lemma_div_pos_is_pos;
    broadcast use vstd::arithmetic::div_mod::lemma_div_nonincreasing;
    broadcast use vstd::arithmetic::div_mod::lemma_div_decreases;
    broadcast use vstd::arithmetic::div_mod::lemma_div_basics_2;

    if a >= 0 && b > 0 {
        assert(0 <= a / b <= a);
    } else if a < 0 && b < 0 {
        let p = -a;
        let q = -b;
        assert(0 <= p / q <= p);
        if q == 1 {
            assert(p / q == p);
        } else {
            assert(p / q < p);
        }
    } else if a < 0 {
        let p = -a;
        assert(0 <= p / b <= p);
        if b == 1 {
            assert(p / b == p);
        } else if p > 0 {
            assert(p / b < p);
        }
    } else {
        let q = -b;
        assert(0 <= a / q <= a);
    }
}

/// Fold the argument list with one operation, left to right, the first
/// argument as the seed.
#[verifier::loop_isolation(false)]
fn arithmetic(vector: Vec<Token>, op: Oper) -> (r: LispyRet)
    ensures
        result_model(r) == spec_fold(op, tokens_model(vector@)),
{
    proof {
        lemma_tokens_model(vector@);
    }
    let ghost models = tokens_model(vector@);
    let n = vector.len();
    if n == 0 {
        return Ok(Token::Number(0));
    }
    let mut acc: i32 = convert_to_int(&vector[0]);
    let ghost seed = acc;
    proof {
        assert(models.drop_first() =~= models.skip(1));
    }
    let mut i: usize = 1;
    while i < n
        invariant
            1 <= i <= n,
            fold_vals(op, acc, models.skip(i as int)) == fold_vals(op, seed, models.skip(1)),
        decreases n - i,
    {
        let x = convert_to_int(&vector[i]);
        proof {
            assert(models.skip(i as int)[0] == models[i as int]);
            assert(models.skip(i as int).drop_first() =~= models.skip(i + 1));
        }
        if op == Oper::Divide && x == 0 {
            return Err(LispyError::DivisionByZero);
        }
        match op {
            Oper::Sum => {
                acc = acc.wrapping_add(x);
            },
            Oper::Subtract => {
                acc = acc.wrapping_sub(x);
            },
            Oper::Product => {
                acc = acc.wrapping_mul(x);
            },
            Oper::Divide => {
                proof {
                    lemma_trunc_div_range(acc as int, x as int);
                }
                acc = match acc.checked_div(x) {
                    Some(v) => v,
                    None => i32::MIN,
                };
            },
        }
        i = i + 1;
    }
    proof {
        assert(models.skip(n as int) =~= Seq::<Tok>::empty());
    }
    Ok(Token::Number(acc))
}

/// Add each remaining argument to the first.
pub fn sum(vector: Vec<Token>) -> (r: LispyRet)
    ensures
        result_model(r) == spec_fold(Oper::Sum, tokens_model(vector@)),
{
    arithmetic(vector, Oper::Sum)
}

/// Subtract each remaining argument from the first, left-associatively.
pub fn subtract(vector: Vec<Token>) -> (r: LispyRet)
    ensures
        result_model(r) == spec_fold(Oper::Subtract, tokens_model(vector@)),
{
    arithmetic(vector, Oper::Subtract)
}

/// Multiply the first argument by each remaining one.
pub fn product(vector: Vec<Token>) -> (r: LispyRet)
    ensures
        result_model(r) == spec_fold(Oper::Product, tokens_model(vector@)),
{
    arithmetic(vector, Oper::Product)
}

/// Divide the first argument by each remaining one in order, truncating
/// toward zero; a divisor equal to zero is reported, never evaluated.
pub fn divide(vector: Vec<Token>) -> (r: LispyRet)
    ensures
        result_model(r) == spec_fold(Oper::Divide, tokens_model(vector@)),
{
    arithmetic(vector, Oper::Divide)
}

/// Apply one of the built-in folds, by its identity.
pub fn apply(op: Oper, vector: Vec<Token>) -> (r: LispyRet)
    ensures
        result_model(r) == spec_fold(op, tokens_model(vector@)),
{
    match op {
        Oper::Sum => sum(vector),
        Oper::Subtract => subtract(vector),
        Oper::Product => product(vector),
        Oper::Divide => divide(vector),
    }
}

} // verus!
