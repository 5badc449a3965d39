//! The tagged value shared by every stage of the pipeline: a token produced
//! by the tokenizer, a payload of a tree node, and a result of evaluation are
//! all the same `Token` type.
use vstd::prelude::*;

verus! {

/// The four built-in arithmetic folds, identified by a closed enumeration so
/// that equality of two function values is well defined.
#[derive(Clone, Copy, Debug, PartialEq, Eq, Structural)]
pub enum Oper {
    Sum,
    Subtract,
    Product,
    Divide,
}

/// Mathematical model of a `Token`: the same tagged value with every
/// container replaced by its mathematical counterpart.
pub enum Tok {
    Num(i32),
    Op(Oper),
    Open,
    Close,
    Lst(Seq<Tok>),
    ErrStr(Seq<char>),
}

/// Errors reported by evaluation.  Every condition that would abort the
/// process is surfaced as one of these instead.
#[derive(Clone, Copy, Debug, PartialEq, Eq, Structural)]
pub enum LispyError {
    /// The input held no token from which a tree could be built.
    EmptyInput,
    /// A division step met a divisor equal to zero.
    DivisionByZero,
    /// A value that cannot act in its position: a stray structural marker or
    /// error sentinel reached evaluation, or the final result is not a number.
    NotApplicable,
}

/// The tagged runtime/syntax value.
#[derive(Debug)]
pub enum Token {
    /// An integer literal.
    Number(i32),
    /// A reference to one of the four built-in folds.
    Func(Oper),
    /// Structural marker: start of a grouped expression.
    BeginSexpr,
    /// Structural marker: end of a grouped expression.
    EndSexpr,
    /// A materialized list of already-evaluated values.
    List(Vec<Token>),
    /// A sentinel produced when tokenizing fails.
    Error(String),
}

/// A value returned by evaluation: a `Token` or an error.
pub type LispyRet = Result<Token, LispyError>;

pub open spec fn token_model(t: Token) -> Tok
    decreases t,
{
    match t {
        Token::Number(n) => Tok::Num(n),
        Token::Func(op) => Tok::Op(op),
        Token::BeginSexpr => Tok::Open,
        Token::EndSexpr => Tok::Close,
        Token::List(items) => Tok::Lst(tokens_model_from(items@, 0)),
        Token::Error(msg) => Tok::ErrStr(msg@),
    }
}

/// Model of the suffix `ts[i..]`, element by element.
pub open spec fn tokens_model_from(ts: Seq<Token>, i: int) -> Seq<Tok>
    decreases ts, ts.len() - i,
{
    if i < 0 || i >= ts.len() {
        Seq::empty()
    } else {
        seq![token_model(ts[i])] + tokens_model_from(ts, i + 1)
    }
}

/// Model of a whole token sequence.
pub open spec fn tokens_model(ts: Seq<Token>) -> Seq<Tok> {
    tokens_model_from(ts, 0)
}

/// Model of an evaluation result.
pub open spec fn result_model(r: LispyRet) -> Result<Tok, LispyError> {
    match r {
        Ok(t) => Ok(token_model(t)),
        Err(e) => Err(e),
    }
}

impl View for Token {
    type V = Tok;

    open spec fn view(&self) -> Tok {
        token_model(*self)
    }
}

impl vstd::std_specs::cmp::PartialEqSpecImpl for Token {
    open spec fn obeys_eq_spec() -> bool {
        true
    }

    open spec fn eq_spec(&self, other: &Token) -> bool {
        token_model(*self) == token_model(*other)
    }
}

impl PartialEq for Token {
    /// Deep structural equality: two tokens are equal exactly when their
    /// models are.
    #[verifier::loop_isolation(false)]
    fn eq(&self, other: &Token) -> (r: bool)
        ensures
            r == (token_model(*self) == token_model(*other)),
        decreases *self,
    {
        match (self, other) {
            (Token::Number(a), Token::Number(b)) => *a == *b,
            (Token::Func(a), Token::Func(b)) => *a == *b,
            (Token::BeginSexpr, Token::BeginSexpr) => true,
            (Token::EndSexpr, Token::EndSexpr) => true,
            (Token::List(xs), Token::List(ys)) => {
                if xs.len() != ys.len() {
                    proof {
                        lemma_tokens_model(xs@);
                        lemma_tokens_model(ys@);
                    }
                    return false;
                }
                let n = xs.len();
                let mut i: usize = 0;
                while i < n
                    invariant
                        i <= n,
                        n == xs@.len(),
                        n == ys@.len(),
                        forall|j: int| 0 <= j < i ==> token_model(xs@[j]) == token_model(ys@[j]),
                    decreases n - i,
                {
                    if !(xs[i] == ys[i]) {
                        proof {
                            lemma_tokens_model(xs@);
                            lemma_tokens_model(ys@);
                            assert(tokens_model(xs@)[i as int] != tokens_model(ys@)[i as int]);
                        }
                        return false;
                    }
                    i = i + 1;
                }
                proof {
                    lemma_tokens_model(xs@);
                    lemma_tokens_model(ys@);
                    assert(tokens_model(xs@) =~= tokens_model(ys@));
                }
                true
            },
            (Token::Error(a), Token::Error(b)) => *a == *b,
            _ => false,
        }
    }
}

impl Clone for Token {
    /// A deep copy whose model is the model of the original.
    #[verifier::loop_isolation(false)]
    fn clone(&self) -> (r: Token)
        ensures
            token_model(r) == token_model(*self),
        decreases *self,
    {
        match self {
            Token::Number(n) => Token::Number(*n),
            Token::Func(op) => Token::Func(*op),
            Token::BeginSexpr => Token::BeginSexpr,
            Token::EndSexpr => Token::EndSexpr,
            Token::List(items) => {
                let n = items.len();
                let mut out: Vec<Token> = Vec::new();
                let mut i: usize = 0;
                while i < n
                    invariant
                        i <= n,
                        n == items@.len(),
                        out@.len() == i,
                        forall|j: int| 0 <= j < i ==> token_model(out@[j]) == token_model(items@[j]),
                    decreases n - i,
                {
                    out.push(items[i].clone());
                    i = i + 1;
                }
                proof {
                    lemma_tokens_model(out@);
                    lemma_tokens_model(items@);
                    assert(tokens_model(out@) =~= tokens_model(items@));
                }
                Token::List(out)
            },
            Token::Error(msg) => Token::Error(msg.clone()),
        }
    }
}

pub open spec fn is_digit_byte(b: u8) -> bool {
    48 <= b <= 57
}

/// Value of a run of decimal digit bytes, most significant first.
pub open spec fn digits_val_bytes(s: Seq<u8>) -> int
    decreases s.len(),
{
    if s.len() == 0 {
        0
    } else {
        digits_val_bytes(s.drop_last()) * 10 + (s.last() - 48)
    }
}

pub open spec fn all_digit_bytes(s: Seq<u8>) -> bool {
    forall|i: int| 0 <= i < s.len() ==> is_digit_byte(s[i])
}

pub open spec fn number_err_msg() -> Seq<char> {
    "unable to convert a string to a number"@
}

pub open spec fn operator_err_msg() -> Seq<char> {
    "Parse Error: bad operation provided"@
}

/// What `Token::build_number` yields: the number a run of decimal digits
/// denotes, or the error sentinel when the input is empty, holds a non-digit,
/// or overflows a 32-bit integer.
pub open spec fn spec_build_number(s: Seq<u8>) -> Tok {
    if s.len() > 0 && all_digit_bytes(s) && digits_val_bytes(s) <= i32::MAX {
        Tok::Num(digits_val_bytes(s) as i32)
    } else {
        Tok::ErrStr(number_err_msg())
    }
}

/// What `Token::build_operator` yields: the built-in denoted by one of the
/// four operator bytes, or the error sentinel.
pub open spec fn spec_build_operator(s: Seq<u8>) -> Tok {
    if s.len() == 1 && s[0] == 43 {
        Tok::Op(Oper::Sum)
    } else if s.len() == 1 && s[0] == 45 {
        Tok::Op(Oper::Subtract)
    } else if s.len() == 1 && s[0] == 42 {
        Tok::Op(Oper::Product)
    } else if s.len() == 1 && s[0] == 47 {
        Tok::Op(Oper::Divide)
    } else {
        Tok::ErrStr(operator_err_msg())
    }
}

proof fn lemma_digits_val_bytes_nonneg(s: Seq<u8>)
    requires
        all_digit_bytes(s),
    ensures
        digits_val_bytes(s) >= 0,
    decreases s.len(),
{
    if s.len() > 0 {
        assert(all_digit_bytes(s.drop_last()));
        lemma_digits_val_bytes_nonneg(s.drop_last());
    }
}

impl Token {
    /// The built-in fold denoted by an operator byte string.
    pub fn build_operator(input: &[u8]) -> (r: Token)
        ensures
            r@ == spec_build_operator(input@),
    {
        if input.len() == 1 {
            let b = input[0];
            if b == 43 {
                return Token::Func(Oper::Sum);
            }
            if b == 45 {
                return Token::Func(Oper::Subtract);
            }
            if b == 42 {
                return Token::Func(Oper::Product);
            }
            if b == 47 {
                return Token::Func(Oper::Divide);
            }
        }
        Token::Error("Parse Error: bad operation provided".to_string())
    }

    /// The 32-bit number denoted by a run of decimal digit bytes.
    #[verifier::loop_isolation(false)]
    pub fn build_number(input: &[u8]) -> (r: Token)
        ensures
            r@ == spec_build_number(input@),
    {
        let n = input.len();
        if n == 0 {
            return Token::Error("unable to convert a string to a number".to_string());
        }
        let mut i: usize = 0;
        let mut acc: u64 = 0;
        while i < n
            invariant
                i <= n,
                forall|j: int| 0 <= j < i ==> is_digit_byte(input@[j]),
                acc <= 0x4_FFFF_FFFFu64,
                digits_val_bytes(input@.subrange(0, i as int)) <= i32::MAX ==> acc
                    == digits_val_bytes(input@.subrange(0, i as int)),
                digits_val_bytes(input@.subrange(0, i as int)) > i32::MAX ==> acc > i32::MAX,
            decreases n - i,
        {
            let b = input[i];
            if b < 48 || b > 57 {
                proof {
                    assert(!is_digit_byte(input@[i as int]));
                }
                return Token::Error("unable to convert a string to a number".to_string());
            }
            proof {
                assert(input@.subrange(0, i + 1).drop_last() =~= input@.subrange(0, i as int));
                assert(input@.subrange(0, i + 1).last() == input@[i as int]);
                assert(all_digit_bytes(input@.subrange(0, i as int)));
                lemma_digits_val_bytes_nonneg(input@.subrange(0, i as int));
            }
            if acc <= 2147483647 {
                acc = acc * 10 + ((b - 48) as u64);
            }
            i = i + 1;
        }
        proof {
            assert(input@.subrange(0, n as int) =~= input@);
        }
        if acc <= 2147483647 {
            Token::Number(acc as i32)
        } else {
            Token::Error("unable to convert a string to a number".to_string())
        }
    }
}

pub proof fn lemma_tokens_model_from(ts: Seq<Token>, i: int)
    requires
        0 <= i <= ts.len(),
    ensures
        tokens_model_from(ts, i).len() == ts.len() - i,
        forall|j: int|
            0 <= j < ts.len() - i ==> tokens_model_from(ts, i)[j] == token_model(ts[i + j]),
    decreases ts.len() - i,
{
    if i < ts.len() {
        lemma_tokens_model_from(ts, i + 1);
    }
}

/// The model of a sequence is the sequence of the element models.
pub proof fn lemma_tokens_model(ts: Seq<Token>)
    ensures
        tokens_model(ts).len() == ts.len(),
        forall|j: int| 0 <= j < ts.len() ==> tokens_model(ts)[j] == token_model(ts[j]),
{
    lemma_tokens_model_from(ts, 0);
}

} // verus!
