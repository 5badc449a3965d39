//! The tokenizer: raw text to an ordered token sequence, left to right.
//! Each token may be preceded by whitespace; tokenization stops silently at
//! the first character that starts no token, keeping whatever prefix
//! tokenized successfully.  The module also renders a token sequence back to
//! its canonical textual form.
use crate::token::{
    digits_val_bytes, is_digit_byte, lemma_tokens_model, number_err_msg, token_model,
    tokens_model, Oper, Tok, Token,
};
use vstd::prelude::*;
use vstd::string::StrSliceExecFns;

verus! {

pub open spec fn is_space_char(c: char) -> bool {
    c == ' ' || c == '\t' || c == '\n' || c == '\r'
}

pub open spec fn is_digit_char(c: char) -> bool {
    '0' <= c && c <= '9'
}

pub open spec fn oper_char(c: char) -> bool {
    c == '+' || c == '-' || c == '*' || c == '/'
}

pub open spec fn oper_of_char(c: char) -> Oper {
    if c == '+' {
        Oper::Sum
    } else if c == '-' {
        Oper::Subtract
    } else if c == '*' {
        Oper::Product
    } else {
        Oper::Divide
    }
}

pub open spec fn starts_token(c: char) -> bool {
    oper_char(c) || c == '(' || c == ')' || is_digit_char(c)
}

/// Value of a run of decimal digit characters, most significant first.
pub open spec fn digits_val(s: Seq<char>) -> int
    decreases s.len(),
{
    if s.len() == 0 {
        0
    } else {
        digits_val(s.drop_last()) * 10 + (s.last() as int - 48)
    }
}

/// First position at or after `i` that holds no whitespace.
pub open spec fn skip_ws(s: Seq<char>, i: int) -> int
    decreases s.len() - i,
{
    if 0 <= i < s.len() && is_space_char(s[i]) {
        skip_ws(s, i + 1)
    } else {
        i
    }
}

/// First position at or after `i` that holds no digit.
pub open spec fn digit_run_end(s: Seq<char>, i: int) -> int
    decreases s.len() - i,
{
    if 0 <= i < s.len() && is_digit_char(s[i]) {
        digit_run_end(s, i + 1)
    } else {
        i
    }
}

/// The token starting at position `j`, which holds a token-starting
/// character.
pub open spec fn token_at(s: Seq<char>, j: int) -> Tok {
    let c = s[j];
    if oper_char(c) {
        Tok::Op(oper_of_char(c))
    } else if c == '(' {
        Tok::Open
    } else if c == ')' {
        Tok::Close
    } else {
        let v = digits_val(s.subrange(j, digit_run_end(s, j)));
        if v <= i32::MAX {
            Tok::Num(v as i32)
        } else {
            Tok::ErrStr(number_err_msg())
        }
    }
}

/// Position just past the token starting at `j`.
pub open spec fn token_end(s: Seq<char>, j: int) -> int {
    if is_digit_char(s[j]) {
        digit_run_end(s, j)
    } else {
        j + 1
    }
}

/// The token sequence read from position `i` on.  The inner clamp only keeps
/// the recursion well-founded; `lemma_tokenize_unfold` shows it never fires.
pub open spec fn spec_tokenize_from(s: Seq<char>, i: int) -> Seq<Tok>
    decreases s.len() - i,
{
    if !(0 <= i <= s.len()) {
        Seq::empty()
    } else {
        let j = skip_ws(s, i);
        if !(i <= j < s.len()) || !starts_token(s[j]) {
            Seq::empty()
        } else {
            let k = token_end(s, j);
            let k2 = if k <= i {
                i + 1
            } else if k > s.len() {
                s.len() as int
            } else {
                k
            };
            seq![token_at(s, j)] + spec_tokenize_from(s, k2)
        }
    }
}

/// The token sequence a text denotes.
pub open spec fn spec_tokenize(s: Seq<char>) -> Seq<Tok> {
    spec_tokenize_from(s, 0)
}

pub proof fn lemma_skip_ws_bounds(s: Seq<char>, i: int)
    requires
        0 <= i <= s.len(),
    ensures
        i <= skip_ws(s, i) <= s.len(),
        skip_ws(s, i) < s.len() ==> !is_space_char(s[skip_ws(s, i)]),
        forall|m: int| i <= m < skip_ws(s, i) ==> is_space_char(s[m]),
    decreases s.len() - i,
{
    if i < s.len() && is_space_char(s[i]) {
        lemma_skip_ws_bounds(s, i + 1);
    }
}

pub proof fn lemma_digit_run_bounds(s: Seq<char>, j: int)
    requires
        0 <= j <= s.len(),
    ensures
        j <= digit_run_end(s, j) <= s.len(),
        digit_run_end(s, j) < s.len() ==> !is_digit_char(s[digit_run_end(s, j)]),
        forall|m: int| j <= m < digit_run_end(s, j) ==> is_digit_char(s[m]),
        j < s.len() && is_digit_char(s[j]) ==> digit_run_end(s, j) >= j + 1,
    decreases s.len() - j,
{
    if j < s.len() && is_digit_char(s[j]) {
        lemma_digit_run_bounds(s, j + 1);
    }
}

/// The definition of `spec_tokenize_from` with the well-foundedness clamp
/// discharged: the next token always ends past `i` and within the text.
pub proof fn lemma_tokenize_unfold(s: Seq<char>, i: int)
    requires
        0 <= i <= s.len(),
    ensures
        spec_tokenize_from(s, i) == ({
            let j = skip_ws(s, i);
            if j == s.len() || !starts_token(s[j]) {
                Seq::<Tok>::empty()
            } else {
                seq![token_at(s, j)] + spec_tokenize_from(s, token_end(s, j))
            }
        }),
{
    lemma_skip_ws_bounds(s, i);
    let j = skip_ws(s, i);
    if j < s.len() && starts_token(s[j]) {
        lemma_digit_run_bounds(s, j);
    }
}

proof fn lemma_tokens_model_push(ts: Seq<Token>, t: Token)
    ensures
        tokens_model(ts.push(t)) == tokens_model(ts) + seq![token_model(t)],
{
    lemma_tokens_model(ts.push(t));
    lemma_tokens_model(ts);
    assert(tokens_model(ts.push(t)) =~= tokens_model(ts) + seq![token_model(t)]);
}

/// A run of digit characters and its byte-for-byte copy denote the same
/// number.
proof fn lemma_digit_chars_bytes(cs: Seq<char>, bs: Seq<u8>)
    requires
        cs.len() == bs.len(),
        forall|k: int| 0 <= k < cs.len() ==> is_digit_char(cs[k]),
        forall|k: int| 0 <= k < cs.len() ==> bs[k] == cs[k] as u8,
    ensures
        crate::token::all_digit_bytes(bs),
        digits_val_bytes(bs) == digits_val(cs),
    decreases cs.len(),
{
    assert forall|k: int| 0 <= k < bs.len() implies is_digit_byte(bs[k]) by {
        assert(bs[k] == cs[k] as u8);
    }
    if cs.len() > 0 {
        lemma_digit_chars_bytes(cs.drop_last(), bs.drop_last());
        assert(bs.last() == cs.last() as u8);
    }
}

fn skip_spaces(input: &str, start: usize) -> (r: usize)
    requires
        start <= input@.len(),
    ensures
        r == skip_ws(input@, start as int),
        start <= r <= input@.len(),
{
    proof {
        lemma_skip_ws_bounds(input@, start as int);
    }
    let n = input.unicode_len();
    let mut i = start;
    loop
        invariant
            start <= i <= n,
            n == input@.len(),
            skip_ws(input@, start as int) == skip_ws(input@, i as int),
        ensures
            start <= i <= n,
            skip_ws(input@, start as int) == i as int,
        decreases n - i,
    {
        if i == n {
            break;
        }
        let c = input.get_char(i);
        if !(c == ' ' || c == '\t' || c == '\n' || c == '\r') {
            break;
        }
        i = i + 1;
    }
    i
}

/// Convert raw text into the token sequence it denotes.  Tokenization never
/// fails outright: the first character that starts no token ends it, and the
/// unconsumed remainder is dropped silently.
pub fn tokenize(input: &str) -> (r: Vec<Token>)
    ensures
        tokens_model(r@) == spec_tokenize(input@),
{
    let ghost s = input@;
    let n = input.unicode_len();
    let mut out: Vec<Token> = Vec::new();
    let mut i: usize = 0;
    loop
        invariant
            i <= n,
            s == input@,
            n == s.len(),
            spec_tokenize(s) == tokens_model(out@) + spec_tokenize_from(s, i as int),
        ensures
            spec_tokenize(s) == tokens_model(out@) + spec_tokenize_from(s, i as int),
            spec_tokenize_from(s, i as int) == Seq::<Tok>::empty(),
        decreases n - i,
    {
        let j = skip_spaces(input, i);
        proof {
            lemma_skip_ws_bounds(s, i as int);
            lemma_tokenize_unfold(s, i as int);
            // Skipping the whitespace does not change what is read next.
            assert(skip_ws(s, j as int) == j as int);
            lemma_tokenize_unfold(s, j as int);
            assert(spec_tokenize_from(s, i as int) == spec_tokenize_from(s, j as int));
        }
        i = j;
        if i == n {
            break;
        }
        let c = input.get_char(i);
        proof {
            lemma_tokenize_unfold(s, i as int);
        }
        let tok: Token;
        if c == '+' {
            tok = Token::Func(Oper::Sum);
            i = i + 1;
        } else if c == '-' {
            tok = Token::Func(Oper::Subtract);
            i = i + 1;
        } else if c == '*' {
            tok = Token::Func(Oper::Product);
            i = i + 1;
        } else if c == '/' {
            tok = Token::Func(Oper::Divide);
            i = i + 1;
        } else if c == '(' {
            tok = Token::BeginSexpr;
            i = i + 1;
        } else if c == ')' {
            tok = Token::EndSexpr;
            i = i + 1;
        } else if '0' <= c && c <= '9' {
            let ghost start = i as int;
            proof {
                lemma_digit_run_bounds(s, start);
            }
            let mut run: Vec<u8> = Vec::new();
            loop
                invariant
                    start <= i <= n,
                    s == input@,
                    n == s.len(),
                    digit_run_end(s, start) == digit_run_end(s, i as int),
                    run@.len() == i - start,
                    forall|k: int| 0 <= k < run@.len() ==> is_digit_char(#[trigger] s[start + k]),
                    forall|k: int| 0 <= k < run@.len() ==> run@[k] == s[start + k] as u8,
                ensures
                    start <= i <= n,
                    digit_run_end(s, start) == i as int,
                    run@.len() == i - start,
                    forall|k: int| 0 <= k < run@.len() ==> is_digit_char(#[trigger] s[start + k]),
                    forall|k: int| 0 <= k < run@.len() ==> run@[k] == s[start + k] as u8,
                decreases n - i,
            {
                if i == n {
                    break;
                }
                let d = input.get_char(i);
                if !('0' <= d && d <= '9') {
                    break;
                }
                run.push((d as u32) as u8);
                i = i + 1;
            }
            proof {
                assert(digit_run_end(s, i as int) == i as int);
                let cs = s.subrange(start, i as int);
                assert(cs.len() == run@.len());
                lemma_digit_chars_bytes(cs, run@);
            }
            tok = Token::build_number(run.as_slice());
        } else {
            break;
        }
        proof {
            lemma_tokens_model_push(out@, tok);
        }
        out.push(tok);
        proof {
            assert(tokens_model(out@) + spec_tokenize_from(s, i as int) =~= spec_tokenize(s));
        }
    }
    proof {
        assert(tokens_model(out@) =~= spec_tokenize(s));
    }
    out
}

pub open spec fn digit_char(d: int) -> char {
    if d == 0 {
        '0'
    } else if d == 1 {
        '1'
    } else if d == 2 {
        '2'
    } else if d == 3 {
        '3'
    } else if d == 4 {
        '4'
    } else if d == 5 {
        '5'
    } else if d == 6 {
        '6'
    } else if d == 7 {
        '7'
    } else if d == 8 {
        '8'
    } else {
        '9'
    }
}

/// Decimal digits of a nonnegative number, most significant first.
pub open spec fn dec_digits(n: int) -> Seq<char>
    decreases n,
{
    if n < 0 {
        Seq::empty()
    } else if n < 10 {
        seq![digit_char(n)]
    } else {
        dec_digits(n / 10) + seq![digit_char(n % 10)]
    }
}

/// The tokens that have a textual form: everything the tokenizer can
/// produce except the error sentinel.
pub open spec fn renderable(t: Tok) -> bool {
    match t {
        Tok::Num(n) => n >= 0,
        Tok::Op(_) => true,
        Tok::Open => true,
        Tok::Close => true,
        _ => false,
    }
}

pub open spec fn oper_text(op: Oper) -> char {
    match op {
        Oper::Sum => '+',
        Oper::Subtract => '-',
        Oper::Product => '*',
        Oper::Divide => '/',
    }
}

pub open spec fn tok_text(t: Tok) -> Seq<char> {
    match t {
        Tok::Num(n) => dec_digits(n as int),
        Tok::Op(op) => seq![oper_text(op)],
        Tok::Open => seq!['('],
        Tok::Close => seq![')'],
        _ => Seq::empty(),
    }
}

/// The canonical textual form of a token sequence: one space before each
/// renderable token; a token with no textual form contributes nothing.
pub open spec fn spec_render(ts: Seq<Tok>) -> Seq<char>
    decreases ts.len(),
{
    if ts.len() == 0 {
        Seq::empty()
    } else if renderable(ts[0]) {
        seq![' '] + tok_text(ts[0]) + spec_render(ts.drop_first())
    } else {
        spec_render(ts.drop_first())
    }
}

pub proof fn lemma_dec_digits(n: int)
    requires
        0 <= n,
    ensures
        dec_digits(n).len() >= 1,
        forall|k: int| 0 <= k < dec_digits(n).len() ==> is_digit_char(#[trigger] dec_digits(n)[k]),
        digits_val(dec_digits(n)) == n,
    decreases n,
{
    if n < 10 {
        let d = dec_digits(n);
        assert(d.last() == digit_char(n));
        assert(digits_val(d.drop_last()) == 0);
    } else {
        lemma_dec_digits(n / 10);
        let d = dec_digits(n);
        assert(d.drop_last() =~= dec_digits(n / 10));
        assert(d.last() == digit_char(n % 10));
        assert(digits_val(d) == (n / 10) * 10 + (n % 10));
    }
}

proof fn lemma_digits_val_nonneg(s: Seq<char>)
    requires
        forall|m: int| 0 <= m < s.len() ==> is_digit_char(#[trigger] s[m]),
    ensures
        digits_val(s) >= 0,
    decreases s.len(),
{
    if s.len() > 0 {
        lemma_digits_val_nonneg(s.drop_last());
    }
}

/// Text whose tail from `i` is the canonical form of `ts` reads back as
/// exactly `ts`.
proof fn lemma_render_tokenize(ts: Seq<Tok>, s: Seq<char>, i: int)
    requires
        0 <= i <= s.len(),
        s.skip(i) == spec_render(ts),
        forall|k: int| 0 <= k < ts.len() ==> renderable(#[trigger] ts[k]),
    ensures
        spec_tokenize_from(s, i) == ts,
    decreases ts.len(),
{
    lemma_tokenize_unfold(s, i);
    if ts.len() == 0 {
        assert(s.skip(i).len() == 0);
        assert(skip_ws(s, i) == i);
    } else {
        let t0 = ts[0];
        let text = tok_text(t0);
        let rest = ts.drop_first();
        let m = text.len() as int;
        assert(renderable(t0));
        if let Tok::Num(n0) = t0 {
            lemma_dec_digits(n0 as int);
        }
        assert(m >= 1);
        assert(s.skip(i) == seq![' '] + text + spec_render(rest));
        assert(s.len() - i == 1 + m + spec_render(rest).len());
        assert(s[i] == s.skip(i)[0]);
        assert(s[i] == ' ');
        assert forall|k: int| 0 <= k < m implies s[i + 1 + k] == text[k] by {
            assert(s[i + 1 + k] == s.skip(i)[1 + k]);
            assert((seq![' '] + text + spec_render(rest))[1 + k] == text[k]);
        }
        let j = i + 1;
        // after the single leading space comes a non-space character
        assert(s[j] == text[0]);
        assert(!is_space_char(s[j]));
        assert(skip_ws(s, j) == j);
        assert(skip_ws(s, i) == j);
        assert(starts_token(s[j]));
        // the token read at j is t0, ending at j + m
        match t0 {
            Tok::Num(n0) => {
                assert forall|q: int| j <= q < j + m implies is_digit_char(#[trigger] s[q]) by {
                    assert(s[q] == text[q - j]);
                }
                if spec_render(rest).len() == 0 {
                    assert(j + m == s.len());
                } else {
                    assert(rest.len() > 0);
                    assert(renderable(rest[0]));
                    assert(s[j + m] == s.skip(i)[1 + m]);
                    assert(s[j + m] == spec_render(rest)[0]);
                    assert(spec_render(rest)[0] == ' ');
                    assert(!is_digit_char(s[j + m]));
                }
                lemma_digit_run_exact(s, j, j + m);
                assert(s.subrange(j, j + m) =~= text);
                assert(digits_val(s.subrange(j, j + m)) == n0 as int);
                assert(token_at(s, j) == t0);
                assert(token_end(s, j) == j + m);
            },
            Tok::Op(op) => {
                assert(token_at(s, j) == t0);
                assert(token_end(s, j) == j + 1);
            },
            Tok::Open => {
                assert(token_at(s, j) == t0);
                assert(token_end(s, j) == j + 1);
            },
            Tok::Close => {
                assert(token_at(s, j) == t0);
                assert(token_end(s, j) == j + 1);
            },
            _ => {
                assert(false);
            },
        }
        assert(s.skip(j + m) =~= spec_render(rest)) by {
            assert forall|k: int| 0 <= k < s.len() - (j + m) implies s.skip(j + m)[k]
                == spec_render(rest)[k] by {
                assert(s.skip(j + m)[k] == s.skip(i)[1 + m + k]);
            }
        }
        assert forall|k: int| 0 <= k < rest.len() implies renderable(#[trigger] rest[k]) by {
            assert(rest[k] == ts[k + 1]);
        }
        lemma_render_tokenize(rest, s, j + m);
        assert(spec_tokenize_from(s, i) == seq![t0] + rest);
        assert(seq![t0] + rest =~= ts);
    }
}

/// Tokens written back in canonical form read as the same tokens: the
/// round trip for the renderable subset.
pub proof fn lemma_render_roundtrip(ts: Seq<Tok>)
    requires
        forall|k: int| 0 <= k < ts.len() ==> renderable(#[trigger] ts[k]),
    ensures
        spec_tokenize(spec_render(ts)) == ts,
{
    assert(spec_render(ts).skip(0) =~= spec_render(ts));
    lemma_render_tokenize(ts, spec_render(ts), 0);
}

/// Every token the tokenizer yields is renderable, except the overflow
/// sentinel.
pub proof fn lemma_tokenize_renderable(s: Seq<char>, i: int)
    requires
        0 <= i <= s.len(),
    ensures
        forall|k: int| 0 <= k < spec_tokenize_from(s, i).len() ==> (#[trigger] spec_tokenize_from(
            s,
            i,
        )[k] is ErrStr || renderable(spec_tokenize_from(s, i)[k])),
    decreases s.len() - i,
{
    lemma_tokenize_unfold(s, i);
    lemma_skip_ws_bounds(s, i);
    let j = skip_ws(s, i);
    if j < s.len() && starts_token(s[j]) {
        lemma_digit_run_bounds(s, j);
        let k = token_end(s, j);
        if is_digit_char(s[j]) {
            let run = s.subrange(j, digit_run_end(s, j));
            assert forall|m: int| 0 <= m < run.len() implies is_digit_char(#[trigger] run[m]) by {
                assert(run[m] == s[j + m]);
            }
            lemma_digits_val_nonneg(run);
        }
        assert(token_at(s, j) is ErrStr || renderable(token_at(s, j)));
        lemma_tokenize_renderable(s, k);
        let whole = spec_tokenize_from(s, i);
        let tail = spec_tokenize_from(s, k);
        assert forall|q: int| 0 <= q < whole.len() implies (#[trigger] whole[q] is ErrStr
            || renderable(whole[q])) by {
            if q > 0 {
                assert(whole[q] == tail[q - 1]);
            }
        }
    }
}

/// Tokenizing, writing the tokens back in canonical form, and tokenizing
/// again yields the same token sequence, whenever no overflow sentinel was
/// produced.
pub proof fn lemma_retokenize(text: Seq<char>)
    requires
        forall|k: int| 0 <= k < spec_tokenize(text).len() ==> !(#[trigger] spec_tokenize(
            text,
        )[k] is ErrStr),
    ensures
        spec_tokenize(spec_render(spec_tokenize(text))) == spec_tokenize(text),
{
    lemma_tokenize_renderable(text, 0);
    lemma_render_roundtrip(spec_tokenize(text));
}

fn digit_str(d: u32) -> (r: &'static str)
    requires
        d < 10,
    ensures
        r@ == seq![digit_char(d as int)],
{
    proof {
        reveal_strlit("0");
        reveal_strlit("1");
        reveal_strlit("2");
        reveal_strlit("3");
        reveal_strlit("4");
        reveal_strlit("5");
        reveal_strlit("6");
        reveal_strlit("7");
        reveal_strlit("8");
        reveal_strlit("9");
    }
    let r: &'static str = if d == 0 {
        "0"
    } else if d == 1 {
        "1"
    } else if d == 2 {
        "2"
    } else if d == 3 {
        "3"
    } else if d == 4 {
        "4"
    } else if d == 5 {
        "5"
    } else if d == 6 {
        "6"
    } else if d == 7 {
        "7"
    } else if d == 8 {
        "8"
    } else {
        "9"
    };
    proof {
        assert(r@ =~= seq![digit_char(d as int)]);
    }
    r
}

/// Append the decimal digits of `n`, most significant first.
fn push_digits(out: &mut String, n: u32)
    ensures
        final(out)@ == old(out)@ + dec_digits(n as int),
    decreases n,
{
    if n >= 10 {
        push_digits(out, n / 10);
    }
    let d = digit_str(n % 10);
    out.append(d);
    proof {
        assert(final(out)@ =~= old(out)@ + dec_digits(n as int));
    }
}

/// The printable form of a single value: a number as its decimal digits,
/// anything else as an opaque placeholder.
pub open spec fn spec_token_text(t: Tok) -> Seq<char> {
    match t {
        Tok::Num(n) => if n >= 0 {
            dec_digits(n as int)
        } else {
            seq!['-'] + dec_digits(-(n as int))
        },
        _ => "Foo"@,
    }
}

/// Print one value: a number as its decimal digits, anything else as an
/// opaque placeholder.
pub fn token_text(t: &Token) -> (r: String)
    ensures
        r@ == spec_token_text(t@),
{
    match t {
        Token::Number(n) => {
            let mut out = String::new();
            let m: u32;
            if *n < 0 {
                out.append("-");
                m = (-(*n as i64)) as u32;
                proof {
                    reveal_strlit("-");
                    assert(out@ =~= seq!['-']);
                }
            } else {
                m = *n as u32;
            }
            push_digits(&mut out, m);
            out
        },
        _ => "Foo".to_owned(),
    }
}

/// Write a token stream back to its canonical textual form: one space before
/// each token; a token with no textual form contributes nothing.
#[verifier::loop_isolation(false)]
pub fn render_tokens(tokens: &Vec<Token>) -> (r: String)
    ensures
        r@ == spec_render(tokens_model(tokens@)),
{
    proof {
        lemma_tokens_model(tokens@);
        reveal_strlit(" ");
        reveal_strlit("+");
        reveal_strlit("-");
        reveal_strlit("*");
        reveal_strlit("/");
        reveal_strlit("(");
        reveal_strlit(")");
    }
    let ghost models = tokens_model(tokens@);
    let mut out = String::new();
    let mut i: usize = 0;
    proof {
        assert(models.skip(0) =~= models);
        assert(out@ + spec_render(models) =~= spec_render(models));
    }
    while i < tokens.len()
        invariant
            i <= tokens@.len(),
            out@ + spec_render(models.skip(i as int)) == spec_render(models),
        decreases tokens@.len() - i,
    {
        proof {
            assert(models.skip(i as int)[0] == models[i as int]);
            assert(models.skip(i as int).drop_first() =~= models.skip(i + 1));
        }
        match &tokens[i] {
            Token::Number(n) => {
                if *n >= 0 {
                    out.append(" ");
                    push_digits(&mut out, *n as u32);
                }
            },
            Token::Func(op) => {
                out.append(" ");
                match op {
                    Oper::Sum => out.append("+"),
                    Oper::Subtract => out.append("-"),
                    Oper::Product => out.append("*"),
                    Oper::Divide => out.append("/"),
                }
            },
            Token::BeginSexpr => {
                out.append(" ");
                out.append("(");
            },
            Token::EndSexpr => {
                out.append(" ");
                out.append(")");
            },
            Token::List(_) => {},
            Token::Error(_) => {},
        }
        i = i + 1;
        proof {
            assert(out@ + spec_render(models.skip(i as int)) =~= spec_render(models));
        }
    }
    proof {
        assert(models.skip(tokens@.len() as int) =~= Seq::<Tok>::empty());
        assert(out@ =~= spec_render(models));
    }
    out
}

proof fn lemma_digit_run_exact(s: Seq<char>, j: int, k: int)
    requires
        0 <= j <= k <= s.len(),
        forall|m: int| j <= m < k ==> is_digit_char(#[trigger] s[m]),
        k == s.len() || !is_digit_char(s[k]),
    ensures
        digit_run_end(s, j) == k,
    decreases k - j,
{
    if j < k {
        lemma_digit_run_exact(s, j + 1, k);
    }
}

} // verus!
