//! The tree builder and the evaluator.  A token sequence is consumed left to
//! right through a single forward cursor into one rooted tree; the tree is
//! then reduced recursively to a value.
use crate::token::{
    lemma_tokens_model, result_model, token_model, tokens_model, LispyError, LispyRet, Tok, Token,
};
use vstd::prelude::*;

verus! {

/// Mathematical model of a tree node.
#[verifier::ext_equal]
pub struct AstM {
    pub tag: Seq<char>,
    pub val: Tok,
    pub children: Seq<AstM>,
}

/// One element of the parsed tree: a diagnostic tag, a payload value, and
/// the ordered children.  A leaf owns no children; a grouped expression is a
/// node tagged `sexpr` whose children are its sub-expressions in source
/// order.
#[derive(Debug)]
pub struct Ast {
    tags: String,
    contents: Token,
    children: Vec<Ast>,
}

pub closed spec fn ast_model(a: Ast) -> AstM
    decreases a,
{
    AstM {
        tag: a.tags@,
        val: token_model(a.contents),
        children: asts_model_from(a.children@, 0),
    }
}

/// Model of the suffix `s[i..]`, element by element.
pub open spec fn asts_model_from(s: Seq<Ast>, i: int) -> Seq<AstM>
    decreases s, s.len() - i,
{
    if i < 0 || i >= s.len() {
        Seq::empty()
    } else {
        seq![ast_model(s[i])] + asts_model_from(s, i + 1)
    }
}

pub open spec fn asts_model(s: Seq<Ast>) -> Seq<AstM> {
    asts_model_from(s, 0)
}

impl View for Ast {
    type V = AstM;

    open spec fn view(&self) -> AstM {
        ast_model(*self)
    }
}

pub open spec fn opt_model(r: Option<Ast>) -> Option<AstM> {
    match r {
        Option::Some(a) => Option::Some(ast_model(a)),
        Option::None => Option::None,
    }
}

pub proof fn lemma_asts_model_from(s: Seq<Ast>, i: int)
    requires
        0 <= i <= s.len(),
    ensures
        asts_model_from(s, i).len() == s.len() - i,
        forall|j: int| 0 <= j < s.len() - i ==> asts_model_from(s, i)[j] == ast_model(s[i + j]),
    decreases s.len() - i,
{
    if i < s.len() {
        lemma_asts_model_from(s, i + 1);
    }
}

pub proof fn lemma_asts_model(s: Seq<Ast>)
    ensures
        asts_model(s).len() == s.len(),
        forall|j: int| 0 <= j < s.len() ==> asts_model(s)[j] == ast_model(s[j]),
{
    lemma_asts_model_from(s, 0);
}

proof fn lemma_asts_model_push(s: Seq<Ast>, a: Ast)
    ensures
        asts_model(s.push(a)) == asts_model(s) + seq![ast_model(a)],
{
    lemma_asts_model(s.push(a));
    lemma_asts_model(s);
    assert(asts_model(s.push(a)) =~= asts_model(s) + seq![ast_model(a)]);
}

pub open spec fn leaf_model(tag: Seq<char>, val: Tok) -> AstM {
    AstM { tag, val, children: Seq::empty() }
}

/// One node read from cursor position `i`: the node built (or nothing, when
/// the stream is exhausted or the token ends the innermost open group) and
/// the cursor after it.
pub open spec fn spec_node(ts: Seq<Tok>, i: int) -> (Option<AstM>, int)
    decreases ts.len() - i, 0int,
{
    if !(0 <= i < ts.len()) {
        (Option::None, i)
    } else {
        match ts[i] {
            Tok::Num(n) => (Option::Some(leaf_model("number"@, Tok::Num(n))), i + 1),
            Tok::Op(op) => (Option::Some(leaf_model("func"@, Tok::Op(op))), i + 1),
            Tok::Open => {
                let (cs, j) = spec_children(ts, i + 1);
                (Option::Some(AstM { tag: "sexpr"@, val: Tok::Open, children: cs }), j)
            },
            _ => (Option::None, i + 1),
        }
    }
}

/// The children gathered for an open group, until a terminator or the end of
/// the stream; the cursor clamp only keeps the recursion well-founded, and
/// `lemma_children_unfold` shows it never fires.
pub open spec fn spec_children(ts: Seq<Tok>, i: int) -> (Seq<AstM>, int)
    decreases ts.len() - i, 1int,
{
    if !(0 <= i < ts.len()) {
        (Seq::empty(), i)
    } else {
        let (n, j) = spec_node(ts, i);
        match n {
            Option::Some(a) => {
                let j2 = if j <= i {
                    i + 1
                } else if j > ts.len() {
                    ts.len() as int
                } else {
                    j
                };
                let (rest, k) = spec_children(ts, j2);
                (seq![a] + rest, k)
            },
            Option::None => (Seq::empty(), j),
        }
    }
}

/// The tree a token sequence denotes: one node read from the front;
/// whatever follows it is dropped.
pub open spec fn spec_from_token_vec(ts: Seq<Tok>) -> Option<AstM> {
    spec_node(ts, 0).0
}

pub proof fn lemma_node_bounds(ts: Seq<Tok>, i: int)
    requires
        0 <= i <= ts.len(),
    ensures
        i <= spec_node(ts, i).1 <= ts.len(),
        i < ts.len() ==> spec_node(ts, i).1 >= i + 1,
    decreases ts.len() - i, 0int,
{
    if 0 <= i < ts.len() && ts[i] is Open {
        lemma_children_bounds(ts, i + 1);
    }
}

pub proof fn lemma_children_bounds(ts: Seq<Tok>, i: int)
    requires
        0 <= i <= ts.len(),
    ensures
        i <= spec_children(ts, i).1 <= ts.len(),
    decreases ts.len() - i, 1int,
{
    if 0 <= i < ts.len() {
        lemma_node_bounds(ts, i);
        let (n, j) = spec_node(ts, i);
        if n is Some {
            lemma_children_bounds(ts, j);
        }
    }
}

/// The definition of `spec_children` with the well-foundedness clamp
/// discharged.
pub proof fn lemma_children_unfold(ts: Seq<Tok>, i: int)
    requires
        0 <= i <= ts.len(),
    ensures
        spec_children(ts, i) == (if i == ts.len() {
            (Seq::<AstM>::empty(), i)
        } else {
            let (n, j) = spec_node(ts, i);
            match n {
                Option::Some(a) => {
                    let (rest, k) = spec_children(ts, j);
                    (seq![a] + rest, k)
                },
                Option::None => (Seq::<AstM>::empty(), j),
            }
        }),
{
    if i < ts.len() {
        lemma_node_bounds(ts, i);
    }
}

/// What evaluation yields on a node: a number or list evaluates to itself, a
/// function applies its children, a group applies its first child to the
/// rest, and anything else cannot act as a value.
pub open spec fn spec_eval(a: AstM) -> Result<Tok, LispyError>
    decreases a, 2int,
{
    match a.val {
        Tok::Num(n) => Ok(Tok::Num(n)),
        Tok::Lst(vs) => Ok(Tok::Lst(vs)),
        Tok::Op(_) => spec_eval_func(a),
        Tok::Open => spec_eval_sexpr(a),
        _ => Err(LispyError::NotApplicable),
    }
}

/// A function node applies its operation to all its evaluated children;
/// with none, the operation still applies, to the empty list.
pub open spec fn spec_eval_func(a: AstM) -> Result<Tok, LispyError>
    decreases a, 1int,
{
    match a.val {
        Tok::Op(op) => match spec_eval_args(a.children, 0) {
            Ok(vals) => crate::operations::spec_fold(op, vals),
            Err(e) => Err(e),
        },
        _ => Err(LispyError::NotApplicable),
    }
}

/// A group with no children is the empty list; one whose first child is a
/// function applies it to the evaluated remaining children; any other first
/// child is discarded and the rest stand as a plain list.
pub open spec fn spec_eval_sexpr(a: AstM) -> Result<Tok, LispyError>
    decreases a, 1int,
{
    if a.children.len() == 0 {
        Ok(Tok::Lst(Seq::empty()))
    } else {
        match spec_eval_args(a.children, 1) {
            Ok(vals) => match a.children[0].val {
                Tok::Op(op) => crate::operations::spec_fold(op, vals),
                _ => Ok(Tok::Lst(vals)),
            },
            Err(e) => Err(e),
        }
    }
}

/// The children from `i` on, evaluated eagerly left to right; the first
/// failure ends evaluation and propagates.
pub open spec fn spec_eval_args(cs: Seq<AstM>, i: int) -> Result<Seq<Tok>, LispyError>
    decreases cs, cs.len() - i, 3int,
{
    if !(0 <= i < cs.len()) {
        Ok(Seq::empty())
    } else {
        match spec_eval(cs[i]) {
            Ok(v) => match spec_eval_args(cs, i + 1) {
                Ok(rest) => Ok(seq![v] + rest),
                Err(e) => Err(e),
            },
            Err(e) => Err(e),
        }
    }
}

impl vstd::std_specs::cmp::PartialEqSpecImpl for Ast {
    open spec fn obeys_eq_spec() -> bool {
        true
    }

    open spec fn eq_spec(&self, other: &Ast) -> bool {
        ast_model(*self) == ast_model(*other)
    }
}

impl PartialEq for Ast {
    /// Deep structural equality: two nodes are equal exactly when their
    /// models are.
    #[verifier::loop_isolation(false)]
    fn eq(&self, other: &Ast) -> (r: bool)
        ensures
            r == (ast_model(*self) == ast_model(*other)),
        decreases *self,
    {
        if !(self.tags == other.tags) {
            return false;
        }
        if !(self.contents == other.contents) {
            return false;
        }
        let n = self.children.len();
        if n != other.children.len() {
            proof {
                lemma_asts_model(self.children@);
                lemma_asts_model(other.children@);
            }
            return false;
        }
        let mut i: usize = 0;
        while i < n
            invariant
                i <= n,
                n == self.children@.len(),
                n == other.children@.len(),
                forall|j: int|
                    0 <= j < i ==> ast_model(self.children@[j]) == ast_model(other.children@[j]),
            decreases n - i,
        {
            if !(self.children[i] == other.children[i]) {
                proof {
                    lemma_asts_model(self.children@);
                    lemma_asts_model(other.children@);
                    assert(asts_model(self.children@)[i as int] != asts_model(
                        other.children@,
                    )[i as int]);
                }
                return false;
            }
            i = i + 1;
        }
        proof {
            lemma_asts_model(self.children@);
            lemma_asts_model(other.children@);
            assert(asts_model(self.children@) =~= asts_model(other.children@));
        }
        true
    }
}

/// A value with no structural marker in it, at any depth.
pub open spec fn marker_free(v: Tok) -> bool
    decreases v,
{
    match v {
        Tok::Open => false,
        Tok::Close => false,
        Tok::Lst(vs) => forall|k: int| 0 <= k < vs.len() ==> marker_free(#[trigger] vs[k]),
        _ => true,
    }
}

/// The shape of every tree the builder yields: each node holds a number, a
/// function, or the opening marker of a group, and so do its children.
pub open spec fn built_form(a: AstM) -> bool
    decreases a,
{
    (a.val is Num || a.val is Op || a.val is Open) && (forall|k: int|
        0 <= k < a.children.len() ==> built_form(#[trigger] a.children[k]))
}

proof fn lemma_node_built(ts: Seq<Tok>, i: int)
    requires
        0 <= i <= ts.len(),
    ensures
        spec_node(ts, i).0 matches Option::Some(a) ==> built_form(a),
    decreases ts.len() - i, 0int,
{
    if 0 <= i < ts.len() && ts[i] is Open {
        lemma_children_bounds(ts, i + 1);
        lemma_children_built(ts, i + 1);
    }
}

proof fn lemma_children_built(ts: Seq<Tok>, i: int)
    requires
        0 <= i <= ts.len(),
    ensures
        forall|k: int|
            0 <= k < spec_children(ts, i).0.len() ==> built_form(
                #[trigger] spec_children(ts, i).0[k],
            ),
    decreases ts.len() - i, 1int,
{
    if 0 <= i < ts.len() {
        lemma_node_bounds(ts, i);
        lemma_node_built(ts, i);
        let (n, j) = spec_node(ts, i);
        if let Option::Some(a) = n {
            lemma_children_built(ts, j);
            let (rest, _) = spec_children(ts, j);
            assert forall|k: int| 0 <= k < spec_children(ts, i).0.len() implies built_form(
                #[trigger] spec_children(ts, i).0[k],
            ) by {
                if k > 0 {
                    assert(spec_children(ts, i).0[k] == rest[k - 1]);
                }
            }
        }
    }
}

proof fn lemma_eval_args_marker_free(cs: Seq<AstM>, i: int)
    requires
        forall|k: int| 0 <= k < cs.len() ==> built_form(#[trigger] cs[k]),
    ensures
        spec_eval_args(cs, i) matches Ok(vals) ==> forall|k: int|
            0 <= k < vals.len() ==> marker_free(#[trigger] vals[k]),
    decreases cs, cs.len() - i, 3int,
{
    if 0 <= i < cs.len() {
        lemma_eval_marker_free(cs[i]);
        lemma_eval_args_marker_free(cs, i + 1);
        if let Ok(vals) = spec_eval_args(cs, i) {
            let v = spec_eval(cs[i])->Ok_0;
            let rest = spec_eval_args(cs, i + 1)->Ok_0;
            assert forall|k: int| 0 <= k < vals.len() implies marker_free(#[trigger] vals[k]) by {
                if k > 0 {
                    assert(vals[k] == rest[k - 1]);
                }
            }
        }
    }
}

/// Evaluating any tree of the builder's shape yields a value free of
/// structural markers.
proof fn lemma_eval_marker_free(a: AstM)
    requires
        built_form(a),
    ensures
        spec_eval(a) matches Ok(v) ==> marker_free(v),
    decreases a, 2int,
{
    match a.val {
        Tok::Op(op) => {
            lemma_eval_args_marker_free(a.children, 0);
        },
        Tok::Open => {
            if a.children.len() > 0 {
                lemma_eval_args_marker_free(a.children, 1);
            }
        },
        _ => {},
    }
}

/// Building a tree from any token sequence and evaluating it never leaves a
/// structural marker anywhere in the result value.
pub proof fn lemma_build_eval_marker_free(ts: Seq<Tok>, a: AstM, v: Tok)
    requires
        spec_from_token_vec(ts) == Option::Some(a),
        spec_eval(a) == Ok::<Tok, LispyError>(v),
    ensures
        marker_free(v),
{
    lemma_node_built(ts, 0);
    lemma_eval_marker_free(a);
}

impl Ast {
    /// A node from its parts.
    pub fn new(tags: &str, contents: Token, children: Vec<Ast>) -> (r: Ast)
        ensures
            r@ == (AstM { tag: tags@, val: contents@, children: asts_model(children@) }),
    {
        Ast { tags: tags.to_owned(), contents, children }
    }

    /// Build the tree a token sequence denotes: one node read from the
    /// front; an empty stream, or one opening with a terminator, yields
    /// nothing.
    pub fn from_token_vec(tokens: Vec<Token>) -> (r: Option<Ast>)
        ensures
            opt_model(r) == spec_from_token_vec(tokens_model(tokens@)),
    {
        proof {
            lemma_tokens_model(tokens@);
        }
        if tokens.len() == 0 {
            return Option::None;
        }
        let first = &tokens[0];
        let (node, _) = Ast::ast_from_token(first, &tokens, 1);
        node
    }

    /// A leaf holding a number.
    fn build_number(input: i32) -> (r: Ast)
        ensures
            r@ == leaf_model("number"@, Tok::Num(input)),
    {
        Ast::new("number", Token::Number(input), Vec::new())
    }

    /// A leaf holding whatever operator the byte string denotes.
    fn build_operator(input: &[u8]) -> (r: Ast)
        ensures
            r@ == leaf_model("operator"@, crate::token::spec_build_operator(input@)),
    {
        Ast::new("operator", Token::build_operator(input), Vec::new())
    }

    /// Build one node from the token just read; `pos` is the cursor
    /// position directly after that token.
    fn ast_from_token(token: &Token, tokens: &Vec<Token>, pos: usize) -> (r: (Option<Ast>, usize))
        requires
            1 <= pos <= tokens@.len(),
            token@ == tokens_model(tokens@)[pos - 1],
        ensures
            (opt_model(r.0), r.1 as int) == spec_node(tokens_model(tokens@), pos - 1),
        decreases tokens@.len() - pos, 1int,
    {
        proof {
            lemma_tokens_model(tokens@);
        }
        match token {
            Token::Number(i) => (Option::Some(Ast::build_number(*i)), pos),
            Token::BeginSexpr => Ast::build_sexpr(tokens, pos),
            Token::EndSexpr => (Option::None, pos),
            Token::Func(op) => (Option::Some(Ast::new("func", Token::Func(*op), Vec::new())), pos),
            _ => (Option::None, pos),
        }
    }

    /// Gather the children of an open group, sharing the forward cursor
    /// with the recursive builds, until a terminator or token exhaustion.
    fn build_sexpr(tokens: &Vec<Token>, pos: usize) -> (r: (Option<Ast>, usize))
        requires
            pos <= tokens@.len(),
        ensures
            ({
                let (cs, j) = spec_children(tokens_model(tokens@), pos as int);
                &&& opt_model(r.0) == Option::Some(
                    AstM { tag: "sexpr"@, val: Tok::Open, children: cs },
                )
                &&& r.1 == j
            }),
        decreases tokens@.len() - pos, 0int,
    {
        let ghost ts = tokens_model(tokens@);
        proof {
            lemma_tokens_model(tokens@);
        }
        let mut children: Vec<Ast> = Vec::new();
        let mut cur = pos;
        loop
            invariant_except_break
                spec_children(ts, pos as int) == ({
                    let (rest, k) = spec_children(ts, cur as int);
                    (asts_model(children@) + rest, k)
                }),
            invariant
                pos <= cur <= tokens@.len(),
                ts == tokens_model(tokens@),
                tokens@.len() == ts.len(),
            ensures
                spec_children(ts, pos as int) == (asts_model(children@), cur as int),
            decreases tokens@.len() - cur,
        {
            proof {
                lemma_tokens_model(tokens@);
                lemma_children_unfold(ts, cur as int);
                lemma_asts_model(children@);
            }
            if cur == tokens.len() {
                proof {
                    assert(asts_model(children@) + Seq::<AstM>::empty() =~= asts_model(
                        children@,
                    ));
                }
                break;
            }
            let tok = &tokens[cur];
            let (node, next) = Ast::ast_from_token(tok, tokens, cur + 1);
            proof {
                lemma_node_bounds(ts, cur as int);
            }
            match node {
                Option::Some(a) => {
                    proof {
                        lemma_asts_model_push(children@, a);
                        let (rest2, k2) = spec_children(ts, next as int);
                        assert((asts_model(children@) + seq![ast_model(a)]) + rest2
                            =~= asts_model(children@) + (seq![ast_model(a)] + rest2));
                    }
                    children.push(a);
                    cur = next;
                },
                Option::None => {
                    cur = next;
                    proof {
                        assert(asts_model(children@) + Seq::<AstM>::empty() =~= asts_model(
                            children@,
                        ));
                    }
                    break;
                },
            }
        }
        let current_ast = Ast::new("sexpr", Token::BeginSexpr, children);
        (Option::Some(current_ast), cur)
    }

    /// Reduce the tree to a value.  Every failure is reported as a typed
    /// error; evaluation never panics.
    pub fn eval(&self) -> (r: LispyRet)
        ensures
            result_model(r) == spec_eval(self@),
        decreases *self, 2int,
    {
        match &self.contents {
            Token::BeginSexpr => self.eval_sexpr(),
            Token::Func(_) => self.eval_func(),
            Token::Number(_) => Ok(self.contents.clone()),
            Token::List(_) => Ok(self.contents.clone()),
            _ => Err(LispyError::NotApplicable),
        }
    }

    fn eval_sexpr(&self) -> (r: LispyRet)
        ensures
            result_model(r) == spec_eval_sexpr(self@),
        decreases *self, 1int,
    {
        proof {
            lemma_asts_model(self.children@);
        }
        if self.children.len() == 0 {
            return Ok(Token::List(Vec::new()));
        }
        let evaled = match Self::eval_children(&self.children, 1) {
            Ok(v) => v,
            Err(e) => {
                return Err(e);
            },
        };
        let first = &self.children[0];
        match &first.contents {
            Token::Func(op) => crate::operations::apply(*op, evaled),
            _ => crate::operations::identity(evaled),
        }
    }

    fn eval_func(&self) -> (r: LispyRet)
        ensures
            result_model(r) == spec_eval_func(self@),
        decreases *self, 1int,
    {
        let op = match &self.contents {
            Token::Func(a) => *a,
            _ => {
                return Err(LispyError::NotApplicable);
            },
        };
        let evaled = match Self::eval_children(&self.children, 0) {
            Ok(v) => v,
            Err(e) => {
                return Err(e);
            },
        };
        crate::operations::apply(op, evaled)
    }

    /// Evaluate the children from `start` on, left to right, stopping at the
    /// first failure.
    fn eval_children(children: &Vec<Ast>, start: usize) -> (r: Result<Vec<Token>, LispyError>)
        requires
            start <= children@.len(),
        ensures
            ({
                let spec = spec_eval_args(asts_model(children@), start as int);
                match r {
                    Ok(v) => spec == Ok::<Seq<Tok>, LispyError>(tokens_model(v@)),
                    Err(e) => spec == Err::<Seq<Tok>, LispyError>(e),
                }
            }),
        decreases children@, children@.len() - start, 3int,
    {
        proof {
            lemma_asts_model(children@);
        }
        if start == children.len() {
            let empty: Vec<Token> = Vec::new();
            return Ok(empty);
        }
        let v = match children[start].eval() {
            Ok(v) => v,
            Err(e) => {
                return Err(e);
            },
        };
        let mut rest = match Self::eval_children(children, start + 1) {
            Ok(rest) => rest,
            Err(e) => {
                return Err(e);
            },
        };
        let mut out: Vec<Token> = Vec::new();
        out.push(v);
        let ghost pushed = out@;
        let ghost rest_snapshot = rest@;
        out.append(&mut rest);
        proof {
            lemma_tokens_model(out@);
            lemma_tokens_model(rest_snapshot);
            assert(out@ =~= pushed + rest_snapshot);
            assert(tokens_model(out@) =~= seq![token_model(pushed[0])] + tokens_model(
                rest_snapshot,
            ));
        }
        Ok(out)
    }
}

} // verus!
