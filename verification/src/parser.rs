//! The parser: consumes the lexer's token sequence and produces one `Expr`
//! tree, or a parse error with the offending token's span and the token
//! kinds that would have been accepted there.
//!
//! The grammar is an operator-precedence (Pratt) layering over atoms:
//! an atom is an identifier or a parenthesized, comma-separated tuple whose
//! elements are literals or full expressions; the postfix operators
//! `-> name` (assign) and `->> name` (mutate) bind tightest and chain left
//! to right; `|>` (pipeline) is left-associative and looser; a lambda
//! `(params) => body` is recognized by lookahead for a parenthesized
//! identifier list followed by `=>`, and its body is a full expression, so
//! it extends as far right as possible.
//!
//! Bare literals are not atoms: a standalone number or string with no
//! enclosing parentheses is a parse error. This quirk of the grammar is
//! kept deliberately; `(5)` parses while `5` alone does not.
//!
//! Parsing is all or nothing: the first mismatch halts tree construction
//! and is reported; no partial tree is returned.

use vstd::prelude::*;

use crate::lexer::copy_bytes;
use crate::lexer::Span;
use crate::lexer::TokM;
use crate::lexer::Token;

verus! {

broadcast use vstd::seq::group_seq_axioms, vstd::std_specs::vec::group_vec_axioms;

/// One expression of the pipeline language. Children are owned by value,
/// so trees are finite and acyclic by construction.
#[derive(Debug, PartialEq)]
pub enum Expr {
    Ident(Vec<u8>),
    Number(Vec<u8>),
    String(Vec<u8>),
    Tuple(Vec<Expr>),
    Pipeline(Box<Expr>, Box<Expr>),
    Assign(Box<Expr>, Vec<u8>),
    Mutate(Box<Expr>, Vec<u8>),
    Lambda(Vec<Vec<u8>>, Box<Expr>),
}

/// Mathematical model of an expression tree.
pub enum ExprM {
    Ident(Seq<u8>),
    Number(Seq<u8>),
    String(Seq<u8>),
    Tuple(Seq<ExprM>),
    Pipeline(Box<ExprM>, Box<ExprM>),
    Assign(Box<ExprM>, Seq<u8>),
    Mutate(Box<ExprM>, Seq<u8>),
    Lambda(Seq<Seq<u8>>, Box<ExprM>),
}

/// The model of an expression tree: the same shape over byte sequences.
pub open spec fn expr_view(e: Expr) -> ExprM
    decreases e, 1int,
{
    match e {
        Expr::Ident(n) => ExprM::Ident(n@),
        Expr::Number(t) => ExprM::Number(t@),
        Expr::String(t) => ExprM::String(t@),
        Expr::Tuple(es) => ExprM::Tuple(exprs_vec_view(es)),
        Expr::Pipeline(a, b) => ExprM::Pipeline(Box::new(expr_view(*a)), Box::new(expr_view(*b))),
        Expr::Assign(e0, n) => ExprM::Assign(Box::new(expr_view(*e0)), n@),
        Expr::Mutate(e0, n) => ExprM::Mutate(Box::new(expr_view(*e0)), n@),
        Expr::Lambda(ps, b) => ExprM::Lambda(ps.deep_view(), Box::new(expr_view(*b))),
    }
}

/// The models of a tuple's element vector.
pub open spec fn exprs_vec_view(es: Vec<Expr>) -> Seq<ExprM>
    decreases es, 0int,
{
    Seq::new(
        es@.len(),
        |k: int|
            if 0 <= k && k < es@.len() {
                expr_view(es@[k])
            } else {
                arbitrary()
            },
    )
}

impl View for Expr {
    type V = ExprM;

    open spec fn view(&self) -> ExprM {
        expr_view(*self)
    }
}

/// The kinds of token, used to report which ones a failed parse would
/// have accepted.
#[derive(Debug, Clone, Copy, PartialEq, Eq, Structural)]
pub enum TokKind {
    Number,
    String,
    Ident,
    Lparen,
    Rparen,
    Comma,
    Pipeline,
    Assign,
    Mutate,
    Lambda,
}

/// A parse error: the span of the offending token (or an empty span at the
/// end of the source when the input stopped short), and the token kinds
/// that would have been accepted at that point.
#[derive(Debug, Clone, PartialEq, Eq)]
pub struct ParseError {
    pub span: Span,
    pub expected: Vec<TokKind>,
}

/// The token models of a spanned token sequence; the parse result depends
/// on these alone, never on the spans.
pub open spec fn toks_of(v: Seq<(Token, Span)>) -> Seq<TokM> {
    v.map_values(|p: (Token, Span)| p.0@)
}

/// The position a parse step hands to the next one: the end `j` reported
/// by a sub-parse when it lies properly beyond `i`, and a one-token step
/// otherwise. Sub-parses always make progress, so the fallback never fires;
/// it only makes termination of the spec grammar evident.
pub open spec fn advance(ts: Seq<TokM>, i: int, j: int) -> int {
    if i < j <= ts.len() {
        j
    } else if i < ts.len() {
        i + 1
    } else {
        ts.len() as int
    }
}

/// A nonempty lambda parameter list at `i` (just after the opening paren):
/// identifiers separated by commas, then `)` `=>`. Yields the parameter
/// names and the position after the `=>`.
pub open spec fn sp_params1(ts: Seq<TokM>, i: int) -> Option<(Seq<Seq<u8>>, int)>
    decreases ts.len() - i,
{
    if 0 <= i && i < ts.len() && ts[i] is Ident {
        let name = ts[i]->Ident_0;
        if i + 1 < ts.len() && ts[i + 1] is Comma {
            match sp_params1(ts, i + 2) {
                Option::None => Option::None,
                Option::Some((ps, j)) => Option::Some((seq![name] + ps, j)),
            }
        } else if i + 2 < ts.len() && ts[i + 1] is Rparen && ts[i + 2] is Lambda {
            Option::Some((seq![name], i + 3))
        } else {
            Option::None
        }
    } else {
        Option::None
    }
}

/// A lambda parameter list at `i` (just after the opening paren), possibly
/// empty: `) =>` alone, or a nonempty identifier list.
pub open spec fn sp_params(ts: Seq<TokM>, i: int) -> Option<(Seq<Seq<u8>>, int)> {
    if 0 <= i && i + 1 < ts.len() && ts[i] is Rparen && ts[i + 1] is Lambda {
        Option::Some((Seq::empty(), i + 2))
    } else {
        sp_params1(ts, i)
    }
}

/// The postfix layer: zero or more `-> name` / `->> name` steps after an
/// already-parsed expression `acc`, each wrapping the accumulated tree.
/// A postfix arrow not followed by an identifier is a parse error at the
/// offending position.
pub open spec fn sp_postfix(ts: Seq<TokM>, acc: ExprM, i: int) -> Result<(ExprM, int), int>
    decreases ts.len() - i,
{
    if 0 <= i && i < ts.len() && (ts[i] is Assign || ts[i] is Mutate) {
        if i + 1 < ts.len() && ts[i + 1] is Ident {
            let name = ts[i + 1]->Ident_0;
            let acc2 = if ts[i] is Assign {
                ExprM::Assign(Box::new(acc), name)
            } else {
                ExprM::Mutate(Box::new(acc), name)
            };
            sp_postfix(ts, acc2, i + 2)
        } else {
            Result::Err(i + 1)
        }
    } else {
        Result::Ok((acc, i))
    }
}

/// A tuple element: a bare literal, else a full expression.
pub open spec fn sp_elem(ts: Seq<TokM>, i: int) -> Result<(ExprM, int), int>
    decreases ts.len() - i, 4int,
{
    if i < 0 || i > ts.len() {
        Result::Err(i)
    } else if i < ts.len() && ts[i] is Number {
        Result::Ok((ExprM::Number(ts[i]->Number_0), i + 1))
    } else if i < ts.len() && ts[i] is String {
        Result::Ok((ExprM::String(ts[i]->String_0), i + 1))
    } else {
        sp_expr(ts, i)
    }
}

/// After the first tuple element: either `)` closing the tuple, or `,` and
/// a further element; anything else is a parse error expecting one of the
/// two.
pub open spec fn sp_elems_rest(ts: Seq<TokM>, acc: Seq<ExprM>, i: int) -> Result<
    (Seq<ExprM>, int),
    int,
>
    decreases ts.len() - i, 0int,
{
    if 0 <= i && i < ts.len() && ts[i] is Rparen {
        Result::Ok((acc, i + 1))
    } else if 0 <= i && i < ts.len() && ts[i] is Comma {
        match sp_elem(ts, i + 1) {
            Result::Err(e) => Result::Err(e),
            Result::Ok((e1, j)) => sp_elems_rest(ts, acc.push(e1), advance(ts, i + 1, j)),
        }
    } else {
        Result::Err(i)
    }
}

/// A tuple atom at `i` (which holds the opening paren): `()` or a
/// comma-separated element list in parentheses.
pub open spec fn sp_tuple(ts: Seq<TokM>, i: int) -> Result<(ExprM, int), int>
    decreases ts.len() - i, 1int,
{
    if i < 0 || i >= ts.len() {
        Result::Err(i)
    } else if i + 1 < ts.len() && ts[i + 1] is Rparen {
        Result::Ok((ExprM::Tuple(Seq::empty()), i + 2))
    } else {
        match sp_elem(ts, i + 1) {
            Result::Err(e) => Result::Err(e),
            Result::Ok((e0, j)) => {
                match sp_elems_rest(ts, seq![e0], advance(ts, i + 1, j)) {
                    Result::Err(e) => Result::Err(e),
                    Result::Ok((es, k)) => Result::Ok((ExprM::Tuple(es), k)),
                }
            },
        }
    }
}

/// One pipeline operand: a lambda when the lookahead finds a parameter
/// list and `=>` after an opening paren; else an identifier or tuple atom
/// with its postfix operators. Anything else is a parse error expecting an
/// identifier or `(`.
pub open spec fn sp_unit(ts: Seq<TokM>, i: int) -> Result<(ExprM, int), int>
    decreases ts.len() - i, 2int,
{
    if i < 0 || i > ts.len() {
        Result::Err(i)
    } else if i < ts.len() && ts[i] is Lparen && sp_params(ts, i + 1) is Some {
        let (ps, j) = sp_params(ts, i + 1).unwrap();
        match sp_expr(ts, advance(ts, i, j)) {
            Result::Err(e) => Result::Err(e),
            Result::Ok((body, k)) => Result::Ok((ExprM::Lambda(ps, Box::new(body)), k)),
        }
    } else if i < ts.len() && ts[i] is Ident {
        sp_postfix(ts, ExprM::Ident(ts[i]->Ident_0), i + 1)
    } else if i < ts.len() && ts[i] is Lparen {
        match sp_tuple(ts, i) {
            Result::Err(e) => Result::Err(e),
            Result::Ok((t, j)) => sp_postfix(ts, t, advance(ts, i, j)),
        }
    } else {
        Result::Err(i)
    }
}

/// The pipeline layer: left-associative folding of `|>` over operands, so
/// `a |> b |> c` becomes `Pipeline(Pipeline(a, b), c)`.
pub open spec fn sp_pipe_rest(ts: Seq<TokM>, acc: ExprM, i: int) -> Result<(ExprM, int), int>
    decreases ts.len() - i, 0int,
{
    if 0 <= i && i < ts.len() && ts[i] is Pipeline {
        match sp_unit(ts, i + 1) {
            Result::Err(e) => Result::Err(e),
            Result::Ok((r, j)) => sp_pipe_rest(
                ts,
                ExprM::Pipeline(Box::new(acc), Box::new(r)),
                advance(ts, i + 1, j),
            ),
        }
    } else {
        Result::Ok((acc, i))
    }
}

/// A full expression starting at `i`: one operand, then the pipeline layer.
pub open spec fn sp_expr(ts: Seq<TokM>, i: int) -> Result<(ExprM, int), int>
    decreases ts.len() - i, 3int,
{
    if i < 0 || i > ts.len() {
        Result::Err(i)
    } else {
        match sp_unit(ts, i) {
            Result::Err(e) => Result::Err(e),
            Result::Ok((e0, j)) => sp_pipe_rest(ts, e0, advance(ts, i, j)),
        }
    }
}

/// The whole token sequence as one expression: a full expression that
/// consumes every token. On failure the error carries the index of the
/// offending token (the sequence's length when the input stopped short).
pub open spec fn spec_parse(ts: Seq<TokM>) -> Result<ExprM, int> {
    match sp_expr(ts, 0) {
        Result::Err(k) => Result::Err(k),
        Result::Ok((e, j)) => if j == ts.len() {
            Result::Ok(e)
        } else {
            Result::Err(j)
        },
    }
}

/// The deep model of a byte vector is its plain view.
proof fn lemma_bytes_deep_view(v: Vec<u8>)
    ensures
        v.deep_view() == v@,
{
    assert(v.deep_view() =~= v@);
}

/// The token at index `i`.
fn tok_at<'a>(ts: &'a Vec<(Token, Span)>, i: usize) -> (t: &'a Token)
    requires
        i < ts@.len(),
    ensures
        t@ == toks_of(ts@)[i as int],
{
    &vstd::slice::slice_index_get(ts.as_slice(), i).0
}

/// An internal parse failure: the index of the offending token and the
/// token kinds that would have been accepted there.
type Fail = (usize, Vec<TokKind>);

fn p_params1(ts: &Vec<(Token, Span)>, i: usize) -> (r: Option<(Vec<Vec<u8>>, usize)>)
    requires
        i <= ts@.len(),
    ensures
        ({
            let m = sp_params1(toks_of(ts@), i as int);
            match r {
                Option::Some(p) => m == Option::Some((p.0.deep_view(), p.1 as int)) && i + 2 <= p.1
                    <= ts@.len(),
                Option::None => m is None,
            }
        }),
    decreases ts@.len() - i,
{
    let n = ts.len();
    if i >= n {
        return Option::None;
    }
    match tok_at(ts, i) {
        Token::Ident(nm) => {
            let name = copy_bytes(nm);
            let ghost namev = name@;
            proof {
                lemma_bytes_deep_view(name);
            }
            if i + 1 < n && matches!(tok_at(ts, i + 1), Token::Comma) {
                match p_params1(ts, i + 2) {
                    Option::None => Option::None,
                    Option::Some((ps, j)) => {
                        let ghost ps0 = ps.deep_view();
                        let mut v = ps;
                        v.insert(0, name);
                        proof {
                            assert(v.deep_view() =~~= seq![namev] + ps0);
                        }
                        Option::Some((v, j))
                    },
                }
            } else if i + 1 < n && matches!(tok_at(ts, i + 1), Token::Rparen) && i + 2 < n
                && matches!(tok_at(ts, i + 2), Token::Lambda) {
                let mut v: Vec<Vec<u8>> = Vec::new();
                v.push(name);
                proof {
                    assert(v.deep_view() =~~= seq![namev]);
                }
                Option::Some((v, i + 3))
            } else {
                Option::None
            }
        },
        _ => Option::None,
    }
}

fn p_params(ts: &Vec<(Token, Span)>, i: usize) -> (r: Option<(Vec<Vec<u8>>, usize)>)
    requires
        i <= ts@.len(),
    ensures
        ({
            let m = sp_params(toks_of(ts@), i as int);
            match r {
                Option::Some(p) => m == Option::Some((p.0.deep_view(), p.1 as int)) && i + 2 <= p.1
                    <= ts@.len(),
                Option::None => m is None,
            }
        }),
{
    let n = ts.len();
    if n - i >= 2 && matches!(tok_at(ts, i), Token::Rparen) && matches!(
        tok_at(ts, i + 1),
        Token::Lambda,
    ) {
        let v: Vec<Vec<u8>> = Vec::new();
        proof {
            assert(v.deep_view() =~~= Seq::<Seq<u8>>::empty());
        }
        Option::Some((v, i + 2))
    } else {
        p_params1(ts, i)
    }
}

fn p_postfix(ts: &Vec<(Token, Span)>, acc: Expr, i: usize) -> (r: Result<(Expr, usize), Fail>)
    requires
        i <= ts@.len(),
    ensures
        ({
            let m = sp_postfix(toks_of(ts@), acc@, i as int);
            match r {
                Result::Ok(p) => m == Result::Ok::<(ExprM, int), int>((p.0@, p.1 as int)) && i
                    <= p.1 <= ts@.len(),
                Result::Err(e) => m == Result::Err::<(ExprM, int), int>(e.0 as int) && e.0
                    <= ts@.len() && e.1@.len() > 0,
            }
        }),
    decreases ts@.len() - i,
{
    let n = ts.len();
    if i < n {
        let is_assign = matches!(tok_at(ts, i), Token::Assign);
        let is_mutate = matches!(tok_at(ts, i), Token::Mutate);
        if is_assign || is_mutate {
            if i + 1 < n {
                match tok_at(ts, i + 1) {
                    Token::Ident(nm) => {
                        let name = copy_bytes(nm);
                        let acc2 = if is_assign {
                            Expr::Assign(Box::new(acc), name)
                        } else {
                            Expr::Mutate(Box::new(acc), name)
                        };
                        return p_postfix(ts, acc2, i + 2);
                    },
                    _ => {
                        return Result::Err((i + 1, vec![TokKind::Ident]));
                    },
                }
            }
            return Result::Err((i + 1, vec![TokKind::Ident]));
        }
    }
    Result::Ok((acc, i))
}

fn p_elem(ts: &Vec<(Token, Span)>, i: usize) -> (r: Result<(Expr, usize), Fail>)
    requires
        i <= ts@.len(),
    ensures
        ({
            let m = sp_elem(toks_of(ts@), i as int);
            match r {
                Result::Ok(p) => m == Result::Ok::<(ExprM, int), int>((p.0@, p.1 as int)) && i
                    < p.1 <= ts@.len(),
                Result::Err(e) => m == Result::Err::<(ExprM, int), int>(e.0 as int) && e.0
                    <= ts@.len() && e.1@.len() > 0,
            }
        }),
    decreases ts@.len() - i, 4int,
{
    let n = ts.len();
    if i < n {
        match tok_at(ts, i) {
            Token::Number(t) => {
                return Result::Ok((Expr::Number(copy_bytes(t)), i + 1));
            },
            Token::String(t) => {
                return Result::Ok((Expr::String(copy_bytes(t)), i + 1));
            },
            _ => {
            },
        }
    }
    p_expr(ts, i)
}

fn p_elems_rest(ts: &Vec<(Token, Span)>, acc: Vec<Expr>, i: usize) -> (r: Result<
    (Vec<Expr>, usize),
    Fail,
>)
    requires
        i <= ts@.len(),
    ensures
        ({
            let m = sp_elems_rest(toks_of(ts@), exprs_vec_view(acc), i as int);
            match r {
                Result::Ok(p) => m == Result::Ok::<(Seq<ExprM>, int), int>(
                    (exprs_vec_view(p.0), p.1 as int),
                ) && i < p.1 <= ts@.len(),
                Result::Err(e) => m == Result::Err::<(Seq<ExprM>, int), int>(e.0 as int) && e.0
                    <= ts@.len() && e.1@.len() > 0,
            }
        }),
    decreases ts@.len() - i, 0int,
{
    let n = ts.len();
    if i < n && matches!(tok_at(ts, i), Token::Rparen) {
        Result::Ok((acc, i + 1))
    } else if i < n && matches!(tok_at(ts, i), Token::Comma) {
        match p_elem(ts, i + 1) {
            Result::Err(e) => Result::Err(e),
            Result::Ok((e1, j)) => {
                let ghost acc0 = exprs_vec_view(acc);
                let ghost e1v = e1@;
                let mut acc2 = acc;
                acc2.push(e1);
                proof {
                    assert(exprs_vec_view(acc2) =~= acc0.push(e1v));
                }
                p_elems_rest(ts, acc2, j)
            },
        }
    } else {
        Result::Err((i, vec![TokKind::Comma, TokKind::Rparen]))
    }
}

fn p_tuple(ts: &Vec<(Token, Span)>, i: usize) -> (r: Result<(Expr, usize), Fail>)
    requires
        i <= ts@.len(),
    ensures
        ({
            let m = sp_tuple(toks_of(ts@), i as int);
            match r {
                Result::Ok(p) => m == Result::Ok::<(ExprM, int), int>((p.0@, p.1 as int)) && i
                    < p.1 <= ts@.len(),
                Result::Err(e) => m == Result::Err::<(ExprM, int), int>(e.0 as int) && e.0
                    <= ts@.len() && e.1@.len() > 0,
            }
        }),
    decreases ts@.len() - i, 1int,
{
    let n = ts.len();
    if i >= n {
        return Result::Err((i, vec![TokKind::Lparen]));
    }
    if n - i >= 2 && matches!(tok_at(ts, i + 1), Token::Rparen) {
        let es: Vec<Expr> = Vec::new();
        let t = Expr::Tuple(es);
        proof {
            assert(t@ == ExprM::Tuple(Seq::<ExprM>::empty())) by {
                assert(exprs_vec_view(t->Tuple_0) =~= Seq::<ExprM>::empty());
            }
        }
        Result::Ok((t, i + 2))
    } else {
        match p_elem(ts, i + 1) {
            Result::Err(e) => Result::Err(e),
            Result::Ok((e0, j)) => {
                let ghost e0v = e0@;
                let mut es: Vec<Expr> = Vec::new();
                es.push(e0);
                proof {
                    assert(exprs_vec_view(es) =~= seq![e0v]);
                }
                match p_elems_rest(ts, es, j) {
                    Result::Err(e) => Result::Err(e),
                    Result::Ok((es2, k)) => {
                        let t = Expr::Tuple(es2);
                        Result::Ok((t, k))
                    },
                }
            },
        }
    }
}

fn p_unit(ts: &Vec<(Token, Span)>, i: usize) -> (r: Result<(Expr, usize), Fail>)
    requires
        i <= ts@.len(),
    ensures
        ({
            let m = sp_unit(toks_of(ts@), i as int);
            match r {
                Result::Ok(p) => m == Result::Ok::<(ExprM, int), int>((p.0@, p.1 as int)) && i
                    < p.1 <= ts@.len(),
                Result::Err(e) => m == Result::Err::<(ExprM, int), int>(e.0 as int) && e.0
                    <= ts@.len() && e.1@.len() > 0,
            }
        }),
    decreases ts@.len() - i, 2int,
{
    let n = ts.len();
    if i < n && matches!(tok_at(ts, i), Token::Lparen) {
        match p_params(ts, i + 1) {
            Option::Some((ps, j)) => {
                match p_expr(ts, j) {
                    Result::Err(e) => Result::Err(e),
                    Result::Ok((body, k)) => Result::Ok(
                        (Expr::Lambda(ps, Box::new(body)), k),
                    ),
                }
            },
            Option::None => {
                match p_tuple(ts, i) {
                    Result::Err(e) => Result::Err(e),
                    Result::Ok((t, j)) => p_postfix(ts, t, j),
                }
            },
        }
    } else if i < n && matches!(tok_at(ts, i), Token::Ident(_)) {
        let name = match tok_at(ts, i) {
            Token::Ident(nm) => copy_bytes(nm),
            _ => Vec::new(),
        };
        p_postfix(ts, Expr::Ident(name), i + 1)
    } else {
        Result::Err((i, vec![TokKind::Ident, TokKind::Lparen]))
    }
}

fn p_pipe_rest(ts: &Vec<(Token, Span)>, acc: Expr, i: usize) -> (r: Result<(Expr, usize), Fail>)
    requires
        i <= ts@.len(),
    ensures
        ({
            let m = sp_pipe_rest(toks_of(ts@), acc@, i as int);
            match r {
                Result::Ok(p) => m == Result::Ok::<(ExprM, int), int>((p.0@, p.1 as int)) && i
                    <= p.1 <= ts@.len(),
                Result::Err(e) => m == Result::Err::<(ExprM, int), int>(e.0 as int) && e.0
                    <= ts@.len() && e.1@.len() > 0,
            }
        }),
    decreases ts@.len() - i, 0int,
{
    let n = ts.len();
    if i < n && matches!(tok_at(ts, i), Token::Pipeline) {
        match p_unit(ts, i + 1) {
            Result::Err(e) => Result::Err(e),
            Result::Ok((rhs, j)) => p_pipe_rest(
                ts,
                Expr::Pipeline(Box::new(acc), Box::new(rhs)),
                j,
            ),
        }
    } else {
        Result::Ok((acc, i))
    }
}

fn p_expr(ts: &Vec<(Token, Span)>, i: usize) -> (r: Result<(Expr, usize), Fail>)
    requires
        i <= ts@.len(),
    ensures
        ({
            let m = sp_expr(toks_of(ts@), i as int);
            match r {
                Result::Ok(p) => m == Result::Ok::<(ExprM, int), int>((p.0@, p.1 as int)) && i
                    < p.1 <= ts@.len(),
                Result::Err(e) => m == Result::Err::<(ExprM, int), int>(e.0 as int) && e.0
                    <= ts@.len() && e.1@.len() > 0,
            }
        }),
    decreases ts@.len() - i, 3int,
{
    match p_unit(ts, i) {
        Result::Err(e) => Result::Err(e),
        Result::Ok((e0, j)) => p_pipe_rest(ts, e0, j),
    }
}

/// Parse a whole token sequence into one expression. `eof` is the byte
/// length of the source, used as the (empty) span of an error past the
/// last token. On success the tree is exactly `spec_parse` of the token
/// models; on failure the error's span is the offending token's (or the
/// empty span at `eof`) and at least one accepted token kind is reported.
pub fn parser(ts: &Vec<(Token, Span)>, eof: usize) -> (r: Result<Expr, ParseError>)
    ensures
        ({
            let m = spec_parse(toks_of(ts@));
            match r {
                Result::Ok(e) => m == Result::Ok::<ExprM, int>(e@),
                Result::Err(pe) => match m {
                    Result::Ok(_) => false,
                    Result::Err(k) => {
                        &&& 0 <= k <= ts@.len()
                        &&& k < ts@.len() ==> pe.span == ts@[k].1
                        &&& k == ts@.len() ==> pe.span == (Span { start: eof, end: eof })
                        &&& pe.expected@.len() > 0
                    },
                },
            }
        }),
{
    let n = ts.len();
    match p_expr(ts, 0) {
        Result::Ok((e, j)) => {
            if j == n {
                Result::Ok(e)
            } else {
                let span = vstd::slice::slice_index_get(ts.as_slice(), j).1;
                Result::Err(
                    ParseError {
                        span,
                        expected: vec![TokKind::Pipeline, TokKind::Assign, TokKind::Mutate],
                    },
                )
            }
        },
        Result::Err((at, expected)) => {
            let span = if at < n {
                vstd::slice::slice_index_get(ts.as_slice(), at).1
            } else {
                Span { start: eof, end: eof }
            };
            Result::Err(ParseError { span, expected })
        },
    }
}

} // verus!
