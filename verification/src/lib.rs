//! Front end of a small pipeline-oriented expression language: a tokenizer
//! and an expression parser that turn source text into a syntax tree, with
//! span-accurate diagnostics on malformed input.
//!
//! [`parse`] runs the lexer, and — only when lexing reported no error —
//! the parser; a tree is returned only when both stages are clean. Each
//! problem found is described by a [`Diagnostic`] for the caller's
//! rendering layer.

use vstd::prelude::*;

pub mod lexer;
pub mod parser;

pub use lexer::LexError;
pub use lexer::Span;
pub use lexer::Token;
pub use parser::Expr;
pub use parser::ParseError;
pub use parser::TokKind;

verus! {

broadcast use vstd::seq::group_seq_axioms;

/// What a diagnostic reports: a byte no token can start at, or a token
/// sequence no grammar production accepts.
#[derive(Debug, Clone, Copy, PartialEq, Eq, Structural)]
pub enum DiagKind {
    Lex,
    Parse,
}

/// One diagnostic record for the rendering layer: the byte span of the
/// problem, its kind, and — for a parse error — the token kinds that
/// would have been accepted at that point.
#[derive(Debug, Clone, PartialEq, Eq)]
pub struct Diagnostic {
    pub span: Span,
    pub kind: DiagKind,
    pub expected: Vec<TokKind>,
}

/// The models of the tokens the lexer yields on `s`, without their spans;
/// the parse result depends on these alone.
pub open spec fn lex_toks(s: Seq<u8>) -> Seq<lexer::TokM> {
    crate::lexer::toks_models(crate::lexer::spec_lex_from(s, 0).0)
}

/// Lexing is idempotent through display: rebuild source text from the
/// tokens lexed out of any input (each token's display form, single
/// spaces between) and lex it again, and exactly the same tokens come
/// back with no error; parsing the relexed tokens therefore gives the
/// same result as parsing the original ones.
pub proof fn lemma_relex_reparse(s: Seq<u8>)
    ensures
        lex_toks(crate::lexer::render_tokens(lex_toks(s))) == lex_toks(s),
        crate::lexer::spec_lex_from(crate::lexer::render_tokens(lex_toks(s)), 0).1 == Seq::<
            int,
        >::empty(),
        crate::parser::spec_parse(lex_toks(crate::lexer::render_tokens(lex_toks(s))))
            == crate::parser::spec_parse(lex_toks(s)),
{
    crate::lexer::lemma_lex_wf(s, 0);
    let ms = lex_toks(s);
    assert forall|k: int| 0 <= k < ms.len() implies crate::lexer::tok_wf(#[trigger] ms[k]) by {
        assert(ms[k] == crate::lexer::spec_lex_from(s, 0).0[k].0);
    }
    crate::lexer::lemma_display_round_trip(ms);
}

/// Turn source text into a syntax tree: run the lexer; only if it reports
/// no error, run the parser. A tree comes back exactly when both stages
/// are clean; otherwise one diagnostic per lexical error, or the one
/// parse error, in source order.
pub fn parse(src: &[u8]) -> (r: (Option<Expr>, Vec<Diagnostic>))
    ensures
        ({
            let mtoks = crate::lexer::spec_lex_from(src@, 0).0;
            let merrs = crate::lexer::spec_lex_from(src@, 0).1;
            &&& merrs.len() > 0 ==> {
                &&& r.0 is None
                &&& r.1@.len() == merrs.len()
                &&& forall|k: int|
                    0 <= k < merrs.len() ==> {
                        &&& (#[trigger] r.1@[k]).kind is Lex
                        &&& r.1@[k].span.start == merrs[k]
                        &&& r.1@[k].span.end == merrs[k] + 1
                        &&& r.1@[k].expected@.len() == 0
                    }
            }
            &&& merrs.len() == 0 ==> match crate::parser::spec_parse(lex_toks(src@)) {
                Result::Ok(e) => r.0 is Some && r.0.unwrap()@ == e && r.1@.len() == 0,
                Result::Err(k) => {
                    &&& r.0 is None
                    &&& r.1@.len() == 1
                    &&& r.1@[0].kind is Parse
                    &&& r.1@[0].expected@.len() > 0
                    &&& 0 <= k <= mtoks.len()
                    &&& k < mtoks.len() ==> r.1@[0].span.start == mtoks[k].1.0 && r.1@[0].span.end
                        == mtoks[k].1.1
                    &&& k == mtoks.len() ==> r.1@[0].span.start == src@.len() && r.1@[0].span.end
                        == src@.len()
                },
            }
        }),
{
    let (toks, lerrs) = crate::lexer::lexer(src);
    proof {
        crate::lexer::lemma_lex_bounds(src@, 0);
    }
    if lerrs.len() > 0 {
        let ghost merrs = crate::lexer::spec_lex_from(src@, 0).1;
        let mut diags: Vec<Diagnostic> = Vec::new();
        let mut k: usize = 0;
        while k < lerrs.len()
            invariant
                k <= lerrs@.len(),
                crate::lexer::errs_view(lerrs@) == merrs,
                crate::lexer::lex_in_bounds_from(src@, 0),
                merrs == crate::lexer::spec_lex_from(src@, 0).1,
                diags@.len() == k,
                forall|t: int|
                    0 <= t < k ==> {
                        &&& (#[trigger] diags@[t]).kind is Lex
                        &&& diags@[t].span.start == merrs[t]
                        &&& diags@[t].span.end == merrs[t] + 1
                        &&& diags@[t].expected@.len() == 0
                    },
            decreases lerrs@.len() - k,
        {
            let n = src.len();
            let e = *vstd::slice::slice_index_get(lerrs.as_slice(), k);
            proof {
                assert(merrs[k as int] == lerrs@[k as int].pos as int);
                assert(e.pos < n);
            }
            diags.push(
                Diagnostic {
                    span: Span { start: e.pos, end: e.pos + 1 },
                    kind: DiagKind::Lex,
                    expected: Vec::new(),
                },
            );
            k = k + 1;
        }
        (Option::None, diags)
    } else {
        proof {
            assert(crate::lexer::spec_lex_from(src@, 0).1 =~= Seq::<int>::empty());
            assert(crate::parser::toks_of(toks@) =~= lex_toks(src@));
        }
        match crate::parser::parser(&toks, src.len()) {
            Result::Ok(e) => (Option::Some(e), Vec::new()),
            Result::Err(pe) => {
                let mut diags: Vec<Diagnostic> = Vec::new();
                diags.push(Diagnostic { span: pe.span, kind: DiagKind::Parse, expected: pe.expected });
                (Option::None, diags)
            },
        }
    }
}

} // verus!
