//! The lexer: turns raw source bytes into a sequence of spanned tokens,
//! skipping whitespace and `--` line comments, and recovering from bytes
//! that cannot begin any token by skipping them one at a time.
//!
//! Tokens are matched by maximal munch, symbols before identifiers:
//! numbers (digits, optionally `.` and more digits), strings (`"` up to the
//! next `"`, no escapes), the symbols `->>`, `->`, `=>`, `|>`, `(`, `)`, `,`,
//! and identifiers. An identifier is any maximal run of bytes that are not
//! whitespace, not a quote, not the start of a symbol and not the start of a
//! comment; its first byte may not be a digit. The only byte that can fail
//! to begin a token is a `"` with no closing quote in the rest of the input.

use vstd::prelude::*;

verus! {

/// Half-open byte range into the source text.
#[derive(Debug, Clone, Copy, PartialEq, Eq, Structural)]
pub struct Span {
    pub start: usize,
    pub end: usize,
}

/// One lexical token. Textual payloads hold the raw source bytes; for
/// `String` they are the bytes between the two quotes.
///
/// A number's payload is kept as written (e.g. `12.5`) rather than as a
/// machine float, so the exact source rendering is preserved.
#[derive(Debug, Clone, PartialEq, Eq)]
pub enum Token {
    Number(Vec<u8>),
    String(Vec<u8>),
    Ident(Vec<u8>),
    Lparen,
    Rparen,
    Comma,
    Pipeline,
    Assign,
    Mutate,
    Lambda,
}

/// Mathematical model of a token: payloads as byte sequences.
pub enum TokM {
    Number(Seq<u8>),
    String(Seq<u8>),
    Ident(Seq<u8>),
    Lparen,
    Rparen,
    Comma,
    Pipeline,
    Assign,
    Mutate,
    Lambda,
}

impl View for Token {
    type V = TokM;

    open spec fn view(&self) -> TokM {
        match self {
            Token::Number(t) => TokM::Number(t@),
            Token::String(t) => TokM::String(t@),
            Token::Ident(t) => TokM::Ident(t@),
            Token::Lparen => TokM::Lparen,
            Token::Rparen => TokM::Rparen,
            Token::Comma => TokM::Comma,
            Token::Pipeline => TokM::Pipeline,
            Token::Assign => TokM::Assign,
            Token::Mutate => TokM::Mutate,
            Token::Lambda => TokM::Lambda,
        }
    }
}

/// A lexical error: no token can start at byte `pos`; the byte is skipped
/// and lexing resumes at the next one.
#[derive(Debug, Clone, Copy, PartialEq, Eq, Structural)]
pub struct LexError {
    pub pos: usize,
}

/// Whitespace: space, tab, line feed, carriage return.
pub open spec fn is_ws(b: u8) -> bool {
    b == 32 || b == 9 || b == 10 || b == 13
}

/// An ASCII decimal digit.
pub open spec fn is_digit(b: u8) -> bool {
    48 <= b && b <= 57
}

/// The symbol token starting at byte `i`, if any, with its length.
/// Longer symbols are matched first, so `->>` wins over `->`.
pub open spec fn symbol_at(s: Seq<u8>, i: int) -> Option<(TokM, int)> {
    if i + 3 <= s.len() && s[i] == 45 && s[i + 1] == 62 && s[i + 2] == 62 {
        Some((TokM::Mutate, 3))
    } else if i + 2 <= s.len() && s[i] == 45 && s[i + 1] == 62 {
        Some((TokM::Assign, 2))
    } else if i + 2 <= s.len() && s[i] == 61 && s[i + 1] == 62 {
        Some((TokM::Lambda, 2))
    } else if i + 2 <= s.len() && s[i] == 124 && s[i + 1] == 62 {
        Some((TokM::Pipeline, 2))
    } else if i < s.len() && s[i] == 40 {
        Some((TokM::Lparen, 1))
    } else if i < s.len() && s[i] == 41 {
        Some((TokM::Rparen, 1))
    } else if i < s.len() && s[i] == 44 {
        Some((TokM::Comma, 1))
    } else {
        None
    }
}

/// A `--` comment introducer starts at byte `i`.
pub open spec fn comment_at(s: Seq<u8>, i: int) -> bool {
    i + 2 <= s.len() && s[i] == 45 && s[i + 1] == 45
}

/// Byte `i` may stand inside an identifier: not whitespace, not a quote,
/// not the start of a symbol, not the start of a comment. Digits are
/// excluded only from an identifier's first byte, by the token rules.
pub open spec fn ident_byte_at(s: Seq<u8>, i: int) -> bool {
    0 <= i && i < s.len() && !is_ws(s[i]) && s[i] != 34 && !comment_at(s, i) && symbol_at(s, i)
        is None
}

/// First position at or after `i` that is not a digit (or the end).
pub open spec fn digits_end(s: Seq<u8>, i: int) -> int
    decreases s.len() - i,
{
    if i < 0 || i >= s.len() {
        i
    } else if !is_digit(s[i]) {
        i
    } else {
        digits_end(s, i + 1)
    }
}

/// First position at or after `i` holding a line feed (or the end).
pub open spec fn line_end(s: Seq<u8>, i: int) -> int
    decreases s.len() - i,
{
    if i < 0 || i >= s.len() {
        i
    } else if s[i] == 10 {
        i
    } else {
        line_end(s, i + 1)
    }
}

/// First position at or after `i` holding a quote (or the end).
pub open spec fn quote_end(s: Seq<u8>, i: int) -> int
    decreases s.len() - i,
{
    if i < 0 || i >= s.len() {
        i
    } else if s[i] == 34 {
        i
    } else {
        quote_end(s, i + 1)
    }
}

/// First position at or after `i` that cannot stand inside an identifier.
pub open spec fn ident_end(s: Seq<u8>, i: int) -> int
    decreases s.len() - i,
{
    if i < 0 || i >= s.len() {
        i
    } else if !ident_byte_at(s, i) {
        i
    } else {
        ident_end(s, i + 1)
    }
}

/// End of the number token starting at digit position `i`: a digit run,
/// then optionally a dot and a second digit run, taken only when a digit
/// follows the dot.
pub open spec fn number_end(s: Seq<u8>, i: int) -> int {
    let j = digits_end(s, i);
    if j < s.len() && s[j] == 46 && j + 1 < s.len() && is_digit(s[j + 1]) {
        digits_end(s, j + 1)
    } else {
        j
    }
}

pub proof fn lemma_digits_end(s: Seq<u8>, i: int)
    requires
        0 <= i <= s.len(),
    ensures
        i <= digits_end(s, i) <= s.len(),
        forall|k: int| i <= k < digits_end(s, i) ==> is_digit(s[k]),
        digits_end(s, i) < s.len() ==> !is_digit(s[digits_end(s, i)]),
    decreases s.len() - i,
{
    if i < s.len() && is_digit(s[i]) {
        lemma_digits_end(s, i + 1);
    }
}

pub proof fn lemma_line_end(s: Seq<u8>, i: int)
    requires
        0 <= i <= s.len(),
    ensures
        i <= line_end(s, i) <= s.len(),
        forall|k: int| i <= k < line_end(s, i) ==> s[k] != 10,
        line_end(s, i) < s.len() ==> s[line_end(s, i)] == 10,
    decreases s.len() - i,
{
    if i < s.len() && s[i] != 10 {
        lemma_line_end(s, i + 1);
    }
}

pub proof fn lemma_quote_end(s: Seq<u8>, i: int)
    requires
        0 <= i <= s.len(),
    ensures
        i <= quote_end(s, i) <= s.len(),
        forall|k: int| i <= k < quote_end(s, i) ==> s[k] != 34,
        quote_end(s, i) < s.len() ==> s[quote_end(s, i)] == 34,
    decreases s.len() - i,
{
    if i < s.len() && s[i] != 34 {
        lemma_quote_end(s, i + 1);
    }
}

pub proof fn lemma_ident_end(s: Seq<u8>, i: int)
    requires
        0 <= i <= s.len(),
    ensures
        i <= ident_end(s, i) <= s.len(),
        forall|k: int| i <= k < ident_end(s, i) ==> ident_byte_at(s, k),
        ident_end(s, i) < s.len() ==> !ident_byte_at(s, ident_end(s, i)),
    decreases s.len() - i,
{
    if i < s.len() && ident_byte_at(s, i) {
        lemma_ident_end(s, i + 1);
    }
}

pub proof fn lemma_number_end(s: Seq<u8>, i: int)
    requires
        0 <= i <= s.len(),
        i < s.len() ==> is_digit(s[i]),
    ensures
        i <= number_end(s, i) <= s.len(),
        i < s.len() ==> i < number_end(s, i),
{
    lemma_digits_end(s, i);
    let j = digits_end(s, i);
    if j < s.len() && s[j] == 46 && j + 1 < s.len() && is_digit(s[j + 1]) {
        lemma_digits_end(s, j + 1);
    }
}

/// One lexing pass from byte `i`: the tokens with their spans, and the
/// positions of the bytes no token can start at. This is the reference
/// semantics of the lexer: whitespace and comments are skipped silently,
/// then the token cases are tried in order (number, string, symbol,
/// identifier); a quote with no closing quote is a lexical error and is
/// skipped.
pub open spec fn spec_lex_from(s: Seq<u8>, i: int) -> (Seq<(TokM, (int, int))>, Seq<int>)
    decreases s.len() - i,
    via spec_lex_from_decreases
{
    if i < 0 || i >= s.len() {
        (Seq::empty(), Seq::empty())
    } else if is_ws(s[i]) {
        spec_lex_from(s, i + 1)
    } else if comment_at(s, i) {
        spec_lex_from(s, line_end(s, i))
    } else if is_digit(s[i]) {
        let j = number_end(s, i);
        let rest = spec_lex_from(s, j);
        (seq![(TokM::Number(s.subrange(i, j)), (i, j))] + rest.0, rest.1)
    } else if s[i] == 34 {
        let q = quote_end(s, i + 1);
        if q < s.len() {
            let rest = spec_lex_from(s, q + 1);
            (seq![(TokM::String(s.subrange(i + 1, q)), (i, q + 1))] + rest.0, rest.1)
        } else {
            let rest = spec_lex_from(s, i + 1);
            (rest.0, seq![i] + rest.1)
        }
    } else if symbol_at(s, i) is Some {
        let (t, l) = symbol_at(s, i).unwrap();
        let rest = spec_lex_from(s, i + l);
        (seq![(t, (i, i + l))] + rest.0, rest.1)
    } else {
        let j = ident_end(s, i + 1);
        let rest = spec_lex_from(s, j);
        (seq![(TokM::Ident(s.subrange(i, j)), (i, j))] + rest.0, rest.1)
    }
}

#[via_fn]
proof fn spec_lex_from_decreases(s: Seq<u8>, i: int) {
    if 0 <= i && i < s.len() {
        if is_ws(s[i]) {
        } else if comment_at(s, i) {
            lemma_line_end(s, i);
        } else if is_digit(s[i]) {
            lemma_number_end(s, i);
        } else if s[i] == 34 {
            lemma_quote_end(s, i + 1);
        } else if symbol_at(s, i) is Some {
        } else {
            lemma_ident_end(s, i + 1);
        }
    }
}

/// Model of one produced token: its payload model and its span as a pair.
pub open spec fn tok_view(p: (Token, Span)) -> (TokM, (int, int)) {
    (p.0@, (p.1.start as int, p.1.end as int))
}

pub open spec fn toks_view(v: Seq<(Token, Span)>) -> Seq<(TokM, (int, int))> {
    v.map_values(|p: (Token, Span)| tok_view(p))
}

pub open spec fn errs_view(v: Seq<LexError>) -> Seq<int> {
    v.map_values(|e: LexError| e.pos as int)
}

fn scan_digits(src: &[u8], from: usize) -> (j: usize)
    requires
        from <= src@.len(),
    ensures
        j == digits_end(src@, from as int),
        from <= j <= src@.len(),
{
    let n = src.len();
    let mut j = from;
    loop
        invariant
            from <= j <= n,
            n == src@.len(),
            digits_end(src@, from as int) == digits_end(src@, j as int),
        ensures
            j == digits_end(src@, from as int),
        decreases n - j,
    {
        if j == n {
            break ;
        }
        let b = *vstd::slice::slice_index_get(src, j);
        if !(48 <= b && b <= 57) {
            break ;
        }
        j = j + 1;
    }
    j
}

fn scan_line(src: &[u8], from: usize) -> (j: usize)
    requires
        from <= src@.len(),
    ensures
        j == line_end(src@, from as int),
        from <= j <= src@.len(),
{
    let n = src.len();
    let mut j = from;
    loop
        invariant
            from <= j <= n,
            n == src@.len(),
            line_end(src@, from as int) == line_end(src@, j as int),
        ensures
            j == line_end(src@, from as int),
        decreases n - j,
    {
        if j == n {
            break ;
        }
        let b = *vstd::slice::slice_index_get(src, j);
        if b == 10 {
            break ;
        }
        j = j + 1;
    }
    j
}

fn scan_quote(src: &[u8], from: usize) -> (j: usize)
    requires
        from <= src@.len(),
    ensures
        j == quote_end(src@, from as int),
        from <= j <= src@.len(),
{
    let n = src.len();
    let mut j = from;
    loop
        invariant
            from <= j <= n,
            n == src@.len(),
            quote_end(src@, from as int) == quote_end(src@, j as int),
        ensures
            j == quote_end(src@, from as int),
        decreases n - j,
    {
        if j == n {
            break ;
        }
        let b = *vstd::slice::slice_index_get(src, j);
        if b == 34 {
            break ;
        }
        j = j + 1;
    }
    j
}

/// The symbol token starting at byte `i`, if any, with its length.
fn match_symbol(src: &[u8], i: usize) -> (r: Option<(Token, usize)>)
    requires
        i <= src@.len(),
    ensures
        match r {
            Some(p) => symbol_at(src@, i as int) == Some((p.0@, p.1 as int)) && 1 <= p.1 && i + p.1
                <= src@.len(),
            None => symbol_at(src@, i as int) is None,
        },
{
    let n = src.len();
    if n - i >= 3 && *vstd::slice::slice_index_get(src, i) == 45 && *vstd::slice::slice_index_get(
        src,
        i + 1,
    ) == 62 && *vstd::slice::slice_index_get(src, i + 2) == 62 {
        Some((Token::Mutate, 3))
    } else if n - i >= 2 && *vstd::slice::slice_index_get(src, i) == 45
        && *vstd::slice::slice_index_get(src, i + 1) == 62 {
        Some((Token::Assign, 2))
    } else if n - i >= 2 && *vstd::slice::slice_index_get(src, i) == 61
        && *vstd::slice::slice_index_get(src, i + 1) == 62 {
        Some((Token::Lambda, 2))
    } else if n - i >= 2 && *vstd::slice::slice_index_get(src, i) == 124
        && *vstd::slice::slice_index_get(src, i + 1) == 62 {
        Some((Token::Pipeline, 2))
    } else if n - i >= 1 && *vstd::slice::slice_index_get(src, i) == 40 {
        Some((Token::Lparen, 1))
    } else if n - i >= 1 && *vstd::slice::slice_index_get(src, i) == 41 {
        Some((Token::Rparen, 1))
    } else if n - i >= 1 && *vstd::slice::slice_index_get(src, i) == 44 {
        Some((Token::Comma, 1))
    } else {
        None
    }
}

fn scan_ident(src: &[u8], from: usize) -> (j: usize)
    requires
        from <= src@.len(),
    ensures
        j == ident_end(src@, from as int),
        from <= j <= src@.len(),
{
    let n = src.len();
    let mut j = from;
    loop
        invariant
            from <= j <= n,
            n == src@.len(),
            ident_end(src@, from as int) == ident_end(src@, j as int),
        ensures
            j == ident_end(src@, from as int),
        decreases n - j,
    {
        if j == n {
            break ;
        }
        let b = *vstd::slice::slice_index_get(src, j);
        if b == 32 || b == 9 || b == 10 || b == 13 || b == 34 {
            break ;
        }
        if b == 45 && j + 1 < n && *vstd::slice::slice_index_get(src, j + 1) == 45 {
            break ;
        }
        if match_symbol(src, j).is_some() {
            break ;
        }
        j = j + 1;
    }
    j
}

/// Tokenize the whole input. Returns the tokens in source order, each with
/// its span, together with every lexical error met along the way; the
/// output is exactly the reference semantics `spec_lex_from` of the input.
pub fn lexer(src: &[u8]) -> (r: (Vec<(Token, Span)>, Vec<LexError>))
    ensures
        toks_view(r.0@) == spec_lex_from(src@, 0).0,
        errs_view(r.1@) == spec_lex_from(src@, 0).1,
{
    let n = src.len();
    let mut toks: Vec<(Token, Span)> = Vec::new();
    let mut errs: Vec<LexError> = Vec::new();
    let mut i: usize = 0;
    while i < n
        invariant
            i <= n,
            n == src@.len(),
            spec_lex_from(src@, 0).0 == toks_view(toks@) + spec_lex_from(src@, i as int).0,
            spec_lex_from(src@, 0).1 == errs_view(errs@) + spec_lex_from(src@, i as int).1,
        decreases n - i,
    {
        let ghost prev = i as int;
        let ghost tv0 = toks_view(toks@);
        let ghost ev0 = errs_view(errs@);
        let b = *vstd::slice::slice_index_get(src, i);
        if b == 32 || b == 9 || b == 10 || b == 13 {
            i = i + 1;
        } else if b == 45 && i + 1 < n && *vstd::slice::slice_index_get(src, i + 1) == 45 {
            proof {
                lemma_line_end(src@, i as int);
            }
            i = scan_line(src, i);
        } else if 48 <= b && b <= 57 {
            let j1 = scan_digits(src, i);
            let j = if j1 < n && *vstd::slice::slice_index_get(src, j1) == 46 && j1 + 1 < n
                && 48 <= *vstd::slice::slice_index_get(src, j1 + 1) && *vstd::slice::slice_index_get(
                src,
                j1 + 1,
            ) <= 57 {
                scan_digits(src, j1 + 1)
            } else {
                j1
            };
            proof {
                lemma_number_end(src@, i as int);
                assert(j == number_end(src@, i as int));
            }
            let text = vstd::slice::slice_to_vec(vstd::slice::slice_subrange(src, i, j));
            let p = (Token::Number(text), Span { start: i, end: j });
            push_tok(&mut toks, p);
            proof {
                lemma_push_assoc(tv0, tok_view(p), spec_lex_from(src@, j as int).0);
            }
            i = j;
        } else if b == 34 {
            proof {
                lemma_quote_end(src@, i as int + 1);
            }
            let q = scan_quote(src, i + 1);
            if q < n {
                let text = vstd::slice::slice_to_vec(vstd::slice::slice_subrange(src, i + 1, q));
                let p = (Token::String(text), Span { start: i, end: q + 1 });
                push_tok(&mut toks, p);
                proof {
                    lemma_push_assoc(tv0, tok_view(p), spec_lex_from(src@, q as int + 1).0);
                }
                i = q + 1;
            } else {
                push_err(&mut errs, LexError { pos: i });
                proof {
                    lemma_push_assoc(ev0, prev, spec_lex_from(src@, prev + 1).1);
                }
                i = i + 1;
            }
        } else {
            match match_symbol(src, i) {
                Some((t, l)) => {
                    let p = (t, Span { start: i, end: i + l });
                    push_tok(&mut toks, p);
                    proof {
                        lemma_push_assoc(tv0, tok_view(p), spec_lex_from(src@, prev + l as int).0);
                    }
                    i = i + l;
                },
                None => {
                    proof {
                        lemma_ident_end(src@, i as int + 1);
                    }
                    let j = scan_ident(src, i + 1);
                    let text = vstd::slice::slice_to_vec(vstd::slice::slice_subrange(src, i, j));
                    let p = (Token::Ident(text), Span { start: i, end: j });
                    push_tok(&mut toks, p);
                    proof {
                        lemma_push_assoc(tv0, tok_view(p), spec_lex_from(src@, j as int).0);
                    }
                    i = j;
                },
            }
        }
    }
    proof {
        assert(spec_lex_from(src@, i as int).0 =~= Seq::<(TokM, (int, int))>::empty());
        assert(spec_lex_from(src@, i as int).1 =~= Seq::<int>::empty());
        assert(toks_view(toks@) + spec_lex_from(src@, i as int).0 =~= toks_view(toks@));
        assert(errs_view(errs@) + spec_lex_from(src@, i as int).1 =~= errs_view(errs@));
    }
    (toks, errs)
}

/// Push a token, keeping the running views in step.
fn push_tok(toks: &mut Vec<(Token, Span)>, p: (Token, Span))
    ensures
        final(toks)@ == old(toks)@.push(p),
        toks_view(final(toks)@) == toks_view(old(toks)@) + seq![tok_view(p)],
{
    let ghost before = toks@;
    toks.push(p);
    proof {
        assert(toks_view(toks@) =~= toks_view(before) + seq![tok_view(p)]);
    }
}

/// Push a lexical error, keeping the running views in step.
fn push_err(errs: &mut Vec<LexError>, e: LexError)
    ensures
        final(errs)@ == old(errs)@.push(e),
        errs_view(final(errs)@) == errs_view(old(errs)@) + seq![e.pos as int],
{
    let ghost before = errs@;
    errs.push(e);
    proof {
        assert(errs_view(errs@) =~= errs_view(before) + seq![e.pos as int]);
    }
}

/// Appending one element and then a tail is the same as appending the
/// element-plus-tail: reassociation of sequence concatenation.
proof fn lemma_push_assoc<A>(a: Seq<A>, m: A, r: Seq<A>)
    ensures
        (a + seq![m]) + r == a + (seq![m] + r),
{
    assert((a + seq![m]) + r =~= a + (seq![m] + r));
}

/// A fresh copy of a byte vector.
pub(crate) fn copy_bytes(v: &Vec<u8>) -> (r: Vec<u8>)
    ensures
        r@ == v@,
{
    let mut r: Vec<u8> = Vec::new();
    let mut k: usize = 0;
    while k < v.len()
        invariant
            k <= v@.len(),
            r@ == v@.subrange(0, k as int),
        decreases v@.len() - k,
    {
        r.push(*vstd::slice::slice_index_get(v.as_slice(), k));
        k = k + 1;
    }
    proof {
        assert(v@.subrange(0, v@.len() as int) =~= v@);
    }
    r
}

/// The display form of a token, as source bytes: payloads as written (a
/// string in its quotes), symbols as themselves.
pub open spec fn spec_display(t: TokM) -> Seq<u8> {
    match t {
        TokM::Number(x) => x,
        TokM::String(x) => seq![34u8] + x + seq![34u8],
        TokM::Ident(x) => x,
        TokM::Lparen => seq![40u8],
        TokM::Rparen => seq![41u8],
        TokM::Comma => seq![44u8],
        TokM::Pipeline => seq![124u8, 62u8],
        TokM::Assign => seq![45u8, 62u8],
        TokM::Mutate => seq![45u8, 62u8, 62u8],
        TokM::Lambda => seq![61u8, 62u8],
    }
}

impl Token {
    /// The display form of this token, for diagnostics and debugging.
    pub fn display_bytes(&self) -> (r: Vec<u8>)
        ensures
            r@ == spec_display(self@),
    {
        match self {
            Token::Number(t) => copy_bytes(t),
            Token::String(t) => {
                let mut r: Vec<u8> = Vec::new();
                r.push(34);
                let mut k: usize = 0;
                while k < t.len()
                    invariant
                        k <= t@.len(),
                        r@ == seq![34u8] + t@.subrange(0, k as int),
                    decreases t@.len() - k,
                {
                    r.push(*vstd::slice::slice_index_get(t.as_slice(), k));
                    proof {
                        assert(r@ =~= seq![34u8] + t@.subrange(0, k as int + 1));
                    }
                    k = k + 1;
                }
                r.push(34);
                proof {
                    assert(t@.subrange(0, t@.len() as int) =~= t@);
                    assert(r@ =~= seq![34u8] + t@ + seq![34u8]);
                }
                r
            },
            Token::Ident(t) => copy_bytes(t),
            Token::Lparen => {
                let mut r: Vec<u8> = Vec::new();
                r.push(40);
                proof {
                    assert(r@ =~= seq![40u8]);
                }
                r
            },
            Token::Rparen => {
                let mut r: Vec<u8> = Vec::new();
                r.push(41);
                proof {
                    assert(r@ =~= seq![41u8]);
                }
                r
            },
            Token::Comma => {
                let mut r: Vec<u8> = Vec::new();
                r.push(44);
                proof {
                    assert(r@ =~= seq![44u8]);
                }
                r
            },
            Token::Pipeline => {
                let mut r: Vec<u8> = Vec::new();
                r.push(124);
                r.push(62);
                proof {
                    assert(r@ =~= seq![124u8, 62u8]);
                }
                r
            },
            Token::Assign => {
                let mut r: Vec<u8> = Vec::new();
                r.push(45);
                r.push(62);
                proof {
                    assert(r@ =~= seq![45u8, 62u8]);
                }
                r
            },
            Token::Mutate => {
                let mut r: Vec<u8> = Vec::new();
                r.push(45);
                r.push(62);
                r.push(62);
                proof {
                    assert(r@ =~= seq![45u8, 62u8, 62u8]);
                }
                r
            },
            Token::Lambda => {
                let mut r: Vec<u8> = Vec::new();
                r.push(61);
                r.push(62);
                proof {
                    assert(r@ =~= seq![61u8, 62u8]);
                }
                r
            },
        }
    }
}

/// The positions the lexer reports from `i` lie in `[i, len)`; the spans
/// of the tokens it yields are well-formed. Stated of a remainder so that
/// the induction goes through; `in_bounds_from(s, i, ...)` at `i == 0`
/// covers the whole run.
pub open spec fn lex_in_bounds_from(s: Seq<u8>, i: int) -> bool {
    &&& forall|k: int|
        0 <= k < spec_lex_from(s, i).1.len() ==> i <= #[trigger] spec_lex_from(s, i).1[k] < s.len()
    &&& forall|k: int|
        0 <= k < spec_lex_from(s, i).0.len() ==> i <= (#[trigger] spec_lex_from(s, i).0[k]).1.0
            < spec_lex_from(s, i).0[k].1.1 <= s.len()
}

/// From a well-bounded remainder at `nx`, prepending one token whose span
/// sits between `i` and `nx` keeps the run from `i` well bounded.
proof fn lemma_bounds_tok_cons(s: Seq<u8>, i: int, nx: int, m: (TokM, (int, int)))
    requires
        0 <= i <= m.1.0 < m.1.1 <= s.len(),
        i <= nx <= s.len(),
        spec_lex_from(s, i).0 == seq![m] + spec_lex_from(s, nx).0,
        spec_lex_from(s, i).1 == spec_lex_from(s, nx).1,
        lex_in_bounds_from(s, nx),
    ensures
        lex_in_bounds_from(s, i),
{
    let cur = spec_lex_from(s, i);
    let rest = spec_lex_from(s, nx);
    assert forall|k: int| 0 <= k < cur.0.len() implies i <= (#[trigger] cur.0[k]).1.0
        < cur.0[k].1.1 <= s.len() by {
        if k > 0 {
            assert(cur.0[k] == rest.0[k - 1]);
        }
    }
    assert forall|k: int| 0 <= k < cur.1.len() implies i <= #[trigger] cur.1[k] < s.len() by {
        assert(cur.1[k] == rest.1[k]);
    }
}

/// A digit run from `a` ends exactly at `b`.
proof fn lemma_digits_end_local(s: Seq<u8>, a: int, b: int)
    requires
        0 <= a <= b <= s.len(),
        forall|k: int| a <= k < b ==> is_digit(s[k]),
        b < s.len() ==> !is_digit(s[b]),
    ensures
        digits_end(s, a) == b,
    decreases b - a,
{
    if a < b {
        lemma_digits_end_local(s, a + 1, b);
    }
}

/// An identifier run from `a` ends exactly at `b`.
proof fn lemma_ident_end_local(s: Seq<u8>, a: int, b: int)
    requires
        0 <= a <= b <= s.len(),
        forall|k: int| a <= k < b ==> ident_byte_at(s, k),
        b < s.len() ==> !ident_byte_at(s, b),
    ensures
        ident_end(s, a) == b,
    decreases b - a,
{
    if a < b {
        lemma_ident_end_local(s, a + 1, b);
    }
}

/// The first quote at or after `a` sits exactly at `b`.
proof fn lemma_quote_end_local(s: Seq<u8>, a: int, b: int)
    requires
        0 <= a <= b < s.len(),
        forall|k: int| a <= k < b ==> s[k] != 34,
        s[b] == 34,
    ensures
        quote_end(s, a) == b,
    decreases b - a,
{
    if a < b {
        lemma_quote_end_local(s, a + 1, b);
    }
}

/// A number payload as the lexer writes one: digits, then optionally a
/// dot followed by more digits up to the end.
pub open spec fn num_wf(x: Seq<u8>) -> bool {
    let d = digits_end(x, 0);
    &&& x.len() > 0
    &&& is_digit(x[0])
    &&& (d == x.len() || (d < x.len() && x[d] == 46 && d + 1 < x.len() && digits_end(x, d + 1)
        == x.len()))
}

/// A byte that may stand in an identifier whatever its neighbours are.
pub open spec fn ident_byte_ok(b: u8) -> bool {
    !is_ws(b) && b != 34 && b != 40 && b != 41 && b != 44
}

/// Two adjacent bytes that an identifier cannot hold: they would lex as a
/// symbol or start a comment.
pub open spec fn ident_break_pair(a: u8, b: u8) -> bool {
    (a == 45 && b == 62) || (a == 61 && b == 62) || (a == 124 && b == 62) || (a == 45 && b == 45)
}

/// An identifier payload as the lexer writes one.
pub open spec fn ident_wf(x: Seq<u8>) -> bool {
    &&& x.len() > 0
    &&& !is_digit(x[0])
    &&& forall|k: int| 0 <= k < x.len() ==> ident_byte_ok(#[trigger] x[k])
    &&& forall|k: int| 0 <= k && k + 1 < x.len() ==> !ident_break_pair(#[trigger] x[k], x[k + 1])
}

/// A string payload as the lexer writes one: no quote inside.
pub open spec fn string_wf(x: Seq<u8>) -> bool {
    forall|k: int| 0 <= k < x.len() ==> #[trigger] x[k] != 34
}

/// A token the lexer could have produced.
pub open spec fn tok_wf(t: TokM) -> bool {
    match t {
        TokM::Number(x) => num_wf(x),
        TokM::String(x) => string_wf(x),
        TokM::Ident(x) => ident_wf(x),
        _ => true,
    }
}

/// The source text rebuilt from a token sequence: each token's display
/// form followed by a single space.
pub open spec fn render_tokens(ms: Seq<TokM>) -> Seq<u8>
    decreases ms.len(),
{
    if ms.len() == 0 {
        Seq::empty()
    } else {
        spec_display(ms[0]) + seq![32u8] + render_tokens(ms.drop_first())
    }
}

/// The token models of a lexing run, without the spans.
pub open spec fn toks_models(v: Seq<(TokM, (int, int))>) -> Seq<TokM> {
    v.map_values(|q: (TokM, (int, int))| q.0)
}

/// Lexing a suffix that reads as the rendering of a well-formed token
/// sequence yields exactly those tokens and no error.
proof fn lemma_lex_render_from(s: Seq<u8>, p: int, ms: Seq<TokM>)
    requires
        0 <= p <= s.len(),
        s.len() - p == render_tokens(ms).len(),
        forall|k: int|
            0 <= k < render_tokens(ms).len() ==> s[p + k] == #[trigger] render_tokens(ms)[k],
        forall|k: int| 0 <= k < ms.len() ==> tok_wf(#[trigger] ms[k]),
    ensures
        toks_models(spec_lex_from(s, p).0) == ms,
        spec_lex_from(s, p).1 == Seq::<int>::empty(),
    decreases ms.len(),
{
    let r = render_tokens(ms);
    if ms.len() == 0 {
        assert(p == s.len());
        assert(toks_models(spec_lex_from(s, p).0) =~= ms);
        assert(spec_lex_from(s, p).1 =~= Seq::<int>::empty());
    } else {
        let m0 = ms[0];
        let d = spec_display(m0);
        let dl = d.len() as int;
        let rest = ms.drop_first();
        let restr = render_tokens(rest);
        assert(r == d + seq![32u8] + restr);
        assert(r.len() == dl + 1 + restr.len());
        assert forall|k: int| 0 <= k < dl implies s[p + k] == d[k] by {
            assert(r[k] == d[k]);
        }
        assert(s[p + dl] == 32) by {
            assert(r[dl] == 32);
        }
        assert forall|k: int| 0 <= k < restr.len() implies s[p + dl + 1 + k] == restr[k] by {
            assert(r[dl + 1 + k] == restr[k]);
        }
        assert(tok_wf(ms[0]));
        assert forall|k: int| 0 <= k < rest.len() implies tok_wf(#[trigger] rest[k]) by {
            assert(rest[k] == ms[k + 1]);
        }
        match m0 {
            TokM::Number(x) => {
                assert(d == x);
                let dd = digits_end(x, 0);
                lemma_digits_end(x, 0);
                assert forall|k: int| p <= k < p + dd implies is_digit(s[k]) by {
                    assert(s[k] == x[k - p]);
                }
                if dd == x.len() {
                    lemma_digits_end_local(s, p, p + dd);
                } else {
                    assert(s[p + dd] == x[dd]);
                    lemma_digits_end_local(s, p, p + dd);
                    lemma_digits_end(x, dd + 1);
                    assert forall|k: int| p + dd + 1 <= k < p + dl implies is_digit(s[k]) by {
                        assert(s[k] == x[k - p]);
                    }
                    lemma_digits_end_local(s, p + dd + 1, p + dl);
                }
                assert(number_end(s, p) == p + dl);
                assert(s.subrange(p, p + dl) =~= x);
                assert(spec_lex_from(s, p).0 == seq![(m0, (p, p + dl))] + spec_lex_from(
                    s,
                    p + dl,
                ).0);
                assert(spec_lex_from(s, p).1 == spec_lex_from(s, p + dl).1);
            },
            TokM::String(x) => {
                assert(d == seq![34u8] + x + seq![34u8]);
                assert(s[p + 0] == d[0] && d[0] == 34);
                assert forall|k: int| p + 1 <= k < p + dl - 1 implies s[k] != 34 by {
                    assert(s[p + (k - p)] == d[k - p]);
                    assert(d[k - p] == x[k - p - 1]);
                }
                assert(s[p + (dl - 1)] == d[dl - 1] && d[dl - 1] == 34);
                lemma_quote_end_local(s, p + 1, p + dl - 1);
                assert forall|j: int| 0 <= j < x.len() implies s[p + 1 + j] == x[j] by {
                    assert(s[p + (j + 1)] == d[j + 1]);
                    assert(d[j + 1] == x[j]);
                }
                assert(s.subrange(p + 1, p + dl - 1) =~= x);
                assert(spec_lex_from(s, p).0 == seq![(m0, (p, p + dl))] + spec_lex_from(
                    s,
                    p + dl,
                ).0);
                assert(spec_lex_from(s, p).1 == spec_lex_from(s, p + dl).1);
            },
            TokM::Ident(x) => {
                assert(d == x);
                assert forall|k: int| p <= k < p + dl implies ident_byte_at(s, k) by {
                    assert(s[k] == x[k - p]);
                    assert(ident_byte_ok(x[k - p]));
                    if k + 1 < p + dl {
                        assert(s[k + 1] == x[k - p + 1]);
                        assert(!ident_break_pair(x[k - p], x[k - p + 1]));
                    } else {
                        assert(s[k + 1] == 32);
                    }
                }
                assert(!ident_byte_at(s, p + dl));
                lemma_ident_end_local(s, p + 1, p + dl);
                assert(ident_byte_at(s, p));
                assert(!is_digit(s[p]));
                assert(s.subrange(p, p + dl) =~= x);
                assert(spec_lex_from(s, p).0 == seq![(m0, (p, p + dl))] + spec_lex_from(
                    s,
                    p + dl,
                ).0);
                assert(spec_lex_from(s, p).1 == spec_lex_from(s, p + dl).1);
            },
            TokM::Lparen => {
                assert(s[p + 0] == d[0] && d[0] == 40);
                assert(spec_lex_from(s, p).0 == seq![(m0, (p, p + dl))] + spec_lex_from(
                    s,
                    p + dl,
                ).0);
                assert(spec_lex_from(s, p).1 == spec_lex_from(s, p + dl).1);
            },
            TokM::Rparen => {
                assert(s[p + 0] == d[0] && d[0] == 41);
                assert(spec_lex_from(s, p).0 == seq![(m0, (p, p + dl))] + spec_lex_from(
                    s,
                    p + dl,
                ).0);
                assert(spec_lex_from(s, p).1 == spec_lex_from(s, p + dl).1);
            },
            TokM::Comma => {
                assert(s[p + 0] == d[0] && d[0] == 44);
                assert(spec_lex_from(s, p).0 == seq![(m0, (p, p + dl))] + spec_lex_from(
                    s,
                    p + dl,
                ).0);
                assert(spec_lex_from(s, p).1 == spec_lex_from(s, p + dl).1);
            },
            TokM::Pipeline => {
                assert(s[p + 0] == d[0] && s[p + 1] == d[1]);
                assert(d[0] == 124 && d[1] == 62);
                assert(spec_lex_from(s, p).0 == seq![(m0, (p, p + dl))] + spec_lex_from(
                    s,
                    p + dl,
                ).0);
                assert(spec_lex_from(s, p).1 == spec_lex_from(s, p + dl).1);
            },
            TokM::Assign => {
                assert(s[p + 0] == d[0] && s[p + 1] == d[1]);
                assert(d[0] == 45 && d[1] == 62);
                assert(spec_lex_from(s, p).0 == seq![(m0, (p, p + dl))] + spec_lex_from(
                    s,
                    p + dl,
                ).0);
                assert(spec_lex_from(s, p).1 == spec_lex_from(s, p + dl).1);
            },
            TokM::Mutate => {
                assert(s[p + 0] == d[0] && s[p + 1] == d[1] && s[p + 2] == d[2]);
                assert(d[0] == 45 && d[1] == 62 && d[2] == 62);
                assert(spec_lex_from(s, p).0 == seq![(m0, (p, p + dl))] + spec_lex_from(
                    s,
                    p + dl,
                ).0);
                assert(spec_lex_from(s, p).1 == spec_lex_from(s, p + dl).1);
            },
            TokM::Lambda => {
                assert(s[p + 0] == d[0] && s[p + 1] == d[1]);
                assert(d[0] == 61 && d[1] == 62);
                assert(spec_lex_from(s, p).0 == seq![(m0, (p, p + dl))] + spec_lex_from(
                    s,
                    p + dl,
                ).0);
                assert(spec_lex_from(s, p).1 == spec_lex_from(s, p + dl).1);
            },
        }
        assert(p + dl < s.len());
        assert(is_ws(s[p + dl]));
        assert(spec_lex_from(s, p + dl).0 == spec_lex_from(s, p + dl + 1).0);
        assert(spec_lex_from(s, p + dl).1 == spec_lex_from(s, p + dl + 1).1);
        lemma_lex_render_from(s, p + dl + 1, rest);
        let cur = spec_lex_from(s, p);
        let tail = spec_lex_from(s, p + dl + 1);
        assert(toks_models(cur.0) =~= ms) by {
            assert(cur.0 == seq![(m0, (p, p + dl))] + tail.0);
            assert(toks_models(tail.0).len() == rest.len());
            assert forall|k: int| 0 <= k < cur.0.len() implies toks_models(cur.0)[k] == ms[k] by {
                if k == 0 {
                    assert(cur.0[0] == (m0, (p, p + dl)));
                } else {
                    assert(cur.0[k] == tail.0[k - 1]);
                    assert(toks_models(tail.0)[k - 1] == rest[k - 1]);
                    assert(rest[k - 1] == ms[k]);
                }
            }
        }
        assert(cur.1 =~= Seq::<int>::empty());
    }
}

/// Relexing rebuilt text gives back the tokens: lexing the text rebuilt
/// from a well-formed token sequence (each token's display form, single
/// spaces between) yields exactly that sequence, with no error. Every
/// sequence the lexer itself produces is well formed in this sense.
pub proof fn lemma_display_round_trip(ms: Seq<TokM>)
    requires
        forall|k: int| 0 <= k < ms.len() ==> tok_wf(#[trigger] ms[k]),
    ensures
        toks_models(spec_lex_from(render_tokens(ms), 0).0) == ms,
        spec_lex_from(render_tokens(ms), 0).1 == Seq::<int>::empty(),
{
    lemma_lex_render_from(render_tokens(ms), 0, ms);
}

/// Token spans never overlap and come in source order: each token's span
/// ends no later than the next one starts.
pub proof fn lemma_lex_spans_ordered(s: Seq<u8>, i: int)
    requires
        0 <= i <= s.len(),
    ensures
        forall|k: int|
            0 <= k && k + 1 < spec_lex_from(s, i).0.len() ==> (#[trigger] spec_lex_from(
                s,
                i,
            ).0[k]).1.1 <= spec_lex_from(s, i).0[k + 1].1.0,
    decreases s.len() - i,
{
    if i < s.len() {
        let cur = spec_lex_from(s, i);
        if is_ws(s[i]) {
            lemma_lex_spans_ordered(s, i + 1);
            let rest = spec_lex_from(s, i + 1);
            assert forall|k: int| 0 <= k && k + 1 < cur.0.len() implies (#[trigger] cur.0[k]).1.1
                <= cur.0[k + 1].1.0 by {
                assert(cur.0[k] == rest.0[k] && cur.0[k + 1] == rest.0[k + 1]);
            }
        } else if comment_at(s, i) {
            lemma_line_end(s, i);
            lemma_lex_spans_ordered(s, line_end(s, i));
            let rest = spec_lex_from(s, line_end(s, i));
            assert forall|k: int| 0 <= k && k + 1 < cur.0.len() implies (#[trigger] cur.0[k]).1.1
                <= cur.0[k + 1].1.0 by {
                assert(cur.0[k] == rest.0[k] && cur.0[k + 1] == rest.0[k + 1]);
            }
        } else if is_digit(s[i]) {
            lemma_number_end(s, i);
            let j = number_end(s, i);
            lemma_lex_spans_ordered(s, j);
            lemma_lex_bounds(s, j);
            let rest = spec_lex_from(s, j);
            assert forall|k: int| 0 <= k && k + 1 < cur.0.len() implies (#[trigger] cur.0[k]).1.1
                <= cur.0[k + 1].1.0 by {
                assert(cur.0[k + 1] == rest.0[k]);
                if k > 0 {
                    assert(cur.0[k] == rest.0[k - 1]);
                }
            }
        } else if s[i] == 34 {
            lemma_quote_end(s, i + 1);
            let q = quote_end(s, i + 1);
            if q < s.len() {
                lemma_lex_spans_ordered(s, q + 1);
                lemma_lex_bounds(s, q + 1);
                let rest = spec_lex_from(s, q + 1);
                assert forall|k: int| 0 <= k && k + 1 < cur.0.len() implies (#[trigger] cur.0[k]).1.1
                    <= cur.0[k + 1].1.0 by {
                    assert(cur.0[k + 1] == rest.0[k]);
                    if k > 0 {
                        assert(cur.0[k] == rest.0[k - 1]);
                    }
                }
            } else {
                lemma_lex_spans_ordered(s, i + 1);
                let rest = spec_lex_from(s, i + 1);
                assert forall|k: int| 0 <= k && k + 1 < cur.0.len() implies (#[trigger] cur.0[k]).1.1
                    <= cur.0[k + 1].1.0 by {
                    assert(cur.0[k] == rest.0[k] && cur.0[k + 1] == rest.0[k + 1]);
                }
            }
        } else if symbol_at(s, i) is Some {
            let l = symbol_at(s, i).unwrap().1;
            lemma_lex_spans_ordered(s, i + l);
            lemma_lex_bounds(s, i + l);
            let rest = spec_lex_from(s, i + l);
            assert forall|k: int| 0 <= k && k + 1 < cur.0.len() implies (#[trigger] cur.0[k]).1.1
                <= cur.0[k + 1].1.0 by {
                assert(cur.0[k + 1] == rest.0[k]);
                if k > 0 {
                    assert(cur.0[k] == rest.0[k - 1]);
                }
            }
        } else {
            lemma_ident_end(s, i + 1);
            let j = ident_end(s, i + 1);
            lemma_lex_spans_ordered(s, j);
            lemma_lex_bounds(s, j);
            let rest = spec_lex_from(s, j);
            assert forall|k: int| 0 <= k && k + 1 < cur.0.len() implies (#[trigger] cur.0[k]).1.1
                <= cur.0[k + 1].1.0 by {
                assert(cur.0[k + 1] == rest.0[k]);
                if k > 0 {
                    assert(cur.0[k] == rest.0[k - 1]);
                }
            }
        }
    }
}

/// Every token the lexer produces is well formed: its payload could be
/// written back and lexed again as the same token.
pub proof fn lemma_lex_wf(s: Seq<u8>, i: int)
    requires
        0 <= i <= s.len(),
    ensures
        forall|k: int|
            0 <= k < spec_lex_from(s, i).0.len() ==> tok_wf(
                (#[trigger] spec_lex_from(s, i).0[k]).0,
            ),
    decreases s.len() - i,
{
    if i < s.len() {
        let cur = spec_lex_from(s, i);
        if is_ws(s[i]) {
            lemma_lex_wf(s, i + 1);
            let rest = spec_lex_from(s, i + 1);
            assert forall|k: int| 0 <= k < cur.0.len() implies tok_wf((#[trigger] cur.0[k]).0) by {
                assert(cur.0[k] == rest.0[k]);
            }
        } else if comment_at(s, i) {
            lemma_line_end(s, i);
            lemma_lex_wf(s, line_end(s, i));
            let rest = spec_lex_from(s, line_end(s, i));
            assert forall|k: int| 0 <= k < cur.0.len() implies tok_wf((#[trigger] cur.0[k]).0) by {
                assert(cur.0[k] == rest.0[k]);
            }
        } else if is_digit(s[i]) {
            lemma_number_end(s, i);
            let j = number_end(s, i);
            let x = s.subrange(i, j);
            assert(num_wf(x)) by {
                lemma_digits_end(s, i);
                let d = digits_end(s, i);
                if j != d {
                    lemma_digits_end(s, d + 1);
                }
                assert(d <= j);
                assert forall|k: int| 0 <= k < d - i implies is_digit(x[k]) by {
                    assert(x[k] == s[i + k]);
                }
                if d < x.len() + i {
                    assert(x[d - i] == s[d]);
                }
                lemma_digits_end_local(x, 0, d - i);
                if j != d {
                    assert forall|k: int| d - i + 1 <= k < x.len() implies is_digit(x[k]) by {
                        assert(x[k] == s[i + k]);
                    }
                    lemma_digits_end_local(x, d - i + 1, x.len() as int);
                }
            }
            lemma_lex_wf(s, j);
            let rest = spec_lex_from(s, j);
            assert forall|k: int| 0 <= k < cur.0.len() implies tok_wf((#[trigger] cur.0[k]).0) by {
                if k > 0 {
                    assert(cur.0[k] == rest.0[k - 1]);
                }
            }
        } else if s[i] == 34 {
            lemma_quote_end(s, i + 1);
            let q = quote_end(s, i + 1);
            if q < s.len() {
                let x = s.subrange(i + 1, q);
                assert(string_wf(x)) by {
                    assert forall|k: int| 0 <= k < x.len() implies #[trigger] x[k] != 34 by {
                        assert(x[k] == s[i + 1 + k]);
                    }
                }
                lemma_lex_wf(s, q + 1);
                let rest = spec_lex_from(s, q + 1);
                assert forall|k: int| 0 <= k < cur.0.len() implies tok_wf(
                    (#[trigger] cur.0[k]).0,
                ) by {
                    if k > 0 {
                        assert(cur.0[k] == rest.0[k - 1]);
                    }
                }
            } else {
                lemma_lex_wf(s, i + 1);
                let rest = spec_lex_from(s, i + 1);
                assert forall|k: int| 0 <= k < cur.0.len() implies tok_wf(
                    (#[trigger] cur.0[k]).0,
                ) by {
                    assert(cur.0[k] == rest.0[k]);
                }
            }
        } else if symbol_at(s, i) is Some {
            let l = symbol_at(s, i).unwrap().1;
            lemma_lex_wf(s, i + l);
            let rest = spec_lex_from(s, i + l);
            assert forall|k: int| 0 <= k < cur.0.len() implies tok_wf((#[trigger] cur.0[k]).0) by {
                if k > 0 {
                    assert(cur.0[k] == rest.0[k - 1]);
                }
            }
        } else {
            lemma_ident_end(s, i + 1);
            let j = ident_end(s, i + 1);
            let x = s.subrange(i, j);
            assert(ident_wf(x)) by {
                assert(ident_byte_at(s, i));
                assert forall|k: int| 0 <= k < x.len() implies ident_byte_ok(#[trigger] x[k]) by {
                    assert(x[k] == s[i + k]);
                    assert(ident_byte_at(s, i + k));
                }
                assert forall|k: int| 0 <= k && k + 1 < x.len() implies !ident_break_pair(
                    #[trigger] x[k],
                    x[k + 1],
                ) by {
                    assert(x[k] == s[i + k] && x[k + 1] == s[i + k + 1]);
                    assert(ident_byte_at(s, i + k));
                }
            }
            lemma_lex_wf(s, j);
            let rest = spec_lex_from(s, j);
            assert forall|k: int| 0 <= k < cur.0.len() implies tok_wf((#[trigger] cur.0[k]).0) by {
                if k > 0 {
                    assert(cur.0[k] == rest.0[k - 1]);
                }
            }
        }
    }
}

/// An input that is digits throughout lexes as exactly one `Number` token
/// carrying the whole input, spanning all of it, with no error.
pub proof fn lemma_lex_all_digits(s: Seq<u8>)
    requires
        s.len() > 0,
        forall|k: int| 0 <= k < s.len() ==> is_digit(s[k]),
    ensures
        spec_lex_from(s, 0).0 == seq![(TokM::Number(s), (0int, s.len() as int))],
        spec_lex_from(s, 0).1 == Seq::<int>::empty(),
{
    lemma_digits_end(s, 0);
    assert(digits_end(s, 0) == s.len());
    assert(number_end(s, 0) == s.len());
    assert(s.subrange(0, s.len() as int) =~= s);
    assert(spec_lex_from(s, s.len() as int).0 =~= Seq::<(TokM, (int, int))>::empty());
    assert(spec_lex_from(s, s.len() as int).1 =~= Seq::<int>::empty());
    assert(spec_lex_from(s, 0).0 =~= seq![(TokM::Number(s), (0int, s.len() as int))]);
    assert(spec_lex_from(s, 0).1 =~= Seq::<int>::empty());
}

/// An input that is digits except for one dot, strictly inside and with a
/// digit on each side, lexes as exactly one `Number` token carrying the
/// whole input, spanning all of it, with no error.
pub proof fn lemma_lex_digits_with_dot(s: Seq<u8>, p: int)
    requires
        0 < p < s.len() - 1,
        s[p] == 46,
        forall|k: int| 0 <= k < s.len() && k != p ==> is_digit(s[k]),
    ensures
        spec_lex_from(s, 0).0 == seq![(TokM::Number(s), (0int, s.len() as int))],
        spec_lex_from(s, 0).1 == Seq::<int>::empty(),
{
    lemma_digits_end(s, 0);
    let d1 = digits_end(s, 0);
    assert(d1 == p) by {
        if d1 < p {
            assert(is_digit(s[d1]));
        }
        if d1 > p {
            assert(is_digit(s[p]));
        }
    }
    lemma_digits_end(s, p + 1);
    assert(digits_end(s, p + 1) == s.len());
    assert(number_end(s, 0) == s.len());
    assert(s.subrange(0, s.len() as int) =~= s);
    assert(spec_lex_from(s, s.len() as int).0 =~= Seq::<(TokM, (int, int))>::empty());
    assert(spec_lex_from(s, s.len() as int).1 =~= Seq::<int>::empty());
    assert(spec_lex_from(s, 0).0 =~= seq![(TokM::Number(s), (0int, s.len() as int))]);
    assert(spec_lex_from(s, 0).1 =~= Seq::<int>::empty());
}

/// Every position the lexer reports lies inside the input, and every
/// token's span lies between `i` and the end of the input with its start
/// strictly before its end.
pub proof fn lemma_lex_bounds(s: Seq<u8>, i: int)
    requires
        0 <= i <= s.len(),
    ensures
        lex_in_bounds_from(s, i),
    decreases s.len() - i,
{
    if i < s.len() {
        if is_ws(s[i]) {
            lemma_lex_bounds(s, i + 1);
            let cur = spec_lex_from(s, i);
            let rest = spec_lex_from(s, i + 1);
            assert forall|k: int| 0 <= k < cur.0.len() implies i <= (#[trigger] cur.0[k]).1.0
                < cur.0[k].1.1 <= s.len() by {
                assert(cur.0[k] == rest.0[k]);
            }
            assert forall|k: int| 0 <= k < cur.1.len() implies i <= #[trigger] cur.1[k]
                < s.len() by {
                assert(cur.1[k] == rest.1[k]);
            }
        } else if comment_at(s, i) {
            lemma_line_end(s, i);
            let nx = line_end(s, i);
            lemma_lex_bounds(s, nx);
            let cur = spec_lex_from(s, i);
            let rest = spec_lex_from(s, nx);
            assert forall|k: int| 0 <= k < cur.0.len() implies i <= (#[trigger] cur.0[k]).1.0
                < cur.0[k].1.1 <= s.len() by {
                assert(cur.0[k] == rest.0[k]);
            }
            assert forall|k: int| 0 <= k < cur.1.len() implies i <= #[trigger] cur.1[k]
                < s.len() by {
                assert(cur.1[k] == rest.1[k]);
            }
        } else if is_digit(s[i]) {
            lemma_number_end(s, i);
            let j = number_end(s, i);
            lemma_lex_bounds(s, j);
            lemma_bounds_tok_cons(s, i, j, (TokM::Number(s.subrange(i, j)), (i, j)));
        } else if s[i] == 34 {
            lemma_quote_end(s, i + 1);
            let q = quote_end(s, i + 1);
            if q < s.len() {
                lemma_lex_bounds(s, q + 1);
                lemma_bounds_tok_cons(s, i, q + 1, (TokM::String(s.subrange(i + 1, q)), (i, q + 1)));
            } else {
                lemma_lex_bounds(s, i + 1);
                let cur = spec_lex_from(s, i);
                let rest = spec_lex_from(s, i + 1);
                assert forall|k: int| 0 <= k < cur.0.len() implies i <= (#[trigger] cur.0[k]).1.0
                    < cur.0[k].1.1 <= s.len() by {
                    assert(cur.0[k] == rest.0[k]);
                }
                assert forall|k: int| 0 <= k < cur.1.len() implies i <= #[trigger] cur.1[k]
                    < s.len() by {
                    if k > 0 {
                        assert(cur.1[k] == rest.1[k - 1]);
                    }
                }
            }
        } else if symbol_at(s, i) is Some {
            let l = symbol_at(s, i).unwrap().1;
            lemma_lex_bounds(s, i + l);
            lemma_bounds_tok_cons(s, i, i + l, (symbol_at(s, i).unwrap().0, (i, i + l)));
        } else {
            lemma_ident_end(s, i + 1);
            let j = ident_end(s, i + 1);
            lemma_lex_bounds(s, j);
            lemma_bounds_tok_cons(s, i, j, (TokM::Ident(s.subrange(i, j)), (i, j)));
        }
    }
}

} // verus!
