use pipelined::lexer::lexer;
use pipelined::Span;
use pipelined::Token;

fn span(start: usize, end: usize) -> Span {
    Span { start, end }
}

#[test]
fn assign_between_idents() {
    let (toks, errs) = lexer(b"a -> b");
    assert_eq!(
        toks,
        vec![
            (Token::Ident(b"a".to_vec()), span(0, 1)),
            (Token::Assign, span(2, 4)),
            (Token::Ident(b"b".to_vec()), span(5, 6)),
        ]
    );
    assert!(errs.is_empty());
}

#[test]
fn comment_contributes_no_token() {
    let (toks, errs) = lexer(b"-- comment\na");
    assert_eq!(toks, vec![(Token::Ident(b"a".to_vec()), span(11, 12))]);
    assert!(errs.is_empty());
}

#[test]
fn integer_is_one_number_token() {
    let (toks, errs) = lexer(b"7");
    assert_eq!(toks, vec![(Token::Number(b"7".to_vec()), span(0, 1))]);
    assert!(errs.is_empty());
    let text = String::from_utf8(b"7".to_vec()).unwrap();
    assert_eq!(text.parse::<f64>().unwrap(), 7.0);
}

#[test]
fn decimal_is_one_number_token_with_standard_value() {
    let (toks, errs) = lexer(b"12.5");
    assert_eq!(toks, vec![(Token::Number(b"12.5".to_vec()), span(0, 4))]);
    assert!(errs.is_empty());
    match &toks[0].0 {
        Token::Number(text) => {
            let text = String::from_utf8(text.clone()).unwrap();
            assert_eq!(text.parse::<f64>().unwrap(), 12.5);
        }
        other => panic!("expected a number token, got {other:?}"),
    }
}

#[test]
fn long_digit_run() {
    let (toks, errs) = lexer(b"00123456789");
    assert_eq!(
        toks,
        vec![(Token::Number(b"00123456789".to_vec()), span(0, 11))]
    );
    assert!(errs.is_empty());
}

#[test]
fn dot_without_following_digit_splits() {
    let (toks, errs) = lexer(b"5.");
    assert_eq!(
        toks,
        vec![
            (Token::Number(b"5".to_vec()), span(0, 1)),
            (Token::Ident(b".".to_vec()), span(1, 2)),
        ]
    );
    assert!(errs.is_empty());
}

#[test]
fn symbols_longest_first() {
    let (toks, errs) = lexer(b"->> -> => |> ( ) ,");
    let kinds: Vec<Token> = toks.into_iter().map(|p| p.0).collect();
    assert_eq!(
        kinds,
        vec![
            Token::Mutate,
            Token::Assign,
            Token::Lambda,
            Token::Pipeline,
            Token::Lparen,
            Token::Rparen,
            Token::Comma,
        ]
    );
    assert!(errs.is_empty());
}

#[test]
fn mutate_span_covers_three_bytes() {
    let (toks, errs) = lexer(b"x->>y");
    assert_eq!(
        toks,
        vec![
            (Token::Ident(b"x".to_vec()), span(0, 1)),
            (Token::Mutate, span(1, 4)),
            (Token::Ident(b"y".to_vec()), span(4, 5)),
        ]
    );
    assert!(errs.is_empty());
}

#[test]
fn string_token_keeps_inner_bytes() {
    let (toks, errs) = lexer(b"\"hi there\"");
    assert_eq!(
        toks,
        vec![(Token::String(b"hi there".to_vec()), span(0, 10))]
    );
    assert!(errs.is_empty());
}

#[test]
fn identifiers_may_hold_operator_bytes() {
    let (toks, errs) = lexer(b"x| .5 a-b");
    assert_eq!(
        toks,
        vec![
            (Token::Ident(b"x|".to_vec()), span(0, 2)),
            (Token::Ident(b".5".to_vec()), span(3, 5)),
            (Token::Ident(b"a-b".to_vec()), span(6, 9)),
        ]
    );
    assert!(errs.is_empty());
}

#[test]
fn unterminated_quote_is_a_lex_error_and_lexing_goes_on() {
    let (toks, errs) = lexer(b"\"abc");
    assert_eq!(errs.len(), 1);
    assert_eq!(errs[0].pos, 0);
    assert_eq!(toks, vec![(Token::Ident(b"abc".to_vec()), span(1, 4))]);
}

#[test]
fn every_unterminated_quote_is_reported() {
    let (toks, errs) = lexer(b"\" x \" y");
    // The first quote closes at the second one; the rest is an identifier.
    assert_eq!(
        toks,
        vec![
            (Token::String(b" x ".to_vec()), span(0, 5)),
            (Token::Ident(b"y".to_vec()), span(6, 7)),
        ]
    );
    assert!(errs.is_empty());
    let (toks2, errs2) = lexer(b"a \" b \" c \"");
    assert_eq!(errs2.len(), 1);
    assert_eq!(errs2[0].pos, 10);
    assert_eq!(toks2.len(), 3);
}

#[test]
fn comment_runs_to_end_of_input() {
    let (toks, errs) = lexer(b"a -- trailing words");
    assert_eq!(toks, vec![(Token::Ident(b"a".to_vec()), span(0, 1))]);
    assert!(errs.is_empty());
}

#[test]
fn empty_input_yields_nothing() {
    let (toks, errs) = lexer(b"");
    assert!(toks.is_empty());
    assert!(errs.is_empty());
}

#[test]
fn display_forms_round_out() {
    assert_eq!(Token::Number(b"12.5".to_vec()).display_bytes(), b"12.5".to_vec());
    assert_eq!(Token::String(b"hi".to_vec()).display_bytes(), b"\"hi\"".to_vec());
    assert_eq!(Token::Ident(b"abc".to_vec()).display_bytes(), b"abc".to_vec());
    assert_eq!(Token::Lparen.display_bytes(), b"(".to_vec());
    assert_eq!(Token::Rparen.display_bytes(), b")".to_vec());
    assert_eq!(Token::Comma.display_bytes(), b",".to_vec());
    assert_eq!(Token::Pipeline.display_bytes(), b"|>".to_vec());
    assert_eq!(Token::Assign.display_bytes(), b"->".to_vec());
    assert_eq!(Token::Mutate.display_bytes(), b"->>".to_vec());
    assert_eq!(Token::Lambda.display_bytes(), b"=>".to_vec());
}
