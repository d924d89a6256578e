use pipelined::parse;
use pipelined::parser::parser;
use pipelined::DiagKind;
use pipelined::Expr;

fn ident(n: &[u8]) -> Expr {
    Expr::Ident(n.to_vec())
}

fn tree(src: &[u8]) -> Expr {
    let (ast, diags) = parse(src);
    assert!(diags.is_empty(), "unexpected diagnostics: {diags:?}");
    ast.expect("expected a tree")
}

#[test]
fn pipeline_is_left_associative() {
    assert_eq!(
        tree(b"a |> b |> c"),
        Expr::Pipeline(
            Box::new(Expr::Pipeline(Box::new(ident(b"a")), Box::new(ident(b"b")))),
            Box::new(ident(b"c")),
        )
    );
}

#[test]
fn postfix_operators_chain_left_to_right() {
    assert_eq!(
        tree(b"a ->> f -> g"),
        Expr::Assign(
            Box::new(Expr::Mutate(Box::new(ident(b"a")), b"f".to_vec())),
            b"g".to_vec(),
        )
    );
}

#[test]
fn postfix_binds_tighter_than_pipeline() {
    assert_eq!(
        tree(b"a ->> f |> b ->> g"),
        Expr::Pipeline(
            Box::new(Expr::Mutate(Box::new(ident(b"a")), b"f".to_vec())),
            Box::new(Expr::Mutate(Box::new(ident(b"b")), b"g".to_vec())),
        )
    );
}

#[test]
fn lambda_body_extends_over_pipeline() {
    assert_eq!(
        tree(b"(x, y) => x |> f"),
        Expr::Lambda(
            vec![b"x".to_vec(), b"y".to_vec()],
            Box::new(Expr::Pipeline(Box::new(ident(b"x")), Box::new(ident(b"f")))),
        )
    );
}

#[test]
fn lambda_body_takes_postfix_operators() {
    assert_eq!(
        tree(b"(x) => y -> z"),
        Expr::Lambda(
            vec![b"x".to_vec()],
            Box::new(Expr::Assign(Box::new(ident(b"y")), b"z".to_vec())),
        )
    );
}

#[test]
fn lambda_on_the_right_of_a_pipeline_is_greedy() {
    assert_eq!(
        tree(b"a |> (x) => x |> b"),
        Expr::Pipeline(
            Box::new(ident(b"a")),
            Box::new(Expr::Lambda(
                vec![b"x".to_vec()],
                Box::new(Expr::Pipeline(Box::new(ident(b"x")), Box::new(ident(b"b")))),
            )),
        )
    );
}

#[test]
fn parenthesized_identifier_without_arrow_is_a_tuple() {
    assert_eq!(
        tree(b"(x) -> y"),
        Expr::Assign(
            Box::new(Expr::Tuple(vec![ident(b"x")])),
            b"y".to_vec(),
        )
    );
}

#[test]
fn lambda_with_no_parameters() {
    assert_eq!(
        tree(b"() => x"),
        Expr::Lambda(vec![], Box::new(ident(b"x")))
    );
}

#[test]
fn bare_literal_fails_parenthesized_literal_parses() {
    let (ast, diags) = parse(b"5");
    assert!(ast.is_none());
    assert_eq!(diags.len(), 1);
    assert_eq!(diags[0].kind, DiagKind::Parse);
    assert_eq!(
        tree(b"(5)"),
        Expr::Tuple(vec![Expr::Number(b"5".to_vec())])
    );
}

#[test]
fn empty_tuple() {
    assert_eq!(tree(b"()"), Expr::Tuple(vec![]));
}

#[test]
fn tuple_mixes_literals_and_expressions() {
    assert_eq!(
        tree(b"(a |> b, \"hi\", 3.5)"),
        Expr::Tuple(vec![
            Expr::Pipeline(Box::new(ident(b"a")), Box::new(ident(b"b"))),
            Expr::String(b"hi".to_vec()),
            Expr::Number(b"3.5".to_vec()),
        ])
    );
}

#[test]
fn unbalanced_paren_reports_an_error_at_or_after_the_last_token() {
    let (ast, diags) = parse(b"(a, b");
    assert!(ast.is_none());
    assert_eq!(diags.len(), 1);
    assert_eq!(diags[0].kind, DiagKind::Parse);
    // The last consumed token, `b`, ends at byte 5; the error sits there.
    assert!(diags[0].span.start >= 4);
    assert_eq!(diags[0].span.start, 5);
    assert_eq!(diags[0].span.end, 5);
    assert!(!diags[0].expected.is_empty());
}

#[test]
fn lone_quote_reports_a_lex_error_and_no_tree() {
    let (ast, diags) = parse(b"\"");
    assert!(ast.is_none());
    assert_eq!(diags.len(), 1);
    assert_eq!(diags[0].kind, DiagKind::Lex);
    assert_eq!(diags[0].span.start, 0);
    assert_eq!(diags[0].span.end, 1);
}

#[test]
fn postfix_arrow_needs_an_identifier() {
    let (ast, diags) = parse(b"a -> 5");
    assert!(ast.is_none());
    assert_eq!(diags.len(), 1);
    assert_eq!(diags[0].kind, DiagKind::Parse);
    assert_eq!(diags[0].span.start, 5);
    assert_eq!(diags[0].span.end, 6);
}

#[test]
fn comma_outside_parentheses_is_an_error() {
    let (ast, diags) = parse(b"a, b");
    assert!(ast.is_none());
    assert_eq!(diags.len(), 1);
    assert_eq!(diags[0].kind, DiagKind::Parse);
    assert_eq!(diags[0].span.start, 1);
    assert_eq!(diags[0].span.end, 2);
}

#[test]
fn empty_input_is_a_parse_error_at_the_end() {
    let (ast, diags) = parse(b"");
    assert!(ast.is_none());
    assert_eq!(diags.len(), 1);
    assert_eq!(diags[0].kind, DiagKind::Parse);
    assert_eq!(diags[0].span.start, 0);
    assert_eq!(diags[0].span.end, 0);
}

#[test]
fn lex_errors_stop_the_parser() {
    let (ast, diags) = parse(b"a \" b \" c \"");
    assert!(ast.is_none());
    assert_eq!(diags.len(), 1);
    assert_eq!(diags[0].kind, DiagKind::Lex);
}

#[test]
fn parser_runs_on_a_spanned_token_sequence() {
    let (toks, errs) = pipelined::lexer::lexer(b"a |> b");
    assert!(errs.is_empty());
    let ast = parser(&toks, 6).expect("expected a tree");
    assert_eq!(
        ast,
        Expr::Pipeline(Box::new(ident(b"a")), Box::new(ident(b"b")))
    );
}

#[test]
fn relexing_displayed_tokens_reparses_to_the_same_tree() {
    let src: &[u8] = b"(x) => x ->> f |> (g, 1.5) -> h";
    let (toks, errs) = pipelined::lexer::lexer(src);
    assert!(errs.is_empty());
    let mut rebuilt: Vec<u8> = Vec::new();
    for (tok, _) in &toks {
        if !rebuilt.is_empty() {
            rebuilt.push(b' ');
        }
        rebuilt.extend(tok.display_bytes());
    }
    let first = tree(src);
    let second = tree(&rebuilt);
    assert_eq!(first, second);
}
