use rhp::lexer::{lex_code, merge_spans, Spanned, Token};

#[test]
fn lex_simple_statement() {
    let tokens = lex_code("let x = 10;").expect("lexes");
    let kinds: Vec<Token> = tokens.iter().map(|t| t.node.clone()).collect();
    assert_eq!(
        kinds,
        vec![
            Token::Let,
            Token::Ident("x".to_string()),
            Token::Assign,
            Token::Number("10".to_string()),
            Token::Semicolon,
        ]
    );
    let spans: Vec<_> = tokens.iter().map(|t| t.span.clone()).collect();
    assert_eq!(spans, vec![0..3, 4..5, 6..7, 8..10, 10..11]);
}

#[test]
fn lex_longest_match_operators() {
    let tokens = lex_code("a === b => c <= d").expect("lexes");
    let kinds: Vec<Token> = tokens.iter().map(|t| t.node.clone()).collect();
    assert_eq!(kinds[1], Token::StrictEq);
    assert_eq!(kinds[3], Token::Arrow);
    assert_eq!(kinds[5], Token::Lte);
}

#[test]
fn lex_skips_comments() {
    let tokens = lex_code("/* note */ x").expect("lexes");
    assert_eq!(tokens.len(), 1);
    assert_eq!(tokens[0].node, Token::Ident("x".to_string()));
    assert_eq!(tokens[0].span, 11..12);
}

#[test]
fn lex_string_keeps_quotes() {
    let tokens = lex_code("\"hi\" 'yo'").expect("lexes");
    assert_eq!(tokens[0].node, Token::StringDouble("\"hi\"".to_string()));
    assert_eq!(tokens[1].node, Token::StringSingle("'yo'".to_string()));
}

#[test]
fn lex_reports_unexpected_text() {
    let errors = lex_code("let @ = 1").expect_err("fails");
    assert_eq!(errors.len(), 1);
    assert_eq!(errors[0].message, "Unexpected token");
    assert_eq!(errors[0].span, 4..5);
}

#[test]
fn lex_spans_are_bytes() {
    let tokens = lex_code("\"é\" x").expect("lexes");
    assert_eq!(tokens[0].span, 0..4);
    assert_eq!(tokens[1].span, 5..6);
}

#[test]
fn lex_tokens_in_source_order() {
    let tokens = lex_code("if (a) { b = c + 1; }").expect("lexes");
    for pair in tokens.windows(2) {
        assert!(pair[0].span.start < pair[0].span.end);
        assert!(pair[0].span.end <= pair[1].span.start);
    }
}

#[test]
fn merge_spans_covers_both() {
    assert_eq!(merge_spans(&(3..5), &(1..4)), 1..5);
    assert_eq!(merge_spans(&(2..9), &(4..6)), 2..9);
}

#[test]
fn spanned_new_keeps_parts() {
    let s = Spanned::new(Token::Dot, 7..8);
    assert_eq!(s.node, Token::Dot);
    assert_eq!(s.span, 7..8);
}

#[test]
fn lex_line_comment_runs_to_end_of_line() {
    let tokens = lex_code("// hi\nx").expect("lexes");
    assert_eq!(tokens.len(), 1);
    assert_eq!(tokens[0].node, Token::Ident("x".to_string()));
    assert_eq!(tokens[0].span, 6..7);
    let tokens = lex_code("a // b c ; { \"\nd //").expect("lexes");
    let names: Vec<Token> = tokens.into_iter().map(|t| t.node).collect();
    assert_eq!(names, vec![Token::Ident("a".to_string()), Token::Ident("d".to_string())]);
    assert_eq!(lex_code("//").expect("lexes").len(), 0);
}
