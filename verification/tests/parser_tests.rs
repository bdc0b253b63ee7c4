use rhp::ast::{BinOp, RawExpr, RawStmt, VarKind};
use rhp::lexer::{lex_code, Token};
use rhp::parser::Parser;
use rhp::process::{parse_method, split_src, Method, Section};

fn code(s: &str) -> Section {
    Section::Code { code: s.to_string(), method: Method::All }
}

#[test]
fn empty_src() {
    assert_eq!(split_src(""), vec![]);
}

#[test]
fn test_basic_split() {
    let src = r#"<h1>Hello</h1><rhp>let x = 1</rhp><p>World</p>"#;
    let sections = split_src(src);
    assert_eq!(
        sections,
        vec![
            Section::Html("<h1>Hello</h1>".to_string()),
            code("let x = 1"),
            Section::Html("<p>World</p>".to_string()),
        ]
    );
}

#[test]
fn test_multiple_code_blocks() {
    let src = "<rhp>a</rhp>mid<rhp>b</rhp>";
    let sections = split_src(src);
    assert_eq!(
        sections,
        vec![code("a"), Section::Html("mid".to_string()), code("b")]
    );
}

#[test]
fn test_pure_html() {
    let src = "<p>just html</p>";
    assert_eq!(split_src(src), vec![Section::Html(src.to_string())]);
}

#[test]
fn split_keeps_method_and_drops_blank_html() {
    let src = "  \n<rhp method=\"post\">x</rhp>\n<rhp method='GET' >y</rhp>";
    assert_eq!(
        split_src(src),
        vec![
            Section::Code { code: "x".to_string(), method: Method::Post },
            Section::Code { code: "y".to_string(), method: Method::Get },
        ]
    );
}

#[test]
fn split_unclosed_tag_runs_to_end() {
    assert_eq!(
        split_src("<p>a</p><rhp>let y = 2"),
        vec![Section::Html("<p>a</p>".to_string()), code("let y = 2")]
    );
}

#[test]
fn split_unknown_method_is_all() {
    assert_eq!(split_src("<rhp method=\"FETCH\">z</rhp>"), vec![code("z")]);
}

fn parse(src: &str) -> (Vec<rhp::ast::Stmt>, Vec<rhp::lexer::ParseError>) {
    let tokens = lex_code(src).expect("lexes");
    Parser::parse(tokens)
}

#[test]
fn parse_var_decl_with_precedence() {
    let (stmts, errors) = parse("let x = 1 + 2 * 3;");
    assert!(errors.is_empty());
    assert_eq!(stmts.len(), 1);
    assert_eq!(stmts[0].span, 0..18);
    match &stmts[0].node {
        RawStmt::VarDecl { kind, name, init } => {
            assert_eq!(*kind, VarKind::Let);
            assert_eq!(name, "x");
            let init = init.as_ref().expect("initialiser");
            match &init.node {
                RawExpr::Binary { op, left, right } => {
                    assert_eq!(*op, BinOp::Add);
                    assert_eq!(left.node, RawExpr::Number("1".to_string()));
                    match &right.node {
                        RawExpr::Binary { op, .. } => assert_eq!(*op, BinOp::Mul),
                        other => panic!("unexpected {other:?}"),
                    }
                }
                other => panic!("unexpected {other:?}"),
            }
        }
        other => panic!("unexpected {other:?}"),
    }
}

#[test]
fn parse_error_recovers_at_next_statement() {
    let (stmts, errors) = parse("let = 5; const y = 2;");
    assert_eq!(errors.len(), 1);
    assert_eq!(errors[0].message, "expected variable name");
    assert_eq!(errors[0].span, 4..5);
    assert_eq!(stmts.len(), 2);
    assert_eq!(stmts[0].node, RawStmt::Error);
    match &stmts[1].node {
        RawStmt::VarDecl { kind, name, .. } => {
            assert_eq!(*kind, VarKind::Const);
            assert_eq!(name, "y");
        }
        other => panic!("unexpected {other:?}"),
    }
}

#[test]
fn parse_missing_brace_is_reported() {
    let (stmts, errors) = parse("if (a) { b");
    assert_eq!(stmts.len(), 1);
    assert_eq!(errors.len(), 1);
    assert_eq!(errors[0].message, "expected `}`");
}

#[test]
fn parse_arrow_and_call() {
    let (stmts, errors) = parse("f((a, b) => a + b, [1, 2], {k: 1});");
    assert!(errors.is_empty());
    match &stmts[0].node {
        RawStmt::Expr(e) => match &e.node {
            RawExpr::Call { args, .. } => {
                assert_eq!(args.len(), 3);
                match &args[0].node {
                    RawExpr::Arrow { params, .. } => {
                        assert_eq!(params, &vec!["a".to_string(), "b".to_string()])
                    }
                    other => panic!("unexpected {other:?}"),
                }
            }
            other => panic!("unexpected {other:?}"),
        },
        other => panic!("unexpected {other:?}"),
    }
}

#[test]
fn parse_unexpected_token_message() {
    let (stmts, errors) = parse(")");
    assert_eq!(stmts.len(), 1);
    assert_eq!(stmts[0].node, RawStmt::Error);
    assert_eq!(errors[0].message, "unexpected token `RParen`");
}

#[test]
fn parse_empty_token_list() {
    let (stmts, errors) = Parser::parse(Vec::new());
    assert!(stmts.is_empty());
    assert!(errors.is_empty());
}

#[test]
fn parse_stops_at_stray_closing_brace() {
    let tokens = lex_code("a; } b;").expect("lexes");
    assert_eq!(tokens[2].node, Token::RBrace);
    let (stmts, errors) = Parser::parse(tokens);
    assert_eq!(stmts.len(), 1);
    assert!(errors.is_empty());
}

#[test]
fn tag_attributes_name_the_method() {
    assert_eq!(parse_method(" method=\"put\""), Method::Put);
    assert_eq!(parse_method("method=  'get'"), Method::Get);
    assert_eq!(parse_method("method=get"), Method::All);
    assert_eq!(parse_method("class=\"x\""), Method::All);
    assert_eq!(parse_method("method=\"post"), Method::All);
}

#[test]
fn split_one_tag_after_html() {
    assert_eq!(
        split_src("<p>hi</p><rhp>let a = 1</rhp>"),
        vec![Section::Html("<p>hi</p>".to_string()), code("let a = 1")]
    );
}

#[test]
fn split_never_puts_two_html_sections_together() {
    let sections = split_src("<a></a><rhp> </rhp><b></b><rhp>x</rhp>  <rhp>y</rhp><c></c>");
    for w in sections.windows(2) {
        assert!(!matches!((&w[0], &w[1]), (Section::Html(_), Section::Html(_))), "{sections:?}");
    }
}

#[test]
fn parse_makes_no_more_statements_than_tokens() {
    for src in ["a; b; c;", ";;;", "let x = 1", "if (a) { b } else { c }", "} } )"] {
        let tokens = lex_code(src).expect("lexes");
        let n = tokens.len();
        let (stmts, _) = Parser::parse(tokens);
        assert!(stmts.len() <= n, "{src}");
    }
}

fn init_of(src: &str) -> RawExpr {
    let (mut stmts, errors) = parse(src);
    assert!(errors.is_empty(), "{errors:?}");
    match stmts.remove(0).node {
        RawStmt::VarDecl { init: Some(init), .. } => init.node,
        other => panic!("unexpected {other:?}"),
    }
}

#[test]
fn mul_binds_tighter_than_sub() {
    match init_of("let x = a - b * c;") {
        RawExpr::Binary { op: BinOp::Sub, left, right } => {
            assert_eq!(left.node, RawExpr::Ident("a".to_string()));
            assert!(matches!(right.node, RawExpr::Binary { op: BinOp::Mul, .. }));
        }
        other => panic!("unexpected {other:?}"),
    }
}

#[test]
fn sub_groups_to_the_left() {
    match init_of("let x = a - b - c;") {
        RawExpr::Binary { op: BinOp::Sub, left, right } => {
            assert!(matches!(left.node, RawExpr::Binary { op: BinOp::Sub, .. }));
            assert_eq!(right.node, RawExpr::Ident("c".to_string()));
        }
        other => panic!("unexpected {other:?}"),
    }
}

#[test]
fn error_statements_come_with_errors() {
    for src in ["let = 1; x;", "if x { }", "a + ; b", "function (", "let y = (1, 2"] {
        let (stmts, errors) = parse(src);
        if stmts.iter().any(|s| s.node == RawStmt::Error) {
            assert!(!errors.is_empty(), "{src}");
        }
    }
    let (stmts, errors) = parse("let = 1; x;");
    assert_eq!(stmts[0].node, RawStmt::Error);
    assert_eq!(errors.len(), 1);
}
