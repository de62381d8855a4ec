use w1::ast::{parse, try_parse, Ast, Block, IdentContext, Invokation, Macro, Node, ParseErrorKind, Parser, Variable};
use w1::token::{tokenize, TokenKind};

fn parse_src(src: &str) -> Result<Ast<'_>, w1::ast::ParseError<'_>> {
    try_parse(src, tokenize(src))
}

#[test]
fn parse_macro_definition_and_invocation() {
    let ast = parse_src("@macro m($a, $b) {{x$a}} @m({{1}}, {{2}})").unwrap();
    let expected = Ast {
        nodes: vec![
            Node::Macro(Macro {
                name: "m",
                params: vec![Variable { name: "a" }, Variable { name: "b" }],
                template: Block { nodes: vec![Node::Text("x"), Node::Variable(Variable { name: "a" })] },
            }),
            Node::Invokation(Invokation {
                name: "m",
                args: vec![
                    Block { nodes: vec![Node::Text("1")] },
                    Block { nodes: vec![Node::Text("2")] },
                ],
            }),
        ],
    };
    assert_eq!(ast, expected);
}

#[test]
fn parse_params_commas_optional() {
    let ast = parse_src("@macro m($a $b,,) {{}}").unwrap();
    let expected = Ast {
        nodes: vec![Node::Macro(Macro {
            name: "m",
            params: vec![Variable { name: "a" }, Variable { name: "b" }],
            template: Block { nodes: vec![] },
        })],
    };
    assert_eq!(ast, expected);
}

#[test]
fn parse_args_commas_optional() {
    let ast = parse_src("@m({{a}}{{b}})").unwrap();
    let expected = Ast {
        nodes: vec![Node::Invokation(Invokation {
            name: "m",
            args: vec![Block { nodes: vec![Node::Text("a")] }, Block { nodes: vec![Node::Text("b")] }],
        })],
    };
    assert_eq!(ast, expected);
}

#[test]
fn parse_punctuation_as_text() {
    let ast = parse_src("{{@(x), {{y}}}}").unwrap();
    let expected = Ast {
        nodes: vec![
            Node::Text("{{"),
            Node::Text("@"),
            Node::Text("("),
            Node::Text("x"),
            Node::Text(")"),
            Node::Text(","),
            Node::Text(" "),
            Node::Text("{{"),
            Node::Text("y"),
        ],
    };
    assert_eq!(ast, expected);
}

#[test]
fn parse_stops_at_top_level_close() {
    let ast = parse_src("a }} @undefined(").unwrap();
    assert_eq!(ast, Ast { nodes: vec![Node::Text("a")] });
}

#[test]
fn parse_empty() {
    assert_eq!(parse_src("").unwrap(), Ast { nodes: vec![] });
}

#[test]
fn parse_error_identifier_after_macro() {
    let err = parse_src("@macro").unwrap_err();
    assert_eq!(err.kind, ParseErrorKind::ExpectedIdentifier { context: IdentContext::AfterMacro, got: None });
    assert_eq!(err.at, None);
}

#[test]
fn parse_error_identifier_after_macro_with_token() {
    let err = parse_src("@macro $x rest").unwrap_err();
    assert_eq!(
        err.kind,
        ParseErrorKind::ExpectedIdentifier { context: IdentContext::AfterMacro, got: Some(TokenKind::Variable("x")) }
    );
    // The error points at the token after the one read.
    assert_eq!(err.at, Some(14..14));
}

#[test]
fn parse_error_variable_or_comma() {
    let err = parse_src("@macro m($a @) {{}}").unwrap_err();
    assert_eq!(err.kind, ParseErrorKind::ExpectedVariableOrComma { found: TokenKind::At });
    assert_eq!(err.at, Some(14..19));
}

#[test]
fn parse_error_eof_in_parameters() {
    let err = parse_src("@macro m($a").unwrap_err();
    assert_eq!(err.kind, ParseErrorKind::UnexpectedEofInParameters);
    assert_eq!(err.at, None);
}

#[test]
fn parse_error_expected_paren() {
    let err = parse_src("@m x").unwrap_err();
    assert_eq!(
        err.kind,
        ParseErrorKind::ExpectedToken { expected: TokenKind::ParenOpen, got: Some(TokenKind::Ident("x")) }
    );
    assert_eq!(err.at, Some(4..4));
}

#[test]
fn parse_error_expected_block() {
    let err = parse_src("@m(x)").unwrap_err();
    assert_eq!(
        err.kind,
        ParseErrorKind::ExpectedToken { expected: TokenKind::BlockOpen, got: Some(TokenKind::Ident("x")) }
    );
}

#[test]
fn parse_error_unclosed_block() {
    let err = parse_src("@macro m() {{ a").unwrap_err();
    assert_eq!(err.kind, ParseErrorKind::ExpectedToken { expected: TokenKind::BlockClose, got: None });
    assert_eq!(err.at, None);
}

#[test]
fn parse_error_identifier_after_at() {
    // `@` followed by `macro` reads a definition; `@macro(` is not one.
    let err = parse_src("@macro(").unwrap_err();
    assert_eq!(
        err.kind,
        ParseErrorKind::ExpectedIdentifier { context: IdentContext::AfterMacro, got: Some(TokenKind::ParenOpen) }
    );
}

#[test]
fn parser_new_and_parse() {
    let src = "a";
    let ast = Parser::new(src, tokenize(src)).parse();
    assert_eq!(ast, Ast { nodes: vec![Node::Text("a")] });
}

#[test]
fn ident_context_messages() {
    assert_eq!(IdentContext::AfterMacro.message(), "expected identifier after @macro");
    assert_eq!(IdentContext::AfterAt.message(), "expected identifier after @");
}
