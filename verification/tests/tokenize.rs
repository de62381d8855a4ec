use w1::token::{tokenize, tokenize_with, Token, TokenKind, Tokenizer};

fn kinds<'a>(tokens: &[Token<'a>]) -> Vec<TokenKind<'a>> {
    tokens.iter().map(|t| t.kind()).collect()
}

#[test]
fn tokenize_macro_header() {
    let tokens = tokenize("@macro card($title, $content) {{x}}");
    assert_eq!(
        kinds(&tokens),
        vec![
            TokenKind::At,
            TokenKind::Ident("macro"),
            TokenKind::Ident("card"),
            TokenKind::ParenOpen,
            TokenKind::Variable("title"),
            TokenKind::Comma,
            TokenKind::Variable("content"),
            TokenKind::ParenClose,
            TokenKind::BlockOpen,
            TokenKind::Ident("x"),
            TokenKind::BlockClose,
        ]
    );
}

#[test]
fn tokenize_keeps_whitespace_inside_blocks() {
    let tokens = tokenize("  {{ a b }}  c");
    assert_eq!(
        kinds(&tokens),
        vec![
            TokenKind::BlockOpen,
            TokenKind::Text(" a b "),
            TokenKind::BlockClose,
            TokenKind::Ident("c"),
        ]
    );
}

#[test]
fn tokenize_text_stops_at_special_characters() {
    let tokens = tokenize("<p>x, y</p>");
    assert_eq!(
        kinds(&tokens),
        vec![TokenKind::Text("<p>x"), TokenKind::Comma, TokenKind::Ident("y"), TokenKind::Text("</p>")]
    );
}

#[test]
fn tokenize_single_braces_are_text() {
    let tokens = tokenize("{a}");
    assert_eq!(kinds(&tokens), vec![TokenKind::Text("{a}")]);
}

#[test]
fn tokenize_empty_variable_name() {
    let tokens = tokenize("$ x");
    assert_eq!(kinds(&tokens), vec![TokenKind::Variable(""), TokenKind::Ident("x")]);
}

#[test]
fn tokenize_close_without_open() {
    let tokens = tokenize("}} a");
    assert_eq!(kinds(&tokens), vec![TokenKind::BlockClose, TokenKind::Ident("a")]);
}

#[test]
fn tokenize_empty_and_blank() {
    assert!(tokenize("").is_empty());
    assert!(tokenize(" \n\t ").is_empty());
}

#[test]
fn tokenize_spans_are_byte_offsets() {
    let tokens = tokenize("ab cd");
    assert_eq!(tokens.len(), 2);
    assert_eq!(*tokens[0].span(), 2..5);
    assert_eq!(*tokens[1].span(), 5..5);
}

#[test]
fn tokenize_non_ascii() {
    // 'é' is alphabetic and takes two bytes.
    let tokens = tokenize("é$x");
    assert_eq!(kinds(&tokens), vec![TokenKind::Ident("é"), TokenKind::Variable("x")]);
    assert_eq!(*tokens[0].span(), 2..4);
    assert_eq!(*tokens[1].span(), 4..4);
}

#[test]
fn tokenize_unicode_whitespace_is_skipped() {
    // U+3000 IDEOGRAPHIC SPACE is whitespace.
    let tokens = tokenize("\u{3000}a");
    assert_eq!(kinds(&tokens), vec![TokenKind::Ident("a")]);
    assert_eq!(*tokens[0].span(), 4..4);
}

#[test]
fn tokenize_classification_decides() {
    // With 'x' classed as whitespace and nothing as alphanumeric.
    let src = "xa xb";
    let white = vec![true, false, true, true, false];
    let alnum = vec![false; 5];
    let tokens = tokenize_with(src, white, alnum);
    assert_eq!(kinds(&tokens), vec![TokenKind::Text("a xb")]);
}

#[test]
fn tokenizer_steps() {
    let mut t = Tokenizer::with_classes("a {{", vec![false, true, false, false], vec![true, false, false, false]);
    assert_eq!(t.span(), 0..4);
    let first = t.next().unwrap();
    assert_eq!(first.kind(), TokenKind::Ident("a"));
    assert_eq!(t.span(), 1..4);
    let second = t.next().unwrap();
    assert_eq!(second.kind(), TokenKind::BlockOpen);
    assert!(t.next().is_none());
}

#[test]
fn token_new_and_accessors() {
    let t = Token::new(TokenKind::Comma, 3..7);
    assert_eq!(t.kind(), TokenKind::Comma);
    assert_eq!(*t.span(), 3..7);
}

#[test]
fn token_kind_display() {
    assert_eq!(TokenKind::At.to_display_string(), "@");
    assert_eq!(TokenKind::Ident("name").to_display_string(), "name");
    assert_eq!(TokenKind::Variable("v").to_display_string(), "$v");
    assert_eq!(TokenKind::ParenOpen.to_display_string(), "(");
    assert_eq!(TokenKind::ParenClose.to_display_string(), ")");
    assert_eq!(TokenKind::Comma.to_display_string(), ",");
    assert_eq!(TokenKind::BlockOpen.to_display_string(), "{");
    assert_eq!(TokenKind::BlockClose.to_display_string(), "}");
    assert_eq!(TokenKind::Text(" t ").to_display_string(), " t ");
}

#[test]
fn token_kind_same() {
    assert!(TokenKind::Ident("a").same(&TokenKind::Ident("a")));
    assert!(!TokenKind::Ident("a").same(&TokenKind::Ident("b")));
    assert!(!TokenKind::Ident("a").same(&TokenKind::Text("a")));
    assert!(TokenKind::Comma.same(&TokenKind::Comma));
}

fn spelled(tokens: &[Token<'_>]) -> String {
    tokens
        .iter()
        .map(|t| match t.kind() {
            TokenKind::BlockOpen => "{{".to_string(),
            TokenKind::BlockClose => "}}".to_string(),
            kind => kind.to_display_string(),
        })
        .collect()
}

#[test]
fn tokenize_block_read_in_full() {
    let src = "{{ Hi, $name (@home)\n  done }}";
    let tokens = tokenize(src);
    assert_eq!(tokens.first().map(|t| t.kind()), Some(TokenKind::BlockOpen));
    assert_eq!(tokens.last().map(|t| t.kind()), Some(TokenKind::BlockClose));
    assert_eq!(spelled(&tokens), src);
}

#[test]
fn tokenize_spells_source_without_outer_whitespace() {
    assert_eq!(spelled(&tokenize("@m ( {{ a }} , {{b}} )\n")), "@m({{ a }},{{b}})");
    assert_eq!(spelled(&tokenize("@m($a,$b){{x}}")), "@m($a,$b){{x}}");
}
