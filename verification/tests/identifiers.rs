use clax_lexer::{
    parse_ident, parse_keyword, parse_token, parse_token_stream, recognize_ident, KeywordKind,
    LexError, SymbolKind, Token,
};

const KEYWORDS: [(&str, KeywordKind); 14] = [
    ("else", KeywordKind::Else),
    ("enum", KeywordKind::Enum),
    ("fn", KeywordKind::Fn),
    ("if", KeywordKind::If),
    ("impl", KeywordKind::Impl),
    ("let", KeywordKind::Let),
    ("match", KeywordKind::Match),
    ("mod", KeywordKind::Mod),
    ("pub", KeywordKind::Pub),
    ("struct", KeywordKind::Struct),
    ("trait", KeywordKind::Trait),
    ("type", KeywordKind::Type),
    ("use", KeywordKind::Use),
    ("where", KeywordKind::Where),
];

fn lex(input: &str) -> Vec<Token> {
    parse_token_stream(input).unwrap().into_tokens()
}

fn ident(name: &str) -> Token {
    Token::Identifier(name.to_string())
}

#[test]
fn identifier_alone_is_one_identifier() {
    for name in ["x", "_", "foo", "Foo", "_bar9", "a_b_c", "x1y2", "__", "Z", "q0", "lets", "el"] {
        assert_eq!(lex(name), vec![ident(name)], "{name}");
    }
}

#[test]
fn keyword_alone_is_one_keyword() {
    for (text, kind) in KEYWORDS {
        assert_eq!(lex(text), vec![Token::Keyword(kind)], "{text}");
    }
}

#[test]
fn keyword_spellings_round_trip() {
    for (text, kind) in KEYWORDS {
        assert_eq!(kind.as_str(), text);
        assert_eq!(KeywordKind::from_spelling(text.as_bytes()), Some(kind));
    }
    assert_eq!(KeywordKind::from_spelling(b""), None);
    assert_eq!(KeywordKind::from_spelling(b"f"), None);
    assert_eq!(KeywordKind::from_spelling(b"fnn"), None);
    assert_eq!(KeywordKind::from_spelling(b"FN"), None);
}

#[test]
fn keywords_are_case_sensitive() {
    assert_eq!(lex("Fn"), vec![ident("Fn")]);
    assert_eq!(lex("LET"), vec![ident("LET")]);
    assert_eq!(lex("Where"), vec![ident("Where")]);
}

#[test]
fn keyword_prefix_and_superset_are_identifiers() {
    assert_eq!(lex("lets"), vec![ident("lets")]);
    assert_eq!(lex("el"), vec![ident("el")]);
    assert_eq!(lex("fn_"), vec![ident("fn_")]);
    assert_eq!(lex("_if"), vec![ident("_if")]);
    assert_eq!(lex("match1"), vec![ident("match1")]);
}

#[test]
fn identifier_span_is_maximal() {
    assert_eq!(recognize_ident("abc def", 0), Some(3));
    assert_eq!(recognize_ident("abc def", 4), Some(3));
    assert_eq!(recognize_ident("abc def", 1), Some(2));
    assert_eq!(recognize_ident("a1_b2::c", 0), Some(5));
    assert_eq!(recognize_ident("_", 0), Some(1));
}

#[test]
fn identifier_cannot_start_with_a_digit() {
    assert_eq!(recognize_ident("1abc", 0), None);
    assert_eq!(parse_ident("1abc", 0), None);
    assert_eq!(parse_token_stream("1abc"), Err(LexError::UnrecognizedToken { offset: 0 }));
}

#[test]
fn identifier_is_ascii_only() {
    assert_eq!(recognize_ident("été", 0), None);
    assert_eq!(recognize_ident("aé", 0), Some(1));
    assert_eq!(parse_token_stream("aé"), Err(LexError::UnrecognizedToken { offset: 1 }));
}

#[test]
fn nothing_is_recognized_past_the_end() {
    assert_eq!(recognize_ident("abc", 3), None);
    assert_eq!(recognize_ident("abc", 4), None);
    assert_eq!(recognize_ident("abc", usize::MAX), None);
    assert_eq!(parse_ident("", 0), None);
    assert_eq!(parse_keyword("fn", 2), None);
    assert_eq!(parse_token("fn", 2), Err(LexError::UnrecognizedToken { offset: 2 }));
}

#[test]
fn parse_ident_returns_text_and_length() {
    assert_eq!(parse_ident("foo bar", 0), Some(("foo".to_string(), 3)));
    assert_eq!(parse_ident("foo bar", 4), Some(("bar".to_string(), 3)));
    assert_eq!(parse_ident("é_x1é", 2), Some(("_x1".to_string(), 3)));
    assert_eq!(parse_ident("let", 0), Some(("let".to_string(), 3)));
}

#[test]
fn parse_keyword_needs_the_whole_span() {
    assert_eq!(parse_keyword("let x", 0), Some((KeywordKind::Let, 3)));
    assert_eq!(parse_keyword("lets x", 0), None);
    assert_eq!(parse_keyword("le", 0), None);
    assert_eq!(parse_keyword("x let", 2), Some((KeywordKind::Let, 3)));
    assert_eq!(parse_keyword("xlet", 1), Some((KeywordKind::Let, 3)));
    assert_eq!(parse_keyword("::", 0), None);
}

#[test]
fn keyword_is_tried_before_identifier() {
    assert_eq!(parse_token("struct S", 0), Ok((Token::Keyword(KeywordKind::Struct), 6)));
    assert_eq!(parse_token("structs", 0), Ok((ident("structs"), 7)));
}

#[test]
fn identifiers_and_symbols_need_no_whitespace() {
    assert_eq!(
        lex("a.b,c"),
        vec![
            ident("a"),
            Token::Symbol(SymbolKind::FieldAccessor),
            ident("b"),
            Token::Symbol(SymbolKind::FieldSeparator),
            ident("c"),
        ]
    );
}
