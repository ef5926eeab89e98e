use clax_lexer::{
    parse_token, parse_token_stream, EscapeError, KeywordKind, LexError, SymbolKind, Token,
    TokenStream,
};

#[test]
fn stream_keeps_source_order() {
    let stream = parse_token_stream("pub fn f").unwrap();
    assert_eq!(stream.len(), 3);
    assert!(!stream.is_empty());
    assert_eq!(stream.get(0), Some(&Token::Keyword(KeywordKind::Pub)));
    assert_eq!(stream.get(1), Some(&Token::Keyword(KeywordKind::Fn)));
    assert_eq!(stream.get(2), Some(&Token::Identifier("f".to_string())));
    assert_eq!(stream.get(3), None);
    assert_eq!(stream.tokens().len(), 3);
    assert_eq!(stream.tokens()[2], Token::Identifier("f".to_string()));
    assert_eq!(stream.clone().into_tokens(), stream.tokens().to_vec());
}

#[test]
fn stream_built_by_hand() {
    let mut stream = TokenStream::new();
    assert!(stream.is_empty());
    assert_eq!(stream.len(), 0);
    assert_eq!(stream.get(0), None);
    stream.push(Token::Symbol(SymbolKind::Splat));
    stream.push(Token::StringLiteral(vec![0xFF]));
    assert_eq!(stream.len(), 2);
    assert_eq!(
        stream.into_tokens(),
        vec![Token::Symbol(SymbolKind::Splat), Token::StringLiteral(vec![0xFF])]
    );
}

#[test]
fn every_error_has_its_offset() {
    let unterminated = parse_token_stream("x \"abc").unwrap_err();
    assert_eq!(unterminated, LexError::UnterminatedString { offset: 2 });
    assert_eq!(unterminated.offset(), 2);
    let escape = parse_token_stream("x \"a\\u{D800}\"").unwrap_err();
    assert_eq!(escape, LexError::InvalidEscape { offset: 5, reason: EscapeError::InvalidScalar });
    assert_eq!(escape.offset(), 5);
    let malformed = parse_token_stream("\"\\x4\"").unwrap_err();
    assert_eq!(malformed, LexError::InvalidEscape { offset: 2, reason: EscapeError::MalformedHex });
    let unknown = parse_token_stream("\"\\q\"").unwrap_err();
    assert_eq!(unknown, LexError::InvalidEscape { offset: 2, reason: EscapeError::UnknownEscape });
    let token = parse_token_stream("let x = #;").unwrap_err();
    assert_eq!(token, LexError::UnrecognizedToken { offset: 8 });
    assert_eq!(token.offset(), 8);
}

#[test]
fn an_error_discards_the_tokens_before_it() {
    assert_eq!(parse_token_stream("fn foo() { ? }"), Err(LexError::UnrecognizedToken { offset: 11 }));
    assert_eq!(parse_token_stream("a b c 1"), Err(LexError::UnrecognizedToken { offset: 6 }));
    assert_eq!(parse_token_stream("a b c \""), Err(LexError::UnterminatedString { offset: 6 }));
}

#[test]
fn digits_are_no_tokens() {
    assert_eq!(parse_token_stream("42"), Err(LexError::UnrecognizedToken { offset: 0 }));
    assert_eq!(parse_token_stream("x = 1;"), Err(LexError::UnrecognizedToken { offset: 4 }));
}

#[test]
fn dispatcher_does_not_skip() {
    assert_eq!(parse_token(" x", 0), Err(LexError::UnrecognizedToken { offset: 0 }));
    assert_eq!(parse_token("//c\nx", 0), Err(LexError::UnrecognizedToken { offset: 0 }));
    assert_eq!(parse_token(" x", 1), Ok((Token::Identifier("x".to_string()), 1)));
    assert_eq!(parse_token("", 0), Err(LexError::UnrecognizedToken { offset: 0 }));
}

#[test]
fn dispatcher_returns_each_kind() {
    assert_eq!(parse_token("where T", 0), Ok((Token::Keyword(KeywordKind::Where), 5)));
    assert_eq!(parse_token("->x", 0), Ok((Token::Symbol(SymbolKind::FunctionReturns), 2)));
    assert_eq!(parse_token("x->", 0), Ok((Token::Identifier("x".to_string()), 1)));
    assert_eq!(parse_token("\"a\\tb\" x", 0), Ok((Token::StringLiteral(b"a\tb".to_vec()), 6)));
    assert_eq!(parse_token("\"a", 0), Err(LexError::UnterminatedString { offset: 0 }));
    assert_eq!(
        parse_token("\"\\z\"", 0),
        Err(LexError::InvalidEscape { offset: 2, reason: EscapeError::UnknownEscape })
    );
}

#[test]
fn longer_program() {
    let text = "\
// A point in the plane.
pub struct Point { x: i32, y: i32 }

impl Point {
    fn name() -> String { \"point\\u{21}\" }
}
";
    let tokens = parse_token_stream(text).unwrap().into_tokens();
    assert_eq!(tokens.len(), 25);
    assert_eq!(tokens[0], Token::Keyword(KeywordKind::Pub));
    assert_eq!(tokens[1], Token::Keyword(KeywordKind::Struct));
    assert_eq!(tokens[5], Token::Symbol(SymbolKind::TypeBinding));
    assert_eq!(tokens[12], Token::Keyword(KeywordKind::Impl));
    assert_eq!(tokens[19], Token::Symbol(SymbolKind::FunctionReturns));
    assert_eq!(tokens[22], Token::StringLiteral(b"point!".to_vec()));
    assert_eq!(tokens[23], Token::Symbol(SymbolKind::BlockClose));
    assert_eq!(tokens[24], Token::Symbol(SymbolKind::BlockClose));
}
