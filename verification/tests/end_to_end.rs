use clax_lexer::{parse_token_stream, EscapeError, KeywordKind, LexError, SymbolKind, Token};

fn lex(input: &str) -> Vec<Token> {
    parse_token_stream(input).unwrap().into_tokens()
}

fn ident(name: &str) -> Token {
    Token::Identifier(name.to_string())
}

#[test]
fn function_declaration() {
    assert_eq!(
        lex("fn foo() {}"),
        vec![
            Token::Keyword(KeywordKind::Fn),
            ident("foo"),
            Token::Symbol(SymbolKind::GroupOpen),
            Token::Symbol(SymbolKind::GroupClose),
            Token::Symbol(SymbolKind::BlockOpen),
            Token::Symbol(SymbolKind::BlockClose),
        ]
    );
}

#[test]
fn comment_then_statement() {
    assert_eq!(
        lex("// note\nlet x::y;"),
        vec![
            Token::Keyword(KeywordKind::Let),
            ident("x"),
            Token::Symbol(SymbolKind::NamespaceSeparator),
            ident("y"),
            Token::Symbol(SymbolKind::StatementSeparator),
        ]
    );
}

#[test]
fn escape_round_trip() {
    assert_eq!(lex("\"a\\nb\""), vec![Token::StringLiteral(vec![b'a', 0x0A, b'b'])]);
}

#[test]
fn unicode_escape_is_utf8() {
    assert_eq!(lex("\"\\u{48}\\u{69}\""), vec![Token::StringLiteral(vec![b'H', b'i'])]);
}

#[test]
fn invalid_escape_fails_hard() {
    assert_eq!(
        parse_token_stream("\"\\q\""),
        Err(LexError::InvalidEscape { offset: 2, reason: EscapeError::UnknownEscape })
    );
    assert_eq!(
        parse_token_stream("let x = \"ok\\q\";"),
        Err(LexError::InvalidEscape { offset: 12, reason: EscapeError::UnknownEscape })
    );
}

#[test]
fn namespace_separator_is_one_token() {
    assert_eq!(lex("::"), vec![Token::Symbol(SymbolKind::NamespaceSeparator)]);
}

#[test]
fn reverse_splat_is_one_token() {
    assert_eq!(lex(".."), vec![Token::Symbol(SymbolKind::ReverseSplat)]);
}

#[test]
fn match_arm_is_one_token() {
    assert_eq!(lex("=>"), vec![Token::Symbol(SymbolKind::MatchArm)]);
}

#[test]
fn empty_input_has_no_tokens() {
    assert_eq!(lex(""), vec![]);
    assert_eq!(lex(" \t\r\n"), vec![]);
    assert_eq!(lex("// only a comment"), vec![]);
}
