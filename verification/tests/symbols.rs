use clax_lexer::{parse_symbol, parse_token_stream, LexError, SymbolKind, Token};

const SYMBOLS: [(&str, SymbolKind); 21] = [
    ("::", SymbolKind::NamespaceSeparator),
    (":", SymbolKind::TypeBinding),
    ("..", SymbolKind::ReverseSplat),
    (".", SymbolKind::FieldAccessor),
    ("=>", SymbolKind::MatchArm),
    ("->", SymbolKind::FunctionReturns),
    ("=", SymbolKind::Assign),
    ("+", SymbolKind::TraitPlus),
    ("|", SymbolKind::PatternOr),
    ("*", SymbolKind::Splat),
    ("@", SymbolKind::PatternBind),
    (",", SymbolKind::FieldSeparator),
    (";", SymbolKind::StatementSeparator),
    ("<", SymbolKind::GenericOpen),
    (">", SymbolKind::GenericClose),
    ("{", SymbolKind::BlockOpen),
    ("}", SymbolKind::BlockClose),
    ("[", SymbolKind::ListOpen),
    ("]", SymbolKind::ListClose),
    ("(", SymbolKind::GroupOpen),
    (")", SymbolKind::GroupClose),
];

fn symbols(input: &str) -> Vec<SymbolKind> {
    parse_token_stream(input)
        .unwrap()
        .into_tokens()
        .into_iter()
        .map(|t| match t {
            Token::Symbol(k) => k,
            other => panic!("not a symbol: {other:?}"),
        })
        .collect()
}

#[test]
fn every_symbol_alone() {
    for (text, kind) in SYMBOLS {
        assert_eq!(symbols(text), vec![kind], "{text}");
        assert_eq!(parse_symbol(text, 0), Some((kind, text.len())), "{text}");
        assert_eq!(kind.as_str(), text);
    }
}

#[test]
fn longest_spelling_wins() {
    assert_eq!(parse_symbol("::", 0), Some((SymbolKind::NamespaceSeparator, 2)));
    assert_eq!(parse_symbol("..", 0), Some((SymbolKind::ReverseSplat, 2)));
    assert_eq!(parse_symbol("=>", 0), Some((SymbolKind::MatchArm, 2)));
    assert_eq!(parse_symbol("->", 0), Some((SymbolKind::FunctionReturns, 2)));
    assert_eq!(parse_symbol("::", 1), Some((SymbolKind::TypeBinding, 1)));
    assert_eq!(parse_symbol("..", 1), Some((SymbolKind::FieldAccessor, 1)));
    assert_eq!(parse_symbol("=>", 1), Some((SymbolKind::GenericClose, 1)));
}

#[test]
fn odd_runs_split_left_to_right() {
    assert_eq!(symbols(":::"), vec![SymbolKind::NamespaceSeparator, SymbolKind::TypeBinding]);
    assert_eq!(symbols("..."), vec![SymbolKind::ReverseSplat, SymbolKind::FieldAccessor]);
    assert_eq!(symbols("==>"), vec![SymbolKind::Assign, SymbolKind::MatchArm]);
    assert_eq!(symbols("=>>"), vec![SymbolKind::MatchArm, SymbolKind::GenericClose]);
    assert_eq!(symbols(": :"), vec![SymbolKind::TypeBinding, SymbolKind::TypeBinding]);
    assert_eq!(symbols("= >"), vec![SymbolKind::Assign, SymbolKind::GenericClose]);
}

#[test]
fn minus_alone_is_no_symbol() {
    assert_eq!(parse_symbol("-", 0), None);
    assert_eq!(parse_symbol("- >", 0), None);
    assert_eq!(parse_token_stream("a - b"), Err(LexError::UnrecognizedToken { offset: 2 }));
}

#[test]
fn no_symbol_where_none_stands() {
    assert_eq!(parse_symbol("", 0), None);
    assert_eq!(parse_symbol("a", 0), None);
    assert_eq!(parse_symbol("/", 0), None);
    assert_eq!(parse_symbol("\"", 0), None);
    assert_eq!(parse_symbol("::", 2), None);
    assert_eq!(parse_symbol("::", 7), None);
    assert_eq!(parse_symbol("#", 0), None);
}

#[test]
fn symbol_in_the_middle_of_text() {
    assert_eq!(parse_symbol("a::b", 1), Some((SymbolKind::NamespaceSeparator, 2)));
    assert_eq!(parse_symbol("a::b", 2), Some((SymbolKind::TypeBinding, 1)));
    assert_eq!(parse_symbol("a::b", 3), None);
}
