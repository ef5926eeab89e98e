use clax_lexer::literal::{push_bytes, push_utf8};
use clax_lexer::{
    parse_byte_escape, parse_char_escape, parse_escape, parse_fragment, parse_nonescape,
    parse_string_literal, parse_token_stream, parse_unicode_escape, parse_whitespace_escape,
    EscapeError, LexError, StringFragment, Token,
};

fn literal(input: &str) -> Vec<u8> {
    match parse_string_literal(input, 0) {
        Ok(Some((bytes, n))) => {
            assert_eq!(n, input.len());
            bytes
        },
        other => panic!("no literal: {other:?}"),
    }
}

fn invalid(offset: usize, reason: EscapeError) -> LexError {
    LexError::InvalidEscape { offset, reason }
}

#[test]
fn empty_literal() {
    assert_eq!(literal("\"\""), Vec::<u8>::new());
    assert_eq!(
        parse_token_stream("\"\"").unwrap().into_tokens(),
        vec![Token::StringLiteral(vec![])]
    );
}

#[test]
fn raw_text_is_taken_as_bytes() {
    assert_eq!(literal("\"hello, world\""), b"hello, world".to_vec());
    assert_eq!(literal("\"héllo\""), "héllo".as_bytes().to_vec());
    assert_eq!(literal("\"line\nbreak\""), b"line\nbreak".to_vec());
    assert_eq!(literal("\"// no comment\""), b"// no comment".to_vec());
}

#[test]
fn one_letter_escapes() {
    assert_eq!(literal("\"\\n\""), vec![0x0A]);
    assert_eq!(literal("\"\\r\""), vec![0x0D]);
    assert_eq!(literal("\"\\t\""), vec![0x09]);
    assert_eq!(literal("\"\\\\\""), vec![0x5C]);
    assert_eq!(literal("\"\\0\""), vec![0x00]);
    assert_eq!(literal("\"\\\"\""), vec![0x22]);
    assert_eq!(literal("\"a\\\"b\""), b"a\"b".to_vec());
}

#[test]
fn byte_escapes_give_any_byte() {
    assert_eq!(literal("\"\\x41\""), vec![0x41]);
    assert_eq!(literal("\"\\x00\""), vec![0x00]);
    assert_eq!(literal("\"\\xff\""), vec![0xFF]);
    assert_eq!(literal("\"\\xFF\""), vec![0xFF]);
    assert_eq!(literal("\"\\xaB\""), vec![0xAB]);
    assert_eq!(literal("\"\\x7f\\x80\""), vec![0x7F, 0x80]);
    assert_eq!(literal("\"\\x414\""), vec![0x41, b'4']);
}

#[test]
fn byte_escape_needs_two_digits() {
    assert_eq!(parse_string_literal("\"\\x4\"", 0), Err(invalid(2, EscapeError::MalformedHex)));
    assert_eq!(parse_string_literal("\"\\x\"", 0), Err(invalid(2, EscapeError::MalformedHex)));
    assert_eq!(parse_string_literal("\"\\xg1\"", 0), Err(invalid(2, EscapeError::MalformedHex)));
    assert_eq!(parse_string_literal("\"\\x1g\"", 0), Err(invalid(2, EscapeError::MalformedHex)));
    assert_eq!(parse_string_literal("\"\\x4", 0), Err(invalid(2, EscapeError::MalformedHex)));
    assert_eq!(parse_string_literal("\"\\X41\"", 0), Err(invalid(2, EscapeError::UnknownEscape)));
}

#[test]
fn unicode_escapes_are_encoded_as_utf8() {
    assert_eq!(literal("\"\\u{0}\""), vec![0x00]);
    assert_eq!(literal("\"\\u{7f}\""), vec![0x7F]);
    assert_eq!(literal("\"\\u{80}\""), vec![0xC2, 0x80]);
    assert_eq!(literal("\"\\u{e9}\""), vec![0xC3, 0xA9]);
    assert_eq!(literal("\"\\u{7FF}\""), vec![0xDF, 0xBF]);
    assert_eq!(literal("\"\\u{800}\""), vec![0xE0, 0xA0, 0x80]);
    assert_eq!(literal("\"\\u{20AC}\""), vec![0xE2, 0x82, 0xAC]);
    assert_eq!(literal("\"\\u{D7FF}\""), vec![0xED, 0x9F, 0xBF]);
    assert_eq!(literal("\"\\u{E000}\""), vec![0xEE, 0x80, 0x80]);
    assert_eq!(literal("\"\\u{FFFF}\""), vec![0xEF, 0xBF, 0xBF]);
    assert_eq!(literal("\"\\u{10000}\""), vec![0xF0, 0x90, 0x80, 0x80]);
    assert_eq!(literal("\"\\u{1F600}\""), vec![0xF0, 0x9F, 0x98, 0x80]);
    assert_eq!(literal("\"\\u{10FFFF}\""), vec![0xF4, 0x8F, 0xBF, 0xBF]);
    assert_eq!(literal("\"\\u{000041}\""), vec![0x41]);
}

#[test]
fn unicode_escape_must_name_a_scalar_value() {
    for text in ["\"\\u{D800}\"", "\"\\u{DFFF}\"", "\"\\u{110000}\"", "\"\\u{FFFFFF}\""] {
        assert_eq!(
            parse_string_literal(text, 0),
            Err(invalid(2, EscapeError::InvalidScalar)),
            "{text}"
        );
    }
}

#[test]
fn unicode_escape_needs_one_to_six_digits_in_braces() {
    for text in [
        "\"\\u{}\"",
        "\"\\u{1234567}\"",
        "\"\\u0041\"",
        "\"\\u{41\"",
        "\"\\u{4g}\"",
        "\"\\u{ 41}\"",
        "\"\\u\"",
        "\"\\u{",
        "\"\\u{41",
    ] {
        assert_eq!(
            parse_string_literal(text, 0),
            Err(invalid(2, EscapeError::MalformedHex)),
            "{text}"
        );
    }
}

#[test]
fn whitespace_escape_stands_for_nothing() {
    assert_eq!(literal("\"a\\ b\""), b"ab".to_vec());
    assert_eq!(literal("\"a\\\n    b\""), b"ab".to_vec());
    assert_eq!(literal("\"a\\ \t\r\n b\""), b"ab".to_vec());
    assert_eq!(literal("\"a\\   \""), b"a".to_vec());
    assert_eq!(literal("\"a \\ b\""), b"a b".to_vec());
}

#[test]
fn unknown_escape_is_refused() {
    assert_eq!(parse_string_literal("\"\\q\"", 0), Err(invalid(2, EscapeError::UnknownEscape)));
    assert_eq!(parse_string_literal("\"ab\\'\"", 0), Err(invalid(4, EscapeError::UnknownEscape)));
    assert_eq!(parse_string_literal("\"\\N\"", 0), Err(invalid(2, EscapeError::UnknownEscape)));
    assert_eq!(parse_string_literal("\"\\é\"", 0), Err(invalid(2, EscapeError::UnknownEscape)));
}

#[test]
fn backslash_at_the_end_of_input_is_an_invalid_escape() {
    assert_eq!(parse_string_literal("\"abc\\", 0), Err(invalid(5, EscapeError::UnknownEscape)));
    assert_eq!(parse_token_stream("\"\\"), Err(invalid(2, EscapeError::UnknownEscape)));
}

#[test]
fn unterminated_literal_is_an_error_at_its_opening_quote() {
    assert_eq!(
        parse_string_literal("\"abc", 0),
        Err(LexError::UnterminatedString { offset: 0 })
    );
    assert_eq!(parse_string_literal("\"", 0), Err(LexError::UnterminatedString { offset: 0 }));
    assert_eq!(
        parse_string_literal("\"abc\\\"", 0),
        Err(LexError::UnterminatedString { offset: 0 })
    );
    assert_eq!(
        parse_token_stream("let s = \"abc"),
        Err(LexError::UnterminatedString { offset: 8 })
    );
    assert_eq!(
        parse_token_stream("\"a\" \"b"),
        Err(LexError::UnterminatedString { offset: 4 })
    );
}

#[test]
fn first_error_in_a_literal_wins() {
    assert_eq!(parse_string_literal("\"\\q", 0), Err(invalid(2, EscapeError::UnknownEscape)));
    assert_eq!(
        parse_string_literal("\"\\x4g \\u{D800}", 0),
        Err(invalid(2, EscapeError::MalformedHex))
    );
}

#[test]
fn no_literal_where_no_quote_stands() {
    assert_eq!(parse_string_literal("abc", 0), Ok(None));
    assert_eq!(parse_string_literal("", 0), Ok(None));
    assert_eq!(parse_string_literal("\"a\"", 3), Ok(None));
    assert_eq!(parse_string_literal("\"a\"", 9), Ok(None));
    assert_eq!(parse_string_literal("\\q", 0), Ok(None));
}

#[test]
fn literal_in_the_middle_of_text() {
    assert_eq!(parse_string_literal("x = \"hi\";", 4), Ok(Some((b"hi".to_vec(), 4))));
    assert_eq!(parse_string_literal("\"a\"\"b\"", 3), Ok(Some((b"b".to_vec(), 3))));
    assert_eq!(parse_string_literal("\"a\"\"b\"", 2), Ok(Some((vec![], 2))));
}

#[test]
fn adjacent_literals_are_two_tokens() {
    assert_eq!(
        parse_token_stream("\"a\"\"b\"").unwrap().into_tokens(),
        vec![Token::StringLiteral(b"a".to_vec()), Token::StringLiteral(b"b".to_vec())]
    );
}

#[test]
fn mixed_fragments_keep_their_order() {
    assert_eq!(
        literal("\"a\\x00b\\u{e9}c\\n\\   d\\\\\""),
        vec![b'a', 0x00, b'b', 0xC3, 0xA9, b'c', 0x0A, b'd', 0x5C]
    );
}

#[test]
fn fragments_one_by_one() {
    let text = "ab\\n\\x41\\u{48}\" rest";
    assert_eq!(parse_fragment(text, 0), Ok(Some((StringFragment::Str(b"ab"), 2))));
    assert_eq!(parse_fragment(text, 2), Ok(Some((StringFragment::Byte(0x0A), 2))));
    assert_eq!(parse_fragment(text, 4), Ok(Some((StringFragment::Byte(0x41), 4))));
    assert_eq!(parse_fragment(text, 8), Ok(Some((StringFragment::Char('H'), 6))));
    assert_eq!(parse_fragment(text, 14), Ok(None));
    assert_eq!(parse_fragment(text, text.len()), Ok(None));
    assert_eq!(parse_fragment(text, text.len() + 1), Ok(None));
    assert_eq!(parse_fragment("\\ \n x", 0), Ok(Some((StringFragment::Str(b""), 4))));
    assert_eq!(parse_fragment("\\q", 0), Err(invalid(1, EscapeError::UnknownEscape)));
}

#[test]
fn raw_text_stops_at_quote_and_backslash() {
    assert_eq!(parse_nonescape("abc\"def", 0), Some((StringFragment::Str(b"abc"), 3)));
    assert_eq!(parse_nonescape("abc\\def", 0), Some((StringFragment::Str(b"abc"), 3)));
    assert_eq!(parse_nonescape("abc", 1), Some((StringFragment::Str(b"bc"), 2)));
    assert_eq!(parse_nonescape("\"abc", 0), None);
    assert_eq!(parse_nonescape("\\abc", 0), None);
    assert_eq!(parse_nonescape("", 0), None);
    assert_eq!(parse_nonescape("abc", 3), None);
}

#[test]
fn escape_forms_one_by_one() {
    assert_eq!(parse_whitespace_escape(" \t\nx", 0), Some((StringFragment::Str(b""), 3)));
    assert_eq!(parse_whitespace_escape("x", 0), None);
    assert_eq!(parse_whitespace_escape("", 0), None);
    assert_eq!(parse_char_escape("n", 0), Some((StringFragment::Byte(0x0A), 1)));
    assert_eq!(parse_char_escape("0", 0), Some((StringFragment::Byte(0x00), 1)));
    assert_eq!(parse_char_escape("x", 0), None);
    assert_eq!(parse_char_escape("", 0), None);
    assert_eq!(parse_byte_escape("x41", 0), Ok(Some((StringFragment::Byte(0x41), 3))));
    assert_eq!(parse_byte_escape("xzz", 0), Err(EscapeError::MalformedHex));
    assert_eq!(parse_byte_escape("u{41}", 0), Ok(None));
    assert_eq!(parse_byte_escape("", 0), Ok(None));
    assert_eq!(parse_unicode_escape("u{48}", 0), Ok(Some((StringFragment::Char('H'), 5))));
    assert_eq!(parse_unicode_escape("u{D800}", 0), Err(EscapeError::InvalidScalar));
    assert_eq!(parse_unicode_escape("u48", 0), Err(EscapeError::MalformedHex));
    assert_eq!(parse_unicode_escape("x41", 0), Ok(None));
    assert_eq!(parse_escape("\\t", 0), Ok(Some((StringFragment::Byte(0x09), 2))));
    assert_eq!(parse_escape("t", 0), Ok(None));
    assert_eq!(parse_escape("a\\q", 1), Err(invalid(2, EscapeError::UnknownEscape)));
}

#[test]
fn whitespace_escape_comes_before_the_others() {
    assert_eq!(parse_escape("\\\n", 0), Ok(Some((StringFragment::Str(b""), 2))));
    assert_eq!(parse_escape("\\\tn", 0), Ok(Some((StringFragment::Str(b""), 2))));
}

#[test]
fn utf8_encoder_agrees_with_std() {
    let samples = [
        '\0', 'a', '\u{7f}', '\u{80}', 'é', '\u{7ff}', '\u{800}', '€', '\u{d7ff}', '\u{e000}',
        '\u{ffff}', '\u{10000}', '😀', '\u{10ffff}',
    ];
    for c in samples {
        let mut out = vec![0xAA];
        push_utf8(&mut out, c);
        let mut expected = vec![0xAA];
        expected.extend_from_slice(c.to_string().as_bytes());
        assert_eq!(out, expected, "{c:?}");
    }
}

#[test]
fn fragments_append_their_bytes() {
    let mut out = vec![1, 2];
    push_bytes(&mut out, &[3, 4]);
    assert_eq!(out, vec![1, 2, 3, 4]);
    StringFragment::Str(b"xy").append_to(&mut out);
    StringFragment::Byte(0xFF).append_to(&mut out);
    StringFragment::Char('é').append_to(&mut out);
    StringFragment::Str(b"").append_to(&mut out);
    assert_eq!(out, vec![1, 2, 3, 4, b'x', b'y', 0xFF, 0xC3, 0xA9]);
}

#[test]
fn fragments_from_plain_values() {
    assert_eq!(StringFragment::from(&b"ab"[..]), StringFragment::Str(b"ab"));
    assert_eq!(StringFragment::from(0x41u8), StringFragment::Byte(0x41));
    assert_eq!(StringFragment::from('é'), StringFragment::Char('é'));
    let fragment: StringFragment = 'x'.into();
    assert_eq!(fragment, StringFragment::Char('x'));
}
