//! What holds of the tokenizer for every input: identifiers and reserved
//! words that stand alone, and what a token tells about the text it was
//! recognized in.
use vstd::prelude::*;
use crate::bytes::{is_ident_continue, is_space, lemma_run_len_unique, ByteClass, SLASH};
use crate::ident::{ascii_text, ident_len, is_ident_text, lemma_ident_len};
use crate::lexer::{lex, lex_from, token_at};
use crate::skip::{lemma_skip_len_bound, skip_len};
use crate::symbol::{lemma_symbol_at, symbol_at};
use crate::token::{keyword_of, KeywordKind, LexError, TokenView};

verus! {

/// The spelling of a reserved word has the shape of an identifier, and it
/// spells that word and no other.
pub proof fn lemma_keyword_spelling(k: KeywordKind)
    ensures
        is_ident_text(k.spelling()),
        keyword_of(k.spelling()) == Some(k),
{
    let text = k.spelling();
    assert(text.len() >= 2);
    assert(KeywordKind::Else.spelling()[1] == 'l' as u8);
    assert(KeywordKind::Enum.spelling()[1] == 'n' as u8);
    assert(KeywordKind::Fn.spelling()[0] == 'f' as u8);
    assert(KeywordKind::If.spelling()[1] == 'f' as u8);
    assert(KeywordKind::Impl.spelling()[1] == 'm' as u8);
    assert(KeywordKind::Let.spelling()[0] == 'l' as u8);
    assert(KeywordKind::Match.spelling()[1] == 'a' as u8);
    assert(KeywordKind::Mod.spelling()[1] == 'o' as u8);
    assert(KeywordKind::Pub.spelling()[0] == 'p' as u8);
    assert(KeywordKind::Struct.spelling()[0] == 's' as u8);
    assert(KeywordKind::Trait.spelling()[1] == 'r' as u8);
    assert(KeywordKind::Type.spelling()[1] == 'y' as u8);
    assert(KeywordKind::Use.spelling()[0] == 'u' as u8);
    assert(KeywordKind::Where.spelling()[0] == 'w' as u8);
}

/// A text is recognized as a reserved word only where it is the spelling of
/// that word.
pub proof fn lemma_keyword_of(text: Seq<u8>)
    ensures
        keyword_of(text) matches Some(k) ==> text == k.spelling(),
{
}

/// No token starts with a slash or with whitespace, and none where the
/// input has ended.
pub proof fn lemma_token_first_byte(s: Seq<u8>, i: int)
    ensures
        token_at(s, i) is Ok ==> 0 <= i < s.len() && !is_space(s[i]) && s[i] != SLASH,
{
    if token_at(s, i) is Ok {
        lemma_ident_len(s, i);
        lemma_symbol_at(s, i);
        if let Some((k, n)) = symbol_at(s, i) {
            assert(s.subrange(i, i + n)[0] == s[i]);
        }
    }
}

/// An identifier-shaped text that is no reserved word, alone, is one
/// identifier with that text.
pub proof fn lemma_identifier_alone(text: Seq<u8>)
    requires
        is_ident_text(text),
        keyword_of(text) is None,
    ensures
        lex(text) == Ok::<Seq<TokenView>, LexError>(
            seq![TokenView::Identifier(ascii_text(text))],
        ),
{
    lemma_whole_span(text);
    lemma_symbol_at(text, 0);
    if let Some((k, n)) = symbol_at(text, 0) {
        assert(text.subrange(0, n as int)[0] == text[0]);
    }
    let t = TokenView::Identifier(ascii_text(text));
    assert(token_at(text, 0) == Ok::<(TokenView, nat), LexError>((t, text.len())));
    lemma_single_token(text, t);
}

/// The spelling of a reserved word, alone, is one token: that word.
pub proof fn lemma_keyword_alone(k: KeywordKind)
    ensures
        lex(k.spelling()) == Ok::<Seq<TokenView>, LexError>(seq![TokenView::Keyword(k)]),
{
    let text = k.spelling();
    lemma_keyword_spelling(k);
    lemma_whole_span(text);
    let t = TokenView::Keyword(k);
    assert(token_at(text, 0) == Ok::<(TokenView, nat), LexError>((t, text.len())));
    lemma_single_token(text, t);
}

/// An identifier token is never a reserved word: its text has the shape of
/// an identifier, is what stands in the input, and spells no reserved word.
/// A reserved-word token stands where the input spells that word.
pub proof fn lemma_keyword_shadowing(s: Seq<u8>, i: int)
    ensures
        token_at(s, i) matches Ok((TokenView::Identifier(text), n)) ==> {
            let span = s.subrange(i, i + n);
            is_ident_text(span) && text == ascii_text(span) && keyword_of(span) is None
        },
        token_at(s, i) matches Ok((TokenView::Keyword(k), n)) ==> s.subrange(i, i + n)
            == k.spelling(),
{
    lemma_ident_len(s, i);
}

/// In a text of the shape of an identifier nothing is skipped at the start,
/// and the identifier-shaped span at the start is the whole text.
proof fn lemma_whole_span(text: Seq<u8>)
    requires
        is_ident_text(text),
    ensures
        skip_len(text, 0) == 0,
        ident_len(text, 0) == text.len(),
        text.subrange(0, text.len() as int) == text,
{
    assert forall|k: int| 1 <= k < text.len() implies ByteClass::IdentContinue.contains(
        #[trigger] text[k],
    ) by {
        assert(is_ident_continue(text[k]));
    }
    lemma_run_len_unique(text, 1, text.len() - 1, ByteClass::IdentContinue);
    assert(text.subrange(0, text.len() as int) =~= text);
}

/// A text that is one token from its first byte to its last has that token
/// and no other.
proof fn lemma_single_token(text: Seq<u8>, t: TokenView)
    requires
        skip_len(text, 0) == 0,
        text.len() > 0,
        token_at(text, 0) == Ok::<(TokenView, nat), LexError>((t, text.len())),
    ensures
        lex(text) == Ok::<Seq<TokenView>, LexError>(seq![t]),
{
    lemma_skip_len_bound(text, text.len() as int);
    assert(lex_from(text, text.len() as int) == Ok::<Seq<TokenView>, LexError>(Seq::empty()));
    assert(seq![t] + Seq::<TokenView>::empty() =~= seq![t]);
}

} // verus!
