//! The dispatcher, which recognizes one token, and the driver, which turns
//! a whole source text into its tokens.
use vstd::prelude::*;
use vstd::string::StringSliceAdditionalSpecFns;
use crate::ident::{ident_at, keyword_at, lemma_ident_len, parse_ident, parse_keyword};
use crate::literal::{lemma_string_body_bound, parse_string_literal, string_literal_at};
use crate::skip::{lemma_skip_len_bound, parse_comment_or_whitespace, skip_len};
use crate::symbol::{lemma_symbol_at, parse_symbol, symbol_at};
use crate::token::{LexError, Token, TokenStream, TokenView};

verus! {

/// The token at index `i` and its length. The productions are tried in a
/// fixed order: reserved word, symbol, identifier, string literal. The first
/// that stands there decides, so that a span that spells a reserved word is
/// never an identifier. Where none stands, no token is recognized; an error
/// inside a string literal is final.
pub open spec fn token_at(s: Seq<u8>, i: int) -> Result<(TokenView, nat), LexError> {
    match keyword_at(s, i) {
        Some((k, n)) => Ok((TokenView::Keyword(k), n)),
        None => match symbol_at(s, i) {
            Some((k, n)) => Ok((TokenView::Symbol(k), n)),
            None => match ident_at(s, i) {
                Some((text, n)) => Ok((TokenView::Identifier(text), n)),
                None => match string_literal_at(s, i) {
                    Err(e) => Err(e),
                    Ok(Some((bytes, n))) => Ok((TokenView::StringLiteral(bytes), n)),
                    Ok(None) => Err(LexError::UnrecognizedToken { offset: i as usize }),
                },
            },
        },
    }
}

/// A token is not empty and stays inside the sequence.
pub proof fn lemma_token_bound(s: Seq<u8>, i: int)
    ensures
        token_at(s, i) matches Ok((t, n)) ==> n >= 1 && 0 <= i && i + n <= s.len(),
{
    lemma_ident_len(s, i);
    lemma_symbol_at(s, i);
    lemma_string_body_bound(s, i + 1);
}

/// Puts the tokens `prefix` before the outcome of lexing the rest.
pub open spec fn tokens_after(prefix: Seq<TokenView>, rest: Result<Seq<TokenView>, LexError>)
    -> Result<Seq<TokenView>, LexError> {
    match rest {
        Ok(tokens) => Ok(prefix + tokens),
        Err(e) => Err(e),
    }
}

/// The tokens of `s` from index `i` on: what can be skipped is skipped, a
/// token is recognized, and so on until the input is used up. The first
/// error ends it, and no token is kept then.
pub open spec fn lex_from(s: Seq<u8>, i: int) -> Result<Seq<TokenView>, LexError>
    decreases s.len() - i,
{
    let j = i + skip_len(s, i);
    if 0 <= j < s.len() {
        match token_at(s, j) {
            Err(e) => Err(e),
            Ok((t, n)) => {
                proof {
                    lemma_token_bound(s, j);
                }
                tokens_after(seq![t], lex_from(s, j + n))
            },
        }
    } else {
        Ok(Seq::empty())
    }
}

/// The tokens of the source text `s`, or the error that ends the scan.
pub open spec fn lex(s: Seq<u8>) -> Result<Seq<TokenView>, LexError> {
    lex_from(s, 0)
}

/// Recognizes the token at `pos` and returns it with its length in bytes.
/// Reserved word, symbol, identifier and string literal are tried in this
/// order, and each from `pos` anew. Where none of them stands the error is
/// `UnrecognizedToken` at `pos`; an unterminated literal and an invalid
/// escape are errors of their own.
pub fn parse_token(input: &str, pos: usize) -> (r: Result<(Token, usize), LexError>)
    ensures
        match r {
            Ok((t, n)) => token_at(input.spec_bytes(), pos as int) == Ok::<
                (TokenView, nat),
                LexError,
            >((t@, n as nat)) && n >= 1 && pos + n <= input.spec_bytes().len(),
            Err(e) => token_at(input.spec_bytes(), pos as int) == Err::<(TokenView, nat), LexError>(
                e,
            ),
        },
{
    proof {
        lemma_token_bound(input.spec_bytes(), pos as int);
    }
    if let Some((k, n)) = parse_keyword(input, pos) {
        return Ok((Token::Keyword(k), n));
    }
    if let Some((k, n)) = parse_symbol(input, pos) {
        return Ok((Token::Symbol(k), n));
    }
    if let Some((text, n)) = parse_ident(input, pos) {
        return Ok((Token::Identifier(text), n));
    }
    match parse_string_literal(input, pos) {
        Err(e) => Err(e),
        Ok(Some((bytes, n))) => Ok((Token::StringLiteral(bytes), n)),
        Ok(None) => Err(LexError::UnrecognizedToken { offset: pos }),
    }
}

/// Turns a source text into its tokens, in the order in which they appear.
/// Comments and whitespace leave no trace. The scan covers the whole input:
/// the first lexical error ends it, and then the error is all that is
/// returned.
pub fn parse_token_stream(input: &str) -> (r: Result<TokenStream, LexError>)
    ensures
        match r {
            Ok(stream) => lex(input.spec_bytes()) == Ok::<Seq<TokenView>, LexError>(stream@),
            Err(e) => lex(input.spec_bytes()) == Err::<Seq<TokenView>, LexError>(e),
        },
{
    let len = input.as_bytes().len();
    let ghost s = input.spec_bytes();
    let mut stream = TokenStream::new();
    let mut k: usize = 0;
    assert(stream@ + lex_from(s, 0)->Ok_0 =~= lex_from(s, 0)->Ok_0);
    loop
        invariant
            s == input.spec_bytes(),
            len == s.len(),
            k <= len,
            lex(s) == tokens_after(stream@, lex_from(s, k as int)),
        decreases len - k,
    {
        proof {
            lemma_skip_len_bound(s, k as int);
        }
        if let Some(n) = parse_comment_or_whitespace(input, k) {
            k += n;
        }
        if k >= len {
            assert(stream@ + Seq::<TokenView>::empty() =~= stream@);
            return Ok(stream);
        }
        match parse_token(input, k) {
            Err(e) => {
                return Err(e);
            },
            Ok((t, n)) => {
                proof {
                    let rest = lex_from(s, k + n);
                    if let Ok(tokens) = rest {
                        assert(stream@ + (seq![t@] + tokens) =~= stream@.push(t@) + tokens);
                    }
                }
                stream.push(t);
                k += n;
            },
        }
    }
}

} // verus!
