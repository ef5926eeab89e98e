//! Lexical front end of a small programming language.
//!
//! The tokenizer turns UTF-8 source text into an ordered sequence of tokens:
//! keywords, symbols, identifiers and string literals. Comments and
//! whitespace are skipped. Every function is specified over the UTF-8 bytes of
//! its input by the spec functions next to it, and proved against them.
//!
//! The scanning functions take the source text and a byte offset into it,
//! and report how many bytes they have recognized there. None of them
//! panics, whatever the offset is.
pub mod agreement;
pub mod bytes;
pub mod ident;
pub mod laws;
pub mod lexer;
pub mod literal;
pub mod skip;
pub mod symbol;
pub mod syntax;
pub mod token;
pub mod transparency;

pub use bytes::ByteClass;
pub use ident::{parse_ident, parse_keyword, recognize_ident};
pub use lexer::{parse_token, parse_token_stream};
pub use literal::{
    parse_byte_escape, parse_char_escape, parse_escape, parse_fragment, parse_nonescape,
    parse_string_literal, parse_unicode_escape, parse_whitespace_escape, StringFragment,
};
pub use skip::{parse_comment, parse_comment_or_whitespace};
pub use symbol::parse_symbol;
pub use syntax::{parse_function, Arg, Function, IdentDecl, Type};
pub use token::{EscapeError, KeywordKind, LexError, SymbolKind, Token, TokenStream, TokenView};
