//! Tokens, the two closed enumerations with their spellings, and errors.
use vstd::prelude::*;
use vstd::string::StringSliceAdditionalSpecFns;

verus! {

/// The reserved words.
#[derive(Clone, Copy, Debug, PartialEq, Eq, Hash, Structural)]
pub enum KeywordKind {
    Else,
    Enum,
    Fn,
    If,
    Impl,
    Let,
    Match,
    Mod,
    Pub,
    Struct,
    Trait,
    Type,
    Use,
    Where,
}

impl KeywordKind {
    /// The bytes of the reserved word: its lower-case spelling.
    pub open spec fn spelling(self) -> Seq<u8> {
        match self {
            KeywordKind::Else => seq!['e' as u8, 'l' as u8, 's' as u8, 'e' as u8],
            KeywordKind::Enum => seq!['e' as u8, 'n' as u8, 'u' as u8, 'm' as u8],
            KeywordKind::Fn => seq!['f' as u8, 'n' as u8],
            KeywordKind::If => seq!['i' as u8, 'f' as u8],
            KeywordKind::Impl => seq!['i' as u8, 'm' as u8, 'p' as u8, 'l' as u8],
            KeywordKind::Let => seq!['l' as u8, 'e' as u8, 't' as u8],
            KeywordKind::Match => seq!['m' as u8, 'a' as u8, 't' as u8, 'c' as u8, 'h' as u8],
            KeywordKind::Mod => seq!['m' as u8, 'o' as u8, 'd' as u8],
            KeywordKind::Pub => seq!['p' as u8, 'u' as u8, 'b' as u8],
            KeywordKind::Struct => seq![
                's' as u8,
                't' as u8,
                'r' as u8,
                'u' as u8,
                'c' as u8,
                't' as u8,
            ],
            KeywordKind::Trait => seq!['t' as u8, 'r' as u8, 'a' as u8, 'i' as u8, 't' as u8],
            KeywordKind::Type => seq!['t' as u8, 'y' as u8, 'p' as u8, 'e' as u8],
            KeywordKind::Use => seq!['u' as u8, 's' as u8, 'e' as u8],
            KeywordKind::Where => seq!['w' as u8, 'h' as u8, 'e' as u8, 'r' as u8, 'e' as u8],
        }
    }

    /// The reserved word as text.
    pub fn as_str(self) -> (r: &'static str)
        ensures
            r.spec_bytes() == self.spelling(),
    {
        let r = match self {
            KeywordKind::Else => "else",
            KeywordKind::Enum => "enum",
            KeywordKind::Fn => "fn",
            KeywordKind::If => "if",
            KeywordKind::Impl => "impl",
            KeywordKind::Let => "let",
            KeywordKind::Match => "match",
            KeywordKind::Mod => "mod",
            KeywordKind::Pub => "pub",
            KeywordKind::Struct => "struct",
            KeywordKind::Trait => "trait",
            KeywordKind::Type => "type",
            KeywordKind::Use => "use",
            KeywordKind::Where => "where",
        };
        proof {
            reveal_strlit("else");
            reveal_strlit("enum");
            reveal_strlit("fn");
            reveal_strlit("if");
            reveal_strlit("impl");
            reveal_strlit("let");
            reveal_strlit("match");
            reveal_strlit("mod");
            reveal_strlit("pub");
            reveal_strlit("struct");
            reveal_strlit("trait");
            reveal_strlit("type");
            reveal_strlit("use");
            reveal_strlit("where");
            vstd::utf8::is_ascii_chars_encode_utf8(r@);
            assert(r.spec_bytes() =~= self.spelling());
        }
        r
    }
}

/// The reserved word that `text` spells, if it spells one. The whole of
/// `text` must equal the spelling, case included.
pub open spec fn keyword_of(text: Seq<u8>) -> Option<KeywordKind> {
    if text == KeywordKind::Else.spelling() {
        Some(KeywordKind::Else)
    } else if text == KeywordKind::Enum.spelling() {
        Some(KeywordKind::Enum)
    } else if text == KeywordKind::Fn.spelling() {
        Some(KeywordKind::Fn)
    } else if text == KeywordKind::If.spelling() {
        Some(KeywordKind::If)
    } else if text == KeywordKind::Impl.spelling() {
        Some(KeywordKind::Impl)
    } else if text == KeywordKind::Let.spelling() {
        Some(KeywordKind::Let)
    } else if text == KeywordKind::Match.spelling() {
        Some(KeywordKind::Match)
    } else if text == KeywordKind::Mod.spelling() {
        Some(KeywordKind::Mod)
    } else if text == KeywordKind::Pub.spelling() {
        Some(KeywordKind::Pub)
    } else if text == KeywordKind::Struct.spelling() {
        Some(KeywordKind::Struct)
    } else if text == KeywordKind::Trait.spelling() {
        Some(KeywordKind::Trait)
    } else if text == KeywordKind::Type.spelling() {
        Some(KeywordKind::Type)
    } else if text == KeywordKind::Use.spelling() {
        Some(KeywordKind::Use)
    } else if text == KeywordKind::Where.spelling() {
        Some(KeywordKind::Where)
    } else {
        None
    }
}

/// Punctuation and operators.
#[derive(Clone, Copy, Debug, PartialEq, Eq, Hash, Structural)]
pub enum SymbolKind {
    /// `::`
    NamespaceSeparator,
    /// `:`
    TypeBinding,
    /// `..`
    ReverseSplat,
    /// `.`
    FieldAccessor,
    /// `=>`
    MatchArm,
    /// `->`
    FunctionReturns,
    /// `=`
    Assign,
    /// `+`
    TraitPlus,
    /// `|`
    PatternOr,
    /// `*`
    Splat,
    /// `@`
    PatternBind,
    /// `,`
    FieldSeparator,
    /// `;`
    StatementSeparator,
    /// `<`
    GenericOpen,
    /// `>`
    GenericClose,
    /// `{`
    BlockOpen,
    /// `}`
    BlockClose,
    /// `[`
    ListOpen,
    /// `]`
    ListClose,
    /// `(`
    GroupOpen,
    /// `)`
    GroupClose,
}

impl SymbolKind {
    /// The bytes of the symbol.
    pub open spec fn spelling(self) -> Seq<u8> {
        match self {
            SymbolKind::NamespaceSeparator => seq![':' as u8, ':' as u8],
            SymbolKind::TypeBinding => seq![':' as u8],
            SymbolKind::ReverseSplat => seq!['.' as u8, '.' as u8],
            SymbolKind::FieldAccessor => seq!['.' as u8],
            SymbolKind::MatchArm => seq!['=' as u8, '>' as u8],
            SymbolKind::FunctionReturns => seq!['-' as u8, '>' as u8],
            SymbolKind::Assign => seq!['=' as u8],
            SymbolKind::TraitPlus => seq!['+' as u8],
            SymbolKind::PatternOr => seq!['|' as u8],
            SymbolKind::Splat => seq!['*' as u8],
            SymbolKind::PatternBind => seq!['@' as u8],
            SymbolKind::FieldSeparator => seq![',' as u8],
            SymbolKind::StatementSeparator => seq![';' as u8],
            SymbolKind::GenericOpen => seq!['<' as u8],
            SymbolKind::GenericClose => seq!['>' as u8],
            SymbolKind::BlockOpen => seq!['{' as u8],
            SymbolKind::BlockClose => seq!['}' as u8],
            SymbolKind::ListOpen => seq!['[' as u8],
            SymbolKind::ListClose => seq![']' as u8],
            SymbolKind::GroupOpen => seq!['(' as u8],
            SymbolKind::GroupClose => seq![')' as u8],
        }
    }

    /// The symbol as text.
    pub fn as_str(self) -> (r: &'static str)
        ensures
            r.spec_bytes() == self.spelling(),
    {
        let r = match self {
            SymbolKind::NamespaceSeparator => "::",
            SymbolKind::TypeBinding => ":",
            SymbolKind::ReverseSplat => "..",
            SymbolKind::FieldAccessor => ".",
            SymbolKind::MatchArm => "=>",
            SymbolKind::FunctionReturns => "->",
            SymbolKind::Assign => "=",
            SymbolKind::TraitPlus => "+",
            SymbolKind::PatternOr => "|",
            SymbolKind::Splat => "*",
            SymbolKind::PatternBind => "@",
            SymbolKind::FieldSeparator => ",",
            SymbolKind::StatementSeparator => ";",
            SymbolKind::GenericOpen => "<",
            SymbolKind::GenericClose => ">",
            SymbolKind::BlockOpen => "{",
            SymbolKind::BlockClose => "}",
            SymbolKind::ListOpen => "[",
            SymbolKind::ListClose => "]",
            SymbolKind::GroupOpen => "(",
            SymbolKind::GroupClose => ")",
        };
        proof {
            reveal_strlit("::");
            reveal_strlit(":");
            reveal_strlit("..");
            reveal_strlit(".");
            reveal_strlit("=>");
            reveal_strlit("->");
            reveal_strlit("=");
            reveal_strlit("+");
            reveal_strlit("|");
            reveal_strlit("*");
            reveal_strlit("@");
            reveal_strlit(",");
            reveal_strlit(";");
            reveal_strlit("<");
            reveal_strlit(">");
            reveal_strlit("{");
            reveal_strlit("}");
            reveal_strlit("[");
            reveal_strlit("]");
            reveal_strlit("(");
            reveal_strlit(")");
            vstd::utf8::is_ascii_chars_encode_utf8(r@);
            assert(r.spec_bytes() =~= self.spelling());
        }
        r
    }
}

/// Why an escape sequence in a string literal was refused.
#[derive(Clone, Copy, Debug, PartialEq, Eq, Structural)]
pub enum EscapeError {
    /// The backslash is followed by nothing that opens an escape.
    UnknownEscape,
    /// `x` without two hexadecimal digits, or `u` without one to six of them
    /// in braces.
    MalformedHex,
    /// The digits of a `u` escape name no Unicode scalar value.
    InvalidScalar,
}

/// A lexical failure. `offset` is a byte offset into the input.
#[derive(Clone, Copy, Debug, PartialEq, Eq, Structural)]
pub enum LexError {
    /// The literal whose opening quote stands at `offset` is not closed.
    UnterminatedString { offset: usize },
    /// The text at `offset`, just behind a backslash, is no escape.
    InvalidEscape { offset: usize, reason: EscapeError },
    /// No token starts at `offset`.
    UnrecognizedToken { offset: usize },
}

impl LexError {
    /// The byte offset at which scanning stopped.
    pub open spec fn spec_offset(self) -> usize {
        match self {
            LexError::UnterminatedString { offset } => offset,
            LexError::InvalidEscape { offset, .. } => offset,
            LexError::UnrecognizedToken { offset } => offset,
        }
    }

    /// The byte offset at which scanning stopped.
    #[verifier::when_used_as_spec(spec_offset)]
    pub fn offset(self) -> (r: usize)
        ensures
            r == self.spec_offset(),
    {
        match self {
            LexError::UnterminatedString { offset } => offset,
            LexError::InvalidEscape { offset, .. } => offset,
            LexError::UnrecognizedToken { offset } => offset,
        }
    }
}

/// One token.
#[derive(Clone, Debug, PartialEq, Eq)]
pub enum Token {
    Keyword(KeywordKind),
    Symbol(SymbolKind),
    /// An identifier, which is never a reserved word.
    Identifier(String),
    /// The decoded bytes of a string literal; they need not be UTF-8.
    StringLiteral(Vec<u8>),
}

/// What a token is, as a mathematical value.
pub enum TokenView {
    Keyword(KeywordKind),
    Symbol(SymbolKind),
    Identifier(Seq<char>),
    StringLiteral(Seq<u8>),
}

impl View for Token {
    type V = TokenView;

    open spec fn view(&self) -> TokenView {
        match self {
            Token::Keyword(k) => TokenView::Keyword(*k),
            Token::Symbol(k) => TokenView::Symbol(*k),
            Token::Identifier(text) => TokenView::Identifier(text@),
            Token::StringLiteral(bytes) => TokenView::StringLiteral(bytes@),
        }
    }
}

/// The tokens of a source text, in the order in which they appear.
#[derive(Clone, Debug, PartialEq, Eq)]
pub struct TokenStream {
    toks: Vec<Token>,
}

impl View for TokenStream {
    type V = Seq<TokenView>;

    closed spec fn view(&self) -> Seq<TokenView> {
        Seq::new(self.toks.len() as nat, |i: int| self.toks[i]@)
    }
}

impl TokenStream {
    /// A stream without tokens.
    pub fn new() -> (r: TokenStream)
        ensures
            r@ == Seq::<TokenView>::empty(),
    {
        let r = TokenStream { toks: Vec::new() };
        assert(r@ =~= Seq::<TokenView>::empty());
        r
    }

    /// Appends `tok`.
    pub fn push(&mut self, tok: Token)
        ensures
            final(self)@ == old(self)@.push(tok@),
    {
        self.toks.push(tok);
        assert(self@ =~= old(self)@.push(tok@));
    }

    /// The number of tokens.
    pub fn len(&self) -> (n: usize)
        ensures
            n == self@.len(),
    {
        self.toks.len()
    }

    /// Whether the stream holds no token.
    pub fn is_empty(&self) -> (r: bool)
        ensures
            r == (self@.len() == 0),
    {
        self.toks.len() == 0
    }

    /// The token at index `i`, if there is one.
    pub fn get(&self, i: usize) -> (r: Option<&Token>)
        ensures
            i < self@.len() ==> r is Some && r->0@ == self@[i as int],
            i >= self@.len() ==> r is None,
    {
        if i < self.toks.len() {
            Some(&self.toks[i])
        } else {
            None
        }
    }

    /// The tokens, in order.
    pub fn tokens(&self) -> (r: &[Token])
        ensures
            r@.len() == self@.len(),
            forall|i: int| 0 <= i < r@.len() ==> (#[trigger] r@[i])@ == self@[i],
    {
        self.toks.as_slice()
    }

    /// Gives up the stream for its tokens.
    pub fn into_tokens(self) -> (r: Vec<Token>)
        ensures
            r@.len() == self@.len(),
            forall|i: int| 0 <= i < r@.len() ==> (#[trigger] r@[i])@ == self@[i],
    {
        self.toks
    }
}

} // verus!
