//! Function declarations, read from a token stream.
//!
//! A declaration is `fn`, a name, a parenthesized list of arguments
//! separated by commas, each a name, a colon and a type, then optionally
//! `->` and a return type, and an empty block. A type is `i32` or `String`.
use vstd::prelude::*;
use crate::token::{KeywordKind, SymbolKind, Token, TokenStream, TokenView};

verus! {

/// A declared name.
#[derive(Clone, Debug, PartialEq, Eq)]
pub struct IdentDecl(pub String);

/// A type.
#[derive(Clone, Copy, Debug, PartialEq, Eq, Structural)]
pub enum Type {
    I32,
    String,
}

/// One argument of a function.
#[derive(Clone, Debug, PartialEq, Eq)]
pub struct Arg {
    pub ident: IdentDecl,
    pub ty: Type,
}

/// A function declaration.
#[derive(Clone, Debug, PartialEq, Eq)]
pub struct Function {
    pub ident: IdentDecl,
    pub args: Vec<Arg>,
    pub return_type: Option<Type>,
}

/// What an argument is, as a mathematical value.
pub struct ArgView {
    pub ident: Seq<char>,
    pub ty: Type,
}

/// What a function declaration is, as a mathematical value.
pub struct FunctionView {
    pub ident: Seq<char>,
    pub args: Seq<ArgView>,
    pub return_type: Option<Type>,
}

impl View for IdentDecl {
    type V = Seq<char>;

    open spec fn view(&self) -> Seq<char> {
        self.0@
    }
}

impl View for Arg {
    type V = ArgView;

    open spec fn view(&self) -> ArgView {
        ArgView { ident: self.ident@, ty: self.ty }
    }
}

impl View for Function {
    type V = FunctionView;

    open spec fn view(&self) -> FunctionView {
        FunctionView {
            ident: self.ident@,
            args: Seq::new(self.args.len() as nat, |i: int| self.args[i]@),
            return_type: self.return_type,
        }
    }
}

/// Whether index `i` of `ts` exists and holds the symbol `k`.
pub open spec fn symbol_is(ts: Seq<TokenView>, i: int, k: SymbolKind) -> bool {
    0 <= i < ts.len() && ts[i] == TokenView::Symbol(k)
}

/// The name that the identifier at index `i` of `ts` gives.
pub open spec fn name_at(ts: Seq<TokenView>, i: int) -> Option<Seq<char>> {
    if 0 <= i < ts.len() {
        match ts[i] {
            TokenView::Identifier(text) => Some(text),
            _ => None,
        }
    } else {
        None
    }
}

/// The type that the identifier at index `i` of `ts` names.
pub open spec fn type_at(ts: Seq<TokenView>, i: int) -> Option<Type> {
    match name_at(ts, i) {
        Some(text) => if text == "i32"@ {
            Some(Type::I32)
        } else if text == "String"@ {
            Some(Type::String)
        } else {
            None
        },
        None => None,
    }
}

/// Puts the argument `first` before the outcome of reading the rest of a
/// list.
pub open spec fn args_after(prefix: Seq<ArgView>, rest: Option<(Seq<ArgView>, int)>) -> Option<
    (Seq<ArgView>, int),
> {
    match rest {
        Some((args, end)) => Some((prefix + args, end)),
        None => None,
    }
}

/// The arguments from index `i` of `ts` on, where an argument must stand,
/// up to the closing parenthesis, and the index behind that parenthesis.
pub open spec fn args_from(ts: Seq<TokenView>, i: int) -> Option<(Seq<ArgView>, int)>
    decreases ts.len() - i,
{
    match (name_at(ts, i), type_at(ts, i + 2)) {
        (Some(ident), Some(ty)) => if !symbol_is(ts, i + 1, SymbolKind::TypeBinding) {
            None
        } else if symbol_is(ts, i + 3, SymbolKind::GroupClose) {
            Some((seq![ArgView { ident, ty }], i + 4))
        } else if symbol_is(ts, i + 3, SymbolKind::FieldSeparator) {
            args_after(seq![ArgView { ident, ty }], args_from(ts, i + 4))
        } else {
            None
        },
        _ => None,
    }
}

/// The argument list whose first token behind the opening parenthesis has
/// index `i`, and the index behind the closing parenthesis.
pub open spec fn arg_list(ts: Seq<TokenView>, i: int) -> Option<(Seq<ArgView>, int)> {
    if symbol_is(ts, i, SymbolKind::GroupClose) {
        Some((Seq::empty(), i + 1))
    } else {
        args_from(ts, i)
    }
}

/// The function that the tokens `ts`, all of them, declare.
pub open spec fn function_of(ts: Seq<TokenView>) -> Option<FunctionView> {
    match (name_at(ts, 1), arg_list(ts, 3)) {
        (Some(ident), Some((args, end))) => {
            let return_type = if symbol_is(ts, end, SymbolKind::FunctionReturns) {
                type_at(ts, end + 1)
            } else {
                None
            };
            let body = if symbol_is(ts, end, SymbolKind::FunctionReturns) {
                end + 2
            } else {
                end
            };
            if ts.len() > 0 && ts[0] == TokenView::Keyword(KeywordKind::Fn) && symbol_is(
                ts,
                2,
                SymbolKind::GroupOpen,
            ) && (symbol_is(ts, end, SymbolKind::FunctionReturns) ==> return_type is Some)
                && symbol_is(ts, body, SymbolKind::BlockOpen) && symbol_is(
                ts,
                body + 1,
                SymbolKind::BlockClose,
            ) && ts.len() == body + 2 {
                Some(FunctionView { ident, args, return_type })
            } else {
                None
            }
        },
        _ => None,
    }
}

/// An argument list ends inside the sequence, behind where it starts.
pub proof fn lemma_args_from_bound(ts: Seq<TokenView>, i: int)
    ensures
        args_from(ts, i) matches Some((args, end)) ==> i < end <= ts.len(),
    decreases ts.len() - i,
{
    if name_at(ts, i) is Some && symbol_is(ts, i + 3, SymbolKind::FieldSeparator) {
        lemma_args_from_bound(ts, i + 4);
    }
}

/// Tests whether the token at `i` is the symbol `k`.
fn is_symbol(toks: &[Token], i: usize, k: SymbolKind) -> (r: bool)
    ensures
        r == (i < toks@.len() && toks@[i as int]@ == TokenView::Symbol(k)),
        r ==> i < toks.len(),
{
    if i < toks.len() {
        match &toks[i] {
            Token::Symbol(found) => *found == k,
            _ => false,
        }
    } else {
        false
    }
}

/// The name that the identifier at `i` gives.
fn read_name(toks: &[Token], i: usize) -> (r: Option<IdentDecl>)
    ensures
        match r {
            Some(name) => i < toks@.len() && toks@[i as int]@ == TokenView::Identifier(name@),
            None => i >= toks@.len() || !(toks@[i as int]@ is Identifier),
        },
{
    if i < toks.len() {
        match &toks[i] {
            Token::Identifier(text) => Some(IdentDecl(text.clone())),
            _ => None,
        }
    } else {
        None
    }
}

/// The type that the identifier at `i` names.
fn read_type(toks: &[Token], i: usize) -> (r: Option<Type>)
    ensures
        i < toks@.len() ==> match toks@[i as int]@ {
            TokenView::Identifier(text) => r == (if text == "i32"@ {
                Some(Type::I32)
            } else if text == "String"@ {
                Some(Type::String)
            } else {
                None::<Type>
            }),
            _ => r is None,
        },
        i >= toks@.len() ==> r is None,
{
    if i < toks.len() {
        match &toks[i] {
            Token::Identifier(text) => {
                if *text == String::from_str("i32") {
                    Some(Type::I32)
                } else if *text == String::from_str("String") {
                    Some(Type::String)
                } else {
                    None
                }
            },
            _ => None,
        }
    } else {
        None
    }
}

/// The views of the tokens of a slice.
pub open spec fn views(toks: Seq<Token>) -> Seq<TokenView> {
    Seq::new(toks.len(), |i: int| toks[i]@)
}

/// Reads an argument list from `start`, the index behind the opening
/// parenthesis, and returns the arguments with the index behind the closing
/// parenthesis.
fn read_args(toks: &[Token], start: usize) -> (r: Option<(Vec<Arg>, usize)>)
    ensures
        match r {
            Some((args, end)) => arg_list(views(toks@), start as int) == Some(
                (Seq::new(args@.len(), |i: int| args@[i]@), end as int),
            ) && start < end <= toks@.len(),
            None => arg_list(views(toks@), start as int) is None,
        },
{
    let ghost ts = views(toks@);
    let mut args: Vec<Arg> = Vec::new();
    if is_symbol(toks, start, SymbolKind::GroupClose) {
        assert(Seq::new(args@.len(), |i: int| args@[i]@) =~= Seq::<ArgView>::empty());
        return Some((args, start + 1));
    }
    let mut i: usize = start;
    loop
        invariant
            ts == views(toks@),
            start <= i,
            arg_list(ts, start as int) == args_after(
                Seq::new(args@.len(), |k: int| args@[k]@),
                args_from(ts, i as int),
            ),
        decreases toks.len() - i,
    {
        if toks.len() < 4 || i > toks.len() - 4 {
            return None;
        }
        let ident = match read_name(toks, i) {
            Some(ident) => ident,
            None => {
                return None;
            },
        };
        let ty = match read_type(toks, i + 2) {
            Some(ty) => ty,
            None => {
                return None;
            },
        };
        if !is_symbol(toks, i + 1, SymbolKind::TypeBinding) {
            return None;
        }
        let ghost before = Seq::new(args@.len(), |k: int| args@[k]@);
        let ghost arg = ArgView { ident: ident@, ty };
        args.push(Arg { ident, ty });
        assert(Seq::new(args@.len(), |k: int| args@[k]@) =~= before + seq![arg]);
        if is_symbol(toks, i + 3, SymbolKind::GroupClose) {
            return Some((args, i + 4));
        } else if is_symbol(toks, i + 3, SymbolKind::FieldSeparator) {
            proof {
                lemma_args_from_bound(ts, i + 4);
                if let Some((rest, end)) = args_from(ts, i + 4) {
                    assert(before + (seq![arg] + rest) =~= (before + seq![arg]) + rest);
                }
            }
            i += 4;
        } else {
            return None;
        }
    }
}

/// Reads a function declaration from a token stream. The stream must hold
/// the declaration and nothing else: `fn`, the name, the arguments in
/// parentheses, the return type behind `->` if there is one, and an empty
/// block. The result is `None` for every other stream.
pub fn parse_function(stream: TokenStream) -> (r: Option<Function>)
    ensures
        match r {
            Some(f) => function_of(stream@) == Some(f@),
            None => function_of(stream@) is None,
        },
{
    let toks = stream.tokens();
    let ghost ts = stream@;
    assert(views(toks@) =~= ts);
    if toks.len() < 5 {
        proof {
            lemma_args_from_bound(ts, 3);
        }
        return None;
    }
    let is_fn = match &toks[0] {
        Token::Keyword(k) => *k == KeywordKind::Fn,
        _ => false,
    };
    if !is_fn || !is_symbol(toks, 2, SymbolKind::GroupOpen) {
        return None;
    }
    let ident = match read_name(toks, 1) {
        Some(ident) => ident,
        None => {
            return None;
        },
    };
    let (args, end) = match read_args(toks, 3) {
        Some(found) => found,
        None => {
            return None;
        },
    };
    let mut body = end;
    let mut return_type: Option<Type> = None;
    if is_symbol(toks, end, SymbolKind::FunctionReturns) {
        return_type = read_type(toks, end + 1);
        if return_type.is_none() {
            return None;
        }
        body = end + 2;
    }
    if is_symbol(toks, body, SymbolKind::BlockOpen) && is_symbol(
        toks,
        body + 1,
        SymbolKind::BlockClose,
    ) && toks.len() == body + 2 {
        Some(Function { ident, args, return_type })
    } else {
        None
    }
}

} // verus!
