//! Symbols: punctuation and operators, the longest spelling first.
use vstd::prelude::*;
use vstd::string::StringSliceAdditionalSpecFns;
use crate::bytes::{has_prefix_at, starts_with_at};
use crate::token::SymbolKind;

verus! {

/// Whether the spelling of `k` stands in `s` from index `i` on.
pub open spec fn symbol_starts_at(s: Seq<u8>, i: int, k: SymbolKind) -> bool {
    has_prefix_at(s, i, k.spelling())
}

/// The symbol at index `i` and its length. The spellings are tried in a
/// fixed order in which a spelling comes before every spelling that is a
/// prefix of it, and the first that stands there wins.
pub open spec fn symbol_at(s: Seq<u8>, i: int) -> Option<(SymbolKind, nat)> {
    if symbol_starts_at(s, i, SymbolKind::NamespaceSeparator) {
        Some((SymbolKind::NamespaceSeparator, SymbolKind::NamespaceSeparator.spelling().len()))
    } else if symbol_starts_at(s, i, SymbolKind::TypeBinding) {
        Some((SymbolKind::TypeBinding, SymbolKind::TypeBinding.spelling().len()))
    } else if symbol_starts_at(s, i, SymbolKind::ReverseSplat) {
        Some((SymbolKind::ReverseSplat, SymbolKind::ReverseSplat.spelling().len()))
    } else if symbol_starts_at(s, i, SymbolKind::FieldAccessor) {
        Some((SymbolKind::FieldAccessor, SymbolKind::FieldAccessor.spelling().len()))
    } else if symbol_starts_at(s, i, SymbolKind::MatchArm) {
        Some((SymbolKind::MatchArm, SymbolKind::MatchArm.spelling().len()))
    } else if symbol_starts_at(s, i, SymbolKind::FunctionReturns) {
        Some((SymbolKind::FunctionReturns, SymbolKind::FunctionReturns.spelling().len()))
    } else if symbol_starts_at(s, i, SymbolKind::Assign) {
        Some((SymbolKind::Assign, SymbolKind::Assign.spelling().len()))
    } else if symbol_starts_at(s, i, SymbolKind::TraitPlus) {
        Some((SymbolKind::TraitPlus, SymbolKind::TraitPlus.spelling().len()))
    } else if symbol_starts_at(s, i, SymbolKind::PatternOr) {
        Some((SymbolKind::PatternOr, SymbolKind::PatternOr.spelling().len()))
    } else if symbol_starts_at(s, i, SymbolKind::Splat) {
        Some((SymbolKind::Splat, SymbolKind::Splat.spelling().len()))
    } else if symbol_starts_at(s, i, SymbolKind::PatternBind) {
        Some((SymbolKind::PatternBind, SymbolKind::PatternBind.spelling().len()))
    } else if symbol_starts_at(s, i, SymbolKind::FieldSeparator) {
        Some((SymbolKind::FieldSeparator, SymbolKind::FieldSeparator.spelling().len()))
    } else if symbol_starts_at(s, i, SymbolKind::StatementSeparator) {
        Some((SymbolKind::StatementSeparator, SymbolKind::StatementSeparator.spelling().len()))
    } else if symbol_starts_at(s, i, SymbolKind::GenericOpen) {
        Some((SymbolKind::GenericOpen, SymbolKind::GenericOpen.spelling().len()))
    } else if symbol_starts_at(s, i, SymbolKind::GenericClose) {
        Some((SymbolKind::GenericClose, SymbolKind::GenericClose.spelling().len()))
    } else if symbol_starts_at(s, i, SymbolKind::BlockOpen) {
        Some((SymbolKind::BlockOpen, SymbolKind::BlockOpen.spelling().len()))
    } else if symbol_starts_at(s, i, SymbolKind::BlockClose) {
        Some((SymbolKind::BlockClose, SymbolKind::BlockClose.spelling().len()))
    } else if symbol_starts_at(s, i, SymbolKind::ListOpen) {
        Some((SymbolKind::ListOpen, SymbolKind::ListOpen.spelling().len()))
    } else if symbol_starts_at(s, i, SymbolKind::ListClose) {
        Some((SymbolKind::ListClose, SymbolKind::ListClose.spelling().len()))
    } else if symbol_starts_at(s, i, SymbolKind::GroupOpen) {
        Some((SymbolKind::GroupOpen, SymbolKind::GroupOpen.spelling().len()))
    } else if symbol_starts_at(s, i, SymbolKind::GroupClose) {
        Some((SymbolKind::GroupClose, SymbolKind::GroupClose.spelling().len()))
    } else {
        None
    }
}

/// The symbol found is the longest one whose spelling stands at index `i`,
/// and one is found wherever any spelling stands there: `::` is never two
/// `:`, `..` never two `.`, and `=>` never `=` before a stray `>`.
pub proof fn lemma_symbol_longest_match(s: Seq<u8>, i: int, k: SymbolKind)
    requires
        symbol_starts_at(s, i, k),
    ensures
        symbol_at(s, i) matches Some((found, n)) && symbol_starts_at(s, i, found) && n
            == found.spelling().len() && n >= k.spelling().len() && (n == k.spelling().len()
            ==> found == k),
{
    let two = s.subrange(i, i + 2);
    let one = s.subrange(i, i + 1);
    if i + 2 <= s.len() {
        assert(two[0] == s[i] && two[1] == s[i + 1]);
    }
    assert(one[0] == s[i]);
}

/// A symbol is found only where its spelling stands, and its length is that
/// of the spelling: one or two bytes.
pub proof fn lemma_symbol_at(s: Seq<u8>, i: int)
    ensures
        symbol_at(s, i) matches Some((k, n)) ==> symbol_starts_at(s, i, k) && n
            == k.spelling().len() && 1 <= n <= 2 && i + n <= s.len(),
        symbol_at(s, i) is None ==> forall|k: SymbolKind| !symbol_starts_at(s, i, k),
{
    if symbol_at(s, i) is None {
        assert forall|k: SymbolKind| !symbol_starts_at(s, i, k) by {
            if symbol_starts_at(s, i, k) {
                lemma_symbol_longest_match(s, i, k);
            }
        }
    }
}

/// Tests whether the spelling of `k` stands at `pos`.
fn starts_symbol(bytes: &[u8], pos: usize, k: SymbolKind) -> (r: bool)
    ensures
        r == symbol_starts_at(bytes@, pos as int, k),
{
    starts_with_at(bytes, pos, k.as_str().as_bytes())
}

/// Recognizes a symbol at `pos` and returns it with its length in bytes. Of
/// two spellings that stand there the longer one is taken.
pub fn parse_symbol(input: &str, pos: usize) -> (r: Option<(SymbolKind, usize)>)
    ensures
        match r {
            Some((k, n)) => symbol_at(input.spec_bytes(), pos as int) == Some((k, n as nat))
                && pos + n <= input.spec_bytes().len(),
            None => symbol_at(input.spec_bytes(), pos as int) is None,
        },
{
    let bytes = input.as_bytes();
    if starts_symbol(bytes, pos, SymbolKind::NamespaceSeparator) {
        Some((SymbolKind::NamespaceSeparator, 2))
    } else if starts_symbol(bytes, pos, SymbolKind::TypeBinding) {
        Some((SymbolKind::TypeBinding, 1))
    } else if starts_symbol(bytes, pos, SymbolKind::ReverseSplat) {
        Some((SymbolKind::ReverseSplat, 2))
    } else if starts_symbol(bytes, pos, SymbolKind::FieldAccessor) {
        Some((SymbolKind::FieldAccessor, 1))
    } else if starts_symbol(bytes, pos, SymbolKind::MatchArm) {
        Some((SymbolKind::MatchArm, 2))
    } else if starts_symbol(bytes, pos, SymbolKind::FunctionReturns) {
        Some((SymbolKind::FunctionReturns, 2))
    } else if starts_symbol(bytes, pos, SymbolKind::Assign) {
        Some((SymbolKind::Assign, 1))
    } else if starts_symbol(bytes, pos, SymbolKind::TraitPlus) {
        Some((SymbolKind::TraitPlus, 1))
    } else if starts_symbol(bytes, pos, SymbolKind::PatternOr) {
        Some((SymbolKind::PatternOr, 1))
    } else if starts_symbol(bytes, pos, SymbolKind::Splat) {
        Some((SymbolKind::Splat, 1))
    } else if starts_symbol(bytes, pos, SymbolKind::PatternBind) {
        Some((SymbolKind::PatternBind, 1))
    } else if starts_symbol(bytes, pos, SymbolKind::FieldSeparator) {
        Some((SymbolKind::FieldSeparator, 1))
    } else if starts_symbol(bytes, pos, SymbolKind::StatementSeparator) {
        Some((SymbolKind::StatementSeparator, 1))
    } else if starts_symbol(bytes, pos, SymbolKind::GenericOpen) {
        Some((SymbolKind::GenericOpen, 1))
    } else if starts_symbol(bytes, pos, SymbolKind::GenericClose) {
        Some((SymbolKind::GenericClose, 1))
    } else if starts_symbol(bytes, pos, SymbolKind::BlockOpen) {
        Some((SymbolKind::BlockOpen, 1))
    } else if starts_symbol(bytes, pos, SymbolKind::BlockClose) {
        Some((SymbolKind::BlockClose, 1))
    } else if starts_symbol(bytes, pos, SymbolKind::ListOpen) {
        Some((SymbolKind::ListOpen, 1))
    } else if starts_symbol(bytes, pos, SymbolKind::ListClose) {
        Some((SymbolKind::ListClose, 1))
    } else if starts_symbol(bytes, pos, SymbolKind::GroupOpen) {
        Some((SymbolKind::GroupOpen, 1))
    } else if starts_symbol(bytes, pos, SymbolKind::GroupClose) {
        Some((SymbolKind::GroupClose, 1))
    } else {
        None
    }
}

} // verus!
