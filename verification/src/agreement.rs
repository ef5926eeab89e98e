//! The tokens of a text depend on nothing but the bytes they cover and the
//! byte behind them: what is recognized in one text is recognized in every
//! text that holds the same bytes there.
use vstd::prelude::*;
use crate::bytes::{
    has_byte_at, has_prefix_at, is_space, lemma_run_len_bound, lemma_run_len_maximal,
    lemma_run_len_unique, run_len, ByteClass, BACKSLASH, QUOTE, SLASH,
};
use crate::ident::{ident_at, ident_len, keyword_at, lemma_ident_len};
use crate::lexer::{lemma_token_bound, lex_from, token_at};
use crate::literal::{
    byte_escape_at, char_escape_at, escape_at, fragment_at, hex_value, lemma_escape_bound,
    lemma_fragment_bound, lemma_string_body_bound, string_body, whitespace_escape_at,
};
use crate::skip::{
    comment_len, lemma_skip_len_bound, lemma_skip_unit_bound, skip_len, skip_unit_len,
};
use crate::symbol::{lemma_symbol_at, symbol_at, symbol_starts_at};
use crate::token::{EscapeError, SymbolKind};

verus! {

/// Whether `s1` and `s2` hold the same bytes below index `m`.
pub open spec fn same_below(s1: Seq<u8>, s2: Seq<u8>, m: int) -> bool {
    &&& 0 <= m <= s1.len()
    &&& m <= s2.len()
    &&& forall|k: int| 0 <= k < m ==> #[trigger] s1[k] == s2[k]
}

/// Whether `s2` holds from index `p + d` on what `s1` holds from index `p`
/// on.
pub open spec fn same_from(s1: Seq<u8>, s2: Seq<u8>, p: int, d: int) -> bool {
    &&& 0 <= p
    &&& 0 <= d
    &&& s2.len() == s1.len() + d
    &&& forall|k: int| p <= k < s1.len() ==> #[trigger] s1[k] == s2[k + d]
}

/// A run is the same run where the text behind `p` is moved by `d`.
pub proof fn lemma_run_shift(s1: Seq<u8>, s2: Seq<u8>, p: int, d: int, i: int, c: ByteClass)
    requires
        same_from(s1, s2, p, d),
        p <= i,
    ensures
        run_len(s2, i + d, c) == run_len(s1, i, c),
    decreases s1.len() - i,
{
    if i < s1.len() {
        assert(s1[i] == s2[i + d]);
        if c.contains(s1[i]) {
            lemma_run_shift(s1, s2, p, d, i + 1, c);
        }
    }
}

/// A byte is found again where the text behind `p` is moved by `d`.
pub proof fn lemma_byte_shift(s1: Seq<u8>, s2: Seq<u8>, p: int, d: int, i: int, b: u8)
    requires
        same_from(s1, s2, p, d),
        p <= i,
    ensures
        has_byte_at(s2, i + d, b) == has_byte_at(s1, i, b),
{
    if i < s1.len() {
        assert(s1[i] == s2[i + d]);
    }
}

/// A span is found again where the text behind `p` is moved by `d`.
pub proof fn lemma_span_shift(s1: Seq<u8>, s2: Seq<u8>, p: int, d: int, i: int, n: int)
    requires
        same_from(s1, s2, p, d),
        p <= i,
        0 <= n,
        i + n <= s1.len(),
    ensures
        s2.subrange(i + d, i + d + n) == s1.subrange(i, i + n),
{
    let a = s1.subrange(i, i + n);
    let b = s2.subrange(i + d, i + d + n);
    assert forall|k: int| 0 <= k < n implies a[k] == b[k] by {
        assert(s1[i + k] == s2[i + k + d]);
    }
    assert(a =~= b);
}

/// What stands at an index stands there where the text behind `p` is moved by `d`.
pub proof fn lemma_prefix_shift(s1: Seq<u8>, s2: Seq<u8>, p: int, d: int, i: int, pat: Seq<u8>)
    requires
        same_from(s1, s2, p, d),
        p <= i,
    ensures
        has_prefix_at(s2, i + d, pat) == has_prefix_at(s1, i, pat),
{
    if i + pat.len() <= s1.len() {
        lemma_span_shift(s1, s2, p, d, i, pat.len() as int);
    }
}

/// A comment is the same comment where the text behind `p` is moved by `d`.
pub proof fn lemma_comment_shift(s1: Seq<u8>, s2: Seq<u8>, p: int, d: int, i: int)
    requires
        same_from(s1, s2, p, d),
        p <= i,
    ensures
        comment_len(s2, i + d) == comment_len(s1, i),
{
    lemma_byte_shift(s1, s2, p, d, i, SLASH);
    lemma_byte_shift(s1, s2, p, d, i + 1, SLASH);
    lemma_run_shift(s1, s2, p, d, i + 2, ByteClass::CommentText);
}

/// What is skipped is skipped where the text behind `p` is moved by `d`.
pub proof fn lemma_skip_shift(s1: Seq<u8>, s2: Seq<u8>, p: int, d: int, i: int)
    requires
        same_from(s1, s2, p, d),
        p <= i,
    ensures
        skip_len(s2, i + d) == skip_len(s1, i),
    decreases s1.len() - i,
{
    lemma_run_shift(s1, s2, p, d, i, ByteClass::Space);
    lemma_comment_shift(s1, s2, p, d, i);
    let u = skip_unit_len(s1, i);
    if u > 0 {
        lemma_skip_unit_bound(s1, i);
        lemma_skip_shift(s1, s2, p, d, i + u);
    }
}

/// A symbol is the same symbol where the text behind `p` is moved by `d`.
pub proof fn lemma_symbol_shift(s1: Seq<u8>, s2: Seq<u8>, p: int, d: int, i: int)
    requires
        same_from(s1, s2, p, d),
        p <= i,
    ensures
        symbol_at(s2, i + d) == symbol_at(s1, i),
{
    assert forall|k: SymbolKind| symbol_starts_at(s2, i + d, k) == symbol_starts_at(s1, i, k) by {
        lemma_prefix_shift(s1, s2, p, d, i, k.spelling());
    }
}

/// An identifier-shaped span and a reserved word are the same where the
/// text behind `p` is moved by `d`.
pub proof fn lemma_ident_shift(s1: Seq<u8>, s2: Seq<u8>, p: int, d: int, i: int)
    requires
        same_from(s1, s2, p, d),
        p <= i,
    ensures
        ident_len(s2, i + d) == ident_len(s1, i),
        keyword_at(s2, i + d) == keyword_at(s1, i),
        ident_at(s2, i + d) == ident_at(s1, i),
{
    if i < s1.len() {
        assert(s1[i] == s2[i + d]);
    }
    lemma_run_shift(s1, s2, p, d, i + 1, ByteClass::IdentContinue);
    lemma_ident_len(s1, i);
    if ident_len(s1, i) > 0 {
        lemma_span_shift(s1, s2, p, d, i, ident_len(s1, i) as int);
    }
}

/// Hexadecimal digits write the same number where the text behind `p` is
/// moved by `d`.
pub proof fn lemma_hex_shift(s1: Seq<u8>, s2: Seq<u8>, p: int, d: int, i: int, n: nat)
    requires
        same_from(s1, s2, p, d),
        p <= i,
        i + n <= s1.len(),
    ensures
        hex_value(s2, i + d, n) == hex_value(s1, i, n),
    decreases n,
{
    if n > 0 {
        lemma_hex_shift(s1, s2, p, d, i, (n - 1) as nat);
        assert(s1[i + n - 1] == s2[i + n - 1 + d]);
    }
}

/// An escape is decoded alike where the text behind `p` is moved by `d`.
pub proof fn lemma_escape_shift(s1: Seq<u8>, s2: Seq<u8>, p: int, d: int, j: int)
    requires
        same_from(s1, s2, p, d),
        p <= j,
    ensures
        escape_at(s2, j + d) == escape_at(s1, j),
{
    lemma_run_shift(s1, s2, p, d, j, ByteClass::Space);
    if j < s1.len() {
        assert(s1[j] == s2[j + d]);
    }
    if j + 1 < s1.len() {
        assert(s1[j + 1] == s2[j + 1 + d]);
    }
    if j + 2 < s1.len() {
        assert(s1[j + 2] == s2[j + 2 + d]);
    }
    let digits = run_len(s1, j + 2, ByteClass::HexDigit);
    lemma_run_shift(s1, s2, p, d, j + 2, ByteClass::HexDigit);
    lemma_run_len_bound(s1, j + 2, ByteClass::HexDigit);
    lemma_byte_shift(s1, s2, p, d, j + 2 + digits, '}' as u8);
    if j + 2 <= s1.len() {
        lemma_hex_shift(s1, s2, p, d, j + 2, digits);
    }
}

/// A fragment that is no error is the same fragment where the text behind
/// `p` is moved by `d`.
pub proof fn lemma_fragment_shift(s1: Seq<u8>, s2: Seq<u8>, p: int, d: int, j: int)
    requires
        same_from(s1, s2, p, d),
        p <= j,
        fragment_at(s1, j) is Ok,
    ensures
        fragment_at(s2, j + d) == fragment_at(s1, j),
{
    lemma_run_shift(s1, s2, p, d, j, ByteClass::RawText);
    lemma_run_len_bound(s1, j, ByteClass::RawText);
    let r = run_len(s1, j, ByteClass::RawText);
    if r > 0 {
        lemma_span_shift(s1, s2, p, d, j, r as int);
    }
    lemma_byte_shift(s1, s2, p, d, j, BACKSLASH);
    lemma_escape_shift(s1, s2, p, d, j + 1);
}

/// The contents of a literal, unless they hold an error, are the same where
/// the text behind `p` is moved by `d`.
pub proof fn lemma_body_shift(s1: Seq<u8>, s2: Seq<u8>, p: int, d: int, j: int)
    requires
        same_from(s1, s2, p, d),
        p <= j,
        string_body(s1, j) is Ok,
    ensures
        string_body(s2, j + d) == string_body(s1, j),
    decreases s1.len() - j,
{
    lemma_fragment_shift(s1, s2, p, d, j);
    lemma_byte_shift(s1, s2, p, d, j, QUOTE);
    lemma_fragment_bound(s1, j);
    if let Ok(Some((f, n))) = fragment_at(s1, j) {
        lemma_body_shift(s1, s2, p, d, j + n);
    }
}

/// A token is the same token where the text behind `p` is moved by `d`.
pub proof fn lemma_token_shift(s1: Seq<u8>, s2: Seq<u8>, p: int, d: int, i: int)
    requires
        same_from(s1, s2, p, d),
        p <= i,
        token_at(s1, i) is Ok,
    ensures
        token_at(s2, i + d) == token_at(s1, i),
{
    lemma_ident_shift(s1, s2, p, d, i);
    lemma_symbol_shift(s1, s2, p, d, i);
    lemma_byte_shift(s1, s2, p, d, i, QUOTE);
    if keyword_at(s1, i) is None && symbol_at(s1, i) is None && ident_at(s1, i) is None {
        lemma_body_shift(s1, s2, p, d, i + 1);
    }
}

/// A text that is scanned without error from an index on has the same
/// tokens where the text behind `p` is moved by `d`.
pub proof fn lemma_lex_shift(s1: Seq<u8>, s2: Seq<u8>, p: int, d: int, i: int)
    requires
        same_from(s1, s2, p, d),
        p <= i,
        lex_from(s1, i) is Ok,
    ensures
        lex_from(s2, i + d) == lex_from(s1, i),
    decreases s1.len() - i,
{
    lemma_skip_shift(s1, s2, p, d, i);
    let j = i + skip_len(s1, i);
    if j < s1.len() {
        lemma_token_shift(s1, s2, p, d, j);
        lemma_token_bound(s1, j);
        if let Ok((t, n)) = token_at(s1, j) {
            lemma_lex_shift(s1, s2, p, d, j + n);
        }
    }
}

/// A run that ends below `m` is the same run in a text that holds the same
/// bytes below `m`.
pub proof fn lemma_run_local(s1: Seq<u8>, s2: Seq<u8>, m: int, i: int, c: ByteClass)
    requires
        same_below(s1, s2, m),
        0 <= i,
        i + run_len(s1, i, c) < m,
    ensures
        run_len(s2, i, c) == run_len(s1, i, c),
    decreases s1.len() - i,
{
    assert(s1[i] == s2[i]);
    if c.contains(s1[i]) {
        lemma_run_local(s1, s2, m, i + 1, c);
    }
}

/// A span below `m` is the same in a text that holds the same bytes below
/// `m`.
pub proof fn lemma_span_local(s1: Seq<u8>, s2: Seq<u8>, m: int, i: int, n: int)
    requires
        same_below(s1, s2, m),
        0 <= i,
        0 <= n,
        i + n <= m,
    ensures
        s2.subrange(i, i + n) == s1.subrange(i, i + n),
{
    let a = s1.subrange(i, i + n);
    let b = s2.subrange(i, i + n);
    assert forall|k: int| 0 <= k < n implies a[k] == b[k] by {
        assert(s1[i + k] == s2[i + k]);
    }
    assert(a =~= b);
}

/// A comment that ends below `m` is the same comment in a text that holds
/// the same bytes below `m`.
pub proof fn lemma_comment_local(s1: Seq<u8>, s2: Seq<u8>, m: int, i: int)
    requires
        same_below(s1, s2, m),
        0 <= i,
        comment_len(s1, i) > 0,
        i + comment_len(s1, i) < m,
    ensures
        comment_len(s2, i) == comment_len(s1, i),
{
    assert(s1[i] == s2[i]);
    assert(s1[i + 1] == s2[i + 1]);
    lemma_run_local(s1, s2, m, i + 2, ByteClass::CommentText);
}

/// What is skipped up to a byte below `m` that is no slash is skipped in a
/// text that holds the same bytes below `m`.
pub proof fn lemma_skip_local(s1: Seq<u8>, s2: Seq<u8>, m: int, i: int)
    requires
        same_below(s1, s2, m),
        0 <= i,
        i + skip_len(s1, i) < m,
        s1[i + skip_len(s1, i)] != SLASH,
    ensures
        skip_len(s2, i) == skip_len(s1, i),
    decreases s1.len() - i,
{
    let u = skip_unit_len(s1, i);
    lemma_skip_unit_bound(s1, i);
    assert(s1[i] == s2[i]);
    if u > 0 {
        lemma_skip_len_bound(s1, i + u);
        let w = run_len(s1, i, ByteClass::Space);
        if w > 0 {
            lemma_run_local(s1, s2, m, i, ByteClass::Space);
        } else {
            lemma_comment_local(s1, s2, m, i);
        }
        lemma_skip_local(s1, s2, m, i + u);
    }
}

/// Whether a token that ends at index `e` of `s1` ends there in `s2` too,
/// which holds the same bytes below index `m`: the byte behind the token is
/// the same in both, or in `s2` nothing that could continue a token.
pub open spec fn ends_alike(s2: Seq<u8>, m: int, e: int) -> bool {
    e < m || (e == m && (s2.len() == m || is_space(s2[m]) || s2[m] == SLASH))
}

/// An identifier-shaped span that ends at or below `m` is the same span in
/// a text that holds the same bytes below `m`, if it ends there alike.
pub proof fn lemma_ident_local(s1: Seq<u8>, s2: Seq<u8>, m: int, i: int)
    requires
        same_below(s1, s2, m),
        0 <= i,
        ident_len(s1, i) > 0,
        i + ident_len(s1, i) <= m,
        ends_alike(s2, m, i + ident_len(s1, i)),
    ensures
        ident_len(s2, i) == ident_len(s1, i),
        keyword_at(s2, i) == keyword_at(s1, i),
        ident_at(s2, i) == ident_at(s1, i),
{
    let n = ident_len(s1, i) as int;
    lemma_run_len_bound(s1, i + 1, ByteClass::IdentContinue);
    lemma_run_len_maximal(s1, i + 1, ByteClass::IdentContinue);
    assert(s1[i] == s2[i]);
    assert forall|k: int| i + 1 <= k < i + n implies ByteClass::IdentContinue.contains(
        #[trigger] s2[k],
    ) by {
        assert(s1[k] == s2[k]);
    }
    if i + n < m {
        assert(s1[i + n] == s2[i + n]);
    }
    lemma_run_len_unique(s2, i + 1, n - 1, ByteClass::IdentContinue);
    lemma_span_local(s1, s2, m, i, n);
}

/// A symbol that ends at or below `m` is the same symbol in a text that
/// holds the same bytes below `m`, if it ends there alike.
pub proof fn lemma_symbol_local(s1: Seq<u8>, s2: Seq<u8>, m: int, i: int)
    requires
        same_below(s1, s2, m),
        0 <= i,
        symbol_at(s1, i) matches Some((k, n)) && i + n <= m && ends_alike(s2, m, i + n),
    ensures
        symbol_at(s2, i) == symbol_at(s1, i),
{
    lemma_symbol_at(s1, i);
    assert(s1[i] == s2[i]);
    let one1 = s1.subrange(i, i + 1);
    let one2 = s2.subrange(i, i + 1);
    assert(one1[0] == s1[i]);
    assert(one2[0] == s2[i]);
    assert(one1 =~= one2);
    if i + 2 <= s1.len() {
        let two1 = s1.subrange(i, i + 2);
        assert(two1[0] == s1[i] && two1[1] == s1[i + 1]);
    }
    if i + 2 <= s2.len() {
        let two2 = s2.subrange(i, i + 2);
        assert(two2[0] == s2[i] && two2[1] == s2[i + 1]);
    }
    if i + 2 <= m {
        assert(s1[i + 1] == s2[i + 1]);
        lemma_span_local(s1, s2, m, i, 2);
    }
}

/// Hexadecimal digits below `m` write the same number in a text that holds
/// the same bytes below `m`.
pub proof fn lemma_hex_local(s1: Seq<u8>, s2: Seq<u8>, m: int, i: int, n: nat)
    requires
        same_below(s1, s2, m),
        0 <= i,
        i + n <= m,
    ensures
        hex_value(s2, i, n) == hex_value(s1, i, n),
    decreases n,
{
    if n > 0 {
        lemma_hex_local(s1, s2, m, i, (n - 1) as nat);
        assert(s1[i + n - 1] == s2[i + n - 1]);
    }
}

/// An escape that ends below `m` is decoded alike in a text that holds the
/// same bytes below `m`.
pub proof fn lemma_escape_local(s1: Seq<u8>, s2: Seq<u8>, m: int, j: int)
    requires
        same_below(s1, s2, m),
        0 <= j,
        escape_at(s1, j) matches Ok((f, n)) && j + n < m,
    ensures
        escape_at(s2, j) == escape_at(s1, j),
{
    lemma_escape_bound(s1, j);
    assert(s1[j] == s2[j]);
    if whitespace_escape_at(s1, j) is Some {
        lemma_run_local(s1, s2, m, j, ByteClass::Space);
    } else if char_escape_at(s1, j) is Some {
    } else if byte_escape_at(s1, j) != Ok::<Option<u8>, EscapeError>(None) {
        assert(s1[j + 1] == s2[j + 1]);
        assert(s1[j + 2] == s2[j + 2]);
    } else {
        let digits = run_len(s1, j + 2, ByteClass::HexDigit);
        assert(s1[j + 1] == s2[j + 1]);
        lemma_run_local(s1, s2, m, j + 2, ByteClass::HexDigit);
        assert(s1[j + 2 + digits] == s2[j + 2 + digits]);
        lemma_hex_local(s1, s2, m, j + 2, digits);
    }
}

/// A fragment that ends below `m` is the same fragment in a text that holds
/// the same bytes below `m`.
pub proof fn lemma_fragment_local(s1: Seq<u8>, s2: Seq<u8>, m: int, q: int)
    requires
        same_below(s1, s2, m),
        0 <= q,
        fragment_at(s1, q) matches Ok(Some((f, n))) && q + n < m,
    ensures
        fragment_at(s2, q) == fragment_at(s1, q),
{
    lemma_fragment_bound(s1, q);
    assert(s1[q] == s2[q]);
    let r = run_len(s1, q, ByteClass::RawText);
    if r > 0 {
        lemma_run_local(s1, s2, m, q, ByteClass::RawText);
        lemma_span_local(s1, s2, m, q, r as int);
    } else {
        lemma_escape_bound(s1, q + 1);
        lemma_escape_local(s1, s2, m, q + 1);
    }
}

/// The contents of a literal whose closing quote stands below `m` are the
/// same in a text that holds the same bytes below `m`.
pub proof fn lemma_body_local(s1: Seq<u8>, s2: Seq<u8>, m: int, q: int)
    requires
        same_below(s1, s2, m),
        0 <= q,
        string_body(s1, q) matches Ok(Some((bytes, r))) && q + r <= m,
    ensures
        string_body(s2, q) == string_body(s1, q),
    decreases s1.len() - q,
{
    lemma_fragment_bound(s1, q);
    lemma_string_body_bound(s1, q);
    assert(s1[q] == s2[q]);
    match fragment_at(s1, q) {
        Ok(Some((f, n))) => {
            lemma_string_body_bound(s1, q + n);
            lemma_fragment_local(s1, s2, m, q);
            lemma_body_local(s1, s2, m, q + n);
        },
        _ => {},
    }
}

/// A token that ends at or below `m` is the same token in a text that holds
/// the same bytes below `m`, if it ends there alike.
pub proof fn lemma_token_local(s1: Seq<u8>, s2: Seq<u8>, m: int, i: int)
    requires
        same_below(s1, s2, m),
        0 <= i,
        token_at(s1, i) matches Ok((t, n)) && i + n <= m && ends_alike(s2, m, i + n),
    ensures
        token_at(s2, i) == token_at(s1, i),
{
    lemma_token_bound(s1, i);
    assert(s1[i] == s2[i]);
    lemma_symbol_at(s1, i);
    lemma_symbol_at(s2, i);
    if ident_len(s1, i) > 0 {
        if let Some((k1, n1)) = symbol_at(s1, i) {
            assert(s1.subrange(i, i + n1)[0] == s1[i]);
        }
        assert(symbol_at(s1, i) is None);
        lemma_ident_local(s1, s2, m, i);
        if let Some((k2, n2)) = symbol_at(s2, i) {
            assert(s2.subrange(i, i + n2)[0] == s2[i]);
        }
    } else if symbol_at(s1, i) is Some {
        lemma_symbol_local(s1, s2, m, i);
    } else {
        if let Some((k2, n2)) = symbol_at(s2, i) {
            assert(s2.subrange(i, i + n2)[0] == s2[i]);
        }
        lemma_string_body_bound(s1, i + 1);
        lemma_body_local(s1, s2, m, i + 1);
    }
}

} // verus!
