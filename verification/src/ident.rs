//! Identifiers and reserved words.
use vstd::prelude::*;
use vstd::slice::slice_subrange;
use vstd::string::StringSliceAdditionalSpecFns;
use vstd::utf8::{
    decode_utf8, encode_utf8, encode_utf8_decode_utf8, encode_utf8_valid_utf8, is_ascii_chars,
    is_ascii_chars_encode_utf8, is_char_boundary, is_char_boundary_iff_is_leading_byte,
    pop_first_scalar, valid_utf8,
};
use crate::bytes::{
    is_ident_continue, is_ident_start, is_ident_start_byte, lemma_run_len_bound,
    lemma_run_len_maximal, run_len, scan_run, starts_with_at, ByteClass,
};
use crate::token::{keyword_of, KeywordKind};

verus! {

/// Length of the identifier-shaped span that starts at index `i`: a letter or
/// an underscore, then as many letters, digits and underscores as follow. It
/// is 0 where no such span starts.
pub open spec fn ident_len(s: Seq<u8>, i: int) -> nat {
    if 0 <= i < s.len() && is_ident_start(s[i]) {
        1 + run_len(s, i + 1, ByteClass::IdentContinue)
    } else {
        0
    }
}

/// Whether the whole of `text` has the shape of an identifier.
pub open spec fn is_ident_text(text: Seq<u8>) -> bool {
    &&& text.len() > 0
    &&& is_ident_start(text[0])
    &&& forall|k: int| 0 < k < text.len() ==> is_ident_continue(#[trigger] text[k])
}

/// The characters that ASCII bytes stand for.
pub open spec fn ascii_text(bytes: Seq<u8>) -> Seq<char> {
    Seq::new(bytes.len(), |k: int| bytes[k] as char)
}

/// The identifier-shaped span at index `i`, as text and length.
pub open spec fn ident_at(s: Seq<u8>, i: int) -> Option<(Seq<char>, nat)> {
    let n = ident_len(s, i);
    if n > 0 {
        Some((ascii_text(s.subrange(i, i + n)), n))
    } else {
        None
    }
}

/// The reserved word at index `i` and its length: the identifier-shaped span
/// there must spell the word as a whole.
pub open spec fn keyword_at(s: Seq<u8>, i: int) -> Option<(KeywordKind, nat)> {
    let n = ident_len(s, i);
    if n > 0 {
        match keyword_of(s.subrange(i, i + n)) {
            Some(k) => Some((k, n)),
            None => None,
        }
    } else {
        None
    }
}

/// An identifier-shaped span stays inside the sequence and has the shape of
/// an identifier; the byte behind it, if there is one, cannot continue it.
pub proof fn lemma_ident_len(s: Seq<u8>, i: int)
    ensures
        ident_len(s, i) > 0 ==> 0 <= i && i + ident_len(s, i) <= s.len() && is_ident_text(
            s.subrange(i, i + ident_len(s, i)),
        ),
        ident_len(s, i) > 0 && i + ident_len(s, i) < s.len() ==> !is_ident_continue(
            s[i + ident_len(s, i)],
        ),
{
    if ident_len(s, i) > 0 {
        lemma_run_len_bound(s, i + 1, ByteClass::IdentContinue);
        lemma_run_len_maximal(s, i + 1, ByteClass::IdentContinue);
        let n = ident_len(s, i) as int;
        let text = s.subrange(i, i + n);
        assert forall|k: int| 0 < k < text.len() implies is_ident_continue(#[trigger] text[k]) by {
            assert(ByteClass::IdentContinue.contains(s[i + k]));
        }
    }
}

/// In UTF-8, a stretch of ASCII bytes at the start ends on a character
/// boundary.
proof fn lemma_ascii_prefix_boundary(bytes: Seq<u8>, n: int)
    requires
        valid_utf8(bytes),
        0 <= n <= bytes.len(),
        forall|k: int| 0 <= k < n ==> #[trigger] bytes[k] < 0x80,
    ensures
        is_char_boundary(bytes, n),
    decreases n,
{
    if n > 0 {
        let rest = pop_first_scalar(bytes);
        assert(bytes[0] < 0x80);
        assert(rest =~= bytes.subrange(1, bytes.len() as int));
        assert forall|k: int| 0 <= k < n - 1 implies #[trigger] rest[k] < 0x80 by {
            assert(rest[k] == bytes[k + 1]);
        }
        lemma_ascii_prefix_boundary(rest, n - 1);
    }
}

/// Text whose UTF-8 encoding is made of ASCII bytes is those bytes read as
/// characters.
proof fn lemma_ascii_text(chars: Seq<char>, bytes: Seq<u8>)
    requires
        encode_utf8(chars) == bytes,
        forall|k: int| 0 <= k < bytes.len() ==> #[trigger] bytes[k] < 0x80,
    ensures
        chars == ascii_text(bytes),
{
    let t = ascii_text(bytes);
    assert(is_ascii_chars(t)) by {
        assert forall|k: int| 0 <= k < t.len() implies '\0' <= #[trigger] t[k] <= '\u{7f}' by {
            assert(bytes[k] < 0x80);
        }
    }
    is_ascii_chars_encode_utf8(t);
    assert(encode_utf8(t) =~= bytes) by {
        assert forall|k: int| 0 <= k < bytes.len() implies encode_utf8(t)[k] == bytes[k] by {
            assert(bytes[k] < 0x80);
            assert(t[k] as u8 == bytes[k]);
        }
    }
    encode_utf8_decode_utf8(t);
    encode_utf8_decode_utf8(chars);
    assert(decode_utf8(encode_utf8(t)) == t);
    assert(decode_utf8(encode_utf8(chars)) == chars);
}

/// Recognizes an identifier-shaped span at `pos` and returns its length in
/// bytes. The span is as long as it can be.
pub fn recognize_ident(input: &str, pos: usize) -> (r: Option<usize>)
    ensures
        match r {
            Some(n) => n > 0 && n == ident_len(input.spec_bytes(), pos as int) && pos + n
                <= input.spec_bytes().len(),
            None => ident_len(input.spec_bytes(), pos as int) == 0,
        },
{
    let bytes = input.as_bytes();
    if pos < bytes.len() && is_ident_start_byte(bytes[pos]) {
        let n = scan_run(bytes, pos + 1, ByteClass::IdentContinue);
        Some(n + 1)
    } else {
        None
    }
}

/// Recognizes an identifier-shaped span at `pos` and returns its text and its
/// length in bytes. A reserved word has that shape too: the caller tries
/// `parse_keyword` first.
pub fn parse_ident(input: &str, pos: usize) -> (r: Option<(String, usize)>)
    ensures
        match r {
            Some((text, n)) => ident_at(input.spec_bytes(), pos as int) == Some((text@, n as nat))
                && pos + n <= input.spec_bytes().len(),
            None => ident_at(input.spec_bytes(), pos as int) is None,
        },
{
    match recognize_ident(input, pos) {
        None => None,
        Some(n) => {
            let ghost s = input.spec_bytes();
            let ghost span = s.subrange(pos as int, pos + n);
            proof {
                lemma_ident_len(s, pos as int);
                encode_utf8_valid_utf8(input@);
                assert(is_ident_start(s[pos as int]));
                is_char_boundary_iff_is_leading_byte(s, pos as int);
            }
            let (_, tail) = input.split_at(pos);
            proof {
                encode_utf8_valid_utf8(tail@);
                assert forall|k: int| 0 <= k < n implies #[trigger] tail.spec_bytes()[k]
                    < 0x80 by {
                    assert(tail.spec_bytes()[k] == span[k]);
                    if k > 0 {
                        assert(is_ident_continue(span[k]));
                    }
                }
                lemma_ascii_prefix_boundary(tail.spec_bytes(), n as int);
            }
            let (name, _) = tail.split_at(n);
            let text = name.to_owned();
            proof {
                assert(name.spec_bytes() =~= span);
                assert forall|k: int| 0 <= k < span.len() implies #[trigger] span[k] < 0x80 by {
                    if k > 0 {
                        assert(is_ident_continue(span[k]));
                    }
                }
                lemma_ascii_text(name@, span);
            }
            Some((text, n))
        },
    }
}

/// Tests whether `text` as a whole is the spelling of `k`.
fn spells(text: &[u8], k: KeywordKind) -> (r: bool)
    ensures
        r == (text@ == k.spelling()),
{
    let word = k.as_str().as_bytes();
    let r = text.len() == word.len() && starts_with_at(text, 0, word);
    proof {
        if text@.len() == word@.len() {
            assert(text@.subrange(0, word@.len() as int) =~= text@);
        }
    }
    r
}

impl KeywordKind {
    /// Looks `text` up among the reserved words. The match is exact and
    /// case-sensitive.
    pub fn from_spelling(text: &[u8]) -> (r: Option<KeywordKind>)
        ensures
            r == keyword_of(text@),
    {
        if spells(text, KeywordKind::Else) {
            Some(KeywordKind::Else)
        } else if spells(text, KeywordKind::Enum) {
            Some(KeywordKind::Enum)
        } else if spells(text, KeywordKind::Fn) {
            Some(KeywordKind::Fn)
        } else if spells(text, KeywordKind::If) {
            Some(KeywordKind::If)
        } else if spells(text, KeywordKind::Impl) {
            Some(KeywordKind::Impl)
        } else if spells(text, KeywordKind::Let) {
            Some(KeywordKind::Let)
        } else if spells(text, KeywordKind::Match) {
            Some(KeywordKind::Match)
        } else if spells(text, KeywordKind::Mod) {
            Some(KeywordKind::Mod)
        } else if spells(text, KeywordKind::Pub) {
            Some(KeywordKind::Pub)
        } else if spells(text, KeywordKind::Struct) {
            Some(KeywordKind::Struct)
        } else if spells(text, KeywordKind::Trait) {
            Some(KeywordKind::Trait)
        } else if spells(text, KeywordKind::Type) {
            Some(KeywordKind::Type)
        } else if spells(text, KeywordKind::Use) {
            Some(KeywordKind::Use)
        } else if spells(text, KeywordKind::Where) {
            Some(KeywordKind::Where)
        } else {
            None
        }
    }
}

/// Recognizes a reserved word at `pos`: scans the identifier-shaped span
/// there and looks the whole of it up. Returns the word and its length in
/// bytes.
pub fn parse_keyword(input: &str, pos: usize) -> (r: Option<(KeywordKind, usize)>)
    ensures
        match r {
            Some((k, n)) => keyword_at(input.spec_bytes(), pos as int) == Some((k, n as nat))
                && pos + n <= input.spec_bytes().len(),
            None => keyword_at(input.spec_bytes(), pos as int) is None,
        },
{
    match recognize_ident(input, pos) {
        None => None,
        Some(n) => {
            let bytes = input.as_bytes();
            let len = bytes.len();
            assert(pos + n <= len);
            match KeywordKind::from_spelling(slice_subrange(bytes, pos, pos + n)) {
                Some(k) => Some((k, n)),
                None => None,
            }
        },
    }
}

} // verus!
