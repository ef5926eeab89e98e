//! String literals: raw text and escape sequences between two quotes,
//! decoded into bytes.
use vstd::prelude::*;
use vstd::slice::slice_subrange;
use vstd::string::StringSliceAdditionalSpecFns;
use vstd::utf8::{encode_scalar, is_scalar};
use crate::bytes::{
    byte_at, has_byte_at, hex_digit_to_value, hex_digit_value, is_hex_digit, is_hex_digit_byte,
    lemma_run_len_bound, lemma_run_len_maximal, run_len, scan_run, ByteClass, BACKSLASH, QUOTE,
};
use crate::token::{EscapeError, LexError};

verus! {

/// `char::from_u32` of the standard library, which converts a number to the
/// character with that code. It yields a character exactly for the Unicode
/// scalar values, which are the numbers up to 0x10FFFF outside the surrogate
/// range 0xD800 to 0xDFFF, and the character it yields has the number as its
/// code. This is taken from its documentation and not proved here.
pub assume_specification[ char::from_u32 ](i: u32) -> (r: Option<char>)
    ensures
        r == (if is_scalar(i) {
            Some(i as char)
        } else {
            None::<char>
        }),
;

/// One piece of the contents of a string literal.
#[derive(Clone, Copy, Debug, PartialEq, Eq)]
pub enum StringFragment<'t> {
    /// Bytes taken over from the input as they stand.
    Str(&'t [u8]),
    /// One byte, whatever its value.
    Byte(u8),
    /// One character, to be encoded as UTF-8.
    Char(char),
}

/// What a fragment is, as a mathematical value.
pub enum FragmentView {
    Str(Seq<u8>),
    Byte(u8),
    Char(char),
}

impl FragmentView {
    /// The bytes that the fragment adds to the literal.
    pub open spec fn bytes(self) -> Seq<u8> {
        match self {
            FragmentView::Str(b) => b,
            FragmentView::Byte(b) => seq![b],
            FragmentView::Char(c) => encode_scalar(c as u32),
        }
    }
}

impl<'t> View for StringFragment<'t> {
    type V = FragmentView;

    open spec fn view(&self) -> FragmentView {
        match self {
            StringFragment::Str(b) => FragmentView::Str(b@),
            StringFragment::Byte(b) => FragmentView::Byte(*b),
            StringFragment::Char(c) => FragmentView::Char(*c),
        }
    }
}

impl<'t> From<&'t [u8]> for StringFragment<'t> {
    /// Raw text as a fragment.
    fn from(text: &'t [u8]) -> (r: Self) {
        StringFragment::Str(text)
    }
}

impl<'t> vstd::std_specs::convert::FromSpecImpl<&'t [u8]> for StringFragment<'t> {
    open spec fn obeys_from_spec() -> bool {
        true
    }

    open spec fn from_spec(text: &'t [u8]) -> Self {
        StringFragment::Str(text)
    }
}

impl<'t> From<u8> for StringFragment<'t> {
    /// One byte as a fragment.
    fn from(byte: u8) -> (r: Self) {
        StringFragment::Byte(byte)
    }
}

impl<'t> vstd::std_specs::convert::FromSpecImpl<u8> for StringFragment<'t> {
    open spec fn obeys_from_spec() -> bool {
        true
    }

    open spec fn from_spec(byte: u8) -> Self {
        StringFragment::Byte(byte)
    }
}

impl<'t> From<char> for StringFragment<'t> {
    /// One character as a fragment.
    fn from(c: char) -> (r: Self) {
        StringFragment::Char(c)
    }
}

impl<'t> vstd::std_specs::convert::FromSpecImpl<char> for StringFragment<'t> {
    open spec fn obeys_from_spec() -> bool {
        true
    }

    open spec fn from_spec(c: char) -> Self {
        StringFragment::Char(c)
    }
}

/// Appends the UTF-8 encoding of `c` to `out`.
pub fn push_utf8(out: &mut Vec<u8>, c: char)
    ensures
        final(out)@ == old(out)@ + encode_scalar(c as u32),
{
    let v: u32 = c as u32;
    if v <= 0x7F {
        assert(v & 0x7F <= 0xFF) by (bit_vector);
        out.push((v & 0x7F) as u8);
        assert(out@ =~= old(out)@ + encode_scalar(v));
    } else if v <= 0x7FF {
        assert((v >> 6) & 0x1F <= 0xFF) by (bit_vector);
        assert(v & 0x3F <= 0xFF) by (bit_vector);
        out.push(0xC0 | ((v >> 6) & 0x1F) as u8);
        out.push(0x80 | (v & 0x3F) as u8);
        assert(out@ =~= old(out)@ + encode_scalar(v));
    } else if v <= 0xFFFF {
        assert((v >> 12) & 0x0F <= 0xFF) by (bit_vector);
        assert((v >> 6) & 0x3F <= 0xFF) by (bit_vector);
        assert(v & 0x3F <= 0xFF) by (bit_vector);
        out.push(0xE0 | ((v >> 12) & 0x0F) as u8);
        out.push(0x80 | ((v >> 6) & 0x3F) as u8);
        out.push(0x80 | (v & 0x3F) as u8);
        assert(out@ =~= old(out)@ + encode_scalar(v));
    } else {
        assert((v >> 18) & 0x7 <= 0xFF) by (bit_vector);
        assert((v >> 12) & 0x3F <= 0xFF) by (bit_vector);
        assert((v >> 6) & 0x3F <= 0xFF) by (bit_vector);
        assert(v & 0x3F <= 0xFF) by (bit_vector);
        out.push(0xF0 | ((v >> 18) & 0x7) as u8);
        out.push(0x80 | ((v >> 12) & 0x3F) as u8);
        out.push(0x80 | ((v >> 6) & 0x3F) as u8);
        out.push(0x80 | (v & 0x3F) as u8);
        assert(out@ =~= old(out)@ + encode_scalar(v));
    }
}

/// Appends `src` to `out`.
pub fn push_bytes(out: &mut Vec<u8>, src: &[u8])
    ensures
        final(out)@ == old(out)@ + src@,
{
    let mut k: usize = 0;
    while k < src.len()
        invariant
            k <= src.len(),
            out@ == old(out)@ + src@.subrange(0, k as int),
        decreases src.len() - k,
    {
        out.push(src[k]);
        k += 1;
        assert(out@ =~= old(out)@ + src@.subrange(0, k as int));
    }
    assert(src@.subrange(0, src.len() as int) =~= src@);
}

impl<'t> StringFragment<'t> {
    /// Appends the bytes of the fragment to `out`: raw text and a single
    /// byte as they stand, a character in UTF-8.
    pub fn append_to(&self, out: &mut Vec<u8>)
        ensures
            final(out)@ == old(out)@ + self@.bytes(),
    {
        match self {
            StringFragment::Str(b) => push_bytes(out, b),
            StringFragment::Byte(b) => {
                out.push(*b);
                assert(out@ =~= old(out)@ + self@.bytes());
            },
            StringFragment::Char(c) => push_utf8(out, *c),
        }
    }
}

/// The number written by the `n` hexadecimal digits that start at index `i`.
pub open spec fn hex_value(s: Seq<u8>, i: int, n: nat) -> nat
    decreases n,
{
    if n == 0 {
        0
    } else {
        hex_value(s, i, (n - 1) as nat) * 16 + hex_digit_value(s[i + n - 1])
    }
}

/// 16 to the power `n`.
pub open spec fn pow16(n: nat) -> nat
    decreases n,
{
    if n == 0 {
        1
    } else {
        16 * pow16((n - 1) as nat)
    }
}

/// The whitespace escape at index `j`, just behind a backslash: a run of one
/// or more whitespace bytes. It stands for no byte at all. The result is the
/// length of the run.
pub open spec fn whitespace_escape_at(s: Seq<u8>, j: int) -> Option<nat> {
    let w = run_len(s, j, ByteClass::Space);
    if w > 0 {
        Some(w)
    } else {
        None
    }
}

/// The byte that the one-letter escape `b` stands for.
pub open spec fn char_escape_of(b: u8) -> Option<u8> {
    if b == 'n' as u8 {
        Some(0x0Au8)
    } else if b == 'r' as u8 {
        Some(0x0Du8)
    } else if b == 't' as u8 {
        Some(0x09u8)
    } else if b == BACKSLASH {
        Some(0x5Cu8)
    } else if b == '0' as u8 {
        Some(0x00u8)
    } else if b == QUOTE {
        Some(0x22u8)
    } else {
        None
    }
}

/// The one-letter escape at index `j`, just behind a backslash.
pub open spec fn char_escape_at(s: Seq<u8>, j: int) -> Option<u8> {
    if 0 <= j < s.len() {
        char_escape_of(s[j])
    } else {
        None
    }
}

/// The byte escape at index `j`, just behind a backslash: `x` and exactly
/// two hexadecimal digits, which write the byte. `Ok(None)` where no `x`
/// stands.
pub open spec fn byte_escape_at(s: Seq<u8>, j: int) -> Result<Option<u8>, EscapeError> {
    if !has_byte_at(s, j, 'x' as u8) {
        Ok(None)
    } else if j + 2 < s.len() && is_hex_digit(s[j + 1]) && is_hex_digit(s[j + 2]) {
        Ok(Some((hex_digit_value(s[j + 1]) * 16 + hex_digit_value(s[j + 2])) as u8))
    } else {
        Err(EscapeError::MalformedHex)
    }
}

/// The Unicode escape at index `j`, just behind a backslash: `u`, an opening
/// brace, one to six hexadecimal digits and a closing brace. The digits must
/// write a Unicode scalar value. The result is the character and the length
/// of the escape; `Ok(None)` where no `u` stands.
pub open spec fn unicode_escape_at(s: Seq<u8>, j: int) -> Result<Option<(char, nat)>, EscapeError> {
    if !has_byte_at(s, j, 'u' as u8) {
        Ok(None)
    } else {
        let d = run_len(s, j + 2, ByteClass::HexDigit);
        if has_byte_at(s, j + 1, '{' as u8) && 1 <= d <= 6 && has_byte_at(s, j + 2 + d, '}' as u8) {
            let v = hex_value(s, j + 2, d);
            if is_scalar(v as u32) {
                Ok(Some((v as u32 as char, d + 3)))
            } else {
                Err(EscapeError::InvalidScalar)
            }
        } else {
            Err(EscapeError::MalformedHex)
        }
    }
}

/// The escape at index `j`, just behind a backslash, as a fragment and its
/// length. The four forms are tried in order: whitespace, one letter, byte,
/// Unicode. Where none stands the escape is refused.
pub open spec fn escape_at(s: Seq<u8>, j: int) -> Result<(FragmentView, nat), EscapeError> {
    match whitespace_escape_at(s, j) {
        Some(w) => Ok((FragmentView::Str(Seq::empty()), w)),
        None => match char_escape_at(s, j) {
            Some(b) => Ok((FragmentView::Byte(b), 1)),
            None => match byte_escape_at(s, j) {
                Err(e) => Err(e),
                Ok(Some(b)) => Ok((FragmentView::Byte(b), 3)),
                Ok(None) => match unicode_escape_at(s, j) {
                    Err(e) => Err(e),
                    Ok(Some((c, n))) => Ok((FragmentView::Char(c), n)),
                    Ok(None) => Err(EscapeError::UnknownEscape),
                },
            },
        },
    }
}

/// The fragment at index `j` of a literal's contents, and its length: the
/// longest run of bytes that are neither quote nor backslash, or else a
/// backslash with the escape behind it. `Ok(None)` where neither starts: at a
/// quote and at the end of the input. A backslash without an escape behind
/// it is an error, whose offset is the index behind the backslash.
pub open spec fn fragment_at(s: Seq<u8>, j: int) -> Result<Option<(FragmentView, nat)>, LexError> {
    let r = run_len(s, j, ByteClass::RawText);
    if r > 0 {
        Ok(Some((FragmentView::Str(s.subrange(j, j + r)), r)))
    } else if has_byte_at(s, j, BACKSLASH) {
        match escape_at(s, j + 1) {
            Ok((f, n)) => Ok(Some((f, n + 1))),
            Err(reason) => Err(LexError::InvalidEscape { offset: (j + 1) as usize, reason }),
        }
    } else {
        Ok(None)
    }
}

/// An escape stays inside the sequence and is not empty.
pub proof fn lemma_escape_bound(s: Seq<u8>, j: int)
    ensures
        escape_at(s, j) matches Ok((f, n)) ==> n >= 1 && 0 <= j && j + n <= s.len(),
{
    lemma_run_len_bound(s, j, ByteClass::Space);
    lemma_run_len_bound(s, j + 2, ByteClass::HexDigit);
}

/// A fragment stays inside the sequence and is not empty.
pub proof fn lemma_fragment_bound(s: Seq<u8>, j: int)
    ensures
        fragment_at(s, j) matches Ok(Some((f, n))) ==> n >= 1 && 0 <= j && j + n <= s.len(),
{
    lemma_run_len_bound(s, j, ByteClass::RawText);
    lemma_escape_bound(s, j + 1);
}

/// Puts `prefix`, which took `consumed` bytes of input, before the decoded
/// rest of a literal's contents.
pub open spec fn body_after(
    prefix: Seq<u8>,
    consumed: nat,
    rest: Result<Option<(Seq<u8>, nat)>, LexError>,
) -> Result<Option<(Seq<u8>, nat)>, LexError> {
    match rest {
        Ok(Some((bytes, n))) => Ok(Some((prefix + bytes, consumed + n))),
        other => other,
    }
}

/// The contents of a literal from index `j` up to the closing quote: the
/// bytes of its fragments, one after the other, and the length up to and
/// including the quote. `Ok(None)` where the input ends before a quote.
pub open spec fn string_body(s: Seq<u8>, j: int) -> Result<Option<(Seq<u8>, nat)>, LexError>
    decreases s.len() - j,
{
    match fragment_at(s, j) {
        Err(e) => Err(e),
        Ok(None) => if has_byte_at(s, j, QUOTE) {
            Ok(Some((Seq::empty(), 1)))
        } else {
            Ok(None)
        },
        Ok(Some((f, n))) => {
            proof {
                lemma_fragment_bound(s, j);
            }
            body_after(f.bytes(), n, string_body(s, j + n))
        },
    }
}

/// The string literal at index `i`, as its decoded bytes and its length,
/// quotes included. `Ok(None)` where no quote stands. A literal that is not
/// closed is an error, whose offset is that of the opening quote.
pub open spec fn string_literal_at(s: Seq<u8>, i: int) -> Result<Option<(Seq<u8>, nat)>, LexError> {
    if !has_byte_at(s, i, QUOTE) {
        Ok(None)
    } else {
        match string_body(s, i + 1) {
            Err(e) => Err(e),
            Ok(None) => Err(LexError::UnterminatedString { offset: i as usize }),
            Ok(Some((bytes, n))) => Ok(Some((bytes, n + 1))),
        }
    }
}

/// The contents of a literal stay inside the sequence.
pub proof fn lemma_string_body_bound(s: Seq<u8>, j: int)
    ensures
        string_body(s, j) matches Ok(Some((bytes, n))) ==> n >= 1 && 0 <= j && j + n <= s.len(),
    decreases s.len() - j,
{
    lemma_fragment_bound(s, j);
    match fragment_at(s, j) {
        Ok(Some((f, n))) => {
            lemma_string_body_bound(s, j + n);
        },
        _ => {},
    }
}

/// Recognizes raw text at `pos`: the longest run of bytes that are neither
/// quote nor backslash, if it is not empty.
pub fn parse_nonescape<'t>(input: &'t str, pos: usize) -> (r: Option<(StringFragment<'t>, usize)>)
    ensures
        match r {
            Some((f, n)) => n > 0 && n == run_len(input.spec_bytes(), pos as int, ByteClass::RawText)
                && pos + n <= input.spec_bytes().len() && f@ == FragmentView::Str(
                input.spec_bytes().subrange(pos as int, pos + n),
            ),
            None => run_len(input.spec_bytes(), pos as int, ByteClass::RawText) == 0,
        },
{
    let bytes = input.as_bytes();
    let n = scan_run(bytes, pos, ByteClass::RawText);
    if n > 0 {
        proof {
            lemma_run_len_bound(bytes@, pos as int, ByteClass::RawText);
        }
        let len = bytes.len();
        assert(pos + n <= len);
        Some((StringFragment::from(slice_subrange(bytes, pos, pos + n)), n))
    } else {
        None
    }
}

/// Recognizes a whitespace escape at `pos`, just behind a backslash: one or
/// more whitespace bytes, which stand for nothing.
pub fn parse_whitespace_escape<'t>(input: &'t str, pos: usize) -> (r: Option<
    (StringFragment<'t>, usize),
>)
    ensures
        match r {
            Some((f, n)) => whitespace_escape_at(input.spec_bytes(), pos as int) == Some(n as nat)
                && f@ == FragmentView::Str(Seq::empty()) && pos + n <= input.spec_bytes().len(),
            None => whitespace_escape_at(input.spec_bytes(), pos as int) is None,
        },
{
    let bytes = input.as_bytes();
    let n = scan_run(bytes, pos, ByteClass::Space);
    if n > 0 {
        proof {
            lemma_run_len_bound(bytes@, pos as int, ByteClass::Space);
        }
        let empty = slice_subrange(bytes, 0, 0);
        assert(empty@ =~= Seq::<u8>::empty());
        Some((StringFragment::Str(empty), n))
    } else {
        None
    }
}

/// Recognizes a one-letter escape at `pos`, just behind a backslash: `n`,
/// `r`, `t`, a backslash, `0` or a quote.
pub fn parse_char_escape<'t>(input: &'t str, pos: usize) -> (r: Option<(StringFragment<'t>, usize)>)
    ensures
        match r {
            Some((f, n)) => n == 1 && pos < input.spec_bytes().len() && match char_escape_at(
                input.spec_bytes(),
                pos as int,
            ) {
                Some(b) => f@ == FragmentView::Byte(b),
                None => false,
            },
            None => char_escape_at(input.spec_bytes(), pos as int) is None,
        },
{
    let bytes = input.as_bytes();
    if pos >= bytes.len() {
        return None;
    }
    let b = bytes[pos];
    if b == 'n' as u8 {
        Some((StringFragment::Byte(0x0A), 1))
    } else if b == 'r' as u8 {
        Some((StringFragment::Byte(0x0D), 1))
    } else if b == 't' as u8 {
        Some((StringFragment::Byte(0x09), 1))
    } else if b == BACKSLASH {
        Some((StringFragment::Byte(0x5C), 1))
    } else if b == '0' as u8 {
        Some((StringFragment::Byte(0x00), 1))
    } else if b == QUOTE {
        Some((StringFragment::Byte(0x22), 1))
    } else {
        None
    }
}

/// Recognizes a byte escape at `pos`, just behind a backslash: `x` and two
/// hexadecimal digits. `Ok(None)` where no `x` stands; an `x` without its
/// two digits is an error.
pub fn parse_byte_escape<'t>(input: &'t str, pos: usize) -> (r: Result<
    Option<(StringFragment<'t>, usize)>,
    EscapeError,
>)
    ensures
        match r {
            Ok(Some((f, n))) => n == 3 && pos + 3 <= input.spec_bytes().len() && match byte_escape_at(
                input.spec_bytes(),
                pos as int,
            ) {
                Ok(Some(b)) => f@ == FragmentView::Byte(b),
                _ => false,
            },
            Ok(None) => byte_escape_at(input.spec_bytes(), pos as int) == Ok::<
                Option<u8>,
                EscapeError,
            >(None),
            Err(e) => byte_escape_at(input.spec_bytes(), pos as int) == Err::<
                Option<u8>,
                EscapeError,
            >(e),
        },
{
    let bytes = input.as_bytes();
    if !byte_at(bytes, pos, 'x' as u8) {
        return Ok(None);
    }
    if bytes.len() - pos < 3 {
        return Err(EscapeError::MalformedHex);
    }
    let hi = bytes[pos + 1];
    let lo = bytes[pos + 2];
    if is_hex_digit_byte(hi) && is_hex_digit_byte(lo) {
        let value = hex_digit_to_value(hi) * 16 + hex_digit_to_value(lo);
        Ok(Some((StringFragment::from(value), 3)))
    } else {
        Err(EscapeError::MalformedHex)
    }
}

/// Reads the number written by the `n` hexadecimal digits at `pos`.
fn read_hex(bytes: &[u8], pos: usize, n: usize) -> (v: u32)
    requires
        n <= 6,
        pos + n <= bytes.len(),
        forall|k: int| pos <= k < pos + n ==> is_hex_digit(#[trigger] bytes@[k]),
    ensures
        v == hex_value(bytes@, pos as int, n as nat),
        v < 0x1000000,
{
    let mut v: u32 = 0;
    let mut k: usize = 0;
    while k < n
        invariant
            k <= n <= 6,
            pos + n <= bytes.len(),
            forall|j: int| pos <= j < pos + n ==> is_hex_digit(#[trigger] bytes@[j]),
            v == hex_value(bytes@, pos as int, k as nat),
            v < pow16(k as nat),
        decreases n - k,
    {
        proof {
            reveal_with_fuel(pow16, 8);
            assert(is_hex_digit(bytes@[pos + k]));
        }
        let d = hex_digit_to_value(bytes[pos + k]);
        v = v * 16 + d as u32;
        k += 1;
    }
    proof {
        reveal_with_fuel(pow16, 8);
    }
    v
}

/// Recognizes a Unicode escape at `pos`, just behind a backslash: `u` and,
/// in braces, one to six hexadecimal digits that write a Unicode scalar
/// value. `Ok(None)` where no `u` stands; a `u` with anything else behind it
/// is an error.
pub fn parse_unicode_escape<'t>(input: &'t str, pos: usize) -> (r: Result<
    Option<(StringFragment<'t>, usize)>,
    EscapeError,
>)
    ensures
        match r {
            Ok(Some((f, n))) => pos + n <= input.spec_bytes().len() && match unicode_escape_at(
                input.spec_bytes(),
                pos as int,
            ) {
                Ok(Some((c, m))) => f@ == FragmentView::Char(c) && n == m,
                _ => false,
            },
            Ok(None) => unicode_escape_at(input.spec_bytes(), pos as int) == Ok::<
                Option<(char, nat)>,
                EscapeError,
            >(None),
            Err(e) => unicode_escape_at(input.spec_bytes(), pos as int) == Err::<
                Option<(char, nat)>,
                EscapeError,
            >(e),
        },
{
    let bytes = input.as_bytes();
    if !byte_at(bytes, pos, 'u' as u8) {
        return Ok(None);
    }
    if !byte_at(bytes, pos + 1, '{' as u8) {
        return Err(EscapeError::MalformedHex);
    }
    let d = scan_run(bytes, pos + 2, ByteClass::HexDigit);
    proof {
        lemma_run_len_bound(bytes@, pos + 2, ByteClass::HexDigit);
        lemma_run_len_maximal(bytes@, pos + 2, ByteClass::HexDigit);
    }
    if d < 1 || d > 6 || !byte_at(bytes, pos + 2 + d, '}' as u8) {
        return Err(EscapeError::MalformedHex);
    }
    assert forall|k: int| pos + 2 <= k < pos + 2 + d implies is_hex_digit(#[trigger] bytes@[k]) by {
        assert(ByteClass::HexDigit.contains(bytes@[k]));
    }
    let v = read_hex(bytes, pos + 2, d);
    match char::from_u32(v) {
        Some(c) => Ok(Some((StringFragment::from(c), d + 3))),
        None => Err(EscapeError::InvalidScalar),
    }
}

/// Decodes the escape at `pos`, just behind a backslash. The four forms are
/// tried in order, and the first that stands there decides; where none does,
/// the escape is refused.
pub fn parse_escape_body<'t>(input: &'t str, pos: usize) -> (r: Result<
    (StringFragment<'t>, usize),
    EscapeError,
>)
    ensures
        match r {
            Ok((f, n)) => escape_at(input.spec_bytes(), pos as int) == Ok::<
                (FragmentView, nat),
                EscapeError,
            >((f@, n as nat)) && pos + n <= input.spec_bytes().len(),
            Err(e) => escape_at(input.spec_bytes(), pos as int) == Err::<
                (FragmentView, nat),
                EscapeError,
            >(e),
        },
{
    if let Some(found) = parse_whitespace_escape(input, pos) {
        return Ok(found);
    }
    if let Some(found) = parse_char_escape(input, pos) {
        return Ok(found);
    }
    match parse_byte_escape(input, pos) {
        Err(e) => {
            return Err(e);
        },
        Ok(Some(found)) => {
            return Ok(found);
        },
        Ok(None) => {},
    }
    match parse_unicode_escape(input, pos) {
        Err(e) => Err(e),
        Ok(Some(found)) => Ok(found),
        Ok(None) => Err(EscapeError::UnknownEscape),
    }
}

/// Recognizes an escape sequence at `pos`: a backslash and the escape behind
/// it. `Ok(None)` where no backslash stands. Behind the backslash there is
/// no way back: whatever is no escape there is an error, whose offset is the
/// position behind the backslash.
pub fn parse_escape<'t>(input: &'t str, pos: usize) -> (r: Result<
    Option<(StringFragment<'t>, usize)>,
    LexError,
>)
    ensures
        match r {
            Ok(Some((f, n))) => n >= 2 && pos + n <= input.spec_bytes().len() && has_byte_at(
                input.spec_bytes(),
                pos as int,
                BACKSLASH,
            ) && escape_at(input.spec_bytes(), pos + 1) == Ok::<(FragmentView, nat), EscapeError>(
                (f@, (n - 1) as nat),
            ),
            Ok(None) => !has_byte_at(input.spec_bytes(), pos as int, BACKSLASH),
            Err(e) => has_byte_at(input.spec_bytes(), pos as int, BACKSLASH) && match escape_at(
                input.spec_bytes(),
                pos + 1,
            ) {
                Err(reason) => e == (LexError::InvalidEscape { offset: (pos + 1) as usize, reason }),
                Ok(_) => false,
            },
        },
{
    let bytes = input.as_bytes();
    if !byte_at(bytes, pos, BACKSLASH) {
        return Ok(None);
    }
    proof {
        lemma_escape_bound(bytes@, pos + 1);
    }
    match parse_escape_body(input, pos + 1) {
        Ok((f, n)) => Ok(Some((f, n + 1))),
        Err(reason) => Err(LexError::InvalidEscape { offset: pos + 1, reason }),
    }
}

/// Recognizes one fragment of a literal's contents at `pos`: raw text, or
/// else an escape sequence. `Ok(None)` at a quote and at the end of the
/// input.
pub fn parse_fragment<'t>(input: &'t str, pos: usize) -> (r: Result<
    Option<(StringFragment<'t>, usize)>,
    LexError,
>)
    ensures
        match r {
            Ok(Some((f, n))) => fragment_at(input.spec_bytes(), pos as int) == Ok::<
                Option<(FragmentView, nat)>,
                LexError,
            >(Some((f@, n as nat))) && n >= 1 && pos + n <= input.spec_bytes().len(),
            Ok(None) => fragment_at(input.spec_bytes(), pos as int) == Ok::<
                Option<(FragmentView, nat)>,
                LexError,
            >(None),
            Err(e) => fragment_at(input.spec_bytes(), pos as int) == Err::<
                Option<(FragmentView, nat)>,
                LexError,
            >(e),
        },
{
    match parse_nonescape(input, pos) {
        Some(found) => Ok(Some(found)),
        None => parse_escape(input, pos),
    }
}

/// Recognizes a string literal at `pos`: a quote, fragments, a quote.
/// Returns the decoded bytes and the length of the literal in the input.
/// `Ok(None)` where no quote stands at `pos`. A literal that the input ends
/// in, and one with a backslash that opens no escape, is an error.
pub fn parse_string_literal(input: &str, pos: usize) -> (r: Result<
    Option<(Vec<u8>, usize)>,
    LexError,
>)
    ensures
        match r {
            Ok(Some((bytes, n))) => string_literal_at(input.spec_bytes(), pos as int) == Ok::<
                Option<(Seq<u8>, nat)>,
                LexError,
            >(Some((bytes@, n as nat))) && n >= 2 && pos + n <= input.spec_bytes().len(),
            Ok(None) => string_literal_at(input.spec_bytes(), pos as int) == Ok::<
                Option<(Seq<u8>, nat)>,
                LexError,
            >(None),
            Err(e) => string_literal_at(input.spec_bytes(), pos as int) == Err::<
                Option<(Seq<u8>, nat)>,
                LexError,
            >(e),
        },
{
    let bytes = input.as_bytes();
    if !byte_at(bytes, pos, QUOTE) {
        return Ok(None);
    }
    let ghost s = input.spec_bytes();
    let mut out: Vec<u8> = Vec::new();
    let mut k: usize = pos + 1;
    loop
        invariant
            s == input.spec_bytes(),
            bytes@ == s,
            pos < k <= bytes.len(),
            has_byte_at(s, pos as int, QUOTE),
            string_body(s, pos + 1) == body_after(
                out@,
                (k - pos - 1) as nat,
                string_body(s, k as int),
            ),
        decreases bytes.len() - k,
    {
        match parse_fragment(input, k) {
            Err(e) => {
                return Err(e);
            },
            Ok(None) => {
                if byte_at(bytes, k, QUOTE) {
                    assert(out@ + Seq::<u8>::empty() =~= out@);
                    return Ok(Some((out, k + 1 - pos)));
                } else {
                    return Err(LexError::UnterminatedString { offset: pos });
                }
            },
            Ok(Some((f, n))) => {
                let ghost before = out@;
                f.append_to(&mut out);
                proof {
                    let rest = string_body(s, k + n);
                    assert(string_body(s, k as int) == body_after(f@.bytes(), n as nat, rest));
                    match rest {
                        Ok(Some((tail, m))) => {
                            assert(before + (f@.bytes() + tail) =~= (before + f@.bytes()) + tail);
                        },
                        _ => {},
                    }
                }
                k += n;
            },
        }
    }
}

} // verus!
