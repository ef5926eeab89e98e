//! Byte values and byte classes of the grammar, and maximal runs of a class.
use vstd::prelude::*;

verus! {

pub const TAB: u8 = 0x09;

pub const NEWLINE: u8 = 0x0A;

pub const CARRIAGE_RETURN: u8 = 0x0D;

pub const SPACE: u8 = 0x20;

pub const QUOTE: u8 = 0x22;

pub const SLASH: u8 = 0x2F;

pub const BACKSLASH: u8 = 0x5C;

pub const UNDERSCORE: u8 = 0x5F;

/// Whitespace: space, tab, carriage return, line feed.
pub open spec fn is_space(b: u8) -> bool {
    b == SPACE || b == TAB || b == CARRIAGE_RETURN || b == NEWLINE
}

/// ASCII letters.
pub open spec fn is_alpha(b: u8) -> bool {
    (0x41 <= b <= 0x5A) || (0x61 <= b <= 0x7A)
}

/// ASCII decimal digits.
pub open spec fn is_digit(b: u8) -> bool {
    0x30 <= b <= 0x39
}

/// A byte that may open an identifier: a letter or an underscore.
pub open spec fn is_ident_start(b: u8) -> bool {
    is_alpha(b) || b == UNDERSCORE
}

/// A byte that may continue an identifier: a letter, a digit or an underscore.
pub open spec fn is_ident_continue(b: u8) -> bool {
    is_alpha(b) || is_digit(b) || b == UNDERSCORE
}

/// ASCII hexadecimal digits, in either case.
pub open spec fn is_hex_digit(b: u8) -> bool {
    is_digit(b) || (0x41 <= b <= 0x46) || (0x61 <= b <= 0x66)
}

/// The number that a hexadecimal digit stands for.
pub open spec fn hex_digit_value(b: u8) -> nat
    recommends
        is_hex_digit(b),
{
    if is_digit(b) {
        (b - 0x30) as nat
    } else if 0x41 <= b <= 0x46 {
        (b - 0x41 + 10) as nat
    } else {
        (b - 0x61 + 10) as nat
    }
}

/// The sets of bytes that the grammar scans runs of.
#[derive(Clone, Copy, Debug, PartialEq, Eq, Structural)]
pub enum ByteClass {
    /// Whitespace.
    Space,
    /// What may follow the first byte of an identifier.
    IdentContinue,
    /// Anything but a line feed: the text of a line comment.
    CommentText,
    /// Anything but a quote or a backslash: raw text inside a string literal.
    RawText,
    /// Hexadecimal digits.
    HexDigit,
}

impl ByteClass {
    /// Whether `b` belongs to the class.
    pub open spec fn contains(self, b: u8) -> bool {
        match self {
            ByteClass::Space => is_space(b),
            ByteClass::IdentContinue => is_ident_continue(b),
            ByteClass::CommentText => b != NEWLINE,
            ByteClass::RawText => b != QUOTE && b != BACKSLASH,
            ByteClass::HexDigit => is_hex_digit(b),
        }
    }

    /// Tests whether `b` belongs to the class.
    pub fn has(self, b: u8) -> (r: bool)
        ensures
            r == self.contains(b),
    {
        match self {
            ByteClass::Space => is_space_byte(b),
            ByteClass::IdentContinue => is_ident_continue_byte(b),
            ByteClass::CommentText => b != NEWLINE,
            ByteClass::RawText => b != QUOTE && b != BACKSLASH,
            ByteClass::HexDigit => is_hex_digit_byte(b),
        }
    }
}

/// Tests for whitespace.
pub fn is_space_byte(b: u8) -> (r: bool)
    ensures
        r == is_space(b),
{
    b == SPACE || b == TAB || b == CARRIAGE_RETURN || b == NEWLINE
}

/// Tests for a byte that may open an identifier.
pub fn is_ident_start_byte(b: u8) -> (r: bool)
    ensures
        r == is_ident_start(b),
{
    (0x41 <= b && b <= 0x5A) || (0x61 <= b && b <= 0x7A) || b == UNDERSCORE
}

/// Tests for a byte that may continue an identifier.
pub fn is_ident_continue_byte(b: u8) -> (r: bool)
    ensures
        r == is_ident_continue(b),
{
    is_ident_start_byte(b) || (0x30 <= b && b <= 0x39)
}

/// Tests for a hexadecimal digit.
pub fn is_hex_digit_byte(b: u8) -> (r: bool)
    ensures
        r == is_hex_digit(b),
{
    (0x30 <= b && b <= 0x39) || (0x41 <= b && b <= 0x46) || (0x61 <= b && b <= 0x66)
}

/// The value of a hexadecimal digit.
pub fn hex_digit_to_value(b: u8) -> (v: u8)
    requires
        is_hex_digit(b),
    ensures
        v == hex_digit_value(b),
        v < 16,
{
    if 0x30 <= b && b <= 0x39 {
        b - 0x30
    } else if 0x41 <= b && b <= 0x46 {
        b - 0x41 + 10
    } else {
        b - 0x61 + 10
    }
}

/// Length of the longest run of bytes of class `c` that starts at index `i`
/// of `s`. It is 0 where `i` is not an index of `s`.
pub open spec fn run_len(s: Seq<u8>, i: int, c: ByteClass) -> nat
    decreases s.len() - i,
{
    if 0 <= i < s.len() && c.contains(s[i]) {
        1 + run_len(s, i + 1, c)
    } else {
        0
    }
}

/// A run stays inside the sequence.
pub proof fn lemma_run_len_bound(s: Seq<u8>, i: int, c: ByteClass)
    ensures
        0 <= i <= s.len() ==> i + run_len(s, i, c) <= s.len(),
        !(0 <= i < s.len()) ==> run_len(s, i, c) == 0,
    decreases s.len() - i,
{
    if 0 <= i < s.len() && c.contains(s[i]) {
        lemma_run_len_bound(s, i + 1, c);
    }
}

/// A run is exactly the stretch whose bytes all belong to the class and
/// which cannot be extended: the byte after it, if there is one, does not.
pub proof fn lemma_run_len_maximal(s: Seq<u8>, i: int, c: ByteClass)
    requires
        0 <= i <= s.len(),
    ensures
        forall|k: int| i <= k < i + run_len(s, i, c) ==> c.contains(#[trigger] s[k]),
        i + run_len(s, i, c) < s.len() ==> !c.contains(s[i + run_len(s, i, c)]),
    decreases s.len() - i,
{
    lemma_run_len_bound(s, i, c);
    if i < s.len() && c.contains(s[i]) {
        lemma_run_len_maximal(s, i + 1, c);
    }
}

/// A stretch of class bytes that cannot be extended is the run.
pub proof fn lemma_run_len_unique(s: Seq<u8>, i: int, n: int, c: ByteClass)
    requires
        0 <= i,
        0 <= n,
        i + n <= s.len(),
        forall|k: int| i <= k < i + n ==> c.contains(#[trigger] s[k]),
        i + n < s.len() ==> !c.contains(s[i + n]),
    ensures
        run_len(s, i, c) == n,
    decreases n,
{
    if n > 0 {
        lemma_run_len_unique(s, i + 1, n - 1, c);
    }
}

/// Whether index `i` of `s` exists and holds the byte `b`.
pub open spec fn has_byte_at(s: Seq<u8>, i: int, b: u8) -> bool {
    0 <= i < s.len() && s[i] == b
}

/// Whether `pat` stands in `s` from index `i` on.
pub open spec fn has_prefix_at(s: Seq<u8>, i: int, pat: Seq<u8>) -> bool {
    0 <= i && i + pat.len() <= s.len() && s.subrange(i, i + pat.len()) == pat
}

/// Tests whether the byte at `pos` is `b`.
pub fn byte_at(input: &[u8], pos: usize, b: u8) -> (r: bool)
    ensures
        r == has_byte_at(input@, pos as int, b),
        r ==> pos < input.len(),
{
    pos < input.len() && input[pos] == b
}

/// Tests whether `pat` stands in `input` from `pos` on.
pub fn starts_with_at(input: &[u8], pos: usize, pat: &[u8]) -> (r: bool)
    ensures
        r == has_prefix_at(input@, pos as int, pat@),
{
    if pos > input.len() || pat.len() > input.len() - pos {
        return false;
    }
    let mut k: usize = 0;
    while k < pat.len()
        invariant
            k <= pat.len(),
            pos + pat.len() <= input.len(),
            forall|j: int| 0 <= j < k ==> input@[pos + j] == pat@[j],
        decreases pat.len() - k,
    {
        if input[pos + k] != pat[k] {
            proof {
                let window = input@.subrange(pos as int, pos + pat.len());
                assert(window[k as int] == input@[pos + k]);
            }
            return false;
        }
        k += 1;
    }
    assert(input@.subrange(pos as int, pos + pat.len()) =~= pat@);
    true
}

/// Scans the longest run of bytes of class `c` from `pos` and returns its
/// length.
pub fn scan_run(input: &[u8], pos: usize, c: ByteClass) -> (n: usize)
    ensures
        n == run_len(input@, pos as int, c),
        pos <= input.len() ==> pos + n <= input.len(),
{
    if pos >= input.len() {
        return 0;
    }
    let mut k: usize = pos;
    while k < input.len() && c.has(input[k])
        invariant
            pos <= k <= input.len(),
            run_len(input@, pos as int, c) == (k - pos) + run_len(input@, k as int, c),
        decreases input.len() - k,
    {
        k += 1;
    }
    k - pos
}

} // verus!
