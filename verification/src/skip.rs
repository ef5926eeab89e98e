//! Comments and whitespace: what stands between tokens and yields none.
use vstd::prelude::*;
use vstd::string::StringSliceAdditionalSpecFns;
use crate::bytes::{byte_at, has_byte_at, lemma_run_len_bound, run_len, scan_run, ByteClass, SLASH};

verus! {

/// Length of the line comment that starts at index `i`: the two slashes and
/// everything up to, but not including, the next line feed or the end of the
/// input. It is 0 where no comment starts.
pub open spec fn comment_len(s: Seq<u8>, i: int) -> nat {
    if has_byte_at(s, i, SLASH) && has_byte_at(s, i + 1, SLASH) {
        2 + run_len(s, i + 2, ByteClass::CommentText)
    } else {
        0
    }
}

/// Length of the skip unit that starts at index `i`: a run of whitespace, or
/// else a line comment. It is 0 where neither starts.
pub open spec fn skip_unit_len(s: Seq<u8>, i: int) -> nat {
    let w = run_len(s, i, ByteClass::Space);
    if w > 0 {
        w
    } else {
        comment_len(s, i)
    }
}

/// A skip unit stays inside the sequence.
pub proof fn lemma_skip_unit_bound(s: Seq<u8>, i: int)
    ensures
        skip_unit_len(s, i) > 0 ==> 0 <= i && i + skip_unit_len(s, i) <= s.len(),
{
    lemma_run_len_bound(s, i, ByteClass::Space);
    lemma_run_len_bound(s, i + 2, ByteClass::CommentText);
}

/// Total length of the skip units that follow one another from index `i` on.
pub open spec fn skip_len(s: Seq<u8>, i: int) -> nat
    decreases s.len() - i,
{
    let u = skip_unit_len(s, i);
    if u > 0 {
        proof {
            lemma_skip_unit_bound(s, i);
        }
        u + skip_len(s, i + u)
    } else {
        0
    }
}

/// What is skipped stays inside the sequence, and no skip unit starts where
/// the skipping ends.
pub proof fn lemma_skip_len_bound(s: Seq<u8>, i: int)
    ensures
        0 <= i <= s.len() ==> i + skip_len(s, i) <= s.len(),
        skip_unit_len(s, i + skip_len(s, i)) == 0,
        skip_len(s, i) > 0 ==> 0 <= i < s.len(),
    decreases s.len() - i,
{
    let u = skip_unit_len(s, i);
    lemma_skip_unit_bound(s, i);
    if u > 0 {
        lemma_skip_len_bound(s, i + u);
    }
}

/// Recognizes a line comment at `pos` and returns its length in bytes.
pub fn parse_comment(input: &str, pos: usize) -> (r: Option<usize>)
    ensures
        match r {
            Some(n) => n > 0 && n == comment_len(input.spec_bytes(), pos as int) && pos + n
                <= input.spec_bytes().len(),
            None => comment_len(input.spec_bytes(), pos as int) == 0,
        },
{
    let bytes = input.as_bytes();
    if pos < bytes.len() && bytes[pos] == SLASH && byte_at(bytes, pos + 1, SLASH) {
        let n = scan_run(bytes, pos + 2, ByteClass::CommentText);
        Some(n + 2)
    } else {
        None
    }
}

/// Recognizes one or more skip units at `pos`, whitespace runs and line
/// comments in any order, and returns their total length in bytes.
pub fn parse_comment_or_whitespace(input: &str, pos: usize) -> (r: Option<usize>)
    ensures
        match r {
            Some(n) => n > 0 && n == skip_len(input.spec_bytes(), pos as int) && pos + n
                <= input.spec_bytes().len(),
            None => skip_len(input.spec_bytes(), pos as int) == 0,
        },
{
    let bytes = input.as_bytes();
    if pos >= bytes.len() {
        proof {
            lemma_skip_unit_bound(bytes@, pos as int);
        }
        return None;
    }
    let mut k: usize = pos;
    loop
        invariant
            bytes@ == input.spec_bytes(),
            pos <= k <= bytes.len(),
            skip_len(bytes@, pos as int) == (k - pos) + skip_len(bytes@, k as int),
        ensures
            skip_len(bytes@, k as int) == 0,
        decreases bytes.len() - k,
    {
        proof {
            lemma_skip_unit_bound(bytes@, k as int);
        }
        let w = scan_run(bytes, k, ByteClass::Space);
        if w > 0 {
            k += w;
        } else {
            match parse_comment(input, k) {
                Some(n) => {
                    k += n;
                },
                None => {
                    break;
                },
            }
        }
    }
    if k > pos {
        Some(k - pos)
    } else {
        None
    }
}

} // verus!
