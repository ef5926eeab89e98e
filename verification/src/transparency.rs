//! Comments and whitespace carry no meaning: text made of them can be put
//! between two tokens without changing the tokens.
use vstd::prelude::*;
use crate::agreement::{
    lemma_comment_local, lemma_lex_shift, lemma_run_shift, lemma_skip_local, lemma_skip_shift,
    lemma_token_local, lemma_token_shift, same_below, same_from,
};
use crate::bytes::{
    is_space, lemma_run_len_bound, lemma_run_len_maximal, lemma_run_len_unique, run_len,
    ByteClass, NEWLINE, SLASH,
};
use crate::laws::lemma_token_first_byte;
use crate::lexer::{lemma_token_bound, lex, lex_from, token_at};
use crate::skip::{comment_len, lemma_skip_len_bound, skip_len};

verus! {

/// Whether `w`, from index `i` on, is made of whitespace and of line
/// comments that each end at a line feed inside `w`.
pub open spec fn is_skip_text(w: Seq<u8>, i: int) -> bool
    decreases w.len() - i,
{
    if 0 <= i < w.len() {
        if is_space(w[i]) {
            is_skip_text(w, i + 1)
        } else {
            let c = comment_len(w, i);
            c > 0 && i + c < w.len() && is_skip_text(w, i + c)
        }
    } else {
        true
    }
}

/// Whether skipping from index `i` comes by index `p` outside a comment:
/// before or behind a whitespace byte, or at the end of a comment.
pub open spec fn skip_reaches(s: Seq<u8>, i: int, p: int) -> bool
    decreases s.len() - i,
{
    if p == i {
        true
    } else if 0 <= i < s.len() && is_space(s[i]) {
        skip_reaches(s, i + 1, p)
    } else {
        let c = comment_len(s, i);
        proof {
            lemma_run_len_bound(s, i + 2, ByteClass::CommentText);
        }
        c > 0 && i + c <= p && skip_reaches(s, i + c, p)
    }
}

/// Whether index `p` lies between two tokens when `s` is scanned from index
/// `i` on: behind a token or before one, among the whitespace and the
/// comments there but not inside a comment.
pub open spec fn between_tokens(s: Seq<u8>, i: int, p: int) -> bool
    decreases s.len() - i,
{
    if skip_reaches(s, i, p) {
        true
    } else {
        let j = i + skip_len(s, i);
        0 <= j < s.len() && match token_at(s, j) {
            Ok((t, n)) => {
                proof {
                    lemma_token_bound(s, j);
                }
                j + n <= p && between_tokens(s, j + n, p)
            },
            Err(_) => false,
        }
    }
}

/// Skipping takes whitespace byte by byte.
proof fn lemma_skip_space_step(s: Seq<u8>, i: int)
    requires
        0 <= i < s.len(),
        is_space(s[i]),
    ensures
        skip_len(s, i) == 1 + skip_len(s, i + 1),
{
    lemma_run_len_bound(s, i, ByteClass::Space);
    let r = run_len(s, i + 1, ByteClass::Space);
    if r > 0 {
        assert(skip_len(s, i + 1) == r + skip_len(s, i + 1 + r));
    }
    assert(skip_len(s, i) == (1 + r) + skip_len(s, i + 1 + r));
}

/// Where a comment starts, skipping takes the comment and goes on behind it.
proof fn lemma_skip_comment_step(s: Seq<u8>, i: int)
    requires
        comment_len(s, i) > 0,
    ensures
        skip_len(s, i) == comment_len(s, i) + skip_len(s, i + comment_len(s, i)),
{
}

/// Bytes of one class in a row are the beginning of a run of that class.
proof fn lemma_run_extend(s: Seq<u8>, i: int, e: int, c: ByteClass)
    requires
        0 <= i <= e <= s.len(),
        forall|k: int| i <= k < e ==> c.contains(#[trigger] s[k]),
    ensures
        run_len(s, i, c) == (e - i) + run_len(s, e, c),
    decreases e - i,
{
    if i < e {
        lemma_run_extend(s, i + 1, e, c);
    }
}

/// Whether `s2` is `s1` with `w` put in at index `p`.
pub open spec fn inserted_at(s1: Seq<u8>, s2: Seq<u8>, p: int, w: Seq<u8>) -> bool {
    &&& same_below(s1, s2, p)
    &&& same_from(s1, s2, p, w.len() as int)
    &&& forall|k: int| 0 <= k < w.len() ==> #[trigger] w[k] == s2[p + k]
}

/// Skip text is skip text again from its first line feed on.
proof fn lemma_skip_text_first_newline(w: Seq<u8>, y: int)
    requires
        0 <= y <= w.len(),
        is_skip_text(w, y),
    ensures
        is_skip_text(w, y + run_len(w, y, ByteClass::CommentText)),
    decreases w.len() - y,
{
    if y < w.len() && w[y] != NEWLINE {
        if is_space(w[y]) {
            lemma_skip_text_first_newline(w, y + 1);
        } else {
            assert(run_len(w, y + 1, ByteClass::CommentText) == 1 + run_len(
                w,
                y + 2,
                ByteClass::CommentText,
            ));
        }
    }
}

/// A comment of `w` that ends at a line feed inside `w` is the same comment
/// wherever `w` stands in a longer text.
proof fn lemma_embedded_comment(s2: Seq<u8>, p: int, w: Seq<u8>, x: int)
    requires
        0 <= p,
        p + w.len() <= s2.len(),
        forall|k: int| 0 <= k < w.len() ==> #[trigger] w[k] == s2[p + k],
        0 <= x,
        comment_len(w, x) > 0,
        x + comment_len(w, x) < w.len(),
    ensures
        comment_len(s2, p + x) == comment_len(w, x),
{
    let c = comment_len(w, x) as int;
    lemma_run_len_maximal(w, x + 2, ByteClass::CommentText);
    assert(w[x] == s2[p + x]);
    assert(w[x + 1] == s2[p + x + 1]);
    assert forall|k: int| p + x + 2 <= k < p + x + c implies ByteClass::CommentText.contains(
        #[trigger] s2[k],
    ) by {
        assert(w[k - p] == s2[p + (k - p)]);
    }
    assert(w[x + c] == s2[p + (x + c)]);
    lemma_run_len_unique(s2, p + x + 2, c - 2, ByteClass::CommentText);
}

/// Where skip text stands in a longer text, skipping takes all of it and
/// goes on behind it.
proof fn lemma_skip_over(s2: Seq<u8>, p: int, w: Seq<u8>, x: int)
    requires
        0 <= p,
        p + w.len() <= s2.len(),
        forall|k: int| 0 <= k < w.len() ==> #[trigger] w[k] == s2[p + k],
        0 <= x <= w.len(),
        is_skip_text(w, x),
    ensures
        skip_len(s2, p + x) == (w.len() - x) + skip_len(s2, p + w.len()),
    decreases w.len() - x,
{
    if x < w.len() {
        assert(w[x] == s2[p + x]);
        if is_space(w[x]) {
            lemma_skip_space_step(s2, p + x);
            lemma_skip_over(s2, p, w, x + 1);
        } else {
            let c = comment_len(w, x);
            lemma_embedded_comment(s2, p, w, x);
            lemma_skip_comment_step(s2, p + x);
            lemma_skip_over(s2, p, w, x + c);
        }
    }
}

/// Skip text put in where the skipping comes by outside a comment is
/// skipped with the rest.
proof fn lemma_skip_insert(s1: Seq<u8>, s2: Seq<u8>, p: int, w: Seq<u8>, i: int)
    requires
        inserted_at(s1, s2, p, w),
        is_skip_text(w, 0),
        0 <= i,
        skip_reaches(s1, i, p),
    ensures
        i <= p <= i + skip_len(s1, i),
        skip_len(s2, i) == skip_len(s1, i) + w.len(),
    decreases s1.len() - i,
{
    let d = w.len() as int;
    let text = ByteClass::CommentText;
    if p == i {
        lemma_skip_over(s2, p, w, 0);
        lemma_skip_shift(s1, s2, p, d, p);
    } else if i < s1.len() && is_space(s1[i]) {
        lemma_skip_insert(s1, s2, p, w, i + 1);
        assert(s1[i] == s2[i]);
        lemma_skip_space_step(s1, i);
        lemma_skip_space_step(s2, i);
    } else {
        let c = comment_len(s1, i) as int;
        lemma_run_len_bound(s1, i + 2, text);
        lemma_skip_insert(s1, s2, p, w, i + c);
        lemma_skip_comment_step(s1, i);
        if i + c < p {
            lemma_comment_local(s1, s2, p, i);
            lemma_skip_comment_step(s2, i);
        } else {
            lemma_run_len_maximal(s1, i + 2, text);
            assert(s1[i] == s2[i]);
            assert(s1[i + 1] == s2[i + 1]);
            assert forall|k: int| i + 2 <= k < p implies text.contains(#[trigger] s2[k]) by {
                assert(s1[k] == s2[k]);
            }
            lemma_run_extend(s2, i + 2, p, text);
            assert(run_len(s1, p, text) == 0);
            let x0 = run_len(w, 0, text) as int;
            lemma_run_len_bound(w, 0, text);
            lemma_run_len_maximal(w, 0, text);
            assert forall|k: int| p <= k < p + x0 implies text.contains(#[trigger] s2[k]) by {
                assert(w[k - p] == s2[p + (k - p)]);
            }
            if x0 < d {
                assert(w[x0] == s2[p + x0]);
                lemma_run_len_unique(s2, p, x0, text);
            } else {
                lemma_run_extend(s2, p, p + d, text);
                lemma_run_shift(s1, s2, p, d, p, text);
            }
            assert(run_len(s2, p, text) == x0);
            assert(comment_len(s2, i) == c + x0);
            lemma_skip_comment_step(s2, i);
            lemma_skip_text_first_newline(w, 0);
            lemma_skip_over(s2, p, w, x0);
            lemma_skip_shift(s1, s2, p, d, p);
        }
    }
}

/// Skip text put in between two tokens leaves the tokens from index `i` on
/// as they are.
proof fn lemma_transparent_from(s1: Seq<u8>, s2: Seq<u8>, p: int, w: Seq<u8>, i: int)
    requires
        inserted_at(s1, s2, p, w),
        w.len() > 0,
        is_skip_text(w, 0),
        0 <= i,
        between_tokens(s1, i, p),
        lex_from(s1, i) is Ok,
    ensures
        lex_from(s2, i) == lex_from(s1, i),
    decreases s1.len() - i,
{
    let d = w.len() as int;
    let j = i + skip_len(s1, i);
    lemma_skip_len_bound(s1, i);
    if skip_reaches(s1, i, p) {
        lemma_skip_insert(s1, s2, p, w, i);
        if j < s1.len() {
            lemma_token_shift(s1, s2, p, d, j);
            lemma_token_bound(s1, j);
            if let Ok((t, n)) = token_at(s1, j) {
                lemma_lex_shift(s1, s2, p, d, j + n);
            }
        }
    } else {
        lemma_token_bound(s1, j);
        lemma_token_first_byte(s1, j);
        if let Ok((t, n)) = token_at(s1, j) {
            lemma_skip_local(s1, s2, p, i);
            assert(w[0] == s2[p + 0]);
            lemma_token_local(s1, s2, p, j);
            lemma_transparent_from(s1, s2, p, w, j + n);
        }
    }
}

/// Comments and whitespace are transparent: where a text is scanned without
/// error, skip text put in between two of its tokens, or before the first
/// or behind the last, leaves the tokens as they are. The text is `a` and
/// `b` joined, and the skip text `w` goes in between the two. It must not
/// go into a token or into a comment.
pub proof fn lemma_skip_text_is_transparent(a: Seq<u8>, w: Seq<u8>, b: Seq<u8>)
    requires
        is_skip_text(w, 0),
        between_tokens(a + b, 0, a.len() as int),
        lex(a + b) is Ok,
    ensures
        lex(a + w + b) == lex(a + b),
{
    let s1 = a + b;
    let s2 = a + w + b;
    if w.len() == 0 {
        assert(s2 =~= s1);
    } else {
        let p = a.len() as int;
        assert(inserted_at(s1, s2, p, w)) by {
            assert forall|k: int| p <= k < s1.len() implies #[trigger] s1[k] == s2[k + w.len()] by {
                assert(s1[k] == b[k - p]);
            }
        }
        lemma_transparent_from(s1, s2, p, w, 0);
    }
}

/// A run of whitespace is skip text.
pub proof fn lemma_whitespace_is_skip_text(w: Seq<u8>, i: int)
    requires
        forall|k: int| 0 <= k < w.len() ==> is_space(#[trigger] w[k]),
    ensures
        is_skip_text(w, i),
    decreases w.len() - i,
{
    if 0 <= i < w.len() {
        lemma_whitespace_is_skip_text(w, i + 1);
    }
}

/// A line comment together with the line feed that ends it is skip text.
pub proof fn lemma_comment_line_is_skip_text(body: Seq<u8>)
    requires
        forall|k: int| 0 <= k < body.len() ==> #[trigger] body[k] != NEWLINE,
    ensures
        is_skip_text(seq![SLASH, SLASH] + body + seq![NEWLINE], 0),
{
    let w = seq![SLASH, SLASH] + body + seq![NEWLINE];
    let text = ByteClass::CommentText;
    assert forall|k: int| 2 <= k < 2 + body.len() implies text.contains(#[trigger] w[k]) by {
        assert(w[k] == body[k - 2]);
    }
    assert(w[2 + body.len() as int] == NEWLINE);
    lemma_run_len_unique(w, 2, body.len() as int, text);
    assert(is_skip_text(w, w.len() as int));
    assert(is_skip_text(w, w.len() - 1));
}

/// Whether skipping from index `i` takes a comment that holds index `p`
/// behind its two slashes: inside its text or at its end.
pub open spec fn skip_enters_comment(s: Seq<u8>, i: int, p: int) -> bool
    decreases s.len() - i,
{
    if 0 <= i < s.len() && is_space(s[i]) {
        skip_enters_comment(s, i + 1, p)
    } else {
        let c = comment_len(s, i);
        proof {
            lemma_run_len_bound(s, i + 2, ByteClass::CommentText);
        }
        c > 0 && (i + 2 <= p <= i + c || (i + c < p && skip_enters_comment(s, i + c, p)))
    }
}

/// Whether index `p` lies in the text of a comment, or at its end, when `s`
/// is scanned from index `i` on.
pub open spec fn inside_comment(s: Seq<u8>, i: int, p: int) -> bool
    decreases s.len() - i,
{
    if skip_enters_comment(s, i, p) {
        true
    } else {
        let j = i + skip_len(s, i);
        0 <= j < s.len() && match token_at(s, j) {
            Ok((t, n)) => {
                proof {
                    lemma_token_bound(s, j);
                }
                j + n <= p && inside_comment(s, j + n, p)
            },
            Err(_) => false,
        }
    }
}

/// Text without a line feed put into a comment is skipped with the comment.
proof fn lemma_comment_insert(s1: Seq<u8>, s2: Seq<u8>, p: int, w: Seq<u8>, i: int)
    requires
        inserted_at(s1, s2, p, w),
        forall|k: int| 0 <= k < w.len() ==> #[trigger] w[k] != NEWLINE,
        0 <= i,
        skip_enters_comment(s1, i, p),
    ensures
        i + 2 <= p <= i + skip_len(s1, i),
        skip_len(s2, i) == skip_len(s1, i) + w.len(),
    decreases s1.len() - i,
{
    let d = w.len() as int;
    let text = ByteClass::CommentText;
    if i < s1.len() && is_space(s1[i]) {
        lemma_comment_insert(s1, s2, p, w, i + 1);
        assert(s1[i] == s2[i]);
        lemma_skip_space_step(s1, i);
        lemma_skip_space_step(s2, i);
    } else {
        let c = comment_len(s1, i) as int;
        lemma_run_len_bound(s1, i + 2, text);
        lemma_skip_comment_step(s1, i);
        if i + 2 <= p <= i + c {
            lemma_run_len_maximal(s1, i + 2, text);
            assert(s1[i] == s2[i]);
            assert(s1[i + 1] == s2[i + 1]);
            assert forall|k: int| i + 2 <= k < i + c + d implies text.contains(
                #[trigger] s2[k],
            ) by {
                if k < p {
                    assert(s1[k] == s2[k]);
                } else if k < p + d {
                    assert(w[k - p] == s2[p + (k - p)]);
                } else {
                    assert(s1[k - d] == s2[(k - d) + d]);
                }
            }
            if i + c < s1.len() {
                assert(s1[i + c] == s2[(i + c) + d]);
            }
            lemma_run_len_unique(s2, i + 2, c - 2 + d, text);
            lemma_skip_comment_step(s2, i);
            lemma_skip_shift(s1, s2, p, d, i + c);
        } else {
            lemma_comment_insert(s1, s2, p, w, i + c);
            lemma_comment_local(s1, s2, p, i);
            lemma_skip_comment_step(s2, i);
        }
    }
}

/// An index in the text of a comment lies behind the two slashes.
proof fn lemma_inside_comment_bound(s: Seq<u8>, i: int, p: int)
    requires
        0 <= i,
        inside_comment(s, i, p),
    ensures
        i + 2 <= p,
    decreases s.len() - i,
{
    if skip_enters_comment(s, i, p) {
        lemma_enters_comment_bound(s, i, p);
    } else {
        let j = i + skip_len(s, i);
        lemma_token_bound(s, j);
        if let Ok((t, n)) = token_at(s, j) {
            lemma_inside_comment_bound(s, j + n, p);
        }
    }
}

/// A comment that holds an index behind its slashes starts two bytes or
/// more before it.
proof fn lemma_enters_comment_bound(s: Seq<u8>, i: int, p: int)
    requires
        0 <= i,
        skip_enters_comment(s, i, p),
    ensures
        i + 2 <= p,
    decreases s.len() - i,
{
    if i < s.len() && is_space(s[i]) {
        lemma_enters_comment_bound(s, i + 1, p);
    } else {
        let c = comment_len(s, i);
        lemma_run_len_bound(s, i + 2, ByteClass::CommentText);
        if !(i + 2 <= p <= i + c) {
            lemma_enters_comment_bound(s, i + c, p);
        }
    }
}

/// Text without a line feed put into a comment leaves the tokens from index
/// `i` on as they are.
proof fn lemma_inert_from(s1: Seq<u8>, s2: Seq<u8>, p: int, w: Seq<u8>, i: int)
    requires
        inserted_at(s1, s2, p, w),
        forall|k: int| 0 <= k < w.len() ==> #[trigger] w[k] != NEWLINE,
        0 <= i,
        inside_comment(s1, i, p),
        lex_from(s1, i) is Ok,
    ensures
        lex_from(s2, i) == lex_from(s1, i),
    decreases s1.len() - i,
{
    let d = w.len() as int;
    let j = i + skip_len(s1, i);
    lemma_skip_len_bound(s1, i);
    if skip_enters_comment(s1, i, p) {
        lemma_comment_insert(s1, s2, p, w, i);
        if j < s1.len() {
            lemma_token_shift(s1, s2, p, d, j);
            lemma_token_bound(s1, j);
            if let Ok((t, n)) = token_at(s1, j) {
                lemma_lex_shift(s1, s2, p, d, j + n);
            }
        }
    } else {
        lemma_token_bound(s1, j);
        lemma_token_first_byte(s1, j);
        if let Ok((t, n)) = token_at(s1, j) {
            lemma_inside_comment_bound(s1, j + n, p);
            lemma_skip_local(s1, s2, p, i);
            lemma_token_local(s1, s2, p, j);
            lemma_inert_from(s1, s2, p, w, j + n);
        }
    }
}

/// The text of a comment is inert: where a text is scanned without error,
/// anything without a line feed that is put into one of its comments,
/// behind the two slashes, leaves the tokens as they are. The text is `a`
/// and `b` joined, and `w` goes in between the two.
pub proof fn lemma_comment_text_is_inert(a: Seq<u8>, w: Seq<u8>, b: Seq<u8>)
    requires
        forall|k: int| 0 <= k < w.len() ==> #[trigger] w[k] != NEWLINE,
        inside_comment(a + b, 0, a.len() as int),
        lex(a + b) is Ok,
    ensures
        lex(a + w + b) == lex(a + b),
{
    let s1 = a + b;
    let s2 = a + w + b;
    let p = a.len() as int;
    assert(inserted_at(s1, s2, p, w)) by {
        assert forall|k: int| p <= k < s1.len() implies #[trigger] s1[k] == s2[k + w.len()] by {
            assert(s1[k] == b[k - p]);
        }
    }
    lemma_inert_from(s1, s2, p, w, 0);
}

} // verus!
