//! The manifest document: a line-oriented table/key/value text format
//! (tables `[name]`, key-value lines `key = value`, comments and blank
//! lines), parsed losslessly.  The document keeps the raw bytes, so
//! re-serializing reproduces them exactly; a field update replaces the
//! one value token and nothing else.
//!
//! The grammar is deliberately a subset of what general manifest formats
//! allow: every line must be blank, a comment, a table header or a
//! key-value line whose value closes on the same line.  Values may be
//! quoted strings (with backslash escapes) or unquoted scalars; a
//! trailing comment may follow either.

use vstd::prelude::*;

verus! {

use crate::ascii::{NEWLINE, HASH, QUOTE, BACKSLASH, LBRACKET, RBRACKET, EQUALS, UNDERSCORE};
use crate::scan::{find_byte, lemma_find_byte, lemma_find_byte_is, lemma_find_byte_off,
    skip_ws, lemma_skip_ws, lemma_skip_ws_is, lemma_skip_ws_off, rtrim, lemma_rtrim,
    lemma_rtrim_off, seek_byte, seek_non_ws, seek_rtrim, range_eq, push_range};
use crate::version::{is_ident_byte, ident_byte};
use crate::error::ErrorKind;

// ---------------------------------------------------------------------------
// Lines
// ---------------------------------------------------------------------------
/// Where the line starting at `i` ends: the next newline, or the end of
/// the document.
pub open spec fn line_end(s: Seq<u8>, i: int) -> int {
    find_byte(s, i, s.len() as int, NEWLINE)
}

/// The start of the line after the one starting at `i`.
pub open spec fn next_line_at(s: Seq<u8>, i: int) -> int {
    if line_end(s, i) >= s.len() {
        s.len() as int
    } else {
        line_end(s, i) + 1
    }
}

/// What may follow a completed token on its line: blanks, then at most a
/// comment.
pub open spec fn tail_ok(s: Seq<u8>, i: int, e: int) -> bool {
    let j = skip_ws(s, i, e);
    j >= e || s[j] == HASH
}

pub open spec fn line_is_blank(s: Seq<u8>, i: int, e: int) -> bool {
    skip_ws(s, i, e) >= e
}

pub open spec fn line_is_comment(s: Seq<u8>, i: int, e: int) -> bool {
    let j = skip_ws(s, i, e);
    j < e && s[j] == HASH
}

/// A table header: `[` name `]`, each part optionally padded with blanks,
/// then at most a comment.
pub open spec fn line_is_header(s: Seq<u8>, i: int, e: int) -> bool {
    let j = skip_ws(s, i, e);
    j < e && s[j] == LBRACKET && {
        let r = find_byte(s, j + 1, e, RBRACKET);
        r < e && tail_ok(s, r + 1, e)
    }
}

/// The header's name with surrounding blanks removed.
pub open spec fn header_name(s: Seq<u8>, i: int, e: int) -> Seq<u8> {
    let j = skip_ws(s, i, e);
    let r = find_byte(s, j + 1, e, RBRACKET);
    let ts = skip_ws(s, j + 1, r);
    let te = rtrim(s, ts, r);
    s.subrange(ts, te)
}

/// The bytes a bare key consists of.
pub open spec fn is_key_byte(b: u8) -> bool {
    is_ident_byte(b) || b == UNDERSCORE
}

/// The first index in `[i, to)` holding a non-key byte, or `to`.
pub open spec fn skip_key(s: Seq<u8>, i: int, to: int) -> int
    decreases to - i,
    when i <= to
{
    if i >= to {
        to
    } else if is_key_byte(s[i]) {
        skip_key(s, i + 1, to)
    } else {
        i
    }
}

pub proof fn lemma_skip_key(s: Seq<u8>, i: int, to: int)
    requires
        0 <= i <= to <= s.len(),
    ensures
        i <= skip_key(s, i, to) <= to,
        forall|j: int| i <= j < skip_key(s, i, to) ==> is_key_byte(s[j]),
        skip_key(s, i, to) < to ==> !is_key_byte(s[skip_key(s, i, to)]),
    decreases to - i,
{
    if i < to && is_key_byte(s[i]) {
        lemma_skip_key(s, i + 1, to);
    }
}

/// Finds the first non-key byte in `s[i..to]`.
pub fn seek_key_end(s: &[u8], i: usize, to: usize) -> (r: usize)
    requires
        i <= to <= s@.len(),
    ensures
        r == skip_key(s@, i as int, to as int),
{
    let mut j = i;
    while j < to
        invariant
            i <= j <= to <= s@.len(),
            skip_key(s@, i as int, to as int) == skip_key(s@, j as int, to as int),
        decreases to - j,
    {
        if !(ident_byte(s[j]) || s[j] == UNDERSCORE) {
            return j;
        }
        j += 1;
    }
    j
}

/// The index of the quote closing a string whose content starts at `i`,
/// honouring backslash escapes; `e` when the string does not close.
pub open spec fn string_end(s: Seq<u8>, i: int, e: int) -> int
    decreases e - i,
    when i <= e
{
    if i >= e {
        e
    } else if s[i] == QUOTE {
        i
    } else if s[i] == BACKSLASH {
        if i + 1 >= e {
            e
        } else {
            string_end(s, i + 2, e)
        }
    } else {
        string_end(s, i + 1, e)
    }
}

pub proof fn lemma_string_end(s: Seq<u8>, i: int, e: int)
    requires
        0 <= i <= e <= s.len(),
    ensures
        i <= string_end(s, i, e) <= e,
        string_end(s, i, e) < e ==> s[string_end(s, i, e)] == QUOTE,
    decreases e - i,
{
    if i < e && s[i] != QUOTE {
        if s[i] == BACKSLASH {
            if i + 1 < e {
                lemma_string_end(s, i + 2, e);
            }
        } else {
            lemma_string_end(s, i + 1, e);
        }
    }
}

pub proof fn lemma_skip_key_is(s: Seq<u8>, i: int, to: int, x: int)
    requires
        0 <= i <= x <= to <= s.len(),
        forall|j: int| i <= j < x ==> is_key_byte(s[j]),
        x < to ==> !is_key_byte(s[x]),
    ensures
        skip_key(s, i, to) == x,
    decreases x - i,
{
    if i < x {
        lemma_skip_key_is(s, i + 1, to, x);
    }
}

pub proof fn lemma_skip_key_off(s1: Seq<u8>, s2: Seq<u8>, i1: int, i2: int, to1: int, to2: int)
    requires
        0 <= i1 <= to1 <= s1.len(),
        0 <= i2 <= to2 <= s2.len(),
        to1 - i1 == to2 - i2,
        forall|d: int| 0 <= d < to1 - i1 ==> (#[trigger] s1[i1 + d]) == s2[i2 + d],
    ensures
        skip_key(s1, i1, to1) - i1 == skip_key(s2, i2, to2) - i2,
    decreases to1 - i1,
{
    if i1 < to1 {
        assert(s1[i1 + 0] == s2[i2 + 0]);
        if is_key_byte(s1[i1]) {
            assert forall|d: int| 0 <= d < to1 - (i1 + 1) implies (#[trigger] s1[i1 + 1 + d])
                == s2[i2 + 1 + d] by {
                assert(s1[i1 + (d + 1)] == s2[i2 + (d + 1)]);
            }
            lemma_skip_key_off(s1, s2, i1 + 1, i2 + 1, to1, to2);
        }
    }
}

pub proof fn lemma_string_end_is(s: Seq<u8>, i: int, e: int, x: int)
    requires
        0 <= i <= x <= e <= s.len(),
        forall|j: int| i <= j < x ==> s[j] != QUOTE && s[j] != BACKSLASH,
        x < e ==> s[x] == QUOTE,
    ensures
        string_end(s, i, e) == x,
    decreases x - i,
{
    if i < x {
        lemma_string_end_is(s, i + 1, e, x);
    }
}

pub proof fn lemma_string_end_off(s1: Seq<u8>, s2: Seq<u8>, i1: int, i2: int, e1: int, e2: int)
    requires
        0 <= i1 <= e1 <= s1.len(),
        0 <= i2 <= e2 <= s2.len(),
        e1 - i1 == e2 - i2,
        forall|d: int| 0 <= d < e1 - i1 ==> (#[trigger] s1[i1 + d]) == s2[i2 + d],
    ensures
        string_end(s1, i1, e1) - i1 == string_end(s2, i2, e2) - i2,
    decreases e1 - i1,
{
    if i1 < e1 {
        assert(s1[i1 + 0] == s2[i2 + 0]);
        if s1[i1] != QUOTE {
            if s1[i1] == BACKSLASH {
                if i1 + 1 < e1 {
                    assert forall|d: int| 0 <= d < e1 - (i1 + 2) implies (#[trigger] s1[i1 + 2
                        + d]) == s2[i2 + 2 + d] by {
                        assert(s1[i1 + (d + 2)] == s2[i2 + (d + 2)]);
                    }
                    lemma_string_end_off(s1, s2, i1 + 2, i2 + 2, e1, e2);
                }
            } else {
                assert forall|d: int| 0 <= d < e1 - (i1 + 1) implies (#[trigger] s1[i1 + 1 + d])
                    == s2[i2 + 1 + d] by {
                    assert(s1[i1 + (d + 1)] == s2[i2 + (d + 1)]);
                }
                lemma_string_end_off(s1, s2, i1 + 1, i2 + 1, e1, e2);
            }
        }
    }
}

/// Finds the closing quote of a string whose content starts at `i`.
pub fn seek_string_end(s: &[u8], i: usize, e: usize) -> (r: usize)
    requires
        i <= e <= s@.len(),
    ensures
        r == string_end(s@, i as int, e as int),
{
    let mut j = i;
    while j < e
        invariant
            i <= j <= e <= s@.len(),
            string_end(s@, i as int, e as int) == string_end(s@, j as int, e as int),
        decreases e - j,
    {
        if s[j] == QUOTE {
            return j;
        }
        if s[j] == BACKSLASH {
            if j + 1 >= e {
                return e;
            }
            j += 2;
        } else {
            j += 1;
        }
    }
    j
}

/// A sound value token: a quoted string that closes on the line, or a
/// nonempty unquoted scalar; a trailing comment may follow.
pub open spec fn value_ok(s: Seq<u8>, vstart: int, e: int) -> bool {
    let v = skip_ws(s, vstart, e);
    if v >= e {
        false
    } else if s[v] == QUOTE {
        let q = string_end(s, v + 1, e);
        q < e && tail_ok(s, q + 1, e)
    } else if s[v] == HASH {
        false
    } else {
        true
    }
}

/// A key-value line: a nonempty bare key, `=`, and a sound value.
pub open spec fn line_is_keyval(s: Seq<u8>, i: int, e: int) -> bool {
    let j = skip_ws(s, i, e);
    let k = skip_key(s, j, e);
    k > j && {
        let m = skip_ws(s, k, e);
        m < e && s[m] == EQUALS && value_ok(s, m + 1, e)
    }
}

/// The key of a key-value line.
pub open spec fn keyval_key(s: Seq<u8>, i: int, e: int) -> Seq<u8> {
    let j = skip_ws(s, i, e);
    let k = skip_key(s, j, e);
    s.subrange(j, k)
}

/// Where a key-value line's value begins (the first byte of the value
/// token).
pub open spec fn keyval_value_at(s: Seq<u8>, i: int, e: int) -> int {
    let j = skip_ws(s, i, e);
    let k = skip_key(s, j, e);
    let m = skip_ws(s, k, e);
    skip_ws(s, m + 1, e)
}

/// Whether the value of a key-value line is a quoted string.
pub open spec fn keyval_is_string(s: Seq<u8>, i: int, e: int) -> bool {
    let v = keyval_value_at(s, i, e);
    v < e && s[v] == QUOTE
}

/// The content span of a string value: the bytes between the quotes.
pub open spec fn keyval_string_lo(s: Seq<u8>, i: int, e: int) -> int {
    keyval_value_at(s, i, e) + 1
}

pub open spec fn keyval_string_hi(s: Seq<u8>, i: int, e: int) -> int {
    string_end(s, keyval_value_at(s, i, e) + 1, e)
}

/// Every line is blank, a comment, a header or a key-value line.
pub open spec fn line_ok(s: Seq<u8>, i: int, e: int) -> bool {
    line_is_blank(s, i, e) || line_is_comment(s, i, e) || line_is_header(s, i, e)
        || line_is_keyval(s, i, e)
}

// ---------------------------------------------------------------------------
// Executable line checks
// ---------------------------------------------------------------------------
/// Checks that only blanks and at most a comment follow.
fn check_tail(s: &[u8], i: usize, e: usize) -> (r: bool)
    requires
        i <= e <= s@.len(),
    ensures
        r == tail_ok(s@, i as int, e as int),
{
    let j = seek_non_ws(s, i, e);
    proof {
        lemma_skip_ws(s@, i as int, e as int);
    }
    j >= e || s[j] == HASH
}

/// Checks whether the line `s[i..e]` is a table header.
fn check_header(s: &[u8], i: usize, e: usize) -> (r: bool)
    requires
        i <= e <= s@.len(),
    ensures
        r == line_is_header(s@, i as int, e as int),
{
    let j = seek_non_ws(s, i, e);
    proof {
        lemma_skip_ws(s@, i as int, e as int);
    }
    if j >= e || s[j] != LBRACKET {
        return false;
    }
    let r = seek_byte(s, j + 1, e, RBRACKET);
    proof {
        lemma_find_byte(s@, j + 1, e as int, RBRACKET);
    }
    if r >= e {
        return false;
    }
    check_tail(s, r + 1, e)
}

/// The trimmed name span of a header line.
fn header_name_span(s: &[u8], i: usize, e: usize) -> (r: (usize, usize))
    requires
        i <= e <= s@.len(),
        line_is_header(s@, i as int, e as int),
    ensures
        i <= r.0 <= r.1 <= e,
        s@.subrange(r.0 as int, r.1 as int) == header_name(s@, i as int, e as int),
{
    let j = seek_non_ws(s, i, e);
    proof {
        lemma_skip_ws(s@, i as int, e as int);
    }
    let r = seek_byte(s, j + 1, e, RBRACKET);
    proof {
        lemma_find_byte(s@, j + 1, e as int, RBRACKET);
    }
    let ts = seek_non_ws(s, j + 1, r);
    proof {
        lemma_skip_ws(s@, j + 1, r as int);
    }
    let te = seek_rtrim(s, ts, r);
    proof {
        lemma_rtrim(s@, ts as int, r as int);
    }
    (ts, te)
}

/// Checks whether the line `s[i..e]` is a key-value line.
fn check_keyval(s: &[u8], i: usize, e: usize) -> (r: bool)
    requires
        i <= e <= s@.len(),
    ensures
        r == line_is_keyval(s@, i as int, e as int),
{
    let j = seek_non_ws(s, i, e);
    proof {
        lemma_skip_ws(s@, i as int, e as int);
    }
    let k = seek_key_end(s, j, e);
    proof {
        lemma_skip_key(s@, j as int, e as int);
    }
    if k == j {
        return false;
    }
    let m = seek_non_ws(s, k, e);
    proof {
        lemma_skip_ws(s@, k as int, e as int);
    }
    if m >= e || s[m] != EQUALS {
        return false;
    }
    let v = seek_non_ws(s, m + 1, e);
    proof {
        lemma_skip_ws(s@, m + 1, e as int);
    }
    if v >= e {
        return false;
    }
    if s[v] == QUOTE {
        let q = seek_string_end(s, v + 1, e);
        proof {
            lemma_string_end(s@, v + 1, e as int);
        }
        if q >= e {
            return false;
        }
        check_tail(s, q + 1, e)
    } else if s[v] == HASH {
        false
    } else {
        true
    }
}

/// The key span of a key-value line.
fn keyval_key_span(s: &[u8], i: usize, e: usize) -> (r: (usize, usize))
    requires
        i <= e <= s@.len(),
        line_is_keyval(s@, i as int, e as int),
    ensures
        i <= r.0 <= r.1 <= e,
        s@.subrange(r.0 as int, r.1 as int) == keyval_key(s@, i as int, e as int),
{
    let j = seek_non_ws(s, i, e);
    proof {
        lemma_skip_ws(s@, i as int, e as int);
    }
    let k = seek_key_end(s, j, e);
    proof {
        lemma_skip_key(s@, j as int, e as int);
    }
    (j, k)
}

/// The first byte of the value token of a key-value line.
fn keyval_value_start(s: &[u8], i: usize, e: usize) -> (v: usize)
    requires
        i <= e <= s@.len(),
        line_is_keyval(s@, i as int, e as int),
    ensures
        i <= v <= e,
        v == keyval_value_at(s@, i as int, e as int),
        v < e,
{
    let j = seek_non_ws(s, i, e);
    proof {
        lemma_skip_ws(s@, i as int, e as int);
    }
    let k = seek_key_end(s, j, e);
    proof {
        lemma_skip_key(s@, j as int, e as int);
    }
    let m = seek_non_ws(s, k, e);
    proof {
        lemma_skip_ws(s@, k as int, e as int);
    }
    let v = seek_non_ws(s, m + 1, e);
    proof {
        lemma_skip_ws(s@, m + 1, e as int);
    }
    v
}

/// Checks that the line `s[i..e]` has one of the accepted shapes.
fn check_line(s: &[u8], i: usize, e: usize) -> (r: bool)
    requires
        i <= e <= s@.len(),
    ensures
        r == line_ok(s@, i as int, e as int),
{
    let j = seek_non_ws(s, i, e);
    proof {
        lemma_skip_ws(s@, i as int, e as int);
    }
    if j >= e {
        return true;
    }
    if s[j] == HASH {
        return true;
    }
    if check_header(s, i, e) {
        return true;
    }
    check_keyval(s, i, e)
}

/// A line's classification depends only on its bytes: equal byte ranges
/// classify alike, wherever they stand in their documents.
pub proof fn lemma_line_off(s1: Seq<u8>, s2: Seq<u8>, i1: int, i2: int, e1: int, e2: int)
    requires
        0 <= i1 <= e1 <= s1.len(),
        0 <= i2 <= e2 <= s2.len(),
        e1 - i1 == e2 - i2,
        forall|d: int| 0 <= d < e1 - i1 ==> (#[trigger] s1[i1 + d]) == s2[i2 + d],
    ensures
        line_is_blank(s1, i1, e1) == line_is_blank(s2, i2, e2),
        line_is_comment(s1, i1, e1) == line_is_comment(s2, i2, e2),
        line_is_header(s1, i1, e1) == line_is_header(s2, i2, e2),
        line_is_keyval(s1, i1, e1) == line_is_keyval(s2, i2, e2),
        line_ok(s1, i1, e1) == line_ok(s2, i2, e2),
        line_is_header(s1, i1, e1) ==> header_name(s1, i1, e1) == header_name(s2, i2, e2),
        line_is_keyval(s1, i1, e1) ==> keyval_key(s1, i1, e1) == keyval_key(s2, i2, e2),
        line_is_keyval(s1, i1, e1) ==> keyval_is_string(s1, i1, e1) == keyval_is_string(
            s2,
            i2,
            e2,
        ),
        line_is_keyval(s1, i1, e1) && keyval_is_string(s1, i1, e1) ==> keyval_string_lo(
            s1,
            i1,
            e1,
        ) - i1 == keyval_string_lo(s2, i2, e2) - i2,
        line_is_keyval(s1, i1, e1) && keyval_is_string(s1, i1, e1) ==> keyval_string_hi(
            s1,
            i1,
            e1,
        ) - i1 == keyval_string_hi(s2, i2, e2) - i2,
{
    let off = i2 - i1;
    assert forall|p: int| i1 <= p < e1 implies (#[trigger] s1[p]) == s2[p + off] by {
        assert(s1[i1 + (p - i1)] == s2[i2 + (p - i1)]);
    }
    lemma_skip_ws_off(s1, s2, i1, i2, e1, e2);
    lemma_skip_ws(s1, i1, e1);
    lemma_skip_ws(s2, i2, e2);
    let j1 = skip_ws(s1, i1, e1);
    let j2 = skip_ws(s2, i2, e2);
    if j1 < e1 {
        assert(s1[j1] == s2[j1 + off]);
        // the header shape
        if s1[j1] == LBRACKET {
            lemma_find_byte_off(s1, s2, j1 + 1, j2 + 1, e1, e2, RBRACKET);
            lemma_find_byte(s1, j1 + 1, e1, RBRACKET);
            lemma_find_byte(s2, j2 + 1, e2, RBRACKET);
            let r1 = find_byte(s1, j1 + 1, e1, RBRACKET);
            let r2 = find_byte(s2, j2 + 1, e2, RBRACKET);
            if r1 < e1 {
                lemma_skip_ws_off(s1, s2, r1 + 1, r2 + 1, e1, e2);
                lemma_skip_ws(s1, r1 + 1, e1);
                lemma_skip_ws(s2, r2 + 1, e2);
                let t1 = skip_ws(s1, r1 + 1, e1);
                if t1 < e1 {
                    assert(s1[t1] == s2[t1 + off]);
                }
                lemma_skip_ws_off(s1, s2, j1 + 1, j2 + 1, r1, r2);
                lemma_skip_ws(s1, j1 + 1, r1);
                lemma_skip_ws(s2, j2 + 1, r2);
                let ts1 = skip_ws(s1, j1 + 1, r1);
                let ts2 = skip_ws(s2, j2 + 1, r2);
                lemma_rtrim_off(s1, s2, ts1, ts2, r1, r2);
                lemma_rtrim(s1, ts1, r1);
                lemma_rtrim(s2, ts2, r2);
                let te1 = rtrim(s1, ts1, r1);
                let te2 = rtrim(s2, ts2, r2);
                assert(s1.subrange(ts1, te1) =~= s2.subrange(ts2, te2));
            }
        }
        // the key-value shape
        lemma_skip_key_off(s1, s2, j1, j2, e1, e2);
        lemma_skip_key(s1, j1, e1);
        lemma_skip_key(s2, j2, e2);
        let k1 = skip_key(s1, j1, e1);
        let k2 = skip_key(s2, j2, e2);
        if k1 > j1 {
            assert(s1.subrange(j1, k1) =~= s2.subrange(j2, k2));
            lemma_skip_ws_off(s1, s2, k1, k2, e1, e2);
            lemma_skip_ws(s1, k1, e1);
            lemma_skip_ws(s2, k2, e2);
            let m1 = skip_ws(s1, k1, e1);
            let m2 = skip_ws(s2, k2, e2);
            if m1 < e1 {
                assert(s1[m1] == s2[m1 + off]);
                if s1[m1] == EQUALS {
                    lemma_skip_ws_off(s1, s2, m1 + 1, m2 + 1, e1, e2);
                    lemma_skip_ws(s1, m1 + 1, e1);
                    lemma_skip_ws(s2, m2 + 1, e2);
                    let v1 = skip_ws(s1, m1 + 1, e1);
                    let v2 = skip_ws(s2, m2 + 1, e2);
                    if v1 < e1 {
                        assert(s1[v1] == s2[v1 + off]);
                        if s1[v1] == QUOTE {
                            lemma_string_end_off(s1, s2, v1 + 1, v2 + 1, e1, e2);
                            lemma_string_end(s1, v1 + 1, e1);
                            lemma_string_end(s2, v2 + 1, e2);
                            let q1 = string_end(s1, v1 + 1, e1);
                            let q2 = string_end(s2, v2 + 1, e2);
                            if q1 < e1 {
                                lemma_skip_ws_off(s1, s2, q1 + 1, q2 + 1, e1, e2);
                                lemma_skip_ws(s1, q1 + 1, e1);
                                lemma_skip_ws(s2, q2 + 1, e2);
                                let w1 = skip_ws(s1, q1 + 1, e1);
                                if w1 < e1 {
                                    assert(s1[w1] == s2[w1 + off]);
                                }
                            }
                        }
                    }
                }
            }
        }
    }
}

// ---------------------------------------------------------------------------
// Whole documents
// ---------------------------------------------------------------------------
/// Every line from `i` on has an accepted shape.
pub open spec fn doc_ok_from(s: Seq<u8>, i: int) -> bool
    decreases s.len() - i,
    when 0 <= i
{
    if i >= s.len() {
        true
    } else {
        let nl = next_line_at(s, i);
        line_ok(s, i, line_end(s, i)) && doc_ok_from(
            s,
            if nl > i {
                nl
            } else {
                i + 1
            },
        )
    }
}

/// A well-formed document.
pub open spec fn doc_ok(s: Seq<u8>) -> bool {
    doc_ok_from(s, 0)
}

pub proof fn lemma_next_line(s: Seq<u8>, i: int)
    requires
        0 <= i <= s.len(),
    ensures
        i <= line_end(s, i) <= s.len(),
        i <= next_line_at(s, i) <= s.len(),
        i < s.len() ==> i < next_line_at(s, i),
        line_end(s, i) < s.len() ==> s[line_end(s, i)] == NEWLINE,
{
    lemma_find_byte(s, i, s.len() as int, NEWLINE);
}

/// Checks that every line of the document has an accepted shape.
pub fn check_doc(s: &[u8]) -> (r: bool)
    ensures
        r == doc_ok(s@),
{
    let mut i: usize = 0;
    while i < s.len()
        invariant
            0 <= i <= s@.len(),
            doc_ok(s@) == doc_ok_from(s@, i as int),
        decreases s@.len() - i,
    {
        let e = seek_byte(s, i, s.len(), NEWLINE);
        proof {
            lemma_next_line(s@, i as int);
        }
        if !check_line(s, i, e) {
            return false;
        }
        i = if e == s.len() {
            e
        } else {
            e + 1
        };
    }
    true
}

// ---------------------------------------------------------------------------
// Finding a field
// ---------------------------------------------------------------------------
/// The outcome of looking a field up: absent, present but not a string,
/// or the content span of its string value.
pub ghost enum FieldLookup {
    Missing,
    NotString,
    Found(int, int),
}

/// Walks the lines from `i`: the first header whose trimmed name equals
/// `table` opens the table, any other header closes it, and the first
/// matching key inside decides the outcome.
pub open spec fn find_field_from(
    s: Seq<u8>,
    i: int,
    table: Seq<u8>,
    key: Seq<u8>,
    in_table: bool,
) -> FieldLookup
    decreases s.len() - i,
    when 0 <= i
{
    if i >= s.len() {
        FieldLookup::Missing
    } else {
        let e = line_end(s, i);
        let nl = next_line_at(s, i);
        let step = if nl > i {
            nl
        } else {
            i + 1
        };
        if line_is_header(s, i, e) {
            find_field_from(s, step, table, key, header_name(s, i, e) == table)
        } else if in_table && line_is_keyval(s, i, e) && keyval_key(s, i, e) == key {
            if keyval_is_string(s, i, e) {
                FieldLookup::Found(keyval_string_lo(s, i, e), keyval_string_hi(s, i, e))
            } else {
                FieldLookup::NotString
            }
        } else {
            find_field_from(s, step, table, key, in_table)
        }
    }
}

/// Where the value of `table`.`key` stands in the document.
pub open spec fn find_field(s: Seq<u8>, table: Seq<u8>, key: Seq<u8>) -> FieldLookup {
    find_field_from(s, 0, table, key, false)
}

/// A found span lies within the document, in order.
pub proof fn lemma_find_field_from_bounds(
    s: Seq<u8>,
    i: int,
    table: Seq<u8>,
    key: Seq<u8>,
    in_table: bool,
)
    requires
        0 <= i <= s.len(),
    ensures
        find_field_from(s, i, table, key, in_table) matches FieldLookup::Found(lo, hi) ==> i <= lo
            <= hi <= s.len(),
    decreases s.len() - i,
{
    if i < s.len() {
        let e = line_end(s, i);
        lemma_next_line(s, i);
        let nl = next_line_at(s, i);
        if line_is_header(s, i, e) {
            lemma_find_field_from_bounds(s, nl, table, key, header_name(s, i, e) == table);
        } else if in_table && line_is_keyval(s, i, e) && keyval_key(s, i, e) == key {
            if keyval_is_string(s, i, e) {
                lemma_skip_ws(s, i, e);
                let j = skip_ws(s, i, e);
                lemma_skip_key(s, j, e);
                let k = skip_key(s, j, e);
                lemma_skip_ws(s, k, e);
                let m = skip_ws(s, k, e);
                lemma_skip_ws(s, m + 1, e);
                let v = skip_ws(s, m + 1, e);
                lemma_string_end(s, v + 1, e);
            }
        } else {
            lemma_find_field_from_bounds(s, nl, table, key, in_table);
        }
    }
}

pub proof fn lemma_find_field_bounds(s: Seq<u8>, table: Seq<u8>, key: Seq<u8>)
    ensures
        find_field(s, table, key) matches FieldLookup::Found(lo, hi) ==> 0 <= lo <= hi <= s.len(),
{
    lemma_find_field_from_bounds(s, 0, table, key, false);
}

/// Well-formedness of a document tail depends only on its bytes.
pub proof fn lemma_doc_ok_off(s1: Seq<u8>, s2: Seq<u8>, i1: int, i2: int)
    requires
        0 <= i1 <= s1.len(),
        0 <= i2 <= s2.len(),
        s1.len() - i1 == s2.len() - i2,
        forall|d: int| 0 <= d < s1.len() - i1 ==> (#[trigger] s1[i1 + d]) == s2[i2 + d],
    ensures
        doc_ok_from(s1, i1) == doc_ok_from(s2, i2),
    decreases s1.len() - i1,
{
    if i1 < s1.len() {
        lemma_next_line(s1, i1);
        lemma_next_line(s2, i2);
        lemma_find_byte_off(s1, s2, i1, i2, s1.len() as int, s2.len() as int, NEWLINE);
        let e1 = line_end(s1, i1);
        let e2 = line_end(s2, i2);
        lemma_line_off(s1, s2, i1, i2, e1, e2);
        let n1 = next_line_at(s1, i1);
        let n2 = next_line_at(s2, i2);
        assert forall|d: int| 0 <= d < s1.len() - n1 implies (#[trigger] s1[n1 + d]) == s2[n2
            + d] by {
            assert(s1[i1 + ((n1 - i1) + d)] == s2[i2 + ((n1 - i1) + d)]);
        }
        lemma_doc_ok_off(s1, s2, n1, n2);
    }
}

/// Bytes that may stand inside a quoted value on one line.
pub open spec fn is_inline_byte(b: u8) -> bool {
    b != NEWLINE && b != QUOTE && b != BACKSLASH
}

/// The text after a field update: the bytes before and after the value
/// span, with the new value between them.
pub open spec fn splice(s: Seq<u8>, lo: int, hi: int, val: Seq<u8>) -> Seq<u8> {
    s.subrange(0, lo) + val + s.subrange(hi, s.len() as int)
}

proof fn lemma_preserve_from(
    s: Seq<u8>,
    t: Seq<u8>,
    table: Seq<u8>,
    key: Seq<u8>,
    val: Seq<u8>,
    i: int,
    in_table: bool,
    lo: int,
    hi: int,
)
    requires
        0 <= i <= s.len(),
        doc_ok_from(s, i),
        find_field_from(s, i, table, key, in_table) == FieldLookup::Found(lo, hi),
        forall|j: int| 0 <= j < val.len() ==> is_inline_byte(#[trigger] val[j]),
        t == splice(s, lo, hi, val),
    ensures
        doc_ok_from(t, i),
        find_field_from(t, i, table, key, in_table) == FieldLookup::Found(lo, lo + val.len()),
    decreases s.len() - i,
{
    lemma_find_field_from_bounds(s, i, table, key, in_table);
    let delta = val.len() - (hi - lo);
    assert(t.len() == s.len() + delta);
    assert forall|p: int| 0 <= p < lo implies (#[trigger] t[p]) == s[p] by {
        assert(t[p] == s.subrange(0, lo)[p]);
    }
    assert forall|p: int| 0 <= p < val.len() implies (#[trigger] t[lo + p]) == val[p] by {
        assert(t[lo + p] == val[p]);
    }
    assert forall|p: int| hi <= p < s.len() implies (#[trigger] t[p + delta]) == s[p] by {
        assert(t[p + delta] == s.subrange(hi, s.len() as int)[p - hi]);
    }
    let e = line_end(s, i);
    lemma_next_line(s, i);
    lemma_find_byte(s, i, s.len() as int, NEWLINE);
    let nl = next_line_at(s, i);
    if line_is_header(s, i, e) || !(in_table && line_is_keyval(s, i, e) && keyval_key(s, i, e)
        == key) {
        // a line before the edited one: its bytes are untouched
        let in_next = if line_is_header(s, i, e) {
            header_name(s, i, e) == table
        } else {
            in_table
        };
        assert(find_field_from(s, nl, table, key, in_next) == FieldLookup::Found(lo, hi));
        lemma_find_field_from_bounds(s, nl, table, key, in_next);
        assert(nl <= lo);
        assert(e < s.len());
        assert(e < lo);
        assert(e < t.len());
        lemma_find_byte_is(t, i, t.len() as int, NEWLINE, e);
        assert(line_end(t, i) == e);
        lemma_next_line(t, i);
        assert(next_line_at(t, i) == nl);
        assert forall|d: int| 0 <= d < e - i implies (#[trigger] s[i + d]) == t[i + d] by {
            assert(t[i + d] == s[i + d]);
        }
        lemma_line_off(s, t, i, i, e, e);
        lemma_preserve_from(s, t, table, key, val, nl, in_next, lo, hi);
    } else {
        // the edited line itself
        assert(keyval_is_string(s, i, e));
        lemma_skip_ws(s, i, e);
        let j = skip_ws(s, i, e);
        lemma_skip_key(s, j, e);
        let k = skip_key(s, j, e);
        lemma_skip_ws(s, k, e);
        let m = skip_ws(s, k, e);
        lemma_skip_ws(s, m + 1, e);
        let v = skip_ws(s, m + 1, e);
        lemma_string_end(s, v + 1, e);
        let q = string_end(s, v + 1, e);
        assert(lo == v + 1 && hi == q);
        assert(q < e);
        let e2 = e + delta;
        assert(lo + val.len() == hi + delta);
        // the line still ends at the (shifted) newline
        assert forall|p: int| i <= p < e2 implies (#[trigger] t[p]) != NEWLINE by {
            if p < lo {
                assert(t[p] == s[p]);
            } else if p < lo + val.len() {
                assert(t[lo + (p - lo)] == val[p - lo]);
            } else {
                assert(t[(p - delta) + delta] == s[p - delta]);
            }
        }
        if e < s.len() {
            assert(t[e + delta] == s[e]);
        }
        lemma_find_byte_is(t, i, t.len() as int, NEWLINE, e2);
        assert(line_end(t, i) == e2);
        lemma_next_line(t, i);
        // the key part is untouched
        assert forall|p: int| i <= p < lo implies (#[trigger] t[p]) == s[p] by {}
        lemma_skip_ws_is(t, i, e2, j);
        lemma_skip_key_is(t, j, e2, k);
        lemma_skip_ws_is(t, k, e2, m);
        assert(t[m] == s[m]);
        lemma_skip_ws_is(t, m + 1, e2, v);
        assert(t[v] == s[v]);
        // the value is the new one, closed by the old closing quote
        assert forall|p: int| lo <= p < lo + val.len() implies (#[trigger] t[p]) != QUOTE && t[p]
            != BACKSLASH by {
            assert(t[lo + (p - lo)] == val[p - lo]);
        }
        assert(t[hi + delta] == s[hi]);
        assert(s[hi] == QUOTE);
        lemma_string_end_is(t, lo, e2, lo + val.len());
        // what follows the value is untouched
        assert forall|d: int| 0 <= d < e - (hi + 1) implies (#[trigger] s[(hi + 1) + d]) == t[(hi
            + 1 + delta) + d] by {
            assert(t[((hi + 1) + d) + delta] == s[(hi + 1) + d]);
        }
        lemma_skip_ws_off(s, t, hi + 1, hi + 1 + delta, e, e2);
        lemma_skip_ws(s, hi + 1, e);
        lemma_skip_ws(t, hi + 1 + delta, e2);
        let w = skip_ws(s, hi + 1, e);
        if w < e {
            assert(t[w + delta] == s[w]);
        }
        assert(tail_ok(t, hi + 1 + delta, e2));
        assert(value_ok(t, m + 1, e2));
        assert(line_is_keyval(t, i, e2));
        assert(!is_key_byte(LBRACKET));
        assert(s[j] != LBRACKET) by {
            assert(is_key_byte(s[j]));
        }
        assert(!line_is_header(t, i, e2));
        assert(t.subrange(j, k) =~= s.subrange(j, k));
        assert(keyval_key(t, i, e2) == key);
        assert(keyval_is_string(t, i, e2));
        assert(keyval_string_lo(t, i, e2) == lo);
        assert(keyval_string_hi(t, i, e2) == lo + val.len());
        assert(find_field_from(t, i, table, key, in_table) == FieldLookup::Found(
            lo,
            lo + val.len(),
        ));
        // the rest of the document is untouched
        assert(doc_ok_from(s, nl));
        if e < s.len() {
            assert(nl == e + 1);
            assert forall|d: int| 0 <= d < s.len() - nl implies (#[trigger] s[nl + d]) == t[(nl
                + delta) + d] by {
                assert(t[(nl + d) + delta] == s[nl + d]);
            }
            lemma_doc_ok_off(s, t, nl, nl + delta);
            assert(next_line_at(t, i) == e2 + 1);
            assert(doc_ok_from(t, e2 + 1));
        } else {
            assert(next_line_at(t, i) == t.len() as int);
            assert(doc_ok_from(t, t.len() as int));
        }
        assert(doc_ok_from(t, i));
    }
}

/// After a successful field update whose new value holds only bytes
/// that may stand inside a quoted value, the rewritten text is again a
/// well-formed document, and the field now reads exactly the new value.
pub proof fn lemma_set_field_preserves_document(
    s: Seq<u8>,
    table: Seq<u8>,
    key: Seq<u8>,
    val: Seq<u8>,
    lo: int,
    hi: int,
)
    requires
        doc_ok(s),
        find_field(s, table, key) == FieldLookup::Found(lo, hi),
        forall|j: int| 0 <= j < val.len() ==> is_inline_byte(#[trigger] val[j]),
    ensures
        doc_ok(splice(s, lo, hi, val)),
        find_field(splice(s, lo, hi, val), table, key) == FieldLookup::Found(lo, lo + val.len()),
{
    lemma_preserve_from(s, splice(s, lo, hi, val), table, key, val, 0, false, lo, hi);
}

/// Locates the string value of `table`.`key`, or says how the lookup
/// failed.
fn locate_field(s: &[u8], table: &[u8], key: &[u8]) -> (r: Result<(usize, usize), ErrorKind>)
    ensures
        r matches Ok(p) ==> find_field(s@, table@, key@) == FieldLookup::Found(
            p.0 as int,
            p.1 as int,
        ) && p.0 <= p.1 <= s@.len(),
        r matches Err(k) ==> ((k == ErrorKind::MissingFieldError && find_field(
            s@,
            table@,
            key@,
        ) is Missing) || (k == ErrorKind::TypeError && find_field(s@, table@, key@) is NotString)),
{
    let mut i: usize = 0;
    let mut in_table = false;
    while i < s.len()
        invariant
            0 <= i <= s@.len(),
            find_field(s@, table@, key@) == find_field_from(
                s@,
                i as int,
                table@,
                key@,
                in_table,
            ),
        decreases s@.len() - i,
    {
        let e = seek_byte(s, i, s.len(), NEWLINE);
        proof {
            lemma_next_line(s@, i as int);
        }
        if check_header(s, i, e) {
            let span = header_name_span(s, i, e);
            in_table = range_eq(s, span.0, span.1, table);
        } else if in_table && check_keyval(s, i, e) {
            let kspan = keyval_key_span(s, i, e);
            if range_eq(s, kspan.0, kspan.1, key) {
                let v = keyval_value_start(s, i, e);
                if s[v] == QUOTE {
                    let q = seek_string_end(s, v + 1, e);
                    proof {
                        lemma_string_end(s@, v + 1, e as int);
                    }
                    return Ok((v + 1, q));
                }
                return Err(ErrorKind::TypeError);
            }
        }
        i = if e == s.len() {
            e
        } else {
            e + 1
        };
    }
    Err(ErrorKind::MissingFieldError)
}

// ---------------------------------------------------------------------------
// The document type
// ---------------------------------------------------------------------------
/// A parsed manifest document.  It keeps the raw bytes it was parsed
/// from, so untouched regions reproduce byte for byte.
pub struct Manifest {
    pub(crate) text: Vec<u8>,
}

impl View for Manifest {
    type V = Seq<u8>;

    closed spec fn view(&self) -> Seq<u8> {
        self.text@
    }
}

impl Manifest {
    /// Parses manifest text; fails with `ParseError` exactly on text that
    /// is not a well-formed document.  The document keeps every input
    /// byte.
    pub fn parse(raw: &[u8]) -> (r: Result<Manifest, ErrorKind>)
        ensures
            r is Ok <==> doc_ok(raw@),
            r matches Ok(m) ==> m@ == raw@,
            r matches Err(e) ==> e == ErrorKind::ParseError,
    {
        if check_doc(raw) {
            Ok(Manifest { text: vstd::slice::slice_to_vec(raw) })
        } else {
            Err(ErrorKind::ParseError)
        }
    }

    /// Renders the document: exactly the bytes it holds.
    pub fn serialize(&self) -> (r: Vec<u8>)
        ensures
            r@ == self@,
    {
        vstd::slice::slice_to_vec(self.text.as_slice())
    }

    /// Reads the string value of `table`.`key`.  Fails with
    /// `MissingFieldError` when the table or key is absent, and with
    /// `TypeError` when the value is not a quoted string.
    pub fn get_field(&self, table: &[u8], key: &[u8]) -> (r: Result<Vec<u8>, ErrorKind>)
        ensures
            find_field(self@, table@, key@) matches FieldLookup::Found(lo, hi) ==> (r matches Ok(v)
                && v@ == self@.subrange(lo, hi)),
            find_field(self@, table@, key@) is Missing ==> (r matches Err(e) && e
                == ErrorKind::MissingFieldError),
            find_field(self@, table@, key@) is NotString ==> (r matches Err(e) && e
                == ErrorKind::TypeError),
    {
        match locate_field(self.text.as_slice(), table, key) {
            Ok(p) => {
                let sub = vstd::slice::slice_subrange(self.text.as_slice(), p.0, p.1);
                Ok(vstd::slice::slice_to_vec(sub))
            },
            Err(k) => Err(k),
        }
    }

    /// Replaces the value of `table`.`key` with `new_value`: the bytes
    /// before and after the old value token are kept unchanged.  On
    /// failure the document is untouched.
    pub fn set_field(&mut self, table: &[u8], key: &[u8], new_value: &[u8]) -> (r: Result<
        (),
        ErrorKind,
    >)
        ensures
            r is Ok <==> find_field(old(self)@, table@, key@) is Found,
            find_field(old(self)@, table@, key@) matches FieldLookup::Found(lo, hi) ==> final(self)@
                == old(self)@.subrange(0, lo) + new_value@ + old(self)@.subrange(
                hi,
                old(self)@.len() as int,
            ),
            r is Err ==> final(self)@ == old(self)@,
            find_field(old(self)@, table@, key@) is Missing ==> (r matches Err(e) && e
                == ErrorKind::MissingFieldError),
            find_field(old(self)@, table@, key@) is NotString ==> (r matches Err(e) && e
                == ErrorKind::TypeError),
    {
        match locate_field(self.text.as_slice(), table, key) {
            Ok(p) => {
                let mut out: Vec<u8> = Vec::new();
                push_range(&mut out, self.text.as_slice(), 0, p.0);
                push_range(&mut out, new_value, 0, new_value.len());
                push_range(&mut out, self.text.as_slice(), p.1, self.text.len());
                proof {
                    assert(new_value@.subrange(0, new_value@.len() as int) =~= new_value@);
                }
                self.text = out;
                Ok(())
            },
            Err(k) => Err(k),
        }
    }
}

// ---------------------------------------------------------------------------
// The round-trip law
// ---------------------------------------------------------------------------
/// The format-preserving round trip: replacing the field's value span
/// with the very bytes it already holds rebuilds the document byte for
/// byte, so an update that does not change the value is the identity.
pub proof fn lemma_set_same_value_round_trip(s: Seq<u8>, table: Seq<u8>, key: Seq<u8>)
    ensures
        find_field(s, table, key) matches FieldLookup::Found(lo, hi) ==> splice(
            s,
            lo,
            hi,
            s.subrange(lo, hi),
        ) == s,
{
    lemma_find_field_bounds(s, table, key);
    if find_field(s, table, key) is Found {
        if let FieldLookup::Found(lo, hi) = find_field(s, table, key) {
            assert(s.subrange(0, lo) + s.subrange(lo, hi) + s.subrange(hi, s.len() as int) =~= s);
        }
    }
}

} // verus!
