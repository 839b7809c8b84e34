//! Positional scanning over byte sequences: the small steps (find a byte,
//! skip blanks, compare ranges) that the version and manifest grammars are
//! built from.  Each executable scanner returns exactly the index its spec
//! counterpart describes.

use vstd::prelude::*;

verus! {

use crate::ascii::{TAB, CARRIAGE_RETURN, SPACE};

/// Blank bytes that may pad tokens inside a manifest line.
pub open spec fn is_ws(b: u8) -> bool {
    b == SPACE || b == TAB || b == CARRIAGE_RETURN
}

/// The first index in `[i, to)` holding `b`, or `to` when there is none.
pub open spec fn find_byte(s: Seq<u8>, i: int, to: int, b: u8) -> int
    decreases to - i,
    when i <= to
{
    if i >= to {
        to
    } else if s[i] == b {
        i
    } else {
        find_byte(s, i + 1, to, b)
    }
}

pub proof fn lemma_find_byte(s: Seq<u8>, i: int, to: int, b: u8)
    requires
        0 <= i <= to <= s.len(),
    ensures
        i <= find_byte(s, i, to, b) <= to,
        forall|j: int| i <= j < find_byte(s, i, to, b) ==> s[j] != b,
        find_byte(s, i, to, b) < to ==> s[find_byte(s, i, to, b)] == b,
    decreases to - i,
{
    if i < to && s[i] != b {
        lemma_find_byte(s, i + 1, to, b);
    }
}

/// The first index in `[i, to)` holding `b1` or `b2`, or `to` when neither occurs.
pub open spec fn find_two(s: Seq<u8>, i: int, to: int, b1: u8, b2: u8) -> int
    decreases to - i,
    when i <= to
{
    if i >= to {
        to
    } else if s[i] == b1 || s[i] == b2 {
        i
    } else {
        find_two(s, i + 1, to, b1, b2)
    }
}

pub proof fn lemma_find_two(s: Seq<u8>, i: int, to: int, b1: u8, b2: u8)
    requires
        0 <= i <= to <= s.len(),
    ensures
        i <= find_two(s, i, to, b1, b2) <= to,
        forall|j: int| i <= j < find_two(s, i, to, b1, b2) ==> s[j] != b1 && s[j] != b2,
        find_two(s, i, to, b1, b2) < to ==> s[find_two(s, i, to, b1, b2)] == b1 || s[find_two(
            s,
            i,
            to,
            b1,
            b2,
        )] == b2,
    decreases to - i,
{
    if i < to && s[i] != b1 && s[i] != b2 {
        lemma_find_two(s, i + 1, to, b1, b2);
    }
}

/// The first index in `[i, to)` holding a non-blank byte, or `to`.
pub open spec fn skip_ws(s: Seq<u8>, i: int, to: int) -> int
    decreases to - i,
    when i <= to
{
    if i >= to {
        to
    } else if is_ws(s[i]) {
        skip_ws(s, i + 1, to)
    } else {
        i
    }
}

pub proof fn lemma_skip_ws(s: Seq<u8>, i: int, to: int)
    requires
        0 <= i <= to <= s.len(),
    ensures
        i <= skip_ws(s, i, to) <= to,
        forall|j: int| i <= j < skip_ws(s, i, to) ==> is_ws(s[j]),
        skip_ws(s, i, to) < to ==> !is_ws(s[skip_ws(s, i, to)]),
    decreases to - i,
{
    if i < to && is_ws(s[i]) {
        lemma_skip_ws(s, i + 1, to);
    }
}

/// One past the last non-blank byte in `[i, to)`, or `i` when all are blank.
pub open spec fn rtrim(s: Seq<u8>, i: int, to: int) -> int
    decreases to - i,
    when i <= to
{
    if to <= i {
        i
    } else if is_ws(s[to - 1]) {
        rtrim(s, i, to - 1)
    } else {
        to
    }
}

pub proof fn lemma_rtrim(s: Seq<u8>, i: int, to: int)
    requires
        0 <= i <= to <= s.len(),
    ensures
        i <= rtrim(s, i, to) <= to,
        forall|j: int| rtrim(s, i, to) <= j < to ==> is_ws(s[j]),
        rtrim(s, i, to) > i ==> !is_ws(s[rtrim(s, i, to) - 1]),
    decreases to - i,
{
    if i < to && is_ws(s[to - 1]) {
        lemma_rtrim(s, i, to - 1);
    }
}

/// A scan lands exactly where the witnessed bytes say it must.
pub proof fn lemma_find_byte_is(s: Seq<u8>, i: int, to: int, b: u8, x: int)
    requires
        0 <= i <= x <= to <= s.len(),
        forall|j: int| i <= j < x ==> s[j] != b,
        x < to ==> s[x] == b,
    ensures
        find_byte(s, i, to, b) == x,
    decreases x - i,
{
    if i < x {
        lemma_find_byte_is(s, i + 1, to, b, x);
    }
}

/// Scanning depends only on the bytes scanned: ranges of equal bytes
/// scan alike, wherever they stand.
pub proof fn lemma_find_byte_off(s1: Seq<u8>, s2: Seq<u8>, i1: int, i2: int, to1: int, to2: int, b: u8)
    requires
        0 <= i1 <= to1 <= s1.len(),
        0 <= i2 <= to2 <= s2.len(),
        to1 - i1 == to2 - i2,
        forall|d: int| 0 <= d < to1 - i1 ==> (#[trigger] s1[i1 + d]) == s2[i2 + d],
    ensures
        find_byte(s1, i1, to1, b) - i1 == find_byte(s2, i2, to2, b) - i2,
    decreases to1 - i1,
{
    if i1 < to1 {
        assert(s1[i1 + 0] == s2[i2 + 0]);
        if s1[i1] != b {
            assert forall|d: int| 0 <= d < to1 - (i1 + 1) implies (#[trigger] s1[i1 + 1 + d])
                == s2[i2 + 1 + d] by {
                assert(s1[i1 + (d + 1)] == s2[i2 + (d + 1)]);
            }
            lemma_find_byte_off(s1, s2, i1 + 1, i2 + 1, to1, to2, b);
        }
    }
}

pub proof fn lemma_skip_ws_is(s: Seq<u8>, i: int, to: int, x: int)
    requires
        0 <= i <= x <= to <= s.len(),
        forall|j: int| i <= j < x ==> is_ws(s[j]),
        x < to ==> !is_ws(s[x]),
    ensures
        skip_ws(s, i, to) == x,
    decreases x - i,
{
    if i < x {
        lemma_skip_ws_is(s, i + 1, to, x);
    }
}

pub proof fn lemma_skip_ws_off(s1: Seq<u8>, s2: Seq<u8>, i1: int, i2: int, to1: int, to2: int)
    requires
        0 <= i1 <= to1 <= s1.len(),
        0 <= i2 <= to2 <= s2.len(),
        to1 - i1 == to2 - i2,
        forall|d: int| 0 <= d < to1 - i1 ==> (#[trigger] s1[i1 + d]) == s2[i2 + d],
    ensures
        skip_ws(s1, i1, to1) - i1 == skip_ws(s2, i2, to2) - i2,
    decreases to1 - i1,
{
    if i1 < to1 {
        assert(s1[i1 + 0] == s2[i2 + 0]);
        if is_ws(s1[i1]) {
            assert forall|d: int| 0 <= d < to1 - (i1 + 1) implies (#[trigger] s1[i1 + 1 + d])
                == s2[i2 + 1 + d] by {
                assert(s1[i1 + (d + 1)] == s2[i2 + (d + 1)]);
            }
            lemma_skip_ws_off(s1, s2, i1 + 1, i2 + 1, to1, to2);
        }
    }
}

pub proof fn lemma_rtrim_off(s1: Seq<u8>, s2: Seq<u8>, i1: int, i2: int, to1: int, to2: int)
    requires
        0 <= i1 <= to1 <= s1.len(),
        0 <= i2 <= to2 <= s2.len(),
        to1 - i1 == to2 - i2,
        forall|d: int| 0 <= d < to1 - i1 ==> (#[trigger] s1[i1 + d]) == s2[i2 + d],
    ensures
        rtrim(s1, i1, to1) - i1 == rtrim(s2, i2, to2) - i2,
    decreases to1 - i1,
{
    if i1 < to1 {
        assert(s1[i1 + (to1 - i1 - 1)] == s2[i2 + (to2 - i2 - 1)]);
        if is_ws(s1[to1 - 1]) {
            lemma_rtrim_off(s1, s2, i1, i2, to1 - 1, to2 - 1);
        }
    }
}

/// Whether `b` is blank, as executable code.
pub fn ws(b: u8) -> (r: bool)
    ensures
        r == is_ws(b),
{
    b == SPACE || b == TAB || b == CARRIAGE_RETURN
}

/// Finds the first occurrence of `b` in `s[i..to]`.
pub fn seek_byte(s: &[u8], i: usize, to: usize, b: u8) -> (r: usize)
    requires
        i <= to <= s@.len(),
    ensures
        r == find_byte(s@, i as int, to as int, b),
{
    let mut j = i;
    while j < to
        invariant
            i <= j <= to <= s@.len(),
            find_byte(s@, i as int, to as int, b) == find_byte(s@, j as int, to as int, b),
        decreases to - j,
    {
        if s[j] == b {
            return j;
        }
        j += 1;
    }
    j
}

/// Finds the first occurrence of `b1` or `b2` in `s[i..to]`.
pub fn seek_two(s: &[u8], i: usize, to: usize, b1: u8, b2: u8) -> (r: usize)
    requires
        i <= to <= s@.len(),
    ensures
        r == find_two(s@, i as int, to as int, b1, b2),
{
    let mut j = i;
    while j < to
        invariant
            i <= j <= to <= s@.len(),
            find_two(s@, i as int, to as int, b1, b2) == find_two(s@, j as int, to as int, b1, b2),
        decreases to - j,
    {
        if s[j] == b1 || s[j] == b2 {
            return j;
        }
        j += 1;
    }
    j
}

/// Finds the first non-blank byte in `s[i..to]`.
pub fn seek_non_ws(s: &[u8], i: usize, to: usize) -> (r: usize)
    requires
        i <= to <= s@.len(),
    ensures
        r == skip_ws(s@, i as int, to as int),
{
    let mut j = i;
    while j < to
        invariant
            i <= j <= to <= s@.len(),
            skip_ws(s@, i as int, to as int) == skip_ws(s@, j as int, to as int),
        decreases to - j,
    {
        if !ws(s[j]) {
            return j;
        }
        j += 1;
    }
    j
}

/// Steps back over trailing blanks in `s[i..to]`.
pub fn seek_rtrim(s: &[u8], i: usize, to: usize) -> (r: usize)
    requires
        i <= to <= s@.len(),
    ensures
        r == rtrim(s@, i as int, to as int),
{
    let mut j = to;
    while j > i
        invariant
            i <= j <= to <= s@.len(),
            rtrim(s@, i as int, to as int) == rtrim(s@, i as int, j as int),
        decreases j,
    {
        if !ws(s[j - 1]) {
            return j;
        }
        j -= 1;
    }
    j
}

/// Whether `s[i..to]` equals `t` byte for byte.
pub fn range_eq(s: &[u8], i: usize, to: usize, t: &[u8]) -> (r: bool)
    requires
        i <= to <= s@.len(),
    ensures
        r == (s@.subrange(i as int, to as int) == t@),
{
    if to - i != t.len() {
        assert(s@.subrange(i as int, to as int).len() != t@.len());
        return false;
    }
    let mut j: usize = 0;
    while j < t.len()
        invariant
            i <= to <= s@.len(),
            0 <= j <= t@.len(),
            to - i == t@.len(),
            forall|k: int| 0 <= k < j ==> s@.subrange(i as int, to as int)[k] == t@[k],
        decreases t@.len() - j,
    {
        if s[i + j] != t[j] {
            assert(s@.subrange(i as int, to as int)[j as int] != t@[j as int]);
            return false;
        }
        j += 1;
    }
    proof {
        assert(s@.subrange(i as int, to as int) =~= t@);
    }
    true
}

/// Appends `s[i..to]` to `out`.
pub fn push_range(out: &mut Vec<u8>, s: &[u8], i: usize, to: usize)
    requires
        i <= to <= s@.len(),
    ensures
        final(out)@ == old(out)@ + s@.subrange(i as int, to as int),
{
    let mut j = i;
    while j < to
        invariant
            i <= j <= to <= s@.len(),
            out@ == old(out)@ + s@.subrange(i as int, j as int),
        decreases to - j,
    {
        out.push(s[j]);
        proof {
            assert(old(out)@ + s@.subrange(i as int, j as int) + seq![s@[j as int]] =~= old(out)@
                + s@.subrange(i as int, j + 1));
        }
        j += 1;
    }
}

/// Whether two byte slices hold the same bytes.
pub fn bytes_eq(a: &[u8], b: &[u8]) -> (r: bool)
    ensures
        r == (a@ == b@),
{
    proof {
        assert(a@.subrange(0, a@.len() as int) =~= a@);
    }
    range_eq(a, 0, a.len(), b)
}

} // verus!
