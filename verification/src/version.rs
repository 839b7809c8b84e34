//! Semantic versions: the data model, a verified parser and printer for
//! version strings, and the rule application that bumps a version.
//!
//! A version string is `major.minor.patch`, optionally followed by
//! `-pre` and `+build`, where `pre` and `build` are dot-separated
//! identifier lists.  Numeric components carry no leading zeros; a
//! pre-release identifier made of digits must be a well-formed number,
//! while a build identifier made of digits with a leading zero is kept
//! verbatim as an alphanumeric identifier.

use vstd::prelude::*;

verus! {

use crate::ascii::{DIGIT_ZERO, DIGIT_NINE, UPPER_A, UPPER_Z, LOWER_A, LOWER_Z, DASH, PLUS, DOT};
use crate::scan::{find_byte, find_two, lemma_find_byte, lemma_find_two, seek_byte, seek_two,
    push_range};
use crate::error::ErrorKind;
use crate::config::{VersionModifier, ModifierType, ModView, ModTypeView, spec_apply, sat_inc};

// ---------------------------------------------------------------------------
// Byte classes
// ---------------------------------------------------------------------------
pub open spec fn is_digit(b: u8) -> bool {
    DIGIT_ZERO <= b <= DIGIT_NINE
}

pub open spec fn is_letter(b: u8) -> bool {
    (UPPER_A <= b <= UPPER_Z) || (LOWER_A <= b <= LOWER_Z)
}

/// The bytes an identifier may consist of: letters, digits and hyphens.
pub open spec fn is_ident_byte(b: u8) -> bool {
    is_digit(b) || is_letter(b) || b == DASH
}

pub fn digit(b: u8) -> (r: bool)
    ensures
        r == is_digit(b),
{
    DIGIT_ZERO <= b && b <= DIGIT_NINE
}

pub fn ident_byte(b: u8) -> (r: bool)
    ensures
        r == is_ident_byte(b),
{
    digit(b) || (UPPER_A <= b && b <= UPPER_Z) || (LOWER_A <= b && b <= LOWER_Z) || b == DASH
}

// ---------------------------------------------------------------------------
// Decimal numbers
// ---------------------------------------------------------------------------
pub open spec fn all_digits_in(s: Seq<u8>, i: int, to: int) -> bool {
    forall|j: int| i <= j < to ==> is_digit(s[j])
}

/// The value of the decimal digits in `s[i..to]`.
pub open spec fn dec_value_in(s: Seq<u8>, i: int, to: int) -> int
    decreases to - i,
    when i <= to
{
    if to <= i {
        0
    } else {
        dec_value_in(s, i, to - 1) * 10 + (s[to - 1] - DIGIT_ZERO)
    }
}

/// A well-formed decimal number: nonempty, digits only, no leading zero,
/// and a value that fits in a `u64`.
pub open spec fn valid_number_in(s: Seq<u8>, i: int, to: int) -> bool {
    &&& i < to
    &&& all_digits_in(s, i, to)
    &&& (s[i] != DIGIT_ZERO || to == i + 1)
    &&& dec_value_in(s, i, to) <= u64::MAX
}

/// Appending digits never lowers a (nonnegative) decimal value.
pub proof fn lemma_dec_value_extend(s: Seq<u8>, i: int, j: int, to: int)
    requires
        i <= j <= to <= s.len(),
        dec_value_in(s, i, j) >= 0,
        forall|k: int| j <= k < to ==> is_digit(s[k]),
    ensures
        dec_value_in(s, i, to) >= dec_value_in(s, i, j),
    decreases to - j,
{
    if j < to {
        lemma_dec_value_extend(s, i, j, to - 1);
        assert(is_digit(s[to - 1]));
        assert(dec_value_in(s, i, to - 1) * 10 >= dec_value_in(s, i, to - 1)) by {
            assert(dec_value_in(s, i, to - 1) >= 0);
        }
    }
}

/// Parses the decimal digits in `s[i..to]` (leading zeros allowed),
/// rejecting empty input, non-digits and values beyond `u64`.
pub fn parse_digits(s: &[u8], i: usize, to: usize) -> (r: Option<u64>)
    requires
        i <= to <= s@.len(),
    ensures
        r is Some <==> (i < to && all_digits_in(s@, i as int, to as int) && dec_value_in(
            s@,
            i as int,
            to as int,
        ) <= u64::MAX),
        r matches Some(n) ==> n == dec_value_in(s@, i as int, to as int),
{
    if i == to {
        return None;
    }
    let mut j = i;
    let mut val: u64 = 0;
    while j < to
        invariant
            i <= j <= to <= s@.len(),
            all_digits_in(s@, i as int, j as int),
            val == dec_value_in(s@, i as int, j as int),
        decreases to - j,
    {
        let b = s[j];
        if !digit(b) {
            assert(!all_digits_in(s@, i as int, to as int));
            return None;
        }
        let d = (b - DIGIT_ZERO) as u64;
        if val > (u64::MAX - d) / 10 {
            proof {
                assert(val * 10 + d > u64::MAX) by (nonlinear_arith)
                    requires
                        val > (u64::MAX - d) / 10,
                        d <= 9,
                ;
                assert(dec_value_in(s@, i as int, j + 1) > u64::MAX);
                if all_digits_in(s@, i as int, to as int) {
                    lemma_dec_value_extend(s@, i as int, j + 1, to as int);
                }
            }
            return None;
        }
        proof {
            assert(val * 10 + d <= u64::MAX) by (nonlinear_arith)
                requires
                    val <= (u64::MAX - d) / 10,
                    d <= 9,
            ;
        }
        val = val * 10 + d;
        j += 1;
    }
    Some(val)
}

/// Parses the decimal number in `s[i..to]`, rejecting empty input,
/// non-digits, leading zeros and values beyond `u64`.
pub fn parse_number(s: &[u8], i: usize, to: usize) -> (r: Option<u64>)
    requires
        i <= to <= s@.len(),
    ensures
        r is Some <==> valid_number_in(s@, i as int, to as int),
        r matches Some(n) ==> n == dec_value_in(s@, i as int, to as int),
{
    if i < to && s[i] == DIGIT_ZERO && to - i > 1 {
        return None;
    }
    parse_digits(s, i, to)
}

// ---------------------------------------------------------------------------
// Printing decimal numbers
// ---------------------------------------------------------------------------
/// The canonical decimal digits of `n` (no leading zeros).
pub open spec fn dec_digits(n: nat) -> Seq<u8>
    decreases n,
{
    if n < 10 {
        seq![(DIGIT_ZERO + n) as u8]
    } else {
        dec_digits(n / 10).push((DIGIT_ZERO + n % 10) as u8)
    }
}

/// Appends the decimal digits of `n` to `out`.
pub fn push_number(out: &mut Vec<u8>, n: u64)
    ensures
        final(out)@ == old(out)@ + dec_digits(n as nat),
    decreases n,
{
    if n < 10 {
        out.push(DIGIT_ZERO + (n as u8));
        proof {
            assert(final(out)@ =~= old(out)@ + dec_digits(n as nat));
        }
    } else {
        push_number(out, n / 10);
        out.push(DIGIT_ZERO + ((n % 10) as u8));
        proof {
            assert(final(out)@ =~= old(out)@ + dec_digits(n as nat));
        }
    }
}

// ---------------------------------------------------------------------------
// Identifiers
// ---------------------------------------------------------------------------
/// One pre-release or build identifier, as data.
#[derive(Clone, Debug)]
pub enum Identifier {
    Numeric(u64),
    AlphaNumeric(Vec<u8>),
}

/// The mathematical value of an identifier.
pub ghost enum IdView {
    Numeric(u64),
    AlphaNumeric(Seq<u8>),
}

impl View for Identifier {
    type V = IdView;

    open spec fn view(&self) -> IdView {
        match self {
            Identifier::Numeric(n) => IdView::Numeric(*n),
            Identifier::AlphaNumeric(b) => IdView::AlphaNumeric(b@),
        }
    }
}

/// The values of a list of identifiers.
pub open spec fn ids_view(l: Seq<Identifier>) -> Seq<IdView> {
    l.map_values(|x: Identifier| x@)
}

pub open spec fn ident_bytes_in(s: Seq<u8>, i: int, to: int) -> bool {
    forall|j: int| i <= j < to ==> is_ident_byte(s[j])
}

/// How the identifier written in `s[i..to]` reads: numeric when it is a
/// well-formed number, alphanumeric (kept verbatim) otherwise.
pub open spec fn version_id_at(s: Seq<u8>, i: int, to: int) -> IdView {
    if valid_number_in(s, i, to) {
        IdView::Numeric(dec_value_in(s, i, to) as u64)
    } else {
        IdView::AlphaNumeric(s.subrange(i, to))
    }
}

/// A well-formed identifier: nonempty identifier bytes; in pre-release
/// position an all-digit identifier must be a well-formed number.
pub open spec fn valid_id_in(s: Seq<u8>, i: int, to: int, pre: bool) -> bool {
    &&& i < to
    &&& ident_bytes_in(s, i, to)
    &&& ((pre && all_digits_in(s, i, to)) ==> valid_number_in(s, i, to))
}

/// A well-formed dot-separated identifier list in `s[i..to]`.
pub open spec fn valid_ids_in(s: Seq<u8>, i: int, to: int, pre: bool) -> bool
    decreases to - i,
    when i <= to
{
    let d = find_byte(s, i, to, DOT);
    if d < i || d >= to {
        valid_id_in(s, i, to, pre)
    } else {
        valid_id_in(s, i, d, pre) && valid_ids_in(s, d + 1, to, pre)
    }
}

/// The identifier values written in `s[i..to]`.
pub open spec fn ids_at(s: Seq<u8>, i: int, to: int) -> Seq<IdView>
    decreases to - i,
    when i <= to
{
    let d = find_byte(s, i, to, DOT);
    if d < i || d >= to {
        seq![version_id_at(s, i, to)]
    } else {
        seq![version_id_at(s, i, d)] + ids_at(s, d + 1, to)
    }
}

/// Parses the identifier in `s[i..to]`.
fn parse_one_id(s: &[u8], i: usize, to: usize, pre: bool) -> (r: Option<Identifier>)
    requires
        i <= to <= s@.len(),
    ensures
        r is Some <==> valid_id_in(s@, i as int, to as int, pre),
        r matches Some(id) ==> id@ == version_id_at(s@, i as int, to as int),
{
    if i == to {
        return None;
    }
    let mut j = i;
    let mut digits_only = true;
    while j < to
        invariant
            i <= j <= to <= s@.len(),
            ident_bytes_in(s@, i as int, j as int),
            digits_only == all_digits_in(s@, i as int, j as int),
        decreases to - j,
    {
        let b = s[j];
        if !ident_byte(b) {
            assert(!ident_bytes_in(s@, i as int, to as int));
            return None;
        }
        if !digit(b) {
            digits_only = false;
            assert(!all_digits_in(s@, i as int, j + 1));
        }
        j += 1;
    }
    match parse_number(s, i, to) {
        Some(n) => Some(Identifier::Numeric(n)),
        None => {
            if pre && digits_only {
                // an all-digit pre-release identifier must be a number
                return None;
            }
            let sub = vstd::slice::slice_subrange(s, i, to);
            Some(Identifier::AlphaNumeric(vstd::slice::slice_to_vec(sub)))
        },
    }
}

/// Parses the identifier list in `s[i..to]`, appending to `out`.
fn parse_ids(s: &[u8], i: usize, to: usize, pre: bool, out: &mut Vec<Identifier>) -> (ok: bool)
    requires
        i <= to <= s@.len(),
    ensures
        ok == valid_ids_in(s@, i as int, to as int, pre),
        ok ==> ids_view(final(out)@) == ids_view(old(out)@) + ids_at(s@, i as int, to as int),
    decreases to - i,
{
    let d = seek_byte(s, i, to, DOT);
    proof {
        lemma_find_byte(s@, i as int, to as int, DOT);
    }
    if d == to {
        match parse_one_id(s, i, to, pre) {
            Some(id) => {
                let ghost prev = out@;
                out.push(id);
                proof {
                    assert(ids_view(out@) =~= ids_view(prev) + ids_at(s@, i as int, to as int));
                }
                true
            },
            None => false,
        }
    } else {
        match parse_one_id(s, i, d, pre) {
            Some(id) => {
                let ghost prev = out@;
                out.push(id);
                proof {
                    assert(ids_view(out@) =~= ids_view(prev) + seq![version_id_at(
                        s@,
                        i as int,
                        d as int,
                    )]);
                }
                let ghost mid = out@;
                let ok = parse_ids(s, d + 1, to, pre, out);
                proof {
                    if ok {
                        assert(ids_view(out@) =~= ids_view(prev) + ids_at(
                            s@,
                            i as int,
                            to as int,
                        ));
                    }
                }
                ok
            },
            None => false,
        }
    }
}

// ---------------------------------------------------------------------------
// Versions
// ---------------------------------------------------------------------------
/// A semantic version.
#[derive(Clone, Debug)]
pub struct Version {
    pub major: u64,
    pub minor: u64,
    pub patch: u64,
    pub pre: Vec<Identifier>,
    pub build: Vec<Identifier>,
}

/// The mathematical value of a version.
pub ghost struct VersionView {
    pub major: u64,
    pub minor: u64,
    pub patch: u64,
    pub pre: Seq<IdView>,
    pub build: Seq<IdView>,
}

impl View for Version {
    type V = VersionView;

    open spec fn view(&self) -> VersionView {
        VersionView {
            major: self.major,
            minor: self.minor,
            patch: self.patch,
            pre: ids_view(self.pre@),
            build: ids_view(self.build@),
        }
    }
}

/// Whether `s` is a well-formed semantic version string.
pub open spec fn valid_semver(s: Seq<u8>) -> bool {
    let n = s.len() as int;
    let d1 = find_byte(s, 0, n, DOT);
    if d1 >= n {
        false
    } else {
        let d2 = find_byte(s, d1 + 1, n, DOT);
        if d2 >= n {
            false
        } else {
            let ce = find_two(s, d2 + 1, n, DASH, PLUS);
            &&& valid_number_in(s, 0, d1)
            &&& valid_number_in(s, d1 + 1, d2)
            &&& valid_number_in(s, d2 + 1, ce)
            &&& (if ce >= n {
                true
            } else if s[ce] == DASH {
                let bp = find_byte(s, ce + 1, n, PLUS);
                valid_ids_in(s, ce + 1, bp, true) && (bp >= n || valid_ids_in(s, bp + 1, n, false))
            } else {
                valid_ids_in(s, ce + 1, n, false)
            })
        }
    }
}

/// The version value written in a well-formed version string.
pub open spec fn spec_parse_version(s: Seq<u8>) -> VersionView {
    let n = s.len() as int;
    let d1 = find_byte(s, 0, n, DOT);
    let d2 = find_byte(s, d1 + 1, n, DOT);
    let ce = find_two(s, d2 + 1, n, DASH, PLUS);
    let bp = find_byte(s, ce + 1, n, PLUS);
    VersionView {
        major: dec_value_in(s, 0, d1) as u64,
        minor: dec_value_in(s, d1 + 1, d2) as u64,
        patch: dec_value_in(s, d2 + 1, ce) as u64,
        pre: if ce < n && s[ce] == DASH {
            ids_at(s, ce + 1, bp)
        } else {
            Seq::empty()
        },
        build: if ce < n && s[ce] == DASH {
            if bp < n {
                ids_at(s, bp + 1, n)
            } else {
                Seq::empty()
            }
        } else if ce < n && s[ce] == PLUS {
            ids_at(s, ce + 1, n)
        } else {
            Seq::empty()
        },
    }
}

/// Parses a semantic version string; fails with `InvalidVersionError`
/// exactly on strings that are not well-formed versions.
pub fn parse_version(s: &[u8]) -> (r: Result<Version, ErrorKind>)
    ensures
        r is Ok <==> valid_semver(s@),
        r matches Ok(v) ==> v@ == spec_parse_version(s@),
        r matches Err(e) ==> e == ErrorKind::InvalidVersionError,
{
    let n = s.len();
    let d1 = seek_byte(s, 0, n, DOT);
    proof {
        lemma_find_byte(s@, 0, n as int, DOT);
    }
    if d1 == n {
        return Err(ErrorKind::InvalidVersionError);
    }
    let d2 = seek_byte(s, d1 + 1, n, DOT);
    proof {
        lemma_find_byte(s@, d1 + 1, n as int, DOT);
    }
    if d2 == n {
        return Err(ErrorKind::InvalidVersionError);
    }
    let ce = seek_two(s, d2 + 1, n, DASH, PLUS);
    proof {
        lemma_find_two(s@, d2 + 1, n as int, DASH, PLUS);
    }
    let major = match parse_number(s, 0, d1) {
        Some(x) => x,
        None => {
            return Err(ErrorKind::InvalidVersionError);
        },
    };
    let minor = match parse_number(s, d1 + 1, d2) {
        Some(x) => x,
        None => {
            return Err(ErrorKind::InvalidVersionError);
        },
    };
    let patch = match parse_number(s, d2 + 1, ce) {
        Some(x) => x,
        None => {
            return Err(ErrorKind::InvalidVersionError);
        },
    };
    let mut pre: Vec<Identifier> = Vec::new();
    let mut build: Vec<Identifier> = Vec::new();
    if ce < n {
        if s[ce] == DASH {
            let bp = seek_byte(s, ce + 1, n, PLUS);
            proof {
                lemma_find_byte(s@, ce + 1, n as int, PLUS);
            }
            if !parse_ids(s, ce + 1, bp, true, &mut pre) {
                return Err(ErrorKind::InvalidVersionError);
            }
            if bp < n {
                if !parse_ids(s, bp + 1, n, false, &mut build) {
                    return Err(ErrorKind::InvalidVersionError);
                }
            }
        } else {
            if !parse_ids(s, ce + 1, n, false, &mut build) {
                return Err(ErrorKind::InvalidVersionError);
            }
        }
    }
    let v = Version { major, minor, patch, pre, build };
    proof {
        assert(ids_view(Seq::<Identifier>::empty()) =~= Seq::<IdView>::empty());
        assert(v@ == spec_parse_version(s@));
    }
    Ok(v)
}

// ---------------------------------------------------------------------------
// Well-formed values
// ---------------------------------------------------------------------------
/// A well-formed identifier value: an alphanumeric identifier is nonempty
/// and made of identifier bytes.
pub open spec fn id_wf(id: IdView) -> bool {
    match id {
        IdView::Numeric(_) => true,
        IdView::AlphaNumeric(b) => b.len() > 0 && forall|j: int|
            0 <= j < b.len() ==> is_ident_byte(b[j]),
    }
}

pub open spec fn ids_wf(ids: Seq<IdView>) -> bool {
    forall|k: int| 0 <= k < ids.len() ==> id_wf(#[trigger] ids[k])
}

/// A version value whose printed form is again a version string.
pub open spec fn version_wf(v: VersionView) -> bool {
    ids_wf(v.pre) && ids_wf(v.build)
}

/// Checks that one identifier is well formed.
pub fn check_id(id: &Identifier) -> (r: bool)
    ensures
        r == id_wf(id@),
{
    match id {
        Identifier::Numeric(_) => true,
        Identifier::AlphaNumeric(b) => {
            if b.len() == 0 {
                return false;
            }
            let mut j: usize = 0;
            while j < b.len()
                invariant
                    0 <= j <= b@.len(),
                    id@ == IdView::AlphaNumeric(b@),
                    forall|m: int| 0 <= m < j ==> is_ident_byte(b@[m]),
                decreases b@.len() - j,
            {
                if !ident_byte(b[j]) {
                    assert(!id_wf(id@));
                    return false;
                }
                j += 1;
            }
            true
        },
    }
}

/// Checks that every identifier in `l` is well formed.
pub fn check_ids(l: &Vec<Identifier>) -> (r: bool)
    ensures
        r == ids_wf(ids_view(l@)),
{
    let mut k: usize = 0;
    while k < l.len()
        invariant
            0 <= k <= l@.len(),
            forall|m: int| 0 <= m < k ==> id_wf(#[trigger] ids_view(l@)[m]),
        decreases l@.len() - k,
    {
        if !check_id(&l[k]) {
            assert(!id_wf(ids_view(l@)[k as int]));
            return false;
        }
        assert(id_wf(ids_view(l@)[k as int]));
        k += 1;
    }
    true
}

/// Checks that a version's identifiers are well formed.
pub fn check_version(v: &Version) -> (r: bool)
    ensures
        r == version_wf(v@),
{
    if !check_ids(&v.pre) {
        return false;
    }
    check_ids(&v.build)
}

// ---------------------------------------------------------------------------
// Rendering
// ---------------------------------------------------------------------------
/// The bytes an identifier value prints as.
pub open spec fn render_id(id: IdView) -> Seq<u8> {
    match id {
        IdView::Numeric(x) => dec_digits(x as nat),
        IdView::AlphaNumeric(b) => b,
    }
}

/// The bytes a dot-separated identifier list prints as.
pub open spec fn render_ids(ids: Seq<IdView>) -> Seq<u8>
    decreases ids.len(),
{
    if ids.len() == 0 {
        Seq::empty()
    } else if ids.len() == 1 {
        render_id(ids[0])
    } else {
        render_ids(ids.drop_last()) + seq![DOT] + render_id(ids.last())
    }
}

/// The bytes a version value prints as.
pub open spec fn render_version(v: VersionView) -> Seq<u8> {
    dec_digits(v.major as nat) + seq![DOT] + dec_digits(v.minor as nat) + seq![DOT] + dec_digits(
        v.patch as nat,
    ) + (if v.pre.len() > 0 {
        seq![DASH] + render_ids(v.pre)
    } else {
        Seq::empty()
    }) + (if v.build.len() > 0 {
        seq![PLUS] + render_ids(v.build)
    } else {
        Seq::empty()
    })
}

/// Appends the printed form of an identifier list to `out`.
fn push_ids(out: &mut Vec<u8>, ids: &Vec<Identifier>)
    ensures
        final(out)@ == old(out)@ + render_ids(ids_view(ids@)),
{
    let mut k: usize = 0;
    while k < ids.len()
        invariant
            0 <= k <= ids@.len(),
            out@ == old(out)@ + render_ids(ids_view(ids@).take(k as int)),
        decreases ids@.len() - k,
    {
        if k > 0 {
            out.push(DOT);
        }
        match &ids[k] {
            Identifier::Numeric(x) => {
                push_number(out, *x);
            },
            Identifier::AlphaNumeric(b) => {
                push_range(out, b.as_slice(), 0, b.len());
                proof {
                    assert(b@.subrange(0, b@.len() as int) =~= b@);
                }
            },
        }
        proof {
            let idsv = ids_view(ids@);
            assert(idsv.take(k + 1).drop_last() =~= idsv.take(k as int));
            assert(idsv.take(k + 1).last() == idsv[k as int]);
            if k == 0 {
                assert(out@ =~= old(out)@ + render_ids(idsv.take(k + 1)));
            } else {
                assert(out@ =~= old(out)@ + render_ids(idsv.take(k + 1)));
            }
        }
        k += 1;
    }
    proof {
        assert(ids_view(ids@).take(ids@.len() as int) =~= ids_view(ids@));
    }
}

/// Prints a version as a version string.
pub fn render(v: &Version) -> (out: Vec<u8>)
    ensures
        out@ == render_version(v@),
{
    let mut out: Vec<u8> = Vec::new();
    push_number(&mut out, v.major);
    out.push(DOT);
    push_number(&mut out, v.minor);
    out.push(DOT);
    push_number(&mut out, v.patch);
    if v.pre.len() > 0 {
        out.push(DASH);
        push_ids(&mut out, &v.pre);
    }
    if v.build.len() > 0 {
        out.push(PLUS);
        push_ids(&mut out, &v.build);
    }
    proof {
        assert(out@ =~= render_version(v@));
    }
    out
}

// ---------------------------------------------------------------------------
// Printing inverts parsing
// ---------------------------------------------------------------------------
/// Digits alone never make a negative value.
proof fn lemma_dec_value_nonneg(s: Seq<u8>, i: int, to: int)
    requires
        0 <= i <= to <= s.len(),
        all_digits_in(s, i, to),
    ensures
        dec_value_in(s, i, to) >= 0,
    decreases to - i,
{
    if i < to {
        lemma_dec_value_nonneg(s, i, to - 1);
        assert(is_digit(s[to - 1]));
        assert(dec_value_in(s, i, to - 1) * 10 >= 0) by {
            assert(dec_value_in(s, i, to - 1) >= 0);
        }
    }
}

/// A digit run with a nonzero first digit has a positive value; two or
/// more such digits reach at least 10.
proof fn lemma_dec_value_pos(s: Seq<u8>, i: int, to: int)
    requires
        0 <= i < to <= s.len(),
        all_digits_in(s, i, to),
        s[i] != DIGIT_ZERO,
    ensures
        dec_value_in(s, i, to) >= 1,
        to - i >= 2 ==> dec_value_in(s, i, to) >= 10,
    decreases to - i,
{
    if to - 1 > i {
        lemma_dec_value_pos(s, i, to - 1);
        assert(is_digit(s[to - 1]));
        assert(dec_value_in(s, i, to - 1) * 10 >= 10) by {
            assert(dec_value_in(s, i, to - 1) >= 1);
        }
    } else {
        assert(is_digit(s[i]));
        assert(dec_value_in(s, i, i) == 0);
    }
}

/// Printing the value of a well-formed number reproduces its digits.
proof fn lemma_dec_digits_inverse(s: Seq<u8>, i: int, to: int)
    requires
        0 <= i <= to <= s.len(),
        valid_number_in(s, i, to),
    ensures
        dec_digits(dec_value_in(s, i, to) as nat) == s.subrange(i, to),
    decreases to - i,
{
    let v = dec_value_in(s, i, to);
    let d = s[to - 1] - DIGIT_ZERO;
    assert(is_digit(s[to - 1]));
    if to - i == 1 {
        assert(dec_value_in(s, i, i) == 0);
        assert(v == d);
        assert(dec_digits(v as nat) =~= s.subrange(i, to));
    } else {
        lemma_dec_value_pos(s, i, to);
        assert(v >= 10);
        let q = dec_value_in(s, i, to - 1);
        assert(q >= 0) by {
            lemma_dec_value_pos(s, i, to - 1);
        }
        assert(v as nat / 10 == q && v as nat % 10 == d) by (nonlinear_arith)
            requires
                v == q * 10 + d,
                0 <= d < 10,
                q >= 0,
        ;
        assert(valid_number_in(s, i, to - 1)) by {
            assert(q * 10 <= v) by (nonlinear_arith)
                requires
                    v == q * 10 + d,
                    d >= 0,
            ;
            assert(q <= q * 10) by (nonlinear_arith)
                requires
                    q >= 0,
            ;
        }
        lemma_dec_digits_inverse(s, i, to - 1);
        assert(dec_digits(v as nat) == s.subrange(i, to - 1).push(s[to - 1]));
        assert(s.subrange(i, to - 1).push(s[to - 1]) =~= s.subrange(i, to));
    }
}

/// Printing an identifier read from a version string reproduces its
/// bytes.
proof fn lemma_render_id_inverse(s: Seq<u8>, i: int, to: int, pre: bool)
    requires
        0 <= i <= to <= s.len(),
        valid_id_in(s, i, to, pre),
    ensures
        render_id(version_id_at(s, i, to)) == s.subrange(i, to),
{
    if valid_number_in(s, i, to) {
        lemma_dec_value_nonneg(s, i, to);
        lemma_dec_digits_inverse(s, i, to);
    }
}

/// An identifier list always holds at least one identifier.
proof fn lemma_ids_at_nonempty(s: Seq<u8>, i: int, to: int)
    requires
        0 <= i <= to <= s.len(),
    ensures
        ids_at(s, i, to).len() >= 1,
{
    lemma_find_byte(s, i, to, DOT);
}

/// Unfolding a rendered identifier list at its head.
proof fn lemma_render_ids_cons(x: IdView, rest: Seq<IdView>)
    requires
        rest.len() > 0,
    ensures
        render_ids(seq![x] + rest) == render_id(x) + seq![DOT] + render_ids(rest),
    decreases rest.len(),
{
    let ids = seq![x] + rest;
    if rest.len() == 1 {
        assert(ids.drop_last() =~= seq![x]);
        assert(render_ids(seq![x]) == render_id(x));
        assert(ids.last() == rest[0]);
        assert(render_ids(rest) == render_id(rest[0]));
    } else {
        assert(ids.drop_last() =~= seq![x] + rest.drop_last());
        lemma_render_ids_cons(x, rest.drop_last());
        assert(ids.last() == rest.last());
        assert(render_ids(ids) == render_id(x) + seq![DOT] + render_ids(rest.drop_last())
            + seq![DOT] + render_id(rest.last())) by {
            assert((render_id(x) + seq![DOT] + render_ids(rest.drop_last())) + seq![DOT]
                + render_id(rest.last()) =~= render_id(x) + seq![DOT] + render_ids(
                rest.drop_last(),
            ) + seq![DOT] + render_id(rest.last()));
        }
        assert(render_ids(rest) == render_ids(rest.drop_last()) + seq![DOT] + render_id(
            rest.last(),
        ));
        assert(render_id(x) + seq![DOT] + (render_ids(rest.drop_last()) + seq![DOT] + render_id(
            rest.last(),
        )) =~= render_id(x) + seq![DOT] + render_ids(rest.drop_last()) + seq![DOT] + render_id(
            rest.last(),
        ));
    }
}

/// Printing a well-formed identifier list reproduces its bytes.
proof fn lemma_render_ids_inverse(s: Seq<u8>, i: int, to: int, pre: bool)
    requires
        0 <= i <= to <= s.len(),
        valid_ids_in(s, i, to, pre),
    ensures
        render_ids(ids_at(s, i, to)) == s.subrange(i, to),
    decreases to - i,
{
    lemma_find_byte(s, i, to, DOT);
    let d = find_byte(s, i, to, DOT);
    if d < i || d >= to {
        lemma_render_id_inverse(s, i, to, pre);
    } else {
        lemma_render_id_inverse(s, i, d, pre);
        lemma_render_ids_inverse(s, d + 1, to, pre);
        lemma_ids_at_nonempty(s, d + 1, to);
        lemma_render_ids_cons(version_id_at(s, i, d), ids_at(s, d + 1, to));
        assert(s[d] == DOT);
        assert(s.subrange(i, d) + seq![DOT] + s.subrange(d + 1, to) =~= s.subrange(i, to));
    }
}

/// Printing a parsed version string reproduces it byte for byte.
pub proof fn lemma_render_parse_inverse(s: Seq<u8>)
    requires
        valid_semver(s),
    ensures
        render_version(spec_parse_version(s)) == s,
{
    let n = s.len() as int;
    let d1 = find_byte(s, 0, n, DOT);
    lemma_find_byte(s, 0, n, DOT);
    let d2 = find_byte(s, d1 + 1, n, DOT);
    lemma_find_byte(s, d1 + 1, n, DOT);
    let ce = find_two(s, d2 + 1, n, DASH, PLUS);
    lemma_find_two(s, d2 + 1, n, DASH, PLUS);
    let v = spec_parse_version(s);
    lemma_dec_value_nonneg(s, 0, d1);
    lemma_dec_value_nonneg(s, d1 + 1, d2);
    lemma_dec_value_nonneg(s, d2 + 1, ce);
    lemma_dec_digits_inverse(s, 0, d1);
    lemma_dec_digits_inverse(s, d1 + 1, d2);
    lemma_dec_digits_inverse(s, d2 + 1, ce);
    let a = s.subrange(0, d1);
    let b = s.subrange(d1 + 1, d2);
    let c = s.subrange(d2 + 1, ce);
    if ce >= n {
        assert(v.pre.len() == 0 && v.build.len() == 0);
        assert(a + seq![DOT] + b + seq![DOT] + c + Seq::<u8>::empty() + Seq::<u8>::empty() =~= s);
    } else if s[ce] == DASH {
        let bp = find_byte(s, ce + 1, n, PLUS);
        lemma_find_byte(s, ce + 1, n, PLUS);
        lemma_render_ids_inverse(s, ce + 1, bp, true);
        lemma_ids_at_nonempty(s, ce + 1, bp);
        if bp < n {
            lemma_render_ids_inverse(s, bp + 1, n, false);
            lemma_ids_at_nonempty(s, bp + 1, n);
            assert(a + seq![DOT] + b + seq![DOT] + c + (seq![DASH] + s.subrange(ce + 1, bp)) + (
            seq![PLUS] + s.subrange(bp + 1, n)) =~= s);
        } else {
            assert(v.build.len() == 0);
            assert(a + seq![DOT] + b + seq![DOT] + c + (seq![DASH] + s.subrange(ce + 1, bp))
                + Seq::<u8>::empty() =~= s);
        }
    } else {
        assert(v.pre.len() == 0);
        lemma_render_ids_inverse(s, ce + 1, n, false);
        lemma_ids_at_nonempty(s, ce + 1, n);
        assert(a + seq![DOT] + b + seq![DOT] + c + Seq::<u8>::empty() + (seq![PLUS] + s.subrange(
            ce + 1,
            n,
        )) =~= s);
    }
}

// ---------------------------------------------------------------------------
// What a version prints as
// ---------------------------------------------------------------------------
/// The bytes a version string consists of: identifier bytes, dots and
/// pluses.
pub open spec fn is_version_byte(b: u8) -> bool {
    is_ident_byte(b) || b == DOT || b == PLUS
}

pub proof fn lemma_dec_digits_bytes(n: nat)
    ensures
        dec_digits(n).len() > 0,
        forall|j: int| 0 <= j < dec_digits(n).len() ==> is_digit(#[trigger] dec_digits(n)[j]),
    decreases n,
{
    if n >= 10 {
        lemma_dec_digits_bytes(n / 10);
        assert forall|j: int| 0 <= j < dec_digits(n).len() implies is_digit(
            #[trigger] dec_digits(n)[j],
        ) by {
            if j < dec_digits(n / 10).len() {
                assert(dec_digits(n)[j] == dec_digits(n / 10)[j]);
            } else {
                assert(dec_digits(n)[j] == (DIGIT_ZERO + n % 10) as u8);
            }
        }
    }
}

/// Joining byte ranges keeps the byte class.
proof fn lemma_cat_version_bytes(x: Seq<u8>, y: Seq<u8>)
    requires
        forall|j: int| 0 <= j < x.len() ==> is_version_byte(#[trigger] x[j]),
        forall|j: int| 0 <= j < y.len() ==> is_version_byte(#[trigger] y[j]),
    ensures
        forall|j: int| 0 <= j < (x + y).len() ==> is_version_byte(#[trigger] (x + y)[j]),
{
    assert forall|j: int| 0 <= j < (x + y).len() implies is_version_byte(
        #[trigger] (x + y)[j],
    ) by {
        if j < x.len() {
            assert((x + y)[j] == x[j]);
        } else {
            assert((x + y)[j] == y[j - x.len()]);
        }
    }
}

proof fn lemma_render_id_bytes(id: IdView)
    requires
        id_wf(id),
    ensures
        forall|j: int| 0 <= j < render_id(id).len() ==> is_version_byte(#[trigger] render_id(id)[j]),
{
    match id {
        IdView::Numeric(x) => {
            lemma_dec_digits_bytes(x as nat);
        },
        IdView::AlphaNumeric(_) => {},
    }
}

proof fn lemma_render_ids_bytes(ids: Seq<IdView>)
    requires
        ids_wf(ids),
    ensures
        forall|j: int| 0 <= j < render_ids(ids).len() ==> is_version_byte(
            #[trigger] render_ids(ids)[j],
        ),
    decreases ids.len(),
{
    if ids.len() == 1 {
        assert(id_wf(ids[0]));
        lemma_render_id_bytes(ids[0]);
    } else if ids.len() > 1 {
        assert(ids_wf(ids.drop_last())) by {
            assert(forall|k: int| 0 <= k < ids.drop_last().len() ==> #[trigger] ids.drop_last()[k]
                == ids[k]);
        }
        lemma_render_ids_bytes(ids.drop_last());
        assert(id_wf(ids.last()));
        lemma_render_id_bytes(ids.last());
        lemma_cat_version_bytes(render_ids(ids.drop_last()), seq![DOT]);
        lemma_cat_version_bytes(render_ids(ids.drop_last()) + seq![DOT], render_id(ids.last()));
    }
}

/// A well-formed version prints as version bytes alone: nothing in it
/// can end a line or a quoted string.
pub proof fn lemma_render_version_bytes(v: VersionView)
    requires
        version_wf(v),
    ensures
        forall|j: int| 0 <= j < render_version(v).len() ==> is_version_byte(
            #[trigger] render_version(v)[j],
        ),
{
    lemma_dec_digits_bytes(v.major as nat);
    lemma_dec_digits_bytes(v.minor as nat);
    lemma_dec_digits_bytes(v.patch as nat);
    lemma_render_ids_bytes(v.pre);
    lemma_render_ids_bytes(v.build);
    let a = dec_digits(v.major as nat);
    let b = dec_digits(v.minor as nat);
    let c = dec_digits(v.patch as nat);
    let p = if v.pre.len() > 0 {
        seq![DASH] + render_ids(v.pre)
    } else {
        Seq::<u8>::empty()
    };
    let w = if v.build.len() > 0 {
        seq![PLUS] + render_ids(v.build)
    } else {
        Seq::<u8>::empty()
    };
    if v.pre.len() > 0 {
        lemma_cat_version_bytes(seq![DASH], render_ids(v.pre));
    }
    if v.build.len() > 0 {
        lemma_cat_version_bytes(seq![PLUS], render_ids(v.build));
    }
    lemma_cat_version_bytes(a, seq![DOT]);
    lemma_cat_version_bytes(a + seq![DOT], b);
    lemma_cat_version_bytes(a + seq![DOT] + b, seq![DOT]);
    lemma_cat_version_bytes(a + seq![DOT] + b + seq![DOT], c);
    lemma_cat_version_bytes(a + seq![DOT] + b + seq![DOT] + c, p);
    lemma_cat_version_bytes(a + seq![DOT] + b + seq![DOT] + c + p, w);
}

/// Every identifier read out of a well-formed identifier list is well
/// formed.
pub proof fn lemma_ids_at_wf(s: Seq<u8>, i: int, to: int, pre: bool)
    requires
        0 <= i <= to <= s.len(),
        valid_ids_in(s, i, to, pre),
    ensures
        ids_wf(ids_at(s, i, to)),
    decreases to - i,
{
    lemma_find_byte(s, i, to, DOT);
    let d = find_byte(s, i, to, DOT);
    if d < i || d >= to {
        assert(id_wf(version_id_at(s, i, to))) by {
            if !valid_number_in(s, i, to) {
                assert(forall|j: int| 0 <= j < s.subrange(i, to).len() ==> is_ident_byte(
                    #[trigger] s.subrange(i, to)[j],
                ));
            }
        }
        assert(ids_wf(seq![version_id_at(s, i, to)]));
    } else {
        assert(id_wf(version_id_at(s, i, d))) by {
            if !valid_number_in(s, i, d) {
                assert(forall|j: int| 0 <= j < s.subrange(i, d).len() ==> is_ident_byte(
                    #[trigger] s.subrange(i, d)[j],
                ));
            }
        }
        lemma_ids_at_wf(s, d + 1, to, pre);
        assert forall|k: int| 0 <= k < ids_at(s, i, to).len() implies id_wf(
            #[trigger] ids_at(s, i, to)[k],
        ) by {
            if k == 0 {
                assert(ids_at(s, i, to)[0] == version_id_at(s, i, d));
            } else {
                assert(ids_at(s, i, to)[k] == ids_at(s, d + 1, to)[k - 1]);
            }
        }
    }
}

/// Parsing a well-formed version string yields a well-formed value.
pub proof fn lemma_parse_version_wf(s: Seq<u8>)
    requires
        valid_semver(s),
    ensures
        version_wf(spec_parse_version(s)),
{
    let n = s.len() as int;
    let d1 = find_byte(s, 0, n, DOT);
    lemma_find_byte(s, 0, n, DOT);
    let d2 = find_byte(s, d1 + 1, n, DOT);
    lemma_find_byte(s, d1 + 1, n, DOT);
    let ce = find_two(s, d2 + 1, n, DASH, PLUS);
    lemma_find_two(s, d2 + 1, n, DASH, PLUS);
    if ce < n && s[ce] == DASH {
        let bp = find_byte(s, ce + 1, n, PLUS);
        lemma_find_byte(s, ce + 1, n, PLUS);
        lemma_ids_at_wf(s, ce + 1, bp, true);
        if bp < n {
            lemma_ids_at_wf(s, bp + 1, n, false);
        }
    } else if ce < n {
        lemma_ids_at_wf(s, ce + 1, n, false);
    }
}

// ---------------------------------------------------------------------------
// Applying a modifier
// ---------------------------------------------------------------------------
/// Applies a modification rule to a version in place.
pub fn update_version(version: &mut Version, by: VersionModifier)
    ensures
        final(version)@ == spec_apply(old(version)@, by@),
{
    let VersionModifier { mod_type, build_metadata, pre_release } = by;
    match mod_type {
        ModifierType::Replace(v) => {
            *version = v;
        },
        ModifierType::Major => {
            version.major = if version.major == u64::MAX {
                u64::MAX
            } else {
                version.major + 1
            };
            version.minor = 0;
            version.patch = 0;
            version.pre = Vec::new();
            proof {
                assert(ids_view(Seq::<Identifier>::empty()) =~= Seq::<IdView>::empty());
            }
        },
        ModifierType::Minor => {
            version.minor = if version.minor == u64::MAX {
                u64::MAX
            } else {
                version.minor + 1
            };
            version.patch = 0;
        },
        ModifierType::Patch => {
            version.patch = if version.patch == u64::MAX {
                u64::MAX
            } else {
                version.patch + 1
            };
        },
    }
    match pre_release {
        Some(ids) => {
            version.pre = ids;
        },
        None => {},
    }
    match build_metadata {
        Some(ids) => {
            version.build = ids;
        },
        None => {},
    }
}

// ---------------------------------------------------------------------------
// Laws of rule application
// ---------------------------------------------------------------------------
/// Applying the bare patch rule twice advances patch by two saturating
/// steps and touches nothing else; short of saturation the result differs
/// from a single application.
pub proof fn lemma_patch_then_patch(v: VersionView, m: ModView)
    requires
        m.mod_type is Patch,
        m.pre_release is None,
        m.build_metadata is None,
    ensures
        spec_apply(spec_apply(v, m), m).patch == sat_inc(sat_inc(v.patch)),
        spec_apply(spec_apply(v, m), m).major == v.major,
        spec_apply(spec_apply(v, m), m).minor == v.minor,
        spec_apply(spec_apply(v, m), m).pre == v.pre,
        spec_apply(spec_apply(v, m), m).build == v.build,
        v.patch + 2 <= u64::MAX ==> spec_apply(spec_apply(v, m), m).patch == v.patch + 2,
        v.patch + 2 <= u64::MAX ==> spec_apply(spec_apply(v, m), m) != spec_apply(v, m),
{
}

/// A major bump always resets minor and patch to 0 and clears the
/// pre-release list (unless a side channel then overwrites it).
pub proof fn lemma_major_resets(v: VersionView, m: ModView)
    requires
        m.mod_type is Major,
    ensures
        spec_apply(v, m).major == sat_inc(v.major),
        spec_apply(v, m).minor == 0,
        spec_apply(v, m).patch == 0,
        m.pre_release is None ==> spec_apply(v, m).pre == Seq::<IdView>::empty(),
{
}

/// A minor bump always resets patch to 0 and leaves major, pre-release
/// and build untouched.
pub proof fn lemma_minor_resets(v: VersionView, m: ModView)
    requires
        m.mod_type is Minor,
        m.pre_release is None,
        m.build_metadata is None,
    ensures
        spec_apply(v, m).major == v.major,
        spec_apply(v, m).minor == sat_inc(v.minor),
        spec_apply(v, m).patch == 0,
        spec_apply(v, m).pre == v.pre,
        spec_apply(v, m).build == v.build,
{
}

/// A bare patch bump changes the patch component alone.
pub proof fn lemma_patch_changes_only_patch(v: VersionView, m: ModView)
    requires
        m.mod_type is Patch,
        m.pre_release is None,
        m.build_metadata is None,
    ensures
        spec_apply(v, m).major == v.major,
        spec_apply(v, m).minor == v.minor,
        spec_apply(v, m).patch == sat_inc(v.patch),
        spec_apply(v, m).pre == v.pre,
        spec_apply(v, m).build == v.build,
{
}

/// A replacement ignores the prior version entirely: before the side
/// channels are attached the result is the replacement itself, whatever
/// the current version was.
pub proof fn lemma_replace_ignores_current(v: VersionView, w: VersionView, m: ModView)
    requires
        m.mod_type == ModTypeView::Replace(w),
    ensures
        crate::config::apply_primary(v, m.mod_type) == w,
        m.pre_release is None && m.build_metadata is None ==> spec_apply(v, m) == w,
{
}

/// The side channels compose with every primary rule: whenever one is
/// present, the corresponding list of the result is exactly its value.
pub proof fn lemma_side_channels(v: VersionView, m: ModView)
    ensures
        m.pre_release matches Some(ids) ==> spec_apply(v, m).pre == ids,
        m.build_metadata matches Some(ids) ==> spec_apply(v, m).build == ids,
{
}

} // verus!
