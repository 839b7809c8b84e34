//! Modification rules: which part of a version to bump (or a replacement
//! version), plus optional pre-release and build-metadata side channels
//! that are attached after the primary rule, whatever it was.

use vstd::prelude::*;

verus! {

use crate::ascii::{LOWER_A, LOWER_C, LOWER_H, LOWER_I, LOWER_J, LOWER_M, LOWER_N, LOWER_O, LOWER_P,
    LOWER_R, LOWER_T, DOT};
use crate::error::ErrorKind;
use crate::scan::{find_byte, lemma_find_byte, seek_byte, bytes_eq};
use crate::version::{Version, VersionView, Identifier, IdView, ids_view, all_digits_in,
    dec_value_in, valid_semver, spec_parse_version, parse_version, parse_digits, version_wf,
    check_version, check_ids, ids_wf};

// ---------------------------------------------------------------------------
// The primary rule
// ---------------------------------------------------------------------------
/// The primary modification: bump one component or replace the version.
#[derive(Debug)]
pub enum ModifierType {
    Replace(Version),
    Major,
    Minor,
    Patch,
}

/// The value of a primary modification.
pub ghost enum ModTypeView {
    Replace(VersionView),
    Major,
    Minor,
    Patch,
}

impl View for ModifierType {
    type V = ModTypeView;

    open spec fn view(&self) -> ModTypeView {
        match self {
            ModifierType::Replace(v) => ModTypeView::Replace(v@),
            ModifierType::Major => ModTypeView::Major,
            ModifierType::Minor => ModTypeView::Minor,
            ModifierType::Patch => ModTypeView::Patch,
        }
    }
}

pub open spec fn spec_word_major() -> Seq<u8> {
    seq![LOWER_M, LOWER_A, LOWER_J, LOWER_O, LOWER_R]
}

pub open spec fn spec_word_minor() -> Seq<u8> {
    seq![LOWER_M, LOWER_I, LOWER_N, LOWER_O, LOWER_R]
}

pub open spec fn spec_word_patch() -> Seq<u8> {
    seq![LOWER_P, LOWER_A, LOWER_T, LOWER_C, LOWER_H]
}

fn word_major() -> (v: Vec<u8>)
    ensures
        v@ == spec_word_major(),
{
    let mut v: Vec<u8> = Vec::new();
    v.push(LOWER_M);
    v.push(LOWER_A);
    v.push(LOWER_J);
    v.push(LOWER_O);
    v.push(LOWER_R);
    proof {
        assert(v@ =~= spec_word_major());
    }
    v
}

fn word_minor() -> (v: Vec<u8>)
    ensures
        v@ == spec_word_minor(),
{
    let mut v: Vec<u8> = Vec::new();
    v.push(LOWER_M);
    v.push(LOWER_I);
    v.push(LOWER_N);
    v.push(LOWER_O);
    v.push(LOWER_R);
    proof {
        assert(v@ =~= spec_word_minor());
    }
    v
}

fn word_patch() -> (v: Vec<u8>)
    ensures
        v@ == spec_word_patch(),
{
    let mut v: Vec<u8> = Vec::new();
    v.push(LOWER_P);
    v.push(LOWER_A);
    v.push(LOWER_T);
    v.push(LOWER_C);
    v.push(LOWER_H);
    proof {
        assert(v@ =~= spec_word_patch());
    }
    v
}

/// The rules a rule word or version string denotes.
pub open spec fn spec_rule_of(s: Seq<u8>) -> ModTypeView {
    if s == spec_word_major() {
        ModTypeView::Major
    } else if s == spec_word_minor() {
        ModTypeView::Minor
    } else if s == spec_word_patch() {
        ModTypeView::Patch
    } else {
        ModTypeView::Replace(spec_parse_version(s))
    }
}

/// The inputs that denote a rule: a bump word or a version string.
pub open spec fn valid_rule(s: Seq<u8>) -> bool {
    s == spec_word_major() || s == spec_word_minor() || s == spec_word_patch() || valid_semver(s)
}

impl ModifierType {
    /// Reads a rule from user input: one of the bump words, or a
    /// replacement version.  Fails with `InvalidRuleError` exactly when
    /// the input is neither.
    pub fn from_str(input: &[u8]) -> (r: Result<ModifierType, ErrorKind>)
        ensures
            r is Ok <==> valid_rule(input@),
            r matches Ok(m) ==> m@ == spec_rule_of(input@),
            r matches Err(e) ==> e == ErrorKind::InvalidRuleError,
    {
        let major = word_major();
        if bytes_eq(input, major.as_slice()) {
            return Ok(ModifierType::Major);
        }
        let minor = word_minor();
        if bytes_eq(input, minor.as_slice()) {
            return Ok(ModifierType::Minor);
        }
        let patch = word_patch();
        if bytes_eq(input, patch.as_slice()) {
            return Ok(ModifierType::Patch);
        }
        match parse_version(input) {
            Ok(v) => Ok(ModifierType::Replace(v)),
            Err(_) => Err(ErrorKind::InvalidRuleError),
        }
    }
}

// ---------------------------------------------------------------------------
// Identifier lists given on the command line
// ---------------------------------------------------------------------------
/// How a command-line identifier reads: numeric whenever its digits fit a
/// `u64` (leading zeros are dropped), alphanumeric otherwise.
pub open spec fn cli_id_at(s: Seq<u8>, i: int, to: int) -> IdView {
    if i < to && all_digits_in(s, i, to) && dec_value_in(s, i, to) <= u64::MAX {
        IdView::Numeric(dec_value_in(s, i, to) as u64)
    } else {
        IdView::AlphaNumeric(s.subrange(i, to))
    }
}

/// The identifiers in the dot-separated list `s[i..to]`.
pub open spec fn cli_ids_at(s: Seq<u8>, i: int, to: int) -> Seq<IdView>
    decreases to - i,
    when i <= to
{
    let d = find_byte(s, i, to, DOT);
    if d < i || d >= to {
        seq![cli_id_at(s, i, to)]
    } else {
        seq![cli_id_at(s, i, d)] + cli_ids_at(s, d + 1, to)
    }
}

/// Reads one command-line identifier from `s[i..to]`.
fn cli_one_id(s: &[u8], i: usize, to: usize) -> (id: Identifier)
    requires
        i <= to <= s@.len(),
    ensures
        id@ == cli_id_at(s@, i as int, to as int),
{
    match parse_digits(s, i, to) {
        Some(n) => Identifier::Numeric(n),
        None => {
            let sub = vstd::slice::slice_subrange(s, i, to);
            Identifier::AlphaNumeric(vstd::slice::slice_to_vec(sub))
        },
    }
}

/// Reads the identifier list in `s[i..to]`, appending to `out`.
fn push_cli_ids(s: &[u8], i: usize, to: usize, out: &mut Vec<Identifier>)
    requires
        i <= to <= s@.len(),
    ensures
        ids_view(final(out)@) == ids_view(old(out)@) + cli_ids_at(s@, i as int, to as int),
    decreases to - i,
{
    let d = seek_byte(s, i, to, DOT);
    proof {
        lemma_find_byte(s@, i as int, to as int, DOT);
    }
    if d == to {
        let ghost prev = out@;
        let id = cli_one_id(s, i, to);
        out.push(id);
        proof {
            assert(ids_view(out@) =~= ids_view(prev) + cli_ids_at(s@, i as int, to as int));
        }
    } else {
        let ghost prev = out@;
        let id = cli_one_id(s, i, d);
        out.push(id);
        proof {
            assert(ids_view(out@) =~= ids_view(prev) + seq![cli_id_at(s@, i as int, d as int)]);
        }
        push_cli_ids(s, d + 1, to, out);
        proof {
            assert(ids_view(out@) =~= ids_view(prev) + cli_ids_at(s@, i as int, to as int));
        }
    }
}

/// Splits a command-line value on dots into identifiers, the way the
/// version field's pre-release and build lists are written.
pub fn parse_identifiers(value: &[u8]) -> (r: Vec<Identifier>)
    ensures
        ids_view(r@) == cli_ids_at(value@, 0, value@.len() as int),
{
    let mut out: Vec<Identifier> = Vec::new();
    push_cli_ids(value, 0, value.len(), &mut out);
    proof {
        assert(ids_view(Seq::<Identifier>::empty()) =~= Seq::<IdView>::empty());
    }
    out
}

// ---------------------------------------------------------------------------
// The whole modifier
// ---------------------------------------------------------------------------
/// A primary rule together with the optional side channels.
#[derive(Debug)]
pub struct VersionModifier {
    pub mod_type: ModifierType,
    pub build_metadata: Option<Vec<Identifier>>,
    pub pre_release: Option<Vec<Identifier>>,
}

/// The value of a modifier.
pub ghost struct ModView {
    pub mod_type: ModTypeView,
    pub build_metadata: Option<Seq<IdView>>,
    pub pre_release: Option<Seq<IdView>>,
}

impl View for VersionModifier {
    type V = ModView;

    open spec fn view(&self) -> ModView {
        ModView {
            mod_type: self.mod_type@,
            build_metadata: match self.build_metadata {
                Some(l) => Some(ids_view(l@)),
                None => None,
            },
            pre_release: match self.pre_release {
                Some(l) => Some(ids_view(l@)),
                None => None,
            },
        }
    }
}

impl VersionModifier {
    /// Builds a modifier from a primary rule and raw side-channel values.
    pub fn new(mod_type: ModifierType, pre_release: Option<&[u8]>, build_metadata: Option<&[u8]>)
        -> (m: VersionModifier)
        ensures
            m@.mod_type == mod_type@,
            m@.pre_release == (match pre_release {
                Some(s) => Some(cli_ids_at(s@, 0, s@.len() as int)),
                None => None::<Seq<IdView>>,
            }),
            m@.build_metadata == (match build_metadata {
                Some(s) => Some(cli_ids_at(s@, 0, s@.len() as int)),
                None => None::<Seq<IdView>>,
            }),
    {
        let pre = match pre_release {
            Some(s) => Some(parse_identifiers(s)),
            None => None,
        };
        let build = match build_metadata {
            Some(s) => Some(parse_identifiers(s)),
            None => None,
        };
        VersionModifier { mod_type, build_metadata: build, pre_release: pre }
    }

    /// A modifier with no side channels.
    pub fn from_mod_type(mod_type: ModifierType) -> (m: VersionModifier)
        ensures
            m@.mod_type == mod_type@,
            m@.pre_release is None,
            m@.build_metadata is None,
    {
        VersionModifier { mod_type, build_metadata: None, pre_release: None }
    }
}

// ---------------------------------------------------------------------------
// Applying a modifier
// ---------------------------------------------------------------------------
/// Adds one, stopping at the largest representable component.
pub open spec fn sat_inc(x: u64) -> u64 {
    if x == u64::MAX {
        x
    } else {
        (x + 1) as u64
    }
}

/// What the primary rule does: a major bump resets minor and patch and
/// clears the pre-release list; a minor bump resets patch; a patch bump
/// changes patch alone; a replacement discards the current version.
pub open spec fn apply_primary(v: VersionView, t: ModTypeView) -> VersionView {
    match t {
        ModTypeView::Replace(w) => w,
        ModTypeView::Major => VersionView {
            major: sat_inc(v.major),
            minor: 0,
            patch: 0,
            pre: Seq::empty(),
            build: v.build,
        },
        ModTypeView::Minor => VersionView {
            major: v.major,
            minor: sat_inc(v.minor),
            patch: 0,
            pre: v.pre,
            build: v.build,
        },
        ModTypeView::Patch => VersionView {
            major: v.major,
            minor: v.minor,
            patch: sat_inc(v.patch),
            pre: v.pre,
            build: v.build,
        },
    }
}

/// What a whole modifier does: the primary rule, then each side channel
/// that is present overwrites the corresponding identifier list.
pub open spec fn spec_apply(v: VersionView, m: ModView) -> VersionView {
    let w = apply_primary(v, m.mod_type);
    VersionView {
        major: w.major,
        minor: w.minor,
        patch: w.patch,
        pre: match m.pre_release {
            Some(ids) => ids,
            None => w.pre,
        },
        build: match m.build_metadata {
            Some(ids) => ids,
            None => w.build,
        },
    }
}

/// A modifier whose identifiers could all appear in a version string.
pub open spec fn modifier_wf(m: ModView) -> bool {
    &&& (m.mod_type matches ModTypeView::Replace(v) ==> version_wf(v))
    &&& (m.pre_release matches Some(ids) ==> ids_wf(ids))
    &&& (m.build_metadata matches Some(ids) ==> ids_wf(ids))
}

/// Applying a well-formed modifier to a well-formed version yields a
/// well-formed version.
pub proof fn lemma_apply_preserves_wf(v: VersionView, m: ModView)
    requires
        version_wf(v),
        modifier_wf(m),
    ensures
        version_wf(spec_apply(v, m)),
{
    assert(ids_wf(Seq::<IdView>::empty()));
}

/// Checks that a modifier's identifiers are all well formed.
pub fn modifier_ok(m: &VersionModifier) -> (r: bool)
    ensures
        r == modifier_wf(m@),
{
    let primary_ok = match &m.mod_type {
        ModifierType::Replace(v) => check_version(v),
        _ => true,
    };
    if !primary_ok {
        return false;
    }
    match &m.pre_release {
        Some(l) => {
            if !check_ids(l) {
                return false;
            }
        },
        None => {},
    }
    match &m.build_metadata {
        Some(l) => {
            if !check_ids(l) {
                return false;
            }
        },
        None => {},
    }
    true
}

} // verus!
