//! A verified engine for bumping the version field of a package manifest.
//!
//! The engine has two independent parts: semantic-version arithmetic
//! (parse a version, apply a bump or replacement rule, print it back) and
//! a format-preserving manifest rewrite (parse the document, replace the
//! one value token of `package.version`, keep every other byte).  The
//! driver around it — command-line handling, file access, version
//! control — stays outside.

use vstd::prelude::*;

mod ascii;
pub mod config;
pub mod error;
pub mod git;
pub mod manifest;
pub mod options;
pub mod scan;
pub mod version;

verus! {

use crate::ascii::{LOWER_P, LOWER_A, LOWER_C, LOWER_K, LOWER_G, LOWER_E, LOWER_V, LOWER_R, LOWER_S,
    LOWER_I, LOWER_O, LOWER_N};
use crate::config::{VersionModifier, ModView, ModTypeView, modifier_wf, modifier_ok, spec_apply,
    lemma_apply_preserves_wf};
use crate::error::ErrorKind;
use crate::manifest::{Manifest, FieldLookup, find_field, doc_ok, splice, is_inline_byte,
    lemma_set_field_preserves_document, lemma_set_same_value_round_trip};
use crate::version::{valid_semver, spec_parse_version, render_version, parse_version, render,
    update_version, is_version_byte, lemma_parse_version_wf, lemma_render_version_bytes,
    lemma_render_parse_inverse};

pub open spec fn spec_word_package() -> Seq<u8> {
    seq![LOWER_P, LOWER_A, LOWER_C, LOWER_K, LOWER_A, LOWER_G, LOWER_E]
}

pub open spec fn spec_word_version() -> Seq<u8> {
    seq![LOWER_V, LOWER_E, LOWER_R, LOWER_S, LOWER_I, LOWER_O, LOWER_N]
}

fn word_package() -> (v: Vec<u8>)
    ensures
        v@ == spec_word_package(),
{
    let mut v: Vec<u8> = Vec::new();
    v.push(LOWER_P);
    v.push(LOWER_A);
    v.push(LOWER_C);
    v.push(LOWER_K);
    v.push(LOWER_A);
    v.push(LOWER_G);
    v.push(LOWER_E);
    proof {
        assert(v@ =~= spec_word_package());
    }
    v
}

fn word_version() -> (v: Vec<u8>)
    ensures
        v@ == spec_word_version(),
{
    let mut v: Vec<u8> = Vec::new();
    v.push(LOWER_V);
    v.push(LOWER_E);
    v.push(LOWER_R);
    v.push(LOWER_S);
    v.push(LOWER_I);
    v.push(LOWER_O);
    v.push(LOWER_N);
    proof {
        assert(v@ =~= spec_word_version());
    }
    v
}

/// The outcome of a successful update: the rewritten manifest text and
/// the version string that was written into it.
pub struct UpdatedManifest {
    pub text: Vec<u8>,
    pub version: Vec<u8>,
}

/// What the new version field reads, given the old field's span and the
/// modifier.
pub open spec fn spec_updated_version(s: Seq<u8>, lo: int, hi: int, m: ModView) -> Seq<u8> {
    render_version(spec_apply(spec_parse_version(s.subrange(lo, hi)), m))
}

/// Rewrites the manifest text, applying `version_modifier` to the value
/// of `package.version`.  Exactly the value token changes; every other
/// byte of the document is kept.  Each failure reports its kind: text
/// that is not a well-formed document, an absent field, a field that is
/// not a string, a field that is not a version, and a modifier whose
/// identifiers could not appear in a version string, in that order.
pub fn update_toml_with_version(raw_data: &[u8], version_modifier: VersionModifier) -> (r: Result<
    UpdatedManifest,
    ErrorKind,
>)
    ensures
        r is Ok <==> (doc_ok(raw_data@) && (find_field(
            raw_data@,
            spec_word_package(),
            spec_word_version(),
        ) matches FieldLookup::Found(lo, hi) && valid_semver(raw_data@.subrange(lo, hi))
            && modifier_wf(version_modifier@))),
        !doc_ok(raw_data@) ==> (r matches Err(e) && e == ErrorKind::ParseError),
        doc_ok(raw_data@) && find_field(raw_data@, spec_word_package(), spec_word_version())
            is Missing ==> (r matches Err(e) && e == ErrorKind::MissingFieldError),
        doc_ok(raw_data@) && find_field(raw_data@, spec_word_package(), spec_word_version())
            is NotString ==> (r matches Err(e) && e == ErrorKind::TypeError),
        doc_ok(raw_data@) ==> (find_field(raw_data@, spec_word_package(), spec_word_version())
            matches FieldLookup::Found(lo, hi) ==> {
            &&& !valid_semver(raw_data@.subrange(lo, hi)) ==> (r matches Err(e) && e
                == ErrorKind::InvalidVersionError)
            &&& valid_semver(raw_data@.subrange(lo, hi)) && !modifier_wf(version_modifier@) ==> (
            r matches Err(e) && e == ErrorKind::InvalidRuleError)
            &&& valid_semver(raw_data@.subrange(lo, hi)) && modifier_wf(version_modifier@) ==> (
            r matches Ok(u) && u.version@ == spec_updated_version(
                raw_data@,
                lo,
                hi,
                version_modifier@,
            ) && u.text@ == raw_data@.subrange(0, lo) + u.version@ + raw_data@.subrange(
                hi,
                raw_data@.len() as int,
            ) && doc_ok(u.text@) && find_field(u.text@, spec_word_package(), spec_word_version())
                == FieldLookup::Found(lo, lo + u.version@.len()))
        }),
{
    let package = word_package();
    let version_key = word_version();
    let mut doc = match Manifest::parse(raw_data) {
        Ok(d) => d,
        Err(e) => {
            return Err(e);
        },
    };
    let current = match doc.get_field(package.as_slice(), version_key.as_slice()) {
        Ok(v) => v,
        Err(e) => {
            return Err(e);
        },
    };
    let mut ver = match parse_version(current.as_slice()) {
        Ok(v) => v,
        Err(e) => {
            return Err(e);
        },
    };
    if !modifier_ok(&version_modifier) {
        return Err(ErrorKind::InvalidRuleError);
    }
    let ghost modifier_view = version_modifier@;
    update_version(&mut ver, version_modifier);
    let new_bytes = render(&ver);
    match doc.set_field(package.as_slice(), version_key.as_slice(), new_bytes.as_slice()) {
        Ok(_) => {},
        Err(e) => {
            proof {
                assert(false);
            }
            return Err(e);
        },
    }
    let text = doc.serialize();
    proof {
        if let FieldLookup::Found(lo, hi) = find_field(
            raw_data@,
            spec_word_package(),
            spec_word_version(),
        ) {
            lemma_update_output_is_well_formed(raw_data@, modifier_view, lo, hi);
        }
    }
    Ok(UpdatedManifest { text, version: new_bytes })
}

/// A successful update leaves text that is again a well-formed manifest
/// document, and the version field of that text reads exactly the new
/// version string.
pub proof fn lemma_update_output_is_well_formed(s: Seq<u8>, m: ModView, lo: int, hi: int)
    requires
        doc_ok(s),
        find_field(s, spec_word_package(), spec_word_version()) == FieldLookup::Found(lo, hi),
        valid_semver(s.subrange(lo, hi)),
        modifier_wf(m),
    ensures
        ({
            let nv = spec_updated_version(s, lo, hi, m);
            let t = splice(s, lo, hi, nv);
            doc_ok(t) && find_field(t, spec_word_package(), spec_word_version())
                == FieldLookup::Found(lo, lo + nv.len())
        }),
{
    let content = s.subrange(lo, hi);
    let applied = spec_apply(spec_parse_version(content), m);
    let nv = spec_updated_version(s, lo, hi, m);
    lemma_parse_version_wf(content);
    lemma_apply_preserves_wf(spec_parse_version(content), m);
    lemma_render_version_bytes(applied);
    assert forall|j: int| 0 <= j < nv.len() implies is_inline_byte(#[trigger] nv[j]) by {
        assert(is_version_byte(nv[j]));
    }
    lemma_set_field_preserves_document(s, spec_word_package(), spec_word_version(), nv, lo, hi);
}

/// An update that replaces the version with the very version the
/// manifest already holds rewrites the text byte-identically: the
/// format-preserving round trip, end to end.
pub proof fn lemma_replace_same_version_is_identity(s: Seq<u8>, m: ModView, lo: int, hi: int)
    requires
        find_field(s, spec_word_package(), spec_word_version()) == FieldLookup::Found(lo, hi),
        valid_semver(s.subrange(lo, hi)),
        m.mod_type == ModTypeView::Replace(spec_parse_version(s.subrange(lo, hi))),
        m.pre_release is None,
        m.build_metadata is None,
    ensures
        splice(s, lo, hi, spec_updated_version(s, lo, hi, m)) == s,
{
    let content = s.subrange(lo, hi);
    assert(spec_apply(spec_parse_version(content), m) == spec_parse_version(content));
    lemma_render_parse_inverse(content);
    lemma_set_same_value_round_trip(s, spec_word_package(), spec_word_version());
}

} // verus!
