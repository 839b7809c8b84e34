//! The error kinds the engine can report.  Every failure is fatal for the
//! operation that met it: nothing is retried and no partial result is kept.

use vstd::prelude::*;

verus! {

/// The distinct ways an update can fail.
///
/// - `ParseError`: the manifest text is not a well-formed document.
/// - `MissingFieldError`: a segment of the requested field path is absent.
/// - `TypeError`: the field exists but its value is not a string.
/// - `InvalidVersionError`: the version field does not hold a valid
///   semantic version.
/// - `InvalidRuleError`: the user-supplied rule (a replacement version or a
///   pre-release/build identifier list) cannot be used.
#[derive(Clone, Copy, Debug, PartialEq, Eq, Structural)]
pub enum ErrorKind {
    ParseError,
    MissingFieldError,
    TypeError,
    InvalidVersionError,
    InvalidRuleError,
}

} // verus!
