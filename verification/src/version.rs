//! Semantic-version checking for header schema validation.
//!
//! The header schema requires `imag.version` to be a parseable semantic
//! version; the check itself is done by the `semver` crate.

use vstd::prelude::*;

verus! {

/// Whether a string parses as a semantic version.  The answer depends on the
/// characters alone.
pub uninterp spec fn semver_ok(s: Seq<char>) -> bool;

/// Relies on `semver::Version::parse`: whether a string is a valid semantic
/// version depends on its characters alone.
#[verifier::external_body]
pub fn is_valid_semver(s: &str) -> (r: bool)
    ensures
        r == semver_ok(s@),
{
    semver::Version::parse(s).is_ok()
}

} // verus!
