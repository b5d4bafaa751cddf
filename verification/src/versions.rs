//! Semantic versions and version requirements, as the `semver` crate reads them.
//!
//! Parsed values are carried as their canonical display text; the grammar and
//! the matching rules stay with `semver` and are named, not restated.

use vstd::prelude::*;

verus! {

/// What `semver::VersionReq::parse` makes of `text`: the parsed requirement's
/// display text, or the display text of the parse error.
pub uninterp spec fn semver_requirement(text: Seq<char>) -> Result<Seq<char>, Seq<char>>;

/// Parses a version requirement with `semver::VersionReq::parse`.
///
/// Trusted: the result is `semver`'s own verdict on `text`, carried as the
/// `Display` text of the parsed requirement or of the error.
#[verifier::external_body]
pub(crate) fn parse_requirement(text: &str) -> (r: Result<String, String>)
    ensures
        match r {
            Ok(requirement) => semver_requirement(text@) == Ok::<Seq<char>, Seq<char>>(requirement@),
            Err(error) => semver_requirement(text@) == Err::<Seq<char>, Seq<char>>(error@),
        },
{
    match semver::VersionReq::parse(text) {
        Ok(requirement) => Ok(requirement.to_string()),
        Err(error) => Err(error.to_string()),
    }
}

/// What `semver::Version::parse` makes of `text`: the display text of the
/// parsed version, or nothing when `text` is not a version.
pub uninterp spec fn semver_version(text: Seq<char>) -> Option<Seq<char>>;

/// Parses a semantic version with `semver::Version::parse`.
///
/// Trusted: the result is `semver`'s own verdict on `text`, carried as the
/// `Display` text of the parsed version.
#[verifier::external_body]
pub(crate) fn parse_version(text: &str) -> (r: Option<String>)
    ensures
        match r {
            Some(version) => semver_version(text@) == Some(version@),
            None => semver_version(text@) is None,
        },
{
    semver::Version::parse(text).ok().map(|version| version.to_string())
}

/// Whether `semver` finds the version written `version` to satisfy the
/// requirement written `requirement`.
pub uninterp spec fn semver_matches(requirement: Seq<char>, version: Seq<char>) -> bool;

/// Evaluates a requirement against a version with `semver::VersionReq::matches`.
///
/// Trusted: both texts are parsed with `semver` (which succeeds for them, as
/// the precondition states), and the result is `semver`'s verdict.
#[verifier::external_body]
pub(crate) fn requirement_matches(requirement: &str, version: &str) -> (r: bool)
    requires
        semver_requirement(requirement@) is Ok,
        semver_version(version@) is Some,
    ensures
        r == semver_matches(requirement@, version@),
{
    match (semver::VersionReq::parse(requirement), semver::Version::parse(version)) {
        (Ok(requirement), Ok(version)) => requirement.matches(&version),
        _ => false,
    }
}

} // verus!
