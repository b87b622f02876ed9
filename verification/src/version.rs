//! Version requirements, checked with the `semver` crate.
//!
//! The library never takes a version text apart itself: whether a text is a
//! valid version or requirement, and whether a version satisfies a
//! requirement, is what `semver` answers. The answers are named here, as
//! functions of the texts alone, and the three wrappers below are the only
//! places where `semver` is called.

use vstd::prelude::*;

verus! {

/// What `semver::VersionReq::parse` makes of `text`: `None` when it accepts
/// the text, otherwise the message its error displays.
pub uninterp spec fn version_req_parse_error(text: Seq<char>) -> Option<Seq<char>>;

/// What `semver::Version::parse` makes of `text`: `None` when it accepts the
/// text, otherwise the message its error displays.
pub uninterp spec fn version_parse_error(text: Seq<char>) -> Option<Seq<char>>;

/// Whether `semver::VersionReq::matches` holds of the requirement parsed from
/// `req` and the version parsed from `version`.
pub uninterp spec fn version_req_matches(req: Seq<char>, version: Seq<char>) -> bool;

/// Checking a received version against a requirement, as dependency
/// resolution does it: the requirement is parsed first, then the version;
/// the first parse error is reported, and otherwise whether the version
/// satisfies the requirement.
pub open spec fn version_check(req: Seq<char>, version: Seq<char>) -> Result<bool, Seq<char>> {
    match version_req_parse_error(req) {
        Some(message) => Err(message),
        None => match version_parse_error(version) {
            Some(message) => Err(message),
            None => Ok(version_req_matches(req, version)),
        },
    }
}

/// Calls `semver::VersionReq::parse` on `text` and keeps only whether it
/// succeeded; a failure is reported with the message of semver's error.
/// Trusted: the result is `Ok` exactly when `version_req_parse_error` is
/// `None`, and an error carries that message.
#[verifier::external_body]
pub(crate) fn check_version_req(text: &str) -> (r: Result<(), String>)
    ensures
        match r {
            Ok(()) => version_req_parse_error(text@) is None,
            Err(message) => version_req_parse_error(text@) == Some(message@),
        },
{
    semver::VersionReq::parse(text).map(|_| ()).map_err(|e| e.to_string())
}

/// Calls `semver::Version::parse` on `text` and keeps only whether it
/// succeeded; a failure is reported with the message of semver's error.
/// Trusted: the result is `Ok` exactly when `version_parse_error` is `None`,
/// and an error carries that message.
#[verifier::external_body]
pub(crate) fn check_version(text: &str) -> (r: Result<(), String>)
    ensures
        match r {
            Ok(()) => version_parse_error(text@) is None,
            Err(message) => version_parse_error(text@) == Some(message@),
        },
{
    semver::Version::parse(text).map(|_| ()).map_err(|e| e.to_string())
}

/// Calls `semver::VersionReq::matches` on the requirement and the version
/// that semver parses from the two texts; both texts are known to parse.
/// Trusted: the result is `version_req_matches` of the two texts.
#[verifier::external_body]
pub(crate) fn matches_version_req(req: &str, version: &str) -> (b: bool)
    requires
        version_req_parse_error(req@) is None,
        version_parse_error(version@) is None,
    ensures
        b == version_req_matches(req@, version@),
{
    let req = semver::VersionReq::parse(req).expect("requirement was checked");
    let version = semver::Version::parse(version).expect("version was checked");
    req.matches(&version)
}

/// Checks `version` against the requirement `req`, as dependency resolution
/// does: a parse error of the requirement, then of the version, is reported
/// by its message; otherwise the answer is whether the version satisfies the
/// requirement.
pub fn check_version_against(req: &str, version: &str) -> (r: Result<bool, String>)
    ensures
        match r {
            Ok(b) => version_check(req@, version@) == Ok::<bool, Seq<char>>(b),
            Err(message) => version_check(req@, version@) == Err::<bool, Seq<char>>(message@),
        },
{
    match check_version_req(req) {
        Err(message) => return Err(message),
        Ok(()) => {},
    }
    match check_version(version) {
        Err(message) => return Err(message),
        Ok(()) => {},
    }
    Ok(matches_version_req(req, version))
}

} // verus!
