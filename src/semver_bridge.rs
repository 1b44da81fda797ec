use vstd::prelude::*;

verus! {

/// Whether `semver::VersionReq::parse` accepts the text.
pub uninterp spec fn semver_requirement_valid(text: Seq<char>) -> bool;

/// Whether the requirement that `semver::VersionReq::parse` reads from the
/// text admits the release `major.minor.patch` (no pre-release, no build).
pub uninterp spec fn semver_requirement_matches(text: Seq<char>, major: u64, minor: u64, patch: u64) -> bool;

/// Relies on `semver::VersionReq::parse` (which fails on text that is not a
/// version requirement), `semver::Version::new` and
/// `semver::VersionReq::matches`: answers whether the requirement admits the
/// release, or nothing when the text does not parse.
#[verifier::external_body]
pub(crate) fn requirement_admits(text: &str, major: u64, minor: u64, patch: u64) -> (r: Option<bool>)
    ensures
        r.is_some() == semver_requirement_valid(text@),
        r matches Some(b) ==> b == semver_requirement_matches(text@, major, minor, patch),
{
    match semver::VersionReq::parse(text) {
        Ok(req) => Some(req.matches(&semver::Version::new(major, minor, patch))),
        Err(_) => None,
    }
}

/// Whether `semver::Version::parse` accepts the text.
pub uninterp spec fn semver_version_valid(text: Seq<char>) -> bool;

/// How the version read from `a` compares with the one read from `b` under
/// semver precedence (`Ord` on `semver::Version`): -1, 0 or 1.
pub uninterp spec fn semver_version_order(a: Seq<char>, b: Seq<char>) -> int;

/// Relies on `semver::Version::parse` (which fails on text that is not a
/// version) and on `Ord` for `semver::Version`: compares `a` with `b`
/// (-1 less, 0 equal, 1 greater), or nothing when either does not parse.
#[verifier::external_body]
pub(crate) fn version_order(a: &str, b: &str) -> (r: Option<i8>)
    ensures
        r.is_some() == (semver_version_valid(a@) && semver_version_valid(b@)),
        r matches Some(o) ==> o as int == semver_version_order(a@, b@) && -1 <= o <= 1,
{
    match (semver::Version::parse(a), semver::Version::parse(b)) {
        (Ok(va), Ok(vb)) => match va.cmp(&vb) {
            std::cmp::Ordering::Less => Some(-1),
            std::cmp::Ordering::Equal => Some(0),
            std::cmp::Ordering::Greater => Some(1),
        },
        _ => None,
    }
}

} // verus!
