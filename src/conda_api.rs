//! Release information of packages and the outdated check.
use vstd::prelude::*;
use crate::constraint::same_text;
use crate::models::Package;
use crate::semver_bridge::{semver_version_order, semver_version_valid, version_order};
use crate::text::{count_char, count_chars, find_char, first_index_of, starts_with};

verus! {

/// What a package registry reports about a package.
#[derive(Clone, Debug)]
pub struct PackageInfo {
    /// Name of the package.
    pub name: String,
    /// Latest release.
    pub latest_version: String,
    /// Size in bytes of the latest release, if known.
    pub size: Option<u64>,
    /// Releases on offer.
    pub versions: Vec<String>,
}

/// A development version such as `0-dev`: no `+`, and a leading `0-`.
pub open spec fn is_dev_version(v: Seq<char>) -> bool {
    first_index_of(v, '+', 0) < 0 && v.len() >= 2 && v.subrange(0, 2) == "0-"@
}

/// A conda version without its build suffix: everything before the first
/// `+`, else before the first `-`.
pub open spec fn strip_build(v: Seq<char>) -> Seq<char> {
    let p = first_index_of(v, '+', 0);
    let m = first_index_of(v, '-', 0);
    if p >= 0 {
        v.subrange(0, p)
    } else if m >= 0 {
        v.subrange(0, m)
    } else {
        v
    }
}

/// A conda version brought to `major.minor.patch` shape: the build suffix
/// is dropped and missing minor and patch parts become `0`; a development
/// version is left as it is.
pub open spec fn spec_normalize_conda_version(v: Seq<char>) -> Seq<char> {
    let w = strip_build(v);
    let dots = count_char(w, '.');
    if is_dev_version(v) {
        v
    } else if dots == 0 {
        w + ".0.0"@
    } else if dots == 1 {
        w + ".0"@
    } else {
        w
    }
}

/// Whether `current` is older than `latest`: by semver precedence where
/// both normalised versions parse, else whenever the two texts differ.
pub open spec fn spec_version_outdated(current: Seq<char>, latest: Seq<char>) -> bool {
    let a = spec_normalize_conda_version(current);
    let b = spec_normalize_conda_version(latest);
    if semver_version_valid(a) && semver_version_valid(b) {
        semver_version_order(a, b) < 0
    } else {
        current != latest
    }
}

/// Brings a conda version to `major.minor.patch` shape.
pub fn normalize_conda_version(version: &str) -> (r: String)
    ensures
        r@ == spec_normalize_conda_version(version@),
{
    let plus = find_char(version, '+', 0);
    let zero_dash = starts_with(version, "0-");
    proof {
        reveal_strlit("0-");
    }
    if plus.is_none() && zero_dash {
        return version.to_owned();
    }
    let stripped = match plus {
        Some(p) => version.substring_char(0, p),
        None => match find_char(version, '-', 0) {
            Some(m) => version.substring_char(0, m),
            None => version,
        },
    };
    let dots = count_chars(stripped, '.');
    let mut r = stripped.to_owned();
    if dots == 0 {
        r.append(".0.0");
    } else if dots == 1 {
        r.append(".0");
    }
    r
}

/// Whether `current` is older than `latest` (see `spec_version_outdated`).
pub fn version_outdated(current: &str, latest: &str) -> (r: bool)
    ensures
        r == spec_version_outdated(current@, latest@),
{
    let a = normalize_conda_version(current);
    let b = normalize_conda_version(latest);
    match version_order(a.as_str(), b.as_str()) {
        Some(o) => o < 0,
        None => !same_text(current, latest),
    }
}

/// Whether a package is older than the latest release the registry
/// reports; a package without a version is never outdated.
pub fn is_outdated(package: &Package, info: &PackageInfo) -> (r: bool)
    ensures
        r == match package.version {
            Some(v) => spec_version_outdated(v@, info.latest_version@),
            None => false,
        },
{
    match &package.version {
        Some(v) => version_outdated(v.as_str(), info.latest_version.as_str()),
        None => false,
    }
}

/// Registry information is looked up for a package unless its name is empty
/// or holds `>` (a pip requirement rather than a name).
pub open spec fn spec_should_enrich(name: Seq<char>) -> bool {
    name.len() > 0 && !name.contains('>')
}

/// Whether registry information is looked up for a package of this name.
pub fn should_enrich(name: &str) -> (r: bool)
    ensures
        r == spec_should_enrich(name@),
{
    if name.unicode_len() == 0 {
        return false;
    }
    match find_char(name, '>', 0) {
        Some(i) => {
            assert(name@[i as int] == '>');
            false
        },
        None => {
            proof {
                crate::text::lemma_first_index_of_absent(name@, '>', 0);
            }
            true
        },
    }
}

/// The package after the registry information was applied to it.
pub open spec fn spec_enriched(p: Package, info: PackageInfo) -> Package {
    Package {
        is_outdated: match p.version {
            Some(v) => spec_version_outdated(v@, info.latest_version@),
            None => false,
        },
        latest_version: Some(info.latest_version),
        size: info.size,
        ..p
    }
}

/// Applies the registry information found for each package (`infos[i]`
/// for `packages[i]`; `None` where the lookup failed): outdated flag,
/// latest release and size. Packages `should_enrich` skips, and those
/// without information, stay as they are.
pub fn enrich_packages(packages: &mut Vec<Package>, infos: &Vec<Option<PackageInfo>>)
    ensures
        final(packages)@.len() == old(packages)@.len(),
        forall|i: int|
            0 <= i < old(packages)@.len() ==> #[trigger] final(packages)@[i] == if i < infos@.len()
                && infos@[i].is_some() && spec_should_enrich(old(packages)@[i].name@) {
                spec_enriched(old(packages)@[i], infos@[i].unwrap())
            } else {
                old(packages)@[i]
            },
{
    let ghost old_packages = packages@;
    let mut result: Vec<Package> = Vec::new();
    let mut i: usize = 0;
    while i < packages.len()
        invariant
            packages@ == old_packages,
            0 <= i <= old_packages.len(),
            result@.len() == i,
            forall|q: int|
                0 <= q < i ==> #[trigger] result@[q] == if q < infos@.len() && infos@[q].is_some()
                    && spec_should_enrich(old_packages[q].name@) {
                    spec_enriched(old_packages[q], infos@[q].unwrap())
                } else {
                    old_packages[q]
                },
        decreases old_packages.len() - i,
    {
        let mut p = packages[i].duplicate();
        if i < infos.len() && should_enrich(p.name.as_str()) {
            match &infos[i] {
                Some(info) => {
                    p.is_outdated = is_outdated(&p, info);
                    p.latest_version = Some(info.latest_version.clone());
                    p.size = info.size;
                },
                None => {},
            }
        }
        result.push(p);
        i = i + 1;
    }
    *packages = result;
}

/// Whether `latest` is newer than `current`: by semver precedence where
/// both parse as semantic versions, else whenever the texts differ.
pub open spec fn spec_newer_release(current: Seq<char>, latest: Seq<char>) -> bool {
    if semver_version_valid(current) && semver_version_valid(latest) {
        semver_version_order(latest, current) > 0
    } else {
        latest != current
    }
}

/// The outdated flag and latest release of a package, given the latest
/// release a registry reported (`None` where the lookup failed). Without a
/// current version, or without a reported release, the package counts as
/// up to date and no release is recorded.
pub fn check_outdated(current_version: Option<&str>, latest: Option<String>) -> (r: (bool, Option<String>))
    ensures
        r.0 == match (current_version, latest) {
            (Some(c), Some(l)) => spec_newer_release(c@, l@),
            _ => false,
        },
        r.1 == match current_version {
            Some(_) => latest,
            None => None,
        },
{
    match current_version {
        Some(current) => match latest {
            Some(l) => {
                let newer = match version_order(l.as_str(), current) {
                    Some(o) => o > 0,
                    None => !same_text(l.as_str(), current),
                };
                (newer, Some(l))
            },
            None => (false, None),
        },
        None => (false, None),
    }
}

/// The distinct versions among the files, in order.
pub open spec fn distinct_versions(files: Seq<(Option<String>, Option<u64>)>) -> Seq<Seq<char>>
    decreases files.len(),
{
    if files.len() == 0 {
        Seq::empty()
    } else {
        let prev = distinct_versions(files.drop_last());
        match files.last().0 {
            Some(v) => if prev.contains(v@) {
                prev
            } else {
                prev.push(v@)
            },
            None => prev,
        }
    }
}

/// The largest size (a missing size counting as 0) among the files of
/// version `latest`; `None` when there is no such file.
pub open spec fn latest_size(files: Seq<(Option<String>, Option<u64>)>, latest: Seq<char>) -> Option<u64>
    decreases files.len(),
{
    if files.len() == 0 {
        None
    } else {
        let prev = latest_size(files.drop_last(), latest);
        let f = files.last();
        if f.0 is Some && f.0.unwrap()@ == latest {
            let here = match f.1 {
                Some(x) => x,
                None => 0,
            };
            match prev {
                Some(p) => Some(if p >= here {
                    p
                } else {
                    here
                }),
                None => Some(here),
            }
        } else {
            prev
        }
    }
}

/// Builds the package information from what a registry listed: its latest
/// release (`unknown` when missing) and its files as `(version, size)`.
pub fn package_info_from_files(package_name: &str, latest: Option<String>, files: &Vec<(Option<String>, Option<u64>)>) -> (r: PackageInfo)
    ensures
        r.name@ == package_name@,
        r.latest_version@ == match latest {
            Some(l) => l@,
            None => "unknown"@,
        },
        r.versions.deep_view() == distinct_versions(files@),
        r.size == latest_size(files@, r.latest_version@),
{
    let latest_version = match latest {
        Some(l) => l,
        None => "unknown".to_string(),
    };
    let mut versions: Vec<String> = Vec::new();
    let mut size: Option<u64> = None;
    let mut i: usize = 0;
    assert(files@.take(0) =~= Seq::<(Option<String>, Option<u64>)>::empty());
    assert(versions.deep_view() =~= Seq::<Seq<char>>::empty());
    while i < files.len()
        invariant
            0 <= i <= files@.len(),
            versions.deep_view() == distinct_versions(files@.take(i as int)),
            size == latest_size(files@.take(i as int), latest_version@),
        decreases files@.len() - i,
    {
        let ghost prev = versions.deep_view();
        assert(files@.take(i + 1).drop_last() =~= files@.take(i as int));
        assert(files@.take(i + 1).last() == files@[i as int]);
        let f = &files[i];
        match &f.0 {
            Some(v) => {
                if !crate::provider::contains_text(&versions, v.as_str()) {
                    versions.push(v.clone());
                    assert(versions.deep_view() =~= prev.push(v@));
                }
                if same_text(v.as_str(), latest_version.as_str()) {
                    let here: u64 = match f.1 {
                        Some(x) => x,
                        None => 0,
                    };
                    size = match size {
                        Some(p) => Some(if p >= here {
                            p
                        } else {
                            here
                        }),
                        None => Some(here),
                    };
                }
            },
            None => {},
        }
        i = i + 1;
    }
    assert(files@.take(files@.len() as int) =~= files@);
    PackageInfo { name: package_name.to_owned(), latest_version, size, versions }
}

} // verus!
