//! Applying registry information to packages.
use vstd::prelude::*;
use crate::conda_api::{spec_version_outdated, version_outdated, PackageInfo};
use crate::models::Package;

pub use crate::conda_api::normalize_conda_version;

verus! {

/// Records the registry information on a package: latest release, size,
/// and whether its version is older (left as it was when it has none).
pub fn update_package_with_info(package: &mut Package, info: &PackageInfo)
    ensures
        final(package).is_outdated == match old(package).version {
            Some(v) => spec_version_outdated(v@, info.latest_version@),
            None => old(package).is_outdated,
        },
        final(package).latest_version matches Some(l) && l@ == info.latest_version@,
        final(package).size == info.size,
        final(package).name == old(package).name,
        final(package).version == old(package).version,
        final(package).build == old(package).build,
        final(package).channel == old(package).channel,
        final(package).is_pinned == old(package).is_pinned,
{
    let outdated = match &package.version {
        Some(v) => Some(version_outdated(v.as_str(), info.latest_version.as_str())),
        None => None,
    };
    match outdated {
        Some(o) => {
            package.is_outdated = o;
        },
        None => {},
    }
    package.latest_version = Some(info.latest_version.clone());
    package.size = info.size;
}

} // verus!
