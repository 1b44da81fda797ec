//! Package specifications of an environment descriptor
//! (`[channel::]name[=version[=build]]`).
use vstd::prelude::*;
use crate::constraint::same_text;
use crate::models::{CondaEnvironment, Dependency, Package};
use crate::text::{
    find_char, find_double_colon, first_double_colon, first_index_of, skip_white, trim_end, word_end,
};

verus! {

/// Name, version and build of `name[=version[=build]]`: the name runs to the
/// first `=`, the version to the next `=`, the build to the end.
pub open spec fn spec_name_version_build(s: Seq<char>) -> (Seq<char>, Option<Seq<char>>, Option<Seq<char>>) {
    let b = first_index_of(s, '=', 0);
    if b < 0 {
        (s, None, None)
    } else {
        let e = first_index_of(s, '=', b + 1);
        if e < 0 {
            (s.subrange(0, b), Some(s.subrange(b + 1, s.len() as int)), None)
        } else {
            (s.subrange(0, b), Some(s.subrange(b + 1, e)), Some(s.subrange(e + 1, s.len() as int)))
        }
    }
}

/// The channel of a specification (before the first `::`), if any, and the
/// rest.
pub open spec fn spec_split_channel(s: Seq<char>) -> (Option<Seq<char>>, Seq<char>) {
    let c = first_double_colon(s, 0);
    if c < 0 {
        (None, s)
    } else {
        (Some(s.subrange(0, c)), s.subrange(c + 2, s.len() as int))
    }
}

/// The text of an optional string.
pub open spec fn opt_view(o: Option<String>) -> Option<Seq<char>> {
    match o {
        Some(s) => Some(s@),
        None => None,
    }
}

fn substring(s: &str, from: usize, to: usize) -> (r: String)
    requires
        from <= to <= s@.len(),
    ensures
        r@ == s@.subrange(from as int, to as int),
{
    s.substring_char(from, to).to_owned()
}

/// Fills name, version and build of `package` from `spec`.
fn parse_name_version_build(spec: &str, package: &mut Package)
    ensures
        final(package).name@ == spec_name_version_build(spec@).0,
        opt_view(final(package).version) == if first_index_of(spec@, '=', 0) < 0 {
            opt_view(old(package).version)
        } else {
            spec_name_version_build(spec@).1
        },
        opt_view(final(package).build) == if first_index_of(spec@, '=', 0) < 0 {
            opt_view(old(package).build)
        } else {
            spec_name_version_build(spec@).2
        },
        final(package).channel == old(package).channel,
        final(package).size == old(package).size,
        final(package).is_pinned == old(package).is_pinned,
        final(package).is_outdated == old(package).is_outdated,
        final(package).latest_version == old(package).latest_version,
{
    let n = spec.unicode_len();
    match find_char(spec, '=', 0) {
        Some(b) => {
            package.name = substring(spec, 0, b);
            match find_char(spec, '=', b + 1) {
                Some(e) => {
                    package.version = Some(substring(spec, b + 1, e));
                    package.build = Some(substring(spec, e + 1, n));
                },
                None => {
                    package.version = Some(substring(spec, b + 1, n));
                    package.build = None;
                },
            }
        },
        None => {
            package.name = spec.to_owned();
        },
    }
}

/// Parses `[channel::]name[=version[=build]]` into a package; it is pinned
/// when it names a version.
pub fn parse_package_spec(spec: &str) -> (r: Package)
    ensures
        opt_view(r.channel) == spec_split_channel(spec@).0,
        r.name@ == spec_name_version_build(spec_split_channel(spec@).1).0,
        opt_view(r.version) == spec_name_version_build(spec_split_channel(spec@).1).1,
        opt_view(r.build) == spec_name_version_build(spec_split_channel(spec@).1).2,
        r.is_pinned == r.version.is_some(),
        r.size.is_none(),
        !r.is_outdated,
        r.latest_version.is_none(),
{
    let mut package = Package {
        name: String::new(),
        version: None,
        build: None,
        channel: None,
        size: None,
        is_pinned: false,
        is_outdated: false,
        latest_version: None,
    };
    let n = spec.unicode_len();
    match find_double_colon(spec) {
        Some(c) => {
            package.channel = Some(substring(spec, 0, c));
            let rest = substring(spec, c + 2, n);
            parse_name_version_build(rest.as_str(), &mut package);
        },
        None => {
            parse_name_version_build(spec, &mut package);
        },
    }
    if package.version.is_some() {
        package.is_pinned = true;
    }
    package
}

/// The text `str::trim` leaves of `s`: leading and trailing characters with
/// the Unicode White_Space property removed.
pub open spec fn trimmed(s: Seq<char>) -> Seq<char> {
    let a = skip_white(s, 0);
    s.subrange(a, trim_end(s, s.len() as int, a))
}

/// Relies on `str::trim`, which removes leading and trailing characters
/// with the Unicode White_Space property.
#[verifier::external_body]
pub(crate) fn trim_text(s: &str) -> (r: String)
    ensures
        r@ == trimmed(s@),
{
    s.trim().to_string()
}

/// Name and version of an environment entry `name[=version[=...]]`, each
/// with surrounding white space removed, and the channel given.
pub open spec fn spec_entry(s: Seq<char>, channel: Option<Seq<char>>) -> (Seq<char>, Option<Seq<char>>, Option<Seq<char>>) {
    let b = first_index_of(s, '=', 0);
    if b < 0 {
        (trimmed(s), None, channel)
    } else {
        let e = first_index_of(s, '=', b + 1);
        let v = if e < 0 {
            s.subrange(b + 1, s.len() as int)
        } else {
            s.subrange(b + 1, e)
        };
        (trimmed(s.subrange(0, b)), Some(trimmed(v)), channel)
    }
}

/// Name, version and channel of a package.
pub open spec fn package_summary(p: Package) -> (Seq<char>, Option<Seq<char>>, Option<Seq<char>>) {
    (p.name@, opt_view(p.version), opt_view(p.channel))
}

/// A package as listed in an environment file: nothing else known yet.
pub open spec fn is_listed_package(p: Package) -> bool {
    p.build.is_none() && p.size.is_none() && p.is_pinned == p.version.is_some() && !p.is_outdated
        && p.latest_version.is_none()
}

/// The packages one dependency entry contributes.
pub open spec fn entries_of(d: Dependency) -> Seq<(Seq<char>, Option<Seq<char>>, Option<Seq<char>>)> {
    match d {
        Dependency::Simple(s) => seq![spec_entry(s@, None)],
        Dependency::Complex(c) => match c.pip {
            Some(v) => Seq::new(v@.len(), |k: int| spec_entry(v@[k]@, Some("pip"@))),
            None => Seq::empty(),
        },
    }
}

/// The packages of a list of dependency entries, in order.
pub open spec fn spec_extract(deps: Seq<Dependency>) -> Seq<(Seq<char>, Option<Seq<char>>, Option<Seq<char>>)>
    decreases deps.len(),
{
    if deps.len() == 0 {
        Seq::empty()
    } else {
        spec_extract(deps.drop_last()) + entries_of(deps.last())
    }
}

/// Summaries of a list of packages.
pub open spec fn summaries(ps: Seq<Package>) -> Seq<(Seq<char>, Option<Seq<char>>, Option<Seq<char>>)> {
    Seq::new(ps.len(), |q: int| package_summary(ps[q]))
}

fn entry_package(spec: &str, pip: bool) -> (r: Package)
    ensures
        package_summary(r) == spec_entry(spec@, if pip { Some("pip"@) } else { None }),
        is_listed_package(r),
{
    let n = spec.unicode_len();
    let (name, version) = match find_char(spec, '=', 0) {
        Some(b) => {
            let end = match find_char(spec, '=', b + 1) {
                Some(e) => e,
                None => n,
            };
            (trim_text(spec.substring_char(0, b)), Some(trim_text(spec.substring_char(b + 1, end))))
        },
        None => (trim_text(spec), None),
    };
    let is_pinned = version.is_some();
    Package {
        name,
        version,
        build: None,
        channel: if pip {
            Some("pip".to_string())
        } else {
            None
        },
        size: None,
        is_pinned,
        is_outdated: false,
        latest_version: None,
    }
}

/// The packages an environment lists, in order; those under a `pip`
/// section come from channel `pip`.
pub fn extract_packages(env: &CondaEnvironment) -> (r: Vec<Package>)
    ensures
        summaries(r@) == spec_extract(env.dependencies@),
        forall|q: int| 0 <= q < r@.len() ==> is_listed_package(#[trigger] r@[q]),
{
    let deps = &env.dependencies;
    let mut packages: Vec<Package> = Vec::new();
    let mut i: usize = 0;
    assert(summaries(packages@) =~= spec_extract(deps@.take(0)));
    while i < deps.len()
        invariant
            deps == &env.dependencies,
            0 <= i <= deps@.len(),
            summaries(packages@) == spec_extract(deps@.take(i as int)),
            forall|q: int| 0 <= q < packages@.len() ==> is_listed_package(#[trigger] packages@[q]),
        decreases deps@.len() - i,
    {
        let ghost prefix = summaries(packages@);
        assert(deps@.take(i + 1).drop_last() =~= deps@.take(i as int));
        assert(deps@.take(i + 1).last() == deps@[i as int]);
        match &deps[i] {
            Dependency::Simple(spec) => {
                let p = entry_package(spec.as_str(), false);
                packages.push(p);
                assert(summaries(packages@) =~= prefix + entries_of(deps@[i as int]));
            },
            Dependency::Complex(complex) => {
                match &complex.pip {
                    Some(pip_pkgs) => {
                        let mut k: usize = 0;
                        while k < pip_pkgs.len()
                            invariant
                                0 <= k <= pip_pkgs@.len(),
                                summaries(packages@) == prefix + Seq::new(
                                    k as nat,
                                    |t: int| spec_entry(pip_pkgs@[t]@, Some("pip"@)),
                                ),
                                forall|q: int|
                                    0 <= q < packages@.len() ==> is_listed_package(
                                        #[trigger] packages@[q],
                                    ),
                            decreases pip_pkgs@.len() - k,
                        {
                            let ghost before = summaries(packages@);
                            let p = entry_package(pip_pkgs[k].as_str(), true);
                            packages.push(p);
                            assert(summaries(packages@) =~= before.push(package_summary(p)));
                            assert(summaries(packages@) =~= prefix + Seq::new(
                                (k + 1) as nat,
                                |t: int| spec_entry(pip_pkgs@[t]@, Some("pip"@)),
                            ));
                            k = k + 1;
                        }
                        assert(summaries(packages@) =~= prefix + entries_of(deps@[i as int]));
                    },
                    None => {
                        assert(summaries(packages@) =~= prefix + entries_of(deps@[i as int]));
                    },
                }
            },
        }
        i = i + 1;
    }
    assert(deps@.take(deps@.len() as int) =~= deps@);
    packages
}

/// Whether the first entry of the environment that names `name` pins a
/// version; `false` when no entry names it.
pub open spec fn spec_is_pinned(entries: Seq<(Seq<char>, Option<Seq<char>>, Option<Seq<char>>)>, name: Seq<char>) -> bool {
    exists|q: int|
        0 <= q < entries.len() && (#[trigger] entries[q]).0 == name && entries[q].1.is_some()
            && forall|t: int| 0 <= t < q ==> (#[trigger] entries[t]).0 != name
}

/// Whether the environment pins the version of package `pkg_name`.
pub fn is_pinned_package(pkg_name: &str, env: &CondaEnvironment) -> (r: bool)
    ensures
        r == spec_is_pinned(spec_extract(env.dependencies@), pkg_name@),
{
    let packages = extract_packages(env);
    let ghost entries = summaries(packages@);
    let mut i: usize = 0;
    while i < packages.len()
        invariant
            entries == summaries(packages@),
            entries == spec_extract(env.dependencies@),
            0 <= i <= packages@.len(),
            forall|t: int| 0 <= t < i ==> (#[trigger] entries[t]).0 != pkg_name@,
        decreases packages@.len() - i,
    {
        assert(entries[i as int] == package_summary(packages@[i as int]));
        if same_text(packages[i].name.as_str(), pkg_name) {
            let pinned = packages[i].version.is_some();
            proof {
                if !pinned {
                    assert forall|q: int| 0 <= q < entries.len() && (#[trigger] entries[q]).0 == pkg_name@ && entries[q].1.is_some()
                        implies !forall|t: int| 0 <= t < q ==> (#[trigger] entries[t]).0 != pkg_name@ by {
                        assert(q != i);
                        if q > i {
                            assert(entries[i as int].0 == pkg_name@);
                        }
                    }
                }
            }
            return pinned;
        }
        i = i + 1;
    }
    false
}

/// The first white-space separated word of a text, as
/// `str::split_whitespace` gives it: the first maximal run of characters
/// without the Unicode White_Space property.
pub open spec fn first_word(s: Seq<char>) -> Option<Seq<char>> {
    let a = skip_white(s, 0);
    if a >= s.len() {
        None
    } else {
        Some(s.subrange(a, word_end(s, a)))
    }
}

/// Relies on `str::split_whitespace`, which splits at characters with the
/// Unicode White_Space property and yields no empty words.
#[verifier::external_body]
fn first_whitespace_word(s: &str) -> (r: Option<String>)
    ensures
        opt_view(r) == first_word(s@),
{
    match s.split_whitespace().next() {
        Some(w) => Some(w.to_string()),
        None => None,
    }
}

/// The package name of a conda dependency entry such as `numpy >=1.19`:
/// its first word.
pub fn extract_package_name(dep_str: &str) -> (r: Option<String>)
    ensures
        opt_view(r) == match first_word(dep_str@) {
            Some(w) => Some(trimmed(w)),
            None => None,
        },
{
    match first_whitespace_word(dep_str) {
        Some(w) => Some(trim_text(w.as_str())),
        None => None,
    }
}

/// The package name of a PyPI requirement such as
/// `numpy (>=1.14.5) ; extra == 'test'`: markers after `;` dropped, then
/// the first word, cut at `(`.
pub open spec fn spec_pypi_package_name(s: Seq<char>) -> Option<Seq<char>> {
    let semi = first_index_of(s, ';', 0);
    let part = if semi < 0 {
        s
    } else {
        s.subrange(0, semi)
    };
    match first_word(trimmed(part)) {
        Some(w) => {
            let p = first_index_of(w, '(', 0);
            if p < 0 {
                Some(trimmed(w))
            } else {
                Some(trimmed(w.subrange(0, p)))
            }
        },
        None => None,
    }
}

/// The package name of a PyPI requirement.
pub fn extract_pypi_package_name(dep_str: &str) -> (r: Option<String>)
    ensures
        opt_view(r) == spec_pypi_package_name(dep_str@),
{
    let part = match find_char(dep_str, ';', 0) {
        Some(k) => dep_str.substring_char(0, k),
        None => dep_str,
    };
    let t = trim_text(part);
    match first_whitespace_word(t.as_str()) {
        Some(w) => match find_char(w.as_str(), '(', 0) {
            Some(p) => Some(trim_text(w.as_str().substring_char(0, p))),
            None => Some(trim_text(w.as_str())),
        },
        None => None,
    }
}

} // verus!
