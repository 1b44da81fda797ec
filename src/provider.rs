//! A small resolver: picks the newest declared release of each required
//! package and follows the dependencies declared for it.
use vstd::prelude::*;
use crate::constraint::{parse_dependency, same_text, spec_parse_dependency};
use crate::depmap::{has_key, keys_unique, DependencyEntries, DependencyMap};
use crate::models::Package;
use crate::semver_bridge::{semver_version_order, semver_version_valid, version_order};

verus! {

/// `(name, version)` of every package that declares a version, in order.
pub open spec fn declared_versions(ps: Seq<Package>) -> Seq<(Seq<char>, Seq<char>)>
    decreases ps.len(),
{
    if ps.len() == 0 {
        Seq::empty()
    } else {
        declared_versions(ps.drop_last()) + match ps.last().version {
            Some(v) => seq![(ps.last().name@, v@)],
            None => Seq::empty(),
        }
    }
}

/// The versions listed for `name`, in order.
pub open spec fn versions_named(list: Seq<(Seq<char>, Seq<char>)>, name: Seq<char>) -> Seq<Seq<char>>
    decreases list.len(),
{
    if list.len() == 0 {
        Seq::empty()
    } else {
        versions_named(list.drop_last(), name) + if list.last().0 == name {
            seq![list.last().1]
        } else {
            Seq::empty()
        }
    }
}

/// The names the specifications refer to, those that do not parse skipped.
pub open spec fn parsed_names(specs: Seq<Seq<char>>) -> Seq<Seq<char>>
    decreases specs.len(),
{
    if specs.len() == 0 {
        Seq::empty()
    } else {
        parsed_names(specs.drop_last()) + match spec_parse_dependency(specs.last()) {
            Some(p) => seq![p.0],
            None => Seq::empty(),
        }
    }
}

/// The specifications of the entry for `name`.
pub open spec fn specs_of(m: DependencyEntries, name: Seq<char>) -> Seq<Seq<char>> {
    let i = choose|i: int| 0 <= i < m.len() && #[trigger] m[i].0 == name;
    m[i].1
}

/// The release a text stands for when releases are ordered: itself where
/// it is a semantic version, else `0.0.0`.
pub open spec fn release_key(v: Seq<char>) -> Seq<char> {
    if semver_version_valid(v) {
        v
    } else {
        "0.0.0"@
    }
}

/// Release `a` orders before release `b` (see `release_key`).
pub open spec fn release_less(a: Seq<char>, b: Seq<char>) -> bool {
    let ka = release_key(a);
    let kb = release_key(b);
    semver_version_valid(ka) && semver_version_valid(kb) && semver_version_order(ka, kb) < 0
}

/// Whether release `a` orders before release `b`.
fn release_key_less(a: &str, b: &str) -> (r: bool)
    ensures
        r == release_less(a@, b@),
{
    let ka = match version_order(a, a) {
        Some(_) => a,
        None => "0.0.0",
    };
    let kb = match version_order(b, b) {
        Some(_) => b,
        None => "0.0.0",
    };
    match version_order(ka, kb) {
        Some(o) => o < 0,
        None => false,
    }
}

/// Index of the release chosen among the first `n`: the first of the
/// newest, as a stable sort from newest to oldest would put first.
pub open spec fn latest_index(vs: Seq<Seq<char>>, n: int) -> int
    decreases n,
{
    if n <= 1 {
        0
    } else {
        let b = latest_index(vs, n - 1);
        if release_less(vs[b], vs[n - 1]) {
            n - 1
        } else {
            b
        }
    }
}

/// The text of `(name, version)` pairs.
pub open spec fn pair_views(v: Seq<(String, String)>) -> Seq<(Seq<char>, Seq<char>)> {
    Seq::new(v.len(), |q: int| (v[q].0@, v[q].1@))
}

/// The first components of a list of pairs.
pub open spec fn first_names(v: Seq<(String, String)>) -> Seq<Seq<char>> {
    Seq::new(v.len(), |k: int| v[k].0@)
}

/// The dependency names recorded in an entry.
pub open spec fn entry_names(d: (String, String, Vec<(String, String)>)) -> Seq<Seq<char>> {
    first_names(d.2@)
}

/// Packages with their declared releases and, per release, the
/// dependencies `(name, constraint)` declared for the package.
pub struct CondaDependencyProvider {
    packages: Vec<(String, String)>,
    dependencies: Vec<(String, String, Vec<(String, String)>)>,
}

/// Whether `name` has an entry in the solution.
pub open spec fn in_solution(sol: Seq<(String, String)>, name: Seq<char>) -> bool {
    exists|k: int| 0 <= k < sol.len() && (#[trigger] sol[k]).0@ == name
}

/// Number of releases whose package is not yet visited.
pub open spec fn unvisited(rel: Seq<(Seq<char>, Seq<char>)>, vis: Seq<Seq<char>>) -> nat
    decreases rel.len(),
{
    if rel.len() == 0 {
        0
    } else {
        unvisited(rel.drop_last(), vis) + if vis.contains(rel.last().0) {
            0nat
        } else {
            1nat
        }
    }
}

proof fn lemma_unvisited_mono(rel: Seq<(Seq<char>, Seq<char>)>, v1: Seq<Seq<char>>, v2: Seq<Seq<char>>)
    requires
        forall|x: Seq<char>| v1.contains(x) ==> v2.contains(x),
    ensures
        unvisited(rel, v2) <= unvisited(rel, v1),
    decreases rel.len(),
{
    if rel.len() > 0 {
        lemma_unvisited_mono(rel.drop_last(), v1, v2);
    }
}

proof fn lemma_unvisited_strict(rel: Seq<(Seq<char>, Seq<char>)>, v1: Seq<Seq<char>>, v2: Seq<Seq<char>>, name: Seq<char>)
    requires
        forall|x: Seq<char>| v1.contains(x) ==> v2.contains(x),
        !v1.contains(name),
        v2.contains(name),
        exists|q: int| 0 <= q < rel.len() && (#[trigger] rel[q]).0 == name,
    ensures
        unvisited(rel, v2) < unvisited(rel, v1),
    decreases rel.len(),
{
    let q = choose|q: int| 0 <= q < rel.len() && (#[trigger] rel[q]).0 == name;
    if q == rel.len() - 1 {
        lemma_unvisited_mono(rel.drop_last(), v1, v2);
    } else {
        assert(rel.drop_last()[q].0 == name);
        lemma_unvisited_strict(rel.drop_last(), v1, v2, name);
    }
}

proof fn lemma_versions_named_nonempty(list: Seq<(Seq<char>, Seq<char>)>, name: Seq<char>)
    ensures
        versions_named(list, name).len() > 0 <==> exists|q: int| 0 <= q < list.len() && (#[trigger] list[q]).0 == name,
    decreases list.len(),
{
    if list.len() > 0 {
        lemma_versions_named_nonempty(list.drop_last(), name);
        if exists|q: int| 0 <= q < list.drop_last().len() && (#[trigger] list.drop_last()[q]).0 == name {
            let q = choose|q: int| 0 <= q < list.drop_last().len() && (#[trigger] list.drop_last()[q]).0 == name;
            assert(list[q].0 == name);
        }
        if exists|q: int| 0 <= q < list.len() && (#[trigger] list[q]).0 == name {
            let q = choose|q: int| 0 <= q < list.len() && (#[trigger] list[q]).0 == name;
            if q < list.len() - 1 {
                assert(list.drop_last()[q].0 == name);
            }
        }
    }
}

pub(crate) fn contains_text(v: &Vec<String>, s: &str) -> (r: bool)
    ensures
        r == v.deep_view().contains(s@),
{
    let mut i: usize = 0;
    while i < v.len()
        invariant
            0 <= i <= v@.len(),
            forall|j: int| 0 <= j < i ==> v.deep_view()[j] != s@,
        decreases v@.len() - i,
    {
        if same_text(v[i].as_str(), s) {
            assert(v.deep_view()[i as int] == s@);
            return true;
        }
        i = i + 1;
    }
    false
}

fn parse_all(specs: &Vec<String>) -> (r: Vec<(String, String)>)
    ensures
        first_names(r@) == parsed_names(specs.deep_view()),
{
    let ghost sv = specs.deep_view();
    let mut r: Vec<(String, String)> = Vec::new();
    let mut i: usize = 0;
    assert(first_names(r@) =~= parsed_names(sv.take(0)));
    while i < specs.len()
        invariant
            sv == specs.deep_view(),
            0 <= i <= sv.len(),
            first_names(r@) == parsed_names(sv.take(i as int)),
        decreases sv.len() - i,
    {
        let ghost before = first_names(r@);
        assert(sv.take(i + 1).drop_last() =~= sv.take(i as int));
        assert(sv.take(i + 1).last() == specs@[i as int]@);
        match parse_dependency(specs[i].as_str()) {
            Some(p) => {
                let ghost name = p.0@;
                r.push(p);
                assert(first_names(r@) =~= before + seq![name]);
            },
            None => {
                assert(before + Seq::<Seq<char>>::empty() =~= before);
            },
        }
        i = i + 1;
    }
    assert(sv.take(sv.len() as int) =~= sv);
    r
}

impl CondaDependencyProvider {
    #[verifier::type_invariant]
    spec fn inv(&self) -> bool {
        forall|i: int, j: int|
            0 <= i < self.dependencies@.len() && 0 <= j < self.dependencies@.len() && i != j ==> !(
            (#[trigger] self.dependencies@[i]).0@ == (#[trigger] self.dependencies@[j]).0@
                && self.dependencies@[i].1@ == self.dependencies@[j].1@)
    }

    /// The declared releases `(name, version)`, in order.
    pub closed spec fn releases(&self) -> Seq<(Seq<char>, Seq<char>)> {
        Seq::new(self.packages@.len(), |i: int| (self.packages@[i].0@, self.packages@[i].1@))
    }

    /// The dependency names recorded for a release, if any.
    pub closed spec fn dependency_names(&self, name: Seq<char>, version: Seq<char>) -> Option<Seq<Seq<char>>> {
        if exists|i: int|
            0 <= i < self.dependencies@.len() && (#[trigger] self.dependencies@[i]).0@ == name
                && self.dependencies@[i].1@ == version {
            let i = choose|i: int|
                0 <= i < self.dependencies@.len() && (#[trigger] self.dependencies@[i]).0@ == name
                    && self.dependencies@[i].1@ == version;
            Some(entry_names(self.dependencies@[i]))
        } else {
            None
        }
    }

    /// The release chosen for `name`: the newest declared one.
    pub open spec fn chosen(&self, name: Seq<char>) -> Seq<char> {
        let vs = versions_named(self.releases(), name);
        vs[latest_index(vs, vs.len() as int)]
    }

    /// The packages the chosen release of `name` depends on.
    pub open spec fn next_names(&self, name: Seq<char>) -> Seq<Seq<char>> {
        match self.dependency_names(name, self.chosen(name)) {
            Some(d) => d,
            None => Seq::empty(),
        }
    }

    /// `p` starts at a root and each further package is a dependency of the
    /// chosen release of the one before, which has releases.
    pub open spec fn is_requirement_path(&self, roots: Seq<Seq<char>>, p: Seq<Seq<char>>) -> bool {
        p.len() >= 1 && roots.contains(p[0]) && forall|k: int|
            0 <= k < p.len() - 1 ==> versions_named(self.releases(), #[trigger] p[k]).len() > 0
                && self.next_names(p[k]).contains(p[k + 1])
    }

    /// `name` is required when solving for `roots`.
    pub open spec fn required(&self, roots: Seq<Seq<char>>, name: Seq<char>) -> bool {
        exists|p: Seq<Seq<char>>| #[trigger] self.is_requirement_path(roots, p) && p.last() == name
    }

    /// Records the declared release of every package and, for each release
    /// of a package the mapping lists, the dependencies its specifications
    /// name.
    pub fn new(packages: &[Package], dependency_map: &DependencyMap) -> (r: Self)
        ensures
            r.releases() == declared_versions(packages@),
            forall|name: Seq<char>, version: Seq<char>|
                #[trigger] r.dependency_names(name, version) == if has_key(dependency_map@, name)
                    && declared_versions(packages@).contains((name, version)) {
                    Some(parsed_names(specs_of(dependency_map@, name)))
                } else {
                    None
                },
    {
        let mut releases: Vec<(String, String)> = Vec::new();
        let mut i: usize = 0;
        assert(pair_views(releases@) =~= declared_versions(packages@.take(0)));
        while i < packages.len()
            invariant
                0 <= i <= packages@.len(),
                pair_views(releases@) == declared_versions(packages@.take(i as int)),
            decreases packages@.len() - i,
        {
            let ghost before = pair_views(releases@);
            assert(packages@.take(i + 1).drop_last() =~= packages@.take(i as int));
            assert(packages@.take(i + 1).last() == packages@[i as int]);
            match &packages[i].version {
                Some(v) => {
                    let pair = (packages[i].name.clone(), v.clone());
                    releases.push(pair);
                    assert(pair_views(releases@) =~= before + seq![(packages@[i as int].name@, v@)]);
                },
                None => {
                    assert(before + Seq::<(Seq<char>, Seq<char>)>::empty() =~= before);
                },
            }
            i = i + 1;
        }
        assert(packages@.take(packages@.len() as int) =~= packages@);
        let ghost rel = pair_views(releases@);
        let ghost m = dependency_map@;
        let n = dependency_map.len();
        let mut dependencies: Vec<(String, String, Vec<(String, String)>)> = Vec::new();
        let mut e: usize = 0;
        while e < n
            invariant
                m == dependency_map@,
                keys_unique(m),
                n == m.len(),
                0 <= e <= n,
                rel == pair_views(releases@),
                forall|a: int, b: int|
                    0 <= a < dependencies@.len() && 0 <= b < dependencies@.len() && a != b ==> !(
                    (#[trigger] dependencies@[a]).0@ == (#[trigger] dependencies@[b]).0@
                        && dependencies@[a].1@ == dependencies@[b].1@),
                forall|a: int|
                    0 <= a < dependencies@.len() ==> {
                        let d = #[trigger] dependencies@[a];
                        &&& rel.contains((d.0@, d.1@))
                        &&& exists|x: int| 0 <= x < e && m[x].0 == d.0@
                        &&& entry_names(d) == parsed_names(specs_of(m, d.0@))
                    },
                forall|x: int, q: int|
                    0 <= x < e && 0 <= q < rel.len() && #[trigger] rel[q].0 == #[trigger] m[x].0 ==> exists|a: int|
                        0 <= a < dependencies@.len() && (#[trigger] dependencies@[a]).0@ == m[x].0
                            && dependencies@[a].1@ == rel[q].1,
            decreases n - e,
        {
            let key = dependency_map.key_at(e);
            let specs = dependency_map.specs_at(e);
            let mut q: usize = 0;
            while q < releases.len()
                invariant
                    m == dependency_map@,
                    keys_unique(m),
                    n == m.len(),
                    0 <= e < n,
                    key@ == m[e as int].0,
                    specs.deep_view() == m[e as int].1,
                    0 <= q <= releases@.len(),
                    rel == pair_views(releases@),
                        forall|a: int, b: int|
                        0 <= a < dependencies@.len() && 0 <= b < dependencies@.len() && a != b ==> !(
                        (#[trigger] dependencies@[a]).0@ == (#[trigger] dependencies@[b]).0@
                            && dependencies@[a].1@ == dependencies@[b].1@),
                    forall|a: int|
                        0 <= a < dependencies@.len() ==> {
                            let d = #[trigger] dependencies@[a];
                            &&& rel.contains((d.0@, d.1@))
                            &&& exists|x: int| 0 <= x <= e && m[x].0 == d.0@
                            &&& entry_names(d) == parsed_names(specs_of(m, d.0@))
                        },
                    forall|x: int, t: int|
                        0 <= x < e && 0 <= t < rel.len() && #[trigger] rel[t].0 == #[trigger] m[x].0 ==> exists|a: int|
                            0 <= a < dependencies@.len() && (#[trigger] dependencies@[a]).0@ == m[x].0
                                && dependencies@[a].1@ == rel[t].1,
                    forall|t: int|
                        0 <= t < q && t < rel.len() && #[trigger] rel[t].0 == m[e as int].0 ==> exists|a: int|
                            0 <= a < dependencies@.len() && (#[trigger] dependencies@[a]).0@ == m[e as int].0
                                && dependencies@[a].1@ == rel[t].1,
                decreases releases@.len() - q,
            {
                let r = &releases[q];
                if same_text(r.0.as_str(), key.as_str()) {
                    let mut present = false;
                    let mut a: usize = 0;
                    while a < dependencies.len()
                        invariant
                            0 <= a <= dependencies@.len(),
                            !present ==> forall|b: int| 0 <= b < a ==> !((#[trigger] dependencies@[b]).0@ == r.0@ && dependencies@[b].1@ == r.1@),
                            present ==> exists|b: int| 0 <= b < dependencies@.len() && (#[trigger] dependencies@[b]).0@ == r.0@ && dependencies@[b].1@ == r.1@,
                        decreases dependencies@.len() - a,
                    {
                        if !present && same_text(dependencies[a].0.as_str(), r.0.as_str()) && same_text(dependencies[a].1.as_str(), r.1.as_str()) {
                            present = true;
                        }
                        a = a + 1;
                    }
                    if !present {
                        let parsed = parse_all(specs);
                        let triple = (r.0.clone(), r.1.clone(), parsed);
                        let ghost before = dependencies@;
                        proof {
                            let w = choose|w: int| 0 <= w < m.len() && #[trigger] m[w].0 == key@;
                            assert(w == e);
                            assert(rel[q as int] == (r.0@, r.1@));
                            assert(entry_names(triple) == parsed_names(specs_of(m, triple.0@)));
                        }
                        dependencies.push(triple);
                        proof {
                            assert(dependencies@[before.len() as int] == triple);
                            assert forall|b: int| 0 <= b < before.len() implies #[trigger] dependencies@[b] == before[b] by {}
                            assert forall|x: int, t: int|
                                0 <= x < e && 0 <= t < rel.len() && #[trigger] rel[t].0 == #[trigger] m[x].0 implies exists|a: int|
                                    0 <= a < dependencies@.len() && (#[trigger] dependencies@[a]).0@ == m[x].0
                                        && dependencies@[a].1@ == rel[t].1 by {
                                let a = choose|a: int| 0 <= a < before.len() && (#[trigger] before[a]).0@ == m[x].0 && before[a].1@ == rel[t].1;
                                assert(dependencies@[a] == before[a]);
                            }
                            assert forall|t: int|
                                0 <= t < q + 1 && t < rel.len() && #[trigger] rel[t].0 == m[e as int].0 implies exists|a: int|
                                    0 <= a < dependencies@.len() && (#[trigger] dependencies@[a]).0@ == m[e as int].0
                                        && dependencies@[a].1@ == rel[t].1 by {
                                if t == q {
                                    assert(dependencies@[before.len() as int].0@ == m[e as int].0);
                                } else {
                                    let a = choose|a: int| 0 <= a < before.len() && (#[trigger] before[a]).0@ == m[e as int].0 && before[a].1@ == rel[t].1;
                                    assert(dependencies@[a] == before[a]);
                                }
                            }
                        }
                    } else {
                        assert(rel[q as int] == (r.0@, r.1@));
                    }
                }
                q = q + 1;
            }
            e = e + 1;
        }
        let provider = CondaDependencyProvider { packages: releases, dependencies };
        proof {
            assert(provider.releases() =~= rel);
            assert forall|name: Seq<char>, version: Seq<char>|
                #[trigger] provider.dependency_names(name, version) == if has_key(m, name)
                    && declared_versions(packages@).contains((name, version)) {
                    Some(parsed_names(specs_of(m, name)))
                } else {
                    None
                } by {
                let ds = provider.dependencies@;
                if has_key(m, name) && rel.contains((name, version)) {
                    let x = choose|x: int| 0 <= x < m.len() && #[trigger] m[x].0 == name;
                    let t = choose|t: int| 0 <= t < rel.len() && rel[t] == (name, version);
                    assert(rel[t].0 == m[x].0);
                    let a = choose|a: int| 0 <= a < ds.len() && (#[trigger] ds[a]).0@ == m[x].0 && ds[a].1@ == rel[t].1;
                    let i = choose|i: int| 0 <= i < ds.len() && (#[trigger] ds[i]).0@ == name && ds[i].1@ == version;
                    assert(i == a);
                    assert(entry_names(ds[a]) == parsed_names(specs_of(m, name)));
                }
                if exists|i: int| 0 <= i < ds.len() && (#[trigger] ds[i]).0@ == name && ds[i].1@ == version {
                    let i = choose|i: int| 0 <= i < ds.len() && (#[trigger] ds[i]).0@ == name && ds[i].1@ == version;
                    assert(rel.contains((ds[i].0@, ds[i].1@)));
                    let x = choose|x: int| 0 <= x < n && m[x].0 == ds[i].0@;
                    assert(has_key(m, name));
                }
            }
        }
        provider
    }
}

/// The texts of a list of strings.
pub open spec fn texts_of(v: Seq<String>) -> Seq<Seq<char>> {
    Seq::new(v.len(), |i: int| v[i]@)
}

impl CondaDependencyProvider {
    /// The resolver's state is consistent: visited packages are required,
    /// solution entries are visited packages with their chosen release,
    /// each at most once, and every visited package outside `pending` is
    /// solved with all its dependencies visited.
    pub open spec fn state_ok(&self, roots: Seq<Seq<char>>, sol: Seq<(String, String)>, vis: Seq<Seq<char>>, pending: Set<Seq<char>>) -> bool {
        &&& forall|n: Seq<char>| #[trigger] vis.contains(n) ==> self.required(roots, n)
        &&& forall|k: int|
            0 <= k < sol.len() ==> vis.contains((#[trigger] sol[k]).0@) && versions_named(
                self.releases(),
                sol[k].0@,
            ).len() > 0 && sol[k].1@ == self.chosen(sol[k].0@)
        &&& forall|k: int, l: int|
            0 <= k < sol.len() && 0 <= l < sol.len() && k != l ==> (#[trigger] sol[k]).0@ != (
            #[trigger] sol[l]).0@
        &&& forall|n: Seq<char>|
            #[trigger] vis.contains(n) && !pending.contains(n) ==> in_solution(sol, n) && forall|j: int|
                0 <= j < self.next_names(n).len() ==> vis.contains(#[trigger] self.next_names(n)[j])
        &&& forall|n: Seq<char>| #[trigger] pending.contains(n) ==> vis.contains(n) && in_solution(sol, n)
    }

    proof fn lemma_required_step(&self, roots: Seq<Seq<char>>, pkg: Seq<char>, d: Seq<char>)
        requires
            self.required(roots, pkg),
            versions_named(self.releases(), pkg).len() > 0,
            self.next_names(pkg).contains(d),
        ensures
            self.required(roots, d),
    {
        let p = choose|p: Seq<Seq<char>>| #[trigger] self.is_requirement_path(roots, p) && p.last() == pkg;
        let q = p.push(d);
        assert forall|k: int| 0 <= k < q.len() - 1 implies versions_named(self.releases(), #[trigger] q[k]).len() > 0
            && self.next_names(q[k]).contains(q[k + 1]) by {
            if k < p.len() - 1 {
                assert(q[k] == p[k] && q[k + 1] == p[k + 1]);
            } else {
                assert(q[k] == pkg);
            }
        }
        assert(self.is_requirement_path(roots, q));
    }

    proof fn lemma_all_required_visited(&self, roots: Seq<Seq<char>>, sol: Seq<(String, String)>, vis: Seq<Seq<char>>, p: Seq<Seq<char>>, k: int)
        requires
            self.state_ok(roots, sol, vis, Set::empty()),
            forall|r: Seq<char>| roots.contains(r) ==> vis.contains(r),
            self.is_requirement_path(roots, p),
            0 <= k < p.len(),
        ensures
            vis.contains(p[k]),
        decreases k,
    {
        if k > 0 {
            self.lemma_all_required_visited(roots, sol, vis, p, k - 1);
            assert(versions_named(self.releases(), p[k - 1]).len() > 0);
            let d = self.next_names(p[k - 1]);
            assert(d.contains(p[k]));
            let j = choose|j: int| 0 <= j < d.len() && d[j] == p[k];
            assert(vis.contains(self.next_names(p[k - 1])[j]));
        }
    }

    /// The versions declared for `name`, in order.
    fn versions_of(&self, name: &str) -> (r: Vec<String>)
        ensures
            r.deep_view() == versions_named(self.releases(), name@),
    {
        let ghost rel = self.releases();
        let mut r: Vec<String> = Vec::new();
        let mut i: usize = 0;
        assert(r.deep_view() =~= versions_named(rel.take(0), name@));
        while i < self.packages.len()
            invariant
                rel == self.releases(),
                rel.len() == self.packages@.len(),
                0 <= i <= rel.len(),
                r.deep_view() == versions_named(rel.take(i as int), name@),
            decreases rel.len() - i,
        {
            let ghost before = r.deep_view();
            assert(rel.take(i + 1).drop_last() =~= rel.take(i as int));
            assert(rel.take(i + 1).last() == rel[i as int]);
            if same_text(self.packages[i].0.as_str(), name) {
                r.push(self.packages[i].1.clone());
                assert(r.deep_view() =~= before + seq![rel[i as int].1]);
            } else {
                assert(before + Seq::<Seq<char>>::empty() =~= before);
            }
            i = i + 1;
        }
        assert(rel.take(rel.len() as int) =~= rel);
        r
    }

    /// Index of the newest release, the first of them where several tie.
    fn latest(versions: &Vec<String>) -> (r: usize)
        requires
            versions@.len() > 0,
        ensures
            r as int == latest_index(versions.deep_view(), versions@.len() as int),
            r < versions@.len(),
    {
        let ghost vs = versions.deep_view();
        let mut best: usize = 0;
        let mut i: usize = 1;
        while i < versions.len()
            invariant
                vs == versions.deep_view(),
                1 <= i <= versions@.len(),
                best < i,
                best as int == latest_index(vs, i as int),
            decreases versions@.len() - i,
        {
            assert(vs[best as int] == versions@[best as int]@);
            assert(vs[i as int] == versions@[i as int]@);
            if release_key_less(versions[best].as_str(), versions[i].as_str()) {
                best = i;
            }
            i = i + 1;
        }
        best
    }

    /// The dependencies recorded for a release.
    fn dependencies_of(&self, name: &str, version: &str) -> (r: Option<&Vec<(String, String)>>)
        ensures
            match r {
                Some(d) => self.dependency_names(name@, version@) == Some(first_names(d@)),
                None => self.dependency_names(name@, version@).is_none(),
            },
    {
        proof {
            use_type_invariant(self);
        }
        let mut i: usize = 0;
        while i < self.dependencies.len()
            invariant
                0 <= i <= self.dependencies@.len(),
                forall|a: int|
                    0 <= a < i ==> !((#[trigger] self.dependencies@[a]).0@ == name@
                        && self.dependencies@[a].1@ == version@),
            decreases self.dependencies@.len() - i,
        {
            let d = &self.dependencies[i];
            if same_text(d.0.as_str(), name) && same_text(d.1.as_str(), version) {
                proof {
                    let w = choose|w: int|
                        0 <= w < self.dependencies@.len() && (#[trigger] self.dependencies@[w]).0@ == name@
                            && self.dependencies@[w].1@ == version@;
                    use_type_invariant(self);
                    assert(self.dependencies@[i as int] == *d);
                    if w != i {
                        assert(!((self.dependencies@[w]).0@ == (self.dependencies@[i as int]).0@
                            && self.dependencies@[w].1@ == self.dependencies@[i as int].1@));
                    }
                }
                return Some(&d.2);
            }
            i = i + 1;
        }
        None
    }

    fn solution_contains(solution: &Vec<(String, String)>, name: &str) -> (r: bool)
        ensures
            r == in_solution(solution@, name@),
    {
        let mut i: usize = 0;
        while i < solution.len()
            invariant
                0 <= i <= solution@.len(),
                forall|k: int| 0 <= k < i ==> (#[trigger] solution@[k]).0@ != name@,
            decreases solution@.len() - i,
        {
            if same_text(solution[i].0.as_str(), name) {
                return true;
            }
            i = i + 1;
        }
        false
    }

    /// Adds `pkg` with its newest release and, depth first, everything that
    /// release depends on.
    fn add_package_to_solution(
        &self,
        pkg: &str,
        solution: &mut Vec<(String, String)>,
        visited: &mut Vec<String>,
        Ghost(roots): Ghost<Seq<Seq<char>>>,
        Ghost(pending): Ghost<Set<Seq<char>>>,
        Ghost(fuel): Ghost<nat>,
    ) -> (r: Result<(), String>)
        requires
            fuel == unvisited(self.releases(), old(visited).deep_view()),
            self.required(roots, pkg@),
            self.state_ok(roots, old(solution)@, old(visited).deep_view(), pending),
        ensures
            match r {
                Ok(()) => {
                    &&& self.state_ok(roots, final(solution)@, final(visited).deep_view(), pending)
                    &&& final(visited).deep_view().contains(pkg@)
                    &&& forall|x: Seq<char>| #[trigger] old(visited).deep_view().contains(x) ==> final(visited).deep_view().contains(x)
                },
                Err(e) => exists|n: Seq<char>|
                    #[trigger] self.required(roots, n) && versions_named(self.releases(), n).len() == 0
                        && e@ == "Package "@ + n + " not found"@,
            },
        decreases fuel,
    {
        if contains_text(visited, pkg) {
            return Ok(());
        }
        let ghost old_vis = visited.deep_view();
        let ghost rel = self.releases();
        visited.push(pkg.to_owned());
        let ghost vis1 = visited.deep_view();
        assert(vis1 =~= old_vis.push(pkg@));
        assert forall|x: Seq<char>| #[trigger] old_vis.contains(x) implies vis1.contains(x) by {
            let j = choose|j: int| 0 <= j < old_vis.len() && old_vis[j] == x;
            assert(vis1[j] == x);
        }
        assert(vis1.contains(pkg@)) by {
            assert(vis1[old_vis.len() as int] == pkg@);
        }
        if Self::solution_contains(solution, pkg) {
            proof {
                let k = choose|k: int| 0 <= k < solution@.len() && (#[trigger] solution@[k]).0@ == pkg@;
                assert(old_vis.contains(solution@[k].0@));
            }
            return Ok(());
        }
        let versions = self.versions_of(pkg);
        if versions.len() == 0 {
            let mut msg = String::new();
            msg.append("Package ");
            msg.append(pkg);
            msg.append(" not found");
            return Err(msg);
        }
        let idx = Self::latest(&versions);
        let version = versions[idx].clone();
        assert(version@ == self.chosen(pkg@));
        let ghost sol0 = solution@;
        let entry = (pkg.to_owned(), version.clone());
        solution.push(entry);
        let ghost pending1 = pending.insert(pkg@);
        proof {
            let sol1 = solution@;
            assert(sol1[sol0.len() as int] == entry);
            assert forall|k: int| 0 <= k < sol0.len() implies #[trigger] sol1[k] == sol0[k] by {}
            assert forall|n: Seq<char>| #[trigger] vis1.contains(n) implies self.required(roots, n) by {
                if n != pkg@ {
                    let j = choose|j: int| 0 <= j < vis1.len() && vis1[j] == n;
                    assert(old_vis[j] == n);
                    assert(old_vis.contains(n));
                    assert(old_vis == old(visited).deep_view());
                }
            }
            assert forall|n: Seq<char>| #[trigger] vis1.contains(n) && !pending1.contains(n) implies in_solution(sol1, n) && forall|j: int|
                0 <= j < self.next_names(n).len() ==> vis1.contains(#[trigger] self.next_names(n)[j]) by {
                let j = choose|j: int| 0 <= j < vis1.len() && vis1[j] == n;
                assert(old_vis[j] == n);
                assert(old_vis.contains(n));
                let k = choose|k: int| 0 <= k < sol0.len() && (#[trigger] sol0[k]).0@ == n;
                assert(sol1[k] == sol0[k]);
            }
            assert forall|n: Seq<char>| #[trigger] pending1.contains(n) implies vis1.contains(n) && in_solution(sol1, n) by {
                if n == pkg@ {
                    assert(sol1[sol0.len() as int].0@ == n);
                } else {
                    let k = choose|k: int| 0 <= k < sol0.len() && (#[trigger] sol0[k]).0@ == n;
                    assert(sol1[k] == sol0[k]);
                }
            }
            assert forall|k: int, l: int|
                0 <= k < sol1.len() && 0 <= l < sol1.len() && k != l implies (#[trigger] sol1[k]).0@ != (
                #[trigger] sol1[l]).0@ by {
                if k == sol0.len() {
                    assert(old_vis.contains(sol0[l].0@));
                } else if l == sol0.len() {
                    assert(old_vis.contains(sol0[k].0@));
                }
            }
            lemma_versions_named_nonempty(rel, pkg@);
            assert(self.state_ok(roots, sol1, vis1, pending1));
        }
        match self.dependencies_of(pkg, version.as_str()) {
            Some(deps) => {
                let mut j: usize = 0;
                while j < deps.len()
                    invariant
                        rel == self.releases(),
                        pending1 == pending.insert(pkg@),
                        first_names(deps@) == self.next_names(pkg@),
                        versions_named(rel, pkg@).len() > 0,
                        exists|q: int| 0 <= q < rel.len() && (#[trigger] rel[q]).0 == pkg@,
                        !old_vis.contains(pkg@),
                        fuel == unvisited(rel, old_vis),
                        self.required(roots, pkg@),
                        0 <= j <= deps@.len(),
                        self.state_ok(roots, solution@, visited.deep_view(), pending1),
                        visited.deep_view().contains(pkg@),
                        forall|x: Seq<char>| #[trigger] old_vis.contains(x) ==> visited.deep_view().contains(x),
                        forall|q: int| 0 <= q < j ==> visited.deep_view().contains(#[trigger] self.next_names(pkg@)[q]),
                    decreases deps@.len() - j,
                {
                    let dep_name = &deps[j].0;
                    let ghost vis_now = visited.deep_view();
                    let ghost fuel2 = unvisited(rel, vis_now);
                    proof {
                        lemma_unvisited_strict(rel, old_vis, vis_now, pkg@);
                        assert(first_names(deps@)[j as int] == dep_name@);
                        assert(self.next_names(pkg@)[j as int] == dep_name@);
                        self.lemma_required_step(roots, pkg@, dep_name@);
                    }
                    match self.add_package_to_solution(dep_name.as_str(), solution, visited, Ghost(roots), Ghost(pending1), Ghost(fuel2)) {
                        Ok(()) => {},
                        Err(e) => {
                            return Err(e);
                        },
                    }
                    j = j + 1;
                }
                proof {
                    let vis2 = visited.deep_view();
                    let sol2 = solution@;
                    assert forall|n: Seq<char>| #[trigger] vis2.contains(n) && !pending.contains(n) implies in_solution(sol2, n) && forall|i: int|
                        0 <= i < self.next_names(n).len() ==> vis2.contains(#[trigger] self.next_names(n)[i]) by {
                        if n == pkg@ {
                            assert(pending1.contains(n));
                        }
                    }
                    assert forall|n: Seq<char>| #[trigger] pending.contains(n) implies vis2.contains(n) && in_solution(sol2, n) by {
                        assert(pending1.contains(n));
                    }
                }
            },
            None => {
                proof {
                    let vis2 = visited.deep_view();
                    let sol2 = solution@;
                    assert(self.next_names(pkg@) == Seq::<Seq<char>>::empty());
                    assert forall|n: Seq<char>| #[trigger] vis2.contains(n) && !pending.contains(n) implies in_solution(sol2, n) && forall|i: int|
                        0 <= i < self.next_names(n).len() ==> vis2.contains(#[trigger] self.next_names(n)[i]) by {
                        if n == pkg@ {
                            assert(pending1.contains(n));
                        }
                    }
                    assert forall|n: Seq<char>| #[trigger] pending.contains(n) implies vis2.contains(n) && in_solution(sol2, n) by {
                        assert(pending1.contains(n));
                    }
                }
            },
        }
        Ok(())
    }

    /// Solves for the root packages: each required package gets its newest
    /// declared release. Fails, naming a package, when some required
    /// package has no declared release.
    pub fn solve(&self, root_packages: &[String]) -> (r: Result<Vec<(String, String)>, String>)
        ensures
            match r {
                Ok(sol) => {
                    &&& forall|k: int|
                        0 <= k < sol@.len() ==> self.required(texts_of(root_packages@), (#[trigger] sol@[k]).0@)
                            && versions_named(self.releases(), sol@[k].0@).len() > 0 && sol@[k].1@
                            == self.chosen(sol@[k].0@)
                    &&& forall|k: int, l: int|
                        0 <= k < sol@.len() && 0 <= l < sol@.len() && k != l ==> (#[trigger] sol@[k]).0@
                            != (#[trigger] sol@[l]).0@
                    &&& forall|n: Seq<char>| #[trigger] self.required(texts_of(root_packages@), n) ==> in_solution(sol@, n)
                },
                Err(e) => exists|n: Seq<char>|
                    #[trigger] self.required(texts_of(root_packages@), n) && versions_named(
                        self.releases(),
                        n,
                    ).len() == 0 && e@ == "Failed to resolve dependencies: "@ + "Package "@
                        + n + " not found"@,
            },
    {
        let ghost roots = texts_of(root_packages@);
        let mut solution: Vec<(String, String)> = Vec::new();
        let mut visited: Vec<String> = Vec::new();
        assert(visited.deep_view() =~= Seq::<Seq<char>>::empty());
        let mut i: usize = 0;
        while i < root_packages.len()
            invariant
                roots == texts_of(root_packages@),
                0 <= i <= root_packages@.len(),
                self.state_ok(roots, solution@, visited.deep_view(), Set::empty()),
                forall|q: int| 0 <= q < i ==> visited.deep_view().contains(#[trigger] roots[q]),
            decreases root_packages@.len() - i,
        {
            let pkg = &root_packages[i];
            assert(roots[i as int] == pkg@);
            if !contains_text(&visited, pkg.as_str()) {
                let ghost fuel = unvisited(self.releases(), visited.deep_view());
                proof {
                    let p = seq![pkg@];
                    assert(roots.contains(p[0]));
                    assert(self.is_requirement_path(roots, p));
                }
                match self.add_package_to_solution(pkg.as_str(), &mut solution, &mut visited, Ghost(roots), Ghost(Set::empty()), Ghost(fuel)) {
                    Ok(()) => {},
                    Err(e) => {
                        let mut msg = String::new();
                        msg.append("Failed to resolve dependencies: ");
                        msg.append(e.as_str());
                        proof {
                            let n = choose|n: Seq<char>|
                                #[trigger] self.required(roots, n) && versions_named(self.releases(), n).len() == 0
                                    && e@ == "Package "@ + n + " not found"@;
                            assert(msg@ =~= "Failed to resolve dependencies: "@ + "Package "@ + n + " not found"@);
                        }
                        return Err(msg);
                    },
                }
            }
            i = i + 1;
        }
        proof {
            let vis = visited.deep_view();
            assert forall|r: Seq<char>| roots.contains(r) implies vis.contains(r) by {
                let q = choose|q: int| 0 <= q < roots.len() && roots[q] == r;
            }
            assert forall|n: Seq<char>| #[trigger] self.required(roots, n) implies in_solution(solution@, n) by {
                let p = choose|p: Seq<Seq<char>>| #[trigger] self.is_requirement_path(roots, p) && p.last() == n;
                self.lemma_all_required_visited(roots, solution@, vis, p, p.len() - 1);
            }
        }
        Ok(solution)
    }
}

} // verus!
