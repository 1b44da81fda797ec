//! Version conflicts between packages that depend on the same package.
use vstd::prelude::*;
use crate::constraint::{
    parse_dependency, same_text, spec_dependency_name, spec_parse_dependency,
    spec_versions_compatible, versions_compatible,
};
use crate::depmap::{keys_unique, DependencyEntries, DependencyMap};
use crate::models::Package;

verus! {

/// Specification `s` refers to package `dep`.
pub open spec fn names_dependency(s: Seq<char>, dep: Seq<char>) -> bool {
    spec_dependency_name(s) == Some(dep)
}

/// Index of the first specification at or after `k` that refers to `dep`,
/// or the number of specifications when there is none.
pub open spec fn first_naming(specs: Seq<Seq<char>>, dep: Seq<char>, k: int) -> int
    decreases specs.len() - k,
{
    if k < 0 || k >= specs.len() {
        specs.len() as int
    } else if names_dependency(specs[k], dep) {
        k
    } else {
        first_naming(specs, dep, k + 1)
    }
}

/// The constraint a specification list places on `dep`: that of its first
/// specification referring to `dep` (empty when unconstrained), or `None`
/// when no specification refers to it.
pub open spec fn requirement_in(specs: Seq<Seq<char>>, dep: Seq<char>) -> Option<Seq<char>> {
    let q = first_naming(specs, dep, 0);
    if 0 <= q < specs.len() {
        match spec_parse_dependency(specs[q]) {
            Some(p) => Some(p.1),
            None => None,
        }
    } else {
        None
    }
}

/// The constraint package `pkg` declares on `dep`, if any.
pub open spec fn spec_find_version_requirement(m: DependencyEntries, pkg: Seq<char>, dep: Seq<char>) -> Option<Seq<char>> {
    if exists|i: int| 0 <= i < m.len() && #[trigger] m[i].0 == pkg {
        let i = choose|i: int| 0 <= i < m.len() && #[trigger] m[i].0 == pkg;
        requirement_in(m[i].1, dep)
    } else {
        None
    }
}

/// Entries `i` and `j` both constrain `dep`, with non-empty constraints that
/// are not compatible.
pub open spec fn conflict_on(m: DependencyEntries, i: int, j: int, dep: Seq<char>) -> bool {
    0 <= i < m.len() && 0 <= j < m.len() && i != j && match (
        requirement_in(m[i].1, dep),
        requirement_in(m[j].1, dep),
    ) {
        (Some(a), Some(b)) => a.len() > 0 && b.len() > 0 && !spec_versions_compatible(a, b),
        _ => false,
    }
}

/// The description of a conflict: `<dep>(<constraint a>≠<constraint b>)`.
pub open spec fn conflict_description(dep: Seq<char>, a: Seq<char>, b: Seq<char>) -> Seq<char> {
    dep + "("@ + a + "≠"@ + b + ")"@
}

/// The record reported for a conflict between entries `i` and `j` on `dep`.
pub open spec fn conflict_record(m: DependencyEntries, i: int, j: int, dep: Seq<char>) -> (Seq<char>, Seq<char>, Seq<char>) {
    (
        m[i].0,
        m[j].0,
        conflict_description(
            dep,
            requirement_in(m[i].1, dep).unwrap(),
            requirement_in(m[j].1, dep).unwrap(),
        ),
    )
}

/// `rec` is the record of some conflict between an earlier and a later
/// entry.
pub open spec fn is_conflict_record(m: DependencyEntries, rec: (Seq<char>, Seq<char>, Seq<char>)) -> bool {
    exists|i: int, j: int, dep: Seq<char>|
        i < j && #[trigger] conflict_on(m, i, j, dep) && rec == conflict_record(m, i, j, dep)
}

/// The text of a reported record.
pub open spec fn record_view(t: (String, String, String)) -> (Seq<char>, Seq<char>, Seq<char>) {
    (t.0@, t.1@, t.2@)
}

/// Some record of the list reads `rec`.
pub open spec fn has_record(r: Seq<(String, String, String)>, rec: (Seq<char>, Seq<char>, Seq<char>)) -> bool {
    exists|k: int| 0 <= k < r.len() && record_view(#[trigger] r[k]) == rec
}

pub proof fn lemma_first_naming_bounds(specs: Seq<Seq<char>>, dep: Seq<char>, k: int)
    requires
        0 <= k <= specs.len(),
    ensures
        k <= first_naming(specs, dep, k) <= specs.len(),
        forall|q: int| k <= q < first_naming(specs, dep, k) ==> !names_dependency(#[trigger] specs[q], dep),
        first_naming(specs, dep, k) < specs.len() ==> names_dependency(specs[first_naming(specs, dep, k)], dep),
    decreases specs.len() - k,
{
    if k < specs.len() && !names_dependency(specs[k], dep) {
        lemma_first_naming_bounds(specs, dep, k + 1);
    }
}

proof fn lemma_first_naming_at(specs: Seq<Seq<char>>, dep: Seq<char>, q: int)
    requires
        0 <= q < specs.len(),
        names_dependency(specs[q], dep),
        forall|t: int| 0 <= t < q ==> !names_dependency(#[trigger] specs[t], dep),
    ensures
        first_naming(specs, dep, 0) == q,
{
    lemma_first_naming_bounds(specs, dep, 0);
    let f = first_naming(specs, dep, 0);
    if f < q {
        assert(!names_dependency(specs[f], dep));
    }
    if f > q {
        assert(!names_dependency(specs[q], dep));
    }
}

proof fn lemma_records_push(r: Seq<(String, String, String)>, x: (String, String, String))
    ensures
        forall|rec: (Seq<char>, Seq<char>, Seq<char>)|
            #[trigger] has_record(r.push(x), rec) == (has_record(r, rec) || record_view(x) == rec),
{
    let f = r.push(x);
    assert forall|rec: (Seq<char>, Seq<char>, Seq<char>)|
        #[trigger] has_record(f, rec) == (has_record(r, rec) || record_view(x) == rec) by {
        if has_record(r, rec) {
            let k = choose|k: int| 0 <= k < r.len() && record_view(#[trigger] r[k]) == rec;
            assert(f[k] == r[k]);
        }
        if record_view(x) == rec {
            assert(f[r.len() as int] == x);
        }
        if has_record(f, rec) && record_view(x) != rec {
            let k = choose|k: int| 0 <= k < f.len() && record_view(#[trigger] f[k]) == rec;
            assert(r[k] == f[k]);
        }
    }
}

/// The constraint a list of specifications places on `dep`.
fn requirement_of(specs: &Vec<String>, dep: &str) -> (r: Option<String>)
    ensures
        match r {
            Some(c) => requirement_in(specs.deep_view(), dep@) == Some(c@),
            None => requirement_in(specs.deep_view(), dep@).is_none(),
        },
{
    let ghost sv = specs.deep_view();
    proof {
        lemma_first_naming_bounds(sv, dep@, 0);
    }
    let mut q: usize = 0;
    while q < specs.len()
        invariant
            sv == specs.deep_view(),
            0 <= q <= specs@.len(),
            forall|t: int| 0 <= t < q ==> !names_dependency(#[trigger] sv[t], dep@),
        decreases specs@.len() - q,
    {
        assert(sv[q as int] == specs@[q as int]@);
        match parse_dependency(specs[q].as_str()) {
            Some((name, constraint)) => {
                if same_text(name.as_str(), dep) {
                    proof {
                        lemma_first_naming_at(sv, dep@, q as int);
                    }
                    return Some(constraint);
                }
            },
            None => {},
        }
        q = q + 1;
    }
    proof {
        let f = first_naming(sv, dep@, 0);
        if f < sv.len() {
            assert(!names_dependency(sv[f], dep@));
        }
    }
    None
}

/// The constraint that package `pkg` declares on `dep`, looked up in its
/// own specification list; empty when it depends on `dep` without one.
pub fn find_version_requirement(dependency_map: &DependencyMap, pkg: &str, dep: &str) -> (r: Option<String>)
    ensures
        match r {
            Some(c) => spec_find_version_requirement(dependency_map@, pkg@, dep@) == Some(c@),
            None => spec_find_version_requirement(dependency_map@, pkg@, dep@).is_none(),
        },
{
    let _ = dependency_map.len();
    match dependency_map.position(pkg) {
        Some(i) => {
            let ghost m = dependency_map@;
            proof {
                let w = choose|w: int| 0 <= w < m.len() && #[trigger] m[w].0 == pkg@;
                assert(w == i);
            }
            requirement_of(dependency_map.specs_at(i), dep)
        },
        None => None,
    }
}

/// Builds the description `<dep>(<a>≠<b>)`.
fn describe(dep: &String, a: &String, b: &String) -> (r: String)
    ensures
        r@ == conflict_description(dep@, a@, b@),
{
    let mut d = dep.clone();
    d.append("(");
    d.append(a.as_str());
    d.append("≠");
    d.append(b.as_str());
    d.append(")");
    d
}

/// The conflict between entries `a` and `b` on `d` is examined before the
/// spec `q` of entry `i`, while entry `i` is compared with entry `j`.
pub open spec fn done_before(m: DependencyEntries, a: int, b: int, d: Seq<char>, i: int, j: int, q: int) -> bool {
    a < i || (a == i && (b < j || (b == j && first_naming(m[a].1, d, 0) < q)))
}

/// `rec` is the record of a conflict examined before that point.
pub open spec fn record_from(m: DependencyEntries, rec: (Seq<char>, Seq<char>, Seq<char>), i: int, j: int, q: int) -> bool {
    exists|a: int, b: int, d: Seq<char>|
        a < b && #[trigger] conflict_on(m, a, b, d) && rec == conflict_record(m, a, b, d) && done_before(
            m,
            a,
            b,
            d,
            i,
            j,
            q,
        )
}

/// Position `(i, j, q)` comes no later than `(i2, j2, q2)`.
pub open spec fn lex_le(i: int, j: int, q: int, i2: int, j2: int, q2: int) -> bool {
    i < i2 || (i == i2 && (j < j2 || (j == j2 && q <= q2)))
}

proof fn lemma_record_from_later(m: DependencyEntries, rec: (Seq<char>, Seq<char>, Seq<char>), i: int, j: int, q: int, i2: int, j2: int, q2: int)
    requires
        record_from(m, rec, i, j, q),
        lex_le(i, j, q, i2, j2, q2),
    ensures
        record_from(m, rec, i2, j2, q2),
{
    let (a, b, d) = choose|a: int, b: int, d: Seq<char>|
        a < b && #[trigger] conflict_on(m, a, b, d) && rec == conflict_record(m, a, b, d) && done_before(
            m,
            a,
            b,
            d,
            i,
            j,
            q,
        );
    assert(done_before(m, a, b, d, i2, j2, q2));
}

/// A dependency on which two entries conflict is a package name, so it
/// holds no `(`.
proof fn lemma_conflict_dependency_is_name(m: DependencyEntries, a: int, b: int, d: Seq<char>)
    requires
        conflict_on(m, a, b, d),
    ensures
        !d.contains('('),
{
    let specs = m[a].1;
    lemma_first_naming_bounds(specs, d, 0);
    let q = first_naming(specs, d, 0);
    assert(0 <= q < specs.len());
    let s = specs[q];
    assert(names_dependency(s, d));
    crate::constraint::lemma_name_span_bounds(s, 0);
    if d.contains('(') {
        let t = choose|t: int| 0 <= t < d.len() && d[t] == '(';
        assert(d[t] == s[t]);
    }
}

/// The description starts with the dependency, which holds no `(`, so two
/// equal descriptions name the same dependency.
proof fn lemma_description_names_dependency(d1: Seq<char>, x1: Seq<char>, y1: Seq<char>, d2: Seq<char>, x2: Seq<char>, y2: Seq<char>)
    requires
        !d1.contains('('),
        !d2.contains('('),
        conflict_description(d1, x1, y1) == conflict_description(d2, x2, y2),
    ensures
        d1 == d2,
{
    reveal_strlit("(");
    let e = conflict_description(d1, x1, y1);
    assert forall|t: int| 0 <= t < d1.len() implies e[t] == d1[t] by {}
    assert forall|t: int| 0 <= t < d2.len() implies e[t] == d2[t] by {}
    assert(e[d1.len() as int] == '(');
    assert(e[d2.len() as int] == '(');
    if d1.len() < d2.len() {
        assert(d2[d1.len() as int] == '(');
    } else if d2.len() < d1.len() {
        assert(d1[d2.len() as int] == '(');
    } else {
        assert(d1 =~= d2);
    }
}

/// Index of the first specification naming `dep`, or their number.
fn first_naming_index(specs: &Vec<String>, dep: &str) -> (r: usize)
    ensures
        r as int == first_naming(specs.deep_view(), dep@, 0),
{
    let ghost sv = specs.deep_view();
    proof {
        lemma_first_naming_bounds(sv, dep@, 0);
    }
    let mut q: usize = 0;
    while q < specs.len()
        invariant
            sv == specs.deep_view(),
            0 <= q <= specs@.len(),
            forall|t: int| 0 <= t < q ==> !names_dependency(#[trigger] sv[t], dep@),
        decreases specs@.len() - q,
    {
        assert(sv[q as int] == specs@[q as int]@);
        match parse_dependency(specs[q].as_str()) {
            Some((name, _)) => {
                if same_text(name.as_str(), dep) {
                    proof {
                        lemma_first_naming_at(sv, dep@, q as int);
                    }
                    return q;
                }
            },
            None => {},
        }
        q = q + 1;
    }
    proof {
        let f = first_naming(sv, dep@, 0);
        if f < sv.len() {
            assert(!names_dependency(sv[f], dep@));
        }
    }
    specs.len()
}

/// Reports every pair of packages whose constraints on a shared dependency
/// cannot be satisfied together, once per pair and dependency. A pair is
/// examined in the order of the mapping; the first package of a record
/// comes first there.
pub fn detect_conflicts(packages: &[Package], dependency_map: &DependencyMap) -> (r: Vec<(String, String, String)>)
    ensures
        forall|k: int| 0 <= k < r@.len() ==> is_conflict_record(dependency_map@, record_view(#[trigger] r@[k])),
        forall|i: int, j: int, dep: Seq<char>|
            i < j && #[trigger] conflict_on(dependency_map@, i, j, dep) ==> has_record(
                r@,
                conflict_record(dependency_map@, i, j, dep),
            ),
        forall|k: int, l: int|
            0 <= k < r@.len() && 0 <= l < r@.len() && k != l ==> record_view(#[trigger] r@[k]) != record_view(
                #[trigger] r@[l],
            ),
{
    let ghost m = dependency_map@;
    let n = dependency_map.len();
    let mut r: Vec<(String, String, String)> = Vec::new();
    let mut i: usize = 0;
    while i < n
        invariant
            m == dependency_map@,
            keys_unique(m),
            n == m.len(),
            0 <= i <= n,
            forall|k: int| 0 <= k < r@.len() ==> record_from(m, record_view(#[trigger] r@[k]), i as int, 0, 0),
            forall|k: int, l: int|
                0 <= k < r@.len() && 0 <= l < r@.len() && k != l ==> record_view(#[trigger] r@[k]) != record_view(
                    #[trigger] r@[l],
                ),
            forall|a: int, b: int, dep: Seq<char>|
                a < i && a < b && #[trigger] conflict_on(m, a, b, dep) ==> has_record(
                    r@,
                    conflict_record(m, a, b, dep),
                ),
        decreases n - i,
    {
        let mut j: usize = i + 1;
        assert forall|k: int| 0 <= k < r@.len() implies record_from(m, record_view(#[trigger] r@[k]), i as int, j as int, 0) by {
            lemma_record_from_later(m, record_view(r@[k]), i as int, 0, 0, i as int, j as int, 0);
        }
        while j < n
            invariant
                m == dependency_map@,
                keys_unique(m),
                n == m.len(),
                0 <= i < n,
                i + 1 <= j <= n,
                forall|k: int| 0 <= k < r@.len() ==> record_from(m, record_view(#[trigger] r@[k]), i as int, j as int, 0),
                forall|k: int, l: int|
                    0 <= k < r@.len() && 0 <= l < r@.len() && k != l ==> record_view(#[trigger] r@[k]) != record_view(
                        #[trigger] r@[l],
                    ),
                forall|a: int, b: int, dep: Seq<char>|
                    (a < i || (a == i && b < j)) && a < b && #[trigger] conflict_on(m, a, b, dep)
                        ==> has_record(r@, conflict_record(m, a, b, dep)),
            decreases n - j,
        {
            let specs_i = dependency_map.specs_at(i);
            let specs_j = dependency_map.specs_at(j);
            let ghost si = m[i as int].1;
            proof {
                assert forall|dep: Seq<char>| true implies 0 <= #[trigger] first_naming(si, dep, 0) <= si.len() by {
                    lemma_first_naming_bounds(si, dep, 0);
                }
            }
            let mut q: usize = 0;
            while q < specs_i.len()
                invariant
                    m == dependency_map@,
                    keys_unique(m),
                    n == m.len(),
                    0 <= i < j < n,
                    si == m[i as int].1,
                    specs_i.deep_view() == si,
                    specs_j.deep_view() == m[j as int].1,
                    0 <= q <= specs_i@.len(),
                    forall|k: int| 0 <= k < r@.len() ==> record_from(m, record_view(#[trigger] r@[k]), i as int, j as int, q as int),
                    forall|k: int, l: int|
                        0 <= k < r@.len() && 0 <= l < r@.len() && k != l ==> record_view(#[trigger] r@[k]) != record_view(
                            #[trigger] r@[l],
                        ),
                    forall|a: int, b: int, dep: Seq<char>|
                        (a < i || (a == i && b < j)) && a < b && #[trigger] conflict_on(m, a, b, dep)
                            ==> has_record(r@, conflict_record(m, a, b, dep)),
                    forall|dep: Seq<char>|
                        #[trigger] conflict_on(m, i as int, j as int, dep) && first_naming(si, dep, 0)
                            < q ==> has_record(r@, conflict_record(m, i as int, j as int, dep)),
                decreases specs_i@.len() - q,
            {
                assert(si[q as int] == specs_i@[q as int]@);
                let ghost before = r@;
                match parse_dependency(specs_i[q].as_str()) {
                    Some((dep, ca)) => {
                        let first_index = first_naming_index(specs_i, dep.as_str());
                        proof {
                            lemma_first_naming_bounds(si, dep@, 0);
                            assert(names_dependency(si[q as int], dep@));
                            if first_naming(si, dep@, 0) > q {
                                assert(!names_dependency(si[q as int], dep@));
                            }
                        }
                        if first_index == q {
                            match (requirement_of(specs_i, dep.as_str()), requirement_of(specs_j, dep.as_str())) {
                                (Some(a), Some(b)) => {
                                    if a.as_str().unicode_len() > 0 && b.as_str().unicode_len() > 0
                                        && !versions_compatible(a.as_str(), b.as_str()) {
                                        let d = describe(&dep, &a, &b);
                                        let rec = (
                                            dependency_map.key_at(i).clone(),
                                            dependency_map.key_at(j).clone(),
                                            d,
                                        );
                                        assert(conflict_on(m, i as int, j as int, dep@));
                                        assert(record_view(rec) == conflict_record(m, i as int, j as int, dep@));
                                        proof {
                                            lemma_conflict_dependency_is_name(m, i as int, j as int, dep@);
                                            assert forall|k: int| 0 <= k < before.len() implies record_view(#[trigger] before[k]) != record_view(rec) by {
                                                let (a2, b2, d2) = choose|a2: int, b2: int, d2: Seq<char>|
                                                    a2 < b2 && #[trigger] conflict_on(m, a2, b2, d2) && record_view(before[k]) == conflict_record(m, a2, b2, d2)
                                                        && done_before(m, a2, b2, d2, i as int, j as int, q as int);
                                                if record_view(before[k]) == record_view(rec) {
                                                    assert(m[a2].0 == m[i as int].0);
                                                    assert(m[b2].0 == m[j as int].0);
                                                    assert(a2 == i && b2 == j);
                                                    lemma_conflict_dependency_is_name(m, a2, b2, d2);
                                                    lemma_description_names_dependency(
                                                        d2,
                                                        requirement_in(m[a2].1, d2).unwrap(),
                                                        requirement_in(m[b2].1, d2).unwrap(),
                                                        dep@,
                                                        requirement_in(m[i as int].1, dep@).unwrap(),
                                                        requirement_in(m[j as int].1, dep@).unwrap(),
                                                    );
                                                }
                                            }
                                            lemma_records_push(r@, rec);
                                        }
                                        r.push(rec);
                                        proof {
                                            assert(r@[before.len() as int] == rec);
                                            assert forall|k: int| 0 <= k < before.len() implies #[trigger] r@[k] == before[k] by {}
                                            assert forall|k: int, l: int|
                                                0 <= k < r@.len() && 0 <= l < r@.len() && k != l implies record_view(#[trigger] r@[k]) != record_view(
                                                    #[trigger] r@[l],
                                                ) by {
                                                if k < before.len() && l < before.len() {
                                                    assert(r@[k] == before[k] && r@[l] == before[l]);
                                                } else if k < before.len() {
                                                    assert(r@[k] == before[k]);
                                                } else if l < before.len() {
                                                    assert(r@[l] == before[l]);
                                                }
                                            }
                                            assert(done_before(m, i as int, j as int, dep@, i as int, j as int, q + 1));
                                            assert(record_from(m, record_view(rec), i as int, j as int, q + 1));
                                        }
                                    }
                                },
                                _ => {},
                            }
                        }
                        proof {
                            assert forall|k: int| 0 <= k < r@.len() implies record_from(m, record_view(#[trigger] r@[k]), i as int, j as int, q + 1) by {
                                if k < before.len() {
                                    assert(r@[k] == before[k]);
                                    lemma_record_from_later(m, record_view(before[k]), i as int, j as int, q as int, i as int, j as int, q + 1);
                                }
                            }
                            assert forall|dep2: Seq<char>|
                                #[trigger] conflict_on(m, i as int, j as int, dep2) && first_naming(si, dep2, 0)
                                    < q + 1 implies has_record(r@, conflict_record(m, i as int, j as int, dep2)) by {
                                lemma_first_naming_bounds(si, dep2, 0);
                                if first_naming(si, dep2, 0) == q {
                                    assert(names_dependency(si[q as int], dep2));
                                    assert(dep2 == dep@);
                                }
                            }
                        }
                    },
                    None => {
                        proof {
                            assert forall|k: int| 0 <= k < r@.len() implies record_from(m, record_view(#[trigger] r@[k]), i as int, j as int, q + 1) by {
                                lemma_record_from_later(m, record_view(r@[k]), i as int, j as int, q as int, i as int, j as int, q + 1);
                            }
                            assert forall|dep2: Seq<char>|
                                #[trigger] conflict_on(m, i as int, j as int, dep2) && first_naming(si, dep2, 0)
                                    < q + 1 implies has_record(r@, conflict_record(m, i as int, j as int, dep2)) by {
                                lemma_first_naming_bounds(si, dep2, 0);
                                if first_naming(si, dep2, 0) == q {
                                    assert(names_dependency(si[q as int], dep2));
                                }
                            }
                        }
                    },
                }
                q = q + 1;
            }
            proof {
                assert forall|a: int, b: int, dep: Seq<char>|
                    (a < i || (a == i && b < j + 1)) && a < b && #[trigger] conflict_on(m, a, b, dep)
                        implies has_record(r@, conflict_record(m, a, b, dep)) by {
                    if a == i && b == j {
                        lemma_first_naming_bounds(si, dep, 0);
                    }
                }
                assert forall|k: int| 0 <= k < r@.len() implies record_from(m, record_view(#[trigger] r@[k]), i as int, j + 1, 0) by {
                    lemma_record_from_later(m, record_view(r@[k]), i as int, j as int, q as int, i as int, j + 1, 0);
                }
            }
            j = j + 1;
        }
        assert forall|k: int| 0 <= k < r@.len() implies record_from(m, record_view(#[trigger] r@[k]), i + 1, 0, 0) by {
            let (a2, b2, d2) = choose|a2: int, b2: int, d2: Seq<char>|
                a2 < b2 && #[trigger] conflict_on(m, a2, b2, d2) && record_view(r@[k]) == conflict_record(m, a2, b2, d2)
                    && done_before(m, a2, b2, d2, i as int, j as int, 0);
            assert(done_before(m, a2, b2, d2, i + 1, 0, 0));
        }
        i = i + 1;
    }
    assert forall|k: int| 0 <= k < r@.len() implies is_conflict_record(m, record_view(#[trigger] r@[k])) by {
        let (a2, b2, d2) = choose|a2: int, b2: int, d2: Seq<char>|
            a2 < b2 && #[trigger] conflict_on(m, a2, b2, d2) && record_view(r@[k]) == conflict_record(m, a2, b2, d2)
                && done_before(m, a2, b2, d2, i as int, 0, 0);
    }
    r
}

/// Conflict detection is symmetric: swapping the two packages gives a
/// conflict on the same dependency, with the two names and the two
/// constraints swapped in the record.
pub proof fn lemma_conflict_symmetric(m: DependencyEntries, i: int, j: int, dep: Seq<char>)
    ensures
        conflict_on(m, i, j, dep) == conflict_on(m, j, i, dep),
        conflict_on(m, i, j, dep) ==> conflict_record(m, j, i, dep) == (
            m[j].0,
            m[i].0,
            conflict_description(
                dep,
                requirement_in(m[j].1, dep).unwrap(),
                requirement_in(m[i].1, dep).unwrap(),
            ),
        ),
{
    match (requirement_in(m[i].1, dep), requirement_in(m[j].1, dep)) {
        (Some(a), Some(b)) => {
            crate::constraint::lemma_compatible_symmetric(a, b);
        },
        _ => {},
    }
}

/// The mapping with the specification lists of entries `i` and `j`
/// exchanged, each keeping its package name.
pub open spec fn swap_lists(m: DependencyEntries, i: int, j: int) -> DependencyEntries {
    m.update(i, (m[i].0, m[j].1)).update(j, (m[j].0, m[i].1))
}

/// Swapping the roles of two packages (exchanging their specification
/// lists) and detecting again still yields a conflict between the same two
/// packages on the same shared dependency, its two constraints exchanged.
/// With `detect_conflicts`'s contract, the re-run reports that record.
pub proof fn lemma_conflict_survives_swapped_lists(m: DependencyEntries, i: int, j: int, dep: Seq<char>)
    requires
        0 <= i < j < m.len(),
        conflict_on(m, i, j, dep),
    ensures
        keys_unique(m) ==> keys_unique(swap_lists(m, i, j)),
        conflict_on(swap_lists(m, i, j), i, j, dep),
        conflict_record(swap_lists(m, i, j), i, j, dep) == (
            m[i].0,
            m[j].0,
            conflict_description(
                dep,
                requirement_in(m[j].1, dep).unwrap(),
                requirement_in(m[i].1, dep).unwrap(),
            ),
        ),
{
    let m2 = swap_lists(m, i, j);
    assert(m2[i] == (m[i].0, m[j].1));
    assert(m2[j] == (m[j].0, m[i].1));
    lemma_conflict_symmetric(m, i, j, dep);
    if keys_unique(m) {
        assert forall|a: int, b: int| 0 <= a < m2.len() && 0 <= b < m2.len() && a != b implies m2[a].0 != m2[b].0 by {
            assert(m2[a].0 == m[a].0 && m2[b].0 == m[b].0);
        }
    }
}

/// A conflict is only ever reported for a dependency that two distinct
/// packages declare, each with a non-empty constraint.
pub proof fn lemma_conflict_needs_two_dependents(m: DependencyEntries, i: int, j: int, dep: Seq<char>)
    requires
        keys_unique(m),
        conflict_on(m, i, j, dep),
    ensures
        m[i].0 != m[j].0,
        requirement_in(m[i].1, dep).is_some(),
        requirement_in(m[j].1, dep).is_some(),
        exists|q: int| 0 <= q < m[i].1.len() && #[trigger] names_dependency(m[i].1[q], dep),
        exists|q: int| 0 <= q < m[j].1.len() && #[trigger] names_dependency(m[j].1[q], dep),
{
    lemma_first_naming_bounds(m[i].1, dep, 0);
    lemma_first_naming_bounds(m[j].1, dep, 0);
    let qi = first_naming(m[i].1, dep, 0);
    let qj = first_naming(m[j].1, dep, 0);
    assert(names_dependency(m[i].1[qi], dep));
    assert(names_dependency(m[j].1[qj], dep));
}

} // verus!
