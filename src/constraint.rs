//! Dependency specification strings (`<name><operator><version>`) and the
//! compatibility of two version constraints.
use vstd::prelude::*;
use crate::semver_bridge::{
    requirement_admits, semver_requirement_matches, semver_requirement_valid,
};

verus! {

/// A character that may appear in a package name.
pub open spec fn is_name_char(c: char) -> bool {
    ('a' <= c && c <= 'z') || ('A' <= c && c <= 'Z') || ('0' <= c && c <= '9') || c == '_'
        || c == '-'
}

/// A character that starts a version constraint.
pub open spec fn is_operator_char(c: char) -> bool {
    c == '<' || c == '>' || c == '=' || c == '~' || c == '^'
}

/// The end of the run of name characters that starts at `i`.
pub open spec fn name_span(s: Seq<char>, i: int) -> int
    decreases s.len() - i,
{
    if i < 0 || i >= s.len() || !is_name_char(s[i]) {
        i
    } else {
        name_span(s, i + 1)
    }
}

/// The length of the package name at the start of a specification.
pub open spec fn name_length(s: Seq<char>) -> int {
    name_span(s, 0)
}

/// What follows the name must be empty, or an operator followed by at least
/// one more character, all on one line.
pub open spec fn is_constraint_text(rest: Seq<char>) -> bool {
    rest.len() == 0 || (rest.len() >= 2 && is_operator_char(rest[0]) && !rest.contains('\n'))
}

/// The `(name, constraint)` pair of a dependency specification: a non-empty
/// name over `[A-Za-z0-9_-]`, then either nothing or a constraint; `None`
/// when the text has another shape.
pub open spec fn spec_parse_dependency(s: Seq<char>) -> Option<(Seq<char>, Seq<char>)> {
    let k = name_length(s);
    let rest = s.subrange(k, s.len() as int);
    if k > 0 && is_constraint_text(rest) {
        Some((s.subrange(0, k), rest))
    } else {
        None
    }
}

/// The name a specification refers to, if it parses.
pub open spec fn spec_dependency_name(s: Seq<char>) -> Option<Seq<char>> {
    match spec_parse_dependency(s) {
        Some(p) => Some(p.0),
        None => None,
    }
}

pub proof fn lemma_name_span_bounds(s: Seq<char>, i: int)
    requires
        0 <= i <= s.len(),
    ensures
        i <= name_span(s, i) <= s.len(),
        forall|j: int| i <= j < name_span(s, i) ==> is_name_char(#[trigger] s[j]),
        name_span(s, i) < s.len() ==> !is_name_char(s[name_span(s, i)]),
    decreases s.len() - i,
{
    if i < s.len() && is_name_char(s[i]) {
        lemma_name_span_bounds(s, i + 1);
    }
}

fn is_name_char_exec(c: char) -> (r: bool)
    ensures
        r == is_name_char(c),
{
    ('a' <= c && c <= 'z') || ('A' <= c && c <= 'Z') || ('0' <= c && c <= '9') || c == '_'
        || c == '-'
}

fn is_operator_char_exec(c: char) -> (r: bool)
    ensures
        r == is_operator_char(c),
{
    c == '<' || c == '>' || c == '=' || c == '~' || c == '^'
}

/// Whether two texts hold the same characters.
pub fn same_text(a: &str, b: &str) -> (r: bool)
    ensures
        r == (a@ == b@),
{
    let n = a.unicode_len();
    if n != b.unicode_len() {
        return false;
    }
    let mut i: usize = 0;
    while i < n
        invariant
            n == a@.len(),
            n == b@.len(),
            0 <= i <= n,
            forall|j: int| 0 <= j < i ==> a@[j] == b@[j],
        decreases n - i,
    {
        if a.get_char(i) != b.get_char(i) {
            return false;
        }
        i = i + 1;
    }
    assert(a@ =~= b@);
    true
}

/// Splits a dependency specification into its package name and its
/// constraint (empty when there is none); `None` when the text is not of
/// that shape.
pub fn parse_dependency(dep_str: &str) -> (r: Option<(String, String)>)
    ensures
        match r {
            Some((name, constraint)) => spec_parse_dependency(dep_str@) == Some(
                (name@, constraint@),
            ),
            None => spec_parse_dependency(dep_str@).is_none(),
        },
{
    let ghost s = dep_str@;
    let n = dep_str.unicode_len();
    let mut k: usize = 0;
    while k < n && is_name_char_exec(dep_str.get_char(k))
        invariant
            s == dep_str@,
            n == s.len(),
            0 <= k <= n,
            name_span(s, k as int) == name_span(s, 0),
        decreases n - k,
    {
        k = k + 1;
    }
    proof {
        lemma_name_span_bounds(s, 0);
    }
    assert(name_length(s) == k);
    if k == 0 {
        return None;
    }
    let name = dep_str.substring_char(0, k).to_owned();
    if k == n {
        let constraint = String::new();
        assert(s.subrange(k as int, n as int) =~= constraint@);
        return Some((name, constraint));
    }
    if n - k < 2 || !is_operator_char_exec(dep_str.get_char(k)) {
        return None;
    }
    let mut j: usize = k;
    while j < n
        invariant
            s == dep_str@,
            n == s.len(),
            k <= j <= n,
            name_length(s) == k,
            k > 0,
            forall|t: int| k <= t < j ==> s[t] != '\n',
        decreases n - j,
    {
        if dep_str.get_char(j) == '\n' {
            let ghost rest = s.subrange(k as int, n as int);
            assert(rest[j - k] == '\n');
            assert(rest.contains('\n'));
            assert(!is_constraint_text(rest));
            return None;
        }
        j = j + 1;
    }
    let constraint = dep_str.substring_char(k, n).to_owned();
    let ghost rest = s.subrange(k as int, n as int);
    assert(!rest.contains('\n')) by {
        if rest.contains('\n') {
            let t = choose|t: int| 0 <= t < rest.len() && rest[t] == '\n';
            assert(s[k + t] == '\n');
        }
    }
    Some((name, constraint))
}

/// Number of versions in the probe set.
pub const PROBE_COUNT: usize = 10;

/// The probe set against which two version ranges are tested for a common
/// release. Ranges whose only common releases lie outside this set are
/// reported as incompatible: the check is a deliberately small heuristic.
pub open spec fn probe_version(i: int) -> (u64, u64, u64) {
    if i == 0 {
        (0, 1, 0)
    } else if i == 1 {
        (1, 0, 0)
    } else if i == 2 {
        (1, 1, 0)
    } else if i == 3 {
        (1, 2, 3)
    } else if i == 4 {
        (2, 0, 0)
    } else if i == 5 {
        (2, 3, 4)
    } else if i == 6 {
        (3, 0, 0)
    } else if i == 7 {
        (3, 4, 5)
    } else if i == 8 {
        (4, 0, 0)
    } else {
        (4, 5, 6)
    }
}

fn probe(i: usize) -> (r: (u64, u64, u64))
    ensures
        r == probe_version(i as int),
{
    if i == 0 {
        (0, 1, 0)
    } else if i == 1 {
        (1, 0, 0)
    } else if i == 2 {
        (1, 1, 0)
    } else if i == 3 {
        (1, 2, 3)
    } else if i == 4 {
        (2, 0, 0)
    } else if i == 5 {
        (2, 3, 4)
    } else if i == 6 {
        (3, 0, 0)
    } else if i == 7 {
        (3, 4, 5)
    } else if i == 8 {
        (4, 0, 0)
    } else {
        (4, 5, 6)
    }
}

/// Whether probe `i` satisfies both constraints.
pub open spec fn probe_admits_both(a: Seq<char>, b: Seq<char>, i: int) -> bool {
    let v = probe_version(i);
    semver_requirement_matches(a, v.0, v.1, v.2) && semver_requirement_matches(b, v.0, v.1, v.2)
}

/// Two constraints are compatible when either is empty or `any`, when they
/// are the same text, or when both are semantic-version ranges and some
/// probe version satisfies both.
pub open spec fn spec_versions_compatible(a: Seq<char>, b: Seq<char>) -> bool {
    a.len() == 0 || b.len() == 0 || a == "any"@ || b == "any"@ || a == b || (
    semver_requirement_valid(a) && semver_requirement_valid(b) && exists|i: int|
        0 <= i < PROBE_COUNT && #[trigger] probe_admits_both(a, b, i))
}

/// Decides whether two version constraints admit a common version.
pub fn versions_compatible(ver1: &str, ver2: &str) -> (r: bool)
    ensures
        r == spec_versions_compatible(ver1@, ver2@),
{
    if ver1.unicode_len() == 0 || ver2.unicode_len() == 0 || same_text(ver1, "any") || same_text(
        ver2,
        "any",
    ) || same_text(ver1, ver2) {
        return true;
    }
    let mut i: usize = 0;
    while i < PROBE_COUNT
        invariant
            0 <= i <= PROBE_COUNT,
            !(ver1@.len() == 0 || ver2@.len() == 0 || ver1@ == "any"@ || ver2@ == "any"@ || ver1@
                == ver2@),
            forall|j: int| 0 <= j < i ==> !probe_admits_both(ver1@, ver2@, j),
        decreases PROBE_COUNT - i,
    {
        let (major, minor, patch) = probe(i);
        let a = requirement_admits(ver1, major, minor, patch);
        let b = requirement_admits(ver2, major, minor, patch);
        match (a, b) {
            (Some(x), Some(y)) => {
                if x && y {
                    assert(probe_admits_both(ver1@, ver2@, i as int));
                    return true;
                }
            },
            _ => {
                return false;
            },
        }
        i = i + 1;
    }
    false
}

/// Compatibility does not depend on the order of the two constraints.
pub proof fn lemma_compatible_symmetric(a: Seq<char>, b: Seq<char>)
    ensures
        spec_versions_compatible(a, b) == spec_versions_compatible(b, a),
{
    if spec_versions_compatible(a, b) && !(a.len() == 0 || b.len() == 0 || a == "any"@ || b
        == "any"@ || a == b) {
        let i = choose|i: int| 0 <= i < PROBE_COUNT && #[trigger] probe_admits_both(a, b, i);
        assert(probe_admits_both(b, a, i));
    }
    if spec_versions_compatible(b, a) && !(a.len() == 0 || b.len() == 0 || a == "any"@ || b
        == "any"@ || a == b) {
        let i = choose|i: int| 0 <= i < PROBE_COUNT && #[trigger] probe_admits_both(b, a, i);
        assert(probe_admits_both(a, b, i));
    }
}

/// Identical constraints are always compatible.
pub proof fn lemma_identical_compatible(a: Seq<char>)
    ensures
        spec_versions_compatible(a, a),
{
}

} // verus!
