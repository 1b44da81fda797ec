//! Offline vulnerability checks: a table of known vulnerable releases, a
//! warning for packages far behind their latest release, and removal of
//! repeated findings.
use vstd::prelude::*;
use crate::constraint::same_text;
use crate::models::Package;
use crate::parsers::{trim_text, trimmed};
use crate::semver_bridge::{semver_version_order, semver_version_valid, version_order};
use crate::text::{find_char, first_index_of, lemma_first_index_of_bounds, starts_with};

verus! {

/// A finding: package, version, description.
pub type Finding = (String, String, String);

/// The text of a finding.
pub open spec fn finding_view(f: Finding) -> (Seq<char>, Seq<char>, Seq<char>) {
    (f.0@, f.1@, f.2@)
}

/// The texts of a list of findings.
pub open spec fn findings_view(v: Seq<Finding>) -> Seq<(Seq<char>, Seq<char>, Seq<char>)> {
    Seq::new(v.len(), |i: int| finding_view(v[i]))
}

/// Whether `version` falls under a vulnerable release `pattern`: it starts
/// with the pattern; or, where both are semantic versions, it is not newer;
/// or else both are the same text once trimmed.
pub open spec fn spec_is_vulnerable_version(version: Seq<char>, pattern: Seq<char>) -> bool {
    (pattern.len() <= version.len() && version.subrange(0, pattern.len() as int) == pattern) || if semver_version_valid(version)
        && semver_version_valid(pattern) {
        semver_version_order(version, pattern) <= 0
    } else {
        trimmed(version) == trimmed(pattern)
    }
}

/// Whether `version` falls under the vulnerable release `vulnerable_pattern`.
pub fn is_vulnerable_version(version: &str, vulnerable_pattern: &str) -> (r: bool)
    ensures
        r == spec_is_vulnerable_version(version@, vulnerable_pattern@),
{
    if starts_with(version, vulnerable_pattern) {
        return true;
    }
    match version_order(version, vulnerable_pattern) {
        Some(o) => o <= 0,
        None => {
            let a = trim_text(version);
            let b = trim_text(vulnerable_pattern);
            same_text(a.as_str(), b.as_str())
        },
    }
}

/// Number of entries in the table of known vulnerable releases.
pub const LOCAL_ADVISORY_COUNT: usize = 20;

/// Entry `i` of the table of known vulnerable releases: package, release
/// pattern, description.
pub open spec fn local_advisory(i: int) -> (Seq<char>, Seq<char>, Seq<char>) {
    if i == 0 {
        ("log4j"@, "2.0"@, "Log4Shell vulnerability, CVE-2021-44228"@)
    } else if i == 1 {
        ("numpy"@, "1.19.0"@, "Buffer overflow in numpy.lib.arraypad, CVE-2021-33430"@)
    } else if i == 2 {
        ("tensorflow"@, "2.4.0"@, "Integer overflow in TensorFlow, CVE-2021-37678"@)
    } else if i == 3 {
        ("torch"@, "1.4"@, "Improper size validation in older PyTorch, CVE-2022-45907"@)
    } else if i == 4 {
        ("pillow"@, "8.3.0"@, "Multiple buffer overflow vulnerabilities, CVE-2021-34552"@)
    } else if i == 5 {
        ("django"@, "2.0"@, "XSS vulnerability in Django admin, CVE-2019-19844"@)
    } else if i == 6 {
        ("django"@, "1.11"@, "Potential SQL injection in Django, CVE-2020-9402"@)
    } else if i == 7 {
        ("requests"@, "2.2"@, "SSRF vulnerability in Requests, CVE-2018-18074"@)
    } else if i == 8 {
        ("flask"@, "0.12"@, "Session fixation in Flask, CVE-2018-1000656"@)
    } else if i == 9 {
        ("jinja2"@, "2.10"@, "Sandbox bypass in Jinja2, CVE-2019-10906"@)
    } else if i == 10 {
        ("sqlalchemy"@, "1.3.0"@, "SQL injection in SQLAlchemy, CVE-2019-7164"@)
    } else if i == 11 {
        ("cryptography"@, "2.8"@, "Improper certificate validation, CVE-2020-25659"@)
    } else if i == 12 {
        ("werkzeug"@, "0.14"@, "Open redirect vulnerability, CVE-2019-14806"@)
    } else if i == 13 {
        ("click"@, "7.0"@, "Command argument injection, CVE-2021-29622"@)
    } else if i == 14 {
        ("pandas"@, "0.24"@, "Use-after-free in read_stata, CVE-2020-13091"@)
    } else if i == 15 {
        ("nltk"@, "3.4"@, "Arbitrary code execution in nltk, CVE-2019-14751"@)
    } else if i == 16 {
        ("lxml"@, "4.6.2"@, "XML external entity vulnerability, CVE-2021-28957"@)
    } else if i == 17 {
        ("psycopg2"@, "2.8.5"@, "SQL injection vulnerability, CVE-2022-31116"@)
    } else if i == 18 {
        ("scipy"@, "1.5.0"@, "Buffer overflow in scipy.special, CVE-2020-15864"@)
    } else {
        ("tornado"@, "6.0.3"@, "Improper certificate validation, CVE-2020-28476"@)
    }
}

fn local_advisory_at(i: usize) -> (r: (&'static str, &'static str, &'static str))
    ensures
        (r.0@, r.1@, r.2@) == local_advisory(i as int),
{
    if i == 0 {
        ("log4j", "2.0", "Log4Shell vulnerability, CVE-2021-44228")
    } else if i == 1 {
        ("numpy", "1.19.0", "Buffer overflow in numpy.lib.arraypad, CVE-2021-33430")
    } else if i == 2 {
        ("tensorflow", "2.4.0", "Integer overflow in TensorFlow, CVE-2021-37678")
    } else if i == 3 {
        ("torch", "1.4", "Improper size validation in older PyTorch, CVE-2022-45907")
    } else if i == 4 {
        ("pillow", "8.3.0", "Multiple buffer overflow vulnerabilities, CVE-2021-34552")
    } else if i == 5 {
        ("django", "2.0", "XSS vulnerability in Django admin, CVE-2019-19844")
    } else if i == 6 {
        ("django", "1.11", "Potential SQL injection in Django, CVE-2020-9402")
    } else if i == 7 {
        ("requests", "2.2", "SSRF vulnerability in Requests, CVE-2018-18074")
    } else if i == 8 {
        ("flask", "0.12", "Session fixation in Flask, CVE-2018-1000656")
    } else if i == 9 {
        ("jinja2", "2.10", "Sandbox bypass in Jinja2, CVE-2019-10906")
    } else if i == 10 {
        ("sqlalchemy", "1.3.0", "SQL injection in SQLAlchemy, CVE-2019-7164")
    } else if i == 11 {
        ("cryptography", "2.8", "Improper certificate validation, CVE-2020-25659")
    } else if i == 12 {
        ("werkzeug", "0.14", "Open redirect vulnerability, CVE-2019-14806")
    } else if i == 13 {
        ("click", "7.0", "Command argument injection, CVE-2021-29622")
    } else if i == 14 {
        ("pandas", "0.24", "Use-after-free in read_stata, CVE-2020-13091")
    } else if i == 15 {
        ("nltk", "3.4", "Arbitrary code execution in nltk, CVE-2019-14751")
    } else if i == 16 {
        ("lxml", "4.6.2", "XML external entity vulnerability, CVE-2021-28957")
    } else if i == 17 {
        ("psycopg2", "2.8.5", "SQL injection vulnerability, CVE-2022-31116")
    } else if i == 18 {
        ("scipy", "1.5.0", "Buffer overflow in scipy.special, CVE-2020-15864")
    } else {
        ("tornado", "6.0.3", "Improper certificate validation, CVE-2020-28476")
    }
}

/// The findings of the first `n` table entries for a package at a version.
pub open spec fn local_findings(name: Seq<char>, version: Seq<char>, n: int) -> Seq<(Seq<char>, Seq<char>, Seq<char>)>
    decreases n,
{
    if n <= 0 {
        Seq::empty()
    } else {
        let e = local_advisory(n - 1);
        local_findings(name, version, n - 1) + if name == e.0 && spec_is_vulnerable_version(version, e.1) {
            seq![(name, version, e.2)]
        } else {
            Seq::empty()
        }
    }
}

/// Appends a finding for every table entry that names the package and
/// covers its version.
pub fn check_local_vulnerability_db(package: &Package, version: &str, vulnerabilities: &mut Vec<Finding>)
    ensures
        findings_view(final(vulnerabilities)@) == findings_view(old(vulnerabilities)@) + local_findings(
            package.name@,
            version@,
            LOCAL_ADVISORY_COUNT as int,
        ),
{
    let ghost start = findings_view(vulnerabilities@);
    let mut i: usize = 0;
    assert(findings_view(vulnerabilities@) =~= start + local_findings(package.name@, version@, 0));
    while i < LOCAL_ADVISORY_COUNT
        invariant
            0 <= i <= LOCAL_ADVISORY_COUNT,
            findings_view(vulnerabilities@) == start + local_findings(package.name@, version@, i as int),
        decreases LOCAL_ADVISORY_COUNT - i,
    {
        let ghost before = findings_view(vulnerabilities@);
        let (pkg, ver, desc) = local_advisory_at(i);
        if same_text(package.name.as_str(), pkg) && is_vulnerable_version(version, ver) {
            let f = (package.name.clone(), version.to_owned(), desc.to_owned());
            vulnerabilities.push(f);
            assert(findings_view(vulnerabilities@) =~= before + seq![finding_view(f)]);
        } else {
            assert(before + Seq::<(Seq<char>, Seq<char>, Seq<char>)>::empty() =~= before);
        }
        i = i + 1;
    }
}

/// The value of a run of decimal digits.
pub open spec fn digits_value(s: Seq<char>) -> int
    decreases s.len(),
{
    if s.len() == 0 {
        0
    } else {
        digits_value(s.drop_last()) * 10 + (s.last() as int - '0' as int)
    }
}

/// Every character is a decimal digit.
pub open spec fn all_digits(s: Seq<char>) -> bool {
    forall|i: int| 0 <= i < s.len() ==> '0' <= #[trigger] s[i] <= '9'
}

/// The `u32` that `str::parse::<u32>` reads: an optional `+`, then one or
/// more decimal digits whose value fits.
pub open spec fn spec_parse_u32(s: Seq<char>) -> Option<u32> {
    let d = if s.len() > 0 && s[0] == '+' {
        s.subrange(1, s.len() as int)
    } else {
        s
    };
    if d.len() > 0 && all_digits(d) && digits_value(d) <= u32::MAX {
        Some(digits_value(d) as u32)
    } else {
        None
    }
}

proof fn lemma_digits_value_grows(s: Seq<char>, k: int)
    requires
        all_digits(s),
        0 <= k <= s.len(),
    ensures
        0 <= digits_value(s.take(k)) <= digits_value(s),
    decreases s.len() - k,
{
    if k < s.len() {
        lemma_digits_value_grows(s, k + 1);
        assert(s.take(k + 1).drop_last() =~= s.take(k));
        assert('0' <= s[k] <= '9');
    } else {
        assert(s.take(k) =~= s);
    }
    lemma_digits_value_nonneg(s.take(k));
}

proof fn lemma_digits_value_nonneg(s: Seq<char>)
    requires
        all_digits(s),
    ensures
        digits_value(s) >= 0,
    decreases s.len(),
{
    if s.len() > 0 {
        assert(all_digits(s.drop_last())) by {
            assert forall|i: int| 0 <= i < s.drop_last().len() implies '0' <= #[trigger] s.drop_last()[i] <= '9' by {
                assert(s.drop_last()[i] == s[i]);
            }
        }
        lemma_digits_value_nonneg(s.drop_last());
        assert('0' <= s[s.len() - 1] <= '9');
    }
}

/// Reads a `u32` as `str::parse::<u32>` does.
pub fn parse_u32(s: &str) -> (r: Option<u32>)
    ensures
        r == spec_parse_u32(s@),
{
    let n = s.unicode_len();
    let start: usize = if n > 0 && s.get_char(0) == '+' {
        1
    } else {
        0
    };
    let ghost d = if s@.len() > 0 && s@[0] == '+' {
        s@.subrange(1, s@.len() as int)
    } else {
        s@
    };
    assert(d =~= s@.subrange(start as int, n as int));
    if start == n {
        return None;
    }
    let mut value: u64 = 0;
    let mut i: usize = start;
    assert(d.take(0) =~= Seq::<char>::empty());
    while i < n
        invariant
            n == s@.len(),
            start <= i <= n,
            d == s@.subrange(start as int, n as int),
            d == (if s@.len() > 0 && s@[0] == '+' {
                s@.subrange(1, s@.len() as int)
            } else {
                s@
            }),
            start < n,
            all_digits(d.take(i - start)),
            value as int == digits_value(d.take(i - start)),
            value <= u32::MAX,
        decreases n - i,
    {
        let c = s.get_char(i);
        assert(d[i - start] == c);
        if c < '0' || c > '9' {
            assert(!all_digits(d)) by {
                assert(!('0' <= d[i - start] <= '9'));
            }
            assert(spec_parse_u32(s@).is_none());
            return None;
        }
        let digit = (c as u32 - '0' as u32) as u64;
        assert(d.take(i - start + 1).drop_last() =~= d.take(i - start));
        assert(d.take(i - start + 1).last() == c);
        assert(all_digits(d.take(i - start + 1))) by {
            assert forall|q: int| 0 <= q < d.take(i - start + 1).len() implies '0' <= #[trigger] d.take(i - start + 1)[q] <= '9' by {
                if q < i - start {
                    assert(d.take(i - start + 1)[q] == d.take(i - start)[q]);
                }
            }
        }
        let next = value * 10 + digit;
        assert(digit as int == c as int - '0' as int);
        assert(digits_value(d.take(i - start + 1)) == next as int);
        if next > u32::MAX as u64 {
            proof {
                if all_digits(d) {
                    lemma_digits_value_grows(d, i - start + 1);
                }
            }
            return None;
        }
        value = next;
        i = i + 1;
    }
    assert(d.take(n - start) =~= d);
    Some(value as u32)
}

/// `major.minor.patch` of a version whose first three dot-separated parts
/// all read as `u32`; `None` for fewer parts or another shape.
pub open spec fn spec_parse_triple(v: Seq<char>) -> Option<(u32, u32, u32)> {
    let d1 = first_index_of(v, '.', 0);
    let d2 = first_index_of(v, '.', d1 + 1);
    let d3 = first_index_of(v, '.', d2 + 1);
    let end = if d3 < 0 {
        v.len() as int
    } else {
        d3
    };
    if d1 < 0 || d2 < 0 {
        None
    } else {
        match (
            spec_parse_u32(v.subrange(0, d1)),
            spec_parse_u32(v.subrange(d1 + 1, d2)),
            spec_parse_u32(v.subrange(d2 + 1, end)),
        ) {
            (Some(a), Some(b), Some(c)) => Some((a, b, c)),
            _ => None,
        }
    }
}

fn parse_triple(v: &str) -> (r: Option<(u32, u32, u32)>)
    ensures
        r == spec_parse_triple(v@),
{
    let n = v.unicode_len();
    let d1 = match find_char(v, '.', 0) {
        Some(i) => i,
        None => {
            return None;
        },
    };
    let d2 = match find_char(v, '.', d1 + 1) {
        Some(i) => i,
        None => {
            return None;
        },
    };
    let end = match find_char(v, '.', d2 + 1) {
        Some(i) => i,
        None => n,
    };
    let a = parse_u32(v.substring_char(0, d1));
    let b = parse_u32(v.substring_char(d1 + 1, d2));
    let c = parse_u32(v.substring_char(d2 + 1, end));
    match (a, b, c) {
        (Some(a), Some(b), Some(c)) => Some((a, b, c)),
        _ => None,
    }
}

/// A gap is significant when the latest release has a higher major
/// version, or the same major and a minor version at least two higher;
/// versions that do not read as `major.minor.patch` never are.
pub open spec fn spec_version_gap_significant(current: Seq<char>, latest: Seq<char>) -> bool {
    match (spec_parse_triple(current), spec_parse_triple(latest)) {
        (Some(c), Some(l)) => l.0 > c.0 || (l.0 == c.0 && l.1 >= c.1 + 2),
        _ => false,
    }
}

/// Whether `current` lags `latest` far enough to warrant a warning.
pub fn version_gap_significant(current: &str, latest: &str) -> (r: bool)
    ensures
        r == spec_version_gap_significant(current@, latest@),
{
    match (parse_triple(current), parse_triple(latest)) {
        (Some(c), Some(l)) => l.0 > c.0 || (l.0 == c.0 && l.1 as u64 >= c.1 as u64 + 2),
        _ => false,
    }
}

/// The warning for a package far behind its latest release.
pub open spec fn gap_warning(version: Seq<char>, latest: Seq<char>) -> Seq<char> {
    "Potentially vulnerable due to being significantly outdated (current: "@ + version + ", latest: "@
        + latest + ")"@
}

/// Appends a warning when an outdated package is far behind its latest
/// release.
pub fn check_version_gap(package: &Package, version: &str, vulnerabilities: &mut Vec<Finding>)
    ensures
        findings_view(final(vulnerabilities)@) == findings_view(old(vulnerabilities)@) + match package.latest_version {
            Some(latest) => if package.is_outdated && spec_version_gap_significant(version@, latest@) {
                seq![(package.name@, version@, gap_warning(version@, latest@))]
            } else {
                Seq::empty()
            },
            None => Seq::empty(),
        },
{
    let ghost before = findings_view(vulnerabilities@);
    match &package.latest_version {
        Some(latest) => {
            if package.is_outdated && version_gap_significant(version, latest.as_str()) {
                let mut message = String::new();
                message.append("Potentially vulnerable due to being significantly outdated (current: ");
                message.append(version);
                message.append(", latest: ");
                message.append(latest.as_str());
                message.append(")");
                let f = (package.name.clone(), version.to_owned(), message);
                vulnerabilities.push(f);
                assert(findings_view(vulnerabilities@) =~= before + seq![finding_view(f)]);
                return;
            }
        },
        None => {},
    }
    assert(findings_view(vulnerabilities@) =~= before + Seq::<(Seq<char>, Seq<char>, Seq<char>)>::empty());
}

/// Findings with repeats removed: each is kept unless an earlier one has
/// the same package, version and description.
pub open spec fn dedup_findings(s: Seq<(Seq<char>, Seq<char>, Seq<char>)>) -> Seq<(Seq<char>, Seq<char>, Seq<char>)>
    decreases s.len(),
{
    if s.len() == 0 {
        Seq::empty()
    } else {
        let prev = dedup_findings(s.drop_last());
        if exists|j: int| 0 <= j < s.len() - 1 && #[trigger] s[j] == s.last() {
            prev
        } else {
            prev.push(s.last())
        }
    }
}

/// Whether two findings have the same package, version and description.
fn same_finding(a: &Finding, b: &Finding) -> (r: bool)
    ensures
        r == (finding_view(*a) == finding_view(*b)),
{
    same_text(a.0.as_str(), b.0.as_str()) && same_text(a.1.as_str(), b.1.as_str()) && same_text(
        a.2.as_str(),
        b.2.as_str(),
    )
}

/// Removes repeated findings, keeping the first of each.
pub fn deduplicate_vulnerabilities(vulnerabilities: &mut Vec<Finding>)
    ensures
        findings_view(final(vulnerabilities)@) == dedup_findings(findings_view(old(vulnerabilities)@)),
{
    let ghost all = findings_view(vulnerabilities@);
    let mut kept: Vec<Finding> = Vec::new();
    let mut i: usize = 0;
    assert(findings_view(kept@) =~= dedup_findings(all.take(0)));
    while i < vulnerabilities.len()
        invariant
            all == findings_view(vulnerabilities@),
            0 <= i <= all.len(),
            findings_view(kept@) == dedup_findings(all.take(i as int)),
        decreases all.len() - i,
    {
        let ghost before = findings_view(kept@);
        let f = &vulnerabilities[i];
        assert(finding_view(*f) == all[i as int]);
        let mut seen = false;
        let mut j: usize = 0;
        while j < i
            invariant
                0 <= j <= i,
                i < all.len(),
                all == findings_view(vulnerabilities@),
                *f == vulnerabilities@[i as int],
                seen == exists|q: int| 0 <= q < j && #[trigger] all[q] == all[i as int],
            decreases i - j,
        {
            assert(all[j as int] == finding_view(vulnerabilities@[j as int]));
            if !seen && same_finding(&vulnerabilities[j], f) {
                seen = true;
            }
            proof {
                if seen && !(exists|q: int| 0 <= q < j && #[trigger] all[q] == all[i as int]) {
                    assert(all[j as int] == all[i as int]);
                }
            }
            j = j + 1;
        }
        let ghost t = all.take(i + 1);
        assert(t.drop_last() =~= all.take(i as int));
        assert(t.last() == all[i as int]);
        assert(seen == exists|q: int| 0 <= q < t.len() - 1 && #[trigger] t[q] == t.last()) by {
            if seen {
                let q = choose|q: int| 0 <= q < i && #[trigger] all[q] == all[i as int];
                assert(t[q] == all[q]);
            }
            if exists|q: int| 0 <= q < t.len() - 1 && #[trigger] t[q] == t.last() {
                let q = choose|q: int| 0 <= q < t.len() - 1 && #[trigger] t[q] == t.last();
                assert(t[q] == all[q]);
            }
        }
        if !seen {
            let copy = (f.0.clone(), f.1.clone(), f.2.clone());
            kept.push(copy);
            assert(findings_view(kept@) =~= before.push(all[i as int]));
        }
        i = i + 1;
    }
    assert(all.take(all.len() as int) =~= all);
    *vulnerabilities = kept;
}

/// `pat` occurs in `s` at position `i`.
pub open spec fn occurs_at(s: Seq<char>, pat: Seq<char>, i: int) -> bool {
    0 <= i && i + pat.len() <= s.len() && s.subrange(i, i + pat.len()) == pat
}

/// `pat` occurs somewhere in `s`.
pub open spec fn has_substring(s: Seq<char>, pat: Seq<char>) -> bool {
    exists|i: int| #[trigger] occurs_at(s, pat, i)
}

/// Whether `pat` occurs in `s`.
pub fn contains_substring(s: &str, pat: &str) -> (r: bool)
    ensures
        r == has_substring(s@, pat@),
{
    let n = s.unicode_len();
    let m = pat.unicode_len();
    if m > n {
        assert forall|i: int| !#[trigger] occurs_at(s@, pat@, i) by {}
        return false;
    }
    let mut i: usize = 0;
    while i <= n - m
        invariant
            n == s@.len(),
            m == pat@.len(),
            m <= n,
            0 <= i <= n - m + 1,
            forall|q: int| 0 <= q < i ==> !#[trigger] occurs_at(s@, pat@, q),
        decreases n - m + 1 - i,
    {
        let mut k: usize = 0;
        let mut same = true;
        while k < m
            invariant
                n == s@.len(),
                m == pat@.len(),
                i + m <= n,
                0 <= k <= m,
                same == forall|t: int| 0 <= t < k ==> s@[i + t] == pat@[t],
            decreases m - k,
        {
            if s.get_char(i + k) != pat.get_char(k) {
                same = false;
            }
            k = k + 1;
        }
        if same {
            assert(s@.subrange(i as int, i + m) =~= pat@);
            assert(occurs_at(s@, pat@, i as int));
            return true;
        }
        assert(!occurs_at(s@, pat@, i as int)) by {
            let t = choose|t: int| 0 <= t < m && s@[i + t] != pat@[t];
            if occurs_at(s@, pat@, i as int) {
                assert(s@.subrange(i as int, i + m)[t] == pat@[t]);
            }
        }
        i = i + 1;
    }
    assert forall|q: int| !#[trigger] occurs_at(s@, pat@, q) by {
        if 0 <= q < i {
        }
    }
    false
}

/// Whether one condition of a vulnerable-range list (`<=X`, `<X`, `>=X`,
/// `>X`, `==X`) holds of `version`; a condition whose release does not
/// read as a semantic version holds of nothing.
pub open spec fn part_affects(version: Seq<char>, p: Seq<char>) -> bool {
    if p.len() >= 2 && p[0] == '<' && p[1] == '=' {
        let r = p.subrange(2, p.len() as int);
        semver_version_valid(r) && semver_version_order(version, r) <= 0
    } else if p.len() >= 1 && p[0] == '<' {
        let r = p.subrange(1, p.len() as int);
        semver_version_valid(r) && semver_version_order(version, r) < 0
    } else if p.len() >= 2 && p[0] == '>' && p[1] == '=' {
        let r = p.subrange(2, p.len() as int);
        semver_version_valid(r) && semver_version_order(version, r) >= 0
    } else if p.len() >= 1 && p[0] == '>' {
        let r = p.subrange(1, p.len() as int);
        semver_version_valid(r) && semver_version_order(version, r) > 0
    } else if p.len() >= 2 && p[0] == '=' && p[1] == '=' {
        let r = p.subrange(2, p.len() as int);
        semver_version_valid(r) && semver_version_order(version, r) == 0
    } else {
        false
    }
}

/// Some comma-separated condition of `s`, from the one starting at
/// `start` on, holds of `version` (each condition trimmed first).
pub open spec fn affected_from(version: Seq<char>, s: Seq<char>, start: int) -> bool
    decreases s.len() - start,
{
    if start < 0 || start > s.len() {
        false
    } else {
        let c = first_index_of(s, ',', start);
        let end = if c < 0 {
            s.len() as int
        } else {
            c
        };
        let here = start <= end && part_affects(version, trimmed(s.subrange(start, end)));
        if start <= c < s.len() {
            here || affected_from(version, s, c + 1)
        } else {
            here
        }
    }
}

/// A version is affected by a vulnerable-range list when it occurs in the
/// list's text, or when it is a semantic version and some condition of
/// the list holds of it.
pub open spec fn spec_is_version_affected(version: Seq<char>, spec: Seq<char>) -> bool {
    has_substring(spec, version) || (semver_version_valid(version) && affected_from(version, spec, 0))
}

fn part_affects_exec(version: &str, part: &str) -> (r: bool)
    requires
        semver_version_valid(version@),
    ensures
        r == part_affects(version@, part@),
{
    let n = part.unicode_len();
    let c0 = if n >= 1 {
        part.get_char(0)
    } else {
        ' '
    };
    let c1 = if n >= 2 {
        part.get_char(1)
    } else {
        ' '
    };
    let (skip, op): (usize, u8) = if n >= 2 && c0 == '<' && c1 == '=' {
        (2, 0)
    } else if n >= 1 && c0 == '<' {
        (1, 1)
    } else if n >= 2 && c0 == '>' && c1 == '=' {
        (2, 2)
    } else if n >= 1 && c0 == '>' {
        (1, 3)
    } else if n >= 2 && c0 == '=' && c1 == '=' {
        (2, 4)
    } else {
        return false;
    };
    let rest = part.substring_char(skip, n);
    match version_order(version, rest) {
        Some(o) => if op == 0 {
            o <= 0
        } else if op == 1 {
            o < 0
        } else if op == 2 {
            o >= 0
        } else if op == 3 {
            o > 0
        } else {
            o == 0
        },
        None => false,
    }
}

/// Whether `version` falls under a vulnerable-range list such as
/// `>=1.0.0,<2.0.0`.
pub fn is_version_affected(version: &str, spec: &str) -> (r: bool)
    ensures
        r == spec_is_version_affected(version@, spec@),
{
    if contains_substring(spec, version) {
        return true;
    }
    match version_order(version, version) {
        None => {
            return false;
        },
        Some(_) => {},
    }
    let n = spec.unicode_len();
    let mut start: usize = 0;
    loop
        invariant
            n == spec@.len(),
            0 <= start <= n,
            semver_version_valid(version@),
            !has_substring(spec@, version@),
            affected_from(version@, spec@, 0) == affected_from(version@, spec@, start as int),
        decreases n - start,
    {
        let found = find_char(spec, ',', start);
        let end = match found {
            Some(c) => c,
            None => n,
        };
        let part = trim_text(spec.substring_char(start, end));
        if part_affects_exec(version, part.as_str()) {
            return true;
        }
        match found {
            Some(c) => {
                start = c + 1;
            },
            None => {
                return false;
            },
        }
    }
}

/// The findings for one package at a version: the table's, then those
/// found elsewhere, then the outdated warning.
pub open spec fn package_findings(p: Package, version: Seq<char>, extra: Seq<(Seq<char>, Seq<char>, Seq<char>)>) -> Seq<(Seq<char>, Seq<char>, Seq<char>)> {
    local_findings(p.name@, version, LOCAL_ADVISORY_COUNT as int) + extra + match p.latest_version {
        Some(latest) => if p.is_outdated && spec_version_gap_significant(version, latest@) {
            seq![(p.name@, version, gap_warning(version, latest@))]
        } else {
            Seq::empty()
        },
        None => Seq::empty(),
    }
}

/// The findings of the first `n` packages before repeats are removed;
/// packages without a version contribute none.
pub open spec fn collected_findings(ps: Seq<Package>, remote: Seq<Vec<Finding>>, n: int) -> Seq<(Seq<char>, Seq<char>, Seq<char>)>
    decreases n,
{
    if n <= 0 {
        Seq::empty()
    } else {
        let p = ps[n - 1];
        collected_findings(ps, remote, n - 1) + match p.version {
            Some(v) => package_findings(
                p,
                v@,
                if n - 1 < remote.len() {
                    findings_view(remote[n - 1]@)
                } else {
                    Seq::empty()
                },
            ),
            None => Seq::empty(),
        }
    }
}

/// Vulnerability findings for the packages: for each package with a
/// version, the table's findings, then `remote[i]` (what other sources
/// reported for package `i`, if given), then the outdated warning; repeats
/// removed.
pub fn find_vulnerabilities(packages: &[Package], remote: &Vec<Vec<Finding>>) -> (r: Vec<Finding>)
    ensures
        findings_view(r@) == dedup_findings(collected_findings(packages@, remote@, packages@.len() as int)),
{
    let mut found: Vec<Finding> = Vec::new();
    let mut i: usize = 0;
    assert(findings_view(found@) =~= collected_findings(packages@, remote@, 0));
    while i < packages.len()
        invariant
            0 <= i <= packages@.len(),
            findings_view(found@) == collected_findings(packages@, remote@, i as int),
        decreases packages@.len() - i,
    {
        let ghost before = findings_view(found@);
        let p = &packages[i];
        match &p.version {
            Some(version) => {
                check_local_vulnerability_db(p, version.as_str(), &mut found);
                let ghost mid = findings_view(found@);
                if i < remote.len() {
                    let extra = &remote[i];
                    let mut k: usize = 0;
                    while k < extra.len()
                        invariant
                            0 <= k <= extra@.len(),
                            findings_view(found@) == mid + findings_view(extra@).take(k as int),
                        decreases extra@.len() - k,
                    {
                        let ghost b = findings_view(found@);
                        let f = &extra[k];
                        found.push((f.0.clone(), f.1.clone(), f.2.clone()));
                        assert(findings_view(found@) =~= b.push(finding_view(*f)));
                        assert(findings_view(extra@).take(k + 1) =~= findings_view(extra@).take(k as int).push(finding_view(*f)));
                        k = k + 1;
                    }
                    assert(findings_view(extra@).take(extra@.len() as int) =~= findings_view(extra@));
                } else {
                    assert(mid + Seq::<(Seq<char>, Seq<char>, Seq<char>)>::empty() =~= mid);
                }
                check_version_gap(p, version.as_str(), &mut found);
                assert(findings_view(found@) =~= before + package_findings(
                    *p,
                    version@,
                    if i < remote@.len() {
                        findings_view(remote@[i as int]@)
                    } else {
                        Seq::empty()
                    },
                ));
            },
            None => {
                assert(before + Seq::<(Seq<char>, Seq<char>, Seq<char>)>::empty() =~= before);
            },
        }
        i = i + 1;
    }
    deduplicate_vulnerabilities(&mut found);
    found
}

} // verus!
