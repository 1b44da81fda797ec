use conda_env_inspect::models::Package;
use conda_env_inspect::vulnerabilities::{
    check_local_vulnerability_db, check_version_gap, deduplicate_vulnerabilities, find_vulnerabilities,
    is_version_affected, is_vulnerable_version, parse_u32, version_gap_significant, Finding,
};

fn package(name: &str, version: &str, outdated: bool, latest: Option<&str>) -> Package {
    Package {
        name: name.to_string(),
        version: Some(version.to_string()),
        build: Some("py39h5d0ccc0_0".to_string()),
        channel: Some("conda-forge".to_string()),
        is_pinned: false,
        is_outdated: outdated,
        size: Some(10485760),
        latest_version: latest.map(|l| l.to_string()),
    }
}

fn finding(a: &str, b: &str, c: &str) -> Finding {
    (a.to_string(), b.to_string(), c.to_string())
}

#[test]
fn test_find_vulnerabilities() {
    let packages = vec![
        package("numpy", "1.19.0", true, Some("1.24.0")),
        package("requests", "2.20.0", true, Some("2.28.0")),
    ];
    let vulnerabilities = find_vulnerabilities(&packages, &vec![]);
    println!("Found {} potential vulnerabilities", vulnerabilities.len());
    assert_eq!(vulnerabilities.len(), 4);
    assert_eq!(vulnerabilities[0].2, "Buffer overflow in numpy.lib.arraypad, CVE-2021-33430");
    assert_eq!(
        vulnerabilities[1].2,
        "Potentially vulnerable due to being significantly outdated (current: 1.19.0, latest: 1.24.0)"
    );
    assert_eq!(vulnerabilities[2].2, "SSRF vulnerability in Requests, CVE-2018-18074");
}

#[test]
fn remote_findings_are_merged_and_repeats_dropped() {
    let packages = vec![package("left-pad", "1.0.0", false, None)];
    let remote = vec![vec![finding("left-pad", "1.0.0", "X (ID-1)"), finding("left-pad", "1.0.0", "X (ID-1)")]];
    assert_eq!(find_vulnerabilities(&packages, &remote), vec![finding("left-pad", "1.0.0", "X (ID-1)")]);
}

#[test]
fn vulnerable_version_rules() {
    assert!(is_vulnerable_version("2.0.1", "2.0"));
    assert!(is_vulnerable_version("1.2.0", "1.3.0"));
    assert!(!is_vulnerable_version("1.4.0", "1.3.0"));
    assert!(is_vulnerable_version(" 1.4 ", "1.4"));
    assert!(!is_vulnerable_version("1.5", "1.4"));
}

#[test]
fn local_table_and_gap_checks() {
    let mut found = Vec::new();
    check_local_vulnerability_db(&package("django", "1.11.2", false, None), "1.11.2", &mut found);
    assert_eq!(found, vec![finding("django", "1.11.2", "Potential SQL injection in Django, CVE-2020-9402")]);
    check_local_vulnerability_db(&package("pillow", "8.2.0", false, None), "8.2.0", &mut found);
    assert_eq!(found.len(), 2);
    assert_eq!(found[1].2, "Multiple buffer overflow vulnerabilities, CVE-2021-34552");
    let mut gap = Vec::new();
    check_version_gap(&package("numpy", "1.19.0", false, Some("1.24.0")), "1.19.0", &mut gap);
    assert!(gap.is_empty());
    check_version_gap(&package("numpy", "1.19.0", true, Some("1.20.0")), "1.19.0", &mut gap);
    assert!(gap.is_empty());
    check_version_gap(&package("numpy", "1.19.0", true, Some("2.0.0")), "1.19.0", &mut gap);
    assert_eq!(gap.len(), 1);
}

#[test]
fn version_gap_rules() {
    assert!(version_gap_significant("1.19.0", "1.24.0"));
    assert!(version_gap_significant("1.19.0", "2.0.0"));
    assert!(!version_gap_significant("1.19.0", "1.20.5"));
    assert!(!version_gap_significant("1.19", "2.0.0"));
    assert!(version_gap_significant("1.2.3.4", "1.4.0"));
    assert_eq!(parse_u32("4294967295"), Some(4294967295));
    assert_eq!(parse_u32("4294967296"), None);
    assert_eq!(parse_u32("+7"), Some(7));
    assert_eq!(parse_u32("+"), None);
    assert_eq!(parse_u32(""), None);
    assert_eq!(parse_u32("-1"), None);
    assert_eq!(parse_u32("12a"), None);
}

#[test]
fn affected_ranges() {
    assert!(is_version_affected("1.2.3", "<=1.2.3"));
    assert!(is_version_affected("1.5.0", ">=1.0.0, <2.0.0"));
    assert!(is_version_affected("1.0.0", "==1.0.0"));
    assert!(!is_version_affected("3.0.0", "<2.0.0"));
    assert!(!is_version_affected("3.0.0", "<2.0.0,==2.5.0"));
    assert!(is_version_affected("3.0.0", "<2.0.0, >2.9.9"));
    assert!(!is_version_affected("abc", "<2.0.0"));
    assert!(!is_version_affected("1.0.0", "~1.0"));
}

#[test]
fn repeated_findings_removed_in_place() {
    let mut v = vec![finding("a", "1", "x"), finding("b", "2", "y"), finding("a", "1", "x"), finding("a:1", "", "x")];
    deduplicate_vulnerabilities(&mut v);
    assert_eq!(v, vec![finding("a", "1", "x"), finding("b", "2", "y"), finding("a:1", "", "x")]);
    let mut w = vec![finding("a:b", "c", "d"), finding("a", "b:c", "d"), finding("a:b", "c", "d")];
    deduplicate_vulnerabilities(&mut w);
    assert_eq!(w, vec![finding("a:b", "c", "d"), finding("a", "b:c", "d")]);
}
