use conda_env_inspect::analysis::{get_common_package_dependencies, identify_redundant_packages};
use conda_env_inspect::conda_api::{enrich_packages, should_enrich, PackageInfo};
use conda_env_inspect::depmap::DependencyMap;
use conda_env_inspect::models::{ComplexDependency, CondaEnvironment, Dependency, Package};
use conda_env_inspect::parsers::{extract_packages, parse_package_spec};
use conda_env_inspect::provider::CondaDependencyProvider;

fn pkg(spec: &str) -> Package {
    parse_package_spec(spec)
}

fn strings(list: &[&str]) -> Vec<String> {
    list.iter().map(|s| s.to_string()).collect()
}

#[test]
fn solver_picks_newest_release_and_follows_dependencies() {
    let packages = vec![pkg("python=3.9"), pkg("numpy=1.19.0"), pkg("numpy=1.21.0"), pkg("pandas=1.3.0")];
    let mut map = DependencyMap::new();
    map.insert("pandas".to_string(), strings(&["numpy>=1.20", "python", "bad spec"]));
    map.insert("numpy".to_string(), strings(&["python"]));
    let provider = CondaDependencyProvider::new(&packages, &map);
    let solution = provider.solve(&strings(&["pandas"])).unwrap();
    assert_eq!(
        solution,
        vec![
            ("pandas".to_string(), "1.3.0".to_string()),
            ("numpy".to_string(), "1.21.0".to_string()),
            ("python".to_string(), "3.9".to_string()),
        ]
    );
    let again = provider.solve(&strings(&["numpy", "pandas", "numpy"])).unwrap();
    assert_eq!(again.len(), 3);
    assert_eq!(again[0], ("numpy".to_string(), "1.21.0".to_string()));
}

#[test]
fn solver_reports_missing_package() {
    let packages = vec![pkg("pandas=1.3.0")];
    let mut map = DependencyMap::new();
    map.insert("pandas".to_string(), strings(&["numpy>=1.20"]));
    let provider = CondaDependencyProvider::new(&packages, &map);
    assert_eq!(
        provider.solve(&strings(&["pandas"])),
        Err("Failed to resolve dependencies: Package numpy not found".to_string())
    );
    assert_eq!(provider.solve(&[]), Ok(vec![]));
}

#[test]
fn solver_ties_keep_first_release() {
    let packages = vec![pkg("python=3.9"), pkg("python=3.10")];
    let provider = CondaDependencyProvider::new(&packages, &DependencyMap::new());
    assert_eq!(provider.solve(&strings(&["python"])), Ok(vec![("python".to_string(), "3.9".to_string())]));
}

#[test]
fn solver_handles_cycles() {
    let packages = vec![pkg("a=1.0.0"), pkg("b=2.0.0")];
    let mut map = DependencyMap::new();
    map.insert("a".to_string(), strings(&["b"]));
    map.insert("b".to_string(), strings(&["a"]));
    let provider = CondaDependencyProvider::new(&packages, &map);
    let solution = provider.solve(&strings(&["a"])).unwrap();
    assert_eq!(solution, vec![("a".to_string(), "1.0.0".to_string()), ("b".to_string(), "2.0.0".to_string())]);
}

#[test]
fn environment_entries_become_packages() {
    let env = CondaEnvironment {
        name: Some("test-env-pip".to_string()),
        channels: strings(&["conda-forge"]),
        dependencies: vec![
            Dependency::Simple("python=3.9".to_string()),
            Dependency::Simple("pip".to_string()),
            Dependency::Complex(ComplexDependency {
                name: None,
                pip: Some(strings(&["requests==2.26.0", " flask = 2.0.1 "])),
            }),
            Dependency::Complex(ComplexDependency { name: Some("other".to_string()), pip: None }),
        ],
    };
    let packages = extract_packages(&env);
    assert_eq!(packages.len(), 4);
    assert_eq!(packages[0].name, "python");
    assert_eq!(packages[0].version, Some("3.9".to_string()));
    assert!(packages[0].is_pinned);
    assert_eq!(packages[1].name, "pip");
    assert_eq!(packages[1].version, None);
    assert_eq!(packages[2].name, "requests");
    assert_eq!(packages[2].version, Some(String::new()));
    assert_eq!(packages[2].channel, Some("pip".to_string()));
    assert_eq!(packages[3].name, "flask");
    assert_eq!(packages[3].version, Some("2.0.1".to_string()));
}

#[test]
fn enrichment_applies_registry_information() {
    let mut packages = vec![pkg("numpy=1.19.0"), pkg("pandas"), pkg("pip>=21"), pkg("scipy=1.5")];
    let info = |latest: &str| PackageInfo { name: String::new(), latest_version: latest.to_string(), size: Some(42), versions: vec![] };
    let infos = vec![Some(info("1.23.5")), Some(info("2.0.0")), Some(info("22.0")), None];
    enrich_packages(&mut packages, &infos);
    assert!(packages[0].is_outdated);
    assert_eq!(packages[0].latest_version, Some("1.23.5".to_string()));
    assert_eq!(packages[0].size, Some(42));
    assert!(!packages[1].is_outdated);
    assert_eq!(packages[1].latest_version, Some("2.0.0".to_string()));
    assert_eq!(packages[2].latest_version, None);
    assert_eq!(packages[3].latest_version, None);
    assert!(should_enrich("numpy"));
    assert!(!should_enrich(""));
    assert!(!should_enrich("pip>=21"));
}

#[test]
fn common_dependencies_and_redundant_packages() {
    assert_eq!(get_common_package_dependencies("pytorch"), Some(strings(&["python", "numpy"])));
    assert_eq!(get_common_package_dependencies("left-pad"), None);
    let packages = vec![pkg("python"), pkg("numpy"), pkg("pandas"), pkg("pytest"), pkg("unused-package")];
    let mut map = DependencyMap::new();
    map.insert("pandas".to_string(), strings(&["numpy", "python"]));
    assert_eq!(identify_redundant_packages(&packages, &map), strings(&["pandas", "unused-package"]));
}
