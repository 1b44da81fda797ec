use conda_env_inspect::analysis::{enhance_dependency_map, outdated_recommendations, size_and_redundancy_recommendations};
use conda_env_inspect::conda_api::{check_outdated, package_info_from_files};
use conda_env_inspect::depmap::DependencyMap;
use conda_env_inspect::graph::create_advanced_dependency_graph;
use conda_env_inspect::models::{ComplexDependency, CondaEnvironment, Dependency, Package};
use conda_env_inspect::parsers::{extract_package_name, extract_pypi_package_name, is_pinned_package, parse_package_spec};
use conda_env_inspect::utils::{find_unused_dependencies, generate_recommendations, is_deprecated};

fn strings(list: &[&str]) -> Vec<String> {
    list.iter().map(|s| s.to_string()).collect()
}

#[test]
fn outdated_decision() {
    assert_eq!(check_outdated(Some("1.19.0"), Some("1.23.0".to_string())), (true, Some("1.23.0".to_string())));
    assert_eq!(check_outdated(Some("1.23.0"), Some("1.23.0".to_string())), (false, Some("1.23.0".to_string())));
    assert_eq!(check_outdated(Some("3.7"), Some("3.10".to_string())), (true, Some("3.10".to_string())));
    assert_eq!(check_outdated(Some("1.0.0"), None), (false, None));
    assert_eq!(check_outdated(None, Some("2.0.0".to_string())), (false, None));
}

#[test]
fn registry_files_summarised() {
    let files = vec![
        (Some("1.0".to_string()), Some(10)),
        (Some("2.0".to_string()), Some(30)),
        (None, Some(99)),
        (Some("2.0".to_string()), None),
        (Some("2.0".to_string()), Some(20)),
    ];
    let info = package_info_from_files("numpy", Some("2.0".to_string()), &files);
    assert_eq!(info.name, "numpy");
    assert_eq!(info.latest_version, "2.0");
    assert_eq!(info.versions, strings(&["1.0", "2.0"]));
    assert_eq!(info.size, Some(30));
    let none = package_info_from_files("x", None, &vec![]);
    assert_eq!(none.latest_version, "unknown");
    assert_eq!(none.size, None);
}

#[test]
fn pinned_detection() {
    let env = CondaEnvironment {
        name: None,
        channels: vec![],
        dependencies: vec![
            Dependency::Simple("python=3.9".to_string()),
            Dependency::Simple("numpy".to_string()),
            Dependency::Complex(ComplexDependency { name: None, pip: Some(strings(&["flask==2.0"])) }),
        ],
    };
    assert!(is_pinned_package("python", &env));
    assert!(!is_pinned_package("numpy", &env));
    assert!(is_pinned_package("flask", &env));
    assert!(!is_pinned_package("scipy", &env));
}

#[test]
fn dependency_name_extraction() {
    assert_eq!(extract_package_name("numpy >=1.19"), Some("numpy".to_string()));
    assert_eq!(extract_package_name("   "), None);
    assert_eq!(extract_pypi_package_name("numpy (>=1.14.5) ; extra == 'test'"), Some("numpy".to_string()));
    assert_eq!(extract_pypi_package_name("requests(>=2.0)"), Some("requests".to_string()));
    assert_eq!(extract_pypi_package_name(" ; marker"), None);
}

#[test]
fn common_dependencies_fill_gaps() {
    let mut map = DependencyMap::new();
    map.insert("app".to_string(), strings(&["pandas", "numpy", "jupyterlab"]));
    map.insert("pandas".to_string(), vec![]);
    map.insert("numpy".to_string(), strings(&["python"]));
    enhance_dependency_map(&mut map);
    assert_eq!(map.get("pandas"), Some(&strings(&["numpy", "python", "python-dateutil", "pytz"])));
    assert_eq!(map.get("numpy"), Some(&strings(&["python"])));
    assert_eq!(map.get("jupyterlab"), Some(&strings(&["python", "jupyter-core", "ipython"])));
    assert_eq!(map.get("app"), Some(&strings(&["pandas", "numpy", "jupyterlab"])));
}

#[test]
fn graph_recommendations() {
    let mut outdated = parse_package_spec("numpy=1.19.0");
    outdated.is_outdated = true;
    outdated.latest_version = Some("1.23.0".to_string());
    let packages = vec![outdated, parse_package_spec("deprecated_pkg1"), parse_package_spec("python")];
    let mut map = DependencyMap::new();
    map.insert("numpy".to_string(), strings(&["python"]));
    let graph = create_advanced_dependency_graph(&packages, &map);
    assert_eq!(find_unused_dependencies(&graph), strings(&["numpy", "deprecated_pkg1"]));
    assert!(is_deprecated("deprecated_pkg2"));
    let recs = generate_recommendations(&packages, &graph);
    assert_eq!(recs.len(), 4);
    assert_eq!(recs[0].description, "Package numpy is outdated");
    assert_eq!(recs[0].details, Some("Current version: 1.19.0, Latest version: 1.23.0".to_string()));
    assert_eq!(recs[1].value, "2.0");
    assert_eq!(recs[2].description, "Package deprecated_pkg1 is deprecated");
    assert_eq!(recs[3].description, "Unused dependencies detected");
    assert_eq!(recs[3].value, "2.0");
    assert_eq!(recs[3].details, Some("Consider removing: numpy, deprecated_pkg1".to_string()));
}

#[test]
fn test_generate_recommendations() {
    let mut numpy = parse_package_spec("numpy=1.19.0");
    numpy.is_outdated = true;
    numpy.latest_version = Some("1.23.5".to_string());
    numpy.size = Some(10485760);
    let mut pandas = parse_package_spec("pandas=1.3.0");
    pandas.size = Some(20971520);
    let packages = vec![numpy, pandas];
    let recommendations = outdated_recommendations(&packages, true);
    assert!(!recommendations.is_empty());
    assert_eq!(
        recommendations,
        strings(&[
            "Found 1 outdated packages. Consider updating them for security and performance improvements.",
            "Update numpy from 1.19.0 to 1.23.5",
        ])
    );
    assert!(outdated_recommendations(&packages, false).is_empty());
    let map = DependencyMap::new();
    assert_eq!(
        size_and_redundancy_recommendations(&packages, &map),
        strings(&[
            "Found 2 potentially redundant packages that might be removed to streamline your environment.",
            "Consider removing unused package: numpy",
            "Consider removing unused package: pandas",
        ])
    );
}

#[test]
fn large_environment_and_top_three_lists() {
    let mut packages = Vec::new();
    for name in ["a", "b", "c", "d", "e"] {
        let mut p = parse_package_spec(name);
        p.is_outdated = true;
        p.latest_version = if name == "b" { None } else { Some("2".to_string()) };
        p.size = Some(u64::MAX);
        packages.push(p);
    }
    let outdated = outdated_recommendations(&packages, true);
    assert_eq!(outdated.len(), 3);
    assert_eq!(outdated[0], "Found 5 outdated packages. Consider updating them for security and performance improvements.");
    assert_eq!(outdated[1], "Update a from unknown to 2");
    assert_eq!(outdated[2], "Update c from unknown to 2");
    let rest = size_and_redundancy_recommendations(&packages, &DependencyMap::new());
    assert_eq!(rest.len(), 5);
    assert!(rest[0].starts_with("Environment is quite large"));
    assert_eq!(rest[1], "Found 5 potentially redundant packages that might be removed to streamline your environment.");
}
