use conda_env_inspect::conda_api::{is_outdated, PackageInfo};
use conda_env_inspect::constraint::{parse_dependency, versions_compatible};
use conda_env_inspect::exporters::ExportFormat;
use conda_env_inspect::models::{EnvironmentAnalysis, Package, Recommendation};
use conda_env_inspect::parsers;
use conda_env_inspect::performance;

#[test]
fn test_parse_package_spec() {
    let pkg = parsers::parse_package_spec("numpy=1.21.0");
    assert_eq!(pkg.name, "numpy");
    assert!(pkg.version.as_ref().unwrap().starts_with("1.21"));
    assert_eq!(pkg.build, None);
    assert_eq!(pkg.channel, None);
    assert!(pkg.is_pinned);

    let pkg = parsers::parse_package_spec("conda-forge::numpy=1.21.0");
    assert_eq!(pkg.name, "numpy");
    assert!(pkg.version.as_ref().unwrap().starts_with("1.21"));
    assert_eq!(pkg.channel, Some("conda-forge".to_string()));

    let pkg = parsers::parse_package_spec("numpy=1.21.0=py39h5d0ccc0_0");
    assert_eq!(pkg.name, "numpy");
    assert!(pkg.version.as_ref().unwrap().starts_with("1.21"));
    assert_eq!(pkg.build, Some("py39h5d0ccc0_0".to_string()));

    let pkg = parsers::parse_package_spec("numpy");
    assert_eq!(pkg.name, "numpy");
    assert_eq!(pkg.version, None);
    assert!(!pkg.is_pinned);
}

#[test]
fn package_spec_version_between_separators() {
    let pkg = parsers::parse_package_spec("numpy=1.21.0=py39h5d0ccc0_0");
    assert_eq!(pkg.version, Some("1.21.0".to_string()));
    let pkg = parsers::parse_package_spec("main::python=");
    assert_eq!(pkg.channel, Some("main".to_string()));
    assert_eq!(pkg.name, "python");
    assert_eq!(pkg.version, Some(String::new()));
}

#[test]
fn dependency_specs_split_into_name_and_constraint() {
    assert_eq!(parse_dependency("numpy>=1.19.0"), Some(("numpy".to_string(), ">=1.19.0".to_string())));
    assert_eq!(parse_dependency("pandas==1.3.0"), Some(("pandas".to_string(), "==1.3.0".to_string())));
    assert_eq!(parse_dependency("python"), Some(("python".to_string(), String::new())));
    assert_eq!(parse_dependency("scikit-learn~=1.0"), Some(("scikit-learn".to_string(), "~=1.0".to_string())));
    assert_eq!(parse_dependency("numpy 1.21"), None);
    assert_eq!(parse_dependency(">=1.0"), None);
    assert_eq!(parse_dependency("numpy>"), None);
    assert_eq!(parse_dependency("numpy>=1\n"), None);
    assert_eq!(parse_dependency(""), None);
}

#[test]
fn compatibility_rules() {
    assert!(versions_compatible("", "<1.0"));
    assert!(versions_compatible("any", "==9.9"));
    assert!(versions_compatible("not a range", "not a range"));
    assert!(!versions_compatible("not a range", "other text"));
    assert!(versions_compatible(">=1.0.0", "<2.0.0"));
    assert!(!versions_compatible("<1.18.0", ">=1.20.0"));
    assert!(!versions_compatible(">=1.18.0, <1.19.0", ">=1.0.0"));
    assert_eq!(versions_compatible(">=2", "<3"), versions_compatible("<3", ">=2"));
}

#[test]
fn test_normalize_conda_version() {
    assert_eq!(performance::normalize_conda_version("1"), "1.0.0");
    assert_eq!(performance::normalize_conda_version("1.2"), "1.2.0");
    assert_eq!(performance::normalize_conda_version("1.2.3"), "1.2.3");
    assert_eq!(performance::normalize_conda_version("1.2.3+build1"), "1.2.3");
    assert_eq!(performance::normalize_conda_version("1.2.3-build1"), "1.2.3");
    assert_eq!(performance::normalize_conda_version("0-dev"), "0-dev");
}

fn info(latest: &str) -> PackageInfo {
    PackageInfo { name: "numpy".to_string(), latest_version: latest.to_string(), size: Some(10485760), versions: vec![] }
}

#[test]
fn test_update_package_with_info() {
    let mut package = Package {
        name: "numpy".to_string(),
        version: Some("1.19.0".to_string()),
        build: Some("py39h5d0ccc0_0".to_string()),
        channel: Some("conda-forge".to_string()),
        is_pinned: false,
        is_outdated: false,
        size: None,
        latest_version: None,
    };
    performance::update_package_with_info(&mut package, &info("1.23.5"));
    assert_eq!(package.latest_version, Some("1.23.5".to_string()));
    assert_eq!(package.size, Some(10485760));
    assert!(package.is_outdated, "Package should be marked as outdated");
}

#[test]
fn outdated_check() {
    let mut p = parsers::parse_package_spec("numpy=1.21");
    assert!(is_outdated(&p, &info("1.23.5")));
    assert!(!is_outdated(&p, &info("1.21.0")));
    assert!(!is_outdated(&p, &info("1.20")));
    p.version = Some("weird".to_string());
    assert!(is_outdated(&p, &info("other")));
    assert!(!is_outdated(&p, &info("weird")));
    p.version = None;
    assert!(!is_outdated(&p, &info("2.0")));
}

#[test]
fn export_format_names() {
    assert_eq!(ExportFormat::from_str("JSON"), Some(ExportFormat::Json));
    assert_eq!(ExportFormat::from_str("Txt"), Some(ExportFormat::Text));
    assert_eq!(ExportFormat::from_str("md"), Some(ExportFormat::Markdown));
    assert_eq!(ExportFormat::from_str("HTML"), Some(ExportFormat::Html));
    assert_eq!(ExportFormat::from_str("csv"), Some(ExportFormat::Csv));
    assert_eq!(ExportFormat::from_str("yaml"), None);
    assert_eq!(ExportFormat::from_lowercase("JSON"), None);
}

#[test]
fn test_package_creation() {
    let package = Package {
        name: "numpy".to_string(),
        version: Some("1.21.0".to_string()),
        build: Some("py39h5d0ccc0_0".to_string()),
        channel: Some("conda-forge".to_string()),
        is_pinned: false,
        is_outdated: false,
        size: Some(10485760),
        latest_version: Some("1.23.5".to_string()),
    };
    assert_eq!(package.name, "numpy");
    assert_eq!(package.version, Some("1.21.0".to_string()));
    assert_eq!(package.build, Some("py39h5d0ccc0_0".to_string()));
    assert_eq!(package.channel, Some("conda-forge".to_string()));
    assert_eq!(package.size, Some(10485760));
    assert_eq!(package.latest_version, Some("1.23.5".to_string()));
    assert!(!package.is_pinned);
    assert!(!package.is_outdated);
}

#[test]
fn test_environment_analysis() {
    let packages = vec![
        parsers::parse_package_spec("numpy=1.21.0=py39h5d0ccc0_0"),
        parsers::parse_package_spec("pandas"),
    ];
    let analysis = EnvironmentAnalysis {
        name: Some("test-env".to_string()),
        packages,
        pinned_count: 1,
        outdated_count: 1,
        total_size: Some(31457280),
        recommendations: vec![Recommendation { description: "Update numpy".to_string(), value: "1".to_string(), details: None }],
    };
    assert_eq!(analysis.name, Some("test-env".to_string()));
    assert_eq!(analysis.packages.len(), 2);
    assert_eq!(analysis.pinned_count, 1);
    assert_eq!(analysis.outdated_count, 1);
    assert_eq!(analysis.total_size, Some(31457280));
    assert_eq!(analysis.recommendations.len(), 1);
    assert_eq!(analysis.recommendations[0].description, "Update numpy");
}
