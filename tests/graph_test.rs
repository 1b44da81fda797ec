use conda_env_inspect::analysis::create_dependency_graph;
use conda_env_inspect::closure::reachable_from;
use conda_env_inspect::conflicts::{detect_conflicts, find_version_requirement};
use conda_env_inspect::depmap::DependencyMap;
use conda_env_inspect::graph::{create_advanced_dependency_graph, EdgeKind};
use conda_env_inspect::layout::calculate_graph_layout_vec;
use conda_env_inspect::models::Package;

fn package(name: &str, version: Option<&str>, size: Option<u64>) -> Package {
    Package {
        name: name.to_string(),
        version: version.map(|v| v.to_string()),
        build: Some("py39".to_string()),
        channel: Some("conda-forge".to_string()),
        size,
        is_pinned: version.is_some(),
        is_outdated: false,
        latest_version: None,
    }
}

fn deps(list: &[&str]) -> Vec<String> {
    list.iter().map(|s| s.to_string()).collect()
}

fn python_numpy_pandas() -> (Vec<Package>, DependencyMap) {
    let packages = vec![
        package("python", Some("3.9"), Some(100_000_000)),
        package("numpy", Some("1.21.0"), Some(50_000_000)),
        package("pandas", Some("1.3.0"), Some(30_000_000)),
    ];
    let mut dep_map = DependencyMap::new();
    dep_map.insert("numpy".to_string(), deps(&["python"]));
    dep_map.insert("pandas".to_string(), deps(&["python", "numpy"]));
    (packages, dep_map)
}

fn has_edge(g: &conda_env_inspect::graph::AdvancedDependencyGraph, from: &str, to: &str, kind: EdgeKind) -> bool {
    let f = g.node_index(from).unwrap();
    let t = g.node_index(to).unwrap();
    g.edges.iter().any(|e| e.from == f && e.to == t && e.kind == kind)
}

#[test]
fn test_build_advanced_dependency_graph() {
    let (packages, dep_map) = python_numpy_pandas();
    let graph = create_advanced_dependency_graph(&packages, &dep_map);
    assert_eq!(graph.nodes.len(), 3, "Graph should have 3 nodes");
    assert!(graph.node_index("python").is_some(), "Graph should contain python node");
    assert!(graph.node_index("numpy").is_some(), "Graph should contain numpy node");
    assert!(graph.node_index("pandas").is_some(), "Graph should contain pandas node");
    assert_eq!(graph.edge_count(), 3, "Should have 3 dependency edges");
}

#[test]
fn test_calculate_graph_metrics() {
    let (packages, dep_map) = python_numpy_pandas();
    let graph = create_advanced_dependency_graph(&packages, &dep_map);
    let total_size: u64 = packages.iter().filter_map(|p| p.size).sum();
    assert_eq!(graph.node_count(), 3, "Graph should have 3 nodes");
    assert_eq!(graph.edge_count(), 3, "Graph should have 3 edges");
    assert_eq!(total_size, 180_000_000, "Total size should be 180MB");
}

#[test]
fn python_numpy_pandas_has_only_direct_edges() {
    let (packages, dep_map) = python_numpy_pandas();
    let graph = create_advanced_dependency_graph(&packages, &dep_map);
    assert_eq!(graph.nodes, deps(&["python", "numpy", "pandas"]));
    assert!(has_edge(&graph, "numpy", "python", EdgeKind::Direct));
    assert!(has_edge(&graph, "pandas", "python", EdgeKind::Direct));
    assert!(has_edge(&graph, "pandas", "numpy", EdgeKind::Direct));
    assert!(graph.edges.iter().all(|e| e.kind == EdgeKind::Direct));
    assert!(graph.conflicts.is_empty());
}

#[test]
fn transitive_edge_added_only_when_not_direct() {
    let packages = vec![package("a", None, None), package("b", None, None), package("c", None, None)];
    let mut dep_map = DependencyMap::new();
    dep_map.insert("a".to_string(), deps(&["b"]));
    dep_map.insert("b".to_string(), deps(&["c>=1.0"]));
    let graph = create_advanced_dependency_graph(&packages, &dep_map);
    assert_eq!(graph.edge_count(), 3);
    assert!(has_edge(&graph, "a", "b", EdgeKind::Direct));
    assert!(has_edge(&graph, "b", "c", EdgeKind::Direct));
    assert!(has_edge(&graph, "a", "c", EdgeKind::Transitive));
}

#[test]
fn unknown_and_malformed_dependencies_are_skipped() {
    let packages = vec![package("a", None, None), package("b", None, None)];
    let mut dep_map = DependencyMap::new();
    dep_map.insert("a".to_string(), deps(&["b", "b==2.0", "missing", "bad spec", ""]));
    dep_map.insert("ghost".to_string(), deps(&["a"]));
    let graph = create_advanced_dependency_graph(&packages, &dep_map);
    assert_eq!(graph.edge_count(), 1);
    assert!(has_edge(&graph, "a", "b", EdgeKind::Direct));
}

#[test]
fn duplicate_package_names_give_one_node() {
    let packages = vec![package("a", None, None), package("a", Some("1.0"), None), package("b", None, None)];
    let graph = create_advanced_dependency_graph(&packages, &DependencyMap::new());
    assert_eq!(graph.nodes, deps(&["a", "b"]));
    assert_eq!(graph.direct_deps, deps(&["a", "b"]));
    assert_eq!(graph.edge_count(), 0);
}

#[test]
fn test_create_advanced_dependency_graph() {
    let packages = vec![
        package("numpy", Some("1.19.0"), Some(10485760)),
        package("pandas", Some("1.3.0"), Some(20971520)),
        package("matplotlib", Some("3.5.0"), Some(30485760)),
    ];
    let mut dependency_map = DependencyMap::new();
    dependency_map.insert("pandas".to_string(), deps(&["numpy"]));
    dependency_map.insert("matplotlib".to_string(), deps(&["numpy"]));
    let graph = create_advanced_dependency_graph(&packages, &dependency_map);
    assert_eq!(graph.nodes.len(), 3);
    assert!(graph.node_index("numpy").is_some());
    assert!(graph.node_index("pandas").is_some());
    assert!(graph.node_index("matplotlib").is_some());
    assert!(graph.direct_deps.contains(&"numpy".to_string()));
    assert!(graph.direct_deps.contains(&"pandas".to_string()));
    assert!(graph.direct_deps.contains(&"matplotlib".to_string()));
    let numpy_id = graph.node_index("numpy").unwrap();
    let pandas_id = graph.node_index("pandas").unwrap();
    let matplotlib_id = graph.node_index("matplotlib").unwrap();
    let has_pandas_numpy_edge = graph.edges.iter().any(|e| e.from == pandas_id && e.to == numpy_id);
    let has_matplotlib_numpy_edge = graph.edges.iter().any(|e| e.from == matplotlib_id && e.to == numpy_id);
    assert!(has_pandas_numpy_edge);
    assert!(has_matplotlib_numpy_edge);
}

#[test]
fn test_detect_conflicts() {
    let packages = vec![
        package("python", Some("3.9"), Some(100_000_000)),
        package("numpy", Some("1.21.0"), Some(50_000_000)),
        package("pandas", Some("1.3.0"), Some(30_000_000)),
        package("scikit-learn", Some("1.0.0"), Some(25_000_000)),
    ];
    let mut dep_map = DependencyMap::new();
    dep_map.insert("pandas".to_string(), deps(&["numpy==1.21.0"]));
    dep_map.insert("scikit-learn".to_string(), deps(&["numpy==1.20.0"]));
    let conflicts = detect_conflicts(&packages, &dep_map);
    assert!(!conflicts.is_empty(), "Should detect version conflicts");
}

#[test]
fn disjoint_ranges_give_one_conflict_naming_numpy() {
    let packages = vec![package("package-a", None, None), package("package-b", None, None), package("numpy", None, None)];
    let mut dep_map = DependencyMap::new();
    dep_map.insert("package-a".to_string(), deps(&["numpy<1.18.0"]));
    dep_map.insert("package-b".to_string(), deps(&["numpy>=1.20.0"]));
    let conflicts = detect_conflicts(&packages, &dep_map);
    assert_eq!(conflicts.len(), 1);
    assert_eq!(conflicts[0].0, "package-a");
    assert_eq!(conflicts[0].1, "package-b");
    assert_eq!(conflicts[0].2, "numpy(<1.18.0≠>=1.20.0)");
    let graph = create_advanced_dependency_graph(&packages, &dep_map);
    assert_eq!(graph.conflicts, conflicts);
}

#[test]
fn identical_constraints_give_no_conflict() {
    let packages = vec![package("package-a", None, None), package("package-b", None, None)];
    let mut dep_map = DependencyMap::new();
    dep_map.insert("package-a".to_string(), deps(&["numpy>=1.0.0"]));
    dep_map.insert("package-b".to_string(), deps(&["numpy>=1.0.0"]));
    assert!(detect_conflicts(&packages, &dep_map).is_empty());
}

#[test]
fn swapped_roles_report_the_same_dependency() {
    let packages = vec![package("package-a", None, None), package("package-b", None, None)];
    let mut forward = DependencyMap::new();
    forward.insert("package-a".to_string(), deps(&["numpy<1.18.0"]));
    forward.insert("package-b".to_string(), deps(&["numpy>=1.20.0"]));
    let mut swapped = DependencyMap::new();
    swapped.insert("package-b".to_string(), deps(&["numpy>=1.20.0"]));
    swapped.insert("package-a".to_string(), deps(&["numpy<1.18.0"]));
    let a = detect_conflicts(&packages, &forward);
    let b = detect_conflicts(&packages, &swapped);
    assert_eq!(a.len(), 1);
    assert_eq!(b.len(), 1);
    assert_eq!((a[0].0.as_str(), a[0].1.as_str()), (b[0].1.as_str(), b[0].0.as_str()));
    assert!(a[0].2.starts_with("numpy("));
    assert!(b[0].2.starts_with("numpy("));
}

#[test]
fn single_dependent_or_missing_constraint_gives_no_conflict() {
    let packages = vec![package("package-a", None, None), package("package-b", None, None)];
    let mut one = DependencyMap::new();
    one.insert("package-a".to_string(), deps(&["numpy<1.0", "numpy>=2.0"]));
    assert!(detect_conflicts(&packages, &one).is_empty());
    let mut unconstrained = DependencyMap::new();
    unconstrained.insert("package-a".to_string(), deps(&["numpy"]));
    unconstrained.insert("package-b".to_string(), deps(&["numpy>=5.0"]));
    assert!(detect_conflicts(&packages, &unconstrained).is_empty());
}

#[test]
fn version_requirement_lookup() {
    let mut dep_map = DependencyMap::new();
    dep_map.insert("pandas".to_string(), deps(&["python", "numpy>=1.20", "numpy<2"]));
    assert_eq!(find_version_requirement(&dep_map, "pandas", "numpy"), Some(">=1.20".to_string()));
    assert_eq!(find_version_requirement(&dep_map, "pandas", "python"), Some(String::new()));
    assert_eq!(find_version_requirement(&dep_map, "pandas", "scipy"), None);
    assert_eq!(find_version_requirement(&dep_map, "numpy", "python"), None);
}

#[test]
fn dependency_map_insert_replaces() {
    let mut dep_map = DependencyMap::new();
    dep_map.insert("a".to_string(), deps(&["x"]));
    dep_map.insert("b".to_string(), deps(&["y"]));
    dep_map.insert("a".to_string(), deps(&["z"]));
    assert_eq!(dep_map.len(), 2);
    assert_eq!(dep_map.get("a"), Some(&deps(&["z"])));
    assert_eq!(dep_map.key_at(0), "a");
    assert_eq!(dep_map.get("c"), None);
}

#[test]
fn closure_excludes_self_on_cycle() {
    let adj: Vec<Vec<usize>> = vec![vec![1], vec![2], vec![0], vec![]];
    let r = reachable_from(&adj, 0);
    assert_eq!(r, vec![false, true, true, false]);
    assert_eq!(reachable_from(&adj, 0), r);
    assert_eq!(reachable_from(&adj, 3), vec![false, false, false, false]);
}

#[test]
fn cycle_is_placed_in_one_forced_layer() {
    let packages = vec![package("A", None, None), package("B", None, None), package("C", None, None)];
    let mut dep_map = DependencyMap::new();
    dep_map.insert("A".to_string(), deps(&["B"]));
    dep_map.insert("B".to_string(), deps(&["C"]));
    dep_map.insert("C".to_string(), deps(&["A"]));
    let graph = create_advanced_dependency_graph(&packages, &dep_map);
    let (positions, width, height) = calculate_graph_layout_vec(&graph);
    assert_eq!(positions.len(), 3);
    assert_eq!(positions[0], (0, "A".to_string(), 2, 2));
    assert_eq!(positions[1], (1, "B".to_string(), 17, 2));
    assert_eq!(positions[2], (2, "C".to_string(), 32, 2));
    assert_eq!(width, 33);
    assert_eq!(height, 3);
}

#[test]
fn layers_follow_dependencies() {
    let (packages, dep_map) = python_numpy_pandas();
    let graph = create_advanced_dependency_graph(&packages, &dep_map);
    let (positions, width, height) = calculate_graph_layout_vec(&graph);
    assert_eq!(positions[0], (0, "python".to_string(), 2, 2));
    assert_eq!(positions[1], (1, "numpy".to_string(), 2, 6));
    assert_eq!(positions[2], (2, "pandas".to_string(), 2, 10));
    assert_eq!(width, 8);
    assert_eq!(height, 11);
    for (_, name, x, y) in &positions {
        assert!(*x + name.len() as u128 <= width && *y < height);
    }
}

#[test]
fn empty_graph_layout() {
    let graph = create_advanced_dependency_graph(&[], &DependencyMap::new());
    let (positions, width, height) = calculate_graph_layout_vec(&graph);
    assert!(positions.is_empty());
    assert_eq!((width, height), (0, 0));
}

#[test]
fn test_create_dependency_graph() {
    let packages = vec![
        package("python", Some("3.9"), Some(100_000_000)),
        package("numpy", Some("1.21.0"), Some(50_000_000)),
        package("pandas", Some("1.3.0"), Some(30_000_000)),
    ];
    assert_eq!(packages.len(), 3, "Should have 3 packages");
    assert_eq!(packages[0].name, "python", "First package should be python");
    assert_eq!(packages[1].name, "numpy", "Second package should be numpy");
    assert_eq!(packages[2].name, "pandas", "Third package should be pandas");
    let mut dep_map = DependencyMap::new();
    dep_map.insert("pandas".to_string(), deps(&["numpy", "python", "pytz"]));
    let graph = create_dependency_graph(&packages, &dep_map);
    assert_eq!(graph.nodes, deps(&["python", "numpy", "pandas"]));
    assert_eq!(
        graph.edges,
        vec![("pandas".to_string(), "numpy".to_string()), ("pandas".to_string(), "python".to_string())]
    );
}

#[test]
fn test_dependency_graph_creation() {
    let packages = vec![package("numpy", Some("1.21.0"), Some(10485760)), package("pandas", Some("1.3.0"), Some(20971520))];
    let mut dep_map = DependencyMap::new();
    if let Some(deps) = conda_env_inspect::analysis::get_common_package_dependencies("pandas") {
        dep_map.insert("pandas".to_string(), deps);
    }
    let graph = create_dependency_graph(&packages, &dep_map);
    assert_eq!(graph.nodes.len(), 2);
    assert!(graph.nodes.contains(&"numpy".to_string()));
    assert!(graph.nodes.contains(&"pandas".to_string()));
    assert_eq!(graph.edges, vec![("pandas".to_string(), "numpy".to_string())]);
}

#[test]
fn every_edge_joins_existing_nodes_once() {
    let packages = vec![package("a", None, None), package("b", None, None), package("c", None, None), package("d", None, None)];
    let mut dep_map = DependencyMap::new();
    dep_map.insert("a".to_string(), deps(&["b", "b>=1", "c", "zzz"]));
    dep_map.insert("b".to_string(), deps(&["c", "d"]));
    dep_map.insert("d".to_string(), deps(&["a"]));
    let graph = create_advanced_dependency_graph(&packages, &dep_map);
    for (i, e) in graph.edges.iter().enumerate() {
        assert!(e.from < graph.nodes.len() && e.to < graph.nodes.len());
        for f in &graph.edges[i + 1..] {
            assert!(!(e.from == f.from && e.to == f.to));
        }
    }
    assert!(has_edge(&graph, "a", "c", EdgeKind::Direct));
    assert!(has_edge(&graph, "a", "d", EdgeKind::Transitive));
    assert!(has_edge(&graph, "d", "c", EdgeKind::Transitive));
    assert!(!graph.edges.iter().any(|e| e.from == e.to));
}

#[test]
fn plain_graph_dot_text() {
    let packages = vec![package("numpy", None, None), package("pandas", None, None), package("matplotlib", None, None)];
    let mut dep_map = DependencyMap::new();
    dep_map.insert("pandas".to_string(), deps(&["numpy"]));
    dep_map.insert("matplotlib".to_string(), deps(&["numpy"]));
    let graph = create_dependency_graph(&packages, &dep_map);
    let dot = conda_env_inspect::analysis::dependency_graph_dot(&graph);
    assert_eq!(
        dot,
        "digraph conda_dependencies {\n  node [shape=box, style=filled, fillcolor=lightblue];\n  \"numpy\" [label=\"numpy\"];\n  \"pandas\" [label=\"pandas\"];\n  \"matplotlib\" [label=\"matplotlib\"];\n  \"pandas\" -> \"numpy\";\n  \"matplotlib\" -> \"numpy\";\n}\n"
    );
}

#[test]
fn swapped_lists_keep_the_conflict_on_the_same_dependency() {
    let packages = vec![package("package-a", None, None), package("package-b", None, None)];
    let mut swapped = DependencyMap::new();
    swapped.insert("package-a".to_string(), deps(&["numpy>=1.20.0"]));
    swapped.insert("package-b".to_string(), deps(&["numpy<1.18.0"]));
    let conflicts = detect_conflicts(&packages, &swapped);
    assert_eq!(
        conflicts,
        vec![("package-a".to_string(), "package-b".to_string(), "numpy(>=1.20.0≠<1.18.0)".to_string())]
    );
}

#[test]
fn repeated_specs_give_one_record_per_pair_and_dependency() {
    let packages = vec![package("package-a", None, None), package("package-b", None, None)];
    let mut dep_map = DependencyMap::new();
    dep_map.insert("package-a".to_string(), deps(&["numpy<1.0.0", "numpy<2.0.0", "scipy<1.0.0"]));
    dep_map.insert("package-b".to_string(), deps(&["numpy>=3.0.0", "scipy>=2.0.0"]));
    let conflicts = detect_conflicts(&packages, &dep_map);
    assert_eq!(conflicts.len(), 2);
    assert_eq!(conflicts[0].2, "numpy(<1.0.0≠>=3.0.0)");
    assert_eq!(conflicts[1].2, "scipy(<1.0.0≠>=2.0.0)");
}
