//! The plain dependency graph: package names and raw name-to-name edges.
use vstd::prelude::*;
use crate::constraint::same_text;
use crate::depmap::{has_key, keys_unique, spec_insert, DependencyEntries, DependencyMap};
use crate::graph::{distinct_names, index_of};
use crate::models::Package;

verus! {

/// Nodes are package names; edges join a package to each listed dependency
/// that is itself a package of the environment.
pub struct DependencyGraph {
    /// Package names, each once.
    pub nodes: Vec<String>,
    /// Edges `(from, to)` by name.
    pub edges: Vec<(String, String)>,
}

/// The text of a name pair.
pub open spec fn pair_view(p: (String, String)) -> (Seq<char>, Seq<char>) {
    (p.0@, p.1@)
}

/// The specifications recorded for `name`, none when it has no entry.
pub open spec fn entry_specs(m: DependencyEntries, name: Seq<char>) -> Seq<Seq<char>> {
    if has_key(m, name) {
        let i = choose|i: int| 0 <= i < m.len() && #[trigger] m[i].0 == name;
        m[i].1
    } else {
        Seq::empty()
    }
}

/// The edges `(a, d)` for each listed `d` that is a node, in list order.
pub open spec fn listed_edges(a: Seq<char>, specs: Seq<Seq<char>>, names: Seq<Seq<char>>) -> Seq<(Seq<char>, Seq<char>)>
    decreases specs.len(),
{
    if specs.len() == 0 {
        Seq::empty()
    } else {
        listed_edges(a, specs.drop_last(), names) + if names.contains(specs.last()) {
            seq![(a, specs.last())]
        } else {
            Seq::empty()
        }
    }
}

/// The edges of the plain graph: for each package in order, one edge to
/// each listed dependency that is a node, in list order.
pub open spec fn plain_edges(ps: Seq<Package>, m: DependencyEntries, names: Seq<Seq<char>>) -> Seq<(Seq<char>, Seq<char>)>
    decreases ps.len(),
{
    if ps.len() == 0 {
        Seq::empty()
    } else {
        plain_edges(ps.drop_last(), m, names) + listed_edges(
            ps.last().name@,
            entry_specs(m, ps.last().name@),
            names,
        )
    }
}

/// The text of a list of edges.
pub open spec fn pair_views(v: Seq<(String, String)>) -> Seq<(Seq<char>, Seq<char>)> {
    Seq::new(v.len(), |k: int| pair_view(v[k]))
}

/// Builds the plain graph from the packages and the dependency lists found
/// for them.
pub fn create_dependency_graph(packages: &[Package], dependency_map: &DependencyMap) -> (g: DependencyGraph)
    ensures
        g.nodes.deep_view() == distinct_names(packages@),
        pair_views(g.edges@) == plain_edges(packages@, dependency_map@, distinct_names(packages@)),
{
    let mut nodes: Vec<String> = Vec::new();
    let mut i: usize = 0;
    assert(packages@.take(0) =~= Seq::<Package>::empty());
    assert(nodes.deep_view() =~= Seq::<Seq<char>>::empty());
    while i < packages.len()
        invariant
            0 <= i <= packages@.len(),
            nodes.deep_view() == distinct_names(packages@.take(i as int)),
        decreases packages@.len() - i,
    {
        let ghost prev = nodes.deep_view();
        assert(packages@.take(i + 1).drop_last() =~= packages@.take(i as int));
        assert(packages@.take(i + 1).last() == packages@[i as int]);
        if index_of(&nodes, packages[i].name.as_str()).is_none() {
            nodes.push(packages[i].name.clone());
            assert(nodes.deep_view() =~= prev.push(packages@[i as int].name@));
        }
        i = i + 1;
    }
    assert(packages@.take(packages@.len() as int) =~= packages@);
    let ghost names = nodes.deep_view();
    let ghost ps = packages@;
    let ghost m = dependency_map@;
    let _ = dependency_map.len();
    let mut edges: Vec<(String, String)> = Vec::new();
    let mut p: usize = 0;
    assert(pair_views(edges@) =~= plain_edges(ps.take(0), m, names));
    while p < packages.len()
        invariant
            names == nodes.deep_view(),
            ps == packages@,
            m == dependency_map@,
            keys_unique(m),
            0 <= p <= ps.len(),
            pair_views(edges@) == plain_edges(ps.take(p as int), m, names),
        decreases ps.len() - p,
    {
        let ghost prefix = pair_views(edges@);
        assert(ps.take(p + 1).drop_last() =~= ps.take(p as int));
        assert(ps.take(p + 1).last() == ps[p as int]);
        let name = &packages[p].name;
        match dependency_map.position(name.as_str()) {
            Some(e) => {
                proof {
                    let w = choose|w: int| 0 <= w < m.len() && #[trigger] m[w].0 == name@;
                    assert(w == e);
                }
                let deps = dependency_map.specs_at(e);
                let ghost dv = deps.deep_view();
                let mut j: usize = 0;
                assert(dv.take(0) =~= Seq::<Seq<char>>::empty());
                assert(pair_views(edges@) =~= prefix + listed_edges(name@, dv.take(0), names));
                while j < deps.len()
                    invariant
                        names == nodes.deep_view(),
                        dv == deps.deep_view(),
                        0 <= j <= dv.len(),
                        pair_views(edges@) == prefix + listed_edges(name@, dv.take(j as int), names),
                    decreases dv.len() - j,
                {
                    let ghost before = pair_views(edges@);
                    assert(dv.take(j + 1).drop_last() =~= dv.take(j as int));
                    assert(dv.take(j + 1).last() == deps@[j as int]@);
                    if index_of(&nodes, deps[j].as_str()).is_some() {
                        let pair = (name.clone(), deps[j].clone());
                        edges.push(pair);
                        assert(pair_views(edges@) =~= before.push(pair_view(pair)));
                    } else {
                        assert(before + Seq::<(Seq<char>, Seq<char>)>::empty() =~= before);
                    }
                    j = j + 1;
                }
                assert(dv.take(dv.len() as int) =~= dv);
            },
            None => {
                assert(prefix + listed_edges(name@, Seq::<Seq<char>>::empty(), names) =~= prefix);
            },
        }
        p = p + 1;
    }
    assert(ps.take(ps.len() as int) =~= ps);
    DependencyGraph { nodes, edges }
}

/// Known dependencies of a few common packages, used when nothing better is
/// available.
pub open spec fn common_dependencies(name: Seq<char>) -> Option<Seq<Seq<char>>> {
    if name == "pandas"@ {
        Some(seq!["numpy"@, "python"@, "python-dateutil"@, "pytz"@])
    } else if name == "matplotlib"@ {
        Some(seq!["numpy"@, "python"@, "pillow"@, "cycler"@])
    } else if name == "scikit-learn"@ {
        Some(seq!["numpy"@, "scipy"@, "python"@, "joblib"@])
    } else if name == "tensorflow"@ {
        Some(seq!["numpy"@, "python"@, "protobuf"@, "absl-py"@])
    } else if name == "pytorch"@ {
        Some(seq!["python"@, "numpy"@])
    } else if name == "jupyterlab"@ {
        Some(seq!["python"@, "jupyter-core"@, "ipython"@])
    } else {
        None
    }
}

/// The texts of a list of string slices.
pub open spec fn views_of(items: Seq<&str>) -> Seq<Seq<char>> {
    Seq::new(items.len(), |i: int| items[i]@)
}

fn texts(items: &[&str]) -> (r: Vec<String>)
    ensures
        r.deep_view() == views_of(items@),
{
    let mut r: Vec<String> = Vec::new();
    let mut i: usize = 0;
    while i < items.len()
        invariant
            0 <= i <= items@.len(),
            r@.len() == i,
            forall|q: int| 0 <= q < i ==> (#[trigger] r@[q])@ == items@[q]@,
        decreases items@.len() - i,
    {
        r.push(items[i].to_owned());
        i = i + 1;
    }
    assert(r.deep_view() =~= views_of(items@));
    r
}

/// The known dependencies of a common package, if it is one.
pub fn get_common_package_dependencies(package_name: &str) -> (r: Option<Vec<String>>)
    ensures
        match r {
            Some(v) => common_dependencies(package_name@) == Some(v.deep_view()),
            None => common_dependencies(package_name@).is_none(),
        },
{
    let list: Option<Vec<String>> = if same_text(package_name, "pandas") {
        Some(texts(&["numpy", "python", "python-dateutil", "pytz"]))
    } else if same_text(package_name, "matplotlib") {
        Some(texts(&["numpy", "python", "pillow", "cycler"]))
    } else if same_text(package_name, "scikit-learn") {
        Some(texts(&["numpy", "scipy", "python", "joblib"]))
    } else if same_text(package_name, "tensorflow") {
        Some(texts(&["numpy", "python", "protobuf", "absl-py"]))
    } else if same_text(package_name, "pytorch") {
        Some(texts(&["python", "numpy"]))
    } else if same_text(package_name, "jupyterlab") {
        Some(texts(&["python", "jupyter-core", "ipython"]))
    } else {
        None
    };
    proof {
        if list.is_some() {
            reveal_strlit("numpy");
            assert(list.unwrap().deep_view() =~= common_dependencies(package_name@).unwrap());
        }
    }
    list
}

/// Development tools that are never reported as removable.
pub open spec fn is_dev_package(name: Seq<char>) -> bool {
    name == "pytest"@ || name == "black"@ || name == "flake8"@ || name == "mypy"@ || name
        == "isort"@ || name == "pylint"@ || name == "jupyter"@ || name == "ipython"@ || name
        == "notebook"@ || name == "ipykernel"@ || name == "jupyterlab"@
}

/// Some entry lists `name` (as a whole specification string).
pub open spec fn listed_anywhere(m: DependencyEntries, name: Seq<char>) -> bool {
    exists|i: int, j: int| 0 <= i < m.len() && 0 <= j < m[i].1.len() && #[trigger] m[i].1[j] == name
}

/// The names of the packages nothing depends on and that are not
/// development tools, in package order.
pub open spec fn redundant_names(ps: Seq<Package>, m: DependencyEntries) -> Seq<Seq<char>>
    decreases ps.len(),
{
    if ps.len() == 0 {
        Seq::empty()
    } else {
        let n = ps.last().name@;
        redundant_names(ps.drop_last(), m) + if !listed_anywhere(m, n) && !is_dev_package(n) {
            seq![n]
        } else {
            Seq::empty()
        }
    }
}

fn is_listed_anywhere(dependency_map: &DependencyMap, name: &str) -> (r: bool)
    ensures
        r == listed_anywhere(dependency_map@, name@),
{
    let ghost m = dependency_map@;
    let n = dependency_map.len();
    let mut i: usize = 0;
    while i < n
        invariant
            m == dependency_map@,
            n == m.len(),
            0 <= i <= n,
            forall|a: int, b: int| 0 <= a < i && 0 <= b < m[a].1.len() ==> #[trigger] m[a].1[b] != name@,
        decreases n - i,
    {
        let specs = dependency_map.specs_at(i);
        let mut j: usize = 0;
        while j < specs.len()
            invariant
                m == dependency_map@,
                n == m.len(),
                0 <= i < n,
                specs.deep_view() == m[i as int].1,
                0 <= j <= specs@.len(),
                forall|a: int, b: int| 0 <= a < i && 0 <= b < m[a].1.len() ==> #[trigger] m[a].1[b] != name@,
                forall|b: int| 0 <= b < j ==> #[trigger] m[i as int].1[b] != name@,
            decreases specs@.len() - j,
        {
            assert(m[i as int].1[j as int] == specs@[j as int]@);
            if same_text(specs[j].as_str(), name) {
                return true;
            }
            j = j + 1;
        }
        i = i + 1;
    }
    false
}

fn is_dev_package_exec(name: &str) -> (r: bool)
    ensures
        r == is_dev_package(name@),
{
    same_text(name, "pytest") || same_text(name, "black") || same_text(name, "flake8")
        || same_text(name, "mypy") || same_text(name, "isort") || same_text(name, "pylint")
        || same_text(name, "jupyter") || same_text(name, "ipython") || same_text(name, "notebook")
        || same_text(name, "ipykernel") || same_text(name, "jupyterlab")
}

/// Packages that might be removed: nothing lists them as a dependency and
/// they are not common development tools.
pub fn identify_redundant_packages(packages: &[Package], dependency_map: &DependencyMap) -> (r: Vec<String>)
    ensures
        r.deep_view() == redundant_names(packages@, dependency_map@),
{
    let mut r: Vec<String> = Vec::new();
    let mut i: usize = 0;
    assert(packages@.take(0) =~= Seq::<Package>::empty());
    assert(r.deep_view() =~= Seq::<Seq<char>>::empty());
    while i < packages.len()
        invariant
            0 <= i <= packages@.len(),
            r.deep_view() == redundant_names(packages@.take(i as int), dependency_map@),
        decreases packages@.len() - i,
    {
        let ghost prev = r.deep_view();
        assert(packages@.take(i + 1).drop_last() =~= packages@.take(i as int));
        assert(packages@.take(i + 1).last() == packages@[i as int]);
        let name = &packages[i].name;
        if !is_listed_anywhere(dependency_map, name.as_str()) && !is_dev_package_exec(name.as_str()) {
            r.push(name.clone());
            assert(r.deep_view() =~= prev + seq![name@]);
        } else {
            assert(prev + Seq::<Seq<char>>::empty() =~= prev);
        }
        i = i + 1;
    }
    assert(packages@.take(packages@.len() as int) =~= packages@);
    r
}

/// Entry `k` of `now` is either entry `k` of `before` unchanged, or an
/// entry that had no dependencies (or did not exist) and now holds the
/// common dependencies of its package.
pub open spec fn entry_kept_or_filled(before: DependencyEntries, now: DependencyEntries, k: int) -> bool {
    (k < before.len() && now[k].1 == before[k].1) || ((k >= before.len() || before[k].1.len() == 0)
        && common_dependencies(now[k].0) == Some(now[k].1))
}

/// `dep` had no recorded dependencies in `m`.
pub open spec fn lacks_dependencies(m: DependencyEntries, dep: Seq<char>) -> bool {
    forall|k: int| 0 <= k < m.len() && (#[trigger] m[k]).0 == dep ==> m[k].1.len() == 0
}

/// `dep` is recorded with its common dependencies.
pub open spec fn filled_in(m: DependencyEntries, dep: Seq<char>) -> bool {
    exists|k: int| 0 <= k < m.len() && (#[trigger] m[k]).0 == dep && Some(m[k].1) == common_dependencies(dep)
}

proof fn lemma_common_nonempty(name: Seq<char>)
    ensures
        common_dependencies(name) matches Some(d) ==> d.len() > 0,
{
}

/// Fills in, from the table of common packages, the dependencies of every
/// package that some package lists but that has none recorded. Existing
/// non-empty entries are never changed.
pub fn enhance_dependency_map(dependency_map: &mut DependencyMap)
    ensures
        final(dependency_map)@.len() >= old(dependency_map)@.len(),
        forall|k: int| 0 <= k < old(dependency_map)@.len() ==> (#[trigger] final(dependency_map)@[k]).0 == old(dependency_map)@[k].0,
        forall|k: int|
            0 <= k < final(dependency_map)@.len() ==> entry_kept_or_filled(old(dependency_map)@, final(dependency_map)@, k),
        forall|k: int, j: int|
            0 <= k < old(dependency_map)@.len() && 0 <= j < old(dependency_map)@[k].1.len()
                && common_dependencies(#[trigger] old(dependency_map)@[k].1[j]) is Some
                && lacks_dependencies(old(dependency_map)@, old(dependency_map)@[k].1[j]) ==> filled_in(
                final(dependency_map)@,
                old(dependency_map)@[k].1[j],
            ),
{
    let ghost m0 = dependency_map@;
    let n0 = dependency_map.len();
    let mut i: usize = 0;
    while i < n0
        invariant
            n0 == m0.len(),
            0 <= i <= n0,
            dependency_map@.len() >= n0,
            keys_unique(m0),
            forall|k: int| 0 <= k < n0 ==> (#[trigger] dependency_map@[k]).0 == m0[k].0,
            forall|k: int| 0 <= k < dependency_map@.len() ==> entry_kept_or_filled(m0, dependency_map@, k),
            forall|k: int, j: int|
                0 <= k < i && 0 <= j < m0[k].1.len() && common_dependencies(#[trigger] m0[k].1[j]) is Some
                    && lacks_dependencies(m0, m0[k].1[j]) ==> filled_in(dependency_map@, m0[k].1[j]),
        decreases n0 - i,
    {
        let _ = dependency_map.len();
        let specs_ref = dependency_map.specs_at(i);
        let mut specs: Vec<String> = Vec::new();
        let mut c: usize = 0;
        while c < specs_ref.len()
            invariant
                0 <= c <= specs_ref@.len(),
                specs@.len() == c,
                forall|q: int| 0 <= q < c ==> (#[trigger] specs@[q])@ == specs_ref@[q]@,
            decreases specs_ref@.len() - c,
        {
            specs.push(specs_ref[c].clone());
            c = c + 1;
        }
        let ghost current = dependency_map@[i as int].1;
        assert(specs.deep_view() =~= current);
        assert(entry_kept_or_filled(m0, dependency_map@, i as int));
        let mut j: usize = 0;
        while j < specs.len()
            invariant
                n0 == m0.len(),
                0 <= i < n0,
                keys_unique(m0),
                specs.deep_view() == current,
                m0[i as int].1.len() > 0 ==> current == m0[i as int].1,
                0 <= j <= specs@.len(),
                dependency_map@.len() >= n0,
                forall|k: int| 0 <= k < n0 ==> (#[trigger] dependency_map@[k]).0 == m0[k].0,
                forall|k: int| 0 <= k < dependency_map@.len() ==> entry_kept_or_filled(m0, dependency_map@, k),
                forall|k: int, t: int|
                    0 <= k < i && 0 <= t < m0[k].1.len() && common_dependencies(#[trigger] m0[k].1[t]) is Some
                        && lacks_dependencies(m0, m0[k].1[t]) ==> filled_in(dependency_map@, m0[k].1[t]),
                m0[i as int].1.len() > 0 ==> forall|t: int|
                    0 <= t < j && common_dependencies(#[trigger] m0[i as int].1[t]) is Some
                        && lacks_dependencies(m0, m0[i as int].1[t]) ==> filled_in(dependency_map@, m0[i as int].1[t]),
            decreases specs@.len() - j,
        {
            let dep = &specs[j];
            let ghost d = dep@;
            assert(current[j as int] == d);
            let ghost before = dependency_map@;
            let _ = dependency_map.len();
            let need = match dependency_map.get(dep.as_str()) {
                None => true,
                Some(v) => v.len() == 0,
            };
            proof {
                if !need {
                    let k = choose|k: int| 0 <= k < before.len() && before[k].0 == d && #[trigger] before[k].1 == before[k].1;
                    let k2 = choose|k2: int|
                        0 <= k2 < before.len() && before[k2].0 == d && #[trigger] before[k2].1 == before[k2].1 && before[k2].1.len() > 0;
                    assert(entry_kept_or_filled(m0, before, k2));
                    if common_dependencies(d) is Some && lacks_dependencies(m0, d) {
                        if k2 < m0.len() && before[k2].1 == m0[k2].1 {
                            assert(m0[k2].0 == d);
                        }
                        assert(filled_in(before, d));
                    }
                }
            }
            if need {
                match get_common_package_dependencies(dep.as_str()) {
                    Some(common) => {
                        let ghost cv = common.deep_view();
                        proof {
                            lemma_common_nonempty(d);
                        }
                        dependency_map.insert(dep.clone(), common);
                        let ghost after = dependency_map@;
                        proof {
                            assert(after == spec_insert(before, d, cv));
                            if has_key(before, d) {
                                let w = choose|w: int| 0 <= w < before.len() && #[trigger] before[w].0 == d;
                                assert(after == before.update(w, (d, cv)));
                                assert(before[w].1.len() == 0);
                                assert(after[w].0 == d);
                                assert(filled_in(after, d));
                                assert forall|k: int| 0 <= k < after.len() implies entry_kept_or_filled(m0, after, k) by {
                                    if k == w {
                                        if k < m0.len() && m0[k].1.len() > 0 {
                                            assert(entry_kept_or_filled(m0, before, k));
                                            assert(before[k].1 == m0[k].1 || common_dependencies(before[k].0) == Some(before[k].1));
                                            lemma_common_nonempty(before[k].0);
                                        }
                                    } else {
                                        assert(after[k] == before[k]);
                                        assert(entry_kept_or_filled(m0, before, k));
                                    }
                                }
                                assert forall|x: Seq<char>| #[trigger] filled_in(before, x) implies filled_in(after, x) by {
                                    let k = choose|k: int| 0 <= k < before.len() && (#[trigger] before[k]).0 == x && Some(before[k].1) == common_dependencies(x);
                                    lemma_common_nonempty(x);
                                    if k == w {
                                        assert(before[k].1.len() > 0);
                                    }
                                    assert(after[k] == before[k]);
                                }
                            } else {
                                assert(after == before.push((d, cv)));
                                assert(after[before.len() as int] == (d, cv));
                                assert(filled_in(after, d));
                                assert forall|k: int| 0 <= k < after.len() implies entry_kept_or_filled(m0, after, k) by {
                                    if k < before.len() {
                                        assert(after[k] == before[k]);
                                        assert(entry_kept_or_filled(m0, before, k));
                                    } else {
                                        if k < m0.len() {
                                            assert(before[k].0 == m0[k].0);
                                        }
                                    }
                                }
                                assert forall|x: Seq<char>| #[trigger] filled_in(before, x) implies filled_in(after, x) by {
                                    let k = choose|k: int| 0 <= k < before.len() && (#[trigger] before[k]).0 == x && Some(before[k].1) == common_dependencies(x);
                                    assert(after[k] == before[k]);
                                }
                            }
                            assert forall|k: int| 0 <= k < n0 implies (#[trigger] after[k]).0 == m0[k].0 by {
                                if has_key(before, d) {
                                    let w = choose|w: int| 0 <= w < before.len() && #[trigger] before[w].0 == d;
                                    if k == w {
                                        assert(before[k].0 == d);
                                    } else {
                                        assert(after[k] == before[k]);
                                    }
                                } else {
                                    assert(after[k] == before[k]);
                                }
                            }
                        }
                    },
                    None => {},
                }
            }
            j = j + 1;
        }
        i = i + 1;
    }
}

/// The DOT line declaring a node.
pub open spec fn node_line(n: Seq<char>) -> Seq<char> {
    "  \""@ + n + "\" [label=\""@ + n + "\"];\n"@
}

/// The DOT line of an edge.
pub open spec fn edge_line(a: Seq<char>, b: Seq<char>) -> Seq<char> {
    "  \""@ + a + "\" -> \""@ + b + "\";\n"@
}

/// The node lines of the first `k` nodes.
pub open spec fn node_lines(nodes: Seq<String>, k: int) -> Seq<char>
    decreases k,
{
    if k <= 0 {
        Seq::empty()
    } else {
        node_lines(nodes, k - 1) + node_line(nodes[k - 1]@)
    }
}

/// The edge lines of the first `k` edges.
pub open spec fn edge_lines(edges: Seq<(String, String)>, k: int) -> Seq<char>
    decreases k,
{
    if k <= 0 {
        Seq::empty()
    } else {
        edge_lines(edges, k - 1) + edge_line(edges[k - 1].0@, edges[k - 1].1@)
    }
}

/// The DOT text of the plain graph: a header, one line per node, one line
/// `"A" -> "B";` per edge, and the closing brace.
pub open spec fn spec_dot_text(g: DependencyGraph) -> Seq<char> {
    "digraph conda_dependencies {\n  node [shape=box, style=filled, fillcolor=lightblue];\n"@ + node_lines(
        g.nodes@,
        g.nodes@.len() as int,
    ) + edge_lines(g.edges@, g.edges@.len() as int) + "}\n"@
}

/// Renders the plain graph in DOT format.
pub fn dependency_graph_dot(graph: &DependencyGraph) -> (r: String)
    ensures
        r@ == spec_dot_text(*graph),
{
    let mut out = "digraph conda_dependencies {\n  node [shape=box, style=filled, fillcolor=lightblue];\n".to_string();
    let ghost header = out@;
    let mut i: usize = 0;
    while i < graph.nodes.len()
        invariant
            0 <= i <= graph.nodes@.len(),
            out@ == header + node_lines(graph.nodes@, i as int),
        decreases graph.nodes@.len() - i,
    {
        let n = graph.nodes[i].as_str();
        out.append("  \"");
        out.append(n);
        out.append("\" [label=\"");
        out.append(n);
        out.append("\"];\n");
        assert(out@ =~= header + node_lines(graph.nodes@, i + 1));
        i = i + 1;
    }
    let ghost with_nodes = out@;
    let mut k: usize = 0;
    while k < graph.edges.len()
        invariant
            0 <= k <= graph.edges@.len(),
            out@ == with_nodes + edge_lines(graph.edges@, k as int),
        decreases graph.edges@.len() - k,
    {
        let e = &graph.edges[k];
        out.append("  \"");
        out.append(e.0.as_str());
        out.append("\" -> \"");
        out.append(e.1.as_str());
        out.append("\";\n");
        assert(out@ =~= with_nodes + edge_lines(graph.edges@, k + 1));
        k = k + 1;
    }
    out.append("}\n");
    assert(out@ =~= spec_dot_text(*graph));
    out
}

/// The outdated packages, in order.
pub open spec fn outdated_of(ps: Seq<Package>) -> Seq<Package>
    decreases ps.len(),
{
    if ps.len() == 0 {
        Seq::empty()
    } else {
        outdated_of(ps.drop_last()) + if ps.last().is_outdated {
            seq![ps.last()]
        } else {
            Seq::empty()
        }
    }
}

/// The update line for an outdated package with a known latest release.
pub open spec fn update_lines(ps: Seq<Package>) -> Seq<Seq<char>>
    decreases ps.len(),
{
    if ps.len() == 0 {
        Seq::empty()
    } else {
        let p = ps.last();
        update_lines(ps.drop_last()) + match p.latest_version {
            Some(l) => seq![
                "Update "@ + p.name@ + " from "@ + crate::utils::or_unknown(p.version) + " to "@ + l@,
            ],
            None => Seq::empty(),
        }
    }
}

/// The recommendations about outdated packages: when asked for and there
/// are any, their number, then an update line for each of the first three
/// that has a known latest release.
pub open spec fn spec_outdated_recommendations(ps: Seq<Package>, check_outdated: bool) -> Seq<Seq<char>> {
    let o = outdated_of(ps);
    if check_outdated && o.len() > 0 {
        seq![
            "Found "@ + crate::utils::decimal_text(o.len())
                + " outdated packages. Consider updating them for security and performance improvements."@,
        ] + update_lines(if o.len() <= 3 {
            o
        } else {
            o.take(3)
        })
    } else {
        Seq::empty()
    }
}

fn update_line(p: &Package, latest: &String) -> (r: String)
    ensures
        r@ == "Update "@ + p.name@ + " from "@ + crate::utils::or_unknown(p.version) + " to "@ + latest@,
{
    let mut line = "Update ".to_string();
    line.append(p.name.as_str());
    line.append(" from ");
    match &p.version {
        Some(v) => line.append(v.as_str()),
        None => line.append("unknown"),
    }
    line.append(" to ");
    line.append(latest.as_str());
    line
}

/// The recommendations about outdated packages (see
/// `spec_outdated_recommendations`).
pub fn outdated_recommendations(packages: &[Package], check_outdated: bool) -> (r: Vec<String>)
    ensures
        r.deep_view() == spec_outdated_recommendations(packages@, check_outdated),
{
    let ghost ps = packages@;
    let mut count: usize = 0;
    let mut lines: Vec<String> = Vec::new();
    let mut i: usize = 0;
    assert(ps.take(0) =~= Seq::<Package>::empty());
    assert(lines.deep_view() =~= update_lines(Seq::<Package>::empty()));
    while i < packages.len()
        invariant
            ps == packages@,
            0 <= i <= ps.len(),
            count as int == outdated_of(ps.take(i as int)).len(),
            count <= i,
            lines.deep_view() == update_lines(
                if count <= 3 {
                    outdated_of(ps.take(i as int))
                } else {
                    outdated_of(ps.take(i as int)).take(3)
                },
            ),
        decreases ps.len() - i,
    {
        let ghost o = outdated_of(ps.take(i as int));
        assert(ps.take(i + 1).drop_last() =~= ps.take(i as int));
        assert(ps.take(i + 1).last() == ps[i as int]);
        let p = &packages[i];
        if p.is_outdated {
            let ghost o2 = o.push(ps[i as int]);
            assert(outdated_of(ps.take(i + 1)) =~= o2);
            if count < 3 {
                assert(o2.drop_last() =~= o);
                match &p.latest_version {
                    Some(l) => {
                        let ghost before = lines.deep_view();
                        let line = update_line(p, l);
                        lines.push(line);
                        assert(lines.deep_view() =~= before.push(line@));
                    },
                    None => {
                        assert(update_lines(o) + Seq::<Seq<char>>::empty() =~= update_lines(o));
                    },
                }
            } else {
                assert(o2.take(3) =~= o.take(3));
                if count == 3 {
                    assert(o.take(3) =~= o);
                }
            }
            count = count + 1;
        } else {
            assert(outdated_of(ps.take(i + 1)) =~= o);
        }
        i = i + 1;
    }
    assert(ps.take(ps.len() as int) =~= ps);
    let mut r: Vec<String> = Vec::new();
    if check_outdated && count > 0 {
        let mut head = "Found ".to_string();
        crate::utils::push_decimal(&mut head, count as u64);
        head.append(" outdated packages. Consider updating them for security and performance improvements.");
        r.push(head);
        let mut k: usize = 0;
        let ghost first = r.deep_view();
        while k < lines.len()
            invariant
                0 <= k <= lines@.len(),
                r.deep_view() == first + lines.deep_view().take(k as int),
            decreases lines@.len() - k,
        {
            let ghost before = r.deep_view();
            let line = lines[k].clone();
            assert(lines.deep_view()[k as int] == line@);
            r.push(line);
            assert(r.deep_view() =~= before.push(line@));
            assert(lines.deep_view().take(k + 1) =~= lines.deep_view().take(k as int).push(line@));
            assert(r.deep_view() =~= first + lines.deep_view().take(k + 1));
            k = k + 1;
        }
        assert(lines.deep_view().take(lines@.len() as int) =~= lines.deep_view());
    } else {
        assert(r.deep_view() =~= Seq::<Seq<char>>::empty());
    }
    r
}

/// Sum of the known package sizes.
pub open spec fn size_total(ps: Seq<Package>) -> int
    decreases ps.len(),
{
    if ps.len() == 0 {
        0
    } else {
        size_total(ps.drop_last()) + match ps.last().size {
            Some(s) => s as int,
            None => 0,
        }
    }
}

/// Environments whose known sizes add up to more than this are large.
pub const LARGE_ENVIRONMENT: u128 = 2_000_000_000;

/// The lines about removable packages for the first `k` names.
pub open spec fn removal_lines(names: Seq<Seq<char>>) -> Seq<Seq<char>> {
    Seq::new(names.len(), |i: int| "Consider removing unused package: "@ + names[i])
}

/// The recommendations about size and redundancy: a warning when the known
/// sizes add up to more than two billion bytes; then, when some packages
/// look redundant, their number and a line for each of the first three.
pub open spec fn spec_size_and_redundancy_recommendations(ps: Seq<Package>, m: DependencyEntries) -> Seq<Seq<char>> {
    let red = redundant_names(ps, m);
    (if size_total(ps) > LARGE_ENVIRONMENT {
        seq![
            "Environment is quite large. Consider creating a minimal environment with only required packages."@,
        ]
    } else {
        Seq::empty()
    }) + if red.len() > 0 {
        seq![
            "Found "@ + crate::utils::decimal_text(red.len())
                + " potentially redundant packages that might be removed to streamline your environment."@,
        ] + removal_lines(if red.len() <= 3 {
            red
        } else {
            red.take(3)
        })
    } else {
        Seq::empty()
    }
}

/// The recommendations about size and redundancy (see
/// `spec_size_and_redundancy_recommendations`).
pub fn size_and_redundancy_recommendations(packages: &[Package], dependency_map: &DependencyMap) -> (r: Vec<String>)
    ensures
        r.deep_view() == spec_size_and_redundancy_recommendations(packages@, dependency_map@),
{
    let ghost ps = packages@;
    let mut total: u128 = 0;
    let mut i: usize = 0;
    assert(ps.take(0) =~= Seq::<Package>::empty());
    while i < packages.len()
        invariant
            ps == packages@,
            0 <= i <= ps.len(),
            total as int == size_total(ps.take(i as int)),
            total <= i as int * 0x1_0000_0000_0000_0000,
        decreases ps.len() - i,
    {
        assert(ps.take(i + 1).drop_last() =~= ps.take(i as int));
        assert(ps.take(i + 1).last() == ps[i as int]);
        match packages[i].size {
            Some(s) => {
                total = total + s as u128;
            },
            None => {},
        }
        i = i + 1;
    }
    assert(ps.take(ps.len() as int) =~= ps);
    let mut r: Vec<String> = Vec::new();
    if total > LARGE_ENVIRONMENT {
        r.push(
            "Environment is quite large. Consider creating a minimal environment with only required packages.".to_string(),
        );
    }
    let ghost first = r.deep_view();
    let red = identify_redundant_packages(packages, dependency_map);
    if red.len() > 0 {
        let mut head = "Found ".to_string();
        crate::utils::push_decimal(&mut head, red.len() as u64);
        head.append(" potentially redundant packages that might be removed to streamline your environment.");
        r.push(head);
        let ghost second = r.deep_view();
        let ghost shown = if red@.len() <= 3 {
            red.deep_view()
        } else {
            red.deep_view().take(3)
        };
        let mut k: usize = 0;
        while k < red.len() && k < 3
            invariant
                0 <= k <= red@.len(),
                k <= 3,
                shown == (if red@.len() <= 3 {
                    red.deep_view()
                } else {
                    red.deep_view().take(3)
                }),
                r.deep_view() == second + removal_lines(shown.take(k as int)),
            decreases red@.len() - k,
        {
            let mut line = "Consider removing unused package: ".to_string();
            line.append(red[k].as_str());
            let ghost before = r.deep_view();
            let ghost lv = line@;
            r.push(line);
            assert(r.deep_view() =~= before.push(lv));
            assert(shown[k as int] == red@[k as int]@);
            assert(removal_lines(shown.take(k + 1)) =~= removal_lines(shown.take(k as int)).push(lv));
            assert(r.deep_view() =~= second + removal_lines(shown.take(k + 1)));
            k = k + 1;
        }
        assert(shown.take(k as int) =~= shown);
        assert(r.deep_view() =~= spec_size_and_redundancy_recommendations(ps, dependency_map@));
    } else {
        assert(r.deep_view() =~= spec_size_and_redundancy_recommendations(ps, dependency_map@));
    }
    r
}

} // verus!
