//! The dependency graph: one node per distinct package name, a `direct`
//! edge per declared dependency on a known package, and a `transitive` edge
//! for each package reachable only through intermediaries.
use vstd::prelude::*;
use crate::closure::{
    adj_edge, adjacency_wf, in_closure, is_walk, path_step, reachable_from, reaches,
};
use crate::constraint::{parse_dependency, same_text, spec_dependency_name};
use crate::conflicts::{
    conflict_on, conflict_record, detect_conflicts, has_record, is_conflict_record, record_view,
};
use crate::depmap::{has_key, keys_unique, DependencyEntries, DependencyMap};
use crate::models::Package;

verus! {

/// Whether an edge stands for a declared dependency or only for
/// reachability through other packages.
#[derive(Clone, Copy, Debug, PartialEq, Eq, Structural)]
pub enum EdgeKind {
    Direct,
    Transitive,
}

/// An edge between two nodes, given by their indices.
#[derive(Clone, Copy, Debug, PartialEq, Eq, Structural)]
pub struct Edge {
    pub from: usize,
    pub to: usize,
    pub kind: EdgeKind,
}

/// The names of the packages in order of first appearance, each once.
pub open spec fn distinct_names(ps: Seq<Package>) -> Seq<Seq<char>>
    decreases ps.len(),
{
    if ps.len() == 0 {
        Seq::empty()
    } else {
        let prev = distinct_names(ps.drop_last());
        let n = ps.last().name@;
        if prev.contains(n) {
            prev
        } else {
            prev.push(n)
        }
    }
}

/// No name occurs twice.
pub open spec fn names_unique(names: Seq<Seq<char>>) -> bool {
    forall|i: int, j: int| 0 <= i < names.len() && 0 <= j < names.len() && i != j ==> names[i] != names[j]
}

/// Package `a` lists a specification whose name is `b`.
pub open spec fn declares(m: DependencyEntries, a: Seq<char>, b: Seq<char>) -> bool {
    exists|i: int, j: int|
        0 <= i < m.len() && m[i].0 == a && 0 <= j < m[i].1.len() && #[trigger] spec_dependency_name(
            m[i].1[j],
        ) == Some(b)
}

/// Node `u` declares a dependency on node `v`.
pub open spec fn direct_dependency(names: Seq<Seq<char>>, m: DependencyEntries, u: int, v: int) -> bool {
    0 <= u < names.len() && 0 <= v < names.len() && declares(m, names[u], names[v])
}

/// The edge list holds an edge `u -> v` of the given kind.
pub open spec fn has_edge(edges: Seq<Edge>, u: int, v: int, kind: EdgeKind) -> bool {
    exists|i: int|
        0 <= i < edges.len() && (#[trigger] edges[i]).from == u && edges[i].to == v && edges[i].kind
            == kind
}

/// Step `i` of `p` follows a direct edge.
pub open spec fn direct_step(edges: Seq<Edge>, p: Seq<int>, i: int) -> bool {
    has_edge(edges, p[i], p[i + 1], EdgeKind::Direct)
}

/// `p` leads from `a` to `b` over one or more direct edges.
pub open spec fn is_direct_path(edges: Seq<Edge>, p: Seq<int>, a: int, b: int) -> bool {
    p.len() >= 2 && p[0] == a && p[p.len() - 1] == b && forall|i: int|
        0 <= i < p.len() - 1 ==> #[trigger] direct_step(edges, p, i)
}

/// `b` can be reached from `a` over direct edges.
pub open spec fn reachable(edges: Seq<Edge>, a: int, b: int) -> bool {
    exists|p: Seq<int>| #[trigger] is_direct_path(edges, p, a, b)
}

/// The transitive-only relation: reachable, not itself, and not a declared
/// dependency.
pub open spec fn transitive_only(edges: Seq<Edge>, u: int, v: int) -> bool {
    u != v && !has_edge(edges, u, v, EdgeKind::Direct) && reachable(edges, u, v)
}

/// Every edge joins two existing nodes.
pub open spec fn edges_valid(edges: Seq<Edge>, n: int) -> bool {
    forall|i: int| 0 <= i < edges.len() ==> (#[trigger] edges[i]).from < n && edges[i].to < n
}

/// No two edges join the same ordered pair.
pub open spec fn edges_unique(edges: Seq<Edge>) -> bool {
    forall|i: int, j: int|
        0 <= i < edges.len() && 0 <= j < edges.len() && i != j ==> !((#[trigger] edges[i]).from
            == (#[trigger] edges[j]).from && edges[i].to == edges[j].to)
}

/// The dependency graph of an environment.
pub struct AdvancedDependencyGraph {
    /// Package names; a node is its index here.
    pub nodes: Vec<String>,
    /// Edges over node indices.
    pub edges: Vec<Edge>,
    /// The names declared in the environment itself.
    pub direct_deps: Vec<String>,
    /// Version conflicts: the two dependents and a description naming the
    /// shared dependency and both constraints.
    pub conflicts: Vec<(String, String, String)>,
}

impl AdvancedDependencyGraph {
    /// The node names.
    pub open spec fn names(&self) -> Seq<Seq<char>> {
        self.nodes.deep_view()
    }

    /// Edges join existing nodes, at most one per ordered pair, and names
    /// are unique.
    pub open spec fn wf(&self) -> bool {
        edges_valid(self.edges@, self.nodes@.len() as int) && edges_unique(self.edges@)
            && names_unique(self.names())
    }

    /// Number of nodes.
    pub fn node_count(&self) -> (r: usize)
        ensures
            r == self.nodes@.len(),
    {
        self.nodes.len()
    }

    /// Number of edges.
    pub fn edge_count(&self) -> (r: usize)
        ensures
            r == self.edges@.len(),
    {
        self.edges.len()
    }

    /// The node of a package name.
    pub fn node_index(&self, name: &str) -> (r: Option<usize>)
        ensures
            match r {
                Some(i) => i < self.nodes@.len() && self.names()[i as int] == name@,
                None => !self.names().contains(name@),
            },
    {
        index_of(&self.nodes, name)
    }
}

/// Position of a name in a list of names.
pub fn index_of(nodes: &Vec<String>, name: &str) -> (r: Option<usize>)
    ensures
        match r {
            Some(i) => i < nodes@.len() && nodes.deep_view()[i as int] == name@,
            None => !nodes.deep_view().contains(name@),
        },
{
    let mut i: usize = 0;
    while i < nodes.len()
        invariant
            0 <= i <= nodes@.len(),
            forall|j: int| 0 <= j < i ==> nodes.deep_view()[j] != name@,
        decreases nodes@.len() - i,
    {
        if same_text(nodes[i].as_str(), name) {
            return Some(i);
        }
        i = i + 1;
    }
    None
}

fn contains_index(v: &Vec<usize>, x: usize) -> (r: bool)
    ensures
        r == v@.contains(x),
{
    let mut i: usize = 0;
    while i < v.len()
        invariant
            0 <= i <= v@.len(),
            forall|j: int| 0 <= j < i ==> v@[j] != x,
        decreases v@.len() - i,
    {
        if v[i] == x {
            return true;
        }
        i = i + 1;
    }
    false
}

/// The names of `distinct_names` are unique.
pub proof fn lemma_distinct_names_unique(ps: Seq<Package>)
    ensures
        names_unique(distinct_names(ps)),
    decreases ps.len(),
{
    if ps.len() > 0 {
        lemma_distinct_names_unique(ps.drop_last());
    }
}

/// Every package name is a node.
pub proof fn lemma_distinct_names_cover(ps: Seq<Package>, k: int)
    requires
        0 <= k < ps.len(),
    ensures
        distinct_names(ps).contains(ps[k].name@),
    decreases ps.len(),
{
    let prev = distinct_names(ps.drop_last());
    if k < ps.len() - 1 {
        lemma_distinct_names_cover(ps.drop_last(), k);
        let w = choose|w: int| 0 <= w < prev.len() && prev[w] == ps[k].name@;
        if !prev.contains(ps.last().name@) {
            assert(prev.push(ps.last().name@)[w] == ps[k].name@);
        }
    } else if !prev.contains(ps.last().name@) {
        assert(prev.push(ps.last().name@)[prev.len() as int] == ps[k].name@);
    }
}

fn collect_names(packages: &[Package]) -> (r: Vec<String>)
    ensures
        r.deep_view() == distinct_names(packages@),
{
    let mut nodes: Vec<String> = Vec::new();
    let mut i: usize = 0;
    assert(packages@.take(0) =~= Seq::<Package>::empty());
    assert(nodes.deep_view() =~= Seq::<Seq<char>>::empty());
    while i < packages.len()
        invariant
            0 <= i <= packages@.len(),
            nodes.deep_view() == distinct_names(packages@.take(i as int)),
        decreases packages@.len() - i,
    {
        let ghost prev = nodes.deep_view();
        assert(packages@.take(i + 1).drop_last() =~= packages@.take(i as int));
        assert(packages@.take(i + 1).last() == packages@[i as int]);
        if index_of(&nodes, packages[i].name.as_str()).is_none() {
            let name = packages[i].name.clone();
            nodes.push(name);
            assert(nodes.deep_view() =~= prev.push(packages@[i as int].name@));
        }
        i = i + 1;
    }
    assert(packages@.take(packages@.len() as int) =~= packages@);
    nodes
}

/// The successors of node `u`: the nodes its specifications name.
fn successors(nodes: &Vec<String>, dependency_map: &DependencyMap, u: usize) -> (r: Vec<usize>)
    requires
        u < nodes@.len(),
        names_unique(nodes.deep_view()),
    ensures
        forall|j: int| 0 <= j < r@.len() ==> r@[j] < nodes@.len(),
        forall|v: int|
            0 <= v < nodes@.len() ==> (#[trigger] r@.contains(v as usize) <==> direct_dependency(
                nodes.deep_view(),
                dependency_map@,
                u as int,
                v,
            )),
        r@.no_duplicates(),
{
    let ghost names = nodes.deep_view();
    let ghost m = dependency_map@;
    let _ = dependency_map.len();
    let n_nodes = nodes.len();
    let mut succ: Vec<usize> = Vec::new();
    match dependency_map.get(nodes[u].as_str()) {
        Some(specs) => {
            let ghost e = choose|e: int|
                0 <= e < m.len() && m[e].0 == names[u as int] && #[trigger] m[e].1
                    == specs.deep_view();
            let mut j: usize = 0;
            while j < specs.len()
                invariant
                    names == nodes.deep_view(),
                    names.len() == n_nodes,
                    names_unique(names),
                    m == dependency_map@,
                    keys_unique(m),
                    u < names.len(),
                    0 <= e < m.len(),
                    m[e].0 == names[u as int],
                    m[e].1 == specs.deep_view(),
                    0 <= j <= specs@.len(),
                    succ@.no_duplicates(),
                    forall|q: int| 0 <= q < succ@.len() ==> succ@[q] < names.len(),
                    forall|v: int|
                        0 <= v < names.len() ==> (#[trigger] succ@.contains(v as usize) <==> exists|q: int|
                            0 <= q < j && #[trigger] spec_dependency_name(m[e].1[q]) == Some(
                                names[v],
                            )),
                decreases specs@.len() - j,
            {
                assert(m[e].1[j as int] == specs@[j as int]@);
                match parse_dependency(specs[j].as_str()) {
                    Some((dep_name, _)) => {
                        match index_of(nodes, dep_name.as_str()) {
                            Some(v) => {
                                let ghost before = succ@;
                                let present = contains_index(&succ, v);
                                if !present {
                                    succ.push(v);
                                    proof {
                                        assert forall|w: int| #[trigger] succ@.contains(w as usize) == (before.contains(w as usize) || w as usize == v) by {
                                            if before.contains(w as usize) {
                                                let q = choose|q: int| 0 <= q < before.len() && before[q] == w as usize;
                                                assert(succ@[q] == w as usize);
                                            }
                                            if w as usize == v {
                                                assert(succ@[before.len() as int] == v);
                                            }
                                            if succ@.contains(w as usize) && w as usize != v {
                                                let q = choose|q: int| 0 <= q < succ@.len() && succ@[q] == w as usize;
                                                assert(before[q] == w as usize);
                                            }
                                        }
                                    }
                                }
                                assert(present ==> succ@ == before && before.contains(v));
                                assert(spec_dependency_name(m[e].1[j as int]) == Some(names[v as int]));
                                assert forall|w: int|
                                    0 <= w < names.len() implies (#[trigger] succ@.contains(w as usize)
                                        <==> exists|q: int|
                                        0 <= q < j + 1 && #[trigger] spec_dependency_name(
                                            m[e].1[q],
                                        ) == Some(names[w])) by {
                                    assert(succ@.contains(w as usize) == (before.contains(w as usize) || w as usize == v));
                                    assert(before.contains(w as usize) <==> exists|q: int| 0 <= q < j && #[trigger] spec_dependency_name(m[e].1[q]) == Some(names[w]));
                                    if w != v {
                                        assert(names[w] != names[v as int]);
                                    }
                                    if succ@.contains(w as usize) && w == v {
                                        assert(spec_dependency_name(m[e].1[j as int]) == Some(
                                            names[w],
                                        ));
                                    }
                                    if exists|q: int| 0 <= q < j + 1 && #[trigger] spec_dependency_name(m[e].1[q]) == Some(names[w]) {
                                        let q = choose|q: int| 0 <= q < j + 1 && #[trigger] spec_dependency_name(m[e].1[q]) == Some(names[w]);
                                        if q == j {
                                            assert(names[w] == names[v as int]);
                                            assert(w == v);
                                        }
                                    }
                                }
                            },
                            None => {
                                assert forall|w: int|
                                    0 <= w < names.len() implies (#[trigger] succ@.contains(w as usize)
                                        <==> exists|q: int|
                                        0 <= q < j + 1 && #[trigger] spec_dependency_name(
                                            m[e].1[q],
                                        ) == Some(names[w])) by {
                                    assert(names[w] != dep_name@);
                                }
                            },
                        }
                    },
                    None => {
                        assert forall|w: int|
                            0 <= w < names.len() implies (#[trigger] succ@.contains(w as usize) <==> exists|
                                q: int,
                            |
                                0 <= q < j + 1 && #[trigger] spec_dependency_name(m[e].1[q])
                                    == Some(names[w])) by {}
                    },
                }
                j = j + 1;
            }
            assert forall|v: int| 0 <= v < names.len() implies (#[trigger] succ@.contains(v as usize) <==> direct_dependency(
                names,
                m,
                u as int,
                v,
            )) by {
                if direct_dependency(names, m, u as int, v) {
                    let (i2, q) = choose|i2: int, q: int|
                        0 <= i2 < m.len() && m[i2].0 == names[u as int] && 0 <= q < m[i2].1.len()
                            && #[trigger] spec_dependency_name(m[i2].1[q]) == Some(names[v]);
                    assert(i2 == e);
                }
            }
        },
        None => {
            assert forall|v: int| 0 <= v < names.len() implies !#[trigger] direct_dependency(
                names,
                m,
                u as int,
                v,
            ) by {
                if direct_dependency(names, m, u as int, v) {
                    let (i2, q) = choose|i2: int, q: int|
                        0 <= i2 < m.len() && m[i2].0 == names[u as int] && 0 <= q < m[i2].1.len()
                            && #[trigger] spec_dependency_name(m[i2].1[q]) == Some(names[v]);
                    assert(has_key(m, names[u as int]));
                }
            }
        },
    }
    succ
}

proof fn lemma_has_edge_push(e: Seq<Edge>, x: Edge)
    ensures
        forall|a: int, b: int, k: EdgeKind|
            #[trigger] has_edge(e.push(x), a, b, k) == (has_edge(e, a, b, k) || (x.from == a
                && x.to == b && x.kind == k)),
{
    let f = e.push(x);
    assert forall|a: int, b: int, k: EdgeKind|
        #[trigger] has_edge(f, a, b, k) == (has_edge(e, a, b, k) || (x.from == a && x.to == b
            && x.kind == k)) by {
        if has_edge(e, a, b, k) {
            let i = choose|i: int|
                0 <= i < e.len() && (#[trigger] e[i]).from == a && e[i].to == b && e[i].kind == k;
            assert(f[i] == e[i]);
        }
        if x.from == a && x.to == b && x.kind == k {
            assert(f[e.len() as int] == x);
        }
        if has_edge(f, a, b, k) && !(x.from == a && x.to == b && x.kind == k) {
            let i = choose|i: int|
                0 <= i < f.len() && (#[trigger] f[i]).from == a && f[i].to == b && f[i].kind == k;
            assert(i < e.len());
            assert(e[i] == f[i]);
        }
    }
}

proof fn lemma_push_keeps_unique(e: Seq<Edge>, x: Edge)
    requires
        edges_unique(e),
        !has_edge(e, x.from as int, x.to as int, EdgeKind::Direct),
        !has_edge(e, x.from as int, x.to as int, EdgeKind::Transitive),
    ensures
        edges_unique(e.push(x)),
{
    let f = e.push(x);
    assert forall|i: int, j: int|
        0 <= i < f.len() && 0 <= j < f.len() && i != j implies !((#[trigger] f[i]).from == (
        #[trigger] f[j]).from && f[i].to == f[j].to) by {
        if i < e.len() && j < e.len() {
            assert(f[i] == e[i] && f[j] == e[j]);
        } else if i < e.len() {
            assert(f[i] == e[i]);
            if f[i].from == x.from && f[i].to == x.to {
                assert(has_edge(e, x.from as int, x.to as int, e[i].kind));
            }
        } else {
            assert(f[j] == e[j]);
            if f[j].from == x.from && f[j].to == x.to {
                assert(has_edge(e, x.from as int, x.to as int, e[j].kind));
            }
        }
    }
}

/// Paths over adjacency lists and over the direct edges agree when both
/// describe the same relation.
proof fn lemma_paths_agree(adj: Seq<Vec<usize>>, e: Seq<Edge>)
    requires
        forall|x: int, y: int| #[trigger] adj_edge(adj, x, y) == has_edge(e, x, y, EdgeKind::Direct),
    ensures
        forall|x: int, y: int| #[trigger] reaches(adj, x, y) == reachable(e, x, y),
{
    assert forall|x: int, y: int| #[trigger] reaches(adj, x, y) == reachable(e, x, y) by {
        if reaches(adj, x, y) {
            let p = choose|p: Seq<int>| #[trigger] is_walk(adj, p, x, y);
            assert forall|i: int| 0 <= i < p.len() - 1 implies #[trigger] direct_step(e, p, i) by {
                assert(path_step(adj, p, i));
                assert(adj_edge(adj, p[i], p[i + 1]));
            }
            assert(is_direct_path(e, p, x, y));
        }
        if reachable(e, x, y) {
            let p = choose|p: Seq<int>| #[trigger] is_direct_path(e, p, x, y);
            assert forall|i: int| 0 <= i < p.len() - 1 implies #[trigger] path_step(adj, p, i) by {
                assert(direct_step(e, p, i));
                assert(adj_edge(adj, p[i], p[i + 1]));
            }
            assert(is_walk(adj, p, x, y));
        }
    }
}

fn direct_adjacency(nodes: &Vec<String>, dependency_map: &DependencyMap) -> (adj: Vec<Vec<usize>>)
    requires
        names_unique(nodes.deep_view()),
    ensures
        adj@.len() == nodes@.len(),
        adjacency_wf(adj@),
        forall|u: int| 0 <= u < adj@.len() ==> (#[trigger] adj@[u])@.no_duplicates(),
        forall|x: int, y: int|
            #[trigger] adj_edge(adj@, x, y) == direct_dependency(
                nodes.deep_view(),
                dependency_map@,
                x,
                y,
            ),
{
    let n = nodes.len();
    let ghost names = nodes.deep_view();
    let mut adj: Vec<Vec<usize>> = Vec::new();
    let mut u: usize = 0;
    while u < n
        invariant
            n == nodes@.len(),
            names == nodes.deep_view(),
            names_unique(names),
            0 <= u <= n,
            adj@.len() == u,
            forall|x: int, j: int|
                0 <= x < u && 0 <= j < adj@[x]@.len() ==> (#[trigger] adj@[x]@[j]) < n,
            forall|x: int| 0 <= x < u ==> (#[trigger] adj@[x])@.no_duplicates(),
            forall|x: int, y: int|
                0 <= x < u && 0 <= y < n ==> (#[trigger] adj@[x]@.contains(y as usize)
                    == direct_dependency(names, dependency_map@, x, y)),
        decreases n - u,
    {
        let succ = successors(nodes, dependency_map, u);
        adj.push(succ);
        u = u + 1;
    }
    assert forall|x: int, y: int| #[trigger] adj_edge(adj@, x, y) == direct_dependency(
        names,
        dependency_map@,
        x,
        y,
    ) by {
        if adj_edge(adj@, x, y) {
            let j = choose|j: int| 0 <= j < adj@[x]@.len() && adj@[x]@[j] == y;
            assert(adj@[x]@.contains(y as usize));
        }
        if direct_dependency(names, dependency_map@, x, y) {
            assert(adj@[x]@.contains(y as usize));
        }
    }
    adj
}

/// Builds the dependency graph of the packages: one node per distinct name,
/// a direct edge for every declared dependency on a known package, and a
/// transitive edge for every package reachable only through others.
pub fn create_advanced_dependency_graph(packages: &[Package], dependency_map: &DependencyMap) -> (g: AdvancedDependencyGraph)
    ensures
        g.names() == distinct_names(packages@),
        g.wf(),
        g.direct_deps.deep_view() == g.names(),
        forall|x: int, y: int|
            #[trigger] has_edge(g.edges@, x, y, EdgeKind::Direct) == direct_dependency(
                g.names(),
                dependency_map@,
                x,
                y,
            ),
        forall|x: int, y: int|
            #[trigger] has_edge(g.edges@, x, y, EdgeKind::Transitive) == transitive_only(
                g.edges@,
                x,
                y,
            ),
        forall|k: int|
            0 <= k < g.conflicts@.len() ==> is_conflict_record(
                dependency_map@,
                record_view(#[trigger] g.conflicts@[k]),
            ),
        forall|i: int, j: int, dep: Seq<char>|
            i < j && #[trigger] conflict_on(dependency_map@, i, j, dep) ==> has_record(
                g.conflicts@,
                conflict_record(dependency_map@, i, j, dep),
            ),
        forall|k: int, l: int|
            0 <= k < g.conflicts@.len() && 0 <= l < g.conflicts@.len() && k != l ==> record_view(
                #[trigger] g.conflicts@[k],
            ) != record_view(#[trigger] g.conflicts@[l]),
{
    let nodes = collect_names(packages);
    let ghost names = nodes.deep_view();
    proof {
        lemma_distinct_names_unique(packages@);
    }
    let n = nodes.len();
    let adj = direct_adjacency(&nodes, dependency_map);
    let mut edges: Vec<Edge> = Vec::new();
    let mut u: usize = 0;
    while u < n
        invariant
            n == nodes@.len(),
            adj@.len() == n,
            adjacency_wf(adj@),
            forall|x: int| 0 <= x < adj@.len() ==> (#[trigger] adj@[x])@.no_duplicates(),
            0 <= u <= n,
            edges_valid(edges@, n as int),
            edges_unique(edges@),
            forall|x: int, y: int| !#[trigger] has_edge(edges@, x, y, EdgeKind::Transitive),
            forall|x: int, y: int|
                #[trigger] has_edge(edges@, x, y, EdgeKind::Direct) == (x < u && adj_edge(
                    adj@,
                    x,
                    y,
                )),
        decreases n - u,
    {
        let succ = &adj[u];
        let mut j: usize = 0;
        while j < succ.len()
            invariant
                n == nodes@.len(),
                adj@.len() == n,
                adjacency_wf(adj@),
                u < n,
                succ == adj@[u as int],
                succ@.no_duplicates(),
                0 <= j <= succ@.len(),
                edges_valid(edges@, n as int),
                edges_unique(edges@),
                forall|x: int, y: int| !#[trigger] has_edge(edges@, x, y, EdgeKind::Transitive),
                forall|x: int, y: int|
                    #[trigger] has_edge(edges@, x, y, EdgeKind::Direct) == ((x < u && adj_edge(
                        adj@,
                        x,
                        y,
                    )) || (x == u && exists|q: int| 0 <= q < j && succ@[q] == y)),
            decreases succ@.len() - j,
        {
            let e = Edge { from: u, to: succ[j], kind: EdgeKind::Direct };
            assert(succ@[j as int] < n);
            proof {
                if has_edge(edges@, u as int, succ@[j as int] as int, EdgeKind::Direct) {
                    let q = choose|q: int| 0 <= q < j && succ@[q] == succ@[j as int];
                    assert(succ@.no_duplicates());
                }
                lemma_push_keeps_unique(edges@, e);
                lemma_has_edge_push(edges@, e);
            }
            edges.push(e);
            assert forall|x: int, y: int|
                #[trigger] has_edge(edges@, x, y, EdgeKind::Direct) == ((x < u && adj_edge(
                    adj@,
                    x,
                    y,
                )) || (x == u && exists|q: int| 0 <= q < j + 1 && succ@[q] == y)) by {
                if x == u && y == succ@[j as int] {
                    assert(succ@[j as int] == y);
                }
            }
            j = j + 1;
        }
        assert forall|x: int, y: int|
            #[trigger] has_edge(edges@, x, y, EdgeKind::Direct) == (x < u + 1 && adj_edge(
                adj@,
                x,
                y,
            )) by {
            if x == u && adj_edge(adj@, x, y) {
                let q = choose|q: int| 0 <= q < adj@[x]@.len() && adj@[x]@[q] == y;
                assert(succ@[q] == y);
            }
            if has_edge(edges@, x, y, EdgeKind::Direct) {
                let i = choose|i: int|
                    0 <= i < edges@.len() && (#[trigger] edges@[i]).from == x && edges@[i].to == y
                        && edges@[i].kind == EdgeKind::Direct;
                assert(x >= 0);
            }
        }
        u = u + 1;
    }
    let ghost direct_edges = edges@;
    let mut u: usize = 0;
    while u < n
        invariant
            n == nodes@.len(),
            adj@.len() == n,
            adjacency_wf(adj@),
            0 <= u <= n,
            edges_valid(edges@, n as int),
            edges_unique(edges@),
            forall|x: int, y: int|
                #[trigger] has_edge(edges@, x, y, EdgeKind::Direct) == adj_edge(adj@, x, y),
            forall|x: int, y: int|
                #[trigger] has_edge(edges@, x, y, EdgeKind::Transitive) == (0 <= x < u && 0 <= y
                    < n && in_closure(adj@, x, y) && !adj_edge(adj@, x, y)),
        decreases n - u,
    {
        let row = reachable_from(&adj, u);
        let mut v: usize = 0;
        while v < n
            invariant
                n == nodes@.len(),
                adj@.len() == n,
                adjacency_wf(adj@),
                u < n,
                0 <= v <= n,
                row@.len() == n,
                forall|b: int| 0 <= b < n ==> (row@[b] <==> in_closure(adj@, u as int, b)),
                edges_valid(edges@, n as int),
                edges_unique(edges@),
                forall|x: int, y: int|
                    #[trigger] has_edge(edges@, x, y, EdgeKind::Direct) == adj_edge(adj@, x, y),
                forall|x: int, y: int|
                    #[trigger] has_edge(edges@, x, y, EdgeKind::Transitive) == (((0 <= x < u)
                        || (x == u && y < v)) && 0 <= y < n && in_closure(adj@, x, y)
                        && !adj_edge(adj@, x, y)),
            decreases n - v,
        {
            let is_direct = contains_index(&adj[u], v);
            assert(is_direct == adj_edge(adj@, u as int, v as int)) by {
                if adj_edge(adj@, u as int, v as int) {
                    let q = choose|q: int| 0 <= q < adj@[u as int]@.len() && adj@[u as int]@[q] == v;
                    assert(adj@[u as int]@.contains(v));
                }
            }
            if row[v] && !is_direct {
                let e = Edge { from: u, to: v, kind: EdgeKind::Transitive };
                proof {
                    lemma_push_keeps_unique(edges@, e);
                    lemma_has_edge_push(edges@, e);
                }
                edges.push(e);
            }
            v = v + 1;
        }
        u = u + 1;
    }
    proof {
        assert forall|x: int, y: int| #[trigger] adj_edge(adj@, x, y) == has_edge(edges@, x, y, EdgeKind::Direct) by {}
        lemma_paths_agree(adj@, edges@);
        assert forall|x: int, y: int|
            #[trigger] has_edge(edges@, x, y, EdgeKind::Transitive) == transitive_only(edges@, x, y) by {
            if transitive_only(edges@, x, y) {
                assert(reaches(adj@, x, y));
                let p = choose|p: Seq<int>| #[trigger] is_direct_path(edges@, p, x, y);
                assert(direct_step(edges@, p, 0));
                assert(direct_step(edges@, p, p.len() - 2));
                assert(adj_edge(adj@, p[0], p[1]));
                assert(adj_edge(adj@, p[p.len() - 2], p[p.len() - 1]));
            }
        }
    }
    let mut direct_deps: Vec<String> = Vec::new();
    let mut i: usize = 0;
    while i < n
        invariant
            n == nodes@.len(),
            0 <= i <= n,
            direct_deps@.len() == i,
            forall|q: int| 0 <= q < i ==> (#[trigger] direct_deps@[q])@ == nodes@[q]@,
        decreases n - i,
    {
        direct_deps.push(nodes[i].clone());
        i = i + 1;
    }
    assert(direct_deps.deep_view() =~= nodes.deep_view());
    let conflicts = detect_conflicts(packages, dependency_map);
    AdvancedDependencyGraph { nodes, edges, direct_deps, conflicts }
}

} // verus!
