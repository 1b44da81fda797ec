//! Recommendations derived from the packages and the dependency graph.
use vstd::prelude::*;
use crate::constraint::same_text;
use crate::graph::{AdvancedDependencyGraph, Edge};
use crate::models::{Package, Recommendation};
use crate::parsers::opt_view;

verus! {

/// Packages known to be deprecated.
pub open spec fn spec_is_deprecated(name: Seq<char>) -> bool {
    name == "deprecated_pkg1"@ || name == "deprecated_pkg2"@
}

/// Whether a package is known to be deprecated.
pub fn is_deprecated(package_name: &str) -> (r: bool)
    ensures
        r == spec_is_deprecated(package_name@),
{
    same_text(package_name, "deprecated_pkg1") || same_text(package_name, "deprecated_pkg2")
}

/// No edge of the graph leads to node `v`.
pub open spec fn without_dependents(edges: Seq<Edge>, v: int) -> bool {
    forall|i: int| 0 <= i < edges.len() ==> (#[trigger] edges[i]).to != v
}

/// The names of the nodes below `n` that nothing depends on, in node order.
pub open spec fn unused_names(g: AdvancedDependencyGraph, n: int) -> Seq<Seq<char>>
    decreases n,
{
    if n <= 0 {
        Seq::empty()
    } else {
        unused_names(g, n - 1) + if without_dependents(g.edges@, n - 1) {
            seq![g.nodes@[n - 1]@]
        } else {
            Seq::empty()
        }
    }
}

/// The packages of the graph that no other package depends on.
pub fn find_unused_dependencies(graph: &AdvancedDependencyGraph) -> (r: Vec<String>)
    ensures
        r.deep_view() == unused_names(*graph, graph.nodes@.len() as int),
{
    let mut r: Vec<String> = Vec::new();
    let mut v: usize = 0;
    assert(r.deep_view() =~= unused_names(*graph, 0));
    while v < graph.nodes.len()
        invariant
            0 <= v <= graph.nodes@.len(),
            r.deep_view() == unused_names(*graph, v as int),
        decreases graph.nodes@.len() - v,
    {
        let ghost before = r.deep_view();
        let mut used = false;
        let mut i: usize = 0;
        while i < graph.edges.len()
            invariant
                0 <= i <= graph.edges@.len(),
                used == exists|q: int| 0 <= q < i && (#[trigger] graph.edges@[q]).to == v,
            decreases graph.edges@.len() - i,
        {
            if graph.edges[i].to == v {
                used = true;
            }
            i = i + 1;
        }
        if !used {
            r.push(graph.nodes[v].clone());
            assert(r.deep_view() =~= before + seq![graph.nodes@[v as int]@]);
        } else {
            assert(!without_dependents(graph.edges@, v as int));
            assert(before + Seq::<Seq<char>>::empty() =~= before);
        }
        v = v + 1;
    }
    r
}

/// The decimal digits of `n`.
pub open spec fn decimal_text(n: nat) -> Seq<char>
    decreases n,
{
    if n < 10 {
        seq![digit_char(n)]
    } else {
        decimal_text(n / 10) + seq![digit_char(n % 10)]
    }
}

/// The character of a digit.
pub open spec fn digit_char(d: nat) -> char {
    if d == 0 {
        '0'
    } else if d == 1 {
        '1'
    } else if d == 2 {
        '2'
    } else if d == 3 {
        '3'
    } else if d == 4 {
        '4'
    } else if d == 5 {
        '5'
    } else if d == 6 {
        '6'
    } else if d == 7 {
        '7'
    } else if d == 8 {
        '8'
    } else {
        '9'
    }
}

fn digit_str(d: u64) -> (r: &'static str)
    requires
        d < 10,
    ensures
        r@ == seq![digit_char(d as nat)],
{
    proof {
        reveal_strlit("0");
        reveal_strlit("1");
        reveal_strlit("2");
        reveal_strlit("3");
        reveal_strlit("4");
        reveal_strlit("5");
        reveal_strlit("6");
        reveal_strlit("7");
        reveal_strlit("8");
        reveal_strlit("9");
    }
    let r = if d == 0 {
        "0"
    } else if d == 1 {
        "1"
    } else if d == 2 {
        "2"
    } else if d == 3 {
        "3"
    } else if d == 4 {
        "4"
    } else if d == 5 {
        "5"
    } else if d == 6 {
        "6"
    } else if d == 7 {
        "7"
    } else if d == 8 {
        "8"
    } else {
        "9"
    };
    assert(r@ =~= seq![digit_char(d as nat)]);
    r
}

/// Appends the decimal digits of `n`.
pub(crate) fn push_decimal(out: &mut String, n: u64)
    ensures
        final(out)@ == old(out)@ + decimal_text(n as nat),
    decreases n,
{
    if n >= 10 {
        push_decimal(out, n / 10);
    }
    out.append(digit_str(n % 10));
}

/// The text of a recommendation.
pub open spec fn recommendation_view(r: Recommendation) -> (Seq<char>, Seq<char>, Option<Seq<char>>) {
    (r.description@, r.value@, opt_view(r.details))
}

/// The text of an optional value, `unknown` when absent.
pub open spec fn or_unknown(o: Option<String>) -> Seq<char> {
    match o {
        Some(s) => s@,
        None => "unknown"@,
    }
}

/// The recommendations about one package: outdated, possibly vulnerable
/// (outdated with a known latest release), deprecated.
pub open spec fn package_recommendations(p: Package) -> Seq<(Seq<char>, Seq<char>, Option<Seq<char>>)> {
    (if p.is_outdated {
        seq![
            (
                "Package "@ + p.name@ + " is outdated"@,
                "1.0"@,
                Some(
                    "Current version: "@ + or_unknown(p.version) + ", Latest version: "@ + or_unknown(
                        p.latest_version,
                    ),
                ),
            ),
        ]
    } else {
        Seq::empty()
    }) + (if p.is_outdated && p.latest_version.is_some() {
        seq![
            (
                "Potential security vulnerabilities in "@ + p.name@,
                "2.0"@,
                Some("Significantly outdated packages may contain security vulnerabilities"@),
            ),
        ]
    } else {
        Seq::empty()
    }) + (if spec_is_deprecated(p.name@) {
        seq![
            (
                "Package "@ + p.name@ + " is deprecated"@,
                "1.0"@,
                Some("Consider finding an alternative package"@),
            ),
        ]
    } else {
        Seq::empty()
    })
}

/// The recommendations about the first `n` packages.
pub open spec fn all_package_recommendations(ps: Seq<Package>, n: int) -> Seq<(Seq<char>, Seq<char>, Option<Seq<char>>)>
    decreases n,
{
    if n <= 0 {
        Seq::empty()
    } else {
        all_package_recommendations(ps, n - 1) + package_recommendations(ps[n - 1])
    }
}

/// The names joined with `, `.
pub open spec fn joined(names: Seq<Seq<char>>) -> Seq<char>
    decreases names.len(),
{
    if names.len() == 0 {
        Seq::empty()
    } else if names.len() == 1 {
        names[0]
    } else {
        joined(names.drop_last()) + ", "@ + names.last()
    }
}

/// The recommendation about packages nothing depends on, if there are any.
pub open spec fn unused_recommendation(unused: Seq<Seq<char>>) -> Seq<(Seq<char>, Seq<char>, Option<Seq<char>>)> {
    if unused.len() == 0 {
        Seq::empty()
    } else {
        seq![
            (
                "Unused dependencies detected"@,
                decimal_text(unused.len()) + ".0"@,
                Some("Consider removing: "@ + joined(unused)),
            ),
        ]
    }
}

fn recommend(description: String, value: &str, details: String) -> (r: Recommendation)
    ensures
        recommendation_view(r) == (description@, value@, Some(details@)),
{
    Recommendation { description, value: value.to_owned(), details: Some(details) }
}

fn text_of(o: &Option<String>) -> (r: &str)
    ensures
        r@ == or_unknown(*o),
{
    match o {
        Some(s) => s.as_str(),
        None => "unknown",
    }
}

/// Recommendations for the packages (outdated, possibly vulnerable,
/// deprecated), then one about the packages nothing depends on.
pub fn generate_recommendations(packages: &[Package], dependency_graph: &AdvancedDependencyGraph) -> (r: Vec<Recommendation>)
    ensures
        Seq::new(r@.len(), |i: int| recommendation_view(r@[i])) == all_package_recommendations(
            packages@,
            packages@.len() as int,
        ) + unused_recommendation(unused_names(*dependency_graph, dependency_graph.nodes@.len() as int)),
{
    let mut r: Vec<Recommendation> = Vec::new();
    let mut i: usize = 0;
    assert(Seq::new(r@.len(), |k: int| recommendation_view(r@[k])) =~= all_package_recommendations(packages@, 0));
    while i < packages.len()
        invariant
            0 <= i <= packages@.len(),
            Seq::new(r@.len(), |k: int| recommendation_view(r@[k])) == all_package_recommendations(packages@, i as int),
        decreases packages@.len() - i,
    {
        let ghost before = Seq::new(r@.len(), |k: int| recommendation_view(r@[k]));
        let p = &packages[i];
        if p.is_outdated {
            let mut d = "Package ".to_string();
            d.append(p.name.as_str());
            d.append(" is outdated");
            let mut details = "Current version: ".to_string();
            details.append(text_of(&p.version));
            details.append(", Latest version: ");
            details.append(text_of(&p.latest_version));
            r.push(recommend(d, "1.0", details));
        }
        if p.is_outdated && p.latest_version.is_some() {
            let mut d = "Potential security vulnerabilities in ".to_string();
            d.append(p.name.as_str());
            r.push(recommend(d, "2.0", "Significantly outdated packages may contain security vulnerabilities".to_string()));
        }
        if is_deprecated(p.name.as_str()) {
            let mut d = "Package ".to_string();
            d.append(p.name.as_str());
            d.append(" is deprecated");
            r.push(recommend(d, "1.0", "Consider finding an alternative package".to_string()));
        }
        assert(Seq::new(r@.len(), |k: int| recommendation_view(r@[k])) =~= before + package_recommendations(packages@[i as int]));
        i = i + 1;
    }
    let ghost before = Seq::new(r@.len(), |k: int| recommendation_view(r@[k]));
    let unused = find_unused_dependencies(dependency_graph);
    if unused.len() > 0 {
        let mut details = "Consider removing: ".to_string();
        let mut k: usize = 0;
        while k < unused.len()
            invariant
                0 <= k <= unused@.len(),
                details@ == "Consider removing: "@ + joined(unused.deep_view().take(k as int)),
            decreases unused@.len() - k,
        {
            assert(unused.deep_view().take(k + 1).drop_last() =~= unused.deep_view().take(k as int));
            if k > 0 {
                details.append(", ");
            }
            details.append(unused[k].as_str());
            proof {
                if k == 0 {
                    assert(unused.deep_view().take(0) =~= Seq::<Seq<char>>::empty());
                    assert(details@ =~= "Consider removing: "@ + joined(unused.deep_view().take(1)));
                } else {
                    assert(details@ =~= "Consider removing: "@ + joined(unused.deep_view().take(k + 1)));
                }
            }
            k = k + 1;
        }
        assert(unused.deep_view().take(unused@.len() as int) =~= unused.deep_view());
        let mut value = String::new();
        push_decimal(&mut value, unused.len() as u64);
        value.append(".0");
        let rec = Recommendation { description: "Unused dependencies detected".to_string(), value, details: Some(details) };
        r.push(rec);
        assert(Seq::new(r@.len(), |k: int| recommendation_view(r@[k])) =~= before + unused_recommendation(unused.deep_view()));
    } else {
        assert(before + unused_recommendation(unused.deep_view()) =~= before);
    }
    r
}

} // verus!
