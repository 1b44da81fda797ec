//! Layered placement of the graph's nodes on an integer grid.
use vstd::prelude::*;
use crate::closure::{count_false, lemma_count_false_set};
use crate::graph::{edges_valid, AdvancedDependencyGraph, Edge};

verus! {

/// Horizontal distance between two slots of a layer. Coordinates are
/// `u128`, wide enough for any number of nodes and any label length.
pub const HORIZONTAL_SPACING: u128 = 15;

/// Vertical distance between two layers.
pub const VERTICAL_SPACING: u128 = 4;

/// Offset of the first slot and of the first layer.
pub const MARGIN: u128 = 2;

/// Every outgoing edge of `v` leads to a placed node.
pub open spec fn targets_placed(edges: Seq<Edge>, placed: Seq<bool>, v: int) -> bool {
    forall|i: int|
        0 <= i < edges.len() && (#[trigger] edges[i]).from == v ==> 0 <= edges[i].to < placed.len()
            && placed[edges[i].to as int]
}

/// `v` is not placed yet and all its dependencies are.
pub open spec fn ready(edges: Seq<Edge>, placed: Seq<bool>, v: int) -> bool {
    0 <= v < placed.len() && !placed[v] && targets_placed(edges, placed, v)
}

/// The placement after one more layer: the ready nodes join it; where none
/// is ready (a cycle blocks the rest), every remaining node joins at once.
pub open spec fn next_placed(edges: Seq<Edge>, placed: Seq<bool>) -> Seq<bool> {
    if exists|v: int| #[trigger] ready(edges, placed, v) {
        Seq::new(placed.len(), |v: int| placed[v] || ready(edges, placed, v))
    } else {
        Seq::new(placed.len(), |v: int| true)
    }
}

/// Which of the `n` nodes are placed after `k` layers.
pub open spec fn placed_after(edges: Seq<Edge>, n: nat, k: nat) -> Seq<bool>
    decreases k,
{
    if k == 0 {
        Seq::new(n, |v: int| false)
    } else {
        next_placed(edges, placed_after(edges, n, (k - 1) as nat))
    }
}

/// Node `v` belongs to layer `k`.
pub open spec fn in_layer(edges: Seq<Edge>, n: nat, v: int, k: nat) -> bool {
    placed_after(edges, n, k + 1)[v] && !placed_after(edges, n, k)[v]
}

/// The members of layer `k`.
pub open spec fn layer_mask(edges: Seq<Edge>, n: nat, k: nat) -> Seq<bool> {
    Seq::new(n, |v: int| in_layer(edges, n, v, k))
}

/// Number of set flags below index `v`.
pub open spec fn count_true(s: Seq<bool>, v: int) -> nat
    decreases v,
{
    if v <= 0 {
        0
    } else {
        count_true(s, v - 1) + if s[v - 1] {
            1nat
        } else {
            0nat
        }
    }
}

/// The place of node `v` in layer `k`: its slot is the number of members of
/// the layer that come before it in node order.
pub open spec fn placed_at(edges: Seq<Edge>, n: nat, v: int, k: nat, x: u128, y: u128) -> bool {
    in_layer(edges, n, v, k) && y == VERTICAL_SPACING * k + MARGIN && x == HORIZONTAL_SPACING
        * count_true(layer_mask(edges, n, k), v) + MARGIN
}

/// The entry for node `v` appears in the list of positions.
pub open spec fn has_position(pos: Seq<(usize, String, u128, u128)>, v: int) -> bool {
    exists|i: int| 0 <= i < pos.len() && (#[trigger] pos[i]).0 == v
}

/// The indices of the set flags, in increasing order.
fn select(flags: &Vec<bool>) -> (r: Vec<usize>)
    ensures
        r@.len() == count_true(flags@, flags@.len() as int),
        forall|s: int|
            0 <= s < r@.len() ==> (#[trigger] r@[s]) < flags@.len() && flags@[r@[s] as int]
                && count_true(flags@, r@[s] as int) == s,
        forall|u: int| 0 <= u < flags@.len() && flags@[u] ==> r@.contains(u as usize),
{
    let mut r: Vec<usize> = Vec::new();
    let mut v: usize = 0;
    while v < flags.len()
        invariant
            0 <= v <= flags@.len(),
            r@.len() == count_true(flags@, v as int),
            forall|s: int|
                0 <= s < r@.len() ==> (#[trigger] r@[s]) < v && flags@[r@[s] as int]
                    && count_true(flags@, r@[s] as int) == s,
            forall|u: int| 0 <= u < v && flags@[u] ==> r@.contains(u as usize),
        decreases flags@.len() - v,
    {
        if flags[v] {
            let ghost before = r@;
            r.push(v);
            proof {
                assert(r@[before.len() as int] == v);
                assert forall|u: int| 0 <= u < v + 1 && flags@[u] implies r@.contains(u as usize) by {
                    if u < v {
                        let s = choose|s: int| 0 <= s < before.len() && before[s] == u as usize;
                        assert(r@[s] == u as usize);
                    }
                }
            }
        }
        v = v + 1;
    }
    r
}

/// Whether all outgoing edges of `v` lead to placed nodes.
fn all_targets_placed(edges: &Vec<Edge>, placed: &Vec<bool>, v: usize) -> (r: bool)
    requires
        edges_valid(edges@, placed@.len() as int),
    ensures
        r == targets_placed(edges@, placed@, v as int),
{
    let mut i: usize = 0;
    while i < edges.len()
        invariant
            edges_valid(edges@, placed@.len() as int),
            0 <= i <= edges@.len(),
            forall|q: int|
                0 <= q < i && (#[trigger] edges@[q]).from == v ==> placed@[edges@[q].to as int],
        decreases edges@.len() - i,
    {
        let e = edges[i];
        if e.from == v && !placed[e.to] {
            return false;
        }
        i = i + 1;
    }
    true
}

/// Assigns grid coordinates to every node: layer 0 holds the nodes without
/// dependencies, each later layer the nodes whose dependencies all lie in
/// earlier layers, and where a cycle blocks progress the remaining nodes
/// form one final layer. Returns the positions `(node, name, x, y)` and the
/// extent of the layout.
pub fn calculate_graph_layout_vec(graph: &AdvancedDependencyGraph) -> (r: (Vec<(usize, String, u128, u128)>, u128, u128))
    requires
        edges_valid(graph.edges@, graph.nodes@.len() as int),
    ensures
        r.0@.len() == graph.nodes@.len(),
        forall|v: int| 0 <= v < graph.nodes@.len() ==> #[trigger] has_position(r.0@, v),
        forall|i: int, j: int|
            0 <= i < r.0@.len() && 0 <= j < r.0@.len() && i != j ==> (#[trigger] r.0@[i]).0 != (
            #[trigger] r.0@[j]).0,
        forall|i: int|
            0 <= i < r.0@.len() ==> {
                let (v, name, x, y) = #[trigger] r.0@[i];
                &&& v < graph.nodes@.len()
                &&& name@ == graph.nodes@[v as int]@
                &&& exists|k: nat| placed_at(graph.edges@, graph.nodes@.len(), v as int, k, x, y)
                &&& x + name@.len() <= r.1
                &&& y + 1 <= r.2
            },
        r.0@.len() == 0 ==> r.1 == 0 && r.2 == 0,
        r.0@.len() > 0 ==> exists|i: int|
            0 <= i < r.0@.len() && (#[trigger] r.0@[i]).2 + r.0@[i].1@.len() == r.1,
        r.0@.len() > 0 ==> exists|i: int| 0 <= i < r.0@.len() && (#[trigger] r.0@[i]).3 + 1 == r.2,
{
    let n = graph.nodes.len();
    let ghost edges = graph.edges@;
    let ghost nn = n as nat;
    let mut placed: Vec<bool> = Vec::new();
    let mut v: usize = 0;
    while v < n
        invariant
            0 <= v <= n,
            placed@.len() == v,
            forall|u: int| 0 <= u < v ==> !placed@[u],
        decreases n - v,
    {
        placed.push(false);
        v = v + 1;
    }
    assert(placed@ =~= placed_after(edges, nn, 0));
    proof {
        lemma_all_unset_count(placed@);
    }
    let mut remaining: usize = n;
    let mut positions: Vec<(usize, String, u128, u128)> = Vec::new();
    let mut max_width: u128 = 0;
    let mut max_height: u128 = 0;
    let mut k: usize = 0;
    while remaining > 0
        invariant
            n == graph.nodes@.len(),
            n <= usize::MAX,
            edges == graph.edges@,
            nn == n,
            edges_valid(edges, n as int),
            placed@ == placed_after(edges, nn, k as nat),
            placed@.len() == n,
            remaining == count_false(placed@),
            remaining <= n,
            k + remaining <= n,
            positions@.len() + remaining == n,
            forall|u: int| 0 <= u < n && placed@[u] ==> #[trigger] has_position(positions@, u),
            forall|i: int, j: int|
                0 <= i < positions@.len() && 0 <= j < positions@.len() && i != j ==> (
                #[trigger] positions@[i]).0 != (#[trigger] positions@[j]).0,
            forall|i: int|
                0 <= i < positions@.len() ==> {
                    let (v, name, x, y) = #[trigger] positions@[i];
                    &&& v < n
                    &&& placed@[v as int]
                    &&& name@ == graph.nodes@[v as int]@
                    &&& exists|kk: nat| placed_at(edges, nn, v as int, kk, x, y)
                    &&& x + name@.len() <= max_width
                    &&& y + 1 <= max_height
                },
            positions@.len() == 0 ==> max_width == 0 && max_height == 0,
            positions@.len() > 0 ==> exists|i: int|
                0 <= i < positions@.len() && (#[trigger] positions@[i]).2 + positions@[i].1@.len()
                    == max_width,
            positions@.len() > 0 ==> exists|i: int|
                0 <= i < positions@.len() && (#[trigger] positions@[i]).3 + 1 == max_height,
        decreases remaining,
    {
        let ghost before = placed@;
        let mut flags: Vec<bool> = Vec::new();
        let mut u: usize = 0;
        while u < n
            invariant
                placed@.len() == n,
                edges_valid(edges, n as int),
                edges == graph.edges@,
                0 <= u <= n,
                flags@.len() == u,
                forall|w: int| 0 <= w < u ==> flags@[w] == ready(edges, placed@, w),
            decreases n - u,
        {
            let f = !placed[u] && all_targets_placed(&graph.edges, &placed, u);
            flags.push(f);
            u = u + 1;
        }
        let mut layer = select(&flags);
        if layer.len() == 0 {
            proof {
                assert forall|w: int| !#[trigger] ready(edges, placed@, w) by {
                    if ready(edges, placed@, w) {
                        assert(flags@[w]);
                        assert(layer@.contains(w as usize));
                    }
                }
            }
            let mut unplaced: Vec<bool> = Vec::new();
            let mut u: usize = 0;
            while u < n
                invariant
                    placed@.len() == n,
                    0 <= u <= n,
                    unplaced@.len() == u,
                    forall|w: int| 0 <= w < u ==> unplaced@[w] == !placed@[w],
                decreases n - u,
            {
                unplaced.push(!placed[u]);
                u = u + 1;
            }
            flags = unplaced;
            layer = select(&flags);
            proof {
                assert(next_placed(edges, placed@) =~= Seq::new(n as nat, |w: int| true));
            }
        } else {
            proof {
                assert(flags@[layer@[0] as int]);
                assert(ready(edges, placed@, layer@[0] as int));
            }
        }
        assert(layer_mask(edges, nn, k as nat) =~= flags@) by {
            assert(placed_after(edges, nn, (k + 1) as nat) == next_placed(edges, placed@));
        }
        assert(layer@.len() > 0) by {
            assert(remaining > 0);
            if layer@.len() == 0 {
                assert(count_false(placed@) > 0);
                lemma_some_unset(placed@);
                let w = choose|w: int| 0 <= w < placed@.len() && !placed@[w];
                assert(flags@[w]);
                assert(layer@.contains(w as usize));
            }
        }
        let ghost next = next_placed(edges, placed@);
        let ghost rem0 = remaining;
        proof {
            lemma_count_true_bound(flags@, n as int);
        }
        let mut s: usize = 0;
        while s < layer.len()
            invariant
                n == graph.nodes@.len(),
                n <= usize::MAX,
                edges == graph.edges@,
                nn == n,
                0 <= s <= layer@.len(),
                layer@.len() <= n,
                remaining + s == rem0,
                k + rem0 <= n,
                flags@ == layer_mask(edges, nn, k as nat),
                flags@.len() == n,
                next == placed_after(edges, nn, (k + 1) as nat),
                next.len() == n,
                forall|w: int| 0 <= w < n ==> (#[trigger] next[w] == (before[w] || flags@[w])),
                forall|w: int| 0 <= w < n ==> (flags@[w] ==> !before[w]),
                forall|q: int|
                    0 <= q < layer@.len() ==> (#[trigger] layer@[q]) < n && flags@[layer@[q] as int]
                        && count_true(flags@, layer@[q] as int) == q,
                forall|w: int| 0 <= w < n && flags@[w] ==> layer@.contains(w as usize),
                before == placed_after(edges, nn, k as nat),
                placed@.len() == n,
                forall|w: int|
                    0 <= w < n ==> placed@[w] == (before[w] || exists|q: int|
                        0 <= q < s && layer@[q] == w),
                remaining == count_false(placed@),
                positions@.len() + remaining == n,
                forall|u: int| 0 <= u < n && placed@[u] ==> #[trigger] has_position(positions@, u),
                forall|i: int, j: int|
                    0 <= i < positions@.len() && 0 <= j < positions@.len() && i != j ==> (
                    #[trigger] positions@[i]).0 != (#[trigger] positions@[j]).0,
                forall|i: int|
                    0 <= i < positions@.len() ==> {
                        let (v, name, x, y) = #[trigger] positions@[i];
                        &&& v < n
                        &&& placed@[v as int]
                        &&& name@ == graph.nodes@[v as int]@
                        &&& exists|kk: nat| placed_at(edges, nn, v as int, kk, x, y)
                        &&& x + name@.len() <= max_width
                        &&& y + 1 <= max_height
                    },
                positions@.len() == 0 ==> max_width == 0 && max_height == 0,
                positions@.len() > 0 ==> exists|i: int|
                    0 <= i < positions@.len() && (#[trigger] positions@[i]).2
                        + positions@[i].1@.len() == max_width,
                positions@.len() > 0 ==> exists|i: int|
                    0 <= i < positions@.len() && (#[trigger] positions@[i]).3 + 1 == max_height,
            decreases layer@.len() - s,
        {
            let v = layer[s];
            assert(!placed@[v as int]) by {
                if placed@[v as int] {
                    let q = choose|q: int| 0 <= q < s && layer@[q] == v;
                    assert(count_true(flags@, layer@[q] as int) == q);
                }
            }
            let name = graph.nodes[v].clone();
            let len = name.as_str().unicode_len() as u128;
            let x: u128 = HORIZONTAL_SPACING * (s as u128) + MARGIN;
            let y: u128 = VERTICAL_SPACING * (k as u128) + MARGIN;
            assert(placed_at(edges, nn, v as int, k as nat, x, y)) by {
                assert(flags@[v as int]);
            }
            let ghost old_pos = positions@;
            let ghost old_placed = placed@;
            let ghost old_width = max_width;
            let ghost old_height = max_height;
            proof {
                lemma_count_false_set(placed@, v as int);
            }
            placed.set(v, true);
            remaining = remaining - 1;
            let entry = (v, name, x, y);
            positions.push(entry);
            if x + len > max_width {
                max_width = x + len;
            }
            if y + 1 > max_height {
                max_height = y + 1;
            }
            proof {
                let last = old_pos.len() as int;
                assert(positions@[last] == entry);
                assert forall|i: int| 0 <= i < last implies #[trigger] positions@[i] == old_pos[i] by {}
                assert(name@ == graph.nodes@[v as int]@);
                assert(len == name@.len());
                assert forall|i: int| 0 <= i < positions@.len() implies {
                    let (v, name, x, y) = #[trigger] positions@[i];
                    &&& v < n
                    &&& placed@[v as int]
                    &&& name@ == graph.nodes@[v as int]@
                    &&& exists|kk: nat| placed_at(edges, nn, v as int, kk, x, y)
                    &&& x + name@.len() <= max_width
                    &&& y + 1 <= max_height
                } by {
                    if i < last {
                        assert(positions@[i] == old_pos[i]);
                        let w = old_pos[i].0;
                        assert(old_placed[w as int]);
                        assert(placed@[w as int]);
                        assert(old_pos[i].2 + old_pos[i].1@.len() <= old_width);
                        assert(old_pos[i].3 + 1 <= old_height);
                        assert(exists|kk: nat| placed_at(edges, nn, w as int, kk, old_pos[i].2, old_pos[i].3));
                        assert(positions@[i].1@.len() == old_pos[i].1@.len());
                        assert(positions@[i].2 + positions@[i].1@.len() <= max_width);
                        assert(exists|kk: nat| placed_at(edges, nn, positions@[i].0 as int, kk, positions@[i].2, positions@[i].3));
                    } else {
                        assert(positions@[i] == entry);
                        assert(positions@[i].1@ == graph.nodes@[v as int]@);
                        assert(positions@[i].2 + positions@[i].1@.len() <= max_width);
                        assert(placed_at(edges, nn, v as int, k as nat, x, y));
                        assert(placed_at(edges, nn, positions@[i].0 as int, k as nat, positions@[i].2, positions@[i].3));
                        assert(placed@[v as int]);
                        assert(x + len <= max_width);
                        assert(y + 1 <= max_height);
                    }
                }
                assert forall|u: int| 0 <= u < n && placed@[u] implies #[trigger] has_position(positions@, u) by {
                    if u == v {
                        assert(positions@[last].0 == v);
                    } else {
                        assert(old_placed[u]);
                        assert(has_position(old_pos, u));
                        let i = choose|i: int| 0 <= i < old_pos.len() && (#[trigger] old_pos[i]).0 == u;
                        assert(positions@[i].0 == u);
                    }
                }
                assert forall|i: int, j: int|
                    0 <= i < positions@.len() && 0 <= j < positions@.len() && i != j implies (
                    #[trigger] positions@[i]).0 != (#[trigger] positions@[j]).0 by {
                    if i == last {
                        assert(old_placed[positions@[j].0 as int]);
                    } else if j == last {
                        assert(old_placed[positions@[i].0 as int]);
                    }
                }
                assert forall|w: int|
                    0 <= w < n implies placed@[w] == (before[w] || exists|q: int|
                        0 <= q < s + 1 && layer@[q] == w) by {
                    if w == v {
                        assert(layer@[s as int] == w);
                    } else if exists|q: int| 0 <= q < s + 1 && layer@[q] == w {
                        let q = choose|q: int| 0 <= q < s + 1 && layer@[q] == w;
                        assert(q != s);
                    }
                }
                if x + len > old_width {
                    assert(positions@[last].2 + positions@[last].1@.len() == max_width);
                } else {
                    let i = choose|i: int|
                        0 <= i < old_pos.len() && (#[trigger] old_pos[i]).2 + old_pos[i].1@.len()
                            == old_width;
                    assert(positions@[i] == old_pos[i]);
                }
                if y + 1 > old_height {
                    assert(positions@[last].3 + 1 == max_height);
                } else {
                    let i = choose|i: int|
                        0 <= i < old_pos.len() && (#[trigger] old_pos[i]).3 + 1 == old_height;
                    assert(positions@[i] == old_pos[i]);
                }
            }
            s = s + 1;
        }
        proof {
            assert(placed@ =~= next) by {
                assert forall|w: int| 0 <= w < n implies placed@[w] == next[w] by {
                    if flags@[w] {
                        assert(layer@.contains(w as usize));
                        let q = choose|q: int| 0 <= q < layer@.len() && layer@[q] == w as usize;
                        assert(layer@[q] == w);
                    }
                    if exists|q: int| 0 <= q < layer@.len() && layer@[q] == w {
                        let q = choose|q: int| 0 <= q < layer@.len() && layer@[q] == w;
                        assert(flags@[layer@[q] as int]);
                    }
                }
            }
        }
        k = k + 1;
    }
    proof {
        assert forall|u: int| 0 <= u < n implies placed@[u] by {
            if !placed@[u] {
                lemma_unset_counts(placed@, u);
            }
        }
    }
    (positions, max_width, max_height)
}

proof fn lemma_count_true_bound(s: Seq<bool>, v: int)
    ensures
        count_true(s, v) <= if v < 0 {
            0
        } else {
            v
        },
    decreases v,
{
    if v > 0 {
        lemma_count_true_bound(s, v - 1);
    }
}

proof fn lemma_all_unset_count(s: Seq<bool>)
    requires
        forall|u: int| 0 <= u < s.len() ==> !s[u],
    ensures
        count_false(s) == s.len(),
    decreases s.len(),
{
    if s.len() > 0 {
        lemma_all_unset_count(s.drop_last());
    }
}

proof fn lemma_some_unset(s: Seq<bool>)
    requires
        count_false(s) > 0,
    ensures
        exists|w: int| 0 <= w < s.len() && !s[w],
    decreases s.len(),
{
    if s.last() {
        lemma_some_unset(s.drop_last());
        let w = choose|w: int| 0 <= w < s.drop_last().len() && !s.drop_last()[w];
        assert(!s[w]);
    } else {
        assert(!s[s.len() - 1]);
    }
}

proof fn lemma_unset_counts(s: Seq<bool>, u: int)
    requires
        0 <= u < s.len(),
        !s[u],
    ensures
        count_false(s) > 0,
    decreases s.len(),
{
    if u < s.len() - 1 {
        lemma_unset_counts(s.drop_last(), u);
    }
}

} // verus!
