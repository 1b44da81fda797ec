//! Reachability over a dependency relation given as adjacency lists.
use vstd::prelude::*;

verus! {

/// Every adjacency entry names a node.
pub open spec fn adjacency_wf(adj: Seq<Vec<usize>>) -> bool {
    forall|u: int, j: int|
        0 <= u < adj.len() && 0 <= j < adj[u]@.len() ==> (#[trigger] adj[u]@[j]) < adj.len()
}

/// `v` is among the successors of `u`.
pub open spec fn adj_edge(adj: Seq<Vec<usize>>, u: int, v: int) -> bool {
    0 <= u < adj.len() && exists|j: int| 0 <= j < adj[u]@.len() && adj[u]@[j] == v
}

/// Step `i` of the path `p` follows the relation.
pub open spec fn path_step(adj: Seq<Vec<usize>>, p: Seq<int>, i: int) -> bool {
    adj_edge(adj, p[i], p[i + 1])
}

/// `p` is a path of one or more steps from `a` to `b`.
pub open spec fn is_walk(adj: Seq<Vec<usize>>, p: Seq<int>, a: int, b: int) -> bool {
    p.len() >= 2 && p[0] == a && p[p.len() - 1] == b && forall|i: int|
        0 <= i < p.len() - 1 ==> #[trigger] path_step(adj, p, i)
}

/// `b` can be reached from `a` in one or more steps.
pub open spec fn reaches(adj: Seq<Vec<usize>>, a: int, b: int) -> bool {
    exists|p: Seq<int>| #[trigger] is_walk(adj, p, a, b)
}

/// The members of the closure of `a`: reachable from it, itself excluded
/// even where a cycle leads back to it.
pub open spec fn in_closure(adj: Seq<Vec<usize>>, a: int, b: int) -> bool {
    b != a && reaches(adj, a, b)
}

/// Number of unset flags.
pub open spec fn count_false(s: Seq<bool>) -> nat
    decreases s.len(),
{
    if s.len() == 0 {
        0
    } else {
        count_false(s.drop_last()) + if s.last() {
            0nat
        } else {
            1nat
        }
    }
}

/// Setting an unset flag lowers the count by one.
pub proof fn lemma_count_false_set(s: Seq<bool>, i: int)
    requires
        0 <= i < s.len(),
        !s[i],
    ensures
        count_false(s.update(i, true)) + 1 == count_false(s),
    decreases s.len(),
{
    let t = s.update(i, true);
    if i == s.len() - 1 {
        assert(t.drop_last() =~= s.drop_last());
    } else {
        assert(t.drop_last() =~= s.drop_last().update(i, true));
        lemma_count_false_set(s.drop_last(), i);
    }
}

proof fn lemma_walk_extend(adj: Seq<Vec<usize>>, a: int, c: int, b: int)
    requires
        reaches(adj, a, c) || a == c,
        adj_edge(adj, c, b),
    ensures
        reaches(adj, a, b),
{
    let p = if a == c {
        seq![a]
    } else {
        choose|p: Seq<int>| #[trigger] is_walk(adj, p, a, c)
    };
    let q = p.push(b);
    assert forall|i: int| 0 <= i < q.len() - 1 implies #[trigger] path_step(adj, q, i) by {
        if i < p.len() - 1 {
            assert(path_step(adj, p, i));
        }
    }
    assert(is_walk(adj, q, a, b));
}

/// `v` is somewhere on the stack.
pub open spec fn on_stack(stack: Seq<usize>, v: int) -> bool {
    exists|q: int| 0 <= q < stack.len() && stack[q] == v
}

proof fn lemma_on_stack_push(stack: Seq<usize>, x: usize)
    ensures
        forall|v: int| #[trigger] on_stack(stack.push(x), v) == (on_stack(stack, v) || v == x),
{
    let t = stack.push(x);
    assert forall|v: int| #[trigger] on_stack(t, v) == (on_stack(stack, v) || v == x) by {
        if on_stack(stack, v) {
            let q = choose|q: int| 0 <= q < stack.len() && stack[q] == v;
            assert(t[q] == v);
        }
        if v == x {
            assert(t[stack.len() as int] == v);
        }
        if on_stack(t, v) && v != x {
            let q = choose|q: int| 0 <= q < t.len() && t[q] == v;
            assert(stack[q] == v);
        }
    }
}

/// Where a set of nodes holds the successors of `a` and is closed under the
/// relation, it holds every node of a path from `a`.
proof fn lemma_closed_holds_walk(adj: Seq<Vec<usize>>, seen: Seq<bool>, a: int, b: int, p: Seq<int>, i: int)
    requires
        seen.len() == adj.len(),
        forall|t: int| #[trigger] adj_edge(adj, a, t) ==> 0 <= t < seen.len() && seen[t],
        forall|v: int, t: int|
            0 <= v < seen.len() && seen[v] && #[trigger] adj_edge(adj, v, t) ==> 0 <= t < seen.len()
                && seen[t],
        is_walk(adj, p, a, b),
        1 <= i < p.len(),
    ensures
        0 <= p[i] < seen.len() && seen[p[i]],
    decreases i,
{
    assert(path_step(adj, p, i - 1));
    if i > 1 {
        lemma_closed_holds_walk(adj, seen, a, b, p, i - 1);
    }
}

/// The nodes reachable from `a` in one or more steps, `a` itself excluded.
pub fn reachable_from(adj: &Vec<Vec<usize>>, a: usize) -> (r: Vec<bool>)
    requires
        adjacency_wf(adj@),
        a < adj@.len(),
    ensures
        r@.len() == adj@.len(),
        forall|b: int| 0 <= b < adj@.len() ==> (r@[b] <==> in_closure(adj@, a as int, b)),
{
    let n = adj.len();
    let mut seen: Vec<bool> = Vec::new();
    let mut i: usize = 0;
    while i < n
        invariant
            n == adj@.len(),
            0 <= i <= n,
            seen@.len() == i,
            forall|j: int| 0 <= j < i ==> !seen@[j],
        decreases n - i,
    {
        seen.push(false);
        i = i + 1;
    }
    let mut stack: Vec<usize> = Vec::new();
    let first = &adj[a];
    let mut j: usize = 0;
    while j < first.len()
        invariant
            n == adj@.len(),
            adjacency_wf(adj@),
            a < n,
            first == adj@[a as int],
            0 <= j <= first@.len(),
            seen@.len() == n,
            forall|q: int| 0 <= q < stack@.len() ==> stack@[q] < n && seen@[stack@[q] as int],
            forall|v: int| 0 <= v < n && seen@[v] ==> reaches(adj@, a as int, v),
            forall|q: int| 0 <= q < j ==> seen@[first@[q] as int],
            forall|v: int| 0 <= v < n && seen@[v] ==> on_stack(stack@, v),
        decreases first@.len() - j,
    {
        let t = first[j];
        assert(adj@[a as int]@[j as int] == t);
        if !seen[t] {
            proof {
                assert(adj_edge(adj@, a as int, t as int));
                lemma_walk_extend(adj@, a as int, a as int, t as int);
            }
            proof {
                lemma_on_stack_push(stack@, t);
            }
            seen.set(t, true);
            stack.push(t);
        }
        j = j + 1;
    }
    assert forall|t: int| adj_edge(adj@, a as int, t) implies 0 <= t < seen@.len() && seen@[t] by {
        let q = choose|q: int| 0 <= q < adj@[a as int]@.len() && adj@[a as int]@[q] == t;
        assert(seen@[first@[q] as int]);
    }
    while stack.len() > 0
        invariant
            n == adj@.len(),
            adjacency_wf(adj@),
            a < n,
            seen@.len() == n,
            forall|t: int| #[trigger] adj_edge(adj@, a as int, t) ==> 0 <= t < seen@.len() && seen@[t],
            forall|q: int| 0 <= q < stack@.len() ==> stack@[q] < n && seen@[stack@[q] as int],
            forall|v: int| 0 <= v < n && seen@[v] ==> reaches(adj@, a as int, v),
            forall|v: int, t: int|
                0 <= v < n && seen@[v] && #[trigger] adj_edge(adj@, v, t) && !on_stack(stack@, v) ==> 0 <= t
                    < n && seen@[t],
        decreases 2 * count_false(seen@) + stack@.len(),
    {
        let ghost measure = 2 * count_false(seen@) + stack@.len();
        let ghost before = stack@;
        let v = stack.pop().unwrap();
        proof {
            assert(before =~= stack@.push(v));
            lemma_on_stack_push(stack@, v);
        }
        let succ = &adj[v];
        let mut j: usize = 0;
        while j < succ.len()
            invariant
                n == adj@.len(),
                adjacency_wf(adj@),
                a < n,
                v < n,
                seen@[v as int],
                succ == adj@[v as int],
                    0 <= j <= succ@.len(),
                seen@.len() == n,
                2 * count_false(seen@) + stack@.len() < measure,
                forall|t: int| #[trigger] adj_edge(adj@, a as int, t) ==> 0 <= t < seen@.len() && seen@[t],
                forall|q: int| 0 <= q < stack@.len() ==> stack@[q] < n && seen@[stack@[q] as int],
                forall|w: int| 0 <= w < n && seen@[w] ==> reaches(adj@, a as int, w),
                forall|q: int| 0 <= q < j ==> seen@[succ@[q] as int],
                forall|w: int, t: int|
                    0 <= w < n && w != v && seen@[w] && #[trigger] adj_edge(adj@, w, t) && !on_stack(stack@, w)
                        ==> 0 <= t < n && seen@[t],
            decreases succ@.len() - j,
        {
            let t = succ[j];
            assert(adj@[v as int]@[j as int] == t);
            if !seen[t] {
                proof {
                    assert(adj_edge(adj@, v as int, t as int));
                    lemma_walk_extend(adj@, a as int, v as int, t as int);
                    lemma_count_false_set(seen@, t as int);
                    lemma_on_stack_push(stack@, t);
                }
                seen.set(t, true);
                stack.push(t);
            }
            j = j + 1;
        }
        assert forall|t: int| adj_edge(adj@, v as int, t) implies 0 <= t < n && seen@[t] by {
            let q = choose|q: int| 0 <= q < adj@[v as int]@.len() && adj@[v as int]@[q] == t;
            assert(seen@[succ@[q] as int]);
        }
    }
    proof {
        assert forall|b: int| 0 <= b < n && reaches(adj@, a as int, b) implies seen@[b] by {
            let p = choose|p: Seq<int>| #[trigger] is_walk(adj@, p, a as int, b);
            lemma_closed_holds_walk(adj@, seen@, a as int, b, p, p.len() - 1);
        }
    }
    seen.set(a, false);
    seen
}

/// Running the closure calculator twice on the same graph yields the same
/// reachable sets: any two results that meet its contract are equal.
pub proof fn lemma_closure_idempotent(adj: Seq<Vec<usize>>, a: int, r1: Seq<bool>, r2: Seq<bool>)
    requires
        r1.len() == adj.len(),
        r2.len() == adj.len(),
        forall|b: int| 0 <= b < adj.len() ==> (r1[b] <==> in_closure(adj, a, b)),
        forall|b: int| 0 <= b < adj.len() ==> (r2[b] <==> in_closure(adj, a, b)),
    ensures
        r1 == r2,
{
    assert(r1 =~= r2);
}

/// A node never belongs to its own closure, even on a cycle through it.
pub proof fn lemma_not_in_own_closure(adj: Seq<Vec<usize>>, a: int)
    ensures
        !in_closure(adj, a, a),
{
}

} // verus!
