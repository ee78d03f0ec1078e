//! The lazy cut generator: explore the present-edge subgraph of a value
//! graph from the entry node, and, when the reached part of the graph does
//! not hold enough bits, synthesize a connectivity cut demanding that at
//! least one boundary edge — an edge leaving the reached set — be selected.
//!
//! The exploration is a deterministic depth-first search (nodes are popped
//! from an explicit stack, out-edges scanned in ascending edge-identifier
//! order), so repeated runs over an identical snapshot produce identical
//! cuts.  The search is proved to discover exactly the nodes reachable from
//! the entry over present edges, and to sum exactly their bit yields.

use vstd::prelude::*;
use crate::graph::RouteGraph;
use crate::graph::MAX_YIELD;
use crate::lp::Bounds;
use crate::lp::Expr;
use crate::lp::ExprName;
use crate::lp::Term;
use crate::lp::VarRefs;
use crate::value::ValueGraph;

verus! {

/// Edge `e` is a present connection from node `a` to node `b`.
pub open spec fn edge_connects(g: RouteGraph, vg: ValueGraph, e: int, a: int, b: int) -> bool {
    &&& 0 <= e < g.edge_count()
    &&& vg.spec_present(e)
    &&& g.edges@[e].source == a
    &&& g.edges@[e].target == b
}

/// Some present edge leads from node `a` to node `b`.
pub open spec fn step(g: RouteGraph, vg: ValueGraph, a: int, b: int) -> bool {
    exists|e: int| edge_connects(g, vg, e, a, b)
}

/// `p` is a walk over present edges (length at least one, every node in
/// range, consecutive nodes connected).
pub open spec fn is_present_path(g: RouteGraph, vg: ValueGraph, p: Seq<int>) -> bool {
    &&& p.len() >= 1
    &&& forall|k: int| 0 <= k < p.len() ==> 0 <= #[trigger] p[k] < g.node_count()
    &&& forall|k: int| 0 <= k < p.len() - 1 ==> step(g, vg, p[k], #[trigger] p[k + 1])
}

/// Node `t` can be reached from node `s` over present edges.
pub open spec fn reachable(g: RouteGraph, vg: ValueGraph, s: int, t: int) -> bool {
    exists|p: Seq<int>| is_present_path(g, vg, p) && p.first() == s && p.last() == t
}

/// The reached set of the snapshot, as a membership sequence over the nodes.
pub open spec fn reach_seq(g: RouteGraph, vg: ValueGraph, s: int) -> Seq<bool> {
    Seq::new(g.node_count() as nat, |i: int| reachable(g, vg, s, i))
}

/// Two snapshots with the same values agree on every reachability fact.
pub(crate) proof fn lemma_reach_congruent(g: RouteGraph, vg1: ValueGraph, vg2: ValueGraph, s: int)
    requires
        vg1.values@ == vg2.values@,
    ensures
        reach_seq(g, vg1, s) == reach_seq(g, vg2, s),
{
    assert forall|t: int| reachable(g, vg1, s, t) implies reachable(g, vg2, s, t) by {
        let p = choose|p: Seq<int>|
            is_present_path(g, vg1, p) && p.first() == s && p.last() == t;
        assert forall|k: int| 0 <= k < p.len() - 1 implies step(g, vg2, p[k], #[trigger] p[k
            + 1]) by {
            let a = p[k];
            let b = p[k + 1];
            assert(step(g, vg1, a, b));
            let e = choose|e: int| edge_connects(g, vg1, e, a, b);
            assert(edge_connects(g, vg2, e, a, b));
        }
        assert(is_present_path(g, vg2, p));
    }
    assert forall|t: int| reachable(g, vg2, s, t) implies reachable(g, vg1, s, t) by {
        let p = choose|p: Seq<int>|
            is_present_path(g, vg2, p) && p.first() == s && p.last() == t;
        assert forall|k: int| 0 <= k < p.len() - 1 implies step(g, vg1, p[k], #[trigger] p[k
            + 1]) by {
            let a = p[k];
            let b = p[k + 1];
            assert(step(g, vg2, a, b));
            let e = choose|e: int| edge_connects(g, vg2, e, a, b);
            assert(edge_connects(g, vg1, e, a, b));
        }
        assert(is_present_path(g, vg1, p));
    }
    assert(reach_seq(g, vg1, s) =~= reach_seq(g, vg2, s));
}

/// Sum of the bit yields of the members of `vis` among the first `k` nodes.
pub open spec fn bits_sum(g: RouteGraph, vis: Seq<bool>, k: int) -> int
    decreases k,
{
    if k <= 0 {
        0
    } else {
        bits_sum(g, vis, k - 1) + if vis[k - 1] {
            g.nodes@[k - 1].bits as int
        } else {
            0
        }
    }
}

/// Sum of the bit yields of the first `k` nodes of the whole graph.
pub open spec fn total_bits(g: RouteGraph, k: int) -> int
    decreases k,
{
    if k <= 0 {
        0
    } else {
        total_bits(g, k - 1) + g.nodes@[k - 1].bits
    }
}

/// Number of nodes among the first `k` that `vis` does not hold.
pub open spec fn count_unvisited(vis: Seq<bool>, k: int) -> int
    decreases k,
{
    if k <= 0 {
        0
    } else {
        count_unvisited(vis, k - 1) + if vis[k - 1] {
            0int
        } else {
            1int
        }
    }
}

/// The unvisited count is never negative.
pub(crate) proof fn lemma_count_nonneg(vis: Seq<bool>, k: int)
    ensures
        count_unvisited(vis, k) >= 0,
    decreases k,
{
    if k > 0 {
        lemma_count_nonneg(vis, k - 1);
    }
}

/// With nothing visited, the unvisited count is the whole range.
pub(crate) proof fn lemma_count_full(vis: Seq<bool>, k: int)
    requires
        forall|j: int| 0 <= j < k ==> !vis[j],
    ensures
        count_unvisited(vis, k) == if k <= 0 {
            0
        } else {
            k
        },
    decreases k,
{
    if k > 0 {
        lemma_count_full(vis, k - 1);
    }
}

/// More visited nodes never raise the unvisited count.
pub(crate) proof fn lemma_count_monotone(v1: Seq<bool>, v2: Seq<bool>, k: int)
    requires
        v1.len() == v2.len(),
        forall|i: int| 0 <= i < v1.len() && v1[i] ==> v2[i],
        k <= v1.len(),
    ensures
        count_unvisited(v2, k) <= count_unvisited(v1, k),
    decreases k,
{
    if k > 0 {
        lemma_count_monotone(v1, v2, k - 1);
    }
}

/// Newly marking node `j` removes exactly one node from the unvisited
/// count.
pub(crate) proof fn lemma_count_mark_only(vis: Seq<bool>, j: int, k: int)
    requires
        0 <= j < vis.len(),
        k <= vis.len(),
        !vis[j],
    ensures
        count_unvisited(vis.update(j, true), k) == count_unvisited(vis, k) - if j < k {
            1int
        } else {
            0
        },
    decreases k,
{
    if k > 0 {
        lemma_count_mark_only(vis, j, k - 1);
    }
}

/// An all-false membership adds nothing to the sum.
pub(crate) proof fn lemma_empty_bits(g: RouteGraph, vis: Seq<bool>, k: int)
    requires
        forall|j: int| 0 <= j < k ==> !vis[j],
    ensures
        bits_sum(g, vis, k) == 0,
    decreases k,
{
    if k > 0 {
        lemma_empty_bits(g, vis, k - 1);
    }
}

/// Newly marking node `j` adds exactly its bit yield to the members' sum.
pub(crate) proof fn lemma_bits_mark(g: RouteGraph, vis: Seq<bool>, j: int, k: int)
    requires
        0 <= j < vis.len(),
        k <= vis.len(),
        !vis[j],
    ensures
        bits_sum(g, vis.update(j, true), k) == bits_sum(g, vis, k) + if j < k {
            g.nodes@[j].bits as int
        } else {
            0
        },
    decreases k,
{
    if k > 0 {
        lemma_bits_mark(g, vis, j, k - 1);
    }
}

/// The members' sum never exceeds the whole graph's sum.
pub(crate) proof fn lemma_bits_le_total(g: RouteGraph, vis: Seq<bool>, k: int)
    requires
        forall|i: int| 0 <= i < g.node_count() ==> (#[trigger] g.nodes@[i]).wf(),
        0 <= k <= g.node_count(),
    ensures
        bits_sum(g, vis, k) <= total_bits(g, k),
    decreases k,
{
    if k > 0 {
        lemma_bits_le_total(g, vis, k - 1);
        assert(g.nodes@[k - 1].wf());
    }
}

/// The members' sum lies between zero and the whole graph's sum, and the
/// unvisited count is not negative.
proof fn lemma_sum_bounds(g: RouteGraph, vis: Seq<bool>, k: int)
    requires
        forall|i: int| 0 <= i < g.node_count() ==> (#[trigger] g.nodes@[i]).wf(),
        0 <= k <= g.node_count(),
    ensures
        0 <= bits_sum(g, vis, k) <= total_bits(g, k),
        total_bits(g, k) <= k * MAX_YIELD,
        count_unvisited(vis, k) >= 0,
    decreases k,
{
    if k > 0 {
        lemma_sum_bounds(g, vis, k - 1);
        assert(g.nodes@[k - 1].wf());
        assert((k - 1) * MAX_YIELD + MAX_YIELD == k * MAX_YIELD) by (nonlinear_arith);
    }
}

/// A single node in range is a present path from itself to itself.
pub(crate) proof fn lemma_reachable_refl(g: RouteGraph, vg: ValueGraph, s: int)
    requires
        0 <= s < g.node_count(),
    ensures
        reachable(g, vg, s, s),
{
    let p = seq![s];
    assert(is_present_path(g, vg, p));
    assert(p.first() == s && p.last() == s);
}

/// Reachability extends over one more present edge.
proof fn lemma_reachable_step(g: RouteGraph, vg: ValueGraph, s: int, a: int, b: int)
    requires
        reachable(g, vg, s, a),
        step(g, vg, a, b),
        0 <= b < g.node_count(),
    ensures
        reachable(g, vg, s, b),
{
    let p = choose|p: Seq<int>| is_present_path(g, vg, p) && p.first() == s && p.last() == a;
    let q = p.push(b);
    assert forall|k: int| 0 <= k < q.len() - 1 implies step(g, vg, q[k], #[trigger] q[k + 1]) by {
        if k < p.len() - 1 {
            assert(q[k] == p[k] && q[k + 1] == p[k + 1]);
        } else {
            assert(q[k] == p.last() && q[k + 1] == b);
        }
    }
    assert(is_present_path(g, vg, q));
    assert(q.first() == s && q.last() == b);
}

/// Every present path that starts inside a set closed under present edges
/// ends inside it.
proof fn lemma_path_stays_in_closed_set(
    g: RouteGraph,
    vg: ValueGraph,
    vis: Seq<bool>,
    p: Seq<int>,
)
    requires
        vis.len() == g.node_count(),
        is_present_path(g, vg, p),
        vis[p.first()],
        forall|e: int|
            0 <= e < g.edge_count() && vg.spec_present(e) && vis[(#[trigger] g.edges@[e]).source as int]
                ==> vis[g.edges@[e].target as int],
    ensures
        vis[p.last()],
    decreases p.len(),
{
    if p.len() > 1 {
        let q = p.drop_last();
        assert forall|k: int| 0 <= k < q.len() - 1 implies step(g, vg, q[k], #[trigger] q[k + 1]) by {
            assert(q[k] == p[k] && q[k + 1] == p[k + 1]);
            assert(step(g, vg, p[k], p[k + 1]));
        }
        assert(is_present_path(g, vg, q));
        assert(q.first() == p.first());
        lemma_path_stays_in_closed_set(g, vg, vis, q);
        let i = p.len() - 2;
        let a = p[i];
        let b = p[i + 1];
        assert(step(g, vg, p[i], p[i + 1]));
        assert(b == p.last());
        let e = choose|e: int| edge_connects(g, vg, e, a, b);
        assert(vis[g.edges@[e].source as int]);
    }
}

/// Depth-first exploration of the present-edge subgraph from `first`:
/// returns the discovered node set (exactly the reachable nodes) and the sum
/// of their bit yields.  Nodes are taken from an explicit stack and their
/// out-edges scanned in ascending edge order, so the traversal is
/// deterministic.
pub fn get_connected_nodes(g: &RouteGraph, values: &ValueGraph, first: usize) -> (r: (
    Vec<bool>,
    i64,
))
    requires
        g.wf(),
        values.matches(*g),
        first < g.node_count(),
    ensures
        r.0@.len() == g.node_count(),
        forall|i: int| 0 <= i < g.node_count() ==> (r.0@[i] <==> reachable(*g, *values, first as int, i)),
        r.1 == bits_sum(*g, r.0@, g.node_count()),
        0 <= r.1 <= total_bits(*g, g.node_count()),
{
    let n = g.nodes.len();
    let m = g.edges.len();
    let mut visited: Vec<bool> = Vec::new();
    let mut i: usize = 0;
    while i < n
        invariant
            i <= n,
            visited@.len() == i,
            forall|j: int| 0 <= j < i ==> !visited@[j],
        decreases n - i,
    {
        visited.push(false);
        i = i + 1;
    }
    proof {
        lemma_empty_bits(*g, visited@, n as int);
        lemma_bits_mark(*g, visited@, first as int, n as int);
        lemma_count_mark_only(visited@, first as int, n as int);
        lemma_reachable_refl(*g, *values, first as int);
    }
    let mut stack: Vec<usize> = Vec::new();
    visited.set(first, true);
    let node_bits = g.nodes[first].bits;
    let mut bits: i64 = node_bits;
    stack.push(first);
    proof {
        assert(stack@[0] == first);
        assert(stack@.contains(first));
        assert forall|e: int|
            0 <= e < m && values.spec_present(e) && visited@[(
            #[trigger] g.edges@[e]).source as int] && !stack@.contains(g.edges@[e].source) implies
            visited@[g.edges@[e].target as int] by {
            assert(g.edges@[e].source == first);
        }
    }

    while stack.len() > 0
        invariant
            g.wf(),
            values.matches(*g),
            n == g.node_count(),
            m == g.edge_count(),
            first < n,
            visited@.len() == n,
            visited@[first as int],
            forall|k: int| 0 <= k < stack@.len() ==> (#[trigger] stack@[k]) < n,
            forall|k: int| 0 <= k < stack@.len() ==> visited@[#[trigger] stack@[k] as int],
            forall|i: int|
                0 <= i < n && visited@[i] ==> reachable(*g, *values, first as int, i),
            bits == bits_sum(*g, visited@, n as int),
            forall|e: int|
                0 <= e < m && values.spec_present(e) && visited@[(
                #[trigger] g.edges@[e]).source as int] && !stack@.contains(g.edges@[e].source)
                    ==> visited@[g.edges@[e].target as int],
        decreases count_unvisited(visited@, n as int) + stack@.len(),
    {
        let ghost prev_stack = stack@;
        let node = stack.pop().unwrap();
        proof {
            lemma_sum_bounds(*g, visited@, n as int);
            assert(node == prev_stack.last());
            assert(prev_stack.contains(node)) by {
                assert(prev_stack[prev_stack.len() - 1] == node);
            }
            assert forall|x: usize| stack@.contains(x) implies prev_stack.contains(x) by {
                let idx = choose|idx: int| 0 <= idx < stack@.len() && stack@[idx] == x;
                assert(prev_stack[idx] == x);
            }
            assert forall|e: int|
                0 <= e < m && values.spec_present(e) && visited@[(
                #[trigger] g.edges@[e]).source as int] && !stack@.contains(g.edges@[e].source)
                    && g.edges@[e].source != node implies visited@[g.edges@[e].target as int] by {
                let src = g.edges@[e].source;
                if prev_stack.contains(src) {
                    let idx = choose|idx: int|
                        0 <= idx < prev_stack.len() && prev_stack[idx] == src;
                    assert(idx < prev_stack.len() - 1);
                    assert(stack@[idx] == src);
                } else {
                    assert(visited@[g.edges@[e].target as int]);
                }
            }
        }
        let ghost measure0 = count_unvisited(visited@, n as int) + stack@.len();
        let ghost stack_after_pop = stack@;
        let mut e: usize = 0;
        while e < m
            invariant
                e <= m,
                g.wf(),
                values.matches(*g),
                n == g.node_count(),
                m == g.edge_count(),
                first < n,
                node < n,
                visited@.len() == n,
                visited@[first as int],
                visited@[node as int],
                reachable(*g, *values, first as int, node as int),
                forall|k: int| 0 <= k < stack@.len() ==> (#[trigger] stack@[k]) < n,
                forall|k: int| 0 <= k < stack@.len() ==> visited@[#[trigger] stack@[k] as int],
                forall|i: int|
                    0 <= i < n && visited@[i] ==> reachable(*g, *values, first as int, i),
                bits == bits_sum(*g, visited@, n as int),
                count_unvisited(visited@, n as int) + stack@.len() == measure0,
                count_unvisited(visited@, n as int) >= 0,
                forall|j: int|
                    0 <= j < e && values.spec_present(j) && g.edges@[j].source == node
                        ==> visited@[(#[trigger] g.edges@[j]).target as int],
                forall|j: int|
                    0 <= j < m && values.spec_present(j) && visited@[(
                    #[trigger] g.edges@[j]).source as int] && !stack@.contains(g.edges@[j].source)
                        && g.edges@[j].source != node ==> visited@[g.edges@[j].target as int],
                forall|x: usize| stack_after_pop.contains(x) ==> stack@.contains(x),
            decreases m - e,
        {
            let edge = &g.edges[e];
            if values.present(e) && edge.source == node {
                let t = edge.target;
                if !visited[t] {
                    proof {
                        assert(step(*g, *values, node as int, t as int)) by {
                            assert(edge_connects(*g, *values, e as int, node as int, t as int));
                        }
                        lemma_reachable_step(*g, *values, first as int, node as int, t as int);
                        lemma_bits_mark(*g, visited@, t as int, n as int);
                        lemma_count_mark_only(visited@, t as int, n as int);
                        lemma_sum_bounds(*g, visited@, n as int);
                        lemma_sum_bounds(*g, visited@.update(t as int, true), n as int);
                    }
                    let ghost stack_pre = stack@;
                    visited.set(t, true);
                    let node_bits = g.nodes[t].bits;
                    bits = bits + node_bits;
                    stack.push(t);
                    proof {
                        assert(stack@[stack@.len() - 1] == t);
                        assert(stack@.contains(t));
                        assert forall|x: usize| stack_pre.contains(x) implies stack@.contains(
                            x,
                        ) by {
                            let idx = choose|idx: int|
                                0 <= idx < stack_pre.len() && stack_pre[idx] == x;
                            assert(stack@[idx] == x);
                        }
                        assert forall|j: int|
                            0 <= j < m && values.spec_present(j) && visited@[(
                            #[trigger] g.edges@[j]).source as int] && !stack@.contains(
                            g.edges@[j].source,
                        ) && g.edges@[j].source != node implies visited@[g.edges@[j].target as int] by {
                            let src = g.edges@[j].source;
                            assert(src != t);
                            assert(!stack_pre.contains(src));
                        }
                    }
                }
            }
            e = e + 1;
        }
    }
    proof {
        assert forall|i: int|
            0 <= i < n && reachable(*g, *values, first as int, i) implies visited@[i] by {
            let p = choose|p: Seq<int>|
                is_present_path(*g, *values, p) && p.first() == first as int && p.last() == i;
            lemma_path_stays_in_closed_set(*g, *values, visited@, p);
        }
        lemma_sum_bounds(*g, visited@, n as int);
    }
    (visited, bits)
}

/// The members of `vis` among the first `k` nodes, ascending.
pub open spec fn cut_members(vis: Seq<bool>, k: int) -> Seq<usize>
    decreases k,
{
    if k <= 0 {
        Seq::empty()
    } else if vis[k - 1] {
        cut_members(vis, k - 1).push((k - 1) as usize)
    } else {
        cut_members(vis, k - 1)
    }
}

/// One unit term per boundary edge — an edge leaving `vis` — among the
/// first `k` edges, ascending by edge identifier.
pub open spec fn boundary_terms(g: RouteGraph, refs: VarRefs, vis: Seq<bool>, k: int) -> Seq<Term>
    decreases k,
{
    if k <= 0 {
        Seq::empty()
    } else {
        let rest = boundary_terms(g, refs, vis, k - 1);
        if vis[g.edges@[k - 1].source as int] && !vis[g.edges@[k - 1].target as int] {
            rest.push(Term(refs.spec_get(k - 1), 1))
        } else {
            rest
        }
    }
}

/// With every yield non-negative, a smaller membership never sums higher.
pub(crate) proof fn lemma_bits_subset_monotone(g: RouteGraph, v1: Seq<bool>, v2: Seq<bool>, k: int)
    requires
        forall|i: int| 0 <= i < g.node_count() ==> (#[trigger] g.nodes@[i]).wf(),
        forall|i: int| 0 <= i < k && v1[i] ==> v2[i],
        0 <= k <= g.node_count(),
    ensures
        bits_sum(g, v1, k) <= bits_sum(g, v2, k),
    decreases k,
{
    if k > 0 {
        lemma_bits_subset_monotone(g, v1, v2, k - 1);
        assert(g.nodes@[k - 1].wf());
    }
}

/// With non-negative values on every edge variable, the boundary sum is
/// non-negative.
pub(crate) proof fn lemma_boundary_sum_nonneg(
    g: RouteGraph,
    refs: VarRefs,
    vis: Seq<bool>,
    a: Map<int, int>,
    k: int,
)
    requires
        forall|e: int|
            0 <= e < g.edge_count() ==> a[(#[trigger] refs.spec_get(e)).0 as int] >= 0,
        k <= g.edge_count(),
    ensures
        crate::lp::sum_terms(boundary_terms(g, refs, vis, k), a) >= 0,
    decreases k,
{
    if k > 0 {
        lemma_boundary_sum_nonneg(g, refs, vis, a, k - 1);
        let rest = boundary_terms(g, refs, vis, k - 1);
        if vis[g.edges@[k - 1].source as int] && !vis[g.edges@[k - 1].target as int] {
            let t = Term(refs.spec_get(k - 1), 1i64);
            assert(boundary_terms(g, refs, vis, k) == rest.push(t));
            assert(rest.push(t).drop_last() =~= rest);
            assert(rest.push(t).last() == t);
            assert(a[refs.spec_get(k - 1).0 as int] >= 0);
        }
    }
}

/// The boundary sum dominates the value of any single boundary edge.
pub(crate) proof fn lemma_boundary_sum_contains(
    g: RouteGraph,
    refs: VarRefs,
    vis: Seq<bool>,
    a: Map<int, int>,
    b: int,
    k: int,
)
    requires
        forall|e: int|
            0 <= e < g.edge_count() ==> a[(#[trigger] refs.spec_get(e)).0 as int] >= 0,
        0 <= b < k <= g.edge_count(),
        vis[g.edges@[b].source as int],
        !vis[g.edges@[b].target as int],
    ensures
        crate::lp::sum_terms(boundary_terms(g, refs, vis, k), a) >= a[refs.spec_get(b).0 as int],
    decreases k,
{
    let rest = boundary_terms(g, refs, vis, k - 1);
    if vis[g.edges@[k - 1].source as int] && !vis[g.edges@[k - 1].target as int] {
        let t = Term(refs.spec_get(k - 1), 1i64);
        assert(boundary_terms(g, refs, vis, k) == rest.push(t));
        assert(rest.push(t).drop_last() =~= rest);
        assert(rest.push(t).last() == t);
        if k - 1 == b {
            lemma_boundary_sum_nonneg(g, refs, vis, a, k - 1);
        } else {
            lemma_boundary_sum_contains(g, refs, vis, a, b, k - 1);
            assert(a[refs.spec_get(k - 1).0 as int] >= 0);
        }
    } else {
        assert(k - 1 != b);
        lemma_boundary_sum_contains(g, refs, vis, a, b, k - 1);
    }
}

/// Inspect the current snapshot and, when the nodes reachable from the
/// entry hold fewer than `required_bits` bits, emit the connectivity cut
/// demanding at least one boundary edge: the sum of the decision variables
/// of all edges from the reached set into the unreached set must be at
/// least one.  The cut is keyed by the reached node set, so the same
/// infeasibility always produces the identical row.  When enough bits are
/// reachable no cut is emitted and the relaxation stands.
pub fn lazy_required_bits_expr(
    g: &RouteGraph,
    edges: VarRefs,
    first: usize,
    required_bits: i64,
    values: &ValueGraph,
) -> (r: Option<Expr>)
    requires
        g.wf(),
        values.matches(*g),
        first < g.node_count(),
        edges.wf(),
        edges.len == g.edge_count(),
    ensures
        r is Some <==> bits_sum(*g, reach_seq(*g, *values, first as int), g.node_count())
            < required_bits,
        r matches Some(c) ==> {
            &&& c.bounds == Bounds::Lower(1)
            &&& c.name matches ExprName::Cut(ms) && ms@ == cut_members(
                reach_seq(*g, *values, first as int),
                g.node_count(),
            )
            &&& c.terms@ == boundary_terms(
                *g,
                edges,
                reach_seq(*g, *values, first as int),
                g.edge_count(),
            )
        },
{
    let n = g.nodes.len();
    let m = g.edges.len();
    let (connected, connected_bits) = get_connected_nodes(g, values, first);
    proof {
        assert(connected@ =~= reach_seq(*g, *values, first as int));
    }
    if connected_bits < required_bits {
        let mut members: Vec<usize> = Vec::new();
        let mut i: usize = 0;
        while i < n
            invariant
                i <= n,
                n == g.node_count(),
                connected@.len() == n,
                members@ == cut_members(connected@, i as int),
            decreases n - i,
        {
            if connected[i] {
                members.push(i);
            }
            i = i + 1;
        }
        let mut terms: Vec<Term> = Vec::new();
        let mut e: usize = 0;
        while e < m
            invariant
                e <= m,
                g.wf(),
                n == g.node_count(),
                m == g.edge_count(),
                edges.wf(),
                edges.len == m,
                connected@.len() == n,
                terms@ == boundary_terms(*g, edges, connected@, e as int),
            decreases m - e,
        {
            let edge = &g.edges[e];
            if connected[edge.source] && !connected[edge.target] {
                terms.push(Term(edges.get(e), 1));
            }
            e = e + 1;
        }
        Some(Expr { name: ExprName::Cut(members), bounds: Bounds::Lower(1), terms })
    } else {
        None
    }
}

/// With no bits required at all, the reached part of any snapshot already
/// holds enough: the cut generator never emits a cut, and the trivial
/// relaxation — and with it a shortest entry-to-goal path — stands
/// immediately.
pub proof fn lemma_zero_required_no_cut(
    g: RouteGraph,
    vg: ValueGraph,
    first: int,
    required_bits: i64,
)
    requires
        g.wf(),
        required_bits <= 0,
    ensures
        !(bits_sum(g, reach_seq(g, vg, first), g.node_count()) < required_bits),
{
    lemma_sum_bounds(g, reach_seq(g, vg, first), g.node_count());
}

/// When the whole graph holds fewer bits than required, every snapshot —
/// whatever the solver has assigned — provokes a cut: no reached set can
/// ever hold enough, so the search can only end infeasible, never in a
/// quiet partial success.
pub proof fn lemma_insufficient_bits_always_cut(
    g: RouteGraph,
    vg: ValueGraph,
    first: int,
    required_bits: i64,
)
    requires
        g.wf(),
        total_bits(g, g.node_count()) < required_bits,
    ensures
        bits_sum(g, reach_seq(g, vg, first), g.node_count()) < required_bits,
{
    lemma_sum_bounds(g, reach_seq(g, vg, first), g.node_count());
}

} // verus!
