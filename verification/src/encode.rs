//! The problem encoder: translate the graph into the variables and linear
//! constraints of the integer program.
//!
//! One binary-relaxed decision variable per edge carries the traversal time
//! plus the target's dwell time as its objective weight.  Flow conservation
//! forces a single entry-to-goal path, per-node capacity forbids revisits,
//! dominator rows prune paths that bypass a node's sole gateway, opposite
//! edge pairs are kept from being selected together, and three global rows
//! demand enough bits, at most one one-of node and a non-negative key
//! balance.
//!
//! Within a row, terms are emitted in ascending edge order; the solver is
//! indifferent to term order, and the fixed order keeps every encoding run
//! over the same graph identical.

use vstd::prelude::*;
use crate::graph::Cost;
use crate::graph::RouteGraph;
use crate::graph::MAX_YIELD;
use crate::lp::Bounds;
use crate::lp::Expr;
use crate::lp::ExprName;
use crate::lp::Kind;
use crate::lp::Term;
use crate::lp::Var;
use crate::lp::VarName;
use crate::lp::VarRefs;

verus! {

/// The objective weight of edge `e`: traversal frames plus the dwell time
/// of its target, approximating real elapsed time.
pub open spec fn edge_objective(g: RouteGraph, e: int) -> int {
    g.edges@[e].spec_frames() + g.nodes@[g.edges@[e].target as int].time
}

/// One decision variable per edge: integer-constrained, relaxed to the
/// bound `[0, 1]` during search, weighted by [`edge_objective`].
pub fn edge_vars(g: &RouteGraph) -> (r: Vec<Var>)
    requires
        g.wf(),
    ensures
        r@.len() == g.edge_count(),
        forall|e: int|
            0 <= e < g.edge_count() ==> #[trigger] r@[e] == (Var {
                name: VarName::Edge(e as usize),
                kind: Kind::Int,
                bounds: Bounds::Double(0, 1),
                objective: edge_objective(*g, e) as i64,
            }),
{
    let m = g.edges.len();
    let mut r: Vec<Var> = Vec::new();
    let mut e: usize = 0;
    while e < m
        invariant
            e <= m,
            g.wf(),
            m == g.edge_count(),
            r@.len() == e,
            forall|j: int|
                0 <= j < e ==> #[trigger] r@[j] == (Var {
                    name: VarName::Edge(j as usize),
                    kind: Kind::Int,
                    bounds: Bounds::Double(0, 1),
                    objective: edge_objective(*g, j) as i64,
                }),
        decreases m - e,
    {
        let edge = &g.edges[e];
        let frames = edge.get_frames();
        let dwell = g.nodes[edge.target].time;
        r.push(
            Var {
                name: VarName::Edge(e),
                kind: Kind::Int,
                bounds: Bounds::Double(0, 1),
                objective: (frames + dwell) as i64,
            },
        );
        e = e + 1;
    }
    r
}

/// One key-potential variable per node: continuous, non-negative, carrying
/// no objective weight.
pub fn key_vars(g: &RouteGraph) -> (r: Vec<Var>)
    ensures
        r@.len() == g.node_count(),
        forall|i: int|
            0 <= i < g.node_count() ==> #[trigger] r@[i] == (Var {
                name: VarName::Keys(i as usize),
                kind: Kind::Float,
                bounds: Bounds::Lower(0),
                objective: 0,
            }),
{
    let n = g.nodes.len();
    let mut r: Vec<Var> = Vec::new();
    let mut i: usize = 0;
    while i < n
        invariant
            i <= n,
            r@.len() == i,
            forall|j: int|
                0 <= j < i ==> #[trigger] r@[j] == (Var {
                    name: VarName::Keys(j as usize),
                    kind: Kind::Float,
                    bounds: Bounds::Lower(0),
                    objective: 0,
                }),
        decreases n - i,
    {
        r.push(Var { name: VarName::Keys(i), kind: Kind::Float, bounds: Bounds::Lower(0), objective: 0 });
        i = i + 1;
    }
    r
}

/// One term of coefficient `coef` per edge among the first `k` whose
/// target (when `incoming`) or source (otherwise) is `node`, ascending by
/// edge identifier.
pub open spec fn directed_terms(
    g: RouteGraph,
    refs: VarRefs,
    node: int,
    incoming: bool,
    coef: i64,
    k: int,
) -> Seq<Term>
    decreases k,
{
    if k <= 0 {
        Seq::empty()
    } else {
        let rest = directed_terms(g, refs, node, incoming, coef, k - 1);
        let end = if incoming {
            g.edges@[k - 1].target as int
        } else {
            g.edges@[k - 1].source as int
        };
        if end == node {
            rest.push(Term(refs.spec_get(k - 1), coef))
        } else {
            rest
        }
    }
}

/// Append one term per edge incident to `node` from the given direction.
fn push_directed_terms(
    g: &RouteGraph,
    refs: VarRefs,
    node: usize,
    incoming: bool,
    coef: i64,
    terms: &mut Vec<Term>,
)
    requires
        g.wf(),
        refs.wf(),
        refs.len == g.edge_count(),
    ensures
        final(terms)@ == old(terms)@ + directed_terms(
            *g,
            refs,
            node as int,
            incoming,
            coef,
            g.edge_count(),
        ),
{
    let m = g.edges.len();
    let mut e: usize = 0;
    while e < m
        invariant
            e <= m,
            g.wf(),
            m == g.edge_count(),
            refs.wf(),
            refs.len == m,
            terms@ == old(terms)@ + directed_terms(*g, refs, node as int, incoming, coef, e as int),
        decreases m - e,
    {
        let edge = &g.edges[e];
        let end = if incoming {
            edge.target
        } else {
            edge.source
        };
        if end == node {
            terms.push(Term(refs.get(e), coef));
        }
        e = e + 1;
    }
}

/// The fixed flow balance of node `i`: one at the entry, minus one at the
/// goal, zero elsewhere.
pub open spec fn flow_balance(first: int, last: int, i: int) -> i64 {
    if i == first {
        1i64
    } else if i == last {
        -1i64
    } else {
        0i64
    }
}

/// The terms of the flow row of node `i`: incoming edges with coefficient
/// minus one, then outgoing edges with coefficient one.
pub open spec fn flow_terms(g: RouteGraph, refs: VarRefs, i: int) -> Seq<Term> {
    directed_terms(g, refs, i, true, -1i64, g.edge_count()) + directed_terms(
        g,
        refs,
        i,
        false,
        1,
        g.edge_count(),
    )
}

/// One flow-conservation row per node: the selected out-flow minus the
/// selected in-flow equals the node's fixed balance, forcing the selected
/// edges to form a single flow from the entry to the goal.
pub fn flow_exprs(g: &RouteGraph, edges: VarRefs, first_node: usize, last_node: usize) -> (r: Vec<
    Expr,
>)
    requires
        g.wf(),
        edges.wf(),
        edges.len == g.edge_count(),
    ensures
        r@.len() == g.node_count(),
        forall|i: int|
            0 <= i < g.node_count() ==> {
                &&& (#[trigger] r@[i]).name == ExprName::Flow(i as usize)
                &&& r@[i].bounds == Bounds::Fixed(flow_balance(first_node as int, last_node as int, i))
                &&& r@[i].terms@ == flow_terms(*g, edges, i)
            },
{
    let n = g.nodes.len();
    let mut r: Vec<Expr> = Vec::new();
    let mut i: usize = 0;
    while i < n
        invariant
            i <= n,
            g.wf(),
            n == g.node_count(),
            edges.wf(),
            edges.len == g.edge_count(),
            r@.len() == i,
            forall|j: int|
                0 <= j < i ==> {
                    &&& (#[trigger] r@[j]).name == ExprName::Flow(j as usize)
                    &&& r@[j].bounds == Bounds::Fixed(
                        flow_balance(first_node as int, last_node as int, j),
                    )
                    &&& r@[j].terms@ == flow_terms(*g, edges, j)
                },
        decreases n - i,
    {
        let bounds = if i == first_node {
            Bounds::Fixed(1)
        } else if i == last_node {
            Bounds::Fixed(-1)
        } else {
            Bounds::Fixed(0)
        };
        let mut terms: Vec<Term> = Vec::new();
        push_directed_terms(g, edges, i, true, -1, &mut terms);
        push_directed_terms(g, edges, i, false, 1, &mut terms);
        r.push(Expr { name: ExprName::Flow(i), bounds, terms });
        i = i + 1;
    }
    r
}

/// The interior nodes — all but the entry and the goal — among the first
/// `k`, ascending.
pub open spec fn interior_nodes(first: int, last: int, k: int) -> Seq<int>
    decreases k,
{
    if k <= 0 {
        Seq::empty()
    } else if k - 1 == first || k - 1 == last {
        interior_nodes(first, last, k - 1)
    } else {
        interior_nodes(first, last, k - 1).push(k - 1)
    }
}

/// One capacity row per interior node: the sum of its incoming edge
/// variables is at most one, so no node is entered — and hence visited —
/// twice.  The incoming direction is the bound one, consistently across
/// the encoder.
pub fn capacity_exprs(g: &RouteGraph, edges: VarRefs, first_node: usize, last_node: usize) -> (r:
    Vec<Expr>)
    requires
        g.wf(),
        edges.wf(),
        edges.len == g.edge_count(),
    ensures
        r@.len() == interior_nodes(first_node as int, last_node as int, g.node_count()).len(),
        forall|p: int|
            0 <= p < r@.len() ==> {
                let i = interior_nodes(first_node as int, last_node as int, g.node_count())[p];
                &&& (#[trigger] r@[p]).name == ExprName::Capacity(i as usize)
                &&& r@[p].bounds == Bounds::Upper(1)
                &&& r@[p].terms@ == directed_terms(*g, edges, i, true, 1, g.edge_count())
            },
{
    let n = g.nodes.len();
    let mut r: Vec<Expr> = Vec::new();
    let mut i: usize = 0;
    while i < n
        invariant
            i <= n,
            g.wf(),
            n == g.node_count(),
            edges.wf(),
            edges.len == g.edge_count(),
            r@.len() == interior_nodes(first_node as int, last_node as int, i as int).len(),
            forall|p: int|
                0 <= p < r@.len() ==> {
                    let j = interior_nodes(first_node as int, last_node as int, i as int)[p];
                    &&& (#[trigger] r@[p]).name == ExprName::Capacity(j as usize)
                    &&& r@[p].bounds == Bounds::Upper(1)
                    &&& r@[p].terms@ == directed_terms(*g, edges, j, true, 1, g.edge_count())
                },
        decreases n - i,
    {
        proof {
            lemma_interior_nodes_prefix(first_node as int, last_node as int, i as int, n as int);
        }
        if i != first_node && i != last_node {
            let mut terms: Vec<Term> = Vec::new();
            push_directed_terms(g, edges, i, true, 1, &mut terms);
            r.push(Expr { name: ExprName::Capacity(i), bounds: Bounds::Upper(1), terms });
        }
        i = i + 1;
    }
    r
}

/// Growing the scanned prefix by one node extends the interior-node list
/// by at most that node.
proof fn lemma_interior_nodes_prefix(first: int, last: int, k: int, n: int)
    requires
        0 <= k,
    ensures
        k == first || k == last ==> interior_nodes(first, last, k + 1) == interior_nodes(
            first,
            last,
            k,
        ),
        k != first && k != last ==> interior_nodes(first, last, k + 1) == interior_nodes(
            first,
            last,
            k,
        ).push(k),
{
}

/// The nodes among the first `k` that have an immediate dominator other
/// than the entry node, ascending.
pub open spec fn dominated_nodes(idoms: Seq<Option<usize>>, first: int, k: int) -> Seq<int>
    decreases k,
{
    if k <= 0 {
        Seq::empty()
    } else if idoms[k - 1] is Some && idoms[k - 1]->0 != first {
        dominated_nodes(idoms, first, k - 1).push(k - 1)
    } else {
        dominated_nodes(idoms, first, k - 1)
    }
}

/// One dominator row per node `i` whose immediate dominator `d` is not the
/// entry: entering `i` demands having entered `d`, its sole gateway, so
/// the sum of `i`'s incoming variables minus the sum of `d`'s is at most
/// zero.  The immediate dominators are computed over the non-secret-edge
/// subgraph and handed in by the caller.
pub fn dominator_exprs(g: &RouteGraph, edges: VarRefs, first_node: usize, idoms: &Vec<
    Option<usize>,
>) -> (r: Vec<Expr>)
    requires
        g.wf(),
        edges.wf(),
        edges.len == g.edge_count(),
        idoms@.len() == g.node_count(),
    ensures
        r@.len() == dominated_nodes(idoms@, first_node as int, g.node_count()).len(),
        forall|p: int|
            0 <= p < r@.len() ==> {
                let i = dominated_nodes(idoms@, first_node as int, g.node_count())[p];
                &&& (#[trigger] r@[p]).name == ExprName::Dominator(i as usize)
                &&& r@[p].bounds == Bounds::Upper(0)
                &&& r@[p].terms@ == directed_terms(*g, edges, i, true, 1, g.edge_count())
                    + directed_terms(*g, edges, idoms@[i]->0 as int, true, -1i64, g.edge_count())
            },
{
    let n = g.nodes.len();
    let mut r: Vec<Expr> = Vec::new();
    let mut i: usize = 0;
    while i < n
        invariant
            i <= n,
            g.wf(),
            n == g.node_count(),
            edges.wf(),
            edges.len == g.edge_count(),
            idoms@.len() == n,
            r@.len() == dominated_nodes(idoms@, first_node as int, i as int).len(),
            forall|p: int|
                0 <= p < r@.len() ==> {
                    let j = dominated_nodes(idoms@, first_node as int, i as int)[p];
                    &&& (#[trigger] r@[p]).name == ExprName::Dominator(j as usize)
                    &&& r@[p].bounds == Bounds::Upper(0)
                    &&& r@[p].terms@ == directed_terms(*g, edges, j, true, 1, g.edge_count())
                        + directed_terms(*g, edges, idoms@[j]->0 as int, true, -1i64, g.edge_count())
                },
        decreases n - i,
    {
        proof {
            lemma_dominated_nodes_prefix(idoms@, first_node as int, i as int);
        }
        match idoms[i] {
            Some(d) => {
                if d != first_node {
                    let mut terms: Vec<Term> = Vec::new();
                    push_directed_terms(g, edges, i, true, 1, &mut terms);
                    push_directed_terms(g, edges, d, true, -1, &mut terms);
                    r.push(Expr { name: ExprName::Dominator(i), bounds: Bounds::Upper(0), terms });
                }
            },
            None => {},
        }
        i = i + 1;
    }
    r
}

/// Growing the scanned prefix by one node extends the dominated-node list
/// by at most that node.
proof fn lemma_dominated_nodes_prefix(idoms: Seq<Option<usize>>, first: int, k: int)
    requires
        0 <= k,
    ensures
        idoms[k] is Some && idoms[k]->0 != first ==> dominated_nodes(idoms, first, k + 1)
            == dominated_nodes(idoms, first, k).push(k),
        !(idoms[k] is Some && idoms[k]->0 != first) ==> dominated_nodes(idoms, first, k + 1)
            == dominated_nodes(idoms, first, k),
{
}

/// At most one interior node per scanned node.
pub(crate) proof fn lemma_interior_len(first: int, last: int, k: int)
    requires
        0 <= k,
    ensures
        interior_nodes(first, last, k).len() <= k,
    decreases k,
{
    if k > 0 {
        lemma_interior_len(first, last, k - 1);
    }
}

/// At most one dominated node per scanned node.
pub(crate) proof fn lemma_dominated_len(idoms: Seq<Option<usize>>, first: int, k: int)
    requires
        0 <= k,
    ensures
        dominated_nodes(idoms, first, k).len() <= k,
    decreases k,
{
    if k > 0 {
        lemma_dominated_len(idoms, first, k - 1);
    }
}

/// The lowest-identifier edge among the first `k` that runs from `s` to
/// `t`, if any.
pub open spec fn find_edge_between(g: RouteGraph, s: int, t: int, k: int) -> Option<usize>
    decreases k,
{
    if k <= 0 {
        None
    } else if find_edge_between(g, s, t, k - 1) is Some {
        find_edge_between(g, s, t, k - 1)
    } else if g.edges@[k - 1].source == s && g.edges@[k - 1].target == t {
        Some((k - 1) as usize)
    } else {
        None
    }
}

/// Once found, the lowest matching edge does not change as the scanned
/// prefix grows.
proof fn lemma_find_edge_stable(g: RouteGraph, s: int, t: int, k1: int, k2: int)
    requires
        k1 <= k2,
        find_edge_between(g, s, t, k1) is Some,
    ensures
        find_edge_between(g, s, t, k2) == find_edge_between(g, s, t, k1),
    decreases k2 - k1,
{
    if k1 < k2 {
        lemma_find_edge_stable(g, s, t, k1, k2 - 1);
    }
}

/// The lowest-identifier edge from `s` to `t`, if any.
pub fn find_edge(g: &RouteGraph, s: usize, t: usize) -> (r: Option<usize>)
    ensures
        r == find_edge_between(*g, s as int, t as int, g.edge_count()),
        r matches Some(e) ==> e < g.edge_count(),
{
    let m = g.edges.len();
    let mut e: usize = 0;
    while e < m
        invariant
            e <= m,
            m == g.edge_count(),
            find_edge_between(*g, s as int, t as int, e as int) is None,
        decreases m - e,
    {
        let edge = &g.edges[e];
        if edge.source == s && edge.target == t {
            proof {
                assert(find_edge_between(*g, s as int, t as int, e + 1) == Some(e));
                lemma_find_edge_stable(*g, s as int, t as int, e + 1, m as int);
            }
            return Some(e);
        }
        e = e + 1;
    }
    None
}

/// The opposite-direction edge pairs among the first `k` edges: for each
/// edge whose source identifier is below its target identifier, the
/// lowest-identifier reverse edge, if one exists.
pub open spec fn two_cycle_pairs(g: RouteGraph, k: int) -> Seq<(usize, usize)>
    decreases k,
{
    if k <= 0 {
        Seq::empty()
    } else {
        let rest = two_cycle_pairs(g, k - 1);
        let a = k - 1;
        let rev = find_edge_between(
            g,
            g.edges@[a].target as int,
            g.edges@[a].source as int,
            g.edge_count(),
        );
        if g.edges@[a].source < g.edges@[a].target && rev is Some {
            rest.push((a as usize, rev->0))
        } else {
            rest
        }
    }
}

/// At most one opposite-direction pair per scanned edge.
pub(crate) proof fn lemma_pairs_len(g: RouteGraph, k: int)
    requires
        0 <= k,
    ensures
        two_cycle_pairs(g, k).len() <= k,
    decreases k,
{
    if k > 0 {
        lemma_pairs_len(g, k - 1);
    }
}

/// The row an opposite-direction pair gives rise to: the two edge
/// variables sum to at most one.
pub open spec fn pair_expr_ok(refs: VarRefs, x: Expr, pr: (usize, usize)) -> bool {
    &&& x.name == ExprName::TwoCycle(pr.0, pr.1)
    &&& x.bounds == Bounds::Upper(1)
    &&& x.terms@ == seq![Term(refs.spec_get(pr.0 as int), 1i64), Term(refs.spec_get(pr.1 as int), 1i64)]
}

/// One row per opposite-direction edge pair, forbidding the selection of
/// both: a feasible path never walks a two-node cycle.
pub fn no_2_cycles(g: &RouteGraph, edges: VarRefs) -> (r: Vec<Expr>)
    requires
        g.wf(),
        edges.wf(),
        edges.len == g.edge_count(),
    ensures
        r@.len() == two_cycle_pairs(*g, g.edge_count()).len(),
        forall|p: int|
            0 <= p < r@.len() ==> pair_expr_ok(
                edges,
                #[trigger] r@[p],
                two_cycle_pairs(*g, g.edge_count())[p],
            ),
{
    let m = g.edges.len();
    let mut r: Vec<Expr> = Vec::new();
    let mut a: usize = 0;
    while a < m
        invariant
            a <= m,
            g.wf(),
            m == g.edge_count(),
            edges.wf(),
            edges.len == m,
            r@.len() == two_cycle_pairs(*g, a as int).len(),
            forall|p: int|
                0 <= p < r@.len() ==> pair_expr_ok(
                    edges,
                    #[trigger] r@[p],
                    two_cycle_pairs(*g, a as int)[p],
                ),
        decreases m - a,
    {
        let edge = &g.edges[a];
        if edge.source < edge.target {
            match find_edge(g, edge.target, edge.source) {
                Some(b) => {
                    let mut terms: Vec<Term> = Vec::new();
                    terms.push(Term(edges.get(a), 1));
                    terms.push(Term(edges.get(b), 1));
                    r.push(Expr { name: ExprName::TwoCycle(a, b), bounds: Bounds::Upper(1), terms });
                    proof {
                        assert(two_cycle_pairs(*g, a + 1) == two_cycle_pairs(*g, a as int).push(
                            (a, b),
                        ));
                        assert(r@.last().terms@ =~= seq![
                            Term(edges.spec_get(a as int), 1i64),
                            Term(edges.spec_get(b as int), 1i64),
                        ]);
                    }
                },
                None => {},
            }
        }
        a = a + 1;
    }
    r
}

/// No two edges of the graph share both endpoints.
pub open spec fn at_most_one_edge_per_pair(g: RouteGraph) -> bool {
    forall|e1: int, e2: int|
        0 <= e1 < g.edge_count() && 0 <= e2 < g.edge_count() && (#[trigger] g.edges@[e1]).source
            == (#[trigger] g.edges@[e2]).source && g.edges@[e1].target == g.edges@[e2].target
            ==> e1 == e2
}

/// Whatever the lowest-match scan finds is a genuine match below the
/// scanned prefix.
proof fn lemma_find_edge_matches(g: RouteGraph, s: int, t: int, k: int)
    requires
        g.edge_count() <= usize::MAX,
        k <= g.edge_count(),
        find_edge_between(g, s, t, k) is Some,
    ensures
        find_edge_between(g, s, t, k)->0 < k,
        g.edges@[find_edge_between(g, s, t, k)->0 as int].source == s,
        g.edges@[find_edge_between(g, s, t, k)->0 as int].target == t,
    decreases k,
{
    if k <= 0 {
        assert(find_edge_between(g, s, t, k) is None);
    } else if find_edge_between(g, s, t, k - 1) is Some {
        lemma_find_edge_matches(g, s, t, k - 1);
        assert(find_edge_between(g, s, t, k) == find_edge_between(g, s, t, k - 1));
    } else {
        assert(g.edges@[k - 1].source == s && g.edges@[k - 1].target == t);
        assert(find_edge_between(g, s, t, k) == Some((k - 1) as usize));
    }
}

/// When the graph holds at most one edge per ordered endpoint pair, the
/// lowest-match scan finds exactly the one matching edge.
proof fn lemma_find_edge_unique(g: RouteGraph, j: int, k: int)
    requires
        g.edge_count() <= usize::MAX,
        at_most_one_edge_per_pair(g),
        0 <= j < k <= g.edge_count(),
    ensures
        find_edge_between(g, g.edges@[j].source as int, g.edges@[j].target as int, k) == Some(
            j as usize,
        ),
    decreases k,
{
    let s = g.edges@[j].source as int;
    let t = g.edges@[j].target as int;
    if find_edge_between(g, s, t, k) is Some {
        lemma_find_edge_matches(g, s, t, k);
        let f = find_edge_between(g, s, t, k)->0 as int;
        assert(g.edges@[f].source == g.edges@[j].source && g.edges@[f].target
            == g.edges@[j].target);
        assert(f == j);
    } else {
        if k - 1 == j {
            assert(find_edge_between(g, s, t, k) is Some);
        } else {
            lemma_find_edge_unique(g, j, k - 1);
            assert(find_edge_between(g, s, t, k) is Some);
        }
    }
}

/// An opposite-direction edge pair oriented source-below-target is listed
/// among the two-cycle pairs.
proof fn lemma_two_cycle_pair_covered(g: RouteGraph, i: int, j: int, k: int)
    requires
        g.wf(),
        g.edge_count() <= usize::MAX,
        at_most_one_edge_per_pair(g),
        0 <= i < k <= g.edge_count(),
        0 <= j < g.edge_count(),
        g.edges@[i].source == g.edges@[j].target,
        g.edges@[i].target == g.edges@[j].source,
        g.edges@[i].source < g.edges@[i].target,
    ensures
        two_cycle_pairs(g, k).contains((i as usize, j as usize)),
    decreases k,
{
    if k - 1 == i {
        lemma_find_edge_unique(g, j, g.edge_count());
        assert(find_edge_between(
            g,
            g.edges@[i].target as int,
            g.edges@[i].source as int,
            g.edge_count(),
        ) == Some(j as usize));
        let pairs = two_cycle_pairs(g, k);
        assert(pairs == two_cycle_pairs(g, k - 1).push((i as usize, j as usize)));
        assert(pairs[pairs.len() - 1] == (i as usize, j as usize));
    } else {
        lemma_two_cycle_pair_covered(g, i, j, k - 1);
        let rest = two_cycle_pairs(g, k - 1);
        let p = choose|p: int| 0 <= p < rest.len() && rest[p] == (i as usize, j as usize);
        assert(two_cycle_pairs(g, k)[p] == (i as usize, j as usize));
    }
}

/// An assignment that satisfies the opposite-pair rows never selects both
/// edges of a two-cycle: for any pair of mutually opposite edges of a
/// graph without parallel duplicates, a feasible integral solution sets at
/// most one of their decision variables to one.
pub proof fn lemma_no_two_cycle_selected(
    g: RouteGraph,
    refs: VarRefs,
    rows: Seq<Expr>,
    a: Map<int, int>,
    i: int,
    j: int,
)
    requires
        g.wf(),
        g.edge_count() <= usize::MAX,
        refs.wf(),
        refs.len == g.edge_count(),
        at_most_one_edge_per_pair(g),
        0 <= i < g.edge_count(),
        0 <= j < g.edge_count(),
        g.edges@[i].source == g.edges@[j].target,
        g.edges@[i].target == g.edges@[j].source,
        g.edges@[i].source != g.edges@[i].target,
        rows.len() == two_cycle_pairs(g, g.edge_count()).len(),
        forall|p: int|
            0 <= p < rows.len() ==> pair_expr_ok(
                refs,
                #[trigger] rows[p],
                two_cycle_pairs(g, g.edge_count())[p],
            ),
        crate::lp::satisfies_all(rows, a),
        a[refs.spec_get(i).0 as int] >= 0,
        a[refs.spec_get(j).0 as int] >= 0,
    ensures
        !(a[refs.spec_get(i).0 as int] == 1 && a[refs.spec_get(j).0 as int] == 1),
{
    let x = if g.edges@[i].source < g.edges@[i].target {
        i
    } else {
        j
    };
    let y = if g.edges@[i].source < g.edges@[i].target {
        j
    } else {
        i
    };
    assert(g.edges@[x].source < g.edges@[x].target);
    lemma_two_cycle_pair_covered(g, x, y, g.edge_count());
    let pairs = two_cycle_pairs(g, g.edge_count());
    let p = choose|p: int| 0 <= p < pairs.len() && pairs[p] == (x as usize, y as usize);
    assert(pair_expr_ok(refs, rows[p], pairs[p]));
    assert(crate::lp::satisfies(rows[p], a));
    let s2 = seq![Term(refs.spec_get(x), 1i64), Term(refs.spec_get(y), 1i64)];
    assert(rows[p].terms@ == s2);
    let s1 = s2.drop_last();
    assert(s1 =~= seq![Term(refs.spec_get(x), 1i64)]);
    assert(s1.drop_last() =~= Seq::<Term>::empty());
    assert(crate::lp::sum_terms(Seq::<Term>::empty(), a) == 0);
    assert(crate::lp::sum_terms(s1, a) == 0 + 1i64 * a[refs.spec_get(x).0 as int]);
    assert(crate::lp::sum_terms(s2, a) == crate::lp::sum_terms(s1, a) + 1i64 * a[refs.spec_get(
        y,
    ).0 as int]);
    assert(a[refs.spec_get(x).0 as int] + a[refs.spec_get(y).0 as int] <= 1);
}

/// The three-cycle triples among pairs of consecutive edges below `tk` and
/// `sk`: a source edge `s` into a node, a target edge `t` out of it with
/// both outer endpoints above the shared node, and the lowest reverse edge
/// closing the triangle.
pub open spec fn three_cycle_inner(g: RouteGraph, s: int, tk: int) -> Seq<(usize, usize, usize)>
    decreases tk,
{
    if tk <= 0 {
        Seq::empty()
    } else {
        let rest = three_cycle_inner(g, s, tk - 1);
        let t = tk - 1;
        let mid = g.edges@[s].target;
        let back = find_edge_between(
            g,
            g.edges@[t].target as int,
            g.edges@[s].source as int,
            g.edge_count(),
        );
        if g.edges@[t].source == mid && (mid as int) < g.edges@[s].source && (mid as int)
            < g.edges@[t].target && back is Some {
            rest.push((s as usize, t as usize, back->0))
        } else {
            rest
        }
    }
}

/// All three-cycle triples among the first `sk` source edges.
pub open spec fn three_cycle_triples(g: RouteGraph, sk: int) -> Seq<(usize, usize, usize)>
    decreases sk,
{
    if sk <= 0 {
        Seq::empty()
    } else {
        three_cycle_triples(g, sk - 1) + three_cycle_inner(g, sk - 1, g.edge_count())
    }
}

/// The row a three-cycle triple gives rise to: at most two of its three
/// edges selected.
pub open spec fn triple_expr_ok(refs: VarRefs, x: Expr, tr: (usize, usize, usize)) -> bool {
    &&& x.name == ExprName::ThreeCycle(tr.0, tr.1, tr.2)
    &&& x.bounds == Bounds::Upper(2)
    &&& x.terms@ == seq![
        Term(refs.spec_get(tr.0 as int), 1i64),
        Term(refs.spec_get(tr.1 as int), 1i64),
        Term(refs.spec_get(tr.2 as int), 1i64),
    ]
}

/// One row per directed three-cycle whose apex node has the lowest
/// identifier of the three: at most two of its edges may be selected.
/// Optional strengthening; not part of the active encoding.
pub fn no_3_cycles(g: &RouteGraph, edges: VarRefs) -> (r: Vec<Expr>)
    requires
        g.wf(),
        edges.wf(),
        edges.len == g.edge_count(),
    ensures
        r@.len() == three_cycle_triples(*g, g.edge_count()).len(),
        forall|p: int|
            0 <= p < r@.len() ==> triple_expr_ok(
                edges,
                #[trigger] r@[p],
                three_cycle_triples(*g, g.edge_count())[p],
            ),
{
    let m = g.edges.len();
    let mut r: Vec<Expr> = Vec::new();
    let mut s: usize = 0;
    while s < m
        invariant
            s <= m,
            g.wf(),
            m == g.edge_count(),
            edges.wf(),
            edges.len == m,
            r@.len() == three_cycle_triples(*g, s as int).len(),
            forall|p: int|
                0 <= p < r@.len() ==> triple_expr_ok(
                    edges,
                    #[trigger] r@[p],
                    three_cycle_triples(*g, s as int)[p],
                ),
        decreases m - s,
    {
        let mid = g.edges[s].target;
        let sout = g.edges[s].source;
        let mut t: usize = 0;
        while t < m
            invariant
                t <= m,
                s < m,
                g.wf(),
                m == g.edge_count(),
                edges.wf(),
                edges.len == m,
                mid == g.edges@[s as int].target,
                sout == g.edges@[s as int].source,
                r@.len() == (three_cycle_triples(*g, s as int) + three_cycle_inner(
                    *g,
                    s as int,
                    t as int,
                )).len(),
                forall|p: int|
                    0 <= p < r@.len() ==> triple_expr_ok(
                        edges,
                        #[trigger] r@[p],
                        (three_cycle_triples(*g, s as int) + three_cycle_inner(
                            *g,
                            s as int,
                            t as int,
                        ))[p],
                    ),
            decreases m - t,
        {
            let edge_t = &g.edges[t];
            if edge_t.source == mid && mid < sout && mid < edge_t.target {
                match find_edge(g, edge_t.target, sout) {
                    Some(back) => {
                        let mut terms: Vec<Term> = Vec::new();
                        terms.push(Term(edges.get(s), 1));
                        terms.push(Term(edges.get(t), 1));
                        terms.push(Term(edges.get(back), 1));
                        r.push(
                            Expr {
                                name: ExprName::ThreeCycle(s, t, back),
                                bounds: Bounds::Upper(2),
                                terms,
                            },
                        );
                        proof {
                            assert(three_cycle_inner(*g, s as int, t + 1) == three_cycle_inner(
                                *g,
                                s as int,
                                t as int,
                            ).push((s, t, back)));
                            assert(r@.last().terms@ =~= seq![
                                Term(edges.spec_get(s as int), 1i64),
                                Term(edges.spec_get(t as int), 1i64),
                                Term(edges.spec_get(back as int), 1i64),
                            ]);
                        }
                    },
                    None => {},
                }
            }
            t = t + 1;
        }
        proof {
            assert(three_cycle_triples(*g, s + 1) == three_cycle_triples(*g, s as int)
                + three_cycle_inner(*g, s as int, m as int));
        }
        s = s + 1;
    }
    r
}

/// One term per edge among the first `k` whose target yields bits, scaled
/// by that yield, ascending by edge identifier.
pub open spec fn bit_terms(g: RouteGraph, refs: VarRefs, k: int) -> Seq<Term>
    decreases k,
{
    if k <= 0 {
        Seq::empty()
    } else {
        let rest = bit_terms(g, refs, k - 1);
        let b = g.nodes@[g.edges@[k - 1].target as int].bits;
        if b != 0 {
            rest.push(Term(refs.spec_get(k - 1), b))
        } else {
            rest
        }
    }
}

/// The single global bit-resource row: the bits collected over all entered
/// nodes must reach the caller's threshold.  Necessary for feasibility;
/// connectivity is restored lazily by the cut generator.
pub fn required_bits_expr(g: &RouteGraph, edges: VarRefs, required_bits: i64) -> (r: Expr)
    requires
        g.wf(),
        edges.wf(),
        edges.len == g.edge_count(),
    ensures
        r.name == ExprName::TotalBits,
        r.bounds == Bounds::Lower(required_bits),
        r.terms@ == bit_terms(*g, edges, g.edge_count()),
{
    let m = g.edges.len();
    let mut terms: Vec<Term> = Vec::new();
    let mut e: usize = 0;
    while e < m
        invariant
            e <= m,
            g.wf(),
            m == g.edge_count(),
            edges.wf(),
            edges.len == m,
            terms@ == bit_terms(*g, edges, e as int),
        decreases m - e,
    {
        let b = g.nodes[g.edges[e].target].bits;
        if b != 0 {
            terms.push(Term(edges.get(e), b));
        }
        e = e + 1;
    }
    Expr { name: ExprName::TotalBits, bounds: Bounds::Lower(required_bits), terms }
}

/// One unit term per edge among the first `k` whose target is tagged
/// one-of, ascending by edge identifier.
pub open spec fn oneof_terms(g: RouteGraph, refs: VarRefs, k: int) -> Seq<Term>
    decreases k,
{
    if k <= 0 {
        Seq::empty()
    } else {
        let rest = oneof_terms(g, refs, k - 1);
        if g.nodes@[g.edges@[k - 1].target as int].cost == Some(Cost::Oneof) {
            rest.push(Term(refs.spec_get(k - 1), 1i64))
        } else {
            rest
        }
    }
}

/// The single one-of row: at most one of the one-of-tagged nodes may be
/// entered.
pub fn oneof_expr(g: &RouteGraph, edges: VarRefs) -> (r: Expr)
    requires
        g.wf(),
        edges.wf(),
        edges.len == g.edge_count(),
    ensures
        r.name == ExprName::Oneof,
        r.bounds == Bounds::Upper(1),
        r.terms@ == oneof_terms(*g, edges, g.edge_count()),
{
    let m = g.edges.len();
    let mut terms: Vec<Term> = Vec::new();
    let mut e: usize = 0;
    while e < m
        invariant
            e <= m,
            g.wf(),
            m == g.edge_count(),
            edges.wf(),
            edges.len == m,
            terms@ == oneof_terms(*g, edges, e as int),
        decreases m - e,
    {
        let is_oneof = match g.nodes[g.edges[e].target].cost {
            Some(Cost::Oneof) => true,
            _ => false,
        };
        if is_oneof {
            terms.push(Term(edges.get(e), 1));
        }
        e = e + 1;
    }
    Expr { name: ExprName::Oneof, bounds: Bounds::Upper(1), terms }
}

/// One term per edge among the first `k` whose target has a net key
/// effect, scaled by that effect, ascending by edge identifier.
pub open spec fn key_terms(g: RouteGraph, refs: VarRefs, k: int) -> Seq<Term>
    decreases k,
{
    if k <= 0 {
        Seq::empty()
    } else {
        let rest = key_terms(g, refs, k - 1);
        let c = g.nodes@[g.edges@[k - 1].target as int].spec_keys_minus_lock();
        if c != 0 {
            rest.push(Term(refs.spec_get(k - 1), c as i64))
        } else {
            rest
        }
    }
}

/// The single global key row: keys collected minus keys consumed by locks
/// stays non-negative.  A necessary condition only — it does not order key
/// pickups before the locks that spend them; full temporal ordering is a
/// known gap of this formulation, kept as it stands.
pub fn total_keys_expr(g: &RouteGraph, edges: VarRefs) -> (r: Expr)
    requires
        g.wf(),
        edges.wf(),
        edges.len == g.edge_count(),
    ensures
        r.name == ExprName::TotalKeys,
        r.bounds == Bounds::Lower(0),
        r.terms@ == key_terms(*g, edges, g.edge_count()),
{
    let m = g.edges.len();
    let mut terms: Vec<Term> = Vec::new();
    let mut e: usize = 0;
    while e < m
        invariant
            e <= m,
            g.wf(),
            m == g.edge_count(),
            edges.wf(),
            edges.len == m,
            terms@ == key_terms(*g, edges, e as int),
        decreases m - e,
    {
        let c = g.nodes[g.edges[e].target].keys_minus_lock();
        if c != 0 {
            terms.push(Term(edges.get(e), c));
        }
        e = e + 1;
    }
    Expr { name: ExprName::TotalKeys, bounds: Bounds::Lower(0), terms }
}

/// Sum of the key yields of the first `k` nodes.
pub open spec fn total_keys(g: RouteGraph, k: int) -> int
    decreases k,
{
    if k <= 0 {
        0
    } else {
        total_keys(g, k - 1) + g.nodes@[k - 1].keys
    }
}

/// The whole graph's key yield stays within `k` times the per-node bound.
proof fn lemma_total_keys_bound(g: RouteGraph, k: int)
    requires
        forall|i: int| 0 <= i < g.node_count() ==> (#[trigger] g.nodes@[i]).wf(),
        0 <= k <= g.node_count(),
    ensures
        -(k * MAX_YIELD) <= total_keys(g, k) <= k * MAX_YIELD,
    decreases k,
{
    if k > 0 {
        lemma_total_keys_bound(g, k - 1);
        assert(g.nodes@[k - 1].wf());
        assert((k - 1) * MAX_YIELD + MAX_YIELD == k * MAX_YIELD) by (nonlinear_arith);
    }
}

/// One key-ordering row per edge, tying the key potentials of its
/// endpoints: when the edge is selected, the target's potential may exceed
/// the source's by at most the target's net key effect.  Uses the
/// big-coefficient relaxation over the whole graph's key total.  Optional
/// strengthening; not part of the active encoding.
pub fn order_keys_exprs(g: &RouteGraph, edges: VarRefs, keys: VarRefs) -> (r: Vec<Expr>)
    requires
        g.wf(),
        edges.wf(),
        edges.len == g.edge_count(),
        keys.wf(),
        keys.len == g.node_count(),
    ensures
        r@.len() == g.edge_count(),
        forall|e: int|
            0 <= e < g.edge_count() ==> {
                let tgt = g.edges@[e].target as int;
                let src = g.edges@[e].source as int;
                &&& (#[trigger] r@[e]).name == ExprName::KeyOrder(e as usize)
                &&& r@[e].bounds == Bounds::Upper(
                    (total_keys(*g, g.node_count()) + g.nodes@[tgt].spec_keys_minus_lock()) as i64,
                )
                &&& r@[e].terms@ == seq![
                    Term(keys.spec_get(tgt), 1i64),
                    Term(keys.spec_get(src), -1i64),
                    Term(edges.spec_get(e), total_keys(*g, g.node_count()) as i64),
                ]
            },
{
    let n = g.nodes.len();
    let m = g.edges.len();
    let mut total: i64 = 0;
    let mut i: usize = 0;
    while i < n
        invariant
            i <= n,
            g.wf(),
            n == g.node_count(),
            total == total_keys(*g, i as int),
            -((i as int) * MAX_YIELD) <= total <= (i as int) * MAX_YIELD,
        decreases n - i,
    {
        proof {
            lemma_total_keys_bound(*g, i as int);
            lemma_total_keys_bound(*g, i + 1);
            assert(g.nodes@[i as int].wf());
        }
        total = total + g.nodes[i].keys;
        i = i + 1;
    }
    let mut r: Vec<Expr> = Vec::new();
    let mut e: usize = 0;
    while e < m
        invariant
            e <= m,
            g.wf(),
            n == g.node_count(),
            m == g.edge_count(),
            edges.wf(),
            edges.len == m,
            keys.wf(),
            keys.len == n,
            total == total_keys(*g, n as int),
            -((n as int) * MAX_YIELD) <= total <= (n as int) * MAX_YIELD,
            r@.len() == e,
            forall|j: int|
                0 <= j < e ==> {
                    let tgt = g.edges@[j].target as int;
                    let src = g.edges@[j].source as int;
                    &&& (#[trigger] r@[j]).name == ExprName::KeyOrder(j as usize)
                    &&& r@[j].bounds == Bounds::Upper(
                        (total_keys(*g, n as int) + g.nodes@[tgt].spec_keys_minus_lock()) as i64,
                    )
                    &&& r@[j].terms@ == seq![
                        Term(keys.spec_get(tgt), 1i64),
                        Term(keys.spec_get(src), -1i64),
                        Term(edges.spec_get(j), total_keys(*g, n as int) as i64),
                    ]
                },
        decreases m - e,
    {
        let edge = &g.edges[e];
        proof {
            assert(g.nodes@[edge.target as int].wf());
        }
        let mut terms: Vec<Term> = Vec::new();
        terms.push(Term(keys.get(edge.target), 1));
        terms.push(Term(keys.get(edge.source), -1));
        terms.push(Term(edges.get(e), total));
        let kml = g.nodes[edge.target].keys_minus_lock();
        r.push(
            Expr { name: ExprName::KeyOrder(e), bounds: Bounds::Upper(total + kml), terms },
        );
        proof {
            assert(r@.last().terms@ =~= seq![
                Term(keys.spec_get(g.edges@[e as int].target as int), 1i64),
                Term(keys.spec_get(g.edges@[e as int].source as int), -1i64),
                Term(edges.spec_get(e as int), total_keys(*g, n as int) as i64),
            ]);
        }
        e = e + 1;
    }
    r
}

} // verus!
