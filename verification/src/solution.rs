//! Checking a claimed integral solution: the selected edges must form one
//! simple path from the entry to the goal and collect enough bits on the
//! way.  The checker is exact in both directions — it accepts an
//! assignment precisely when such a route exists — so a solve can never
//! end in a silent partial result: either the assignment is a feasible
//! route, reported with its exact bit and time totals, or it is rejected.

use vstd::prelude::*;
use crate::cut::count_unvisited;
use crate::graph::RouteGraph;
use crate::graph::MAX_FRAMES;
use crate::graph::MAX_YIELD;

verus! {

/// The node a route stands on before taking its `k`-th edge: the source of
/// that edge, or the goal once every edge is taken.
pub open spec fn route_node(g: RouteGraph, es: Seq<int>, last: int, k: int) -> int {
    if k < es.len() {
        g.edges@[es[k]].source as int
    } else {
        last
    }
}

/// A walked edge chain as a mathematical edge sequence.
pub open spec fn chain_ints(chain: Seq<usize>) -> Seq<int> {
    chain.map_values(|x: usize| x as int)
}

/// The selected edge set `sel` forms a single simple path from `first` to
/// `last`, walked in the order `es`: every selected edge is walked exactly
/// once, consecutive edges share their node, and no node is stood on
/// twice.
pub open spec fn route_of(
    g: RouteGraph,
    sel: Seq<bool>,
    first: int,
    last: int,
    es: Seq<int>,
) -> bool {
    &&& forall|k: int| 0 <= k < es.len() ==> 0 <= #[trigger] es[k] < g.edge_count()
    &&& forall|k1: int, k2: int| 0 <= k1 < k2 < es.len() ==> es[k1] != es[k2]
    &&& forall|e: int| 0 <= e < g.edge_count() ==> (sel[e] <==> #[trigger] es.contains(e))
    &&& route_node(g, es, last, 0) == first
    &&& forall|k: int|
        0 <= k < es.len() ==> g.edges@[#[trigger] es[k]].target == route_node(g, es, last, k + 1)
    &&& forall|k1: int, k2: int|
        0 <= k1 < k2 <= es.len() ==> route_node(g, es, last, k1) != route_node(g, es, last, k2)
}

/// Bits collected over the first `k` edges of a route: the yield of each
/// entered node.
pub open spec fn route_bits(g: RouteGraph, es: Seq<int>, k: int) -> int
    decreases k,
{
    if k <= 0 {
        0
    } else {
        route_bits(g, es, k - 1) + g.nodes@[g.edges@[es[k - 1]].target as int].bits
    }
}

/// Time spent over the first `k` edges of a route: each edge's traversal
/// frames plus the dwell time of the node it enters — exactly the
/// objective weight the encoder gives those edges.
pub open spec fn route_time(g: RouteGraph, es: Seq<int>, k: int) -> int
    decreases k,
{
    if k <= 0 {
        0
    } else {
        route_time(g, es, k - 1) + crate::encode::edge_objective(g, es[k - 1])
    }
}

/// The route totals depend only on the edges actually walked.
proof fn lemma_route_sums_agree(g: RouteGraph, es1: Seq<int>, es2: Seq<int>, k: int)
    requires
        forall|j: int| 0 <= j < k ==> es1[j] == es2[j],
    ensures
        route_bits(g, es1, k) == route_bits(g, es2, k),
        route_time(g, es1, k) == route_time(g, es2, k),
    decreases k,
{
    if k > 0 {
        lemma_route_sums_agree(g, es1, es2, k - 1);
    }
}

/// The chain-shaped facts the walk maintains: selected, distinct,
/// connected edges from the entry, standing on `cur`, with no node stood
/// on twice.
pub open spec fn walk_state(
    g: RouteGraph,
    sel: Seq<bool>,
    first: int,
    chain: Seq<usize>,
    cur: int,
) -> bool {
    &&& forall|k: int| 0 <= k < chain.len() ==> (#[trigger] chain[k]) < g.edge_count()
    &&& forall|k: int| 0 <= k < chain.len() ==> sel[#[trigger] chain[k] as int]
    &&& forall|k1: int, k2: int| 0 <= k1 < k2 < chain.len() ==> chain[k1] != chain[k2]
    &&& cnode(g, chain, cur, 0) == first
    &&& forall|k: int|
        0 <= k < chain.len() ==> g.edges@[#[trigger] chain[k] as int].target == cnode(
            g,
            chain,
            cur,
            k + 1,
        )
    &&& forall|k1: int, k2: int|
        0 <= k1 < k2 <= chain.len() ==> cnode(g, chain, cur, k1) != cnode(g, chain, cur, k2)
}

/// The node a partial walk stands on before its `k`-th edge, with the
/// current node in place of the goal.
pub open spec fn cnode(g: RouteGraph, chain: Seq<usize>, cur: int, k: int) -> int {
    if k < chain.len() {
        g.edges@[chain[k] as int].source as int
    } else {
        cur
    }
}

/// Any route is forced to follow the walk: a walk prefix agrees edge for
/// edge with every route of the same selection, and stands on the same
/// node.
#[verifier::rlimit(60)]
proof fn lemma_chain_is_prefix(
    g: RouteGraph,
    sel: Seq<bool>,
    first: int,
    last: int,
    chain: Seq<usize>,
    cur: int,
    es: Seq<int>,
    k: int,
)
    requires
        walk_state(g, sel, first, chain, cur),
        route_of(g, sel, first, last, es),
        0 <= k <= chain.len(),
    ensures
        k <= es.len(),
        forall|j: int| 0 <= j < k ==> chain[j] as int == es[j],
        forall|j: int| 0 <= j <= k ==> cnode(g, chain, cur, j) == route_node(g, es, last, j),
    decreases k,
{
    if k == 0 {
        assert(cnode(g, chain, cur, 0) == first);
        assert(route_node(g, es, last, 0) == first);
    } else {
        lemma_chain_is_prefix(g, sel, first, last, chain, cur, es, k - 1);
        let c = chain[k - 1] as int;
        assert(sel[c]);
        assert(es.contains(c));
        let p = choose|p: int| 0 <= p < es.len() && es[p] == c;
        assert(route_node(g, es, last, p) == g.edges@[c].source as int);
        assert(cnode(g, chain, cur, k - 1) == g.edges@[c].source as int);
        if k - 1 >= es.len() {
            assert(route_node(g, es, last, k - 1) == last);
            assert(route_node(g, es, last, p) == route_node(g, es, last, es.len() as int));
            assert(false);
        }
        assert(es.contains(es[k - 1]));
        assert(sel[es[k - 1]]);
        assert(route_node(g, es, last, k - 1) == g.edges@[es[k - 1]].source as int);
        assert(route_node(g, es, last, p) == route_node(g, es, last, k - 1));
        assert(p == k - 1);
        assert(chain[k - 1] as int == es[k - 1]);
        assert(g.edges@[es[k - 1]].target == route_node(g, es, last, k));
        assert(g.edges@[chain[k - 1] as int].target == cnode(g, chain, cur, k));
    }
}

/// Along a route, a node has at most one selected edge leaving it.
proof fn lemma_route_functional(
    g: RouteGraph,
    sel: Seq<bool>,
    first: int,
    last: int,
    e1: int,
    e2: int,
    es: Seq<int>,
)
    requires
        route_of(g, sel, first, last, es),
        0 <= e1 < g.edge_count(),
        0 <= e2 < g.edge_count(),
        sel[e1],
        sel[e2],
        g.edges@[e1].source == g.edges@[e2].source,
    ensures
        e1 == e2,
{
    assert(es.contains(e1));
    assert(es.contains(e2));
    let p1 = choose|p: int| 0 <= p < es.len() && es[p] == e1;
    let p2 = choose|p: int| 0 <= p < es.len() && es[p] == e2;
    if e1 != e2 {
        assert(p1 != p2);
        assert(route_node(g, es, last, p1) == route_node(g, es, last, p2));
        assert(false);
    }
}

/// Along a route, no selected edge leaves the goal.
proof fn lemma_no_goal_out(
    g: RouteGraph,
    sel: Seq<bool>,
    first: int,
    last: int,
    e: int,
    es: Seq<int>,
)
    requires
        route_of(g, sel, first, last, es),
        0 <= e < g.edge_count(),
        sel[e],
    ensures
        g.edges@[e].source != last,
{
    assert(es.contains(e));
    let p = choose|p: int| 0 <= p < es.len() && es[p] == e;
    if g.edges@[e].source == last {
        assert(route_node(g, es, last, p) == last);
        assert(route_node(g, es, last, es.len() as int) == last);
        assert(false);
    }
}

/// A complete walk — standing on the goal with the goal's out-edges clear
/// of the selection — is the one route of its selection.
proof fn lemma_route_is_walk(
    g: RouteGraph,
    sel: Seq<bool>,
    first: int,
    last: int,
    chain: Seq<usize>,
    es: Seq<int>,
)
    requires
        walk_state(g, sel, first, chain, last),
        route_of(g, sel, first, last, es),
        forall|e: int|
            0 <= e < g.edge_count() && sel[e] ==> (#[trigger] g.edges@[e]).source != last,
    ensures
        es =~= chain_ints(chain),
{
    lemma_chain_is_prefix(g, sel, first, last, chain, last, es, chain.len() as int);
    if es.len() > chain.len() {
        let p = chain.len() as int;
        assert(route_node(g, es, last, p) == cnode(g, chain, last, p));
        assert(route_node(g, es, last, p) == last);
        assert(es.contains(es[p]));
        assert(sel[es[p]]);
        assert(g.edges@[es[p]].source == last);
        assert(false);
    }
    assert(es.len() == chain.len());
    assert forall|j: int| 0 <= j < es.len() implies es[j] == chain_ints(chain)[j] by {
        assert(chain[j] as int == es[j]);
    }
}

/// Check a claimed integral selection: accepted exactly when the selected
/// edges form one simple path from `first` to `last` collecting at least
/// `required_bits` bits.  On acceptance the walked chain and its exact
/// totals are returned.
#[verifier::rlimit(100)]
pub fn check_solution(
    g: &RouteGraph,
    sel: &Vec<bool>,
    first: usize,
    last: usize,
    required_bits: i64,
) -> (r: Option<RouteSolution>)
    requires
        g.wf(),
        sel@.len() == g.edge_count(),
        first < g.node_count(),
        last < g.node_count(),
    ensures
        r is Some <==> exists|es: Seq<int>|
            route_of(*g, sel@, first as int, last as int, es) && route_bits(*g, es, es.len() as int)
                >= required_bits,
        r matches Some(s) ==> {
            &&& route_of(*g, sel@, first as int, last as int, s.chain())
            &&& s.total_bits == route_bits(*g, s.chain(), s.chain().len() as int)
            &&& s.total_time == route_time(*g, s.chain(), s.chain().len() as int)
            &&& s.total_bits >= required_bits
        },
{
    let n = g.nodes.len();
    let m = g.edges.len();

    // The unique selected out-edge of each node; two selected out-edges at
    // one node rule out any simple path.
    let mut next: Vec<Option<usize>> = Vec::new();
    let mut i: usize = 0;
    while i < n
        invariant
            i <= n,
            next@.len() == i,
            forall|j: int| 0 <= j < i ==> (#[trigger] next@[j]) is None,
        decreases n - i,
    {
        next.push(None);
        i = i + 1;
    }
    let mut e: usize = 0;
    while e < m
        invariant
            e <= m,
            g.wf(),
            n == g.node_count(),
            m == g.edge_count(),
            sel@.len() == m,
            first < n,
            last < n,
            next@.len() == n,
            forall|j: int|
                0 <= j < n ==> (match #[trigger] next@[j] {
                    Some(x) => x < e && sel@[x as int] && g.edges@[x as int].source == j,
                    None => forall|y: int|
                        0 <= y < e && sel@[y] ==> (#[trigger] g.edges@[y]).source != j,
                }),
        decreases m - e,
    {
        if sel[e] {
            let src = g.edges[e].source;
            match next[src] {
                Some(prev) => {
                    proof {
                        assert forall|es: Seq<int>|
                            !route_of(*g, sel@, first as int, last as int, es) by {
                            if route_of(*g, sel@, first as int, last as int, es) {
                                lemma_route_functional(
                                    *g,
                                    sel@,
                                    first as int,
                                    last as int,
                                    prev as int,
                                    e as int,
                                    es,
                                );
                            }
                        }
                    }
                    return None;
                },
                None => {
                    next.set(src, Some(e));
                },
            }
        }
        e = e + 1;
    }

    // Walk from the entry along the unique selected out-edges, marking
    // every node stood on; any dead end, revisit or leftover selected edge
    // rules the selection out.
    let mut visited: Vec<bool> = Vec::new();
    let mut i: usize = 0;
    while i < n
        invariant
            i <= n,
            visited@.len() == i,
            forall|j: int| 0 <= j < i ==> !visited@[j],
        decreases n - i,
    {
        visited.push(false);
        i = i + 1;
    }
    let mut walked: Vec<bool> = Vec::new();
    let mut e: usize = 0;
    while e < m
        invariant
            e <= m,
            walked@.len() == e,
            forall|j: int| 0 <= j < e ==> !walked@[j],
        decreases m - e,
    {
        walked.push(false);
        e = e + 1;
    }
    let ghost blank = visited@;
    visited.set(first, true);
    proof {
        crate::cut::lemma_count_full(blank, n as int);
        crate::cut::lemma_count_mark_only(blank, first as int, n as int);
    }

    let mut chain: Vec<usize> = Vec::new();
    let mut bits: i64 = 0;
    let mut time: u64 = 0;
    let mut cur: usize = first;
    proof {
        let ch0 = chain@;
        assert forall|x: int| 0 <= x < n implies ((visited@[x]) <==> exists|k: int|
            0 <= k <= ch0.len() && cnode(*g, ch0, first as int, k) == x) by {
            if x == first {
                assert(cnode(*g, ch0, first as int, 0) == x);
            } else if exists|k: int| 0 <= k <= ch0.len() && cnode(*g, ch0, first as int, k) == x {
                let k = choose|k: int| 0 <= k <= ch0.len() && cnode(*g, ch0, first as int, k) == x;
                assert(k == 0);
            }
        }
    }

    loop
        invariant
            g.wf(),
            n == g.node_count(),
            m == g.edge_count(),
            sel@.len() == m,
            first < n,
            last < n,
            cur < n,
            next@.len() == n,
            visited@.len() == n,
            walked@.len() == m,
            forall|j: int|
                0 <= j < n ==> (match #[trigger] next@[j] {
                    Some(x) => x < m && sel@[x as int] && g.edges@[x as int].source == j,
                    None => forall|y: int|
                        0 <= y < m && sel@[y] ==> (#[trigger] g.edges@[y]).source != j,
                }),
            walk_state(*g, sel@, first as int, chain@, cur as int),
            forall|e: int|
                0 <= e < m ==> ((#[trigger] walked@[e]) <==> chain_ints(chain@).contains(e)),
            forall|x: int|
                0 <= x < n ==> ((#[trigger] visited@[x]) <==> exists|k: int|
                    0 <= k <= chain@.len() && cnode(*g, chain@, cur as int, k) == x),
            count_unvisited(visited@, n as int) == n - 1 - chain@.len(),
            bits == route_bits(*g, chain_ints(chain@), chain@.len() as int),
            time == route_time(*g, chain_ints(chain@), chain@.len() as int),
            0 <= bits <= (chain@.len() as int) * MAX_YIELD,
            time <= (chain@.len() as int) * (7 * MAX_FRAMES),
        ensures
            cur == last,
            cur < n,
            next@.len() == n,
            walked@.len() == m,
            forall|j: int|
                0 <= j < n ==> (match #[trigger] next@[j] {
                    Some(x) => x < m && sel@[x as int] && g.edges@[x as int].source == j,
                    None => forall|y: int|
                        0 <= y < m && sel@[y] ==> (#[trigger] g.edges@[y]).source != j,
                }),
            walk_state(*g, sel@, first as int, chain@, cur as int),
            forall|e: int|
                0 <= e < m ==> ((#[trigger] walked@[e]) <==> chain_ints(chain@).contains(e)),
            bits == route_bits(*g, chain_ints(chain@), chain@.len() as int),
            time == route_time(*g, chain_ints(chain@), chain@.len() as int),
        decreases count_unvisited(visited@, n as int),
    {
        proof {
            crate::cut::lemma_count_nonneg(visited@, n as int);
        }
        if cur == last {
            break;
        }
        let step = next[cur];
        match step {
            Some(e) => {
                let t = g.edges[e].target;
                if visited[t] {
                    proof {
                        assert forall|es: Seq<int>|
                            !route_of(*g, sel@, first as int, last as int, es) by {
                            lemma_revisit_no_route(
                                *g,
                                sel@,
                                first as int,
                                last as int,
                                chain@,
                                cur as int,
                                e as int,
                                t as int,
                                es,
                            );
                        }
                    }
                    return None;
                }
                walk_take(
                    g,
                    sel,
                    &mut visited,
                    &mut walked,
                    &mut chain,
                    &mut bits,
                    &mut time,
                    &mut cur,
                    e,
                    first,
                );
                proof {
                    crate::cut::lemma_count_nonneg(visited@, n as int);
                }
            },
            None => {
                proof {
                    assert forall|es: Seq<int>|
                        !route_of(*g, sel@, first as int, last as int, es) by {
                        lemma_stuck_no_route(
                            *g,
                            sel@,
                            first as int,
                            last as int,
                            chain@,
                            cur as int,
                            es,
                        );
                    }
                }
                return None;
            },
        }
    }
    // Arrived at the goal: the goal must have no selected out-edge, no
    // selected edge may be left unwalked, and the bits must suffice.
    match next[cur] {
        Some(e) => {
            proof {
                assert forall|es: Seq<int>|
                    !route_of(*g, sel@, first as int, last as int, es) by {
                    if route_of(*g, sel@, first as int, last as int, es) {
                        lemma_no_goal_out(*g, sel@, first as int, last as int, e as int, es);
                    }
                }
            }
            return None;
        },
        None => {},
    }
    assert(forall|e: int|
        0 <= e < m && sel@[e] ==> (#[trigger] g.edges@[e]).source != last);
    let ghost final_chain = chain@;
    let mut e: usize = 0;
    while e < m
        invariant
            e <= m,
            g.wf(),
            n == g.node_count(),
            m == g.edge_count(),
            sel@.len() == m,
            first < n,
            last < n,
            walked@.len() == m,
            chain@ == final_chain,
            walk_state(*g, sel@, first as int, final_chain, last as int),
            forall|y: int|
                0 <= y < m && sel@[y] ==> (#[trigger] g.edges@[y]).source != last,
            forall|x: int|
                0 <= x < m ==> ((#[trigger] walked@[x]) <==> chain_ints(final_chain).contains(x)),
            forall|x: int| 0 <= x < e ==> ((#[trigger] sel@[x]) ==> walked@[x]),
        decreases m - e,
    {
        if sel[e] && !walked[e] {
            proof {
                assert forall|es: Seq<int>|
                    !route_of(*g, sel@, first as int, last as int, es) by {
                    if route_of(*g, sel@, first as int, last as int, es) {
                        lemma_route_is_walk(*g, sel@, first as int, last as int, final_chain, es);
                        assert(es.contains(e as int));
                        assert(chain_ints(final_chain).contains(e as int));
                    }
                }
            }
            return None;
        }
        e = e + 1;
    }
    if bits < required_bits {
        proof {
            assert forall|es: Seq<int>|
                !(route_of(*g, sel@, first as int, last as int, es) && route_bits(
                    *g,
                    es,
                    es.len() as int,
                ) >= required_bits) by {
                if route_of(*g, sel@, first as int, last as int, es) {
                    lemma_route_is_walk(*g, sel@, first as int, last as int, final_chain, es);
                    lemma_route_sums_agree(
                        *g,
                        es,
                        chain_ints(final_chain),
                        es.len() as int,
                    );
                }
            }
        }
        return None;
    }
    let r = RouteSolution { edges: chain, total_bits: bits, total_time: time };
    proof {
        // The completed walk is itself a route: every selected edge was
        // walked, so the selection and the chain coincide.
        assert forall|x: int| 0 <= x < m && sel@[x] implies chain_ints(final_chain).contains(
            x,
        ) by {
            assert(walked@[x]);
        }
        lemma_walk_is_route(*g, sel@, first as int, last as int, final_chain);
        assert(r.chain() == chain_ints(final_chain));
    }
    Some(r)
}

/// A route cannot revisit a node the walk already stood on.
proof fn lemma_revisit_no_route(
    g: RouteGraph,
    sel: Seq<bool>,
    first: int,
    last: int,
    chain: Seq<usize>,
    cur: int,
    e: int,
    t: int,
    es: Seq<int>,
)
    requires
        walk_state(g, sel, first, chain, cur),
        cur != last,
        0 <= e < g.edge_count(),
        sel[e],
        g.edges@[e].source == cur,
        g.edges@[e].target == t,
        exists|k: int| 0 <= k <= chain.len() && #[trigger] cnode(g, chain, cur, k) == t,
    ensures
        !route_of(g, sel, first, last, es),
{
    if route_of(g, sel, first, last, es) {
        let ln = chain.len() as int;
        lemma_chain_is_prefix(g, sel, first, last, chain, cur, es, ln);
        assert(route_node(g, es, last, ln) == cur);
        if ln == es.len() {
            assert(route_node(g, es, last, ln) == last);
            assert(false);
        }
        assert(es.contains(es[ln]));
        assert(sel[es[ln]]);
        assert(g.edges@[es[ln]].source == route_node(g, es, last, ln));
        lemma_route_functional(g, sel, first, last, es[ln], e, es);
        assert(route_node(g, es, last, ln + 1) == t);
        let k = choose|k: int| 0 <= k <= chain.len() && #[trigger] cnode(g, chain, cur, k) == t;
        assert(route_node(g, es, last, k) == t);
        assert(false);
    }
}

/// A route cannot stand where no selected edge continues.
proof fn lemma_stuck_no_route(
    g: RouteGraph,
    sel: Seq<bool>,
    first: int,
    last: int,
    chain: Seq<usize>,
    cur: int,
    es: Seq<int>,
)
    requires
        walk_state(g, sel, first, chain, cur),
        cur != last,
        forall|y: int|
            0 <= y < g.edge_count() && sel[y] ==> (#[trigger] g.edges@[y]).source != cur,
    ensures
        !route_of(g, sel, first, last, es),
{
    if route_of(g, sel, first, last, es) {
        let ln = chain.len() as int;
        lemma_chain_is_prefix(g, sel, first, last, chain, cur, es, ln);
        assert(route_node(g, es, last, ln) == cur);
        if ln == es.len() {
            assert(route_node(g, es, last, ln) == last);
            assert(false);
        }
        assert(es.contains(es[ln]));
        assert(sel[es[ln]]);
        assert(g.edges@[es[ln]].source == route_node(g, es, last, ln));
        assert(false);
    }
}

/// A completed walk whose selection is fully walked is itself a route.
proof fn lemma_walk_is_route(
    g: RouteGraph,
    sel: Seq<bool>,
    first: int,
    last: int,
    chain: Seq<usize>,
)
    requires
        walk_state(g, sel, first, chain, last),
        forall|x: int|
            0 <= x < g.edge_count() && sel[x] ==> #[trigger] chain_ints(chain).contains(x),
    ensures
        route_of(g, sel, first, last, chain_ints(chain)),
{
    let ces = chain_ints(chain);
    assert(ces.len() == chain.len());
    assert forall|k: int| 0 <= k < ces.len() implies #[trigger] ces[k] == chain[k] as int by {}
    assert forall|k: int| 0 <= k <= ces.len() implies route_node(g, ces, last, k) == cnode(
        g,
        chain,
        last,
        k,
    ) by {
        if k < ces.len() {
            assert(ces[k] == chain[k] as int);
        }
    }
    assert forall|x: int| 0 <= x < g.edge_count() implies (sel[x] <==> ces.contains(x)) by {
        if ces.contains(x) {
            let k = choose|k: int| 0 <= k < ces.len() && ces[k] == x;
            assert(sel[chain[k] as int]);
        }
    }
    assert forall|k: int| 0 <= k < ces.len() implies 0 <= #[trigger] ces[k] < g.edge_count() by {
        assert(ces[k] == chain[k] as int);
    }
    assert forall|k1: int, k2: int| 0 <= k1 < k2 < ces.len() implies ces[k1] != ces[k2] by {
        assert(chain[k1] != chain[k2]);
    }
    assert forall|k: int| 0 <= k < ces.len() implies g.edges@[#[trigger] ces[k]].target
        == route_node(g, ces, last, k + 1) by {
        assert(ces[k] == chain[k] as int);
        assert(g.edges@[chain[k] as int].target == cnode(g, chain, last, k + 1));
    }
    assert forall|k1: int, k2: int| 0 <= k1 < k2 <= ces.len() implies route_node(g, ces, last, k1)
        != route_node(g, ces, last, k2) by {
        assert(cnode(g, chain, last, k1) != cnode(g, chain, last, k2));
    }
    assert(route_node(g, ces, last, 0) == first);
}

/// A checked feasible route: the walked edge chain and its exact totals.
#[derive(Clone, Debug, PartialEq, Eq)]
pub struct RouteSolution {
    /// The selected edges in walking order, from the entry to the goal.
    pub edges: Vec<usize>,
    /// Bits collected along the route.
    pub total_bits: i64,
    /// Total time of the route in frames: traversal plus dwell.
    pub total_time: u64,
}

impl RouteSolution {
    /// The walked chain as a mathematical edge sequence.
    pub open spec fn chain(self) -> Seq<int> {
        chain_ints(self.edges@)
    }
}

/// Take the selected edge `e` out of the walk's current node: mark the
/// entered node and the edge, extend the chain and the running totals, and
/// move the walk forward.
#[verifier::rlimit(100)]
fn walk_take(
    g: &RouteGraph,
    sel: &Vec<bool>,
    visited: &mut Vec<bool>,
    walked: &mut Vec<bool>,
    chain: &mut Vec<usize>,
    bits: &mut i64,
    time: &mut u64,
    cur: &mut usize,
    e: usize,
    first: usize,
)
    requires
        g.wf(),
        sel@.len() == g.edge_count(),
        first < g.node_count(),
        *old(cur) < g.node_count(),
        old(visited)@.len() == g.node_count(),
        old(walked)@.len() == g.edge_count(),
        e < g.edge_count(),
        sel@[e as int],
        g.edges@[e as int].source == *old(cur),
        !old(visited)@[g.edges@[e as int].target as int],
        walk_state(*g, sel@, first as int, old(chain)@, *old(cur) as int),
        forall|x: int|
            0 <= x < g.node_count() ==> ((#[trigger] old(visited)@[x]) <==> exists|k: int|
                0 <= k <= old(chain)@.len() && cnode(*g, old(chain)@, *old(cur) as int, k) == x),
        forall|x: int|
            0 <= x < g.edge_count() ==> ((#[trigger] old(walked)@[x]) <==> chain_ints(
                old(chain)@,
            ).contains(x)),
        count_unvisited(old(visited)@, g.node_count()) == g.node_count() - 1 - old(chain)@.len(),
        *old(bits) == route_bits(*g, chain_ints(old(chain)@), old(chain)@.len() as int),
        *old(time) == route_time(*g, chain_ints(old(chain)@), old(chain)@.len() as int),
        0 <= *old(bits) <= (old(chain)@.len() as int) * MAX_YIELD,
        *old(time) <= (old(chain)@.len() as int) * (7 * MAX_FRAMES),
    ensures
        final(visited)@.len() == g.node_count(),
        final(walked)@.len() == g.edge_count(),
        *final(cur) == g.edges@[e as int].target,
        *final(cur) < g.node_count(),
        final(chain)@ == old(chain)@.push(e),
        walk_state(*g, sel@, first as int, final(chain)@, *final(cur) as int),
        forall|x: int|
            0 <= x < g.node_count() ==> ((#[trigger] final(visited)@[x]) <==> exists|k: int|
                0 <= k <= final(chain)@.len() && cnode(*g, final(chain)@, *final(cur) as int, k)
                    == x),
        forall|x: int|
            0 <= x < g.edge_count() ==> ((#[trigger] final(walked)@[x]) <==> chain_ints(
                final(chain)@,
            ).contains(x)),
        count_unvisited(final(visited)@, g.node_count()) == g.node_count() - 1 - final(chain)@.len(),
        count_unvisited(final(visited)@, g.node_count()) < count_unvisited(
            old(visited)@,
            g.node_count(),
        ),
        *final(bits) == route_bits(*g, chain_ints(final(chain)@), final(chain)@.len() as int),
        *final(time) == route_time(*g, chain_ints(final(chain)@), final(chain)@.len() as int),
        0 <= *final(bits) <= (final(chain)@.len() as int) * MAX_YIELD,
        *final(time) <= (final(chain)@.len() as int) * (7 * MAX_FRAMES),
{
    let n = g.nodes.len();
    let t = g.edges[e].target;
    let ghost old_chain = chain@;
    let ghost old_visited = visited@;
    proof {
        crate::cut::lemma_count_nonneg(visited@, n as int);
        crate::cut::lemma_count_mark_only(old_visited, t as int, n as int);
    }
    visited.set(t, true);
    walked.set(e, true);
    chain.push(e);
    let edge = &g.edges[e];
    let frames = edge.get_frames();
    let dwell = g.nodes[t].time;
    let node_bits = g.nodes[t].bits;
    proof {
        lemma_walk_push(*g, sel@, first as int, old_chain, *old(cur) as int, e as int, t as int, old_visited);
        assert(g.nodes@[t as int].wf());
        let ghost lc = old_chain.len() as int;
        assert((lc + 1) * MAX_YIELD == lc * MAX_YIELD + MAX_YIELD) by (nonlinear_arith);
        assert((lc + 1) * (7 * MAX_FRAMES) == lc * (7 * MAX_FRAMES) + 7 * MAX_FRAMES)
            by (nonlinear_arith);
        let ghost nn = n as int;
        assert(lc + 1 <= nn - 1 && MAX_YIELD >= 0 ==> (lc + 1) * MAX_YIELD <= (nn - 1)
            * MAX_YIELD) by (nonlinear_arith);
        assert(lc + 1 <= nn - 1 ==> (lc + 1) * (7 * MAX_FRAMES) <= (nn - 1) * (7
            * MAX_FRAMES)) by (nonlinear_arith);
        assert(nn <= crate::graph::MAX_INDEX ==> (nn - 1) * MAX_YIELD <= 0x7fff_fffe
            * MAX_YIELD) by (nonlinear_arith);
        assert(nn <= crate::graph::MAX_INDEX ==> (nn - 1) * (7 * MAX_FRAMES)
            <= 0x7fff_fffe * (7 * MAX_FRAMES)) by (nonlinear_arith);
    }
    *bits = *bits + node_bits;
    *time = *time + frames + dwell;
    *cur = t;
}

/// Taking the unique selected edge out of `cur` extends every chain-shaped
/// walk fact by one step.
proof fn lemma_walk_push(
    g: RouteGraph,
    sel: Seq<bool>,
    first: int,
    chain: Seq<usize>,
    cur: int,
    e: int,
    t: int,
    visited: Seq<bool>,
)
    requires
        g.wf(),
        walk_state(g, sel, first, chain, cur),
        0 <= e < g.edge_count(),
        sel[e],
        g.edges@[e].source == cur,
        g.edges@[e].target == t,
        0 <= t < g.node_count(),
        visited.len() == g.node_count(),
        forall|x: int|
            0 <= x < g.node_count() ==> ((#[trigger] visited[x]) <==> exists|k: int|
                0 <= k <= chain.len() && cnode(g, chain, cur, k) == x),
        !visited[t],
    ensures
        walk_state(g, sel, first, chain.push(e as usize), t),
        forall|x: int|
            0 <= x < g.node_count() ==> ((#[trigger] visited.update(t, true)[x]) <==> exists|k: int|
                0 <= k <= chain.push(e as usize).len() && #[trigger] cnode(
                    g,
                    chain.push(e as usize),
                    t,
                    k,
                ) == x),
        forall|x: int|
            0 <= x < g.edge_count() ==> (#[trigger] chain_ints(chain.push(e as usize)).contains(x) <==> (chain_ints(chain).contains(x) || x == e)),
        route_bits(g, chain_ints(chain.push(e as usize)), chain.len() as int + 1)
            == route_bits(g, chain_ints(chain), chain.len() as int)
            + g.nodes@[t].bits,
        route_time(g, chain_ints(chain.push(e as usize)), chain.len() as int + 1)
            == route_time(g, chain_ints(chain), chain.len() as int)
            + crate::encode::edge_objective(g, e),
{
    let nc = chain.push(e as usize);
    let oldmap = chain_ints(chain);
    let newmap = chain_ints(nc);
    assert(newmap =~= oldmap.push(e));
    let ln = chain.len() as int;

    // Old stand-points carry over unchanged; the new chain adds `t`.
    assert forall|k: int| 0 <= k <= ln implies cnode(g, nc, t, k) == cnode(g, chain, cur, k) by {
        if k < ln {
            assert(nc[k] == chain[k]);
        } else {
            assert(nc[k] == e as usize);
        }
    }
    // Distinctness: `t` was never stood on.
    assert forall|k1: int, k2: int| 0 <= k1 < k2 <= nc.len() implies cnode(g, nc, t, k1) != cnode(
        g,
        nc,
        t,
        k2,
    ) by {
        if k2 <= ln {
            assert(cnode(g, nc, t, k1) == cnode(g, chain, cur, k1));
            assert(cnode(g, nc, t, k2) == cnode(g, chain, cur, k2));
        } else {
            assert(cnode(g, nc, t, k2) == t);
            assert(cnode(g, nc, t, k1) == cnode(g, chain, cur, k1));
            assert(0 <= cnode(g, chain, cur, k1) < g.node_count()) by {
                if k1 < ln {
                    assert(chain[k1] < g.edge_count());
                    assert(g.edges@[chain[k1] as int].in_range(g.node_count()));
                } else {
                }
            }
            assert(visited[cnode(g, chain, cur, k1)]);
        }
    }
    // Edge distinctness: `e` leaves `cur`, and no walked edge did.
    assert forall|k: int| 0 <= k < ln implies chain[k] != e as usize by {
        if chain[k] == e as usize {
            assert(cnode(g, chain, cur, k) == cur);
            assert(cnode(g, chain, cur, ln) == cur);
        }
    }
    // Connectivity of the extended chain.
    assert forall|k: int| 0 <= k < nc.len() implies g.edges@[#[trigger] nc[k] as int].target
        == cnode(g, nc, t, k + 1) by {
        if k < ln {
            assert(nc[k] == chain[k]);
            assert(cnode(g, nc, t, k + 1) == cnode(g, chain, cur, k + 1));
        } else {
            assert(nc[k] == e as usize);
        }
    }
    // The visited marks track the stand-points of the extended walk.
    assert forall|x: int| 0 <= x < g.node_count() implies ((visited.update(t, true)[x])
        <==> exists|k: int| 0 <= k <= nc.len() && cnode(g, nc, t, k) == x) by {
        if x == t {
            assert(cnode(g, nc, t, nc.len() as int) == t);
        } else {
            if visited[x] {
                let k = choose|k: int| 0 <= k <= chain.len() && cnode(g, chain, cur, k) == x;
                assert(cnode(g, nc, t, k) == x);
            } else {
                if exists|k: int| 0 <= k <= nc.len() && cnode(g, nc, t, k) == x {
                    let k = choose|k: int| 0 <= k <= nc.len() && cnode(g, nc, t, k) == x;
                    assert(k <= ln);
                    assert(cnode(g, chain, cur, k) == x);
                }
            }
        }
    }
    // The walked-edge marks gain exactly `e`.
    assert forall|x: int| 0 <= x < g.edge_count() implies (newmap.contains(x) <==> (
    oldmap.contains(x) || x == e)) by {
        if newmap.contains(x) {
            let k = choose|k: int| 0 <= k < newmap.len() && newmap[k] == x;
            if k < ln {
                assert(oldmap[k] == x);
            } else {
                assert(x == e);
            }
        }
        if oldmap.contains(x) {
            let k = choose|k: int| 0 <= k < oldmap.len() && oldmap[k] == x;
            assert(newmap[k] == x);
        }
        if x == e {
            assert(newmap[ln] == e);
        }
    }
    lemma_route_sums_agree(g, newmap, oldmap, ln);
}

/// The nodes a route has entered within its first `k` edges.
pub open spec fn entered_nodes(g: RouteGraph, es: Seq<int>, last: int, k: int) -> Seq<bool> {
    Seq::new(
        g.node_count() as nat,
        |i: int| exists|j: int| 1 <= j <= k && route_node(g, es, last, j) == i,
    )
}

/// The bits of a route prefix are the bits of its entered node set.
proof fn lemma_route_bits_as_set(
    g: RouteGraph,
    sel: Seq<bool>,
    first: int,
    last: int,
    es: Seq<int>,
    k: int,
)
    requires
        g.wf(),
        route_of(g, sel, first, last, es),
        0 <= last < g.node_count(),
        0 <= k <= es.len(),
    ensures
        route_bits(g, es, k) == crate::cut::bits_sum(g, entered_nodes(g, es, last, k), g.node_count()),
    decreases k,
{
    let n = g.node_count();
    if k == 0 {
        assert(forall|i: int| 0 <= i < n ==> !entered_nodes(g, es, last, 0)[i]);
        crate::cut::lemma_empty_bits(g, entered_nodes(g, es, last, 0), n);
    } else {
        lemma_route_bits_as_set(g, sel, first, last, es, k - 1);
        let t = route_node(g, es, last, k);
        assert(g.edges@[es[k - 1]].target == t);
        assert(0 <= t < n) by {
            if k < es.len() {
                assert(g.edges@[es[k]].in_range(n));
            }
        }
        let prev = entered_nodes(g, es, last, k - 1);
        assert(!prev[t]) by {
            if prev[t] {
                let j = choose|j: int| 1 <= j <= k - 1 && route_node(g, es, last, j) == t;
                assert(route_node(g, es, last, j) == route_node(g, es, last, k));
            }
        }
        crate::cut::lemma_bits_mark(g, prev, t, n);
        assert(entered_nodes(g, es, last, k) =~= prev.update(t, true)) by {
            assert forall|i: int| 0 <= i < n implies (entered_nodes(g, es, last, k)[i] <==> prev.update(
                t,
                true,
            )[i]) by {
                if entered_nodes(g, es, last, k)[i] {
                    let j = choose|j: int| 1 <= j <= k && route_node(g, es, last, j) == i;
                    if j < k {
                        assert(prev[i]);
                    }
                }
                if i != t && prev[i] {
                    let j = choose|j: int| 1 <= j <= k - 1 && route_node(g, es, last, j) == i;
                    assert(1 <= j <= k && route_node(g, es, last, j) == i);
                }
                if i == t {
                    assert(route_node(g, es, last, k) == t);
                }
            }
        }
    }
}

/// When the whole graph holds fewer bits than required, no route can
/// collect enough: the checker rejects every selection, and the search can
/// only report infeasibility — never a quiet partial success.
pub proof fn lemma_insufficient_total_no_route(
    g: RouteGraph,
    sel: Seq<bool>,
    first: int,
    last: int,
    es: Seq<int>,
    required_bits: i64,
)
    requires
        g.wf(),
        route_of(g, sel, first, last, es),
        0 <= last < g.node_count(),
        crate::cut::total_bits(g, g.node_count()) < required_bits,
    ensures
        route_bits(g, es, es.len() as int) < required_bits,
{
    lemma_route_bits_as_set(g, sel, first, last, es, es.len() as int);
    crate::cut::lemma_bits_le_total(g, entered_nodes(g, es, last, es.len() as int), g.node_count());
}

/// A route that starts inside a node set and leaves it crosses its
/// boundary somewhere.
proof fn lemma_route_crossing(
    g: RouteGraph,
    sel: Seq<bool>,
    first: int,
    last: int,
    es: Seq<int>,
    vis: Seq<bool>,
    k: int,
)
    requires
        g.wf(),
        route_of(g, sel, first, last, es),
        0 <= last < g.node_count(),
        vis.len() == g.node_count(),
        0 <= k <= es.len(),
        vis[route_node(g, es, last, 0)],
        !vis[route_node(g, es, last, k)],
    ensures
        exists|j: int|
            0 <= j < k && vis[#[trigger] route_node(g, es, last, j)] && !vis[route_node(
                g,
                es,
                last,
                j + 1,
            )],
    decreases k,
{
    if vis[route_node(g, es, last, k - 1)] {
        assert(0 <= k - 1 < k && vis[route_node(g, es, last, k - 1)] && !vis[route_node(
            g,
            es,
            last,
            k,
        )]);
    } else {
        lemma_route_crossing(g, sel, first, last, es, vis, k - 1);
    }
}

/// The lazy cut never excludes a feasible answer: whenever the generator
/// fires — the nodes reached over the snapshot's present edges hold fewer
/// than the required bits — every route that collects enough bits selects
/// at least one boundary edge of the reached set, so the cut row (the
/// boundary sum bounded below by one) is satisfied by the route's
/// assignment.
pub proof fn lemma_cut_preserves_routes(
    g: RouteGraph,
    vg: crate::value::ValueGraph,
    refs: crate::lp::VarRefs,
    sel: Seq<bool>,
    first: int,
    last: int,
    es: Seq<int>,
    a: Map<int, int>,
    required_bits: i64,
)
    requires
        g.wf(),
        vg.matches(g),
        refs.wf(),
        refs.len == g.edge_count(),
        0 <= first < g.node_count(),
        0 <= last < g.node_count(),
        route_of(g, sel, first, last, es),
        route_bits(g, es, es.len() as int) >= required_bits,
        crate::cut::bits_sum(g, crate::cut::reach_seq(g, vg, first), g.node_count())
            < required_bits,
        forall|e: int|
            0 <= e < g.edge_count() ==> a[(#[trigger] refs.spec_get(e)).0 as int] == (if sel[e] {
                1int
            } else {
                0int
            }),
    ensures
        crate::lp::sum_terms(
            crate::cut::boundary_terms(g, refs, crate::cut::reach_seq(g, vg, first), g.edge_count()),
            a,
        ) >= 1,
{
    let n = g.node_count();
    let reached = crate::cut::reach_seq(g, vg, first);
    crate::cut::lemma_reachable_refl(g, vg, first);
    assert(reached[first]);
    assert(route_node(g, es, last, 0) == first);

    if forall|j: int| 0 <= j <= es.len() ==> reached[#[trigger] route_node(g, es, last, j)] {
        // Were the whole route inside the reached set, its bits would be
        // bounded by the reached bits — too few.
        lemma_route_bits_as_set(g, sel, first, last, es, es.len() as int);
        let entered = entered_nodes(g, es, last, es.len() as int);
        assert forall|i: int| 0 <= i < n && entered[i] implies reached[i] by {
            let j = choose|j: int|
                1 <= j <= es.len() && route_node(g, es, last, j) == i;
            assert(reached[route_node(g, es, last, j)]);
        }
        crate::cut::lemma_bits_subset_monotone(g, entered, reached, n);
        assert(false);
    }
    let j0 = choose|j0: int|
        !(0 <= j0 <= es.len() ==> reached[#[trigger] route_node(g, es, last, j0)]);
    lemma_route_crossing(g, sel, first, last, es, reached, j0);
    let j = choose|j: int|
        0 <= j < j0 && reached[#[trigger] route_node(g, es, last, j)] && !reached[route_node(
            g,
            es,
            last,
            j + 1,
        )];
    let b = es[j];
    assert(g.edges@[b].source == route_node(g, es, last, j));
    assert(g.edges@[b].target == route_node(g, es, last, j + 1));
    assert(es.contains(es[j]));
    assert(sel[b]);
    assert(a[refs.spec_get(b).0 as int] == 1);
    crate::cut::lemma_boundary_sum_contains(g, refs, reached, a, b, g.edge_count());
}

} // verus!
