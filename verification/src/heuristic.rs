//! The branching heuristic: a best-first heuristic path through the
//! current value graph, computed by a dynamic-programming pass over the
//! nodes in depth-first postorder, and the choice of the fractional edge
//! variable to branch on.
//!
//! For each node the pass keeps the outgoing present edge that maximizes
//! the bits accumulated down the chain and, among equal bit totals,
//! minimizes the accumulated time; ties beyond that keep the
//! lowest-identifier edge.  Both the postorder and the pass are pinned to
//! exact spec functions, so repeated runs over an unchanged snapshot give
//! identical chosen edges.

use vstd::prelude::*;
use crate::cut::count_unvisited;
use crate::graph::RouteGraph;
use crate::graph::MAX_FRAMES;
use crate::graph::MAX_YIELD;
use crate::solution::chain_ints;
use crate::value::ValueGraph;
use crate::value::VALUE_EPS;
use crate::value::VALUE_HALF;
use crate::value::VALUE_SCALE;

verus! {

/// Per-node state of the heuristic path: the chosen outgoing edge, and the
/// bits and time accumulated from this node down to the goal.
#[derive(Clone, Copy, Debug, PartialEq, Eq, Structural)]
pub struct State {
    /// The chosen outgoing edge, if the node reaches the goal at all; the
    /// goal itself carries `None`.
    pub edge: Option<usize>,
    /// Bits collected from this node (inclusive) to the goal (exclusive).
    pub bits: i64,
    /// Frames spent from this node to the goal: traversal plus dwell.
    pub time: u64,
}

/// The depth-first postorder emitted from visiting node `n`: out-edges are
/// scanned in ascending identifier order, unvisited present targets are
/// visited recursively, and `n` is emitted last.  The fuel bounds the
/// nesting depth; one more than the number of unvisited nodes always
/// suffices.
pub open spec fn po_node(
    g: RouteGraph,
    vg: ValueGraph,
    fuel: nat,
    n: int,
    vis: Seq<bool>,
) -> (Seq<int>, Seq<bool>)
    decreases fuel, 0int, 0int,
{
    if fuel == 0 {
        (Seq::empty(), vis)
    } else {
        let (s, v) = po_edges(g, vg, (fuel - 1) as nat, n, 0, vis.update(n, true));
        (s.push(n), v)
    }
}

/// The postorder contribution of the out-edges of `n` from edge `e`
/// upward.
pub open spec fn po_edges(
    g: RouteGraph,
    vg: ValueGraph,
    fuel: nat,
    n: int,
    e: int,
    vis: Seq<bool>,
) -> (Seq<int>, Seq<bool>)
    decreases fuel, 1int, g.edge_count() - e,
{
    if e < 0 || e >= g.edge_count() {
        (Seq::empty(), vis)
    } else {
        let tgt = g.edges@[e].target as int;
        if g.edges@[e].source == n && vg.spec_present(e) && !vis[tgt] {
            let (s1, v1) = po_node(g, vg, fuel, tgt, vis);
            let (s2, v2) = po_edges(g, vg, fuel, n, e + 1, v1);
            (s1 + s2, v2)
        } else {
            po_edges(g, vg, fuel, n, e + 1, vis)
        }
    }
}

/// The depth-first postorder of the present-edge subgraph from `first`.
pub open spec fn postorder_spec(g: RouteGraph, vg: ValueGraph, first: int) -> Seq<int> {
    po_node(
        g,
        vg,
        (g.node_count() + 1) as nat,
        first,
        Seq::new(g.node_count() as nat, |i: int| false),
    ).0
}

/// Recursive worker mirroring [`po_node`] exactly, fuel and all.
#[verifier::rlimit(60)]
fn po_rec(
    g: &RouteGraph,
    vg: &ValueGraph,
    n: usize,
    visited: &mut Vec<bool>,
    out: &mut Vec<usize>,
    Ghost(fuel): Ghost<nat>,
)
    requires
        g.wf(),
        vg.matches(*g),
        n < g.node_count(),
        old(visited)@.len() == g.node_count(),
        !old(visited)@[n as int],
        forall|k: int| 0 <= k < old(out)@.len() ==> (#[trigger] old(out)@[k]) < g.node_count(),
        fuel > count_unvisited(old(visited)@, g.node_count()),
    ensures
        final(visited)@.len() == g.node_count(),
        forall|i: int| 0 <= i < g.node_count() && old(visited)@[i] ==> final(visited)@[i],
        final(out)@.len() > old(out)@.len(),
        forall|k: int| 0 <= k < final(out)@.len() ==> (#[trigger] final(out)@[k]) < g.node_count(),
        forall|k: int| 0 <= k < old(out)@.len() ==> final(out)@[k] == old(out)@[k],
        count_unvisited(final(visited)@, g.node_count()) == count_unvisited(
            old(visited)@,
            g.node_count(),
        ) - (final(out)@.len() - old(out)@.len()),
        chain_ints(final(out)@) == chain_ints(old(out)@) + po_node(
            *g,
            *vg,
            fuel,
            n as int,
            old(visited)@,
        ).0,
        final(visited)@ == po_node(*g, *vg, fuel, n as int, old(visited)@).1,
    decreases fuel,
{
    let nc = g.nodes.len();
    let m = g.edges.len();
    let ghost vis0 = visited@;
    let ghost out0 = out@;
    proof {
        crate::cut::lemma_count_nonneg(vis0, nc as int);
        crate::cut::lemma_count_mark_only(vis0, n as int, nc as int);
    }
    visited.set(n, true);
    let ghost f1 = (fuel - 1) as nat;
    let ghost vis1 = visited@;
    let ghost mut emitted: Seq<int> = Seq::empty();
    let mut e: usize = 0;
    while e < m
        invariant
            e <= m,
            g.wf(),
            vg.matches(*g),
            nc == g.node_count(),
            m == g.edge_count(),
            n < nc,
            fuel > count_unvisited(vis0, nc as int),
            f1 == (fuel - 1) as nat,
            vis0.len() == nc,
            vis1.len() == nc,
            vis1 == vis0.update(n as int, true),
            count_unvisited(vis1, nc as int) == count_unvisited(vis0, nc as int) - 1,
            visited@.len() == nc,
            forall|i: int| 0 <= i < nc && vis1[i] ==> visited@[i],
            forall|k: int| 0 <= k < out@.len() ==> (#[trigger] out@[k]) < nc,
            out@.len() >= out0.len(),
            forall|k: int| 0 <= k < out0.len() ==> out@[k] == out0[k],
            count_unvisited(visited@, nc as int) == count_unvisited(vis1, nc as int) - (out@.len()
                - out0.len()),
            chain_ints(out@) == chain_ints(out0) + emitted,
            po_edges(*g, *vg, f1, n as int, 0, vis1) == (
                emitted + po_edges(*g, *vg, f1, n as int, e as int, visited@).0,
                po_edges(*g, *vg, f1, n as int, e as int, visited@).1,
            ),
        decreases m - e,
    {
        let edge = &g.edges[e];
        proof {
            assert(g.edges@[e as int].in_range(nc as int));
        }
        let eligible = edge.source == n && vg.present(e) && !visited[edge.target];
        if eligible {
            let ghost vis_pre = visited@;
            let ghost out_pre = out@;
            let ghost emitted_old = emitted;
            proof {
                crate::cut::lemma_count_monotone(vis1, vis_pre, nc as int);
                crate::cut::lemma_count_nonneg(vis_pre, nc as int);
            }
            po_rec(g, vg, edge.target, visited, out, Ghost(f1));
            proof {
                let sub = po_node(*g, *vg, f1, edge.target as int, vis_pre).0;
                emitted = emitted_old + sub;
                assert(chain_ints(out@) == chain_ints(out_pre) + sub);
                assert((chain_ints(out0) + emitted_old) + sub =~= chain_ints(out0) + (emitted_old
                    + sub));
                assert(po_edges(*g, *vg, f1, n as int, e as int, vis_pre).0 == sub + po_edges(
                    *g,
                    *vg,
                    f1,
                    n as int,
                    e + 1,
                    visited@,
                ).0);
                assert(emitted_old + (sub + po_edges(*g, *vg, f1, n as int, e + 1, visited@).0)
                    =~= (emitted_old + sub) + po_edges(*g, *vg, f1, n as int, e + 1, visited@).0);
            }
        }
        e = e + 1;
    }
    let ghost out_before_push = out@;
    out.push(n);
    proof {
        assert forall|i: int| 0 <= i < nc && vis0[i] implies visited@[i] by {
            assert(vis1[i]);
        }
        assert(po_edges(*g, *vg, f1, n as int, m as int, visited@) == (
            Seq::<int>::empty(),
            visited@,
        ));
        assert(po_edges(*g, *vg, f1, n as int, m as int, visited@).0 =~= Seq::<int>::empty());
        assert(po_edges(*g, *vg, f1, n as int, 0, vis1).0 =~= emitted + Seq::<int>::empty());
        assert(emitted + Seq::<int>::empty() =~= emitted);
        assert(po_node(*g, *vg, fuel, n as int, vis0).0 == emitted.push(n as int));
        assert(chain_ints(out@) =~= chain_ints(out_before_push).push(n as int));
        assert(chain_ints(out0) + emitted.push(n as int) =~= (chain_ints(out0) + emitted).push(
            n as int,
        ));
    }
}

/// The depth-first postorder of the present-edge subgraph from `first`,
/// scanning out-edges in ascending identifier order.
pub fn postorder(g: &RouteGraph, vg: &ValueGraph, first: usize) -> (r: Vec<usize>)
    requires
        g.wf(),
        vg.matches(*g),
        first < g.node_count(),
    ensures
        chain_ints(r@) == postorder_spec(*g, *vg, first as int),
        r@.len() <= g.node_count(),
        forall|k: int| 0 <= k < r@.len() ==> (#[trigger] r@[k]) < g.node_count(),
{
    let n = g.nodes.len();
    let mut visited: Vec<bool> = Vec::new();
    let mut i: usize = 0;
    while i < n
        invariant
            i <= n,
            visited@.len() == i,
            forall|j: int| 0 <= j < i ==> !visited@[j],
        decreases n - i,
    {
        visited.push(false);
        i = i + 1;
    }
    proof {
        crate::cut::lemma_count_full(visited@, n as int);
        assert(visited@ =~= Seq::new(n as nat, |i: int| false));
    }
    let mut out: Vec<usize> = Vec::new();
    po_rec(g, vg, first, &mut visited, &mut out, Ghost((n + 1) as nat));
    proof {
        crate::cut::lemma_count_nonneg(visited@, n as int);
        assert(chain_ints(out@) =~= Seq::<int>::empty() + chain_ints(out@));
        assert(Seq::<int>::empty() + postorder_spec(*g, *vg, first as int) =~= postorder_spec(
            *g,
            *vg,
            first as int,
        ));
    }
    out
}

/// The candidate state edge `e` offers node `n`: usable when `e` is a
/// present out-edge of `n` whose target already carries a state; it chains
/// the node's own bits and the edge's objective time onto the target's
/// totals.
pub open spec fn dp_candidate(
    g: RouteGraph,
    vg: ValueGraph,
    states: Seq<Option<State>>,
    n: int,
    e: int,
) -> Option<State> {
    let tgt = g.edges@[e].target as int;
    if g.edges@[e].source == n && vg.spec_present(e) && 0 <= tgt < states.len() && states[tgt]
        is Some {
        let nx = states[tgt]->0;
        Some(
            State {
                edge: Some(e as usize),
                bits: (g.nodes@[n].bits + nx.bits) as i64,
                time: (crate::encode::edge_objective(g, e) + nx.time) as u64,
            },
        )
    } else {
        None
    }
}

/// The lexicographic preference of the pass: more bits first, then less
/// time.  A tie on both keeps the incumbent, so the lowest-identifier edge
/// wins among equals.
pub open spec fn better(cand: State, cur: State) -> bool {
    cand.bits > cur.bits || (cand.bits == cur.bits && cand.time < cur.time)
}

/// The best candidate node `n` finds among its first `k` out-edges.
pub open spec fn best_candidate(
    g: RouteGraph,
    vg: ValueGraph,
    states: Seq<Option<State>>,
    n: int,
    k: int,
) -> Option<State>
    decreases k,
{
    if k <= 0 {
        None
    } else {
        let prev = best_candidate(g, vg, states, n, k - 1);
        match dp_candidate(g, vg, states, n, k - 1) {
            Some(c) => match prev {
                None => Some(c),
                Some(p) => if better(c, p) {
                    Some(c)
                } else {
                    Some(p)
                },
            },
            None => prev,
        }
    }
}

/// The state table after processing the first `k` nodes of the order.
pub open spec fn dp_pass(
    g: RouteGraph,
    vg: ValueGraph,
    states: Seq<Option<State>>,
    order: Seq<int>,
    k: int,
) -> Seq<Option<State>>
    decreases k,
{
    if k <= 0 {
        states
    } else {
        let s = dp_pass(g, vg, states, order, k - 1);
        let n = order[k - 1];
        match best_candidate(g, vg, s, n, g.edge_count()) {
            Some(st) => s.update(n, Some(st)),
            None => s,
        }
    }
}

/// The initial table: only the goal carries a state, with empty totals.
pub open spec fn init_states(g: RouteGraph, last: int) -> Seq<Option<State>> {
    Seq::new(
        g.node_count() as nat,
        |i: int|
            if i == last {
                Some(State { edge: None, bits: 0, time: 0 })
            } else {
                None
            },
    )
}

/// The heuristic-path state table of a snapshot: the dynamic-programming
/// pass over the depth-first postorder from the entry, seeded at the goal.
pub open spec fn hp_states(g: RouteGraph, vg: ValueGraph, first: int, last: int) -> Seq<
    Option<State>,
> {
    let order = postorder_spec(g, vg, first);
    dp_pass(g, vg, init_states(g, last), order, order.len() as int)
}

/// Every state of the table keeps totals bounded by `b` chain steps.
pub open spec fn states_bounded(states: Seq<Option<State>>, b: int) -> bool {
    forall|i: int|
        0 <= i < states.len() ==> match #[trigger] states[i] {
            Some(st) => 0 <= st.bits <= b * MAX_YIELD && st.time <= b * (7 * MAX_FRAMES),
            None => true,
        }
}

/// The best-first heuristic path of one snapshot: per-node states whose
/// edges chain each node to the goal.
#[derive(Clone, Debug, PartialEq, Eq)]
pub struct HeuristicPath {
    /// One optional state per node of the graph.
    pub states: Vec<Option<State>>,
    /// The entry node the chain is read from.
    pub first: usize,
}

/// Compute the heuristic path of the snapshot: a dynamic-programming pass
/// over the nodes in depth-first postorder from the entry, seeding the goal
/// with empty totals, and keeping for every node the present out-edge that
/// maximizes accumulated bits and then minimizes accumulated time.  The
/// result is a pure function of the graph and the snapshot, so repeated
/// invocations yield identical chosen edges.
#[verifier::rlimit(60)]
pub fn heuristic_path(g: &RouteGraph, values: &ValueGraph, first: usize, last: usize) -> (r:
    HeuristicPath)
    requires
        g.wf(),
        values.matches(*g),
        first < g.node_count(),
        last < g.node_count(),
    ensures
        r.states@ == hp_states(*g, *values, first as int, last as int),
        r.states@.len() == g.node_count(),
        states_bounded(r.states@, g.node_count()),
        r.first == first,
{
    let n = g.nodes.len();
    let m = g.edges.len();
    let order = postorder(g, values, first);
    let mut states: Vec<Option<State>> = Vec::new();
    let mut i: usize = 0;
    while i < n
        invariant
            i <= n,
            last < n,
            states@.len() == i,
            forall|j: int|
                0 <= j < i ==> #[trigger] states@[j] == (if j == last {
                    Some(State { edge: None, bits: 0i64, time: 0u64 })
                } else {
                    None
                }),
        decreases n - i,
    {
        if i == last {
            states.push(Some(State { edge: None, bits: 0, time: 0 }));
        } else {
            states.push(None);
        }
        i = i + 1;
    }
    proof {
        assert(states@ =~= init_states(*g, last as int));
        assert forall|j: int| 0 <= j < states@.len() implies match #[trigger] states@[j] {
            Some(st) => 0 <= st.bits <= 0 * MAX_YIELD && st.time <= 0 * (7 * MAX_FRAMES),
            None => true,
        } by {}
    }

    let mut i: usize = 0;
    while i < order.len()
        invariant
            i <= order@.len(),
            g.wf(),
            values.matches(*g),
            n == g.node_count(),
            m == g.edge_count(),
            first < n,
            last < n,
            order@.len() <= n,
            forall|k: int| 0 <= k < order@.len() ==> (#[trigger] order@[k]) < n,
            chain_ints(order@) == postorder_spec(*g, *values, first as int),
            states@.len() == n,
            states@ == dp_pass(
                *g,
                *values,
                init_states(*g, last as int),
                chain_ints(order@),
                i as int,
            ),
            states_bounded(states@, i as int),
        decreases order@.len() - i,
    {
        let node = order[i];
        let ghost pre_states = states@;
        let mut cand: Option<State> = None;
        let mut e: usize = 0;
        while e < m
            invariant
                e <= m,
                g.wf(),
                values.matches(*g),
                n == g.node_count(),
                m == g.edge_count(),
                node < n,
                i < order@.len(),
                order@.len() <= n,
                states@ == pre_states,
                states@.len() == n,
                states_bounded(states@, i as int),
                cand == best_candidate(*g, *values, states@, node as int, e as int),
                match cand {
                    Some(c) => 0 <= c.bits <= (i + 1) * MAX_YIELD && c.time <= (i + 1) * (7
                        * MAX_FRAMES),
                    None => true,
                },
            decreases m - e,
        {
            let edge = &g.edges[e];
            proof {
                assert(g.edges@[e as int].in_range(n as int));
                assert(g.nodes@[node as int].wf());
                let ghost ii = i as int;
                assert(ii * MAX_YIELD + MAX_YIELD == (ii + 1) * MAX_YIELD) by (nonlinear_arith);
                assert(ii * (7 * MAX_FRAMES) + 7 * MAX_FRAMES == (ii + 1) * (7 * MAX_FRAMES))
                    by (nonlinear_arith);
                let ghost nn = n as int;
                assert(ii + 1 <= nn && MAX_YIELD >= 0 ==> (ii + 1) * MAX_YIELD <= nn * MAX_YIELD)
                    by (nonlinear_arith);
                assert(ii + 1 <= nn ==> (ii + 1) * (7 * MAX_FRAMES) <= nn * (7 * MAX_FRAMES))
                    by (nonlinear_arith);
                assert(nn <= crate::graph::MAX_INDEX ==> nn * MAX_YIELD <= 0x7fff_fffe * MAX_YIELD)
                    by (nonlinear_arith);
                assert(nn <= crate::graph::MAX_INDEX ==> nn * (7 * MAX_FRAMES) <= 0x7fff_fffe * (7
                    * MAX_FRAMES)) by (nonlinear_arith);
            }
            if edge.source == node && values.present(e) {
                match states[edge.target] {
                    Some(nx) => {
                        let node_bits = g.nodes[node].bits;
                        let frames = edge.get_frames();
                        let dwell = g.nodes[edge.target].time;
                        let c = State {
                            edge: Some(e),
                            bits: node_bits + nx.bits,
                            time: frames + dwell + nx.time,
                        };
                        proof {
                            assert(dp_candidate(*g, *values, states@, node as int, e as int)
                                == Some(c));
                        }
                        cand = match cand {
                            None => Some(c),
                            Some(p) => {
                                if c.bits > p.bits || (c.bits == p.bits && c.time < p.time) {
                                    Some(c)
                                } else {
                                    Some(p)
                                }
                            },
                        };
                    },
                    None => {
                        proof {
                            assert(dp_candidate(*g, *values, states@, node as int, e as int)
                                is None);
                        }
                    },
                }
            } else {
                proof {
                    assert(dp_candidate(*g, *values, states@, node as int, e as int) is None);
                }
            }
            e = e + 1;
        }
        match cand {
            Some(st) => {
                states.set(node, Some(st));
                proof {
                    let ghost ii = i as int;
                    assert(ii * MAX_YIELD <= (ii + 1) * MAX_YIELD && ii * (7 * MAX_FRAMES) <= (ii
                        + 1) * (7 * MAX_FRAMES)) by (nonlinear_arith)
                        requires ii >= 0;
                    assert(states@ =~= pre_states.update(node as int, Some(st)));
                }
            },
            None => {
                proof {
                    let ghost ii = i as int;
                    assert(ii * MAX_YIELD <= (ii + 1) * MAX_YIELD && ii * (7 * MAX_FRAMES) <= (ii
                        + 1) * (7 * MAX_FRAMES)) by (nonlinear_arith)
                        requires ii >= 0;
                }
            },
        }
        proof {
            assert(chain_ints(order@)[i as int] == node as int);
        }
        i = i + 1;
    }
    proof {
        assert(chain_ints(order@).len() == order@.len());
    }
    HeuristicPath { states, first }
}

/// Repeated heuristic-path computation on an unchanged snapshot is
/// deterministic: any two state tables that satisfy the computation's
/// contract are one and the same, so the chosen edges never differ between
/// invocations.
pub proof fn lemma_heuristic_path_deterministic(
    g: RouteGraph,
    vg: ValueGraph,
    first: int,
    last: int,
    s1: Seq<Option<State>>,
    s2: Seq<Option<State>>,
)
    requires
        s1 == hp_states(g, vg, first, last),
        s2 == hp_states(g, vg, first, last),
    ensures
        s1 == s2,
{
}

/// The edge chain read from a state table: from `n`, follow each state's
/// chosen edge until a node without a state or chosen edge; the fuel
/// bounds the walk.
pub open spec fn chain_from(
    g: RouteGraph,
    states: Seq<Option<State>>,
    n: int,
    fuel: nat,
) -> Seq<int>
    decreases fuel,
{
    if fuel == 0 || !(0 <= n < states.len()) {
        Seq::empty()
    } else {
        match states[n] {
            None => Seq::empty(),
            Some(st) => match st.edge {
                None => Seq::empty(),
                Some(e) => if (e as int) < g.edge_count() {
                    seq![e as int] + chain_from(
                        g,
                        states,
                        g.edges@[e as int].target as int,
                        (fuel - 1) as nat,
                    )
                } else {
                    Seq::empty()
                },
            },
        }
    }
}

/// Cursor over the heuristic path's edge chain.
#[derive(Clone, Debug, PartialEq, Eq)]
pub struct HeuristicPathIter {
    /// The state table the cursor walks.
    pub states: Vec<Option<State>>,
    /// The node the cursor stands on.
    pub node: usize,
}

impl HeuristicPath {
    /// Start a cursor over the chain at the entry node.
    pub fn into_iter(self) -> (r: HeuristicPathIter)
        ensures
            r.states == self.states,
            r.node == self.first,
    {
        HeuristicPathIter { states: self.states, node: self.first }
    }
}

impl HeuristicPathIter {
    /// The edge the cursor yields next, if any.
    pub open spec fn spec_peek(self, g: RouteGraph) -> Option<usize> {
        if self.node < self.states@.len() && self.states@[self.node as int] is Some
            && self.states@[self.node as int]->0.edge is Some && (self.states@[self.node as int]->0.edge->0 as int)
            < g.edge_count() {
            self.states@[self.node as int]->0.edge
        } else {
            None
        }
    }

    /// Yield the next edge of the chain and advance to its target.
    pub fn next(&mut self, g: &RouteGraph) -> (r: Option<usize>)
        ensures
            r == old(self).spec_peek(*g),
            final(self).states == old(self).states,
            r matches Some(e) ==> e < g.edge_count() && final(self).node == g.edges@[e as int].target,
            r is None ==> final(self).node == old(self).node,
    {
        if self.node < self.states.len() {
            match self.states[self.node] {
                Some(st) => match st.edge {
                    Some(e) => {
                        if e < g.edges.len() {
                            self.node = g.edges[e].target;
                            return Some(e);
                        }
                        None
                    },
                    None => None,
                },
                None => None,
            }
        } else {
            None
        }
    }
}

/// Distance of a value from the undecided middle: the branch score, lower
/// is more attractive.
pub open spec fn branch_score(v: u64) -> int {
    if v >= VALUE_HALF {
        v - VALUE_HALF
    } else {
        VALUE_HALF - v
    }
}

/// The edge worth branching on among the first `k` chain edges: not yet
/// pinned at one, with the score closest to undecided; ties keep the
/// earliest chain edge.
pub open spec fn best_branch(vg: ValueGraph, chain: Seq<int>, k: int) -> Option<int>
    decreases k,
{
    if k <= 0 {
        None
    } else {
        let prev = best_branch(vg, chain, k - 1);
        let e = chain[k - 1];
        if 0 <= e < vg.values@.len() && vg.values@[e] < VALUE_SCALE - VALUE_EPS && (prev is None
            || branch_score(vg.values@[e]) < branch_score(vg.values@[prev->0])) {
            Some(e)
        } else {
            prev
        }
    }
}

/// Walk the heuristic path of the snapshot and pick the chain edge whose
/// value is not yet pinned at one and lies closest to one half — the most
/// undecided early commitment; `None` when every chain edge is already
/// decided.
pub fn heuristic_branch_edge(g: &RouteGraph, vg: &ValueGraph, hp: HeuristicPath) -> (r: Option<
    usize,
>)
    requires
        g.wf(),
        vg.matches(*g),
        hp.states@.len() == g.node_count(),
        hp.first < g.node_count(),
    ensures
        ({
            let full = chain_from(*g, hp.states@, hp.first as int, (g.node_count() + 1) as nat);
            let best = best_branch(*vg, full, full.len() as int);
            &&& (r is Some <==> best is Some)
            &&& (r matches Some(e) ==> best == Some(e as int) && e < g.edge_count())
        }),
{
    let n = g.nodes.len();
    let ghost full = chain_from(*g, hp.states@, hp.first as int, (n + 1) as nat);
    let mut it = hp.into_iter();
    let mut fuel: usize = n + 1;
    let mut best: Option<usize> = None;
    let ghost mut taken: int = 0;
    while fuel > 0
        invariant
            g.wf(),
            vg.matches(*g),
            n == g.node_count(),
            it.states@.len() == n,
            it.states@ == hp.states@,
            full == chain_from(*g, it.states@, hp.first as int, (n + 1) as nat),
            0 <= taken <= full.len(),
            fuel + taken == n + 1,
            full.skip(taken) == chain_from(*g, it.states@, it.node as int, fuel as nat),
            best_branch(*vg, full, taken) == (match best {
                Some(b) => Some(b as int),
                None => None::<int>,
            }),
            best matches Some(b) ==> b < g.edge_count(),
        decreases fuel,
    {
        let ghost it_pre = it;
        match it.next(g) {
            Some(e) => {
                proof {
                    assert(chain_from(*g, it_pre.states@, it_pre.node as int, fuel as nat)
                        == seq![e as int] + chain_from(
                        *g,
                        it.states@,
                        it.node as int,
                        (fuel - 1) as nat,
                    ));
                    assert(full.skip(taken)[0] == e as int);
                    assert(full[taken] == e as int);
                    let rest = chain_from(*g, it.states@, it.node as int, (fuel - 1) as nat);
                    assert(full.skip(taken).len() == 1 + rest.len());
                    assert(taken + 1 <= full.len());
                    assert forall|j: int| 0 <= j < full.len() - (taken + 1) implies full.skip(
                        taken + 1,
                    )[j] == rest[j] by {
                        assert(full.skip(taken + 1)[j] == full[taken + 1 + j]);
                        assert(full.skip(taken)[j + 1] == full[taken + 1 + j]);
                        assert(full.skip(taken)[j + 1] == (seq![e as int] + rest)[j + 1]);
                    }
                    assert(full.skip(taken + 1) =~= rest);
                }
                let value = vg.values[e];
                let eligible = value < VALUE_SCALE - VALUE_EPS;
                if eligible {
                    let score = if value >= VALUE_HALF {
                        value - VALUE_HALF
                    } else {
                        VALUE_HALF - value
                    };
                    let replace = match best {
                        None => true,
                        Some(b) => {
                            let bv = vg.values[b];
                            let bscore = if bv >= VALUE_HALF {
                                bv - VALUE_HALF
                            } else {
                                VALUE_HALF - bv
                            };
                            score < bscore
                        },
                    };
                    if replace {
                        best = Some(e);
                    }
                }
                proof {
                    taken = taken + 1;
                }
            },
            None => {
                proof {
                    assert(chain_from(*g, it_pre.states@, it_pre.node as int, fuel as nat)
                        =~= Seq::<int>::empty());
                    assert(full.skip(taken).len() == 0);
                    assert(taken == full.len());
                    assert(best_branch(*vg, full, full.len() as int) == best_branch(
                        *vg,
                        full,
                        taken,
                    ));
                }
                return best;
            },
        }
        fuel = fuel - 1;
    }
    proof {
        assert(chain_from(*g, it.states@, it.node as int, (fuel) as nat) =~= Seq::<int>::empty());
        assert(full.skip(taken).len() == 0);
        assert(taken == full.len());
    }
    best
}

/// The heuristic path's edge chain as a list, from the entry node to where
/// the chain ends.
pub fn heuristic_chain(g: &RouteGraph, hp: HeuristicPath) -> (r: Vec<usize>)
    requires
        g.wf(),
        hp.states@.len() == g.node_count(),
        hp.first < g.node_count(),
    ensures
        chain_ints(r@) == chain_from(*g, hp.states@, hp.first as int, (g.node_count() + 1) as nat),
        forall|k: int| 0 <= k < r@.len() ==> (#[trigger] r@[k]) < g.edge_count(),
{
    let n = g.nodes.len();
    let ghost full = chain_from(*g, hp.states@, hp.first as int, (n + 1) as nat);
    let mut it = hp.into_iter();
    let mut fuel: usize = n + 1;
    let mut r: Vec<usize> = Vec::new();
    while fuel > 0
        invariant
            g.wf(),
            n == g.node_count(),
            it.states@.len() == n,
            it.states@ == hp.states@,
            full == chain_from(*g, it.states@, hp.first as int, (n + 1) as nat),
            0 <= r@.len() <= full.len(),
            fuel + r@.len() == n + 1,
            chain_ints(r@) == full.take(r@.len() as int),
            forall|k: int| 0 <= k < r@.len() ==> (#[trigger] r@[k]) < g.edge_count(),
            full.skip(r@.len() as int) == chain_from(*g, it.states@, it.node as int, fuel as nat),
        decreases fuel,
    {
        let ghost it_pre = it;
        let ghost taken = r@.len() as int;
        match it.next(g) {
            Some(e) => {
                proof {
                    assert(chain_from(*g, it_pre.states@, it_pre.node as int, fuel as nat)
                        == seq![e as int] + chain_from(
                        *g,
                        it.states@,
                        it.node as int,
                        (fuel - 1) as nat,
                    ));
                    assert(full.skip(taken)[0] == e as int);
                    assert(full[taken] == e as int);
                    let rest = chain_from(*g, it.states@, it.node as int, (fuel - 1) as nat);
                    assert(full.skip(taken).len() == 1 + rest.len());
                    assert(taken + 1 <= full.len());
                    assert forall|j: int| 0 <= j < full.len() - (taken + 1) implies full.skip(
                        taken + 1,
                    )[j] == rest[j] by {
                        assert(full.skip(taken + 1)[j] == full[taken + 1 + j]);
                        assert(full.skip(taken)[j + 1] == full[taken + 1 + j]);
                        assert(full.skip(taken)[j + 1] == (seq![e as int] + rest)[j + 1]);
                    }
                    assert(full.skip(taken + 1) =~= rest);
                }
                r.push(e);
                proof {
                    assert(chain_ints(r@) =~= full.take(taken + 1));
                }
            },
            None => {
                proof {
                    assert(chain_from(*g, it_pre.states@, it_pre.node as int, fuel as nat)
                        =~= Seq::<int>::empty());
                    assert(full.skip(taken).len() == 0);
                    assert(chain_ints(r@) =~= full.take(full.len() as int));
                    assert(full.take(full.len() as int) =~= full);
                }
                return r;
            },
        }
        fuel = fuel - 1;
    }
    proof {
        assert(chain_from(*g, it.states@, it.node as int, 0nat) =~= Seq::<int>::empty());
        assert(full.skip(r@.len() as int).len() == 0);
        assert(chain_ints(r@) =~= full.take(full.len() as int));
        assert(full.take(full.len() as int) =~= full);
    }
    r
}

/// Two snapshots with the same values emit the same postorder.
pub(crate) proof fn lemma_po_node_congruent(
    g: RouteGraph,
    vg1: ValueGraph,
    vg2: ValueGraph,
    fuel: nat,
    n: int,
    vis: Seq<bool>,
)
    requires
        vg1.values@ == vg2.values@,
    ensures
        po_node(g, vg1, fuel, n, vis) == po_node(g, vg2, fuel, n, vis),
    decreases fuel, 0int, 0int,
{
    if fuel != 0 {
        lemma_po_edges_congruent(g, vg1, vg2, (fuel - 1) as nat, n, 0, vis.update(n, true));
    }
}

/// Two snapshots with the same values emit the same postorder, edge side.
pub(crate) proof fn lemma_po_edges_congruent(
    g: RouteGraph,
    vg1: ValueGraph,
    vg2: ValueGraph,
    fuel: nat,
    n: int,
    e: int,
    vis: Seq<bool>,
)
    requires
        vg1.values@ == vg2.values@,
    ensures
        po_edges(g, vg1, fuel, n, e, vis) == po_edges(g, vg2, fuel, n, e, vis),
    decreases fuel, 1int, g.edge_count() - e,
{
    if !(e < 0 || e >= g.edge_count()) {
        let tgt = g.edges@[e].target as int;
        if g.edges@[e].source == n && vg1.spec_present(e) && !vis[tgt] {
            lemma_po_node_congruent(g, vg1, vg2, fuel, tgt, vis);
            lemma_po_edges_congruent(g, vg1, vg2, fuel, n, e + 1, po_node(g, vg1, fuel, tgt, vis).1);
        } else {
            lemma_po_edges_congruent(g, vg1, vg2, fuel, n, e + 1, vis);
        }
    }
}

/// Two snapshots with the same values find the same best candidates.
proof fn lemma_best_candidate_congruent(
    g: RouteGraph,
    vg1: ValueGraph,
    vg2: ValueGraph,
    states: Seq<Option<State>>,
    n: int,
    k: int,
)
    requires
        vg1.values@ == vg2.values@,
    ensures
        best_candidate(g, vg1, states, n, k) == best_candidate(g, vg2, states, n, k),
    decreases k,
{
    if k > 0 {
        lemma_best_candidate_congruent(g, vg1, vg2, states, n, k - 1);
    }
}

/// Two snapshots with the same values run the same pass.
proof fn lemma_dp_pass_congruent(
    g: RouteGraph,
    vg1: ValueGraph,
    vg2: ValueGraph,
    states: Seq<Option<State>>,
    order: Seq<int>,
    k: int,
)
    requires
        vg1.values@ == vg2.values@,
    ensures
        dp_pass(g, vg1, states, order, k) == dp_pass(g, vg2, states, order, k),
    decreases k,
{
    if k > 0 {
        lemma_dp_pass_congruent(g, vg1, vg2, states, order, k - 1);
        lemma_best_candidate_congruent(
            g,
            vg1,
            vg2,
            dp_pass(g, vg1, states, order, k - 1),
            order[k - 1],
            g.edge_count(),
        );
    }
}

/// Two snapshots with the same values carry the same heuristic path and
/// prefer the same branch edge.
pub(crate) proof fn lemma_heuristic_congruent(
    g: RouteGraph,
    vg1: ValueGraph,
    vg2: ValueGraph,
    first: int,
    last: int,
    chain: Seq<int>,
    k: int,
)
    requires
        vg1.values@ == vg2.values@,
        0 <= k,
    ensures
        hp_states(g, vg1, first, last) == hp_states(g, vg2, first, last),
        best_branch(vg1, chain, k) == best_branch(vg2, chain, k),
    decreases k,
{
    lemma_po_node_congruent(
        g,
        vg1,
        vg2,
        (g.node_count() + 1) as nat,
        first,
        Seq::new(g.node_count() as nat, |i: int| false),
    );
    lemma_dp_pass_congruent(
        g,
        vg1,
        vg2,
        init_states(g, last),
        postorder_spec(g, vg1, first),
        postorder_spec(g, vg1, first).len() as int,
    );
    if k > 0 {
        lemma_heuristic_congruent(g, vg1, vg2, first, last, chain, k - 1);
    }
}

} // verus!
