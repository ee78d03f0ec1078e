//! The progress-reporting boundary: at each solver event the core hands a
//! render plan — a label, the snapshot's present edges, the visible nodes
//! and the current heuristic chain — to the outside visualization sink.
//! The sink performs the drawing and the file traffic; the core treats the
//! whole channel as fire-and-forget and never depends on its success.

use vstd::prelude::*;
use crate::graph::RouteGraph;
use crate::heuristic::chain_from;
use crate::heuristic::heuristic_chain;
use crate::heuristic::heuristic_path;
use crate::heuristic::hp_states;
use crate::solution::chain_ints;
use crate::value::ValueGraph;

verus! {

/// The solver event a rendered frame belongs to.
#[derive(Clone, Copy, Debug, PartialEq, Eq, Structural)]
pub enum RenderKind {
    /// A connectivity cut was just generated.
    Cut,
    /// A relaxation was solved and the search is about to branch.
    Branch,
    /// A new best integral solution was found.
    Solution,
    /// The final best solution after the search ended.
    Best,
}

/// The label of one rendered frame: the running frame index, the event, and
/// the solve, branch and cut counters at the time; the sink derives the
/// file name from these.
#[derive(Clone, Copy, Debug, PartialEq, Eq, Structural)]
pub struct RenderLabel {
    pub index: u64,
    pub kind: RenderKind,
    pub solve: u64,
    pub branch: u64,
    pub cut: u64,
}

/// One frame handed to the visualization sink: the labelled snapshot, the
/// nodes worth drawing (those touching a present edge) and the heuristic
/// chain to highlight.
#[derive(Clone, Debug, PartialEq, Eq)]
pub struct RenderPlan {
    pub label: RenderLabel,
    /// The fixed-point edge values of the snapshot.
    pub values: Vec<u64>,
    /// Per node, whether a present edge touches it.
    pub visible: Vec<bool>,
    /// The heuristic chain's edges, in chain order.
    pub heuristic: Vec<usize>,
    /// The entry node.
    pub first: usize,
    /// The goal node.
    pub last: usize,
}

/// Node `i` touches some present edge of the snapshot.
pub open spec fn node_visible(g: RouteGraph, vg: ValueGraph, i: int) -> bool {
    exists|e: int|
        0 <= e < g.edge_count() && vg.spec_present(e) && ((#[trigger] g.edges@[e]).source == i
            || g.edges@[e].target == i)
}

/// The handle to the visualization sink: it only remembers the folder the
/// sink writes under; creating and clearing that folder is the sink's own
/// business.
#[derive(Clone, Debug, PartialEq, Eq)]
pub struct Renderer {
    pub folder: String,
}

impl Renderer {
    /// A renderer writing under the given folder.
    pub fn new(folder: String) -> (r: Self)
        ensures
            r.folder == folder,
    {
        Renderer { folder }
    }

    /// Build the frame for the given snapshot: exactly the nodes touching
    /// a present edge are visible, and the highlighted chain is the
    /// heuristic path of the snapshot.
    pub fn render(
        &self,
        label: RenderLabel,
        g: &RouteGraph,
        values: &ValueGraph,
        first: usize,
        last: usize,
    ) -> (r: RenderPlan)
        requires
            g.wf(),
            values.matches(*g),
            first < g.node_count(),
            last < g.node_count(),
        ensures
            r.label == label,
            r.first == first,
            r.last == last,
            r.values@ == values.values@,
            r.visible@.len() == g.node_count(),
            forall|i: int|
                0 <= i < g.node_count() ==> (#[trigger] r.visible@[i] <==> node_visible(
                    *g,
                    *values,
                    i,
                )),
            chain_ints(r.heuristic@) == chain_from(
                *g,
                hp_states(*g, *values, first as int, last as int),
                first as int,
                (g.node_count() + 1) as nat,
            ),
    {
        let n = g.nodes.len();
        let m = g.edges.len();
        let mut visible: Vec<bool> = Vec::new();
        let mut i: usize = 0;
        while i < n
            invariant
                i <= n,
                visible@.len() == i,
                forall|j: int| 0 <= j < i ==> !visible@[j],
            decreases n - i,
        {
            visible.push(false);
            i = i + 1;
        }
        let mut e: usize = 0;
        while e < m
            invariant
                e <= m,
                g.wf(),
                values.matches(*g),
                n == g.node_count(),
                m == g.edge_count(),
                visible@.len() == n,
                forall|j: int|
                    0 <= j < n ==> (#[trigger] visible@[j] <==> exists|x: int|
                        0 <= x < e && values.spec_present(x) && ((#[trigger] g.edges@[x]).source
                            == j || g.edges@[x].target == j)),
            decreases m - e,
        {
            if values.present(e) {
                let edge = &g.edges[e];
                visible.set(edge.source, true);
                visible.set(edge.target, true);
            }
            e = e + 1;
        }
        let hp = heuristic_path(g, values, first, last);
        let heuristic = heuristic_chain(g, hp);
        let snapshot = values.values.clone();
        proof {
            assert(snapshot@ =~= values.values@);
        }
        RenderPlan { label, values: snapshot, visible, heuristic, first, last }
    }
}

} // verus!
