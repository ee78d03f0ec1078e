//! The Value Graph: a read-only snapshot of the graph in which every edge
//! carries the solver's current value for its decision variable.  A snapshot
//! is rebuilt fresh each time a solver callback fires and discarded when the
//! callback returns; it is never mutated.
//!
//! Values are fixed-point numbers with [`VALUE_SCALE`] units per 1.0; an
//! edge whose value does not exceed [`VALUE_EPS`] units is treated as absent
//! for traversal purposes.

use vstd::prelude::*;
use crate::graph::RouteGraph;
use crate::lp::Solution;
use crate::lp::VarRefs;

verus! {

/// Fixed-point units per 1.0 of solver value.
pub const VALUE_SCALE: u64 = 1_000_000;

/// Numerical epsilon, in fixed-point units: an edge at or below this value
/// is absent.
pub const VALUE_EPS: u64 = 1;

/// Half of 1.0, in fixed-point units; a variable this far from both bounds
/// is maximally undecided.
pub const VALUE_HALF: u64 = 500_000;

/// Snapshot of the solver's current assignment: one fixed-point value per
/// edge of the graph, indexed by edge identifier.
#[derive(Clone, Debug, PartialEq, Eq)]
#[verifier::ext_equal]
pub struct ValueGraph {
    pub values: Vec<u64>,
}

impl ValueGraph {
    /// The snapshot covers exactly the edges of `g`.
    pub open spec fn matches(self, g: RouteGraph) -> bool {
        self.values@.len() == g.edge_count()
    }

    /// Whether the edge with this identifier is present: its value exceeds
    /// the numerical epsilon.
    pub open spec fn spec_present(self, e: int) -> bool {
        self.values@[e] > VALUE_EPS
    }

    /// Build the snapshot from the assignment the solver reported, reading
    /// the decision variable of each edge from its block of references.
    pub fn new(g: &RouteGraph, values: &Solution, edges: VarRefs) -> (r: ValueGraph)
        requires
            edges.wf(),
            edges.len == g.edge_count(),
            edges.first + edges.len <= values.spec_len() + 1,
        ensures
            r.matches(*g),
            forall|e: int|
                0 <= e < g.edge_count() ==> r.values@[e] == values.spec_value(edges.spec_get(e)),
    {
        let m = g.edges.len();
        let mut vs: Vec<u64> = Vec::new();
        let mut e: usize = 0;
        while e < m
            invariant
                e <= m,
                m == g.edge_count(),
                edges.wf(),
                edges.len == m,
                edges.first + edges.len <= values.spec_len() + 1,
                vs@.len() == e,
                forall|j: int| 0 <= j < e ==> vs@[j] == values.spec_value(edges.spec_get(j)),
            decreases m - e,
        {
            vs.push(values.get(edges.get(e)));
            e = e + 1;
        }
        ValueGraph { values: vs }
    }

    /// Whether the edge with this identifier is present in the snapshot.
    pub fn present(&self, e: usize) -> (r: bool)
        requires
            e < self.values@.len(),
        ensures
            r == self.spec_present(e as int),
    {
        self.values[e] > VALUE_EPS
    }
}

/// One present edge of a snapshot, with its endpoints and value.
#[derive(Clone, Copy, Debug, PartialEq, Eq, Structural)]
pub struct EdgeReference {
    pub index: usize,
    pub source: usize,
    pub target: usize,
    pub weight: u64,
}

impl EdgeReference {
    pub fn id(&self) -> (r: usize)
        ensures
            r == self.index,
    {
        self.index
    }

    pub fn source(&self) -> (r: usize)
        ensures
            r == self.source,
    {
        self.source
    }

    pub fn target(&self) -> (r: usize)
        ensures
            r == self.target,
    {
        self.target
    }

    pub fn weight(&self) -> (r: u64)
        ensures
            r == self.weight,
    {
        self.weight
    }
}

impl ValueGraph {
    /// The reference the present edge `e` of graph `g` gives rise to.
    pub open spec fn spec_edge_reference(self, g: RouteGraph, e: int) -> EdgeReference {
        EdgeReference {
            index: e as usize,
            source: g.edges@[e].source,
            target: g.edges@[e].target,
            weight: self.values@[e],
        }
    }

    /// The present edges of the snapshot, ascending by edge identifier.
    pub open spec fn spec_edge_references(self, g: RouteGraph, k: int) -> Seq<EdgeReference>
        decreases k,
    {
        if k <= 0 {
            Seq::empty()
        } else if self.spec_present(k - 1) {
            self.spec_edge_references(g, k - 1).push(self.spec_edge_reference(g, k - 1))
        } else {
            self.spec_edge_references(g, k - 1)
        }
    }

    /// All present edges of the snapshot, ascending by edge identifier.
    pub fn edge_references(&self, g: &RouteGraph) -> (r: Vec<EdgeReference>)
        requires
            self.matches(*g),
        ensures
            r@ == self.spec_edge_references(*g, g.edge_count()),
    {
        let m = g.edges.len();
        let mut r: Vec<EdgeReference> = Vec::new();
        let mut e: usize = 0;
        while e < m
            invariant
                e <= m,
                m == g.edge_count(),
                self.matches(*g),
                r@ == self.spec_edge_references(*g, e as int),
            decreases m - e,
        {
            if self.present(e) {
                r.push(EdgeReference {
                    index: e,
                    source: g.edges[e].source,
                    target: g.edges[e].target,
                    weight: self.values[e],
                });
            }
            e = e + 1;
        }
        r
    }
}

} // verus!
