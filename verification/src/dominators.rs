//! Immediate dominators of the entry node's subgraph, computed by the
//! outside graph library.  The caller hands in a plain edge list (already
//! filtered to the non-secret edges) and receives one optional immediate
//! dominator per node; everything the encoder then builds from them is
//! verified against that vector.

use vstd::prelude::*;
use crate::graph::MAX_INDEX;
use petgraph::graph::DiGraph;
use petgraph::graph::NodeIndex;

verus! {

/// The immediate-dominator vector of the directed graph with `n` nodes and
/// the given edge list, rooted at `root`: a pure function of its arguments,
/// computed by the outside library.
pub uninterp spec fn idom_seq(n: int, edges: Seq<(usize, usize)>, root: int) -> Seq<Option<usize>>;

/// Relies on petgraph's `dominators::simple_fast`: the immediate dominator
/// of every node reachable from the root except the root itself, `None` for
/// the root and for unreachable nodes; every dominator is a node of the
/// graph, and the result depends on the arguments alone.
#[verifier::external_body]
pub fn immediate_dominators(n: usize, edges: &Vec<(usize, usize)>, root: usize) -> (r: Vec<
    Option<usize>,
>)
    requires
        root < n,
        n <= MAX_INDEX,
        edges@.len() <= MAX_INDEX,
        forall|i: int|
            0 <= i < edges@.len() ==> (#[trigger] edges@[i]).0 < n && edges@[i].1 < n,
    ensures
        r@.len() == n,
        forall|i: int| 0 <= i < n ==> ((#[trigger] r@[i]) is Some ==> r@[i]->0 < n),
        r@[root as int] is None,
        r@ == idom_seq(n as int, edges@, root as int),
{
    let mut g = DiGraph::<(), ()>::new();
    for _ in 0..n {
        g.add_node(());
    }
    for &(s, t) in edges.iter() {
        g.add_edge(NodeIndex::new(s), NodeIndex::new(t), ());
    }
    let doms = petgraph::algo::dominators::simple_fast(&g, NodeIndex::new(root));
    (0..n).map(|i| doms.immediate_dominator(NodeIndex::new(i)).map(|d| d.index())).collect()
}

} // verus!
