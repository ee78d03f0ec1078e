use fez_route::get_connected_nodes;
use fez_route::heuristic_branch_edge;
use fez_route::heuristic_chain;
use fez_route::heuristic_path;
use fez_route::lazy_required_bits_expr;
use fez_route::postorder;
use fez_route::Bounds;
use fez_route::Cost;
use fez_route::Distance;
use fez_route::Edge;
use fez_route::ExprName;
use fez_route::Node;
use fez_route::RouteGraph;
use fez_route::Term;
use fez_route::ValueGraph;
use fez_route::VarRef;
use fez_route::VarRefs;
use fez_route::VALUE_SCALE;

fn node(name: &str, bits: i64, keys: i64, cost: Option<Cost>, time: u64) -> Node {
    Node { name: name.to_string(), bits, keys, cost, time }
}

fn edge(source: usize, target: usize, dx: u64, dy: u64, dz: u64) -> Edge {
    Edge { source, target, time: Distance { dx, dy, dz }, cost: None }
}

fn refs(len: i32) -> VarRefs {
    VarRefs { first: 1, len }
}

/// Entry 0, short branch 1 without bits, long branch 2 with 20 bits,
/// goal 3.
fn forked() -> RouteGraph {
    RouteGraph {
        nodes: vec![
            node("hub.start", 0, 0, None, 0),
            node("hub.short", 0, 0, None, 1),
            node("hub.long", 20, 0, None, 9),
            node("hub.end", 0, 0, None, 0),
        ],
        edges: vec![
            edge(0, 1, 1, 0, 1),
            edge(1, 3, 1, 0, 1),
            edge(0, 2, 5, 0, 5),
            edge(2, 3, 5, 0, 5),
        ],
    }
}

#[test]
fn connected_nodes_follow_present_edges() {
    let g = forked();
    // Only the short path's edges are present.
    let vg = ValueGraph { values: vec![VALUE_SCALE, VALUE_SCALE, 0, 0] };
    let (reached, bits) = get_connected_nodes(&g, &vg, 0);
    assert_eq!(reached, vec![true, true, false, true]);
    assert_eq!(bits, 0);

    // With the fork present too, everything is reached.
    let vg = ValueGraph { values: vec![VALUE_SCALE, VALUE_SCALE, VALUE_SCALE, 0] };
    let (reached, bits) = get_connected_nodes(&g, &vg, 0);
    assert_eq!(reached, vec![true, true, true, true]);
    assert_eq!(bits, 20);
}

// A snapshot that walks the short, bitless path provokes a connectivity
// cut over its boundary edge; the cut is keyed by the reached node set.
#[test]
fn short_path_snapshot_gets_a_cut() {
    let g = forked();
    let vg = ValueGraph { values: vec![VALUE_SCALE, VALUE_SCALE, 0, 0] };
    let cut = lazy_required_bits_expr(&g, refs(4), 0, 20, &vg).expect("cut expected");
    assert_eq!(cut.bounds, Bounds::Lower(1));
    assert_eq!(cut.name, ExprName::Cut(vec![0, 1, 3]));
    // The one edge from the reached set into the unreached one.
    assert_eq!(cut.terms, vec![Term(VarRef(3), 1)]);
}

#[test]
fn sufficient_snapshot_gets_no_cut() {
    let g = forked();
    let vg = ValueGraph { values: vec![0, 0, VALUE_SCALE, VALUE_SCALE] };
    assert!(lazy_required_bits_expr(&g, refs(4), 0, 20, &vg).is_none());
}

// With no bits required the cut generator stays quiet on every snapshot,
// even an empty one.
#[test]
fn zero_required_bits_never_cuts() {
    let g = forked();
    let empty = ValueGraph { values: vec![0, 0, 0, 0] };
    assert!(lazy_required_bits_expr(&g, refs(4), 0, 0, &empty).is_none());
    let full = ValueGraph { values: vec![VALUE_SCALE; 4] };
    assert!(lazy_required_bits_expr(&g, refs(4), 0, 0, &full).is_none());
}

// When the whole graph holds fewer bits than required, every snapshot
// provokes a cut.
#[test]
fn insufficient_total_bits_always_cuts() {
    let g = forked();
    let all_present = ValueGraph { values: vec![VALUE_SCALE; 4] };
    assert!(lazy_required_bits_expr(&g, refs(4), 0, 21, &all_present).is_some());
    let nothing = ValueGraph { values: vec![0; 4] };
    assert!(lazy_required_bits_expr(&g, refs(4), 0, 21, &nothing).is_some());
}

#[test]
fn postorder_visits_descendants_first() {
    let g = forked();
    let vg = ValueGraph { values: vec![VALUE_SCALE; 4] };
    // From the entry: first out-edge reaches the short node, whose own
    // edge finishes the goal; then the long branch; the entry finishes
    // last.
    assert_eq!(postorder(&g, &vg, 0), vec![3, 1, 2, 0]);
}

#[test]
fn heuristic_path_prefers_bits_over_time() {
    let g = forked();
    let vg = ValueGraph { values: vec![VALUE_SCALE; 4] };
    let hp = heuristic_path(&g, &vg, 0, 3);
    // The entry's chain takes the long, bit-rich branch despite its
    // higher time.
    let chain = heuristic_chain(&g, hp);
    assert_eq!(chain, vec![2, 3]);
}

#[test]
fn heuristic_path_breaks_bit_ties_by_time() {
    let mut g = forked();
    g.nodes[2].bits = 0;
    let vg = ValueGraph { values: vec![VALUE_SCALE; 4] };
    let hp = heuristic_path(&g, &vg, 0, 3);
    // With equal bits everywhere the quicker branch wins: 6 + 1 + 6
    // frames against 30 + 9 + 30.
    let chain = heuristic_chain(&g, hp);
    assert_eq!(chain, vec![0, 1]);
}

// Repeated computation over an unchanged snapshot yields identical chosen
// edges.
#[test]
fn heuristic_path_is_deterministic() {
    let g = forked();
    let vg = ValueGraph { values: vec![VALUE_SCALE, 700_000, 300_000, VALUE_SCALE] };
    let a = heuristic_path(&g, &vg, 0, 3);
    let b = heuristic_path(&g, &vg, 0, 3);
    assert_eq!(a, b);
    let ca = heuristic_chain(&g, a);
    let cb = heuristic_chain(&g, b);
    assert_eq!(ca, cb);
}

#[test]
fn branch_picks_the_most_undecided_chain_edge() {
    let g = forked();
    // The long branch is present enough to carry the chain; its first
    // edge sits at 0.6, the second is pinned at 1.0.
    let vg = ValueGraph { values: vec![0, 0, 600_000, VALUE_SCALE] };
    let hp = heuristic_path(&g, &vg, 0, 3);
    assert_eq!(heuristic_branch_edge(&g, &vg, hp), Some(2));
}

#[test]
fn branch_abstains_when_the_chain_is_pinned() {
    let g = forked();
    let vg = ValueGraph { values: vec![0, 0, VALUE_SCALE, VALUE_SCALE] };
    let hp = heuristic_path(&g, &vg, 0, 3);
    assert_eq!(heuristic_branch_edge(&g, &vg, hp), None);
}

#[test]
fn value_graph_presence_uses_the_epsilon() {
    let g = forked();
    let vg = ValueGraph { values: vec![0, 1, 2, VALUE_SCALE] };
    let present = vg.edge_references(&g);
    // Value 1 sits exactly at the epsilon and counts as absent.
    assert_eq!(present.len(), 2);
    assert_eq!(present[0].index, 2);
    assert_eq!(present[0].weight, 2);
    assert_eq!(present[1].index, 3);
    assert_eq!(present[1].source, 2);
    assert_eq!(present[1].target, 3);
}

// A cyclic snapshot: the search must terminate and discover the whole
// strongly-connected part reachable from the entry.
#[test]
fn connected_nodes_handle_cycles() {
    let g = RouteGraph {
        nodes: vec![
            node("a.s", 1, 0, None, 0),
            node("a.x", 2, 0, None, 0),
            node("a.y", 4, 0, None, 0),
            node("a.t", 8, 0, None, 0),
        ],
        edges: vec![
            edge(0, 1, 1, 0, 1),
            edge(1, 2, 1, 0, 1),
            edge(2, 1, 1, 0, 1),
            edge(2, 3, 1, 0, 1),
        ],
    };
    let vg = ValueGraph { values: vec![VALUE_SCALE; 4] };
    let (reached, bits) = get_connected_nodes(&g, &vg, 0);
    assert_eq!(reached, vec![true, true, true, true]);
    assert_eq!(bits, 15);
    // The postorder also terminates over the cycle, visiting each node
    // once.
    assert_eq!(postorder(&g, &vg, 0), vec![3, 2, 1, 0]);
}

#[test]
fn heuristic_cursor_walks_the_chain() {
    let g = forked();
    let vg = ValueGraph { values: vec![VALUE_SCALE; 4] };
    let hp = heuristic_path(&g, &vg, 0, 3);
    let mut it = hp.into_iter();
    assert_eq!(it.next(&g), Some(2));
    assert_eq!(it.next(&g), Some(3));
    assert_eq!(it.next(&g), None);
    assert_eq!(it.next(&g), None);
}
