use fez_route::check_solution;
use fez_route::optimize;
use fez_route::ConfigError;
use fez_route::Cost;
use fez_route::Distance;
use fez_route::Edge;
use fez_route::Node;
use fez_route::RouteGraph;

fn node(name: &str, bits: i64, keys: i64, cost: Option<Cost>, time: u64) -> Node {
    Node { name: name.to_string(), bits, keys, cost, time }
}

fn edge(source: usize, target: usize, dx: u64, dy: u64, dz: u64) -> Edge {
    Edge { source, target, time: Distance { dx, dy, dz }, cost: None }
}

/// A three-node chain: entry, a middle node yielding `mid_bits`, and the
/// goal.  Edge frames: 6 per tile, diagonal rule.
fn chain_graph(mid_bits: i64) -> RouteGraph {
    RouteGraph {
        nodes: vec![
            node("hub.start", 0, 0, None, 0),
            node("hub.mid", mid_bits, 0, None, 4),
            node("hub.end", 0, 0, None, 0),
        ],
        edges: vec![edge(0, 1, 1, 0, 1), edge(1, 2, 2, 0, 2)],
    }
}

#[test]
fn validate_accepts_chain() {
    let g = chain_graph(10);
    assert_eq!(g.validate(), Ok((0, 2)));
}

#[test]
fn validate_rejects_dangling_edge() {
    let mut g = chain_graph(10);
    g.edges.push(edge(0, 9, 1, 1, 1));
    assert_eq!(g.validate(), Err(ConfigError::DanglingEdge));
}

#[test]
fn validate_rejects_negative_bits() {
    let mut g = chain_graph(10);
    g.nodes[1].bits = -1;
    assert_eq!(g.validate(), Err(ConfigError::ValueOutOfRange));
}

#[test]
fn validate_rejects_missing_entry() {
    // A two-node cycle: no node without incoming edges.
    let g = RouteGraph {
        nodes: vec![node("a.a", 0, 0, None, 0), node("a.b", 0, 0, None, 0)],
        edges: vec![edge(0, 1, 1, 0, 1), edge(1, 0, 1, 0, 1)],
    };
    assert_eq!(g.validate(), Err(ConfigError::NoEntryNode));
}

#[test]
fn validate_rejects_two_entries() {
    let g = RouteGraph {
        nodes: vec![
            node("a.a", 0, 0, None, 0),
            node("a.b", 0, 0, None, 0),
            node("a.c", 0, 0, None, 0),
        ],
        edges: vec![edge(0, 2, 1, 0, 1), edge(1, 2, 1, 0, 1)],
    };
    assert_eq!(g.validate(), Err(ConfigError::MultipleEntryNodes));
}

#[test]
fn validate_rejects_two_goals() {
    let g = RouteGraph {
        nodes: vec![
            node("a.a", 0, 0, None, 0),
            node("a.b", 0, 0, None, 0),
            node("a.c", 0, 0, None, 0),
        ],
        edges: vec![edge(0, 1, 1, 0, 1), edge(0, 2, 1, 0, 1)],
    };
    assert_eq!(g.validate(), Err(ConfigError::MultipleGoalNodes));
}

// The only feasible selection of the chain takes both edges; the checker
// accepts exactly it and reports the exact totals: edge frames 6 and 12,
// plus the middle node's dwell of 4.
#[test]
fn three_node_chain_selects_both_edges() {
    let g = chain_graph(10);
    let both = vec![true, true];
    let sol = check_solution(&g, &both, 0, 2, 10).expect("feasible chain");
    assert_eq!(sol.edges, vec![0, 1]);
    assert_eq!(sol.total_bits, 10);
    // 6 frames + 4 dwell for the first edge, 12 frames + 0 dwell for the
    // second.
    assert_eq!(sol.total_time, 22);

    assert!(check_solution(&g, &vec![true, false], 0, 2, 10).is_none());
    assert!(check_solution(&g, &vec![false, true], 0, 2, 10).is_none());
    assert!(check_solution(&g, &vec![false, false], 0, 2, 10).is_none());
}

#[test]
fn insufficient_bits_rejected_even_for_full_path() {
    let g = chain_graph(5);
    let both = vec![true, true];
    assert!(check_solution(&g, &both, 0, 2, 10).is_none());
}

#[test]
fn zero_required_bits_admits_trivial_path() {
    let g = chain_graph(0);
    let both = vec![true, true];
    let sol = check_solution(&g, &both, 0, 2, 0).expect("trivial path");
    assert_eq!(sol.total_bits, 0);
}

/// Two disjoint entry-to-goal paths: a short one with no bits and a longer
/// one with enough.
fn forked_graph() -> RouteGraph {
    RouteGraph {
        nodes: vec![
            node("hub.start", 0, 0, None, 0),
            node("hub.short", 0, 0, None, 1),
            node("hub.long", 20, 0, None, 9),
            node("hub.end", 0, 0, None, 0),
        ],
        edges: vec![
            edge(0, 1, 1, 0, 1),
            edge(1, 3, 1, 0, 1),
            edge(0, 2, 5, 0, 5),
            edge(2, 3, 5, 0, 5),
        ],
    }
}

// Only the longer path with sufficient bits is feasible: the shorter one
// is rejected, never reported as a result.
#[test]
fn forked_graph_takes_the_sufficient_path() {
    let g = forked_graph();
    let short = vec![true, true, false, false];
    let long = vec![false, false, true, true];
    assert!(check_solution(&g, &short, 0, 3, 20).is_none());
    let sol = check_solution(&g, &long, 0, 3, 20).expect("long path feasible");
    assert_eq!(sol.edges, vec![2, 3]);
    assert_eq!(sol.total_bits, 20);
    // Two edges of 30 frames each, plus 9 frames of dwell at the long
    // node.
    assert_eq!(sol.total_time, 69);
}

#[test]
fn selection_with_detached_cycle_rejected() {
    // Path 0 -> 1 -> 4 plus a detached two-cycle between 2 and 3: every
    // node has one selected out-edge, but the leftovers are not walked.
    let g = RouteGraph {
        nodes: vec![
            node("a.s", 0, 0, None, 0),
            node("a.m", 10, 0, None, 0),
            node("a.x", 0, 0, None, 0),
            node("a.y", 0, 0, None, 0),
            node("a.t", 0, 0, None, 0),
        ],
        edges: vec![
            edge(0, 1, 1, 0, 1),
            edge(1, 4, 1, 0, 1),
            edge(2, 3, 1, 0, 1),
            edge(3, 2, 1, 0, 1),
            edge(1, 2, 1, 0, 1),
            edge(3, 4, 1, 0, 1),
        ],
    };
    let with_cycle = vec![true, true, true, true, false, false];
    assert!(check_solution(&g, &with_cycle, 0, 4, 0).is_none());
    let plain = vec![true, true, false, false, false, false];
    assert!(check_solution(&g, &plain, 0, 4, 0).is_some());
}

#[test]
fn optimize_rejects_invalid_and_encodes_valid() {
    let bad = RouteGraph {
        nodes: vec![node("a.a", 0, 0, None, 0), node("a.b", 0, 0, None, 0)],
        edges: vec![edge(0, 1, 1, 0, 1), edge(1, 0, 1, 0, 1)],
    };
    assert!(optimize(&bad, 0).is_err());

    let g = chain_graph(10);
    let enc = optimize(&g, 10).expect("valid graph encodes");
    assert_eq!(enc.first_node, 0);
    assert_eq!(enc.last_node, 2);
    assert_eq!(enc.required_bits, 10);
    assert_eq!(enc.edges.first, 1);
    assert_eq!(enc.edges.len, 2);
    assert_eq!(enc.problem.vars.len(), 2);
    // Flow rows for the three nodes, one capacity row for the middle
    // node, one dominator row (the goal's immediate dominator is the
    // middle node), no opposite pairs, and the three global rows.
    assert_eq!(enc.problem.exprs.len(), 3 + 1 + 1 + 0 + 3);
}

#[test]
fn cost_defaults_to_free() {
    assert_eq!(Cost::default(), Cost::Free);
}

#[test]
fn single_node_graph_is_valid_but_pathless() {
    let g = RouteGraph { nodes: vec![node("a.only", 0, 0, None, 0)], edges: vec![] };
    assert_eq!(g.validate(), Ok((0, 0)));
    // The empty selection is the path from the node to itself.
    let sol = check_solution(&g, &vec![], 0, 0, 0).expect("empty route");
    assert_eq!(sol.edges, Vec::<usize>::new());
    assert_eq!(sol.total_bits, 0);
    assert_eq!(sol.total_time, 0);
}
