use fez_route::capacity_exprs;
use fez_route::dominator_exprs;
use fez_route::edge_vars;
use fez_route::flow_exprs;
use fez_route::key_vars;
use fez_route::Bounds;
use fez_route::Cost;
use fez_route::Distance;
use fez_route::Edge;
use fez_route::ExprName;
use fez_route::Kind;
use fez_route::Node;
use fez_route::RouteGraph;
use fez_route::Term;
use fez_route::VarName;
use fez_route::VarRef;
use fez_route::VarRefs;

fn node(name: &str, bits: i64, keys: i64, cost: Option<Cost>, time: u64) -> Node {
    Node { name: name.to_string(), bits, keys, cost, time }
}

fn edge(source: usize, target: usize, dx: u64, dy: u64, dz: u64) -> Edge {
    Edge { source, target, time: Distance { dx, dy, dz }, cost: None }
}

fn refs(len: i32) -> VarRefs {
    VarRefs { first: 1, len }
}

/// Entry 0, middle 1 (10 bits, 4 frames dwell), goal 2.
fn chain() -> RouteGraph {
    RouteGraph {
        nodes: vec![
            node("hub.start", 0, 0, None, 0),
            node("hub.mid", 10, 0, None, 4),
            node("hub.end", 0, 0, None, 0),
        ],
        edges: vec![edge(0, 1, 1, 0, 1), edge(1, 2, 2, 0, 2)],
    }
}

#[test]
fn edge_vars_carry_objective_time() {
    let g = chain();
    let vars = edge_vars(&g);
    assert_eq!(vars.len(), 2);
    assert_eq!(vars[0].name, VarName::Edge(0));
    assert_eq!(vars[0].kind, Kind::Int);
    assert_eq!(vars[0].bounds, Bounds::Double(0, 1));
    // min(dx, dz) = 1 tile -> 6 frames, plus the target's dwell of 4.
    assert_eq!(vars[0].objective, 10);
    // 2 tiles -> 12 frames, goal dwell 0.
    assert_eq!(vars[1].objective, 12);
}

#[test]
fn edge_frames_use_the_diagonal_rule() {
    let vertical = Edge { source: 0, target: 1, time: Distance { dx: 1, dy: 9, dz: 1 }, cost: None };
    assert_eq!(vertical.get_frames(), 54);
    let flat = Edge { source: 0, target: 1, time: Distance { dx: 3, dy: 1, dz: 7 }, cost: None };
    assert_eq!(flat.get_frames(), 18);
}

#[test]
fn key_vars_are_continuous_and_free() {
    let g = chain();
    let vars = key_vars(&g);
    assert_eq!(vars.len(), 3);
    assert_eq!(vars[1].name, VarName::Keys(1));
    assert_eq!(vars[1].kind, Kind::Float);
    assert_eq!(vars[1].bounds, Bounds::Lower(0));
    assert_eq!(vars[1].objective, 0);
}

#[test]
fn flow_rows_balance_entry_and_goal() {
    let g = chain();
    let rows = flow_exprs(&g, refs(2), 0, 2);
    assert_eq!(rows.len(), 3);
    assert_eq!(rows[0].name, ExprName::Flow(0));
    assert_eq!(rows[0].bounds, Bounds::Fixed(1));
    // The entry has no incoming edge: only its outgoing edge, with
    // coefficient one.
    assert_eq!(rows[0].terms, vec![Term(VarRef(1), 1)]);
    assert_eq!(rows[1].bounds, Bounds::Fixed(0));
    // Incoming with minus one first, then outgoing with one.
    assert_eq!(rows[1].terms, vec![Term(VarRef(1), -1), Term(VarRef(2), 1)]);
    assert_eq!(rows[2].bounds, Bounds::Fixed(-1));
    assert_eq!(rows[2].terms, vec![Term(VarRef(2), -1)]);
}

#[test]
fn capacity_rows_skip_entry_and_goal() {
    let g = chain();
    let rows = capacity_exprs(&g, refs(2), 0, 2);
    assert_eq!(rows.len(), 1);
    assert_eq!(rows[0].name, ExprName::Capacity(1));
    assert_eq!(rows[0].bounds, Bounds::Upper(1));
    // The incoming direction is the bound one.
    assert_eq!(rows[0].terms, vec![Term(VarRef(1), 1)]);
}

#[test]
fn dominator_rows_gate_on_the_sole_gateway() {
    let g = chain();
    // Hand-fed immediate dominators: the middle node is dominated by the
    // entry (no row), the goal by the middle node (one row).
    let idoms = vec![None, Some(0), Some(1)];
    let rows = dominator_exprs(&g, refs(2), 0, &idoms);
    assert_eq!(rows.len(), 1);
    assert_eq!(rows[0].name, ExprName::Dominator(2));
    assert_eq!(rows[0].bounds, Bounds::Upper(0));
    // Incoming edges of the goal with one, incoming of the gateway with
    // minus one.
    assert_eq!(rows[0].terms, vec![Term(VarRef(2), 1), Term(VarRef(1), -1)]);
}

#[test]
fn oneof_row_covers_tagged_targets() {
    let mut g = chain();
    g.nodes[1].cost = Some(Cost::Oneof);
    let row = fez_route::oneof_expr(&g, refs(2));
    assert_eq!(row.name, ExprName::Oneof);
    assert_eq!(row.bounds, Bounds::Upper(1));
    assert_eq!(row.terms, vec![Term(VarRef(1), 1)]);
}

#[test]
fn required_bits_row_scales_by_target_yield() {
    let g = chain();
    let row = fez_route::required_bits_expr(&g, refs(2), 10);
    assert_eq!(row.name, ExprName::TotalBits);
    assert_eq!(row.bounds, Bounds::Lower(10));
    // Only the edge entering the middle node carries bits.
    assert_eq!(row.terms, vec![Term(VarRef(1), 10)]);
}

#[test]
fn key_row_subtracts_locks() {
    let mut g = chain();
    g.nodes[1].keys = 2;
    g.nodes[2].cost = Some(Cost::Lock);
    let row = fez_route::total_keys_expr(&g, refs(2));
    assert_eq!(row.name, ExprName::TotalKeys);
    assert_eq!(row.bounds, Bounds::Lower(0));
    // Entering the middle node gains two keys; entering the lock costs
    // one.
    assert_eq!(row.terms, vec![Term(VarRef(1), 2), Term(VarRef(2), -1)]);
}

#[test]
fn keys_minus_lock_counts_the_lock() {
    let free = node("a.a", 0, 3, None, 0);
    assert_eq!(free.keys_minus_lock(), 3);
    let lock = node("a.b", 0, 0, Some(Cost::Lock), 0);
    assert_eq!(lock.keys_minus_lock(), -1);
}

#[test]
fn order_keys_rows_tie_potentials() {
    let mut g = chain();
    g.nodes[1].keys = 1;
    let edges = refs(2);
    let keys = VarRefs { first: 3, len: 3 };
    let rows = fez_route::order_keys_exprs(&g, edges, keys);
    assert_eq!(rows.len(), 2);
    assert_eq!(rows[0].name, ExprName::KeyOrder(0));
    // Whole-graph key total is 1; the first edge enters the middle node
    // with a net effect of one key.
    assert_eq!(rows[0].bounds, Bounds::Upper(2));
    assert_eq!(
        rows[0].terms,
        vec![Term(VarRef(4), 1), Term(VarRef(3), -1), Term(VarRef(1), 1)]
    );
}

#[test]
fn two_cycle_rows_forbid_opposite_pairs() {
    let g = RouteGraph {
        nodes: vec![
            node("a.s", 0, 0, None, 0),
            node("a.x", 0, 0, None, 0),
            node("a.y", 0, 0, None, 0),
            node("a.t", 0, 0, None, 0),
        ],
        edges: vec![
            edge(0, 1, 1, 0, 1),
            edge(1, 2, 1, 0, 1),
            edge(2, 1, 1, 0, 1),
            edge(2, 3, 1, 0, 1),
        ],
    };
    let rows = fez_route::no_2_cycles(&g, refs(4));
    assert_eq!(rows.len(), 1);
    assert_eq!(rows[0].name, ExprName::TwoCycle(1, 2));
    assert_eq!(rows[0].bounds, Bounds::Upper(1));
    assert_eq!(rows[0].terms, vec![Term(VarRef(2), 1), Term(VarRef(3), 1)]);
}

#[test]
fn three_cycle_rows_cap_the_triangle() {
    // Triangle 0 -> 1 -> 2 -> 0 entered from an entry 3?  The apex rule
    // demands the middle node of the pair to have the lowest identifier:
    // edges 1->2 (source edge into 1?); build triangle over nodes 0,1,2
    // with apex 0: s = 1->0?  Use edges: 2->0 source edge, 0->1 target
    // edge, back edge 1->2.
    let g = RouteGraph {
        nodes: vec![
            node("a.a", 0, 0, None, 0),
            node("a.b", 0, 0, None, 0),
            node("a.c", 0, 0, None, 0),
        ],
        edges: vec![edge(2, 0, 1, 0, 1), edge(0, 1, 1, 0, 1), edge(1, 2, 1, 0, 1)],
    };
    let rows = fez_route::no_3_cycles(&g, refs(3));
    assert_eq!(rows.len(), 1);
    assert_eq!(rows[0].name, ExprName::ThreeCycle(0, 1, 2));
    assert_eq!(rows[0].bounds, Bounds::Upper(2));
    assert_eq!(
        rows[0].terms,
        vec![Term(VarRef(1), 1), Term(VarRef(2), 1), Term(VarRef(3), 1)]
    );
}

#[test]
fn find_edge_returns_the_lowest_match() {
    let g = RouteGraph {
        nodes: vec![node("a.a", 0, 0, None, 0), node("a.b", 0, 0, None, 0)],
        edges: vec![edge(0, 1, 1, 0, 1), edge(0, 1, 2, 0, 2)],
    };
    assert_eq!(fez_route::find_edge(&g, 0, 1), Some(0));
    assert_eq!(fez_route::find_edge(&g, 1, 0), None);
}
