use fez_route::route_from_solution;
use fez_route::Bounds;
use fez_route::Cost;
use fez_route::Direction;
use fez_route::Distance;
use fez_route::Edge;
use fez_route::Expr;
use fez_route::ExprName;
use fez_route::Kind;
use fez_route::MipCallback;
use fez_route::Node;
use fez_route::Problem;
use fez_route::Renderer;
use fez_route::RouteGraph;
use fez_route::Solution;
use fez_route::SolveContext;
use fez_route::Term;
use fez_route::Var;
use fez_route::VarName;
use fez_route::VarRef;
use fez_route::VarRefs;
use fez_route::VALUE_SCALE;

fn node(name: &str, bits: i64, keys: i64, cost: Option<Cost>, time: u64) -> Node {
    Node { name: name.to_string(), bits, keys, cost, time }
}

fn edge(source: usize, target: usize, dx: u64, dy: u64, dz: u64) -> Edge {
    Edge { source, target, time: Distance { dx, dy, dz }, cost: None }
}

fn chain_graph(mid_bits: i64) -> RouteGraph {
    RouteGraph {
        nodes: vec![
            node("hub.start", 0, 0, None, 0),
            node("hub.mid", mid_bits, 0, None, 4),
            node("hub.end", 0, 0, None, 0),
        ],
        edges: vec![edge(0, 1, 1, 0, 1), edge(1, 2, 2, 0, 2)],
    }
}

#[test]
fn can_set_name() {
    let mut problem = Problem::new();
    problem.set_name("abc".to_owned());
    assert_eq!(problem.name.as_deref(), Some("abc"));
}

#[test]
fn problem_allocates_dense_blocks() {
    let mut problem = Problem::new();
    assert_eq!(problem.num_vars(), 0);
    let a = problem.add_vars(vec![
        Var { name: VarName::Edge(0), kind: Kind::Int, bounds: Bounds::Double(0, 1), objective: 5 },
        Var { name: VarName::Edge(1), kind: Kind::Int, bounds: Bounds::Double(0, 1), objective: 7 },
    ]);
    assert_eq!(a.first, 1);
    assert_eq!(a.len, 2);
    let b = problem.add_var(Var {
        name: VarName::Keys(0),
        kind: Kind::Float,
        bounds: Bounds::Lower(0),
        objective: 0,
    });
    assert_eq!(b, VarRef(3));
    assert_eq!(problem.num_vars(), 3);
    problem.set_direction(Direction::Maximize);
    assert_eq!(problem.direction, Direction::Maximize);
    problem.add_expr(Expr { name: ExprName::TotalBits, bounds: Bounds::Lower(1), terms: vec![] });
    assert_eq!(problem.exprs.len(), 1);
}

#[test]
fn var_refs_index_one_based() {
    let refs = VarRefs { first: 4, len: 3 };
    assert_eq!(refs.get(0), VarRef(4));
    assert_eq!(refs.get(2), VarRef(6));
    assert_eq!(refs.iter(), vec![VarRef(4), VarRef(5), VarRef(6)]);
    let term = refs.get(1).mul(-2);
    assert_eq!(term, Term(VarRef(5), -2));
}

#[test]
fn solution_slots_are_one_based() {
    let mut s = Solution::zeros(3);
    assert_eq!(s.len(), 3);
    s.set(VarRef(2), VALUE_SCALE);
    assert_eq!(s.get(VarRef(1)), 0);
    assert_eq!(s.get(VarRef(2)), VALUE_SCALE);
}

/// An assignment over the chain's two edge variables.
fn assignment(v1: u64, v2: u64) -> Solution {
    let mut s = Solution::zeros(2);
    s.set(VarRef(1), v1);
    s.set(VarRef(2), v2);
    s
}

fn context(g: RouteGraph, required_bits: i64) -> SolveContext {
    let edges = VarRefs { first: 1, len: 2 };
    SolveContext::new(g, edges, 0, 2, required_bits, Renderer::new("rendered".to_string()))
}

#[test]
fn lazy_hook_cuts_until_bits_are_reached() {
    let mut ctx = context(chain_graph(10), 10);
    // Nothing selected: the reached set is the entry alone, bits fall
    // short, a cut demanding a boundary edge appears.
    let cut = ctx.get_lazy_expr(&assignment(0, 0)).expect("cut");
    assert_eq!(cut.bounds, Bounds::Lower(1));
    assert_eq!(cut.name, ExprName::Cut(vec![0]));
    assert_eq!(cut.terms, vec![Term(VarRef(1), 1)]);
    assert_eq!(ctx.cut, 1);
    assert_eq!(ctx.branch, 0);

    // Everything selected: enough bits are reached, the relaxation
    // stands, the cut streak resets.
    assert!(ctx.get_lazy_expr(&assignment(VALUE_SCALE, VALUE_SCALE)).is_none());
    assert_eq!(ctx.cut, 0);
    assert_eq!(ctx.branch, 1);
}

// Adding the same cut row twice leaves the constraint set's meaning
// unchanged; the row is keyed by the reached node set, so the rediscovered
// infeasibility reproduces it exactly.
#[test]
fn repeated_infeasibility_reproduces_the_same_cut() {
    let mut ctx = context(chain_graph(10), 10);
    let first = ctx.get_lazy_expr(&assignment(0, 0)).expect("cut");
    let again = ctx.get_lazy_expr(&assignment(0, 0)).expect("cut");
    assert_eq!(first, again);
}

#[test]
fn branch_hook_forces_the_undecided_edge() {
    let mut ctx = context(chain_graph(10), 10);
    let pick = ctx.get_branch(&assignment(400_000, VALUE_SCALE)).expect("branch");
    assert_eq!(pick.0, VarRef(1));
    assert_eq!(pick.1, fez_route::Branch::Up);
    // A fully pinned assignment leaves the solver's default in place.
    assert!(ctx.get_branch(&assignment(VALUE_SCALE, VALUE_SCALE)).is_none());
}

#[test]
fn best_solution_hook_queues_a_frame() {
    let mut ctx = context(chain_graph(10), 10);
    assert_eq!(ctx.plans.len(), 0);
    ctx.new_best_solution(&assignment(VALUE_SCALE, VALUE_SCALE));
    assert_eq!(ctx.solve, 1);
    assert_eq!(ctx.plans.len(), 1);
    let plan = &ctx.plans[0];
    assert_eq!(plan.first, 0);
    assert_eq!(plan.last, 2);
    assert_eq!(plan.visible, vec![true, true, true]);
    assert_eq!(plan.heuristic, vec![0, 1]);
}

#[test]
fn hooks_refuse_a_short_assignment() {
    let mut ctx = context(chain_graph(10), 10);
    let short = Solution::zeros(1);
    assert!(ctx.get_lazy_expr(&short).is_none());
    assert!(ctx.get_branch(&short).is_none());
}

#[test]
fn final_assignment_is_checked_exactly() {
    let g = chain_graph(10);
    let edges = VarRefs { first: 1, len: 2 };
    let sol = route_from_solution(&g, &assignment(VALUE_SCALE, VALUE_SCALE), edges, 0, 2, 10)
        .expect("feasible");
    assert_eq!(sol.edges, vec![0, 1]);
    assert_eq!(sol.total_bits, 10);
    assert_eq!(sol.total_time, 22);
    assert!(route_from_solution(&g, &assignment(VALUE_SCALE, 0), edges, 0, 2, 10).is_none());
}

#[test]
fn renderer_keeps_its_folder() {
    let r = Renderer::new("frames".to_string());
    assert_eq!(r.folder, "frames");
}
