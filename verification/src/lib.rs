//! Minimum-cost route search over a directed game-world graph, phrased as a
//! mixed-integer program with lazily generated connectivity cuts and a
//! best-first branching heuristic.
//!
//! The library holds the verified core: the graph model, the problem
//! encoding, the value-graph snapshot, the cut generator, the branching
//! heuristic and the solution checker.  The native simplex / branch-and-bound
//! engine, file loading and rendering live outside the library and only feed
//! it plain values.
//!
//! The load-bearing guarantees, beyond the per-function contracts:
//! - [`check_solution`] accepts an integral selection exactly when it forms
//!   one simple entry-to-goal path collecting the required bits, and reports
//!   its exact totals — a solve can never end in a silent partial result.
//! - [`lemma_cut_preserves_routes`]: a lazily generated connectivity cut is
//!   satisfied by every feasible route, so cutting never loses answers.
//! - [`lemma_duplicate_expr_idempotent`]: re-adding a cut row — they are
//!   keyed by their reached node set — never changes the feasible region.
//! - [`lemma_zero_required_no_cut`] and [`lemma_insufficient_bits_always_cut`]
//!   with [`lemma_insufficient_total_no_route`]: with nothing required the
//!   relaxation stands at once, and with too few bits in the whole graph
//!   every snapshot is cut and every route falls short.
//! - [`lemma_heuristic_path_deterministic`]: the branching heuristic is an
//!   exact function of the snapshot, so repeated runs choose the same edges.
//! - [`lemma_no_two_cycle_selected`]: the opposite-pair rows keep any
//!   feasible assignment from selecting both edges of a two-cycle.

use vstd::prelude::*;

mod cut;
mod dominators;
mod encode;
mod graph;
mod heuristic;
mod lp;
mod opt;
mod render;
mod solution;
mod value;

pub use cut::bits_sum;
pub use cut::boundary_terms;
pub use cut::cut_members;
pub use cut::edge_connects;
pub use cut::get_connected_nodes;
pub use cut::is_present_path;
pub use cut::lazy_required_bits_expr;
pub use cut::lemma_insufficient_bits_always_cut;
pub use cut::lemma_zero_required_no_cut;
pub use cut::reach_seq;
pub use cut::reachable;
pub use cut::step;
pub use cut::total_bits;
pub use encode::capacity_exprs;
pub use encode::dominator_exprs;
pub use encode::edge_vars;
pub use encode::find_edge;
pub use encode::flow_exprs;
pub use encode::key_vars;
pub use encode::no_2_cycles;
pub use encode::no_3_cycles;
pub use encode::oneof_expr;
pub use encode::order_keys_exprs;
pub use encode::required_bits_expr;
pub use encode::total_keys_expr;
pub use encode::at_most_one_edge_per_pair;
pub use encode::bit_terms;
pub use encode::directed_terms;
pub use encode::dominated_nodes;
pub use encode::edge_objective;
pub use encode::find_edge_between;
pub use encode::flow_balance;
pub use encode::flow_terms;
pub use encode::interior_nodes;
pub use encode::key_terms;
pub use encode::lemma_no_two_cycle_selected;
pub use encode::oneof_terms;
pub use encode::pair_expr_ok;
pub use encode::three_cycle_triples;
pub use encode::total_keys;
pub use encode::triple_expr_ok;
pub use encode::two_cycle_pairs;
pub use heuristic::best_branch;
pub use heuristic::best_candidate;
pub use heuristic::branch_score;
pub use heuristic::chain_from;
pub use heuristic::dp_pass;
pub use heuristic::heuristic_branch_edge;
pub use heuristic::hp_states;
pub use heuristic::init_states;
pub use heuristic::lemma_heuristic_path_deterministic;
pub use heuristic::po_edges;
pub use heuristic::po_node;
pub use heuristic::postorder_spec;
pub use heuristic::heuristic_chain;
pub use heuristic::heuristic_path;
pub use heuristic::postorder;
pub use heuristic::HeuristicPath;
pub use heuristic::HeuristicPathIter;
pub use heuristic::State;
pub use opt::covers;
pub use opt::non_secret_pairs;
pub use opt::optimize;
pub use opt::selection_of;
pub use opt::snapshot_values;
pub use opt::spec_idoms;
pub use opt::route_from_solution;
pub use opt::EncodedProblem;
pub use opt::SolveContext;
pub use render::node_visible;
pub use render::Renderer;
pub use render::RenderKind;
pub use render::RenderLabel;
pub use render::RenderPlan;

pub use dominators::idom_seq;
pub use dominators::immediate_dominators;
pub use graph::ConfigError;
pub use graph::MAX_COUNT;
pub use graph::MAX_FRAMES;
pub use graph::MAX_INDEX;
pub use graph::MAX_YIELD;
pub use graph::Cost;
pub use graph::Distance;
pub use graph::Door;
pub use graph::Edge;
pub use graph::Node;
pub use graph::RouteGraph;
pub use lp::lemma_duplicate_expr_idempotent;
pub use lp::satisfies;
pub use lp::satisfies_all;
pub use lp::sum_terms;
pub use lp::Bounds;
pub use lp::Branch;
pub use lp::Direction;
pub use lp::Error;
pub use lp::Expr;
pub use lp::ExprName;
pub use lp::Kind;
pub use lp::LoggingLevel;
pub use lp::MipCallback;
pub use lp::Problem;
pub use lp::Solution;
pub use lp::Term;
pub use lp::Var;
pub use lp::VarName;
pub use lp::VarRef;
pub use lp::VarRefs;
pub use solution::chain_ints;
pub use solution::check_solution;
pub use solution::lemma_cut_preserves_routes;
pub use solution::lemma_insufficient_total_no_route;
pub use solution::route_bits;
pub use solution::route_node;
pub use solution::route_of;
pub use solution::route_time;
pub use solution::RouteSolution;
pub use value::EdgeReference;
pub use value::ValueGraph;
pub use value::VALUE_EPS;
pub use value::VALUE_HALF;
pub use value::VALUE_SCALE;

verus! {

} // verus!
