//! The optimizer's orchestration: validate the graph, encode the integer
//! program, and answer the solver's callbacks — lazy connectivity cuts,
//! branching overrides and best-solution notifications — from one context
//! object whose lifetime spans a single solve.
//!
//! The native branch-and-bound engine itself runs outside the library; it
//! receives the encoded problem, calls back with the current assignment as
//! plain fixed-point values, and hands back the final integral assignment
//! for [`route_from_solution`] to check and report.

use vstd::prelude::*;
use crate::cut::bits_sum;
use crate::cut::lazy_required_bits_expr;
use crate::cut::reach_seq;
use crate::dominators::idom_seq;
use crate::dominators::immediate_dominators;
use crate::encode::capacity_exprs;
use crate::encode::dominator_exprs;
use crate::encode::edge_objective;
use crate::encode::edge_vars;
use crate::encode::flow_exprs;
use crate::encode::no_2_cycles;
use crate::encode::oneof_expr;
use crate::encode::required_bits_expr;
use crate::encode::total_keys_expr;
use crate::graph::Cost;
use crate::graph::ConfigError;
use crate::graph::RouteGraph;
use crate::heuristic::best_branch;
use crate::heuristic::chain_from;
use crate::heuristic::heuristic_branch_edge;
use crate::heuristic::heuristic_path;
use crate::heuristic::hp_states;
use crate::lp::Branch;
use crate::lp::Direction;
use crate::lp::Expr;
use crate::lp::Problem;
use crate::lp::Solution;
use crate::lp::VarRef;
use crate::lp::VarRefs;
use crate::render::Renderer;
use crate::render::RenderKind;
use crate::render::RenderLabel;
use crate::render::RenderPlan;
use crate::solution::check_solution;
use crate::solution::RouteSolution;
use crate::value::ValueGraph;
use crate::value::VALUE_EPS;

verus! {

/// Cut frequency at which a frame is rendered; effectively off.
const RENDER_CUT: u64 = 0x7fff_ffff;

/// Branch frequency at which a frame is rendered.
const RENDER_BRANCH: u64 = 100;

/// The non-secret edges of the graph as plain endpoint pairs, ascending by
/// edge identifier: the subgraph dominators are computed over.
pub open spec fn non_secret_pairs(g: RouteGraph, k: int) -> Seq<(usize, usize)>
    decreases k,
{
    if k <= 0 {
        Seq::empty()
    } else {
        let rest = non_secret_pairs(g, k - 1);
        if g.edges@[k - 1].cost != Some(Cost::Secret) {
            rest.push((g.edges@[k - 1].source, g.edges@[k - 1].target))
        } else {
            rest
        }
    }
}

/// The immediate-dominator vector the encoder uses: over the non-secret
/// subgraph, rooted at the entry node.
pub open spec fn spec_idoms(g: RouteGraph, first: int) -> Seq<Option<usize>> {
    idom_seq(g.node_count(), non_secret_pairs(g, g.edge_count()), first)
}

/// The problem as encoded for one solve, together with everything the
/// callbacks and the final check need.
pub struct EncodedProblem {
    /// The model of the live problem: variables and initial rows.
    pub problem: Problem,
    /// The decision-variable block, one variable per edge.
    pub edges: VarRefs,
    /// The entry node.
    pub first_node: usize,
    /// The goal node.
    pub last_node: usize,
    /// The bit threshold of this solve.
    pub required_bits: i64,
}

/// Non-secret edge pairs, executable side.
fn non_secret_edge_pairs(g: &RouteGraph) -> (r: Vec<(usize, usize)>)
    requires
        g.wf(),
    ensures
        r@ == non_secret_pairs(*g, g.edge_count()),
        r@.len() <= g.edge_count(),
        forall|i: int|
            0 <= i < r@.len() ==> (#[trigger] r@[i]).0 < g.node_count() && r@[i].1
                < g.node_count(),
{
    let m = g.edges.len();
    let mut r: Vec<(usize, usize)> = Vec::new();
    let mut e: usize = 0;
    while e < m
        invariant
            e <= m,
            g.wf(),
            m == g.edge_count(),
            r@ == non_secret_pairs(*g, e as int),
            r@.len() <= e,
            forall|i: int|
                0 <= i < r@.len() ==> (#[trigger] r@[i]).0 < g.node_count() && r@[i].1
                    < g.node_count(),
        decreases m - e,
    {
        let edge = &g.edges[e];
        let secret = match edge.cost {
            Some(Cost::Secret) => true,
            _ => false,
        };
        if !secret {
            proof {
                assert(g.edges@[e as int].in_range(g.node_count()));
            }
            r.push((edge.source, edge.target));
        }
        e = e + 1;
    }
    r
}

/// Validate the graph and encode the integer program: one binary-relaxed
/// variable per edge weighted by its objective time, flow conservation at
/// every node, capacity at every interior node, dominator gates over the
/// non-secret subgraph, opposite-pair exclusion, and the three global rows
/// for bits, the one-of choice and keys.  A malformed graph is rejected
/// with its exact configuration error before any resource is allocated.
#[verifier::rlimit(100)]
pub fn optimize(graph: &RouteGraph, required_bits: i64) -> (r: Result<EncodedProblem, ConfigError>)
    ensures
        r is Ok <==> graph.valid(),
        r matches Ok(enc) ==> {
            let n = graph.node_count();
            let m = graph.edge_count();
            let doms = spec_idoms(*graph, enc.first_node as int);
            let icap = crate::encode::interior_nodes(enc.first_node as int, enc.last_node as int, n);
            let idn = crate::encode::dominated_nodes(doms, enc.first_node as int, n);
            let prs = crate::encode::two_cycle_pairs(*graph, m);
            &&& graph.unique_entry(enc.first_node as int)
            &&& graph.unique_goal(enc.last_node as int)
            &&& enc.required_bits == required_bits
            &&& enc.edges.first == 1 && enc.edges.len == m && enc.edges.wf()
            &&& enc.problem.direction == Direction::Minimize
            &&& enc.problem.name matches Some(nm) && nm@ == "FEZ any% route"@
            &&& enc.problem.vars@.len() == m
            &&& forall|e: int|
                0 <= e < m ==> #[trigger] enc.problem.vars@[e] == (crate::lp::Var {
                    name: crate::lp::VarName::Edge(e as usize),
                    kind: crate::lp::Kind::Int,
                    bounds: crate::lp::Bounds::Double(0, 1),
                    objective: edge_objective(*graph, e) as i64,
                })
            &&& enc.problem.exprs@.len() == n + icap.len() + idn.len() + prs.len() + 3
            &&& forall|i: int|
                0 <= i < n ==> {
                    &&& (#[trigger] enc.problem.exprs@[i]).name == crate::lp::ExprName::Flow(
                        i as usize,
                    )
                    &&& enc.problem.exprs@[i].bounds == crate::lp::Bounds::Fixed(
                        crate::encode::flow_balance(enc.first_node as int, enc.last_node as int, i),
                    )
                    &&& enc.problem.exprs@[i].terms@ == crate::encode::flow_terms(
                        *graph,
                        enc.edges,
                        i,
                    )
                }
            &&& forall|p: int|
                0 <= p < icap.len() ==> {
                    let i = icap[p];
                    &&& (#[trigger] enc.problem.exprs@[n + p]).name == crate::lp::ExprName::Capacity(
                        i as usize,
                    )
                    &&& enc.problem.exprs@[n + p].bounds == crate::lp::Bounds::Upper(1)
                    &&& enc.problem.exprs@[n + p].terms@ == crate::encode::directed_terms(
                        *graph,
                        enc.edges,
                        i,
                        true,
                        1,
                        m,
                    )
                }
            &&& forall|p: int|
                0 <= p < idn.len() ==> {
                    let i = idn[p];
                    &&& (#[trigger] enc.problem.exprs@[n + icap.len() + p]).name
                        == crate::lp::ExprName::Dominator(i as usize)
                    &&& enc.problem.exprs@[n + icap.len() + p].bounds == crate::lp::Bounds::Upper(0)
                    &&& enc.problem.exprs@[n + icap.len() + p].terms@
                        == crate::encode::directed_terms(*graph, enc.edges, i, true, 1, m)
                        + crate::encode::directed_terms(
                        *graph,
                        enc.edges,
                        doms[i]->0 as int,
                        true,
                        -1i64,
                        m,
                    )
                }
            &&& forall|p: int|
                0 <= p < prs.len() ==> crate::encode::pair_expr_ok(
                    enc.edges,
                    #[trigger] enc.problem.exprs@[n + icap.len() + idn.len() + p],
                    prs[p],
                )
            &&& {
                let base = n + icap.len() + idn.len() + prs.len();
                &&& enc.problem.exprs@[base].name == crate::lp::ExprName::TotalBits
                &&& enc.problem.exprs@[base].bounds == crate::lp::Bounds::Lower(required_bits)
                &&& enc.problem.exprs@[base].terms@ == crate::encode::bit_terms(*graph, enc.edges, m)
                &&& enc.problem.exprs@[base + 1].name == crate::lp::ExprName::Oneof
                &&& enc.problem.exprs@[base + 1].bounds == crate::lp::Bounds::Upper(1)
                &&& enc.problem.exprs@[base + 1].terms@ == crate::encode::oneof_terms(
                    *graph,
                    enc.edges,
                    m,
                )
                &&& enc.problem.exprs@[base + 2].name == crate::lp::ExprName::TotalKeys
                &&& enc.problem.exprs@[base + 2].bounds == crate::lp::Bounds::Lower(0)
                &&& enc.problem.exprs@[base + 2].terms@ == crate::encode::key_terms(
                    *graph,
                    enc.edges,
                    m,
                )
            }
        },
        r == Err::<EncodedProblem, ConfigError>(ConfigError::GraphTooLarge) <==> !graph.sizes_ok(),
        r == Err::<EncodedProblem, ConfigError>(ConfigError::DanglingEdge) <==> graph.sizes_ok()
            && !graph.edges_in_range(),
        r == Err::<EncodedProblem, ConfigError>(ConfigError::ValueOutOfRange) <==> graph.sizes_ok()
            && graph.edges_in_range() && !graph.ranges_ok(),
        r == Err::<EncodedProblem, ConfigError>(ConfigError::NoEntryNode) <==> graph.wf() && !(
        exists|f: int| graph.is_entry(f)),
        r == Err::<EncodedProblem, ConfigError>(ConfigError::MultipleEntryNodes) <==> graph.wf()
            && (exists|f: int, h: int| f != h && graph.is_entry(f) && graph.is_entry(h)),
        r == Err::<EncodedProblem, ConfigError>(ConfigError::NoGoalNode) <==> graph.wf() && (
        exists|f: int| graph.unique_entry(f)) && !(exists|l: int| graph.is_goal(l)),
        r == Err::<EncodedProblem, ConfigError>(ConfigError::MultipleGoalNodes) <==> graph.wf()
            && (exists|f: int| graph.unique_entry(f)) && (exists|l: int, o: int|
            l != o && graph.is_goal(l) && graph.is_goal(o)),
{
    let (first_node, last_node) = match graph.validate() {
        Ok(p) => p,
        Err(c) => {
            return Err(c);
        },
    };
    let n = graph.nodes.len();
    let m = graph.edges.len();

    let mut problem = Problem::new();
    problem.set_name("FEZ any% route".to_string());
    problem.set_direction(Direction::Minimize);

    let edges = problem.add_vars(edge_vars(graph));

    let flow = flow_exprs(graph, edges, first_node, last_node);
    proof {
        crate::encode::lemma_interior_len(first_node as int, last_node as int, n as int);
        crate::encode::lemma_pairs_len(*graph, m as int);
    }
    problem.add_exprs(flow);
    let cap = capacity_exprs(graph, edges, first_node, last_node);
    problem.add_exprs(cap);
    let pairs_list = non_secret_edge_pairs(graph);
    let idoms = immediate_dominators(n, &pairs_list, first_node);
    proof {
        crate::encode::lemma_dominated_len(idoms@, first_node as int, n as int);
    }
    let dom = dominator_exprs(graph, edges, first_node, &idoms);
    problem.add_exprs(dom);
    let cycles = no_2_cycles(graph, edges);
    problem.add_exprs(cycles);
    problem.add_expr(required_bits_expr(graph, edges, required_bits));
    problem.add_expr(oneof_expr(graph, edges));
    problem.add_expr(total_keys_expr(graph, edges));

    Ok(EncodedProblem { problem, edges, first_node, last_node, required_bits })
}

/// The edge values of the snapshot a callback sees: one fixed-point value
/// per edge, read from the assignment through the decision-variable block.
pub open spec fn snapshot_values(values: Solution, edges: VarRefs) -> Seq<u64> {
    Seq::new(edges.len as nat, |e: int| values.spec_value(edges.spec_get(e)))
}

/// The assignment covers the decision-variable block.
pub open spec fn covers(values: Solution, edges: VarRefs) -> bool {
    &&& values.0@.len() >= 1
    &&& edges.first + edges.len <= values.spec_len() + 1
}

/// Mutable state spanning exactly one solve: the graph and encoding the
/// callbacks read, the running frame and event counters, the renderer and
/// the frames queued for the outside sink to draw.
pub struct SolveContext {
    /// The graph of this solve; read-only for its whole duration.
    pub graph: RouteGraph,
    /// The decision-variable block.
    pub edges: VarRefs,
    /// The entry node.
    pub first_node: usize,
    /// The goal node.
    pub last_node: usize,
    /// The bit threshold of this solve.
    pub required_bits: i64,
    /// Frames handed out so far.
    pub render: u64,
    /// Cuts generated since the last solved relaxation.
    pub cut: u64,
    /// Relaxations solved since the last best solution.
    pub branch: u64,
    /// Best solutions found so far.
    pub solve: u64,
    /// The handle of the visualization sink.
    pub renderer: Renderer,
    /// Frames awaiting the sink, oldest first; the driver drains them
    /// after every callback and failures there never reach the search.
    pub plans: Vec<RenderPlan>,
}

impl SolveContext {
    /// The context is consistent with its graph and encoding.
    pub open spec fn wf(self) -> bool {
        &&& self.graph.wf()
        &&& self.edges.wf()
        &&& self.edges.len == self.graph.edge_count()
        &&& self.first_node < self.graph.node_count()
        &&& self.last_node < self.graph.node_count()
    }

    /// A fresh context with all counters at zero and no pending frames.
    pub fn new(
        graph: RouteGraph,
        edges: VarRefs,
        first_node: usize,
        last_node: usize,
        required_bits: i64,
        renderer: Renderer,
    ) -> (r: Self)
        requires
            graph.wf(),
            edges.wf(),
            edges.len == graph.edge_count(),
            first_node < graph.node_count(),
            last_node < graph.node_count(),
        ensures
            r.wf(),
            r.graph == graph,
            r.edges == edges,
            r.first_node == first_node,
            r.last_node == last_node,
            r.required_bits == required_bits,
            r.render == 0 && r.cut == 0 && r.branch == 0 && r.solve == 0,
            r.renderer == renderer,
            r.plans@ =~= Seq::<RenderPlan>::empty(),
    {
        SolveContext {
            graph,
            edges,
            first_node,
            last_node,
            required_bits,
            render: 0,
            cut: 0,
            branch: 0,
            solve: 0,
            renderer,
            plans: Vec::new(),
        }
    }

    /// The callback can work with this assignment: the graph passes the
    /// full configuration check, the encoding is consistent with it, and
    /// the assignment covers the decision variables.
    pub open spec fn ready_for(self, values: Solution) -> bool {
        &&& self.graph.valid()
        &&& self.wf()
        &&& covers(values, self.edges)
    }

    /// Whether the callback can work with this assignment.  The hooks
    /// re-check this cheaply because the native search calls them without
    /// any precondition of its own.
    pub fn ready(&self, values: &Solution) -> (r: bool)
        ensures
            r == self.ready_for(*values),
    {
        let structure = match self.graph.validate() {
            Ok(_) => true,
            Err(_) => false,
        };
        if !structure {
            return false;
        }
        if !(self.edges.first >= 1 && self.edges.len >= 0) {
            return false;
        }
        if !(self.edges.first as i64 + self.edges.len as i64 <= i32::MAX as i64) {
            return false;
        }
        if !(self.edges.len as usize == self.graph.edges.len()) {
            return false;
        }
        if !(self.first_node < self.graph.nodes.len() && self.last_node
            < self.graph.nodes.len()) {
            return false;
        }
        if values.0.len() < 1 {
            return false;
        }
        (self.edges.first as usize) + (self.edges.len as usize) <= values.0.len()
    }

    /// One step of the wrap-to-zero event counters.
    pub open spec fn bump(c: u64) -> u64 {
        if c == u64::MAX {
            0
        } else {
            (c + 1) as u64
        }
    }

    fn bump_exec(c: u64) -> (r: u64)
        ensures
            r == Self::bump(c),
    {
        if c == u64::MAX {
            0
        } else {
            c + 1
        }
    }

    /// Answer a lazy-constraint request: rebuild the value graph from the
    /// assignment and, when the reached bits fall short, return the
    /// connectivity cut for the reached node set, counting a cut;
    /// otherwise the relaxation stands, a branch is counted and the cut
    /// streak resets.  Occasionally a frame is queued for the sink.
    pub fn on_lazy_expr(&mut self, values: &Solution) -> (r: Option<Expr>)
        requires
            old(self).wf(),
            covers(*values, old(self).edges),
        ensures
            final(self).wf(),
            final(self).graph == old(self).graph,
            final(self).edges == old(self).edges,
            final(self).first_node == old(self).first_node,
            final(self).last_node == old(self).last_node,
            final(self).required_bits == old(self).required_bits,
            final(self).solve == old(self).solve,
            final(self).plans@.len() >= old(self).plans@.len(),
            forall|k: int|
                0 <= k < old(self).plans@.len() ==> final(self).plans@[k] == old(self).plans@[k],
            forall|vg: ValueGraph|
                vg.values@ == snapshot_values(*values, old(self).edges) ==> {
                    let g = old(self).graph;
                    let reached = reach_seq(g, vg, old(self).first_node as int);
                    &&& (r is Some <==> bits_sum(g, reached, g.node_count())
                        < old(self).required_bits)
                    &&& (r matches Some(c) ==> {
                        &&& c.bounds == crate::lp::Bounds::Lower(1)
                        &&& c.name matches crate::lp::ExprName::Cut(ms) && ms@
                            == crate::cut::cut_members(reached, g.node_count())
                        &&& c.terms@ == crate::cut::boundary_terms(
                            g,
                            old(self).edges,
                            reached,
                            g.edge_count(),
                        )
                    })
                },
            r is Some ==> final(self).cut == Self::bump(old(self).cut) && final(self).branch == old(
                self,
            ).branch,
            r is None ==> final(self).branch == Self::bump(old(self).branch) && final(self).cut
                == 0,
    {
        let value_graph = ValueGraph::new(&self.graph, values, self.edges);
        let expr = lazy_required_bits_expr(
            &self.graph,
            self.edges,
            self.first_node,
            self.required_bits,
            &value_graph,
        );
        match expr {
            Some(e) => {
                self.cut = Self::bump_exec(self.cut);
                if self.cut % RENDER_CUT == 0 {
                    self.render = Self::bump_exec(self.render);
                    let label = RenderLabel {
                        index: self.render,
                        kind: RenderKind::Cut,
                        solve: self.solve,
                        branch: self.branch,
                        cut: self.cut,
                    };
                    let plan = self.renderer.render(
                        label,
                        &self.graph,
                        &value_graph,
                        self.first_node,
                        self.last_node,
                    );
                    self.plans.push(plan);
                }
                proof {
                    assert forall|vg: ValueGraph|
                        vg.values@ == snapshot_values(*values, old(self).edges) implies reach_seq(
                        old(self).graph,
                        vg,
                        old(self).first_node as int,
                    ) == reach_seq(old(self).graph, value_graph, old(self).first_node as int) by {
                        assert(vg.values@ =~= value_graph.values@);
                        crate::cut::lemma_reach_congruent(
                            old(self).graph,
                            vg,
                            value_graph,
                            old(self).first_node as int,
                        );
                    }
                }
                Some(e)
            },
            None => {
                self.branch = Self::bump_exec(self.branch);
                if self.branch % RENDER_BRANCH == 0 {
                    self.render = Self::bump_exec(self.render);
                    let label = RenderLabel {
                        index: self.render,
                        kind: RenderKind::Branch,
                        solve: self.solve,
                        branch: self.branch,
                        cut: self.cut,
                    };
                    let plan = self.renderer.render(
                        label,
                        &self.graph,
                        &value_graph,
                        self.first_node,
                        self.last_node,
                    );
                    self.plans.push(plan);
                }
                self.cut = 0;
                proof {
                    assert forall|vg: ValueGraph|
                        vg.values@ == snapshot_values(*values, old(self).edges) implies reach_seq(
                        old(self).graph,
                        vg,
                        old(self).first_node as int,
                    ) == reach_seq(old(self).graph, value_graph, old(self).first_node as int) by {
                        assert(vg.values@ =~= value_graph.values@);
                        crate::cut::lemma_reach_congruent(
                            old(self).graph,
                            vg,
                            value_graph,
                            old(self).first_node as int,
                        );
                    }
                }
                None
            },
        }
    }

    /// Answer a branching request: walk the heuristic path of the snapshot
    /// and force the most undecided chain edge toward one; `None` leaves
    /// the solver's default choice in place.
    pub fn on_branch(&mut self, values: &Solution) -> (r: Option<(VarRef, Branch)>)
        requires
            old(self).wf(),
            covers(*values, old(self).edges),
        ensures
            *final(self) == *old(self),
            forall|vg: ValueGraph|
                #![trigger vg.values@]
                vg.values@ == snapshot_values(*values, old(self).edges) ==> {
                    let g = old(self).graph;
                    let full = chain_from(
                        g,
                        hp_states(g, vg, old(self).first_node as int, old(self).last_node as int),
                        old(self).first_node as int,
                        (g.node_count() + 1) as nat,
                    );
                    let best = best_branch(vg, full, full.len() as int);
                    &&& (r is Some <==> best is Some)
                    &&& (r matches Some(pick) ==> best == Some(pick.0.0 - old(self).edges.first as int)
                        && pick.1 == Branch::Up)
                },
    {
        let value_graph = ValueGraph::new(&self.graph, values, self.edges);
        let hp = heuristic_path(&self.graph, &value_graph, self.first_node, self.last_node);
        let picked = heuristic_branch_edge(&self.graph, &value_graph, hp);
        proof {
            let g = old(self).graph;
            let fullv = chain_from(
                g,
                hp_states(g, value_graph, old(self).first_node as int, old(self).last_node as int),
                old(self).first_node as int,
                (g.node_count() + 1) as nat,
            );
            assert forall|vg: ValueGraph|
                #![trigger vg.values@]
                vg.values@ == snapshot_values(*values, old(self).edges) implies hp_states(
                g,
                vg,
                old(self).first_node as int,
                old(self).last_node as int,
            ) == hp_states(
                g,
                value_graph,
                old(self).first_node as int,
                old(self).last_node as int,
            ) && best_branch(vg, fullv, fullv.len() as int) == best_branch(
                value_graph,
                fullv,
                fullv.len() as int,
            ) by {
                assert(vg.values@ =~= value_graph.values@);
                crate::heuristic::lemma_heuristic_congruent(
                    g,
                    vg,
                    value_graph,
                    old(self).first_node as int,
                    old(self).last_node as int,
                    fullv,
                    fullv.len() as int,
                );
            }
        }
        match picked {
            Some(e) => Some((self.edges.get(e), Branch::Up)),
            None => None,
        }
    }

    /// Record a new best integral solution: count it, reset the cut and
    /// branch streaks, and queue a frame of the integral assignment.
    pub fn on_best_solution(&mut self, values: &Solution)
        requires
            old(self).wf(),
            covers(*values, old(self).edges),
        ensures
            final(self).wf(),
            final(self).graph == old(self).graph,
            final(self).edges == old(self).edges,
            final(self).first_node == old(self).first_node,
            final(self).last_node == old(self).last_node,
            final(self).required_bits == old(self).required_bits,
            final(self).solve == Self::bump(old(self).solve),
            final(self).render == Self::bump(old(self).render),
            final(self).cut == 0,
            final(self).branch == 0,
            final(self).plans@.len() == old(self).plans@.len() + 1,
            forall|k: int|
                0 <= k < old(self).plans@.len() ==> final(self).plans@[k] == old(self).plans@[k],
    {
        let value_graph = ValueGraph::new(&self.graph, values, self.edges);
        self.render = Self::bump_exec(self.render);
        self.solve = Self::bump_exec(self.solve);
        let label = RenderLabel {
            index: self.render,
            kind: RenderKind::Solution,
            solve: self.solve,
            branch: self.branch,
            cut: self.cut,
        };
        let plan = self.renderer.render(
            label,
            &self.graph,
            &value_graph,
            self.first_node,
            self.last_node,
        );
        self.plans.push(plan);
        self.cut = 0;
        self.branch = 0;
    }
}

impl crate::lp::MipCallback for SolveContext {
    fn get_lazy_expr(&mut self, values: &Solution) -> (r: Option<Expr>) {
        if self.ready(values) {
            self.on_lazy_expr(values)
        } else {
            None
        }
    }

    fn get_branch(&mut self, values: &Solution) -> (r: Option<(VarRef, Branch)>) {
        if self.ready(values) {
            self.on_branch(values)
        } else {
            None
        }
    }

    fn new_best_solution(&mut self, values: &Solution) {
        if self.ready(values) {
            self.on_best_solution(values);
        }
    }
}

/// The selection an integral assignment induces: an edge is selected when
/// its value exceeds the numerical epsilon.
pub open spec fn selection_of(values: Solution, edges: VarRefs, m: int) -> Seq<bool> {
    Seq::new(m as nat, |e: int| values.spec_value(edges.spec_get(e)) > VALUE_EPS)
}

/// Check the final integral assignment of a solve: accepted exactly when
/// its selected edges form one simple entry-to-goal path collecting at
/// least the required bits, reported with its exact totals; any other
/// assignment is rejected, never passed off as a result.
pub fn route_from_solution(
    g: &RouteGraph,
    values: &Solution,
    edges: VarRefs,
    first: usize,
    last: usize,
    required_bits: i64,
) -> (r: Option<RouteSolution>)
    requires
        g.wf(),
        edges.wf(),
        edges.len == g.edge_count(),
        covers(*values, edges),
        first < g.node_count(),
        last < g.node_count(),
    ensures
        ({
            let sel = selection_of(*values, edges, g.edge_count());
            &&& (r is Some <==> exists|es: Seq<int>|
                crate::solution::route_of(*g, sel, first as int, last as int, es)
                    && crate::solution::route_bits(*g, es, es.len() as int) >= required_bits)
            &&& (r matches Some(s) ==> {
                &&& crate::solution::route_of(*g, sel, first as int, last as int, s.chain())
                &&& s.total_bits == crate::solution::route_bits(*g, s.chain(), s.chain().len() as int)
                &&& s.total_time == crate::solution::route_time(*g, s.chain(), s.chain().len() as int)
                &&& s.total_bits >= required_bits
            })
        }),
{
    let m = g.edges.len();
    let mut sel: Vec<bool> = Vec::new();
    let mut e: usize = 0;
    while e < m
        invariant
            e <= m,
            g.wf(),
            m == g.edge_count(),
            edges.wf(),
            edges.len == m,
            covers(*values, edges),
            sel@.len() == e,
            forall|j: int|
                0 <= j < e ==> (#[trigger] sel@[j] <==> values.spec_value(edges.spec_get(j))
                    > VALUE_EPS),
        decreases m - e,
    {
        sel.push(values.get(edges.get(e)) > VALUE_EPS);
        e = e + 1;
    }
    proof {
        assert(sel@ =~= selection_of(*values, edges, m as int));
    }
    check_solution(g, &sel, first, last, required_bits)
}

} // verus!
