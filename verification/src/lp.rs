//! The solver-adapter model: variables, linear expressions, bounds and the
//! problem a solve runs on, together with the callback interface the
//! branch-and-cut loop dispatches to.
//!
//! The native simplex / branch-and-bound engine is driven outside the
//! library; what stands here is the exact bookkeeping the adapter performs on
//! its behalf — dense one-based variable and constraint allocation, the
//! contents of every variable and constraint, and the satisfaction semantics
//! of a linear expression over an integer-scaled assignment.
//!
//! All coefficients, bounds and objective weights are integers: the encoding
//! only ever produces integral coefficients, and fractional solver values are
//! carried as fixed-point numbers with [`crate::value::VALUE_SCALE`] units
//! per 1.0.

use vstd::prelude::*;
use crate::graph::MAX_INDEX;

verus! {

/// Reference to one solver variable (a column), one-based as the native
/// solver counts them.
#[derive(Copy, Clone, Debug, PartialEq, Eq, Structural)]
pub struct VarRef(pub i32);

/// One linear term: a variable times an integer coefficient.
#[derive(Copy, Clone, Debug, PartialEq, Eq, Structural)]
pub struct Term(pub VarRef, pub i64);

impl VarRef {
    /// Scale the variable by a coefficient, forming a term.
    pub fn mul(self, coef: i64) -> (r: Term)
        ensures
            r == Term(self, coef),
    {
        Term(self, coef)
    }
}

/// A dense block of variable references handed out by one allocation.
#[derive(Copy, Clone, Debug, PartialEq, Eq, Structural)]
pub struct VarRefs {
    pub first: i32,
    pub len: i32,
}

impl VarRefs {
    /// A block is well-formed when it lies inside the one-based 32-bit
    /// column range of the native solver.
    pub open spec fn wf(self) -> bool {
        &&& 1 <= self.first
        &&& 0 <= self.len
        &&& self.first + self.len <= i32::MAX
    }

    /// The reference of the variable at `index` within the block.
    pub open spec fn spec_get(self, index: int) -> VarRef {
        VarRef((self.first + index) as i32)
    }

    pub fn get(&self, index: usize) -> (r: VarRef)
        requires
            self.wf(),
            index < self.len,
        ensures
            r == self.spec_get(index as int),
    {
        VarRef(self.first + index as i32)
    }

    /// All references of the block, in order.
    pub fn iter(&self) -> (r: Vec<VarRef>)
        requires
            self.wf(),
        ensures
            r@.len() == self.len,
            forall|i: int| 0 <= i < self.len ==> r@[i] == self.spec_get(i),
    {
        let mut r: Vec<VarRef> = Vec::new();
        let n = self.len;
        let mut i: i32 = 0;
        while i < n
            invariant
                0 <= i <= n,
                n == self.len,
                self.wf(),
                r@.len() == i,
                forall|j: int| 0 <= j < i ==> r@[j] == self.spec_get(j),
            decreases n - i,
        {
            r.push(VarRef(self.first + i));
            i = i + 1;
        }
        r
    }
}

/// Objective direction of the problem.
#[derive(Copy, Clone, Debug, PartialEq, Eq, Structural)]
pub enum Direction {
    Maximize,
    Minimize,
}

/// Kind of a variable: continuous or integer-constrained.
#[derive(Copy, Clone, Debug, PartialEq, Eq, Structural)]
pub enum Kind {
    Float,
    Int,
}

/// Bounds of a variable or of a constraint row, over integer values
/// (fixed-point for relaxed variables).
#[derive(Copy, Clone, Debug, PartialEq, Eq, Structural)]
pub enum Bounds {
    Free,
    Lower(i64),
    Upper(i64),
    Double(i64, i64),
    Fixed(i64),
}

/// Verbosity of the native solver's terminal output.
#[derive(Copy, Clone, Debug, PartialEq, Eq, Structural)]
pub enum LoggingLevel {
    Off,
    Error,
    Info,
    Verbose,
}

/// Structured name of a variable; rendered to a display string only at the
/// native boundary, from the node names of the graph.
#[derive(Clone, Debug, PartialEq, Eq, Structural)]
pub enum VarName {
    /// The decision variable of the edge with this identifier.
    Edge(usize),
    /// The key-potential variable of the node with this identifier.
    Keys(usize),
}

/// Specification of one variable to allocate.
#[derive(Clone, Debug, PartialEq, Eq, Structural)]
pub struct Var {
    pub name: VarName,
    pub kind: Kind,
    pub bounds: Bounds,
    pub objective: i64,
}

/// Structured name of a constraint row.  A lazily generated cut is keyed by
/// the exact reached node set it was produced for, in ascending order, so
/// that the same infeasibility is always represented by the same name.
#[derive(Clone, Debug, PartialEq, Eq)]
pub enum ExprName {
    /// Flow conservation at the node with this identifier.
    Flow(usize),
    /// Visit-at-most-once capacity at the node with this identifier.
    Capacity(usize),
    /// Dominator gate of the node with this identifier.
    Dominator(usize),
    /// Opposite-direction pair over the edges with these identifiers.
    TwoCycle(usize, usize),
    /// Three-cycle over the edges with these identifiers.
    ThreeCycle(usize, usize, usize),
    /// The single global bit-resource row.
    TotalBits,
    /// The single one-of row.
    Oneof,
    /// The single global key row.
    TotalKeys,
    /// Key ordering along the edge with this identifier.
    KeyOrder(usize),
    /// Connectivity cut for this reached node set, ascending.
    Cut(Vec<usize>),
}

/// Specification of one constraint row.
#[derive(Clone, Debug, PartialEq, Eq)]
pub struct Expr {
    pub name: ExprName,
    pub bounds: Bounds,
    pub terms: Vec<Term>,
}

/// Failure outcomes of the native solve, reported as a typed result and
/// never silently swallowed.
#[derive(Copy, Clone, Debug, PartialEq, Eq, Structural)]
pub enum Error {
    /// Double bounds in the wrong order, or fractional bounds on an
    /// integer-constrained variable.
    InvalidBounds,
    /// No initial relaxation solution (only without the presolver).
    NoInitSolution,
    /// Not primal feasible (only with the presolver).
    NotPrimalFeasible,
    /// Not dual feasible, that is an unbounded relaxation (only with the
    /// presolver).
    NotDualFeasible,
    /// Generic solver failure.
    SolverFailed,
    /// The relative gap tolerance was reached before optimality.
    HitMipGapLimit,
    /// The time limit was reached.
    Timeout,
    /// The solve was stopped from the callback.
    Stopped,
    /// The native solver reported a code outside its documented set.
    Unknown,
}

/// Direction a branching override explores first.
#[derive(Copy, Clone, Debug, PartialEq, Eq, Structural)]
pub enum Branch {
    Up,
    Down,
    Auto,
}

/// A full assignment of values to the variables of a problem, fixed-point
/// scaled.  Slot `0` is unused, mirroring the one-based variable references
/// of the native solver.
#[derive(Clone, Debug, PartialEq, Eq)]
pub struct Solution(pub Vec<u64>);

impl Solution {
    /// The number of variables the assignment covers.
    pub open spec fn spec_len(self) -> int {
        self.0@.len() - 1
    }

    /// The value assigned to a variable reference.
    pub open spec fn spec_value(self, v: VarRef) -> u64 {
        self.0@[v.0 as int]
    }

    /// The all-zero assignment over `len` variables.
    pub fn zeros(len: usize) -> (r: Self)
        requires
            len < usize::MAX,
        ensures
            r.spec_len() == len,
            forall|i: int| 0 <= i <= len ==> r.0@[i] == 0u64,
    {
        let mut v: Vec<u64> = Vec::new();
        let mut i: usize = 0;
        while i <= len
            invariant
                i <= len + 1,
                len < usize::MAX,
                v@.len() == i,
                forall|j: int| 0 <= j < i ==> v@[j] == 0u64,
            decreases len + 1 - i,
        {
            v.push(0);
            i = i + 1;
        }
        Solution(v)
    }

    pub fn len(&self) -> (r: usize)
        requires
            self.0@.len() >= 1,
        ensures
            r == self.spec_len(),
    {
        self.0.len() - 1
    }

    /// Read the value of a variable.
    pub fn get(&self, var: VarRef) -> (r: u64)
        requires
            1 <= var.0 <= self.spec_len(),
        ensures
            r == self.spec_value(var),
    {
        self.0[var.0 as usize]
    }

    /// Overwrite the value of a variable.
    pub fn set(&mut self, var: VarRef, value: u64)
        requires
            1 <= var.0 <= old(self).spec_len(),
        ensures
            final(self).0@ == old(self).0@.update(var.0 as int, value),
    {
        let i = var.0 as usize;
        self.0.set(i, value);
    }
}

/// The value a linear expression's left-hand side takes under an assignment
/// mapping one-based variable identifiers to integers.
pub open spec fn sum_terms(terms: Seq<Term>, a: Map<int, int>) -> int
    decreases terms.len(),
{
    if terms.len() == 0 {
        0
    } else {
        sum_terms(terms.drop_last(), a) + terms.last().1 * a[terms.last().0.0 as int]
    }
}

/// Whether an assignment satisfies one constraint row.
pub open spec fn satisfies(e: Expr, a: Map<int, int>) -> bool {
    let s = sum_terms(e.terms@, a);
    match e.bounds {
        Bounds::Free => true,
        Bounds::Lower(l) => s >= l,
        Bounds::Upper(u) => s <= u,
        Bounds::Double(l, u) => l <= s <= u,
        Bounds::Fixed(v) => s == v,
    }
}

/// Whether an assignment satisfies every row of a constraint set.
pub open spec fn satisfies_all(exprs: Seq<Expr>, a: Map<int, int>) -> bool {
    forall|i: int| 0 <= i < exprs.len() ==> satisfies(#[trigger] exprs[i], a)
}

/// Adding a row that is already present does not change the feasible
/// region: an assignment satisfies the grown set exactly when it satisfied
/// the set before.  A lazily generated cut is keyed by its reached node set,
/// so a rediscovered infeasibility reproduces an already-present row and
/// this law says the repetition is harmless.
pub proof fn lemma_duplicate_expr_idempotent(exprs: Seq<Expr>, e: Expr, a: Map<int, int>)
    requires
        exprs.contains(e),
    ensures
        satisfies_all(exprs.push(e), a) <==> satisfies_all(exprs, a),
{
    if satisfies_all(exprs, a) {
        let i = choose|i: int| 0 <= i < exprs.len() && exprs[i] == e;
        assert(satisfies(exprs[i], a));
        assert forall|j: int| 0 <= j < exprs.push(e).len() implies satisfies(
            #[trigger] exprs.push(e)[j],
            a,
        ) by {
            if j < exprs.len() {
                assert(satisfies(exprs[j], a));
            } else {
                assert(exprs.push(e)[j] == e);
            }
        }
    } else {
        let i = choose|i: int| 0 <= i < exprs.len() && !satisfies(#[trigger] exprs[i], a);
        assert(exprs.push(e)[i] == exprs[i]);
        assert(!satisfies(exprs.push(e)[i], a));
    }
}

/// The live problem the adapter owns: its name, objective direction and the
/// variables and constraint rows allocated so far.  The native handle this
/// model is replayed into lives outside the library.
#[derive(Clone, Debug)]
pub struct Problem {
    pub name: Option<String>,
    pub direction: Direction,
    pub vars: Vec<Var>,
    pub exprs: Vec<Expr>,
}

impl Problem {
    /// Every allocation so far fits the native 32-bit column and row ranges.
    pub open spec fn wf(self) -> bool {
        &&& self.vars@.len() <= MAX_INDEX
        &&& self.exprs@.len() <= MAX_INDEX
    }

    /// A fresh, empty problem.
    pub fn new() -> (r: Self)
        ensures
            r.name is None,
            r.direction == Direction::Minimize,
            r.vars@ =~= Seq::<Var>::empty(),
            r.exprs@ =~= Seq::<Expr>::empty(),
            r.wf(),
    {
        Problem { name: None, direction: Direction::Minimize, vars: Vec::new(), exprs: Vec::new() }
    }

    pub fn set_name(&mut self, name: String)
        ensures
            final(self).name == Some(name),
            final(self).direction == old(self).direction,
            final(self).vars == old(self).vars,
            final(self).exprs == old(self).exprs,
    {
        self.name = Some(name);
    }

    pub fn set_direction(&mut self, dir: Direction)
        ensures
            final(self).direction == dir,
            final(self).name == old(self).name,
            final(self).vars == old(self).vars,
            final(self).exprs == old(self).exprs,
    {
        self.direction = dir;
    }

    pub fn num_vars(&self) -> (r: usize)
        ensures
            r == self.vars@.len(),
    {
        self.vars.len()
    }

    /// Allocate a dense block of variables, one per specification, and
    /// return its references.
    pub fn add_vars(&mut self, specs: Vec<Var>) -> (r: VarRefs)
        requires
            old(self).vars@.len() + specs@.len() <= MAX_INDEX,
        ensures
            final(self).vars@ == old(self).vars@ + specs@,
            final(self).name == old(self).name,
            final(self).direction == old(self).direction,
            final(self).exprs == old(self).exprs,
            r.first == old(self).vars@.len() + 1,
            r.len == specs@.len(),
            r.wf(),
    {
        let first = self.vars.len() as i32 + 1;
        let len = specs.len() as i32;
        let mut specs = specs;
        self.vars.append(&mut specs);
        VarRefs { first, len }
    }

    /// Allocate a single variable.
    pub fn add_var(&mut self, spec: Var) -> (r: VarRef)
        requires
            old(self).vars@.len() + 1 <= MAX_INDEX,
        ensures
            final(self).vars@ == old(self).vars@.push(spec),
            final(self).name == old(self).name,
            final(self).direction == old(self).direction,
            final(self).exprs == old(self).exprs,
            r.0 == old(self).vars@.len() + 1,
    {
        let r = VarRef(self.vars.len() as i32 + 1);
        self.vars.push(spec);
        r
    }

    /// Append a dense block of constraint rows.
    pub fn add_exprs(&mut self, specs: Vec<Expr>)
        requires
            old(self).exprs@.len() + specs@.len() <= MAX_INDEX,
        ensures
            final(self).exprs@ == old(self).exprs@ + specs@,
            final(self).name == old(self).name,
            final(self).direction == old(self).direction,
            final(self).vars == old(self).vars,
    {
        let mut specs = specs;
        self.exprs.append(&mut specs);
    }

    /// Append a single constraint row.
    pub fn add_expr(&mut self, spec: Expr)
        requires
            old(self).exprs@.len() + 1 <= MAX_INDEX,
        ensures
            final(self).exprs@ == old(self).exprs@.push(spec),
            final(self).name == old(self).name,
            final(self).direction == old(self).direction,
            final(self).vars == old(self).vars,
    {
        self.exprs.push(spec);
    }
}

impl Default for Problem {
    fn default() -> (r: Self)
        ensures
            r.name is None,
            r.direction == Direction::Minimize,
            r.vars@ =~= Seq::<Var>::empty(),
            r.exprs@ =~= Seq::<Expr>::empty(),
    {
        Problem::new()
    }
}

/// The four extension points the branch-and-cut loop dispatches to, invoked
/// synchronously from the native search with the current assignment.  The
/// default of each hook opts out of the decision.
pub trait MipCallback {
    /// Invoked when the solver asks whether the current relaxed assignment
    /// should be cut off; a returned row is added to the live problem before
    /// the search resumes.
    fn get_lazy_expr(&mut self, values: &Solution) -> (r: Option<Expr>) {
        None
    }

    /// Invoked when the solver accepts an externally supplied integral
    /// assignment; disabled in the active design but part of the contract.
    fn get_heuristic_solution(&mut self, values: &Solution) -> (r: Option<Solution>) {
        None
    }

    /// Invoked when the solver is about to branch; a returned pair
    /// overrides its default choice of fractional variable and direction.
    fn get_branch(&mut self, values: &Solution) -> (r: Option<(VarRef, Branch)>) {
        None
    }

    /// Notification that a new best integral solution was found.
    fn new_best_solution(&mut self, values: &Solution) {
    }
}

} // verus!
