//! The graph model: nodes with resource yields, edges with a geometric
//! displacement, and the well-formedness and entry/goal validation that the
//! optimizer demands before it allocates any solver resources.
//!
//! Node and edge identifiers are their positions in the `nodes` and `edges`
//! vectors, so identifiers are dense and zero-based by construction; the
//! remaining configuration contract (bounded sizes, in-range yields, exactly
//! one entry and one goal node) is checked by [`RouteGraph::validate`].

use vstd::prelude::*;

verus! {

/// Largest one-based variable or constraint index of the native solver:
/// the full 32-bit range, less one so a block past the last item still has
/// a representable first reference.
pub const MAX_INDEX: usize = 0x7fff_fffe;

/// Largest node or edge count the encoder accepts: the initial encoding
/// allocates up to two rows per node and one per edge besides the three
/// global rows, and the whole allocation must stay inside [`MAX_INDEX`].
pub const MAX_COUNT: usize = 0x0fff_ffff;

/// Largest per-node bit or absolute key yield, matching the 32-bit yields of
/// the room data; keeps 64-bit sums over all nodes free of overflow.
pub const MAX_YIELD: i64 = 0x7fff_ffff;

/// Largest dwell time of a node and largest displacement component of an
/// edge, in frames; keeps 64-bit cost sums over all edges free of overflow.
pub const MAX_FRAMES: u64 = 0xff_ffff;

/// Cost tag of a node, governing which extra constraints apply to it; an
/// edge optionally inherits the tag of its target.
#[derive(Clone, Copy, Debug, PartialEq, Eq, Structural)]
pub enum Cost {
    Free,
    Lock,
    Water,
    Secret,
    Oneof,
}

impl Default for Cost {
    fn default() -> (r: Self)
        ensures
            r == Cost::Free,
    {
        Cost::Free
    }
}

/// Geometric displacement of an edge, in tiles; the traversal time in frames
/// is derived from it by [`Edge::get_frames`].
#[derive(Clone, Copy, Debug, PartialEq, Eq, Structural)]
pub struct Distance {
    pub dx: u64,
    pub dy: u64,
    pub dz: u64,
}

/// A location of the game world: resource yields are collected when a
/// selected edge enters the node, and `time` is the dwell cost in frames.
#[derive(Clone, Debug)]
pub struct Node {
    /// Globally unique `{room}.{name}` label, carried for diagnostics.
    pub name: String,
    /// Bits gained when the node is visited; never negative.
    pub bits: i64,
    /// Keys gained (or, for a lock, consumed) when the node is visited.
    pub keys: i64,
    /// Optional tag selecting extra constraints.
    pub cost: Option<Cost>,
    /// Dwell time in frames, added to the cost of every incoming edge.
    pub time: u64,
}

/// A directed connection between two nodes, identified by their positions in
/// the graph's node vector.
#[derive(Clone, Debug)]
pub struct Edge {
    pub source: usize,
    pub target: usize,
    /// Displacement between the endpoints, in tiles.
    pub time: Distance,
    /// Tag inherited from the target node, if any.
    pub cost: Option<Cost>,
}

impl Node {
    /// Yield bounds every node of a valid graph satisfies.
    pub open spec fn wf(self) -> bool {
        &&& 0 <= self.bits <= MAX_YIELD
        &&& -MAX_YIELD <= self.keys <= MAX_YIELD
        &&& self.time <= MAX_FRAMES
    }

    /// Net key effect of visiting the node: keys gained, minus one if the
    /// node is a lock that consumes a key.
    pub open spec fn spec_keys_minus_lock(self) -> int {
        if self.cost == Some(Cost::Lock) {
            self.keys - 1
        } else {
            self.keys as int
        }
    }

    /// Net key effect of visiting the node.
    pub fn keys_minus_lock(&self) -> (r: i64)
        requires
            self.wf(),
        ensures
            r == self.spec_keys_minus_lock(),
    {
        match self.cost {
            Some(Cost::Lock) => self.keys - 1,
            _ => self.keys,
        }
    }
}

impl Edge {
    /// Both endpoints lie inside a graph of `n` nodes.
    pub open spec fn in_range(self, n: int) -> bool {
        &&& self.source < n
        &&& self.target < n
    }

    /// The displacement components are small enough that every frame count
    /// derived from them fits comfortably in 64 bits.
    pub open spec fn dist_ok(self) -> bool {
        &&& self.time.dx <= MAX_FRAMES
        &&& self.time.dy <= MAX_FRAMES
        &&& self.time.dz <= MAX_FRAMES
    }

    /// Bounds every edge of a graph with `n` nodes satisfies.
    pub open spec fn wf(self, n: int) -> bool {
        &&& self.in_range(n)
        &&& self.dist_ok()
    }

    /// Traversal time of the edge in frames: six frames per tile, moving
    /// diagonally in the horizontal plane and vertically at once.
    pub open spec fn spec_frames(self) -> int {
        let xz = if self.time.dx <= self.time.dz {
            self.time.dx
        } else {
            self.time.dz
        };
        let far = if xz <= self.time.dy {
            self.time.dy
        } else {
            xz
        };
        6 * far
    }

    /// Traversal time of the edge in frames.
    pub fn get_frames(&self) -> (r: u64)
        requires
            self.time.dx <= MAX_FRAMES,
            self.time.dy <= MAX_FRAMES,
            self.time.dz <= MAX_FRAMES,
        ensures
            r == self.spec_frames(),
            r <= 6 * MAX_FRAMES,
    {
        let xz = if self.time.dx <= self.time.dz {
            self.time.dx
        } else {
            self.time.dz
        };
        let far = if xz <= self.time.dy { self.time.dy } else { xz };
        6 * far
    }
}

/// The directed game-world graph the optimizer runs on.  Node and edge
/// identifiers are indices into the two vectors.
#[derive(Clone, Debug)]
pub struct RouteGraph {
    pub nodes: Vec<Node>,
    pub edges: Vec<Edge>,
}

impl RouteGraph {
    pub open spec fn node_count(self) -> int {
        self.nodes@.len() as int
    }

    pub open spec fn edge_count(self) -> int {
        self.edges@.len() as int
    }

    /// Node and edge counts fit the native solver's index range, with room
    /// for every row the encoder allocates.
    pub open spec fn sizes_ok(self) -> bool {
        &&& self.nodes@.len() <= MAX_COUNT
        &&& self.edges@.len() <= MAX_COUNT
    }

    /// Every edge connects two existing nodes.
    pub open spec fn edges_in_range(self) -> bool {
        forall|i: int|
            0 <= i < self.edge_count() ==> (#[trigger] self.edges@[i]).in_range(self.node_count())
    }

    /// Every yield, dwell time and displacement is inside its range.
    pub open spec fn ranges_ok(self) -> bool {
        &&& forall|i: int| 0 <= i < self.node_count() ==> (#[trigger] self.nodes@[i]).wf()
        &&& forall|i: int| 0 <= i < self.edge_count() ==> (#[trigger] self.edges@[i]).dist_ok()
    }

    /// Well-formedness: bounded sizes, every edge inside the node range,
    /// every yield inside the 32-bit range of the room data.
    pub open spec fn wf(self) -> bool {
        &&& self.sizes_ok()
        &&& self.edges_in_range()
        &&& self.ranges_ok()
    }

    /// `i` is an entry candidate: a node no edge points into.
    pub open spec fn is_entry(self, i: int) -> bool {
        &&& 0 <= i < self.node_count()
        &&& forall|e: int| 0 <= e < self.edge_count() ==> (#[trigger] self.edges@[e]).target != i
    }

    /// `i` is a goal candidate: a node no edge leaves.
    pub open spec fn is_goal(self, i: int) -> bool {
        &&& 0 <= i < self.node_count()
        &&& forall|e: int| 0 <= e < self.edge_count() ==> (#[trigger] self.edges@[e]).source != i
    }

    /// `f` is the one entry node of the graph.
    pub open spec fn unique_entry(self, f: int) -> bool {
        &&& self.is_entry(f)
        &&& forall|j: int| self.is_entry(j) ==> j == f
    }

    /// `l` is the one goal node of the graph.
    pub open spec fn unique_goal(self, l: int) -> bool {
        &&& self.is_goal(l)
        &&& forall|j: int| self.is_goal(j) ==> j == l
    }

    /// The configuration contract the optimizer demands: a well-formed
    /// graph with exactly one entry and exactly one goal node.
    pub open spec fn valid(self) -> bool {
        &&& self.wf()
        &&& exists|f: int| self.unique_entry(f)
        &&& exists|l: int| self.unique_goal(l)
    }

    /// Upfront validation pass, run before any solver resource is
    /// allocated.  On success it returns the entry and goal node
    /// identifiers; each failure names the first violated condition, in the
    /// order the conditions are listed in [`ConfigError`].
    pub fn validate(&self) -> (r: Result<(usize, usize), ConfigError>)
        ensures
            r is Ok <==> self.valid(),
            r matches Ok(p) ==> self.unique_entry(p.0 as int) && self.unique_goal(p.1 as int),
            r == Err::<(usize, usize), ConfigError>(ConfigError::GraphTooLarge) <==> !self.sizes_ok(),
            r == Err::<(usize, usize), ConfigError>(ConfigError::DanglingEdge) <==> self.sizes_ok()
                && !self.edges_in_range(),
            r == Err::<(usize, usize), ConfigError>(ConfigError::ValueOutOfRange) <==> self.sizes_ok()
                && self.edges_in_range() && !self.ranges_ok(),
            r == Err::<(usize, usize), ConfigError>(ConfigError::NoEntryNode) <==> self.wf() && !(
            exists|f: int| self.is_entry(f)),
            r == Err::<(usize, usize), ConfigError>(ConfigError::MultipleEntryNodes) <==> self.wf()
                && (exists|f: int, g: int| f != g && self.is_entry(f) && self.is_entry(g)),
            r == Err::<(usize, usize), ConfigError>(ConfigError::NoGoalNode) <==> self.wf() && (
            exists|f: int| self.unique_entry(f)) && !(exists|l: int| self.is_goal(l)),
            r == Err::<(usize, usize), ConfigError>(ConfigError::MultipleGoalNodes) <==> self.wf()
                && (exists|f: int| self.unique_entry(f)) && (exists|l: int, m: int|
                l != m && self.is_goal(l) && self.is_goal(m)),
    {
        let n = self.nodes.len();
        let m = self.edges.len();
        if n > MAX_COUNT || m > MAX_COUNT {
            return Err(ConfigError::GraphTooLarge);
        }
        let mut e: usize = 0;
        while e < m
            invariant
                e <= m,
                m == self.edge_count(),
                n == self.node_count(),
                self.sizes_ok(),
                forall|j: int| 0 <= j < e ==> (#[trigger] self.edges@[j]).in_range(n as int),
            decreases m - e,
        {
            let edge = &self.edges[e];
            if edge.source >= n || edge.target >= n {
                assert(!self.edges@[e as int].in_range(n as int));
                assert(!self.edges_in_range());
                return Err(ConfigError::DanglingEdge);
            }
            e = e + 1;
        }
        assert(self.edges_in_range());
        let mut i: usize = 0;
        while i < n
            invariant
                i <= n,
                n == self.node_count(),
                self.sizes_ok(),
                self.edges_in_range(),
                forall|j: int| 0 <= j < i ==> (#[trigger] self.nodes@[j]).wf(),
            decreases n - i,
        {
            let node = &self.nodes[i];
            if !(node.bits >= 0 && node.bits <= MAX_YIELD && node.keys >= -MAX_YIELD && node.keys
                <= MAX_YIELD && node.time <= MAX_FRAMES) {
                assert(!self.nodes@[i as int].wf());
                assert(!self.ranges_ok());
                return Err(ConfigError::ValueOutOfRange);
            }
            i = i + 1;
        }
        let mut e: usize = 0;
        while e < m
            invariant
                e <= m,
                m == self.edge_count(),
                n == self.node_count(),
                self.sizes_ok(),
                self.edges_in_range(),
                forall|j: int| 0 <= j < n ==> (#[trigger] self.nodes@[j]).wf(),
                forall|j: int| 0 <= j < e ==> (#[trigger] self.edges@[j]).dist_ok(),
            decreases m - e,
        {
            let edge = &self.edges[e];
            if !(edge.time.dx <= MAX_FRAMES && edge.time.dy <= MAX_FRAMES && edge.time.dz
                <= MAX_FRAMES) {
                assert(!self.edges@[e as int].dist_ok());
                assert(!self.ranges_ok());
                return Err(ConfigError::ValueOutOfRange);
            }
            e = e + 1;
        }
        assert(self.wf());

        let mut has_in: Vec<bool> = Vec::new();
        let mut has_out: Vec<bool> = Vec::new();
        let mut i: usize = 0;
        while i < n
            invariant
                i <= n,
                has_in@.len() == i,
                has_out@.len() == i,
                forall|j: int| 0 <= j < i ==> !has_in@[j] && !has_out@[j],
            decreases n - i,
        {
            has_in.push(false);
            has_out.push(false);
            i = i + 1;
        }
        let mut e: usize = 0;
        while e < m
            invariant
                e <= m,
                self.wf(),
                m == self.edge_count(),
                n == self.node_count(),
                has_in@.len() == n,
                has_out@.len() == n,
                forall|j: int|
                    0 <= j < n ==> (has_in@[j] <==> exists|k: int|
                        0 <= k < e && (#[trigger] self.edges@[k]).target == j),
                forall|j: int|
                    0 <= j < n ==> (has_out@[j] <==> exists|k: int|
                        0 <= k < e && (#[trigger] self.edges@[k]).source == j),
            decreases m - e,
        {
            let edge = &self.edges[e];
            has_in.set(edge.target, true);
            has_out.set(edge.source, true);
            e = e + 1;
        }
        assert forall|j: int| 0 <= j < n implies (!has_in@[j] <==> self.is_entry(j)) by {
            if has_in@[j] {
                let k = choose|k: int| 0 <= k < m && (#[trigger] self.edges@[k]).target == j;
                assert(!self.is_entry(j));
            }
        }
        assert forall|j: int| 0 <= j < n implies (!has_out@[j] <==> self.is_goal(j)) by {
            if has_out@[j] {
                let k = choose|k: int| 0 <= k < m && (#[trigger] self.edges@[k]).source == j;
                assert(!self.is_goal(j));
            }
        }

        let mut entry: Option<usize> = None;
        let mut i: usize = 0;
        while i < n
            invariant
                i <= n,
                n == self.node_count(),
                has_in@.len() == n,
                forall|j: int| 0 <= j < n ==> (!has_in@[j] <==> self.is_entry(j)),
                self.wf(),
                entry matches Some(f) ==> f < i && self.is_entry(f as int),
                entry matches Some(f) ==> forall|j: int| 0 <= j < i && self.is_entry(j) ==> j == f,
                entry is None ==> forall|j: int| 0 <= j < i ==> !self.is_entry(j),
            decreases n - i,
        {
            if !has_in[i] {
                match entry {
                    None => { entry = Some(i); },
                    Some(f) => {
                        assert(f != i && self.is_entry(f as int) && self.is_entry(i as int));
                        assert(exists|a: int, b: int|
                            a != b && self.is_entry(a) && self.is_entry(b));
                        return Err(ConfigError::MultipleEntryNodes);
                    },
                }
            }
            i = i + 1;
        }
        let first = match entry {
            None => {
                assert(forall|j: int| !self.is_entry(j));
                return Err(ConfigError::NoEntryNode);
            },
            Some(f) => f,
        };
        assert(self.unique_entry(first as int));

        let mut goal: Option<usize> = None;
        let mut i: usize = 0;
        while i < n
            invariant
                i <= n,
                n == self.node_count(),
                has_out@.len() == n,
                forall|j: int| 0 <= j < n ==> (!has_out@[j] <==> self.is_goal(j)),
                self.wf(),
                self.unique_entry(first as int),
                goal matches Some(l) ==> l < i && self.is_goal(l as int),
                goal matches Some(l) ==> forall|j: int| 0 <= j < i && self.is_goal(j) ==> j == l,
                goal is None ==> forall|j: int| 0 <= j < i ==> !self.is_goal(j),
            decreases n - i,
        {
            if !has_out[i] {
                match goal {
                    None => { goal = Some(i); },
                    Some(l) => {
                        assert(l != i && self.is_goal(l as int) && self.is_goal(i as int));
                        assert(exists|a: int, b: int| a != b && self.is_goal(a) && self.is_goal(b));
                        return Err(ConfigError::MultipleGoalNodes);
                    },
                }
            }
            i = i + 1;
        }
        let last = match goal {
            None => {
                assert(forall|j: int| !self.is_goal(j));
                return Err(ConfigError::NoGoalNode);
            },
            Some(l) => l,
        };
        assert(self.unique_goal(last as int));
        Ok((first, last))
    }
}

/// Kind of a room-to-room connection in the hand-written overview of the
/// game world; the outside data tables and their renderings classify their
/// connections with it.
#[derive(Copy, Clone, Debug, PartialEq, Eq, Structural)]
pub enum Door {
    Door,
    Lock,
    Secret,
    SecretIndirect,
    SecretBi,
    Warp,
    Water,
    Owl,
}

/// A fatal configuration error: the graph handed to the optimizer breaks
/// the loading contract.  Detected eagerly, before any solver resource is
/// allocated; never retried.
#[derive(Copy, Clone, Debug, PartialEq, Eq, Structural)]
pub enum ConfigError {
    /// More nodes or edges than the solver's index range admits.
    GraphTooLarge,
    /// An edge references a node outside the graph.
    DanglingEdge,
    /// A yield, dwell time or displacement outside its range.
    ValueOutOfRange,
    /// No node without incoming edges.
    NoEntryNode,
    /// More than one node without incoming edges.
    MultipleEntryNodes,
    /// No node without outgoing edges.
    NoGoalNode,
    /// More than one node without outgoing edges.
    MultipleGoalNodes,
}

} // verus!
