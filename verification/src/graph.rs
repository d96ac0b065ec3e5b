//! The graph store: fixed-point 3D node positions in a flat array (three
//! entries per node, in node-id order) and edges in a flat array (two node
//! ids per edge, in insertion order).

use vstd::prelude::*;

verus! {

/// Largest coordinate magnitude the engine works on. One world unit is
/// `FIXED_SCALE` coordinate units; the host layer scales and clamps
/// floating-point input into this range.
pub const MAX_COORD: i64 = 1_000_000_000;

/// Fixed-point scale: coordinate units per world unit.
pub const FIXED_SCALE: i64 = 1000;

/// Node ids are 32-bit, so a graph holds at most this many nodes.
pub const MAX_NODE_COUNT: usize = 0xFFFF_FFFF;

/// Upper bound on the number of entries in the flat edge array.
pub const MAX_EDGE_ENTRIES: usize = 0xFFFF_FFFE;

/// Why a graph was rejected at load time.
#[derive(Clone, Copy, PartialEq, Eq, Structural, Debug)]
pub enum GraphError {
    /// An edge references a node id outside `[0, node_count)`.
    InvalidTopology,
    /// The node array length is not a multiple of 3, or the edge array
    /// length is not even.
    DimensionMismatch,
}

/// The flat arrays have whole triplets and whole pairs.
pub open spec fn dims_ok(nodes: Seq<i64>, edges: Seq<u32>) -> bool {
    nodes.len() % 3 == 0 && edges.len() % 2 == 0
}

/// Every edge endpoint is a valid node id.
pub open spec fn topology_ok(nodes: Seq<i64>, edges: Seq<u32>) -> bool {
    forall|k: int| 0 <= k < edges.len() ==> (edges[k] as int) < nodes.len() as int / 3
}

/// All coordinates lie in the engine's working range.
pub open spec fn coords_ok(nodes: Seq<i64>) -> bool {
    forall|k: int| 0 <= k < nodes.len() ==> -MAX_COORD <= #[trigger] nodes[k] <= MAX_COORD
}

/// Owns one graph: positions and topology. Exclusively owned by one
/// caller; all operations run to completion synchronously.
pub struct GraphProcessor {
    pub nodes: Vec<i64>,
    pub edges: Vec<u32>,
}

impl GraphProcessor {
    /// The flat coordinate array, as the layout engine sees it.
    pub open spec fn nodes_view(self) -> Seq<i64> {
        self.nodes@
    }

    /// The flat edge array, as both engines see it.
    pub open spec fn edges_view(self) -> Seq<u32> {
        self.edges@
    }

    pub open spec fn spec_node_count(self) -> int {
        self.nodes@.len() as int / 3
    }

    pub open spec fn spec_edge_count(self) -> int {
        self.edges@.len() as int / 2
    }

    /// Well-formedness: whole triplets and pairs, valid topology, bounded
    /// coordinates, and sizes within the 32-bit id space. Established by
    /// the constructor and preserved by every operation.
    pub open spec fn wf(self) -> bool {
        &&& dims_ok(self.nodes@, self.edges@)
        &&& topology_ok(self.nodes@, self.edges@)
        &&& coords_ok(self.nodes@)
        &&& self.nodes@.len() <= 3 * MAX_NODE_COUNT
        &&& self.edges@.len() <= MAX_EDGE_ENTRIES
    }

    /// A new processor holds the empty graph.
    pub fn new() -> (r: GraphProcessor)
        ensures
            r.wf(),
            r.nodes_view().len() == 0,
            r.edges_view().len() == 0,
    {
        GraphProcessor { nodes: Vec::new(), edges: Vec::new() }
    }

    /// Replaces the stored graph wholesale. All-or-nothing: on any error
    /// the prior graph state is left unchanged. `DimensionMismatch` when
    /// the arrays do not split into whole triplets and pairs; otherwise
    /// `InvalidTopology` when an edge endpoint is out of range.
    #[verifier::loop_isolation(false)]
    pub fn load_graph(&mut self, nodes: Vec<i64>, edges: Vec<u32>) -> (r: Result<(), GraphError>)
        requires
            old(self).wf(),
            nodes@.len() <= 3 * MAX_NODE_COUNT,
            edges@.len() <= MAX_EDGE_ENTRIES,
            coords_ok(nodes@),
        ensures
            final(self).wf(),
            r is Ok <==> dims_ok(nodes@, edges@) && topology_ok(nodes@, edges@),
            (r == Err::<(), GraphError>(GraphError::DimensionMismatch)) <==> !dims_ok(nodes@, edges@),
            (r == Err::<(), GraphError>(GraphError::InvalidTopology))
                <==> (dims_ok(nodes@, edges@) && !topology_ok(nodes@, edges@)),
            r is Ok ==> final(self).nodes@ == nodes@ && final(self).edges@ == edges@,
            !(r is Ok) ==> *final(self) == *old(self),
    {
        if nodes.len() % 3 != 0 || edges.len() % 2 != 0 {
            return Err(GraphError::DimensionMismatch);
        }
        let n: usize = nodes.len() / 3;
        let mut k: usize = 0;
        while k < edges.len()
            invariant
                k <= edges.len(),
                n == nodes@.len() as int / 3,
                forall|q: int| 0 <= q < k ==> (edges@[q] as int) < n as int,
            decreases edges.len() - k,
        {
            if edges[k] as usize >= n {
                assert(!topology_ok(nodes@, edges@));
                return Err(GraphError::InvalidTopology);
            }
            k = k + 1;
        }
        self.nodes = nodes;
        self.edges = edges;
        Ok(())
    }

    /// Number of nodes in the stored graph.
    pub fn node_count(&self) -> (r: usize)
        ensures
            r as int == self.spec_node_count(),
    {
        self.nodes.len() / 3
    }

    /// Number of edges in the stored graph.
    pub fn edge_count(&self) -> (r: usize)
        ensures
            r as int == self.spec_edge_count(),
    {
        self.edges.len() / 2
    }
}

} // verus!
