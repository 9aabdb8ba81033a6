//! Packed topology of a directed acyclic computation graph, with a traversal
//! that recovers, node by node, the edges each node reads and the edges it
//! produces, and a container that pairs a topology with node and edge payloads.
use vstd::prelude::*;

mod topo;

pub use topo::{
    lemma_edges_partition, owned_edges, read_edges, GraphTopo, Iter, NodeRef, NodeRefView, TopoNode,
    TopoView,
};

verus! {

/// A topology together with one payload per node and one per global edge,
/// aligned by position.
#[derive(Clone)]
pub struct Graph<N, E> {
    pub topo: GraphTopo,
    pub nodes: Vec<N>,
    pub edges: Vec<E>,
}

impl<N, E> Graph<N, E> {
    /// Node payload `i` belongs to node `i`, and edge payload `j` to global edge `j`.
    pub open spec fn aligned(&self) -> bool {
        &&& self.nodes@.len() == self.topo@.nodes.len()
        &&& self.edges@.len() == self.topo@.n_edge()
    }
}

} // verus!
