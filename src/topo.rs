use std::ops::Range;
use vstd::prelude::*;
use vstd::slice::slice_subrange;

verus! {

/// Shape of one node: how many edges it keeps to itself, reads and produces.
#[derive(Clone, Copy)]
pub struct TopoNode {
    pub n_local: usize,
    pub n_inputs: usize,
    pub n_outputs: usize,
}

/// Sum of `n_local + n_outputs` over `nodes`: the edges the nodes own.
pub open spec fn owned_edges(nodes: Seq<TopoNode>) -> int
    decreases nodes.len(),
{
    if nodes.len() == 0 {
        0
    } else {
        owned_edges(nodes.drop_last()) + nodes.last().n_local + nodes.last().n_outputs
    }
}

/// Sum of `n_inputs` over `nodes`: the entries they take in the connections.
pub open spec fn read_edges(nodes: Seq<TopoNode>) -> int
    decreases nodes.len(),
{
    if nodes.len() == 0 {
        0
    } else {
        read_edges(nodes.drop_last()) + nodes.last().n_inputs
    }
}

/// What the traversal shows of one node, as plain values.
pub struct NodeRefView {
    pub inputs: Seq<usize>,
    pub outputs: Range<usize>,
}

/// The topology as plain values.
pub struct TopoView {
    pub n_inputs: nat,
    pub n_outputs: nat,
    pub connections: Seq<usize>,
    pub nodes: Seq<TopoNode>,
}

impl TopoView {
    /// Number of edges in the global numbering.
    pub open spec fn n_edge(self) -> int {
        self.n_inputs + owned_edges(self.nodes)
    }

    /// First global index owned by node `i` (its local edges come first).
    pub open spec fn local_start(self, i: int) -> int {
        self.n_inputs + owned_edges(self.nodes.take(i))
    }

    /// First global index of the outputs of node `i`.
    pub open spec fn output_start(self, i: int) -> int {
        self.local_start(i) + self.nodes[i].n_local
    }

    /// One past the last global index of the outputs of node `i`.
    pub open spec fn output_end(self, i: int) -> int {
        self.output_start(i) + self.nodes[i].n_outputs
    }

    /// Position in `connections` where the inputs of node `i` begin.
    pub open spec fn conn_start(self, i: int) -> int {
        self.n_outputs + read_edges(self.nodes.take(i))
    }

    /// The input edges of node `i`.
    pub open spec fn node_inputs(self, i: int) -> Seq<usize> {
        self.connections.subrange(self.conn_start(i), self.conn_start(i) + self.nodes[i].n_inputs)
    }

    /// What the traversal shows of node `i`: its inputs and its output range.
    pub open spec fn node_view(self, i: int) -> NodeRefView {
        NodeRefView {
            inputs: self.node_inputs(i),
            outputs: Range { start: self.output_start(i) as usize, end: self.output_end(i) as usize },
        }
    }

    /// The views of all nodes, in order.
    pub open spec fn node_views(self) -> Seq<NodeRefView> {
        Seq::new(self.nodes.len(), |i: int| self.node_view(i))
    }

    /// Edge `e` lies among the edges that some node owns, local or output.
    pub open spec fn in_some_block(self, e: int) -> bool {
        exists|i: int| 0 <= i < self.nodes.len() && #[trigger] self.local_start(i) <= e < self.local_start(i + 1)
    }

    /// Edge `e` exists before node `i` runs: a graph input or an output of an earlier node.
    pub open spec fn produced_before(self, e: int, i: int) -> bool {
        ||| 0 <= e < self.n_inputs
        ||| exists|k: int| 0 <= k < i && #[trigger] self.output_start(k) <= e < self.output_end(k)
    }

    /// The conditions a builder must meet: consistent lengths, a numbering that
    /// fits in `usize`, graph outputs that are produced edges, and a node order in
    /// which every input is produced before it is read.
    pub open spec fn wf(self) -> bool {
        &&& self.connections.len() == self.n_outputs + read_edges(self.nodes)
        &&& self.n_edge() <= usize::MAX
        &&& forall|k: int|
            0 <= k < self.n_outputs ==> self.produced_before(
                #[trigger] self.connections[k] as int,
                self.nodes.len() as int,
            )
        &&& forall|i: int, j: int|
            0 <= i < self.nodes.len() && 0 <= j < self.nodes[i].n_inputs ==> self.produced_before(
                #[trigger] self.node_inputs(i)[j] as int,
                i,
            )
    }
}

/// Immutable, flat encoding of a graph's connectivity.
pub struct GraphTopo {
    pub(crate) n_inputs: usize,
    pub(crate) n_outputs: usize,
    pub(crate) connections: Vec<usize>,
    pub(crate) nodes: Vec<TopoNode>,
}

impl View for GraphTopo {
    type V = TopoView;

    closed spec fn view(&self) -> TopoView {
        TopoView {
            n_inputs: self.n_inputs as nat,
            n_outputs: self.n_outputs as nat,
            connections: self.connections@,
            nodes: self.nodes@,
        }
    }
}

impl Clone for GraphTopo {
    /// A deep copy: the copy owns arrays of its own with the same contents.
    fn clone(&self) -> (r: Self)
        ensures
            r@ == self@,
    {
        proof {
            use_type_invariant(self);
        }
        let connections = self.connections.clone();
        let nodes = self.nodes.clone();
        proof {
            assert(connections@ =~= self.connections@);
            assert(nodes@ =~= self.nodes@);
        }
        GraphTopo { n_inputs: self.n_inputs, n_outputs: self.n_outputs, connections, nodes }
    }
}

impl GraphTopo {
    #[verifier::type_invariant]
    closed spec fn inv(self) -> bool {
        self@.wf()
    }

    /// Builds a topology from arrays prepared by a builder, without checking them
    /// at run time: the conditions are proved by the caller.
    pub fn from_raw_parts(
        n_inputs: usize,
        n_outputs: usize,
        connections: Vec<usize>,
        nodes: Vec<TopoNode>,
    ) -> (r: Self)
        requires
            (TopoView {
                n_inputs: n_inputs as nat,
                n_outputs: n_outputs as nat,
                connections: connections@,
                nodes: nodes@,
            }).wf(),
        ensures
            r@ == (TopoView {
                n_inputs: n_inputs as nat,
                n_outputs: n_outputs as nat,
                connections: connections@,
                nodes: nodes@,
            }),
    {
        GraphTopo { n_inputs, n_outputs, connections, nodes }
    }

    /// Starts a traversal at the first node.
    pub fn iter(&self) -> (r: Iter<'_>)
        ensures
            self@.wf(),
            r.topo() == self@,
            r.index() == 0,
            r.remaining() == self@.node_views(),
    {
        proof {
            use_type_invariant(self);
            assert(self@.nodes.take(0) =~= Seq::<TopoNode>::empty());
        }
        let r = Iter { topo: self, i_node: 0, i_edge: self.n_inputs, i_conn: self.n_outputs };
        assert(r.remaining() =~= self@.node_views());
        r
    }

    /// Number of graph inputs.
    pub fn n_inputs(&self) -> (r: usize)
        ensures
            r == self@.n_inputs,
    {
        self.n_inputs
    }

    /// Number of graph outputs.
    pub fn n_outputs(&self) -> (r: usize)
        ensures
            r == self@.n_outputs,
    {
        self.n_outputs
    }

    /// Number of nodes.
    pub fn n_node(&self) -> (r: usize)
        ensures
            r == self@.nodes.len(),
    {
        self.nodes.len()
    }

    /// Number of edges: the graph inputs, then every node's local and output edges.
    pub fn n_edge(&self) -> (r: usize)
        ensures
            r == self@.n_edge(),
            r == self@.n_inputs + owned_edges(self@.nodes),
    {
        proof {
            use_type_invariant(self);
        }
        let ghost nodes = self@.nodes;
        let mut acc: usize = self.n_inputs;
        let mut i: usize = 0;
        proof {
            assert(nodes.take(0).len() == 0);
        }
        while i < self.nodes.len()
            invariant
                nodes == self@.nodes,
                self@.wf(),
                i <= nodes.len(),
                acc == self@.n_inputs + owned_edges(nodes.take(i as int)),
            decreases nodes.len() - i,
        {
            let node = self.nodes[i];
            proof {
                lemma_owned_edges_mono(nodes, i + 1, nodes.len() as int);
                assert(nodes.take(i + 1).drop_last() =~= nodes.take(i as int));
                assert(nodes.take(nodes.len() as int) =~= nodes);
            }
            acc = acc + node.n_local + node.n_outputs;
            i = i + 1;
        }
        proof {
            assert(nodes.take(nodes.len() as int) =~= nodes);
        }
        acc
    }

    /// The graph inputs: edges `0` up to `n_inputs`.
    pub fn global_inputs(&self) -> (r: Range<usize>)
        ensures
            r.start == 0,
            r.end == self@.n_inputs,
    {
        Range { start: 0, end: self.n_inputs }
    }

    /// For each graph output, the edge that supplies it: a graph input or the
    /// output of some node.
    pub fn global_outputs(&self) -> (r: &[usize])
        ensures
            r@ == self@.connections.take(self@.n_outputs as int),
            r@.len() == self@.n_outputs,
            forall|k: int| 0 <= k < r@.len() ==> self@.produced_before(#[trigger] r@[k] as int, self@.nodes.len() as int),
            forall|k: int| 0 <= k < r@.len() ==> #[trigger] r@[k] < self@.n_edge(),
    {
        proof {
            use_type_invariant(self);
            lemma_read_edges_mono(self@.nodes, 0, self@.nodes.len() as int);
            assert(self@.nodes.take(self@.nodes.len() as int) =~= self@.nodes);
            assert forall|k: int| 0 <= k < self@.n_outputs implies #[trigger] self@.connections[k] < self@.n_edge() by {
                lemma_produced_in_range(self@, self@.connections[k] as int, self@.nodes.len() as int);
            }
        }
        slice_subrange(self.connections.as_slice(), 0, self.n_outputs)
    }
}

/// One node as seen by the traversal: the global edges it reads, and the
/// range of global edges it produces.
pub struct NodeRef<'a> {
    pub inputs: &'a [usize],
    pub outputs: Range<usize>,
}

impl<'a> View for NodeRef<'a> {
    type V = NodeRefView;

    open spec fn view(&self) -> NodeRefView {
        NodeRefView { inputs: self.inputs@, outputs: self.outputs }
    }
}

/// Forward traversal of a topology, one node per step.
pub struct Iter<'a> {
    topo: &'a GraphTopo,
    i_node: usize,
    i_edge: usize,
    i_conn: usize,
}

impl<'a> Iter<'a> {
    #[verifier::type_invariant]
    closed spec fn inv(self) -> bool {
        &&& self.i_node <= self.topo@.nodes.len()
        &&& self.i_edge == self.topo@.local_start(self.i_node as int)
        &&& self.i_conn == self.topo@.conn_start(self.i_node as int)
    }

    /// The topology being walked.
    pub closed spec fn topo(&self) -> TopoView {
        self.topo@
    }

    /// How many nodes have been visited.
    pub closed spec fn index(&self) -> int {
        self.i_node as int
    }

    /// The views still to come.
    pub open spec fn remaining(&self) -> Seq<NodeRefView> {
        self.topo().node_views().skip(self.index())
    }

    /// What a traversal yields depends on the topology alone: two traversals
    /// started on equal topologies yield the same views, every node's in order.
    pub proof fn lemma_traversal_repeatable(a: Iter<'a>, b: Iter<'a>)
        requires
            a.topo() == b.topo(),
            a.index() == 0,
            b.index() == 0,
        ensures
            a.remaining() == b.remaining(),
            a.remaining() == a.topo().node_views(),
    {
        assert(a.remaining() =~= a.topo().node_views());
    }

    /// Shows the next node, or `None` once every node has been shown.
    pub fn next(&mut self) -> (r: Option<NodeRef<'a>>)
        ensures
            final(self).topo() == old(self).topo(),
            old(self).remaining().len() > 0 ==> {
                &&& r is Some
                &&& r->0@ == old(self).remaining()[0]
                &&& final(self).index() == old(self).index() + 1
            },
            old(self).remaining().len() == 0 ==> r is None && final(self).index() == old(self).index(),
            final(self).remaining() == if old(self).remaining().len() > 0 {
                old(self).remaining().drop_first()
            } else {
                old(self).remaining()
            },
    {
        proof {
            use_type_invariant(&*self);
            use_type_invariant(self.topo);
        }
        let topo = self.topo;
        let i = self.i_node;
        if i < topo.nodes.len() {
            let node = topo.nodes[i];
            let ghost v = topo@;
            proof {
                lemma_owned_edges_mono(v.nodes, i + 1, v.nodes.len() as int);
                lemma_read_edges_mono(v.nodes, i + 1, v.nodes.len() as int);
                assert(v.nodes.take(i + 1).drop_last() =~= v.nodes.take(i as int));
                assert(v.nodes.take(v.nodes.len() as int) =~= v.nodes);
            }
            let n_conn = topo.connections.len();
            proof {
                assert(self.i_conn + node.n_inputs <= n_conn);
            }
            let start = self.i_edge + node.n_local;
            let end = start + node.n_outputs;
            let inputs = slice_subrange(topo.connections.as_slice(), self.i_conn, self.i_conn + node.n_inputs);
            let ans = NodeRef { inputs, outputs: Range { start, end } };
            *self = Iter { topo, i_node: i + 1, i_edge: end, i_conn: self.i_conn + node.n_inputs };
            proof {
                assert(ans@ == v.node_view(i as int));
                assert(self.remaining() =~= old(self).remaining().drop_first());
            }
            Some(ans)
        } else {
            None
        }
    }
}

/// A prefix of the nodes owns no more edges than a longer one.
proof fn lemma_owned_edges_mono(nodes: Seq<TopoNode>, i: int, j: int)
    requires
        0 <= i <= j <= nodes.len(),
    ensures
        0 <= owned_edges(nodes.take(i)) <= owned_edges(nodes.take(j)),
    decreases j,
{
    if j > 0 {
        lemma_owned_edges_mono(nodes, if i == j { j - 1 } else { i }, j - 1);
        assert(nodes.take(j).drop_last() =~= nodes.take(j - 1));
    } else {
        assert(nodes.take(0).len() == 0);
    }
}

/// A prefix of the nodes reads no more entries than a longer one.
proof fn lemma_read_edges_mono(nodes: Seq<TopoNode>, i: int, j: int)
    requires
        0 <= i <= j <= nodes.len(),
    ensures
        0 <= read_edges(nodes.take(i)) <= read_edges(nodes.take(j)),
    decreases j,
{
    if j > 0 {
        lemma_read_edges_mono(nodes, if i == j { j - 1 } else { i }, j - 1);
        assert(nodes.take(j).drop_last() =~= nodes.take(j - 1));
    } else {
        assert(nodes.take(0).len() == 0);
    }
}

/// An edge produced before node `i` lies below the first edge that node `i` owns.
proof fn lemma_produced_in_range(v: TopoView, e: int, i: int)
    requires
        0 <= i <= v.nodes.len(),
        v.produced_before(e, i),
    ensures
        0 <= e < v.local_start(i),
        v.local_start(i) <= v.n_edge(),
{
    lemma_owned_edges_mono(v.nodes, i, v.nodes.len() as int);
    assert(v.nodes.take(v.nodes.len() as int) =~= v.nodes);
    if !(0 <= e < v.n_inputs) {
        let k = choose|k: int| 0 <= k < i && #[trigger] v.output_start(k) <= e < v.output_end(k);
        lemma_owned_edges_mono(v.nodes, k + 1, i);
        lemma_owned_edges_mono(v.nodes, 0, k);
        assert(v.nodes.take(k + 1).drop_last() =~= v.nodes.take(k));
        assert(owned_edges(v.nodes.take(k + 1)) == owned_edges(v.nodes.take(k)) + v.nodes[k].n_local
            + v.nodes[k].n_outputs);
    } else {
        lemma_owned_edges_mono(v.nodes, 0, i);
    }
}

/// An edge at or past the first owned edge and below `local_start(j)` lies in
/// the block of some node before `j`.
proof fn lemma_find_block(v: TopoView, e: int, j: int)
    requires
        0 <= j <= v.nodes.len(),
        v.n_inputs <= e < v.local_start(j),
    ensures
        exists|i: int| 0 <= i < j && #[trigger] v.local_start(i) <= e < v.local_start(i + 1),
    decreases j,
{
    if j == 0 {
        assert(v.nodes.take(0).len() == 0);
    } else if e >= v.local_start(j - 1) {
        assert(v.local_start(j - 1) <= e < v.local_start(j - 1 + 1));
    } else {
        lemma_find_block(v, e, j - 1);
        let i = choose|i: int| 0 <= i < j - 1 && #[trigger] v.local_start(i) <= e < v.local_start(i + 1);
        assert(v.local_start(i) <= e < v.local_start(i + 1));
    }
}

/// The global edge numbering is tiled without gap or overlap: the graph
/// inputs come first, then for each node in order its local edges and right
/// after them the outputs the traversal reports for it. The blocks follow one
/// another in node order, the last one ends at `n_edge`, and every edge from
/// `n_inputs` on falls in the block of some node.
pub proof fn lemma_edges_partition(v: TopoView)
    requires
        v.wf(),
    ensures
        v.local_start(0) == v.n_inputs,
        v.local_start(v.nodes.len() as int) == v.n_edge(),
        forall|i: int|
            0 <= i < v.nodes.len() ==> {
                &&& v.local_start(i) <= v.output_start(i) <= v.output_end(i)
                &&& v.output_end(i) == #[trigger] v.local_start(i + 1)
                &&& v.node_views()[i].outputs.start == v.output_start(i)
                &&& v.node_views()[i].outputs.end == v.output_end(i)
            },
        forall|i: int, k: int|
            0 <= i < k < v.nodes.len() ==> {
                &&& #[trigger] v.output_end(i) <= #[trigger] v.output_start(k)
                &&& v.local_start(i + 1) <= v.local_start(k)
            },
        forall|e: int| v.n_inputs <= e < v.n_edge() ==> #[trigger] v.in_some_block(e),
{
    let n = v.nodes.len() as int;
    assert(v.nodes.take(0).len() == 0);
    assert(v.nodes.take(n) =~= v.nodes);
    assert forall|i: int| 0 <= i < n implies {
        &&& v.local_start(i) <= v.output_start(i) <= v.output_end(i)
        &&& v.output_end(i) == #[trigger] v.local_start(i + 1)
        &&& v.node_views()[i].outputs.start == v.output_start(i)
        &&& v.node_views()[i].outputs.end == v.output_end(i)
    } by {
        assert(v.nodes.take(i + 1).drop_last() =~= v.nodes.take(i));
        lemma_owned_edges_mono(v.nodes, i + 1, n);
        lemma_owned_edges_mono(v.nodes, 0, i);
    }
    assert forall|i: int, k: int| 0 <= i < k < n implies {
        &&& #[trigger] v.output_end(i) <= #[trigger] v.output_start(k)
        &&& v.local_start(i + 1) <= v.local_start(k)
    } by {
        assert(v.nodes.take(i + 1).drop_last() =~= v.nodes.take(i));
        lemma_owned_edges_mono(v.nodes, i + 1, k);
    }
    assert forall|e: int| v.n_inputs <= e < v.n_edge() implies #[trigger] v.in_some_block(e) by {
        lemma_find_block(v, e, n);
    }
}

} // verus!
