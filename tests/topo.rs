use graph::{Graph, GraphTopo, Iter, TopoNode};

fn node(n_local: usize, n_inputs: usize, n_outputs: usize) -> TopoNode {
    TopoNode { n_local, n_inputs, n_outputs }
}

fn walk(mut it: Iter<'_>) -> Vec<(Vec<usize>, std::ops::Range<usize>)> {
    let mut out = Vec::new();
    while let Some(n) = it.next() {
        out.push((n.inputs.to_vec(), n.outputs));
    }
    out
}

/// Two graph inputs feed one node whose single output is the graph output.
fn single_node() -> GraphTopo {
    GraphTopo::from_raw_parts(2, 1, vec![2, 0, 1], vec![node(0, 2, 1)])
}

/// Node 0 reads edge 0, keeps one local edge (1) and produces edges 2 and 3;
/// node 1 reads 2 and 3, keeps local edges 4 and 5 and produces edge 6.
fn chain() -> GraphTopo {
    GraphTopo::from_raw_parts(1, 1, vec![6, 0, 2, 3], vec![node(1, 1, 2), node(2, 2, 1)])
}

#[test]
fn single_node_scenario() {
    let t = single_node();
    assert_eq!(t.n_inputs(), 2);
    assert_eq!(t.n_outputs(), 1);
    assert_eq!(t.n_node(), 1);
    assert_eq!(t.n_edge(), 3);
    assert_eq!(t.global_inputs(), 0..2);
    assert_eq!(t.global_outputs(), &[2]);
    let views = walk(t.iter());
    assert_eq!(views, vec![(vec![0, 1], 2..3)]);
}

#[test]
fn chained_nodes_pass_outputs_on() {
    let t = chain();
    let mut it = t.iter();
    let first = it.next().unwrap();
    let second = it.next().unwrap();
    assert!(it.next().is_none());
    assert_eq!(first.inputs, &[0]);
    assert_eq!(first.outputs, 2..4);
    let produced: Vec<usize> = first.outputs.clone().collect();
    assert_eq!(second.inputs.to_vec(), produced);
    assert_eq!(second.outputs, 6..7);
    assert_eq!(t.global_outputs(), &[6]);
}

#[test]
fn edge_count_includes_local_edges() {
    let t = chain();
    assert_eq!(t.n_edge(), 1 + (1 + 2) + (2 + 1));
    let empty = GraphTopo::from_raw_parts(3, 2, vec![2, 0], vec![]);
    assert_eq!(empty.n_edge(), 3);
    assert_eq!(empty.n_node(), 0);
}

#[test]
fn outputs_and_local_edges_tile_the_numbering() {
    let t = GraphTopo::from_raw_parts(
        2,
        2,
        vec![5, 4, 0, 1, 3, 4],
        vec![node(1, 2, 2), node(0, 2, 1), node(3, 0, 0)],
    );
    let views = walk(t.iter());
    let nodes = [node(1, 2, 2), node(0, 2, 1), node(3, 0, 0)];
    let mut cursor = t.n_inputs();
    for (view, shape) in views.iter().zip(nodes.iter()) {
        cursor += shape.n_local;
        assert_eq!(view.1.start, cursor);
        cursor = view.1.end;
        assert_eq!(view.1.len(), shape.n_outputs);
    }
    assert_eq!(cursor, t.n_edge());
    assert_eq!(t.n_edge(), 9);
    assert_eq!(views[0].1, 3..5);
    assert_eq!(views[1].1, 5..6);
    assert_eq!(views[2].1, 9..9);
}

#[test]
fn global_outputs_are_valid_edges() {
    let t = GraphTopo::from_raw_parts(2, 3, vec![0, 3, 2, 1, 0], vec![node(0, 2, 2)]);
    let outs = t.global_outputs();
    assert_eq!(outs.len(), t.n_outputs());
    assert_eq!(outs, &[0, 3, 2]);
    for &e in outs {
        assert!(e < t.n_edge());
    }
}

#[test]
fn iterating_twice_gives_the_same_views() {
    let t = chain();
    let a = walk(t.iter());
    let b = walk(t.iter());
    assert_eq!(a, b);
    assert_eq!(a, vec![(vec![0], 2..4), (vec![2, 3], 6..7)]);
}

#[test]
fn exhausted_traversal_stays_exhausted() {
    let t = single_node();
    let mut it = t.iter();
    assert!(it.next().is_some());
    assert!(it.next().is_none());
    assert!(it.next().is_none());
    let empty = GraphTopo::from_raw_parts(0, 0, vec![], vec![]);
    assert!(empty.iter().next().is_none());
    assert_eq!(empty.n_edge(), 0);
    assert!(empty.global_outputs().is_empty());
}

#[test]
fn cloned_topology_matches() {
    let t = chain();
    let c = t.clone();
    assert_eq!(c.n_edge(), t.n_edge());
    assert_eq!(c.global_outputs(), t.global_outputs());
    assert_eq!(walk(c.iter()), walk(t.iter()));
}

#[test]
fn graph_clone_is_independent() {
    let g = Graph {
        topo: single_node(),
        nodes: vec!["add"],
        edges: vec![10, 20, 30],
    };
    let mut c = g.clone();
    c.nodes[0] = "mul";
    c.edges[2] = 99;
    c.edges.push(1);
    assert_eq!(g.nodes, vec!["add"]);
    assert_eq!(g.edges, vec![10, 20, 30]);
    assert_eq!(c.nodes, vec!["mul"]);
    assert_eq!(c.edges, vec![10, 20, 99, 1]);
    assert_eq!(g.edges.len(), g.topo.n_edge());
}
