use arithmetic::graph::edge::Edge;
use arithmetic::graph::edge_weighted_graph::EdgeWeightedGraph;
use std::cmp::Ordering;

#[test]
fn edge_test() {
    let edge = Edge::new(0, 5, 0.8f32.to_bits());
    let edge2 = Edge::new(1, 2, 1.1f32.to_bits());

    assert_eq!(f32::from_bits(edge.weight()), 0.8);
    assert_eq!(edge.either(), 0);
    assert_eq!(edge.other(0), Some(5));
    assert_eq!(edge.other(1), None);
    assert!(edge > edge2);
    assert!(edge2 < edge);
    assert_eq!(edge.partial_cmp(&edge2).unwrap(), Ordering::Greater);
    assert_eq!(edge2.partial_cmp(&edge).unwrap(), Ordering::Less);
    assert_eq!(edge.partial_cmp(&edge2), Some(Ordering::Greater));
    assert_eq!(edge2.partial_cmp(&edge), Some(Ordering::Less));
}

#[test]
fn edge_weighted_graph_test() {
    let tiny_ewg = [
        (4, 5, 0.35), (4, 7, 0.37), (5, 7, 0.28), (0, 7, 0.16),
        (1, 5, 0.32), (0, 4, 0.38), (2, 3, 0.17), (1, 7, 0.19),
        (0, 2, 0.26), (1, 2, 0.36), (1, 3, 0.39), (2, 7, 0.34),
        (6, 2, 0.40), (3, 6, 0.52), (6, 0, 0.58), (6, 4, 0.93),
    ];

    let mut g = EdgeWeightedGraph::with_capacity(8);
    for &(v, w, weight) in tiny_ewg.iter() {
        let weight: f32 = weight;
        g.add_edge(Edge::new(v, w, weight.to_bits()));
    }

    assert_eq!(g.v(), 8);
    assert_eq!(g.e(), 16);
    assert_eq!(g.adj(0).len(), 4);
    assert_eq!(g.edges().len(), 16);
}

#[test]
fn edge_weighted_graph_lists_each_edge_once() {
    let mut g = EdgeWeightedGraph::with_capacity(3);
    g.add_edge(Edge::new(2, 0, 7));
    g.add_edge(Edge::new(1, 1, 3));
    g.add_edge(Edge::new(1, 2, 5));
    assert_eq!(g.e(), 3);
    assert_eq!(g.adj(1).len(), 3);
    let edges = g.edges();
    // the loop at 1 is left out
    assert_eq!(edges.len(), 2);
    assert_eq!(*edges[0], Edge::new(2, 0, 7));
    assert_eq!(*edges[1], Edge::new(1, 2, 5));
    assert_eq!(Edge::new(1, 2, 5).other(2), Some(1));
    assert_eq!(Edge::new(1, 2, 5).partial_cmp(&Edge::new(0, 0, 5)), Some(Ordering::Equal));
}
