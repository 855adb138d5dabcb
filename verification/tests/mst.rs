use arithmetic::graph::edge::Edge;
use arithmetic::graph::edge_queue::EdgeQueue;
use arithmetic::graph::edge_weighted_graph::EdgeWeightedGraph;
use arithmetic::graph::kruskal_mst::KruskalMST;
use arithmetic::graph::lazy_prim_mst::LazyPrimMST;
use arithmetic::graph::prim_mst::PrimMST;
use std::rc::Rc;

fn tiny_ewg() -> EdgeWeightedGraph {
    let tiny_ewg = [
        (4, 5, 0.35), (4, 7, 0.37), (5, 7, 0.28), (0, 7, 0.16),
        (1, 5, 0.32), (0, 4, 0.38), (2, 3, 0.17), (1, 7, 0.19),
        (0, 2, 0.26), (1, 2, 0.36), (1, 3, 0.39), (2, 7, 0.34),
        (6, 2, 0.40), (3, 6, 0.52), (6, 0, 0.58), (6, 4, 0.93),
    ];
    let mut g = EdgeWeightedGraph::with_capacity(8);
    for &(v, w, weight) in tiny_ewg.iter() {
        let weight: f32 = weight;
        g.add_edge(Edge::new(v, w, weight.to_bits()));
    }
    g
}

fn weight(edges: Vec<Rc<Edge>>) -> f32 {
    let mut weight = 0.0;
    for edge in edges {
        weight += f32::from_bits(edge.weight());
    }
    weight
}

fn ends(edges: &Vec<Rc<Edge>>) -> Vec<(usize, usize)> {
    edges.iter().map(|e| (e.either(), e.other(e.either()).unwrap())).collect()
}

#[test]
fn kruskal_mst_test() {
    let g = tiny_ewg();
    let mst = KruskalMST::new(&g);
    //    1-7 0.19
    //    0-2 0.26
    //    2-3 0.17
    //    4-5 0.35
    //    5-7 0.28
    //    6-2 0.4
    //    0-7 0.16
    assert_eq!(mst.edges().len(), g.v() - 1);
    assert_eq!(weight(mst.edges()), 1.81);
}

#[test]
fn lazy_prim_mst_test() {
    let g = tiny_ewg();
    let mst = LazyPrimMST::new(&g);
    // the lightest edges
    //    0-7 0.16
    //    1-7 0.19
    //    0-2 0.26
    //    2-3 0.17
    //    5-7 0.28
    //    4-5 0.35
    //    6-2 0.40
    assert_eq!(mst.edges().len(), g.v() - 1);
    assert_eq!(weight(mst.edges()), 1.8100001);
}

#[test]
fn prim_mst_test() {
    let g = tiny_ewg();
    let mst = PrimMST::new(&g);
    assert_eq!(mst.edges().len(), g.v() - 1);
    assert_eq!(weight(mst.edges()), 1.81);
}

#[test]
fn mst_edges_in_order() {
    let g = tiny_ewg();
    assert_eq!(
        ends(&KruskalMST::new(&g).edges()),
        [(0, 7), (2, 3), (1, 7), (0, 2), (5, 7), (4, 5), (6, 2)]
    );
    assert_eq!(
        ends(&LazyPrimMST::new(&g).edges()),
        [(0, 7), (1, 7), (0, 2), (2, 3), (5, 7), (4, 5), (6, 2)]
    );
    assert_eq!(
        ends(&PrimMST::new(&g).edges()),
        [(1, 7), (0, 2), (2, 3), (4, 5), (5, 7), (6, 2), (0, 7)]
    );
}

#[test]
fn mst_of_a_graph_in_two_parts() {
    let mut g = EdgeWeightedGraph::with_capacity(4);
    g.add_edge(Edge::new(0, 1, 5));
    g.add_edge(Edge::new(2, 3, 1));
    g.add_edge(Edge::new(3, 2, 2));
    assert_eq!(ends(&KruskalMST::new(&g).edges()), [(2, 3), (0, 1)]);
    assert_eq!(ends(&LazyPrimMST::new(&g).edges()), [(0, 1)]);
    assert_eq!(ends(&PrimMST::new(&g).edges()), [(0, 1)]);
    let lone = EdgeWeightedGraph::with_capacity(1);
    assert!(KruskalMST::new(&lone).edges().is_empty());
    assert!(LazyPrimMST::new(&lone).edges().is_empty());
    assert!(PrimMST::new(&lone).edges().is_empty());
}

#[test]
fn edge_queue_hands_out_the_lightest() {
    let mut q = EdgeQueue::new();
    assert!(q.is_empty());
    q.push(Rc::new(Edge::new(0, 1, 7)));
    q.push(Rc::new(Edge::new(1, 2, 3)));
    q.push(Rc::new(Edge::new(2, 3, 9)));
    assert_eq!(q.pop().weight(), 3);
    q.push(Rc::new(Edge::new(3, 4, 1)));
    assert_eq!(q.pop().weight(), 1);
    assert_eq!(q.pop().weight(), 7);
    assert_eq!(q.pop().weight(), 9);
    assert!(q.is_empty());
}
