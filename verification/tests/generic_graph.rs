use arithmetic::graph::{BreadthFirstPaths, DepthFirstPaths, DepthFirstSearch, Graph};
use arithmetic::graph_::cc::CC;
use arithmetic::graph_::two_color::TwoColor;

fn tiny_cg() -> Graph<i32> {
    let tiny_cg = [
        (0, 5), (2, 4), (2, 3), (1, 2),
        (0, 1), (3, 4), (3, 5), (0, 2),
    ];
    let mut g = Graph::<i32>::new();
    for &(v, w) in tiny_cg.iter() {
        g.add_edge(v, w);
    }
    g
}

#[test]
fn generic_graph_test() {
    let mut g = Graph::new();

    g.add_edge(0 ,5);
    assert_eq!(g.adj(0), Some(&vec![5]));

    g.add_edge(2, 4);
    g.add_edge(2, 3);
    g.add_edge(1, 2);
    g.add_edge(0, 1);
    g.add_edge(3, 4);
    g.add_edge(3, 5);
    g.add_edge(0, 2);

    assert_eq!(g.v(), 6);
    assert_eq!(g.e(), 8);

    let dfs = DepthFirstSearch::new(&g, 0);
    assert_eq!(dfs.is_marked(5), true);

    let dfp = DepthFirstPaths::new(&g, 0);
    assert_eq!(dfp.has_path_to(4), true);
    assert_eq!(dfp.path_to(4), [0, 5, 3, 2, 4]);

    let bfp = BreadthFirstPaths::new(&g, 0);
    assert_eq!(bfp.has_path_to(4), true);
    assert_eq!(bfp.path_to(4), [0, 2, 4]);

    assert_eq!(bfp.has_path_to(5), true);
    assert_eq!(bfp.path_to(5), [0, 5]);
}

#[test]
fn generic_graph_counts() {
    let cg = tiny_cg();
    assert_eq!(cg.v(), 6);
    assert_eq!(cg.e(), 8);
    let mut vertices = cg.vertices();
    vertices.sort();
    assert_eq!(vertices, [0, 1, 2, 3, 4, 5]);
    assert_eq!(cg.adj(7), None);
    // a loop stands twice in the list of its vertex
    let mut g = Graph::new();
    g.add_edge('a', 'a');
    assert_eq!(g.adj('a'), Some(&vec!['a', 'a']));
    assert_eq!(g.v(), 1);
}

#[test]
fn generic_cc_test() {
    let tiny_g = [
        (0, 5), (4, 3), (0, 1), (9, 12), (6, 4), (5, 4), (0, 2),
        (11, 12), (9, 10), (0, 6), (7, 8), (9, 11), (5, 3),
    ];
    let mut g = Graph::new();
    for &(v, w) in tiny_g.iter() {
        g.add_edge(v, w);
    }
    let cc = CC::new(&g);
    assert_eq!(cc.count, 3);
    assert!(cc.connected(0, 3));
    assert!(cc.connected(9, 12));
    assert!(!cc.connected(0, 7));
    assert!(!cc.connected(0, 13));
}

#[test]
fn generic_depth_first_search_test() {
    let g = tiny_cg();
    let dfs = DepthFirstSearch::new(&g, 0);
    assert_eq!(dfs.is_marked(5), true);
    assert_eq!(dfs.is_marked(6), false);
    // a source outside the graph reaches itself only
    let dfs = DepthFirstSearch::new(&g, 9);
    assert!(dfs.is_marked(9));
    assert!(!dfs.is_marked(0));
}

#[test]
fn generic_two_color_test() {
    let g = tiny_cg();
    let two_color = TwoColor::new(&g);
    assert_eq!(two_color.is_two_color, false);
    let mut square = Graph::new();
    for (v, w) in [(1, 2), (2, 3), (3, 4), (4, 1)] {
        square.add_edge(v, w);
    }
    assert_eq!(TwoColor::new(&square).is_two_color, true);
}

#[test]
fn breadth_first_search_reaches_its_source_by_an_edge_only() {
    let g = tiny_cg();
    let bfp = BreadthFirstPaths::new(&g, 0);
    assert!(bfp.has_path_to(0));
    assert_eq!(bfp.path_to(0), [0]);
    let bfp = BreadthFirstPaths::new(&g, 9);
    assert!(!bfp.has_path_to(9));
    assert_eq!(bfp.path_to(9), [9]);
    let dfp = DepthFirstPaths::new(&g, 9);
    assert!(dfp.has_path_to(9));
    assert_eq!(dfp.path_to(9), [9]);
}
