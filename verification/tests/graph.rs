use arithmetic::graph::breadth_first_paths::BreadthFirstPaths;
use arithmetic::graph::cc::CC;
use arithmetic::graph::cycle::Cycle;
use arithmetic::graph::depth_first_paths::DepthFirstPaths;
use arithmetic::graph::depth_first_search::DepthFirstSearch;
use arithmetic::graph::graph::Graph;
use arithmetic::graph::symbol_graph::SymbolGraph;
use arithmetic::graph::two_color::TwoColor;
use arithmetic::graph::union_find::UnionFind;

fn tiny_g() -> Graph {
    let tiny_g = [
        (0, 5), (4, 3), (0, 1), (9, 12), (6, 4), (5, 4), (0, 2),
        (11, 12), (9, 10), (0, 6), (7, 8), (9, 11), (5, 3),
    ];
    let mut g = Graph::new(13);
    for &(v, w) in tiny_g.iter() {
        g.add_edge(v, w);
    }
    g
}

#[test]
fn graph_test() {
    let tiny_g = [
        (0, 5), (4, 3), (0, 1), (9, 12), (6, 4), (5, 4), (0, 2),
        (11, 12), (9, 10), (0, 6), (7, 8), (9, 11), (5, 3),
    ];
    let mut g = Graph::new(13);
    for &(v, w) in tiny_g.iter() {
        g.add_edge(v, w);
    }
    assert_eq!(g.v(), 13);
    assert_eq!(g.e(), 13);
    assert_eq!(g.adj(0), &[5, 1, 2, 6])
}

#[test]
fn graph_degrees_and_loops() {
    let mut g = tiny_g();
    assert_eq!(g.degree(0), 4);
    assert_eq!(g.degree(7), 1);
    assert_eq!(g.max_degree(), 4);
    assert_eq!(g.avg_degree(), 2);
    assert_eq!(g.number_of_self_loops(), 0);
    g.add_edge(3, 3);
    assert_eq!(g.e(), 14);
    assert_eq!(g.adj(3), &[4, 5, 3, 3]);
    assert_eq!(g.number_of_self_loops(), 1);
    // a second loop at the same vertex is not added
    g.add_edge(3, 3);
    assert_eq!(g.e(), 14);
    assert_eq!(g.number_of_self_loops(), 1);
    // a second edge between two vertices is
    g.add_edge(0, 5);
    assert_eq!(g.e(), 15);
    assert_eq!(g.adj(0), &[5, 1, 2, 6, 5]);
    assert_eq!(Graph::new(0).max_degree(), 0);
}

#[test]
fn union_find_test() {
    let tiny_uf = [
        (4, 3), (3, 8), (6, 5), (9, 4), (2, 1),
        (8, 9), (5, 0), (7, 2), (6, 1), (1, 0),
        (6, 7),
    ];
    let mut uf = UnionFind::with_capacity(10);
    for &(p, q) in tiny_uf.iter() {
        uf.union(p, q);
    }
    assert_eq!(uf.count(), 2);
    assert!(uf.connected(4, 8));
}

#[test]
fn union_find_keeps_sets_apart() {
    let mut uf = UnionFind::with_capacity(4);
    assert_eq!(uf.count(), 4);
    assert_eq!(uf.find(2), 2);
    assert!(!uf.connected(0, 1));
    uf.union(0, 1);
    assert!(uf.connected(0, 1));
    assert!(!uf.connected(0, 2));
    assert_eq!(uf.count(), 3);
    uf.union(1, 0);
    assert_eq!(uf.count(), 3);
    uf.union(2, 3);
    uf.union(0, 3);
    assert_eq!(uf.count(), 1);
    assert_eq!(uf.find(0), uf.find(2));
}

#[test]
fn depth_first_search_test() {
    let tiny_g = [
        (0, 5), (4, 3), (0, 1), (9, 12), (6, 4), (5, 4), (0, 2),
        (11, 12), (9, 10), (0, 6), (7, 8), (9, 11), (5, 3),
    ];
    let mut g = Graph::new(13);
    for &(v, w) in tiny_g.iter() {
        g.add_edge(v, w);
    }
    let dfs = DepthFirstSearch::new(&g, 0);
    assert!(dfs.marked(4));
    assert!(! dfs.marked(12));
    assert_eq!(dfs.count(), 7);
}

#[test]
fn cc_test() {
    let tiny_g = [
        (0, 5), (4, 3), (0, 1), (9, 12), (6, 4), (5, 4), (0, 2),
        (11, 12), (9, 10), (0, 6), (7, 8), (9, 11), (5, 3),
    ];
    let mut g = Graph::new(13);
    for &(v, w) in tiny_g.iter() {
        g.add_edge(v, w);
    }
    let cc = CC::new(&g);
    assert_eq!(cc.count(), 3);
    assert!(cc.connected(2, 6));
    assert!(! cc.connected(6, 7));
    let mut components = Vec::new();
    for _ in 0..cc.count() {
        components.push(Vec::new());
    }
    for v in 0..g.v() {
        components[cc.id()[v]].push(v);
    }
    assert_eq!(components[0], [0, 1, 2, 3, 4, 5, 6]);
    assert_eq!(components[1], [7, 8]);
    assert_eq!(components[2], [9, 10, 11, 12]);
}

#[test]
fn cycle_test() {
    let tiny_g = [
        (0, 5), (4, 3), (0, 1), (9, 12), (6, 4), (5, 4), (0, 2),
        (11, 12), (9, 10), (0, 6), (7, 8), (9, 11), (5, 3),
    ];
    let mut g = Graph::new(13);
    for &(v, w) in tiny_g.iter() {
        g.add_edge(v, w);
    }
    let cycle = Cycle::new(&g);
    assert!(cycle.has_cycle());
}

#[test]
fn cycle_needs_an_edge() {
    assert!(!Cycle::new(&Graph::new(3)).has_cycle());
    let mut g = Graph::new(3);
    g.add_edge(1, 1);
    assert!(Cycle::new(&g).has_cycle());
}

#[test]
fn depth_first_paths_test() {
    let tiny_g = [
        (0, 5), (4, 3), (0, 1), (9, 12), (6, 4), (5, 4), (0, 2),
        (11, 12), (9, 10), (0, 6), (7, 8), (9, 11), (5, 3),
    ];
    let mut g = Graph::new(13);
    for &(v, w) in tiny_g.iter() {
        g.add_edge(v, w);
    }
    let dfp = DepthFirstPaths::new(&g, 0);
    assert!(dfp.has_path_to(6));
    assert!(! dfp.has_path_to(9));
    assert_eq!(dfp.path_to(6), Some(vec![0, 5, 4, 6]));
    assert_eq!(dfp.path_to(9), None);
}

#[test]
fn breadth_first_paths_test() {
    let tiny_g = [
        (0, 5), (4, 3), (0, 1), (9, 12), (6, 4), (5, 4), (0, 2),
        (11, 12), (9, 10), (0, 6), (7, 8), (9, 11), (5, 3),
    ];
    let mut g = Graph::new(13);
    for &(v, w) in tiny_g.iter() {
        g.add_edge(v, w);
    }
    let bfp = BreadthFirstPaths::new(&g, 0);
    assert!(bfp.has_path_to(4));
    assert!(! bfp.has_path_to(9));
    assert_eq!(bfp.path_to(4), Some(vec![0, 5, 4]));
    assert_eq!(bfp.path_to(9), None);
}

#[test]
fn paths_to_the_source() {
    let g = tiny_g();
    assert_eq!(DepthFirstPaths::new(&g, 9).path_to(9), Some(vec![9]));
    assert_eq!(BreadthFirstPaths::new(&g, 9).path_to(9), Some(vec![9]));
    assert_eq!(BreadthFirstPaths::new(&g, 9).path_to(12), Some(vec![9, 12]));
}

#[test]
fn two_color_test() {
    // a graph
    let tiny_g = [
        (0, 5), (4, 3), (0, 1), (9, 12), (6, 4), (5, 4), (0, 2),
        (11, 12), (9, 10), (0, 6), (7, 8), (9, 11), (5, 3),
    ];
    let mut g = Graph::new(13);
    for &(v, w) in tiny_g.iter() {
        g.add_edge(v, w);
    }
    let two_color = TwoColor::new(&g);
    assert!(! two_color.is_two_colorable());

    // a graph with two sides
    let two_g = [
        (0, 2), (0, 3),
        (1, 2), (1, 3),
    ];
    let mut g = Graph::new(13);
    for &(v, w) in two_g.iter() {
        g.add_edge(v, w);
    }
    let two_color = TwoColor::new(&g);
    assert!(two_color.is_two_colorable());
}

#[test]
fn symbol_graph_test() {
    let routes = vec![
        vec!["JFK", "MCO"],
        vec!["ORD", "DEN"],
        vec!["ORD", "HOU"],
        vec!["DFW", "PHX"],
        vec!["JFK", "ATL"],
        vec!["ORD", "DFW"],
        vec!["ORD", "PHX"],
        vec!["ATL", "HOU"],
        vec!["DEN", "PHX"],
        vec!["PHX", "LAX"],
        vec!["JFK", "ORD"],
        vec!["DEN", "LAS"],
        vec!["DFW", "HOU"],
        vec!["ORD", "ATL"],
        vec!["LAS", "LAX"],
        vec!["ATL", "MCO"],
        vec!["HOU", "MCO"],
        vec!["LAS", "PHX"],
    ];

    let symbol_graph = SymbolGraph::new(routes);
    assert!(symbol_graph.contains("JFK"));
    assert!(! symbol_graph.contains("ABC"));
    assert_eq!(symbol_graph.index("JFK"), Some(0));
    assert_eq!(symbol_graph.index("LAS"), Some(9));
    assert_eq!(symbol_graph.index("ABC"), None);
    assert_eq!(symbol_graph.name(0), Some("JFK"));
    assert_eq!(symbol_graph.name(9), Some("LAS"));
    assert_eq!(symbol_graph.name(10), None);
    assert_eq!(symbol_graph.g().v(), 10)
}

#[test]
fn symbol_graph_edges_follow_the_rows() {
    let symbol_graph = SymbolGraph::new(vec![vec!["a", "b", "c"], vec!["c", "a"], vec!["b", "b"]]);
    // the third name of a row is a vertex without an edge of its own
    assert_eq!(symbol_graph.index("c"), Some(2));
    assert_eq!(symbol_graph.g().adj(0), &[1, 2]);
    assert_eq!(symbol_graph.g().adj(1), &[0, 1, 1]);
    assert_eq!(symbol_graph.g().adj(2), &[0]);
    assert_eq!(symbol_graph.g().e(), 3);
}

#[test]
fn graph_as_text() {
    let mut g = Graph::new(3);
    g.add_edge(0, 2);
    g.add_edge(1, 1);
    assert_eq!(g.fmt(), "3 vertices, 2 edges \n0: [2] \n1: [1, 1] \n2: [0] \n");
    assert_eq!(Graph::new(0).fmt(), "0 vertices, 0 edges \n");
}

#[test]
fn components_are_numbered_by_their_least_vertices() {
    let mut g = Graph::new(7);
    g.add_edge(6, 0);
    g.add_edge(5, 2);
    g.add_edge(3, 2);
    let cc = CC::new(&g);
    assert_eq!(cc.count(), 4);
    // 0 and 6; 1 alone; 2, 3 and 5; 4 alone
    assert_eq!(cc.id(), &vec![0, 1, 2, 2, 3, 2, 0]);
}

#[test]
fn two_colors_fail_on_odd_cycles_only() {
    let mut triangle = Graph::new(3);
    triangle.add_edge(0, 1);
    triangle.add_edge(1, 2);
    triangle.add_edge(2, 0);
    assert!(!TwoColor::new(&triangle).is_two_colorable());

    let mut square = Graph::new(4);
    square.add_edge(0, 1);
    square.add_edge(1, 2);
    square.add_edge(2, 3);
    square.add_edge(3, 0);
    assert!(TwoColor::new(&square).is_two_colorable());

    let mut with_loop = Graph::new(2);
    with_loop.add_edge(0, 1);
    with_loop.add_edge(1, 1);
    assert!(!TwoColor::new(&with_loop).is_two_colorable());

    // an odd cycle in the second component only
    let mut later = Graph::new(5);
    later.add_edge(0, 1);
    later.add_edge(2, 3);
    later.add_edge(3, 4);
    later.add_edge(4, 2);
    assert!(!TwoColor::new(&later).is_two_colorable());

    assert!(TwoColor::new(&Graph::new(3)).is_two_colorable());
}

#[test]
fn depth_first_paths_pass_no_vertex_twice() {
    let g = tiny_g();
    let paths = DepthFirstPaths::new(&g, 0);
    for v in 0..7 {
        let p = paths.path_to(v).unwrap();
        assert_eq!(p[0], 0);
        assert_eq!(p[p.len() - 1], v);
        let mut seen = p.clone();
        seen.sort();
        seen.dedup();
        assert_eq!(seen.len(), p.len());
    }
}
