use graph_traversal::{Graph, NameSet};

fn create_acyclic_graph() -> Graph {
    let mut graph = Graph::new();
    graph.add_node("f", &["g", "i"]);
    graph.add_node("g", &["h"]);
    graph.add_node("h", &[]);
    graph.add_node("i", &["g", "k"]);
    graph.add_node("j", &["i"]);
    graph.add_node("k", &[]);
    graph
}

fn create_square_graph() -> Graph {
    let mut graph = Graph::new();
    let _ = graph.add_edge(&["w", "x"]).is_ok();
    let _ = graph.add_edge(&["x", "y"]).is_ok();
    let _ = graph.add_edge(&["z", "y"]).is_ok();
    let _ = graph.add_edge(&["z", "v"]).is_ok();
    let _ = graph.add_edge(&["w", "v"]).is_ok();
    graph.build_graph_from_edges();
    graph
}

fn create_forest() -> Graph {
    let mut graph = Graph::new();
    let _ = graph.add_edge(&["i", "j"]);
    let _ = graph.add_edge(&["k", "i"]);
    let _ = graph.add_edge(&["m", "k"]);
    let _ = graph.add_edge(&["k", "l"]);
    let _ = graph.add_edge(&["o", "n"]);
    graph.build_graph_from_edges();
    graph
}

#[test]
fn depth_first_has_path_test() {
    let graph: Graph = create_acyclic_graph();
    assert!(graph.depth_first_has_path("f", "k"));
    assert!(graph.depth_first_has_path("j", "f") == false);
}

#[test]
fn breadth_first_has_path_test() {
    let graph: Graph = create_acyclic_graph();
    assert!(graph.breadth_first_has_path("f", "k"));
    assert!(graph.breadth_first_has_path("j", "f") == false);
}

#[test]
fn shortest_path_depth_first_shortest_path_test() {
    let graph: Graph = create_square_graph();
    assert!(graph.depth_first_shortest_path("w", "z") == 2);
}

#[test]
fn shortest_path_breadth_shortest_path_test() {
    let graph: Graph = create_square_graph();
    assert!(graph.breadth_first_shortest_path("w", "z") == 2);
}

#[test]
fn undirected_path_depth_first_shortest_path_test() {
    let graph: Graph = create_forest();
    assert!(graph.undirected_path_depth_first("j", "m"));
    assert!(!graph.undirected_path_depth_first("j", "n"));
}

#[test]
fn undirected_path_breadth_shortest_path_test() {
    let graph: Graph = create_forest();
    assert!(graph.undirected_path_breadth_first("j", "m"));
    assert!(!graph.undirected_path_breadth_first("j", "n"));
}

#[test]
fn has_path_terminates_on_cycles() {
    let mut graph = Graph::new();
    graph.add_node("a", &["b"]);
    graph.add_node("b", &["a", "c"]);
    graph.add_node("c", &["c"]);
    graph.add_node("d", &["a"]);
    assert!(graph.depth_first_has_path("a", "c"));
    assert!(graph.breadth_first_has_path("a", "c"));
    assert!(!graph.depth_first_has_path("a", "d"));
    assert!(!graph.breadth_first_has_path("c", "a"));
    assert!(graph.depth_first_has_path("d", "d"));
    assert!(graph.breadth_first_has_path("zz", "zz"));
    assert!(!graph.breadth_first_has_path("zz", "a"));
}

#[test]
fn reachability_is_symmetric_on_graphs_built_from_edges() {
    let graph = create_forest();
    let names = ["i", "j", "k", "l", "m", "n", "o"];
    for a in names.iter() {
        for b in names.iter() {
            assert_eq!(graph.depth_first_has_path(a, b), graph.depth_first_has_path(b, a));
            assert_eq!(graph.breadth_first_has_path(a, b), graph.breadth_first_has_path(b, a));
            assert_eq!(graph.depth_first_has_path(a, b), graph.breadth_first_has_path(a, b));
        }
    }
    assert!(graph.depth_first_has_path("m", "j"));
    assert!(!graph.depth_first_has_path("n", "j"));
}

#[test]
fn shortest_path_is_minus_one_when_unreachable() {
    let graph = create_forest();
    assert_eq!(graph.breadth_first_shortest_path("j", "n"), -1);
    assert_eq!(graph.depth_first_shortest_path("j", "n"), -1);
    assert_eq!(graph.breadth_first_shortest_path("j", "j"), 0);
    assert_eq!(graph.depth_first_shortest_path("j", "j"), 0);
    assert_eq!(graph.breadth_first_shortest_path("j", "m"), 3);
    assert_eq!(graph.breadth_first_shortest_path("o", "n"), 1);
}

#[test]
fn breadth_first_distance_never_exceeds_depth_first() {
    // a reaches d in two steps through x, but the depth-first search pops b
    // before x and reaches d first the long way, through b and c.
    let mut graph = Graph::new();
    graph.add_node("a", &["x", "b"]);
    graph.add_node("b", &["c"]);
    graph.add_node("c", &["d"]);
    graph.add_node("x", &["d"]);
    graph.add_node("d", &[]);
    let breadth = graph.breadth_first_shortest_path("a", "d");
    let depth = graph.depth_first_shortest_path("a", "d");
    assert_eq!(breadth, 2);
    assert_eq!(depth, 3);
    assert!(breadth <= depth);

    let square = create_square_graph();
    for a in ["w", "x", "y", "z", "v"].iter() {
        for b in ["w", "x", "y", "z", "v"].iter() {
            let bf = square.breadth_first_shortest_path(a, b);
            let df = square.depth_first_shortest_path(a, b);
            assert!(bf >= 0 && bf <= df);
        }
    }
}

#[test]
fn walks_from_a_marked_start_change_nothing() {
    let graph = create_square_graph();
    let mut visited = NameSet::new();
    visited.insert("w".to_string());
    assert_eq!(graph.depth_first_visit(&"w".to_string(), &mut visited), 0);
    assert_eq!(graph.breadth_first_visit(&"w".to_string(), &mut visited), 0);
    assert_eq!(visited.len(), 1);
}

#[test]
fn walks_do_not_pass_marked_names() {
    // In the chain p - q - r - s, with q marked, a walk from p reaches p only.
    let mut graph = Graph::new();
    let _ = graph.add_edge(&["p", "q"]);
    let _ = graph.add_edge(&["q", "r"]);
    let _ = graph.add_edge(&["r", "s"]);
    graph.build_graph_from_edges();
    let mut visited = NameSet::new();
    visited.insert("q".to_string());
    assert_eq!(graph.depth_first_visit(&"p".to_string(), &mut visited), 1);
    let mut other = NameSet::new();
    other.insert("q".to_string());
    assert_eq!(graph.breadth_first_visit(&"r".to_string(), &mut other), 2);
    assert!(other.contains(&"s".to_string()));
    assert!(!other.contains(&"p".to_string()));
}

#[test]
fn searches_stop_at_the_target() {
    let graph = create_square_graph();
    let mut visited = NameSet::new();
    assert!(graph.depth_first_search(&"w".to_string(), &"x".to_string(), &mut visited));
    assert!(visited.len() < 5);
    let mut queued = NameSet::new();
    assert!(graph.breadth_first_search(&"w".to_string(), &"w".to_string(), &mut queued));
    assert_eq!(queued.len(), 0);
    let forest = create_forest();
    let mut all = NameSet::new();
    assert!(!forest.breadth_first_search(&"j".to_string(), &"n".to_string(), &mut all));
    assert_eq!(all.len(), 5);
}

#[test]
fn depth_first_distance_from_a_name_to_itself_is_zero() {
    let graph = Graph::new();
    assert_eq!(graph.depth_first_shortest_path("q", "q"), 0);
    assert_eq!(graph.depth_first_shortest_path("q", "r"), -1);
}
