use graph_traversal::{Edges, Graph, Grid, ValidationError};

fn create_edges() -> Edges {
    let mut edges = Edges::new(2);
    assert!(edges.add_row(&["w", "x"]).is_ok());
    assert!(edges.add_row(&["x", "y"]).is_ok());
    edges
}

fn create_graph() -> Graph {
    let mut graph = Graph::new();
    graph.add_node("0", &["8", "1", "5"]);
    graph.add_node("1", &["0"]);
    graph.add_node("5", &["0", "8"]);
    graph.add_node("8", &["0", "5"]);
    graph.add_node("2", &["3", "4"]);
    graph.add_node("3", &["2", "4"]);
    graph.add_node("4", &["3", "2"]);
    graph
}

fn create_graph_with_edges() -> Graph {
    let mut graph = Graph::new();
    let _ = graph.add_edge(&["w", "x"]).is_ok();
    let _ = graph.add_edge(&["x", "y"]).is_ok();
    let _ = graph.add_edge(&["z", "y"]).is_ok();
    let _ = graph.add_edge(&["z", "v"]).is_ok();
    let _ = graph.add_edge(&["w", "v"]).is_ok();
    graph.build_graph_from_edges();
    graph
}

fn sorted(mut list: Vec<String>) -> Vec<String> {
    list.sort();
    list
}

fn create_grid() -> Grid {
    let mut grid = Grid::new(2);
    assert!(grid.add_row(&["8", "1"]).is_ok());
    assert!(grid.add_row(&["0", "1"]).is_ok());
    grid
}

#[test]
fn edges_test() {
    let edges = create_edges();
    assert!(Some(edges).is_some())
}

#[test]
fn graph_test() {
    let graph = create_graph();
    assert!(Some(graph).is_some())
}

#[test]
fn graph_with_edges_test() {
    let graph_with_edges = create_graph_with_edges();
    assert!(Some(graph_with_edges.clone()).is_some());

    let expected: Vec<(&str, Vec<&str>)> = vec![
        ("w", vec!["v", "x"]),
        ("x", vec!["w", "y"]),
        ("y", vec!["x", "z"]),
        ("z", vec!["y", "v"]),
        ("v", vec!["z", "w"]),
    ];
    assert_eq!(graph_with_edges.key_count(), expected.len());
    for (key, list) in expected {
        let want: Vec<String> = list.iter().map(|s| s.to_string()).collect();
        let got = graph_with_edges.neighbors(key).expect("every endpoint is a key");
        assert_eq!(sorted(got), sorted(want));
    }
}

#[test]
fn grid_test() {
    let grid = create_grid();
    assert!(Some(grid).is_some())
}

#[test]
fn edges_add_row_rejects_wrong_length() {
    let mut edges = Edges::new(2);
    assert_eq!(
        edges.add_row(&["x", "y", "z"]),
        Err(ValidationError::RowLength { expected: 2, actual: 3 })
    );
    assert_eq!(edges.add_row(&["x"]), Err(ValidationError::RowLength { expected: 2, actual: 1 }));
    assert_eq!(edges.row_count(), 0);
    assert!(edges.add_row(&["x", "y"]).is_ok());
    assert_eq!(edges.row_count(), 1);
}

#[test]
fn graph_add_edge_rejects_wrong_arity() {
    let mut graph = Graph::new();
    assert_eq!(
        graph.add_edge(&["x", "y", "z"]),
        Err(ValidationError::Arity { expected: 2, actual: 3 })
    );
    assert_eq!(graph.add_edge(&["x"]), Err(ValidationError::Arity { expected: 2, actual: 1 }));
    graph.build_graph_from_edges();
    assert_eq!(graph.key_count(), 0);
}

#[test]
fn grid_add_row_rejects_wrong_length_and_keeps_rows() {
    let mut grid = Grid::new(2);
    assert_eq!(
        grid.add_row(&["1", "2", "3"]),
        Err(ValidationError::RowLength { expected: 2, actual: 3 })
    );
    assert_eq!(grid.row_count(), 0);
    assert!(grid.add_row(&["1", "2"]).is_ok());
    assert_eq!(grid.row_count(), 1);
    assert!(grid.add_row(&["1"]).is_err());
    assert_eq!(grid.row_count(), 1);
    assert_eq!(grid.width(), 2);
}

#[test]
fn add_node_overwrites_and_keeps_key_order() {
    let mut graph = Graph::new();
    graph.add_node("a", &["b"]);
    graph.add_node("b", &[]);
    graph.add_node("a", &["c", "c", "a"]);
    assert_eq!(graph.key_count(), 2);
    assert_eq!(graph.key_at(0), "a");
    assert_eq!(graph.key_at(1), "b");
    assert_eq!(graph.neighbors("a"), Some(vec!["c".to_string(), "c".to_string(), "a".to_string()]));
    assert_eq!(graph.neighbors("b"), Some(vec![]));
    assert_eq!(graph.neighbors("c"), None);
}

#[test]
fn build_graph_from_edges_is_idempotent() {
    let mut graph = create_graph_with_edges();
    let first: Vec<Option<Vec<String>>> =
        ["w", "x", "y", "z", "v"].iter().map(|k| graph.neighbors(k)).collect();
    graph.build_graph_from_edges();
    let second: Vec<Option<Vec<String>>> =
        ["w", "x", "y", "z", "v"].iter().map(|k| graph.neighbors(k)).collect();
    assert_eq!(first, second);
    assert_eq!(graph.key_count(), 5);
    assert_eq!(graph.neighbors("w"), Some(vec!["x".to_string(), "v".to_string()]));
}

#[test]
fn defaults_are_empty() {
    let graph = Graph::default();
    assert_eq!(graph.key_count(), 0);
    let grid = Grid::default();
    assert_eq!(grid.width(), 0);
    assert_eq!(grid.row_count(), 0);
    let edges = Edges::default();
    assert_eq!(edges.row_count(), 0);
}

#[test]
fn stored_edges_and_rows_can_be_read() {
    let graph = create_graph_with_edges();
    assert_eq!(graph.edge_count(), 5);
    assert_eq!(graph.edge_at(0), &("w".to_string(), "x".to_string()));
    assert_eq!(graph.edge_at(2), &("z".to_string(), "y".to_string()));
    let edges = create_edges();
    assert_eq!(edges.width(), 2);
    assert_eq!(edges.row_count(), 2);
    assert_eq!(edges.row(1), vec!["x".to_string(), "y".to_string()]);
    let grid = create_grid();
    assert_eq!(grid.row(0), vec!["8".to_string(), "1".to_string()]);
    assert_eq!(grid.label(1, 0), "0");
}
