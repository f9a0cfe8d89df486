use graph_traversal::Graph;

fn create_graph() -> Graph {
    let mut graph = Graph::new();
    graph.add_node("0", &["8", "1", "5"]);
    graph.add_node("1", &["0"]);
    graph.add_node("5", &["0", "8"]);
    graph.add_node("8", &["0", "5"]);
    graph.add_node("2", &["3", "4"]);
    graph.add_node("3", &["2", "4"]);
    graph.add_node("4", &["3", "2"]);
    graph
}

#[test]
fn connected_components_count_test() {
    let graph: Graph = create_graph();
    assert!(graph.connected_components_count() == 2);
}

#[test]
fn breadth_first_components_count_test() {
    let graph: Graph = create_graph();
    assert!(graph.breadth_first_components_count() == 2);
}

#[test]
fn depth_first_largest_component_test() {
    let graph: Graph = create_graph();
    assert!(graph.depth_first_largest_component() == 4);
}

#[test]
fn breadth_first_largest_component_test() {
    let graph: Graph = create_graph();
    assert!(graph.breadth_first_largest_component() == 4);
}

#[test]
fn empty_graph_has_no_components() {
    let graph = Graph::new();
    assert_eq!(graph.connected_components_count(), 0);
    assert_eq!(graph.breadth_first_components_count(), 0);
    assert_eq!(graph.depth_first_largest_component(), 0);
    assert_eq!(graph.breadth_first_largest_component(), 0);
}

#[test]
fn isolated_nodes_are_components_of_their_own() {
    let mut graph = Graph::new();
    graph.add_node("a", &[]);
    graph.add_node("b", &[]);
    graph.add_node("c", &["d"]);
    graph.add_node("d", &["c"]);
    assert_eq!(graph.connected_components_count(), 3);
    assert_eq!(graph.breadth_first_components_count(), 3);
    assert_eq!(graph.depth_first_largest_component(), 2);
    assert_eq!(graph.breadth_first_largest_component(), 2);
}

#[test]
fn names_that_are_no_keys_count_in_component_sizes() {
    // "b" and "c" appear only as neighbors; both walks count them.
    let mut graph = Graph::new();
    graph.add_node("a", &["b", "c"]);
    assert_eq!(graph.depth_first_largest_component(), 3);
    assert_eq!(graph.breadth_first_largest_component(), 3);
    assert_eq!(graph.connected_components_count(), 1);
}

#[test]
fn component_counts_agree_on_graphs_with_cycles() {
    let mut graph = Graph::new();
    graph.add_node("a", &["b"]);
    graph.add_node("b", &["c"]);
    graph.add_node("c", &["a", "c"]);
    graph.add_node("d", &["e"]);
    graph.add_node("e", &["d"]);
    graph.add_node("f", &["f"]);
    assert_eq!(graph.connected_components_count(), 3);
    assert_eq!(graph.breadth_first_components_count(), 3);
    assert_eq!(graph.depth_first_largest_component(), 3);
    assert_eq!(graph.breadth_first_largest_component(), 3);
}

#[test]
fn directed_graph_counts_follow_key_order() {
    // "b" is a key before "a": it starts a component, then "a" starts another.
    let mut graph = Graph::new();
    graph.add_node("b", &[]);
    graph.add_node("a", &["b"]);
    assert_eq!(graph.connected_components_count(), 2);
    assert_eq!(graph.breadth_first_components_count(), 2);
    assert_eq!(graph.depth_first_largest_component(), 1);
    assert_eq!(graph.breadth_first_largest_component(), 1);
}

#[test]
fn largest_component_is_within_node_count() {
    let graph = create_graph();
    // seven names in all
    assert!(graph.depth_first_largest_component() <= 7);
    assert!(graph.breadth_first_largest_component() <= 7);
    let mut chain = Graph::new();
    let _ = chain.add_edge(&["p", "q"]);
    let _ = chain.add_edge(&["q", "r"]);
    let _ = chain.add_edge(&["r", "s"]);
    chain.build_graph_from_edges();
    assert_eq!(chain.depth_first_largest_component(), 4);
    assert_eq!(chain.breadth_first_largest_component(), 4);
    assert_eq!(chain.connected_components_count(), 1);
}
