use graph_traversal::Graph;

fn create_graph() -> Graph {
    let mut graph = Graph::new();
    graph.add_node("a", &["c", "b"]);
    graph.add_node("b", &["d"]);
    graph.add_node("c", &["e"]);
    graph.add_node("d", &["f"]);
    graph.add_node("e", &[]);
    graph.add_node("f", &[]);
    graph
}

#[test]
fn depth_first_print_iterative_test() {
    let graph: Graph = create_graph();
    assert!(graph.depth_first_print_iterative("a") == ["a", "b", "d", "f", "c", "e"]);
}

#[test]
fn depth_first_print_recursive_test() {
    let graph: Graph = create_graph();
    let mut r_list: Vec<String> = Vec::new();
    assert!(graph.depth_first_print_recursive("a", &mut r_list) == ["a", "c", "e", "b", "d", "f"]);
}

#[test]
fn breadth_first_print_iterative_test() {
    let graph: Graph = create_graph();
    assert!(graph.breadth_first_print_iterative("a") == ["a", "c", "b", "e", "d", "f"]);
}

#[test]
fn unguarded_orders_repeat_shared_names() {
    let mut graph = Graph::new();
    graph.add_node("a", &["b", "c"]);
    graph.add_node("b", &["d"]);
    graph.add_node("c", &["d"]);
    let mut r_list: Vec<String> = Vec::new();
    assert_eq!(graph.depth_first_print_recursive("a", &mut r_list), ["a", "b", "d", "c", "d"]);
    assert_eq!(graph.depth_first_print_iterative("a"), ["a", "c", "d", "b", "d"]);
    assert_eq!(graph.breadth_first_print_iterative("a"), ["a", "b", "c", "d", "d"]);
}

#[test]
fn recursive_order_appends_to_the_given_list() {
    let graph = create_graph();
    let mut r_list: Vec<String> = vec!["start".to_string()];
    let copy = graph.depth_first_print_recursive("d", &mut r_list);
    assert_eq!(r_list, ["start", "d", "f"]);
    assert_eq!(copy, r_list);
}

#[test]
fn orders_from_a_name_without_entry() {
    let graph = create_graph();
    assert_eq!(graph.depth_first_print_iterative("zz"), ["zz"]);
    assert_eq!(graph.breadth_first_print_iterative("f"), ["f"]);
}
