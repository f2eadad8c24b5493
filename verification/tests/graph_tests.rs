use graph_centrality::dataset::Record;
use graph_centrality::graph::{build_graph, build_subgraph, Graph, GraphError};

fn brand_row(brand: &str) -> Record {
    let mut row = Record::new();
    row.insert("Brand".to_string(), brand.to_string());
    row
}

#[test]
fn graph_test_graph_construction() {
    let data = vec![{
        let mut map = Record::new();
        map.insert("Brand".to_string(), "Toyota".to_string());
        map
    }];

    let graph = build_graph(&data);
    assert_eq!(graph.nodes().len(), 1, "Graph should have one node.");
    assert!(graph.edges().is_empty(), "Graph should have no edges.");
}

#[test]
fn centrality_test_graph_construction() {
    let data = vec![{
        let mut map = Record::new();
        map.insert("Brand".to_string(), "Toyota".to_string());
        map
    }];

    let graph = build_graph(&data);
    assert_eq!(graph.nodes().len(), 1, "Graph should have one node.");
}

#[test]
fn main_test_graph_construction() {
    let data = vec![{
        let mut map = Record::new();
        map.insert("Brand".to_string(), "Toyota".to_string());
        map
    }];

    let graph = build_graph(&data);
    assert_eq!(graph.nodes().len(), 1, "Graph should have one node.");
}

#[test]
fn test_add_node() {
    let mut graph = Graph::new();
    graph.add_node("Toyota".to_string());
    assert_eq!(graph.nodes().len(), 1, "Graph should have one node after adding.");
    assert_eq!(graph.nodes()[0], "Toyota", "Node should be 'Toyota'.");
}

#[test]
fn test_add_edge() {
    let mut graph = Graph::new();
    graph.add_node("Toyota".to_string());
    graph.add_node("Honda".to_string());
    assert_eq!(graph.add_edge("Toyota", "Honda"), Ok(()));

    assert_eq!(graph.edges().len(), 1, "Graph should have one edge.");
    assert_eq!(graph.edges()[0], (0, 1), "Edge should connect 'Toyota' and 'Honda'.");
}

#[test]
fn test_build_subgraph() {
    let mut graph = Graph::new();
    graph.add_node("Chevrolet".to_string());
    graph.add_node("Jeep".to_string());
    graph.add_node("Jaguar".to_string());
    assert_eq!(graph.add_edge("Chevrolet", "Jeep"), Ok(()));
    assert_eq!(graph.add_edge("Chevrolet", "Jaguar"), Ok(()));

    let subgraph = build_subgraph(&graph, "Chevrolet");

    assert_eq!(subgraph.nodes().len(), 3, "Subgraph should have three nodes.");
    assert_eq!(subgraph.edges().len(), 2, "Subgraph should have two edges.");
}

#[test]
fn new_graph_is_empty() {
    let graph = Graph::new();
    assert!(graph.nodes().is_empty());
    assert!(graph.edges().is_empty());
}

#[test]
fn add_node_twice_keeps_one() {
    let mut graph = Graph::new();
    graph.add_node("Toyota".to_string());
    graph.add_node("Honda".to_string());
    graph.add_node("Toyota".to_string());
    assert_eq!(graph.nodes(), &vec!["Toyota".to_string(), "Honda".to_string()]);
}

#[test]
fn find_node_gives_the_index() {
    let mut graph = Graph::new();
    graph.add_node("Toyota".to_string());
    graph.add_node("Honda".to_string());
    assert_eq!(graph.find_node("Toyota"), Some(0));
    assert_eq!(graph.find_node("Honda"), Some(1));
    assert_eq!(graph.find_node("Ford"), None);
    assert_eq!(graph.find_node("toyota"), None);
}

#[test]
fn add_edge_with_unknown_label_fails() {
    let mut graph = Graph::new();
    graph.add_node("Toyota".to_string());
    assert_eq!(graph.add_edge("Toyota", "Honda"), Err(GraphError::UnknownNodeLabel));
    assert_eq!(graph.add_edge("Honda", "Toyota"), Err(GraphError::UnknownNodeLabel));
    assert_eq!(graph.add_edge("Honda", "Ford"), Err(GraphError::UnknownNodeLabel));
    assert!(graph.edges().is_empty());
    assert_eq!(graph.nodes().len(), 1);
}

#[test]
fn add_edge_on_empty_graph_fails() {
    let mut graph = Graph::new();
    assert_eq!(graph.add_edge("a", "b"), Err(GraphError::UnknownNodeLabel));
}

#[test]
fn error_message_names_the_label() {
    assert_eq!(
        GraphError::UnknownNodeLabel.message(),
        "edge refers to a label that is not a node of the graph"
    );
}

#[test]
fn duplicate_edges_and_loops_are_kept() {
    let mut graph = Graph::new();
    graph.add_node("a".to_string());
    graph.add_node("b".to_string());
    assert_eq!(graph.add_edge("a", "b"), Ok(()));
    assert_eq!(graph.add_edge("b", "a"), Ok(()));
    assert_eq!(graph.add_edge("a", "b"), Ok(()));
    assert_eq!(graph.add_edge("b", "b"), Ok(()));
    assert_eq!(graph.edges(), &vec![(0, 1), (1, 0), (0, 1), (1, 1)]);
}

#[test]
fn build_graph_chains_the_brands() {
    let mut other = Record::new();
    other.insert("Model".to_string(), "Civic".to_string());
    let data = vec![
        brand_row("Toyota"),
        brand_row("Honda"),
        other,
        brand_row("Toyota"),
        brand_row("Ford"),
    ];
    let graph = build_graph(&data);
    assert_eq!(
        graph.nodes(),
        &vec!["Toyota".to_string(), "Honda".to_string(), "Ford".to_string()]
    );
    assert_eq!(graph.edges(), &vec![(0, 1), (1, 2)]);
}

#[test]
fn build_graph_of_nothing_is_empty() {
    let data: Vec<Record> = Vec::new();
    let graph = build_graph(&data);
    assert!(graph.nodes().is_empty());
    assert!(graph.edges().is_empty());
}

#[test]
fn subgraph_of_unknown_label_is_empty() {
    let mut graph = Graph::new();
    graph.add_node("Chevrolet".to_string());
    graph.add_node("Jeep".to_string());
    assert_eq!(graph.add_edge("Chevrolet", "Jeep"), Ok(()));
    let subgraph = build_subgraph(&graph, "Jaguar");
    assert!(subgraph.nodes().is_empty());
    assert!(subgraph.edges().is_empty());
}

#[test]
fn subgraph_is_a_star_not_a_triangle() {
    let mut graph = Graph::new();
    for label in ["Jeep", "Chevrolet", "Jaguar", "Ford"] {
        graph.add_node(label.to_string());
    }
    assert_eq!(graph.add_edge("Jeep", "Jaguar"), Ok(()));
    assert_eq!(graph.add_edge("Jeep", "Chevrolet"), Ok(()));
    assert_eq!(graph.add_edge("Jaguar", "Chevrolet"), Ok(()));
    assert_eq!(graph.add_edge("Ford", "Jeep"), Ok(()));

    let subgraph = build_subgraph(&graph, "Chevrolet");
    assert_eq!(
        subgraph.nodes(),
        &vec!["Chevrolet".to_string(), "Jeep".to_string(), "Jaguar".to_string()]
    );
    assert_eq!(subgraph.edges(), &vec![(1, 0), (2, 0)]);
}

#[test]
fn subgraph_keeps_repeated_edges_and_loops() {
    let mut graph = Graph::new();
    graph.add_node("a".to_string());
    graph.add_node("b".to_string());
    assert_eq!(graph.add_edge("a", "b"), Ok(()));
    assert_eq!(graph.add_edge("a", "a"), Ok(()));
    assert_eq!(graph.add_edge("b", "a"), Ok(()));
    let subgraph = build_subgraph(&graph, "a");
    assert_eq!(subgraph.nodes(), &vec!["a".to_string(), "b".to_string()]);
    assert_eq!(subgraph.edges(), &vec![(0, 1), (0, 0), (1, 0)]);
}

#[test]
fn subgraph_of_isolated_node_is_that_node() {
    let mut graph = Graph::new();
    graph.add_node("a".to_string());
    graph.add_node("b".to_string());
    let subgraph = build_subgraph(&graph, "b");
    assert_eq!(subgraph.nodes(), &vec!["b".to_string()]);
    assert!(subgraph.edges().is_empty());
}
