use cyclic_graph::{Content, CyclicGraph};

type Graph = CyclicGraph<String, String>;

fn new_graph(output_data: &str) -> Graph {
    CyclicGraph::new_default(
        String::from("IL"),
        Content::new_simple("input_data".to_string()),
        String::from("OL"),
        Content::new_simple(output_data.to_string()),
        0,
    )
    .unwrap()
}

#[test]
fn test_new_default_can_create_cyclic_graph_with_string_ids() {
    let graph: Graph = CyclicGraph::new_default(
        String::from("IL"),
        Content::new_simple("input_data".to_string()),
        String::from("OL"),
        Content::new_simple("output_data".to_string()),
        0,
    )
    .unwrap();

    assert_eq!(graph.input().id(), "IL");
    assert_eq!(graph.output().id(), "OL");
    assert_eq!(graph.len(), 2);

    assert!(graph.input().has_children());
    assert!(graph.input().has_child(&"OL".to_string()));
    assert!(graph.output().has_parents());
    assert!(graph.output().has_parent(&"IL".to_string()));
}

#[test]
fn test_new_default_should_return_error_when_terminal_nodes_has_same_string_ids() {
    let result: Result<Graph, _> = CyclicGraph::new_default(
        String::from("IL"),
        Content::new_simple("input_data".to_string()),
        String::from("IL"),
        Content::new_simple("output_data".to_string()),
        0,
    );

    assert!(result.is_err());
}

#[test]
fn test_append_node_should_add_new_nodes_with_correct_ids() {
    let mut graph = new_graph("output_data");

    let new_node = graph
        .append_node(
            Content::new_simple("hidden1".to_string()),
            &["IL".to_string()],
            &["OL".to_string()],
        )
        .unwrap();

    let new_node2 = graph
        .append_node(
            Content::new_simple("hidden2".to_string()),
            &["IL".to_string(), new_node.clone()],
            &["OL".to_string()],
        )
        .unwrap();

    assert_eq!(graph.len(), 4);
    assert_eq!(new_node, "ML_0");
    assert_eq!(new_node2, "ML_1");

    let ml_0 = graph.get(&new_node).unwrap();
    assert!(ml_0.has_parent(&"IL".to_string()));
    assert!(ml_0.has_child(&"OL".to_string()));

    let ml_1 = graph.get(&new_node2).unwrap();
    assert!(ml_1.has_parent(&"IL".to_string()));
    assert!(ml_1.has_parent(&"ML_0".to_string()));
    assert!(ml_1.has_child(&"OL".to_string()));

    assert!(graph.input().has_child(&"OL".to_string()));
    assert!(graph.input().has_child(&"ML_0".to_string()));
    assert!(graph.input().has_child(&"ML_1".to_string()));
    assert!(graph.output().has_parent(&"IL".to_string()));
    assert!(graph.output().has_parent(&"ML_0".to_string()));
    assert!(graph.output().has_parent(&"ML_1".to_string()));
}

#[test]
fn test_append_node_should_return_error_when_input_string_id_in_children_param() {
    let mut graph = new_graph("output_data");
    let result = graph.append_node(
        Content::new_simple("hidden".to_string()),
        &[String::from("IL")],
        &[String::from("IL")],
    );

    assert!(result.is_err());
}

#[test]
fn test_append_node_should_return_error_when_output_string_id_in_parent_param() {
    let mut graph = new_graph("output_data");
    let result = graph.append_node(
        Content::new_simple("hidden".to_string()),
        &[String::from("OL")],
        &[String::from("OL")],
    );

    assert!(result.is_err());
}

#[test]
fn test_serial_insert_between_with_string_ids() {
    let mut graph = new_graph("output_data");

    let result = graph.insert_between(
        Content::new_simple("middle0".to_string()),
        String::from("IL"),
        String::from("OL"),
    );
    assert!(result.is_ok());
    let n0 = result.unwrap();

    let n1 = graph
        .insert_between(Content::new_simple("middle1".to_string()), n0.clone(), String::from("OL"))
        .unwrap();

    // input -> n0 -> n1 -> output
    assert_eq!(graph.len(), 4);

    assert_eq!(n0, "ML_0");
    assert!(graph.get(&n0).unwrap().has_parent(&"IL".to_string()));
    assert!(graph.get(&n0).unwrap().has_child(&n1));

    assert_eq!(n1, "ML_1");
    assert!(graph.get(&n1).unwrap().has_parent(&"ML_0".to_string()));
    assert!(graph.get(&n1).unwrap().has_child(&"OL".to_string()));

    assert!(!graph.input().has_child(&"OL".to_string()));
    assert!(graph.input().has_child(&"ML_0".to_string()));
    assert!(!graph.input().has_child(&"ML_2".to_string()));
    assert!(!graph.output().has_parent(&"IL".to_string()));
    assert!(!graph.output().has_parent(&"ML_0".to_string()));
    assert!(graph.output().has_parent(&"ML_1".to_string()));
}

#[test]
fn test_parallel_insert_between_with_string_ids() {
    let mut graph = new_graph("output");

    let result = graph.insert_between(
        Content::new_simple("middle0".to_string()),
        String::from("IL"),
        String::from("OL"),
    );
    assert!(result.is_ok());
    let n0 = result.unwrap();

    let input_id = graph.input().id().clone();
    let output_id = graph.output().id().clone();
    let n1 = graph
        .insert_between(Content::new_simple("middle1".to_string()), input_id, output_id)
        .unwrap();

    // input -> [n0, n1] -> output
    assert_eq!(graph.len(), 4);

    assert_eq!(n0, "ML_0");
    assert!(graph.get(&n0).unwrap().has_parent(&"IL".to_string()));
    assert!(graph.get(&n0).unwrap().has_child(&"OL".to_string()));

    assert_eq!(n1, "ML_1");
    assert!(graph.get(&n1).unwrap().has_parent(&"IL".to_string()));
    assert!(graph.get(&n1).unwrap().has_child(&"OL".to_string()));

    assert!(!graph.input().has_child(&"OL".to_string()));
    assert!(graph.input().has_child(&"ML_0".to_string()));
    assert!(graph.input().has_child(&"ML_1".to_string()));
    assert!(!graph.output().has_parent(&"IL".to_string()));
    assert!(graph.output().has_parent(&"ML_0".to_string()));
    assert!(graph.output().has_parent(&"ML_1".to_string()));
}

#[test]
fn test_traverse_from_input_node_for_serial_graph() {
    let mut graph = new_graph("output");

    let n0 = graph
        .insert_between(Content::new_simple("middle".to_string()), String::from("IL"), String::from("OL"))
        .unwrap();

    let n1 = graph
        .insert_between(Content::new_simple("middle".to_string()), n0.clone(), String::from("OL"))
        .unwrap();

    // input -> n0 -> n1 -> output
    assert_eq!(graph.len(), 4);

    let path = graph.traverse_from_input_node();

    assert_eq!(path.get(0), Some(graph.input().id()));
    assert_eq!(path.get(1), Some(&n0));
    assert_eq!(path.get(2), Some(&n1));
    assert_eq!(path.get(3), Some(graph.output().id()));
}

#[test]
fn test_traverse_from_input_node_for_parallel_graph() {
    let mut graph = new_graph("output");

    let _n0 = graph
        .insert_between(Content::new_simple("middle".to_string()), String::from("IL"), String::from("OL"))
        .unwrap();

    let input_id = graph.input().id().clone();
    let _n1 = graph
        .insert_between(Content::new_simple("middle".to_string()), input_id, String::from("OL"))
        .unwrap();

    // input -> [n0, n1] -> output
    assert_eq!(graph.len(), 4);

    let path = graph.traverse_from_input_node();

    assert_eq!(path.len(), 4);
}

#[test]
fn test_bfs_should_detect_path_between_nodes() {
    let mut graph = new_graph("output");

    // input -> [n0, n1 -> n2] -> output

    let n0 = graph
        .insert_between(Content::new_simple("middle".to_string()), String::from("IL"), String::from("OL"))
        .unwrap();

    let n1 = graph
        .insert_between(Content::new_simple("middle".to_string()), String::from("IL"), String::from("OL"))
        .unwrap();

    let n2 = graph
        .insert_between(Content::new_simple("middle".to_string()), n1.clone(), String::from("OL"))
        .unwrap();

    assert_eq!(graph.len(), 5);

    let input_id = graph.input().id().clone();
    let output_id = graph.output().id().clone();
    assert!(graph.bfs(&input_id, &output_id));
    assert!(!graph.bfs(&output_id, &input_id));
    assert!(!graph.bfs(&n0, &n1));
    assert!(graph.bfs(&n1, &n2));
}
