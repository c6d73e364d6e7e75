use cyclic_graph::{Content, CyclicGraph, CyclicGraphError};

type Graph = CyclicGraph<usize, String>;

fn new_graph() -> Graph {
    let input_content = Content::new_simple("input_data".to_string());
    let output_content = Content::new_simple("output_data".to_string());
    CyclicGraph::new_default(0, input_content, 1, output_content, 2).unwrap()
}

#[test]
fn cyclic_graph_test_new_default_can_create_cyclic_graph() {
    let input_content = Content::new_simple("input_data".to_string());
    let output_content = Content::new_simple("output_data".to_string());
    let graph: Graph = CyclicGraph::new_default(0, input_content, 1, output_content, 2).unwrap();

    assert_eq!(graph.input().id(), &0);
    assert_eq!(graph.output().id(), &1);
    assert_eq!(graph.len(), 2);

    assert!(graph.input().has_child(&1));
    assert!(graph.output().has_parent(&0));
}

#[test]
fn cyclic_graph_test_new_default_should_return_error_when_terminal_nodes_has_same_ids() {
    let input_content = Content::new_simple("input_data".to_string());
    let output_content = Content::new_simple("output_data".to_string());
    let result: Result<Graph, _> = CyclicGraph::new_default(0, input_content, 0, output_content, 2);

    assert!(result.is_err());
    assert_eq!(result.err(), Some(CyclicGraphError::NonUniqueId(0)));
}

#[test]
fn test_new_default_should_return_error_when_start_id_idx_same_of_input_node() {
    let input_content = Content::new_simple("input_data".to_string());
    let output_content = Content::new_simple("output_data".to_string());
    let result: Result<Graph, _> = CyclicGraph::new_default(0, input_content, 1, output_content, 0);

    assert!(result.is_err());
    assert_eq!(result.err(), Some(CyclicGraphError::NonUniqueId(0)));
}

#[test]
fn test_new_default_should_return_error_when_start_id_idx_same_of_output_node() {
    let input_content = Content::new_simple("input_data".to_string());
    let output_content = Content::new_simple("output_data".to_string());
    let result: Result<Graph, _> = CyclicGraph::new_default(0, input_content, 1, output_content, 1);

    assert!(result.is_err());
    assert_eq!(result.err(), Some(CyclicGraphError::NonUniqueId(1)));
}

#[test]
fn test_append_node_can_add_new_node_to_empty_graph() {
    let mut graph = new_graph();

    let hidden2_content = Content::new_simple("hidden2".to_string());
    let hidden3_content = Content::new_simple("hidden3".to_string());
    let n2 = graph.append_node(hidden2_content, &[0], &[1]).unwrap();
    let n3 = graph.append_node(hidden3_content, &[0], &[1]).unwrap();

    assert_eq!(graph.len(), 4);
    assert_eq!(n2, 2);
    assert_eq!(n3, 3);
    assert!(graph.get(&n2).unwrap().has_parent(&0));
    assert!(graph.get(&n2).unwrap().has_child(&1));

    assert!(graph.get(&n3).unwrap().has_parent(&0));
    assert!(graph.get(&n3).unwrap().has_child(&1));

    assert!(graph.input().has_child(&1));
    assert!(graph.input().has_child(&2));
    assert!(graph.input().has_child(&3));
    assert!(graph.output().has_parent(&0));
    assert!(graph.output().has_parent(&2));
    assert!(graph.output().has_parent(&3));
}

#[test]
fn cyclic_graph_test_append_node_should_return_error_when_input_id_in_children_param() {
    let mut graph = new_graph();

    let hidden_content = Content::new_simple("hidden".to_string());
    let result = graph.append_node(hidden_content, &[0], &[0]);

    assert!(result.is_err());
    assert_eq!(result.err(), Some(CyclicGraphError::InsertBeforeInput));
    assert_eq!(graph.len(), 2);
}

#[test]
fn cyclic_graph_test_append_node_should_return_error_when_output_id_in_parent_param() {
    let mut graph = new_graph();

    let hidden_content = Content::new_simple("hidden".to_string());
    let result = graph.append_node(hidden_content, &[1], &[1]);

    assert!(result.is_err());
    assert_eq!(result.err(), Some(CyclicGraphError::InsertAfterOutput));
    assert_eq!(graph.len(), 2);
}

#[test]
fn cyclic_graph_test_serial_insert_between_create_and_inset_new_nodes_between_specified_nodes() {
    let mut graph = new_graph();

    let hidden_content = Content::new_simple("middle".to_string());
    let result = graph.insert_between(hidden_content, 0, 1);
    assert!(result.is_ok());
    let n2 = result.unwrap();

    let hidden_content2 = Content::new_simple("middle2".to_string());
    let n3 = graph.insert_between(hidden_content2, 2, 1).unwrap();

    // input -> n2 -> n3 -> output
    assert_eq!(graph.len(), 4);

    assert_eq!(n2, 2);
    assert_eq!(n3, 3);

    assert!(graph.get(&n2).unwrap().has_parent(&0));
    assert!(graph.get(&n2).unwrap().has_child(&3));

    assert!(graph.get(&n3).unwrap().has_parent(&2));
    assert!(graph.get(&n3).unwrap().has_child(&1));

    assert!(!graph.input().has_child(&1));
    assert!(graph.input().has_child(&2));
    assert!(!graph.input().has_child(&3));
    assert!(!graph.output().has_parent(&0));
    assert!(!graph.output().has_parent(&2));
    assert!(graph.output().has_parent(&3));
}

#[test]
fn cyclic_graph_test_parallel_insert_between_create_and_inset_new_nodes_between_specified_nodes() {
    let mut graph = new_graph();

    let hidden_content2 = Content::new_simple("middle2".to_string());
    let result = graph.insert_between(hidden_content2, 0, 1);
    assert!(result.is_ok());
    let n2 = result.unwrap();

    let hidden_content3 = Content::new_simple("middle3".to_string());
    let n3 = graph.insert_between(hidden_content3, 0, 1).unwrap();

    // input -> [n2, n3] -> output
    assert_eq!(graph.len(), 4);

    assert_eq!(n2, 2);
    assert_eq!(n3, 3);

    assert!(graph.get(&n2).unwrap().has_parent(&0));
    assert!(graph.get(&n2).unwrap().has_child(&1));

    assert!(graph.get(&n3).unwrap().has_parent(&0));
    assert!(graph.get(&n3).unwrap().has_child(&1));

    assert!(!graph.input().has_child(&1));
    assert!(graph.input().has_child(&2));
    assert!(graph.input().has_child(&3));

    assert!(!graph.output().has_parent(&0));
    assert!(graph.output().has_parent(&2));
    assert!(graph.output().has_parent(&3));
}

#[test]
fn test_traverse_from_input_should_return_correct_path_serial_graph() {
    let mut graph = new_graph();

    let hidden_content = Content::new_simple("middle2".to_string());
    let n2 = graph.insert_between(hidden_content, 0, 1).unwrap();

    let hidden_content3 = Content::new_simple("middle3".to_string());
    let _n3 = graph.insert_between(hidden_content3, n2, 1).unwrap();

    // input -> n2 -> n3 -> output
    assert_eq!(graph.len(), 4);

    let path = graph.traverse_from_input_node();

    assert_eq!(path.get(0), Some(&0));
    assert_eq!(path.get(1), Some(&2));
    assert_eq!(path.get(2), Some(&3));
    assert_eq!(path.get(3), Some(&1));
}

#[test]
fn test_traverse_from_input_should_return_correct_path_parallel_graph() {
    let mut graph = new_graph();

    let hidden_content2 = Content::new_simple("middle2".to_string());
    let _n2 = graph.insert_between(hidden_content2, 0, 1).unwrap();

    let hidden_content3 = Content::new_simple("middle3".to_string());
    let _n3 = graph.insert_between(hidden_content3, 0, 1).unwrap();

    // input -> [n2, n3] -> output
    assert_eq!(graph.len(), 4);

    let path = graph.traverse_from_input_node();

    assert_eq!(path.len(), 4);
}

fn assert_links(graph: &Graph, id: usize, parents: &[usize], children: &[usize]) {
    let node = graph.get(&id).unwrap();
    assert_eq!(node.parent_ids().len(), parents.len());
    for parent in parents {
        assert!(node.has_parent(parent));
    }
    assert_eq!(node.child_ids().len(), children.len());
    for child in children {
        assert!(node.has_child(child));
    }
}

#[test]
fn test_remove_should_delete_specified_node_and_prolongate_links() {
    let mut graph = new_graph();

    let n2 = graph.insert_between(Content::new_simple("middle2".to_string()), 0, 1).unwrap();
    let n3 = graph.insert_between(Content::new_simple("middle3".to_string()), 0, 1).unwrap();
    let n4 = graph.insert_between(Content::new_simple("middle4".to_string()), n2, 1).unwrap();
    assert!(graph.link_parent(&n4, &n3).is_ok());
    let n5 = graph.insert_between(Content::new_simple("middle5".to_string()), n2, 1).unwrap();
    assert!(graph.link_parent(&n5, &n4).is_ok());
    let n6 = graph.insert_between(Content::new_simple("middle6".to_string()), n3, 1).unwrap();
    assert!(graph.link_parent(&n6, &n4).is_ok());
    let n7 = graph.insert_between(Content::new_simple("middle6".to_string()), n4, 1).unwrap();
    assert_eq!((n2, n3, n4, n5, n6, n7), (2, 3, 4, 5, 6, 7));

    assert_eq!(graph.input().child_ids().len(), 2);
    assert!(graph.input().has_child(&2));
    assert!(graph.input().has_child(&3));

    assert_links(&graph, 2, &[0], &[4, 5]);
    assert_links(&graph, 3, &[0], &[4, 6]);
    assert_links(&graph, 4, &[2, 3], &[5, 6, 7]);
    assert_links(&graph, 5, &[2, 4], &[1]);
    assert_links(&graph, 6, &[3, 4], &[1]);
    assert_links(&graph, 7, &[4], &[1]);

    assert_eq!(graph.output().parent_ids().len(), 3);
    assert!(graph.output().has_parent(&5));
    assert!(graph.output().has_parent(&6));
    assert!(graph.output().has_parent(&7));

    assert_eq!(graph.len(), 8);

    let res = graph.remove(&4);
    assert!(res.is_ok());
    assert!(res.unwrap());

    assert_eq!(graph.len(), 7);

    assert_eq!(graph.input().child_ids().len(), 2);
    assert!(graph.input().has_child(&2));
    assert!(graph.input().has_child(&3));

    assert_links(&graph, 2, &[0], &[5, 6, 7]);
    assert_links(&graph, 3, &[0], &[5, 6, 7]);
    assert_links(&graph, 5, &[2, 3], &[1]);
    assert_links(&graph, 6, &[2, 3], &[1]);
    assert_links(&graph, 7, &[2, 3], &[1]);

    assert_eq!(graph.output().parent_ids().len(), 3);
    assert!(graph.output().has_parent(&5));
    assert!(graph.output().has_parent(&6));
    assert!(graph.output().has_parent(&7));

    // try to remove again. remove should remove Ok(false)
    let res = graph.remove(&4);
    assert!(res.is_ok());
    assert!(!res.unwrap());
}

#[test]
fn test_get_node_by_node_id() {
    let mut graph = new_graph();

    let _n2 = graph.insert_between(Content::new_simple("middle2".to_string()), 0, 1).unwrap();

    // input -> n2 -> output
    assert_eq!(graph.len(), 3);

    let node_opt = graph.get(&2);
    assert!(node_opt.is_some());
    let node = node_opt.unwrap();
    assert!(node.value().unwrap().contains("middle2"));
    assert_eq!(node.id(), &2);

    // try get non-existing node
    let node_opt = graph.get(&10);
    assert!(node_opt.is_none());
}
