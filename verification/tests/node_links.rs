use cyclic_graph::{Content, CyclicGraph, CyclicGraphError, Node};

type Graph = CyclicGraph<usize, String>;

/// A graph 0 -> 1 with two nodes 2 and 3 that have no links.
fn graph_with_free_nodes() -> Graph {
    let mut graph: Graph = CyclicGraph::new_default(
        0,
        Content::new_simple("input".to_string()),
        1,
        Content::new_simple("output".to_string()),
        2,
    )
    .unwrap();
    assert_eq!(graph.append_node(Content::new_simple("two".to_string()), &[], &[]), Ok(2));
    assert_eq!(graph.append_node(Content::new_simple("three".to_string()), &[], &[]), Ok(3));
    graph
}

#[test]
fn test_create_simple_node_with_i32_id() {
    let node: Node<i32, String> = Node::new(1, Content::new_simple("Hello".to_string()));
    assert_eq!(node.id(), &1);
}

#[test]
fn test_value_accessors() {
    let mut graph = graph_with_free_nodes();
    assert_eq!(graph.set_value(&2, "Test".to_string()), Some("two".to_string()));
    assert_eq!(graph.get(&2).unwrap().value(), Some("Test".to_string()));
    assert_eq!(graph.set_value(&9, "Absent".to_string()), None);
}

#[test]
fn test_has_children_for_new_node_should_be_false() {
    let graph = graph_with_free_nodes();
    assert!(!graph.get(&2).unwrap().has_children());
}

#[test]
fn test_has_parents_for_new_node_should_be_false() {
    let graph = graph_with_free_nodes();
    assert!(!graph.get(&2).unwrap().has_parents());
}

#[test]
fn test_link_child() {
    let mut graph = graph_with_free_nodes();
    let result = graph.link_child(&2, &3);
    assert!(result.is_ok());
    assert!(result.unwrap());
    // the link exists now: linking again adds nothing
    assert_eq!(graph.link_child(&2, &3), Ok(false));
}

#[test]
fn test_link_parent() {
    let mut graph = graph_with_free_nodes();
    let result = graph.link_parent(&3, &2);
    assert!(result.is_ok());
    assert!(result.unwrap());
    assert!(graph.get(&2).unwrap().has_child(&3));
}

#[test]
fn test_has_children_for_linked_parent_node_should_return_true() {
    let mut graph = graph_with_free_nodes();
    let result = graph.link_child(&2, &3);
    assert!(result.is_ok());
    assert!(graph.get(&2).unwrap().has_children());
}

#[test]
fn test_has_parents_for_linked_child_node_should_return_true() {
    let mut graph = graph_with_free_nodes();
    let result = graph.link_parent(&3, &2);
    assert!(result.is_ok());
    assert!(graph.get(&3).unwrap().has_parents());
}

#[test]
fn test_link_node_as_child_to_itself_should_return_error() {
    let mut graph = graph_with_free_nodes();
    let res = graph.link_child(&2, &2);
    assert!(res.is_err());
    assert_eq!(res, Err(CyclicGraphError::CannotLinkToItself));
}

#[test]
fn test_link_node_as_parent_to_itself_should_return_error() {
    let mut graph = graph_with_free_nodes();
    let res = graph.link_parent(&2, &2);
    assert!(res.is_err());
    assert_eq!(res, Err(CyclicGraphError::CannotLinkToItself));
}

#[test]
fn test_has_child_with_id_method_for_new_node_should_return_false() {
    let graph = graph_with_free_nodes();
    assert!(!graph.get(&2).unwrap().has_child(&3));
}

#[test]
fn test_has_child_with_id_with_existing_child_node_should_return_true() {
    let mut graph = graph_with_free_nodes();
    assert!(graph.link_child(&2, &3).is_ok());
    assert!(graph.get(&2).unwrap().has_child(&3));
}

#[test]
fn test_child_ids_method_should_contains_id_of_linked_child() {
    let mut graph = graph_with_free_nodes();
    assert!(graph.link_child(&0, &2).is_ok());
    let child_ids = graph.get(&0).unwrap().child_ids();

    assert!(child_ids.contains(&2));
    assert!(!child_ids.contains(&3));
}

#[test]
fn link_errors_name_the_missing_node_and_the_terminal_nodes() {
    let mut graph = graph_with_free_nodes();
    assert_eq!(graph.link_child(&7, &2), Err(CyclicGraphError::NodeNotFoundById(7)));
    assert_eq!(graph.link_child(&2, &8), Err(CyclicGraphError::NodeNotFoundById(8)));
    assert_eq!(graph.link_child(&2, &0), Err(CyclicGraphError::InsertBeforeInput));
    assert_eq!(graph.link_child(&1, &2), Err(CyclicGraphError::InsertAfterOutput));
    assert!(!graph.input().has_parents());
    assert!(!graph.output().has_children());
}

#[test]
fn unlink_undoes_link() {
    let mut graph = graph_with_free_nodes();
    assert_eq!(graph.link_child(&2, &3), Ok(true));
    assert_eq!(graph.unlink_child(&2, &3), Ok(true));
    assert!(!graph.get(&2).unwrap().has_child(&3));
    assert!(!graph.get(&3).unwrap().has_parent(&2));
    assert_eq!(graph.unlink_child(&2, &3), Ok(false));
    assert_eq!(graph.unlink_parent(&1, &0), Ok(true));
    assert!(!graph.input().has_child(&1));
    assert_eq!(graph.unlink_parent(&1, &9), Ok(false));
}
