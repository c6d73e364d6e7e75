use cyclic_graph::{Content, CyclicGraph, CyclicGraphError};

type Graph = CyclicGraph<usize, &'static str>;

fn new_graph() -> Graph {
    CyclicGraph::new_default(0, Content::new_simple("in"), 1, Content::new_simple("out"), 2).unwrap()
}

#[test]
fn input_and_output_cannot_be_removed() {
    let mut graph = new_graph();
    assert_eq!(graph.remove(&0), Err(CyclicGraphError::RemoveInput));
    assert_eq!(graph.remove(&1), Err(CyclicGraphError::RemoveOutput));
    assert_eq!(graph.len(), 2);
    assert!(graph.input().has_child(&1));
}

#[test]
fn removing_an_inserted_node_restores_the_link() {
    let mut graph = new_graph();
    let n = graph.insert_between(Content::new_simple("mid"), 0, 1).unwrap();
    assert!(!graph.input().has_child(&1));
    assert_eq!(graph.remove(&n), Ok(true));
    assert_eq!(graph.len(), 2);
    assert!(graph.input().has_child(&1));
    assert_eq!(graph.input().child_ids(), vec![1]);
    assert_eq!(graph.output().parent_ids(), vec![0]);
}

#[test]
fn removing_keeps_connections_between_remaining_nodes() {
    let mut graph = new_graph();
    let a = graph.insert_between(Content::new_simple("a"), 0, 1).unwrap();
    let b = graph.insert_between(Content::new_simple("b"), a, 1).unwrap();
    let c = graph.insert_between(Content::new_simple("c"), b, 1).unwrap();
    // 0 -> a -> b -> c -> 1
    assert!(graph.bfs(&a, &c));
    assert_eq!(graph.remove(&b), Ok(true));
    assert!(graph.bfs(&a, &c));
    assert!(graph.get(&a).unwrap().has_child(&c));
    assert!(graph.bfs(&0, &1));
}

#[test]
fn removing_a_node_on_a_two_cycle_links_no_node_to_itself() {
    let mut graph = new_graph();
    let x = graph.insert_between(Content::new_simple("x"), 0, 1).unwrap();
    // k has x as parent and as child
    let k = graph.append_node(Content::new_simple("k"), &[x], &[x]).unwrap();
    assert!(graph.get(&x).unwrap().has_child(&k));
    assert!(graph.get(&x).unwrap().has_parent(&k));
    assert_eq!(graph.remove(&k), Ok(true));
    assert!(graph.get(&k).is_none());
    assert!(!graph.get(&x).unwrap().has_child(&x));
    assert!(!graph.get(&x).unwrap().has_parent(&x));
    assert_eq!(graph.get(&x).unwrap().parent_ids(), vec![0]);
    assert_eq!(graph.get(&x).unwrap().child_ids(), vec![1]);
    assert_eq!(graph.len(), 3);
}

#[test]
fn removing_a_node_on_a_two_cycle_keeps_the_other_connections() {
    // 0 -> a -> b -> 1, and b -> a as well; removing a links 0 to b.
    let mut graph = new_graph();
    let a = graph.insert_between(Content::new_simple("a"), 0, 1).unwrap();
    let b = graph.insert_between(Content::new_simple("b"), a, 1).unwrap();
    assert_eq!(graph.link_child(&b, &a), Ok(true));
    assert_eq!(graph.remove(&a), Ok(true));
    assert!(graph.input().has_child(&b));
    assert_eq!(graph.get(&b).unwrap().parent_ids(), vec![0]);
    assert_eq!(graph.get(&b).unwrap().child_ids(), vec![1]);
    assert_eq!(graph.len(), 3);
}

#[test]
fn appended_node_reports_unknown_ids() {
    let mut graph = new_graph();
    assert_eq!(
        graph.append_node(Content::new_simple("n"), &[0, 77], &[1]),
        Err(CyclicGraphError::NodeNotFoundById(77))
    );
    assert_eq!(
        graph.append_node(Content::new_simple("n"), &[0], &[1, 88]),
        Err(CyclicGraphError::NodeNotFoundById(88))
    );
    // a missing parent is reported before a missing child
    assert_eq!(
        graph.append_node(Content::new_simple("n"), &[66, 77], &[88]),
        Err(CyclicGraphError::NodeNotFoundById(66))
    );
    assert_eq!(graph.len(), 2);
    assert_eq!(graph.input().child_ids(), vec![1]);
    assert_eq!(graph.output().parent_ids(), vec![0]);
    // the counter moved on with each call
    assert_eq!(graph.append_node(Content::new_simple("m"), &[0], &[1]), Ok(5));
}

#[test]
fn generated_id_that_is_taken_is_reported() {
    // The counter starts at 2 and the output node is 3: the second new node would take it.
    let mut graph: Graph =
        CyclicGraph::new_default(0, Content::new_simple("in"), 3, Content::new_simple("out"), 2).unwrap();
    assert_eq!(graph.append_node(Content::new_simple("a"), &[0], &[3]), Ok(2));
    assert_eq!(
        graph.append_node(Content::new_simple("b"), &[0], &[3]),
        Err(CyclicGraphError::NonUniqueId(3))
    );
    assert_eq!(graph.len(), 3);
    // the counter moved on all the same
    assert_eq!(graph.insert_between(Content::new_simple("c"), 0, 3), Ok(4));
}

#[test]
fn insert_between_reports_unknown_and_terminal_ids() {
    let mut graph = new_graph();
    assert_eq!(
        graph.insert_between(Content::new_simple("x"), 0, 0),
        Err(CyclicGraphError::InsertBeforeInput)
    );
    assert_eq!(
        graph.insert_between(Content::new_simple("x"), 1, 1),
        Err(CyclicGraphError::InsertAfterOutput)
    );
    assert_eq!(
        graph.insert_between(Content::new_simple("x"), 5, 1),
        Err(CyclicGraphError::NodeNotFoundById(5))
    );
    assert_eq!(
        graph.insert_between(Content::new_simple("x"), 0, 6),
        Err(CyclicGraphError::NodeNotFoundById(6))
    );
    assert_eq!(graph.len(), 2);
    // no id was used up by the rejected calls
    assert_eq!(graph.insert_between(Content::new_simple("x"), 0, 1), Ok(2));
}

#[test]
fn layer_content_holds_no_value() {
    let mut graph: CyclicGraph<usize, i32, &'static str> =
        CyclicGraph::new_default(0, Content::new_layer("input layer"), 1, Content::new_simple(5), 2).unwrap();
    assert_eq!(graph.input().value(), None);
    assert!(graph.input().content().is_layer());
    assert_eq!(graph.set_value(&0, 3), None);
    assert_eq!(graph.output().value(), Some(5));
    assert_eq!(graph.set_value(&1, 6), Some(5));
    assert_eq!(graph.output().value(), Some(6));
}

#[test]
fn removing_an_appended_node_links_its_parents_to_its_children() {
    let mut graph = new_graph();
    let a = graph.insert_between(Content::new_simple("a"), 0, 1).unwrap();
    let b = graph.append_node(Content::new_simple("b"), &[], &[1]).unwrap();
    // a has no link to b yet; the new node n links a and the input to b
    let n = graph.append_node(Content::new_simple("n"), &[0, a], &[b]).unwrap();
    assert!(!graph.get(&a).unwrap().has_child(&b));
    assert_eq!(graph.remove(&n), Ok(true));
    assert!(graph.get(&a).unwrap().has_child(&b));
    assert!(graph.input().has_child(&b));
    assert!(graph.input().has_child(&a));
    assert_eq!(graph.len(), 4);
}
