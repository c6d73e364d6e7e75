use cyclic_graph::{Content, CyclicGraph};

type Graph = CyclicGraph<usize, ()>;

/// The graph 1 -> [2 -> [3 -> 4 -> [2, 5 -> [3, 9]]], 6 -> 7 -> [5, 9], 8 -> 9]
/// with input node 1 and output node 9.
fn example_graph() -> Graph {
    let mut graph: Graph =
        CyclicGraph::new_default(1, Content::new_simple(()), 9, Content::new_simple(()), 2).unwrap();
    assert_eq!(graph.unlink_child(&1, &9), Ok(true));
    for expected in 2..9 {
        assert_eq!(graph.append_node(Content::new_simple(()), &[], &[]), Ok(expected));
    }
    let links = [
        (1, 2),
        (1, 6),
        (1, 8),
        (2, 3),
        (3, 4),
        (4, 2),
        (4, 5),
        (5, 3),
        (5, 9),
        (6, 7),
        (7, 5),
        (7, 9),
        (8, 9),
    ];
    for (parent, child) in links {
        assert_eq!(graph.link_child(&parent, &child), Ok(true));
    }
    graph
}

fn assert_same_ids(ids: &[usize], expected: &[usize]) {
    assert_eq!(ids.len(), expected.len());
    for id in expected {
        assert!(ids.contains(id));
    }
}

#[test]
fn test_successor_ids_method_should_contains_id_of_successors() {
    let graph = example_graph();

    let successor_ids = graph.successor_ids(&1, &[]);
    assert!(!successor_ids.contains(&1));
    assert_same_ids(&successor_ids, &[2, 3, 4, 5, 6, 7, 8, 9]);

    assert_same_ids(&graph.successor_ids(&2, &[]), &[2, 3, 4, 5, 9]);
    assert_same_ids(&graph.successor_ids(&3, &[]), &[2, 3, 4, 5, 9]);
    assert_same_ids(&graph.successor_ids(&4, &[]), &[2, 3, 4, 5, 9]);
    assert_same_ids(&graph.successor_ids(&5, &[]), &[2, 3, 4, 5, 9]);
    assert_same_ids(&graph.successor_ids(&6, &[]), &[2, 3, 4, 5, 7, 9]);
    assert_same_ids(&graph.successor_ids(&7, &[]), &[2, 3, 4, 5, 9]);
    assert_same_ids(&graph.successor_ids(&8, &[]), &[9]);
    assert!(graph.successor_ids(&9, &[]).is_empty());
}

#[test]
fn test_predecessor_ids_method_should_contains_id_of_predecessors() {
    let graph = example_graph();

    assert!(graph.predecessor_ids(&1, &[]).is_empty());
    assert_same_ids(&graph.predecessor_ids(&2, &[]), &[1, 2, 3, 4, 5, 6, 7]);
    assert_same_ids(&graph.predecessor_ids(&3, &[]), &[1, 2, 3, 4, 5, 6, 7]);
    assert_same_ids(&graph.predecessor_ids(&4, &[]), &[1, 2, 3, 4, 5, 6, 7]);
    assert_same_ids(&graph.predecessor_ids(&5, &[]), &[1, 2, 3, 4, 5, 6, 7]);
    assert_same_ids(&graph.predecessor_ids(&6, &[]), &[1]);
    assert_same_ids(&graph.predecessor_ids(&7, &[]), &[1, 6]);
    assert_same_ids(&graph.predecessor_ids(&8, &[]), &[1]);
    assert_same_ids(&graph.predecessor_ids(&9, &[]), &[1, 2, 3, 4, 5, 6, 7, 8]);
}

#[test]
fn successor_ids_keeps_the_given_ids_and_walks_around_them() {
    let graph = example_graph();
    // Through 6 only: 7 is reached, and from 7 the nodes 5, 9, 3, 4, 2.
    assert_same_ids(&graph.successor_ids(&1, &[2, 8]), &[2, 8, 6, 7, 5, 9, 3, 4]);
    // With 7 given, nothing lies behind it from 6.
    assert_same_ids(&graph.successor_ids(&6, &[7]), &[7]);
    // Repeated given ids are listed once.
    assert_same_ids(&graph.successor_ids(&8, &[3, 3]), &[3, 9]);
    // An identifier the graph does not hold has no successors.
    assert_same_ids(&graph.successor_ids(&42, &[]), &[]);
}

#[test]
fn successors_mirror_predecessors() {
    let graph = example_graph();
    for x in 1..10 {
        for y in 1..10 {
            let forward = graph.successor_ids(&x, &[]).contains(&y);
            let backward = graph.predecessor_ids(&y, &[]).contains(&x);
            assert_eq!(forward, backward);
        }
    }
}

#[test]
fn traversal_lists_each_reached_node_once_after_a_parent() {
    let graph = example_graph();
    let path = graph.traverse_from_input_node();
    assert_eq!(path[0], 1);
    assert_same_ids(&path, &[1, 2, 3, 4, 5, 6, 7, 8, 9]);
    for j in 1..path.len() {
        let node = graph.get(&path[j]).unwrap();
        assert!((0..j).any(|i| node.has_parent(&path[i])));
    }
}

#[test]
fn bfs_follows_links_only() {
    let graph = example_graph();
    assert!(graph.bfs(&1, &9));
    assert!(graph.bfs(&2, &2));
    assert!(graph.bfs(&4, &3));
    assert!(!graph.bfs(&9, &1));
    assert!(!graph.bfs(&8, &2));
    assert!(!graph.bfs(&6, &8));
}

#[test]
fn traversal_goes_deep_before_it_goes_wide() {
    let graph = example_graph();
    // children are walked in the order they were linked
    assert_eq!(graph.traverse_from_input_node(), vec![1, 2, 3, 4, 5, 9, 6, 7, 8]);
}

#[test]
fn traversal_leaves_out_nodes_not_reached() {
    let mut graph: Graph =
        CyclicGraph::new_default(0, Content::new_simple(()), 1, Content::new_simple(()), 2).unwrap();
    assert_eq!(graph.append_node(Content::new_simple(()), &[], &[1]), Ok(2));
    assert_eq!(graph.traverse_from_input_node(), vec![0, 1]);
}
