use graph_store::{Graph, GraphError, Node, Props};

#[test]
fn adding_nodes() {
    let mut g = Graph::new();
    let id1 = g.add_node();
    let id2 = g.add_node();
    {
        let n1 = g.get_node(id1).unwrap();
        assert!(n1.id == id1);
    }
    {
        let n2 = g.get_node_mut(id2).unwrap();
        assert!(n2.id == id2);
        n2.props.insert("hey".to_string(), "you".to_string());
    }
}

#[test]
fn connecting_nodes() {
    let mut g = Graph::new();
    let id1 = g.add_node();
    let id2 = g.add_node();
    let id3 = g.add_node();
    g.connect_nodes(id1, id2, vec!["hello".to_string(), "hi".to_string()]).unwrap();
    assert!(g.are_connected(id1, id2).unwrap());
    assert!(!g.are_connected(id2, id1).unwrap());
    g.connect_nodes(id2, id1, vec![]).unwrap();
    g.connect_nodes(id2, id3, vec![]).unwrap();

    assert!(g.are_connected(id1, id2).unwrap());
    assert!(g.are_connected(id2, id1).unwrap());
    assert!(g.are_connected(id2, id3).unwrap());
    assert!(!g.are_connected(id3, id2).unwrap());
}

#[test]
fn removing_nodes() {
    let mut g = Graph::new();
    let id1 = g.add_node();
    let id2 = g.add_node();
    let id3 = g.add_node();
    g.connect_nodes(id1, id2, vec!["hello".to_string(), "hi".to_string()]).unwrap();
    assert!(g.are_connected(id1, id2).unwrap());
    assert!(!g.are_connected(id2, id1).unwrap());
    g.connect_nodes(id2, id1, vec![]).unwrap();
    g.connect_nodes(id2, id3, vec![]).unwrap();

    assert!(g.are_connected(id1, id2).unwrap());
    assert!(g.are_connected(id2, id1).unwrap());
    assert!(g.are_connected(id2, id3).unwrap());
    assert!(!g.are_connected(id3, id2).unwrap());
    assert!(!g.are_connected(id3, id1).unwrap());
    assert!(!g.are_connected(id1, id3).unwrap());

    g.remove_node(id3).unwrap();
    assert!(g.are_connected(id1, id2).unwrap());
    assert!(g.are_connected(id2, id1).unwrap());
    assert!(g.get_node(id3).is_none());
    assert_eq!(g.are_connected(id2, id3), Err(GraphError::NodeNotFound { id: id3 }));
}

fn three_nodes() -> (Graph, i32, i32, i32) {
    let mut g = Graph::new();
    let id1 = g.add_node();
    let id2 = g.add_node();
    let id3 = g.add_node();
    (g, id1, id2, id3)
}

fn sorted(mut ids: Vec<i32>) -> Vec<i32> {
    ids.sort();
    ids
}

fn texts(labels: &[&str]) -> Vec<String> {
    labels.iter().map(|l| l.to_string()).collect()
}

#[test]
fn ids_start_at_one_and_rise() {
    let (_, id1, id2, id3) = three_nodes();
    assert_eq!((id1, id2, id3), (1, 2, 3));
}

#[test]
fn new_node_has_its_id_and_no_props() {
    let mut g = Graph::new();
    let id = g.add_node();
    let node = g.get_node(id).unwrap();
    assert_eq!(node.id, id);
    assert!(node.props.is_empty());
    assert_eq!(node.props.len(), 0);
}

#[test]
fn ids_are_not_used_again_after_removal() {
    let (mut g, _, _, id3) = three_nodes();
    g.remove_node(id3).unwrap();
    let id4 = g.add_node();
    assert_eq!(id4, 4);
    assert!(g.get_node(id3).is_none());
    g.remove_node(id4).unwrap();
    assert_eq!(g.add_node(), 5);
}

#[test]
fn next_id_is_handed_out_once() {
    let mut g = Graph::new();
    assert!(g.has_free_id());
    assert_eq!(g.get_node_next_id(), 1);
    assert_eq!(g.get_node_next_id(), 2);
    assert_eq!(g.add_node(), 3);
    assert!(g.get_node(1).is_none());
    assert_eq!(sorted(g.node_ids()), vec![3]);
}

#[test]
fn no_free_id_at_the_greatest_id() {
    let mut g = Graph::new();
    g.load_node(i32::MAX, Node { id: i32::MAX, props: Props::new() });
    assert!(!g.has_free_id());
    assert_eq!(g.get_node(i32::MAX).unwrap().id, i32::MAX);
}

#[test]
fn loaded_node_raises_the_ids_handed_out() {
    let mut g = Graph::new();
    g.load_node(7, Node { id: 7, props: Props::new() });
    g.load_node(3, Node { id: 3, props: Props::new() });
    g.load_node(-4, Node { id: -4, props: Props::new() });
    assert_eq!(g.add_node(), 8);
    assert_eq!(sorted(g.node_ids()), vec![-4, 3, 7, 8]);
}

#[test]
fn unknown_node_is_absent() {
    let (mut g, _, _, _) = three_nodes();
    assert!(g.get_node(4).is_none());
    assert!(g.get_node(0).is_none());
    assert!(g.get_node_mut(-1).is_none());
}

#[test]
fn node_is_changed_in_place() {
    let (mut g, id1, id2, _) = three_nodes();
    g.connect_nodes(id1, id2, texts(&["x"])).unwrap();
    {
        let node = g.get_node_mut(id2).unwrap();
        node.props.insert("hey".to_string(), "you".to_string());
        node.props.insert("a".to_string(), "b".to_string());
    }
    let node = g.get_node(id2).unwrap();
    assert_eq!(node.props.get("hey"), Some(&"you".to_string()));
    assert_eq!(node.props.get("a"), Some(&"b".to_string()));
    assert_eq!(node.props.len(), 2);
    assert!(g.are_connected(id1, id2).unwrap());
    assert!(g.get_node(id1).unwrap().props.is_empty());
}

#[test]
fn edges_have_a_direction() {
    let (mut g, id1, id2, id3) = three_nodes();
    g.connect_nodes(id1, id2, texts(&["l"])).unwrap();
    assert_eq!(g.are_connected(id1, id2), Ok(true));
    assert_eq!(g.are_connected(id2, id1), Ok(false));
    assert_eq!(g.are_connected(id1, id3), Ok(false));
    assert_eq!(g.are_connected(id1, id1), Ok(false));
    g.connect_nodes(id2, id1, vec![]).unwrap();
    assert_eq!(g.are_connected(id2, id1), Ok(true));
    assert_eq!(g.are_connected(id1, id2), Ok(true));
}

#[test]
fn connecting_again_replaces_the_labels() {
    let (mut g, id1, id2, _) = three_nodes();
    g.connect_nodes(id1, id2, texts(&["b", "a", "b"])).unwrap();
    assert_eq!(g.get_edge(id1, id2).unwrap().labels, texts(&["b", "a", "b"]));
    g.connect_nodes(id1, id2, texts(&["z"])).unwrap();
    assert_eq!(g.get_edge(id1, id2).unwrap().labels, texts(&["z"]));
    assert_eq!(g.successors(id1), vec![id2]);
    assert_eq!(g.predecessors_of(id2), vec![id1]);
    assert!(g.get_edge(id2, id1).is_none());
}

#[test]
fn connecting_unknown_nodes_fails_and_changes_nothing() {
    let (mut g, id1, _, _) = three_nodes();
    assert_eq!(g.connect_nodes(9, id1, vec![]), Err(GraphError::NodeNotFound { id: 9 }));
    assert_eq!(g.connect_nodes(id1, 8, vec![]), Err(GraphError::NodeNotFound { id: 8 }));
    assert_eq!(g.connect_nodes(9, 8, vec![]), Err(GraphError::NodeNotFound { id: 9 }));
    assert!(g.origins().is_empty());
    assert!(g.successors(id1).is_empty());
    assert!(g.predecessors_of(id1).is_empty());
    assert!(g == three_nodes().0);
}

#[test]
fn asking_about_unknown_nodes_fails() {
    let (g, id1, _, _) = three_nodes();
    assert_eq!(g.are_connected(9, id1), Err(GraphError::NodeNotFound { id: 9 }));
    assert_eq!(g.are_connected(id1, 8), Err(GraphError::NodeNotFound { id: 8 }));
    assert_eq!(g.are_connected(9, 8), Err(GraphError::NodeNotFound { id: 9 }));
}

#[test]
fn removing_an_unknown_node_fails() {
    let (mut g, _, _, _) = three_nodes();
    assert_eq!(g.remove_node(4), Err(GraphError::NodeNotFound { id: 4 }));
    assert_eq!(sorted(g.node_ids()), vec![1, 2, 3]);
}

#[test]
fn predecessor_index_after_mutual_connections() {
    let (mut g, id1, id2, id3) = three_nodes();
    g.connect_nodes(id1, id2, vec![]).unwrap();
    g.connect_nodes(id2, id1, vec![]).unwrap();
    g.connect_nodes(id2, id3, vec![]).unwrap();
    assert_eq!(g.predecessors_of(id2), vec![id1]);
    assert_eq!(g.predecessors_of(id1), vec![id2]);
    assert_eq!(g.predecessors_of(id3), vec![id2]);
    assert_eq!(sorted(g.successors(id2)), vec![id1, id3]);
    assert_eq!(sorted(g.origins()), vec![id1, id2]);
}

#[test]
fn removal_leaves_no_reference_to_the_node() {
    let (mut g, id1, id2, id3) = three_nodes();
    g.connect_nodes(id1, id2, texts(&["hello", "hi"])).unwrap();
    g.connect_nodes(id2, id1, vec![]).unwrap();
    g.connect_nodes(id2, id3, vec![]).unwrap();
    g.remove_node(id3).unwrap();
    assert_eq!(g.are_connected(id1, id2), Ok(true));
    assert_eq!(g.are_connected(id2, id1), Ok(true));
    assert!(g.get_node(id3).is_none());
    assert_eq!(g.successors(id2), vec![id1]);
    assert!(g.predecessors_of(id3).is_empty());
    assert!(g.successors(id3).is_empty());
    assert!(g.get_edge(id2, id3).is_none());
    assert_eq!(sorted(g.node_ids()), vec![id1, id2]);
    assert_eq!(g.are_connected(id2, id3), Err(GraphError::NodeNotFound { id: id3 }));
    assert_eq!(g.connect_nodes(id3, id1, vec![]), Err(GraphError::NodeNotFound { id: id3 }));
    assert_eq!(g.remove_node(id3), Err(GraphError::NodeNotFound { id: id3 }));
}

#[test]
fn removal_takes_edges_in_both_directions_and_loops() {
    let (mut g, id1, id2, id3) = three_nodes();
    g.connect_nodes(id1, id2, vec![]).unwrap();
    g.connect_nodes(id2, id3, vec![]).unwrap();
    g.connect_nodes(id3, id2, vec![]).unwrap();
    g.connect_nodes(id2, id2, texts(&["loop"])).unwrap();
    g.connect_nodes(id1, id3, texts(&["stays"])).unwrap();
    g.remove_node(id2).unwrap();
    assert_eq!(g.origins(), vec![id1]);
    assert_eq!(g.successors(id1), vec![id3]);
    assert_eq!(g.predecessors_of(id3), vec![id1]);
    assert!(g.predecessors_of(id1).is_empty());
    assert!(g.successors(id3).is_empty());
    assert_eq!(g.get_edge(id1, id3).unwrap().labels, texts(&["stays"]));
    g.remove_node(id1).unwrap();
    assert!(g.origins().is_empty());
    assert!(g.predecessors_of(id3).is_empty());
    assert_eq!(g.node_ids(), vec![id3]);
}

#[test]
fn graphs_are_equal_by_nodes_and_edges() {
    let (mut a, id1, id2, id3) = three_nodes();
    let (mut b, _, _, _) = three_nodes();
    assert!(a == b);
    a.connect_nodes(id1, id2, texts(&["x", "y"])).unwrap();
    assert!(a != b);
    b.connect_nodes(id1, id2, texts(&["y", "x"])).unwrap();
    assert!(a != b);
    b.connect_nodes(id1, id2, texts(&["x", "y"])).unwrap();
    assert!(a == b);
    a.get_node_mut(id3).unwrap().props.insert("k".to_string(), "v".to_string());
    assert!(a != b);
    b.get_node_mut(id3).unwrap().props.insert("k".to_string(), "v".to_string());
    assert!(a == b);
    b.get_node_mut(id3).unwrap().id = 9;
    assert!(a != b);
}

#[test]
fn equality_passes_over_the_ids_handed_out_and_emptied_rows() {
    let (mut a, id1, id2, _) = three_nodes();
    let (b, _, _, _) = three_nodes();
    let id4 = a.add_node();
    a.connect_nodes(id1, id4, vec![]).unwrap();
    a.connect_nodes(id4, id2, vec![]).unwrap();
    a.remove_node(id4).unwrap();
    assert!(a == b);
    assert!(b == a);
    assert_eq!(a.to_text(), b.to_text());
}
