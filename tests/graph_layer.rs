use vdb::graph::GraphLayer;

#[test]
fn new_layer_is_empty() {
    let g = GraphLayer::new(None);
    assert_eq!(g.entry(), None);
    assert!(g.node_ids().is_empty());
    assert!(!g.contains(0));
}

#[test]
fn set_entry_node_records_entry() {
    let mut g = GraphLayer::new(None);
    g.set_entry_node(7);
    assert_eq!(g.entry(), Some(7));
}

#[test]
fn add_node_is_idempotent() {
    let mut g = GraphLayer::new(None);
    g.add_node(5);
    g.add_node(2);
    g.add_node(5);
    assert_eq!(g.node_ids(), &vec![2, 5]);
    assert!(g.neighbors(5).is_empty());
}

#[test]
fn add_neighbor_links_both_ends_once() {
    let mut g = GraphLayer::new(None);
    g.add_node(1);
    g.add_neighbor(1, 2);
    g.add_neighbor(2, 1);
    g.add_neighbor(1, 3);
    assert_eq!(g.neighbors(1), &vec![2, 3]);
    assert_eq!(g.neighbors(2), &vec![1]);
    assert_eq!(g.neighbors(3), &vec![1]);
    assert_eq!(g.node_ids(), &vec![1, 2, 3]);
}

#[test]
fn add_neighbor_keeps_existing_lists() {
    let mut g = GraphLayer::new(Some(4));
    g.add_neighbor(4, 0);
    g.add_neighbor(9, 4);
    assert_eq!(g.neighbors(4), &vec![0, 9]);
    assert_eq!(g.entry(), Some(4));
}
