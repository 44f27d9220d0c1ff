use graphkit::directed_graph::Node;

#[test]
fn new_node_has_no_children() {
    let n = Node::new(5u64);
    assert_eq!(n.depth_first_vec(), vec![5]);
    assert_eq!(n.breadth_first_vec(), vec![5]);
}

#[test]
fn join_chains_and_returns_copy() {
    let mut root = Node::new(1u64);
    let copy = root.join(Node::new(2));
    assert_eq!(copy.depth_first_vec(), root.depth_first_vec());
    assert_eq!(copy.breadth_first_vec(), root.breadth_first_vec());
}

#[test]
fn depth_first_visits_last_child_first() {
    let mut root = Node::new(1u64);
    root.join(Node::new(2));
    root.join(Node::new(3));
    assert_eq!(root.depth_first_vec(), vec![1, 3, 2]);
}

#[test]
fn breadth_first_is_level_order() {
    let mut root = Node::new(1u64);
    root.join(Node::new(2));
    root.join(Node::new(3));
    assert_eq!(root.breadth_first_vec(), vec![1, 2, 3]);
}

#[test]
fn traversals_of_deeper_tree() {
    // 1 with children 2 and 3; 2 has children 4 and 5; 3 has child 6.
    let mut two = Node::new(2u64);
    two.join(Node::new(4));
    two.join(Node::new(5));
    let mut three = Node::new(3u64);
    three.join(Node::new(6));
    let mut root = Node::new(1u64);
    root.join(two);
    root.join(three);
    assert_eq!(root.depth_first_vec(), vec![1, 3, 6, 2, 5, 4]);
    assert_eq!(root.breadth_first_vec(), vec![1, 2, 3, 4, 5, 6]);
}

#[test]
fn traversals_rerun_identically() {
    let mut root = Node::new(10u64);
    root.join(Node::new(20));
    root.join(Node::new(30));
    assert_eq!(root.depth_first_vec(), root.depth_first_vec());
    assert_eq!(root.breadth_first_vec(), root.breadth_first_vec());
}

#[test]
fn contains_agrees_with_depth_first_listing() {
    let mut two = Node::new(2u64);
    two.join(Node::new(4));
    let mut root = Node::new(1u64);
    root.join(two);
    root.join(Node::new(3));
    let listing = root.depth_first_vec();
    for v in 0u64..8 {
        assert_eq!(root.contains(v), listing.contains(&v));
    }
}

#[test]
fn contains_finds_values_at_every_level() {
    let mut child = Node::new(7u64);
    child.join(Node::new(9));
    let mut root = Node::new(5u64);
    root.join(child);
    assert!(root.contains(5));
    assert!(root.contains(7));
    assert!(root.contains(9));
    assert!(!root.contains(6));
}

#[test]
fn cloned_tree_lists_the_same_values() {
    let mut root = Node::new(1u64);
    root.join(Node::new(2));
    let copy = root.clone();
    assert_eq!(copy.depth_first_vec(), root.depth_first_vec());
}
