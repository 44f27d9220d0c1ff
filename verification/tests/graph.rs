use graphkit::graph::{Graph, COULD_NOT_FLIP, NO_EDGE_LIST, NO_SUCH_EDGE};

#[test]
fn new_graph_is_empty() {
    let g: Graph<u64, u64, u64> = Graph::new();
    assert!(!g.contains(&1));
    assert_eq!(g.iter_nodes().len(), 0);
    assert_eq!(g.iter_edges().len(), 0);
}

#[test]
fn insert_node_overwrites_and_returns_previous() {
    let mut g: Graph<u64, &'static str, u64> = Graph::new();
    assert_eq!(g.insert_node(1, "first"), None);
    assert_eq!(g.insert_node(1, "second"), Some("first"));
    assert_eq!(g.get_node(&1), Some(&"second"));
}

#[test]
fn remove_node_returns_payload_and_keeps_edges() {
    let mut g: Graph<u64, u64, u64> = Graph::new();
    g.insert_node(1, 100);
    g.add_edge(1, 2, 7);
    assert_eq!(g.remove_node(&1), Some(100));
    assert_eq!(g.remove_node(&1), None);
    assert!(!g.contains(&1));
    // dangling adjacency survives node removal
    assert_eq!(g.edge_count(&1, &2), 1);
}

#[test]
fn contains_ignores_adjacency_only_identifiers() {
    let mut g: Graph<u64, u64, u64> = Graph::new();
    g.add_edge(1, 2, 7);
    assert!(!g.contains(&1));
    assert!(!g.contains(&2));
}

#[test]
fn edge_count_counts_parallel_edges() {
    let mut g: Graph<u64, u64, u64> = Graph::new();
    g.add_edge(1, 2, 7);
    assert_eq!(g.edge_count(&1, &2), 1);
    g.add_edge(1, 2, 8);
    g.add_edge(1, 2, 9);
    assert_eq!(g.edge_count(&1, &2), 3);
    assert_eq!(g.edge_count(&1, &3), 0);
    assert_eq!(g.edge_count(&4, &2), 0);
}

#[test]
fn self_loops_are_allowed() {
    let mut g: Graph<u64, u64, u64> = Graph::new();
    g.add_edge(1, 1, 7);
    assert_eq!(g.edge_count(&1, &1), 1);
    assert_eq!(g.get_edge(&1, &1), Some(&7));
}

#[test]
fn get_edge_returns_first_match_only() {
    let mut g: Graph<u64, u64, u64> = Graph::new();
    g.add_edge(1, 2, 7);
    g.add_edge(1, 3, 8);
    g.add_edge(1, 2, 9);
    assert_eq!(g.get_edge(&1, &2), Some(&7));
    assert_eq!(g.get_edge(&1, &3), Some(&8));
    assert_eq!(g.get_edge(&1, &4), None);
    assert_eq!(g.get_edge(&5, &2), None);
}

#[test]
fn get_adjacent_lists_destinations_in_order() {
    let mut g: Graph<u64, u64, u64> = Graph::new();
    g.add_edge(1, 2, 7);
    g.add_edge(1, 3, 8);
    g.add_edge(1, 2, 9);
    assert_eq!(g.get_adjacent(&1), vec![&2, &3, &2]);
}

#[test]
fn edges_from_hands_back_the_whole_entry() {
    let mut g: Graph<u64, u64, u64> = Graph::new();
    g.add_edge(1, 2, 7);
    g.add_edge(1, 3, 8);
    assert_eq!(g.edges_from(&1), Some(&vec![(2, 7), (3, 8)]));
    assert_eq!(g.edges_from(&2), None);
}

#[test]
fn remove_edges_deletes_only_the_named_destination() {
    let mut g: Graph<u64, u64, u64> = Graph::new();
    g.add_edge(1, 2, 7);
    g.add_edge(1, 3, 8);
    assert_eq!(g.remove_edges(1, &2), Ok(()));
    assert_eq!(g.edges_from_to(&1, &2), Some(vec![]));
    assert_eq!(g.edges_from_to(&1, &3), Some(vec![&8]));
}

#[test]
fn remove_edges_without_entry_reports_error() {
    let mut g: Graph<u64, u64, u64> = Graph::new();
    g.insert_node(1, 0);
    assert_eq!(g.remove_edges(1, &2), Err(NO_EDGE_LIST));
    assert_eq!(NO_EDGE_LIST, "Node does not have any edges!");
}

#[test]
fn remove_edges_with_no_match_is_a_no_op() {
    let mut g: Graph<u64, u64, u64> = Graph::new();
    g.add_edge(1, 3, 8);
    assert_eq!(g.remove_edges(1, &2), Ok(()));
    assert_eq!(g.edge_count(&1, &3), 1);
}

#[test]
fn remove_edge_deletes_every_matching_payload() {
    let mut g: Graph<u64, u64, u64> = Graph::new();
    g.add_edge(1, 2, 7);
    g.add_edge(1, 3, 7);
    g.add_edge(1, 4, 8);
    assert_eq!(g.remove_edge(1, &7), Ok(()));
    assert_eq!(g.edge_count(&1, &2), 0);
    assert_eq!(g.edge_count(&1, &3), 0);
    assert_eq!(g.edge_count(&1, &4), 1);
}

#[test]
fn remove_edge_without_entry_reports_error() {
    let mut g: Graph<u64, u64, u64> = Graph::new();
    assert_eq!(g.remove_edge(1, &7), Err(NO_SUCH_EDGE));
    assert_eq!(NO_SUCH_EDGE, "Node does not have specified edge!");
}

#[test]
fn edges_from_to_distinguishes_empty_from_absent() {
    let mut g: Graph<u64, u64, u64> = Graph::new();
    g.add_edge(1, 2, 7);
    g.add_edge(1, 2, 9);
    assert_eq!(g.edges_from_to(&1, &2), Some(vec![&7, &9]));
    assert_eq!(g.edges_from_to(&1, &3), Some(vec![]));
    assert_eq!(g.edges_from_to(&4, &2), None);
}

#[test]
fn push_undirected_edge_makes_two_independent_edges() {
    let mut g: Graph<u64, u64, u64> = Graph::new();
    g.push_undirected_edge(1, 2, 7);
    assert_eq!(g.edge_count(&1, &2), 1);
    assert_eq!(g.edge_count(&2, &1), 1);
    assert_eq!(g.remove_edge(1, &7), Ok(()));
    assert_eq!(g.edge_count(&1, &2), 0);
    assert_eq!(g.get_edge(&2, &1), Some(&7));
}

#[test]
fn flip_edge_reverses_a_single_edge() {
    let mut g: Graph<u64, u64, u64> = Graph::new();
    g.add_edge(1, 2, 7);
    assert_eq!(g.flip_edge(1, 2, 7), Ok(()));
    assert_eq!(g.edge_count(&1, &2), 0);
    assert_eq!(g.edge_count(&2, &1), 1);
    assert_eq!(g.flip_edge(2, 1, 7), Ok(()));
    assert_eq!(g.edge_count(&1, &2), 1);
    assert_eq!(g.edge_count(&2, &1), 0);
}

#[test]
fn flip_edge_removes_every_matching_payload_first() {
    let mut g: Graph<u64, u64, u64> = Graph::new();
    g.add_edge(1, 2, 7);
    g.add_edge(1, 3, 7);
    assert_eq!(g.flip_edge(1, 2, 7), Ok(()));
    // both payload-7 edges out of 1 were collaterally removed
    assert_eq!(g.edge_count(&1, &2), 0);
    assert_eq!(g.edge_count(&1, &3), 0);
    assert_eq!(g.edge_count(&2, &1), 1);
}

#[test]
fn flip_edge_without_entry_reports_error() {
    let mut g: Graph<u64, u64, u64> = Graph::new();
    g.add_edge(3, 4, 7);
    assert_eq!(g.flip_edge(1, 2, 7), Err(COULD_NOT_FLIP));
    assert_eq!(g.edge_count(&3, &4), 1);
    assert_eq!(
        COULD_NOT_FLIP,
        "Could not flip the edge, invalid edge or node provided."
    );
}

#[test]
fn iter_nodes_lists_every_stored_node() {
    let mut g: Graph<u64, u64, u64> = Graph::new();
    g.insert_node(1, 10);
    g.insert_node(2, 20);
    let mut seen: Vec<(u64, u64)> = g.iter_nodes().into_iter().map(|(k, v)| (*k, *v)).collect();
    seen.sort();
    assert_eq!(seen, vec![(1, 10), (2, 20)]);
}

#[test]
fn iter_edges_lists_every_adjacency_entry() {
    let mut g: Graph<u64, u64, u64> = Graph::new();
    g.add_edge(1, 2, 7);
    g.add_edge(3, 1, 8);
    let mut seen: Vec<(u64, Vec<(u64, u64)>)> =
        g.iter_edges().into_iter().map(|(k, v)| (*k, v.clone())).collect();
    seen.sort();
    assert_eq!(seen, vec![(1, vec![(2, 7)]), (3, vec![(1, 8)])]);
}

#[test]
fn graph_works_with_unit_payloads() {
    let mut g: Graph<u64> = Graph::new();
    g.insert_node(1, ());
    g.add_edge(1, 2, ());
    assert!(g.contains(&1));
    assert_eq!(g.edge_count(&1, &2), 1);
}
