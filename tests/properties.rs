use multigraph::{dfs, dfs_pruned, AdjacencyGraph, Graph, GraphError};

fn ints() -> AdjacencyGraph<u64, u64> {
    AdjacencyGraph::new()
}

#[test]
fn distinct_nodes_are_counted_once_each() {
    let mut g = ints();
    for n in 0..10u64 {
        g.add_node(n);
        assert_eq!(g.node_count(), (n + 1) as usize);
    }
    g.add_node(3);
    g.add_node(9);
    assert_eq!(g.node_count(), 10);
}

#[test]
fn re_adding_a_node_drops_its_edges() {
    let mut g = ints();
    g.add_node(1);
    g.add_node(2);
    g.add_edge(1, 2, 7).unwrap();
    g.add_edge(1, 1, 8).unwrap();
    assert_eq!(g.edge_count(), 2);
    g.add_node(1);
    assert_eq!(g.node_count(), 2);
    assert_eq!(g.edge_count(), 0);
    assert!(g.children(&1).is_empty());
}

#[test]
fn edges_are_counted_once_each() {
    let mut g = ints();
    g.add_node(0);
    g.add_node(1);
    for m in 0..6u64 {
        g.add_edge(m % 2, 5 - m % 2, m).unwrap();
        assert_eq!(g.edge_count(), (m + 1) as usize);
    }
    // Parallel edges and self loops count too.
    g.add_edge(0, 0, 100).unwrap();
    g.add_edge(0, 0, 100).unwrap();
    assert_eq!(g.edge_count(), 8);
    assert_eq!(g.node_count(), 2);
}

#[test]
fn edge_from_absent_source_is_refused() {
    let mut g = ints();
    assert_eq!(g.add_edge(4, 5, 1), Err(GraphError::InvalidSource));
    g.add_node(5);
    g.add_edge(5, 4, 2).unwrap();
    assert_eq!(g.add_edge(4, 5, 1), Err(GraphError::InvalidSource));
    assert_eq!(g.node_count(), 1);
    assert_eq!(g.edge_count(), 1);
    assert!(!g.contains_node(&4));
    assert!(g.contains_node(&5));
}

#[test]
fn dangling_targets_are_kept() {
    let mut g = ints();
    g.add_node(1);
    g.add_edge(1, 42, 0).unwrap();
    assert_eq!(g.node_count(), 1);
    assert_eq!(g.edge_count(), 1);
    assert_eq!(g.children(&1).to_vec(), vec![(42, 0)]);
    assert_eq!(dfs(&g, 1), vec![1, 42]);
}

#[test]
fn children_keep_insertion_order() {
    let mut g = ints();
    g.add_node(1);
    g.add_edge(1, 3, 30).unwrap();
    g.add_edge(1, 2, 20).unwrap();
    g.add_edge(1, 3, 31).unwrap();
    assert_eq!(g.children(&1).to_vec(), vec![(3, 30), (2, 20), (3, 31)]);
}

#[test]
fn children_of_childless_and_absent_nodes_are_empty() {
    let mut g = ints();
    g.add_node(1);
    assert!(g.children(&1).is_empty());
    assert!(g.children(&2).is_empty());
    // The two cases are told apart by the existence check alone.
    assert!(g.contains_node(&1));
    assert!(!g.contains_node(&2));
}

#[test]
fn counts_do_not_change_without_mutation() {
    let mut g = ints();
    g.add_node(1);
    g.add_node(2);
    g.add_edge(1, 2, 0).unwrap();
    let (n, m) = (g.node_count(), g.edge_count());
    for _ in 0..3 {
        assert_eq!(g.node_count(), n);
        assert_eq!(g.edge_count(), m);
    }
    assert_eq!((n, m), (2, 1));
}

#[test]
fn nodes_lists_each_node_once() {
    let mut g = ints();
    for n in [5u64, 3, 5, 8, 3] {
        g.add_node(n);
    }
    let mut all = g.nodes();
    all.sort();
    assert_eq!(all, vec![3, 5, 8]);
}

#[test]
fn dfs_visits_exactly_the_reachable_nodes() {
    let mut g = ints();
    for n in 0..7u64 {
        g.add_node(n);
    }
    g.add_edge(0, 1, 0).unwrap();
    g.add_edge(0, 2, 0).unwrap();
    g.add_edge(1, 3, 0).unwrap();
    g.add_edge(3, 0, 0).unwrap();
    g.add_edge(2, 3, 0).unwrap();
    g.add_edge(4, 0, 0).unwrap();
    g.add_edge(5, 6, 0).unwrap();
    let order = dfs(&g, 0);
    assert_eq!(order, vec![0, 1, 3, 2]);
    assert_eq!(dfs(&g, 4), vec![4, 0, 1, 3, 2]);
    assert_eq!(dfs(&g, 5), vec![5, 6]);
}

#[test]
fn dfs_follows_recursive_preorder() {
    let mut g = ints();
    for n in 0..4u64 {
        g.add_node(n);
    }
    g.add_edge(0, 1, 0).unwrap();
    g.add_edge(0, 2, 0).unwrap();
    g.add_edge(1, 2, 0).unwrap();
    g.add_edge(1, 3, 0).unwrap();
    assert_eq!(dfs(&g, 0), vec![0, 1, 2, 3]);
}

#[test]
fn dfs_from_childless_or_absent_node_visits_it_alone() {
    let mut g = ints();
    g.add_node(1);
    g.add_node(2);
    g.add_edge(2, 1, 0).unwrap();
    assert_eq!(dfs(&g, 1), vec![1]);
    assert_eq!(dfs(&g, 9), vec![9]);
}

#[test]
fn dfs_on_a_cycle_in_insertion_order() {
    let mut g = ints();
    g.add_node(0);
    g.add_node(1);
    g.add_node(2);
    g.add_edge(0, 1, 1).unwrap();
    g.add_edge(1, 2, 1).unwrap();
    g.add_edge(2, 0, 1).unwrap();
    assert_eq!(dfs(&g, 0), vec![0, 1, 2]);
    assert_eq!(dfs(&g, 2), vec![2, 0, 1]);
}

#[test]
fn string_scenario() {
    let mut g: AdjacencyGraph<&str, u64> = AdjacencyGraph::new();
    assert_eq!(g.node_count(), 0);
    assert_eq!(g.edge_count(), 0);
    g.add_node("a");
    g.add_node("b");
    assert_eq!(g.node_count(), 2);
    g.add_edge("a", "b", 1).unwrap();
    assert_eq!(g.edge_count(), 1);
    assert_eq!(dfs(&g, "a"), vec!["a", "b"]);
}

#[test]
fn edges_list_every_edge_with_its_source() {
    let mut g = ints();
    g.add_node(1);
    g.add_node(2);
    g.add_node(3);
    g.add_edge(1, 2, 10).unwrap();
    g.add_edge(1, 3, 11).unwrap();
    g.add_edge(2, 2, 12).unwrap();
    g.add_edge(1, 2, 13).unwrap();
    let edges: Vec<(u64, u64, u64)> = g.edges().into_iter().map(|(s, t, e)| (s, t, *e)).collect();
    assert_eq!(edges.len(), g.edge_count());
    let from_one: Vec<(u64, u64, u64)> = edges.iter().copied().filter(|e| e.0 == 1).collect();
    assert_eq!(from_one, vec![(1, 2, 10), (1, 3, 11), (1, 2, 13)]);
    let mut sorted = edges.clone();
    sorted.sort();
    assert_eq!(sorted, vec![(1, 2, 10), (1, 2, 13), (1, 3, 11), (2, 2, 12)]);
}

#[test]
fn edges_of_an_empty_graph() {
    let mut g = ints();
    assert!(g.edges().is_empty());
    g.add_node(7);
    assert!(g.edges().is_empty());
}

#[test]
fn pruned_dfs_skips_below_refused_nodes() {
    let mut g = ints();
    for n in 0..5u64 {
        g.add_node(n);
    }
    g.add_edge(0, 1, 0).unwrap();
    g.add_edge(1, 2, 0).unwrap();
    g.add_edge(0, 3, 0).unwrap();
    g.add_edge(3, 4, 0).unwrap();
    let visits = dfs_pruned(&g, 0, |n: u64| n != 1);
    assert_eq!(visits, vec![(0, true), (1, false), (3, true), (4, true)]);
}

#[test]
fn pruned_dfs_refusing_the_source_visits_it_alone() {
    let mut g = ints();
    g.add_node(0);
    g.add_node(1);
    g.add_edge(0, 1, 0).unwrap();
    assert_eq!(dfs_pruned(&g, 0, |_n: u64| false), vec![(0, false)]);
    assert_eq!(dfs_pruned(&g, 0, |_n: u64| true), vec![(0, true), (1, true)]);
}

#[test]
fn pruned_dfs_reaches_a_node_by_another_branch() {
    let mut g = ints();
    for n in 0..4u64 {
        g.add_node(n);
    }
    g.add_edge(0, 1, 0).unwrap();
    g.add_edge(1, 3, 0).unwrap();
    g.add_edge(0, 2, 0).unwrap();
    g.add_edge(2, 3, 0).unwrap();
    let visits = dfs_pruned(&g, 0, |n: u64| n != 1);
    assert_eq!(visits, vec![(0, true), (1, false), (2, true), (3, true)]);
}
