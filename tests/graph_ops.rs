use multigraph::{dfs, AdjacencyGraph, Graph};

#[test]
fn add_node() {
    let mut g: AdjacencyGraph<i64, i64> = AdjacencyGraph::new();
    if g.node_count() != 0 {
        panic!("The graph is not empty");
    }

    g.add_node(1);
    if g.node_count() != 1 {
        panic!("Node not added");
    }
}

#[test]
fn add_node_string() {
    let mut g: AdjacencyGraph<&str, i64> = AdjacencyGraph::new();
    if g.node_count() != 0 {
        panic!("The graph is not empty");
    }

    g.add_node("Hii");
    if g.node_count() != 1 {
        panic!("Node not added");
    }
}

#[test]
fn add_edge() {
    let mut g: AdjacencyGraph<i64, i64> = AdjacencyGraph::new();
    if g.edge_count() != 0 {
        panic!("The graph is not empty");
    }

    g.add_node(0);
    g.add_node(1);
    g.add_edge(0, 1, 1).unwrap();

    if g.edge_count() != 1 {
        panic!("Not one edge");
    }
}

#[test]
fn add_edge_string() {
    let mut g: AdjacencyGraph<&str, i64> = AdjacencyGraph::new();
    println!("Count: {:?}", g.edge_count());
    if g.edge_count() != 0 {
        panic!("The graph is not empty");
    }

    g.add_node("a");
    g.add_node("b");
    g.add_edge("a", "b", 1).unwrap();

    if g.edge_count() != 1 {
        panic!("Not one edge");
    }
}

#[test]
fn dfs_test() {
    let mut g: AdjacencyGraph<i64, i64> = AdjacencyGraph::new();
    g.add_node(0);
    g.add_node(1);
    g.add_node(2);
    g.add_edge(0, 1, 1).unwrap();
    g.add_edge(1, 2, 1).unwrap();
    g.add_edge(2, 0, 1).unwrap();

    let nodes = dfs(&g, 0);
    assert_eq!(nodes.len(), 3, "Wrong number of elements visited");
    assert_eq!(nodes, vec![0, 1, 2], "Wrong elements");
}
