use untangle::graph::TopologyGraph;

fn sorted(mut v: Vec<u64>) -> Vec<u64> {
    v.sort();
    v
}

fn sorted_pairs(mut v: Vec<(u64, u64)>) -> Vec<(u64, u64)> {
    v.sort();
    v
}

#[test]
fn new_graph_is_empty() {
    let g = TopologyGraph::new();
    assert_eq!(g.node_count(), 0);
    assert_eq!(g.edge_count(), 0);
    assert!(g.nodes().is_empty());
    assert!(g.edges().is_empty());
    assert!(!g.contains_node(0));
    assert!(!g.contains_edge(0, 1));
}

#[test]
fn add_node_is_idempotent() {
    let mut g = TopologyGraph::new();
    g.add_node(3);
    g.add_node(3);
    g.add_node(9);
    assert_eq!(g.node_count(), 2);
    assert_eq!(sorted(g.nodes()), vec![3, 9]);
    assert_eq!(g.degree(3), 0);
    assert!(g.neighbors(3).is_empty());
}

#[test]
fn add_edge_makes_nodes_and_has_no_direction() {
    let mut g = TopologyGraph::new();
    assert!(g.add_edge(7, 2));
    assert_eq!(sorted(g.nodes()), vec![2, 7]);
    assert!(g.contains_edge(7, 2));
    assert!(g.contains_edge(2, 7));
    assert_eq!(g.edges(), vec![(2, 7)]);
    assert_eq!(g.neighbors(2), vec![7]);
    assert_eq!(g.neighbors(7), vec![2]);
}

#[test]
fn add_edge_refuses_self_loops_and_duplicates() {
    let mut g = TopologyGraph::new();
    assert!(!g.add_edge(4, 4));
    assert_eq!(g.node_count(), 0);
    assert!(g.add_edge(1, 2));
    assert!(!g.add_edge(1, 2));
    assert!(!g.add_edge(2, 1));
    assert_eq!(g.edge_count(), 1);
    assert_eq!(g.degree(1), 1);
    assert_eq!(g.degree(2), 1);
}

#[test]
fn remove_node_takes_its_edges() {
    let mut g = TopologyGraph::new();
    g.add_edge(1, 2);
    g.add_edge(2, 3);
    g.add_edge(3, 1);
    assert!(g.remove_node(2));
    assert!(!g.remove_node(2));
    assert_eq!(sorted(g.nodes()), vec![1, 3]);
    assert_eq!(g.edges(), vec![(1, 3)]);
    assert_eq!(g.degree(1), 1);
    assert!(!g.contains_edge(1, 2));
}

#[test]
fn degree_counts_neighbours() {
    let mut g = TopologyGraph::new();
    for k in 1..=5 {
        g.add_edge(0, k);
    }
    assert_eq!(g.degree(0), 5);
    assert_eq!(sorted(g.neighbors(0)), vec![1, 2, 3, 4, 5]);
    assert_eq!(g.degree(3), 1);
    assert_eq!(g.degree(77), 0);
}

#[test]
fn edges_are_listed_once_smaller_end_first() {
    let mut g = TopologyGraph::new();
    g.add_edge(5, 1);
    g.add_edge(1, 5);
    g.add_edge(9, 5);
    g.add_edge(1, 9);
    let edges = g.edges();
    assert_eq!(sorted_pairs(edges.clone()), vec![(1, 5), (1, 9), (5, 9)]);
    for (i, e) in edges.iter().enumerate() {
        assert!(e.0 < e.1);
        for f in &edges[i + 1..] {
            assert_ne!(e, f);
        }
    }
}

#[test]
fn a_clone_is_a_graph_of_its_own() {
    let mut g = TopologyGraph::new();
    g.add_edge(1, 2);
    let kept = g.clone();
    g.add_edge(2, 3);
    g.remove_node(1);
    assert_eq!(sorted(kept.nodes()), vec![1, 2]);
    assert_eq!(kept.edges(), vec![(1, 2)]);
    assert_eq!(sorted(g.nodes()), vec![2, 3]);
}
