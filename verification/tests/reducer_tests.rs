use rand::rngs::StdRng;
use rand::SeedableRng;
use untangle::builder::Arrangement;
use untangle::graph::TopologyGraph;
use untangle::reducer::contract;
use untangle::reducer::contract_step;
use untangle::reducer::degree_weight;
use untangle::reducer::degree_weighted_random;
use untangle::reducer::degree_weights;
use untangle::reducer::make_network;
use untangle::reducer::merge_nodes;
use untangle::reducer::prune;
use untangle::reducer::Contraction;
use untangle::reducer::PreviousGraphs;

fn sorted(mut v: Vec<u64>) -> Vec<u64> {
    v.sort();
    v
}

fn sorted_pairs(mut v: Vec<(u64, u64)>) -> Vec<(u64, u64)> {
    v.sort();
    v
}

fn graph_of(nodes: &[u64], edges: &[(u64, u64)]) -> TopologyGraph {
    let mut g = TopologyGraph::new();
    for n in nodes {
        g.add_node(*n);
    }
    for (a, b) in edges {
        assert!(g.add_edge(*a, *b));
    }
    g
}

fn path_graph(n: u64) -> TopologyGraph {
    let nodes: Vec<u64> = (0..n).collect();
    let edges: Vec<(u64, u64)> = (1..n).map(|i| (i - 1, i)).collect();
    graph_of(&nodes, &edges)
}

fn same_graph(a: &TopologyGraph, b: &TopologyGraph) -> bool {
    sorted(a.nodes()) == sorted(b.nodes()) && sorted_pairs(a.edges()) == sorted_pairs(b.edges())
}

#[test]
fn weight_is_the_whole_part_of_the_binary_logarithm() {
    let expected = [
        (0, 0),
        (1, 0),
        (2, 1),
        (3, 1),
        (4, 2),
        (5, 2),
        (7, 2),
        (8, 3),
        (15, 3),
        (16, 4),
        (1000, 9),
        (1024, 10),
    ];
    for (degree, weight) in expected {
        assert_eq!(degree_weight(degree), weight, "degree {degree}");
    }
    assert_eq!(degree_weight(usize::MAX), usize::BITS - 1);
    for degree in 1..5000usize {
        assert_eq!(degree_weight(degree), degree.ilog2());
    }
}

#[test]
fn weights_follow_the_list() {
    // A star with centre 0 and four rays, and a node on its own.
    let g = graph_of(&[9], &[(0, 1), (0, 2), (0, 3), (0, 4), (1, 2)]);
    assert_eq!(degree_weights(&g, &vec![0, 1, 2, 3, 9, 77]), vec![2, 1, 1, 0, 0, 0]);
    assert!(degree_weights(&g, &vec![]).is_empty());
}

#[test]
fn nothing_is_drawn_from_an_empty_list() {
    let g = path_graph(3);
    let mut rng = StdRng::seed_from_u64(1);
    assert_eq!(degree_weighted_random(&g, &mut rng, &vec![]), None);
}

#[test]
fn a_node_of_weight_zero_is_not_drawn_while_another_has_weight() {
    // In a path of three only the middle node has two edges.
    let g = path_graph(3);
    for seed in 0..200 {
        let mut rng = StdRng::seed_from_u64(seed);
        assert_eq!(degree_weighted_random(&g, &mut rng, &vec![0, 1, 2]), Some(1));
        assert_eq!(degree_weighted_random(&g, &mut rng, &vec![2, 0, 1]), Some(1));
    }
}

#[test]
fn with_all_weights_zero_every_node_can_be_drawn() {
    let g = path_graph(2);
    let mut seen = [false, false];
    for seed in 0..200 {
        let mut rng = StdRng::seed_from_u64(seed);
        let drawn = degree_weighted_random(&g, &mut rng, &vec![0, 1]).unwrap();
        seen[drawn as usize] = true;
    }
    assert_eq!(seen, [true, true]);
}

#[test]
fn heavier_nodes_are_drawn_more_often() {
    // Node 0 has degree 4 (weight 2), node 5 has degree 2 (weight 1).
    let g = graph_of(&[], &[(0, 1), (0, 2), (0, 3), (0, 4), (5, 1), (5, 2)]);
    let mut rng = StdRng::seed_from_u64(42);
    let mut heavy = 0;
    let rounds = 3000;
    for _ in 0..rounds {
        match degree_weighted_random(&g, &mut rng, &vec![5, 0]) {
            Some(0) => heavy += 1,
            Some(5) => {}
            other => panic!("drew {other:?}"),
        }
    }
    // Two thirds of the draws, give or take.
    assert!(heavy > rounds * 6 / 10 && heavy < rounds * 73 / 100, "{heavy}");
}

#[test]
fn pruning_removes_loose_nodes_in_one_pass() {
    // A triangle with a tail of two nodes, and a node on its own.
    let g = graph_of(&[9], &[(1, 2), (2, 3), (3, 1), (3, 4), (4, 5)]);
    let pruned = prune(&g);
    // 5 hangs on one edge and 9 on none. 4 had two edges when the pass began, so it stays.
    assert_eq!(sorted(pruned.nodes()), vec![1, 2, 3, 4]);
    assert_eq!(sorted_pairs(pruned.edges()), vec![(1, 2), (1, 3), (2, 3), (3, 4)]);
    assert_eq!(pruned.degree(4), 1);
    // The graph handed in is untouched.
    assert_eq!(g.node_count(), 6);
}

#[test]
fn pruning_a_path_of_three_leaves_its_middle_alone() {
    let pruned = prune(&path_graph(3));
    assert_eq!(pruned.nodes(), vec![1]);
    assert_eq!(pruned.edge_count(), 0);
    assert_eq!(pruned.degree(1), 0);
}

#[test]
fn pruning_keeps_a_graph_without_loose_nodes() {
    let g = graph_of(&[], &[(1, 2), (2, 3), (3, 4), (4, 1), (1, 3)]);
    let pruned = prune(&g);
    assert!(same_graph(&g, &pruned));
    for n in pruned.nodes() {
        assert!(pruned.degree(n) >= 2);
    }
}

#[test]
fn pruning_can_empty_a_graph() {
    assert_eq!(prune(&path_graph(2)).node_count(), 0);
    assert_eq!(prune(&TopologyGraph::new()).node_count(), 0);
    assert_eq!(prune(&graph_of(&[1, 2, 3], &[])).node_count(), 0);
}

#[test]
fn merging_redirects_edges_without_doubling_them() {
    // 2 is joined to 1, 3, 4 and 5; 1 is joined to 3 already.
    let mut g = graph_of(&[], &[(1, 2), (2, 3), (2, 4), (2, 5), (1, 3), (5, 6)]);
    merge_nodes(&mut g, 1, 2);
    assert_eq!(sorted(g.nodes()), vec![1, 3, 4, 5, 6]);
    assert_eq!(sorted_pairs(g.edges()), vec![(1, 3), (1, 4), (1, 5), (5, 6)]);
}

#[test]
fn merging_into_a_larger_id_keeps_edges_ordered() {
    let mut g = graph_of(&[], &[(8, 2), (2, 3), (2, 9)]);
    merge_nodes(&mut g, 8, 2);
    assert_eq!(sorted_pairs(g.edges()), vec![(3, 8), (8, 9)]);
}

#[test]
fn merging_nodes_that_are_not_joined_still_redirects() {
    let mut g = graph_of(&[], &[(1, 5), (2, 6)]);
    merge_nodes(&mut g, 1, 2);
    assert_eq!(sorted(g.nodes()), vec![1, 5, 6]);
    assert_eq!(sorted_pairs(g.edges()), vec![(1, 5), (1, 6)]);
}

#[test]
fn a_step_merges_or_deletes() {
    let mut g = graph_of(&[7], &[(1, 2), (2, 3)]);
    let step = contract_step(&mut g, 2, Some(3));
    assert_eq!(step, Contraction::Merged { target: 2, other: 3 });
    assert_eq!(step.removed(), 3);
    assert_eq!(sorted(g.nodes()), vec![1, 2, 7]);
    assert_eq!(g.edges(), vec![(1, 2)]);
    let step = contract_step(&mut g, 7, None);
    assert_eq!(step, Contraction::Deleted { node: 7 });
    assert_eq!(step.removed(), 7);
    assert_eq!(sorted(g.nodes()), vec![1, 2]);
}

#[test]
fn path_of_five_contracts_to_two_connected_nodes() {
    for seed in 0..50u64 {
        let mut rng = StdRng::seed_from_u64(seed);
        let reduction = contract(path_graph(5), 2, &mut rng);
        assert_eq!(reduction.graph.node_count(), 2);
        let nodes = reduction.graph.nodes();
        assert!(reduction.graph.contains_edge(nodes[0], nodes[1]));
        assert_eq!(reduction.graph.edge_count(), 1);
        assert_eq!(reduction.previous.len(), 3);
        assert_eq!(reduction.previous.node_counts(), vec![5, 4, 3]);
        assert_eq!(reduction.steps.len(), 3);
    }
}

#[test]
fn contraction_takes_one_node_per_step_and_stops_at_the_limit() {
    let edges = [(0, 1), (1, 2), (2, 3), (3, 0), (0, 2), (4, 5), (5, 6), (6, 4), (3, 4)];
    for seed in 0..20u64 {
        for limit in 0..9usize {
            let mut rng = StdRng::seed_from_u64(seed);
            let reduction = contract(graph_of(&[7], &edges), limit, &mut rng);
            let steps = 8usize.saturating_sub(limit);
            assert_eq!(reduction.graph.node_count(), 8.min(limit));
            assert_eq!(reduction.steps.len(), steps);
            assert_eq!(reduction.previous.len(), steps);
            let counts: Vec<usize> = (0..steps).map(|k| 8 - k).collect();
            assert_eq!(reduction.previous.node_counts(), counts);
        }
    }
}

#[test]
fn contraction_does_nothing_at_or_under_the_limit() {
    let mut rng = StdRng::seed_from_u64(3);
    let reduction = contract(path_graph(4), 4, &mut rng);
    assert!(same_graph(&reduction.graph, &path_graph(4)));
    assert!(reduction.previous.is_empty());
    assert!(reduction.steps.is_empty());
    let reduction = contract(path_graph(4), 100, &mut rng);
    assert!(same_graph(&reduction.graph, &path_graph(4)));
    assert!(reduction.previous.is_empty());
}

#[test]
fn nodes_without_neighbours_are_deleted_and_still_count() {
    let mut rng = StdRng::seed_from_u64(5);
    let reduction = contract(graph_of(&[1, 2, 3, 4], &[]), 1, &mut rng);
    assert_eq!(reduction.graph.node_count(), 1);
    assert_eq!(reduction.previous.node_counts(), vec![4, 3, 2]);
    assert_eq!(reduction.steps.len(), 3);
    for step in &reduction.steps {
        assert!(matches!(step, Contraction::Deleted { .. }));
    }
}

#[test]
fn every_step_leads_from_one_kept_graph_to_the_next() {
    let edges = [(0, 1), (1, 2), (2, 3), (3, 0), (0, 2), (4, 5), (5, 6), (6, 4), (3, 4)];
    for seed in 0..20u64 {
        let mut rng = StdRng::seed_from_u64(seed);
        let reduction = contract(graph_of(&[], &edges), 2, &mut rng);
        for (k, step) in reduction.steps.iter().enumerate() {
            let mut replay = reduction.previous.get(k).unwrap().clone();
            match *step {
                Contraction::Merged { target, other } => {
                    assert!(replay.contains_edge(target, other));
                    merge_nodes(&mut replay, target, other);
                }
                Contraction::Deleted { node } => {
                    assert_eq!(replay.degree(node), 0);
                    assert!(replay.remove_node(node));
                }
            }
            let next = reduction.previous.get(k + 1).unwrap_or(&reduction.graph);
            assert!(same_graph(&replay, next));
        }
        assert!(reduction.previous.get(reduction.steps.len()).is_none());
    }
}

#[test]
fn growing_back_restores_the_graph_that_contraction_began_with() {
    let edges = [(0, 1), (1, 2), (2, 3), (3, 0), (0, 2), (4, 5), (5, 6), (6, 4), (3, 4)];
    let start = graph_of(&[], &edges);
    let mut rng = StdRng::seed_from_u64(11);
    let mut reduction = contract(start.clone(), 3, &mut rng);
    let mut current = reduction.graph;
    let mut size = 3;
    while let Some(bigger) = reduction.previous.bigger_graph() {
        size += 1;
        assert_eq!(bigger.node_count(), size);
        current = bigger;
    }
    assert_eq!(size, 7);
    assert!(same_graph(&current, &start));
    assert!(reduction.previous.is_empty());
    assert!(reduction.previous.bigger_graph().is_none());
}

#[test]
fn an_empty_history_has_nothing_to_give() {
    let mut history = PreviousGraphs::new();
    assert!(history.is_empty());
    assert_eq!(history.len(), 0);
    assert!(history.bigger_graph().is_none());
    assert!(history.node_counts().is_empty());
    history.clear();
    assert!(history.is_empty());
}

#[test]
fn contraction_repeats_with_the_same_seed() {
    let edges = [(0, 1), (1, 2), (2, 3), (3, 0), (0, 2), (4, 5), (5, 6), (6, 4), (3, 4)];
    let first = contract(graph_of(&[], &edges), 3, &mut StdRng::seed_from_u64(99));
    let second = contract(graph_of(&[], &edges), 3, &mut StdRng::seed_from_u64(99));
    assert_eq!(first.steps, second.steps);
    assert!(same_graph(&first.graph, &second.graph));
}

#[test]
fn a_network_of_four_circles() {
    let rows = vec![vec![0, 1, 2, 3], vec![1, 0, 2, 3], vec![1, 2, 0, 3], vec![1, 2, 3, 0]];
    let arrangement = Arrangement::from_rows(rows).unwrap();
    for seed in 0..20u64 {
        let mut rng = StdRng::seed_from_u64(seed);
        let network = make_network(&arrangement, 3, &mut rng);
        assert_eq!(network.graph.node_count(), 3);
        assert_eq!(network.previous.node_counts(), vec![6, 5, 4]);
        // The oldest graph is the pruned topology: all six meetings, each with two edges or more.
        let oldest = network.previous.get(0).unwrap();
        assert_eq!(sorted(oldest.nodes()), vec![1, 2, 3, 6, 7, 11]);
        assert_eq!(oldest.edge_count(), 8);
        for n in oldest.nodes() {
            assert!(oldest.degree(n) >= 2);
        }
    }
}

#[test]
fn a_default_history_is_empty() {
    let history = PreviousGraphs::default();
    assert!(history.is_empty());
    assert!(history.get(0).is_none());
}

fn shared_between_threads<T: Send + Sync + 'static>() {}

#[test]
fn graphs_and_histories_can_be_shared_between_threads() {
    shared_between_threads::<TopologyGraph>();
    shared_between_threads::<PreviousGraphs>();
    shared_between_threads::<Arrangement>();
    shared_between_threads::<Contraction>();
}

fn in_one_piece(g: &TopologyGraph) -> bool {
    let nodes = g.nodes();
    let Some(first) = nodes.first() else {
        return true;
    };
    let mut reached = vec![*first];
    let mut next = 0;
    while next < reached.len() {
        for k in g.neighbors(reached[next]) {
            if !reached.contains(&k) {
                reached.push(k);
            }
        }
        next += 1;
    }
    reached.len() == nodes.len()
}

#[test]
fn a_graph_in_one_piece_stays_in_one_piece() {
    let edges = [(0, 1), (1, 2), (2, 3), (3, 0), (0, 2), (4, 5), (5, 6), (6, 4), (3, 4), (6, 7)];
    for seed in 0..30u64 {
        let mut rng = StdRng::seed_from_u64(seed);
        let reduction = contract(graph_of(&[], &edges), 1, &mut rng);
        assert_eq!(reduction.graph.node_count(), 1);
        for (k, step) in reduction.steps.iter().enumerate() {
            assert!(matches!(step, Contraction::Merged { .. }));
            assert!(in_one_piece(reduction.previous.get(k).unwrap()));
        }
        let mut rng = StdRng::seed_from_u64(seed);
        let reduction = contract(graph_of(&[], &edges), 0, &mut rng);
        assert_eq!(reduction.graph.node_count(), 0);
        let last = reduction.steps.len() - 1;
        for (k, step) in reduction.steps.iter().enumerate() {
            assert_eq!(matches!(step, Contraction::Deleted { .. }), k == last);
        }
    }
}
