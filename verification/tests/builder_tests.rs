use untangle::builder::make_graph;
use untangle::builder::Arrangement;
use untangle::builder::IntersectionKey;
use untangle::reducer::prune;

fn sorted_pairs(mut v: Vec<(u64, u64)>) -> Vec<(u64, u64)> {
    v.sort();
    v
}

fn key(a: usize, b: usize, circles: usize) -> u64 {
    IntersectionKey::new(a, b).node_id(circles)
}

#[test]
fn keys_are_ordered_pairs() {
    assert_eq!(IntersectionKey::new(4, 1), IntersectionKey { low: 1, high: 4 });
    assert_eq!(IntersectionKey::new(1, 4), IntersectionKey { low: 1, high: 4 });
    assert_eq!(IntersectionKey::new(1, 4).node_id(10), 14);
    assert_eq!(IntersectionKey::new(4, 1).node_id(5), 9);
}

#[test]
fn node_ids_are_unique_per_key() {
    let circles = 9;
    let mut seen = std::collections::HashSet::new();
    for a in 0..circles {
        for b in a + 1..circles {
            assert!(seen.insert(key(a, b, circles)));
            assert_eq!(key(a, b, circles), key(b, a, circles));
        }
    }
}

#[test]
fn rows_must_form_a_square() {
    assert!(Arrangement::from_rows(vec![]).is_some());
    assert!(Arrangement::from_rows(vec![vec![0]]).is_some());
    assert!(Arrangement::from_rows(vec![vec![0, 1], vec![1]]).is_none());
    assert!(Arrangement::from_rows(vec![vec![0, 1, 2], vec![1, 0, 2]]).is_none());
    assert!(Arrangement::from_rows(vec![vec![]]).is_none());
    let arrangement = Arrangement::from_rows(vec![vec![0, 5], vec![7, 0]]).unwrap();
    assert_eq!(arrangement.circle_count(), 2);
    assert_eq!(arrangement.arc(0, 1), 5);
    assert_eq!(arrangement.arc(1, 0), 7);
}

#[test]
fn circles_are_walked_in_the_order_of_their_keys() {
    let arrangement = Arrangement::from_rows(vec![
        vec![0, 30, 10, 20],
        vec![5, 0, 5, 5],
        vec![0, 0, 0, 0],
        vec![9, 8, 7, 0],
    ])
    .unwrap();
    assert_eq!(arrangement.first_on(0), Some(2));
    assert_eq!(arrangement.next_on(0, 2), Some(3));
    assert_eq!(arrangement.next_on(0, 3), Some(1));
    assert_eq!(arrangement.next_on(0, 1), None);
    assert_eq!(arrangement.first_on(3), Some(2));
    assert_eq!(arrangement.next_on(3, 2), Some(1));
    assert_eq!(arrangement.next_on(3, 1), Some(0));
    assert_eq!(arrangement.next_on(3, 0), None);
    let lone = Arrangement::from_rows(vec![vec![4]]).unwrap();
    assert_eq!(lone.first_on(0), None);
}

#[test]
fn coincident_meetings_are_found_and_named() {
    let fine =
        Arrangement::from_rows(vec![vec![7, 7, 8], vec![1, 1, 2], vec![3, 4, 3]]).unwrap();
    assert_eq!(fine.find_coincident(), None);
    let clash = Arrangement::from_rows(vec![
        vec![0, 1, 2, 3],
        vec![1, 0, 2, 3],
        vec![6, 2, 0, 6],
        vec![1, 2, 3, 0],
    ])
    .unwrap();
    assert_eq!(
        clash.find_coincident(),
        Some((IntersectionKey { low: 0, high: 2 }, IntersectionKey { low: 2, high: 3 }))
    );
}

#[test]
fn two_circles_make_an_empty_graph() {
    let arrangement = Arrangement::from_rows(vec![vec![0, 5], vec![7, 0]]).unwrap();
    assert!(arrangement.find_coincident().is_none());
    let graph = make_graph(&arrangement);
    assert_eq!(graph.node_count(), 0);
    assert_eq!(graph.edge_count(), 0);
    assert_eq!(prune(&graph).node_count(), 0);
}

#[test]
fn no_circle_and_one_circle_make_an_empty_graph() {
    let graph = make_graph(&Arrangement::from_rows(vec![]).unwrap());
    assert_eq!(graph.node_count(), 0);
    let graph = make_graph(&Arrangement::from_rows(vec![vec![3]]).unwrap());
    assert_eq!(graph.node_count(), 0);
}

#[test]
fn three_circles_make_a_triangle() {
    let arrangement =
        Arrangement::from_rows(vec![vec![0, 10, 20], vec![30, 0, 5], vec![8, 9, 0]]).unwrap();
    assert!(arrangement.find_coincident().is_none());
    let graph = make_graph(&arrangement);
    let k01 = key(0, 1, 3);
    let k02 = key(2, 0, 3);
    let k12 = key(1, 2, 3);
    assert_eq!((k01, k02, k12), (1, 2, 5));
    assert_eq!(graph.node_count(), 3);
    assert_eq!(sorted_pairs(graph.edges()), vec![(1, 2), (1, 5), (2, 5)]);
    // Nothing hangs loose, so pruning keeps everything.
    let pruned = prune(&graph);
    assert_eq!(pruned.node_count(), 3);
    assert_eq!(pruned.edge_count(), 3);
}

#[test]
fn four_circles_join_neighbours_on_each_circle() {
    // Around circle 0 the order is 2, 3, 1; around 1: 0, 2, 3; around 2: 3, 1, 0; around 3: 0, 1, 2.
    let arrangement = Arrangement::from_rows(vec![
        vec![0, 30, 10, 20],
        vec![1, 0, 2, 3],
        vec![9, 8, 0, 7],
        vec![4, 5, 6, 0],
    ])
    .unwrap();
    let graph = make_graph(&arrangement);
    let k = |a, b| key(a, b, 4);
    let mut expected = vec![
        (k(2, 0), k(3, 0)),
        (k(3, 0), k(1, 0)),
        (k(0, 1), k(2, 1)),
        (k(2, 1), k(3, 1)),
        (k(3, 2), k(1, 2)),
        (k(1, 2), k(0, 2)),
        (k(0, 3), k(1, 3)),
        (k(1, 3), k(2, 3)),
    ];
    for e in expected.iter_mut() {
        if e.0 > e.1 {
            *e = (e.1, e.0);
        }
    }
    assert_eq!(sorted_pairs(graph.edges()), sorted_pairs(expected));
    assert_eq!(graph.node_count(), 6);
    for n in graph.nodes() {
        assert!(graph.degree(n) >= 2);
    }
}

#[test]
fn many_circles_make_a_simple_graph_that_pruning_keeps() {
    for circles in 3..10usize {
        // Some arrangement in general position: keys differ along every row.
        let rows: Vec<Vec<u64>> = (0..circles)
            .map(|i| (0..circles).map(|j| ((i * 7 + j * 13) % 31 + j * 31) as u64).collect())
            .collect();
        let arrangement = Arrangement::from_rows(rows).unwrap();
        assert!(arrangement.find_coincident().is_none());
        let graph = make_graph(&arrangement);
        assert_eq!(graph.node_count(), circles * (circles - 1) / 2);
        assert_eq!(graph.edge_count(), circles * (circles - 2));
        let edges = graph.edges();
        for (i, e) in edges.iter().enumerate() {
            assert!(e.0 < e.1);
            assert!(!edges[i + 1..].contains(e));
        }
        for n in graph.nodes() {
            assert!(graph.degree(n) >= 2 && graph.degree(n) <= 4);
        }
        let pruned = prune(&graph);
        assert_eq!(pruned.node_count(), graph.node_count());
        assert_eq!(pruned.edge_count(), graph.edge_count());
    }
}
