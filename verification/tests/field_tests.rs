use untangle::crossing::Edge;
use untangle::field::lines_except;
use untangle::field::points_except;

#[test]
fn a_node_is_not_pushed_by_itself() {
    assert_eq!(points_except(&vec![4, 7, 9], 7), vec![0, 2]);
    assert_eq!(points_except(&vec![4, 7, 9], 5), vec![0, 1, 2]);
    assert_eq!(points_except(&vec![7, 7], 7), Vec::<usize>::new());
    assert_eq!(points_except(&vec![], 7), Vec::<usize>::new());
}

#[test]
fn a_node_is_not_pushed_by_its_own_edges() {
    let edges = vec![
        Edge { a: 1, b: 2 },
        Edge { a: 2, b: 3 },
        Edge { a: 3, b: 1 },
        Edge { a: 4, b: 5 },
    ];
    assert_eq!(lines_except(&edges, 1), vec![1, 3]);
    assert_eq!(lines_except(&edges, 3), vec![0, 3]);
    assert_eq!(lines_except(&edges, 5), vec![0, 1, 2]);
    assert_eq!(lines_except(&edges, 8), vec![0, 1, 2, 3]);
    assert_eq!(lines_except(&vec![], 1), Vec::<usize>::new());
}
