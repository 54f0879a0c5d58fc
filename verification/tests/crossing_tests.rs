use untangle::crossing::crossing_pairs;
use untangle::crossing::highlight_edges;
use untangle::crossing::intersects;
use untangle::crossing::is_implicated;
use untangle::crossing::node_statuses;
use untangle::crossing::position_of;
use untangle::crossing::segments_of;
use untangle::crossing::segments_cross;
use untangle::crossing::Edge;
use untangle::crossing::LineIntersects;
use untangle::crossing::Placed;
use untangle::crossing::Point;
use untangle::crossing::Segment;

fn point(x: i64, y: i64) -> Point {
    Point::new(x, y).unwrap()
}

fn segment(a: u64, pa: (i64, i64), b: u64, pb: (i64, i64)) -> Segment {
    Segment { edge: Edge { a, b }, start: point(pa.0, pa.1), end: point(pb.0, pb.1) }
}

#[test]
fn a_clear_x_crosses() {
    assert!(intersects(&point(0, 0), &point(10, 10), &point(0, 10), &point(10, 0)));
    let first = segment(1, (0, 0), 2, (10, 10));
    let second = segment(3, (0, 10), 4, (10, 0));
    assert!(segments_cross(&first, &second));
    assert_eq!(crossing_pairs(&vec![first, second]), vec![(0, 1)]);
}

#[test]
fn disjoint_boxes_do_not_cross() {
    assert!(!intersects(&point(0, 0), &point(1, 0), &point(5, 0), &point(6, 0)));
    let first = segment(1, (0, 0), 2, (1, 0));
    let second = segment(3, (5, 0), 4, (6, 0));
    assert!(!segments_cross(&first, &second));
    assert!(crossing_pairs(&vec![first, second]).is_empty());
}

#[test]
fn edges_with_a_common_end_never_cross() {
    // The same X as above, but the two edges share node 1.
    let first = segment(1, (0, 0), 2, (10, 10));
    let second = segment(3, (0, 10), 1, (10, 0));
    assert!(!segments_cross(&first, &second));
    assert!(!segments_cross(&second, &first));
    let found = highlight_edges(&vec![1, 2, 3], &vec![first, second]);
    assert_eq!(found.crossing_count(), 0);
    assert_eq!(found.statuses, vec![LineIntersects::Solved; 3]);
}

#[test]
fn nodes_of_crossing_edges_are_intersecting() {
    let segments = vec![
        segment(1, (0, 0), 2, (10, 10)),
        segment(3, (0, 10), 4, (10, 0)),
        segment(5, (20, 20), 6, (30, 20)),
    ];
    let found = highlight_edges(&vec![1, 2, 3, 4, 5, 6, 7], &segments);
    assert_eq!(found.crossing_count(), 1);
    assert_eq!(found.crossings, vec![(0, 1)]);
    assert_eq!(
        found.statuses,
        vec![
            LineIntersects::Intersecting,
            LineIntersects::Intersecting,
            LineIntersects::Intersecting,
            LineIntersects::Intersecting,
            LineIntersects::Solved,
            LineIntersects::Solved,
            LineIntersects::Solved,
        ]
    );
}

#[test]
fn points_out_of_range_are_refused() {
    assert!(Point::new(1 << 30, 0).is_none());
    assert!(Point::new(0, -(1 << 30)).is_none());
    assert!(Point::new((1 << 30) - 1, 1 - (1 << 30)).is_some());
}

#[test]
fn extreme_coordinates_do_not_overflow() {
    let m = (1 << 30) - 1;
    assert!(intersects(&point(-m, -m), &point(m, m), &point(-m, m), &point(m, -m)));
    assert!(!intersects(&point(-m, -m), &point(m, -m), &point(-m, m), &point(m, m)));
}

#[test]
fn touching_segments_of_edges_without_a_common_end_cross() {
    // The end of one segment lies on the other.
    let first = segment(1, (0, 0), 2, (10, 0));
    let second = segment(3, (5, 0), 4, (5, 9));
    assert!(segments_cross(&first, &second));
    // The same drawing, with the edges sharing node 3: no crossing.
    let third = segment(3, (0, 0), 2, (10, 0));
    assert!(!segments_cross(&third, &second));
}

#[test]
fn crossings_are_listed_in_order() {
    let segments = vec![
        segment(1, (0, 0), 2, (10, 10)),
        segment(3, (0, 10), 4, (10, 0)),
        segment(5, (0, 5), 6, (10, 5)),
        segment(7, (50, 50), 8, (60, 60)),
        segment(1, (5, -5), 9, (5, 15)),
    ];
    let pairs = crossing_pairs(&segments);
    // The last edge shares node 1 with the first, so that pair is left out.
    assert_eq!(pairs, vec![(0, 1), (0, 2), (1, 2), (1, 4), (2, 4)]);
}

#[test]
fn a_new_node_is_unsolved() {
    assert_eq!(LineIntersects::default(), LineIntersects::Unsolved);
}

#[test]
fn a_look_at_the_drawing_settles_every_state() {
    let states =
        [LineIntersects::Unsolved, LineIntersects::Solved, LineIntersects::Intersecting];
    for state in states {
        assert_eq!(state.observe(true), LineIntersects::Intersecting);
        assert_eq!(state.observe(false), LineIntersects::Solved);
    }
}

#[test]
fn implication_goes_by_the_listed_pairs() {
    let segments = vec![
        segment(1, (0, 0), 2, (10, 10)),
        segment(3, (0, 10), 4, (10, 0)),
        segment(5, (20, 20), 6, (30, 20)),
    ];
    let pairs = vec![(0, 2)];
    assert!(is_implicated(&segments, &pairs, 1));
    assert!(is_implicated(&segments, &pairs, 6));
    assert!(!is_implicated(&segments, &pairs, 3));
    assert!(!is_implicated(&segments, &vec![], 1));
    // A place beyond the segments names no edge.
    assert!(!is_implicated(&segments, &vec![(7, 9)], 1));
    assert!(is_implicated(&segments, &vec![(7, 1)], 4));
    assert_eq!(
        node_statuses(&vec![5, 3, 2], &segments, &pairs),
        vec![LineIntersects::Intersecting, LineIntersects::Solved, LineIntersects::Intersecting]
    );
}

#[test]
fn positions_are_found_by_id() {
    let placed = vec![
        Placed { node: 4, at: point(1, 2) },
        Placed { node: 9, at: point(3, 4) },
        Placed { node: 4, at: point(5, 6) },
    ];
    let at = |node| position_of(&placed, node).map(|p| (p.x(), p.y()));
    assert_eq!(at(4), Some((1, 2)));
    assert_eq!(at(9), Some((3, 4)));
    assert_eq!(at(5), None);
    assert!(position_of(&vec![], 4).is_none());
}

#[test]
fn an_edge_with_an_end_that_is_nowhere_is_skipped() {
    let placed = vec![
        Placed { node: 1, at: point(0, 0) },
        Placed { node: 2, at: point(10, 10) },
        Placed { node: 3, at: point(0, 10) },
    ];
    let edges =
        vec![Edge { a: 1, b: 2 }, Edge { a: 2, b: 4 }, Edge { a: 4, b: 1 }, Edge { a: 3, b: 2 }];
    let segments = segments_of(&edges, &placed);
    assert_eq!(segments.len(), 2);
    assert_eq!(segments[0].edge, Edge { a: 1, b: 2 });
    assert_eq!((segments[0].start.x(), segments[0].start.y()), (0, 0));
    assert_eq!((segments[0].end.x(), segments[0].end.y()), (10, 10));
    assert_eq!(segments[1].edge, Edge { a: 3, b: 2 });
    assert_eq!((segments[1].start.x(), segments[1].start.y()), (0, 10));
    assert!(segments_of(&edges, &vec![]).is_empty());
}
