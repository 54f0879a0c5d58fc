//! What holds of every topology built from circles: it is a simple graph,
//! and with three circles or more every meeting of two circles is a node
//! with at least two edges, so that pruning takes nothing away.

use crate::builder::arc_adjacent;
use crate::builder::arc_edge;
use crate::builder::circle_graph;
use crate::builder::coincident;
use crate::builder::is_arc_edge;
use crate::builder::general_position;
use crate::builder::key_id;
use crate::builder::lemma_key_id_bound;
use crate::builder::lemma_key_id_injective;
use crate::builder::square;
use crate::graph::edge_key;
use crate::graph::GraphView;
use vstd::prelude::*;
use vstd::set_lib::lemma_int_range;
use vstd::set_lib::lemma_len_subset;
use vstd::set_lib::lemma_set_subset_finite;
use vstd::set_lib::set_int_range;

verus! {

/// The id of the node where circles `a` and `b` meet.
pub open spec fn meeting(arcs: Seq<Seq<u64>>, a: int, b: int) -> u64 {
    key_id(arcs.len() as int, a, b) as u64
}

/// Whether `n` is the meeting of two different circles of the arrangement.
pub open spec fn is_meeting(arcs: Seq<Seq<u64>>, n: u64) -> bool {
    exists|a: int, b: int|
        0 <= a < arcs.len() && 0 <= b < arcs.len() && a != b && n == #[trigger] meeting(arcs, a, b)
}

/// Among the circles before `n`, `b` is the one that comes next after `a`
/// around circle `i`.
spec fn next_among(arcs: Seq<Seq<u64>>, i: int, a: int, b: int, n: int) -> bool {
    &&& 0 <= b < n
    &&& b != i
    &&& arcs[i][a] < arcs[i][b]
    &&& forall|z: int|
        0 <= z < n && z != i ==> !(arcs[i][a] < #[trigger] arcs[i][z] && arcs[i][z] < arcs[i][b])
}

/// Among the circles before `n`, `b` is the one that comes last before `a`
/// around circle `i`.
spec fn previous_among(arcs: Seq<Seq<u64>>, i: int, a: int, b: int, n: int) -> bool {
    &&& 0 <= b < n
    &&& b != i
    &&& arcs[i][b] < arcs[i][a]
    &&& forall|z: int|
        0 <= z < n && z != i ==> !(arcs[i][b] < #[trigger] arcs[i][z] && arcs[i][z] < arcs[i][a])
}

/// Where some circle sits further round than `a`, one of them comes next.
proof fn lemma_next_exists(arcs: Seq<Seq<u64>>, i: int, a: int, c: int, n: int)
    requires
        0 <= c < n,
        c != i,
        arcs[i][a] < arcs[i][c],
    ensures
        exists|b: int| next_among(arcs, i, a, b, n),
    decreases n,
{
    let m = n - 1;
    if exists|d: int| 0 <= d < m && d != i && arcs[i][a] < #[trigger] arcs[i][d] {
        let d = choose|d: int| 0 <= d < m && d != i && arcs[i][a] < #[trigger] arcs[i][d];
        lemma_next_exists(arcs, i, a, d, m);
        let b = choose|b: int| next_among(arcs, i, a, b, m);
        if m != i && arcs[i][a] < arcs[i][m] && arcs[i][m] < arcs[i][b] {
            assert(next_among(arcs, i, a, m, n));
        } else {
            assert(next_among(arcs, i, a, b, n));
        }
    } else {
        assert(c == m);
        assert(next_among(arcs, i, a, m, n));
    }
}

/// Where some circle sits less far round than `a`, one of them comes last
/// before it.
proof fn lemma_previous_exists(arcs: Seq<Seq<u64>>, i: int, a: int, c: int, n: int)
    requires
        0 <= c < n,
        c != i,
        arcs[i][c] < arcs[i][a],
    ensures
        exists|b: int| previous_among(arcs, i, a, b, n),
    decreases n,
{
    let m = n - 1;
    if exists|d: int| 0 <= d < m && d != i && #[trigger] arcs[i][d] < arcs[i][a] {
        let d = choose|d: int| 0 <= d < m && d != i && #[trigger] arcs[i][d] < arcs[i][a];
        lemma_previous_exists(arcs, i, a, d, m);
        let b = choose|b: int| previous_among(arcs, i, a, b, m);
        if m != i && arcs[i][b] < arcs[i][m] && arcs[i][m] < arcs[i][a] {
            assert(previous_among(arcs, i, a, m, n));
        } else {
            assert(previous_among(arcs, i, a, b, n));
        }
    } else {
        assert(c == m);
        assert(previous_among(arcs, i, a, m, n));
    }
}

/// With three circles or more in general position, every meeting on a
/// circle has a meeting next to it on that circle: some other circle `b`
/// comes right after `a` around circle `i`, or right before it.
pub proof fn lemma_meeting_has_company(arcs: Seq<Seq<u64>>, i: int, a: int) -> (b: int)
    requires
        general_position(arcs),
        3 <= arcs.len(),
        0 <= i < arcs.len(),
        0 <= a < arcs.len(),
        a != i,
    ensures
        arc_adjacent(arcs, i, a, b) || arc_adjacent(arcs, i, b, a),
        b != a,
        b != i,
        0 <= b < arcs.len(),
{
    let c: int = if i != 0 && a != 0 {
        0
    } else if i != 1 && a != 1 {
        1
    } else {
        2
    };
    let n = arcs.len() as int;
    assert(!coincident(arcs, i, c, a));
    if arcs[i][a] < arcs[i][c] {
        lemma_next_exists(arcs, i, a, c, n);
        let b = choose|b: int| next_among(arcs, i, a, b, n);
        assert(arc_adjacent(arcs, i, a, b));
        b
    } else {
        lemma_previous_exists(arcs, i, a, c, n);
        let b = choose|b: int| previous_among(arcs, i, a, b, n);
        assert(arc_adjacent(arcs, i, b, a));
        b
    }
}

/// An edge of the topology joins two different meetings on one circle, the
/// one with the smaller id first.
pub proof fn lemma_arc_edge(arcs: Seq<Seq<u64>>, i: int, a: int, b: int)
    requires
        arcs.len() <= u32::MAX,
        0 <= i < arcs.len(),
        0 <= a < arcs.len(),
        0 <= b < arcs.len(),
        a != b,
        a != i,
        b != i,
    ensures
        arc_edge(arcs, i, a, b) == edge_key(meeting(arcs, a, i), meeting(arcs, b, i)),
        arc_edge(arcs, i, a, b) == arc_edge(arcs, i, b, a),
        arc_edge(arcs, i, a, b).0 < arc_edge(arcs, i, a, b).1,
        meeting(arcs, a, i) != meeting(arcs, b, i),
        meeting(arcs, a, i) == key_id(arcs.len() as int, a, i),
        meeting(arcs, b, i) == key_id(arcs.len() as int, b, i),
        meeting(arcs, a, i) < arcs.len() * arcs.len(),
        meeting(arcs, b, i) < arcs.len() * arcs.len(),
{
    let n = arcs.len() as int;
    lemma_key_id_bound(n, a, i);
    lemma_key_id_bound(n, b, i);
    if key_id(n, a, i) == key_id(n, b, i) {
        lemma_key_id_injective(n, a, i, b, i);
    }
}

/// The topology of an arrangement of circles is a finite simple graph: no
/// edge joins a node to itself, no two edges join the same two nodes, and
/// every node is the meeting of two different circles.
pub proof fn lemma_circle_graph_simple(arcs: Seq<Seq<u64>>)
    requires
        arcs.len() <= u32::MAX,
    ensures
        circle_graph(arcs).wf(),
        forall|e: (u64, u64)| #[trigger] circle_graph(arcs).edges.contains(e) ==> e.0 != e.1,
        forall|n: u64| #[trigger] circle_graph(arcs).nodes.contains(n) ==> is_meeting(arcs, n),
{
    let graph = circle_graph(arcs);
    let n = arcs.len() as int;
    let square = n * n;
    assert(0 <= square <= u64::MAX) by (nonlinear_arith)
        requires
            0 <= n <= u32::MAX,
            square == n * n,
    ;
    assert forall|e: (u64, u64)| #[trigger] graph.edges.contains(e) implies e.0 < e.1 && e.1
        < square && graph.nodes.contains(e.0) && graph.nodes.contains(e.1) && is_meeting(arcs, e.0)
        && is_meeting(arcs, e.1) by {
        let (i, a, b) = choose|i: int, a: int, b: int|
            #[trigger] arc_adjacent(arcs, i, a, b) && e == arc_edge(arcs, i, a, b);
        lemma_arc_edge(arcs, i, a, b);
        assert(meeting(arcs, a, i) == e.0 || meeting(arcs, a, i) == e.1);
        assert(meeting(arcs, b, i) == e.0 || meeting(arcs, b, i) == e.1);
    }
    assert forall|v: u64| #[trigger] graph.nodes.contains(v) implies v < square && is_meeting(
        arcs,
        v,
    ) by {
        let e = choose|e: (u64, u64)| #[trigger] is_arc_edge(arcs, e) && (e.0 == v || e.1 == v);
        assert(graph.edges.contains(e));
    }
    let ids = set_int_range(0, square).map(|v: int| v as u64);
    lemma_int_range(0, square);
    set_int_range(0, square).lemma_map_finite(|v: int| v as u64);
    assert(graph.nodes.subset_of(ids)) by {
        assert forall|v: u64| graph.nodes.contains(v) implies ids.contains(v) by {
            assert(set_int_range(0, square).contains(v as int));
            assert((v as int) as u64 == v);
        }
    }
    lemma_set_subset_finite(ids, graph.nodes);
    let pairs = set_int_range(0, square * square).map(
        |v: int| ((v / square) as u64, (v % square) as u64),
    );
    assert(0 <= square * square) by (nonlinear_arith)
        requires
            0 <= square,
    ;
    lemma_int_range(0, square * square);
    set_int_range(0, square * square).lemma_map_finite(
        |v: int| ((v / square) as u64, (v % square) as u64),
    );
    assert(graph.edges.subset_of(pairs)) by {
        assert forall|e: (u64, u64)| graph.edges.contains(e) implies pairs.contains(e) by {
            let v = e.0 * square + e.1;
            assert(0 <= v < square * square) by (nonlinear_arith)
                requires
                    0 <= e.0 < square,
                    0 <= e.1 < square,
                    v == e.0 * square + e.1,
            ;
            vstd::arithmetic::div_mod::lemma_fundamental_div_mod_converse(
                v,
                square,
                e.0 as int,
                e.1 as int,
            );
            assert(set_int_range(0, square * square).contains(v));
            assert(((v / square) as u64, (v % square) as u64) == e);
        }
    }
    lemma_set_subset_finite(pairs, graph.edges);
}

/// With three circles or more in general position, the meeting of any two
/// circles is a node of the topology, and every node has at least two
/// edges.
pub proof fn lemma_circle_graph_sturdy(arcs: Seq<Seq<u64>>)
    requires
        square(arcs),
        general_position(arcs),
        3 <= arcs.len() <= u32::MAX,
    ensures
        forall|a: int, b: int|
            0 <= a < arcs.len() && 0 <= b < arcs.len() && a != b ==> circle_graph(
                arcs,
            ).nodes.contains(#[trigger] meeting(arcs, a, b)),
        forall|n: u64|
            circle_graph(arcs).nodes.contains(n) ==> #[trigger] circle_graph(arcs).degree(n) >= 2,
{
    let graph = circle_graph(arcs);
    lemma_circle_graph_simple(arcs);
    assert forall|a: int, b: int| 0 <= a < arcs.len() && 0 <= b < arcs.len() && a != b implies {
        let n = #[trigger] meeting(arcs, a, b);
        graph.nodes.contains(n) && graph.degree(n) >= 2
    } by {
        lemma_meeting_degree(arcs, a, b);
    }
    assert forall|n: u64| graph.nodes.contains(n) implies #[trigger] graph.degree(n) >= 2 by {
        assert(is_meeting(arcs, n));
        let (a, b) = choose|a: int, b: int|
            0 <= a < arcs.len() && 0 <= b < arcs.len() && a != b && n == #[trigger] meeting(
                arcs,
                a,
                b,
            );
        lemma_meeting_degree(arcs, a, b);
    }
}

/// With three circles or more in general position, the meeting of circles
/// `x` and `y` is joined to a meeting on circle `x` and to another on
/// circle `y`.
proof fn lemma_meeting_degree(arcs: Seq<Seq<u64>>, x: int, y: int)
    requires
        general_position(arcs),
        3 <= arcs.len() <= u32::MAX,
        0 <= x < arcs.len(),
        0 <= y < arcs.len(),
        x != y,
        circle_graph(arcs).wf(),
    ensures
        circle_graph(arcs).nodes.contains(meeting(arcs, x, y)),
        circle_graph(arcs).degree(meeting(arcs, x, y)) >= 2,
{
    let graph = circle_graph(arcs);
    let n = arcs.len() as int;
    let here = meeting(arcs, x, y);
    assert(here == meeting(arcs, y, x));
    let w = lemma_meeting_has_company(arcs, x, y);
    let v = lemma_meeting_has_company(arcs, y, x);
    let on_x = meeting(arcs, w, x);
    let on_y = meeting(arcs, v, y);
    lemma_arc_edge(arcs, x, y, w);
    lemma_arc_edge(arcs, y, x, v);
    let first = arc_edge(arcs, x, y, w);
    let second = arc_edge(arcs, y, x, v);
    assert(is_arc_edge(arcs, first)) by {
        if arc_adjacent(arcs, x, y, w) {
            assert(first == arc_edge(arcs, x, y, w));
        } else {
            assert(arc_adjacent(arcs, x, w, y) && first == arc_edge(arcs, x, w, y));
        }
    }
    assert(is_arc_edge(arcs, second)) by {
        if arc_adjacent(arcs, y, x, v) {
            assert(second == arc_edge(arcs, y, x, v));
        } else {
            assert(arc_adjacent(arcs, y, v, x) && second == arc_edge(arcs, y, v, x));
        }
    }
    assert(graph.edges.contains(first));
    assert(graph.edges.contains(second));
    assert(graph.has_edge(here, on_x));
    assert(graph.has_edge(here, on_y));
    if on_x == on_y {
        lemma_key_id_injective(n, w, x, v, y);
    }
    graph.lemma_neighbors(here);
    let both = set![on_x, on_y];
    assert(both.subset_of(graph.neighbors(here)));
    lemma_len_subset(both, graph.neighbors(here));
    assert(both.len() == 2) by {
        assert(both =~= Set::<u64>::empty().insert(on_x).insert(on_y));
    }
    assert(first.0 == here || first.1 == here);
}

/// Pruning the topology of three circles or more in general position
/// takes nothing away, and leaves no node with fewer than two edges. With
/// two circles or fewer the topology has no node to begin with.
pub proof fn lemma_pruning_circle_graph(arcs: Seq<Seq<u64>>)
    requires
        square(arcs),
        general_position(arcs),
        arcs.len() <= u32::MAX,
    ensures
        circle_graph(arcs).pruned() == circle_graph(arcs),
        forall|n: u64|
            circle_graph(arcs).pruned().nodes.contains(n) ==> #[trigger] circle_graph(
                arcs,
            ).pruned().degree(n) >= 2,
        arcs.len() <= 2 ==> circle_graph(arcs) == GraphView::empty(),
{
    let graph = circle_graph(arcs);
    lemma_circle_graph_simple(arcs);
    if arcs.len() >= 3 {
        lemma_circle_graph_sturdy(arcs);
        graph.lemma_pruning_sturdy_graph();
    } else {
        assert forall|e: (u64, u64)| !graph.edges.contains(e) by {
            if is_arc_edge(arcs, e) {
                let (i, a, b) = choose|i: int, a: int, b: int|
                    #[trigger] arc_adjacent(arcs, i, a, b) && e == arc_edge(arcs, i, a, b);
                assert(false);
            }
        }
        assert(graph.edges =~= Set::<(u64, u64)>::empty());
        assert(graph.nodes =~= Set::<u64>::empty());
        assert(graph.pruned().nodes =~= graph.nodes);
        assert(graph.pruned().edges =~= graph.edges);
    }
}

} // verus!
