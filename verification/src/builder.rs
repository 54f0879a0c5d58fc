//! Building the raw topology from an arrangement of circles.
//!
//! A node of the graph stands for the meeting of two circles. Around each
//! circle the other circles sit in some order; two meetings on a circle are
//! joined by an edge when no third meeting sits between them. Where a circle
//! sits is handed in as an integer, its arc key: only the order of the keys
//! counts.

use crate::graph::edge_key;
use crate::graph::GraphView;
use crate::graph::TopologyGraph;
use vstd::prelude::*;

verus! {

/// The id of the node where circles `a` and `b` meet, among `circles`
/// circles: the smaller index times the number of circles, plus the larger.
pub open spec fn key_id(circles: int, a: int, b: int) -> int {
    if a <= b {
        a * circles + b
    } else {
        b * circles + a
    }
}

/// Two pairs of circles have the same node id only if they are the same pair.
pub proof fn lemma_key_id_injective(circles: int, a: int, b: int, c: int, d: int)
    requires
        0 <= a < circles,
        0 <= b < circles,
        0 <= c < circles,
        0 <= d < circles,
        key_id(circles, a, b) == key_id(circles, c, d),
    ensures
        (a == c && b == d) || (a == d && b == c),
{
    let (lo1, hi1) = if a <= b {
        (a, b)
    } else {
        (b, a)
    };
    let (lo2, hi2) = if c <= d {
        (c, d)
    } else {
        (d, c)
    };
    assert(lo1 * circles + hi1 == lo2 * circles + hi2);
    assert(lo1 == lo2 && hi1 == hi2) by (nonlinear_arith)
        requires
            lo1 * circles + hi1 == lo2 * circles + hi2,
            0 <= hi1 < circles,
            0 <= hi2 < circles,
            0 <= lo1,
            0 <= lo2,
    {
        if lo1 < lo2 {
            assert((lo2 - lo1) * circles >= circles);
        } else if lo2 < lo1 {
            assert((lo1 - lo2) * circles >= circles);
        }
    }
}

/// Node ids fit in 64 bits while there are at most `u32::MAX` circles.
pub proof fn lemma_key_id_bound(circles: int, a: int, b: int)
    requires
        0 <= a < circles,
        0 <= b < circles,
        circles <= u32::MAX,
    ensures
        0 <= key_id(circles, a, b) < circles * circles <= u64::MAX,
{
    assert(a * circles + b < circles * circles && 0 <= a * circles) by (nonlinear_arith)
        requires
            0 <= a < circles,
            0 <= b < circles,
    ;
    assert(b * circles + a < circles * circles && 0 <= b * circles) by (nonlinear_arith)
        requires
            0 <= a < circles,
            0 <= b < circles,
    ;
    assert(circles * circles <= u64::MAX) by (nonlinear_arith)
        requires
            0 <= circles <= u32::MAX,
    ;
}

/// The meeting of two different circles, named by their indices with the
/// smaller first.
#[derive(Clone, Copy, Debug, PartialEq, Eq, Structural)]
pub struct IntersectionKey {
    pub low: usize,
    pub high: usize,
}

impl IntersectionKey {
    /// The key of the meeting of circles `a` and `b`.
    pub open spec fn of(a: usize, b: usize) -> IntersectionKey {
        if a <= b {
            IntersectionKey { low: a, high: b }
        } else {
            IntersectionKey { low: b, high: a }
        }
    }

    /// The key of the meeting of circles `a` and `b`.
    pub fn new(a: usize, b: usize) -> (key: Self)
        ensures
            key == IntersectionKey::of(a, b),
    {
        if a <= b {
            IntersectionKey { low: a, high: b }
        } else {
            IntersectionKey { low: b, high: a }
        }
    }

    /// The id of this key's node in a graph built from `circles` circles.
    pub fn node_id(&self, circles: usize) -> (id: u64)
        requires
            self.low <= self.high < circles <= u32::MAX,
        ensures
            id == key_id(circles as int, self.low as int, self.high as int),
    {
        proof {
            lemma_key_id_bound(circles as int, self.low as int, self.high as int);
            assert(0 <= self.low * circles) by (nonlinear_arith);
        }
        self.low as u64 * circles as u64 + self.high as u64
    }
}

/// Every row has one arc key for each circle.
pub open spec fn square(arcs: Seq<Seq<u64>>) -> bool {
    forall|i: int| 0 <= i < arcs.len() ==> (#[trigger] arcs[i]).len() == arcs.len()
}

/// Circles `a` and `b` sit at the same place around circle `i`.
pub open spec fn coincident(arcs: Seq<Seq<u64>>, i: int, a: int, b: int) -> bool {
    &&& 0 <= i < arcs.len()
    &&& 0 <= a < arcs.len()
    &&& 0 <= b < arcs.len()
    &&& a != i
    &&& b != i
    &&& a != b
    &&& arcs[i][a] == arcs[i][b]
}

/// No two circles sit at the same place around a third.
pub open spec fn general_position(arcs: Seq<Seq<u64>>) -> bool {
    forall|i: int, a: int, b: int| !#[trigger] coincident(arcs, i, a, b)
}

/// Around circle `i`, circle `b` comes next after circle `a`: it sits
/// further round, and no third circle sits between the two.
pub open spec fn arc_adjacent(arcs: Seq<Seq<u64>>, i: int, a: int, b: int) -> bool {
    &&& 0 <= i < arcs.len()
    &&& 0 <= a < arcs.len()
    &&& 0 <= b < arcs.len()
    &&& a != i
    &&& b != i
    &&& arcs[i][a] < arcs[i][b]
    &&& forall|c: int|
        0 <= c < arcs.len() && c != i ==> !(arcs[i][a] < #[trigger] arcs[i][c] && arcs[i][c]
            < arcs[i][b])
}

/// The edge that joins the meetings of circle `i` with circles `a` and `b`.
pub open spec fn arc_edge(arcs: Seq<Seq<u64>>, i: int, a: int, b: int) -> (u64, u64) {
    edge_key(
        key_id(arcs.len() as int, a, i) as u64,
        key_id(arcs.len() as int, b, i) as u64,
    )
}

/// Whether `e` joins two meetings that come one after the other on some
/// circle.
pub open spec fn is_arc_edge(arcs: Seq<Seq<u64>>, e: (u64, u64)) -> bool {
    exists|i: int, a: int, b: int|
        #[trigger] arc_adjacent(arcs, i, a, b) && e == arc_edge(arcs, i, a, b)
}

/// The topology of an arrangement of circles: for every circle, an edge
/// between each two meetings that come one after the other around it. The
/// nodes are the meetings that some edge ends in.
pub open spec fn circle_graph(arcs: Seq<Seq<u64>>) -> GraphView {
    GraphView {
        nodes: Set::new(
            |n: u64|
                exists|e: (u64, u64)| #[trigger] is_arc_edge(arcs, e) && (e.0 == n || e.1 == n),
        ),
        edges: Set::new(|e: (u64, u64)| is_arc_edge(arcs, e)),
    }
}

/// Whether `e` joins two meetings that come one after the other on a circle
/// before circle `upto`, or on circle `upto` itself at an arc key of at most
/// `bound`.
spec fn edge_within(arcs: Seq<Seq<u64>>, upto: int, bound: int, e: (u64, u64)) -> bool {
    exists|i: int, a: int, b: int|
        #[trigger] arc_adjacent(arcs, i, a, b) && e == arc_edge(arcs, i, a, b) && (i < upto || (i
            == upto && arcs[i][b] <= bound))
}

/// The topology as far as it is built when the circles before circle `upto`
/// are done, and circle `upto` itself up to an arc key of `bound`.
spec fn graph_within(arcs: Seq<Seq<u64>>, upto: int, bound: int) -> GraphView {
    GraphView {
        nodes: Set::new(
            |n: u64|
                exists|e: (u64, u64)|
                    #[trigger] edge_within(arcs, upto, bound, e) && (e.0 == n || e.1 == n),
        ),
        edges: Set::new(|e: (u64, u64)| edge_within(arcs, upto, bound, e)),
    }
}

/// When every circle is done, the topology is built.
proof fn lemma_all_circles_done(arcs: Seq<Seq<u64>>)
    ensures
        graph_within(arcs, arcs.len() as int, -1) == circle_graph(arcs),
{
    let n = arcs.len() as int;
    let none: int = -1;
    let built = graph_within(arcs, n, none);
    let whole = circle_graph(arcs);
    assert forall|e: (u64, u64)| edge_within(arcs, n, none, e) == is_arc_edge(arcs, e) by {
        if is_arc_edge(arcs, e) {
            let (i, a, b) = choose|i: int, a: int, b: int|
                #[trigger] arc_adjacent(arcs, i, a, b) && e == arc_edge(arcs, i, a, b);
            assert(arc_adjacent(arcs, i, a, b) && i < n);
        }
        if edge_within(arcs, n, none, e) {
            let (i, a, b) = choose|i: int, a: int, b: int|
                #[trigger] arc_adjacent(arcs, i, a, b) && e == arc_edge(arcs, i, a, b) && (i < n
                    || (i == n && arcs[i][b] <= none));
            assert(arc_adjacent(arcs, i, a, b));
        }
    }
    assert(built.edges =~= whole.edges);
    assert forall|v: u64| built.nodes.contains(v) == whole.nodes.contains(v) by {
        if built.nodes.contains(v) {
            let e = choose|e: (u64, u64)|
                #[trigger] edge_within(arcs, n, none, e) && (e.0 == v || e.1 == v);
            assert(is_arc_edge(arcs, e));
        }
        if whole.nodes.contains(v) {
            let e = choose|e: (u64, u64)| #[trigger] is_arc_edge(arcs, e) && (e.0 == v || e.1 == v);
            assert(edge_within(arcs, n, none, e));
        }
    }
    assert(built.nodes =~= whole.nodes);
}

/// Where the circles sit around each other: for each circle, one arc key
/// for every circle. The key that a circle has for itself is never read.
pub struct Arrangement {
    arcs: Vec<Vec<u64>>,
}

/// The arc keys that the rows hold.
pub open spec fn keys_of(rows: Seq<Vec<u64>>) -> Seq<Seq<u64>> {
    Seq::new(rows.len(), |i: int| rows[i]@)
}

impl View for Arrangement {
    type V = Seq<Seq<u64>>;

    closed spec fn view(&self) -> Seq<Seq<u64>> {
        keys_of(self.arcs@)
    }
}

impl Arrangement {
    /// There is a row for each circle, and no more than `u32::MAX` circles.
    #[verifier::type_invariant]
    pub open spec fn inv(&self) -> bool {
        square(self@) && self@.len() <= u32::MAX
    }

    /// Takes the arc keys, `rows[i][j]` saying where circle `j` sits around
    /// circle `i`. The result is `None` unless every row has as many keys as
    /// there are rows, and there are at most `u32::MAX` rows.
    pub fn from_rows(rows: Vec<Vec<u64>>) -> (r: Option<Self>)
        ensures
            r.is_some() == (square(keys_of(rows@)) && rows.len() <= u32::MAX),
            r matches Some(arrangement) ==> arrangement@ == keys_of(rows@),
    {
        let ghost keys = keys_of(rows@);
        if rows.len() > u32::MAX as usize {
            return None;
        }
        let mut i: usize = 0;
        while i < rows.len()
            invariant
                i <= rows.len(),
                keys == keys_of(rows@),
                forall|k: int| 0 <= k < i ==> (#[trigger] keys[k]).len() == keys.len(),
            decreases rows.len() - i,
        {
            if rows[i].len() != rows.len() {
                proof {
                    assert(keys[i as int].len() != keys.len());
                }
                return None;
            }
            i = i + 1;
        }
        Some(Arrangement { arcs: rows })
    }

    /// The number of circles.
    pub fn circle_count(&self) -> (n: usize)
        ensures
            n == self@.len(),
            n <= u32::MAX,
            square(self@),
    {
        proof {
            use_type_invariant(self);
        }
        self.arcs.len()
    }

    /// Where circle `j` sits around circle `i`.
    pub fn arc(&self, i: usize, j: usize) -> (key: u64)
        requires
            i < self@.len(),
            j < self@.len(),
        ensures
            key == self@[i as int][j as int],
    {
        proof {
            use_type_invariant(self);
            assert(self@[i as int].len() == self@.len());
        }
        self.arcs[i][j]
    }

    /// The circle that sits first around circle `i`: the other circle with
    /// the least arc key. There is none where circle `i` is the only circle.
    pub fn first_on(&self, i: usize) -> (r: Option<usize>)
        requires
            i < self@.len(),
        ensures
            r.is_none() == (self@.len() == 1),
            r matches Some(a) ==> a < self@.len() && a != i && forall|c: int|
                0 <= c < self@.len() && c != i ==> self@[i as int][a as int]
                    <= #[trigger] self@[i as int][c],
    {
        let count = self.circle_count();
        let mut best: Option<usize> = None;
        let mut c: usize = 0;
        while c < count
            invariant
                c <= count,
                count == self@.len(),
                i < count,
                best.is_none() == (c == 0 || (c == 1 && i == 0)),
                best matches Some(a) ==> a < count && a != i && forall|k: int|
                    0 <= k < c && k != i ==> self@[i as int][a as int]
                        <= #[trigger] self@[i as int][k],
            decreases count - c,
        {
            if c != i {
                let fresh = match best {
                    None => true,
                    Some(a) => self.arc(i, c) < self.arc(i, a),
                };
                if fresh {
                    best = Some(c);
                }
            }
            c = c + 1;
        }
        best
    }

    /// The circle that comes next after circle `a` around circle `i`: the
    /// other circle with the least arc key above that of `a`. There is none
    /// where `a` sits last.
    pub fn next_on(&self, i: usize, a: usize) -> (r: Option<usize>)
        requires
            i < self@.len(),
            a < self@.len(),
            a != i,
        ensures
            r matches Some(b) ==> arc_adjacent(self@, i as int, a as int, b as int),
            r.is_none() ==> forall|c: int|
                0 <= c < self@.len() && c != i ==> #[trigger] self@[i as int][c]
                    <= self@[i as int][a as int],
    {
        let count = self.circle_count();
        let here = self.arc(i, a);
        let mut best: Option<usize> = None;
        let mut c: usize = 0;
        while c < count
            invariant
                c <= count,
                count == self@.len(),
                i < count,
                a < count,
                here == self@[i as int][a as int],
                best.is_none() ==> forall|k: int|
                    0 <= k < c && k != i ==> #[trigger] self@[i as int][k] <= here,
                best matches Some(b) ==> b < count && b != i && here < self@[i as int][b as int]
                    && forall|k: int|
                    0 <= k < c && k != i ==> !(here < #[trigger] self@[i as int][k]
                        && self@[i as int][k] < self@[i as int][b as int]),
            decreases count - c,
        {
            if c != i {
                let there = self.arc(i, c);
                if there > here {
                    let fresh = match best {
                        None => true,
                        Some(b) => there < self.arc(i, b),
                    };
                    if fresh {
                        best = Some(c);
                    }
                }
            }
            c = c + 1;
        }
        best
    }

    /// Finds two circles that sit at the same place around a third, if
    /// there are any: the result names the two meetings that coincide.
    pub fn find_coincident(&self) -> (r: Option<(IntersectionKey, IntersectionKey)>)
        ensures
            r.is_none() == general_position(self@),
            r matches Some((first, second)) ==> exists|i: usize, a: usize, b: usize|
                #[trigger] coincident(self@, i as int, a as int, b as int) && first
                    == IntersectionKey::of(a, i) && second == IntersectionKey::of(b, i),
    {
        let count = self.circle_count();
        let mut i: usize = 0;
        while i < count
            invariant
                i <= count,
                count == self@.len(),
                forall|c: int, a: int, b: int| c < i ==> !#[trigger] coincident(self@, c, a, b),
            decreases count - i,
        {
            let mut a: usize = 0;
            while a < count
                invariant
                    a <= count,
                    i < count,
                    count == self@.len(),
                    forall|x: int, y: int|
                        x < a && x < y ==> !#[trigger] coincident(self@, i as int, x, y),
                decreases count - a,
            {
                if a != i {
                    let mut b: usize = a + 1;
                    while b < count
                        invariant
                            a < b <= count,
                            i < count,
                            a != i,
                            count == self@.len(),
                            forall|y: int|
                                a < y < b ==> !#[trigger] coincident(self@, i as int, a as int, y),
                        decreases count - b,
                    {
                        if b != i && self.arc(i, a) == self.arc(i, b) {
                            let first = IntersectionKey::new(a, i);
                            let second = IntersectionKey::new(b, i);
                            proof {
                                assert(coincident(self@, i as int, a as int, b as int));
                            }
                            return Some((first, second));
                        }
                        b = b + 1;
                    }
                }
                a = a + 1;
            }
            proof {
                assert forall|c: int, x: int, y: int| c < i + 1 implies !#[trigger] coincident(
                    self@,
                    c,
                    x,
                    y,
                ) by {
                    if c == i && coincident(self@, c, x, y) {
                        if x < y {
                            assert(!coincident(self@, i as int, x, y));
                        } else {
                            assert(!coincident(self@, i as int, y, x));
                        }
                    }
                }
            }
            i = i + 1;
        }
        proof {
            assert forall|c: int, x: int, y: int| !#[trigger] coincident(self@, c, x, y) by {
                if c >= i {
                    assert(!(0 <= c < self@.len()));
                }
            }
        }
        None
    }
}

/// Builds the topology of an arrangement of circles in general position:
/// going round each circle in the order of the arc keys, the meetings with
/// the other circles are joined one to the next. The result is a simple
/// graph: no edge joins a node to itself, and no edge is there twice.
pub fn make_graph(arrangement: &Arrangement) -> (graph: TopologyGraph)
    requires
        general_position(arrangement@),
    ensures
        graph@ == circle_graph(arrangement@),
        graph@.wf(),
{
    let count = arrangement.circle_count();
    let ghost arcs = arrangement@;
    let mut graph = TopologyGraph::new();
    let mut i: usize = 0;
    proof {
        assert(graph@.nodes =~= graph_within(arcs, 0, -1).nodes);
        assert(graph@.edges =~= graph_within(arcs, 0, -1).edges);
    }
    while i < count
        invariant
            i <= count,
            count == arcs.len(),
            count <= u32::MAX,
            arcs == arrangement@,
            square(arcs),
            general_position(arcs),
            graph@ == graph_within(arcs, i as int, -1),
        decreases count - i,
    {
        match arrangement.first_on(i) {
            None => {},
            Some(first) => {
                let mut a: usize = first;
                proof {
                    lemma_first_adds_nothing(arcs, i as int, a as int);
                }
                loop
                    invariant_except_break
                        graph@ == graph_within(arcs, i as int, arcs[i as int][a as int] as int),
                    invariant
                        i < count,
                        a < count,
                        a != i,
                        count == arcs.len(),
                        count <= u32::MAX,
                        arcs == arrangement@,
                        square(arcs),
                        general_position(arcs),
                    ensures
                        graph@ == graph_within(arcs, i + 1, -1),
                    decreases u64::MAX - arcs[i as int][a as int],
                {
                    match arrangement.next_on(i, a) {
                        None => {
                            proof {
                                lemma_last_completes(arcs, i as int, a as int);
                            }
                            break ;
                        },
                        Some(b) => {
                            let from = IntersectionKey::new(a, i).node_id(count);
                            let to = IntersectionKey::new(b, i).node_id(count);
                            proof {
                                if from == to {
                                    lemma_key_id_injective(
                                        count as int,
                                        a as int,
                                        i as int,
                                        b as int,
                                        i as int,
                                    );
                                }
                            }
                            let ghost before = graph@;
                            graph.add_edge(from, to);
                            proof {
                                lemma_next_adds_one(arcs, i as int, a as int, b as int);
                                let e = arc_edge(arcs, i as int, a as int, b as int);
                                assert(edge_key(from, to) == e);
                                assert(graph@.nodes =~= before.with_edge(e.0, e.1).nodes);
                                assert(graph@.edges =~= before.with_edge(e.0, e.1).edges);
                            }
                            a = b;
                        },
                    }
                }
            },
        }
        proof {
            if count == 1 {
                lemma_lone_circle(arcs, i as int);
            }
        }
        i = i + 1;
    }
    proof {
        lemma_all_circles_done(arcs);
        use_type_invariant(&graph);
    }
    graph
}

/// Two stages of the construction with the same edges have the same nodes.
proof fn lemma_same_edges_same_nodes(
    arcs: Seq<Seq<u64>>,
    upto1: int,
    bound1: int,
    upto2: int,
    bound2: int,
)
    requires
        graph_within(arcs, upto1, bound1).edges == graph_within(arcs, upto2, bound2).edges,
    ensures
        graph_within(arcs, upto1, bound1) == graph_within(arcs, upto2, bound2),
{
    let lhs = graph_within(arcs, upto1, bound1);
    let rhs = graph_within(arcs, upto2, bound2);
    assert forall|e: (u64, u64)|
        edge_within(arcs, upto1, bound1, e) == #[trigger] edge_within(arcs, upto2, bound2, e) by {
        assert(lhs.edges.contains(e) == rhs.edges.contains(e));
    }
    assert forall|n: u64| lhs.nodes.contains(n) == rhs.nodes.contains(n) by {
        if lhs.nodes.contains(n) {
            let e = choose|e: (u64, u64)|
                #[trigger] edge_within(arcs, upto1, bound1, e) && (e.0 == n || e.1 == n);
            assert(edge_within(arcs, upto2, bound2, e));
        }
        if rhs.nodes.contains(n) {
            let e = choose|e: (u64, u64)|
                #[trigger] edge_within(arcs, upto2, bound2, e) && (e.0 == n || e.1 == n);
            assert(edge_within(arcs, upto1, bound1, e));
        }
    }
    assert(lhs.nodes =~= rhs.nodes);
}

/// Before the first meeting on circle `i` is left, no edge of that circle
/// is due.
proof fn lemma_first_adds_nothing(arcs: Seq<Seq<u64>>, i: int, a: int)
    requires
        0 <= i < arcs.len(),
        0 <= a < arcs.len(),
        a != i,
        forall|c: int| 0 <= c < arcs.len() && c != i ==> arcs[i][a] <= #[trigger] arcs[i][c],
    ensures
        graph_within(arcs, i, arcs[i][a] as int) == graph_within(arcs, i, -1),
{
    let lhs = graph_within(arcs, i, arcs[i][a] as int);
    let rhs = graph_within(arcs, i, -1);
    assert forall|e: (u64, u64)| edge_within(arcs, i, arcs[i][a] as int, e) == edge_within(
        arcs,
        i,
        -1,
        e,
    ) by {
        if edge_within(arcs, i, arcs[i][a] as int, e) {
            let (c, x, y) = choose|c: int, x: int, y: int|
                #[trigger] arc_adjacent(arcs, c, x, y) && e == arc_edge(arcs, c, x, y) && (c < i
                    || (c == i && arcs[c][y] <= arcs[i][a]));
            if c == i {
                assert(arcs[i][a] <= arcs[i][x]);
                assert(false);
            }
        }
    }
    assert(lhs.edges =~= rhs.edges);
    lemma_same_edges_same_nodes(arcs, i, arcs[i][a] as int, i, -1);
}

/// Joining the meeting at `a` to the next one, at `b`, is all that is due
/// between the two.
proof fn lemma_next_adds_one(arcs: Seq<Seq<u64>>, i: int, a: int, b: int)
    requires
        square(arcs),
        general_position(arcs),
        arc_adjacent(arcs, i, a, b),
    ensures
        graph_within(arcs, i, arcs[i][b] as int) == graph_within(
            arcs,
            i,
            arcs[i][a] as int,
        ).with_edge(arc_edge(arcs, i, a, b).0, arc_edge(arcs, i, a, b).1),
        edge_key(arc_edge(arcs, i, a, b).0, arc_edge(arcs, i, a, b).1) == arc_edge(arcs, i, a, b),
{
    let before = graph_within(arcs, i, arcs[i][a] as int);
    let after = graph_within(arcs, i, arcs[i][b] as int);
    let added = arc_edge(arcs, i, a, b);
    let goal = before.with_edge(added.0, added.1);
    assert forall|e: (u64, u64)| after.edges.contains(e) == goal.edges.contains(e) by {
        if after.edges.contains(e) {
            let (c, x, y) = choose|c: int, x: int, y: int|
                #[trigger] arc_adjacent(arcs, c, x, y) && e == arc_edge(arcs, c, x, y) && (c < i
                    || (c == i && arcs[c][y] <= arcs[i][b]));
            if c == i && arcs[i][y] > arcs[i][a] {
                assert(!(arcs[i][a] < arcs[i][y] && arcs[i][y] < arcs[i][b]));
                assert(!coincident(arcs, i, y, b));
                assert(y == b);
                assert(!(arcs[i][x] < arcs[i][a] && arcs[i][a] < arcs[i][b]));
                assert(!(arcs[i][a] < arcs[i][x] && arcs[i][x] < arcs[i][b]));
                assert(!coincident(arcs, i, x, a));
                assert(x == a);
            } else {
                assert(edge_within(arcs, i, arcs[i][a] as int, e));
            }
        }
        if goal.edges.contains(e) {
            if e == added {
                assert(arc_adjacent(arcs, i, a, b));
            } else {
                assert(edge_within(arcs, i, arcs[i][a] as int, e));
                let (c, x, y) = choose|c: int, x: int, y: int|
                    #[trigger] arc_adjacent(arcs, c, x, y) && e == arc_edge(arcs, c, x, y) && (c
                        < i || (c == i && arcs[c][y] <= arcs[i][a]));
                assert(arc_adjacent(arcs, c, x, y));
            }
            assert(edge_within(arcs, i, arcs[i][b] as int, e));
        }
    }
    assert(after.edges =~= goal.edges);
    assert forall|n: u64| after.nodes.contains(n) == goal.nodes.contains(n) by {
        if after.nodes.contains(n) {
            let e = choose|e: (u64, u64)|
                #[trigger] edge_within(arcs, i, arcs[i][b] as int, e) && (e.0 == n || e.1 == n);
            assert(goal.edges.contains(e));
            if e != added {
                assert(edge_within(arcs, i, arcs[i][a] as int, e));
            }
        }
        if goal.nodes.contains(n) {
            if n == added.0 || n == added.1 {
                assert(after.edges.contains(added));
                assert(edge_within(arcs, i, arcs[i][b] as int, added));
            } else {
                let e = choose|e: (u64, u64)|
                    #[trigger] edge_within(arcs, i, arcs[i][a] as int, e) && (e.0 == n || e.1
                        == n);
                assert(after.edges.contains(e));
                assert(edge_within(arcs, i, arcs[i][b] as int, e));
            }
        }
    }
    assert(after.nodes =~= goal.nodes);
}

/// Once the last meeting on circle `i` is reached, every edge of that
/// circle is there.
proof fn lemma_last_completes(arcs: Seq<Seq<u64>>, i: int, a: int)
    requires
        0 <= i < arcs.len(),
        0 <= a < arcs.len(),
        a != i,
        forall|c: int| 0 <= c < arcs.len() && c != i ==> #[trigger] arcs[i][c] <= arcs[i][a],
    ensures
        graph_within(arcs, i, arcs[i][a] as int) == graph_within(arcs, i + 1, -1),
{
    let next = i + 1;
    let lhs = graph_within(arcs, i, arcs[i][a] as int);
    let rhs = graph_within(arcs, next, -1);
    assert forall|e: (u64, u64)| edge_within(arcs, i, arcs[i][a] as int, e) == edge_within(
        arcs,
        next,
        -1,
        e,
    ) by {
        if edge_within(arcs, next, -1, e) {
            let (c, x, y) = choose|c: int, x: int, y: int|
                #[trigger] arc_adjacent(arcs, c, x, y) && e == arc_edge(arcs, c, x, y) && (c
                    < next || (c == next && arcs[c][y] <= -1));
            assert(arcs[c][y] >= 0);
            if c == i {
                assert(arcs[i][y] <= arcs[i][a]);
            }
            assert(edge_within(arcs, i, arcs[i][a] as int, e));
        }
        if edge_within(arcs, i, arcs[i][a] as int, e) {
            let (c, x, y) = choose|c: int, x: int, y: int|
                #[trigger] arc_adjacent(arcs, c, x, y) && e == arc_edge(arcs, c, x, y) && (c < i
                    || (c == i && arcs[c][y] <= arcs[i][a]));
            assert(arc_adjacent(arcs, c, x, y) && c < next);
            assert(edge_within(arcs, next, -1, e));
        }
    }
    assert(lhs.edges =~= rhs.edges);
    lemma_same_edges_same_nodes(arcs, i, arcs[i][a] as int, next, -1);
}

/// A circle without another circle has no meetings to join.
proof fn lemma_lone_circle(arcs: Seq<Seq<u64>>, i: int)
    requires
        arcs.len() == 1,
        i == 0,
    ensures
        graph_within(arcs, i, -1) == graph_within(arcs, i + 1, -1),
{
    let next = i + 1;
    let none: int = -1;
    let lhs = graph_within(arcs, i, none);
    let rhs = graph_within(arcs, next, none);
    assert forall|e: (u64, u64)|
        edge_within(arcs, i, none, e) == edge_within(arcs, next, none, e) by {
        if edge_within(arcs, next, -1, e) {
            let (c, x, y) = choose|c: int, x: int, y: int|
                #[trigger] arc_adjacent(arcs, c, x, y) && e == arc_edge(arcs, c, x, y) && (c
                    < next || (c == next && arcs[c][y] <= -1));
            assert(false);
        }
        if edge_within(arcs, i, -1, e) {
            let (c, x, y) = choose|c: int, x: int, y: int|
                #[trigger] arc_adjacent(arcs, c, x, y) && e == arc_edge(arcs, c, x, y) && (c < i
                    || (c == i && arcs[c][y] <= -1));
            assert(false);
        }
    }
    assert(lhs.edges =~= rhs.edges);
    lemma_same_edges_same_nodes(arcs, i, none, next, none);
}

} // verus!
