//! Finding the edges of the drawing that cross, and what that means for
//! each node.
//!
//! Positions are points of an integer grid. Whether two segments meet is
//! `geo`'s answer; which pairs of edges are asked about, how the crossings
//! are counted and what state each node is in is decided here.

use geo::Coord;
use geo::Intersects;
use geo::Line;
use vstd::prelude::*;

verus! {

/// Coordinates lie strictly between `-COORD_LIMIT` and `COORD_LIMIT`, so
/// that products of their differences fit in 64 bits.
pub const COORD_LIMIT: i64 = 1073741824;

/// Whether `v` can be a coordinate.
pub open spec fn coord_in_range(v: int) -> bool {
    -COORD_LIMIT < v < COORD_LIMIT
}

/// A position on the grid.
#[derive(Clone, Copy, Debug)]
pub struct Point {
    x: i64,
    y: i64,
}

impl View for Point {
    type V = (int, int);

    closed spec fn view(&self) -> (int, int) {
        (self.x as int, self.y as int)
    }
}

impl Point {
    /// Both coordinates are in range.
    #[verifier::type_invariant]
    pub open spec fn inv(&self) -> bool {
        coord_in_range(self@.0) && coord_in_range(self@.1)
    }

    /// The point `(x, y)`, or `None` where a coordinate is out of range.
    pub fn new(x: i64, y: i64) -> (r: Option<Self>)
        ensures
            r.is_some() == (coord_in_range(x as int) && coord_in_range(y as int)),
            r matches Some(p) ==> p@ == (x as int, y as int),
    {
        if -COORD_LIMIT < x && x < COORD_LIMIT && -COORD_LIMIT < y && y < COORD_LIMIT {
            Some(Point { x, y })
        } else {
            None
        }
    }

    pub fn x(&self) -> (x: i64)
        ensures
            x == self@.0,
            coord_in_range(x as int),
    {
        proof {
            use_type_invariant(self);
        }
        self.x
    }

    pub fn y(&self) -> (y: i64)
        ensures
            y == self@.1,
            coord_in_range(y as int),
    {
        proof {
            use_type_invariant(self);
        }
        self.y
    }
}

/// Whether the segment from `p_start` to `p_end` and the segment from
/// `q_start` to `q_end` have a point in common, as `geo` finds it.
pub uninterp spec fn segments_meet(
    p_start: (int, int),
    p_end: (int, int),
    q_start: (int, int),
    q_end: (int, int),
) -> bool;

/// `geo`'s `Intersects::intersects` of the line from `p_start` to `p_end`
/// with the line from `q_start` to `q_end`, both over `i64`. On integers
/// `geo` decides by comparing coordinates and by the sign of the difference
/// of two products of coordinate differences; with every coordinate in
/// range none of these overflows.
#[verifier::external_body]
fn lines_intersect(p_start: &Point, p_end: &Point, q_start: &Point, q_end: &Point) -> (r: bool)
    requires
        p_start.inv(),
        p_end.inv(),
        q_start.inv(),
        q_end.inv(),
    ensures
        r == segments_meet(p_start@, p_end@, q_start@, q_end@),
{
    let p = Line::new(Coord { x: p_start.x, y: p_start.y }, Coord { x: p_end.x, y: p_end.y });
    let q = Line::new(Coord { x: q_start.x, y: q_start.y }, Coord { x: q_end.x, y: q_end.y });
    p.intersects(&q)
}

/// Whether the segment from `p_start` to `p_end` meets the segment from
/// `q_start` to `q_end`.
pub fn intersects(p_start: &Point, p_end: &Point, q_start: &Point, q_end: &Point) -> (r: bool)
    ensures
        r == segments_meet(p_start@, p_end@, q_start@, q_end@),
{
    proof {
        use_type_invariant(p_start);
        use_type_invariant(p_end);
        use_type_invariant(q_start);
        use_type_invariant(q_end);
    }
    lines_intersect(p_start, p_end, q_start, q_end)
}

/// An edge of the drawing: the ids of the two nodes that it joins.
#[derive(Clone, Copy, Debug, PartialEq, Eq, Hash, Structural)]
pub struct Edge {
    pub a: u64,
    pub b: u64,
}

impl Edge {
    /// Whether `node` is an end of the edge.
    pub open spec fn touches(self, node: u64) -> bool {
        self.a == node || self.b == node
    }

    /// Whether the two edges have an end in common. Ends are compared by
    /// id, not by where they are.
    pub open spec fn adjacent(self, other: Edge) -> bool {
        self.a == other.a || self.a == other.b || self.b == other.a || self.b == other.b
    }

    /// Whether `node` is an end of the edge.
    pub fn has_end(&self, node: u64) -> (r: bool)
        ensures
            r == self.touches(node),
    {
        self.a == node || self.b == node
    }

    /// Whether the two edges have an end in common.
    pub fn shares_end(&self, other: &Edge) -> (r: bool)
        ensures
            r == self.adjacent(*other),
    {
        self.a == other.a || self.a == other.b || self.b == other.a || self.b == other.b
    }
}

/// An edge as it is drawn: its two ends and where they are.
#[derive(Clone, Copy, Debug)]
pub struct Segment {
    pub edge: Edge,
    pub start: Point,
    pub end: Point,
}

/// A node that is on show, and where.
#[derive(Clone, Copy, Debug)]
pub struct Placed {
    pub node: u64,
    pub at: Point,
}

/// Where `node` is, by the first entry for it; `None` where it has none.
pub open spec fn position_in(placed: Seq<Placed>, node: u64) -> Option<Point>
    decreases placed.len(),
{
    if placed.len() == 0 {
        None
    } else if placed[0].node == node {
        Some(placed[0].at)
    } else {
        position_in(placed.drop_first(), node)
    }
}

/// The edges as they are drawn, in the order of `edges`. An edge with an
/// end that is nowhere is left out.
pub open spec fn drawn(edges: Seq<Edge>, placed: Seq<Placed>) -> Seq<Segment>
    decreases edges.len(),
{
    if edges.len() == 0 {
        Seq::empty()
    } else {
        let before = drawn(edges.drop_last(), placed);
        let edge = edges.last();
        match (position_in(placed, edge.a), position_in(placed, edge.b)) {
            (Some(start), Some(end)) => before.push(Segment { edge, start, end }),
            _ => before,
        }
    }
}

/// Where `node` is. A node that is hidden, or gone, is nowhere.
pub fn position_of(placed: &Vec<Placed>, node: u64) -> (r: Option<Point>)
    ensures
        r == position_in(placed@, node),
{
    let mut i: usize = 0;
    proof {
        assert(placed@.subrange(0, placed.len() as int) =~= placed@);
    }
    while i < placed.len()
        invariant
            i <= placed.len(),
            position_in(placed@, node) == position_in(
                placed@.subrange(i as int, placed.len() as int),
                node,
            ),
        decreases placed.len() - i,
    {
        let ghost rest = placed@.subrange(i as int, placed.len() as int);
        proof {
            assert(rest[0] == placed@[i as int]);
            assert(rest.drop_first() =~= placed@.subrange(i + 1, placed.len() as int));
        }
        if placed[i].node == node {
            return Some(placed[i].at);
        }
        i = i + 1;
    }
    proof {
        assert(placed@.subrange(placed.len() as int, placed.len() as int).len() == 0);
    }
    None
}

/// The edges as they are drawn now. An edge with an end that is nowhere,
/// as in the middle of a change, is skipped for this look at the drawing.
pub fn segments_of(edges: &Vec<Edge>, placed: &Vec<Placed>) -> (r: Vec<Segment>)
    ensures
        r@ == drawn(edges@, placed@),
{
    let mut segments: Vec<Segment> = Vec::new();
    let mut i: usize = 0;
    while i < edges.len()
        invariant
            i <= edges.len(),
            segments@ == drawn(edges@.subrange(0, i as int), placed@),
        decreases edges.len() - i,
    {
        let edge = edges[i];
        proof {
            let upto = edges@.subrange(0, i + 1);
            assert(upto.drop_last() =~= edges@.subrange(0, i as int));
            assert(upto.last() == edge);
        }
        match (position_of(placed, edge.a), position_of(placed, edge.b)) {
            (Some(start), Some(end)) => {
                segments.push(Segment { edge, start, end });
            },
            _ => {},
        }
        i = i + 1;
    }
    proof {
        assert(edges@.subrange(0, edges.len() as int) =~= edges@);
    }
    segments
}

/// Whether the two drawn edges cross: they have no end in common, and
/// their segments meet.
pub open spec fn crosses(first: Segment, second: Segment) -> bool {
    !first.edge.adjacent(second.edge) && segments_meet(
        second.start@,
        second.end@,
        first.start@,
        first.end@,
    )
}

/// Whether `i` and `j` are the places of two drawn edges that cross, the
/// earlier one first.
pub open spec fn crosses_at(segments: Seq<Segment>, i: usize, j: usize) -> bool {
    i < j < segments.len() && crosses(segments[i as int], segments[j as int])
}

/// Whether the pair `p` comes before the pair `q`, by first place and then
/// by second.
pub open spec fn pair_before(p: (usize, usize), q: (usize, usize)) -> bool {
    p.0 < q.0 || (p.0 == q.0 && p.1 < q.1)
}

/// Whether `pairs` lists exactly the crossings among `segments`, each once,
/// in order.
pub open spec fn lists_crossings(segments: Seq<Segment>, pairs: Seq<(usize, usize)>) -> bool {
    &&& forall|k: int|
        0 <= k < pairs.len() ==> crosses_at(segments, (#[trigger] pairs[k]).0, pairs[k].1)
    &&& forall|i: usize, j: usize| #[trigger]
        crosses_at(segments, i, j) ==> pairs.contains((i, j))
    &&& forall|k: int, l: int|
        0 <= k < l < pairs.len() ==> pair_before(#[trigger] pairs[k], #[trigger] pairs[l])
}

/// Whether two drawn edges cross. Edges with an end in common never do,
/// wherever they are drawn.
pub fn segments_cross(first: &Segment, second: &Segment) -> (r: bool)
    ensures
        r == crosses(*first, *second),
        first.edge.adjacent(second.edge) ==> !r,
{
    if first.edge.shares_end(&second.edge) {
        return false;
    }
    intersects(&second.start, &second.end, &first.start, &first.end)
}

/// The crossings that `pairs` lists among those before place `(i, j)`.
spec fn lists_crossings_before(
    segments: Seq<Segment>,
    pairs: Seq<(usize, usize)>,
    i: usize,
    j: usize,
) -> bool {
    &&& forall|k: int|
        0 <= k < pairs.len() ==> crosses_at(segments, (#[trigger] pairs[k]).0, pairs[k].1)
            && pair_before(pairs[k], (i, j))
    &&& forall|x: usize, y: usize| #[trigger]
        crosses_at(segments, x, y) && pair_before((x, y), (i, j)) ==> pairs.contains((x, y))
    &&& forall|k: int, l: int|
        0 <= k < l < pairs.len() ==> pair_before(#[trigger] pairs[k], #[trigger] pairs[l])
}

/// Every pair of drawn edges that cross, as the places of the two in
/// `segments`, the earlier one first; the pairs come in order of first
/// place, then second. The number of crossings is the length of the list.
pub fn crossing_pairs(segments: &Vec<Segment>) -> (pairs: Vec<(usize, usize)>)
    ensures
        lists_crossings(segments@, pairs@),
        forall|k: int|
            0 <= k < pairs.len() ==> !segments[(#[trigger] pairs[k]).0 as int].edge.adjacent(
                segments[pairs[k].1 as int].edge,
            ),
{
    let mut pairs: Vec<(usize, usize)> = Vec::new();
    let count = segments.len();
    let mut i: usize = 0;
    while i < count
        invariant
            i <= count,
            count == segments.len(),
            lists_crossings_before(segments@, pairs@, i, 0),
        decreases count - i,
    {
        let mut j: usize = i + 1;
        proof {
            assert forall|x: usize, y: usize| #[trigger]
                crosses_at(segments@, x, y) && pair_before((x, y), (i, j)) implies pairs@.contains(
                (x, y),
            ) by {
                assert(pair_before((x, y), (i, 0)));
            }
        }
        while j < count
            invariant
                i < j <= count,
                count == segments.len(),
                lists_crossings_before(segments@, pairs@, i, j),
            decreases count - j,
        {
            let ghost before = pairs@;
            let hit = segments_cross(&segments[i], &segments[j]);
            if hit {
                pairs.push((i, j));
            }
            proof {
                let next = (j + 1) as usize;
                assert forall|x: usize, y: usize| #[trigger]
                    crosses_at(segments@, x, y) && pair_before((x, y), (i, next)) implies pairs@.contains(
                    (x, y),
                ) by {
                    if pair_before((x, y), (i, j)) {
                        assert(before.contains((x, y)));
                        let k = choose|k: int| 0 <= k < before.len() && before[k] == (x, y);
                        assert(pairs@[k] == (x, y));
                    } else {
                        assert(x == i && y == j);
                        assert(pairs@[pairs@.len() - 1] == (x, y));
                    }
                }
                assert forall|k: int| 0 <= k < pairs@.len() implies crosses_at(
                    segments@,
                    (#[trigger] pairs@[k]).0,
                    pairs@[k].1,
                ) && pair_before(pairs@[k], (i, next)) by {
                    if k < before.len() {
                        assert(pairs@[k] == before[k]);
                    }
                }
                assert forall|k: int, l: int| 0 <= k < l < pairs@.len() implies pair_before(
                    #[trigger] pairs@[k],
                    #[trigger] pairs@[l],
                ) by {
                    assert(pairs@[k] == before[k]);
                    if l < before.len() {
                        assert(pairs@[l] == before[l]);
                    }
                }
            }
            j = j + 1;
        }
        proof {
            let next = (i + 1) as usize;
            assert forall|x: usize, y: usize| #[trigger]
                crosses_at(segments@, x, y) && pair_before((x, y), (next, 0)) implies pairs@.contains(
                (x, y),
            ) by {
                assert(pair_before((x, y), (i, j)));
            }
        }
        i = i + 1;
    }
    proof {
        assert forall|x: usize, y: usize| #[trigger] crosses_at(segments@, x, y) implies pairs@.contains(
            (x, y),
        ) by {
            assert(pair_before((x, y), (i, 0)));
        }
    }
    pairs
}

/// What is known of a node: nothing yet; that no crossing involves it; or
/// that one does.
#[derive(Clone, Copy, Debug, PartialEq, Eq, Structural)]
pub enum LineIntersects {
    Unsolved,
    Solved,
    Intersecting,
}

impl LineIntersects {
    /// The state of a node after a look at the drawing: `Intersecting` where
    /// a crossing involves the node, `Solved` where none does, whatever the
    /// state was before. `Unsolved` is the state of a node that has not been
    /// looked at.
    pub fn observe(self, implicated: bool) -> (next: LineIntersects)
        ensures
            next == if implicated {
                LineIntersects::Intersecting
            } else {
                LineIntersects::Solved
            },
    {
        if implicated {
            LineIntersects::Intersecting
        } else {
            LineIntersects::Solved
        }
    }
}

impl Default for LineIntersects {
    fn default() -> (r: Self)
        ensures
            r == LineIntersects::Unsolved,
    {
        LineIntersects::Unsolved
    }
}

/// Whether `node` is an end of one of the two edges of the pair. A place
/// beyond the list of segments names no edge.
pub open spec fn pair_touches(segments: Seq<Segment>, pair: (usize, usize), node: u64) -> bool {
    (pair.0 < segments.len() && segments[pair.0 as int].edge.touches(node)) || (pair.1
        < segments.len() && segments[pair.1 as int].edge.touches(node))
}

/// Whether `node` is an end of an edge of one of the listed pairs.
pub open spec fn implicated(segments: Seq<Segment>, pairs: Seq<(usize, usize)>, node: u64) -> bool {
    exists|k: int| 0 <= k < pairs.len() && pair_touches(segments, #[trigger] pairs[k], node)
}

/// Whether one of the listed crossings involves `node`.
pub fn is_implicated(segments: &Vec<Segment>, pairs: &Vec<(usize, usize)>, node: u64) -> (r: bool)
    ensures
        r == implicated(segments@, pairs@, node),
{
    let mut k: usize = 0;
    while k < pairs.len()
        invariant
            k <= pairs.len(),
            forall|l: int| 0 <= l < k ==> !pair_touches(segments@, #[trigger] pairs@[l], node),
        decreases pairs.len() - k,
    {
        let pair = pairs[k];
        let first = pair.0 < segments.len() && segments[pair.0].edge.has_end(node);
        let second = pair.1 < segments.len() && segments[pair.1].edge.has_end(node);
        if first || second {
            return true;
        }
        k = k + 1;
    }
    false
}

/// The state of each listed node after a look at the drawing, given the
/// crossings found in it.
pub fn node_statuses(nodes: &Vec<u64>, segments: &Vec<Segment>, pairs: &Vec<(usize, usize)>) -> (r:
    Vec<LineIntersects>)
    ensures
        r.len() == nodes.len(),
        forall|n: int|
            0 <= n < nodes.len() ==> #[trigger] r[n] == if implicated(
                segments@,
                pairs@,
                nodes[n],
            ) {
                LineIntersects::Intersecting
            } else {
                LineIntersects::Solved
            },
{
    let mut statuses: Vec<LineIntersects> = Vec::new();
    let mut n: usize = 0;
    while n < nodes.len()
        invariant
            n <= nodes.len(),
            statuses.len() == n,
            forall|m: int|
                0 <= m < n ==> #[trigger] statuses[m] == if implicated(
                    segments@,
                    pairs@,
                    nodes[m],
                ) {
                    LineIntersects::Intersecting
                } else {
                    LineIntersects::Solved
                },
        decreases nodes.len() - n,
    {
        let hit = is_implicated(segments, pairs, nodes[n]);
        statuses.push(LineIntersects::Unsolved.observe(hit));
        n = n + 1;
    }
    statuses
}

/// What a look at the drawing finds.
pub struct Highlight {
    /// The pairs of edges that cross, by their places among the segments.
    pub crossings: Vec<(usize, usize)>,
    /// The state of each node, in the order in which the nodes were listed.
    pub statuses: Vec<LineIntersects>,
}

impl Highlight {
    /// The number of crossings. The puzzle is solved when it is zero.
    pub fn crossing_count(&self) -> (n: usize)
        ensures
            n == self.crossings@.len(),
    {
        self.crossings.len()
    }
}

/// Looks at the drawing: finds every pair of edges without a common end
/// whose segments meet, and from them the state of each listed node.
pub fn highlight_edges(nodes: &Vec<u64>, segments: &Vec<Segment>) -> (r: Highlight)
    ensures
        lists_crossings(segments@, r.crossings@),
        forall|k: int|
            0 <= k < r.crossings.len() ==> !segments[(#[trigger] r.crossings[k]).0 as int].edge.adjacent(
                segments[r.crossings[k].1 as int].edge,
            ),
        r.statuses.len() == nodes.len(),
        forall|n: int|
            0 <= n < nodes.len() ==> #[trigger] r.statuses[n] == if implicated(
                segments@,
                r.crossings@,
                nodes[n],
            ) {
                LineIntersects::Intersecting
            } else {
                LineIntersects::Solved
            },
{
    let crossings = crossing_pairs(segments);
    let statuses = node_statuses(nodes, segments, &crossings);
    Highlight { crossings, statuses }
}

} // verus!
