//! Shrinking a topology: pruning the nodes that hang loose, then contracting
//! the graph node by node down to a target size, with every intermediate
//! graph kept so that the puzzle can grow back.

use crate::builder::circle_graph;
use crate::builder::general_position;
use crate::builder::make_graph;
use crate::builder::Arrangement;
use crate::graph::edge_key;
use crate::graph::GraphView;
use crate::graph::TopologyGraph;
use crate::random::some_positive;
use crate::random::uniform_index;
use crate::random::weighted_index;
use rand::rngs::StdRng;
use vstd::arithmetic::power2::lemma2_to64;
use vstd::arithmetic::power2::lemma_pow2_strictly_increases;
use vstd::arithmetic::power2::lemma_pow2_unfold;
use vstd::arithmetic::power2::pow2;
use vstd::prelude::*;

verus! {

/// The sampling weight of a node with `degree` edges: the integer part of
/// the base-2 logarithm of the degree, and 0 for a node of degree 0 or 1.
pub open spec fn weight_of_degree(degree: nat) -> nat
    decreases degree,
{
    if degree <= 1 {
        0
    } else {
        1 + weight_of_degree(degree / 2)
    }
}

/// A positive degree lies between two to its weight and the next power of two.
pub proof fn lemma_weight_brackets_degree(degree: nat)
    requires
        degree > 0,
    ensures
        pow2(weight_of_degree(degree)) <= degree < pow2(weight_of_degree(degree) + 1),
    decreases degree,
{
    if degree <= 1 {
        lemma2_to64();
    } else {
        lemma_weight_brackets_degree(degree / 2);
        let w = weight_of_degree(degree / 2);
        lemma_pow2_unfold(w + 1);
        lemma_pow2_unfold(w + 2);
    }
}

/// A node weighs more than nothing exactly when it has two edges or more.
pub proof fn lemma_weight_positive(degree: nat)
    ensures
        weight_of_degree(degree) > 0 <==> degree >= 2,
{
}

/// The weight with which a node of the given degree is sampled.
pub fn degree_weight(degree: usize) -> (w: u32)
    ensures
        w == weight_of_degree(degree as nat),
        w < 64,
        degree > 0 ==> pow2(w as nat) <= degree < pow2(w as nat + 1),
{
    let mut rest: usize = degree;
    let mut w: u32 = 0;
    proof {
        lemma2_to64();
    }
    while rest > 1
        invariant
            weight_of_degree(degree as nat) == w + weight_of_degree(rest as nat),
            rest * pow2(w as nat) <= degree,
            w < 64,
            rest == 0 ==> degree == 0,
        decreases rest,
    {
        proof {
            lemma_pow2_unfold(w as nat + 1);
            assert((rest / 2) * (2 * pow2(w as nat)) <= rest * pow2(w as nat)) by (nonlinear_arith)
                requires
                    rest >= 2,
            ;
            assert(2 * pow2(w as nat) <= rest * pow2(w as nat)) by (nonlinear_arith)
                requires
                    rest >= 2,
            ;
            if w + 1 >= 64 {
                lemma2_to64();
                if w + 1 > 64 {
                    lemma_pow2_strictly_increases(64, w as nat + 1);
                }
                assert(pow2(w as nat + 1) >= pow2(64));
                assert(false);
            }
        }
        rest = rest / 2;
        w = w + 1;
    }
    proof {
        if degree > 0 {
            lemma_weight_brackets_degree(degree as nat);
        }
    }
    w
}

/// The weights of the listed nodes in `graph`, in the order of the list.
pub open spec fn weights_in(graph: GraphView, nodes: Seq<u64>) -> Seq<u32> {
    Seq::new(nodes.len(), |i: int| weight_of_degree(graph.degree(nodes[i])) as u32)
}

/// The sampling weight of each listed node, by its degree in `graph`.
pub fn degree_weights(graph: &TopologyGraph, nodes: &Vec<u64>) -> (weights: Vec<u32>)
    ensures
        weights@ == weights_in(graph@, nodes@),
{
    let mut weights: Vec<u32> = Vec::new();
    let mut i: usize = 0;
    while i < nodes.len()
        invariant
            i <= nodes.len(),
            weights@ == weights_in(graph@, nodes@.subrange(0, i as int)),
        decreases nodes.len() - i,
    {
        let w = degree_weight(graph.degree(nodes[i]));
        weights.push(w);
        i = i + 1;
        proof {
            assert(weights@ =~= weights_in(graph@, nodes@.subrange(0, i as int)));
        }
    }
    proof {
        assert(nodes@.subrange(0, nodes.len() as int) =~= nodes@);
    }
    weights
}

/// Draws one of `nodes` at random, each with a chance in proportion to its
/// weight in `graph`; where every weight is zero, each with the same chance.
///
/// The result is `None` exactly when the list is empty. Whatever is drawn is
/// one of the listed nodes, and one of positive weight where there is any.
pub fn degree_weighted_random(graph: &TopologyGraph, rng: &mut StdRng, nodes: &Vec<u64>) -> (r:
    Option<u64>)
    ensures
        r.is_none() == (nodes.len() == 0),
        r matches Some(n) ==> nodes@.contains(n) && (some_positive(weights_in(graph@, nodes@))
            ==> weight_of_degree(graph@.degree(n)) > 0),
{
    if nodes.len() == 0 {
        return None;
    }
    let weights = degree_weights(graph, nodes);
    match weighted_index(rng, &weights) {
        Some(i) => {
            assert(weights@[i as int] == weight_of_degree(graph@.degree(nodes@[i as int])) as u32);
            Some(nodes[i])
        },
        None => {
            let i = uniform_index(rng, nodes.len());
            Some(nodes[i])
        },
    }
}

impl GraphView {
    /// The graph after a single pass of pruning: the nodes with two edges or
    /// more, and the edges between them.
    pub open spec fn pruned(self) -> GraphView {
        GraphView {
            nodes: self.nodes.filter(|n: u64| self.degree(n) > 1),
            edges: self.edges.filter(
                |e: (u64, u64)| self.degree(e.0) > 1 && self.degree(e.1) > 1,
            ),
        }
    }

    /// The graph after `other` has been merged into `target`: `other` is
    /// gone, and `target` is joined to every node that `other` was joined to.
    pub open spec fn merged(self, target: u64, other: u64) -> GraphView {
        GraphView {
            nodes: self.nodes.remove(other),
            edges: Set::new(
                |e: (u64, u64)|
                    e.0 < e.1 && e.0 != other && e.1 != other && (self.edges.contains(e) || (e.0
                        == target && self.has_edge(other, e.1)) || (e.1 == target
                        && self.has_edge(other, e.0))),
            ),
        }
    }
}

/// The graph in the middle of pruning: of the nodes in `seen`, those with at
/// most one edge are gone.
spec fn pruned_among(graph: GraphView, seen: Set<u64>) -> GraphView {
    GraphView {
        nodes: graph.nodes.filter(|n: u64| !(seen.contains(n) && graph.degree(n) <= 1)),
        edges: graph.edges.filter(
            |e: (u64, u64)|
                !(seen.contains(e.0) && graph.degree(e.0) <= 1) && !(seen.contains(e.1)
                    && graph.degree(e.1) <= 1),
        ),
    }
}

/// Removes, in a single pass, every node that has at most one edge. Degrees
/// are those of the graph handed in: a node that loses a neighbour in the
/// pass stays.
pub fn prune(graph: &TopologyGraph) -> (r: TopologyGraph)
    ensures
        r@ == graph@.pruned(),
        r@.wf(),
{
    let nodes = graph.nodes();
    let mut pruned = graph.clone();
    let mut i: usize = 0;
    proof {
        use_type_invariant(graph);
        assert(nodes@.subrange(0, 0).to_set() =~= Set::<u64>::empty());
        assert(pruned@.nodes =~= pruned_among(graph@, Set::empty()).nodes);
        assert(pruned@.edges =~= pruned_among(graph@, Set::empty()).edges);
    }
    while i < nodes.len()
        invariant
            i <= nodes.len(),
            graph@.wf(),
            pruned@ == pruned_among(graph@, nodes@.subrange(0, i as int).to_set()),
        decreases nodes.len() - i,
    {
        let n = nodes[i];
        let ghost seen = nodes@.subrange(0, i as int).to_set();
        let ghost next = nodes@.subrange(0, i + 1).to_set();
        proof {
            assert(nodes@.subrange(0, i + 1) =~= nodes@.subrange(0, i as int).push(n));
            assert(next =~= seen.insert(n)) by {
                assert forall|x: u64| next.contains(x) == seen.insert(n).contains(x) by {
                    if nodes@.subrange(0, i as int).contains(x) {
                        let j = choose|j: int|
                            0 <= j < i && nodes@.subrange(0, i as int)[j] == x;
                        assert(nodes@.subrange(0, i + 1)[j] == x);
                    }
                    if x == n {
                        assert(nodes@.subrange(0, i + 1)[i as int] == x);
                    }
                }
            }
        }
        if graph.degree(n) <= 1 {
            pruned.remove_node(n);
        }
        proof {
            assert(pruned@.nodes =~= pruned_among(graph@, next).nodes);
            assert(pruned@.edges =~= pruned_among(graph@, next).edges);
        }
        i = i + 1;
    }
    proof {
        assert(nodes@.subrange(0, nodes.len() as int) =~= nodes@);
        assert(pruned@.nodes =~= graph@.pruned().nodes);
        assert(pruned@.edges =~= graph@.pruned().edges) by {
            assert forall|e: (u64, u64)| graph@.edges.contains(e) implies nodes@.to_set().contains(
                e.0,
            ) && nodes@.to_set().contains(e.1) by {}
        }
        use_type_invariant(&pruned);
    }
    pruned
}

/// The edges in the middle of a merge: those of `graph`, and an edge from
/// `target` to each node of `around` but `target` itself.
spec fn edges_redirected(graph: GraphView, target: u64, around: Seq<u64>) -> Set<(u64, u64)> {
    Set::new(
        |e: (u64, u64)|
            graph.edges.contains(e) || exists|j: int|
                0 <= j < around.len() && #[trigger] around[j] != target && e == edge_key(
                    target,
                    around[j],
                ),
    )
}

/// Merges `other` into `target`: every edge from `other` to a third node
/// becomes an edge from `target` to that node, unless the two are joined
/// already; then `other` is removed, with what edges it still has.
pub fn merge_nodes(graph: &mut TopologyGraph, target: u64, other: u64)
    requires
        target != other,
        old(graph)@.nodes.contains(target),
    ensures
        final(graph)@ == old(graph)@.merged(target, other),
{
    let ghost before = graph@;
    let around = graph.neighbors(other);
    let mut i: usize = 0;
    proof {
        use_type_invariant(&*graph);
        before.lemma_neighbors(other);
        assert(graph@.edges =~= edges_redirected(before, target, around@.subrange(0, 0)));
    }
    while i < around.len()
        invariant
            i <= around.len(),
            before.wf(),
            before.nodes.contains(target),
            around@.to_set() == before.neighbors(other),
            graph@.nodes == before.nodes,
            graph@.edges == edges_redirected(before, target, around@.subrange(0, i as int)),
        decreases around.len() - i,
    {
        let k = around[i];
        let ghost done = around@.subrange(0, i as int);
        let ghost next = around@.subrange(0, i + 1);
        proof {
            assert(around@.to_set().contains(k));
            assert(before.neighbors(other).contains(k));
            before.lemma_neighbors(other);
            assert(before.nodes.contains(k));
            assert(next =~= done.push(k));
        }
        if k != target {
            graph.add_edge(target, k);
            proof {
                assert(graph@.nodes =~= before.nodes);
            }
        }
        proof {
            assert(graph@.edges =~= edges_redirected(before, target, next)) by {
                assert forall|e: (u64, u64)| graph@.edges.contains(e) implies edges_redirected(
                    before,
                    target,
                    next,
                ).contains(e) by {
                    if before.edges.contains(e) {
                    } else if k != target && e == edge_key(target, k) {
                        assert(next[i as int] == k);
                    } else {
                        assert(edges_redirected(before, target, done).contains(e));
                        let j = choose|j: int|
                            0 <= j < done.len() && #[trigger] done[j] != target && e == edge_key(
                                target,
                                done[j],
                            );
                        assert(next[j] == done[j]);
                    }
                }
                assert forall|e: (u64, u64)|
                    edges_redirected(before, target, next).contains(e) implies graph@.edges.contains(
                    e,
                ) by {
                    if !before.edges.contains(e) {
                        let j = choose|j: int|
                            0 <= j < next.len() && #[trigger] next[j] != target && e == edge_key(
                                target,
                                next[j],
                            );
                        if j < i {
                            assert(done[j] == next[j]);
                            assert(edges_redirected(before, target, done).contains(e));
                        }
                    }
                }
            }
        }
        i = i + 1;
    }
    graph.remove_node(other);
    proof {
        assert(around@.subrange(0, around.len() as int) =~= around@);
        let goal = before.merged(target, other);
        assert(graph@.nodes =~= goal.nodes);
        assert(graph@.edges =~= goal.edges) by {
            assert forall|e: (u64, u64)| graph@.edges.contains(e) implies goal.edges.contains(
                e,
            ) by {
                if !before.edges.contains(e) {
                    let j = choose|j: int|
                        0 <= j < around.len() && #[trigger] around@[j] != target && e == edge_key(
                            target,
                            around@[j],
                        );
                    assert(around@.to_set().contains(around@[j]));
                    assert(before.has_edge(other, around@[j]));
                }
            }
            assert forall|e: (u64, u64)| goal.edges.contains(e) implies graph@.edges.contains(
                e,
            ) by {
                if !before.edges.contains(e) {
                    let k = if e.0 == target {
                        e.1
                    } else {
                        e.0
                    };
                    assert(before.neighbors(other).contains(k));
                    assert(around@.to_set().contains(k));
                    let j = choose|j: int| 0 <= j < around@.len() && around@[j] == k;
                    assert(around@[j] != target && e == edge_key(target, around@[j]));
                    assert(edges_redirected(before, target, around@).contains(e));
                }
            }
        }
    }
}

/// One step of contraction: what left the graph, and how.
#[derive(Clone, Copy, Debug, PartialEq, Eq, Structural)]
pub enum Contraction {
    /// `node` had no neighbour to merge with and was deleted.
    Deleted { node: u64 },
    /// `other` was merged into `target`, its neighbour.
    Merged { target: u64, other: u64 },
}

impl Contraction {
    /// Whether the step can be taken in `graph`: a deleted node is a node
    /// without edges, and a merged pair is joined by an edge.
    pub open spec fn applies_to(self, graph: GraphView) -> bool {
        match self {
            Contraction::Deleted { node } => graph.nodes.contains(node) && graph.degree(node) == 0,
            Contraction::Merged { target, other } => target != other && graph.has_edge(
                target,
                other,
            ),
        }
    }

    /// The graph that the step leaves of `graph`.
    pub open spec fn apply(self, graph: GraphView) -> GraphView {
        match self {
            Contraction::Deleted { node } => graph.without_node(node),
            Contraction::Merged { target, other } => graph.merged(target, other),
        }
    }

    /// The node that the step takes out of the graph.
    pub open spec fn removed_node(self) -> u64 {
        match self {
            Contraction::Deleted { node } => node,
            Contraction::Merged { target, other } => other,
        }
    }

    /// The node that the step takes out of the graph. After a merge, this is
    /// the node whose handle the caller hides.
    pub fn removed(&self) -> (n: u64)
        ensures
            n == self.removed_node(),
    {
        match self {
            Contraction::Deleted { node } => *node,
            Contraction::Merged { target, other } => *other,
        }
    }

    /// A step that applies to a simple graph leaves a simple graph with one
    /// node fewer.
    pub proof fn lemma_apply(self, graph: GraphView)
        requires
            graph.wf(),
            self.applies_to(graph),
        ensures
            self.apply(graph).wf(),
            graph.nodes.contains(self.removed_node()),
            self.apply(graph).nodes == graph.nodes.remove(self.removed_node()),
            self.apply(graph).nodes.len() + 1 == graph.nodes.len(),
    {
        match self {
            Contraction::Deleted { node } => {},
            Contraction::Merged { target, other } => {
                assert(graph.edges.contains(edge_key(target, other)));
                graph.lemma_merged_wf(target, other);
            },
        }
    }
}

impl GraphView {
    /// Merging one node of a simple graph into another leaves a simple graph.
    pub proof fn lemma_merged_wf(self, target: u64, other: u64)
        requires
            self.wf(),
            target != other,
            self.nodes.contains(target),
        ensures
            self.merged(target, other).wf(),
    {
        let merged = self.merged(target, other);
        let around = self.neighbors(other);
        self.lemma_neighbors(other);
        let redirected = around.map(|k: u64| edge_key(target, k));
        around.lemma_map_finite(|k: u64| edge_key(target, k));
        let all = self.edges.union(redirected);
        assert(merged.edges.subset_of(all)) by {
            assert forall|e: (u64, u64)| merged.edges.contains(e) implies all.contains(e) by {
                if !self.edges.contains(e) {
                    let k = if e.0 == target {
                        e.1
                    } else {
                        e.0
                    };
                    assert(around.contains(k));
                    assert(e == edge_key(target, k));
                    assert(redirected.contains(e));
                }
            }
        }
        vstd::set_lib::lemma_set_subset_finite(all, merged.edges);
        assert forall|e: (u64, u64)| #[trigger] merged.edges.contains(e) implies e.0 < e.1
            && merged.nodes.contains(e.0) && merged.nodes.contains(e.1) by {
            if !self.edges.contains(e) {
                let k = if e.0 == target {
                    e.1
                } else {
                    e.0
                };
                assert(around.contains(k));
            }
        }
    }
}

/// Takes one step of contraction at `node`: merges `other` into it, or,
/// where there is no `other`, deletes `node`.
pub fn contract_step(graph: &mut TopologyGraph, node: u64, other: Option<u64>) -> (step:
    Contraction)
    requires
        old(graph)@.nodes.contains(node),
        other != Some(node),
    ensures
        step == match other {
            Some(m) => Contraction::Merged { target: node, other: m },
            None => Contraction::Deleted { node },
        },
        final(graph)@ == step.apply(old(graph)@),
{
    match other {
        Some(m) => {
            merge_nodes(graph, node, m);
            Contraction::Merged { target: node, other: m }
        },
        None => {
            graph.remove_node(node);
            Contraction::Deleted { node }
        },
    }
}

/// The graphs that contraction went through, oldest first: each was put
/// aside just before the step that made the next one.
pub struct PreviousGraphs {
    stack: Vec<TopologyGraph>,
}

impl View for PreviousGraphs {
    type V = Seq<GraphView>;

    closed spec fn view(&self) -> Seq<GraphView> {
        self.stack@.map_values(|g: TopologyGraph| g@)
    }
}

/// Each graph is a simple graph with exactly one node more than the next.
pub open spec fn shrinking(history: Seq<GraphView>) -> bool {
    &&& forall|k: int| 0 <= k < history.len() ==> (#[trigger] history[k]).wf()
    &&& forall|k: int|
        0 <= k < history.len() - 1 ==> (#[trigger] history[k]).nodes.len() == history[k
            + 1].nodes.len() + 1
}

impl Default for PreviousGraphs {
    fn default() -> (r: Self)
        ensures
            r@ == Seq::<GraphView>::empty(),
    {
        PreviousGraphs::new()
    }
}

impl PreviousGraphs {
    /// An empty history.
    pub fn new() -> (r: Self)
        ensures
            r@ == Seq::<GraphView>::empty(),
    {
        let r = PreviousGraphs { stack: Vec::new() };
        proof {
            assert(r@ =~= Seq::<GraphView>::empty());
        }
        r
    }

    pub fn len(&self) -> (n: usize)
        ensures
            n == self@.len(),
    {
        self.stack.len()
    }

    pub fn is_empty(&self) -> (r: bool)
        ensures
            r == (self@.len() == 0),
    {
        self.stack.len() == 0
    }

    /// Forgets every graph.
    pub fn clear(&mut self)
        ensures
            final(self)@ == Seq::<GraphView>::empty(),
    {
        self.stack.clear();
        proof {
            assert(self@ =~= Seq::<GraphView>::empty());
        }
    }

    /// The number of nodes of each graph, oldest first.
    pub fn node_counts(&self) -> (counts: Vec<usize>)
        ensures
            counts.len() == self@.len(),
            forall|k: int| 0 <= k < counts.len() ==> counts[k] == self@[k].nodes.len(),
    {
        let mut counts: Vec<usize> = Vec::new();
        let mut i: usize = 0;
        while i < self.stack.len()
            invariant
                i <= self.stack.len(),
                counts.len() == i,
                forall|k: int| 0 <= k < i ==> counts[k] == self@[k].nodes.len(),
            decreases self.stack.len() - i,
        {
            counts.push(self.stack[i].node_count());
            i = i + 1;
        }
        counts
    }

    /// The graph that was put aside before step `k`, if there was such a
    /// step. The first is the graph that contraction began with.
    pub fn get(&self, k: usize) -> (r: Option<&TopologyGraph>)
        ensures
            r.is_some() == (k < self@.len()),
            r matches Some(graph) ==> graph@ == self@[k as int],
    {
        if k < self.stack.len() {
            Some(&self.stack[k])
        } else {
            None
        }
    }

    /// Puts a graph on top.
    fn push(&mut self, graph: TopologyGraph)
        ensures
            final(self)@ == old(self)@.push(graph@),
    {
        self.stack.push(graph);
        proof {
            assert(self@ =~= old(self)@.push(graph@));
        }
    }

    /// Takes back the last step of contraction: hands out the newest graph,
    /// which is then the puzzle's topology, and forgets it. With an empty
    /// history there is nothing to hand out, and nothing changes.
    pub fn bigger_graph(&mut self) -> (r: Option<TopologyGraph>)
        ensures
            old(self)@.len() == 0 ==> r.is_none() && final(self)@ == old(self)@,
            old(self)@.len() > 0 ==> r.is_some() && r.unwrap()@ == old(self)@.last()
                && final(self)@ == old(self)@.drop_last(),
            shrinking(old(self)@) ==> shrinking(final(self)@),
    {
        let r = self.stack.pop();
        proof {
            if old(self)@.len() > 0 {
                assert(self@ =~= old(self)@.drop_last());
            }
        }
        r
    }
}

/// What contraction did, step by step: `history[k]` is the graph before
/// step `k`, the first is `start`, and the last step leaves `end`.
pub open spec fn contraction_trace(
    start: GraphView,
    steps: Seq<Contraction>,
    history: Seq<GraphView>,
    end: GraphView,
) -> bool {
    &&& steps.len() == history.len()
    &&& steps.len() == 0 ==> end == start
    &&& steps.len() > 0 ==> history[0] == start
    &&& forall|k: int|
        0 <= k < steps.len() ==> (#[trigger] steps[k]).applies_to(history[k]) && steps[k].apply(
            history[k],
        ) == (if k + 1 < steps.len() {
            history[k + 1]
        } else {
            end
        })
}

/// A contracted topology with the way back.
pub struct Reduction {
    /// The contracted graph.
    pub graph: TopologyGraph,
    /// The graph before each step, oldest first.
    pub previous: PreviousGraphs,
    /// The steps taken, oldest first.
    pub steps: Vec<Contraction>,
}

/// Contracts `graph` until it has at most `limit_nodes` nodes.
///
/// While there are more, the current graph is put aside, a node is drawn by
/// degree weight among all nodes, and a neighbour of it by degree weight
/// among its neighbours. The neighbour is merged into the node; a node
/// without neighbours is deleted instead. Each step takes exactly one node
/// out, so there are as many steps, and as many graphs put aside, as there
/// were nodes over the limit.
pub fn contract(graph: TopologyGraph, limit_nodes: usize, rng: &mut StdRng) -> (r: Reduction)
    ensures
        contraction_trace(graph@, r.steps@, r.previous@, r.graph@),
        shrinking(r.previous@),
        r.graph@.wf(),
        r.steps.len() == if graph@.nodes.len() > limit_nodes {
            graph@.nodes.len() - limit_nodes
        } else {
            0
        },
        r.graph@.nodes.len() == if graph@.nodes.len() > limit_nodes {
            limit_nodes as nat
        } else {
            graph@.nodes.len()
        },
{
    let ghost start = graph@;
    let mut current = graph;
    let mut previous = PreviousGraphs::new();
    let mut steps: Vec<Contraction> = Vec::new();
    proof {
        use_type_invariant(&current);
    }
    while current.node_count() > limit_nodes
        invariant
            start.wf(),
            current@.wf(),
            contraction_trace(start, steps@, previous@, current@),
            shrinking(previous@),
            previous@.len() > 0 ==> previous@.last().nodes.len() == current@.nodes.len() + 1,
            start.nodes.len() == current@.nodes.len() + steps.len(),
            steps.len() > 0 ==> current@.nodes.len() >= limit_nodes,
        decreases current@.nodes.len(),
    {
        let ghost before = current@;
        let ghost old_steps = steps@;
        let ghost old_history = previous@;
        previous.push(current.clone());
        let nodes = current.nodes();
        let node = degree_weighted_random(&current, rng, &nodes).unwrap();
        let around = current.neighbors(node);
        let other = degree_weighted_random(&current, rng, &around);
        proof {
            assert(nodes@.to_set().contains(node));
            before.lemma_neighbors(node);
            if let Some(m) = other {
                assert(around@.to_set().contains(m));
                assert(before.neighbors(node).contains(m));
            }
        }
        let step = contract_step(&mut current, node, other);
        steps.push(step);
        proof {
            use_type_invariant(&current);
            step.lemma_apply(before);
            assert forall|k: int| 0 <= k < steps@.len() implies (#[trigger] steps@[k]).applies_to(
                previous@[k],
            ) && steps@[k].apply(previous@[k]) == (if k + 1 < steps@.len() {
                previous@[k + 1]
            } else {
                current@
            }) by {
                if k < old_steps.len() {
                    assert(steps@[k] == old_steps[k]);
                    assert(previous@[k] == old_history[k]);
                    assert(old_steps[k].applies_to(old_history[k]));
                }
            }
            assert forall|k: int| 0 <= k < previous@.len() - 1 implies (
            #[trigger] previous@[k]).nodes.len() == previous@[k + 1].nodes.len() + 1 by {
                assert(previous@[k] == old_history[k]);
                if k + 1 < old_history.len() {
                    assert(previous@[k + 1] == old_history[k + 1]);
                }
            }
            assert forall|k: int| 0 <= k < previous@.len() implies (#[trigger] previous@[k]).wf() by {
                if k < old_history.len() {
                    assert(previous@[k] == old_history[k]);
                }
            }
        }
    }
    Reduction { graph: current, previous, steps }
}

/// Makes the puzzle's network from an arrangement of circles in general
/// position: builds the topology of the arrangement, prunes it in a single
/// pass, and contracts what is left until it has at most `limit_nodes`
/// nodes. The first graph of the history, where there is one, is the pruned
/// topology; without a step the result is that topology itself.
pub fn make_network(arrangement: &Arrangement, limit_nodes: usize, rng: &mut StdRng) -> (r:
    Reduction)
    requires
        general_position(arrangement@),
    ensures
        contraction_trace(circle_graph(arrangement@).pruned(), r.steps@, r.previous@, r.graph@),
        shrinking(r.previous@),
        r.graph@.wf(),
        r.steps.len() == if circle_graph(arrangement@).pruned().nodes.len() > limit_nodes {
            circle_graph(arrangement@).pruned().nodes.len() - limit_nodes
        } else {
            0
        },
        r.graph@.nodes.len() == if circle_graph(arrangement@).pruned().nodes.len()
            > limit_nodes {
            limit_nodes as nat
        } else {
            circle_graph(arrangement@).pruned().nodes.len()
        },
{
    let raw = make_graph(arrangement);
    let pruned = prune(&raw);
    contract(pruned, limit_nodes, rng)
}

} // verus!
