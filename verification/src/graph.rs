//! The puzzle's topology: a simple undirected graph over integer node ids.
//!
//! The graph lives in a `petgraph` graph map. Verus does not look inside that
//! map: two names, [`graph_nodes`] and [`graph_edges`], stand for what it
//! holds, and one trusted wrapper per `petgraph` method says what the method
//! does to them. Everything else in this crate is proved against those
//! wrappers.

use petgraph::graphmap::GraphMap;
use petgraph::graphmap::UnGraphMap;
use petgraph::Undirected;
use std::hash::BuildHasher;
use vstd::prelude::*;

verus! {

#[verifier::external_type_specification]
#[verifier::external_body]
pub struct ExUndirected(Undirected);

#[verifier::external_type_specification]
#[verifier::external_body]
#[verifier::reject_recursive_types(N)]
#[verifier::reject_recursive_types(E)]
#[verifier::reject_recursive_types(Ty)]
#[verifier::reject_recursive_types(S)]
pub struct ExGraphMap<N, E, Ty, S: BuildHasher>(GraphMap<N, E, Ty, S>);

/// The node ids that a graph map holds.
pub uninterp spec fn graph_nodes(g: UnGraphMap<u64, ()>) -> Set<u64>;

/// The edges that a graph map holds, each as the pair of its two ends with
/// the smaller id first.
pub uninterp spec fn graph_edges(g: UnGraphMap<u64, ()>) -> Set<(u64, u64)>;

/// The pair under which an undirected edge between `a` and `b` is stored:
/// the smaller id first.
pub open spec fn edge_key(a: u64, b: u64) -> (u64, u64) {
    if a <= b {
        (a, b)
    } else {
        (b, a)
    }
}

/// `GraphMap::new`: a graph map with no node and no edge.
#[verifier::external_body]
fn map_new() -> (g: UnGraphMap<u64, ()>)
    ensures
        graph_nodes(g) == Set::<u64>::empty(),
        graph_edges(g) == Set::<(u64, u64)>::empty(),
{
    UnGraphMap::new()
}

/// `Clone::clone` of a graph map: the copy holds the same nodes and edges.
#[verifier::external_body]
fn map_clone(g: &UnGraphMap<u64, ()>) -> (r: UnGraphMap<u64, ()>)
    ensures
        graph_nodes(r) == graph_nodes(*g),
        graph_edges(r) == graph_edges(*g),
{
    g.clone()
}

/// `GraphMap::add_node`: `n` is a node afterwards; the edges stay. The call
/// is taken to return without unwinding.
#[verifier::external_body]
fn map_add_node(g: &mut UnGraphMap<u64, ()>, n: u64)
    ensures
        graph_nodes(*final(g)) == graph_nodes(*old(g)).insert(n),
        graph_edges(*final(g)) == graph_edges(*old(g)),
    no_unwind
{
    g.add_node(n);
}

/// `GraphMap::add_edge`: both ends are nodes afterwards and the edge is
/// stored under its ordered pair. The result is `Some` exactly when the edge
/// was there before. The call is taken to return without unwinding.
#[verifier::external_body]
fn map_add_edge(g: &mut UnGraphMap<u64, ()>, a: u64, b: u64) -> (r: Option<()>)
    ensures
        graph_nodes(*final(g)) == graph_nodes(*old(g)).insert(a).insert(b),
        graph_edges(*final(g)) == graph_edges(*old(g)).insert(edge_key(a, b)),
        r.is_some() == graph_edges(*old(g)).contains(edge_key(a, b)),
    no_unwind
{
    g.add_edge(a, b, ())
}

/// `GraphMap::remove_node`: `n` leaves the nodes, and with it every edge
/// that has `n` as an end. The result says whether `n` was a node. The call
/// is taken to return without unwinding.
#[verifier::external_body]
fn map_remove_node(g: &mut UnGraphMap<u64, ()>, n: u64) -> (r: bool)
    ensures
        r == graph_nodes(*old(g)).contains(n),
        graph_nodes(*final(g)) == graph_nodes(*old(g)).remove(n),
        graph_edges(*final(g)) == graph_edges(*old(g)).filter(
            |e: (u64, u64)| e.0 != n && e.1 != n,
        ),
    no_unwind
{
    g.remove_node(n)
}

/// `GraphMap::contains_node`.
#[verifier::external_body]
fn map_contains_node(g: &UnGraphMap<u64, ()>, n: u64) -> (r: bool)
    ensures
        r == graph_nodes(*g).contains(n),
{
    g.contains_node(n)
}

/// `GraphMap::contains_edge`: whether the ordered pair of `a` and `b` is stored.
#[verifier::external_body]
fn map_contains_edge(g: &UnGraphMap<u64, ()>, a: u64, b: u64) -> (r: bool)
    ensures
        r == graph_edges(*g).contains(edge_key(a, b)),
{
    g.contains_edge(a, b)
}

/// `GraphMap::node_count`.
#[verifier::external_body]
fn map_node_count(g: &UnGraphMap<u64, ()>) -> (r: usize)
    ensures
        r == graph_nodes(*g).len(),
{
    g.node_count()
}

/// `GraphMap::edge_count`.
#[verifier::external_body]
fn map_edge_count(g: &UnGraphMap<u64, ()>) -> (r: usize)
    ensures
        r == graph_edges(*g).len(),
{
    g.edge_count()
}

/// `GraphMap::nodes`, collected: every node once, in the map's own order.
#[verifier::external_body]
fn map_nodes(g: &UnGraphMap<u64, ()>) -> (r: Vec<u64>)
    ensures
        r@.no_duplicates(),
        r@.to_set() == graph_nodes(*g),
{
    g.nodes().collect()
}

/// `GraphMap::neighbors`, collected: every node that shares an edge with
/// `n`, once each, in the map's own order.
#[verifier::external_body]
fn map_neighbors(g: &UnGraphMap<u64, ()>, n: u64) -> (r: Vec<u64>)
    ensures
        r@.no_duplicates(),
        r@.to_set() == Set::new(|k: u64| graph_edges(*g).contains(edge_key(n, k))),
{
    g.neighbors(n).collect()
}

/// `GraphMap::all_edges`, collected without the weights: every stored pair
/// once, in the map's own order.
#[verifier::external_body]
fn map_all_edges(g: &UnGraphMap<u64, ()>) -> (r: Vec<(u64, u64)>)
    ensures
        r@.no_duplicates(),
        r@.to_set() == graph_edges(*g),
{
    g.all_edges().map(|e| (e.0, e.1)).collect()
}

/// A graph as mathematics sees it: a set of node ids and a set of edges,
/// each edge the pair of its ends with the smaller id first.
pub struct GraphView {
    pub nodes: Set<u64>,
    pub edges: Set<(u64, u64)>,
}

impl GraphView {
    /// A finite simple graph: every edge joins two different nodes of the
    /// graph and is stored once, smaller id first.
    pub open spec fn wf(self) -> bool {
        &&& self.nodes.finite()
        &&& self.edges.finite()
        &&& forall|e: (u64, u64)| #[trigger]
            self.edges.contains(e) ==> e.0 < e.1 && self.nodes.contains(e.0)
                && self.nodes.contains(e.1)
    }

    pub open spec fn empty() -> GraphView {
        GraphView { nodes: Set::empty(), edges: Set::empty() }
    }

    pub open spec fn has_edge(self, a: u64, b: u64) -> bool {
        self.edges.contains(edge_key(a, b))
    }

    pub open spec fn neighbors(self, n: u64) -> Set<u64> {
        Set::new(|k: u64| self.has_edge(n, k))
    }

    pub open spec fn degree(self, n: u64) -> nat {
        self.neighbors(n).len()
    }

    pub open spec fn with_node(self, n: u64) -> GraphView {
        GraphView { nodes: self.nodes.insert(n), edges: self.edges }
    }

    /// The graph with an edge between `a` and `b`, and with both as nodes.
    pub open spec fn with_edge(self, a: u64, b: u64) -> GraphView {
        GraphView {
            nodes: self.nodes.insert(a).insert(b),
            edges: self.edges.insert(edge_key(a, b)),
        }
    }

    /// The graph without `n` and without the edges that end in `n`.
    pub open spec fn without_node(self, n: u64) -> GraphView {
        GraphView {
            nodes: self.nodes.remove(n),
            edges: self.edges.filter(|e: (u64, u64)| e.0 != n && e.1 != n),
        }
    }

    /// In a simple graph the neighbours of a node are nodes, none of them the
    /// node itself, and there are finitely many.
    pub proof fn lemma_neighbors(self, n: u64)
        requires
            self.wf(),
        ensures
            self.neighbors(n).finite(),
            self.neighbors(n).subset_of(self.nodes),
            !self.neighbors(n).contains(n),
            self.degree(n) <= self.nodes.len(),
            !self.nodes.contains(n) ==> self.neighbors(n) == Set::<u64>::empty(),
    {
        assert forall|k: u64| self.neighbors(n).contains(k) implies self.nodes.contains(k)
            && self.nodes.contains(n) && k != n by {
            assert(self.edges.contains(edge_key(n, k)));
        }
        vstd::set_lib::lemma_set_subset_finite(self.nodes, self.neighbors(n));
        vstd::set_lib::lemma_len_subset(self.neighbors(n), self.nodes);
        if !self.nodes.contains(n) {
            assert(self.neighbors(n) =~= Set::<u64>::empty());
        }
    }
}

/// The topology of a puzzle: node ids and undirected edges between them,
/// with no self-loop and no edge twice.
pub struct TopologyGraph {
    inner: UnGraphMap<u64, ()>,
}

impl View for TopologyGraph {
    type V = GraphView;

    closed spec fn view(&self) -> GraphView {
        GraphView { nodes: graph_nodes(self.inner), edges: graph_edges(self.inner) }
    }
}

impl Clone for TopologyGraph {
    fn clone(&self) -> (r: Self)
        ensures
            r@ == self@,
    {
        proof {
            use_type_invariant(self);
        }
        TopologyGraph { inner: map_clone(&self.inner) }
    }
}

impl TopologyGraph {
    /// Every graph of this type is a finite simple graph.
    #[verifier::type_invariant]
    pub open spec fn inv(&self) -> bool {
        self@.wf()
    }

    /// The graph with no node.
    pub fn new() -> (g: Self)
        ensures
            g@ == GraphView::empty(),
    {
        TopologyGraph { inner: map_new() }
    }

    /// Makes `n` a node. Nothing changes where it is one already.
    pub fn add_node(&mut self, n: u64)
        ensures
            final(self)@ == old(self)@.with_node(n),
    {
        proof {
            use_type_invariant(&*self);
        }
        map_add_node(&mut self.inner, n);
    }

    /// Joins `a` and `b`, making nodes of them where they are none yet.
    /// Nothing changes, and the result is `false`, where `a == b` or the
    /// edge is there already.
    pub fn add_edge(&mut self, a: u64, b: u64) -> (added: bool)
        ensures
            added == (a != b && !old(self)@.has_edge(a, b)),
            a != b ==> final(self)@ == old(self)@.with_edge(a, b),
            a == b ==> final(self)@ == old(self)@,
    {
        proof {
            use_type_invariant(&*self);
        }
        if a == b {
            return false;
        }
        let before = map_add_edge(&mut self.inner, a, b);
        before.is_none()
    }

    /// Takes `n` out, and every edge that ends in it. The result says
    /// whether `n` was a node.
    pub fn remove_node(&mut self, n: u64) -> (removed: bool)
        ensures
            removed == old(self)@.nodes.contains(n),
            final(self)@ == old(self)@.without_node(n),
    {
        proof {
            use_type_invariant(&*self);
        }
        let removed = map_remove_node(&mut self.inner, n);
        proof {
            assert(self@.edges =~= old(self)@.without_node(n).edges);
        }
        removed
    }

    pub fn contains_node(&self, n: u64) -> (r: bool)
        ensures
            r == self@.nodes.contains(n),
    {
        map_contains_node(&self.inner, n)
    }

    pub fn contains_edge(&self, a: u64, b: u64) -> (r: bool)
        ensures
            r == self@.has_edge(a, b),
    {
        map_contains_edge(&self.inner, a, b)
    }

    pub fn node_count(&self) -> (r: usize)
        ensures
            r == self@.nodes.len(),
    {
        map_node_count(&self.inner)
    }

    pub fn edge_count(&self) -> (r: usize)
        ensures
            r == self@.edges.len(),
    {
        map_edge_count(&self.inner)
    }

    /// The node ids, each once.
    pub fn nodes(&self) -> (r: Vec<u64>)
        ensures
            r@.no_duplicates(),
            r@.to_set() == self@.nodes,
            r.len() == self@.nodes.len(),
    {
        let r = map_nodes(&self.inner);
        proof {
            r@.unique_seq_to_set();
        }
        r
    }

    /// The nodes that share an edge with `n`, each once.
    pub fn neighbors(&self, n: u64) -> (r: Vec<u64>)
        ensures
            r@.no_duplicates(),
            r@.to_set() == self@.neighbors(n),
            r.len() == self@.degree(n),
    {
        let r = map_neighbors(&self.inner, n);
        proof {
            assert(r@.to_set() =~= self@.neighbors(n));
            r@.unique_seq_to_set();
        }
        r
    }

    /// The number of edges that end in `n`.
    pub fn degree(&self, n: u64) -> (r: usize)
        ensures
            r == self@.degree(n),
    {
        self.neighbors(n).len()
    }

    /// The edges, each once, as the pair of its ends with the smaller id
    /// first: no pair has two equal ends, and no two pairs join the same two
    /// nodes.
    pub fn edges(&self) -> (r: Vec<(u64, u64)>)
        ensures
            r@.no_duplicates(),
            r@.to_set() == self@.edges,
            r.len() == self@.edges.len(),
            forall|i: int| 0 <= i < r.len() ==> (#[trigger] r[i]).0 < r[i].1,
            forall|i: int, j: int|
                0 <= i < j < r.len() ==> edge_key((#[trigger] r[i]).0, r[i].1) != edge_key(
                    (#[trigger] r[j]).0,
                    r[j].1,
                ),
    {
        proof {
            use_type_invariant(self);
        }
        let r = map_all_edges(&self.inner);
        proof {
            r@.unique_seq_to_set();
            assert forall|i: int| 0 <= i < r.len() implies (#[trigger] r[i]).0 < r[i].1 by {
                assert(r@.to_set().contains(r@[i]));
            }
        }
        r
    }
}

} // verus!
