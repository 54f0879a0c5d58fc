//! Contraction keeps a puzzle in one piece: a graph in which every node can
//! be reached from every other stays so through every step, and no node is
//! ever deleted from it but the very last.

use crate::graph::edge_key;
use crate::graph::GraphView;
use crate::reducer::contraction_trace;
use crate::reducer::Contraction;
use vstd::prelude::*;

verus! {

/// Whether `walk` leads through `graph`: it visits nodes only, and goes
/// from each to the next along an edge, or stays where it is.
pub open spec fn is_walk(graph: GraphView, walk: Seq<u64>) -> bool {
    &&& walk.len() > 0
    &&& forall|k: int| 0 <= k < walk.len() ==> graph.nodes.contains(#[trigger] walk[k])
    &&& forall|k: int|
        0 <= k < walk.len() - 1 ==> (#[trigger] walk[k]) == walk[k + 1] || graph.has_edge(
            walk[k],
            walk[k + 1],
        )
}

/// Whether some walk through `graph` leads from `a` to `b`.
pub open spec fn joined(graph: GraphView, a: u64, b: u64) -> bool {
    exists|walk: Seq<u64>| #[trigger] is_walk(graph, walk) && walk[0] == a && walk.last() == b
}

/// Whether the graph is in one piece: every node is joined to every other.
/// The graph without nodes is.
pub open spec fn connected(graph: GraphView) -> bool {
    forall|a: u64, b: u64|
        graph.nodes.contains(a) && graph.nodes.contains(b) ==> #[trigger] joined(graph, a, b)
}

/// A walk from a node without edges never leaves it.
proof fn lemma_walk_from_loner(graph: GraphView, walk: Seq<u64>, k: int)
    requires
        graph.wf(),
        is_walk(graph, walk),
        graph.degree(walk[0]) == 0,
        0 <= k < walk.len(),
    ensures
        walk[k] == walk[0],
    decreases k,
{
    if k > 0 {
        lemma_walk_from_loner(graph, walk, k - 1);
        let here = walk[k - 1];
        if walk[k] != here {
            graph.lemma_neighbors(here);
            assert(graph.has_edge(here, walk[k]));
            assert(graph.neighbors(here).contains(walk[k]));
        }
    }
}

/// In a graph in one piece, a node without edges is the only node.
pub proof fn lemma_connected_loner(graph: GraphView, node: u64)
    requires
        graph.wf(),
        connected(graph),
        graph.nodes.contains(node),
        graph.degree(node) == 0,
    ensures
        graph.nodes == set![node],
        graph.nodes.len() == 1,
{
    assert forall|b: u64| graph.nodes.contains(b) implies b == node by {
        assert(joined(graph, node, b));
        let walk = choose|walk: Seq<u64>|
            #[trigger] is_walk(graph, walk) && walk[0] == node && walk.last() == b;
        lemma_walk_from_loner(graph, walk, walk.len() - 1);
    }
    assert(graph.nodes =~= set![node]);
}

/// Two nodes that are all there is of a graph in one piece are joined by
/// an edge.
pub proof fn lemma_connected_pair(graph: GraphView, a: u64, b: u64)
    requires
        graph.wf(),
        connected(graph),
        graph.nodes.contains(a),
        graph.nodes.contains(b),
        a != b,
        graph.nodes.len() == 2,
    ensures
        graph.has_edge(a, b),
        graph.nodes == set![a, b],
{
    let both = set![a, b];
    assert(both.len() == 2) by {
        assert(both =~= Set::<u64>::empty().insert(a).insert(b));
    }
    assert(graph.nodes =~= both) by {
        vstd::set_lib::lemma_subset_equality(both, graph.nodes);
    }
    if graph.degree(a) == 0 {
        lemma_connected_loner(graph, a);
    }
    graph.lemma_neighbors(a);
    let k = graph.neighbors(a).choose();
    assert(graph.neighbors(a).contains(k)) by {
        if graph.neighbors(a).len() != 0 {
            vstd::set_lib::axiom_is_empty_len0(graph.neighbors(a));
        }
    }
    assert(graph.nodes.contains(k));
}

/// The walk after `other` has been merged into `target`: where the walk
/// visited `other`, it now visits `target`.
spec fn merged_walk(walk: Seq<u64>, target: u64, other: u64) -> Seq<u64> {
    Seq::new(
        walk.len(),
        |k: int|
            if walk[k] == other {
                target
            } else {
                walk[k]
            },
    )
}

/// Merging two joined nodes keeps a graph in one piece.
pub proof fn lemma_merge_keeps_connected(graph: GraphView, target: u64, other: u64)
    requires
        graph.wf(),
        connected(graph),
        target != other,
        graph.has_edge(target, other),
    ensures
        connected(graph.merged(target, other)),
{
    let merged = graph.merged(target, other);
    assert(graph.edges.contains(edge_key(target, other)));
    assert forall|a: u64, b: u64| merged.nodes.contains(a) && merged.nodes.contains(
        b,
    ) implies #[trigger] joined(merged, a, b) by {
        assert(joined(graph, a, b));
        let walk = choose|walk: Seq<u64>|
            #[trigger] is_walk(graph, walk) && walk[0] == a && walk.last() == b;
        let moved = merged_walk(walk, target, other);
        assert forall|k: int| 0 <= k < moved.len() - 1 implies (#[trigger] moved[k]) == moved[k
            + 1] || merged.has_edge(moved[k], moved[k + 1]) by {
            let x = walk[k];
            let y = walk[k + 1];
            if x != y {
                assert(graph.has_edge(x, y));
                assert(graph.edges.contains(edge_key(x, y)));
                if x == other {
                    if y != target {
                        assert(merged.edges.contains(edge_key(target, y)));
                    }
                } else if y == other {
                    assert(graph.has_edge(other, x));
                    if x != target {
                        assert(merged.edges.contains(edge_key(x, target)));
                    }
                } else {
                    assert(merged.edges.contains(edge_key(x, y)));
                }
            }
        }
        assert forall|k: int| 0 <= k < moved.len() implies merged.nodes.contains(
            #[trigger] moved[k],
        ) by {
            assert(graph.nodes.contains(walk[k]));
        }
        assert(is_walk(merged, moved));
        assert(moved[0] == a && moved.last() == b);
    }
}

/// A step of contraction keeps a graph in one piece, and deletes a node
/// from it only where that node is all there is.
pub proof fn lemma_step_keeps_connected(graph: GraphView, step: Contraction)
    requires
        graph.wf(),
        connected(graph),
        step.applies_to(graph),
    ensures
        connected(step.apply(graph)),
        step is Deleted ==> graph.nodes.len() == 1,
{
    match step {
        Contraction::Deleted { node } => {
            lemma_connected_loner(graph, node);
            assert(step.apply(graph).nodes =~= Set::<u64>::empty());
        },
        Contraction::Merged { target, other } => {
            lemma_merge_keeps_connected(graph, target, other);
        },
    }
}

/// Contracting a graph in one piece leaves a graph in one piece, through
/// every graph on the way, and deletes no node but the last.
pub proof fn lemma_contraction_keeps_connected(
    start: GraphView,
    steps: Seq<Contraction>,
    history: Seq<GraphView>,
    end: GraphView,
)
    requires
        start.wf(),
        connected(start),
        contraction_trace(start, steps, history, end),
    ensures
        connected(end),
        forall|k: int| 0 <= k < history.len() ==> connected(#[trigger] history[k]),
        forall|k: int|
            0 <= k < steps.len() && #[trigger] steps[k] is Deleted ==> history[k].nodes.len() == 1,
    decreases steps.len(),
{
    if steps.len() > 0 {
        let last = steps.len() - 1;
        let shorter = steps.drop_last();
        let earlier = history.drop_last();
        assert(contraction_trace(start, shorter, earlier, history[last])) by {
            assert forall|k: int| 0 <= k < shorter.len() implies (#[trigger] shorter[k]).applies_to(
                earlier[k],
            ) && shorter[k].apply(earlier[k]) == (if k + 1 < shorter.len() {
                earlier[k + 1]
            } else {
                history[last]
            }) by {
                assert(steps[k].applies_to(history[k]));
            }
        }
        lemma_contraction_keeps_connected(start, shorter, earlier, history[last]);
        crate::reducer_laws::lemma_contraction_shrinks(start, shorter, earlier, history[last]);
        assert(steps[last].applies_to(history[last]));
        lemma_step_keeps_connected(history[last], steps[last]);
        assert forall|k: int| 0 <= k < history.len() implies connected(#[trigger] history[k]) by {
            if k < last {
                assert(history[k] == earlier[k]);
            }
        }
        assert forall|k: int| 0 <= k < steps.len() && #[trigger] steps[k] is Deleted implies history[k].nodes.len()
            == 1 by {
            if k < last {
                assert(steps[k] == shorter[k]);
                assert(history[k] == earlier[k]);
            }
        }
    }
}

} // verus!
