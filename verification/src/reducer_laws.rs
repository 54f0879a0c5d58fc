//! What holds of every contraction and of every pruning: contraction takes
//! one node per step, growing back undoes it graph by graph, and pruning
//! leaves no loose node where the nodes that stay keep two neighbours.

use crate::graph::GraphView;
use crate::reducer::contraction_trace;
use crate::reducer::shrinking;
use crate::reducer::Contraction;
use vstd::prelude::*;

verus! {

/// One command to grow, on a history and the graph in play: the newest
/// graph of the history comes into play and leaves the history; with an
/// empty history nothing changes.
pub open spec fn grown(history: Seq<GraphView>, current: GraphView) -> (Seq<GraphView>, GraphView) {
    if history.len() == 0 {
        (history, current)
    } else {
        (history.drop_last(), history.last())
    }
}

/// The history and the graph in play after `times` commands to grow.
pub open spec fn grown_times(history: Seq<GraphView>, current: GraphView, times: nat) -> (
    Seq<GraphView>,
    GraphView,
)
    decreases times,
{
    if times == 0 {
        (history, current)
    } else {
        let (rest, newest) = grown(history, current);
        grown_times(rest, newest, (times - 1) as nat)
    }
}

/// The graph that the steps make of `start`, taken one after the other.
pub open spec fn replayed(start: GraphView, steps: Seq<Contraction>) -> GraphView
    decreases steps.len(),
{
    if steps.len() == 0 {
        start
    } else {
        steps.last().apply(replayed(start, steps.drop_last()))
    }
}

/// Growing `times` times, with that many graphs in the history or more,
/// brings into play the graph that was put aside `times` steps ago, and
/// leaves the older ones in the history.
pub proof fn lemma_grown_times(history: Seq<GraphView>, current: GraphView, times: nat)
    requires
        times <= history.len(),
    ensures
        grown_times(history, current, times).0 == history.subrange(0, history.len() - times),
        grown_times(history, current, times).1 == if times == 0 {
            current
        } else {
            history[history.len() - times]
        },
    decreases times,
{
    if times == 0 {
        assert(history.subrange(0, history.len() as int) =~= history);
    } else {
        let rest = history.drop_last();
        lemma_grown_times(rest, history.last(), (times - 1) as nat);
        assert(rest.subrange(0, rest.len() - (times - 1)) =~= history.subrange(
            0,
            history.len() - times,
        ));
    }
}

/// Contraction takes exactly one node per step: the graph put aside before
/// step `k` has `k` nodes fewer than the graph that contraction began with,
/// the graph left at the end has one fewer for every step, and all of them
/// are simple graphs.
pub proof fn lemma_contraction_shrinks(
    start: GraphView,
    steps: Seq<Contraction>,
    history: Seq<GraphView>,
    end: GraphView,
)
    requires
        start.wf(),
        contraction_trace(start, steps, history, end),
    ensures
        forall|k: int|
            0 <= k < history.len() ==> (#[trigger] history[k]).wf() && history[k].nodes.len() + k
                == start.nodes.len(),
        end.wf(),
        end.nodes.len() + steps.len() == start.nodes.len(),
        shrinking(history),
    decreases steps.len(),
{
    if steps.len() > 0 {
        let last = steps.len() - 1;
        let shorter = steps.drop_last();
        let earlier = history.drop_last();
        assert(contraction_trace(start, shorter, earlier, history[last])) by {
            assert forall|k: int| 0 <= k < shorter.len() implies (#[trigger] shorter[k]).applies_to(
                earlier[k],
            ) && shorter[k].apply(earlier[k]) == (if k + 1 < shorter.len() {
                earlier[k + 1]
            } else {
                history[last]
            }) by {
                assert(steps[k].applies_to(history[k]));
            }
        }
        lemma_contraction_shrinks(start, shorter, earlier, history[last]);
        assert(steps[last].applies_to(history[last]));
        steps[last].lemma_apply(history[last]);
        assert forall|k: int| 0 <= k < history.len() implies (#[trigger] history[k]).wf()
            && history[k].nodes.len() + k == start.nodes.len() by {
            if k < last {
                assert(history[k] == earlier[k]);
            }
        }
    }
}

/// Growing once for every graph in the history of a contraction brings
/// back, graph by graph, what contraction went through, and at last the
/// graph that it began with, with the same nodes and the same edges; the
/// history is then empty. Taking the steps again from there leads to the
/// contracted graph.
pub proof fn lemma_growing_restores(
    start: GraphView,
    steps: Seq<Contraction>,
    history: Seq<GraphView>,
    end: GraphView,
)
    requires
        contraction_trace(start, steps, history, end),
    ensures
        grown_times(history, end, history.len()) == (Seq::<GraphView>::empty(), start),
        forall|times: nat|
            0 < times <= history.len() ==> (#[trigger] grown_times(history, end, times)).1
                == history[history.len() - times],
        replayed(start, steps) == end,
{
    lemma_grown_times(history, end, history.len());
    assert(history.subrange(0, 0) =~= Seq::<GraphView>::empty());
    assert forall|times: nat| 0 < times <= history.len() implies (#[trigger] grown_times(
        history,
        end,
        times,
    )).1 == history[history.len() - times] by {
        lemma_grown_times(history, end, times);
    }
    lemma_replayed(start, steps, history, end, steps.len() as int);
    assert(steps.subrange(0, steps.len() as int) =~= steps);
}

/// Taking the first `upto` steps of a contraction again leads to the graph
/// that was put aside then, or to the contracted graph after all of them.
proof fn lemma_replayed(
    start: GraphView,
    steps: Seq<Contraction>,
    history: Seq<GraphView>,
    end: GraphView,
    upto: int,
)
    requires
        contraction_trace(start, steps, history, end),
        0 <= upto <= steps.len(),
    ensures
        replayed(start, steps.subrange(0, upto)) == if upto < steps.len() {
            history[upto]
        } else {
            end
        },
    decreases upto,
{
    let prefix = steps.subrange(0, upto);
    if upto > 0 {
        lemma_replayed(start, steps, history, end, upto - 1);
        assert(prefix.drop_last() =~= steps.subrange(0, upto - 1));
        assert(prefix.last() == steps[upto - 1]);
        assert(steps[upto - 1].applies_to(history[upto - 1]));
    }
}

impl GraphView {
    /// After pruning, the neighbours of a node that stays are those of its
    /// neighbours that stay.
    pub proof fn lemma_pruned_neighbors(self, n: u64)
        requires
            self.wf(),
            self.pruned().nodes.contains(n),
        ensures
            self.pruned().neighbors(n) == self.neighbors(n).filter(|k: u64| self.degree(k) > 1),
    {
        assert(self.pruned().neighbors(n) =~= self.neighbors(n).filter(
            |k: u64| self.degree(k) > 1,
        ));
    }

    /// Pruning leaves a simple graph.
    pub proof fn lemma_pruned_wf(self)
        requires
            self.wf(),
        ensures
            self.pruned().wf(),
    {
    }

    /// A node that stays and has two neighbours that stay has two edges or
    /// more after pruning.
    pub proof fn lemma_pruned_degree(self, n: u64, a: u64, b: u64)
        requires
            self.wf(),
            self.pruned().nodes.contains(n),
            a != b,
            self.has_edge(n, a) && self.degree(a) > 1,
            self.has_edge(n, b) && self.degree(b) > 1,
        ensures
            self.pruned().degree(n) >= 2,
    {
        let pruned = self.pruned();
        pruned.lemma_neighbors(n);
        let both = set![a, b];
        assert(both.subset_of(pruned.neighbors(n)));
        vstd::set_lib::lemma_len_subset(both, pruned.neighbors(n));
        assert(both.len() == 2) by {
            assert(both =~= Set::<u64>::empty().insert(a).insert(b));
        }
    }

    /// Where every node has two edges or more, pruning changes nothing, and
    /// no node of the pruned graph has fewer than two edges.
    pub proof fn lemma_pruning_sturdy_graph(self)
        requires
            self.wf(),
            forall|n: u64| self.nodes.contains(n) ==> #[trigger] self.degree(n) > 1,
        ensures
            self.pruned() == self,
            forall|n: u64| self.pruned().nodes.contains(n) ==> #[trigger] self.pruned().degree(n) > 1,
    {
        assert(self.pruned().nodes =~= self.nodes);
        assert(self.pruned().edges =~= self.edges);
    }
}

} // verus!
