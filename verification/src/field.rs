//! Choosing what pushes a node in the force field: every other node, and
//! every edge that does not end in the node itself. The field's arithmetic
//! is done elsewhere, on the positions of what is chosen here.

use crate::crossing::Edge;
use vstd::prelude::*;

verus! {

/// Whether `places` lists, in rising order, exactly the places below `len`
/// at which `keep` holds.
pub open spec fn lists_where(places: Seq<usize>, len: nat, keep: spec_fn(int) -> bool) -> bool {
    &&& forall|k: int|
        0 <= k < places.len() ==> (#[trigger] places[k]) < len && keep(places[k] as int)
    &&& forall|i: int| 0 <= i < len && #[trigger] keep(i) ==> places.contains(i as usize)
    &&& forall|k: int, l: int|
        0 <= k < l < places.len() ==> (#[trigger] places[k]) < (#[trigger] places[l])
}

/// The places in `nodes` of the nodes that push `node`: all of them but the
/// node itself.
pub fn points_except(nodes: &Vec<u64>, node: u64) -> (places: Vec<usize>)
    ensures
        lists_where(places@, nodes@.len(), |i: int| nodes@[i] != node),
{
    let ghost keep = |i: int| nodes@[i] != node;
    let mut places: Vec<usize> = Vec::new();
    let mut i: usize = 0;
    while i < nodes.len()
        invariant
            i <= nodes.len(),
            keep == (|i: int| nodes@[i] != node),
            lists_where(places@, i as nat, keep),
        decreases nodes.len() - i,
    {
        let ghost before = places@;
        if nodes[i] != node {
            places.push(i);
        }
        proof {
            assert forall|j: int| 0 <= j < i + 1 && #[trigger] keep(j) implies places@.contains(
                j as usize,
            ) by {
                if j < i {
                    let k = choose|k: int| 0 <= k < before.len() && before[k] == j as usize;
                    assert(places@[k] == j as usize);
                } else {
                    assert(places@[places@.len() - 1] == j as usize);
                }
            }
            assert forall|k: int| 0 <= k < places@.len() implies (#[trigger] places@[k]) < i + 1
                && keep(places@[k] as int) by {
                if k < before.len() {
                    assert(places@[k] == before[k]);
                }
            }
            assert forall|k: int, l: int| 0 <= k < l < places@.len() implies (
            #[trigger] places@[k]) < (#[trigger] places@[l]) by {
                assert(places@[k] == before[k]);
                if l < before.len() {
                    assert(places@[l] == before[l]);
                }
            }
        }
        i = i + 1;
    }
    places
}

/// The places in `edges` of the edges that push `node`: those that do not
/// end in it.
pub fn lines_except(edges: &Vec<Edge>, node: u64) -> (places: Vec<usize>)
    ensures
        lists_where(places@, edges@.len(), |i: int| !edges@[i].touches(node)),
{
    let ghost keep = |i: int| !edges@[i].touches(node);
    let mut places: Vec<usize> = Vec::new();
    let mut i: usize = 0;
    while i < edges.len()
        invariant
            i <= edges.len(),
            keep == (|i: int| !edges@[i].touches(node)),
            lists_where(places@, i as nat, keep),
        decreases edges.len() - i,
    {
        let ghost before = places@;
        if !edges[i].has_end(node) {
            places.push(i);
        }
        proof {
            assert forall|j: int| 0 <= j < i + 1 && #[trigger] keep(j) implies places@.contains(
                j as usize,
            ) by {
                if j < i {
                    let k = choose|k: int| 0 <= k < before.len() && before[k] == j as usize;
                    assert(places@[k] == j as usize);
                } else {
                    assert(places@[places@.len() - 1] == j as usize);
                }
            }
            assert forall|k: int| 0 <= k < places@.len() implies (#[trigger] places@[k]) < i + 1
                && keep(places@[k] as int) by {
                if k < before.len() {
                    assert(places@[k] == before[k]);
                }
            }
            assert forall|k: int, l: int| 0 <= k < l < places@.len() implies (
            #[trigger] places@[k]) < (#[trigger] places@[l]) by {
                assert(places@[k] == before[k]);
                if l < before.len() {
                    assert(places@[l] == before[l]);
                }
            }
        }
        i = i + 1;
    }
    places
}

} // verus!
