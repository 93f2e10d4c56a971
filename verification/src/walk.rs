//! Walks through a graph, and what reachability and distance mean.
//!
//! A walk from a start node is the sequence of the edges it follows, each
//! written as the pair of the node it leads to and its weight.

use crate::graph::{out_edges, Adjacency};
use vstd::prelude::*;

verus! {

/// The node at which step `i` of a walk begins: the start for the first
/// step, the target of the step before for the others.
pub open spec fn node_before(start: usize, steps: Seq<(usize, usize)>, i: int) -> usize {
    if i <= 0 {
        start
    } else {
        steps[i - 1].0
    }
}

/// Whether every step follows an edge of the graph from where the step
/// before has led.
pub open spec fn is_walk(adj: Adjacency, start: usize, steps: Seq<(usize, usize)>) -> bool {
    forall|i: int|
        0 <= i < steps.len() ==> out_edges(adj, node_before(start, steps, i)).contains(
            #[trigger] steps[i],
        )
}

/// The node at which a walk ends; the empty walk ends where it starts.
pub open spec fn walk_end(start: usize, steps: Seq<(usize, usize)>) -> usize {
    node_before(start, steps, steps.len() as int)
}

/// The sum of the weights of the steps.
pub open spec fn walk_weight(steps: Seq<(usize, usize)>) -> nat
    decreases steps.len(),
{
    if steps.len() == 0 {
        0
    } else {
        walk_weight(steps.drop_last()) + steps.last().1 as nat
    }
}

/// Whether `steps` is a walk from `start` that ends at `end`.
pub open spec fn walks_to(adj: Adjacency, start: usize, end: usize, steps: Seq<(usize, usize)>) -> bool {
    is_walk(adj, start, steps) && walk_end(start, steps) == end
}

/// Whether some walk leads from `start` to `end`.
pub open spec fn reachable(adj: Adjacency, start: usize, end: usize) -> bool {
    exists|steps: Seq<(usize, usize)>| walks_to(adj, start, end, steps)
}

/// Whether `weight` is the least weight of a walk from `start` to `end`.
pub open spec fn is_least_weight(adj: Adjacency, start: usize, end: usize, weight: nat) -> bool {
    &&& exists|steps: Seq<(usize, usize)>| #[trigger]
        walks_to(adj, start, end, steps) && walk_weight(steps) == weight
    &&& forall|steps: Seq<(usize, usize)>| #[trigger]
        walks_to(adj, start, end, steps) ==> walk_weight(steps) >= weight
}

/// Whether `hops` is the least number of steps of a walk from `start` to
/// `end`.
pub open spec fn is_least_hops(adj: Adjacency, start: usize, end: usize, hops: nat) -> bool {
    &&& exists|steps: Seq<(usize, usize)>| #[trigger]
        walks_to(adj, start, end, steps) && steps.len() == hops
    &&& forall|steps: Seq<(usize, usize)>| #[trigger]
        walks_to(adj, start, end, steps) ==> steps.len() >= hops
}

/// The empty walk leads from a node to itself and weighs nothing.
pub proof fn lemma_empty_walk(adj: Adjacency, start: usize)
    ensures
        walks_to(adj, start, start, Seq::empty()),
        walk_weight(Seq::empty()) == 0,
{
}

/// A walk that is followed by an edge out of its end is a walk to that
/// edge's target, heavier by the edge's weight and one step longer.
pub proof fn lemma_walk_push(
    adj: Adjacency,
    start: usize,
    steps: Seq<(usize, usize)>,
    edge: (usize, usize),
)
    requires
        is_walk(adj, start, steps),
        out_edges(adj, walk_end(start, steps)).contains(edge),
    ensures
        walks_to(adj, start, edge.0, steps.push(edge)),
        walk_weight(steps.push(edge)) == walk_weight(steps) + edge.1,
{
    let longer = steps.push(edge);
    assert forall|i: int| 0 <= i < longer.len() implies out_edges(
        adj,
        node_before(start, longer, i),
    ).contains(#[trigger] longer[i]) by {
        if i < steps.len() {
            assert(longer[i] == steps[i]);
            assert(node_before(start, longer, i) == node_before(start, steps, i));
        }
    }
    assert(longer.drop_last() =~= steps);
}

/// A walk of at least one step is a walk to the node before its last step,
/// followed by an edge out of that node.
pub proof fn lemma_walk_drop_last(adj: Adjacency, start: usize, steps: Seq<(usize, usize)>)
    requires
        is_walk(adj, start, steps),
        steps.len() > 0,
    ensures
        is_walk(adj, start, steps.drop_last()),
        out_edges(adj, walk_end(start, steps.drop_last())).contains(steps.last()),
        walk_end(start, steps) == steps.last().0,
        walk_weight(steps) == walk_weight(steps.drop_last()) + steps.last().1,
{
    let shorter = steps.drop_last();
    assert forall|i: int| 0 <= i < shorter.len() implies out_edges(
        adj,
        node_before(start, shorter, i),
    ).contains(#[trigger] shorter[i]) by {
        assert(shorter[i] == steps[i]);
        assert(node_before(start, shorter, i) == node_before(start, steps, i));
    }
    let last = steps.len() - 1;
    assert(steps.last() == steps[last]);
    assert(node_before(start, steps, last) == walk_end(start, shorter));
}

/// A walk that meets a node twice can leave out what lies between: the
/// rest is a walk to the same end.
pub proof fn lemma_walk_cut(
    adj: Adjacency,
    start: usize,
    steps: Seq<(usize, usize)>,
    first: int,
    second: int,
)
    requires
        is_walk(adj, start, steps),
        0 <= first < second <= steps.len(),
        node_before(start, steps, first) == node_before(start, steps, second),
    ensures
        is_walk(adj, start, steps.take(first) + steps.skip(second)),
        walk_end(start, steps.take(first) + steps.skip(second)) == walk_end(start, steps),
        (steps.take(first) + steps.skip(second)).len() == steps.len() - (second - first),
{
    let shorter = steps.take(first) + steps.skip(second);
    let gap = second - first;
    assert forall|i: int| 0 <= i < shorter.len() implies out_edges(
        adj,
        node_before(start, shorter, i),
    ).contains(#[trigger] shorter[i]) by {
        if i < first {
            assert(shorter[i] == steps[i]);
            assert(node_before(start, shorter, i) == node_before(start, steps, i));
        } else {
            assert(shorter[i] == steps[i + gap]);
            if i > first {
                assert(shorter[i - 1] == steps[i - 1 + gap]);
            } else if i > 0 {
                assert(shorter[i - 1] == steps[i - 1]);
            }
            assert(node_before(start, shorter, i) == node_before(start, steps, i + gap));
        }
    }
    if shorter.len() > 0 {
        let last = shorter.len() - 1;
        if last >= first {
            assert(shorter[last] == steps[last + gap]);
        } else {
            assert(shorter[last] == steps[last]);
        }
    }
}

} // verus!
