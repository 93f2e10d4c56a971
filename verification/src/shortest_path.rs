//! Least-weight distance between two nodes, by label-setting search with a
//! min-priority frontier.

use crate::graph::{adjacency_view, out_edges, Adjacency};
use crate::heap::{HeapEntry, MinHeap};
use crate::walk::{
    is_least_weight, is_walk, lemma_empty_walk, lemma_walk_drop_last, lemma_walk_push, walk_end,
    walk_weight, walks_to,
};
use std::collections::HashMap;
use vstd::multiset::Multiset;
use vstd::prelude::*;

verus! {

/// Whether `distance` answers the question for the least weight of a walk
/// from `start` to `end`: the least weight where it fits in a `usize`, and
/// `None` where no walk leads there or every walk is heavier than that.
pub open spec fn is_shortest_distance(
    adj: Adjacency,
    start: usize,
    end: usize,
    distance: Option<usize>,
) -> bool {
    match distance {
        Some(weight) => is_least_weight(adj, start, end, weight as nat),
        None => forall|steps: Seq<(usize, usize)>| #[trigger]
            walks_to(adj, start, end, steps) ==> walk_weight(steps) > usize::MAX,
    }
}

/// The answer that `is_shortest_distance` describes.
pub open spec fn shortest_distance(adj: Adjacency, start: usize, end: usize) -> Option<usize> {
    choose|distance: Option<usize>| is_shortest_distance(adj, start, end, distance)
}

/// Whether the least weight of a walk from `start` to `end`, where there is
/// a walk, fits in a `usize`.
pub open spec fn distance_fits(adj: Adjacency, start: usize, end: usize) -> bool {
    (exists|steps: Seq<(usize, usize)>| walks_to(adj, start, end, steps)) ==> exists|
        steps: Seq<(usize, usize)>,
    | #[trigger] walks_to(adj, start, end, steps) && walk_weight(steps) <= usize::MAX
}

/// At most one answer is the shortest distance: two results for one graph
/// and one pair of nodes are the same.
pub proof fn lemma_shortest_distance_unique(
    adj: Adjacency,
    start: usize,
    end: usize,
    first: Option<usize>,
    second: Option<usize>,
)
    requires
        is_shortest_distance(adj, start, end, first),
        is_shortest_distance(adj, start, end, second),
    ensures
        first == second,
{
    match (first, second) {
        (Some(a), Some(b)) => {
            let to_a = choose|steps: Seq<(usize, usize)>| #[trigger]
                walks_to(adj, start, end, steps) && walk_weight(steps) == a as nat;
            let to_b = choose|steps: Seq<(usize, usize)>| #[trigger]
                walks_to(adj, start, end, steps) && walk_weight(steps) == b as nat;
            assert(walks_to(adj, start, end, to_a));
            assert(walks_to(adj, start, end, to_b));
        },
        (Some(a), None) => {
            let to_a = choose|steps: Seq<(usize, usize)>| #[trigger]
                walks_to(adj, start, end, steps) && walk_weight(steps) == a as nat;
            assert(walks_to(adj, start, end, to_a));
        },
        (None, Some(b)) => {
            let to_b = choose|steps: Seq<(usize, usize)>| #[trigger]
                walks_to(adj, start, end, steps) && walk_weight(steps) == b as nat;
            assert(walks_to(adj, start, end, to_b));
        },
        (None, None) => {},
    }
}

/// Among the walks to `end` no heavier than a given one, one is lightest.
proof fn lemma_least_weight_exists(
    adj: Adjacency,
    start: usize,
    end: usize,
    steps: Seq<(usize, usize)>,
)
    requires
        walks_to(adj, start, end, steps),
    ensures
        exists|weight: nat| #[trigger]
            is_least_weight(adj, start, end, weight) && weight <= walk_weight(steps),
    decreases walk_weight(steps),
{
    if forall|other: Seq<(usize, usize)>| #[trigger]
        walks_to(adj, start, end, other) ==> walk_weight(other) >= walk_weight(steps) {
        assert(is_least_weight(adj, start, end, walk_weight(steps)));
    } else {
        let lighter = choose|other: Seq<(usize, usize)>| #[trigger]
            walks_to(adj, start, end, other) && walk_weight(other) < walk_weight(steps);
        lemma_least_weight_exists(adj, start, end, lighter);
    }
}

/// Every graph and pair of nodes has a shortest distance, which
/// `shortest_distance` names.
pub proof fn lemma_shortest_distance_exists(adj: Adjacency, start: usize, end: usize)
    ensures
        is_shortest_distance(adj, start, end, shortest_distance(adj, start, end)),
{
    if exists|steps: Seq<(usize, usize)>| #[trigger]
        walks_to(adj, start, end, steps) && walk_weight(steps) <= usize::MAX {
        let steps = choose|steps: Seq<(usize, usize)>| #[trigger]
            walks_to(adj, start, end, steps) && walk_weight(steps) <= usize::MAX;
        lemma_least_weight_exists(adj, start, end, steps);
        let weight = choose|weight: nat| #[trigger]
            is_least_weight(adj, start, end, weight) && weight <= walk_weight(steps);
        assert(is_shortest_distance(adj, start, end, Some(weight as usize)));
    } else {
        assert(is_shortest_distance(adj, start, end, None));
    }
}

/// A result that is the shortest distance is the one that
/// `shortest_distance` names.
pub proof fn lemma_shortest_distance_named(
    adj: Adjacency,
    start: usize,
    end: usize,
    distance: Option<usize>,
)
    requires
        is_shortest_distance(adj, start, end, distance),
    ensures
        distance == shortest_distance(adj, start, end),
{
    lemma_shortest_distance_exists(adj, start, end);
    lemma_shortest_distance_unique(
        adj,
        start,
        end,
        distance,
        shortest_distance(adj, start, end),
    );
}

/// The shortest distance from a node to itself is 0, whatever the graph.
pub proof fn lemma_distance_to_self(adj: Adjacency, node: usize)
    ensures
        is_shortest_distance(adj, node, node, Some(0usize)),
        shortest_distance(adj, node, node) == Some(0usize),
{
    lemma_empty_walk(adj, node);
    assert(walks_to(adj, node, node, Seq::empty()) && walk_weight(Seq::empty()) == 0);
    assert(is_least_weight(adj, node, node, 0));
    lemma_shortest_distance_exists(adj, node, node);
    lemma_shortest_distance_unique(
        adj,
        node,
        node,
        Some(0usize),
        shortest_distance(adj, node, node),
    );
}

/// Whether some walk from `start` to `node` weighs `weight`.
spec fn reached_with(adj: Adjacency, start: usize, node: usize, weight: nat) -> bool {
    exists|steps: Seq<(usize, usize)>| #[trigger]
        walks_to(adj, start, node, steps) && walk_weight(steps) == weight
}

/// Whether the edge out of `from` cannot improve what is known of its
/// target. An edge that leads beyond `usize::MAX` improves nothing.
spec fn relaxed(best: Map<usize, usize>, from: usize, edge: (usize, usize)) -> bool {
    best[from] + edge.1 <= usize::MAX ==> best.contains_key(edge.0) && best[edge.0] <= best[from]
        + edge.1
}

spec fn entry_of(best: Map<usize, usize>, node: usize) -> HeapEntry {
    HeapEntry { distance: best[node], node }
}

/// What the search knows between two extractions: `best` holds the least
/// weight found so far for every node found, `settled` the nodes whose
/// edges have all been followed, `frontier` the entries still to extract.
spec fn search_inv(
    adj: Adjacency,
    start: usize,
    best: Map<usize, usize>,
    settled: Set<usize>,
    frontier: Multiset<HeapEntry>,
) -> bool {
    &&& best.contains_key(start) && best[start] == 0
    &&& forall|node: usize| #[trigger]
        best.contains_key(node) ==> reached_with(adj, start, node, best[node] as nat)
    &&& forall|entry: HeapEntry| #[trigger]
        frontier.contains(entry) ==> best.contains_key(entry.node) && best[entry.node]
            <= entry.distance
    &&& forall|node: usize| #[trigger]
        best.contains_key(node) && !settled.contains(node) ==> frontier.contains(
            entry_of(best, node),
        )
    &&& forall|node: usize| #[trigger] settled.contains(node) ==> best.contains_key(node)
    &&& forall|node: usize, j: int|
        settled.contains(node) && 0 <= j < out_edges(adj, node).len() ==> relaxed(
            best,
            node,
            #[trigger] out_edges(adj, node)[j],
        )
    &&& forall|node: usize, entry: HeapEntry| #[trigger]
        settled.contains(node) && #[trigger] frontier.contains(entry) ==> best[node]
            <= entry.distance
}

/// What the search knows while it follows the edges of `current`, the
/// first `done` of them followed.
spec fn relaxing_inv(
    adj: Adjacency,
    start: usize,
    best: Map<usize, usize>,
    settled: Set<usize>,
    frontier: Multiset<HeapEntry>,
    current: usize,
    done: int,
) -> bool {
    &&& best.contains_key(start) && best[start] == 0
    &&& forall|node: usize| #[trigger]
        best.contains_key(node) ==> reached_with(adj, start, node, best[node] as nat)
    &&& forall|entry: HeapEntry| #[trigger]
        frontier.contains(entry) ==> best.contains_key(entry.node) && best[entry.node]
            <= entry.distance
    &&& forall|node: usize| #[trigger]
        best.contains_key(node) && !settled.contains(node) && node != current
            ==> frontier.contains(entry_of(best, node))
    &&& forall|node: usize| #[trigger] settled.contains(node) ==> best.contains_key(node)
    &&& forall|node: usize, j: int|
        settled.contains(node) && 0 <= j < out_edges(adj, node).len() ==> relaxed(
            best,
            node,
            #[trigger] out_edges(adj, node)[j],
        )
    &&& best.contains_key(current)
    &&& forall|j: int|
        0 <= j < done && j < out_edges(adj, current).len() ==> relaxed(
            best,
            current,
            #[trigger] out_edges(adj, current)[j],
        )
    &&& forall|node: usize| #[trigger] settled.contains(node) ==> best[node] <= best[current]
    &&& forall|entry: HeapEntry| #[trigger]
        frontier.contains(entry) ==> best[current] <= entry.distance
}

proof fn lemma_search_begins(adj: Adjacency, start: usize)
    ensures
        search_inv(
            adj,
            start,
            Map::<usize, usize>::empty().insert(start, 0),
            Set::empty(),
            Multiset::empty().insert(HeapEntry { distance: 0, node: start }),
        ),
{
    let best = Map::<usize, usize>::empty().insert(start, 0);
    lemma_empty_walk(adj, start);
    assert(reached_with(adj, start, start, 0)) by {
        assert(walks_to(adj, start, start, Seq::empty()));
    }
    assert(entry_of(best, start) == HeapEntry { distance: 0, node: start });
}

/// An extracted entry that is farther than what is known of its node is
/// dropped.
proof fn lemma_drop_stale(
    adj: Adjacency,
    start: usize,
    best: Map<usize, usize>,
    settled: Set<usize>,
    frontier: Multiset<HeapEntry>,
    entry: HeapEntry,
)
    requires
        search_inv(adj, start, best, settled, frontier),
        frontier.contains(entry),
        best[entry.node] < entry.distance,
    ensures
        search_inv(adj, start, best, settled, frontier.remove(entry)),
{
    let rest = frontier.remove(entry);
    assert forall|node: usize| #[trigger]
        best.contains_key(node) && !settled.contains(node) implies rest.contains(
        entry_of(best, node),
    ) by {
        assert(frontier.contains(entry_of(best, node)));
        assert(entry_of(best, node) != entry);
    }
    assert forall|other: HeapEntry| #[trigger] rest.contains(other) implies frontier.contains(
        other,
    ) by {}
}

/// An extracted nearest entry that is as far as what is known of its node
/// opens the following of that node's edges.
proof fn lemma_open_node(
    adj: Adjacency,
    start: usize,
    best: Map<usize, usize>,
    settled: Set<usize>,
    frontier: Multiset<HeapEntry>,
    entry: HeapEntry,
)
    requires
        search_inv(adj, start, best, settled, frontier),
        frontier.contains(entry),
        forall|other: HeapEntry| frontier.contains(other) ==> entry.distance <= other.distance,
        best[entry.node] == entry.distance,
    ensures
        relaxing_inv(adj, start, best, settled, frontier.remove(entry), entry.node, 0),
{
    let rest = frontier.remove(entry);
    assert forall|other: HeapEntry| #[trigger] rest.contains(other) implies frontier.contains(
        other,
    ) by {}
    assert forall|node: usize| #[trigger]
        best.contains_key(node) && !settled.contains(node) && node != entry.node
            implies rest.contains(entry_of(best, node)) by {
        assert(frontier.contains(entry_of(best, node)));
        assert(entry_of(best, node) != entry);
    }
}

/// An edge that improves nothing is passed.
proof fn lemma_pass_edge(
    adj: Adjacency,
    start: usize,
    best: Map<usize, usize>,
    settled: Set<usize>,
    frontier: Multiset<HeapEntry>,
    current: usize,
    done: int,
)
    requires
        relaxing_inv(adj, start, best, settled, frontier, current, done),
        0 <= done < out_edges(adj, current).len(),
        relaxed(best, current, out_edges(adj, current)[done]),
    ensures
        relaxing_inv(adj, start, best, settled, frontier, current, done + 1),
{
}

/// An edge that leads to a node nearer than known, or not known yet,
/// records the new distance and puts the node on the frontier.
proof fn lemma_improve_edge(
    adj: Adjacency,
    start: usize,
    best: Map<usize, usize>,
    settled: Set<usize>,
    frontier: Multiset<HeapEntry>,
    current: usize,
    done: int,
)
    requires
        relaxing_inv(adj, start, best, settled, frontier, current, done),
        0 <= done < out_edges(adj, current).len(),
        best[current] + out_edges(adj, current)[done].1 <= usize::MAX,
        !relaxed(best, current, out_edges(adj, current)[done]),
    ensures
        ({
            let edge = out_edges(adj, current)[done];
            let total = (best[current] + edge.1) as usize;
            &&& relaxing_inv(
                adj,
                start,
                best.insert(edge.0, total),
                settled,
                frontier.insert(HeapEntry { distance: total, node: edge.0 }),
                current,
                done + 1,
            )
            &&& !settled.contains(current)
        }),
{
    let edge = out_edges(adj, current)[done];
    let target = edge.0;
    let total = (best[current] + edge.1) as usize;
    let better = best.insert(target, total);
    let added = HeapEntry { distance: total, node: target };
    let wider = frontier.insert(added);

    assert(target != current);
    assert(!settled.contains(target));
    assert(!settled.contains(current)) by {
        if settled.contains(current) {
            assert(relaxed(best, current, out_edges(adj, current)[done]));
        }
    }
    assert(reached_with(adj, start, target, total as nat)) by {
        assert(reached_with(adj, start, current, best[current] as nat));
        let steps = choose|steps: Seq<(usize, usize)>| #[trigger]
            walks_to(adj, start, current, steps) && walk_weight(steps) == best[current] as nat;
        assert(out_edges(adj, current).contains(edge));
        lemma_walk_push(adj, start, steps, edge);
        assert(walks_to(adj, start, target, steps.push(edge)));
    }
    assert forall|node: usize| #[trigger] better.contains_key(node) implies reached_with(
        adj,
        start,
        node,
        better[node] as nat,
    ) by {
        if node != target {
            assert(best.contains_key(node));
        }
    }
    assert forall|entry: HeapEntry| #[trigger] wider.contains(entry) implies better.contains_key(
        entry.node,
    ) && better[entry.node] <= entry.distance by {
        if entry != added {
            assert(frontier.contains(entry));
        }
    }
    assert forall|node: usize| #[trigger]
        better.contains_key(node) && !settled.contains(node) && node != current
            implies wider.contains(entry_of(better, node)) by {
        if node == target {
            assert(entry_of(better, node) == added);
        } else {
            assert(best.contains_key(node));
            assert(frontier.contains(entry_of(best, node)));
            assert(entry_of(better, node) == entry_of(best, node));
        }
    }
    assert forall|node: usize, j: int|
        settled.contains(node) && 0 <= j < out_edges(adj, node).len() implies relaxed(
        better,
        node,
        #[trigger] out_edges(adj, node)[j],
    ) by {
        assert(relaxed(best, node, out_edges(adj, node)[j]));
        assert(best.contains_key(node));
    }
    assert forall|j: int|
        0 <= j < done + 1 && j < out_edges(adj, current).len() implies relaxed(
        better,
        current,
        #[trigger] out_edges(adj, current)[j],
    ) by {
        if j < done {
            assert(relaxed(best, current, out_edges(adj, current)[j]));
        }
    }
    assert forall|entry: HeapEntry| #[trigger] wider.contains(entry) implies better[current]
        <= entry.distance by {
        if entry != added {
            assert(frontier.contains(entry));
        }
    }
}

/// A node whose edges have all been followed is settled.
proof fn lemma_settle(
    adj: Adjacency,
    start: usize,
    best: Map<usize, usize>,
    settled: Set<usize>,
    frontier: Multiset<HeapEntry>,
    current: usize,
    done: int,
)
    requires
        relaxing_inv(adj, start, best, settled, frontier, current, done),
        done >= out_edges(adj, current).len(),
    ensures
        search_inv(adj, start, best, settled.insert(current), frontier),
{
    let more = settled.insert(current);
    assert forall|node: usize, j: int|
        more.contains(node) && 0 <= j < out_edges(adj, node).len() implies relaxed(
        best,
        node,
        #[trigger] out_edges(adj, node)[j],
    ) by {
        if node != current {
            assert(settled.contains(node));
        }
    }
    assert forall|node: usize, entry: HeapEntry| #[trigger]
        more.contains(node) && #[trigger] frontier.contains(entry) implies best[node]
        <= entry.distance by {
        if node != current {
            assert(settled.contains(node));
        }
    }
}

/// Between two extractions every walk from the start is heavier than fits,
/// or ends at a settled node no farther than the walk is heavy, or is no
/// lighter than some entry of the frontier.
proof fn lemma_lower_bound(
    adj: Adjacency,
    start: usize,
    best: Map<usize, usize>,
    settled: Set<usize>,
    frontier: Multiset<HeapEntry>,
    steps: Seq<(usize, usize)>,
)
    requires
        search_inv(adj, start, best, settled, frontier),
        is_walk(adj, start, steps),
    ensures
        ({
            let end = walk_end(start, steps);
            let weight = walk_weight(steps);
            ||| weight > usize::MAX
            ||| settled.contains(end) && best[end] <= weight
            ||| exists|entry: HeapEntry| #[trigger]
                frontier.contains(entry) && entry.distance <= weight
        }),
    decreases steps.len(),
{
    let end = walk_end(start, steps);
    let weight = walk_weight(steps);
    if steps.len() == 0 {
        if !settled.contains(start) {
            assert(frontier.contains(entry_of(best, start)));
        }
    } else {
        let shorter = steps.drop_last();
        let edge = steps.last();
        let from = walk_end(start, shorter);
        lemma_walk_drop_last(adj, start, steps);
        lemma_lower_bound(adj, start, best, settled, frontier, shorter);
        if walk_weight(shorter) > usize::MAX {
        } else if settled.contains(from) && best[from] <= walk_weight(shorter) {
            let j = choose|j: int|
                0 <= j < out_edges(adj, from).len() && out_edges(adj, from)[j] == edge;
            assert(relaxed(best, from, out_edges(adj, from)[j]));
            if best[from] + edge.1 <= usize::MAX {
                assert(best.contains_key(end));
                if !settled.contains(end) {
                    assert(frontier.contains(entry_of(best, end)));
                }
            }
        } else {
            let entry = choose|entry: HeapEntry| #[trigger]
                frontier.contains(entry) && entry.distance <= walk_weight(shorter);
            assert(frontier.contains(entry) && entry.distance <= weight);
        }
    }
}

/// The entry of the target that is extracted as a nearest one gives the
/// least weight.
proof fn lemma_found(
    adj: Adjacency,
    start: usize,
    end: usize,
    best: Map<usize, usize>,
    settled: Set<usize>,
    frontier: Multiset<HeapEntry>,
    entry: HeapEntry,
)
    requires
        search_inv(adj, start, best, settled, frontier),
        !settled.contains(end),
        frontier.contains(entry),
        forall|other: HeapEntry| frontier.contains(other) ==> entry.distance <= other.distance,
        entry.node == end,
    ensures
        is_least_weight(adj, start, end, entry.distance as nat),
        start == end ==> entry.distance == 0,
{
    assert(best.contains_key(end));
    assert(frontier.contains(entry_of(best, end)));
    assert(best[end] == entry.distance);
    assert(reached_with(adj, start, end, best[end] as nat));
    assert forall|steps: Seq<(usize, usize)>| #[trigger]
        walks_to(adj, start, end, steps) implies walk_weight(steps) >= entry.distance by {
        lemma_lower_bound(adj, start, best, settled, frontier, steps);
    }
}

/// Once the frontier is empty, no walk that fits leads to a node that
/// was not settled.
proof fn lemma_exhausted(
    adj: Adjacency,
    start: usize,
    end: usize,
    best: Map<usize, usize>,
    settled: Set<usize>,
    frontier: Multiset<HeapEntry>,
)
    requires
        search_inv(adj, start, best, settled, frontier),
        !settled.contains(end),
        frontier.len() == 0,
    ensures
        is_shortest_distance(adj, start, end, None),
{
    assert forall|steps: Seq<(usize, usize)>| #[trigger]
        walks_to(adj, start, end, steps) implies walk_weight(steps) > usize::MAX by {
        lemma_lower_bound(adj, start, best, settled, frontier, steps);
        if exists|entry: HeapEntry| #[trigger]
            frontier.contains(entry) && entry.distance <= walk_weight(steps) {
            let entry = choose|entry: HeapEntry| #[trigger]
                frontier.contains(entry) && entry.distance <= walk_weight(steps);
            assert(frontier.count(entry) > 0);
            assert(frontier.count(entry) <= frontier.len());
        }
    }
}

/// The least weight of a walk from `start` to `end`, where weights add up
/// along the walk and a graph may hold any weights a `usize` can take.
///
/// `None` says that no walk leads from `start` to `end`, or that even the
/// lightest one is heavier than `usize::MAX`.
pub fn dijkstras_algorithm(
    graph: &HashMap<usize, Vec<(usize, usize)>>,
    start: usize,
    end: usize,
) -> (distance: Option<usize>)
    ensures
        is_shortest_distance(adjacency_view(*graph), start, end, distance),
        distance == shortest_distance(adjacency_view(*graph), start, end),
        start == end ==> distance == Some(0usize),
{
    let ghost adj = adjacency_view(*graph);
    let mut distances: HashMap<usize, usize> = HashMap::new();
    let mut heap = MinHeap::new();
    let ghost mut settled: Set<usize> = Set::empty();

    distances.insert(start, 0);
    heap.push(HeapEntry { distance: 0, node: start });
    proof {
        lemma_search_begins(adj, start);
        assert(adj.dom() =~= graph@.dom());
    }

    loop
        invariant
            adj == adjacency_view(*graph),
            adj.dom().finite(),
            heap.wf(),
            search_inv(adj, start, distances@, settled, heap@),
            !settled.contains(end),
        decreases adj.dom().difference(settled).len(), heap@.len(),
    {
        let ghost frontier = heap@;
        let entry = match heap.pop() {
            Some(entry) => entry,
            None => {
                proof {
                    lemma_exhausted(adj, start, end, distances@, settled, frontier);
                    lemma_shortest_distance_named(adj, start, end, None);
                    if start == end {
                        lemma_empty_walk(adj, start);
                    }
                }
                return None;
            },
        };
        if entry.node == end {
            proof {
                lemma_found(adj, start, end, distances@, settled, frontier, entry);
                lemma_shortest_distance_named(adj, start, end, Some(entry.distance));
            }
            return Some(entry.distance);
        }
        let known = match distances.get(&entry.node) {
            Some(known) => *known,
            None => {
                assert(false);
                entry.distance
            },
        };
        if known < entry.distance {
            proof {
                lemma_drop_stale(adj, start, distances@, settled, frontier, entry);
            }
            continue;
        }
        proof {
            lemma_open_node(adj, start, distances@, settled, frontier, entry);
        }
        let ghost opened = heap@;
        match graph.get(&entry.node) {
            Some(neighbors) => {
                assert(out_edges(adj, entry.node) == neighbors@);
                let mut i: usize = 0;
                while i < neighbors.len()
                    invariant
                        i <= neighbors.len(),
                        out_edges(adj, entry.node) == neighbors@,
                        heap.wf(),
                        relaxing_inv(adj, start, distances@, settled, heap@, entry.node, i as int),
                        distances@[entry.node] == entry.distance,
                        settled.contains(entry.node) ==> heap@ == opened,
                    decreases neighbors.len() - i,
                {
                    let (neighbor, weight) = neighbors[i];
                    let improved = match entry.distance.checked_add(weight) {
                        Some(total) => {
                            let improves = match distances.get(&neighbor) {
                                Some(known) => total < *known,
                                None => true,
                            };
                            if improves {
                                Some(total)
                            } else {
                                None
                            }
                        },
                        None => None,
                    };
                    match improved {
                        Some(total) => {
                            proof {
                                lemma_improve_edge(
                                    adj,
                                    start,
                                    distances@,
                                    settled,
                                    heap@,
                                    entry.node,
                                    i as int,
                                );
                            }
                            distances.insert(neighbor, total);
                            heap.push(HeapEntry { distance: total, node: neighbor });
                        },
                        None => {
                            proof {
                                lemma_pass_edge(
                                    adj,
                                    start,
                                    distances@,
                                    settled,
                                    heap@,
                                    entry.node,
                                    i as int,
                                );
                            }
                        },
                    }
                    i += 1;
                }
            },
            None => {
                assert(out_edges(adj, entry.node).len() == 0);
            },
        }
        proof {
            lemma_settle(
                adj,
                start,
                distances@,
                settled,
                heap@,
                entry.node,
                out_edges(adj, entry.node).len() as int,
            );
            let ghost more = settled.insert(entry.node);
            if settled.contains(entry.node) {
                assert(more =~= settled);
            } else if adj.dom().contains(entry.node) {
                assert(adj.dom().difference(more) =~= adj.dom().difference(settled).remove(
                    entry.node,
                ));
            } else {
                assert(adj.dom().difference(more) =~= adj.dom().difference(settled));
            }
            settled = more;
        }
    }
}

} // verus!
