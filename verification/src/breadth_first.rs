//! Hop distances from a source to every node that can be reached from it,
//! by layered expansion with a first-in first-out frontier.

use crate::graph::{out_edges, Adjacency, Graph};
use crate::shortest_path::{distance_fits, is_shortest_distance};
use crate::walk::{
    is_least_hops, is_walk, lemma_empty_walk, lemma_walk_cut, lemma_walk_drop_last,
    lemma_walk_push, node_before, reachable, walk_end, walk_weight, walks_to,
};
use std::collections::{HashMap, HashSet, VecDeque};
use vstd::prelude::*;
use vstd::set_lib::{lemma_int_range, lemma_len_subset, lemma_map_size, set_int_range};

verus! {

/// Whether `distances` holds exactly the nodes that can be reached from
/// `start`, each with the least number of steps that leads to it. The
/// weights of the edges play no part.
pub open spec fn is_hop_distance_map(adj: Adjacency, start: usize, distances: Map<usize, usize>) -> bool {
    &&& forall|node: usize| #[trigger] distances.contains_key(node) <==> reachable(adj, start, node)
    &&& forall|node: usize| #[trigger]
        distances.contains_key(node) ==> is_least_hops(adj, start, node, distances[node] as nat)
}

/// The map that `is_hop_distance_map` describes.
pub open spec fn hop_distances(adj: Adjacency, start: usize) -> Map<usize, usize> {
    choose|distances: Map<usize, usize>| is_hop_distance_map(adj, start, distances)
}

/// At most one map is the map of hop distances: two traversals of one
/// graph from one source give the same map.
pub proof fn lemma_hop_distances_unique(
    adj: Adjacency,
    start: usize,
    first: Map<usize, usize>,
    second: Map<usize, usize>,
)
    requires
        is_hop_distance_map(adj, start, first),
        is_hop_distance_map(adj, start, second),
    ensures
        first == second,
{
    assert forall|node: usize| first.contains_key(node) implies #[trigger] first[node]
        == second[node] by {
        assert(second.contains_key(node));
        let to_first = choose|steps: Seq<(usize, usize)>| #[trigger]
            walks_to(adj, start, node, steps) && steps.len() == first[node] as nat;
        let to_second = choose|steps: Seq<(usize, usize)>| #[trigger]
            walks_to(adj, start, node, steps) && steps.len() == second[node] as nat;
        assert(walks_to(adj, start, node, to_first));
        assert(walks_to(adj, start, node, to_second));
    }
    assert(first.dom() =~= second.dom());
    assert(first =~= second);
}

/// A map that is the map of hop distances is the one that `hop_distances`
/// names.
pub proof fn lemma_hop_distances_named(adj: Adjacency, start: usize, distances: Map<usize, usize>)
    requires
        is_hop_distance_map(adj, start, distances),
    ensures
        distances == hop_distances(adj, start),
{
    lemma_hop_distances_unique(adj, start, distances, hop_distances(adj, start));
}

/// Among the walks to `end` no longer than a given one, one is shortest.
proof fn lemma_least_hops_exist(
    adj: Adjacency,
    start: usize,
    end: usize,
    steps: Seq<(usize, usize)>,
)
    requires
        walks_to(adj, start, end, steps),
    ensures
        exists|hops: nat| is_least_hops(adj, start, end, hops),
    decreases steps.len(),
{
    if forall|other: Seq<(usize, usize)>| #[trigger]
        walks_to(adj, start, end, other) ==> other.len() >= steps.len() {
        assert(is_least_hops(adj, start, end, steps.len()));
    } else {
        let shorter = choose|other: Seq<(usize, usize)>| #[trigger]
            walks_to(adj, start, end, other) && other.len() < steps.len();
        lemma_least_hops_exist(adj, start, end, shorter);
    }
}

/// A shortest walk meets no node twice, so that the number of its steps
/// fits in a `usize`.
proof fn lemma_least_hops_fit(adj: Adjacency, start: usize, end: usize, hops: nat)
    requires
        is_least_hops(adj, start, end, hops),
    ensures
        hops <= usize::MAX,
{
    let steps = choose|steps: Seq<(usize, usize)>| #[trigger]
        walks_to(adj, start, end, steps) && steps.len() == hops;
    let visit = |place: int| node_before(start, steps, place);
    let places = set_int_range(0, hops as int + 1);
    assert forall|first: int, second: int|
        places.contains(first) && places.contains(second) && #[trigger] visit(first)
            == #[trigger] visit(second) implies first == second by {
        if first != second {
            let (low, high) = if first < second {
                (first, second)
            } else {
                (second, first)
            };
            lemma_walk_cut(adj, start, steps, low, high);
            assert(walks_to(adj, start, end, steps.take(low) + steps.skip(high)));
        }
    }
    assert(vstd::relations::injective_on(visit, places));
    lemma_int_range(0, hops as int + 1);
    lemma_map_size(places, places.map(visit), visit);
    lemma_node_count(places.map(visit));
}

/// Every graph and source has a map of hop distances, which
/// `hop_distances` names.
pub proof fn lemma_hop_distances_exist(adj: Adjacency, start: usize)
    ensures
        is_hop_distance_map(adj, start, hop_distances(adj, start)),
{
    let distances = Map::<usize, usize>::new(
        |node: usize| reachable(adj, start, node),
        |node: usize| (choose|hops: nat| is_least_hops(adj, start, node, hops)) as usize,
    );
    assert forall|node: usize| #[trigger] distances.contains_key(node) implies is_least_hops(
        adj,
        start,
        node,
        distances[node] as nat,
    ) by {
        let steps = choose|steps: Seq<(usize, usize)>| walks_to(adj, start, node, steps);
        lemma_least_hops_exist(adj, start, node, steps);
        let hops = choose|hops: nat| is_least_hops(adj, start, node, hops);
        lemma_least_hops_fit(adj, start, node, hops);
    }
    assert(is_hop_distance_map(adj, start, distances));
}

/// Weighted search finds no distance exactly where the traversal by hops
/// finds no entry, as long as the distance, where there is one, fits in a
/// `usize`: weights decide how far a node is, never whether it can be
/// reached.
pub proof fn lemma_unreachable_iff_absent(
    adj: Adjacency,
    start: usize,
    end: usize,
    distance: Option<usize>,
    hops: Map<usize, usize>,
)
    requires
        is_shortest_distance(adj, start, end, distance),
        is_hop_distance_map(adj, start, hops),
        distance_fits(adj, start, end),
    ensures
        distance is None <==> !hops.contains_key(end),
{
    if hops.contains_key(end) {
        assert(reachable(adj, start, end));
        let light = choose|steps: Seq<(usize, usize)>| #[trigger]
            walks_to(adj, start, end, steps) && walk_weight(steps) <= usize::MAX;
        assert(walks_to(adj, start, end, light));
    }
    if let Some(weight) = distance {
        let steps = choose|steps: Seq<(usize, usize)>| #[trigger]
            walks_to(adj, start, end, steps) && walk_weight(steps) == weight as nat;
        assert(walks_to(adj, start, end, steps));
        assert(reachable(adj, start, end));
    }
}

/// Whether some walk from `start` to `node` takes `hops` steps.
spec fn found_in(adj: Adjacency, start: usize, node: usize, hops: nat) -> bool {
    exists|steps: Seq<(usize, usize)>| #[trigger]
        walks_to(adj, start, node, steps) && steps.len() == hops
}

/// Whether `node` was discovered, at a layer not beyond `bound`.
spec fn listed_within(order: Seq<(usize, usize)>, node: usize, bound: int) -> bool {
    exists|k: int| 0 <= k < order.len() && (#[trigger] order[k]).0 == node && order[k].1 <= bound
}

/// Whether `node` was discovered.
spec fn listed(order: Seq<(usize, usize)>, node: usize) -> bool {
    exists|k: int| 0 <= k < order.len() && (#[trigger] order[k]).0 == node
}

/// Whether the targets of the first `done` edges of the node discovered
/// as number `i` were discovered, none more than one layer farther.
spec fn explored(adj: Adjacency, order: Seq<(usize, usize)>, i: int, done: int) -> bool {
    forall|j: int|
        0 <= j < done && j < out_edges(adj, order[i].0).len() ==> listed_within(
            order,
            (#[trigger] out_edges(adj, order[i].0)[j]).0,
            order[i].1 + 1,
        )
}

/// What holds of the nodes in the order of their discovery, each with its
/// layer: no node twice, each reached by a walk of as many steps as its
/// layer says, the layers rising, and none higher than the node's place.
spec fn layered(adj: Adjacency, start: usize, order: Seq<(usize, usize)>) -> bool {
    &&& order.len() > 0
    &&& order[0] == (start, 0usize)
    &&& forall|i: int, j: int|
        0 <= i < j < order.len() ==> (#[trigger] order[i]).0 != (#[trigger] order[j]).0
    &&& forall|i: int|
        0 <= i < order.len() ==> found_in(adj, start, (#[trigger] order[i]).0, order[i].1 as nat)
    &&& forall|i: int, j: int|
        0 <= i <= j < order.len() ==> (#[trigger] order[i]).1 <= (#[trigger] order[j]).1
    &&& forall|i: int| 0 <= i < order.len() ==> (#[trigger] order[i]).1 <= i
}

/// What the traversal knows: the first `head` nodes discovered have had
/// all their edges followed, the next one its first `done` edges, and no
/// layer is more than one beyond that node's.
spec fn traversal_inv(
    adj: Adjacency,
    start: usize,
    order: Seq<(usize, usize)>,
    head: int,
    done: int,
) -> bool {
    &&& layered(adj, start, order)
    &&& 0 <= head <= order.len()
    &&& forall|i: int|
        0 <= i < head ==> #[trigger] explored(
            adj,
            order,
            i,
            out_edges(adj, order[i].0).len() as int,
        )
    &&& head < order.len() ==> {
        &&& explored(adj, order, head, done)
        &&& forall|j: int|
            0 <= j < order.len() ==> (#[trigger] order[j]).1 <= order[head].1 + 1
    }
}

/// The nodes that `visited` holds are those discovered.
spec fn marks(visited: Set<usize>, order: Seq<(usize, usize)>) -> bool {
    &&& visited.finite()
    &&& visited.len() == order.len()
    &&& forall|node: usize| #[trigger] visited.contains(node) <==> listed(order, node)
}

/// `distances` holds the first `count` nodes discovered, each with its
/// layer.
spec fn records(distances: Map<usize, usize>, order: Seq<(usize, usize)>, count: int) -> bool {
    &&& forall|node: usize| #[trigger]
        distances.contains_key(node) <==> listed(order.take(count), node)
    &&& forall|i: int|
        0 <= i < count && i < order.len() ==> distances.contains_key((#[trigger] order[i]).0)
            && distances[order[i].0] == order[i].1
}

/// No more nodes can be told apart than a `usize` has values.
proof fn lemma_node_count(nodes: Set<usize>)
    requires
        nodes.finite(),
    ensures
        nodes.len() <= usize::MAX + 1,
{
    let number = |node: usize| node as int;
    let numbers = nodes.map(number);
    let all = set_int_range(0, usize::MAX + 1);
    assert(numbers.subset_of(all)) by {
        assert forall|n: int| numbers.contains(n) implies all.contains(n) by {
            let node = choose|node: usize| nodes.contains(node) && number(node) == n;
        }
    }
    lemma_int_range(0, usize::MAX + 1);
    lemma_len_subset(numbers, all);
    assert(vstd::relations::injective_on(number, nodes));
    lemma_map_size(nodes, numbers, number);
}

proof fn lemma_listing_grows(order: Seq<(usize, usize)>, pair: (usize, usize), node: usize, bound: int)
    requires
        listed_within(order, node, bound),
    ensures
        listed_within(order.push(pair), node, bound),
{
    let k = choose|k: int| 0 <= k < order.len() && (#[trigger] order[k]).0 == node && order[k].1 <= bound;
    assert(order.push(pair)[k] == order[k]);
}

proof fn lemma_exploring_grows(
    adj: Adjacency,
    order: Seq<(usize, usize)>,
    pair: (usize, usize),
    i: int,
    done: int,
)
    requires
        0 <= i < order.len(),
        explored(adj, order, i, done),
    ensures
        explored(adj, order.push(pair), i, done),
{
    let longer = order.push(pair);
    assert(longer[i] == order[i]);
    assert forall|j: int|
        0 <= j < done && j < out_edges(adj, longer[i].0).len() implies listed_within(
        longer,
        (#[trigger] out_edges(adj, longer[i].0)[j]).0,
        longer[i].1 + 1,
    ) by {
        lemma_listing_grows(order, pair, out_edges(adj, order[i].0)[j].0, order[i].1 + 1);
    }
}

proof fn lemma_traversal_begins(adj: Adjacency, start: usize)
    ensures
        traversal_inv(adj, start, seq![(start, 0usize)], 0, 0),
{
    lemma_empty_walk(adj, start);
    assert(found_in(adj, start, start, 0)) by {
        assert(walks_to(adj, start, start, Seq::empty()));
    }
}

/// An edge to a node discovered before is passed.
proof fn lemma_pass_seen(
    adj: Adjacency,
    start: usize,
    order: Seq<(usize, usize)>,
    head: int,
    done: int,
)
    requires
        traversal_inv(adj, start, order, head, done),
        head < order.len(),
        0 <= done < out_edges(adj, order[head].0).len(),
        listed(order, out_edges(adj, order[head].0)[done].0),
    ensures
        traversal_inv(adj, start, order, head, done + 1),
{
    let target = out_edges(adj, order[head].0)[done].0;
    let k = choose|k: int| 0 <= k < order.len() && (#[trigger] order[k]).0 == target;
    assert(order[k].1 <= order[head].1 + 1);
    assert(listed_within(order, target, order[head].1 + 1));
}

/// An edge to a node not discovered before puts that node one layer
/// beyond the node the edge leaves.
proof fn lemma_discover(
    adj: Adjacency,
    start: usize,
    order: Seq<(usize, usize)>,
    head: int,
    done: int,
)
    requires
        traversal_inv(adj, start, order, head, done),
        head < order.len(),
        0 <= done < out_edges(adj, order[head].0).len(),
        !listed(order, out_edges(adj, order[head].0)[done].0),
        order[head].1 + 1 <= usize::MAX,
    ensures
        traversal_inv(
            adj,
            start,
            order.push((out_edges(adj, order[head].0)[done].0, (order[head].1 + 1) as usize)),
            head,
            done + 1,
        ),
{
    let from = order[head].0;
    let edge = out_edges(adj, from)[done];
    let target = edge.0;
    let layer = (order[head].1 + 1) as usize;
    let longer = order.push((target, layer));

    assert forall|i: int| 0 <= i < order.len() implies (#[trigger] longer[i]) == order[i] by {}
    assert(longer[order.len() as int] == (target, layer));

    assert forall|i: int, j: int| 0 <= i < j < longer.len() implies (#[trigger] longer[i]).0 != (
    #[trigger] longer[j]).0 by {
        if j == order.len() {
            assert(order[i].0 != target);
        } else {
            assert(order[i].0 != order[j].0);
        }
    }
    assert(found_in(adj, start, target, layer as nat)) by {
        assert(found_in(adj, start, order[head].0, order[head].1 as nat));
        let steps = choose|steps: Seq<(usize, usize)>| #[trigger]
            walks_to(adj, start, from, steps) && steps.len() == order[head].1 as nat;
        assert(out_edges(adj, from).contains(edge));
        lemma_walk_push(adj, start, steps, edge);
        assert(walks_to(adj, start, target, steps.push(edge)));
    }
    assert forall|i: int| 0 <= i < longer.len() implies found_in(
        adj,
        start,
        (#[trigger] longer[i]).0,
        longer[i].1 as nat,
    ) by {
        if i < order.len() {
            assert(found_in(adj, start, order[i].0, order[i].1 as nat));
        }
    }
    assert forall|i: int, j: int| 0 <= i <= j < longer.len() implies (#[trigger] longer[i]).1 <= (
    #[trigger] longer[j]).1 by {
        if j == order.len() {
            if i < order.len() {
                assert(order[i].1 <= order[head].1 + 1);
            }
        } else {
            assert(order[i].1 <= order[j].1);
        }
    }
    assert forall|i: int| 0 <= i < longer.len() implies (#[trigger] longer[i]).1 <= i by {
        if i < order.len() {
            assert(order[i].1 <= i);
        } else {
            assert(order[head].1 <= head);
        }
    }
    assert forall|i: int| 0 <= i < head implies #[trigger] explored(
        adj,
        longer,
        i,
        out_edges(adj, longer[i].0).len() as int,
    ) by {
        assert(explored(adj, order, i, out_edges(adj, order[i].0).len() as int));
        lemma_exploring_grows(
            adj,
            order,
            (target, layer),
            i,
            out_edges(adj, order[i].0).len() as int,
        );
    }
    assert(explored(adj, longer, head, done + 1)) by {
        lemma_exploring_grows(adj, order, (target, layer), head, done);
        assert(listed_within(longer, target, longer[head].1 + 1)) by {
            assert(longer[order.len() as int].0 == target);
        }
    }
    assert forall|j: int| 0 <= j < longer.len() implies (#[trigger] longer[j]).1 <= longer[head].1
        + 1 by {
        if j < order.len() {
            assert(order[j].1 <= order[head].1 + 1);
        }
    }
}

/// A node whose edges have all been followed is left behind.
proof fn lemma_advance(
    adj: Adjacency,
    start: usize,
    order: Seq<(usize, usize)>,
    head: int,
    done: int,
)
    requires
        traversal_inv(adj, start, order, head, done),
        head < order.len(),
        done >= out_edges(adj, order[head].0).len(),
    ensures
        traversal_inv(adj, start, order, head + 1, 0),
{
    assert(explored(adj, order, head, out_edges(adj, order[head].0).len() as int));
    if head + 1 < order.len() {
        assert forall|j: int| 0 <= j < order.len() implies (#[trigger] order[j]).1 <= order[head
            + 1].1 + 1 by {
            assert(order[j].1 <= order[head].1 + 1);
            assert(order[head].1 <= order[head + 1].1);
        }
    }
}

/// Once every node discovered has had its edges followed, the end of
/// every walk from the start was discovered, at a layer not beyond the
/// number of the walk's steps.
proof fn lemma_all_listed(
    adj: Adjacency,
    start: usize,
    order: Seq<(usize, usize)>,
    steps: Seq<(usize, usize)>,
)
    requires
        traversal_inv(adj, start, order, order.len() as int, 0),
        is_walk(adj, start, steps),
    ensures
        listed_within(order, walk_end(start, steps), steps.len() as int),
    decreases steps.len(),
{
    if steps.len() == 0 {
        assert(order[0].0 == start);
    } else {
        let shorter = steps.drop_last();
        let edge = steps.last();
        let from = walk_end(start, shorter);
        lemma_walk_drop_last(adj, start, steps);
        lemma_all_listed(adj, start, order, shorter);
        let k = choose|k: int|
            0 <= k < order.len() && (#[trigger] order[k]).0 == from && order[k].1 <= shorter.len();
        let j = choose|j: int| 0 <= j < out_edges(adj, from).len() && out_edges(adj, from)[j] == edge;
        assert(explored(adj, order, k, out_edges(adj, order[k].0).len() as int));
        assert(listed_within(order, out_edges(adj, order[k].0)[j].0, order[k].1 + 1));
        let found = choose|found: int|
            0 <= found < order.len() && (#[trigger] order[found]).0 == edge.0 && order[found].1
                <= order[k].1 + 1;
        assert(order[found].1 <= steps.len());
    }
}

/// Once every node discovered has had its edges followed, the record of
/// them all is the map of hop distances.
proof fn lemma_traversal_ends(
    adj: Adjacency,
    start: usize,
    order: Seq<(usize, usize)>,
    distances: Map<usize, usize>,
)
    requires
        traversal_inv(adj, start, order, order.len() as int, 0),
        records(distances, order, order.len() as int),
    ensures
        is_hop_distance_map(adj, start, distances),
{
    assert(order.take(order.len() as int) =~= order);
    assert forall|node: usize| #[trigger] distances.contains_key(node) implies reachable(
        adj,
        start,
        node,
    ) && is_least_hops(adj, start, node, distances[node] as nat) by {
        assert(listed(order, node));
        let k = choose|k: int| 0 <= k < order.len() && (#[trigger] order[k]).0 == node;
        assert(found_in(adj, start, order[k].0, order[k].1 as nat));
        let witness = choose|steps: Seq<(usize, usize)>| #[trigger]
            walks_to(adj, start, node, steps) && steps.len() == order[k].1 as nat;
        assert(walks_to(adj, start, node, witness));
        assert forall|steps: Seq<(usize, usize)>| #[trigger]
            walks_to(adj, start, node, steps) implies steps.len() >= distances[node] by {
            lemma_all_listed(adj, start, order, steps);
            let found = choose|found: int|
                0 <= found < order.len() && (#[trigger] order[found]).0 == node && order[found].1
                    <= steps.len();
            assert(found == k) by {
                if found < k {
                    assert(order[found].0 != order[k].0);
                } else if k < found {
                    assert(order[k].0 != order[found].0);
                }
            }
        }
    }
    assert forall|node: usize| reachable(adj, start, node) implies #[trigger]
        distances.contains_key(node) by {
        let steps = choose|steps: Seq<(usize, usize)>| walks_to(adj, start, node, steps);
        lemma_all_listed(adj, start, order, steps);
        let found = choose|found: int|
            0 <= found < order.len() && (#[trigger] order[found]).0 == node && order[found].1
                <= steps.len();
        assert(listed(order, node));
    }
}

/// The number of edges on a shortest way from `start_node` to every node
/// that can be reached from it; a node that cannot be reached is no key of
/// the result.
pub fn bfs_distances(graph: &Graph, start_node: usize) -> (distances: HashMap<usize, usize>)
    ensures
        is_hop_distance_map(graph@, start_node, distances@),
        distances@ == hop_distances(graph@, start_node),
{
    let ghost adj = graph@;
    let mut visited: HashSet<usize> = HashSet::new();
    let mut distances: HashMap<usize, usize> = HashMap::new();
    let mut queue: VecDeque<(usize, usize)> = VecDeque::new();
    let ghost mut order: Seq<(usize, usize)> = seq![(start_node, 0usize)];
    let ghost mut head: int = 0;

    queue.push_back((start_node, 0));
    visited.insert(start_node);
    proof {
        lemma_traversal_begins(adj, start_node);
        assert(queue@ =~= order.subrange(0, 1));
        assert(adj.dom() =~= graph.adjacency_list@.dom());
        assert forall|node: usize| #[trigger] visited@.contains(node) <==> listed(order, node) by {
            if node == start_node {
                assert(order[0].0 == node);
            }
        }
        assert forall|node: usize| #[trigger] distances@.contains_key(node) <==> listed(
            order.take(0),
            node,
        ) by {}
    }

    loop
        invariant
            adj == graph@,
            adj.dom().finite(),
            traversal_inv(adj, start_node, order, head, 0),
            queue@ == order.subrange(head, order.len() as int),
            marks(visited@, order),
            records(distances@, order, head),
        decreases adj.dom().difference(distances@.dom()).len(), queue@.len(),
    {
        let ghost unexpanded = adj.dom().difference(distances@.dom());
        let (node, dist) = match queue.pop_front() {
            Some(pair) => pair,
            None => {
                proof {
                    lemma_traversal_ends(adj, start_node, order, distances@);
                    lemma_hop_distances_named(adj, start_node, distances@);
                }
                return distances;
            },
        };
        assert(order[head] == (node, dist));
        proof {
            assert(!distances@.contains_key(node)) by {
                if listed(order.take(head), node) {
                    let k = choose|k: int|
                        0 <= k < order.take(head).len() && (#[trigger] order.take(head)[k]).0
                            == node;
                    assert(order[k].0 != order[head].0);
                }
            }
        }
        distances.insert(node, dist);
        proof {
            assert forall|other: usize| #[trigger] distances@.contains_key(other) <==> listed(
                order.take(head + 1),
                other,
            ) by {
                if listed(order.take(head), other) {
                    let k = choose|k: int|
                        0 <= k < order.take(head).len() && (#[trigger] order.take(head)[k]).0
                            == other;
                    assert(order.take(head + 1)[k].0 == other);
                }
                if other == node {
                    assert(order.take(head + 1)[head].0 == other);
                }
                if listed(order.take(head + 1), other) {
                    let k = choose|k: int|
                        0 <= k < order.take(head + 1).len() && (#[trigger] order.take(
                            head + 1,
                        )[k]).0 == other;
                    if k < head {
                        assert(order.take(head)[k].0 == other);
                    }
                }
            }
            assert forall|i: int| 0 <= i < head + 1 && i < order.len() implies distances@.contains_key(
                (#[trigger] order[i]).0,
            ) && distances@[order[i].0] == order[i].1 by {
                if i < head {
                    assert(order[i].0 != order[head].0);
                }
            }
            assert(queue@ =~= order.subrange(head + 1, order.len() as int));
            if adj.dom().contains(node) {
                assert(adj.dom().difference(distances@.dom()) =~= unexpanded.remove(node));
            } else {
                assert(adj.dom().difference(distances@.dom()) =~= unexpanded);
            }
        }
        match graph.adjacency_list.get(&node) {
            Some(neighbors) => {
                assert(out_edges(adj, node) == neighbors@);
                let mut i: usize = 0;
                while i < neighbors.len()
                    invariant
                        i <= neighbors.len(),
                        out_edges(adj, node) == neighbors@,
                        0 <= head < order.len(),
                        order[head] == (node, dist),
                        traversal_inv(adj, start_node, order, head, i as int),
                        queue@ == order.subrange(head + 1, order.len() as int),
                        marks(visited@, order),
                        records(distances@, order, head + 1),
                    decreases neighbors.len() - i,
                {
                    let neighbor = neighbors[i].0;
                    if !visited.contains(&neighbor) {
                        proof {
                            assert(visited@.insert(neighbor).len() == order.len() + 1);
                            lemma_node_count(visited@.insert(neighbor));
                            assert(order[head].1 <= head);
                            lemma_discover(adj, start_node, order, head, i as int);
                        }
                        let ghost longer = order.push((neighbor, (dist + 1) as usize));
                        visited.insert(neighbor);
                        queue.push_back((neighbor, dist + 1));
                        proof {
                            assert(queue@ =~= longer.subrange(head + 1, longer.len() as int));
                            assert forall|other: usize| #[trigger]
                                visited@.contains(other) <==> listed(longer, other) by {
                                if listed(order, other) {
                                    let k = choose|k: int|
                                        0 <= k < order.len() && (#[trigger] order[k]).0 == other;
                                    assert(longer[k].0 == other);
                                }
                                if other == neighbor {
                                    assert(longer[order.len() as int].0 == other);
                                }
                                if listed(longer, other) {
                                    let k = choose|k: int|
                                        0 <= k < longer.len() && (#[trigger] longer[k]).0 == other;
                                    if k < order.len() {
                                        assert(order[k].0 == other);
                                    }
                                }
                            }
                            assert(longer.take(head + 1) =~= order.take(head + 1));
                            assert forall|k: int|
                                0 <= k < head + 1 && k < longer.len() implies distances@.contains_key(
                                (#[trigger] longer[k]).0,
                            ) && distances@[longer[k].0] == longer[k].1 by {
                                assert(longer[k] == order[k]);
                            }
                            order = longer;
                        }
                    } else {
                        proof {
                            lemma_pass_seen(adj, start_node, order, head, i as int);
                        }
                    }
                    i += 1;
                }
            },
            None => {
                assert(out_edges(adj, node).len() == 0);
            },
        }
        proof {
            lemma_advance(
                adj,
                start_node,
                order,
                head,
                out_edges(adj, order[head].0).len() as int,
            );
            head = head + 1;
        }
    }
}

} // verus!
