//! Metrics of a whole graph: mean distances, local clustering and edge
//! density, each as an exact ratio.

use crate::breadth_first::{bfs_distances, hop_distances};
use crate::graph::{out_edges, Adjacency, Graph};
use crate::shortest_path::{dijkstras_algorithm, shortest_distance};
use crate::sum::{lemma_sum_over_insert, lemma_sum_over_subset, lemma_take_next, sum_over};
use std::collections::HashMap;
use vstd::prelude::*;
use vstd::std_specs::iter::IteratorSpec;

verus! {

/// A ratio of two natural numbers, the second one never 0.
#[derive(Clone, Copy, Debug, PartialEq, Eq, Structural)]
pub struct Ratio {
    pub numerator: u128,
    pub denominator: u128,
}

/// Whether `ratio` is the ratio of `numerator` to `denominator`; where
/// there is nothing to divide by, the neutral ratio 0 to 1.
pub open spec fn is_ratio_of(ratio: Ratio, numerator: nat, denominator: nat) -> bool {
    if denominator == 0 {
        ratio == (Ratio { numerator: 0, denominator: 1 })
    } else {
        ratio.numerator == numerator && ratio.denominator == denominator
    }
}

/// At most one ratio is the ratio of two given numbers: a metric computed
/// twice from the same numbers is the same both times.
pub proof fn lemma_ratio_unique(first: Ratio, second: Ratio, numerator: nat, denominator: nat)
    requires
        is_ratio_of(first, numerator, denominator),
        is_ratio_of(second, numerator, denominator),
    ensures
        first == second,
{
}

/// The number of unordered pairs of `count` things.
pub open spec fn pair_count(count: nat) -> nat {
    if count == 0 {
        0
    } else {
        (count * (count - 1) / 2) as nat
    }
}

/// The number of edges stored, parallel ones counted each.
pub open spec fn edge_count(adj: Adjacency) -> nat {
    sum_over(adj.dom(), |node: usize| adj[node].len())
}

/// The keys of a sequence of entries, in its order.
spec fn entry_keys<V>(entries: Seq<(&usize, &V)>) -> Seq<usize> {
    Seq::new(entries.len(), |i: int| *entries[i].0)
}

/// A walk through the map's entries meets each key of the map once.
proof fn lemma_keys_of_entries<V>(
    list: HashMap<usize, V>,
    entries: Seq<(&usize, &V)>,
    keys: Seq<usize>,
)
    requires
        entries == list.iter().remaining(),
        entries.no_duplicates(),
        keys == entry_keys(entries),
    ensures
        keys.len() == entries.len(),
        keys.len() == list@.dom().len(),
        forall|i: int| 0 <= i < keys.len() ==> #[trigger] keys[i] == *entries[i].0,
        forall|i: int|
            0 <= i < keys.len() ==> list@.contains_key(#[trigger] keys[i]) && list@[keys[i]]
                == *entries[i].1,
        keys.no_duplicates(),
        keys.to_set() == list@.dom(),
{
    assert forall|i: int, j: int| 0 <= i < keys.len() && 0 <= j < keys.len() && i != j implies keys[i]
        != keys[j] by {
        assert(list@.contains_key(*entries[i].0) && list@[*entries[i].0] == *entries[i].1);
        assert(list@.contains_key(*entries[j].0) && list@[*entries[j].0] == *entries[j].1);
        if keys[i] == keys[j] {
            assert(entries[i] == entries[j]);
        }
    }
    assert forall|key: usize| keys.to_set().contains(key) <==> list@.dom().contains(key) by {
        if keys.to_set().contains(key) {
            let i = choose|i: int| 0 <= i < keys.len() && keys[i] == key;
            assert(list@.contains_key(*entries[i].0));
        }
        if list@.dom().contains(key) {
            assert(entries.contains((&key, &list@[key])));
            let i = choose|i: int| 0 <= i < entries.len() && entries[i] == (&key, &list@[key]);
            assert(keys[i] == key);
        }
    }
    assert(keys.to_set() =~= list@.dom());
    assert forall|i: int| 0 <= i < keys.len() implies list@.contains_key(#[trigger] keys[i])
        && list@[keys[i]] == *entries[i].1 by {
        assert(list@.contains_key(*entries[i].0) && list@[*entries[i].0] == *entries[i].1);
    }
}

proof fn lemma_product_fits(count: int, bound: int)
    requires
        0 <= count <= usize::MAX,
        0 <= bound <= usize::MAX,
    ensures
        count * bound <= usize::MAX * usize::MAX,
        usize::MAX * usize::MAX < u128::MAX,
{
    assert(count * bound <= usize::MAX * usize::MAX) by (nonlinear_arith)
        requires
            0 <= count <= usize::MAX,
            0 <= bound <= usize::MAX,
    ;
    assert(usize::MAX * usize::MAX <= 0xffff_ffff_ffff_ffff * 0xffff_ffff_ffff_ffff)
        by (nonlinear_arith)
        requires
            0 <= usize::MAX <= 0xffff_ffff_ffff_ffff,
    ;
}

/// The ratio of the edges stored to the pairs of nodes there are, a node
/// being a key of the graph. With fewer than two nodes the density is 0.
///
/// Edges are counted as stored, each direction by itself, and pairs without
/// direction, so that the ratio can be over 1.
pub fn graph_density(graph: &Graph) -> (density: Ratio)
    ensures
        is_ratio_of(density, edge_count(graph@), pair_count(graph@.dom().len())),
        density.denominator > 0,
{
    let ghost adj = graph@;
    let ghost degree = |node: usize| adj[node].len();
    let ghost entries = graph.adjacency_list.iter().remaining();
    let ghost keys = entry_keys(entries);
    let num_nodes = graph.adjacency_list.len();
    let mut num_edges: u128 = 0;
    assert(keys.take(0).to_set() =~= Set::<usize>::empty());

    for entry in it: graph.adjacency_list.iter()
        invariant
            adj == graph@,
            degree == |node: usize| adj[node].len(),
            it.seq() == entries,
            entries == graph.adjacency_list.iter().remaining(),
            entries.no_duplicates(),
            entries.len() == num_nodes,
            keys == entry_keys(entries),
            num_edges == sum_over(keys.take(it.index()).to_set(), degree),
            num_edges <= it.index() * usize::MAX,
    {
        proof {
            lemma_keys_of_entries(graph.adjacency_list, entries, keys);
            lemma_take_next(keys, it.index());
            lemma_sum_over_insert(keys.take(it.index()).to_set(), degree, keys[it.index()]);
            lemma_product_fits(it.index() + 1, usize::MAX as int);
            assert((it.index() + 1) * usize::MAX == it.index() * usize::MAX + usize::MAX)
                by (nonlinear_arith);
        }
        let (node, edges) = entry;
        assert(degree(*node) == edges.len());
        num_edges = num_edges + edges.len() as u128;
    }
    proof {
        lemma_keys_of_entries(graph.adjacency_list, entries, keys);
        assert(keys.take(keys.len() as int) =~= keys);
        assert(adj.dom() =~= graph.adjacency_list@.dom());
        assert(num_edges == edge_count(adj));
        assert(adj.dom().len() == num_nodes);
        lemma_product_fits(
            num_nodes as int,
            num_nodes as int - if num_nodes == 0 {
                0int
            } else {
                1
            },
        );
    }
    if num_nodes <= 1 {
        assert(pair_count(num_nodes as nat) == 0) by (nonlinear_arith)
            requires
                num_nodes <= 1,
        ;
        Ratio { numerator: 0, denominator: 1 }
    } else {
        assert(num_nodes * (num_nodes - 1) >= 2) by (nonlinear_arith)
            requires
                num_nodes >= 2,
        ;
        let max_edges = (num_nodes as u128) * ((num_nodes - 1) as u128) / 2;
        assert(max_edges == pair_count(num_nodes as nat));
        Ratio { numerator: num_edges, denominator: max_edges }
    }
}

/// The distance from `source` to `node` as it counts in the mean: 0 where
/// there is none.
pub open spec fn distance_or_zero(adj: Adjacency, source: usize, node: usize) -> nat {
    match shortest_distance(adj, source, node) {
        Some(distance) => distance as nat,
        None => 0,
    }
}

/// 1 where there is a distance from `source` to `node`, else 0.
pub open spec fn found_or_zero(adj: Adjacency, source: usize, node: usize) -> nat {
    if shortest_distance(adj, source, node) is Some {
        1
    } else {
        0
    }
}

/// The sum of the shortest distances from `source` to the keys of the
/// graph to which there is one.
pub open spec fn total_distance_from(adj: Adjacency, source: usize) -> nat {
    sum_over(adj.dom(), |node: usize| distance_or_zero(adj, source, node))
}

/// The number of keys of the graph to which there is a shortest distance
/// from `source`.
pub open spec fn reached_from(adj: Adjacency, source: usize) -> nat {
    sum_over(adj.dom(), |node: usize| found_or_zero(adj, source, node))
}

/// The mean of the shortest distances from `source_node` to the keys of
/// the graph, the source itself among them if it is one. A key without a
/// distance counts neither in the sum nor in the number; with no distance
/// at all the mean is 0.
///
/// One search by weight runs for every key.
pub fn average_distance_from_source(graph: &Graph, source_node: usize) -> (mean: Ratio)
    ensures
        is_ratio_of(
            mean,
            total_distance_from(graph@, source_node),
            reached_from(graph@, source_node),
        ),
        mean.denominator > 0,
{
    let ghost adj = graph@;
    let ghost distance = |node: usize| distance_or_zero(adj, source_node, node);
    let ghost found = |node: usize| found_or_zero(adj, source_node, node);
    let ghost keys = graph.adjacency_list.keys().remaining().unref();
    let mut total_distance: u128 = 0;
    let mut total_nodes: u128 = 0;
    assert(graph.adjacency_list@.len() == graph.adjacency_list.len());
    assert(keys.take(0).to_set() =~= Set::<usize>::empty());
    assert(adj.dom() =~= graph.adjacency_list@.dom());

    for destination_node in it: graph.adjacency_list.keys()
        invariant
            adj == graph@,
            distance == |node: usize| distance_or_zero(adj, source_node, node),
            found == |node: usize| found_or_zero(adj, source_node, node),
            it.seq().unref() == keys,
            keys.no_duplicates(),
            keys.len() <= usize::MAX,
            total_distance == sum_over(keys.take(it.index()).to_set(), distance),
            total_nodes == sum_over(keys.take(it.index()).to_set(), found),
            total_distance <= it.index() * usize::MAX,
            total_nodes <= it.index(),
    {
        proof {
            lemma_take_next(keys, it.index());
            lemma_sum_over_insert(keys.take(it.index()).to_set(), distance, keys[it.index()]);
            lemma_sum_over_insert(keys.take(it.index()).to_set(), found, keys[it.index()]);
            lemma_product_fits(it.index() + 1, usize::MAX as int);
            assert((it.index() + 1) * usize::MAX == it.index() * usize::MAX + usize::MAX)
                by (nonlinear_arith);
        }
        match dijkstras_algorithm(&graph.adjacency_list, source_node, *destination_node) {
            Some(dist) => {
                total_distance = total_distance + dist as u128;
                total_nodes = total_nodes + 1;
            },
            None => {},
        }
    }
    proof {
        assert(keys.take(keys.len() as int) =~= keys);
        assert(keys.to_set() == adj.dom());
    }
    if total_nodes == 0 {
        Ratio { numerator: 0, denominator: 1 }
    } else {
        Ratio { numerator: total_distance, denominator: total_nodes }
    }
}

/// The sum of the hop distances that a map holds.
pub open spec fn hop_total(distances: Map<usize, usize>) -> nat {
    sum_over(distances.dom(), |node: usize| distances[node] as nat)
}

/// The sum of all hop distances from every key of the graph to every node
/// that can be reached from it, the key itself among them.
pub open spec fn total_hops(adj: Adjacency) -> nat {
    sum_over(adj.dom(), |source: usize| hop_total(hop_distances(adj, source)))
}

/// The number of pairs of a key of the graph and a node that can be
/// reached from it.
pub open spec fn total_entries(adj: Adjacency) -> nat {
    sum_over(adj.dom(), |source: usize| hop_distances(adj, source).dom().len())
}

/// Adds up the hop distances of one traversal.
fn sum_hops(distances: &HashMap<usize, usize>) -> (total: u128)
    ensures
        total == hop_total(distances@),
        total <= distances@.dom().len() * usize::MAX,
        distances@.dom().len() <= usize::MAX,
{
    let ghost hops = |node: usize| distances@[node] as nat;
    let ghost entries = distances.iter().remaining();
    let ghost keys = entry_keys(entries);
    let mut total: u128 = 0;
    assert(distances@.len() == distances.len());
    assert(keys.take(0).to_set() =~= Set::<usize>::empty());

    for entry in it: distances.iter()
        invariant
            hops == |node: usize| distances@[node] as nat,
            it.seq() == entries,
            entries == distances.iter().remaining(),
            entries.no_duplicates(),
            entries.len() == distances@.dom().len(),
            entries.len() <= usize::MAX,
            keys == entry_keys(entries),
            total == sum_over(keys.take(it.index()).to_set(), hops),
            total <= it.index() * usize::MAX,
    {
        proof {
            lemma_keys_of_entries(*distances, entries, keys);
            lemma_take_next(keys, it.index());
            lemma_sum_over_insert(keys.take(it.index()).to_set(), hops, keys[it.index()]);
            lemma_product_fits(it.index() + 1, usize::MAX as int);
            assert((it.index() + 1) * usize::MAX == it.index() * usize::MAX + usize::MAX)
                by (nonlinear_arith);
        }
        let (node, dist) = entry;
        assert(hops(*node) == *dist);
        total = total + *dist as u128;
    }
    proof {
        lemma_keys_of_entries(*distances, entries, keys);
        assert(keys.take(keys.len() as int) =~= keys);
    }
    total
}

/// The mean of the hop distances from every key of the graph to every
/// node that can be reached from it. The distance 0 from a key to itself
/// counts; without keys the mean is 0.
///
/// One traversal runs for every key, which is slow on a large graph.
/// `None` says that the sum of the distances is over `u128::MAX`.
pub fn average_distance_across_graph(graph: &Graph) -> (mean: Option<Ratio>)
    ensures
        match mean {
            Some(ratio) => is_ratio_of(ratio, total_hops(graph@), total_entries(graph@))
                && ratio.denominator > 0,
            None => total_hops(graph@) > u128::MAX,
        },
{
    let ghost adj = graph@;
    let ghost hops = |source: usize| hop_total(hop_distances(adj, source));
    let ghost size = |source: usize| hop_distances(adj, source).dom().len();
    let ghost keys = graph.adjacency_list.keys().remaining().unref();
    let mut total_distance: u128 = 0;
    let mut total_nodes: u128 = 0;
    assert(graph.adjacency_list@.len() == graph.adjacency_list.len());
    assert(keys.take(0).to_set() =~= Set::<usize>::empty());
    assert(adj.dom() =~= graph.adjacency_list@.dom());

    for start_node in it: graph.adjacency_list.keys()
        invariant
            adj == graph@,
            adj.dom().finite(),
            hops == |source: usize| hop_total(hop_distances(adj, source)),
            size == |source: usize| hop_distances(adj, source).dom().len(),
            it.seq().unref() == keys,
            keys.no_duplicates(),
            keys.to_set() == adj.dom(),
            keys.len() <= usize::MAX,
            total_distance == sum_over(keys.take(it.index()).to_set(), hops),
            total_nodes == sum_over(keys.take(it.index()).to_set(), size),
            total_nodes <= it.index() * usize::MAX,
    {
        let ghost seen = keys.take(it.index()).to_set();
        let ghost first_keys = keys.take(it.index() + 1);
        let ghost more = first_keys.to_set();
        proof {
            lemma_take_next(keys, it.index());
            lemma_sum_over_insert(seen, hops, keys[it.index()]);
            lemma_sum_over_insert(seen, size, keys[it.index()]);
            lemma_product_fits(it.index() + 1, usize::MAX as int);
            assert((it.index() + 1) * usize::MAX == it.index() * usize::MAX + usize::MAX)
                by (nonlinear_arith);
        }
        let distances = bfs_distances(graph, *start_node);
        let pass = sum_hops(&distances);
        total_distance = match total_distance.checked_add(pass) {
            Some(sum) => sum,
            None => {
                proof {
                    assert(more.subset_of(adj.dom())) by {
                        assert forall|key: usize| more.contains(key) implies adj.dom().contains(
                            key,
                        ) by {
                            let i = choose|i: int|
                                0 <= i < first_keys.len() && first_keys[i] == key;
                            assert(keys[i] == key);
                            assert(keys.to_set().contains(key));
                        }
                    }
                    lemma_sum_over_subset(more, adj.dom(), hops);
                }
                return None;
            },
        };
        total_nodes = total_nodes + distances.len() as u128;
    }
    proof {
        assert(keys.take(keys.len() as int) =~= keys);
    }
    if total_nodes == 0 {
        Some(Ratio { numerator: 0, denominator: 1 })
    } else {
        Some(Ratio { numerator: total_distance, denominator: total_nodes })
    }
}

/// Whether an edge leads from `from` to `to`.
pub open spec fn leads_to(adj: Adjacency, from: usize, to: usize) -> bool {
    exists|j: int|
        0 <= j < out_edges(adj, from).len() && (#[trigger] out_edges(adj, from)[j]).0 == to
}

/// Among the pairs of the edge at `first` with a later edge before `upto`,
/// the number of those in which the first edge's target has an edge to the
/// other's.
pub open spec fn closing_from(adj: Adjacency, edges: Seq<(usize, usize)>, first: int, upto: int) -> nat
    decreases upto - first,
{
    if upto <= first + 1 {
        0
    } else {
        closing_from(adj, edges, first, upto - 1) + if leads_to(
            adj,
            edges[first].0,
            edges[upto - 1].0,
        ) {
            1nat
        } else {
            0nat
        }
    }
}

/// Among the pairs of two edges, the earlier one before `firsts`, the
/// number of those in which the earlier edge's target has an edge to the
/// later one's. The test has a direction: an edge back does not count.
pub open spec fn closing_pairs(adj: Adjacency, edges: Seq<(usize, usize)>, firsts: int) -> nat
    decreases firsts,
{
    if firsts <= 0 {
        0
    } else {
        closing_pairs(adj, edges, firsts - 1) + closing_from(
            adj,
            edges,
            firsts - 1,
            edges.len() as int,
        )
    }
}

/// Whether `ratio` is the local clustering coefficient of `node`: of the
/// pairs of its outgoing edges, the part that closes a triangle.
pub open spec fn is_local_clustering(adj: Adjacency, node: usize, ratio: Ratio) -> bool {
    let edges = out_edges(adj, node);
    &&& ratio.numerator == closing_pairs(adj, edges, edges.len() as int)
    &&& ratio.denominator == pair_count(edges.len())
}

/// Whether `locals` lists each node with at least two outgoing edges once,
/// with its local clustering coefficient, and no other node.
pub open spec fn is_clustering_result(adj: Adjacency, locals: Seq<(usize, Ratio)>) -> bool {
    &&& forall|i: int, j: int|
        0 <= i < j < locals.len() ==> (#[trigger] locals[i]).0 != (#[trigger] locals[j]).0
    &&& forall|node: usize|
        out_edges(adj, node).len() >= 2 <==> exists|i: int|
            0 <= i < locals.len() && (#[trigger] locals[i]).0 == node
    &&& forall|i: int|
        0 <= i < locals.len() ==> is_local_clustering(adj, (#[trigger] locals[i]).0, locals[i].1)
}

/// Two listings of the local coefficients of one graph hold the same
/// entries, each once: they differ in order at most.
pub proof fn lemma_clustering_unique(
    adj: Adjacency,
    first: Seq<(usize, Ratio)>,
    second: Seq<(usize, Ratio)>,
)
    requires
        is_clustering_result(adj, first),
        is_clustering_result(adj, second),
    ensures
        first.to_multiset() == second.to_multiset(),
{
    broadcast use vstd::seq_lib::group_to_multiset_ensures;

    lemma_listing_holds(adj, first, second);
    lemma_listing_holds(adj, second, first);
    assert(first.no_duplicates());
    assert(second.no_duplicates());
    first.lemma_multiset_has_no_duplicates();
    second.lemma_multiset_has_no_duplicates();
    assert forall|entry: (usize, Ratio)|
        first.to_multiset().count(entry) == second.to_multiset().count(entry) by {
        if first.contains(entry) {
            assert(second.contains(entry));
        }
        if second.contains(entry) {
            assert(first.contains(entry));
        }
    }
    assert(first.to_multiset() =~= second.to_multiset());
}

/// What one listing of the local coefficients holds, another one holds.
proof fn lemma_listing_holds(adj: Adjacency, first: Seq<(usize, Ratio)>, second: Seq<(usize, Ratio)>)
    requires
        is_clustering_result(adj, first),
        is_clustering_result(adj, second),
    ensures
        forall|entry: (usize, Ratio)| first.contains(entry) ==> second.contains(entry),
{
    assert forall|entry: (usize, Ratio)| first.contains(entry) implies second.contains(entry) by {
        let i = choose|i: int| 0 <= i < first.len() && first[i] == entry;
        assert(first[i].0 == entry.0);
        assert(out_edges(adj, entry.0).len() >= 2);
        let j = choose|j: int| 0 <= j < second.len() && (#[trigger] second[j]).0 == entry.0;
        assert(is_local_clustering(adj, first[i].0, first[i].1));
        assert(is_local_clustering(adj, second[j].0, second[j].1));
        assert(second[j].1 == entry.1);
        assert(second[j] == entry);
    }
}

proof fn lemma_closing_from_bound(adj: Adjacency, edges: Seq<(usize, usize)>, first: int, upto: int)
    requires
        0 <= first,
    ensures
        upto >= 0 ==> closing_from(adj, edges, first, upto) <= upto,
        upto <= first + 1 ==> closing_from(adj, edges, first, upto) == 0,
    decreases upto - first,
{
    if upto > first + 1 {
        lemma_closing_from_bound(adj, edges, first, upto - 1);
    }
}

/// Whether `graph` holds an edge from `from` to `to`.
fn has_edge(graph: &Graph, from: usize, to: usize) -> (found: bool)
    ensures
        found == leads_to(graph@, from, to),
{
    match graph.adjacency_list.get(&from) {
        Some(edges) => {
            assert(out_edges(graph@, from) == edges@);
            let mut j: usize = 0;
            while j < edges.len()
                invariant
                    j <= edges.len(),
                    out_edges(graph@, from) == edges@,
                    forall|k: int| 0 <= k < j ==> (#[trigger] edges@[k]).0 != to,
                decreases edges.len() - j,
            {
                if edges[j].0 == to {
                    assert(out_edges(graph@, from)[j as int].0 == to);
                    return true;
                }
                j += 1;
            }
            false
        },
        None => {
            assert(out_edges(graph@, from).len() == 0);
            false
        },
    }
}

/// Counts the pairs of `neighbors` that close a triangle.
fn count_closing_pairs(graph: &Graph, neighbors: &Vec<(usize, usize)>) -> (closed: u128)
    ensures
        closed == closing_pairs(graph@, neighbors@, neighbors@.len() as int),
{
    let ghost adj = graph@;
    let len = neighbors.len();
    let mut closed: u128 = 0;
    let mut i: usize = 0;
    while i < len
        invariant
            adj == graph@,
            len == neighbors.len(),
            i <= len,
            closed == closing_pairs(adj, neighbors@, i as int),
            closed <= i * len,
        decreases len - i,
    {
        let first = neighbors[i].0;
        let ghost before = closed;
        let mut j: usize = i + 1;
        proof {
            lemma_closing_from_bound(adj, neighbors@, i as int, j as int);
            lemma_product_fits(i as int + 1, len as int);
            assert((i + 1) * len == i * len + len) by (nonlinear_arith);
        }
        while j < len
            invariant
                adj == graph@,
                len == neighbors.len(),
                i < j <= len,
                first == neighbors@[i as int].0,
                closed == before + closing_from(adj, neighbors@, i as int, j as int),
                closing_from(adj, neighbors@, i as int, j as int) <= j,
                before <= i * len,
                (i + 1) * len == i * len + len,
                (i + 1) * len < u128::MAX,
            decreases len - j,
        {
            if has_edge(graph, first, neighbors[j].0) {
                closed = closed + 1;
            }
            j += 1;
            proof {
                lemma_closing_from_bound(adj, neighbors@, i as int, j as int);
            }
        }
        i += 1;
    }
    closed
}

/// The local clustering coefficient of every node with at least two
/// outgoing edges, each node once, in no particular order. The graph's
/// clustering coefficient is the mean of these ratios, and 0 where there
/// is none.
pub fn clustering_coefficient(graph: &Graph) -> (locals: Vec<(usize, Ratio)>)
    ensures
        is_clustering_result(graph@, locals@),
        forall|i: int| 0 <= i < locals.len() ==> (#[trigger] locals[i]).1.denominator > 0,
{
    let ghost adj = graph@;
    let ghost entries = graph.adjacency_list.iter().remaining();
    let ghost keys = entry_keys(entries);
    let mut locals: Vec<(usize, Ratio)> = Vec::new();

    for entry in it: graph.adjacency_list.iter()
        invariant
            adj == graph@,
            it.seq() == entries,
            entries == graph.adjacency_list.iter().remaining(),
            entries.no_duplicates(),
            keys == entry_keys(entries),
            forall|a: int, b: int|
                0 <= a < b < locals.len() ==> (#[trigger] locals[a]).0 != (#[trigger] locals[b]).0,
            forall|a: int|
                0 <= a < locals.len() ==> {
                    &&& exists|i: int| 0 <= i < it.index() && keys[i] == (#[trigger] locals[a]).0
                    &&& out_edges(adj, locals[a].0).len() >= 2
                    &&& is_local_clustering(adj, locals[a].0, locals[a].1)
                    &&& locals[a].1.denominator > 0
                },
            forall|i: int|
                0 <= i < it.index() && out_edges(adj, #[trigger] keys[i]).len() >= 2 ==> exists|
                    a: int,
                | 0 <= a < locals.len() && (#[trigger] locals[a]).0 == keys[i],
    {
        proof {
            lemma_keys_of_entries(graph.adjacency_list, entries, keys);
        }
        let (node, neighbors) = entry;
        let ghost index = it.index();
        assert(*node == keys[index]);
        assert(out_edges(adj, *node) == neighbors@);
        let num_neighbors = neighbors.len();
        let ghost earlier = locals@;
        if num_neighbors >= 2 {
            let closed = count_closing_pairs(graph, neighbors);
            proof {
                lemma_product_fits(num_neighbors as int, num_neighbors as int - 1);
                assert(num_neighbors * (num_neighbors - 1) >= 2) by (nonlinear_arith)
                    requires
                        num_neighbors >= 2,
                ;
            }
            let pairs = (num_neighbors as u128) * ((num_neighbors - 1) as u128) / 2;
            assert(pairs == pair_count(num_neighbors as nat));
            locals.push((*node, Ratio { numerator: closed, denominator: pairs }));
            proof {
                let last = earlier.len() as int;
                assert forall|a: int| 0 <= a < last implies #[trigger] locals[a] == earlier[a] by {}
                assert forall|a: int, b: int| 0 <= a < b < locals.len() implies (
                #[trigger] locals[a]).0 != (#[trigger] locals[b]).0 by {
                    if b == last {
                        let i = choose|i: int| 0 <= i < index && keys[i] == earlier[a].0;
                        assert(keys[i] != keys[index]);
                    } else {
                        assert(earlier[a].0 != earlier[b].0);
                    }
                }
                assert forall|a: int| 0 <= a < locals.len() implies {
                    &&& exists|i: int| 0 <= i < index + 1 && keys[i] == (#[trigger] locals[a]).0
                    &&& out_edges(adj, locals[a].0).len() >= 2
                    &&& is_local_clustering(adj, locals[a].0, locals[a].1)
                    &&& locals[a].1.denominator > 0
                } by {
                    if a < last {
                        let i = choose|i: int| 0 <= i < index && keys[i] == earlier[a].0;
                        assert(0 <= i < index + 1 && keys[i] == locals[a].0);
                    } else {
                        assert(keys[index] == locals[a].0);
                    }
                }
                assert forall|i: int|
                    0 <= i < index + 1 && out_edges(adj, #[trigger] keys[i]).len()
                        >= 2 implies exists|a: int|
                    0 <= a < locals.len() && (#[trigger] locals[a]).0 == keys[i] by {
                    if i < index {
                        let a = choose|a: int|
                            0 <= a < earlier.len() && (#[trigger] earlier[a]).0 == keys[i];
                        assert(locals[a].0 == keys[i]);
                    } else {
                        assert(locals[last].0 == keys[i]);
                    }
                }
            }
        } else {
            proof {
                assert forall|a: int| 0 <= a < locals.len() implies {
                    &&& exists|i: int| 0 <= i < index + 1 && keys[i] == (#[trigger] locals[a]).0
                    &&& out_edges(adj, locals[a].0).len() >= 2
                    &&& is_local_clustering(adj, locals[a].0, locals[a].1)
                    &&& locals[a].1.denominator > 0
                } by {
                    let i = choose|i: int| 0 <= i < index && keys[i] == locals[a].0;
                    assert(0 <= i < index + 1 && keys[i] == locals[a].0);
                }
            }
        }
    }
    proof {
        lemma_keys_of_entries(graph.adjacency_list, entries, keys);
        assert(adj.dom() =~= graph.adjacency_list@.dom());
        assert forall|node: usize| out_edges(adj, node).len() >= 2 implies exists|i: int|
            0 <= i < locals.len() && (#[trigger] locals[i]).0 == node by {
            assert(adj.dom().contains(node));
            assert(keys.to_set().contains(node));
            let k = choose|k: int| 0 <= k < keys.len() && keys[k] == node;
            assert(out_edges(adj, keys[k]).len() >= 2);
        }
    }
    locals
}

} // verus!
