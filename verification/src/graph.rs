//! The graph store: a map from node to the list of its outgoing edges.

use std::collections::HashMap;
use vstd::prelude::*;

verus! {

/// The mathematical model of a graph: each key is a node with its outgoing
/// edges, an edge being the pair of target node and weight.
pub type Adjacency = Map<usize, Seq<(usize, usize)>>;

/// The model of an adjacency map as it is stored.
pub open spec fn adjacency_view(list: HashMap<usize, Vec<(usize, usize)>>) -> Adjacency {
    Map::new(|node: usize| list@.contains_key(node), |node: usize| list@[node]@)
}

/// The outgoing edges of `node`; a node that is no key has none.
pub open spec fn out_edges(adj: Adjacency, node: usize) -> Seq<(usize, usize)> {
    if adj.contains_key(node) {
        adj[node]
    } else {
        Seq::empty()
    }
}

/// The graph with one more edge, put behind the edges that its source has
/// already.
pub open spec fn with_edge(adj: Adjacency, from: usize, to: usize, weight: usize) -> Adjacency {
    adj.insert(from, out_edges(adj, from).push((to, weight)))
}

/// The graph with the edges of `edges` added in their order, each a pair
/// of source and target, with weight 1.
pub open spec fn with_edges(adj: Adjacency, edges: Seq<(usize, usize)>) -> Adjacency
    decreases edges.len(),
{
    if edges.len() == 0 {
        adj
    } else {
        with_edge(with_edges(adj, edges.drop_last()), edges.last().0, edges.last().1, 1)
    }
}

/// A directed graph with weighted edges. A node is a key once it has an
/// outgoing edge; a node that only occurs as a target need not be one.
#[derive(Debug)]
pub struct Graph {
    pub adjacency_list: HashMap<usize, Vec<(usize, usize)>>,
}

impl View for Graph {
    type V = Adjacency;

    open spec fn view(&self) -> Adjacency {
        adjacency_view(self.adjacency_list)
    }
}

impl Graph {
    /// The graph without nodes.
    pub fn new() -> (graph: Self)
        ensures
            graph@ == Map::<usize, Seq<(usize, usize)>>::empty(),
    {
        let graph = Graph { adjacency_list: HashMap::new() };
        assert(graph@ =~= Map::<usize, Seq<(usize, usize)>>::empty());
        graph
    }

    /// Appends the edge to `to_node` with `weight` to the edges of
    /// `from_node`, which becomes a key if it was none. Parallel edges are
    /// kept, each one on its own.
    pub fn add_edge(&mut self, from_node: usize, to_node: usize, weight: usize)
        ensures
            final(self)@ == with_edge(old(self)@, from_node, to_node, weight),
    {
        let edges = self.adjacency_list.entry(from_node).or_insert(Vec::new());
        edges.push((to_node, weight));
        assert(self@ =~= old(self)@.insert(
            from_node,
            out_edges(old(self)@, from_node).push((to_node, weight)),
        ));
    }

    /// Adds every pair of `edges` as an edge from its first node to its
    /// second, with weight 1, in the order of `edges`.
    pub fn add_edges(&mut self, edges: &Vec<(usize, usize)>)
        ensures
            final(self)@ == with_edges(old(self)@, edges@),
    {
        let mut i: usize = 0;
        while i < edges.len()
            invariant
                i <= edges.len(),
                self@ == with_edges(old(self)@, edges@.take(i as int)),
            decreases edges.len() - i,
        {
            let (from_node, to_node) = edges[i];
            assert(edges@.take(i + 1).drop_last() =~= edges@.take(i as int));
            self.add_edge(from_node, to_node, 1);
            i += 1;
        }
        assert(edges@.take(edges@.len() as int) =~= edges@);
    }

    /// The outgoing edges of `node`, each the pair of target and weight;
    /// none for a node that is no key.
    pub fn neighbors(&self, node: usize) -> (edges: &[(usize, usize)])
        ensures
            edges@ == out_edges(self@, node),
    {
        match self.adjacency_list.get(&node) {
            Some(edges) => edges.as_slice(),
            None => &[],
        }
    }
}

} // verus!
