use graph_metrics::breadth_first::bfs_distances;
use graph_metrics::graph::Graph;
use graph_metrics::metrics::{
    average_distance_across_graph, average_distance_from_source, clustering_coefficient,
    graph_density, Ratio,
};
use graph_metrics::shortest_path::dijkstras_algorithm;
use std::collections::HashMap;

fn as_float(ratio: Ratio) -> f64 {
    ratio.numerator as f64 / ratio.denominator as f64
}

fn mean_of(ratios: &[(usize, Ratio)]) -> f64 {
    if ratios.is_empty() {
        return 0.0;
    }
    let mut total = 0.0;
    for (_, ratio) in ratios {
        total += as_float(*ratio);
    }
    total / ratios.len() as f64
}

fn sample_graph() -> Graph {
    let mut graph = Graph::new();
    graph.add_edge(1, 2, 1);
    graph.add_edge(1, 3, 2);
    graph.add_edge(2, 3, 1);
    graph
}

fn triangle() -> Graph {
    let mut graph = Graph::new();
    graph.add_edge(1, 2, 1);
    graph.add_edge(1, 3, 1);
    graph.add_edge(2, 3, 1);
    graph
}

#[test]
fn main_test_dijkstra() {
    let mut graph: HashMap<usize, Vec<(usize, usize)>> = HashMap::new();
    graph.insert(0, vec![(1, 5), (2, 3)]);
    graph.insert(1, vec![(3, 6)]);
    graph.insert(2, vec![(1, 2), (3, 7)]);
    graph.insert(3, vec![]);

    assert_eq!(dijkstras_algorithm(&graph, 0, 3), Some(10));
    assert_eq!(dijkstras_algorithm(&graph, 4, 3), None);
    assert_eq!(dijkstras_algorithm(&graph, 0, 4), None);
}

#[test]
fn test_test_dijkstra() {
    let mut graph = Graph::new();
    graph.add_edge(1, 2, 1);
    graph.add_edge(2, 3, 1);
    graph.add_edge(1, 3, 1);

    let start_node = 1;
    let mut shortest_distances: HashMap<usize, usize> = HashMap::new();
    for node in [1, 2, 3] {
        if let Some(distance) = dijkstras_algorithm(&graph.adjacency_list, start_node, node) {
            shortest_distances.insert(node, distance);
        }
    }

    let expected_distances: HashMap<usize, usize> =
        [(1, 0), (2, 1), (3, 1)].iter().cloned().collect();
    assert_eq!(shortest_distances, expected_distances);
}

#[test]
fn test_average_distance_from_source() {
    let graph = sample_graph();
    let avg_distance = average_distance_from_source(&graph, 1);
    assert_eq!(avg_distance, Ratio { numerator: 1, denominator: 2 });
    assert_eq!(as_float(avg_distance), 0.5);
}

#[test]
fn test_average_distance_across_graph() {
    let graph = sample_graph();
    let avg_distance = average_distance_across_graph(&graph).unwrap();
    assert_eq!(avg_distance, Ratio { numerator: 3, denominator: 5 });
    assert_eq!(as_float(avg_distance), 0.6);
}

#[test]
fn test_bfs_distances() {
    let graph = sample_graph();
    let distances = bfs_distances(&graph, 1);

    let mut expected_distances = HashMap::new();
    expected_distances.insert(1, 0);
    expected_distances.insert(2, 1);
    expected_distances.insert(3, 1);

    assert_eq!(distances, expected_distances);
}

#[test]
fn test_clustering_coefficient() {
    let graph = triangle();
    let locals = clustering_coefficient(&graph);
    assert_eq!(locals, vec![(1, Ratio { numerator: 1, denominator: 1 })]);
    assert_eq!(mean_of(&locals), 1.0);
}

#[test]
fn test_graph_density() {
    let graph = triangle();
    let density = graph_density(&graph);
    assert_eq!(density, Ratio { numerator: 3, denominator: 1 });
    assert_eq!(as_float(density), 3.0);
}

#[test]
fn distance_to_itself_is_zero() {
    let graph = sample_graph();
    for node in [0, 1, 2, 3, 99, usize::MAX] {
        assert_eq!(dijkstras_algorithm(&graph.adjacency_list, node, node), Some(0));
    }
    let empty = Graph::new();
    assert_eq!(dijkstras_algorithm(&empty.adjacency_list, 7, 7), Some(0));
}

#[test]
fn distance_takes_the_lighter_of_two_ways() {
    let mut graph = Graph::new();
    graph.add_edge(0, 1, 10);
    graph.add_edge(0, 2, 1);
    graph.add_edge(2, 1, 2);
    graph.add_edge(1, 3, 1);
    assert_eq!(dijkstras_algorithm(&graph.adjacency_list, 0, 1), Some(3));
    assert_eq!(dijkstras_algorithm(&graph.adjacency_list, 0, 3), Some(4));
    assert_eq!(dijkstras_algorithm(&graph.adjacency_list, 3, 0), None);
}

#[test]
fn distance_over_parallel_and_weightless_edges() {
    let mut graph = Graph::new();
    graph.add_edge(0, 1, 9);
    graph.add_edge(0, 1, 4);
    graph.add_edge(0, 1, 6);
    graph.add_edge(1, 2, 0);
    graph.add_edge(2, 0, 0);
    assert_eq!(dijkstras_algorithm(&graph.adjacency_list, 0, 1), Some(4));
    assert_eq!(dijkstras_algorithm(&graph.adjacency_list, 0, 2), Some(4));
    assert_eq!(dijkstras_algorithm(&graph.adjacency_list, 1, 0), Some(0));
}

#[test]
fn distance_that_does_not_fit_is_none() {
    let mut graph = Graph::new();
    graph.add_edge(0, 1, usize::MAX);
    graph.add_edge(1, 2, 1);
    graph.add_edge(0, 3, usize::MAX - 1);
    graph.add_edge(3, 4, 1);
    assert_eq!(dijkstras_algorithm(&graph.adjacency_list, 0, 1), Some(usize::MAX));
    assert_eq!(dijkstras_algorithm(&graph.adjacency_list, 0, 2), None);
    assert_eq!(dijkstras_algorithm(&graph.adjacency_list, 0, 4), Some(usize::MAX));
    assert!(bfs_distances(&graph, 0).contains_key(&2));
}

#[test]
fn distance_on_a_long_chain() {
    let mut graph = Graph::new();
    for node in 0..2000 {
        graph.add_edge(node, node + 1, 3);
        graph.add_edge(node, node + 2, 7);
    }
    assert_eq!(dijkstras_algorithm(&graph.adjacency_list, 0, 2000), Some(6000));
    assert_eq!(dijkstras_algorithm(&graph.adjacency_list, 0, 2001), Some(6004));
}

#[test]
fn unreachable_by_weight_iff_absent_by_hops() {
    let mut graph = Graph::new();
    graph.add_edge(0, 1, 5);
    graph.add_edge(0, 2, 3);
    graph.add_edge(1, 3, 6);
    graph.add_edge(2, 1, 2);
    graph.add_edge(2, 3, 7);
    graph.add_edge(5, 0, 1);
    for start in 0..7 {
        let hops = bfs_distances(&graph, start);
        for end in 0..7 {
            let distance = dijkstras_algorithm(&graph.adjacency_list, start, end);
            assert_eq!(distance.is_none(), !hops.contains_key(&end));
        }
    }
}

#[test]
fn bfs_counts_hops_whatever_the_weights() {
    let mut graph = Graph::new();
    graph.add_edge(0, 1, 100);
    graph.add_edge(1, 2, 100);
    graph.add_edge(0, 2, 1000);
    graph.add_edge(2, 3, 0);
    graph.add_edge(3, 0, 5);
    graph.add_edge(7, 0, 1);
    let distances = bfs_distances(&graph, 0);
    let expected: HashMap<usize, usize> = [(0, 0), (1, 1), (2, 1), (3, 2)].into_iter().collect();
    assert_eq!(distances, expected);
}

#[test]
fn bfs_from_a_node_without_edges() {
    let graph = sample_graph();
    let distances = bfs_distances(&graph, 3);
    let expected: HashMap<usize, usize> = [(3, 0)].into_iter().collect();
    assert_eq!(distances, expected);
    let distances = bfs_distances(&graph, 42);
    let expected: HashMap<usize, usize> = [(42, 0)].into_iter().collect();
    assert_eq!(distances, expected);
}

#[test]
fn bfs_twice_gives_the_same_map() {
    let graph = sample_graph();
    assert_eq!(bfs_distances(&graph, 1), bfs_distances(&graph, 1));
    assert_eq!(bfs_distances(&graph, 2), bfs_distances(&graph, 2));
}

#[test]
fn metrics_twice_give_the_same_result() {
    let graph = triangle();
    assert_eq!(graph_density(&graph), graph_density(&graph));
    let mut first = clustering_coefficient(&graph);
    let mut second = clustering_coefficient(&graph);
    first.sort_by_key(|entry| entry.0);
    second.sort_by_key(|entry| entry.0);
    assert_eq!(first, second);
}

#[test]
fn metrics_of_the_empty_graph_are_zero() {
    let graph = Graph::new();
    let zero = Ratio { numerator: 0, denominator: 1 };
    assert_eq!(average_distance_from_source(&graph, 1), zero);
    assert_eq!(average_distance_across_graph(&graph), Some(zero));
    assert_eq!(graph_density(&graph), zero);
    assert_eq!(clustering_coefficient(&graph), vec![]);
}

#[test]
fn density_of_a_single_key_is_zero() {
    let mut graph = Graph::new();
    graph.add_edge(1, 2, 1);
    graph.add_edge(1, 3, 1);
    assert_eq!(graph_density(&graph), Ratio { numerator: 0, denominator: 1 });
}

#[test]
fn density_counts_stored_edges_over_pairs_of_keys() {
    let mut graph = Graph::new();
    graph.add_edge(1, 2, 1);
    graph.add_edge(2, 3, 1);
    graph.add_edge(3, 1, 1);
    graph.add_edge(4, 1, 1);
    graph.add_edge(4, 1, 1);
    assert_eq!(graph_density(&graph), Ratio { numerator: 5, denominator: 6 });
}

#[test]
fn average_from_source_leaves_out_what_it_cannot_reach() {
    let mut graph = Graph::new();
    graph.add_edge(1, 2, 4);
    graph.add_edge(2, 3, 6);
    graph.add_edge(3, 4, 1);
    graph.add_edge(9, 1, 1);
    assert_eq!(average_distance_from_source(&graph, 1), Ratio { numerator: 14, denominator: 3 });
    assert_eq!(average_distance_from_source(&graph, 4), Ratio { numerator: 0, denominator: 1 });
    assert_eq!(average_distance_from_source(&graph, 9), Ratio { numerator: 17, denominator: 4 });
}

#[test]
fn average_across_graph_counts_every_pass() {
    let mut graph = Graph::new();
    graph.add_edge(1, 2, 9);
    graph.add_edge(2, 1, 9);
    assert_eq!(average_distance_across_graph(&graph), Some(Ratio { numerator: 2, denominator: 4 }));
}

#[test]
fn clustering_tests_one_direction_only() {
    let mut graph = Graph::new();
    graph.add_edge(1, 2, 1);
    graph.add_edge(1, 3, 1);
    graph.add_edge(3, 2, 1);
    assert_eq!(clustering_coefficient(&graph), vec![(1, Ratio { numerator: 0, denominator: 1 })]);
}

#[test]
fn clustering_counts_pairs_of_each_node() {
    let mut graph = Graph::new();
    graph.add_edge(1, 2, 1);
    graph.add_edge(1, 3, 1);
    graph.add_edge(1, 4, 1);
    graph.add_edge(2, 3, 1);
    graph.add_edge(2, 4, 1);
    graph.add_edge(4, 3, 1);
    let mut locals = clustering_coefficient(&graph);
    locals.sort_by_key(|entry| entry.0);
    assert_eq!(
        locals,
        vec![
            (1, Ratio { numerator: 2, denominator: 3 }),
            (2, Ratio { numerator: 0, denominator: 1 }),
        ]
    );
}
