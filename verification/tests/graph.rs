use graph_metrics::graph::Graph;
use graph_metrics::ingest::{filter_graph, read_txt, EdgeListError};
use std::collections::HashMap;

fn lines(text: &[&str]) -> Vec<String> {
    text.iter().map(|line| line.to_string()).collect()
}

#[test]
fn new_graph_has_no_nodes() {
    let graph = Graph::new();
    assert!(graph.adjacency_list.is_empty());
    assert!(graph.neighbors(0).is_empty());
}

#[test]
fn add_edge_appends_and_keeps_parallel_edges() {
    let mut graph = Graph::new();
    graph.add_edge(1, 2, 5);
    graph.add_edge(1, 3, 7);
    graph.add_edge(1, 2, 5);
    graph.add_edge(2, 1, 0);
    let mut expected: HashMap<usize, Vec<(usize, usize)>> = HashMap::new();
    expected.insert(1, vec![(2, 5), (3, 7), (2, 5)]);
    expected.insert(2, vec![(1, 0)]);
    assert_eq!(graph.adjacency_list, expected);
    assert_eq!(graph.neighbors(1), &[(2, 5), (3, 7), (2, 5)]);
    assert_eq!(graph.neighbors(2), &[(1, 0)]);
    assert!(graph.neighbors(3).is_empty());
}

#[test]
fn add_edges_gives_every_edge_weight_one() {
    let mut graph = Graph::new();
    graph.add_edge(4, 5, 9);
    graph.add_edges(&vec![(1, 2), (4, 6), (1, 3), (4, 6)]);
    let mut expected: HashMap<usize, Vec<(usize, usize)>> = HashMap::new();
    expected.insert(1, vec![(2, 1), (3, 1)]);
    expected.insert(4, vec![(5, 9), (6, 1), (6, 1)]);
    assert_eq!(graph.adjacency_list, expected);
}

#[test]
fn read_txt_skips_the_header() {
    let text = lines(&[
        "# Directed graph",
        "# Roads",
        "# Nodes: 3 Edges: 3",
        "# FromNodeId\tToNodeId",
        "0\t1",
        "0 2",
        "  2   0  ",
        "7 8 and more",
    ]);
    assert_eq!(read_txt(&text), Ok(vec![(0, 1), (0, 2), (2, 0), (7, 8)]));
}

#[test]
fn read_txt_of_a_header_alone_is_empty() {
    assert_eq!(read_txt(&lines(&["a", "b", "c", "d"])), Ok(vec![]));
    assert_eq!(read_txt(&lines(&["a", "b"])), Ok(vec![]));
    assert_eq!(read_txt(&lines(&[])), Ok(vec![]));
}

#[test]
fn read_txt_reports_the_first_bad_line() {
    let text = lines(&["", "", "", "", "1 2", "3", "x y", "4 5"]);
    assert_eq!(read_txt(&text), Err(EdgeListError { line: 5 }));
    let text = lines(&["", "", "", "", "1 2", "3 -4"]);
    assert_eq!(read_txt(&text), Err(EdgeListError { line: 5 }));
    let text = lines(&["", "", "", "", ""]);
    assert_eq!(read_txt(&text), Err(EdgeListError { line: 4 }));
    let text = lines(&["", "", "", "", "1 99999999999999999999999999"]);
    assert_eq!(read_txt(&text), Err(EdgeListError { line: 4 }));
}

#[test]
fn filter_graph_keeps_edges_inside_the_range() {
    let mut graph = Graph::new();
    let text = lines(&["1 2 3 50", "2 1", "50 1 2", "3 0 3 1", "0 1"]);
    filter_graph(&mut graph, &text, 1, 20);
    let mut expected: HashMap<usize, Vec<(usize, usize)>> = HashMap::new();
    expected.insert(1, vec![(2, 1), (3, 1)]);
    expected.insert(2, vec![(1, 1)]);
    expected.insert(3, vec![(3, 1), (1, 1)]);
    assert_eq!(graph.adjacency_list, expected);
}

#[test]
fn filter_graph_passes_over_bad_lines() {
    let mut graph = Graph::new();
    graph.add_edge(1, 9, 4);
    let text = lines(&["1 2", "", "1 x 3", "# 1 4", "   ", "1", "1 5 6.5", "2 +7"]);
    filter_graph(&mut graph, &text, 0, 10);
    let mut expected: HashMap<usize, Vec<(usize, usize)>> = HashMap::new();
    expected.insert(1, vec![(9, 4), (2, 1)]);
    expected.insert(2, vec![(7, 1)]);
    assert_eq!(graph.adjacency_list, expected);
}

#[test]
fn filter_graph_with_an_empty_range_adds_nothing() {
    let mut graph = Graph::new();
    filter_graph(&mut graph, &lines(&["1 2", "2 3"]), 5, 4);
    assert!(graph.adjacency_list.is_empty());
}
