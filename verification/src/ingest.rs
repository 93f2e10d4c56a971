//! Building a graph from the lines of an edge list.

use crate::graph::{with_edges, Graph};
use crate::text::{numbers_of, parse_tokens};
use vstd::prelude::*;

verus! {

/// The number of lines at the head of an edge list that hold no edge.
pub const HEADER_LINES: usize = 4;

/// A line of an edge list that does not begin with two numbers.
#[derive(Clone, Copy, Debug, PartialEq, Eq, Structural)]
pub struct EdgeListError {
    /// The place of the line among all lines, the first line at 0.
    pub line: usize,
}

/// The edge that a line of a full edge list holds: its first two tokens,
/// where both are numbers. What follows them on the line plays no part.
pub open spec fn line_pair(line: Seq<char>) -> Option<(usize, usize)> {
    let numbers = numbers_of(line);
    if numbers.len() >= 2 && numbers[0] is Some && numbers[1] is Some {
        Some((numbers[0]->0, numbers[1]->0))
    } else {
        None
    }
}

/// Whether `node` lies in the range from `start` to `end`, both included.
pub open spec fn in_range(node: usize, start: usize, end: usize) -> bool {
    start <= node <= end
}

/// Whether every token was a number.
pub open spec fn all_numbers(numbers: Seq<Option<usize>>) -> bool {
    forall|i: int| 0 <= i < numbers.len() ==> (#[trigger] numbers[i]) is Some
}

/// The edges from the first number of a line to those of the numbers
/// behind it, before place `upto`, that lie in the range.
pub open spec fn kept_edges(
    numbers: Seq<Option<usize>>,
    start: usize,
    end: usize,
    upto: int,
) -> Seq<(usize, usize)>
    decreases upto,
{
    if upto <= 1 {
        Seq::empty()
    } else {
        let earlier = kept_edges(numbers, start, end, upto - 1);
        if in_range(numbers[upto - 1]->0, start, end) {
            earlier.push((numbers[0]->0, numbers[upto - 1]->0))
        } else {
            earlier
        }
    }
}

/// The edges that a line adds to a subgraph: the line is a source followed
/// by its targets; it counts where all its tokens are numbers and the
/// source lies in the range, and then adds an edge to each target that
/// lies in the range too.
pub open spec fn line_edges(line: Seq<char>, start: usize, end: usize) -> Seq<(usize, usize)> {
    let numbers = numbers_of(line);
    if numbers.len() > 0 && all_numbers(numbers) && in_range(numbers[0]->0, start, end) {
        kept_edges(numbers, start, end, numbers.len() as int)
    } else {
        Seq::empty()
    }
}

/// The edges that the first `upto` lines add to a subgraph, in order.
pub open spec fn filtered_edges(lines: Seq<String>, start: usize, end: usize, upto: int) -> Seq<
    (usize, usize),
>
    decreases upto,
{
    if upto <= 0 {
        Seq::empty()
    } else {
        filtered_edges(lines, start, end, upto - 1) + line_edges(lines[upto - 1]@, start, end)
    }
}

/// The edges of a full edge list, one from each line behind the header.
/// A line that does not begin with two numbers is an error; the first such
/// line is reported.
pub fn read_txt(lines: &Vec<String>) -> (result: Result<Vec<(usize, usize)>, EdgeListError>)
    ensures
        match result {
            Ok(edges) => {
                &&& edges@.len() == if lines@.len() > HEADER_LINES {
                    lines@.len() - HEADER_LINES
                } else {
                    0
                }
                &&& forall|i: int|
                    HEADER_LINES <= i < lines@.len() ==> line_pair((#[trigger] lines@[i])@)
                        == Some(edges@[i - HEADER_LINES])
            },
            Err(error) => {
                &&& HEADER_LINES <= error.line < lines@.len()
                &&& line_pair(lines@[error.line as int]@) is None
                &&& forall|i: int|
                    HEADER_LINES <= i < error.line ==> line_pair(
                        (#[trigger] lines@[i])@,
                    ) is Some
            },
        },
{
    let mut edges: Vec<(usize, usize)> = Vec::new();
    let mut i: usize = HEADER_LINES;
    while i < lines.len()
        invariant
            HEADER_LINES <= i,
            lines.len() >= HEADER_LINES ==> i <= lines.len(),
            i <= lines.len() ==> edges@.len() == i - HEADER_LINES,
            i > lines.len() ==> edges@.len() == 0,
            forall|k: int|
                HEADER_LINES <= k < i && k < lines@.len() ==> line_pair((#[trigger] lines@[k])@)
                    == Some(edges@[k - HEADER_LINES]),
        decreases lines.len() - i,
    {
        let numbers = parse_tokens(lines[i].as_str());
        let ghost earlier = edges@;
        if numbers.len() < 2 {
            return Err(EdgeListError { line: i });
        }
        match (numbers[0], numbers[1]) {
            (Some(from_node), Some(to_node)) => {
                edges.push((from_node, to_node));
                assert forall|k: int| 0 <= k < earlier.len() implies #[trigger] edges@[k]
                    == earlier[k] by {}
            },
            _ => {
                return Err(EdgeListError { line: i });
            },
        }
        i += 1;
    }
    Ok(edges)
}

/// Adds to `graph` the subgraph that `lines` describe between `start_node`
/// and `end_node`, both included. Each line names a source and, behind it,
/// the targets of its edges; every edge gets weight 1. A line with a token
/// that is no number, or with no token, is passed over, and so is a line
/// whose source lies outside the range; of the other lines, the edges to
/// targets inside the range are added.
pub fn filter_graph(graph: &mut Graph, lines: &Vec<String>, start_node: usize, end_node: usize)
    ensures
        final(graph)@ == with_edges(
            old(graph)@,
            filtered_edges(lines@, start_node, end_node, lines@.len() as int),
        ),
{
    let mut i: usize = 0;
    while i < lines.len()
        invariant
            i <= lines.len(),
            graph@ == with_edges(
                old(graph)@,
                filtered_edges(lines@, start_node, end_node, i as int),
            ),
        decreases lines.len() - i,
    {
        let ghost before = filtered_edges(lines@, start_node, end_node, i as int);
        let parts = parse_tokens(lines[i].as_str());
        let mut numeric = true;
        let mut k: usize = 0;
        while k < parts.len()
            invariant
                k <= parts.len(),
                numeric == all_numbers(parts@.take(k as int)),
            decreases parts.len() - k,
        {
            if parts[k].is_none() {
                numeric = false;
            }
            proof {
                let shorter = parts@.take(k as int);
                let longer = parts@.take(k + 1);
                if all_numbers(longer) {
                    assert forall|a: int| 0 <= a < shorter.len() implies (
                    #[trigger] shorter[a]) is Some by {
                        assert(longer[a] is Some);
                    }
                    assert(longer[k as int] is Some);
                }
                if all_numbers(shorter) && parts[k as int] is Some {
                    assert forall|a: int| 0 <= a < longer.len() implies (
                    #[trigger] longer[a]) is Some by {
                        if a < k {
                            assert(shorter[a] is Some);
                        }
                    }
                }
            }
            k += 1;
        }
        assert(parts@.take(parts@.len() as int) =~= parts@);
        let ghost added = line_edges(lines@[i as int]@, start_node, end_node);
        if numeric && parts.len() > 0 {
            let source_node = match parts[0] {
                Some(node) => node,
                None => 0,
            };
            if source_node >= start_node && source_node <= end_node {
                let mut j: usize = 1;
                while j < parts.len()
                    invariant
                        1 <= j <= parts.len(),
                        all_numbers(parts@),
                        parts@[0] == Some(source_node),
                        graph@ == with_edges(
                            old(graph)@,
                            before + kept_edges(parts@, start_node, end_node, j as int),
                        ),
                    decreases parts.len() - j,
                {
                    let ghost kept = kept_edges(parts@, start_node, end_node, j as int);
                    let destination = match parts[j] {
                        Some(node) => node,
                        None => 0,
                    };
                    if destination >= start_node && destination <= end_node {
                        graph.add_edge(source_node, destination, 1);
                        proof {
                            let longer = before + kept.push((source_node, destination));
                            assert(longer.drop_last() =~= before + kept);
                        }
                    }
                    j += 1;
                }
            } else {
                assert(before + added =~= before);
            }
        } else {
            assert(before + added =~= before);
        }
        i += 1;
    }
}

} // verus!
