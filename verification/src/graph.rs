//! The directed graph over block indices, kept in a `petgraph` graph map.
//!
//! Nothing in this file is proved: the two functions state what the graph
//! map's source shows of `from_edges` and `neighbors_directed`, over the
//! list of edges that the map holds.

use petgraph::graphmap::GraphMap;
use petgraph::Directed;
use petgraph::Direction;
use std::hash::BuildHasher;
use std::hash::RandomState;
use vstd::prelude::*;

verus! {

/// `petgraph::graphmap::GraphMap`, a graph keyed by its node values. A
/// value of it is known only by `graph_edges`.
#[verifier::external_type_specification]
#[verifier::external_body]
#[verifier::reject_recursive_types(N)]
#[verifier::reject_recursive_types(E)]
#[verifier::reject_recursive_types(Ty)]
#[verifier::reject_recursive_types(S)]
pub struct ExGraphMap<N, E, Ty, S: BuildHasher>(GraphMap<N, E, Ty, S>);

/// `petgraph::Directed`, the marker of graphs with directed edges.
#[verifier::external_type_specification]
#[verifier::external_body]
pub struct ExDirected(Directed);

/// The edges that a graph map holds, each once as (source, target), in the
/// order in which they were added.
pub uninterp spec fn graph_edges(g: GraphMap<usize, (), Directed, RandomState>) -> Seq<
    (usize, usize),
>;

/// A list of edges without its repetitions: of equal edges the first stays.
pub open spec fn first_occurrences(edges: Seq<(usize, usize)>) -> Seq<(usize, usize)>
    decreases edges.len(),
{
    if edges.len() == 0 {
        Seq::empty()
    } else {
        let before = first_occurrences(edges.drop_last());
        if before.contains(edges.last()) {
            before
        } else {
            before.push(edges.last())
        }
    }
}

/// The neighbours of `node` in a list of edges, in the order of the list:
/// the sources of the edges into it where `incoming` holds, else the
/// targets of the edges out of it.
pub open spec fn neighbors_in(edges: Seq<(usize, usize)>, node: usize, incoming: bool) -> Seq<usize>
    decreases edges.len(),
{
    if edges.len() == 0 {
        Seq::empty()
    } else {
        let before = neighbors_in(edges.drop_last(), node, incoming);
        let edge = edges.last();
        if incoming && edge.1 == node {
            before.push(edge.0)
        } else if !incoming && edge.0 == node {
            before.push(edge.1)
        } else {
            before
        }
    }
}

/// `GraphMap::from_edges`: adds the pairs of `edges` one after the other,
/// each as an edge from its first to its second component. A pair that the
/// graph already holds adds nothing.
#[verifier::external_body]
pub(crate) fn graph_from_edges(edges: &[(usize, usize)]) -> (g: GraphMap<
    usize,
    (),
    Directed,
    RandomState,
>)
    ensures
        graph_edges(g) == first_occurrences(edges@),
{
    GraphMap::from_edges(edges)
}

/// `GraphMap::neighbors_directed`, collected into a vector: the neighbours
/// of `node` against the edges where `incoming` holds, else along them, in
/// the order in which their edges were added. An edge from a node to
/// itself makes the node its own neighbour in both directions; a node that
/// no edge touches has none.
#[verifier::external_body]
pub(crate) fn graph_neighbors(
    g: &GraphMap<usize, (), Directed, RandomState>,
    node: usize,
    incoming: bool,
) -> (r: Vec<usize>)
    ensures
        r@ == neighbors_in(graph_edges(*g), node, incoming),
{
    let dir = if incoming { Direction::Incoming } else { Direction::Outgoing };
    g.neighbors_directed(node, dir).collect()
}

/// A list without repetitions holds what the list holds, each once.
pub proof fn lemma_first_occurrences(edges: Seq<(usize, usize)>)
    ensures
        first_occurrences(edges).no_duplicates(),
        forall|e: (usize, usize)|
            #![trigger first_occurrences(edges).contains(e)]
            #![trigger edges.contains(e)]
            first_occurrences(edges).contains(e) <==> edges.contains(e),
        edges.no_duplicates() ==> first_occurrences(edges) == edges,
    decreases edges.len(),
{
    if edges.len() > 0 {
        let front = edges.drop_last();
        let before = first_occurrences(front);
        let last = edges.last();
        lemma_first_occurrences(front);
        assert forall|e: (usize, usize)| first_occurrences(edges).contains(e) <==> edges.contains(
            e,
        ) by {
            if first_occurrences(edges).contains(e) {
                if before.contains(e) {
                    let i = choose|i: int| 0 <= i < front.len() && front[i] == e;
                    assert(edges[i] == e);
                } else {
                    let i = choose|i: int|
                        0 <= i < first_occurrences(edges).len() && first_occurrences(edges)[i] == e;
                    assert(e == last);
                    assert(edges[edges.len() - 1] == e);
                }
            }
            if edges.contains(e) {
                let i = choose|i: int| 0 <= i < edges.len() && edges[i] == e;
                if i < edges.len() - 1 {
                    assert(front[i] == e);
                    assert(before.contains(e));
                    let j = choose|j: int| 0 <= j < before.len() && before[j] == e;
                    assert(first_occurrences(edges)[j] == e);
                } else {
                    if !before.contains(last) {
                        assert(first_occurrences(edges)[before.len() as int] == e);
                    }
                }
            }
        }
        if edges.no_duplicates() {
            assert(front.no_duplicates());
            assert(!front.contains(last)) by {
                if front.contains(last) {
                    let i = choose|i: int| 0 <= i < front.len() && front[i] == last;
                    assert(edges[i] == edges[edges.len() - 1]);
                }
            }
            assert(first_occurrences(edges) =~= edges);
        }
    }
}

/// In a list of edges without repetitions, a node has each neighbour once,
/// and the neighbours are the other ends of its edges.
pub proof fn lemma_neighbors_in(edges: Seq<(usize, usize)>, node: usize, incoming: bool)
    requires
        edges.no_duplicates(),
    ensures
        neighbors_in(edges, node, incoming).no_duplicates(),
        forall|m: usize| #[trigger]
            neighbors_in(edges, node, incoming).contains(m) <==> edges.contains(
                if incoming {
                    (m, node)
                } else {
                    (node, m)
                },
            ),
    decreases edges.len(),
{
    if edges.len() > 0 {
        let front = edges.drop_last();
        let before = neighbors_in(front, node, incoming);
        let all = neighbors_in(edges, node, incoming);
        let last = edges.last();
        assert(front.no_duplicates());
        lemma_neighbors_in(front, node, incoming);
        let added = (incoming && last.1 == node) || (!incoming && last.0 == node);
        let other = if incoming {
            last.0
        } else {
            last.1
        };
        assert forall|m: usize|
            all.contains(m) <==> edges.contains(
                if incoming {
                    (m, node)
                } else {
                    (node, m)
                },
            ) by {
            let e = if incoming {
                (m, node)
            } else {
                (node, m)
            };
            if all.contains(m) {
                if before.contains(m) {
                    let i = choose|i: int| 0 <= i < front.len() && front[i] == e;
                    assert(edges[i] == e);
                } else {
                    let i = choose|i: int| 0 <= i < all.len() && all[i] == m;
                    assert(added && m == other);
                    assert(edges[edges.len() - 1] == e);
                }
            }
            if edges.contains(e) {
                let i = choose|i: int| 0 <= i < edges.len() && edges[i] == e;
                if i < edges.len() - 1 {
                    assert(front[i] == e);
                    assert(before.contains(m));
                    let j = choose|j: int| 0 <= j < before.len() && before[j] == m;
                    assert(all[j] == m);
                } else {
                    assert(added);
                    assert(all[before.len() as int] == m);
                }
            }
        }
        if added {
            assert(!before.contains(other)) by {
                if before.contains(other) {
                    let i = choose|i: int| 0 <= i < front.len() && front[i] == last;
                    assert(edges[i] == edges[edges.len() - 1]);
                }
            }
        }
    }
}

} // verus!
