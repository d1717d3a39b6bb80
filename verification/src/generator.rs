//! Random graphs, as load for timing experiments.

use crate::graph::{AdjacencyList, Graph};
use crate::model::{lemma_add_edges_step, GraphModel};
use crate::random::sample_range;
use vstd::prelude::*;

verus! {

/// The undirected graph on `vertex_count` vertices that has one edge for each
/// pair of `endpoints`, added first to last. It is what `random_sparse_graph`
/// builds from the endpoints that it draws, for endpoints that the caller
/// has chosen.
///
/// Every endpoint must be a vertex of the graph. Each edge counts twice, and
/// the count must fit in a `usize`.
pub fn sparse_graph_from(vertex_count: usize, endpoints: &Vec<(usize, usize)>) -> (graph:
    AdjacencyList)
    requires
        GraphModel::calls_in_range(endpoints@, vertex_count as nat),
        2 * endpoints@.len() <= usize::MAX,
    ensures
        graph@ == GraphModel::empty(false, vertex_count as nat).add_edges(endpoints@),
        graph@.wf(),
        graph@.edge_count == 2 * endpoints@.len(),
{
    let mut graph = AdjacencyList::new(false, vertex_count);
    let ghost empty = GraphModel::empty(false, vertex_count as nat);
    proof {
        assert(endpoints@.take(0) =~= Seq::<(usize, usize)>::empty());
    }
    for added in 0..endpoints.len()
        invariant
            GraphModel::calls_in_range(endpoints@, vertex_count as nat),
            2 * endpoints@.len() <= usize::MAX,
            empty == GraphModel::empty(false, vertex_count as nat),
            graph@.wf(),
            !graph@.directed,
            graph@.vertex_count == vertex_count,
            graph@.edge_count == 2 * added,
            graph@ == empty.add_edges(endpoints@.take(added as int)),
    {
        let (source, destination) = endpoints[added];
        proof {
            lemma_add_edges_step(empty, endpoints@.take(added as int), source, destination);
            assert(endpoints@.take(added as int).push((source, destination))
                =~= endpoints@.take(added + 1));
        }
        graph.add_edge(source, destination);
    }
    proof {
        assert(endpoints@.take(endpoints@.len() as int) =~= endpoints@);
    }
    graph
}

/// An undirected graph on `vertex_count` vertices with `edge_count` edges
/// whose endpoints are drawn independently and uniformly from the vertices.
/// The two endpoints of an edge may coincide, and an edge may come twice.
///
/// With no vertex there is nothing to draw an endpoint from, so a graph
/// without vertices can only be asked for without edges. Each edge counts
/// twice, and the count must fit in a `usize`.
pub fn random_sparse_graph(vertex_count: usize, edge_count: usize) -> (graph: AdjacencyList)
    requires
        vertex_count > 0 || edge_count == 0,
        2 * edge_count <= usize::MAX,
    ensures
        graph@.wf(),
        !graph@.directed,
        graph@.vertex_count == vertex_count,
        graph@.edge_count == 2 * edge_count,
        exists|calls: Seq<(usize, usize)>|
            {
                &&& calls.len() == edge_count
                &&& GraphModel::calls_in_range(calls, vertex_count as nat)
                &&& graph@ == #[trigger] GraphModel::empty(false, vertex_count as nat).add_edges(
                    calls,
                )
            },
{
    let mut graph = AdjacencyList::new(false, vertex_count);
    let mut rng = rand::thread_rng();
    let ghost mut calls: Seq<(usize, usize)> = Seq::empty();
    let mut added: usize = 0;
    while added < edge_count
        invariant
            added <= edge_count,
            2 * edge_count <= usize::MAX,
            vertex_count > 0 || edge_count == 0,
            graph@.wf(),
            !graph@.directed,
            graph@.vertex_count == vertex_count,
            graph@.edge_count == 2 * added,
            calls.len() == added,
            GraphModel::calls_in_range(calls, vertex_count as nat),
            graph@ == GraphModel::empty(false, vertex_count as nat).add_edges(calls),
        decreases edge_count - added,
    {
        let source = sample_range(&mut rng, 0, vertex_count);
        let destination = sample_range(&mut rng, 0, vertex_count);
        proof {
            lemma_add_edges_step(
                GraphModel::empty(false, vertex_count as nat),
                calls,
                source,
                destination,
            );
            calls = calls.push((source, destination));
        }
        graph.add_edge(source, destination);
        added = added + 1;
    }
    graph
}

} // verus!
