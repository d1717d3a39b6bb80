//! The adjacency-list store: construction, edge insertion and counts.

use crate::model::{lemma_insert_arc_wf, lemma_total_bounds, lemma_total_zero, GraphModel};
use vstd::prelude::*;

verus! {

/// What every graph store offers: a running edge count and edge insertion.
pub trait Graph: View<V = GraphModel> {
    /// The number of arcs stored so far.
    fn edge_count(&self) -> (count: usize)
        ensures
            count == self@.edge_count,
    ;

    /// Adds the edge from `source` to `destination`. Parallel edges and
    /// self-loops are stored like any other edge.
    ///
    /// Both endpoints must be vertices of the graph, and the new edge count
    /// must fit in a `usize`.
    fn add_edge(&mut self, source: usize, destination: usize)
        requires
            old(self)@.wf(),
            source < old(self)@.vertex_count,
            destination < old(self)@.vertex_count,
            old(self)@.edge_count + old(self)@.arcs_per_edge() <= usize::MAX,
        ensures
            final(self)@ == old(self)@.add_edge(source, destination),
            final(self)@.wf(),
    ;
}

/// Why a request was refused.
#[derive(Debug, Clone, Copy, PartialEq, Eq)]
pub enum GraphError {
    /// `index` was given as a vertex, and the graph has only the vertices
    /// `0..vertex_count`.
    IndexOutOfRange { index: usize, vertex_count: usize },
}

/// A graph stored as one neighbour list per vertex.
pub struct AdjacencyList {
    directed: bool,
    vertex_count: usize,
    edge_count: usize,
    edges: Vec<Vec<usize>>,
    degree: Vec<usize>,
}

impl View for AdjacencyList {
    type V = GraphModel;

    closed spec fn view(&self) -> GraphModel {
        GraphModel {
            directed: self.directed,
            vertex_count: self.vertex_count as nat,
            edge_count: self.edge_count as nat,
            edges: Seq::new(self.edges@.len(), |v: int| self.edges@[v]@),
            degree: Seq::new(self.degree@.len(), |v: int| self.degree@[v] as nat),
        }
    }
}

impl GraphModel {
    /// `Ok` if `vertex` is a vertex of the graph, and the error that names
    /// it if it is not.
    pub open spec fn check_vertex(self, vertex: usize) -> Result<(), GraphError> {
        if vertex < self.vertex_count {
            Ok(())
        } else {
            Err(
                GraphError::IndexOutOfRange {
                    index: vertex,
                    vertex_count: self.vertex_count as usize,
                },
            )
        }
    }

    /// `Ok` if both endpoints are vertices of the graph; otherwise the error
    /// that names the source if it is out of range, and the destination if
    /// only that is.
    pub open spec fn check_edge(self, source: usize, destination: usize) -> Result<
        (),
        GraphError,
    > {
        if self.check_vertex(source) is Err {
            self.check_vertex(source)
        } else {
            self.check_vertex(destination)
        }
    }
}

impl AdjacencyList {
    /// A graph on the vertices `0..vertex_count` with no edge.
    pub fn new(directed: bool, vertex_count: usize) -> (graph: AdjacencyList)
        ensures
            graph@ == GraphModel::empty(directed, vertex_count as nat),
            graph@.wf(),
    {
        let mut edges: Vec<Vec<usize>> = Vec::new();
        let mut degree: Vec<usize> = Vec::new();
        let mut v: usize = 0;
        while v < vertex_count
            invariant
                v <= vertex_count,
                edges@.len() == v,
                degree@.len() == v,
                forall|k: int| 0 <= k < v ==> #[trigger] edges@[k]@ == Seq::<usize>::empty(),
                forall|k: int| 0 <= k < v ==> #[trigger] degree@[k] == 0,
            decreases vertex_count - v,
        {
            edges.push(Vec::new());
            degree.push(0);
            v = v + 1;
        }
        let graph = AdjacencyList { directed, vertex_count, edge_count: 0, edges, degree };
        proof {
            let empty = GraphModel::empty(directed, vertex_count as nat);
            assert(graph@.edges =~= empty.edges);
            assert(graph@.degree =~= empty.degree);
            lemma_total_zero(empty.degree);
        }
        graph
    }

    /// Whether an edge is stored in one direction only.
    pub fn is_directed(&self) -> (directed: bool)
        ensures
            directed == self@.directed,
    {
        self.directed
    }

    /// The number of vertices; the vertices are `0..vertex_count`.
    pub fn vertex_count(&self) -> (count: usize)
        ensures
            count == self@.vertex_count,
    {
        self.vertex_count
    }

    /// The out-degree of `vertex`: how many arcs were inserted at it.
    pub fn degree(&self, vertex: usize) -> (degree: usize)
        requires
            self@.wf(),
            vertex < self@.vertex_count,
        ensures
            degree == self@.degree[vertex as int],
    {
        self.degree[vertex]
    }

    /// The neighbours of `vertex`, in insertion order.
    pub fn neighbors(&self, vertex: usize) -> (neighbors: &Vec<usize>)
        requires
            self@.wf(),
            vertex < self@.vertex_count,
        ensures
            neighbors@ == self@.edges[vertex as int],
    {
        &self.edges[vertex]
    }

    /// Adds the edge from `source` to `destination` if both are vertices of
    /// the graph, and refuses it otherwise, naming the first of the two that
    /// is out of range. A refused edge leaves the graph as it was.
    ///
    /// The new edge count must fit in a `usize`.
    pub fn try_add_edge(&mut self, source: usize, destination: usize) -> (result: Result<
        (),
        GraphError,
    >)
        requires
            old(self)@.wf(),
            old(self)@.edge_count + old(self)@.arcs_per_edge() <= usize::MAX,
        ensures
            final(self)@.wf(),
            result == old(self)@.check_edge(source, destination),
            result is Ok ==> final(self)@ == old(self)@.add_edge(source, destination),
            result is Err ==> final(self)@ == old(self)@,
    {
        if source >= self.vertex_count {
            return Err(
                GraphError::IndexOutOfRange { index: source, vertex_count: self.vertex_count },
            );
        }
        if destination >= self.vertex_count {
            return Err(
                GraphError::IndexOutOfRange {
                    index: destination,
                    vertex_count: self.vertex_count,
                },
            );
        }
        self.add_edge(source, destination);
        Ok(())
    }

    /// Appends `to` to the neighbours of `from` and counts the new arc.
    fn insert_arc(&mut self, from: usize, to: usize)
        requires
            old(self)@.wf(),
            from < old(self)@.vertex_count,
            to < old(self)@.vertex_count,
            old(self)@.edge_count < usize::MAX,
        ensures
            final(self)@ == old(self)@.insert_arc(from, to),
            final(self)@.wf(),
    {
        proof {
            lemma_total_bounds(self@.degree, from as int);
            lemma_insert_arc_wf(self@, from, to);
        }
        self.edges[from].push(to);
        self.edge_count += 1;
        self.degree[from] += 1;
        proof {
            let after = old(self)@.insert_arc(from, to);
            assert(self@.edges =~= after.edges);
            assert(self@.degree =~= after.degree);
        }
    }
}

impl Graph for AdjacencyList {
    fn edge_count(&self) -> (count: usize) {
        self.edge_count
    }

    fn add_edge(&mut self, source: usize, destination: usize) {
        self.insert_arc(source, destination);
        if !self.directed {
            self.insert_arc(destination, source);
        }
    }
}

} // verus!
