//! The mathematical model of a graph: what an adjacency list stands for,
//! what an insertion does to it, and what it means for one vertex to be
//! reachable from another.

use vstd::prelude::*;

verus! {

/// The sum of a sequence of degrees.
pub open spec fn total(degrees: Seq<nat>) -> nat
    decreases degrees.len(),
{
    if degrees.len() == 0 {
        0
    } else {
        total(degrees.drop_last()) + degrees.last()
    }
}

/// A graph over the vertices `0..vertex_count`.
///
/// `edges[v]` lists the neighbours of `v` in the order in which they were
/// inserted; repeated neighbours and self-loops are kept as they came.
pub struct GraphModel {
    pub directed: bool,
    pub vertex_count: nat,
    pub edge_count: nat,
    pub edges: Seq<Seq<usize>>,
    pub degree: Seq<nat>,
}

impl GraphModel {
    /// The graph on `vertex_count` vertices that has no edge yet.
    pub open spec fn empty(directed: bool, vertex_count: nat) -> GraphModel {
        GraphModel {
            directed,
            vertex_count,
            edge_count: 0,
            edges: Seq::new(vertex_count, |v: int| Seq::<usize>::empty()),
            degree: Seq::new(vertex_count, |v: int| 0nat),
        }
    }

    /// Every vertex has a neighbour list and a degree, the degree counts the
    /// list, the edge count is the sum of the degrees, and every stored
    /// neighbour is a vertex of the graph.
    pub open spec fn wf(self) -> bool {
        &&& self.edges.len() == self.vertex_count
        &&& self.degree.len() == self.vertex_count
        &&& forall|v: int|
            0 <= v < self.vertex_count ==> #[trigger] self.degree[v] == self.edges[v].len()
        &&& self.edge_count == total(self.degree)
        &&& forall|v: int, i: int|
            0 <= v < self.vertex_count && 0 <= i < self.edges[v].len()
                ==> #[trigger] self.edges[v][i] < self.vertex_count
    }

    /// The graph after `to` was appended to the neighbours of `from`.
    pub open spec fn insert_arc(self, from: usize, to: usize) -> GraphModel {
        GraphModel {
            directed: self.directed,
            vertex_count: self.vertex_count,
            edge_count: self.edge_count + 1,
            edges: self.edges.update(from as int, self.edges[from as int].push(to)),
            degree: self.degree.update(from as int, self.degree[from as int] + 1),
        }
    }

    /// How much one call of `add_edge` adds to the edge count.
    pub open spec fn arcs_per_edge(self) -> nat {
        if self.directed {
            1
        } else {
            2
        }
    }

    /// The graph after the edge from `source` to `destination` was added:
    /// one arc on a directed graph, the arc and its reverse on an undirected
    /// one.
    pub open spec fn add_edge(self, source: usize, destination: usize) -> GraphModel {
        if self.directed {
            self.insert_arc(source, destination)
        } else {
            self.insert_arc(source, destination).insert_arc(destination, source)
        }
    }

    /// The graph after the edges of `calls` were added, first to last.
    pub open spec fn add_edges(self, calls: Seq<(usize, usize)>) -> GraphModel
        decreases calls.len(),
    {
        if calls.len() == 0 {
            self
        } else {
            self.add_edges(calls.drop_last()).add_edge(calls.last().0, calls.last().1)
        }
    }

    /// Both endpoints of every edge of `calls` are below `vertex_count`.
    pub open spec fn calls_in_range(calls: Seq<(usize, usize)>, vertex_count: nat) -> bool {
        forall|i: int|
            0 <= i < calls.len() ==> (#[trigger] calls[i]).0 < vertex_count && calls[i].1
                < vertex_count
    }

    /// `to` occurs among the stored neighbours of `from`.
    pub open spec fn has_arc(self, from: usize, to: usize) -> bool {
        from < self.vertex_count && self.edges[from as int].contains(to)
    }

    /// `path` is a walk along stored arcs: it is not empty, stays inside the
    /// graph, and each vertex but the last is followed by one of its
    /// neighbours.
    pub open spec fn is_path(self, path: Seq<usize>) -> bool {
        &&& path.len() > 0
        &&& forall|i: int| 0 <= i < path.len() ==> #[trigger] path[i] < self.vertex_count
        &&& forall|i: int|
            #![trigger path[i]]
            0 <= i < path.len() - 1 ==> self.has_arc(path[i], path[i + 1])
    }

    /// `path` is a walk along stored arcs that starts at `from` and ends at
    /// `to`. It has one arc less than it has vertices.
    pub open spec fn is_walk(self, path: Seq<usize>, from: usize, to: usize) -> bool {
        self.is_path(path) && path.first() == from && path.last() == to
    }

    /// Some walk along stored arcs leads from `from` to `to`. Every vertex
    /// of the graph is reachable from itself.
    pub open spec fn reachable(self, from: usize, to: usize) -> bool {
        exists|path: Seq<usize>| self.is_walk(path, from, to)
    }

    /// `arcs` is the least number of arcs of a walk from `from` to `to`.
    pub open spec fn distance_is(self, from: usize, to: usize, arcs: nat) -> bool {
        &&& exists|path: Seq<usize>| #[trigger]
            self.is_walk(path, from, to) && path.len() == arcs + 1
        &&& forall|path: Seq<usize>| #[trigger]
            self.is_walk(path, from, to) ==> path.len() >= arcs + 1
    }
}

/// Adding one to a degree adds one to the sum.
pub proof fn lemma_total_update(degrees: Seq<nat>, v: int)
    requires
        0 <= v < degrees.len(),
    ensures
        total(degrees.update(v, degrees[v] + 1)) == total(degrees) + 1,
    decreases degrees.len(),
{
    let bumped = degrees.update(v, degrees[v] + 1);
    if v == degrees.len() - 1 {
        assert(bumped.drop_last() =~= degrees.drop_last());
    } else {
        lemma_total_update(degrees.drop_last(), v);
        assert(bumped.drop_last() =~= degrees.drop_last().update(v, degrees[v] + 1));
    }
}

/// No degree exceeds the sum of the degrees.
pub proof fn lemma_total_bounds(degrees: Seq<nat>, v: int)
    requires
        0 <= v < degrees.len(),
    ensures
        degrees[v] <= total(degrees),
    decreases degrees.len(),
{
    if v < degrees.len() - 1 {
        lemma_total_bounds(degrees.drop_last(), v);
    }
}

/// Degrees that are all zero sum to zero.
pub proof fn lemma_total_zero(degrees: Seq<nat>)
    requires
        forall|v: int| 0 <= v < degrees.len() ==> degrees[v] == 0,
    ensures
        total(degrees) == 0,
    decreases degrees.len(),
{
    if degrees.len() > 0 {
        lemma_total_zero(degrees.drop_last());
    }
}

/// Inserting an arc between two vertices of a well-formed graph leaves it
/// well formed.
pub proof fn lemma_insert_arc_wf(g: GraphModel, from: usize, to: usize)
    requires
        g.wf(),
        from < g.vertex_count,
        to < g.vertex_count,
    ensures
        g.insert_arc(from, to).wf(),
{
    let h = g.insert_arc(from, to);
    lemma_total_update(g.degree, from as int);
    assert forall|v: int, i: int|
        0 <= v < h.vertex_count && 0 <= i < h.edges[v].len() implies #[trigger] h.edges[v][i]
        < h.vertex_count by {
        if v == from && i == g.edges[v].len() {
        } else {
            assert(h.edges[v][i] == g.edges[v][i]);
        }
    }
}

/// Adding an edge between two vertices of a well-formed graph leaves it well
/// formed, with the same vertices and direction, and adds one arc to the
/// count on a directed graph and two on an undirected one.
pub proof fn lemma_add_edge_wf(g: GraphModel, source: usize, destination: usize)
    requires
        g.wf(),
        source < g.vertex_count,
        destination < g.vertex_count,
    ensures
        g.add_edge(source, destination).wf(),
        g.add_edge(source, destination).directed == g.directed,
        g.add_edge(source, destination).vertex_count == g.vertex_count,
        g.add_edge(source, destination).edge_count == g.edge_count + g.arcs_per_edge(),
{
    lemma_insert_arc_wf(g, source, destination);
    if !g.directed {
        lemma_insert_arc_wf(g.insert_arc(source, destination), destination, source);
    }
}

/// Adding a series of edges and then one more is adding the longer series.
pub proof fn lemma_add_edges_step(
    g: GraphModel,
    calls: Seq<(usize, usize)>,
    source: usize,
    destination: usize,
)
    ensures
        g.add_edges(calls.push((source, destination))) == g.add_edges(calls).add_edge(
            source,
            destination,
        ),
{
    let longer = calls.push((source, destination));
    assert(longer.drop_last() =~= calls);
}

/// The graph without edges is well formed.
pub proof fn lemma_empty_wf(directed: bool, vertex_count: nat)
    ensures
        GraphModel::empty(directed, vertex_count).wf(),
{
    lemma_total_zero(GraphModel::empty(directed, vertex_count).degree);
}

/// An inserted arc is stored, and no insertion removes an arc.
pub proof fn lemma_insert_arc_keeps(g: GraphModel, from: usize, to: usize, u: usize, v: usize)
    requires
        g.wf(),
        from < g.vertex_count,
    ensures
        g.insert_arc(from, to).has_arc(from, to),
        g.has_arc(u, v) ==> g.insert_arc(from, to).has_arc(u, v),
{
    let h = g.insert_arc(from, to);
    assert(h.edges[from as int][g.edges[from as int].len() as int] == to);
    if g.has_arc(u, v) {
        let i = choose|i: int| 0 <= i < g.edges[u as int].len() && g.edges[u as int][i] == v;
        assert(h.edges[u as int][i] == v);
    }
}

/// An added edge is stored, in both directions on an undirected graph, and
/// adding an edge removes no arc.
pub proof fn lemma_add_edge_keeps(
    g: GraphModel,
    source: usize,
    destination: usize,
    u: usize,
    v: usize,
)
    requires
        g.wf(),
        source < g.vertex_count,
        destination < g.vertex_count,
    ensures
        g.add_edge(source, destination).has_arc(source, destination),
        !g.directed ==> g.add_edge(source, destination).has_arc(destination, source),
        g.has_arc(u, v) ==> g.add_edge(source, destination).has_arc(u, v),
{
    lemma_insert_arc_keeps(g, source, destination, u, v);
    if !g.directed {
        let h = g.insert_arc(source, destination);
        lemma_insert_arc_wf(g, source, destination);
        lemma_insert_arc_keeps(h, destination, source, u, v);
        lemma_insert_arc_keeps(h, destination, source, source, destination);
    }
}

/// After any series of edge insertions between vertices of a well-formed
/// graph, the graph is well formed (so its degrees sum to its edge count),
/// the edge count has grown by one for each insertion on a directed graph and
/// by two on an undirected one, and every inserted edge is stored: from its
/// source to its destination, and on an undirected graph also back.
pub proof fn lemma_add_edges(g: GraphModel, calls: Seq<(usize, usize)>)
    requires
        g.wf(),
        GraphModel::calls_in_range(calls, g.vertex_count),
    ensures
        g.add_edges(calls).wf(),
        g.add_edges(calls).directed == g.directed,
        g.add_edges(calls).vertex_count == g.vertex_count,
        g.directed ==> g.add_edges(calls).edge_count == g.edge_count + calls.len(),
        !g.directed ==> g.add_edges(calls).edge_count == g.edge_count + 2 * calls.len(),
        total(g.add_edges(calls).degree) == g.add_edges(calls).edge_count,
        forall|i: int|
            0 <= i < calls.len() ==> g.add_edges(calls).has_arc(
                (#[trigger] calls[i]).0,
                calls[i].1,
            ),
        !g.directed ==> forall|i: int|
            0 <= i < calls.len() ==> g.add_edges(calls).has_arc(
                (#[trigger] calls[i]).1,
                calls[i].0,
            ),
    decreases calls.len(),
{
    if calls.len() > 0 {
        let earlier = calls.drop_last();
        let (source, destination) = calls.last();
        let before = g.add_edges(earlier);
        let after = g.add_edges(calls);
        assert(GraphModel::calls_in_range(earlier, g.vertex_count)) by {
            assert forall|i: int| 0 <= i < earlier.len() implies (#[trigger] earlier[i]).0
                < g.vertex_count && earlier[i].1 < g.vertex_count by {
                assert(earlier[i] == calls[i]);
            }
        }
        lemma_add_edges(g, earlier);
        lemma_add_edge_wf(before, source, destination);
        assert(after == before.add_edge(source, destination));
        assert forall|i: int| 0 <= i < calls.len() implies after.has_arc(
            (#[trigger] calls[i]).0,
            calls[i].1,
        ) && (!g.directed ==> after.has_arc(calls[i].1, calls[i].0)) by {
            if i < earlier.len() {
                assert(earlier[i] == calls[i]);
                lemma_add_edge_keeps(before, source, destination, calls[i].0, calls[i].1);
                lemma_add_edge_keeps(before, source, destination, calls[i].1, calls[i].0);
            } else {
                lemma_add_edge_keeps(before, source, destination, source, destination);
            }
        }
    }
}

/// On a directed graph that starts without edges, the edge count after any
/// series of insertions is the number of insertions, and the degrees sum to
/// it.
pub proof fn lemma_directed_edge_count(vertex_count: nat, calls: Seq<(usize, usize)>)
    requires
        GraphModel::calls_in_range(calls, vertex_count),
    ensures
        GraphModel::empty(true, vertex_count).add_edges(calls).edge_count == calls.len(),
        total(GraphModel::empty(true, vertex_count).add_edges(calls).degree)
            == GraphModel::empty(true, vertex_count).add_edges(calls).edge_count,
{
    lemma_empty_wf(true, vertex_count);
    lemma_add_edges(GraphModel::empty(true, vertex_count), calls);
}

/// On an undirected graph that starts without edges, the edge count after any
/// series of insertions is twice the number of insertions, and for every
/// inserted edge each endpoint is listed among the neighbours of the other.
pub proof fn lemma_undirected_edge_count(vertex_count: nat, calls: Seq<(usize, usize)>)
    requires
        GraphModel::calls_in_range(calls, vertex_count),
    ensures
        GraphModel::empty(false, vertex_count).add_edges(calls).edge_count == 2 * calls.len(),
        forall|i: int|
            #![trigger calls[i]]
            0 <= i < calls.len() ==> {
                let g = GraphModel::empty(false, vertex_count).add_edges(calls);
                let (u, v) = calls[i];
                g.edges[u as int].contains(v) && g.edges[v as int].contains(u)
            },
{
    lemma_empty_wf(false, vertex_count);
    lemma_add_edges(GraphModel::empty(false, vertex_count), calls);
    let g = GraphModel::empty(false, vertex_count).add_edges(calls);
    assert forall|i: int| #![trigger calls[i]] 0 <= i < calls.len() implies {
        let (u, v) = calls[i];
        g.edges[u as int].contains(v) && g.edges[v as int].contains(u)
    } by {
        assert(g.has_arc(calls[i].0, calls[i].1));
        assert(g.has_arc(calls[i].1, calls[i].0));
    }
}

} // verus!
