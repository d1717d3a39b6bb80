//! Breadth-first search as a mathematical function of the graph and the
//! root, and the proofs of what it finds.
//!
//! A search keeps the parent recorded for each vertex found so far, the
//! vertices in the order in which they were found, and how many of them have
//! been expanded. The vertices found and not yet expanded are the work queue.

use crate::model::GraphModel;
use vstd::prelude::*;

verus! {

/// The state of a breadth-first search.
pub struct Search {
    /// For each vertex, the vertex from which it was first reached, or `None`
    /// while it has not been reached.
    pub parents: Seq<Option<usize>>,
    /// The vertices reached so far, in the order in which they were reached.
    pub order: Seq<usize>,
    /// How many vertices of `order` have had their neighbours looked at.
    pub expanded: nat,
}

impl Search {
    /// The search that has found the root and nothing else.
    pub open spec fn start(vertex_count: nat, root: usize) -> Search {
        Search {
            parents: Seq::new(vertex_count, |v: int| None::<usize>).update(
                root as int,
                Some(root),
            ),
            order: seq![root],
            expanded: 0,
        }
    }

    /// The work queue: the vertices found and not yet expanded, oldest first.
    pub open spec fn pending(self) -> Seq<usize> {
        self.order.subrange(self.expanded as int, self.order.len() as int)
    }

    /// Looks at `next`, a neighbour of `node`. A vertex seen for the first
    /// time gets `node` as its parent and joins the queue; one seen before
    /// keeps the parent it has.
    pub open spec fn discover(self, node: usize, next: usize) -> Search {
        if self.parents[next as int] is None {
            Search {
                parents: self.parents.update(next as int, Some(node)),
                order: self.order.push(next),
                expanded: self.expanded,
            }
        } else {
            self
        }
    }

    /// Looks at the neighbours of `node` one after the other, first to last.
    pub open spec fn scan(self, node: usize, neighbors: Seq<usize>) -> Search
        decreases neighbors.len(),
    {
        if neighbors.len() == 0 {
            self
        } else {
            self.scan(node, neighbors.drop_last()).discover(node, neighbors.last())
        }
    }
}

impl GraphModel {
    /// Takes the oldest vertex from the queue and looks at its neighbours in
    /// the order in which they were inserted.
    pub open spec fn expand(self, search: Search) -> Search {
        let node = search.order[search.expanded as int];
        let scanned = search.scan(node, self.edges[node as int]);
        Search { parents: scanned.parents, order: scanned.order, expanded: search.expanded + 1 }
    }

    /// Expands vertices until the queue is empty.
    ///
    /// No vertex is found twice, so the queue is empty after at most
    /// `vertex_count` expansions; the second test is there for the
    /// definition's own termination and never cuts a search short (see
    /// `lemma_run_empties_queue`).
    pub open spec fn run(self, search: Search) -> Search
        decreases self.vertex_count - search.expanded,
    {
        if search.expanded < search.order.len() && search.expanded < self.vertex_count {
            self.run(self.expand(search))
        } else {
            search
        }
    }

    /// The parents that a breadth-first search from `root` records.
    pub open spec fn bfs_parents(self, root: usize) -> Seq<Option<usize>> {
        self.run(Search::start(self.vertex_count, root)).parents
    }
}

/// What holds of the parent recorded for a found vertex `v`: the parent is
/// itself a found vertex, `v` is reachable from the root, and unless `v` is
/// the root an arc leads from the parent to `v`.
pub open spec fn parent_ok(g: GraphModel, root: usize, s: Search, v: usize) -> bool {
    let u = s.parents[v as int]->0;
    &&& u < g.vertex_count
    &&& s.parents[u as int] is Some
    &&& g.reachable(root, v)
    &&& v == root || g.has_arc(u, v)
}

/// What holds of a search at every moment.
pub open spec fn sound(g: GraphModel, root: usize, s: Search) -> bool {
    &&& s.parents.len() == g.vertex_count
    &&& s.expanded <= s.order.len()
    &&& s.order.len() > 0
    &&& s.order[0] == root
    &&& s.order.no_duplicates()
    &&& forall|i: int| 0 <= i < s.order.len() ==> #[trigger] s.order[i] < g.vertex_count
    &&& forall|v: usize|
        v < g.vertex_count ==> (#[trigger] s.parents[v as int] is Some <==> s.order.contains(v))
    &&& s.parents[root as int] == Some(root)
    &&& forall|v: usize|
        v < g.vertex_count && #[trigger] s.parents[v as int] is Some ==> parent_ok(g, root, s, v)
}

/// The first `count` neighbours of the vertex found `i`-th have been found.
pub open spec fn scanned(g: GraphModel, s: Search, i: int, count: int) -> bool {
    forall|j: int|
        0 <= j < count ==> s.parents[(#[trigger] g.edges[s.order[i] as int][j]) as int] is Some
}

/// Every neighbour of every expanded vertex has been found.
pub open spec fn closed(g: GraphModel, s: Search) -> bool {
    forall|i: int|
        0 <= i < s.expanded ==> #[trigger] scanned(
            g,
            s,
            i,
            g.edges[s.order[i] as int].len() as int,
        )
}

/// `later` has found everything that `earlier` had, with the same parents
/// and in the same order.
pub open spec fn extends(earlier: Search, later: Search) -> bool {
    &&& later.parents.len() == earlier.parents.len()
    &&& later.expanded == earlier.expanded
    &&& earlier.order.len() <= later.order.len()
    &&& forall|i: int|
        0 <= i < earlier.order.len() ==> #[trigger] later.order[i] == earlier.order[i]
    &&& forall|v: int|
        0 <= v < earlier.parents.len() && #[trigger] earlier.parents[v] is Some
            ==> later.parents[v] == earlier.parents[v]
}

/// The search that has found only the root is sound and closed.
pub proof fn lemma_start_sound(g: GraphModel, root: usize)
    requires
        g.wf(),
        root < g.vertex_count,
    ensures
        sound(g, root, Search::start(g.vertex_count, root)),
        closed(g, Search::start(g.vertex_count, root)),
{
    let s = Search::start(g.vertex_count, root);
    let path = seq![root];
    assert(g.is_walk(path, root, root));
    assert(s.order.contains(root)) by {
        assert(s.order[0] == root);
    }
}

/// Looking at a neighbour of a found vertex keeps the search sound, forgets
/// nothing, and leaves that neighbour found.
pub proof fn lemma_discover(g: GraphModel, root: usize, s: Search, node: usize, next: usize)
    requires
        g.wf(),
        root < g.vertex_count,
        sound(g, root, s),
        node < g.vertex_count,
        s.parents[node as int] is Some,
        g.has_arc(node, next),
        next < g.vertex_count,
    ensures
        sound(g, root, s.discover(node, next)),
        extends(s, s.discover(node, next)),
        s.discover(node, next).parents[next as int] is Some,
{
    let t = s.discover(node, next);
    if s.parents[next as int] is None {
        assert(!s.order.contains(next));
        assert(t.order.no_duplicates());
        assert forall|v: usize| v < g.vertex_count implies (#[trigger] t.parents[v as int] is Some
            <==> t.order.contains(v)) by {
            if v == next {
                assert(t.order[s.order.len() as int] == next);
            } else {
                assert(t.parents[v as int] == s.parents[v as int]);
                if s.order.contains(v) {
                    let i = choose|i: int| 0 <= i < s.order.len() && s.order[i] == v;
                    assert(t.order[i] == v);
                }
                if t.order.contains(v) {
                    let i = choose|i: int| 0 <= i < t.order.len() && t.order[i] == v;
                    assert(s.order[i] == v);
                }
            }
        }
        assert(parent_ok(g, root, s, node));
        let path = choose|path: Seq<usize>| g.is_walk(path, root, node);
        let longer = path.push(next);
        assert(g.is_path(longer)) by {
            assert forall|i: int| #![trigger longer[i]] 0 <= i < longer.len() - 1 implies g.has_arc(
                longer[i],
                longer[i + 1],
            ) by {
                if i < path.len() - 1 {
                    assert(longer[i] == path[i]);
                    assert(longer[i + 1] == path[i + 1]);
                }
            }
        }
        assert(g.is_walk(longer, root, next));
        assert forall|v: usize|
            v < g.vertex_count && #[trigger] t.parents[v as int] is Some implies parent_ok(
            g,
            root,
            t,
            v,
        ) by {
            if v != next {
                assert(parent_ok(g, root, s, v));
            }
        }
    }
}

/// Looking at the first `count` neighbours of a found vertex keeps the
/// search sound, forgets nothing, and leaves those neighbours found.
pub proof fn lemma_scan(g: GraphModel, root: usize, s: Search, node: usize, count: int)
    requires
        g.wf(),
        root < g.vertex_count,
        sound(g, root, s),
        node < g.vertex_count,
        s.parents[node as int] is Some,
        0 <= count <= g.edges[node as int].len(),
    ensures
        sound(g, root, s.scan(node, g.edges[node as int].take(count))),
        extends(s, s.scan(node, g.edges[node as int].take(count))),
        forall|j: int|
            0 <= j < count ==> s.scan(node, g.edges[node as int].take(count)).parents[(
            #[trigger] g.edges[node as int][j]) as int] is Some,
    decreases count,
{
    let neighbors = g.edges[node as int];
    if count > 0 {
        let next = neighbors[count - 1];
        let before = s.scan(node, neighbors.take(count - 1));
        lemma_scan(g, root, s, node, count - 1);
        assert(neighbors.take(count).drop_last() =~= neighbors.take(count - 1));
        assert(neighbors.take(count).last() == next);
        assert(g.has_arc(node, next));
        lemma_discover(g, root, before, node, next);
        let after = before.discover(node, next);
        assert(after == s.scan(node, neighbors.take(count)));
        assert forall|j: int| 0 <= j < count implies after.parents[(
        #[trigger] neighbors[j]) as int] is Some by {
            if j < count - 1 {
                assert(before.parents[neighbors[j] as int] is Some);
            }
        }
    }
}

/// Expanding the oldest vertex of the queue keeps the search sound and
/// closed.
pub proof fn lemma_expand(g: GraphModel, root: usize, s: Search)
    requires
        g.wf(),
        root < g.vertex_count,
        sound(g, root, s),
        closed(g, s),
        s.expanded < s.order.len(),
    ensures
        sound(g, root, g.expand(s)),
        closed(g, g.expand(s)),
{
    let node = s.order[s.expanded as int];
    let neighbors = g.edges[node as int];
    assert(s.order.contains(node));
    lemma_scan(g, root, s, node, neighbors.len() as int);
    assert(neighbors.take(neighbors.len() as int) =~= neighbors);
    let t = s.scan(node, neighbors);
    let e = g.expand(s);
    assert forall|v: usize|
        v < g.vertex_count && #[trigger] e.parents[v as int] is Some implies parent_ok(
        g,
        root,
        e,
        v,
    ) by {
        assert(parent_ok(g, root, t, v));
    }
    assert forall|i: int| 0 <= i < e.expanded implies #[trigger] scanned(
        g,
        e,
        i,
        g.edges[e.order[i] as int].len() as int,
    ) by {
        assert(e.order[i] == s.order[i]);
        if i < s.expanded {
            assert(scanned(g, s, i, g.edges[s.order[i] as int].len() as int));
        }
    }
}

/// Distinct numbers below `bound` are at most `bound` many.
pub proof fn lemma_distinct_bounded(items: Seq<usize>, bound: nat)
    requires
        items.no_duplicates(),
        forall|i: int| 0 <= i < items.len() ==> #[trigger] items[i] < bound,
    ensures
        items.len() <= bound,
    decreases bound,
{
    if items.len() > 0 {
        assert(items[0] < bound);
        let top = (bound - 1) as nat;
        if exists|i: int| 0 <= i < items.len() && items[i] == top {
            let i = choose|i: int| 0 <= i < items.len() && items[i] == top;
            let rest = items.remove(i);
            assert forall|k: int| 0 <= k < rest.len() implies #[trigger] rest[k] < top by {
                if k < i {
                    assert(rest[k] == items[k]);
                } else {
                    assert(rest[k] == items[k + 1]);
                }
            }
            lemma_distinct_bounded(rest, top);
        } else {
            lemma_distinct_bounded(items, top);
        }
    }
}

/// Running a sound and closed search to its end keeps it sound and closed,
/// and leaves no vertex in the queue.
pub proof fn lemma_run(g: GraphModel, root: usize, s: Search)
    requires
        g.wf(),
        root < g.vertex_count,
        sound(g, root, s),
        closed(g, s),
    ensures
        sound(g, root, g.run(s)),
        closed(g, g.run(s)),
        g.run(s).expanded == g.run(s).order.len(),
    decreases g.vertex_count - s.expanded,
{
    lemma_distinct_bounded(s.order, g.vertex_count);
    if s.expanded < s.order.len() {
        lemma_expand(g, root, s);
        lemma_run(g, root, g.expand(s));
    }
}

/// Once the queue is empty, every vertex on a walk that starts at the root
/// has been found.
pub proof fn lemma_walk_found(g: GraphModel, root: usize, s: Search, path: Seq<usize>, i: int)
    requires
        g.wf(),
        sound(g, root, s),
        closed(g, s),
        s.expanded == s.order.len(),
        g.is_path(path),
        path.first() == root,
        0 <= i < path.len(),
    ensures
        s.parents[path[i] as int] is Some,
    decreases i,
{
    if i > 0 {
        lemma_walk_found(g, root, s, path, i - 1);
        let u = path[i - 1];
        let v = path[i];
        assert(g.has_arc(u, v));
        assert(s.order.contains(u));
        let at = choose|at: int| 0 <= at < s.order.len() && s.order[at] == u;
        assert(scanned(g, s, at, g.edges[s.order[at] as int].len() as int));
        let j = choose|j: int| 0 <= j < g.edges[u as int].len() && g.edges[u as int][j] == v;
        assert(s.parents[g.edges[s.order[at] as int][j] as int] is Some);
    }
}

/// What holds of a search at every moment: each recorded parent belongs to a
/// vertex that is reachable from the root, no vertex was found twice, and
/// every neighbour of every expanded vertex has been found.
pub closed spec fn consistent(g: GraphModel, root: usize, s: Search) -> bool {
    sound(g, root, s) && closed(g, s)
}

/// A search is consistent when it starts.
pub proof fn lemma_consistent_start(g: GraphModel, root: usize)
    requires
        g.wf(),
        root < g.vertex_count,
    ensures
        consistent(g, root, Search::start(g.vertex_count, root)),
{
    lemma_start_sound(g, root);
}

/// Expanding the oldest vertex of the queue keeps the search consistent.
pub proof fn lemma_consistent_expand(g: GraphModel, root: usize, s: Search)
    requires
        g.wf(),
        root < g.vertex_count,
        consistent(g, root, s),
        s.expanded < s.order.len(),
    ensures
        consistent(g, root, g.expand(s)),
{
    lemma_expand(g, root, s);
}

/// In a consistent search every vertex has a parent entry, the vertices found
/// are vertices of the graph, and there are at most `vertex_count` of them.
pub proof fn lemma_consistent_bounds(g: GraphModel, root: usize, s: Search)
    requires
        consistent(g, root, s),
    ensures
        s.parents.len() == g.vertex_count,
        s.expanded <= s.order.len() <= g.vertex_count,
        forall|i: int| 0 <= i < s.order.len() ==> #[trigger] s.order[i] < g.vertex_count,
{
    lemma_distinct_bounded(s.order, g.vertex_count);
}

/// A search from a vertex of the graph ends with an empty queue: the bound
/// on the number of expansions in `run` cuts no search short.
pub proof fn lemma_run_empties_queue(g: GraphModel, root: usize)
    requires
        g.wf(),
        root < g.vertex_count,
    ensures
        g.run(Search::start(g.vertex_count, root)).pending().len() == 0,
{
    lemma_start_sound(g, root);
    lemma_run(g, root, Search::start(g.vertex_count, root));
}

/// The search records a parent for every vertex or `None`, and the root is
/// its own parent.
pub proof fn lemma_bfs_root(g: GraphModel, root: usize)
    requires
        g.wf(),
        root < g.vertex_count,
    ensures
        g.bfs_parents(root).len() == g.vertex_count,
        g.bfs_parents(root)[root as int] == Some(root),
{
    lemma_start_sound(g, root);
    lemma_run(g, root, Search::start(g.vertex_count, root));
}

/// The search records a parent for exactly the vertices that can be reached
/// from the root along stored arcs.
pub proof fn lemma_bfs_reachable(g: GraphModel, root: usize)
    requires
        g.wf(),
        root < g.vertex_count,
    ensures
        forall|v: usize|
            v < g.vertex_count ==> (#[trigger] g.bfs_parents(root)[v as int] is Some
                <==> g.reachable(root, v)),
{
    let start = Search::start(g.vertex_count, root);
    let end = g.run(start);
    lemma_start_sound(g, root);
    lemma_run(g, root, start);
    assert forall|v: usize| v < g.vertex_count implies (#[trigger] end.parents[v as int] is Some
        <==> g.reachable(root, v)) by {
        if end.parents[v as int] is Some {
            assert(parent_ok(g, root, end, v));
        }
        if g.reachable(root, v) {
            let path = choose|path: Seq<usize>| g.is_walk(path, root, v);
            lemma_walk_found(g, root, end, path, path.len() - 1);
        }
    }
}

/// The parent recorded for a vertex other than the root is a found vertex
/// with an arc to it.
pub proof fn lemma_bfs_parent_arc(g: GraphModel, root: usize)
    requires
        g.wf(),
        root < g.vertex_count,
    ensures
        forall|v: usize|
            v < g.vertex_count && v != root && #[trigger] g.bfs_parents(root)[v as int] is Some
                ==> {
                let u = g.bfs_parents(root)[v as int]->0;
                g.has_arc(u, v) && g.bfs_parents(root)[u as int] is Some
            },
{
    let start = Search::start(g.vertex_count, root);
    let end = g.run(start);
    lemma_start_sound(g, root);
    lemma_run(g, root, start);
    assert forall|v: usize|
        v < g.vertex_count && v != root && #[trigger] end.parents[v as int] is Some implies {
        let u = end.parents[v as int]->0;
        g.has_arc(u, v) && end.parents[u as int] is Some
    } by {
        assert(parent_ok(g, root, end, v));
    }
}

/// The search is a function of the graph and the root: whatever two runs
/// over the same graph from the same root record, they record the same.
pub proof fn lemma_bfs_deterministic(
    g: GraphModel,
    root: usize,
    first: Seq<Option<usize>>,
    second: Seq<Option<usize>>,
)
    requires
        first == g.bfs_parents(root),
        second == g.bfs_parents(root),
    ensures
        first == second,
{
}

} // verus!
