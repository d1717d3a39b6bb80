//! The parents that a breadth-first search records form a tree of shortest
//! walks: climbing from a found vertex to the root takes as many steps as
//! the shortest walk from the root to the vertex has arcs.

use crate::model::GraphModel;
use crate::search::{
    closed, extends, lemma_discover, lemma_distinct_bounded, lemma_expand, lemma_run, lemma_scan,
    lemma_start_sound, lemma_walk_found, parent_ok, scanned, sound, Search,
};
use vstd::prelude::*;

verus! {

/// Following the recorded parents from `v` arrives at the root after exactly
/// `steps` steps.
pub open spec fn climbs(parents: Seq<Option<usize>>, root: usize, v: usize, steps: nat) -> bool
    decreases steps,
{
    if steps == 0 {
        v == root
    } else {
        &&& v != root
        &&& 0 <= v < parents.len()
        &&& parents[v as int] matches Some(u)
        &&& climbs(parents, root, u, (steps - 1) as nat)
    }
}

/// Climbing from `v` to the root along `parents` takes as many steps as the
/// shortest walk from the root to `v` has arcs.
pub open spec fn climbs_shortest(
    g: GraphModel,
    parents: Seq<Option<usize>>,
    root: usize,
    v: usize,
) -> bool {
    exists|arcs: nat| #[trigger] climbs(parents, root, v, arcs) && g.distance_is(root, v, arcs)
}

/// The level that `levels` gives to the vertex found `i`-th.
spec fn level_at(s: Search, levels: Seq<nat>, i: int) -> nat {
    levels[s.order[i] as int]
}

/// `levels` gives each found vertex its depth in the tree of parents, the
/// vertices were found in the order of their depths, and the vertex found
/// last is at most one level below the vertex that is expanded next.
spec fn leveled(g: GraphModel, root: usize, s: Search, levels: Seq<nat>) -> bool {
    &&& levels.len() == g.vertex_count
    &&& forall|v: usize|
        v < g.vertex_count && #[trigger] s.parents[v as int] is Some ==> climbs(
            s.parents,
            root,
            v,
            levels[v as int],
        )
    &&& forall|i: int, j: int|
        0 <= i <= j < s.order.len() ==> #[trigger] level_at(s, levels, i) <= #[trigger] level_at(
            s,
            levels,
            j,
        )
    &&& s.expanded < s.order.len() ==> level_at(s, levels, s.order.len() - 1) <= level_at(
        s,
        levels,
        s.expanded as int,
    ) + 1
}

/// The first `count` neighbours of the vertex found `i`-th are at most one
/// level below it.
spec fn near(g: GraphModel, s: Search, levels: Seq<nat>, i: int, count: int) -> bool {
    let u = s.order[i];
    forall|k: int|
        0 <= k < count ==> levels[(#[trigger] g.edges[u as int][k]) as int] <= levels[u as int] + 1
}

/// No arc from an expanded vertex leads more than one level down.
spec fn layered(g: GraphModel, s: Search, levels: Seq<nat>) -> bool {
    forall|i: int|
        0 <= i < s.expanded ==> #[trigger] near(
            g,
            s,
            levels,
            i,
            g.edges[s.order[i] as int].len() as int,
        )
}

/// A climb that a search has recorded stays as it is when the search goes
/// on.
proof fn lemma_climbs_extends(
    g: GraphModel,
    root: usize,
    s: Search,
    t: Search,
    v: usize,
    steps: nat,
)
    requires
        sound(g, root, s),
        extends(s, t),
        v < g.vertex_count,
        s.parents[v as int] is Some,
        climbs(s.parents, root, v, steps),
    ensures
        climbs(t.parents, root, v, steps),
    decreases steps,
{
    if steps > 0 {
        let u = s.parents[v as int]->0;
        assert(parent_ok(g, root, s, v));
        lemma_climbs_extends(g, root, s, t, u, (steps - 1) as nat);
    }
}

/// Looking at a neighbour of the vertex that is being expanded keeps the
/// levels of the vertices found before, and puts the neighbour at most one
/// level below the vertex.
proof fn lemma_discover_leveled(
    g: GraphModel,
    root: usize,
    s: Search,
    levels: Seq<nat>,
    next: usize,
) -> (after: Seq<nat>)
    requires
        g.wf(),
        root < g.vertex_count,
        sound(g, root, s),
        leveled(g, root, s, levels),
        s.expanded < s.order.len(),
        g.has_arc(s.order[s.expanded as int], next),
        next < g.vertex_count,
    ensures
        leveled(g, root, s.discover(s.order[s.expanded as int], next), after),
        after[next as int] <= after[s.order[s.expanded as int] as int] + 1,
        forall|v: usize|
            v < g.vertex_count && #[trigger] s.parents[v as int] is Some ==> after[v as int]
                == levels[v as int],
{
    let node = s.order[s.expanded as int];
    let t = s.discover(node, next);
    assert(s.order.contains(node));
    lemma_discover(g, root, s, node, next);
    if s.parents[next as int] is Some {
        assert(s.order.contains(next));
        let at = choose|at: int| 0 <= at < s.order.len() && s.order[at] == next;
        assert(level_at(s, levels, at) <= level_at(s, levels, s.order.len() - 1));
        levels
    } else {
        let after = levels.update(next as int, levels[node as int] + 1);
        assert forall|v: usize|
            v < g.vertex_count && #[trigger] t.parents[v as int] is Some implies climbs(
            t.parents,
            root,
            v,
            after[v as int],
        ) by {
            if v == next {
                lemma_climbs_extends(g, root, s, t, node, levels[node as int]);
            } else {
                lemma_climbs_extends(g, root, s, t, v, levels[v as int]);
            }
        }
        assert forall|i: int| 0 <= i < s.order.len() implies level_at(t, after, i) == level_at(
            s,
            levels,
            i,
        ) by {
            assert(s.order.contains(s.order[i]));
        }
        assert forall|i: int, j: int| 0 <= i <= j < t.order.len() implies #[trigger] level_at(
            t,
            after,
            i,
        ) <= #[trigger] level_at(t, after, j) by {
            if j < s.order.len() {
                assert(level_at(s, levels, i) <= level_at(s, levels, j));
            } else if i < s.order.len() {
                assert(level_at(s, levels, i) <= level_at(s, levels, s.order.len() - 1));
            }
        }
        assert(level_at(t, after, t.order.len() - 1) == after[next as int]);
        assert(level_at(t, after, t.expanded as int) == levels[node as int]);
        after
    }
}

/// Looking at the first `count` neighbours of the vertex that is being
/// expanded keeps the levels of the vertices found before, and puts those
/// neighbours at most one level below the vertex.
proof fn lemma_scan_leveled(
    g: GraphModel,
    root: usize,
    s: Search,
    levels: Seq<nat>,
    count: int,
) -> (after: Seq<nat>)
    requires
        g.wf(),
        root < g.vertex_count,
        sound(g, root, s),
        leveled(g, root, s, levels),
        s.expanded < s.order.len(),
        0 <= count <= g.edges[s.order[s.expanded as int] as int].len(),
    ensures
        ({
            let node = s.order[s.expanded as int];
            let t = s.scan(node, g.edges[node as int].take(count));
            &&& leveled(g, root, t, after)
            &&& forall|j: int|
                0 <= j < count ==> after[(#[trigger] g.edges[node as int][j]) as int]
                    <= after[node as int] + 1
            &&& forall|v: usize|
                v < g.vertex_count && #[trigger] s.parents[v as int] is Some ==> after[v as int]
                    == levels[v as int]
        }),
    decreases count,
{
    let node = s.order[s.expanded as int];
    let neighbors = g.edges[node as int];
    assert(s.order.contains(node));
    if count == 0 {
        assert(neighbors.take(0) =~= Seq::<usize>::empty());
        levels
    } else {
        let next = neighbors[count - 1];
        let before = s.scan(node, neighbors.take(count - 1));
        let mid = lemma_scan_leveled(g, root, s, levels, count - 1);
        lemma_scan(g, root, s, node, count - 1);
        assert(neighbors.take(count).drop_last() =~= neighbors.take(count - 1));
        assert(neighbors.take(count).last() == next);
        assert(g.has_arc(node, next));
        assert(before.order[before.expanded as int] == node);
        let after = lemma_discover_leveled(g, root, before, mid, next);
        assert(before.discover(node, next) == s.scan(node, neighbors.take(count)));
        assert forall|v: usize|
            v < g.vertex_count && #[trigger] s.parents[v as int] is Some implies after[v as int]
            == levels[v as int] by {
            assert(before.parents[v as int] == s.parents[v as int]);
        }
        assert forall|j: int| 0 <= j < count implies after[(#[trigger] neighbors[j]) as int]
            <= after[node as int] + 1 by {
            if j < count - 1 {
                assert(before.parents[neighbors[j] as int] is Some);
                assert(mid[neighbors[j] as int] <= mid[node as int] + 1);
            }
        }
        after
    }
}

/// Expanding the oldest vertex of the queue keeps the levels of the vertices
/// found before and keeps the search leveled and layered.
proof fn lemma_expand_leveled(g: GraphModel, root: usize, s: Search, levels: Seq<nat>) -> (after:
    Seq<nat>)
    requires
        g.wf(),
        root < g.vertex_count,
        sound(g, root, s),
        closed(g, s),
        leveled(g, root, s, levels),
        layered(g, s, levels),
        s.expanded < s.order.len(),
    ensures
        leveled(g, root, g.expand(s), after),
        layered(g, g.expand(s), after),
{
    let node = s.order[s.expanded as int];
    let neighbors = g.edges[node as int];
    assert(s.order.contains(node));
    let after = lemma_scan_leveled(g, root, s, levels, neighbors.len() as int);
    lemma_scan(g, root, s, node, neighbors.len() as int);
    assert(neighbors.take(neighbors.len() as int) =~= neighbors);
    let t = s.scan(node, neighbors);
    let e = g.expand(s);
    assert(leveled(g, root, e, after)) by {
        assert forall|i: int| 0 <= i < e.order.len() implies level_at(e, after, i) == level_at(
            t,
            after,
            i,
        ) by {}
        assert forall|i: int, j: int| 0 <= i <= j < e.order.len() implies #[trigger] level_at(
            e,
            after,
            i,
        ) <= #[trigger] level_at(e, after, j) by {
            assert(level_at(t, after, i) <= level_at(t, after, j));
        }
        if e.expanded < e.order.len() {
            assert(level_at(t, after, s.expanded as int) <= level_at(t, after, e.expanded as int));
            assert(level_at(t, after, t.order.len() - 1) <= level_at(t, after, t.expanded as int)
                + 1);
        }
    }
    assert forall|i: int| 0 <= i < e.expanded implies #[trigger] near(
        g,
        e,
        after,
        i,
        g.edges[e.order[i] as int].len() as int,
    ) by {
        assert(e.order[i] == s.order[i]);
        if i < s.expanded {
            let u = s.order[i];
            assert(s.order.contains(u));
            assert(near(g, s, levels, i, g.edges[u as int].len() as int));
            assert(scanned(g, s, i, g.edges[u as int].len() as int));
            assert forall|k: int| 0 <= k < g.edges[u as int].len() implies after[(
            #[trigger] g.edges[u as int][k]) as int] <= after[u as int] + 1 by {
                let w = g.edges[s.order[i] as int][k];
                assert(w < g.vertex_count);
                assert(s.parents[w as int] is Some);
                assert(s.parents[u as int] is Some);
                assert(levels[w as int] <= levels[u as int] + 1);
                assert(after[w as int] == levels[w as int]);
                assert(after[u as int] == levels[u as int]);
            }
        }
    }
    after
}

/// Running a leveled and layered search to its end keeps it so.
proof fn lemma_run_leveled(g: GraphModel, root: usize, s: Search, levels: Seq<nat>) -> (after:
    Seq<nat>)
    requires
        g.wf(),
        root < g.vertex_count,
        sound(g, root, s),
        closed(g, s),
        leveled(g, root, s, levels),
        layered(g, s, levels),
    ensures
        leveled(g, root, g.run(s), after),
        layered(g, g.run(s), after),
    decreases g.vertex_count - s.expanded,
{
    lemma_distinct_bounded(s.order, g.vertex_count);
    if s.expanded < s.order.len() {
        let next = lemma_expand_leveled(g, root, s, levels);
        lemma_expand(g, root, s);
        lemma_run_leveled(g, root, g.expand(s), next)
    } else {
        levels
    }
}

/// Once the queue is empty, the vertex that a walk from the root reaches
/// after `i` arcs is at level `i` or above it.
proof fn lemma_walk_levels(
    g: GraphModel,
    root: usize,
    s: Search,
    levels: Seq<nat>,
    path: Seq<usize>,
    i: int,
)
    requires
        g.wf(),
        sound(g, root, s),
        closed(g, s),
        leveled(g, root, s, levels),
        layered(g, s, levels),
        s.expanded == s.order.len(),
        g.is_path(path),
        path.first() == root,
        0 <= i < path.len(),
    ensures
        levels[path[i] as int] <= i,
    decreases i,
{
    if i == 0 {
        assert(climbs(s.parents, root, root, levels[root as int]));
    } else {
        lemma_walk_levels(g, root, s, levels, path, i - 1);
        lemma_walk_found(g, root, s, path, i - 1);
        let u = path[i - 1];
        let v = path[i];
        assert(g.has_arc(u, v));
        assert(s.order.contains(u));
        let at = choose|at: int| 0 <= at < s.order.len() && s.order[at] == u;
        assert(near(g, s, levels, at, g.edges[s.order[at] as int].len() as int));
        let k = choose|k: int| 0 <= k < g.edges[u as int].len() && g.edges[u as int][k] == v;
        assert(levels[g.edges[s.order[at] as int][k] as int] <= levels[u as int] + 1);
    }
}

/// A climb of `steps` steps from a found vertex to the root runs along a
/// walk of `steps` arcs from the root to the vertex.
proof fn lemma_climb_walk(g: GraphModel, root: usize, s: Search, v: usize, steps: nat) -> (path:
    Seq<usize>)
    requires
        root < g.vertex_count,
        sound(g, root, s),
        v < g.vertex_count,
        s.parents[v as int] is Some,
        climbs(s.parents, root, v, steps),
    ensures
        g.is_walk(path, root, v),
        path.len() == steps + 1,
    decreases steps,
{
    if steps == 0 {
        seq![root]
    } else {
        let u = s.parents[v as int]->0;
        assert(parent_ok(g, root, s, v));
        let shorter = lemma_climb_walk(g, root, s, u, (steps - 1) as nat);
        let path = shorter.push(v);
        assert forall|i: int| #![trigger path[i]] 0 <= i < path.len() - 1 implies g.has_arc(
            path[i],
            path[i + 1],
        ) by {
            if i < shorter.len() - 1 {
                assert(path[i] == shorter[i]);
                assert(path[i + 1] == shorter[i + 1]);
            }
        }
        path
    }
}

/// The parents that the search records form a tree of shortest walks: from
/// a found vertex the root is reached by climbing `arcs` steps, and `arcs`
/// is the least number of arcs of a walk from the root to the vertex.
pub proof fn lemma_bfs_shortest(g: GraphModel, root: usize, v: usize) -> (arcs: nat)
    requires
        g.wf(),
        root < g.vertex_count,
        v < g.vertex_count,
        g.bfs_parents(root)[v as int] is Some,
    ensures
        climbs(g.bfs_parents(root), root, v, arcs),
        g.distance_is(root, v, arcs),
        climbs_shortest(g, g.bfs_parents(root), root, v),
{
    let start = Search::start(g.vertex_count, root);
    let end = g.run(start);
    let zero = Seq::new(g.vertex_count, |v: int| 0nat);
    lemma_start_sound(g, root);
    assert(leveled(g, root, start, zero));
    assert(layered(g, start, zero));
    let levels = lemma_run_leveled(g, root, start, zero);
    lemma_run(g, root, start);
    let arcs = levels[v as int];
    let along = lemma_climb_walk(g, root, end, v, arcs);
    assert(g.is_walk(along, root, v) && along.len() == arcs + 1);
    assert forall|path: Seq<usize>| #[trigger] g.is_walk(path, root, v) implies path.len() >= arcs
        + 1 by {
        lemma_walk_levels(g, root, end, levels, path, path.len() - 1);
    }
    arcs
}

} // verus!
