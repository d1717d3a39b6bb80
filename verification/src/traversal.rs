//! Breadth-first traversal of an adjacency list.

use crate::graph::{AdjacencyList, GraphError};
use crate::levels::{climbs_shortest, lemma_bfs_shortest};
use crate::search::{
    consistent, lemma_bfs_parent_arc, lemma_bfs_reachable, lemma_bfs_root,
    lemma_consistent_bounds, lemma_consistent_expand, lemma_consistent_start, Search,
};
use std::collections::VecDeque;
use vstd::prelude::*;

verus! {

impl AdjacencyList {
    /// Searches the graph breadth first from `root` and returns, for each
    /// vertex, the vertex from which it was first reached, or `None` if it
    /// cannot be reached. The root is its own parent.
    ///
    /// Vertices leave the work queue in the order in which they were found,
    /// and the neighbours of a vertex are looked at in insertion order, so
    /// of several possible parents the one met first is recorded. Climbing
    /// from a vertex to the root along the parents follows a shortest walk.
    pub fn bfs(&self, root: usize) -> (parents: Vec<Option<usize>>)
        requires
            self@.wf(),
            root < self@.vertex_count,
        ensures
            parents@ == self@.bfs_parents(root),
            parents@.len() == self@.vertex_count,
            parents@[root as int] == Some(root),
            forall|v: usize|
                v < self@.vertex_count ==> (#[trigger] parents@[v as int] is Some
                    <==> self@.reachable(root, v)),
            forall|v: usize|
                v < self@.vertex_count && v != root && #[trigger] parents@[v as int] is Some ==> {
                    let u = parents@[v as int]->0;
                    self@.has_arc(u, v) && parents@[u as int] is Some
                },
            forall|v: usize|
                v < self@.vertex_count && #[trigger] parents@[v as int] is Some
                    ==> climbs_shortest(self@, parents@, root, v),
    {
        let vertex_count = self.vertex_count();
        let mut parents: Vec<Option<usize>> = vec![None; vertex_count];
        parents[root] = Some(root);

        let mut queue: VecDeque<usize> = VecDeque::new();
        queue.push_back(root);

        let ghost start = Search::start(vertex_count as nat, root);
        let ghost mut search = start;
        proof {
            assert(parents@ =~= start.parents);
            assert(queue@ =~= start.pending());
            lemma_consistent_start(self@, root);
        }
        loop
            invariant
                self@.wf(),
                root < self@.vertex_count,
                vertex_count == self@.vertex_count,
                consistent(self@, root, search),
                parents@ == search.parents,
                queue@ == search.pending(),
                self@.run(search) == self@.run(start),
            ensures
                parents@ == self@.run(start).parents,
            decreases vertex_count - search.expanded,
        {
            proof {
                lemma_consistent_bounds(self@, root, search);
            }
            let node = match queue.pop_front() {
                Some(node) => node,
                None => {
                    break ;
                },
            };
            let neighbors = self.neighbors(node);
            let ghost mut scanned = search;
            proof {
                assert(neighbors@.take(0) =~= Seq::<usize>::empty());
                assert(queue@ =~= scanned.order.subrange(
                    search.expanded as int + 1,
                    scanned.order.len() as int,
                ));
            }
            for i in 0..neighbors.len()
                invariant
                    self@.wf(),
                    vertex_count == self@.vertex_count,
                    node < vertex_count,
                    neighbors@ == self@.edges[node as int],
                    scanned == search.scan(node, neighbors@.take(i as int)),
                    search.expanded < search.order.len() <= scanned.order.len(),
                    parents@ == scanned.parents,
                    parents@.len() == vertex_count,
                    queue@ == scanned.order.subrange(
                        search.expanded as int + 1,
                        scanned.order.len() as int,
                    ),
            {
                let next = neighbors[i];
                proof {
                    assert(neighbors@.take(i + 1).drop_last() =~= neighbors@.take(i as int));
                    assert(neighbors@.take(i + 1).last() == next);
                }
                if parents[next].is_none() {
                    parents[next] = Some(node);
                    queue.push_back(next);
                }
                proof {
                    scanned = scanned.discover(node, next);
                    assert(queue@ =~= scanned.order.subrange(
                        search.expanded as int + 1,
                        scanned.order.len() as int,
                    ));
                }
            }
            proof {
                assert(neighbors@.take(neighbors@.len() as int) =~= neighbors@);
                lemma_consistent_expand(self@, root, search);
                search = self@.expand(search);
                assert(queue@ =~= search.pending());
            }
        }
        proof {
            lemma_bfs_root(self@, root);
            lemma_bfs_reachable(self@, root);
            lemma_bfs_parent_arc(self@, root);
            assert forall|v: usize|
                v < self@.vertex_count && #[trigger] parents@[v as int] is Some implies climbs_shortest(
                self@,
                parents@,
                root,
                v,
            ) by {
                lemma_bfs_shortest(self@, root, v);
            }
        }
        parents
    }

    /// Searches the graph breadth first from `root`, as `bfs` does, if `root`
    /// is a vertex of the graph, and refuses the search otherwise.
    pub fn try_bfs(&self, root: usize) -> (result: Result<Vec<Option<usize>>, GraphError>)
        requires
            self@.wf(),
        ensures
            match result {
                Ok(parents) => root < self@.vertex_count && parents@ == self@.bfs_parents(root),
                Err(error) => Err::<(), GraphError>(error) == self@.check_vertex(root),
            },
    {
        if root >= self.vertex_count() {
            return Err(
                GraphError::IndexOutOfRange { index: root, vertex_count: self.vertex_count() },
            );
        }
        Ok(self.bfs(root))
    }
}

} // verus!
