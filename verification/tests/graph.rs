use graph_traversal::{
    random_sparse_graph, sparse_graph_from, AdjacencyList, Graph, GraphError,
};

#[test]
fn test_init_graph() {
    let mut g = AdjacencyList::new(true, 100);
    g.add_edge(1, 2);
    g.add_edge(2, 3);
    assert_eq!(2, g.edge_count());

    let mut g = AdjacencyList::new(false, 100);
    g.add_edge(1, 2);
    g.add_edge(2, 3);
    assert_eq!(4, g.edge_count());
}

#[test]
fn test_bfs() {
    let mut g = AdjacencyList::new(false, 7);
    g.add_edge(0, 1);
    g.add_edge(1, 2);
    g.add_edge(2, 3);
    g.add_edge(1, 6);
    g.add_edge(3, 4);
    g.add_edge(4, 5);
    g.add_edge(2, 5);
    g.add_edge(5, 1);

    assert_eq!(
        vec![Some(1), Some(1), Some(1), Some(2), Some(5), Some(1), Some(1)],
        g.bfs(1)
    );
}

fn sample_edges() -> Vec<(usize, usize)> {
    vec![(0, 1), (1, 2), (2, 3), (1, 6), (3, 4), (4, 5), (2, 5), (5, 1), (3, 3), (0, 1)]
}

fn degree_sum(g: &AdjacencyList) -> usize {
    (0..g.vertex_count()).map(|v| g.degree(v)).sum()
}

#[test]
fn new_graph_is_empty() {
    for directed in [true, false] {
        let g = AdjacencyList::new(directed, 5);
        assert_eq!(g.is_directed(), directed);
        assert_eq!(g.vertex_count(), 5);
        assert_eq!(g.edge_count(), 0);
        for v in 0..5 {
            assert_eq!(g.degree(v), 0);
            assert!(g.neighbors(v).is_empty());
        }
    }
}

#[test]
fn new_graph_without_vertices() {
    let g = AdjacencyList::new(false, 0);
    assert_eq!(g.vertex_count(), 0);
    assert_eq!(g.edge_count(), 0);
}

#[test]
fn directed_edge_count_is_the_number_of_insertions() {
    let mut g = AdjacencyList::new(true, 7);
    for (k, (u, v)) in sample_edges().into_iter().enumerate() {
        g.add_edge(u, v);
        assert_eq!(g.edge_count(), k + 1);
        assert_eq!(degree_sum(&g), g.edge_count());
    }
}

#[test]
fn directed_edge_is_stored_one_way() {
    let mut g = AdjacencyList::new(true, 4);
    g.add_edge(2, 3);
    assert_eq!(g.neighbors(2), &vec![3]);
    assert!(g.neighbors(3).is_empty());
    assert_eq!(g.degree(2), 1);
    assert_eq!(g.degree(3), 0);
}

#[test]
fn undirected_edge_count_is_twice_the_number_of_insertions() {
    let mut g = AdjacencyList::new(false, 7);
    let edges = sample_edges();
    for (k, (u, v)) in edges.iter().enumerate() {
        g.add_edge(*u, *v);
        assert_eq!(g.edge_count(), 2 * (k + 1));
        assert_eq!(degree_sum(&g), g.edge_count());
    }
    for (u, v) in edges {
        assert!(g.neighbors(u).contains(&v));
        assert!(g.neighbors(v).contains(&u));
    }
}

#[test]
fn neighbours_keep_insertion_order_and_duplicates() {
    let mut g = AdjacencyList::new(false, 4);
    g.add_edge(0, 3);
    g.add_edge(0, 1);
    g.add_edge(0, 3);
    g.add_edge(2, 0);
    assert_eq!(g.neighbors(0), &vec![3, 1, 3, 2]);
    assert_eq!(g.neighbors(3), &vec![0, 0]);
    assert_eq!(g.degree(0), 4);
}

#[test]
fn undirected_self_loop_is_stored_twice() {
    let mut g = AdjacencyList::new(false, 3);
    g.add_edge(1, 1);
    assert_eq!(g.neighbors(1), &vec![1, 1]);
    assert_eq!(g.degree(1), 2);
    assert_eq!(g.edge_count(), 2);
}

#[test]
fn try_add_edge_accepts_vertices_of_the_graph() {
    let mut g = AdjacencyList::new(false, 3);
    assert_eq!(g.try_add_edge(0, 2), Ok(()));
    assert_eq!(g.edge_count(), 2);
    assert_eq!(g.neighbors(0), &vec![2]);
    assert_eq!(g.neighbors(2), &vec![0]);
}

#[test]
fn try_add_edge_refuses_an_index_out_of_range() {
    let mut g = AdjacencyList::new(false, 3);
    g.add_edge(0, 1);
    assert_eq!(
        g.try_add_edge(3, 1),
        Err(GraphError::IndexOutOfRange { index: 3, vertex_count: 3 })
    );
    assert_eq!(
        g.try_add_edge(1, 7),
        Err(GraphError::IndexOutOfRange { index: 7, vertex_count: 3 })
    );
    assert_eq!(
        g.try_add_edge(9, 8),
        Err(GraphError::IndexOutOfRange { index: 9, vertex_count: 3 })
    );
    assert_eq!(g.edge_count(), 2);
    assert_eq!(g.neighbors(1), &vec![0]);
}

#[test]
fn bfs_root_is_its_own_parent() {
    let mut g = AdjacencyList::new(false, 7);
    for (u, v) in sample_edges() {
        g.add_edge(u, v);
    }
    for root in 0..7 {
        assert_eq!(g.bfs(root)[root], Some(root));
        assert_eq!(g.bfs(root).len(), 7);
    }
}

#[test]
fn bfs_of_a_single_vertex() {
    let g = AdjacencyList::new(false, 1);
    assert_eq!(g.bfs(0), vec![Some(0)]);
}

#[test]
fn bfs_leaves_unreachable_vertices_unvisited() {
    let mut g = AdjacencyList::new(false, 6);
    g.add_edge(0, 1);
    g.add_edge(1, 2);
    g.add_edge(3, 4);
    assert_eq!(g.bfs(0), vec![Some(0), Some(0), Some(1), None, None, None]);
    assert_eq!(g.bfs(4), vec![None, None, None, Some(4), Some(4), None]);
    assert_eq!(g.bfs(5), vec![None, None, None, None, None, Some(5)]);
}

#[test]
fn bfs_follows_arcs_forwards_only() {
    let mut g = AdjacencyList::new(true, 4);
    g.add_edge(0, 1);
    g.add_edge(1, 2);
    g.add_edge(3, 2);
    assert_eq!(g.bfs(0), vec![Some(0), Some(0), Some(1), None]);
    assert_eq!(g.bfs(2), vec![None, None, Some(2), None]);
    assert_eq!(g.bfs(3), vec![None, None, Some(3), Some(3)]);
}

#[test]
fn bfs_records_the_parent_met_first() {
    // 3 can be reached from 1 and from 2, both one step from the root. The
    // root's neighbours are expanded in insertion order.
    let mut first = AdjacencyList::new(true, 4);
    first.add_edge(0, 1);
    first.add_edge(0, 2);
    first.add_edge(1, 3);
    first.add_edge(2, 3);
    assert_eq!(first.bfs(0), vec![Some(0), Some(0), Some(0), Some(1)]);

    let mut second = AdjacencyList::new(true, 4);
    second.add_edge(0, 2);
    second.add_edge(0, 1);
    second.add_edge(1, 3);
    second.add_edge(2, 3);
    assert_eq!(second.bfs(0), vec![Some(0), Some(0), Some(0), Some(2)]);
}

#[test]
fn bfs_prefers_the_shorter_way() {
    let mut g = AdjacencyList::new(true, 5);
    g.add_edge(0, 1);
    g.add_edge(1, 2);
    g.add_edge(2, 3);
    g.add_edge(3, 4);
    g.add_edge(0, 3);
    assert_eq!(g.bfs(0), vec![Some(0), Some(0), Some(1), Some(0), Some(3)]);
}

#[test]
fn bfs_ignores_self_loops_and_parallel_edges() {
    let mut g = AdjacencyList::new(false, 3);
    g.add_edge(0, 0);
    g.add_edge(0, 1);
    g.add_edge(0, 1);
    g.add_edge(1, 2);
    g.add_edge(2, 1);
    assert_eq!(g.bfs(0), vec![Some(0), Some(0), Some(1)]);
    assert_eq!(g.bfs(2), vec![Some(1), Some(2), Some(2)]);
}

#[test]
fn bfs_twice_gives_the_same_parents() {
    let mut g = AdjacencyList::new(false, 7);
    for (u, v) in sample_edges() {
        g.add_edge(u, v);
    }
    for root in 0..7 {
        assert_eq!(g.bfs(root), g.bfs(root));
    }
}

#[test]
fn bfs_does_not_change_the_graph() {
    let mut g = AdjacencyList::new(false, 4);
    g.add_edge(0, 1);
    g.add_edge(1, 2);
    let _ = g.bfs(0);
    assert_eq!(g.edge_count(), 4);
    assert_eq!(g.neighbors(1), &vec![0, 2]);
}

#[test]
fn try_bfs_agrees_with_bfs() {
    let mut g = AdjacencyList::new(false, 7);
    for (u, v) in sample_edges() {
        g.add_edge(u, v);
    }
    assert_eq!(
        g.try_bfs(1),
        Ok(vec![Some(1), Some(1), Some(1), Some(2), Some(5), Some(1), Some(1)])
    );
}

#[test]
fn try_bfs_refuses_a_root_out_of_range() {
    let g = AdjacencyList::new(false, 7);
    assert_eq!(
        g.try_bfs(7),
        Err(GraphError::IndexOutOfRange { index: 7, vertex_count: 7 })
    );
    let none = AdjacencyList::new(true, 0);
    assert_eq!(
        none.try_bfs(0),
        Err(GraphError::IndexOutOfRange { index: 0, vertex_count: 0 })
    );
}

#[test]
fn random_sparse_graph_has_the_size_asked_for() {
    let g = random_sparse_graph(10, 250);
    assert!(!g.is_directed());
    assert_eq!(g.vertex_count(), 10);
    assert_eq!(g.edge_count(), 500);
    assert_eq!(degree_sum(&g), 500);
    for v in 0..10 {
        assert_eq!(g.neighbors(v).len(), g.degree(v));
        for n in g.neighbors(v) {
            assert!(*n < 10);
            assert!(g.neighbors(*n).contains(&v));
        }
    }
}

#[test]
fn random_sparse_graph_on_one_vertex_has_only_self_loops() {
    let g = random_sparse_graph(1, 3);
    assert_eq!(g.neighbors(0), &vec![0, 0, 0, 0, 0, 0]);
}

#[test]
fn random_sparse_graph_without_edges() {
    let g = random_sparse_graph(4, 0);
    assert_eq!(g.edge_count(), 0);
    let none = random_sparse_graph(0, 0);
    assert_eq!(none.vertex_count(), 0);
}

#[test]
fn random_sparse_graph_reaches_more_than_one_vertex() {
    let g = random_sparse_graph(50, 400);
    assert!((0..50).filter(|v| g.degree(*v) > 0).count() > 1);
}

#[test]
fn bfs_on_a_random_graph_finds_what_is_connected() {
    let g = random_sparse_graph(30, 20);
    let parents = g.bfs(0);
    assert_eq!(parents[0], Some(0));
    for v in 0..30 {
        if let Some(u) = parents[v] {
            assert!(v == 0 || g.neighbors(u).contains(&v));
            for n in g.neighbors(v) {
                assert!(parents[*n].is_some());
            }
        }
    }
}

#[test]
fn sparse_graph_from_adds_the_edges_in_order() {
    let g = sparse_graph_from(4, &vec![(0, 3), (0, 1), (3, 3), (2, 0)]);
    assert!(!g.is_directed());
    assert_eq!(g.vertex_count(), 4);
    assert_eq!(g.edge_count(), 8);
    assert_eq!(g.neighbors(0), &vec![3, 1, 2]);
    assert_eq!(g.neighbors(1), &vec![0]);
    assert_eq!(g.neighbors(2), &vec![0]);
    assert_eq!(g.neighbors(3), &vec![0, 3, 3]);
}

#[test]
fn sparse_graph_from_agrees_with_add_edge() {
    let edges = sample_edges();
    let built = sparse_graph_from(7, &edges);
    let mut grown = AdjacencyList::new(false, 7);
    for (u, v) in edges {
        grown.add_edge(u, v);
    }
    assert_eq!(built.edge_count(), grown.edge_count());
    for v in 0..7 {
        assert_eq!(built.neighbors(v), grown.neighbors(v));
        assert_eq!(built.degree(v), grown.degree(v));
    }
    assert_eq!(
        built.bfs(1),
        vec![Some(1), Some(1), Some(1), Some(2), Some(5), Some(1), Some(1)]
    );
}

#[test]
fn sparse_graph_from_no_endpoints() {
    let g = sparse_graph_from(3, &vec![]);
    assert_eq!(g.edge_count(), 0);
    assert_eq!(g.bfs(2), vec![None, None, Some(2)]);
}

#[test]
fn bfs_parents_climb_along_shortest_walks() {
    // A ring of six vertices with a chord from 0 to 3.
    let g = sparse_graph_from(6, &vec![(0, 1), (1, 2), (2, 3), (3, 4), (4, 5), (5, 0), (0, 3)]);
    let parents = g.bfs(0);
    // The neighbours of 0 are 1, 5 and 3 in this order, so 4 is first met
    // from 5.
    assert_eq!(parents, vec![Some(0), Some(0), Some(1), Some(0), Some(5), Some(0)]);
    let depth = |mut v: usize| {
        let mut steps = 0;
        while parents[v] != Some(v) {
            v = parents[v].unwrap();
            steps += 1;
        }
        steps
    };
    assert_eq!((0..6).map(depth).collect::<Vec<usize>>(), vec![0, 1, 2, 1, 2, 1]);
}
