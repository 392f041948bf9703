use hibitgraph::BitGraph;
use hibitgraph::GraphError;
use hibitgraph::MAX_CAPACITY;

#[test]
fn capacity_limit() {
    assert!(BitGraph::with_capacity(MAX_CAPACITY).is_ok());
    assert_eq!(
        BitGraph::with_capacity(MAX_CAPACITY + 1).unwrap_err(),
        GraphError::CapacityExceeded
    );
    assert!(BitGraph::complete(MAX_CAPACITY + 1).is_err());
}

#[test]
fn add_edge_errors() {
    let mut c = BitGraph::with_capacity(10).unwrap();
    assert_eq!(c.add_edge(0, 10).unwrap_err(), GraphError::OutOfBounds);
    assert_eq!(c.add_edge(11, 3).unwrap_err(), GraphError::OutOfBounds);
    assert_eq!(c.add_edge(4, 4).unwrap_err(), GraphError::SelfLoop);
    assert_eq!(c.order(), 0);
}

#[test]
fn remove_edge_errors() {
    let mut c = BitGraph::with_capacity(10).unwrap();
    c.add_edge(1, 2).unwrap();
    assert_eq!(c.remove_edge(1, 12).unwrap_err(), GraphError::OutOfBounds);
    assert_eq!(c.remove_edge(2, 2).unwrap_err(), GraphError::SelfLoop);
    assert_eq!(c.degree(1), 1);
}

#[test]
fn contract_edge_errors() {
    let mut c = BitGraph::with_capacity(10).unwrap();
    c.add_edge(0, 1).unwrap();
    assert_eq!(c.contract_edge(0, 10).unwrap_err(), GraphError::OutOfBounds);
    assert_eq!(c.contract_edge(3, 3).unwrap_err(), GraphError::SelfLoop);
    assert_eq!(c.contract_edge(0, 2).unwrap_err(), GraphError::NonexistentEdge);
    assert_eq!(c.degree(0), 1);
    assert_eq!(c.order(), 2);
}

#[test]
fn add_edge_idempotent() {
    let mut c = BitGraph::with_capacity(10).unwrap();
    c.add_edge(2, 6).unwrap();
    c.add_edge(2, 6).unwrap();
    assert_eq!(c.degree(2), 1);
    assert_eq!(c.degree(6), 1);
    assert_eq!(c.order(), 2);
    c.add_edge(6, 2).unwrap();
    assert_eq!(c.degree(2), 1);
}

#[test]
fn remove_absent_edge_is_noop() {
    let mut c = BitGraph::with_capacity(10).unwrap();
    c.add_edge(0, 1).unwrap();
    c.remove_edge(0, 2).unwrap();
    c.remove_edge(5, 6).unwrap();
    assert_eq!(c.degree(0), 1);
    assert_eq!(c.degree(1), 1);
    assert_eq!(c.degree(5), 0);
    assert_eq!(c.order(), 2);
}

#[test]
fn symmetry_after_operations() {
    let mut c = BitGraph::with_capacity(8).unwrap();
    c.add_edge(0, 3).unwrap();
    c.add_edge(3, 5).unwrap();
    c.add_edge(5, 0).unwrap();
    c.remove_edge(3, 0).unwrap();
    for u in 0..8u32 {
        for v in 0..8u32 {
            assert_eq!(c.neighbors(u).contains(&v), c.neighbors(v).contains(&u));
        }
    }
}

#[test]
fn degree_matches_neighbor_count() {
    let mut c = BitGraph::with_capacity(8).unwrap();
    c.add_edge(0, 3).unwrap();
    c.add_edge(0, 5).unwrap();
    c.add_edge(3, 5).unwrap();
    for v in 0..8u32 {
        assert_eq!(c.degree(v) as usize, c.neighbors(v).len());
    }
}

#[test]
fn order_counts_active_vertices() {
    let mut c = BitGraph::with_capacity(8).unwrap();
    c.add_edge(0, 3).unwrap();
    c.add_edge(0, 5).unwrap();
    let active = (0..8u32).filter(|&v| c.degree(v) > 0).count();
    assert_eq!(c.order() as usize, active);
    c.remove_edge(0, 3).unwrap();
    let active = (0..8u32).filter(|&v| c.degree(v) > 0).count();
    assert_eq!(c.order() as usize, active);
}

#[test]
fn neighbors_sorted_ascending() {
    let mut c = BitGraph::with_capacity(16).unwrap();
    c.add_edge(7, 12).unwrap();
    c.add_edge(7, 3).unwrap();
    c.add_edge(7, 9).unwrap();
    c.add_edge(7, 0).unwrap();
    assert_eq!(c.neighbors(7), vec![0, 3, 9, 12]);
}

#[test]
fn unchecked_variants() {
    let mut c = BitGraph::with_capacity(10).unwrap();
    c.add_edge_unchecked(1, 4);
    assert_eq!(c.degree(1), 1);
    assert_eq!(c.degree(4), 1);
    assert_eq!(c.order(), 2);
    c.remove_edge_unchecked(4, 1);
    assert_eq!(c.degree(1), 0);
    assert_eq!(c.order(), 0);

    c.add_edge_unchecked(0, 1);
    c.add_edge_unchecked(1, 2);
    c.contract_edge_unchecked(0, 1);
    assert_eq!(c.degree(1), 0);
    assert_eq!(c.degree(0), 1);
    assert_eq!(c.neighbors(0), vec![2]);
    assert_eq!(c.neighbors(2), vec![0]);
    assert_eq!(c.order(), 2);
}

#[test]
fn contract_single_edge_isolates_both() {
    let mut c = BitGraph::with_capacity(4).unwrap();
    c.add_edge(0, 1).unwrap();
    c.contract_edge(0, 1).unwrap();
    assert_eq!(c.degree(0), 0);
    assert_eq!(c.degree(1), 0);
    let active = (0..4u32).filter(|&v| c.degree(v) > 0).count();
    assert_eq!(c.order() as usize, active);
}

#[test]
fn dfs_from_any_start_on_complete_graph() {
    let c = BitGraph::complete(10).unwrap();
    for start in 0..10u32 {
        let mut seen = vec![false; 10];
        let mut count = 0;
        let mut it = c.dfs(start);
        while let Some(v) = it.next() {
            assert!(!seen[v as usize]);
            seen[v as usize] = true;
            count += 1;
        }
        assert_eq!(count, 10);
    }
}

#[test]
fn dfs_yields_start_first() {
    let mut c = BitGraph::with_capacity(6).unwrap();
    c.add_edge(2, 4).unwrap();
    c.add_edge(4, 5).unwrap();
    let mut it = c.dfs(4);
    assert_eq!(it.next(), Some(4));
}

#[test]
fn dfs_stays_in_component() {
    let mut c = BitGraph::with_capacity(6).unwrap();
    c.add_edge(0, 1).unwrap();
    c.add_edge(1, 2).unwrap();
    c.add_edge(3, 4).unwrap();
    let mut reached = Vec::new();
    let mut it = c.dfs(0);
    while let Some(v) = it.next() {
        reached.push(v);
    }
    reached.sort();
    assert_eq!(reached, vec![0, 1, 2]);
}
