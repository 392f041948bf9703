use hibitgraph::BitGraph;

#[test]
fn with_capacity() {
    let capacity: usize = 100;
    let c = BitGraph::with_capacity(capacity as u32).unwrap();

    for i in 0..capacity {
        assert_eq!(c.degree(i as u32), 0);
    }
    assert_eq!(c.order(), 0);
}

#[test]
fn complete() {
    let capacity: usize = 100;
    let c = BitGraph::complete(capacity as u32).unwrap();

    assert_eq!(c.order(), capacity as u32);
    for i in 0..capacity {
        assert_eq!(c.degree(i as u32), capacity as u32 - 1);
    }
}

#[test]
fn dfs() {
    let capacity: usize = 10;
    let c = BitGraph::complete(capacity as u32).unwrap();

    let mut bit_set = bit_set::BitSet::with_capacity(capacity);
    let mut it = c.dfs(0);
    while let Some(i) = it.next() {
        assert_eq!(bit_set.insert(i as usize), true);
    }
    for i in 0..capacity {
        assert_eq!(bit_set.contains(i), true);
    }
}

#[test]
fn add_edge() {
    let capacity: usize = 10;
    let mut c = BitGraph::with_capacity(capacity as u32).unwrap();
    let u = 2;
    let v = 6;
    c.add_edge(u, v).unwrap();
    assert_eq!(c.degree(u), 1);
    assert_eq!(c.degree(v), 1);
    assert_eq!(c.order(), 2);
    assert_eq!(c.neighbors(u).contains(&v), true);
    assert_eq!(c.neighbors(v).contains(&u), true);
}

#[test]
fn remove_edge() {
    let capacity: usize = 10;
    let mut c = BitGraph::with_capacity(capacity as u32).unwrap();
    let u = 0;
    let v = 1;
    c.add_edge(u, v).unwrap();

    c.remove_edge(u, v).unwrap();
    assert_eq!(c.degree(u), 0);
    assert_eq!(c.degree(v), 0);
    assert_eq!(c.order(), 0);
    assert_eq!(c.neighbors(u).contains(&v), false);
    assert_eq!(c.neighbors(v).contains(&u), false);
}

#[test]
fn contract_edge() {
    let capacity: usize = 10;
    let mut c = BitGraph::with_capacity(capacity as u32).unwrap();

    let u = 0;
    let v = 3;

    for i in 0..3 {
        c.add_edge(u, i + 1).unwrap();
    }
    for i in 3..5 {
        c.add_edge(v, i + 1).unwrap();
    }
    assert_eq!(c.degree(u), 3);
    assert_eq!(c.degree(v), 3);
    assert_eq!(c.order(), 6);

    c.contract_edge(u, v).unwrap();

    assert_eq!(c.degree(v), 0);
    assert_eq!(c.degree(u), 4);
    assert_eq!(c.order(), 5);

    let tmp: Vec<u32> = c.neighbors(u);
    assert!(tmp.iter().zip([1, 2, 4, 5].iter()).all(|(a, b)| a == b));
    let tmp: Vec<u32> = c.neighbors(v);
    assert_eq!(tmp.len(), 0);
    for i in [1u32, 2, 4, 5].iter() {
        let tmp: Vec<u32> = c.neighbors(*i);
        assert_eq!(tmp.len(), 1);
        assert!(tmp.iter().zip([0u32].iter()).all(|(a, b)| a == b));
    }
}
