use earp::toposort::TopoSort;

#[test]
fn topo_smoke() {
    let nodes = [2u64, 3, 5, 7, 8, 9, 10, 11];
    let from = [5u64, 7, 7, 3, 3, 11, 11, 11, 8];
    let to = [11u64, 11, 8, 8, 10, 2, 9, 10, 9];

    let mut topo = TopoSort::new();
    for node in nodes.iter() {
        topo.node(*node, None);
    }
    for (src, dst) in from.iter().zip(to.iter()) {
        assert!(topo.arc(src, dst));
    }
    topo.sort();
    assert_eq!(Some(vec![3, 5, 7, 8, 11, 10, 9, 2]), topo.order_clone());
    assert!(topo.arc(&7, &3));
    assert_eq!(Some(vec![7, 3, 5, 8, 11, 10, 9, 2]), topo.order_clone());
    assert!(topo.arc(&2, &3));
    assert_eq!(Some(vec![7, 5, 11, 2, 3, 8, 10, 9]), topo.order_clone());
    assert!(!topo.arc(&8, &2));
    assert_eq!(Some(vec![7, 5, 11, 2, 3, 8, 10, 9]), topo.order_clone());
    assert!(topo.arc(&7, &5));
    assert_eq!(Some(vec![7, 5, 11, 2, 3, 8, 10, 9]), topo.order_clone());
    assert!(topo.arc(&9, &10));
    assert_eq!(Some(vec![7, 5, 11, 2, 3, 8, 9, 10]), topo.order_clone());
}

#[test]
fn topo_credit() {
    let mut topo = TopoSort::new();
    for i in 0..20u64 {
        topo.node(i, None);
    }
    for i in 0..19u64 {
        topo.arc(&i, &(i + 1));
    }
    topo.sort();
    assert_eq!(0, topo.distance(&16, &18).unwrap());
    assert_eq!(2, topo.distance(&4, &2).unwrap());
}

#[test]
fn topo_cycle_fails_to_sort() {
    let mut topo = TopoSort::new();
    for i in 0..3u64 {
        topo.node(i, None);
    }
    assert!(topo.arc(&0, &1));
    assert!(topo.arc(&1, &2));
    assert!(topo.arc(&2, &0));
    assert!(!topo.sort());
    assert_eq!(None, topo.order());
}

#[test]
fn topo_unknown_and_self_arcs() {
    let mut topo = TopoSort::new();
    topo.node(1, None);
    topo.node(2, None);
    assert!(topo.arc(&1, &99));
    assert!(!topo.arc(&1, &1));
    assert!(topo.sort());
    assert_eq!(Some(vec![1, 2]), topo.order());
    assert_eq!(None, topo.distance(&1, &99));
}

#[test]
fn topo_node_after() {
    let mut topo = TopoSort::new();
    topo.node(10, None);
    topo.node(20, None);
    assert!(topo.sort());
    topo.node(15, Some(&10));
    assert_eq!(Some(vec![10, 15, 20]), topo.order());
    topo.node(30, Some(&99));
    assert_eq!(Some(vec![10, 15, 20, 30]), topo.order());
    topo.node(15, None);
    assert_eq!(Some(vec![10, 15, 20, 30]), topo.order());
}

#[test]
fn topo_reorder_moves_reaching_nodes() {
    let mut topo = TopoSort::new();
    for i in 0..4u64 {
        topo.node(i, None);
    }
    assert!(topo.arc(&1, &3));
    assert!(topo.sort());
    assert_eq!(Some(vec![0, 1, 3, 2]), topo.order());
    // 3 -> 0: nodes 0..3 that reach 3 (1 and 3) move in front of the others
    assert!(topo.arc(&3, &0));
    assert_eq!(Some(vec![1, 3, 0, 2]), topo.order());
    // 0 -> 1 would close the cycle 1 -> 3 -> 0 -> 1
    assert!(!topo.arc(&0, &1));
    assert_eq!(Some(vec![1, 3, 0, 2]), topo.order());
}

#[test]
fn test_reorder() {
    let mut topo = TopoSort::new();
    for i in 0..5u64 {
        topo.node(i, None);
    }
    assert!(topo.arc(&2, &4));
    assert!(topo.sort());
    assert_eq!(Some(vec![0, 1, 2, 4, 3]), topo.order());
    // node 1 already stands before node 3
    assert!(topo.reorder(1, 3));
    assert_eq!(Some(vec![0, 1, 2, 4, 3]), topo.order());
    // nodes 1..=4 that reach node 4 (2 and 4) move in front of 1 and 3
    assert!(topo.reorder(4, 1));
    assert_eq!(Some(vec![0, 2, 4, 1, 3]), topo.order());
    // node 2 reaches node 4: the arc 4 -> 2 is refused
    assert!(!topo.reorder(4, 2));
    assert_eq!(Some(vec![0, 2, 4, 1, 3]), topo.order());
}

#[test]
fn topo_repeated_arc() {
    let mut topo = TopoSort::new();
    for i in 0..3u64 {
        topo.node(i, None);
    }
    assert!(topo.arc(&0, &1));
    // the same arc again is accepted and changes nothing
    assert!(topo.arc(&0, &1));
    assert!(topo.sort());
    assert_eq!(Some(vec![0, 1, 2]), topo.order());
    assert!(topo.arc(&0, &1));
    assert_eq!(Some(vec![0, 1, 2]), topo.order());
    // the reverse arc would close a cycle
    assert!(!topo.arc(&1, &0));
}
