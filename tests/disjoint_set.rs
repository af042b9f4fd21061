use maze_lib::disjoint_set::DisjointSet;

#[test]
fn singletons_are_their_own_roots() {
    let mut ds = DisjointSet::new(5);
    for i in 0..5 {
        assert_eq!(ds.find(i), i);
    }
}

#[test]
fn union_joins_transitively() {
    let mut ds = DisjointSet::new(6);
    ds.union(0, 1);
    ds.union(2, 3);
    assert_eq!(ds.find(0), ds.find(1));
    assert_ne!(ds.find(1), ds.find(2));
    ds.union(1, 3);
    assert_eq!(ds.find(0), ds.find(2));
    assert_eq!(ds.find(0), ds.find(3));
    assert_ne!(ds.find(0), ds.find(4));
    assert_ne!(ds.find(4), ds.find(5));
    // repeated finds agree
    let r = ds.find(2);
    assert_eq!(ds.find(2), r);
    assert_eq!(ds.find(0), r);
    // a union within one set changes nothing
    ds.union(0, 3);
    assert_eq!(ds.find(3), r);
    assert_ne!(ds.find(5), r);
}

#[test]
fn union_by_rank_keeps_the_higher_root() {
    let mut ds = DisjointSet::new(4);
    ds.union(0, 1);
    let root01 = ds.find(0);
    assert_eq!(root01, 0);
    ds.union(2, 0);
    assert_eq!(ds.find(2), 0);
    ds.union(3, 2);
    assert_eq!(ds.find(3), 0);
}
