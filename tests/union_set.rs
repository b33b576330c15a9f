use zipclust::union_set::UnionSet;

#[test]
fn new_gives_singletons() {
    let mut ds = UnionSet::new(4);
    for x in 0..4 {
        assert_eq!(ds.find(x), x);
    }
}

#[test]
fn join_connects_chains() {
    let mut ds = UnionSet::new(6);
    ds.join(0, 1);
    ds.join(2, 3);
    ds.join(1, 3);
    ds.join(4, 5);
    let r0 = ds.find(0);
    assert_eq!(ds.find(1), r0);
    assert_eq!(ds.find(2), r0);
    assert_eq!(ds.find(3), r0);
    assert_ne!(ds.find(4), r0);
    assert_eq!(ds.find(4), ds.find(5));
}

#[test]
fn join_tie_keeps_first_root() {
    let mut ds = UnionSet::new(3);
    ds.join(0, 1);
    assert_eq!(ds.find(1), 0);
    ds.join(2, 1);
    // the class of 1 is larger, so its root stays
    assert_eq!(ds.find(2), 0);
}

#[test]
fn rejoin_changes_nothing() {
    let mut ds = UnionSet::new(4);
    ds.join(0, 1);
    ds.join(2, 3);
    let before: Vec<usize> = (0..4).map(|x| ds.find(x)).collect();
    ds.join(1, 0);
    ds.join(0, 1);
    let after: Vec<usize> = (0..4).map(|x| ds.find(x)).collect();
    assert_eq!(before, after);
    assert_ne!(ds.find(0), ds.find(2));
}

#[test]
fn long_chain_compresses() {
    let n = 2000;
    let mut ds = UnionSet::new(n);
    for i in 1..n {
        ds.join(i, i - 1);
    }
    let r = ds.find(n - 1);
    for i in 0..n {
        assert_eq!(ds.find(i), r);
    }
}
