use barnes_hut::union_find::UnionFind;

#[test]
fn singletons_are_their_own_roots() {
    let mut uf = UnionFind::new(4);
    for i in 0..4 {
        assert_eq!(uf.find(i), i);
    }
}

#[test]
fn union_merges_exactly_two_sets() {
    let mut uf = UnionFind::new(6);
    uf.union(0, 1);
    uf.union(2, 3);
    assert_eq!(uf.find(0), uf.find(1));
    assert_eq!(uf.find(2), uf.find(3));
    assert_ne!(uf.find(0), uf.find(2));
    uf.union(1, 3);
    assert_eq!(uf.find(0), uf.find(2));
    assert_ne!(uf.find(0), uf.find(4));
    assert_ne!(uf.find(4), uf.find(5));
}

#[test]
fn union_is_idempotent_and_find_stable() {
    let mut uf = UnionFind::new(3);
    uf.union(2, 1);
    let r = uf.find(1);
    uf.union(1, 2);
    assert_eq!(uf.find(2), r);
    assert_eq!(uf.find(r), r);
}

#[test]
fn long_chain_compresses() {
    let n = 1000;
    let mut uf = UnionFind::new(n);
    for i in 1..n {
        uf.union(i - 1, i);
    }
    let r = uf.find(0);
    for i in 0..n {
        assert_eq!(uf.find(i), r);
    }
}
