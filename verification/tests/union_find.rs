use algograph::union_find::UnionFind;

#[test]
fn union_find_test() {
    let mut uf = UnionFind::new(5);
    uf.unite(0, 1);
    uf.unite(1, 2);
    uf.unite(3, 4);

    assert_eq!(uf.find(0), uf.find(1));
    assert_eq!(uf.find(1), uf.find(2));
    assert_eq!(uf.find(3), uf.find(4));
    assert_ne!(uf.find(0), uf.find(4));
    assert_eq!(uf.is_same(1, 0), true);
    assert_eq!(uf.is_same(4, 1), false);

    assert_eq!(uf.sizes, vec![3, 0, 0, 2, 0]);
    assert_eq!(uf.total, 2);
}

#[test]
fn find_is_idempotent() {
    let mut uf = UnionFind::new(6);
    uf.unite(0, 1);
    uf.unite(1, 2);
    uf.unite(4, 5);
    for x in 0..6 {
        let r = uf.find(x);
        assert_eq!(uf.find(r), r);
    }
}

#[test]
fn unite_decrements_group_count_once() {
    let mut uf = UnionFind::new(4);
    assert_eq!(uf.total, 4);
    assert!(uf.unite(0, 1));
    assert!(uf.is_same(0, 1));
    assert_eq!(uf.total, 3);
    assert!(!uf.unite(0, 1));
    assert_eq!(uf.total, 3);
    assert!(uf.unite(2, 3));
    assert!(uf.unite(1, 3));
    assert_eq!(uf.total, 1);
}

#[test]
fn singleton_groups_at_start() {
    let mut uf = UnionFind::new(3);
    assert_eq!(uf.total, 3);
    assert_eq!(uf.sizes, vec![1, 1, 1]);
    for x in 0..3 {
        assert_eq!(uf.find(x), x);
    }
}
