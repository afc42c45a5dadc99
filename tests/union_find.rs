use algo_lib::union_find::UnionFind;

#[test]
fn test_union_find() {
    let mut uf = UnionFind::new(5);
    uf.unite(0, 1);

    assert_eq!(uf.is_same(0, 1), true);
    assert_eq!(uf.size(0), 2);

    uf.unite(2, 4);

    assert_eq!(uf.is_same(2, 4), true);
    assert_eq!(uf.size(2), 2);

    uf.unite(0, 2);

    assert_eq!(uf.is_same(0, 2), true);
    assert_eq!(uf.is_same(0, 4), true);
    assert_eq!(uf.is_same(1, 2), true);
    assert_eq!(uf.size(0), 4);
}

#[test]
fn union_find_unite_reports_change() {
    let mut uf = UnionFind::new(4);
    assert!(uf.unite(0, 3));
    assert!(!uf.unite(3, 0));
    assert!(!uf.is_same(1, 2));
    assert_eq!(uf.size(1), 1);
    assert_eq!(uf.find_root(0), uf.find_root(3));
    assert_eq!(uf.size(3), 2);
}
