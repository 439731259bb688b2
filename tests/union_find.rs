use maze_walker::union_find::UnionFind;

#[test]
fn singletons_are_apart() {
    let uf = UnionFind::new(4);
    for a in 0..4 {
        for b in 0..4 {
            assert_eq!(uf.in_same_set(a, b), a == b);
        }
        assert_eq!(uf.rep(a), a);
        assert_eq!(uf.parent(a), a);
    }
}

#[test]
fn unions_follow_history() {
    let mut uf = UnionFind::new(6);
    uf.join(0, 1);
    uf.join(3, 4);
    assert!(uf.in_same_set(0, 1));
    assert!(uf.in_same_set(4, 3));
    assert!(!uf.in_same_set(1, 3));
    uf.join(1, 4);
    assert!(uf.in_same_set(0, 3));
    assert!(uf.in_same_set(4, 0));
    assert!(!uf.in_same_set(2, 0));
    assert!(!uf.in_same_set(5, 2));
    // joining members of one set changes nothing
    uf.join(0, 4);
    assert!(!uf.in_same_set(2, 0));
    assert!(uf.in_same_set(1, 3));
}

#[test]
fn find_is_idempotent() {
    let mut uf = UnionFind::new(5);
    uf.join(0, 1);
    uf.join(2, 1);
    uf.join(4, 3);
    for a in 0..5 {
        let r = uf.rep(a);
        assert_eq!(uf.rep(r), r);
    }
    assert_eq!(uf.rep(0), uf.rep(2));
    assert_ne!(uf.rep(0), uf.rep(3));
}

#[test]
fn parent_links() {
    let mut uf = UnionFind::new(3);
    assert_eq!(uf.len(), 3);
    assert_eq!(uf.parent(2), 2);
    uf.join(0, 2);
    // the root of 2's set now links to 0
    assert_eq!(uf.parent(2), 0);
    assert_eq!(uf.parent(0), 0);
    uf.join(1, 0);
    assert_eq!(uf.parent(0), 1);
    assert_eq!(uf.rep(2), 1);
}

#[test]
fn union_find_as_text() {
    let mut uf = UnionFind::new(3);
    assert_eq!(uf.to_text(), "UnionFind { [0(0)] [1(1)] [2(2)] }");
    uf.join(0, 2);
    assert_eq!(uf.to_text(), "UnionFind { [0(0), 2(0)] [1(1)] }");
    let mut big = UnionFind::new(12);
    big.join(11, 10);
    assert_eq!(
        big.to_text(),
        "UnionFind { [0(0)] [1(1)] [2(2)] [3(3)] [4(4)] [5(5)] [6(6)] [7(7)] [8(8)] [9(9)] [10(11), 11(11)] }"
    );
}
