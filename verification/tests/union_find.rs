use union_find::UnionFind;

#[test]
fn parity_scenario() {
    const N: usize = 20;
    let mut parity = UnionFind::new(N);
    for i in 0..N {
        if i & 1 == 0 {
            parity.union(0, i);
        } else {
            parity.union(1, i);
        }
    }
    for i in 0..N {
        let c = parity.find(i);
        assert_eq!(c, i & 1);
    }
}

#[test]
fn new_table_is_singletons() {
    let t = UnionFind::new(5);
    assert_eq!(t.len(), 5);
    for k in 0..5 {
        assert_eq!(t.find_only(k), k);
        assert_eq!(t.parent(k), k);
    }
    for k in 0..5 {
        for l in 0..5 {
            assert_eq!(t.same_only(k, l), k == l);
        }
    }
}

#[test]
fn chain_find_compresses() {
    let mut t = UnionFind::new(3);
    t.union(0, 1);
    t.union(1, 2);
    assert_eq!(t.find(2), 0);
    assert_eq!(t.find(1), 0);
    assert_eq!(t.parent(2), 0);
    assert_eq!(t.parent(1), 0);
}

#[test]
fn find_twice_same_and_one_hop() {
    let mut t = UnionFind::new(4);
    t.union(0, 1);
    t.union(1, 2);
    t.union(2, 3);
    let first = t.find(3);
    assert_eq!(t.parent(3), first);
    let second = t.find(3);
    assert_eq!(first, second);
    assert_eq!(t.parent(3), first);
}

#[test]
fn same_is_reflexive_and_find_stable() {
    let mut t = UnionFind::new(6);
    t.union(2, 3);
    t.union(3, 4);
    for i in 0..6 {
        assert!(t.same(i, i));
    }
    let r = t.find(4);
    assert_eq!(t.find(4), r);
    assert_eq!(t.find(4), r);
    assert_eq!(t.find_only(4), r);
}

#[test]
fn union_keeps_canonical_of_first_argument() {
    let mut t = UnionFind::new(4);
    t.union(0, 1);
    // the canonical element of 1's partition is now 0
    assert_eq!(t.find_only(1), 0);
    t.union(1, 2);
    // the merged partition keeps the canonical element 1 had before
    assert_eq!(t.find_only(2), 0);
    t.union(2, 3);
    assert_eq!(t.find_only(3), 0);
}

#[test]
fn unions_connect_transitively() {
    let mut t = UnionFind::new(8);
    t.union(0, 2);
    t.union(2, 4);
    t.union(1, 3);
    t.union(3, 5);
    assert!(t.same(0, 4));
    assert!(t.same(2, 4));
    assert!(!t.same(0, 1));
    assert!(!t.same(4, 5));
    assert!(t.same_only(1, 5));
    assert!(!t.same_only(6, 7));
    t.union(4, 1);
    assert!(t.same(0, 5));
    assert!(t.same_only(2, 3));
    assert!(!t.same(0, 6));
}

#[test]
fn find_and_find_only_agree() {
    let mut t = UnionFind::new(10);
    t.union(0, 5);
    t.union(5, 6);
    t.union(2, 7);
    t.union(7, 8);
    for k in 0..10 {
        let read_only = t.find_only(k);
        let compressing = t.find(k);
        assert_eq!(read_only, compressing);
        assert_eq!(t.find_only(k), compressing);
    }
}

#[test]
fn empty_table_is_valid() {
    let t = UnionFind::new(0);
    assert_eq!(t.len(), 0);
}

#[test]
fn single_element_table() {
    let mut t = UnionFind::new(1);
    assert_eq!(t.find(0), 0);
    assert_eq!(t.find_only(0), 0);
    assert!(t.same(0, 0));
    assert!(t.same_only(0, 0));
    t.union(0, 0);
    assert_eq!(t.find(0), 0);
}

#[test]
fn union_with_self_changes_nothing() {
    let mut t = UnionFind::new(4);
    t.union(0, 1);
    t.union(0, 0);
    t.union(1, 1);
    assert_eq!(t.find_only(1), 0);
    assert_eq!(t.find_only(2), 2);
    assert_eq!(t.parent(0), 0);
    assert_eq!(t.parent(1), 0);
}
