use unionfind::{IndexOutOfRange, UnionFind};

#[test]
fn union_find() {
    let mut uf = UnionFind::new(6);
    uf.union(3, 2).unwrap();
    uf.union(4, 2).unwrap();

    assert_eq!(uf.parents, [0, 1, 2, 2, 2, 5]);
}

#[test]
fn union_find_path_compression() {
    let mut uf = UnionFind::new(10);
    uf.union(2, 8).unwrap();
    uf.union(4, 2).unwrap();
    uf.union(1, 2).unwrap();

    assert_eq!(uf.find(4), Ok(1));
    assert_eq!(uf.parents, [0, 1, 1, 3, 1, 5, 6, 7, 2, 9]);
}

#[test]
fn new_is_identity() {
    let uf = UnionFind::new(5);
    assert_eq!(uf.length, 5);
    assert_eq!(uf.parents, [0, 1, 2, 3, 4]);
}

#[test]
fn new_empty() {
    let mut uf = UnionFind::new(0);
    assert_eq!(uf.length, 0);
    assert!(uf.parents.is_empty());
    assert_eq!(uf.find(0), Err(IndexOutOfRange { index: 0, length: 0 }));
    assert_eq!(uf.union(0, 0), Err(IndexOutOfRange { index: 0, length: 0 }));
}

#[test]
fn single_element_is_its_own_root() {
    let mut uf = UnionFind::new(1);
    assert_eq!(uf.find(0), Ok(0));
    assert_eq!(uf.parents, [0]);
}

#[test]
fn single_union_smaller_index_wins() {
    let mut uf = UnionFind::new(6);
    assert_eq!(uf.parents, [0, 1, 2, 3, 4, 5]);
    assert_eq!(uf.union(3, 2), Ok(()));
    assert_eq!(uf.parents, [0, 1, 2, 2, 4, 5]);
}

#[test]
fn union_operand_order_does_not_matter() {
    let mut a = UnionFind::new(6);
    let mut b = UnionFind::new(6);
    a.union(2, 3).unwrap();
    b.union(3, 2).unwrap();
    assert_eq!(a.parents, [0, 1, 2, 2, 4, 5]);
    assert_eq!(a.parents, b.parents);
}

#[test]
fn find_out_of_range() {
    let mut uf = UnionFind::new(6);
    uf.union(3, 2).unwrap();
    assert_eq!(uf.find(6), Err(IndexOutOfRange { index: 6, length: 6 }));
    assert_eq!(
        uf.find(usize::MAX),
        Err(IndexOutOfRange { index: usize::MAX, length: 6 })
    );
    assert_eq!(uf.parents, [0, 1, 2, 2, 4, 5]);
    assert_eq!(uf.length, 6);
}

#[test]
fn union_out_of_range() {
    let mut uf = UnionFind::new(10);
    uf.union(2, 8).unwrap();
    uf.union(1, 2).unwrap();
    let before = uf.parents.clone();
    assert_eq!(before, [0, 1, 1, 3, 4, 5, 6, 7, 2, 9]);

    assert_eq!(uf.union(10, 8), Err(IndexOutOfRange { index: 10, length: 10 }));
    assert_eq!(uf.union(8, 10), Err(IndexOutOfRange { index: 10, length: 10 }));
    assert_eq!(uf.union(12, 11), Err(IndexOutOfRange { index: 12, length: 10 }));
    assert_eq!(uf.union(11, 11), Err(IndexOutOfRange { index: 11, length: 10 }));
    // A rejected call compresses nothing: 8 still points at 2.
    assert_eq!(uf.parents, before);
}

#[test]
fn find_twice_gives_the_same_root() {
    let mut uf = UnionFind::new(10);
    uf.union(2, 8).unwrap();
    uf.union(1, 2).unwrap();
    assert_eq!(uf.parents[8], 2);

    assert_eq!(uf.find(8), Ok(1));
    assert_eq!(uf.parents, [0, 1, 1, 3, 4, 5, 6, 7, 1, 9]);
    let after_first = uf.parents.clone();
    assert_eq!(uf.find(8), Ok(1));
    assert_eq!(uf.parents, after_first);
    assert_eq!(uf.parents[uf.parents[8]], uf.parents[8]);
}

#[test]
fn find_compresses_the_queried_element_only() {
    let mut uf = UnionFind::new(4);
    uf.union(2, 3).unwrap();
    uf.union(1, 2).unwrap();
    uf.union(0, 1).unwrap();
    assert_eq!(uf.parents, [0, 0, 1, 2]);

    assert_eq!(uf.find(3), Ok(0));
    assert_eq!(uf.parents, [0, 0, 1, 0]);
}

#[test]
fn union_joins_the_two_elements() {
    let mut uf = UnionFind::new(8);
    uf.union(7, 5).unwrap();
    uf.union(6, 4).unwrap();
    assert_ne!(uf.find(7), uf.find(6));

    uf.union(7, 6).unwrap();
    assert_eq!(uf.parents, [0, 1, 2, 3, 4, 4, 4, 5]);
    assert_eq!(uf.find(7), Ok(4));
    assert_eq!(uf.find(6), Ok(4));
    assert_eq!(uf.find(5), Ok(4));
    assert_eq!(uf.find(3), Ok(3));
}

#[test]
fn union_of_joined_elements_only_compresses() {
    let mut uf = UnionFind::new(10);
    uf.union(2, 8).unwrap();
    uf.union(4, 2).unwrap();
    uf.union(1, 2).unwrap();
    assert_eq!(uf.parents, [0, 1, 1, 3, 2, 5, 6, 7, 2, 9]);

    assert_eq!(uf.union(8, 4), Ok(()));
    assert_eq!(uf.parents, [0, 1, 1, 3, 1, 5, 6, 7, 1, 9]);
}

#[test]
fn union_with_itself_changes_nothing() {
    let mut uf = UnionFind::new(10);
    uf.union(2, 8).unwrap();
    uf.union(1, 2).unwrap();
    let before = uf.parents.clone();

    for x in 0..10 {
        assert_eq!(uf.union(x, x), Ok(()));
        assert_eq!(uf.parents, before);
    }
    // 8 has not been compressed.
    assert_eq!(uf.parents[8], 2);
}

#[test]
fn root_is_the_smallest_element_of_its_component() {
    let mut uf = UnionFind::new(9);
    uf.union(8, 6).unwrap();
    uf.union(6, 3).unwrap();
    uf.union(7, 5).unwrap();
    uf.union(5, 8).unwrap();
    uf.union(2, 4).unwrap();

    let roots: Vec<usize> = (0..9).map(|i| uf.find(i).unwrap()).collect();
    assert_eq!(roots, [0, 1, 2, 3, 2, 3, 3, 3, 3]);
    for i in 0..9 {
        let smallest = (0..9).filter(|&j| roots[j] == roots[i]).min().unwrap();
        assert_eq!(roots[i], smallest);
    }
}

#[test]
fn roots_partition_the_elements() {
    let mut uf = UnionFind::new(7);
    uf.union(6, 1).unwrap();
    uf.union(5, 2).unwrap();
    uf.union(2, 6).unwrap();

    let roots: Vec<usize> = (0..7).map(|i| uf.find(i).unwrap()).collect();
    assert_eq!(roots, [0, 1, 1, 3, 4, 1, 1]);
    for i in 0..7 {
        let r = roots[i];
        assert!(r < uf.length);
        assert_eq!(uf.parents[r], r);
        assert_eq!(uf.find(r), Ok(r));
    }
    assert_eq!(uf.length, 7);
    assert_eq!(uf.parents.len(), 7);
}
