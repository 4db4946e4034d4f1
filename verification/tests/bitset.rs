use noodle::bitset::{BitSet1D, BitSet2D, BitSet3D};

#[test]
fn bitset_insert_and_query() {
    let mut s = BitSet1D::new((), 100);
    assert!(s.borrow().is_empty());
    s.insert_one(3);
    s.insert_one(64);
    s.insert_one(99);
    assert!(s.has(3));
    assert!(s.has(64));
    assert!(!s.has(4));
    let ones: Vec<usize> = {
        let mut it = s.borrow().ones();
        let mut v = vec![];
        while let Some(x) = it.next() {
            v.push(x);
        }
        v
    };
    assert_eq!(ones, vec![3, 64, 99]);
    s.remove_one(64);
    assert!(!s.has(64));
}

#[test]
fn bitset_union_difference_subset() {
    let mut a = BitSet1D::new((), 70);
    let mut b = BitSet1D::new((), 70);
    a.insert_one(1);
    a.insert_one(65);
    b.insert_one(65);
    assert!(b.borrow().is_subset(&a.borrow()));
    assert!(!a.borrow().is_subset(&b.borrow()));
    b.insert_one(2);
    a.union_from(b.borrow());
    assert!(a.has(1) && a.has(2) && a.has(65));
    a.difference_from(b.borrow());
    assert!(a.has(1) && !a.has(2) && !a.has(65));
    a.clear_all();
    assert!(a.borrow().is_empty());
}

#[test]
fn bitset_rows_are_independent() {
    let mut t = BitSet2D::new(3, 10);
    t.slice_mut(1).insert(7);
    assert!(t.slice(1).contains(7));
    assert!(!t.slice(0).contains(7));
    assert!(!t.slice(2).contains(7));
    let mut cube = BitSet3D::new((2, 2), 130);
    cube.slice_mut((1, 0)).insert(129);
    assert!(cube.slice((1, 0)).contains(129));
    assert!(!cube.slice((0, 1)).contains(129));
    assert!(cube.slice2d(1).slice(0).contains(129));
}

#[test]
fn bitset_equality_and_copies() {
    let mut a = BitSet2D::new(2, 8);
    a.slice_mut(0).insert(5);
    let b = a.clone();
    assert!(a.equals(&b));
    let mut c = BitSet2D::new(2, 8);
    c.slice_mut(1).insert(5);
    assert!(!a.equals(&c));
    let copy = a.borrow().to_bitset();
    assert!(copy.equals(&a));
    let bigger = a.slice(0).resize(200);
    assert!(bigger.has(5));
}
