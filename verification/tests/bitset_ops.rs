use talentsched::bitset::BitSet64;

#[test]
fn empty_set_has_no_members() {
    let s = BitSet64::empty();
    assert!(s.is_empty());
    assert_eq!(s.len(), 0);
    for i in 0..64 {
        assert!(!s.contains(i));
    }
}

#[test]
fn insert_and_remove_members() {
    let s = BitSet64::empty().insert(3).insert(17).insert(63);
    assert!(s.contains(3));
    assert!(s.contains(17));
    assert!(s.contains(63));
    assert!(!s.contains(4));
    assert_eq!(s.len(), 3);
    let t = s.remove(17);
    assert!(!t.contains(17));
    assert!(t.contains(3));
    assert_eq!(t.len(), 2);
}

#[test]
fn full_upto_is_an_initial_range() {
    let s = BitSet64::full_upto(5);
    for i in 0..5 {
        assert!(s.contains(i));
    }
    for i in 5..64 {
        assert!(!s.contains(i));
    }
    assert_eq!(s.len(), 5);
    assert_eq!(BitSet64::full_upto(64).len(), 64);
    assert_eq!(BitSet64::full_upto(0).len(), 0);
}

#[test]
fn union_intersect_difference() {
    let a = BitSet64::empty().insert(1).insert(2).insert(3);
    let b = BitSet64::empty().insert(2).insert(3).insert(4);
    let u = a.union(b);
    assert_eq!(u.len(), 4);
    assert!(u.contains(1) && u.contains(4));
    let i = a.intersect(b);
    assert_eq!(i.len(), 2);
    assert!(i.contains(2) && i.contains(3) && !i.contains(1));
    let d = a.difference(b);
    assert_eq!(d.len(), 1);
    assert!(d.contains(1));
}
