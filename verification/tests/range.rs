use lock_db::KeyRange;

#[test]
fn test_new_rejects_inverted_range() {
    assert!(KeyRange::new(5, 4).is_none());
    assert!(KeyRange::new(4, 4).is_some());
    assert!(KeyRange::new(4, 5).is_some());
}

#[test]
fn test_point_is_single_key() {
    let p = KeyRange::point(7);
    assert_eq!((p.start(), p.end()), (7, 7));
    assert!(p.contains(7));
    assert!(!p.contains(6));
    assert!(!p.contains(8));
}

#[test]
fn test_contains_bounds_inclusive() {
    let r = KeyRange::new(10, 20).unwrap();
    assert!(r.contains(10));
    assert!(r.contains(15));
    assert!(r.contains(20));
    assert!(!r.contains(9));
    assert!(!r.contains(21));
}

#[test]
fn test_overlap_is_symmetric() {
    let a = KeyRange::new(10, 20).unwrap();
    let cases = [
        KeyRange::new(0, 9).unwrap(),
        KeyRange::new(0, 10).unwrap(),
        KeyRange::new(15, 25).unwrap(),
        KeyRange::new(20, 30).unwrap(),
        KeyRange::new(21, 30).unwrap(),
        KeyRange::new(5, 25).unwrap(),
    ];
    for b in cases {
        assert_eq!(a.overlaps(b), b.overlaps(a), "{a:?} vs {b:?}");
    }
}

#[test]
fn test_adjacent_ranges_overlap_at_shared_bound() {
    // Inclusive bounds: [10,20] and [20,30] share key 20.
    assert!(KeyRange::new(10, 20)
        .unwrap()
        .overlaps(KeyRange::new(20, 30).unwrap()));
    // [10,20] and [21,30] do not.
    assert!(!KeyRange::new(10, 20)
        .unwrap()
        .overlaps(KeyRange::new(21, 30).unwrap()));
}

#[test]
fn test_contained_range_overlaps() {
    let outer = KeyRange::new(0, 100).unwrap();
    let inner = KeyRange::new(40, 60).unwrap();
    assert!(outer.overlaps(inner));
    assert!(inner.overlaps(outer));
}

#[test]
fn test_max_key_has_no_overflow() {
    let r = KeyRange::point(u64::MAX);
    assert!(r.contains(u64::MAX));
    assert!(r.overlaps(KeyRange::new(0, u64::MAX).unwrap()));
}

#[test]
fn overlap_with_a_point_is_containment() {
    let r = KeyRange::new(100, 200).unwrap();
    for key in 95..206 {
        assert_eq!(r.overlaps(KeyRange::point(key)), r.contains(key));
    }
    assert_eq!((r.start(), r.end()), (100, 200));
    assert!(r.overlaps(r));
}
