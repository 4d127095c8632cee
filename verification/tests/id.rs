use lock_db::{ResourceId, TxnId};

#[test]
fn test_txn_roundtrip_through_u64() {
    let t = TxnId::new(u64::MAX);
    assert_eq!(t.get(), u64::MAX);
    assert_eq!(u64::from(t), u64::MAX);
    assert_eq!(TxnId::from(7), TxnId::new(7));
}

#[test]
fn test_resource_roundtrip_through_u64() {
    let r = ResourceId::new(0);
    assert_eq!(r.get(), 0);
    assert_eq!(u64::from(r), 0);
    assert_eq!(ResourceId::from(7), ResourceId::new(7));
}

#[test]
fn test_distinct_ids_are_unequal() {
    assert_ne!(TxnId::new(1), TxnId::new(2));
    assert_ne!(ResourceId::new(1), ResourceId::new(2));
}

#[test]
fn test_ids_are_ordered_by_value() {
    assert!(TxnId::new(1) < TxnId::new(2));
    assert!(ResourceId::new(1) < ResourceId::new(2));
}

#[test]
fn ids_keep_large_numbers() {
    assert_eq!(ResourceId::new(0xDEAD_BEEF).get(), 0xDEAD_BEEF);
    assert_eq!(u64::from(ResourceId::new(0xDEAD_BEEF)), 0xDEAD_BEEF);
    assert_eq!(TxnId::new(42).get(), 42);
}
