use lock_db::LockError;

#[test]
fn test_display_messages_are_distinct_and_nonempty() {
    let conflict = LockError::Conflict.to_string();
    let not_held = LockError::NotHeld.to_string();
    assert!(!conflict.is_empty());
    assert!(!not_held.is_empty());
    assert_ne!(conflict, not_held);
}

#[test]
fn test_variants_compare_equal_to_themselves() {
    assert_eq!(LockError::Conflict, LockError::Conflict);
    assert_ne!(LockError::Conflict, LockError::NotHeld);
}

#[test]
fn messages_are_the_documented_sentences() {
    assert_eq!(
        LockError::Conflict.to_string(),
        "lock request conflicts with an existing lock"
    );
    assert_eq!(
        LockError::NotHeld.to_string(),
        "no lock held for this transaction and resource"
    );
}
