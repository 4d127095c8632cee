use lock_db::shard::FIB_HASH;
use lock_db::{Acquisition, KeyRange, LockError, LockManager, LockMode, ResourceId, TxnId};

fn ids(t: u64, r: u64) -> (TxnId, ResourceId) {
    (TxnId::new(t), ResourceId::new(r))
}

#[test]
fn test_shared_locks_coexist() {
    let mut lm = LockManager::new(4);
    let r = ResourceId::new(1);
    lm.try_acquire(TxnId::new(1), r, LockMode::Shared).unwrap();
    lm.try_acquire(TxnId::new(2), r, LockMode::Shared).unwrap();
    lm.try_acquire(TxnId::new(3), r, LockMode::Shared).unwrap();
    assert_eq!(lm.holder_count(r), 3);
}

#[test]
fn test_exclusive_excludes_shared() {
    let mut lm = LockManager::new(4);
    let (t1, r) = ids(1, 1);
    lm.try_acquire(t1, r, LockMode::Exclusive).unwrap();
    assert_eq!(
        lm.try_acquire(TxnId::new(2), r, LockMode::Shared),
        Err(LockError::Conflict)
    );
}

#[test]
fn test_exclusive_excludes_exclusive() {
    let mut lm = LockManager::new(4);
    let (t1, r) = ids(1, 1);
    lm.try_acquire(t1, r, LockMode::Exclusive).unwrap();
    assert_eq!(
        lm.try_acquire(TxnId::new(2), r, LockMode::Exclusive),
        Err(LockError::Conflict)
    );
}

#[test]
fn test_shared_blocks_other_exclusive() {
    let mut lm = LockManager::new(4);
    let (t1, r) = ids(1, 1);
    lm.try_acquire(t1, r, LockMode::Shared).unwrap();
    assert_eq!(
        lm.try_acquire(TxnId::new(2), r, LockMode::Exclusive),
        Err(LockError::Conflict)
    );
}

#[test]
fn test_reacquire_same_mode_is_idempotent() {
    let mut lm = LockManager::new(4);
    let (t1, r) = ids(1, 1);
    lm.try_acquire(t1, r, LockMode::Shared).unwrap();
    lm.try_acquire(t1, r, LockMode::Shared).unwrap();
    assert_eq!(lm.holder_count(r), 1);
}

#[test]
fn test_request_weaker_than_held_is_noop() {
    let mut lm = LockManager::new(4);
    let (t1, r) = ids(1, 1);
    lm.try_acquire(t1, r, LockMode::Exclusive).unwrap();
    // Asking for shared while holding exclusive keeps the stronger mode.
    lm.try_acquire(t1, r, LockMode::Shared).unwrap();
    assert_eq!(lm.mode_held(t1, r), Some(LockMode::Exclusive));
    assert_eq!(lm.holder_count(r), 1);
}

#[test]
fn test_upgrade_sole_holder_succeeds() {
    let mut lm = LockManager::new(4);
    let (t1, r) = ids(1, 1);
    lm.try_acquire(t1, r, LockMode::Shared).unwrap();
    lm.try_acquire(t1, r, LockMode::Exclusive).unwrap();
    assert_eq!(lm.mode_held(t1, r), Some(LockMode::Exclusive));
    assert_eq!(lm.holder_count(r), 1);
}

#[test]
fn test_upgrade_blocked_by_other_reader() {
    let mut lm = LockManager::new(4);
    let r = ResourceId::new(1);
    lm.try_acquire(TxnId::new(1), r, LockMode::Shared).unwrap();
    lm.try_acquire(TxnId::new(2), r, LockMode::Shared).unwrap();
    assert_eq!(
        lm.try_acquire(TxnId::new(1), r, LockMode::Exclusive),
        Err(LockError::Conflict)
    );
    // The failed upgrade left the original shared lock intact.
    assert_eq!(lm.mode_held(TxnId::new(1), r), Some(LockMode::Shared));
}

#[test]
fn test_release_frees_resource_for_exclusive() {
    let mut lm = LockManager::new(4);
    let r = ResourceId::new(1);
    lm.try_acquire(TxnId::new(1), r, LockMode::Shared).unwrap();
    lm.try_acquire(TxnId::new(2), r, LockMode::Shared).unwrap();
    lm.release(TxnId::new(1), r).unwrap();
    // One reader remains, exclusive still blocked.
    assert!(
        lm.try_acquire(TxnId::new(3), r, LockMode::Exclusive)
            .is_err()
    );
    lm.release(TxnId::new(2), r).unwrap();
    lm.try_acquire(TxnId::new(3), r, LockMode::Exclusive)
        .unwrap();
}

#[test]
fn test_release_not_held_errors() {
    let mut lm = LockManager::new(4);
    let (t1, r) = ids(1, 1);
    assert_eq!(lm.release(t1, r), Err(LockError::NotHeld));
    lm.try_acquire(t1, r, LockMode::Shared).unwrap();
    assert_eq!(lm.release(TxnId::new(9), r), Err(LockError::NotHeld));
}

#[test]
fn test_double_release_errors() {
    let mut lm = LockManager::new(4);
    let (t1, r) = ids(1, 1);
    lm.try_acquire(t1, r, LockMode::Exclusive).unwrap();
    lm.release(t1, r).unwrap();
    assert_eq!(lm.release(t1, r), Err(LockError::NotHeld));
}

#[test]
fn test_release_all_drops_every_lock() {
    let mut lm = LockManager::with_shards(8);
    let t = TxnId::new(1);
    for id in 0..50 {
        lm.try_acquire(t, ResourceId::new(id), LockMode::Exclusive)
            .unwrap();
    }
    assert_eq!(lm.release_all(t), 50);
    for id in 0..50 {
        assert_eq!(lm.holder_count(ResourceId::new(id)), 0);
    }
    assert_eq!(lm.release_all(t), 0);
}

#[test]
fn test_release_all_leaves_other_txns_alone() {
    let mut lm = LockManager::new(4);
    let r = ResourceId::new(1);
    lm.try_acquire(TxnId::new(1), r, LockMode::Shared).unwrap();
    lm.try_acquire(TxnId::new(2), r, LockMode::Shared).unwrap();
    assert_eq!(lm.release_all(TxnId::new(1)), 1);
    assert_eq!(lm.mode_held(TxnId::new(2), r), Some(LockMode::Shared));
    assert_eq!(lm.holder_count(r), 1);
}

#[test]
fn test_resource_fully_released_can_be_taken_exclusively() {
    let mut lm = LockManager::new(4);
    let r = ResourceId::new(42);
    lm.try_acquire(TxnId::new(1), r, LockMode::Exclusive)
        .unwrap();
    lm.release(TxnId::new(1), r).unwrap();
    assert_eq!(lm.holder_count(r), 0);
    lm.try_acquire(TxnId::new(2), r, LockMode::Exclusive)
        .unwrap();
}

#[test]
fn test_with_shards_rounds_up_to_power_of_two() {
    assert_eq!(LockManager::with_shards(1).shards(), 1);
    assert_eq!(LockManager::with_shards(3).shards(), 4);
    assert_eq!(LockManager::with_shards(5).shards(), 8);
    assert_eq!(LockManager::with_shards(0).shards(), 1);
    assert_eq!(LockManager::with_shards(64).shards(), 64);
}

#[test]
fn test_single_shard_routes_everything_to_index_zero() {
    let lm = LockManager::with_shards(1);
    for id in 0..1000 {
        assert_eq!(lm.shard_index(ResourceId::new(id)), 0);
    }
}

#[test]
fn test_shard_index_within_bounds() {
    let lm = LockManager::with_shards(16);
    for id in 0..10_000 {
        assert!(lm.shard_index(ResourceId::new(id)) < 16);
    }
}

#[test]
fn test_sequential_ids_spread_across_shards() {
    let lm = LockManager::with_shards(16);
    let mut seen = [false; 16];
    for id in 0..256 {
        seen[lm.shard_index(ResourceId::new(id))] = true;
    }
    // Fibonacci hashing should touch every shard well before 256 ids.
    assert!(seen.iter().all(|&hit| hit));
}

#[test]
fn test_locks_in_different_shards_are_independent() {
    // Two resources that hash to different shards do not interfere.
    let mut lm = LockManager::with_shards(16);
    let a = ResourceId::new(1);
    let b = ResourceId::new(2);
    lm.try_acquire(TxnId::new(1), a, LockMode::Exclusive)
        .unwrap();
    lm.try_acquire(TxnId::new(2), b, LockMode::Exclusive)
        .unwrap();
    assert_eq!(lm.holder_count(a), 1);
    assert_eq!(lm.holder_count(b), 1);
}

#[test]
fn test_fib_hash_constant_is_odd() {
    // A multiplicative-hash multiplier must be odd to be a bijection mod 2^64.
    assert_eq!(FIB_HASH & 1, 1);
}

#[test]
fn shard_index_is_the_top_of_the_hash() {
    let lm = LockManager::with_shards(16);
    assert_eq!(lm.shard_index(ResourceId::new(0)), 0);
    assert_eq!(lm.shard_index(ResourceId::new(1)), 9);
    assert_eq!(lm.shard_index(ResourceId::new(2)), 3);
    assert_eq!(lm.shard_index(ResourceId::new(u64::MAX)), 6);
    let big = LockManager::with_shards(1024);
    assert_eq!(big.shard_index(ResourceId::new(12345)), 644);
}

#[test]
fn new_scales_with_the_machine() {
    assert_eq!(LockManager::new(0).shards(), 16);
    assert_eq!(LockManager::new(1).shards(), 16);
    assert_eq!(LockManager::new(4).shards(), 16);
    assert_eq!(LockManager::new(5).shards(), 32);
    assert_eq!(LockManager::new(12).shards(), 64);
    assert_eq!(LockManager::new(256).shards(), 1024);
    assert_eq!(LockManager::new(257).shards(), 1024);
    assert_eq!(LockManager::new(usize::MAX).shards(), 1024);
}

#[test]
fn more_shard_counts_round_up() {
    assert_eq!(LockManager::with_shards(2).shards(), 2);
    assert_eq!(LockManager::with_shards(10).shards(), 16);
    assert_eq!(LockManager::with_shards(1025).shards(), 2048);
}

#[test]
fn upgrade_resolves_to_the_join() {
    let mut lm = LockManager::with_shards(4);
    let (t1, r) = ids(1, 1);
    lm.try_acquire(t1, r, LockMode::Shared).unwrap();
    lm.try_acquire(t1, r, LockMode::IntentionExclusive).unwrap();
    assert_eq!(
        lm.mode_held(t1, r),
        Some(LockMode::SharedIntentionExclusive)
    );
    assert_eq!(lm.holder_count(r), 1);
}

#[test]
fn upgrade_beside_a_compatible_holder_succeeds() {
    let mut lm = LockManager::with_shards(4);
    let r = ResourceId::new(1);
    let (t1, t2) = (TxnId::new(1), TxnId::new(2));
    lm.try_acquire(t1, r, LockMode::Shared).unwrap();
    lm.try_acquire(t2, r, LockMode::IntentionShared).unwrap();
    lm.try_acquire(t1, r, LockMode::IntentionExclusive).unwrap();
    assert_eq!(
        lm.mode_held(t1, r),
        Some(LockMode::SharedIntentionExclusive)
    );
    assert_eq!(
        lm.try_acquire(t2, r, LockMode::Shared),
        Err(LockError::Conflict)
    );
    assert_eq!(lm.mode_held(t2, r), Some(LockMode::IntentionShared));
}

#[test]
fn upgrade_refused_when_the_join_conflicts() {
    let mut lm = LockManager::with_shards(1);
    let r = ResourceId::new(3);
    let (t1, t2) = (TxnId::new(1), TxnId::new(2));
    lm.try_acquire(t1, r, LockMode::IntentionExclusive).unwrap();
    lm.try_acquire(t2, r, LockMode::IntentionExclusive).unwrap();
    assert_eq!(
        lm.try_acquire(t1, r, LockMode::Shared),
        Err(LockError::Conflict)
    );
    assert_eq!(lm.mode_held(t1, r), Some(LockMode::IntentionExclusive));
    lm.release(t2, r).unwrap();
    lm.try_acquire(t1, r, LockMode::Shared).unwrap();
    assert_eq!(
        lm.mode_held(t1, r),
        Some(LockMode::SharedIntentionExclusive)
    );
}

#[test]
fn release_undoes_acquire() {
    let mut lm = LockManager::with_shards(2);
    let (t1, r) = ids(1, 5);
    lm.try_acquire(t1, r, LockMode::Exclusive).unwrap();
    assert_eq!(lm.release(t1, r), Ok(()));
    assert_eq!(lm.mode_held(t1, r), None);
    assert_eq!(lm.holder_count(r), 0);
    assert_eq!(lm.release(t1, r), Err(LockError::NotHeld));
}

#[test]
fn hierarchy_of_intention_locks() {
    let mut lm = LockManager::new(1);
    let (writer, reader) = (TxnId::new(1), TxnId::new(2));
    let row = ResourceId::new(4);
    for node in 1..4 {
        let res = ResourceId::new(node);
        lm.try_acquire(writer, res, LockMode::IntentionExclusive)
            .unwrap();
    }
    lm.try_acquire(writer, row, LockMode::Exclusive).unwrap();
    for node in 1..4 {
        let res = ResourceId::new(node);
        lm.try_acquire(reader, res, LockMode::IntentionShared)
            .unwrap();
        assert_eq!(
            lm.try_acquire(reader, res, LockMode::Shared),
            Err(LockError::Conflict)
        );
    }
    assert_eq!(
        lm.try_acquire(reader, row, LockMode::Shared),
        Err(LockError::Conflict)
    );
    assert_eq!(lm.release_all(writer), 4);
    assert_eq!(lm.release_all(reader), 3);
    lm.try_acquire(reader, row, LockMode::Shared).unwrap();
}

#[test]
fn two_phase_locking_releases_the_whole_set() {
    let mut lm = LockManager::new(2);
    let txn = TxnId::new(1);
    lm.try_acquire(txn, ResourceId::new(10), LockMode::Shared)
        .unwrap();
    lm.try_acquire(txn, ResourceId::new(11), LockMode::Shared)
        .unwrap();
    lm.try_acquire(txn, ResourceId::new(12), LockMode::Exclusive)
        .unwrap();
    assert_eq!(lm.release_all(txn), 3);
    for id in [10, 11, 12] {
        let res = ResourceId::new(id);
        assert_eq!(lm.holder_count(res), 0);
        lm.try_acquire(TxnId::new(2), res, LockMode::Exclusive)
            .unwrap();
    }
}

#[test]
fn range_lock_keeps_phantoms_out() {
    let mut lm = LockManager::new(4);
    let index = ResourceId::new(10);
    let scanned = KeyRange::new(100, 200).unwrap();
    lm.try_acquire_range(TxnId::new(1), index, scanned, LockMode::Shared)
        .unwrap();
    assert_eq!(
        lm.try_acquire_range(
            TxnId::new(2),
            index,
            KeyRange::point(150),
            LockMode::Exclusive
        ),
        Err(LockError::Conflict)
    );
    // A disjoint range is free, and so is an overlapping one to share.
    lm.try_acquire_range(
        TxnId::new(2),
        index,
        KeyRange::new(201, 300).unwrap(),
        LockMode::Exclusive,
    )
    .unwrap();
    lm.try_acquire_range(
        TxnId::new(3),
        index,
        KeyRange::new(150, 200).unwrap(),
        LockMode::Shared,
    )
    .unwrap();
    assert_eq!(lm.range_count(index), 3);
    // Another key space is another matter.
    lm.try_acquire_range(
        TxnId::new(2),
        ResourceId::new(11),
        KeyRange::point(150),
        LockMode::Exclusive,
    )
    .unwrap();
    assert_eq!(lm.release_all(TxnId::new(1)), 1);
    assert_eq!(lm.release_all(TxnId::new(3)), 1);
    lm.try_acquire_range(
        TxnId::new(2),
        index,
        KeyRange::point(150),
        LockMode::Exclusive,
    )
    .unwrap();
    assert_eq!(lm.release_all(TxnId::new(2)), 3);
    assert_eq!(lm.range_count(index), 0);
}

#[test]
fn ranges_of_one_transaction_do_not_conflict() {
    let mut lm = LockManager::with_shards(1);
    let (t1, space) = ids(1, 1);
    let a = KeyRange::new(0, 10).unwrap();
    let b = KeyRange::new(5, 15).unwrap();
    lm.try_acquire_range(t1, space, a, LockMode::Exclusive)
        .unwrap();
    lm.try_acquire_range(t1, space, b, LockMode::Shared)
        .unwrap();
    lm.try_acquire_range(t1, space, a, LockMode::Shared)
        .unwrap();
    assert_eq!(lm.range_count(space), 2);
    // Only the very same range can be released.
    assert_eq!(
        lm.release_range(t1, space, KeyRange::new(0, 15).unwrap()),
        Err(LockError::NotHeld)
    );
    lm.release_range(t1, space, a).unwrap();
    assert_eq!(lm.release_range(t1, space, a), Err(LockError::NotHeld));
    assert_eq!(lm.range_count(space), 1);
}

#[test]
fn range_upgrade_resolves_to_the_join() {
    let mut lm = LockManager::with_shards(1);
    let space = ResourceId::new(1);
    let (t1, t2) = (TxnId::new(1), TxnId::new(2));
    let range = KeyRange::new(0, 10).unwrap();
    lm.try_acquire_range(t1, space, range, LockMode::Shared)
        .unwrap();
    lm.try_acquire_range(t1, space, range, LockMode::Exclusive)
        .unwrap();
    assert_eq!(lm.range_count(space), 1);
    assert_eq!(
        lm.try_acquire_range(t2, space, KeyRange::point(10), LockMode::IntentionShared),
        Err(LockError::Conflict)
    );
    lm.try_acquire_range(t2, space, KeyRange::point(11), LockMode::Exclusive)
        .unwrap();
}

#[test]
fn point_and_range_locks_are_counted_together_at_release() {
    let mut lm = LockManager::with_shards(8);
    let txn = TxnId::new(1);
    for id in 0..3 {
        lm.try_acquire(txn, ResourceId::new(id), LockMode::Exclusive)
            .unwrap();
        lm.try_acquire_range(
            txn,
            ResourceId::new(id),
            KeyRange::point(id),
            LockMode::Exclusive,
        )
        .unwrap();
    }
    assert_eq!(lm.holder_count(ResourceId::new(0)), 1);
    assert_eq!(lm.range_count(ResourceId::new(0)), 1);
    assert_eq!(lm.release_all(txn), 6);
    assert_eq!(lm.release_all(txn), 0);
}

#[test]
fn opposite_order_is_a_deadlock() {
    let mut lm = LockManager::new(4);
    let (a, b) = (ResourceId::new(1), ResourceId::new(2));
    let (t1, t2) = (TxnId::new(1), TxnId::new(2));
    assert_eq!(
        lm.request(t1, a, LockMode::Exclusive),
        Acquisition::Granted
    );
    assert_eq!(
        lm.request(t2, b, LockMode::Exclusive),
        Acquisition::Granted
    );
    assert_eq!(
        lm.request(t1, b, LockMode::Exclusive),
        Acquisition::Waiting
    );
    assert!(lm.find_deadlock().is_none());
    assert_eq!(lm.waiting_count(), 1);
    let Acquisition::Deadlock(deadlock) = lm.request(t2, a, LockMode::Exclusive) else {
        panic!("the second wait closes a cycle");
    };
    assert_eq!(deadlock.cycle.len(), 2);
    assert!(deadlock.cycle.contains(&t1) && deadlock.cycle.contains(&t2));
    assert_eq!(deadlock.victim, t2);
    assert_eq!(lm.waiting_count(), 2);
    let found = lm.find_deadlock().unwrap();
    assert_eq!(found.victim, t2);
    // Abort the victim; the survivor proceeds.
    assert_eq!(lm.release_all(deadlock.victim), 1);
    assert!(lm.find_deadlock().is_none());
    assert_eq!(
        lm.request(t1, b, LockMode::Exclusive),
        Acquisition::Granted
    );
    assert_eq!(lm.waiting_count(), 0);
}

#[test]
fn a_wait_that_is_over_counts_for_nothing() {
    let mut lm = LockManager::with_shards(4);
    let (a, b) = (ResourceId::new(1), ResourceId::new(2));
    let (t1, t2) = (TxnId::new(1), TxnId::new(2));
    lm.try_acquire(t1, a, LockMode::Exclusive).unwrap();
    lm.try_acquire(t2, b, LockMode::Exclusive).unwrap();
    assert_eq!(
        lm.request(t1, b, LockMode::Exclusive),
        Acquisition::Waiting
    );
    // t2 lets go of what t1 waits for: t1 is recorded as waiting, for no one.
    lm.release(t2, b).unwrap();
    assert_eq!(lm.waiting_count(), 1);
    assert!(lm.wait_graph().is_empty());
    assert_eq!(
        lm.request(t2, a, LockMode::Exclusive),
        Acquisition::Waiting
    );
    assert!(lm.find_deadlock().is_none());
}

#[test]
fn two_readers_that_upgrade_deadlock() {
    let mut lm = LockManager::with_shards(4);
    let r = ResourceId::new(9);
    let (t1, t2) = (TxnId::new(5), TxnId::new(3));
    assert_eq!(lm.request(t1, r, LockMode::Shared), Acquisition::Granted);
    assert_eq!(lm.request(t2, r, LockMode::Shared), Acquisition::Granted);
    assert_eq!(
        lm.request(t1, r, LockMode::Exclusive),
        Acquisition::Waiting
    );
    let Acquisition::Deadlock(deadlock) = lm.request(t2, r, LockMode::Exclusive) else {
        panic!("each waits for the other");
    };
    assert_eq!(deadlock.victim, t1);
    lm.release_all(t1);
    assert_eq!(
        lm.request(t2, r, LockMode::Exclusive),
        Acquisition::Granted
    );
    assert_eq!(lm.mode_held(t2, r), Some(LockMode::Exclusive));
}

#[test]
fn reported_cycle_begins_with_the_requester() {
    let mut lm = LockManager::with_shards(8);
    for id in 1..=4 {
        lm.try_acquire(TxnId::new(id), ResourceId::new(id), LockMode::Exclusive)
            .unwrap();
    }
    for id in [2, 3, 4] {
        let next = if id == 4 { 1 } else { id + 1 };
        assert_eq!(
            lm.request(TxnId::new(id), ResourceId::new(next), LockMode::Shared),
            Acquisition::Waiting
        );
    }
    let Acquisition::Deadlock(deadlock) =
        lm.request(TxnId::new(1), ResourceId::new(2), LockMode::Shared)
    else {
        panic!("the last wait closes the ring");
    };
    let ring: Vec<u64> = deadlock.cycle.iter().map(|t| t.get()).collect();
    assert_eq!(ring, vec![1, 2, 3, 4]);
    assert_eq!(deadlock.victim, TxnId::new(4));
}

#[test]
fn one_wait_can_make_two_deadlocks() {
    let (a, b, c) = (ResourceId::new(1), ResourceId::new(2), ResourceId::new(3));
    let (t1, t2, t3) = (TxnId::new(1), TxnId::new(2), TxnId::new(3));
    let build = || {
        let mut lm = LockManager::with_shards(4);
        lm.try_acquire(t1, a, LockMode::Exclusive).unwrap();
        lm.try_acquire(t1, b, LockMode::Exclusive).unwrap();
        lm.try_acquire(t2, c, LockMode::Shared).unwrap();
        lm.try_acquire(t3, c, LockMode::Shared).unwrap();
        assert_eq!(lm.request(t2, a, LockMode::Shared), Acquisition::Waiting);
        assert_eq!(lm.request(t3, b, LockMode::Shared), Acquisition::Waiting);
        lm
    };

    // Aborting the victim of one leaves the other.
    let mut lm = build();
    let Acquisition::Deadlock(first) = lm.request(t1, c, LockMode::Exclusive) else {
        panic!("t1 waits for t2 and t3, and both for t1");
    };
    assert_ne!(first.victim, t1);
    lm.release_all(first.victim);
    let second = lm.find_deadlock().unwrap();
    assert!(second.cycle.contains(&t1));
    assert!(!second.cycle.contains(&first.victim));
    lm.release_all(second.victim);
    assert!(lm.find_deadlock().is_none());

    // Aborting the transaction that asked leaves none.
    let mut lm = build();
    assert!(matches!(
        lm.request(t1, c, LockMode::Exclusive),
        Acquisition::Deadlock(_)
    ));
    assert_eq!(lm.release_all(t1), 2);
    assert!(lm.find_deadlock().is_none());
}
