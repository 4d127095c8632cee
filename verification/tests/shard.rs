use lock_db::ledger::Whole;
use lock_db::shard::{shard_bits, shard_index, shards_for, ShardInner};
use lock_db::{KeyRange, LockMode, ResourceId, TxnId, WaitForGraph};

#[test]
fn four_shards_per_thread_within_bounds() {
    assert_eq!(shards_for(0), 16);
    assert_eq!(shards_for(3), 16);
    assert_eq!(shards_for(4), 16);
    assert_eq!(shards_for(6), 24);
    assert_eq!(shards_for(256), 1024);
    assert_eq!(shards_for(usize::MAX), 1024);
}

#[test]
fn shard_bits_round_up() {
    assert_eq!(shard_bits(0), 0);
    assert_eq!(shard_bits(1), 0);
    assert_eq!(shard_bits(2), 1);
    assert_eq!(shard_bits(5), 3);
    assert_eq!(shard_bits(1024), 10);
    assert_eq!(shard_bits(usize::MAX / 2 + 1), usize::BITS - 1);
}

#[test]
fn one_shard_holds_everything() {
    assert_eq!(shard_index(0, ResourceId::new(0)), 0);
    assert_eq!(shard_index(0, ResourceId::new(u64::MAX)), 0);
}

#[test]
fn shard_lets_go_of_points_and_ranges() {
    let mut shard = ShardInner::new();
    let (t1, t2, res) = (TxnId::new(1), TxnId::new(2), ResourceId::new(7));
    for txn in [t1, t2] {
        shard
            .points
            .try_acquire(txn, res, Whole, LockMode::Shared)
            .unwrap();
    }
    for key in [3, 4] {
        shard
            .ranges
            .try_acquire(t1, res, KeyRange::point(key), LockMode::Exclusive)
            .unwrap();
    }
    assert_eq!(shard.release_all(t1), 3);
    assert_eq!(shard.release_all(t1), 0);
    assert_eq!(shard.points.holder_count(res), 1);
    assert_eq!(shard.ranges.holder_count(res), 0);
}

#[test]
fn shard_knows_who_stands_in_the_way() {
    let mut shard = ShardInner::new();
    let res = ResourceId::new(7);
    for id in [1, 2, 3] {
        shard
            .points
            .try_acquire(TxnId::new(id), res, Whole, LockMode::IntentionShared)
            .unwrap();
    }
    shard
        .points
        .try_acquire(TxnId::new(2), res, Whole, LockMode::Shared)
        .unwrap();
    let mut graph = WaitForGraph::new();
    shard.add_waits(
        &mut graph,
        TxnId::new(3),
        res,
        LockMode::IntentionExclusive,
    );
    assert!(graph.waits_for(TxnId::new(3), TxnId::new(2)));
    assert!(!graph.waits_for(TxnId::new(3), TxnId::new(1)));
    assert!(!graph.waits_for(TxnId::new(3), TxnId::new(3)));
    assert_eq!(graph.waiter_count(), 1);
}
