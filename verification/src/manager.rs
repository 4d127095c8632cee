//! The lock table: a sharded map from resources to holders.
//!
//! The table is split into a fixed number of independent shards, each with its
//! own slice of the resource space, so that two transactions that touch
//! resources in different shards never meet. A request that cannot be granted
//! is refused at once or recorded as waiting; no operation blocks.
use crate::deadlock::{self, Deadlock, VictimPolicy, WaitForGraph};
use crate::error::LockError;
use crate::graph;
use crate::id::{self, ResourceId, TxnId};
use crate::ledger::{self, Claim, Extent, Whole};
use crate::mode::LockMode;
use crate::range::KeyRange;
use crate::shard::{self, ShardInner};
use std::collections::HashMap;
use vstd::arithmetic::power2;
use vstd::prelude::*;

verus! {

/// What a lock table holds.
#[verifier::ext_equal]
pub struct LockTable {
    /// The locks on whole resources.
    pub points: Map<Claim<Whole>, LockMode>,
    /// The locks on key ranges.
    pub ranges: Map<Claim<KeyRange>, LockMode>,
    /// What each waiting transaction waits for.
    pub waits: Map<TxnId, (ResourceId, LockMode)>,
}

/// The claim of `txn` on the whole of `res`.
pub open spec fn point(txn: TxnId, res: ResourceId) -> Claim<Whole> {
    Claim { res, txn, extent: Whole }
}

/// The claim of `txn` on a range of the keys of `space`.
pub open spec fn span(txn: TxnId, space: ResourceId, range: KeyRange) -> Claim<KeyRange> {
    Claim { res: space, txn, extent: range }
}

impl LockTable {
    /// The table in which nothing is held and no one waits.
    pub open spec fn empty() -> Self {
        LockTable { points: Map::empty(), ranges: Map::empty(), waits: Map::empty() }
    }

    /// Whether `waiter` waits for a lock that a lock of `holder` stands in the way
    /// of.
    pub open spec fn waits_for(self, waiter: TxnId, holder: TxnId) -> bool {
        &&& self.waits.contains_key(waiter)
        &&& ledger::blocked_by(
            self.points,
            point(waiter, self.waits[waiter].0),
            self.waits[waiter].1,
            holder,
        )
    }

    /// The wait-for relation of the table.
    pub open spec fn wait_edges(self) -> Set<(TxnId, TxnId)> {
        Set::new(|e: (TxnId, TxnId)| self.waits_for(e.0, e.1))
    }

    /// The table after granting `mode` on `res` to `txn`, which then waits no
    /// longer.
    pub open spec fn granting(self, txn: TxnId, res: ResourceId, mode: LockMode) -> Self {
        LockTable {
            points: self.points.insert(
                point(txn, res),
                ledger::upgraded(self.points, point(txn, res), mode),
            ),
            waits: self.waits.remove(txn),
            ..self
        }
    }

    /// The table after recording that `txn` waits for `mode` on `res`.
    pub open spec fn waiting_for(self, txn: TxnId, res: ResourceId, mode: LockMode) -> Self {
        LockTable { waits: self.waits.insert(txn, (res, mode)), ..self }
    }

    /// Whether no two transactions hold incompatible locks on the same resource,
    /// or on overlapping ranges of the same key space.
    pub open spec fn coherent(self) -> bool {
        ledger::coherent(self.points) && ledger::coherent(self.ranges)
    }
}

/// The outcome of a request that may wait.
#[derive(Debug, Clone, PartialEq, Eq)]
pub enum Acquisition {
    /// The lock was granted.
    Granted,
    /// The lock could not be granted; the transaction is recorded as waiting.
    Waiting,
    /// The lock could not be granted, and waiting for it closes a cycle. The
    /// transaction is recorded as waiting; the caller is to abort the victim.
    Deadlock(Deadlock),
}

/// Whether `d` is a genuine deadlock of a table: its cycle is a cycle of the
/// table's wait-for relation that names no transaction twice, and its victim is
/// the youngest member.
pub open spec fn is_deadlock(table: LockTable, d: Deadlock) -> bool {
    deadlock::is_deadlock(table.wait_edges(), VictimPolicy::Youngest, d)
}

/// A sharded lock table mapping resources to the transactions that hold them.
#[must_use]
pub struct LockManager {
    shards: Vec<ShardInner>,
    /// The binary logarithm of the number of shards.
    bits: u32,
    /// What each waiting transaction waits for, keyed by its number.
    waits: HashMap<u64, (ResourceId, LockMode)>,
}

impl View for LockManager {
    type V = LockTable;

    closed spec fn view(&self) -> LockTable {
        LockTable {
            points: spread(self.point_maps(), self.bits as nat),
            ranges: spread(self.range_maps(), self.bits as nat),
            waits: Map::new(
                |t: TxnId| self.waits@.contains_key(t.id()),
                |t: TxnId| self.waits@[t.id()],
            ),
        }
    }
}

impl LockManager {
    /// The point locks of each shard.
    spec fn point_maps(&self) -> Seq<Map<Claim<Whole>, LockMode>> {
        self.shards@.map_values(|s: ShardInner| s.points@)
    }

    /// The range locks of each shard.
    spec fn range_maps(&self) -> Seq<Map<Claim<KeyRange>, LockMode>> {
        self.shards@.map_values(|s: ShardInner| s.ranges@)
    }

    /// The shard of a resource.
    spec fn shard_for(&self, res: ResourceId) -> ShardInner {
        self.shards@[shard::shard_of(self.bits as nat, res) as int]
    }

    /// Whether `self` came from `before`, a table in order, by a change to the
    /// shard of `res` that leaves the shard in order.
    spec fn differs_in_shard_of(&self, before: &Self, res: ResourceId) -> bool {
        &&& before.wf()
        &&& self.bits == before.bits
        &&& self.waits == before.waits
        &&& self.shards@ == before.shards@.update(
            shard::shard_of(before.bits as nat, res) as int,
            self.shard_for(res),
        )
        &&& self.shard_for(res).wf()
    }

    /// The number of shards.
    pub closed spec fn shard_count(&self) -> nat {
        self.shards@.len()
    }

    /// The binary logarithm of the number of shards.
    pub closed spec fn shard_bits(&self) -> nat {
        self.bits as nat
    }

    /// The number of shards is a power of two, each shard is in order, and each
    /// lock is in the shard of its resource.
    pub closed spec fn wf(&self) -> bool {
        &&& self.bits < usize::BITS
        &&& self.shards@.len() == power2::pow2(self.bits as nat)
        &&& forall|i: int| 0 <= i < self.shards@.len() ==> (#[trigger] self.shards@[i]).wf()
        &&& in_place(self.point_maps(), self.bits as nat)
        &&& in_place(self.range_maps(), self.bits as nat)
    }

    /// Law: the table never holds two incompatible locks, whatever was acquired
    /// and released before.
    pub proof fn law_no_incompatible_locks(&self)
        requires
            self.wf(),
        ensures
            self@.coherent(),
    {
        let points = self.point_maps();
        let ranges = self.range_maps();
        assert forall|i: int| 0 <= i < points.len() implies ledger::coherent(
            #[trigger] points[i],
        ) by {
            assert(self.shards@[i].wf());
            self.shards@[i].points.law_no_incompatible_locks();
        }
        assert forall|i: int| 0 <= i < ranges.len() implies ledger::coherent(
            #[trigger] ranges[i],
        ) by {
            assert(self.shards@[i].wf());
            self.shards@[i].ranges.law_no_incompatible_locks();
        }
        lemma_spread_coherent(points, self.bits as nat);
        lemma_spread_coherent(ranges, self.bits as nat);
    }

    /// Creates a lock manager with a shard count chosen for a machine that runs
    /// `parallelism` threads at once.
    ///
    /// The count is four shards per thread, at least 16 and at most 1024, rounded
    /// up to a power of two, so that contention on any single shard stays low.
    pub fn new(parallelism: usize) -> (lm: Self)
        ensures
            lm.wf(),
            lm@ == LockTable::empty(),
            shard::rounds_up(shard::default_shards(parallelism as nat), lm.shard_count()),
            lm.shard_count() == power2::pow2(lm.shard_bits()),
    {
        LockManager::with_shards(shard::shards_for(parallelism))
    }

    /// Creates a lock manager with an explicit shard count.
    ///
    /// `shards` is rounded up to the next power of two, and `0` is treated as
    /// `1`.
    pub fn with_shards(shards: usize) -> (lm: Self)
        requires
            shards <= usize::MAX / 2 + 1,
        ensures
            lm.wf(),
            lm@ == LockTable::empty(),
            shard::rounds_up(if shards == 0 { 1 } else { shards as nat }, lm.shard_count()),
            lm.shard_count() == power2::pow2(lm.shard_bits()),
    {
        let bits: u32 = shard::shard_bits(shards);
        proof {
            vstd::bits::lemma_usize_pow2_no_overflow(bits as nat);
            vstd::bits::lemma_usize_shl_is_mul(1, bits as usize);
        }
        let n: usize = 1usize << bits;
        let mut list: Vec<ShardInner> = Vec::with_capacity(n);
        let mut i: usize = 0;
        while i < n
            invariant
                0 <= i <= n,
                list@.len() == i,
                forall|j: int| 0 <= j < i ==> (#[trigger] list@[j]).wf(),
                forall|j: int|
                    0 <= j < i ==> (#[trigger] list@[j]).points@ == Map::<
                        Claim<Whole>,
                        LockMode,
                    >::empty(),
                forall|j: int|
                    0 <= j < i ==> (#[trigger] list@[j]).ranges@ == Map::<
                        Claim<KeyRange>,
                        LockMode,
                    >::empty(),
            decreases n - i,
        {
            list.push(ShardInner::new());
            i += 1;
        }
        let lm = LockManager { shards: list, bits, waits: HashMap::new() };
        proof {
            assert forall|c: Claim<Whole>| !#[trigger] lm@.points.contains_key(c) by {
                shard::law_shard_is_in_range(bits as nat, c.res);
            }
            assert forall|c: Claim<KeyRange>| !#[trigger] lm@.ranges.contains_key(c) by {
                shard::law_shard_is_in_range(bits as nat, c.res);
            }
            assert(lm@.points =~= LockTable::empty().points);
            assert(lm@.ranges =~= LockTable::empty().ranges);
            assert(lm@.waits =~= LockTable::empty().waits);
        }
        lm
    }

    /// Returns the number of shards in the table, always a power of two.
    #[must_use]
    pub fn shards(&self) -> (n: usize)
        requires
            self.wf(),
        ensures
            n == self.shard_count(),
            n == power2::pow2(self.shard_bits()),
    {
        self.shards.len()
    }

    /// Maps a resource id to the index of the shard that holds its locks.
    #[must_use]
    pub fn shard_index(&self, res: ResourceId) -> (index: usize)
        requires
            self.wf(),
        ensures
            index < self.shard_count(),
            index == shard::shard_of(self.shard_bits(), res),
    {
        shard::shard_index(self.bits, res)
    }

    /// Tries to acquire `mode` on `res` for `txn` without blocking.
    ///
    /// The request is granted when no other transaction holds `res` in a mode
    /// incompatible with `mode`. A transaction that holds `res` already ends up
    /// holding the join of the two modes; asking for no more than it holds
    /// changes nothing. Otherwise nothing is changed and
    /// [`LockError::Conflict`] is returned.
    pub fn try_acquire(&mut self, txn: TxnId, res: ResourceId, mode: LockMode) -> (r: Result<
        (),
        LockError,
    >)
        requires
            old(self).wf(),
        ensures
            final(self).wf(),
            final(self).shard_bits() == old(self).shard_bits(),
            final(self).shard_count() == old(self).shard_count(),
            r == (if ledger::blocked(old(self)@.points, point(txn, res), mode) {
                Err(LockError::Conflict)
            } else {
                Ok::<(), LockError>(())
            }),
            r is Err ==> final(self)@ == old(self)@,
            r is Ok ==> final(self)@ == (LockTable {
                points: old(self)@.points.insert(
                    point(txn, res),
                    ledger::upgraded(old(self)@.points, point(txn, res), mode),
                ),
                ..old(self)@
            }),
    {
        let ghost before = *self;
        let i: usize = self.shard_index(res);
        let r = self.shards[i].points.try_acquire(txn, res, Whole, mode);
        proof {
            let claim = point(txn, res);
            let wanted = ledger::upgraded(before@.points, claim, mode);
            before.lemma_point_lookup(claim, mode);
            if r is Ok {
                self.lemma_point_granted(&before, claim, wanted);
            } else {
                assert(self.point_maps() =~= before.point_maps());
                assert(self.range_maps() =~= before.range_maps());
                self.lemma_one_shard_changed(&before, i as int);
            }
        }
        r
    }

    /// Releases the lock `txn` holds on `res`.
    ///
    /// Returns [`LockError::NotHeld`] if `txn` holds no lock on `res`, which
    /// usually means a double release or a bookkeeping mismatch in the caller.
    pub fn release(&mut self, txn: TxnId, res: ResourceId) -> (r: Result<(), LockError>)
        requires
            old(self).wf(),
        ensures
            final(self).wf(),
            final(self).shard_bits() == old(self).shard_bits(),
            final(self).shard_count() == old(self).shard_count(),
            r == (if old(self)@.points.contains_key(point(txn, res)) {
                Ok(())
            } else {
                Err::<(), LockError>(LockError::NotHeld)
            }),
            final(self)@ == (LockTable {
                points: old(self)@.points.remove(point(txn, res)),
                ..old(self)@
            }),
    {
        let ghost before = *self;
        let i: usize = self.shard_index(res);
        let r = self.shards[i].points.release(txn, res, Whole);
        proof {
            before.lemma_point_lookup(point(txn, res), LockMode::Shared);
            self.lemma_point_dropped(&before, point(txn, res));
        }
        r
    }

    /// Releases every lock held by `txn` across the whole table, point and range
    /// locks alike, and forgets what `txn` waits for.
    ///
    /// This is the call a transaction layer makes at commit or abort. It returns
    /// the number of locks released (the largest `usize` if there are more).
    pub fn release_all(&mut self, txn: TxnId) -> (n: usize)
        requires
            old(self).wf(),
        ensures
            final(self).wf(),
            final(self).shard_bits() == old(self).shard_bits(),
            final(self).shard_count() == old(self).shard_count(),
            final(self)@ == (LockTable {
                points: ledger::without_txn(old(self)@.points, txn),
                ranges: ledger::without_txn(old(self)@.ranges, txn),
                waits: old(self)@.waits.remove(txn),
            }),
            n == shard::saturated(
                ledger::claims_of(old(self)@.points, txn).len() + ledger::claims_of(
                    old(self)@.ranges,
                    txn,
                ).len(),
            ),
            ledger::claims_of(old(self)@.points, txn).len() + ledger::claims_of(
                old(self)@.ranges,
                txn,
            ).len() <= usize::MAX ==> n == ledger::claims_of(old(self)@.points, txn).len()
                + ledger::claims_of(old(self)@.ranges, txn).len(),
            ledger::claims_of(old(self)@.points, txn).finite(),
            ledger::claims_of(old(self)@.ranges, txn).finite(),
    {
        let ghost before = *self;
        let ghost points = before.point_maps();
        let ghost ranges = before.range_maps();
        let ghost bits = before.bits as nat;
        let mut released: usize = 0;
        let mut i: usize = 0;
        proof {
            lemma_no_prefix(points, bits, txn);
            lemma_no_prefix(ranges, bits, txn);
        }
        while i < self.shards.len()
            invariant
                before.wf(),
                bits == before.bits,
                points == before.point_maps(),
                ranges == before.range_maps(),
                self.bits == before.bits,
                self.waits == before.waits,
                self.shards@.len() == before.shards@.len(),
                0 <= i <= self.shards@.len(),
                forall|j: int| 0 <= j < self.shards@.len() ==> (#[trigger] self.shards@[j]).wf(),
                forall|j: int|
                    i <= j < self.shards@.len() ==> #[trigger] self.shards@[j] == before.shards@[j],
                forall|j: int|
                    0 <= j < i ==> (#[trigger] self.shards@[j]).points@ == ledger::without_txn(
                        points[j],
                        txn,
                    ) && self.shards@[j].ranges@ == ledger::without_txn(ranges[j], txn),
                claims_below(points, bits, txn, i as nat).finite(),
                claims_below(ranges, bits, txn, i as nat).finite(),
                released == shard::saturated(
                    claims_below(points, bits, txn, i as nat).len() + claims_below(
                        ranges,
                        bits,
                        txn,
                        i as nat,
                    ).len(),
                ),
            decreases self.shards@.len() - i,
        {
            proof {
                assert(self.shards@[i as int] == before.shards@[i as int]);
                assert(points[i as int] == self.shards@[i as int].points@);
                assert(ranges[i as int] == self.shards@[i as int].ranges@);
            }
            let n: usize = self.shards[i].release_all(txn);
            proof {
                lemma_one_shard_more(points, bits, txn, i as nat);
                lemma_one_shard_more(ranges, bits, txn, i as nat);
            }
            released = released.saturating_add(n);
            i += 1;
        }
        self.waits.remove(&txn.get());
        proof {
            lemma_all_shards(points, bits, txn);
            lemma_all_shards(ranges, bits, txn);
            lemma_spread_without(points, self.point_maps(), bits, txn);
            lemma_spread_without(ranges, self.range_maps(), bits, txn);
            assert(self@.waits =~= before@.waits.remove(txn));
        }
        released
    }

    /// Returns the number of transactions currently holding `res`.
    #[must_use]
    pub fn holder_count(&self, res: ResourceId) -> (n: usize)
        requires
            self.wf(),
        ensures
            n == ledger::claims_on(self@.points, res).len(),
            ledger::claims_on(self@.points, res).finite(),
    {
        let i: usize = self.shard_index(res);
        proof {
            lemma_spread_claims_on(self.point_maps(), self.bits as nat, res);
        }
        self.shards[i].points.holder_count(res)
    }

    /// Returns the mode in which `txn` holds `res`, or `None` if it holds no
    /// lock on it.
    #[must_use]
    pub fn mode_held(&self, txn: TxnId, res: ResourceId) -> (r: Option<LockMode>)
        requires
            self.wf(),
        ensures
            r == self@.points.get(point(txn, res)),
    {
        let i: usize = self.shard_index(res);
        proof {
            self.lemma_point_lookup(point(txn, res), LockMode::Shared);
        }
        self.shards[i].points.mode_held(txn, res, Whole)
    }

    /// Tries to acquire `mode` on a range of the keys of `space` for `txn`
    /// without blocking.
    ///
    /// The request is granted when no other transaction holds an overlapping
    /// range of `space` in a mode incompatible with `mode`. A transaction that
    /// holds the very same range already ends up holding the join of the two
    /// modes. Otherwise nothing is changed and [`LockError::Conflict`] is
    /// returned.
    pub fn try_acquire_range(
        &mut self,
        txn: TxnId,
        space: ResourceId,
        range: KeyRange,
        mode: LockMode,
    ) -> (r: Result<(), LockError>)
        requires
            old(self).wf(),
        ensures
            final(self).wf(),
            final(self).shard_bits() == old(self).shard_bits(),
            final(self).shard_count() == old(self).shard_count(),
            r == (if ledger::blocked(old(self)@.ranges, span(txn, space, range), mode) {
                Err(LockError::Conflict)
            } else {
                Ok::<(), LockError>(())
            }),
            r is Err ==> final(self)@ == old(self)@,
            r is Ok ==> final(self)@ == (LockTable {
                ranges: old(self)@.ranges.insert(
                    span(txn, space, range),
                    ledger::upgraded(old(self)@.ranges, span(txn, space, range), mode),
                ),
                ..old(self)@
            }),
    {
        let ghost before = *self;
        let i: usize = self.shard_index(space);
        let r = self.shards[i].ranges.try_acquire(txn, space, range, mode);
        proof {
            let claim = span(txn, space, range);
            let wanted = ledger::upgraded(before@.ranges, claim, mode);
            before.lemma_range_lookup(claim, mode);
            if r is Ok {
                self.lemma_range_granted(&before, claim, wanted);
            } else {
                assert(self.point_maps() =~= before.point_maps());
                assert(self.range_maps() =~= before.range_maps());
                self.lemma_one_shard_changed(&before, i as int);
            }
        }
        r
    }

    /// Releases the lock `txn` holds on exactly `range` of `space`.
    ///
    /// Returns [`LockError::NotHeld`] if there is none.
    pub fn release_range(&mut self, txn: TxnId, space: ResourceId, range: KeyRange) -> (r: Result<
        (),
        LockError,
    >)
        requires
            old(self).wf(),
        ensures
            final(self).wf(),
            final(self).shard_bits() == old(self).shard_bits(),
            final(self).shard_count() == old(self).shard_count(),
            r == (if old(self)@.ranges.contains_key(span(txn, space, range)) {
                Ok(())
            } else {
                Err::<(), LockError>(LockError::NotHeld)
            }),
            final(self)@ == (LockTable {
                ranges: old(self)@.ranges.remove(span(txn, space, range)),
                ..old(self)@
            }),
    {
        let ghost before = *self;
        let i: usize = self.shard_index(space);
        let r = self.shards[i].ranges.release(txn, space, range);
        proof {
            before.lemma_range_lookup(span(txn, space, range), LockMode::Shared);
            self.lemma_range_dropped(&before, span(txn, space, range));
        }
        r
    }

    /// Returns the number of range locks held on `space`.
    #[must_use]
    pub fn range_count(&self, space: ResourceId) -> (n: usize)
        requires
            self.wf(),
        ensures
            n == ledger::claims_on(self@.ranges, space).len(),
            ledger::claims_on(self@.ranges, space).finite(),
    {
        let i: usize = self.shard_index(space);
        proof {
            lemma_spread_claims_on(self.range_maps(), self.bits as nat, space);
        }
        self.shards[i].ranges.holder_count(space)
    }

    /// Requests `mode` on `res` for `txn`, recording a wait if it cannot be
    /// granted.
    ///
    /// A request that can be granted is granted, and ends any wait of `txn`. One
    /// that cannot is recorded as what `txn` waits for, and reported as a
    /// deadlock if it leads to a cycle of the wait-for relation. The relation is
    /// that of the current table, so that no wait that is over counts. Unless a
    /// deadlock is reported, a table without deadlocks stays without; and if one
    /// is, its cycle begins with `txn`.
    pub fn request(&mut self, txn: TxnId, res: ResourceId, mode: LockMode) -> (r: Acquisition)
        requires
            old(self).wf(),
        ensures
            final(self).wf(),
            final(self).shard_bits() == old(self).shard_bits(),
            final(self).shard_count() == old(self).shard_count(),
            r is Granted <==> !ledger::blocked(old(self)@.points, point(txn, res), mode),
            r is Granted ==> final(self)@ == old(self)@.granting(txn, res, mode),
            r is Granted ==> final(self)@.points.contains_key(
                Claim { res, txn, extent: Whole },
            ) && final(self)@.points[Claim { res, txn, extent: Whole }].at_least(mode),
            !(r is Granted) ==> final(self)@ == old(self)@.waiting_for(txn, res, mode),
            r matches Acquisition::Deadlock(d) ==> is_deadlock(final(self)@, d) && graph::reaches(
                final(self)@.wait_edges(),
                txn,
                d.cycle@.first(),
            ),
            r is Waiting ==> forall|c: Seq<TxnId>| #[trigger]
                graph::is_cycle(final(self)@.wait_edges(), c) ==> !graph::reaches(
                    final(self)@.wait_edges(),
                    txn,
                    c.first(),
                ),
            graph::acyclic(old(self)@.wait_edges()) && !(r is Deadlock) ==> graph::acyclic(
                final(self)@.wait_edges(),
            ),
            graph::acyclic(old(self)@.wait_edges()) ==> (r matches Acquisition::Deadlock(d)
                ==> d.cycle@.first() == txn),
    {
        let ghost before = *self;
        proof {
            if graph::acyclic(before@.wait_edges()) {
                crate::laws::law_granting_makes_no_deadlock(before@, txn, res, mode);
                assert forall|c: Seq<TxnId>| #[trigger]
                    graph::is_cycle(before@.waiting_for(txn, res, mode).wait_edges(), c) implies
                    graph::reaches(
                    before@.waiting_for(txn, res, mode).wait_edges(),
                    txn,
                    c.first(),
                ) by {
                    crate::laws::law_new_deadlock_is_reachable_from_its_waiter(
                        before@,
                        txn,
                        res,
                        mode,
                        c,
                    );
                }
            }
        }
        let r = self.try_acquire(txn, res, mode);
        if r.is_ok() {
            let ghost granted = *self;
            self.waits.remove(&txn.get());
            proof {
                assert(self.point_maps() =~= granted.point_maps());
                assert(self.range_maps() =~= granted.range_maps());
                assert(self@.waits =~= before@.waits.remove(txn));
            }
            return Acquisition::Granted;
        }
        let ghost refused = *self;
        self.waits.insert(txn.get(), (res, mode));
        proof {
            assert(self.point_maps() =~= refused.point_maps());
            assert(self.range_maps() =~= refused.range_maps());
            assert(self@.waits =~= before@.waits.insert(txn, (res, mode)));
        }
        let waits = self.wait_graph();
        match waits.deadlock_from(txn, VictimPolicy::default()) {
            Some(d) => {
                proof {
                    if graph::acyclic(before@.wait_edges()) {
                        crate::laws::law_new_deadlock_is_reachable_from_its_waiter(
                            before@,
                            txn,
                            res,
                            mode,
                            d.cycle@,
                        );
                        graph::law_cycle_of_its_start_begins_there(waits@, txn, d.cycle@);
                    }
                }
                Acquisition::Deadlock(d)
            },
            None => {
                proof {
                    let edges = before@.waiting_for(txn, res, mode).wait_edges();
                    assert(self@ == before@.waiting_for(txn, res, mode));
                    assert(waits@ == edges);
                    if graph::acyclic(before@.wait_edges()) {
                        assert forall|c: Seq<TxnId>| !#[trigger] graph::is_cycle(edges, c) by {
                            if graph::is_cycle(edges, c) {
                                assert(graph::reaches(edges, txn, c.first()));
                            }
                        }
                    }
                }
                Acquisition::Waiting
            },
        }
    }

    /// Returns a deadlock of the current table if there is one, or `None`.
    ///
    /// When there are several, which one is returned is unspecified.
    #[must_use]
    pub fn find_deadlock(&self) -> (r: Option<Deadlock>)
        requires
            self.wf(),
        ensures
            r matches Some(d) ==> is_deadlock(self@, d),
            r is None <==> graph::acyclic(self@.wait_edges()),
    {
        self.wait_graph().find_deadlock(VictimPolicy::default())
    }

    /// Returns the number of transactions recorded as waiting.
    #[must_use]
    pub fn waiting_count(&self) -> (n: usize)
        ensures
            n == self@.waits.dom().len(),
            self@.waits.dom().finite(),
    {
        proof {
            id::lemma_txn_count(self.waits@.dom(), self@.waits.dom());
        }
        self.waits.len()
    }

    /// Builds the wait-for graph of the current table.
    #[must_use]
    pub fn wait_graph(&self) -> (g: WaitForGraph)
        requires
            self.wf(),
        ensures
            g.wf(),
            g@ == self@.wait_edges(),
    {
        let waiters = id::txns_of(&self.waits);
        let mut g = WaitForGraph::new();
        let mut i: usize = 0;
        while i < waiters.len()
            invariant
                self.wf(),
                g.wf(),
                0 <= i <= waiters@.len(),
                forall|w: TxnId| #[trigger] waiters@.contains(w) <==> self@.waits.contains_key(w),
                forall|a: TxnId, b: TxnId| #[trigger]
                    g@.contains((a, b)) <==> self@.waits_for(a, b) && waiters@.take(
                        i as int,
                    ).contains(a),
            decreases waiters@.len() - i,
        {
            let waiter = waiters[i];
            assert(waiters@.contains(waiter));
            let ghost before = g@;
            if let Some(wait) = self.waits.get(&waiter.get()) {
                let res = wait.0;
                let mode = wait.1;
                let j: usize = self.shard_index(res);
                self.shards[j].add_waits(&mut g, waiter, res, mode);
                proof {
                    assert(self@.waits[waiter] == (res, mode));
                    self.lemma_point_lookup(point(waiter, res), mode);
                    assert forall|a: TxnId, b: TxnId| #[trigger] g@.contains((a, b))
                        <==> self@.waits_for(a, b) && waiters@.take(i + 1).contains(a) by {
                        assert(waiters@.take(i + 1) =~= waiters@.take(i as int).push(waiter));
                        ledger::lemma_contains_push(waiters@.take(i as int), waiter, a);
                        assert(before.contains((a, b)) <==> self@.waits_for(a, b)
                            && waiters@.take(i as int).contains(a));
                    }
                }
            }
            i += 1;
        }
        proof {
            assert(waiters@.take(i as int) =~= waiters@);
            assert forall|e: (TxnId, TxnId)| #[trigger] g@.contains(e)
                <==> self@.wait_edges().contains(e) by {
                assert(g@.contains((e.0, e.1)) <==> self@.waits_for(e.0, e.1) && waiters@.contains(
                    e.0,
                ));
            }
            assert(g@ =~= self@.wait_edges());
        }
        g
    }

    /// A point claim is decided by the shard of its resource.
    proof fn lemma_point_lookup(&self, claim: Claim<Whole>, mode: LockMode)
        requires
            self.wf(),
        ensures
            ({
                let own = self.shards@[shard::shard_of(self.bits as nat, claim.res) as int].points@;
                &&& ledger::blocked(self@.points, claim, mode) == ledger::blocked(own, claim, mode)
                &&& ledger::upgraded(self@.points, claim, mode) == ledger::upgraded(
                    own,
                    claim,
                    mode,
                )
                &&& self@.points.get(claim) == own.get(claim)
                &&& self@.points.contains_key(claim) == own.contains_key(claim)
                &&& forall|h: TxnId| #[trigger]
                    ledger::blocked_by(self@.points, claim, mode, h) == ledger::blocked_by(
                        own,
                        claim,
                        mode,
                        h,
                    )
            }),
    {
        shard::law_shard_is_in_range(self.bits as nat, claim.res);
        lemma_spread_local(self.point_maps(), self.bits as nat, claim, mode);
    }

    /// A range claim is decided by the shard of its key space.
    proof fn lemma_range_lookup(&self, claim: Claim<KeyRange>, mode: LockMode)
        requires
            self.wf(),
        ensures
            ({
                let own = self.shards@[shard::shard_of(self.bits as nat, claim.res) as int].ranges@;
                &&& ledger::blocked(self@.ranges, claim, mode) == ledger::blocked(own, claim, mode)
                &&& ledger::upgraded(self@.ranges, claim, mode) == ledger::upgraded(
                    own,
                    claim,
                    mode,
                )
                &&& self@.ranges.contains_key(claim) == own.contains_key(claim)
            }),
    {
        shard::law_shard_is_in_range(self.bits as nat, claim.res);
        lemma_spread_local(self.range_maps(), self.bits as nat, claim, mode);
    }

    /// Granting a point claim in its shard grants it in the table.
    proof fn lemma_point_granted(&self, before: &Self, claim: Claim<Whole>, mode: LockMode)
        requires
            self.differs_in_shard_of(before, claim.res),
            self.shard_for(claim.res).points@ == before.shard_for(claim.res).points@.insert(
                claim,
                mode,
            ),
            self.shard_for(claim.res).ranges@ == before.shard_for(claim.res).ranges@,
        ensures
            self.wf(),
            self@ == (LockTable { points: before@.points.insert(claim, mode), ..before@ }),
    {
        let i = shard::shard_of(before.bits as nat, claim.res) as int;
        shard::law_shard_is_in_range(before.bits as nat, claim.res);
        let maps = before.point_maps();
        lemma_spread_insert(maps, before.bits as nat, claim, mode);
        assert(self.point_maps() =~= maps.update(i, maps[i].insert(claim, mode)));
        assert(self.range_maps() =~= before.range_maps());
        self.lemma_one_shard_changed(before, i);
    }

    /// Dropping a point claim from its shard drops it from the table.
    proof fn lemma_point_dropped(&self, before: &Self, claim: Claim<Whole>)
        requires
            self.differs_in_shard_of(before, claim.res),
            self.shard_for(claim.res).points@ == before.shard_for(claim.res).points@.remove(claim),
            self.shard_for(claim.res).ranges@ == before.shard_for(claim.res).ranges@,
        ensures
            self.wf(),
            self@ == (LockTable { points: before@.points.remove(claim), ..before@ }),
    {
        let i = shard::shard_of(before.bits as nat, claim.res) as int;
        shard::law_shard_is_in_range(before.bits as nat, claim.res);
        let maps = before.point_maps();
        lemma_spread_remove(maps, before.bits as nat, claim);
        assert(self.point_maps() =~= maps.update(i, maps[i].remove(claim)));
        assert(self.range_maps() =~= before.range_maps());
        self.lemma_one_shard_changed(before, i);
    }

    /// Granting a range claim in its shard grants it in the table.
    proof fn lemma_range_granted(&self, before: &Self, claim: Claim<KeyRange>, mode: LockMode)
        requires
            self.differs_in_shard_of(before, claim.res),
            self.shard_for(claim.res).ranges@ == before.shard_for(claim.res).ranges@.insert(
                claim,
                mode,
            ),
            self.shard_for(claim.res).points@ == before.shard_for(claim.res).points@,
        ensures
            self.wf(),
            self@ == (LockTable { ranges: before@.ranges.insert(claim, mode), ..before@ }),
    {
        let i = shard::shard_of(before.bits as nat, claim.res) as int;
        shard::law_shard_is_in_range(before.bits as nat, claim.res);
        let maps = before.range_maps();
        lemma_spread_insert(maps, before.bits as nat, claim, mode);
        assert(self.range_maps() =~= maps.update(i, maps[i].insert(claim, mode)));
        assert(self.point_maps() =~= before.point_maps());
        self.lemma_one_shard_changed(before, i);
    }

    /// Dropping a range claim from its shard drops it from the table.
    proof fn lemma_range_dropped(&self, before: &Self, claim: Claim<KeyRange>)
        requires
            self.differs_in_shard_of(before, claim.res),
            self.shard_for(claim.res).ranges@ == before.shard_for(claim.res).ranges@.remove(claim),
            self.shard_for(claim.res).points@ == before.shard_for(claim.res).points@,
        ensures
            self.wf(),
            self@ == (LockTable { ranges: before@.ranges.remove(claim), ..before@ }),
    {
        let i = shard::shard_of(before.bits as nat, claim.res) as int;
        shard::law_shard_is_in_range(before.bits as nat, claim.res);
        let maps = before.range_maps();
        lemma_spread_remove(maps, before.bits as nat, claim);
        assert(self.range_maps() =~= maps.update(i, maps[i].remove(claim)));
        assert(self.point_maps() =~= before.point_maps());
        self.lemma_one_shard_changed(before, i);
    }

    /// A table of which one shard has changed is in order when that shard is.
    proof fn lemma_one_shard_changed(&self, before: &Self, i: int)
        requires
            before.wf(),
            0 <= i < before.shards@.len(),
            self.bits == before.bits,
            self.shards@ == before.shards@.update(i, self.shards@[i]),
            self.shards@[i].wf(),
        ensures
            in_place(self.point_maps(), self.bits as nat) && in_place(
                self.range_maps(),
                self.bits as nat,
            ) ==> self.wf(),
    {
        assert forall|j: int| 0 <= j < self.shards@.len() implies (#[trigger] self.shards@[j]).wf() by {
            if j != i {
                assert(self.shards@[j] == before.shards@[j]);
            }
        }
    }
}

/// The claims of `txn` in the first `n` shards.
spec fn claims_below<S>(
    shards: Seq<Map<Claim<S>, LockMode>>,
    bits: nat,
    txn: TxnId,
    n: nat,
) -> Set<Claim<S>> {
    ledger::claims_of(spread(shards, bits), txn).filter(
        |c: Claim<S>| shard::shard_of(bits, c.res) < n,
    )
}

/// There are no claims in no shards.
proof fn lemma_no_prefix<S: Extent>(
    shards: Seq<Map<Claim<S>, LockMode>>,
    bits: nat,
    txn: TxnId,
)
    ensures
        claims_below(shards, bits, txn, 0).len() == 0,
        claims_below(shards, bits, txn, 0).finite(),
{
    assert(claims_below(shards, bits, txn, 0) =~= Set::<Claim<S>>::empty());
}

/// The next shard adds its claims.
proof fn lemma_one_shard_more<S: Extent>(
    shards: Seq<Map<Claim<S>, LockMode>>,
    bits: nat,
    txn: TxnId,
    i: nat,
)
    requires
        in_place(shards, bits),
        i < shards.len(),
        claims_below(shards, bits, txn, i).finite(),
        ledger::claims_of(shards[i as int], txn).finite(),
    ensures
        claims_below(shards, bits, txn, i + 1).finite(),
        claims_below(shards, bits, txn, i + 1).len() == claims_below(shards, bits, txn, i).len()
            + ledger::claims_of(shards[i as int], txn).len(),
{
    let below = claims_below(shards, bits, txn, i);
    let here = ledger::claims_of(shards[i as int], txn);
    assert forall|c: Claim<S>| #[trigger] claims_below(shards, bits, txn, i + 1).contains(c)
        <==> below.union(here).contains(c) by {
        if here.contains(c) {
            assert(shards[i as int].contains_key(c));
        }
    }
    assert(claims_below(shards, bits, txn, i + 1) =~= below.union(here));
    assert forall|c: Claim<S>| !(below.contains(c) && here.contains(c)) by {
        if here.contains(c) {
            assert(shards[i as int].contains_key(c));
        }
    }
    vstd::set_lib::lemma_set_disjoint_lens(below, here);
}

/// The claims in all shards are all claims.
proof fn lemma_all_shards<S: Extent>(
    shards: Seq<Map<Claim<S>, LockMode>>,
    bits: nat,
    txn: TxnId,
)
    requires
        bits <= 64,
        shards.len() == power2::pow2(bits),
    ensures
        claims_below(shards, bits, txn, shards.len()) == ledger::claims_of(
            spread(shards, bits),
            txn,
        ),
{
    assert forall|c: Claim<S>| #[trigger] claims_below(shards, bits, txn, shards.len()).contains(c)
        <==> ledger::claims_of(spread(shards, bits), txn).contains(c) by {
        shard::law_shard_is_in_range(bits, c.res);
    }
    assert(claims_below(shards, bits, txn, shards.len()) =~= ledger::claims_of(
        spread(shards, bits),
        txn,
    ));
}

/// When every shard lets go of a transaction, so does the table.
proof fn lemma_spread_without<S: Extent>(
    shards: Seq<Map<Claim<S>, LockMode>>,
    after: Seq<Map<Claim<S>, LockMode>>,
    bits: nat,
    txn: TxnId,
)
    requires
        in_place(shards, bits),
        bits <= 64,
        shards.len() == power2::pow2(bits),
        after.len() == shards.len(),
        forall|j: int|
            0 <= j < after.len() ==> #[trigger] after[j] == ledger::without_txn(shards[j], txn),
    ensures
        in_place(after, bits),
        spread(after, bits) == ledger::without_txn(spread(shards, bits), txn),
{
    assert forall|j: int, c: Claim<S>|
        0 <= j < after.len() && #[trigger] after[j].contains_key(c) implies shard::shard_of(
        bits,
        c.res,
    ) == j by {
        assert(shards[j].contains_key(c));
    }
    assert forall|r: ResourceId| #[trigger] shard::shard_of(bits, r) < shards.len() by {
        shard::law_shard_is_in_range(bits, r);
    }
    let all = spread(after, bits);
    let rest = ledger::without_txn(spread(shards, bits), txn);
    assert forall|c: Claim<S>| #[trigger] all.contains_key(c) <==> rest.contains_key(c) by {
        let own = shard::shard_of(bits, c.res) as int;
        assert(after[own] == ledger::without_txn(shards[own], txn));
    }
    assert forall|c: Claim<S>| #[trigger] all.contains_key(c) implies all[c] == rest[c] by {
        let own = shard::shard_of(bits, c.res) as int;
        assert(after[own] == ledger::without_txn(shards[own], txn));
    }
    assert(all =~= rest);
}

/// The locks of all shards, when each shard holds the given ones.
spec fn spread<S>(shards: Seq<Map<Claim<S>, LockMode>>, bits: nat) -> Map<Claim<S>, LockMode> {
    Map::new(
        |c: Claim<S>| shards[shard::shard_of(bits, c.res) as int].contains_key(c),
        |c: Claim<S>| shards[shard::shard_of(bits, c.res) as int][c],
    )
}

/// Whether each lock is in the shard of its resource.
spec fn in_place<S>(shards: Seq<Map<Claim<S>, LockMode>>, bits: nat) -> bool {
    forall|i: int, c: Claim<S>|
        0 <= i < shards.len() && #[trigger] shards[i].contains_key(c) ==> shard::shard_of(
            bits,
            c.res,
        ) == i
}

/// Whether a request is blocked is decided by the shard of its resource.
proof fn lemma_spread_local<S: Extent>(
    shards: Seq<Map<Claim<S>, LockMode>>,
    bits: nat,
    claim: Claim<S>,
    mode: LockMode,
)
    ensures
        ({
            let all = spread(shards, bits);
            let own = shards[shard::shard_of(bits, claim.res) as int];
            &&& ledger::blocked(all, claim, mode) == ledger::blocked(own, claim, mode)
            &&& ledger::upgraded(all, claim, mode) == ledger::upgraded(own, claim, mode)
            &&& all.get(claim) == own.get(claim)
            &&& forall|h: TxnId| #[trigger]
                ledger::blocked_by(all, claim, mode, h) == ledger::blocked_by(own, claim, mode, h)
        }),
{
    let all = spread(shards, bits);
    let own = shards[shard::shard_of(bits, claim.res) as int];
    assert forall|o: Claim<S>| #[trigger] ledger::obstructs(all, o, claim, mode)
        == ledger::obstructs(own, o, claim, mode) by {}
    if ledger::blocked(all, claim, mode) {
        let o = choose|o: Claim<S>| #[trigger] ledger::obstructs(all, o, claim, mode);
        assert(ledger::obstructs(own, o, claim, mode));
    }
    if ledger::blocked(own, claim, mode) {
        let o = choose|o: Claim<S>| #[trigger] ledger::obstructs(own, o, claim, mode);
        assert(ledger::obstructs(all, o, claim, mode));
    }
    assert forall|h: TxnId| #[trigger] ledger::blocked_by(all, claim, mode, h)
        == ledger::blocked_by(own, claim, mode, h) by {
        if ledger::blocked_by(all, claim, mode, h) {
            let o = choose|o: Claim<S>| #[trigger]
                ledger::obstructs(all, o, claim, mode) && o.txn == h;
            assert(ledger::obstructs(own, o, claim, mode));
        }
        if ledger::blocked_by(own, claim, mode, h) {
            let o = choose|o: Claim<S>| #[trigger]
                ledger::obstructs(own, o, claim, mode) && o.txn == h;
            assert(ledger::obstructs(all, o, claim, mode));
        }
    }
}

/// The claims on a resource are those in its shard.
proof fn lemma_spread_claims_on<S: Extent>(
    shards: Seq<Map<Claim<S>, LockMode>>,
    bits: nat,
    res: ResourceId,
)
    ensures
        ledger::claims_on(spread(shards, bits), res) == ledger::claims_on(
            shards[shard::shard_of(bits, res) as int],
            res,
        ),
{
    assert(ledger::claims_on(spread(shards, bits), res) =~= ledger::claims_on(
        shards[shard::shard_of(bits, res) as int],
        res,
    ));
}

/// Granting a claim in its shard grants it in the table.
proof fn lemma_spread_insert<S: Extent>(
    shards: Seq<Map<Claim<S>, LockMode>>,
    bits: nat,
    claim: Claim<S>,
    mode: LockMode,
)
    requires
        in_place(shards, bits),
        bits <= 64,
        shards.len() == power2::pow2(bits),
    ensures
        ({
            let i = shard::shard_of(bits, claim.res) as int;
            let after = shards.update(i, shards[i].insert(claim, mode));
            in_place(after, bits) && spread(after, bits) == spread(shards, bits).insert(claim, mode)
        }),
{
    let i = shard::shard_of(bits, claim.res) as int;
    let after = shards.update(i, shards[i].insert(claim, mode));
    assert forall|r: ResourceId| #[trigger] shard::shard_of(bits, r) < shards.len() by {
        shard::law_shard_is_in_range(bits, r);
    }
    assert forall|j: int, c: Claim<S>|
        0 <= j < after.len() && #[trigger] after[j].contains_key(c) implies shard::shard_of(
        bits,
        c.res,
    ) == j by {
        if c != claim {
            assert(shards[j].contains_key(c));
        } else if j != i {
            assert(shards[j].contains_key(c));
        }
    }
    assert(spread(after, bits) =~= spread(shards, bits).insert(claim, mode));
}

/// Dropping a claim from its shard drops it from the table.
proof fn lemma_spread_remove<S: Extent>(
    shards: Seq<Map<Claim<S>, LockMode>>,
    bits: nat,
    claim: Claim<S>,
)
    requires
        in_place(shards, bits),
        bits <= 64,
        shards.len() == power2::pow2(bits),
    ensures
        ({
            let i = shard::shard_of(bits, claim.res) as int;
            let after = shards.update(i, shards[i].remove(claim));
            in_place(after, bits) && spread(after, bits) == spread(shards, bits).remove(claim)
        }),
{
    let i = shard::shard_of(bits, claim.res) as int;
    let after = shards.update(i, shards[i].remove(claim));
    assert forall|r: ResourceId| #[trigger] shard::shard_of(bits, r) < shards.len() by {
        shard::law_shard_is_in_range(bits, r);
    }
    assert forall|j: int, c: Claim<S>|
        0 <= j < after.len() && #[trigger] after[j].contains_key(c) implies shard::shard_of(
        bits,
        c.res,
    ) == j by {
        assert(shards[j].contains_key(c));
    }
    assert(spread(after, bits) =~= spread(shards, bits).remove(claim));
}

/// The table is coherent when each shard is.
proof fn lemma_spread_coherent<S: Extent>(shards: Seq<Map<Claim<S>, LockMode>>, bits: nat)
    requires
        bits <= 64,
        shards.len() == power2::pow2(bits),
        forall|i: int| 0 <= i < shards.len() ==> ledger::coherent(#[trigger] shards[i]),
    ensures
        ledger::coherent(spread(shards, bits)),
{
    let all = spread(shards, bits);
    assert forall|a: Claim<S>, b: Claim<S>|
        all.contains_key(a) && all.contains_key(b) && a.res == b.res && a.txn != b.txn
            && a.extent.touches(b.extent) implies (#[trigger] all[a]).compatible(
        #[trigger] all[b],
    ) by {
        shard::law_shard_is_in_range(bits, a.res);
        let own = shards[shard::shard_of(bits, a.res) as int];
        assert(ledger::coherent(own));
        assert(own[a].compatible(own[b]));
    }
}

} // verus!
