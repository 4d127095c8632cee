//! Which shard of the table a resource belongs to.
//!
//! The table is split into a power-of-two number of shards. The shard of a
//! resource is chosen by Fibonacci hashing its id, which spreads sequential ids
//! (the common case for page and row numbers) evenly across shards.
use crate::deadlock::WaitForGraph;
use crate::id::{ResourceId, TxnId};
use crate::ledger::{self, Claim, Ledger, Whole};
use crate::mode::LockMode;
use crate::range::KeyRange;
use vstd::arithmetic::power2;
use vstd::prelude::*;

verus! {

/// Multiplier for Fibonacci hashing: 2^64 divided by the golden ratio.
pub const FIB_HASH: u64 = 0x9E37_79B9_7F4A_7C15;

/// The Fibonacci hash of a resource id.
pub open spec fn fib_hash(res: ResourceId) -> nat {
    (res.id() as nat * FIB_HASH as nat) % power2::pow2(64)
}

/// The shard of a resource in a table of `2^bits` shards: the top `bits` bits of
/// its hash, the most-mixed end of a multiplicative hash.
pub open spec fn shard_of(bits: nat, res: ResourceId) -> nat {
    fib_hash(res) / power2::pow2((64 - bits) as nat)
}

/// Whether `n` is the least power of two that is at least `shards`.
pub open spec fn rounds_up(shards: nat, n: nat) -> bool {
    &&& shards <= n
    &&& exists|e: nat| n == #[trigger] power2::pow2(e)
    &&& forall|e: nat| shards <= #[trigger] power2::pow2(e) ==> n <= power2::pow2(e)
}

/// The number of shards wanted for `parallelism` threads: four for each, at least
/// 16 and at most 1024.
pub open spec fn default_shards(parallelism: nat) -> nat {
    if 4 * parallelism < 16 {
        16
    } else if 4 * parallelism > 1024 {
        1024
    } else {
        4 * parallelism
    }
}

/// Returns the number of shards wanted for a machine that runs `parallelism`
/// threads at once.
#[must_use]
pub fn shards_for(parallelism: usize) -> (shards: usize)
    ensures
        shards == default_shards(parallelism as nat),
{
    if parallelism < 4 {
        16
    } else if parallelism > 256 {
        1024
    } else {
        parallelism * 4
    }
}

/// Returns the binary logarithm of `shards` rounded up to a power of two, with
/// `0` treated as `1`.
#[must_use]
pub fn shard_bits(shards: usize) -> (bits: u32)
    requires
        shards <= usize::MAX / 2 + 1,
    ensures
        bits < usize::BITS,
        shards <= power2::pow2(bits as nat),
        bits > 0 ==> power2::pow2((bits - 1) as nat) < shards,
        rounds_up(if shards == 0 { 1 } else { shards as nat }, power2::pow2(bits as nat)),
{
    let mut n: usize = 1;
    let mut bits: u32 = 0;
    proof {
        power2::lemma2_to64();
    }
    while n < shards
        invariant
            n == power2::pow2(bits as nat),
            bits < usize::BITS,
            shards <= usize::MAX / 2 + 1,
            bits > 0 ==> power2::pow2((bits - 1) as nat) < shards,
        decreases usize::BITS - bits,
    {
        proof {
            power2::lemma_pow2_unfold((bits + 1) as nat);
            power2::lemma_pow2_pos(bits as nat);
            lemma_bits_fit(bits as nat, n as nat);
        }
        n = n * 2;
        bits = bits + 1;
    }
    proof {
        let wanted = if shards == 0 { 1nat } else { shards as nat };
        assert forall|e: nat| wanted <= #[trigger] power2::pow2(e) implies n <= power2::pow2(
            e,
        ) by {
            if e < bits {
                if e < bits - 1 {
                    power2::lemma_pow2_strictly_increases(e, (bits - 1) as nat);
                }
            } else if bits < e {
                power2::lemma_pow2_strictly_increases(bits as nat, e);
            }
        }
    }
    bits
}

/// A power of two that fits in a word has an exponent below the word's size.
proof fn lemma_bits_fit(bits: nat, n: nat)
    requires
        n == power2::pow2(bits),
        n <= usize::MAX / 2,
    ensures
        bits + 1 < usize::BITS,
{
    if bits + 1 >= usize::BITS {
        let top = (usize::BITS - 1) as nat;
        if top < bits {
            power2::lemma_pow2_strictly_increases(top, bits);
        }
        power2::lemma2_to64();
        power2::lemma2_to64_rest();
        assert(power2::pow2(top) > usize::MAX / 2);
    }
}

/// Maps a resource id to a shard index in a table of `2^bits` shards.
#[must_use]
pub fn shard_index(bits: u32, res: ResourceId) -> (index: usize)
    requires
        bits < usize::BITS,
    ensures
        index == shard_of(bits as nat, res),
        index < power2::pow2(bits as nat),
{
    proof {
        law_shard_is_in_range(bits as nat, res);
    }
    if bits == 0 {
        return 0;
    }
    let hash: u64 = res.get().wrapping_mul(FIB_HASH);
    let shift: u64 = 64 - bits as u64;
    proof {
        power2::lemma2_to64_rest();
        vstd::bits::lemma_u64_shr_is_div(hash, shift);
        vstd::bits::lemma_usize_pow2_no_overflow(bits as nat);
    }
    (hash >> shift) as usize
}

/// Law: every resource belongs to one of the shards; to the only one, where
/// there is one.
pub proof fn law_shard_is_in_range(bits: nat, res: ResourceId)
    requires
        bits <= 64,
    ensures
        shard_of(bits, res) < power2::pow2(bits),
        bits == 0 ==> shard_of(bits, res) == 0,
{
    let hash = fib_hash(res);
    let unit = power2::pow2((64 - bits) as nat);
    power2::lemma_pow2_pos((64 - bits) as nat);
    power2::lemma_pow2_pos(64);
    power2::lemma_pow2_adds(bits, (64 - bits) as nat);
    power2::lemma2_to64();
    assert(hash < power2::pow2(bits) * unit);
    assert(hash / unit < power2::pow2(bits)) by (nonlinear_arith)
        requires
            hash < power2::pow2(bits) * unit,
            unit > 0,
    ;
}

/// Law: a resource is in shard `k` of `2^bits` exactly when its number times
/// `0x9E3779B97F4A7C15`, modulo 2^64, has `k` in its top `bits` bits.
pub proof fn law_shard_is_the_top_of_the_product(bits: nat, res: ResourceId, k: nat)
    requires
        bits <= 64,
    ensures
        shard_of(bits, res) == k <==> k * power2::pow2((64 - bits) as nat) <= (res.id()
            * 0x9E37_79B9_7F4A_7C15int) % 0x1_0000_0000_0000_0000int && (res.id()
            * 0x9E37_79B9_7F4A_7C15int) % 0x1_0000_0000_0000_0000int < (k + 1) * power2::pow2(
            (64 - bits) as nat,
        ),
{
    let unit = power2::pow2((64 - bits) as nat) as int;
    let hash = fib_hash(res) as int;
    power2::lemma_pow2_pos((64 - bits) as nat);
    power2::lemma2_to64();
    power2::lemma2_to64_rest();
    assert(hash == (res.id() * 0x9E37_79B9_7F4A_7C15int) % 0x1_0000_0000_0000_0000int);
    assert(hash / unit == k <==> k * unit <= hash && hash < (k + 1) * unit) by (nonlinear_arith)
        requires
            unit > 0,
            hash >= 0,
            k >= 0,
    ;
}

/// Law: rounding up gives a power of two that is at least what was asked for and
/// less than twice as much.
pub proof fn law_rounding_up_less_than_doubles(shards: nat, n: nat)
    requires
        shards > 0,
        rounds_up(shards, n),
    ensures
        exists|e: nat| n == #[trigger] power2::pow2(e),
        shards <= n < 2 * shards,
{
    let e = choose|e: nat| n == #[trigger] power2::pow2(e);
    if e == 0 {
        power2::lemma2_to64();
    } else {
        power2::lemma_pow2_unfold(e);
        power2::lemma_pow2_pos((e - 1) as nat);
        assert(!(shards <= power2::pow2((e - 1) as nat)));
    }
}

/// Law: four shards are wanted for each thread, where that is 16 to 1024, and the
/// nearer of the two bounds where it is not.
pub proof fn law_four_shards_per_thread(parallelism: nat)
    ensures
        4 <= parallelism <= 256 ==> default_shards(parallelism) == 4 * parallelism,
        parallelism < 4 ==> default_shards(parallelism) == 16,
        parallelism > 256 ==> default_shards(parallelism) == 1024,
{
}

/// Law: a count that fits is given as it is, and one that does not as the largest
/// there is.
pub proof fn law_count_is_exact_where_it_fits(n: nat)
    ensures
        n <= usize::MAX ==> saturated(n) as nat == n,
        n > usize::MAX ==> saturated(n) == usize::MAX,
{
}

/// Law: distinct resources have distinct hashes. The multiplier is odd, so
/// multiplying by it loses nothing modulo 2^64.
pub proof fn law_hash_is_injective(a: ResourceId, b: ResourceId)
    requires
        fib_hash(a) == fib_hash(b),
    ensures
        a == b,
{
    lemma_unhash(a);
    lemma_unhash(b);
}

/// The inverse of the multiplier modulo 2^64.
spec fn unfib() -> nat {
    0xF1DE_83E1_9937_733D
}

/// Multiplying the hash by the inverse of the multiplier gives the id back.
proof fn lemma_unhash(res: ResourceId)
    ensures
        res.id() as nat == (fib_hash(res) * unfib()) % power2::pow2(64),
{
    let m = power2::pow2(64) as int;
    let x = res.id() as int;
    let f = FIB_HASH as int;
    let g = unfib() as int;
    let q = 10771413168148108919int;
    power2::lemma2_to64_rest();
    assert(f * g == q * m + 1);
    vstd::arithmetic::div_mod::lemma_mul_mod_noop_left(x * f, g, m);
    assert((x * f) * g == m * (x * q) + x) by (nonlinear_arith)
        requires
            f * g == q * m + 1,
    ;
    vstd::arithmetic::div_mod::lemma_mod_multiples_vanish(x * q, x, m);
    vstd::arithmetic::div_mod::lemma_small_mod(x as nat, m as nat);
}

/// The number `n`, or the largest `usize` if `n` is larger.
pub open spec fn saturated(n: nat) -> usize {
    if n <= usize::MAX {
        n as usize
    } else {
        usize::MAX
    }
}

/// The locks of one partition of the table.
pub struct ShardInner {
    /// Locks on whole resources.
    pub points: Ledger<Whole>,
    /// Locks on key ranges.
    pub ranges: Ledger<KeyRange>,
}

impl ShardInner {
    /// Both ledgers are in order.
    pub open spec fn wf(&self) -> bool {
        self.points.wf() && self.ranges.wf()
    }

    /// Creates a shard in which nothing is held.
    pub fn new() -> (shard: Self)
        ensures
            shard.wf(),
            shard.points@ == Map::<Claim<Whole>, LockMode>::empty(),
            shard.ranges@ == Map::<Claim<KeyRange>, LockMode>::empty(),
    {
        ShardInner { points: Ledger::new(), ranges: Ledger::new() }
    }

    /// Releases every lock `txn` holds here, point and range locks alike, and
    /// returns how many there were (the largest `usize` if there are more).
    pub fn release_all(&mut self, txn: TxnId) -> (n: usize)
        requires
            old(self).wf(),
        ensures
            final(self).wf(),
            final(self).points@ == ledger::without_txn(old(self).points@, txn),
            final(self).ranges@ == ledger::without_txn(old(self).ranges@, txn),
            n == saturated(
                ledger::claims_of(old(self).points@, txn).len() + ledger::claims_of(
                    old(self).ranges@,
                    txn,
                ).len(),
            ),
            ledger::claims_of(old(self).points@, txn).len() + ledger::claims_of(
                old(self).ranges@,
                txn,
            ).len() <= usize::MAX ==> n == ledger::claims_of(old(self).points@, txn).len()
                + ledger::claims_of(old(self).ranges@, txn).len(),
            ledger::claims_of(old(self).points@, txn).finite(),
            ledger::claims_of(old(self).ranges@, txn).finite(),
    {
        let points: usize = self.points.release_all(txn);
        let ranges: usize = self.ranges.release_all(txn);
        points.saturating_add(ranges)
    }

    /// Adds to `graph` the waits of a transaction that waits for `mode` on `res`,
    /// a resource of this shard.
    pub fn add_waits(
        &self,
        graph: &mut WaitForGraph,
        waiter: TxnId,
        res: ResourceId,
        mode: LockMode,
    )
        requires
            self.wf(),
            old(graph).wf(),
        ensures
            final(graph).wf(),
            forall|a: TxnId, b: TxnId| #[trigger]
                final(graph)@.contains((a, b)) <==> old(graph)@.contains((a, b)) || (a == waiter
                    && ledger::blocked_by(
                    self.points@,
                    Claim { res, txn: waiter, extent: Whole },
                    mode,
                    b,
                )),
    {
        let blockers = self.points.blockers(waiter, res, Whole, mode);
        graph.add_waits(waiter, blockers.as_slice());
    }
}

} // verus!
