//! The locks of one partition of the table.
//!
//! A [`Ledger`] maps each resource to the transactions that hold it, and keeps
//! a reverse index from each transaction to what it holds, so that releasing
//! every lock of a transaction is proportional to the number of its locks and
//! not to the size of the table. It serves point locks and range locks alike:
//! the part of the resource that a lock is on is its [`Extent`].
use crate::error::LockError;
use crate::id::{ResourceId, TxnId};
use crate::mode::LockMode;
use crate::range::KeyRange;
use std::collections::HashMap;
use vstd::prelude::*;

verus! {

/// The part of a resource that a lock is on.
pub trait Extent: Copy {
    /// Whether two parts of one resource have something in common.
    spec fn touches(self, other: Self) -> bool;

    /// Having something in common is symmetric.
    proof fn touches_is_symmetric(self, other: Self)
        ensures
            self.touches(other) == other.touches(self),
    ;

    /// Returns whether two parts of one resource have something in common.
    fn touching(self, other: Self) -> (r: bool)
        ensures
            r == self.touches(other),
    ;

    /// Returns whether two parts are the same.
    fn same(self, other: Self) -> (r: bool)
        ensures
            r == (self == other),
    ;
}

/// The whole of a resource, which is what a point lock is on.
#[derive(Debug, Clone, Copy, PartialEq, Eq, Hash, Structural)]
pub struct Whole;

impl Extent for Whole {
    open spec fn touches(self, other: Self) -> bool {
        true
    }

    proof fn touches_is_symmetric(self, other: Self) {
    }

    fn touching(self, other: Self) -> (r: bool) {
        true
    }

    fn same(self, other: Self) -> (r: bool) {
        true
    }
}

impl Extent for KeyRange {
    open spec fn touches(self, other: Self) -> bool {
        self.meets(other)
    }

    proof fn touches_is_symmetric(self, other: Self) {
        self.law_overlap_is_symmetric(other);
    }

    fn touching(self, other: Self) -> (r: bool) {
        self.overlaps(other)
    }

    fn same(self, other: Self) -> (r: bool) {
        self == other
    }
}

/// A lock that a transaction may hold: which resource, by whom, and on what part
/// of it. A set of held locks is a map from claims to the modes held.
pub struct Claim<S> {
    /// The resource.
    pub res: ResourceId,
    /// The transaction.
    pub txn: TxnId,
    /// The part of the resource.
    pub extent: S,
}

/// Whether the held lock `other` stands in the way of holding `claim` in `mode`:
/// it is another transaction's, on a common part of the same resource, in a mode
/// incompatible with `mode`.
pub open spec fn obstructs<S: Extent>(
    held: Map<Claim<S>, LockMode>,
    other: Claim<S>,
    claim: Claim<S>,
    mode: LockMode,
) -> bool {
    &&& held.contains_key(other)
    &&& other.res == claim.res
    &&& other.txn != claim.txn
    &&& other.extent.touches(claim.extent)
    &&& !held[other].compatible(mode)
}

/// Whether some held lock stands in the way of holding `claim` in `mode`.
pub open spec fn blocked<S: Extent>(
    held: Map<Claim<S>, LockMode>,
    claim: Claim<S>,
    mode: LockMode,
) -> bool {
    exists|other: Claim<S>| #[trigger] obstructs(held, other, claim, mode)
}

/// Whether a lock of transaction `h` stands in the way of holding `claim` in
/// `mode`.
pub open spec fn blocked_by<S: Extent>(
    held: Map<Claim<S>, LockMode>,
    claim: Claim<S>,
    mode: LockMode,
    h: TxnId,
) -> bool {
    exists|other: Claim<S>| #[trigger] obstructs(held, other, claim, mode) && other.txn == h
}

/// The mode in which `claim` is held once `mode` has been granted: joined with
/// the mode in which it is held already.
pub open spec fn upgraded<S>(
    held: Map<Claim<S>, LockMode>,
    claim: Claim<S>,
    mode: LockMode,
) -> LockMode {
    if held.contains_key(claim) {
        held[claim].joined(mode)
    } else {
        mode
    }
}

/// Whether no two transactions hold incompatible locks on a common part of a
/// resource.
pub open spec fn coherent<S: Extent>(held: Map<Claim<S>, LockMode>) -> bool {
    forall|a: Claim<S>, b: Claim<S>|
        held.contains_key(a) && held.contains_key(b) && a.res == b.res && a.txn != b.txn
            && a.extent.touches(b.extent) ==> (#[trigger] held[a]).compatible(#[trigger] held[b])
}

/// The claims on a resource.
pub open spec fn claims_on<S>(held: Map<Claim<S>, LockMode>, res: ResourceId) -> Set<Claim<S>> {
    held.dom().filter(|c: Claim<S>| c.res == res)
}

/// The claims of a transaction.
pub open spec fn claims_of<S>(held: Map<Claim<S>, LockMode>, txn: TxnId) -> Set<Claim<S>> {
    held.dom().filter(|c: Claim<S>| c.txn == txn)
}

/// The locks that are left when a transaction lets go of everything.
pub open spec fn without_txn<S>(held: Map<Claim<S>, LockMode>, txn: TxnId) -> Map<
    Claim<S>,
    LockMode,
> {
    held.remove_keys(claims_of(held, txn))
}

/// Law: two locks on one whole resource always have something in common; two
/// range locks do exactly when some key lies in both ranges.
pub proof fn law_common_parts(a: Whole, b: Whole, r: KeyRange, s: KeyRange)
    ensures
        a.touches(b),
        r.touches(s) <==> exists|key: u64|
            r.lo() <= key <= r.hi() && s.lo() <= key <= s.hi() && #[trigger] r.has(key),
{
    if r.touches(s) {
        let key = choose|key: u64| r.has(key) && s.has(key);
        assert(r.has(key));
    }
    if exists|key: u64|
        r.lo() <= key <= r.hi() && s.lo() <= key <= s.hi() && #[trigger] r.has(key) {
        let key = choose|key: u64|
            r.lo() <= key <= r.hi() && s.lo() <= key <= s.hi() && #[trigger] r.has(key);
        assert(r.has(key) && s.has(key));
    }
}

/// Law: what keeps a lock from being granted. A request is blocked exactly when
/// some other transaction holds a common part of the same resource in a mode that
/// is incompatible with the one asked for, and it is blocked by exactly those
/// transactions.
pub proof fn law_blocked_by_incompatible_holders<S: Extent>(
    held: Map<Claim<S>, LockMode>,
    claim: Claim<S>,
    mode: LockMode,
    h: TxnId,
)
    ensures
        blocked(held, claim, mode) <==> exists|o: Claim<S>| #[trigger]
            held.contains_key(o) && o.res == claim.res && o.txn != claim.txn && o.extent.touches(
                claim.extent,
            ) && !held[o].compatible(mode),
        blocked_by(held, claim, mode, h) <==> h != claim.txn && exists|o: Claim<S>| #[trigger]
            held.contains_key(o) && o.res == claim.res && o.txn == h && o.extent.touches(
                claim.extent,
            ) && !held[o].compatible(mode),
{
    if blocked(held, claim, mode) {
        let o = choose|o: Claim<S>| #[trigger] obstructs(held, o, claim, mode);
        assert(held.contains_key(o));
    }
    if exists|o: Claim<S>| #[trigger]
        held.contains_key(o) && o.res == claim.res && o.txn != claim.txn && o.extent.touches(
            claim.extent,
        ) && !held[o].compatible(mode) {
        let o = choose|o: Claim<S>| #[trigger]
            held.contains_key(o) && o.res == claim.res && o.txn != claim.txn && o.extent.touches(
                claim.extent,
            ) && !held[o].compatible(mode);
        assert(obstructs(held, o, claim, mode));
    }
    if blocked_by(held, claim, mode, h) {
        let o = choose|o: Claim<S>| #[trigger] obstructs(held, o, claim, mode) && o.txn == h;
        assert(held.contains_key(o));
    }
    if h != claim.txn && exists|o: Claim<S>| #[trigger]
        held.contains_key(o) && o.res == claim.res && o.txn == h && o.extent.touches(claim.extent)
            && !held[o].compatible(mode) {
        let o = choose|o: Claim<S>| #[trigger]
            held.contains_key(o) && o.res == claim.res && o.txn == h && o.extent.touches(
                claim.extent,
            ) && !held[o].compatible(mode);
        assert(obstructs(held, o, claim, mode) && o.txn == h);
    }
}

/// Law: a grant gives what was asked for and no more. A lock not held before is
/// held in the very mode asked for; one held before is held in the least mode that
/// covers both what was held and what was asked for.
pub proof fn law_grant_gives_no_more_than_asked<S: Extent>(
    held: Map<Claim<S>, LockMode>,
    claim: Claim<S>,
    mode: LockMode,
    bound: LockMode,
)
    ensures
        !held.contains_key(claim) ==> upgraded(held, claim, mode) == mode,
        held.contains_key(claim) ==> upgraded(held, claim, mode) == held[claim].joined(mode),
        held.contains_key(claim) ==> (bound.at_least(upgraded(held, claim, mode))
            <==> bound.at_least(held[claim]) && bound.at_least(mode)),
{
    if held.contains_key(claim) {
        held[claim].law_join_is_least_upper_bound(mode, bound);
    }
}

/// Law: transactions share what all of them ask for in compatible modes. Once a
/// lock that was not held has been granted, another transaction's request is
/// blocked only if it was blocked before or asks for a mode incompatible with the
/// one just granted.
pub proof fn law_compatible_requests_share<S: Extent>(
    held: Map<Claim<S>, LockMode>,
    first: Claim<S>,
    mode: LockMode,
    second: Claim<S>,
    asked: LockMode,
)
    requires
        !held.contains_key(first),
        mode.compatible(asked),
        !blocked(held, second, asked),
    ensures
        !blocked(held.insert(first, upgraded(held, first, mode)), second, asked),
{
    let after = held.insert(first, upgraded(held, first, mode));
    assert forall|o: Claim<S>| !#[trigger] obstructs(after, o, second, asked) by {
        if o != first {
            assert(!obstructs(held, o, second, asked));
        }
    }
}

/// Law: locks are coherent exactly when any two that different transactions hold
/// on a common part of one resource are in compatible modes.
pub proof fn law_coherence_is_pairwise<S: Extent>(held: Map<Claim<S>, LockMode>)
    ensures
        coherent(held) <==> forall|a: Claim<S>, b: Claim<S>|
            held.contains_key(a) && held.contains_key(b) && a.res == b.res && a.txn != b.txn
                && a.extent.touches(b.extent) ==> (#[trigger] held[a]).compatible(
                #[trigger] held[b],
            ),
{
}

/// Law: the claims on a resource are the held ones on that resource, and the
/// claims of a transaction are the held ones of that transaction.
pub proof fn law_claims_are_what_is_held<S: Extent>(
    held: Map<Claim<S>, LockMode>,
    res: ResourceId,
    txn: TxnId,
    claim: Claim<S>,
)
    ensures
        claims_on(held, res).contains(claim) <==> held.contains_key(claim) && claim.res == res,
        claims_of(held, txn).contains(claim) <==> held.contains_key(claim) && claim.txn == txn,
{
}

/// Law: granting a lock that was not held makes the number of locks on its
/// resource, and of its transaction, greater by one, and releasing it makes both
/// less by one again. An upgrade changes neither.
pub proof fn law_counts_follow_grants_and_releases<S: Extent>(
    held: Map<Claim<S>, LockMode>,
    claim: Claim<S>,
    mode: LockMode,
)
    requires
        claims_on(held, claim.res).finite(),
        claims_of(held, claim.txn).finite(),
    ensures
        !held.contains_key(claim) ==> {
            let more = held.insert(claim, mode);
            &&& claims_on(more, claim.res).len() == claims_on(held, claim.res).len() + 1
            &&& claims_of(more, claim.txn).len() == claims_of(held, claim.txn).len() + 1
        },
        held.contains_key(claim) ==> {
            let same = held.insert(claim, mode);
            let less = held.remove(claim);
            &&& claims_on(same, claim.res).len() == claims_on(held, claim.res).len()
            &&& claims_of(same, claim.txn).len() == claims_of(held, claim.txn).len()
            &&& claims_on(less, claim.res).len() == claims_on(held, claim.res).len() - 1
            &&& claims_of(less, claim.txn).len() == claims_of(held, claim.txn).len() - 1
        },
{
    let after = held.insert(claim, mode);
    let less = held.remove(claim);
    assert(claims_on(after, claim.res) =~= claims_on(held, claim.res).insert(claim));
    assert(claims_of(after, claim.txn) =~= claims_of(held, claim.txn).insert(claim));
    assert(claims_on(less, claim.res) =~= claims_on(held, claim.res).remove(claim));
    assert(claims_of(less, claim.txn) =~= claims_of(held, claim.txn).remove(claim));
}

/// Law: a lock that covers the requested mode is never in conflict, and an
/// upgrade is in conflict exactly when the requested mode alone is.
pub proof fn law_upgrade_conflicts_as_the_request<S: Extent>(
    held: Map<Claim<S>, LockMode>,
    claim: Claim<S>,
    mode: LockMode,
)
    requires
        coherent(held),
    ensures
        blocked(held, claim, mode) <==> blocked(held, claim, upgraded(held, claim, mode)),
        held.contains_key(claim) && held[claim].at_least(mode) ==> !blocked(held, claim, mode)
            && upgraded(held, claim, mode) == held[claim],
{
    if held.contains_key(claim) {
        let joined = held[claim].joined(mode);
        assert forall|other: Claim<S>| #[trigger] obstructs(held, other, claim, mode)
            == obstructs(held, other, claim, joined) by {
            if held.contains_key(other) && other.res == claim.res && other.txn != claim.txn
                && other.extent.touches(claim.extent) {
                assert(held[other].compatible(held[claim]));
                held[other].law_join_conflicts_as_its_parts(held[claim], mode);
            }
        }
        if blocked(held, claim, mode) {
            let other = choose|other: Claim<S>| #[trigger] obstructs(held, other, claim, mode);
            assert(obstructs(held, other, claim, joined));
        }
        if blocked(held, claim, joined) {
            let other = choose|other: Claim<S>| #[trigger] obstructs(held, other, claim, joined);
            assert(obstructs(held, other, claim, mode));
        }
        if held[claim].at_least(mode) && blocked(held, claim, mode) {
            let other = choose|other: Claim<S>| #[trigger] obstructs(held, other, claim, mode);
            assert(held[other].compatible(held[claim]));
        }
    }
}

/// Law: granting a request that nothing stands in the way of leaves no two
/// incompatible locks.
pub proof fn law_grant_keeps_coherence<S: Extent>(
    held: Map<Claim<S>, LockMode>,
    claim: Claim<S>,
    mode: LockMode,
)
    requires
        coherent(held),
        !blocked(held, claim, mode),
    ensures
        coherent(held.insert(claim, upgraded(held, claim, mode))),
{
    let wanted = upgraded(held, claim, mode);
    law_upgrade_conflicts_as_the_request(held, claim, mode);
    let after = held.insert(claim, wanted);
    assert forall|a: Claim<S>, b: Claim<S>|
        after.contains_key(a) && after.contains_key(b) && a.res == b.res && a.txn != b.txn
            && a.extent.touches(b.extent) implies (#[trigger] after[a]).compatible(
        #[trigger] after[b],
    ) by {
        a.extent.touches_is_symmetric(b.extent);
        if b == claim {
            assert(!obstructs(held, a, claim, wanted));
        } else if a == claim {
            assert(!obstructs(held, b, claim, wanted));
        } else {
            assert(held[a].compatible(held[b]));
        }
    }
}

/// Law: giving locks up leaves no two incompatible locks.
pub proof fn law_release_keeps_coherence<S: Extent>(
    held: Map<Claim<S>, LockMode>,
    fewer: Map<Claim<S>, LockMode>,
)
    requires
        coherent(held),
        fewer.submap_of(held),
    ensures
        coherent(fewer),
{
    assert forall|a: Claim<S>, b: Claim<S>|
        fewer.contains_key(a) && fewer.contains_key(b) && a.res == b.res && a.txn != b.txn
            && a.extent.touches(b.extent) implies (#[trigger] fewer[a]).compatible(
        #[trigger] fewer[b],
    ) by {
        assert(fewer.dom().contains(a) && held.dom().contains(a));
        assert(fewer.dom().contains(b) && held.dom().contains(b));
        assert(held[a].compatible(held[b]));
    }
}

/// A transaction holding a part of a resource, and the mode it holds it in.
struct Holder<S> {
    txn: TxnId,
    extent: S,
    mode: LockMode,
}

/// The transactions currently holding one resource.
struct LockEntry<S> {
    holders: Vec<Holder<S>>,
}

/// Whether the holder at position `i` is `txn` on `extent`.
spec fn at<S>(holders: Seq<Holder<S>>, i: int, txn: TxnId, extent: S) -> bool {
    0 <= i < holders.len() && holders[i].txn == txn && holders[i].extent == extent
}

/// Whether the holder at position `i` stands in the way of `txn` holding
/// `extent` in `mode`.
spec fn stands<S: Extent>(
    holders: Seq<Holder<S>>,
    i: int,
    txn: TxnId,
    extent: S,
    mode: LockMode,
) -> bool {
    &&& 0 <= i < holders.len()
    &&& holders[i].txn != txn
    &&& holders[i].extent.touches(extent)
    &&& !holders[i].mode.compatible(mode)
}

/// Whether `txn` holds `extent` according to the list.
spec fn lists<S>(holders: Seq<Holder<S>>, txn: TxnId, extent: S) -> bool {
    exists|i: int| at(holders, i, txn, extent)
}

/// The position of `txn` with `extent` in the list.
spec fn place<S>(holders: Seq<Holder<S>>, txn: TxnId, extent: S) -> int {
    choose|i: int| at(holders, i, txn, extent)
}

/// Who holds what in a list of holders.
spec fn modes<S>(holders: Seq<Holder<S>>) -> Map<(TxnId, S), LockMode> {
    Map::new(
        |k: (TxnId, S)| lists(holders, k.0, k.1),
        |k: (TxnId, S)| holders[place(holders, k.0, k.1)].mode,
    )
}

/// Whether no transaction occurs twice with the same extent.
spec fn distinct<S>(holders: Seq<Holder<S>>) -> bool {
    forall|i: int, j: int|
        0 <= i < j < holders.len() ==> (#[trigger] holders[i]).txn != (#[trigger] holders[j]).txn
            || holders[i].extent != holders[j].extent
}

/// A holder in the list holds what the list says.
proof fn lemma_modes_at<S>(holders: Seq<Holder<S>>, i: int)
    requires
        distinct(holders),
        0 <= i < holders.len(),
    ensures
        modes(holders).contains_key((holders[i].txn, holders[i].extent)),
        modes(holders)[(holders[i].txn, holders[i].extent)] == holders[i].mode,
{
    assert(at(holders, i, holders[i].txn, holders[i].extent));
    assert(lists(holders, holders[i].txn, holders[i].extent));
    let j = place(holders, holders[i].txn, holders[i].extent);
    assert(at(holders, j, holders[i].txn, holders[i].extent));
    if i < j {
        assert(holders[i].txn != holders[j].txn || holders[i].extent != holders[j].extent);
    }
    if j < i {
        assert(holders[j].txn != holders[i].txn || holders[j].extent != holders[i].extent);
    }
}

/// Changing the mode of one holder changes what it holds.
proof fn lemma_modes_update<S>(holders: Seq<Holder<S>>, pos: int, holder: Holder<S>)
    requires
        distinct(holders),
        at(holders, pos, holder.txn, holder.extent),
    ensures
        distinct(holders.update(pos, holder)),
        modes(holders.update(pos, holder)) == modes(holders).insert(
            (holder.txn, holder.extent),
            holder.mode,
        ),
{
    let after = holders.update(pos, holder);
    assert(distinct(after));
    lemma_modes_at(after, pos);
    assert forall|k: (TxnId, S)|
        modes(after).contains_key(k) <==> modes(holders).insert((holder.txn, holder.extent), holder.mode).contains_key(k)
        by {
        if modes(after).contains_key(k) {
            let i = place(after, k.0, k.1);
            assert(at(holders, i, k.0, k.1));
        }
        if modes(holders).contains_key(k) {
            let i = place(holders, k.0, k.1);
            assert(at(after, i, k.0, k.1));
        }
    }
    assert forall|k: (TxnId, S)| #[trigger] modes(after).contains_key(k) implies modes(after)[k]
        == modes(holders).insert((holder.txn, holder.extent), holder.mode)[k] by {
        let i = place(after, k.0, k.1);
        lemma_modes_at(after, i);
        lemma_modes_at(holders, i);
    }
    assert(modes(after) =~= modes(holders).insert((holder.txn, holder.extent), holder.mode));
}

/// Adding a holder adds what it holds.
proof fn lemma_modes_push<S>(holders: Seq<Holder<S>>, holder: Holder<S>)
    requires
        distinct(holders),
        !modes(holders).contains_key((holder.txn, holder.extent)),
    ensures
        distinct(holders.push(holder)),
        modes(holders.push(holder)) == modes(holders).insert(
            (holder.txn, holder.extent),
            holder.mode,
        ),
{
    let after = holders.push(holder);
    assert forall|i: int, j: int| 0 <= i < j < after.len() implies (#[trigger] after[i]).txn != (
    #[trigger] after[j]).txn || after[i].extent != after[j].extent by {
        if j == holders.len() && after[i].txn == holder.txn && after[i].extent == holder.extent {
            assert(at(holders, i, holder.txn, holder.extent));
            assert(lists(holders, holder.txn, holder.extent));
        }
    }
    lemma_modes_at(after, holders.len() as int);
    assert forall|k: (TxnId, S)|
        modes(after).contains_key(k) <==> modes(holders).insert((holder.txn, holder.extent), holder.mode).contains_key(k)
        by {
        if modes(after).contains_key(k) {
            let i = place(after, k.0, k.1);
            if i < holders.len() {
                assert(at(holders, i, k.0, k.1));
            }
        }
        if modes(holders).contains_key(k) {
            let i = place(holders, k.0, k.1);
            assert(at(after, i, k.0, k.1));
        }
    }
    assert forall|k: (TxnId, S)| #[trigger] modes(after).contains_key(k) implies modes(after)[k]
        == modes(holders).insert((holder.txn, holder.extent), holder.mode)[k] by {
        let i = place(after, k.0, k.1);
        lemma_modes_at(after, i);
        if i < holders.len() {
            lemma_modes_at(holders, i);
        }
    }
    assert(modes(after) =~= modes(holders).insert((holder.txn, holder.extent), holder.mode));
}

/// Taking a holder out of the list takes out what it holds.
proof fn lemma_modes_swap_remove<S>(holders: Seq<Holder<S>>, pos: int)
    requires
        distinct(holders),
        0 <= pos < holders.len(),
    ensures
        distinct(holders.update(pos, holders.last()).drop_last()),
        modes(holders.update(pos, holders.last()).drop_last()) == modes(holders).remove(
            (holders[pos].txn, holders[pos].extent),
        ),
{
    let after = holders.update(pos, holders.last()).drop_last();
    let last = holders.len() - 1;
    let gone = (holders[pos].txn, holders[pos].extent);
    assert(distinct(after));
    assert forall|k: (TxnId, S)| modes(after).contains_key(k) <==> modes(holders).remove(
        gone,
    ).contains_key(k) by {
        if modes(after).contains_key(k) {
            let i = place(after, k.0, k.1);
            let j = if i == pos {
                last
            } else {
                i
            };
            assert(at(holders, j, k.0, k.1));
            assert(j != pos);
        }
        if modes(holders).remove(gone).contains_key(k) {
            let i = place(holders, k.0, k.1);
            let j = if i == last {
                pos
            } else {
                i
            };
            assert(at(after, j, k.0, k.1));
        }
    }
    assert forall|k: (TxnId, S)| #[trigger] modes(after).contains_key(k) implies modes(after)[k]
        == modes(holders).remove(gone)[k] by {
        let i = place(after, k.0, k.1);
        let j = if i == pos {
            last
        } else {
            i
        };
        lemma_modes_at(after, i);
        lemma_modes_at(holders, j);
    }
    assert(modes(after) =~= modes(holders).remove(gone));
}

/// What a sequence contains after a push.
pub(crate) proof fn lemma_contains_push<A>(s: Seq<A>, last: A, a: A)
    ensures
        s.push(last).contains(a) <==> s.contains(a) || a == last,
{
    if s.contains(a) {
        let i = choose|i: int| 0 <= i < s.len() && s[i] == a;
        assert(s.push(last)[i] == a);
    }
    assert(s.push(last)[s.len() as int] == last);
    if s.push(last).contains(a) && a != last {
        let i = choose|i: int| 0 <= i < s.push(last).len() && s.push(last)[i] == a;
        assert(s[i] == a);
    }
}

/// Pushing what a sequence lacks repeats nothing.
proof fn lemma_no_duplicates_push<A>(s: Seq<A>, last: A)
    requires
        s.no_duplicates(),
        !s.contains(last),
    ensures
        s.push(last).no_duplicates(),
{
    let after = s.push(last);
    assert forall|i: int, j: int| 0 <= i < after.len() && 0 <= j < after.len() && i != j implies
        after[i] != after[j] by {
        if i == s.len() {
            assert(s.contains(s[j]));
        } else if j == s.len() {
            assert(s.contains(s[i]));
        }
    }
}

impl<S: Extent> LockEntry<S> {
    fn new() -> (entry: Self)
        ensures
            entry.holders@ == Seq::<Holder<S>>::empty(),
    {
        LockEntry { holders: Vec::new() }
    }

    /// Returns the position of `txn` with `extent` among the holders.
    fn position(&self, txn: TxnId, extent: S) -> (r: Option<usize>)
        ensures
            r matches Some(i) ==> at(self.holders@, i as int, txn, extent),
            r is Some <==> modes(self.holders@).contains_key((txn, extent)),
    {
        let mut i: usize = 0;
        while i < self.holders.len()
            invariant
                0 <= i <= self.holders@.len(),
                forall|j: int| 0 <= j < i ==> !at(self.holders@, j, txn, extent),
            decreases self.holders@.len() - i,
        {
            if self.holders[i].txn == txn && self.holders[i].extent.same(extent) {
                assert(at(self.holders@, i as int, txn, extent));
                assert(lists(self.holders@, txn, extent));
                return Some(i);
            }
            i += 1;
        }
        None
    }

    /// Returns whether another transaction's lock stands in the way of `txn`
    /// holding `extent` in `mode`.
    fn refuses(&self, txn: TxnId, extent: S, mode: LockMode) -> (r: bool)
        ensures
            r <==> exists|i: int| #[trigger] stands(self.holders@, i, txn, extent, mode),
    {
        let mut i: usize = 0;
        while i < self.holders.len()
            invariant
                0 <= i <= self.holders@.len(),
                forall|j: int|
                    0 <= j < i ==> !#[trigger] stands(self.holders@, j, txn, extent, mode),
            decreases self.holders@.len() - i,
        {
            let holder = &self.holders[i];
            if holder.txn != txn && holder.extent.touching(extent)
                && !holder.mode.compatible_with(mode) {
                assert(stands(self.holders@, i as int, txn, extent, mode));
                return true;
            }
            i += 1;
        }
        false
    }

    /// Lists the other transactions whose locks stand in the way of `txn`
    /// holding `extent` in `mode`.
    fn blockers(&self, txn: TxnId, extent: S, mode: LockMode) -> (list: Vec<TxnId>)
        ensures
            forall|h: TxnId| #[trigger]
                list@.contains(h) <==> exists|i: int| #[trigger]
                    stands(self.holders@, i, txn, extent, mode) && self.holders@[i].txn == h,
    {
        let mut list: Vec<TxnId> = Vec::new();
        let mut i: usize = 0;
        while i < self.holders.len()
            invariant
                0 <= i <= self.holders@.len(),
                forall|h: TxnId| #[trigger]
                    list@.contains(h) <==> exists|j: int|
                        j < i && #[trigger] stands(self.holders@, j, txn, extent, mode)
                            && self.holders@[j].txn == h,
            decreases self.holders@.len() - i,
        {
            let ghost before = list@;
            let holder = &self.holders[i];
            if holder.txn != txn && holder.extent.touching(extent)
                && !holder.mode.compatible_with(mode) {
                list.push(holder.txn);
            }
            proof {
                let here = stands(self.holders@, i as int, txn, extent, mode);
                assert forall|h: TxnId| #[trigger] list@.contains(h) <==> exists|j: int|
                    j < i + 1 && #[trigger] stands(self.holders@, j, txn, extent, mode)
                        && self.holders@[j].txn == h by {
                    if here {
                        lemma_contains_push(before, holder.txn, h);
                    }
                    if before.contains(h) {
                        let j = choose|j: int|
                            j < i && #[trigger] stands(self.holders@, j, txn, extent, mode)
                                && self.holders@[j].txn == h;
                        assert(j < i + 1 && stands(self.holders@, j, txn, extent, mode));
                    }
                }
            }
            i += 1;
        }
        list
    }
}

/// The locks held on the resources of one partition of the table.
///
/// The view is the map from each held claim to the mode it is held in.
#[verifier::reject_recursive_types(S)]
pub struct Ledger<S> {
    /// Resources with at least one holder, keyed by the resource's number.
    locks: HashMap<u64, LockEntry<S>>,
    /// What each transaction holds, keyed by the transaction's number.
    by_txn: HashMap<u64, Vec<(ResourceId, S)>>,
}

impl<S: Extent> View for Ledger<S> {
    type V = Map<Claim<S>, LockMode>;

    closed spec fn view(&self) -> Map<Claim<S>, LockMode> {
        Map::new(
            |c: Claim<S>| modes(self.holders(c.res)).contains_key((c.txn, c.extent)),
            |c: Claim<S>| modes(self.holders(c.res))[(c.txn, c.extent)],
        )
    }
}

impl<S: Extent> Ledger<S> {
    /// The holders listed for a resource.
    spec fn holders(&self, res: ResourceId) -> Seq<Holder<S>> {
        if self.locks@.contains_key(res.id()) {
            self.locks@[res.id()].holders@
        } else {
            Seq::empty()
        }
    }

    /// What the reverse index lists for a transaction.
    spec fn listed(&self, txn: TxnId) -> Seq<(ResourceId, S)> {
        if self.by_txn@.contains_key(txn.id()) {
            self.by_txn@[txn.id()]@
        } else {
            Seq::empty()
        }
    }

    /// Every listed resource has a holder, no holder occurs twice, and no two
    /// incompatible locks are held.
    spec fn locks_wf(&self) -> bool {
        &&& forall|r: ResourceId| #[trigger]
            self.locks@.contains_key(r.id()) ==> self.locks@[r.id()].holders@.len() > 0
        &&& forall|r: ResourceId| distinct(#[trigger] self.holders(r))
        &&& coherent(self@)
    }

    /// The reverse index lists each held lock once, under its transaction.
    spec fn index_wf(&self) -> bool {
        &&& forall|t: TxnId| #[trigger]
            self.by_txn@.contains_key(t.id()) ==> self.by_txn@[t.id()]@.len() > 0
        &&& forall|t: TxnId| (#[trigger] self.listed(t)).no_duplicates()
        &&& forall|t: TxnId, r: ResourceId, s: S| #[trigger]
            self.listed(t).contains((r, s)) <==> self@.contains_key(
                Claim { res: r, txn: t, extent: s },
            )
    }

    /// The lists of holders and the reverse index agree, and no two transactions
    /// hold incompatible locks on a common part of a resource.
    pub closed spec fn wf(&self) -> bool {
        self.locks_wf() && self.index_wf()
    }

    /// Law: no two transactions ever hold incompatible locks on a common part of
    /// a resource.
    pub proof fn law_no_incompatible_locks(&self)
        requires
            self.wf(),
        ensures
            coherent(self@),
    {
    }

    /// Creates a ledger in which nothing is held.
    pub fn new() -> (ledger: Self)
        ensures
            ledger.wf(),
            ledger@ == Map::<Claim<S>, LockMode>::empty(),
    {
        let ledger = Ledger { locks: HashMap::new(), by_txn: HashMap::new() };
        proof {
            assert forall|r: ResourceId| distinct(#[trigger] ledger.holders(r)) by {}
            assert(ledger@ =~= Map::<Claim<S>, LockMode>::empty());
        }
        ledger
    }

    /// Replacing the holders of one resource replaces the claims on it.
    proof fn lemma_one_entry_changed(
        before: &Self,
        after: &Self,
        res: ResourceId,
        key: (TxnId, S),
        mode: LockMode,
    )
        requires
            forall|r: ResourceId| r != res ==> #[trigger] after.holders(r) == before.holders(r),
        ensures
            modes(after.holders(res)) == modes(before.holders(res)).insert(key, mode) ==> after@
                == before@.insert(Claim { res, txn: key.0, extent: key.1 }, mode),
            modes(after.holders(res)) == modes(before.holders(res)).remove(key) ==> after@
                == before@.remove(Claim { res, txn: key.0, extent: key.1 }),
    {
        let claim = Claim { res, txn: key.0, extent: key.1 };
        let old_modes = modes(before.holders(res));
        if modes(after.holders(res)) == old_modes.insert(key, mode) {
            assert forall|c: Claim<S>| #[trigger] after@.contains_key(c) <==> before@.insert(
                claim,
                mode,
            ).contains_key(c) by {
                if c.res != res {
                    assert(after.holders(c.res) == before.holders(c.res));
                }
            }
            assert forall|c: Claim<S>| #[trigger] after@.contains_key(c) implies after@[c]
                == before@.insert(claim, mode)[c] by {
                if c.res != res {
                    assert(after.holders(c.res) == before.holders(c.res));
                }
            }
            assert(after@ =~= before@.insert(claim, mode));
        }
        if modes(after.holders(res)) == old_modes.remove(key) {
            assert forall|c: Claim<S>| #[trigger] after@.contains_key(c) <==> before@.remove(
                claim,
            ).contains_key(c) by {
                if c.res != res {
                    assert(after.holders(c.res) == before.holders(c.res));
                }
            }
            assert forall|c: Claim<S>| #[trigger] after@.contains_key(c) implies after@[c]
                == before@.remove(claim)[c] by {
                if c.res != res {
                    assert(after.holders(c.res) == before.holders(c.res));
                }
            }
            assert(after@ =~= before@.remove(claim));
        }
    }

    /// The claim of a holder that stands in the way obstructs.
    proof fn lemma_stands(&self, claim: Claim<S>, mode: LockMode, i: int)
        requires
            self.locks_wf(),
            stands(self.holders(claim.res), i, claim.txn, claim.extent, mode),
        ensures
            blocked(self@, claim, mode),
            blocked_by(self@, claim, mode, self.holders(claim.res)[i].txn),
    {
        let holders = self.holders(claim.res);
        lemma_modes_at(holders, i);
        let other = Claim { res: claim.res, txn: holders[i].txn, extent: holders[i].extent };
        assert(obstructs(self@, other, claim, mode));
    }

    /// The holder of a claim that obstructs stands in the way.
    proof fn lemma_obstructs(&self, other: Claim<S>, claim: Claim<S>, mode: LockMode) -> (i: int)
        requires
            self.locks_wf(),
            obstructs(self@, other, claim, mode),
        ensures
            stands(self.holders(claim.res), i, claim.txn, claim.extent, mode),
            self.holders(claim.res)[i].txn == other.txn,
    {
        let holders = self.holders(claim.res);
        let i = place(holders, other.txn, other.extent);
        assert(at(holders, i, other.txn, other.extent));
        lemma_modes_at(holders, i);
        i
    }

    /// Returns the mode in which `txn` holds `extent` of `res`, if it does.
    #[must_use]
    pub fn mode_held(&self, txn: TxnId, res: ResourceId, extent: S) -> (r: Option<LockMode>)
        requires
            self.wf(),
        ensures
            r == self@.get(Claim { res, txn, extent }),
    {
        match self.locks.get(&res.get()) {
            Some(entry) => match entry.position(txn, extent) {
                Some(pos) => {
                    proof {
                        lemma_modes_at(self.holders(res), pos as int);
                    }
                    Some(entry.holders[pos].mode)
                },
                None => None,
            },
            None => None,
        }
    }

    /// Returns whether another transaction's lock stands in the way of `txn`
    /// holding `extent` of `res` in `mode`.
    fn refuses(&self, txn: TxnId, res: ResourceId, extent: S, mode: LockMode) -> (r: bool)
        requires
            self.wf(),
        ensures
            r == blocked(self@, Claim { res, txn, extent }, mode),
    {
        let ghost claim = Claim { res, txn, extent };
        let r = match self.locks.get(&res.get()) {
            Some(entry) => entry.refuses(txn, extent, mode),
            None => false,
        };
        proof {
            if r {
                let i = choose|i: int| #[trigger]
                    stands(self.holders(res), i, txn, extent, mode);
                self.lemma_stands(claim, mode, i);
            }
            if blocked(self@, claim, mode) {
                let other = choose|other: Claim<S>| #[trigger] obstructs(self@, other, claim, mode);
                let i = self.lemma_obstructs(other, claim, mode);
            }
        }
        r
    }

    /// Lists the transactions whose locks stand in the way of `txn` holding
    /// `extent` of `res` in `mode`.
    #[must_use]
    pub fn blockers(&self, txn: TxnId, res: ResourceId, extent: S, mode: LockMode) -> (list: Vec<
        TxnId,
    >)
        requires
            self.wf(),
        ensures
            forall|h: TxnId| #[trigger]
                list@.contains(h) <==> blocked_by(self@, Claim { res, txn, extent }, mode, h),
    {
        let ghost claim = Claim { res, txn, extent };
        let list = match self.locks.get(&res.get()) {
            Some(entry) => entry.blockers(txn, extent, mode),
            None => Vec::new(),
        };
        proof {
            let holders = self.holders(res);
            assert forall|h: TxnId| #[trigger] list@.contains(h) <==> blocked_by(
                self@,
                claim,
                mode,
                h,
            ) by {
                if list@.contains(h) {
                    let i = choose|i: int| #[trigger]
                        stands(holders, i, txn, extent, mode) && holders[i].txn == h;
                    self.lemma_stands(claim, mode, i);
                }
                if blocked_by(self@, claim, mode, h) {
                    let other = choose|other: Claim<S>| #[trigger]
                        obstructs(self@, other, claim, mode) && other.txn == h;
                    let i = self.lemma_obstructs(other, claim, mode);
                }
            }
        }
        list
    }

    /// Takes the holders of `res` out of the table.
    fn take_entry(&mut self, res: ResourceId) -> (entry: LockEntry<S>)
        ensures
            entry.holders@ == old(self).holders(res),
            final(self).locks@ == old(self).locks@.remove(res.id()),
            final(self).by_txn@ == old(self).by_txn@,
    {
        match self.locks.remove(&res.get()) {
            Some(entry) => entry,
            None => LockEntry::new(),
        }
    }

    /// Puts the holders of `res` into the table, if there are any.
    fn put_entry(&mut self, res: ResourceId, entry: LockEntry<S>)
        requires
            !old(self).locks@.contains_key(res.id()),
        ensures
            final(self).holders(res) == entry.holders@,
            final(self).locks@ == if entry.holders@.len() > 0 {
                old(self).locks@.insert(res.id(), entry)
            } else {
                old(self).locks@
            },
            final(self).by_txn@ == old(self).by_txn@,
    {
        if entry.holders.len() > 0 {
            self.locks.insert(res.get(), entry);
        } else {
            assert(entry.holders@ =~= Seq::<Holder<S>>::empty());
        }
    }

    /// Makes `txn` hold `extent` of `res` in `mode`.
    fn grant(&mut self, txn: TxnId, res: ResourceId, extent: S, mode: LockMode)
        requires
            old(self).wf(),
            coherent(old(self)@.insert(Claim { res, txn, extent }, mode)),
        ensures
            final(self).wf(),
            final(self)@ == old(self)@.insert(Claim { res, txn, extent }, mode),
    {
        let ghost before = *self;
        let ghost claim = Claim { res, txn, extent };
        let mut entry = self.take_entry(res);
        let ghost holders = entry.holders@;
        let holder = Holder { txn, extent, mode };
        assert(distinct(before.holders(res)));
        match entry.position(txn, extent) {
            Some(pos) => {
                proof {
                    lemma_modes_update(holders, pos as int, holder);
                }
                entry.holders.set(pos, holder);
                self.put_entry(res, entry);
                proof {
                    Self::lemma_one_entry_changed(&before, self, res, (txn, extent), mode);
                    self.lemma_locks_wf(&before, res);
                    assert(before@.contains_key(claim));
                    assert forall|t: TxnId| #[trigger] self.listed(t) == before.listed(t) by {}
                    assert forall|t: TxnId| (#[trigger] self.listed(t)).no_duplicates() by {
                        assert(before.listed(t).no_duplicates());
                    }
                    assert forall|t: TxnId, r: ResourceId, s: S| #[trigger]
                        self.listed(t).contains((r, s)) <==> self@.contains_key(
                            Claim { res: r, txn: t, extent: s },
                        ) by {
                        assert(before.listed(t).contains((r, s)) <==> before@.contains_key(
                            Claim { res: r, txn: t, extent: s },
                        ));
                    }
                    assert(self.index_wf());
                }
            },
            None => {
                proof {
                    lemma_modes_push(holders, holder);
                }
                entry.holders.push(holder);
                self.put_entry(res, entry);
                let mut list = match self.by_txn.remove(&txn.get()) {
                    Some(list) => list,
                    None => Vec::new(),
                };
                let ghost known = list@;
                list.push((res, extent));
                self.by_txn.insert(txn.get(), list);
                proof {
                    Self::lemma_one_entry_changed(&before, self, res, (txn, extent), mode);
                    self.lemma_locks_wf(&before, res);
                    assert(known == before.listed(txn));
                    assert(!before@.contains_key(claim));
                    assert(!before.listed(txn).contains((res, extent)));
                    assert forall|t: TxnId| t != txn implies self.listed(t)
                        == #[trigger] before.listed(t) by {}
                    assert forall|t: TxnId, r: ResourceId, s: S| #[trigger]
                        self.listed(t).contains((r, s)) <==> self@.contains_key(
                            Claim { res: r, txn: t, extent: s },
                        ) by {
                        assert(before.listed(t).contains((r, s)) <==> before@.contains_key(
                            Claim { res: r, txn: t, extent: s },
                        ));
                        lemma_contains_push(known, (res, extent), (r, s));
                    }
                    assert forall|t: TxnId| (#[trigger] self.listed(t)).no_duplicates() by {
                        assert(before.listed(t).no_duplicates());
                        if t == txn {
                            lemma_no_duplicates_push(known, (res, extent));
                        }
                    }
                    assert(self.index_wf());
                }
            },
        }
    }

    /// The lists of holders are in order when only one of them has changed and
    /// it is in order.
    proof fn lemma_locks_wf(&self, before: &Self, res: ResourceId)
        requires
            before.locks_wf(),
            forall|r: ResourceId| r != res ==> #[trigger] self.holders(r) == before.holders(r),
            forall|r: ResourceId|
                r != res && #[trigger] self.locks@.contains_key(r.id())
                    ==> before.locks@.contains_key(r.id()),
            self.locks@.contains_key(res.id()) ==> self.locks@[res.id()].holders@.len() > 0,
            distinct(self.holders(res)),
            coherent(self@),
        ensures
            self.locks_wf(),
    {
        assert forall|r: ResourceId| #[trigger] self.locks@.contains_key(r.id()) implies
            self.locks@[r.id()].holders@.len() > 0 by {
            if r != res {
                assert(self.holders(r) == before.holders(r));
            }
        }
        assert forall|r: ResourceId| distinct(#[trigger] self.holders(r)) by {
            if r != res {
                assert(self.holders(r) == before.holders(r));
            }
        }
    }

    /// Tries to acquire `mode` on `extent` of `res` for `txn` without blocking.
    ///
    /// The request is refused exactly when another transaction holds a common
    /// part of `res` in a mode incompatible with `mode`; nothing is changed then.
    /// When it is granted, `txn` ends up holding the join of what it held on
    /// `extent` and of `mode`. Asking for no more than is held changes nothing.
    pub fn try_acquire(&mut self, txn: TxnId, res: ResourceId, extent: S, mode: LockMode) -> (r:
        Result<(), LockError>)
        requires
            old(self).wf(),
        ensures
            final(self).wf(),
            r == (if blocked(old(self)@, Claim { res, txn, extent }, mode) {
                Err(LockError::Conflict)
            } else {
                Ok::<(), LockError>(())
            }),
            r is Err ==> final(self)@ == old(self)@,
            r is Ok ==> final(self)@ == old(self)@.insert(
                Claim { res, txn, extent },
                upgraded(old(self)@, Claim { res, txn, extent }, mode),
            ),
    {
        let ghost claim = Claim { res, txn, extent };
        proof {
            law_upgrade_conflicts_as_the_request(self@, claim, mode);
        }
        let wanted = match self.mode_held(txn, res, extent) {
            Some(current) => {
                if current.covers(mode) {
                    assert(self@.insert(claim, self@[claim]) =~= self@);
                    return Ok(());
                }
                current.join(mode)
            },
            None => mode,
        };
        if self.refuses(txn, res, extent, wanted) {
            return Err(LockError::Conflict);
        }
        proof {
            law_grant_keeps_coherence(self@, claim, mode);
        }
        self.grant(txn, res, extent, wanted);
        Ok(())
    }

    /// Takes the lock of `txn` on `extent` out of the holders of `res`, leaving
    /// the reverse index alone. Returns whether there was one.
    fn drop_holder(&mut self, txn: TxnId, res: ResourceId, extent: S) -> (r: bool)
        requires
            old(self).locks_wf(),
        ensures
            final(self).locks_wf(),
            final(self).by_txn@ == old(self).by_txn@,
            r == old(self)@.contains_key(Claim { res, txn, extent }),
            final(self)@ == old(self)@.remove(Claim { res, txn, extent }),
    {
        let ghost before = *self;
        let ghost claim = Claim { res, txn, extent };
        let mut entry = self.take_entry(res);
        let ghost holders = entry.holders@;
        assert(distinct(before.holders(res)));
        let found = entry.position(txn, extent);
        if let Some(pos) = found {
            proof {
                lemma_modes_at(holders, pos as int);
                lemma_modes_swap_remove(holders, pos as int);
            }
            entry.holders.swap_remove(pos);
        }
        self.put_entry(res, entry);
        proof {
            if found is None {
                assert(modes(holders).remove((txn, extent)) =~= modes(holders));
            }
            Self::lemma_one_entry_changed(
                &before,
                self,
                res,
                (txn, extent),
                LockMode::IntentionShared,
            );
            law_release_keeps_coherence(before@, self@);
            self.lemma_locks_wf(&before, res);
        }
        found.is_some()
    }

    /// Drops one lock from a transaction's reverse-index entry, removing the
    /// entry entirely once the transaction holds nothing else here.
    fn forget_resource(&mut self, txn: TxnId, res: ResourceId, extent: S)
        requires
            old(self).listed(txn).no_duplicates(),
        ensures
            final(self).locks@ == old(self).locks@,
            final(self).by_txn@.remove(txn.id()) == old(self).by_txn@.remove(txn.id()),
            final(self).listed(txn).no_duplicates(),
            forall|p: (ResourceId, S)| #[trigger]
                final(self).listed(txn).contains(p) <==> old(self).listed(txn).contains(p) && p != (
                res,
                extent,
                ),
            final(self).by_txn@.contains_key(txn.id()) <==> final(self).listed(txn).len() > 0,
    {
        let ghost before = *self;
        let mut list = match self.by_txn.remove(&txn.get()) {
            Some(list) => list,
            None => Vec::new(),
        };
        let ghost known = list@;
        assert(known == before.listed(txn));
        if let Some(pos) = index_of(&list, res, extent) {
            proof {
                lemma_swap_remove(known, pos as int);
            }
            list.swap_remove(pos);
        }
        let ghost left = list@;
        if list.len() > 0 {
            self.by_txn.insert(txn.get(), list);
        }
        proof {
            assert(self.listed(txn) =~= left);
            assert(self.by_txn@.remove(txn.id()) =~= before.by_txn@.remove(txn.id()));
        }
    }

    /// Releases every lock held by `txn` and returns how many there were.
    pub fn release_all(&mut self, txn: TxnId) -> (n: usize)
        requires
            old(self).wf(),
        ensures
            final(self).wf(),
            final(self)@ == without_txn(old(self)@, txn),
            n == claims_of(old(self)@, txn).len(),
            claims_of(old(self)@, txn).finite(),
    {
        let ghost before = *self;
        let list = match self.by_txn.remove(&txn.get()) {
            Some(list) => list,
            None => Vec::new(),
        };
        proof {
            assert(list@ == before.listed(txn));
            assert(self@ =~= before@);
            assert forall|r: ResourceId| distinct(#[trigger] self.holders(r)) by {
                assert(distinct(before.holders(r)));
            }
            assert(self.locks_wf());
        }
        let ghost index = self.by_txn@;
        let mut released: usize = 0;
        let mut i: usize = 0;
        while i < list.len()
            invariant
                0 <= i <= list@.len(),
                released == i,
                self.locks_wf(),
                self.by_txn@ == index,
                list@.no_duplicates(),
                forall|r: ResourceId, s: S| #[trigger]
                    list@.contains((r, s)) <==> before@.contains_key(
                        Claim { res: r, txn, extent: s },
                    ),
                forall|c: Claim<S>| #[trigger]
                    self@.contains_key(c) <==> before@.contains_key(c) && !(c.txn == txn
                        && list@.take(i as int).contains((c.res, c.extent))),
                forall|c: Claim<S>| #[trigger]
                    self@.contains_key(c) ==> self@[c] == before@[c],
            decreases list@.len() - i,
        {
            let ghost last = *self;
            let res = list[i].0;
            let extent = list[i].1;
            proof {
                assert(list@.contains(list@[i as int]));
                assert(!list@.take(i as int).contains((res, extent)));
            }
            if self.drop_holder(txn, res, extent) {
                released += 1;
            }
            proof {
                assert(list@.take(i + 1) =~= list@.take(i as int).push((res, extent)));
                assert forall|c: Claim<S>| #[trigger] self@.contains_key(c) <==> before@.contains_key(
                    c,
                ) && !(c.txn == txn && list@.take(i + 1).contains((c.res, c.extent))) by {
                    lemma_contains_push(list@.take(i as int), (res, extent), (c.res, c.extent));
                    assert(last@.contains_key(c) <==> before@.contains_key(c) && !(c.txn == txn
                        && list@.take(i as int).contains((c.res, c.extent))));
                }
            }
            i += 1;
        }
        proof {
            assert(list@.take(i as int) =~= list@);
            let gone = claims_of(before@, txn);
            assert forall|c: Claim<S>| #[trigger] self@.contains_key(c) <==> before@.contains_key(c)
                && c.txn != txn by {
                assert(self@.contains_key(c) <==> before@.contains_key(c) && !(c.txn == txn
                    && list@.contains((c.res, c.extent))));
            }
            assert(self@ =~= without_txn(before@, txn));
            let f = |p: (ResourceId, S)| Claim { res: p.0, txn, extent: p.1 };
            list@.unique_seq_to_set();
            assert forall|c: Claim<S>| #[trigger] gone.contains(c) <==> list@.to_set().map(
                f,
            ).contains(c) by {
                if gone.contains(c) {
                    assert(list@.contains((c.res, c.extent)));
                    assert(list@.to_set().contains((c.res, c.extent)));
                    assert(f((c.res, c.extent)) == c);
                }
            }
            assert(list@.to_set().map(f) =~= gone);
            vstd::set_lib::lemma_map_size(list@.to_set(), gone, f);
            assert forall|t: TxnId| t != txn implies self.listed(t) == #[trigger] before.listed(
                t,
            ) by {}
            assert(self.listed(txn) =~= Seq::empty());
            assert forall|t: TxnId| (#[trigger] self.listed(t)).no_duplicates() by {
                assert(before.listed(t).no_duplicates());
            }
            assert forall|t: TxnId, r: ResourceId, s: S| #[trigger]
                self.listed(t).contains((r, s)) <==> self@.contains_key(
                    Claim { res: r, txn: t, extent: s },
                ) by {
                assert(before.listed(t).contains((r, s)) <==> before@.contains_key(
                    Claim { res: r, txn: t, extent: s },
                ));
            }
            assert(self.index_wf());
        }
        released
    }

    /// Returns the number of locks held on `res`.
    #[must_use]
    pub fn holder_count(&self, res: ResourceId) -> (n: usize)
        requires
            self.wf(),
        ensures
            n == claims_on(self@, res).len(),
            claims_on(self@, res).finite(),
    {
        proof {
            let holders = self.holders(res);
            assert(distinct(holders));
            let f = |h: Holder<S>| Claim { res, txn: h.txn, extent: h.extent };
            let claims = holders.map_values(f);
            assert(claims.no_duplicates());
            claims.unique_seq_to_set();
            assert forall|c: Claim<S>| #[trigger] claims.to_set().contains(c) <==> claims_on(
                self@,
                res,
            ).contains(c) by {
                if claims.contains(c) {
                    let i = choose|i: int| 0 <= i < claims.len() && claims[i] == c;
                    lemma_modes_at(holders, i);
                }
                if claims_on(self@, res).contains(c) {
                    let i = place(holders, c.txn, c.extent);
                    assert(at(holders, i, c.txn, c.extent));
                    assert(claims[i] == c);
                }
            }
            assert(claims.to_set() =~= claims_on(self@, res));
        }
        match self.locks.get(&res.get()) {
            Some(entry) => entry.holders.len(),
            None => 0,
        }
    }

    /// Releases the lock `txn` holds on `extent` of `res`.
    ///
    /// Returns [`LockError::NotHeld`] if there is none.
    pub fn release(&mut self, txn: TxnId, res: ResourceId, extent: S) -> (r: Result<(), LockError>)
        requires
            old(self).wf(),
        ensures
            final(self).wf(),
            r == (if old(self)@.contains_key(Claim { res, txn, extent }) {
                Ok(())
            } else {
                Err::<(), LockError>(LockError::NotHeld)
            }),
            final(self)@ == old(self)@.remove(Claim { res, txn, extent }),
    {
        let ghost before = *self;
        if !self.drop_holder(txn, res, extent) {
            proof {
                assert(self@ =~= before@);
                assert forall|t: TxnId| #[trigger] self.listed(t) == before.listed(t) by {}
                assert(self.index_wf());
            }
            return Err(LockError::NotHeld);
        }
        let ghost dropped = *self;
        proof {
            assert(before.listed(txn).no_duplicates());
            assert(self.listed(txn) == before.listed(txn));
        }
        self.forget_resource(txn, res, extent);
        proof {
            assert(self@ =~= dropped@);
            assert forall|r: ResourceId| distinct(#[trigger] self.holders(r)) by {
                assert(distinct(dropped.holders(r)));
            }
            assert forall|t: TxnId| t != txn implies self.listed(t) == #[trigger] before.listed(
                t,
            ) && self.by_txn@.contains_key(t.id()) == before.by_txn@.contains_key(t.id()) by {
                assert(self.by_txn@.remove(txn.id()).contains_key(t.id())
                    == before.by_txn@.remove(txn.id()).contains_key(t.id()));
                assert(self.by_txn@.remove(txn.id())[t.id()] == before.by_txn@.remove(
                    txn.id(),
                )[t.id()]);
            }
            assert forall|t: TxnId| #[trigger] self.by_txn@.contains_key(t.id()) implies
                self.by_txn@[t.id()]@.len() > 0 by {
                assert(self.listed(t) == self.by_txn@[t.id()]@);
                if t != txn {
                    assert(before.listed(t) == before.by_txn@[t.id()]@);
                }
            }
            assert forall|t: TxnId| (#[trigger] self.listed(t)).no_duplicates() by {
                assert(before.listed(t).no_duplicates());
            }
            assert forall|t: TxnId, r: ResourceId, s: S| #[trigger]
                self.listed(t).contains((r, s)) <==> self@.contains_key(
                    Claim { res: r, txn: t, extent: s },
                ) by {
                assert(before.listed(t).contains((r, s)) <==> before@.contains_key(
                    Claim { res: r, txn: t, extent: s },
                ));
            }
            assert(self.locks_wf() && self.index_wf());
        }
        Ok(())
    }
}

/// Returns the first position of `(res, extent)` in `list`.
fn index_of<S: Extent>(list: &Vec<(ResourceId, S)>, res: ResourceId, extent: S) -> (r: Option<
    usize,
>)
    ensures
        r matches Some(i) ==> i < list@.len() && list@[i as int] == (res, extent),
        r is None ==> !list@.contains((res, extent)),
{
    let mut i: usize = 0;
    while i < list.len()
        invariant
            0 <= i <= list@.len(),
            forall|j: int| 0 <= j < i ==> list@[j] != (res, extent),
        decreases list@.len() - i,
    {
        if list[i].0 == res && list[i].1.same(extent) {
            return Some(i);
        }
        i += 1;
    }
    None
}

/// Replacing a member of a sequence without repetitions by its last one, and
/// dropping that, removes the member.
proof fn lemma_swap_remove<A>(s: Seq<A>, pos: int)
    requires
        s.no_duplicates(),
        0 <= pos < s.len(),
    ensures
        s.update(pos, s.last()).drop_last().no_duplicates(),
        forall|a: A| #[trigger]
            s.update(pos, s.last()).drop_last().contains(a) <==> s.contains(a) && a != s[pos],
{
    let after = s.update(pos, s.last()).drop_last();
    let last = s.len() - 1;
    assert forall|a: A| #[trigger] after.contains(a) <==> s.contains(a) && a != s[pos] by {
        if after.contains(a) {
            let i = choose|i: int| 0 <= i < after.len() && after[i] == a;
            let j = if i == pos {
                last
            } else {
                i
            };
            assert(s[j] == a && j != pos);
        }
        if s.contains(a) && a != s[pos] {
            let i = choose|i: int| 0 <= i < s.len() && s[i] == a;
            let j = if i == last {
                pos
            } else {
                i
            };
            assert(after[j] == a);
        }
    }
}

} // verus!
