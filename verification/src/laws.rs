//! What the operations of the lock table promise together.
//!
//! Each law is stated over what a table holds, the same terms in which the
//! operations of the lock manager are stated.
use crate::deadlock::{self, Deadlock, VictimPolicy};
use crate::graph;
use crate::id::{ResourceId, TxnId};
use crate::ledger::{self, Claim, Extent, Whole};
use crate::manager::{self, LockTable};
use crate::mode::LockMode;
use crate::range::KeyRange;
use vstd::prelude::*;

verus! {

/// Law: in a new table no lock is held and no one waits.
pub proof fn law_empty_table_holds_nothing(
    p: Claim<Whole>,
    r: Claim<KeyRange>,
    txn: TxnId,
)
    ensures
        !LockTable::empty().points.contains_key(p),
        !LockTable::empty().ranges.contains_key(r),
        !LockTable::empty().waits.contains_key(txn),
{
}

/// Law: the claim of a point request is that of the transaction on the resource,
/// and the claim of a range request is that of the transaction on the whole range,
/// every key of it and no other. Different requests have different claims.
pub proof fn law_claims_cover_what_is_asked_for(
    txn: TxnId,
    res: ResourceId,
    range: KeyRange,
    key: u64,
    other: Claim<Whole>,
    span: Claim<KeyRange>,
)
    ensures
        manager::point(txn, res) == other <==> other.txn == txn && other.res == res,
        manager::span(txn, res, range) == span <==> span.txn == txn && span.res == res
            && span.extent.lo() == range.lo() && span.extent.hi() == range.hi(),
        manager::span(txn, res, range).extent.has(key) <==> range.lo() <= key && key
            <= range.hi(),
{
    assert(other.extent == Whole);
    span.extent.law_range_is_its_bounds(range, key);
}

/// Law: a point request is refused exactly when some other transaction holds the
/// resource in a mode incompatible with the one asked for.
pub proof fn law_point_request_is_refused_by_holders(
    held: Map<Claim<Whole>, LockMode>,
    txn: TxnId,
    res: ResourceId,
    mode: LockMode,
)
    ensures
        ledger::blocked(held, manager::point(txn, res), mode) <==> exists|o: Claim<Whole>|
            #[trigger]
            held.contains_key(o) && o.res == res && o.txn != txn && !held[o].compatible(mode),
{
    ledger::law_blocked_by_incompatible_holders(held, manager::point(txn, res), mode, txn);
    if exists|o: Claim<Whole>| #[trigger]
        held.contains_key(o) && o.res == res && o.txn != txn && !held[o].compatible(mode) {
        let o = choose|o: Claim<Whole>| #[trigger]
            held.contains_key(o) && o.res == res && o.txn != txn && !held[o].compatible(mode);
        assert(o.extent.touches(manager::point(txn, res).extent));
    }
}

/// Law: a range request is refused exactly when some other transaction holds, in a
/// mode incompatible with the one asked for, a range of the key space that has a
/// key in common with the one asked for.
pub proof fn law_range_request_is_refused_by_overlaps(
    held: Map<Claim<KeyRange>, LockMode>,
    txn: TxnId,
    space: ResourceId,
    range: KeyRange,
    mode: LockMode,
)
    ensures
        ledger::blocked(held, manager::span(txn, space, range), mode) <==> exists|
            o: Claim<KeyRange>,
            key: u64,
        |
            {
                &&& #[trigger] held.contains_key(o)
                &&& o.res == space
                &&& o.txn != txn
                &&& #[trigger] o.extent.has(key)
                &&& range.lo() <= key <= range.hi()
                &&& !held[o].compatible(mode)
            },
{
    let claim = manager::span(txn, space, range);
    ledger::law_blocked_by_incompatible_holders(held, claim, mode, txn);
    if ledger::blocked(held, claim, mode) {
        let o = choose|o: Claim<KeyRange>| #[trigger]
            held.contains_key(o) && o.res == space && o.txn != txn && o.extent.touches(range)
                && !held[o].compatible(mode);
        ledger::law_common_parts(Whole, Whole, o.extent, range);
        let key = choose|key: u64|
            o.extent.lo() <= key <= o.extent.hi() && range.lo() <= key <= range.hi()
                && #[trigger] o.extent.has(key);
        assert(held.contains_key(o) && o.extent.has(key));
    }
    assert forall|o: Claim<KeyRange>, key: u64|
        {
            &&& #[trigger] held.contains_key(o)
            &&& o.res == space
            &&& o.txn != txn
            &&& #[trigger] o.extent.has(key)
            &&& range.lo() <= key <= range.hi()
            &&& !held[o].compatible(mode)
        } implies ledger::blocked(held, claim, mode) by {
        ledger::law_common_parts(Whole, Whole, o.extent, range);
        assert(o.extent.touches(range));
    }
}

/// Law: once a transaction has been granted a range, another transaction is
/// refused every range that shares a key with it, in every mode that is
/// incompatible with the one granted.
pub proof fn law_granted_range_keeps_others_out(
    table: LockTable,
    after: LockTable,
    txn: TxnId,
    space: ResourceId,
    range: KeyRange,
    mode: LockMode,
    other: TxnId,
    wanted: KeyRange,
    asked: LockMode,
    key: u64,
)
    requires
        after.ranges == table.ranges.insert(
            manager::span(txn, space, range),
            ledger::upgraded(table.ranges, manager::span(txn, space, range), mode),
        ),
        other != txn,
        range.lo() <= key <= range.hi(),
        wanted.lo() <= key <= wanted.hi(),
        !mode.compatible(asked),
    ensures
        ledger::blocked(after.ranges, manager::span(other, space, wanted), asked),
{
    let own = manager::span(txn, space, range);
    let got = ledger::upgraded(table.ranges, own, mode);
    law_grant_covers_the_request(table.ranges, own, mode);
    if got.compatible(asked) {
        asked.law_compatible_is_symmetric(got);
        asked.law_weaker_modes_conflict_less(got, mode);
        asked.law_compatible_is_symmetric(mode);
    }
    law_range_lock_prevents_phantoms(
        after.ranges,
        own,
        manager::span(other, space, wanted),
        asked,
        key,
    );
}

/// Law: once a transaction has been granted a resource, another transaction is
/// refused it in every mode that is incompatible with the one granted.
pub proof fn law_granted_point_keeps_others_out(
    table: LockTable,
    after: LockTable,
    txn: TxnId,
    res: ResourceId,
    mode: LockMode,
    other: TxnId,
    asked: LockMode,
)
    requires
        after.points == table.points.insert(
            manager::point(txn, res),
            ledger::upgraded(table.points, manager::point(txn, res), mode),
        ),
        other != txn,
        !mode.compatible(asked),
    ensures
        ledger::blocked(after.points, manager::point(other, res), asked),
{
    let own = manager::point(txn, res);
    let got = ledger::upgraded(table.points, own, mode);
    law_grant_covers_the_request(table.points, own, mode);
    if got.compatible(asked) {
        asked.law_compatible_is_symmetric(got);
        asked.law_weaker_modes_conflict_less(got, mode);
        asked.law_compatible_is_symmetric(mode);
    }
    assert(ledger::obstructs(after.points, own, manager::point(other, res), asked));
}

/// Law: what the table holds after a granted request. The transaction holds the
/// resource in the join of the mode it held before, if any, and the mode asked
/// for; every other point lock, every range lock and every other wait is as
/// before; and the transaction waits no longer.
pub proof fn law_granted_request_is_held(
    table: LockTable,
    txn: TxnId,
    res: ResourceId,
    mode: LockMode,
    c: Claim<Whole>,
    other: TxnId,
)
    ensures
        ({
            let after = table.granting(txn, res, mode);
            &&& c.txn == txn && c.res == res ==> after.points.get(c) == Some(
                match table.points.get(c) {
                    Some(before) => before.joined(mode),
                    None => mode,
                },
            )
            &&& c.txn != txn || c.res != res ==> after.points.get(c) == table.points.get(c)
            &&& after.ranges == table.ranges
            &&& !after.waits.contains_key(txn)
            &&& other != txn ==> after.waits.get(other) == table.waits.get(other)
        }),
{
    assert(c.extent == Whole);
}

/// Law: what the table holds after a request that must wait. The transaction waits
/// for the mode and the resource it asked for; every lock and every other wait is
/// as before.
pub proof fn law_refused_request_is_recorded(
    table: LockTable,
    txn: TxnId,
    res: ResourceId,
    mode: LockMode,
    other: TxnId,
)
    ensures
        ({
            let after = table.waiting_for(txn, res, mode);
            &&& after.points == table.points
            &&& after.ranges == table.ranges
            &&& after.waits.get(txn) == Some((res, mode))
            &&& other != txn ==> after.waits.get(other) == table.waits.get(other)
        }),
{
}

/// Law: who waits for whom. A transaction waits for another exactly when the table
/// records that it waits for some resource in some mode, and the other holds that
/// resource in a mode incompatible with it.
pub proof fn law_waits_are_for_incompatible_holders(table: LockTable, w: TxnId, h: TxnId)
    ensures
        table.wait_edges().contains((w, h)) <==> {
            &&& w != h
            &&& table.waits.contains_key(w)
            &&& table.points.contains_key(
                Claim { res: table.waits[w].0, txn: h, extent: Whole },
            )
            &&& !table.points[Claim {
                res: table.waits[w].0,
                txn: h,
                extent: Whole,
            }].compatible(table.waits[w].1)
        },
{
    let claim = manager::point(w, table.waits[w].0);
    let o = Claim { res: table.waits[w].0, txn: h, extent: Whole };
    assert(table.wait_edges().contains((w, h)) <==> table.waits_for(w, h));
    ledger::law_blocked_by_incompatible_holders(table.points, claim, table.waits[w].1, h);
    if table.waits_for(w, h) {
        let p = choose|p: Claim<Whole>| #[trigger]
            table.points.contains_key(p) && p.res == claim.res && p.txn == h && p.extent.touches(
                claim.extent,
            ) && !table.points[p].compatible(table.waits[w].1);
        assert(p.extent == Whole);
        assert(p == o);
    }
    if w != h && table.waits.contains_key(w) && table.points.contains_key(o)
        && !table.points[o].compatible(table.waits[w].1) {
        assert(o.extent.touches(claim.extent));
    }
}

/// Law: transactions that wait in a ring, each for a resource that the next one
/// holds in an incompatible mode, are a deadlock, however many they are.
pub proof fn law_ring_of_waits_is_a_deadlock(table: LockTable, c: Seq<TxnId>)
    requires
        c.len() > 1,
        forall|i: int, j: int| 0 <= i < j < c.len() ==> #[trigger] c[i] != #[trigger] c[j],
        forall|i: int, j: int|
            0 <= i < c.len() && 0 <= j < c.len() && j == (if i + 1 == c.len() {
                0
            } else {
                i + 1
            }) ==> {
                let wait = table.waits[#[trigger] c[i]];
                let held = Claim { res: wait.0, txn: #[trigger] c[j], extent: Whole };
                &&& table.waits.contains_key(c[i])
                &&& table.points.contains_key(held)
                &&& !table.points[held].compatible(wait.1)
            },
    ensures
        !graph::acyclic(table.wait_edges()),
{
    let edges = table.wait_edges();
    assert forall|i: int, j: int|
        0 <= i < c.len() && 0 <= j < c.len() && j == (if i + 1 == c.len() {
            0
        } else {
            i + 1
        }) implies edges.contains((#[trigger] c[i], #[trigger] c[j])) by {
        assert(c[i] != c[j]);
        law_waits_are_for_incompatible_holders(table, c[i], c[j]);
    }
    graph::law_cycle_is_a_ring(edges, c);
    assert(graph::is_cycle(edges, c));
}

/// Law: a reported deadlock is a ring of at least two distinct transactions, each
/// of which waits for a resource that the next one holds in an incompatible mode,
/// and its victim is the youngest of them.
pub proof fn law_deadlock_is_a_ring_of_waits(table: LockTable, d: Deadlock, i: int, j: int)
    requires
        manager::is_deadlock(table, d),
        0 <= i < d.cycle@.len(),
        0 <= j < d.cycle@.len(),
    ensures
        ({
            let next = d.cycle@[if i + 1 == d.cycle@.len() { 0 } else { i + 1 }];
            let wait = table.waits[d.cycle@[i]];
            &&& table.waits.contains_key(d.cycle@[i])
            &&& table.points.contains_key(Claim { res: wait.0, txn: next, extent: Whole })
            &&& !table.points[Claim { res: wait.0, txn: next, extent: Whole }].compatible(wait.1)
        }),
        d.cycle@.len() > 1,
        i != j ==> d.cycle@[i] != d.cycle@[j],
        d.cycle@.contains(d.victim),
        d.cycle@[i].id() <= d.victim.id(),
{
    let next = d.cycle@[if i + 1 == d.cycle@.len() { 0 } else { i + 1 }];
    deadlock::law_deadlock_is_a_ring(table.wait_edges(), VictimPolicy::Youngest, d, i, j);
    law_waits_are_for_incompatible_holders(table, d.cycle@[i], next);
}

/// Law: in a coherent table no two transactions hold incompatible locks on one
/// resource, or on ranges of one key space that share a key; and a table in which
/// none do is coherent.
pub proof fn law_coherent_table(table: LockTable)
    ensures
        table.coherent() <==> {
            &&& forall|a: Claim<Whole>, b: Claim<Whole>|
                table.points.contains_key(a) && table.points.contains_key(b) && a.res == b.res
                    && a.txn != b.txn ==> (#[trigger] table.points[a]).compatible(
                    #[trigger] table.points[b],
                )
            &&& forall|a: Claim<KeyRange>, b: Claim<KeyRange>, key: u64|
                table.ranges.contains_key(a) && table.ranges.contains_key(b) && a.res == b.res
                    && a.txn != b.txn && #[trigger] a.extent.has(key) && b.extent.lo() <= key
                    <= b.extent.hi() ==> (#[trigger] table.ranges[a]).compatible(
                    #[trigger] table.ranges[b],
                )
        },
{
    ledger::law_coherence_is_pairwise(table.points);
    ledger::law_coherence_is_pairwise(table.ranges);
    assert forall|a: Claim<Whole>, b: Claim<Whole>| #[trigger] a.extent.touches(b.extent) by {}
    if table.coherent() {
        assert forall|a: Claim<Whole>, b: Claim<Whole>|
            table.points.contains_key(a) && table.points.contains_key(b) && a.res == b.res && a.txn
                != b.txn implies (#[trigger] table.points[a]).compatible(
            #[trigger] table.points[b],
        ) by {
            assert(a.extent.touches(b.extent));
        }
        assert forall|a: Claim<KeyRange>, b: Claim<KeyRange>, key: u64|
            table.ranges.contains_key(a) && table.ranges.contains_key(b) && a.res == b.res && a.txn
                != b.txn && #[trigger] a.extent.has(key) && b.extent.lo() <= key
                <= b.extent.hi() implies (#[trigger] table.ranges[a]).compatible(
            #[trigger] table.ranges[b],
        ) by {
            ledger::law_common_parts(Whole, Whole, a.extent, b.extent);
            assert(a.extent.touches(b.extent));
        }
    }
    if forall|a: Claim<KeyRange>, b: Claim<KeyRange>, key: u64|
        table.ranges.contains_key(a) && table.ranges.contains_key(b) && a.res == b.res && a.txn
            != b.txn && #[trigger] a.extent.has(key) && b.extent.lo() <= key <= b.extent.hi()
            ==> (#[trigger] table.ranges[a]).compatible(#[trigger] table.ranges[b]) {
        assert forall|a: Claim<KeyRange>, b: Claim<KeyRange>|
            table.ranges.contains_key(a) && table.ranges.contains_key(b) && a.res == b.res && a.txn
                != b.txn && a.extent.touches(b.extent) implies (
        #[trigger] table.ranges[a]).compatible(#[trigger] table.ranges[b]) by {
            ledger::law_common_parts(Whole, Whole, a.extent, b.extent);
            let key = choose|key: u64|
                a.extent.lo() <= key <= a.extent.hi() && b.extent.lo() <= key <= b.extent.hi()
                    && #[trigger] a.extent.has(key);
            assert(a.extent.has(key));
        }
    }
}

/// Law: a transaction that holds a resource exclusively is its only holder.
pub proof fn law_exclusive_holder_is_alone(
    held: Map<Claim<Whole>, LockMode>,
    txn: TxnId,
    res: ResourceId,
)
    requires
        ledger::coherent(held),
        held.contains_key(manager::point(txn, res)),
        held[manager::point(txn, res)] == LockMode::Exclusive,
    ensures
        ledger::claims_on(held, res) == Set::<Claim<Whole>>::empty().insert(
            manager::point(txn, res),
        ),
        ledger::claims_on(held, res).len() == 1,
{
    let own = manager::point(txn, res);
    assert forall|c: Claim<Whole>| #[trigger] ledger::claims_on(held, res).contains(c) <==> c
        == own by {
        if ledger::claims_on(held, res).contains(c) && c.txn != txn {
            assert(held[own].compatible(held[c]));
        }
        if c.txn == txn && c.res == res {
            assert(c.extent == own.extent);
        }
    }
    assert(ledger::claims_on(held, res) =~= Set::<Claim<Whole>>::empty().insert(own));
}

/// Law: a request for no more than is held is granted and changes nothing.
pub proof fn law_reacquisition_changes_nothing<S: Extent>(
    held: Map<Claim<S>, LockMode>,
    claim: Claim<S>,
    mode: LockMode,
)
    requires
        ledger::coherent(held),
        held.contains_key(claim),
        held[claim].at_least(mode),
    ensures
        !ledger::blocked(held, claim, mode),
        held.insert(claim, ledger::upgraded(held, claim, mode)) == held,
{
    ledger::law_upgrade_conflicts_as_the_request(held, claim, mode);
    assert(held.insert(claim, held[claim]) =~= held);
}

/// Law: a transaction that no other one shares a resource with is granted every
/// request on it, and any upgrade.
pub proof fn law_sole_holder_is_never_refused<S: Extent>(
    held: Map<Claim<S>, LockMode>,
    claim: Claim<S>,
    mode: LockMode,
)
    requires
        forall|c: Claim<S>| #[trigger]
            held.contains_key(c) && c.res == claim.res ==> c.txn == claim.txn,
    ensures
        !ledger::blocked(held, claim, mode),
{
    assert forall|o: Claim<S>| !#[trigger] ledger::obstructs(held, o, claim, mode) by {
        if held.contains_key(o) && o.res == claim.res {
            assert(o.txn == claim.txn);
        }
    }
}

/// Law: what a transaction holds after a granted request covers both what it
/// held before and what it asked for.
pub proof fn law_grant_covers_the_request<S: Extent>(
    held: Map<Claim<S>, LockMode>,
    claim: Claim<S>,
    mode: LockMode,
)
    ensures
        ledger::upgraded(held, claim, mode).at_least(mode),
        held.contains_key(claim) ==> ledger::upgraded(held, claim, mode).at_least(held[claim]),
{
    if held.contains_key(claim) {
        held[claim].law_join_is_least_upper_bound(mode, mode);
    }
}

/// Law: releasing a lock that was not held before it was acquired gives the
/// locks back as they were.
pub proof fn law_release_undoes_acquire<S: Extent>(
    held: Map<Claim<S>, LockMode>,
    claim: Claim<S>,
    mode: LockMode,
)
    requires
        !held.contains_key(claim),
    ensures
        held.insert(claim, ledger::upgraded(held, claim, mode)).remove(claim) == held,
{
    assert(held.insert(claim, ledger::upgraded(held, claim, mode)).remove(claim) =~= held);
}

/// Law: a lock that has been released is not held, so that releasing it again
/// fails; every other lock stays as it was.
pub proof fn law_release_drops_one_lock<S: Extent>(
    held: Map<Claim<S>, LockMode>,
    claim: Claim<S>,
    other: Claim<S>,
)
    ensures
        !held.remove(claim).contains_key(claim),
        held.remove(claim).remove(claim) == held.remove(claim),
        other != claim ==> held.remove(claim).get(other) == held.get(other),
{
    assert(held.remove(claim).remove(claim) =~= held.remove(claim));
}

/// Law: a transaction that lets go of everything holds nothing afterwards, every
/// other transaction's locks stay as they were, and doing it again releases
/// nothing more.
pub proof fn law_release_all_drops_exactly_its_own<S: Extent>(
    held: Map<Claim<S>, LockMode>,
    txn: TxnId,
    claim: Claim<S>,
)
    ensures
        claim.txn == txn ==> !ledger::without_txn(held, txn).contains_key(claim),
        claim.txn != txn ==> ledger::without_txn(held, txn).get(claim) == held.get(claim),
        ledger::claims_of(ledger::without_txn(held, txn), txn).len() == 0,
        ledger::without_txn(ledger::without_txn(held, txn), txn) == ledger::without_txn(held, txn),
{
    let rest = ledger::without_txn(held, txn);
    assert(ledger::claims_of(rest, txn) =~= Set::<Claim<S>>::empty());
    assert(ledger::without_txn(rest, txn) =~= rest);
}

/// Law: a request is granted once every lock that stood in its way is released.
pub proof fn law_releasing_the_blocker_admits_the_request<S: Extent>(
    held: Map<Claim<S>, LockMode>,
    gone: Claim<S>,
    claim: Claim<S>,
    mode: LockMode,
)
    requires
        forall|o: Claim<S>| #[trigger] ledger::obstructs(held, o, claim, mode) ==> o == gone,
    ensures
        !ledger::blocked(held.remove(gone), claim, mode),
{
    assert forall|o: Claim<S>| !#[trigger] ledger::obstructs(
        held.remove(gone),
        o,
        claim,
        mode,
    ) by {
        if ledger::obstructs(held.remove(gone), o, claim, mode) {
            assert(ledger::obstructs(held, o, claim, mode));
        }
    }
}

/// Law: what is held on one resource has no bearing on another. Granting or
/// releasing a lock changes neither what is refused on other resources nor the
/// claims on them.
pub proof fn law_resources_are_independent<S: Extent>(
    held: Map<Claim<S>, LockMode>,
    changed: Claim<S>,
    granted: LockMode,
    claim: Claim<S>,
    mode: LockMode,
)
    requires
        changed.res != claim.res,
    ensures
        ledger::blocked(held.insert(changed, granted), claim, mode) == ledger::blocked(
            held,
            claim,
            mode,
        ),
        ledger::blocked(held.remove(changed), claim, mode) == ledger::blocked(held, claim, mode),
        ledger::claims_on(held.insert(changed, granted), claim.res) == ledger::claims_on(
            held,
            claim.res,
        ),
        ledger::claims_on(held.remove(changed), claim.res) == ledger::claims_on(held, claim.res),
{
    let more = held.insert(changed, granted);
    let less = held.remove(changed);
    if ledger::blocked(held, claim, mode) {
        let o = choose|o: Claim<S>| #[trigger] ledger::obstructs(held, o, claim, mode);
        assert(ledger::obstructs(more, o, claim, mode));
        assert(ledger::obstructs(less, o, claim, mode));
    }
    if ledger::blocked(more, claim, mode) {
        let o = choose|o: Claim<S>| #[trigger] ledger::obstructs(more, o, claim, mode);
        assert(ledger::obstructs(held, o, claim, mode));
    }
    if ledger::blocked(less, claim, mode) {
        let o = choose|o: Claim<S>| #[trigger] ledger::obstructs(less, o, claim, mode);
        assert(ledger::obstructs(held, o, claim, mode));
    }
    assert(ledger::claims_on(more, claim.res) =~= ledger::claims_on(held, claim.res));
    assert(ledger::claims_on(less, claim.res) =~= ledger::claims_on(held, claim.res));
}

/// Law: a range lock keeps every key of the range, present or not, from another
/// transaction that asks for it in an incompatible mode.
pub proof fn law_range_lock_prevents_phantoms(
    held: Map<Claim<KeyRange>, LockMode>,
    reader: Claim<KeyRange>,
    writer: Claim<KeyRange>,
    mode: LockMode,
    key: u64,
)
    requires
        held.contains_key(reader),
        reader.res == writer.res,
        reader.txn != writer.txn,
        reader.extent.has(key),
        writer.extent.has(key),
        !held[reader].compatible(mode),
    ensures
        ledger::blocked(held, writer, mode),
{
    assert(reader.extent.meets(writer.extent));
    assert(ledger::obstructs(held, reader, writer, mode));
}

/// Law: range locks conflict only where they overlap. A request is granted when
/// every range that others hold in the key space is disjoint from it or held in
/// a compatible mode.
pub proof fn law_ranges_conflict_only_where_they_overlap(
    held: Map<Claim<KeyRange>, LockMode>,
    claim: Claim<KeyRange>,
    mode: LockMode,
)
    requires
        forall|o: Claim<KeyRange>| #[trigger]
            held.contains_key(o) && o.res == claim.res && o.txn != claim.txn ==> !o.extent.meets(
                claim.extent,
            ) || held[o].compatible(mode),
    ensures
        !ledger::blocked(held, claim, mode),
{
    assert forall|o: Claim<KeyRange>| !#[trigger] ledger::obstructs(held, o, claim, mode) by {
        if held.contains_key(o) && o.res == claim.res && o.txn != claim.txn {
            assert(!o.extent.meets(claim.extent) || held[o].compatible(mode));
        }
    }
}

/// Law: an intention lock on a coarse resource keeps others from locking the
/// whole of it against what is announced. No one reads the whole of a resource
/// under which another announces writes, and no one writes the whole of a
/// resource that another holds in any mode.
pub proof fn law_intention_locks_guard_what_is_beneath(
    held: Map<Claim<Whole>, LockMode>,
    announcer: TxnId,
    other: TxnId,
    coarse: ResourceId,
    mode: LockMode,
)
    requires
        announcer != other,
        held.contains_key(manager::point(announcer, coarse)),
    ensures
        held[manager::point(announcer, coarse)].writes_part() && mode.reads_all()
            ==> ledger::blocked(held, manager::point(other, coarse), mode),
        mode is Exclusive ==> ledger::blocked(held, manager::point(other, coarse), mode),
{
    let own = manager::point(announcer, coarse);
    if !held[own].compatible(mode) {
        assert(ledger::obstructs(held, own, manager::point(other, coarse), mode));
    }
}

/// Law: a transaction whose wait is over, because nothing stands in the way of
/// what it waits for, is part of no deadlock; nor is one that does not wait.
pub proof fn law_no_false_deadlock(table: LockTable, txn: TxnId, d: Deadlock)
    requires
        !table.waits.contains_key(txn) || !ledger::blocked(
            table.points,
            manager::point(txn, table.waits[txn].0),
            table.waits[txn].1,
        ),
        manager::is_deadlock(table, d),
    ensures
        !d.cycle@.contains(txn),
        d.victim != txn,
{
    let edges = table.wait_edges();
    assert forall|b: TxnId| !edges.contains((txn, b)) by {
        if table.waits_for(txn, b) {
            let claim = manager::point(txn, table.waits[txn].0);
            let o = choose|o: Claim<Whole>| #[trigger]
                ledger::obstructs(table.points, o, claim, table.waits[txn].1) && o.txn == b;
        }
    }
    graph::law_no_cycle_without_waiting(edges, txn, d.cycle@);
}

/// Law: recording a wait in a table without deadlocks makes no deadlock but one
/// that contains the waiting transaction and is reachable from it. A search from
/// that transaction therefore misses none.
pub proof fn law_new_deadlock_is_reachable_from_its_waiter(
    table: LockTable,
    txn: TxnId,
    res: ResourceId,
    mode: LockMode,
    c: Seq<TxnId>,
)
    requires
        graph::acyclic(table.wait_edges()),
        graph::is_cycle(table.waiting_for(txn, res, mode).wait_edges(), c),
    ensures
        c.contains(txn),
        graph::reaches(table.waiting_for(txn, res, mode).wait_edges(), txn, c.first()),
{
    let after = table.waiting_for(txn, res, mode);
    assert forall|a: TxnId, b: TxnId|
        a != txn && #[trigger] after.wait_edges().contains((a, b)) implies table.wait_edges().contains(
    (a, b)) by {
        assert(after.waits_for(a, b));
        assert(table.waits_for(a, b));
    }
    graph::law_new_cycle_contains_the_waiter(table.wait_edges(), after.wait_edges(), txn, c);
}

/// Law: granting a request makes no deadlock.
pub proof fn law_granting_makes_no_deadlock(
    table: LockTable,
    txn: TxnId,
    res: ResourceId,
    mode: LockMode,
)
    requires
        graph::acyclic(table.wait_edges()),
    ensures
        graph::acyclic(table.granting(txn, res, mode).wait_edges()),
{
    let after = table.granting(txn, res, mode);
    assert forall|c: Seq<TxnId>| !#[trigger] graph::is_cycle(after.wait_edges(), c) by {
        if graph::is_cycle(after.wait_edges(), c) {
            assert forall|b: TxnId| !after.wait_edges().contains((txn, b)) by {}
            graph::law_no_cycle_without_waiting(after.wait_edges(), txn, c);
            assert forall|i: int| 0 <= i < c.len() - 1 && graph::step(
                after.wait_edges(),
                c,
                i,
            ) implies #[trigger] graph::step(table.wait_edges(), c, i) by {
                assert(c.contains(c[i]) && c.contains(c[i + 1]));
                lemma_granting_keeps_other_waits(table, txn, res, mode, c[i], c[i + 1]);
            }
            graph::lemma_path_of_more_edges(after.wait_edges(), table.wait_edges(), c);
            assert(c.contains(c.last()) && c.contains(c.first()));
            lemma_granting_keeps_other_waits(table, txn, res, mode, c.last(), c.first());
            assert(graph::is_cycle(table.wait_edges(), c));
        }
    }
}

/// Granting a lock to one transaction does not make two others wait for one
/// another.
proof fn lemma_granting_keeps_other_waits(
    table: LockTable,
    txn: TxnId,
    res: ResourceId,
    mode: LockMode,
    a: TxnId,
    b: TxnId,
)
    requires
        a != txn,
        b != txn,
        table.granting(txn, res, mode).wait_edges().contains((a, b)),
    ensures
        table.wait_edges().contains((a, b)),
{
    let after = table.granting(txn, res, mode);
    assert(after.waits_for(a, b));
    let claim = manager::point(a, table.waits[a].0);
    let o = choose|o: Claim<Whole>| #[trigger]
        ledger::obstructs(after.points, o, claim, table.waits[a].1) && o.txn == b;
    assert(ledger::obstructs(table.points, o, claim, table.waits[a].1));
    assert(table.waits_for(a, b));
}

/// Law: giving up locks or waits makes no deadlock.
pub proof fn law_releasing_makes_no_deadlock(table: LockTable, after: LockTable)
    requires
        after.points.submap_of(table.points),
        after.waits.submap_of(table.waits),
        graph::acyclic(table.wait_edges()),
    ensures
        graph::acyclic(after.wait_edges()),
{
    assert forall|e: (TxnId, TxnId)| #[trigger] after.wait_edges().contains(e) implies
        table.wait_edges().contains(e) by {
        assert(after.waits_for(e.0, e.1));
        assert(after.waits.dom().contains(e.0) && table.waits.dom().contains(e.0));
        let claim = manager::point(e.0, table.waits[e.0].0);
        let o = choose|o: Claim<Whole>| #[trigger]
            ledger::obstructs(after.points, o, claim, table.waits[e.0].1) && o.txn == e.1;
        assert(after.points.dom().contains(o) && table.points.dom().contains(o));
        assert(ledger::obstructs(table.points, o, claim, table.waits[e.0].1));
        assert(table.waits_for(e.0, e.1));
    }
    graph::law_fewer_edges_stay_acyclic(table.wait_edges(), after.wait_edges());
}

/// Law: aborting the transaction whose wait made a deadlock, which releases
/// everything it holds and ends its wait, leaves no deadlock at all, however many
/// its wait had made.
pub proof fn law_aborting_the_waiter_leaves_no_deadlock(
    table: LockTable,
    txn: TxnId,
    res: ResourceId,
    mode: LockMode,
    after: LockTable,
)
    requires
        graph::acyclic(table.wait_edges()),
        after.points == ledger::without_txn(table.waiting_for(txn, res, mode).points, txn),
        after.waits == table.waiting_for(txn, res, mode).waits.remove(txn),
    ensures
        graph::acyclic(after.wait_edges()),
{
    assert(after.points.submap_of(table.points));
    assert(after.waits.submap_of(table.waits));
    law_releasing_makes_no_deadlock(table, after);
}

/// Law: aborting the victim of a deadlock, which releases everything it holds
/// and ends its wait, breaks the deadlock, and leaves no deadlock with the victim
/// in it.
pub proof fn law_aborting_the_victim_breaks_the_deadlock(
    table: LockTable,
    d: Deadlock,
    after: LockTable,
    c: Seq<TxnId>,
)
    requires
        manager::is_deadlock(table, d),
        after.points == ledger::without_txn(table.points, d.victim),
        after.waits == table.waits.remove(d.victim),
    ensures
        !graph::is_cycle(after.wait_edges(), d.cycle@),
        graph::is_cycle(after.wait_edges(), c) ==> !c.contains(d.victim),
{
    assert forall|b: TxnId| !after.wait_edges().contains((d.victim, b)) by {}
    if graph::is_cycle(after.wait_edges(), d.cycle@) {
        graph::law_no_cycle_without_waiting(after.wait_edges(), d.victim, d.cycle@);
    }
    if graph::is_cycle(after.wait_edges(), c) {
        graph::law_no_cycle_without_waiting(after.wait_edges(), d.victim, c);
    }
}

} // verus!
