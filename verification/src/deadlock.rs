//! Wait-for graph, deadlock detection, and victim selection.
//!
//! When a transaction cannot get a lock because another transaction holds it,
//! the first *waits for* the second. A cycle of the wait-for relation is a
//! deadlock: a set of transactions each waiting for the next, none able to
//! proceed. The only way out is to abort one of them, the *victim*.
//!
//! [`WaitForGraph`] holds the edges and finds cycles;
//! [`WaitForGraph::pick_victim`] chooses which member of a cycle to abort.
use crate::graph;
use crate::id::{self, TxnId};
use std::collections::HashMap;
use vstd::prelude::*;

verus! {

/// How to choose which transaction in a deadlock cycle to abort.
///
/// Transaction ids are taken as a proxy for age: a larger id is a transaction
/// that started later.
#[derive(Debug, Clone, Copy, PartialEq, Eq, Hash, Structural)]
pub enum VictimPolicy {
    /// Abort the youngest transaction in the cycle (the largest [`TxnId`]).
    Youngest,
    /// Abort the oldest transaction in the cycle (the smallest [`TxnId`]).
    Oldest,
}

impl Default for VictimPolicy {
    /// The default is [`VictimPolicy::Youngest`].
    fn default() -> (policy: Self)
        ensures
            policy == VictimPolicy::Youngest,
    {
        VictimPolicy::Youngest
    }
}

/// A detected deadlock: the cycle of transactions and the one chosen to abort.
#[derive(Debug, Clone, PartialEq, Eq)]
pub struct Deadlock {
    /// The transaction selected for abort to break the cycle.
    pub victim: TxnId,
    /// The transactions forming the cycle, in wait-for order. Each waits for the
    /// next, and the last waits for the first.
    pub cycle: Vec<TxnId>,
}

impl Deadlock {
    /// Names the victim of a cycle.
    ///
    /// Returns `None` only for an empty cycle.
    #[must_use]
    pub fn of(cycle: Vec<TxnId>, policy: VictimPolicy) -> (r: Option<Deadlock>)
        ensures
            r is None <==> cycle@.len() == 0,
            r matches Some(d) ==> d.cycle@ == cycle@ && is_victim(cycle@, policy, d.victim),
    {
        match WaitForGraph::pick_victim(cycle.as_slice(), policy) {
            Some(victim) => Some(Deadlock { victim, cycle }),
            None => None,
        }
    }
}

/// Whether `victim` is the member of `cycle` that `policy` aborts.
pub open spec fn is_victim(cycle: Seq<TxnId>, policy: VictimPolicy, victim: TxnId) -> bool {
    &&& cycle.contains(victim)
    &&& forall|i: int|
        0 <= i < cycle.len() ==> match policy {
            VictimPolicy::Youngest => (#[trigger] cycle[i]).id() <= victim.id(),
            VictimPolicy::Oldest => victim.id() <= cycle[i].id(),
        }
}

/// Whether `d` is a genuine deadlock of a wait-for relation: its cycle is a cycle
/// of the relation that names no transaction twice, and its victim is the member
/// that `policy` aborts.
pub open spec fn is_deadlock(
    edges: Set<(TxnId, TxnId)>,
    policy: VictimPolicy,
    d: Deadlock,
) -> bool {
    &&& graph::is_cycle(edges, d.cycle@)
    &&& d.cycle@.no_duplicates()
    &&& is_victim(d.cycle@, policy, d.victim)
}

/// A directed graph of which transactions are waiting for which.
///
/// An edge `a -> b` means transaction `a` is blocked waiting for a lock held by
/// transaction `b`. The view is the set of edges.
#[derive(Debug, Clone)]
pub struct WaitForGraph {
    /// The transactions each waiter waits for, keyed by the waiter's number.
    edges: HashMap<u64, Vec<TxnId>>,
}

impl View for WaitForGraph {
    type V = Set<(TxnId, TxnId)>;

    closed spec fn view(&self) -> Set<(TxnId, TxnId)> {
        Set::new(|e: (TxnId, TxnId)| self.holders(e.0).contains(e.1))
    }
}

impl Default for WaitForGraph {
    /// The default is the empty graph.
    fn default() -> (g: Self)
        ensures
            g.wf(),
            g@ == Set::<(TxnId, TxnId)>::empty(),
    {
        WaitForGraph::new()
    }
}

impl WaitForGraph {
    /// The transactions listed for a waiter.
    spec fn holders(&self, waiter: TxnId) -> Seq<TxnId> {
        if self.edges@.contains_key(waiter.id()) {
            self.edges@[waiter.id()]@
        } else {
            Seq::empty()
        }
    }

    /// Every listed waiter waits for someone, and no one waits for itself.
    pub closed spec fn wf(&self) -> bool {
        &&& forall|k: u64| #[trigger] self.edges@.contains_key(k) ==> self.edges@[k]@.len() > 0
        &&& forall|k: u64, i: int|
            self.edges@.contains_key(k) && 0 <= i < self.edges@[k]@.len() ==> (
            #[trigger] self.edges@[k]@[i]).id() != k
    }

    /// The transactions that wait for someone.
    pub open spec fn waiters(&self) -> Set<TxnId> {
        Set::new(|w: TxnId| exists|h: TxnId| self@.contains((w, h)))
    }

    /// Creates an empty graph.
    #[must_use]
    pub fn new() -> (g: Self)
        ensures
            g.wf(),
            g@ == Set::<(TxnId, TxnId)>::empty(),
    {
        let g = WaitForGraph { edges: HashMap::new() };
        assert(g@ =~= Set::<(TxnId, TxnId)>::empty());
        g
    }

    /// Records that `waiter` is blocked waiting for a lock held by `holder`.
    ///
    /// A self-edge (`waiter == holder`) is ignored: a transaction cannot
    /// deadlock against itself.
    pub fn add_wait(&mut self, waiter: TxnId, holder: TxnId)
        requires
            old(self).wf(),
        ensures
            final(self).wf(),
            waiter == holder ==> final(self)@ == old(self)@,
            waiter != holder ==> final(self)@ == old(self)@.insert((waiter, holder)),
    {
        if waiter == holder {
            return;
        }
        let ghost before = *self;
        let mut list = match self.edges.remove(&waiter.get()) {
            Some(list) => list,
            None => Vec::new(),
        };
        let ghost listed = list@;
        list.push(holder);
        self.edges.insert(waiter.get(), list);
        proof {
            assert(listed == before.holders(waiter));
            assert(self.holders(waiter) == listed.push(holder));
            assert forall|e: (TxnId, TxnId)|
                self@.contains(e) <==> before@.insert((waiter, holder)).contains(e) by {
                crate::ledger::lemma_contains_push(listed, holder, e.1);
                if e.0 != waiter {
                    assert(self.holders(e.0) == before.holders(e.0));
                }
            }
            assert(self@ =~= before@.insert((waiter, holder)));
        }
    }

    /// Records that `waiter` is blocked by every transaction in `holders`.
    pub fn add_waits(&mut self, waiter: TxnId, holders: &[TxnId])
        requires
            old(self).wf(),
        ensures
            final(self).wf(),
            forall|a: TxnId, b: TxnId| #[trigger]
                final(self)@.contains((a, b)) <==> old(self)@.contains((a, b)) || (a == waiter && b
                    != waiter && holders@.contains(b)),
    {
        let mut i: usize = 0;
        while i < holders.len()
            invariant
                self.wf(),
                0 <= i <= holders@.len(),
                forall|a: TxnId, b: TxnId| #[trigger]
                    self@.contains((a, b)) <==> old(self)@.contains((a, b)) || (a == waiter && b
                        != waiter && holders@.take(i as int).contains(b)),
            decreases holders@.len() - i,
        {
            let ghost before = self@;
            let holder = holders[i];
            self.add_wait(waiter, holder);
            proof {
                let done = holders@.take(i as int);
                assert(holders@.take(i + 1) =~= done.push(holder));
                assert forall|a: TxnId, b: TxnId| #[trigger]
                    self@.contains((a, b)) <==> old(self)@.contains((a, b)) || (a == waiter && b
                        != waiter && holders@.take(i + 1).contains(b)) by {
                    crate::ledger::lemma_contains_push(done, holder, b);
                    assert(before.contains((a, b)) <==> old(self)@.contains((a, b)) || (a == waiter
                        && b != waiter && done.contains(b)));
                }
            }
            i += 1;
        }
        assert(holders@.take(i as int) =~= holders@);
    }

    /// Removes every edge originating at `waiter` (it stopped waiting).
    pub fn clear_waiter(&mut self, waiter: TxnId)
        requires
            old(self).wf(),
        ensures
            final(self).wf(),
            final(self)@ == old(self)@.filter(|e: (TxnId, TxnId)| e.0 != waiter),
    {
        let ghost before = *self;
        self.edges.remove(&waiter.get());
        proof {
            assert forall|e: (TxnId, TxnId)| #[trigger] self@.contains(e) <==> before@.contains(e)
                && e.0 != waiter by {
                if e.0 != waiter {
                    assert(self.holders(e.0) == before.holders(e.0));
                }
            }
            assert(self@ =~= before@.filter(|e: (TxnId, TxnId)| e.0 != waiter));
        }
    }

    /// Removes `txn` from the graph entirely: its own waits and every edge
    /// pointing at it. A transaction that waited for `txn` alone no longer waits.
    pub fn remove_txn(&mut self, txn: TxnId)
        requires
            old(self).wf(),
        ensures
            final(self).wf(),
            final(self)@ == old(self)@.filter(|e: (TxnId, TxnId)| e.0 != txn && e.1 != txn),
    {
        self.clear_waiter(txn);
        let ghost cleared = *self;
        let waiters = self.waiting();
        let mut i: usize = 0;
        while i < waiters.len()
            invariant
                self.wf(),
                0 <= i <= waiters@.len(),
                waiters@.no_duplicates(),
                forall|w: TxnId, h: TxnId| #[trigger]
                    self.holders(w).contains(h) <==> cleared.holders(w).contains(h) && (h != txn
                        || !waiters@.take(i as int).contains(w)),
            decreases waiters@.len() - i,
        {
            let waiter = waiters[i];
            let ghost before = *self;
            let list = match self.edges.remove(&waiter.get()) {
                Some(list) => list,
                None => Vec::new(),
            };
            let kept = without(&list, txn);
            let ghost left = kept@;
            if kept.len() > 0 {
                self.edges.insert(waiter.get(), kept);
            }
            proof {
                assert(list@ == before.holders(waiter));
                assert(self.holders(waiter) == left);
                assert forall|k: u64, j: int|
                    self.edges@.contains_key(k) && 0 <= j < self.edges@[k]@.len() implies (
                #[trigger] self.edges@[k]@[j]).id() != k by {
                    if k == waiter.id() {
                        assert(left.contains(left[j]));
                        let m = choose|m: int| 0 <= m < list@.len() && list@[m] == left[j];
                        assert(before.edges@[k]@[m].id() != k);
                    }
                }
                assert(waiters@.take(i + 1) =~= waiters@.take(i as int).push(waiter));
                assert forall|w: TxnId, h: TxnId| #[trigger]
                    self.holders(w).contains(h) <==> cleared.holders(w).contains(h) && (h != txn
                        || !waiters@.take(i + 1).contains(w)) by {
                    crate::ledger::lemma_contains_push(waiters@.take(i as int), waiter, w);
                    assert(before.holders(w).contains(h) <==> cleared.holders(w).contains(h) && (h
                        != txn || !waiters@.take(i as int).contains(w)));
                    if w != waiter {
                        assert(self.holders(w) == before.holders(w));
                    }
                }
            }
            i += 1;
        }
        proof {
            assert(waiters@.take(i as int) =~= waiters@);
            assert forall|e: (TxnId, TxnId)| #[trigger] self@.contains(e) <==> old(self)@.contains(e)
                && e.0 != txn && e.1 != txn by {
                assert(self.holders(e.0).contains(e.1) <==> cleared.holders(e.0).contains(e.1) && (
                e.1 != txn || !waiters@.contains(e.0)));
                assert(cleared@.contains(e) <==> cleared.holders(e.0).contains(e.1));
                if cleared@.contains(e) {
                    assert(cleared.waiters().contains(e.0));
                }
            }
            assert(self@ =~= old(self)@.filter(|e: (TxnId, TxnId)| e.0 != txn && e.1 != txn));
        }
    }

    /// Returns `true` if no transaction is waiting.
    #[must_use]
    pub fn is_empty(&self) -> (r: bool)
        requires
            self.wf(),
        ensures
            r == (self@ == Set::<(TxnId, TxnId)>::empty()),
    {
        proof {
            if self.edges@.dom() =~= Set::<u64>::empty() {
                assert(self@ =~= Set::<(TxnId, TxnId)>::empty());
            } else {
                let k = choose|k: u64| self.edges@.contains_key(k);
                self.lemma_waiter_is_listed(TxnId::of(k));
            }
        }
        self.edges.is_empty()
    }

    /// Returns the number of transactions that are waiting (have outgoing edges).
    #[must_use]
    pub fn waiter_count(&self) -> (n: usize)
        requires
            self.wf(),
        ensures
            n == self.waiters().len(),
            self.waiters().finite(),
    {
        proof {
            assert forall|w: TxnId| #[trigger] self.waiters().contains(w)
                <==> self.edges@.dom().contains(w.id()) by {
                self.lemma_waiter_is_listed(w);
            }
            id::lemma_txn_count(self.edges@.dom(), self.waiters());
        }
        self.edges.len()
    }

    /// Returns `true` if `waiter` is recorded as waiting for `holder`.
    #[must_use]
    pub fn waits_for(&self, waiter: TxnId, holder: TxnId) -> (r: bool)
        ensures
            r == self@.contains((waiter, holder)),
    {
        match self.edges.get(&waiter.get()) {
            Some(list) => position(list, holder).is_some(),
            None => false,
        }
    }

    /// Chooses the transaction to abort from a deadlock cycle.
    ///
    /// Returns `None` only for an empty slice.
    #[must_use]
    pub fn pick_victim(cycle: &[TxnId], policy: VictimPolicy) -> (r: Option<TxnId>)
        ensures
            r is None <==> cycle@.len() == 0,
            r matches Some(victim) ==> is_victim(cycle@, policy, victim),
    {
        if cycle.len() == 0 {
            return None;
        }
        let mut victim = cycle[0];
        let mut i: usize = 1;
        assert(cycle@.take(1)[0] == victim);
        while i < cycle.len()
            invariant
                1 <= i <= cycle@.len(),
                is_victim(cycle@.take(i as int), policy, victim),
            decreases cycle@.len() - i,
        {
            let candidate = cycle[i];
            let ghost seen = cycle@.take(i as int);
            let ghost before = victim;
            let better = match policy {
                VictimPolicy::Youngest => victim.get() < candidate.get(),
                VictimPolicy::Oldest => candidate.get() < victim.get(),
            };
            if better {
                victim = candidate;
            }
            proof {
                assert(cycle@.take(i + 1) =~= seen.push(candidate));
                crate::ledger::lemma_contains_push(seen, candidate, victim);
                assert forall|j: int| 0 <= j < seen.push(candidate).len() implies match policy {
                    VictimPolicy::Youngest => (#[trigger] seen.push(candidate)[j]).id()
                        <= victim.id(),
                    VictimPolicy::Oldest => victim.id() <= seen.push(candidate)[j].id(),
                } by {
                    if j < seen.len() {
                        assert(seen.push(candidate)[j] == seen[j]);
                    }
                }
            }
            i += 1;
        }
        assert(cycle@.take(i as int) =~= cycle@);
        Some(victim)
    }

    /// Law: a transaction is a waiter exactly when there is someone it waits for.
    pub proof fn law_waiters_have_outgoing_edges(&self, w: TxnId)
        ensures
            self.waiters().contains(w) <==> exists|h: TxnId| #[trigger] self@.contains((w, h)),
    {
    }

    /// Law: a graph never holds a self-edge, so every cycle in it has at least
    /// two transactions.
    pub proof fn law_no_one_waits_for_itself(&self, txn: TxnId, c: Seq<TxnId>)
        requires
            self.wf(),
        ensures
            !self@.contains((txn, txn)),
            graph::is_cycle(self@, c) ==> c.len() >= 2,
    {
        assert forall|t: TxnId| !#[trigger] self@.contains((t, t)) by {
            if self@.contains((t, t)) {
                let i = choose|i: int| 0 <= i < self.holders(t).len() && self.holders(t)[i] == t;
                assert(self.edges@[t.id()]@[i].id() != t.id());
            }
        }
        if graph::is_cycle(self@, c) && c.len() == 1 {
            assert(self@.contains((c[0], c[0])));
        }
    }

    /// Returns the transactions listed for a waiter.
    fn neighbors(&self, waiter: TxnId) -> (list: &[TxnId])
        ensures
            list@ == self.holders(waiter),
    {
        match self.edges.get(&waiter.get()) {
            Some(list) => list.as_slice(),
            None => &[],
        }
    }

    /// Returns a cycle reachable from `start` if one exists, or `None`.
    ///
    /// Used for detection at the moment a new wait is added: the only cycle that
    /// can have just formed is one reachable from the transaction that added the
    /// edge. The cycle is listed from where the search from `start` came upon it,
    /// so that a cycle that contains `start` begins with it. Which cycle is
    /// returned is unspecified when there are several.
    #[must_use]
    pub fn cycle_from(&self, start: TxnId) -> (r: Option<Vec<TxnId>>)
        requires
            self.wf(),
        ensures
            r matches Some(cycle) ==> graph::is_cycle(self@, cycle@) && cycle@.no_duplicates()
                && graph::leads_into(self@, start, cycle@) && graph::reaches(
                self@,
                start,
                cycle@.first(),
            ),
            r is None ==> forall|c: Seq<TxnId>| #[trigger]
                graph::is_cycle(self@, c) ==> !graph::reaches(self@, start, c.first()),
    {
        // Depth-first search. A transaction without a state is unvisited; one in
        // state `1` is on the current path; one in state `2` is fully explored.
        // A wait for a transaction still on the path closes a cycle. The search
        // is iterative so that a long wait chain cannot overflow the stack.
        let mut state: HashMap<u64, u8> = HashMap::new();
        let mut path: Vec<TxnId> = Vec::new();
        let mut next: Vec<usize> = Vec::new();
        state.insert(start.get(), 1);
        path.push(start);
        next.push(0);
        let ghost mut rank: Map<TxnId, int> = Map::empty();
        let ghost mut explored: int = 0;
        proof {
            assert(Self::done(state@) =~= Set::<TxnId>::empty());
            assert(path@[0] == start);
        }
        while path.len() > 0
            invariant
                self.wf(),
                self.search_inv(start, state@, path@, next@, rank, explored),
            decreases
                Set::<u64>::full().difference(state@.dom()).len(),
                path@.len(),
                self.holders(path@.last()).len() - next@.last(),
        {
            let ghost state0 = state@;
            let ghost path0 = path@;
            let ghost next0 = next@;
            let top: usize = path.len() - 1;
            let node = path[top];
            let idx: usize = next[top];
            let neighbors = self.neighbors(node);
            if idx < neighbors.len() {
                next.set(top, idx + 1);
                let target = neighbors[idx];
                let seen: u8 = match state.get(&target.get()) {
                    Some(s) => *s,
                    None => 0,
                };
                if seen == 1 {
                    if let Some(pos) = position(&path, target) {
                        proof {
                            self.lemma_search_closes(
                                start,
                                state0,
                                path0,
                                next0,
                                rank,
                                explored,
                                pos as int,
                            );
                        }
                        return Some(path.split_off(pos));
                    }
                } else if seen == 0 {
                    proof {
                        self.lemma_search_push(start, state0, path0, next0, rank, explored);
                    }
                    state.insert(target.get(), 1);
                    path.push(target);
                    next.push(0);
                } else {
                    proof {
                        self.lemma_search_skip(start, state0, path0, next0, rank, explored);
                    }
                }
            } else {
                proof {
                    self.lemma_search_pop(start, state0, path0, next0, rank, explored);
                    rank = rank.insert(node, explored);
                    explored = explored + 1;
                }
                state.insert(node.get(), 2);
                path.pop();
                next.pop();
            }
        }
        proof {
            assert forall|c: Seq<TxnId>| #[trigger] graph::is_cycle(self@, c) implies
                !graph::reaches(self@, start, c.first()) by {
                graph::lemma_ranked_set_reaches_no_cycle(
                    self@,
                    Self::done(state@),
                    rank,
                    start,
                    c,
                );
            }
        }
        None
    }

    /// Returns a cycle in the graph if one exists, or `None`.
    ///
    /// The returned vector lists the transactions of one cycle in wait-for
    /// order. When several cycles exist, which one is returned is unspecified.
    #[must_use]
    pub fn detect_cycle(&self) -> (r: Option<Vec<TxnId>>)
        requires
            self.wf(),
        ensures
            r matches Some(cycle) ==> graph::is_cycle(self@, cycle@) && cycle@.no_duplicates(),
            r is None <==> graph::acyclic(self@),
    {
        let starts = self.waiting();
        let mut i: usize = 0;
        while i < starts.len()
            invariant
                self.wf(),
                0 <= i <= starts@.len(),
                forall|w: TxnId| #[trigger] starts@.contains(w) <==> self.waiters().contains(w),
                forall|j: int, c: Seq<TxnId>|
                    0 <= j < i && #[trigger] graph::is_cycle(self@, c) ==> !graph::reaches(
                        self@,
                        #[trigger] starts@[j],
                        c.first(),
                    ),
            decreases starts@.len() - i,
        {
            if let Some(cycle) = self.cycle_from(starts[i]) {
                return Some(cycle);
            }
            i += 1;
        }
        proof {
            assert forall|c: Seq<TxnId>| !#[trigger] graph::is_cycle(self@, c) by {
                if graph::is_cycle(self@, c) {
                    let h = graph::lemma_cycle_member_waits(self@, c, 0);
                    assert(self.waiters().contains(c.first()));
                    assert(starts@.contains(c.first()));
                    let j = choose|j: int| 0 <= j < starts@.len() && starts@[j] == c.first();
                    graph::lemma_path_reaches(self@, c, 0);
                    assert(!graph::reaches(self@, starts@[j], c.first()));
                }
            }
        }
        None
    }

    /// Returns a deadlock reachable from `start` if there is one, or `None`.
    #[must_use]
    pub fn deadlock_from(&self, start: TxnId, policy: VictimPolicy) -> (r: Option<Deadlock>)
        requires
            self.wf(),
        ensures
            r matches Some(d) ==> is_deadlock(self@, policy, d) && graph::leads_into(
                self@,
                start,
                d.cycle@,
            ) && graph::reaches(self@, start, d.cycle@.first()),
            r is None ==> forall|c: Seq<TxnId>| #[trigger]
                graph::is_cycle(self@, c) ==> !graph::reaches(self@, start, c.first()),
    {
        match self.cycle_from(start) {
            Some(cycle) => Deadlock::of(cycle, policy),
            None => None,
        }
    }

    /// Returns a deadlock in the graph if there is one, or `None`.
    #[must_use]
    pub fn find_deadlock(&self, policy: VictimPolicy) -> (r: Option<Deadlock>)
        requires
            self.wf(),
        ensures
            r matches Some(d) ==> is_deadlock(self@, policy, d),
            r is None <==> graph::acyclic(self@),
    {
        match self.detect_cycle() {
            Some(cycle) => Deadlock::of(cycle, policy),
            None => None,
        }
    }

    /// Lists the waiting transactions, each once, in no particular order.
    fn waiting(&self) -> (list: Vec<TxnId>)
        requires
            self.wf(),
        ensures
            list@.no_duplicates(),
            forall|w: TxnId| #[trigger] list@.contains(w) <==> self.waiters().contains(w),
    {
        proof {
            assert forall|w: TxnId| #[trigger] self.waiters().contains(w)
                <==> self.edges@.contains_key(w.id()) by {
                self.lemma_waiter_is_listed(w);
            }
        }
        id::txns_of(&self.edges)
    }

    /// A transaction waits exactly when the table lists it.
    proof fn lemma_waiter_is_listed(&self, w: TxnId)
        requires
            self.wf(),
        ensures
            self.waiters().contains(w) <==> self.edges@.contains_key(w.id()),
    {
        if self.edges@.contains_key(w.id()) {
            let h = self.edges@[w.id()]@[0];
            assert(self.holders(w).contains(h));
            assert(self@.contains((w, h)));
        }
    }

    /// The transactions in state `2`.
    spec fn done(state: Map<u64, u8>) -> Set<TxnId> {
        Set::new(|t: TxnId| state.contains_key(t.id()) && state[t.id()] == 2)
    }

    /// What holds of a depth-first search from `start` between two steps: `path`
    /// is the current path, the first `next[i]` waits of `path[i]` have been
    /// followed, and `rank` numbers the explored transactions in the order in
    /// which they were left.
    spec fn search_inv(
        &self,
        start: TxnId,
        state: Map<u64, u8>,
        path: Seq<TxnId>,
        next: Seq<usize>,
        rank: Map<TxnId, int>,
        explored: int,
    ) -> bool {
        &&& next.len() == path.len()
        &&& path.no_duplicates()
        &&& forall|i: int|
            0 <= i < path.len() ==> (#[trigger] next[i]) <= self.holders(path[i]).len()
        &&& forall|i: int|
            0 <= i < path.len() ==> state.contains_key((#[trigger] path[i]).id())
                && state[path[i].id()] == 1
        &&& forall|t: TxnId| #[trigger]
            state.contains_key(t.id()) ==> state[t.id()] == 2 || (state[t.id()] == 1
                && path.contains(t))
        &&& path.len() > 0 ==> path[0] == start
        &&& path.len() == 0 ==> Self::done(state).contains(start)
        &&& forall|i: int|
            0 <= i < path.len() - 1 ==> (#[trigger] next[i]) > 0 && self.holders(path[i])[next[i]
                - 1] == path[i + 1]
        &&& forall|i: int, j: int|
            0 <= i < path.len() && 0 <= j < next[i] ==> Self::done(state).contains(
                #[trigger] self.holders(path[i])[j],
            ) || (i < path.len() - 1 && j == next[i] - 1)
        &&& forall|a: TxnId, b: TxnId|
            Self::done(state).contains(a) && #[trigger] self@.contains((a, b)) ==> Self::done(
                state,
            ).contains(b) && rank[b] < rank[a]
        &&& forall|a: TxnId| #[trigger] Self::done(state).contains(a) ==> rank[a] < explored
    }

    /// One more wait of the last transaction leads to an explored one.
    proof fn lemma_search_skip(
        &self,
        start: TxnId,
        state: Map<u64, u8>,
        path: Seq<TxnId>,
        next: Seq<usize>,
        rank: Map<TxnId, int>,
        explored: int,
    )
        requires
            self.search_inv(start, state, path, next, rank, explored),
            path.len() > 0,
            next.last() < self.holders(path.last()).len(),
            next.last() < usize::MAX,
            Self::done(state).contains(self.holders(path.last())[next.last() as int]),
        ensures
            self.search_inv(
                start,
                state,
                path,
                next.update(path.len() - 1, (next.last() + 1) as usize),
                rank,
                explored,
            ),
    {
        let top = path.len() - 1;
        let next2 = next.update(top, (next.last() + 1) as usize);
        assert forall|i: int, j: int|
            0 <= i < path.len() && 0 <= j < next2[i] implies Self::done(state).contains(
            #[trigger] self.holders(path[i])[j],
        ) || (i < path.len() - 1 && j == next2[i] - 1) by {
            if i < top {
                assert(next2[i] == next[i]);
            }
        }
        assert forall|i: int| 0 <= i < path.len() - 1 implies (#[trigger] next2[i]) > 0
            && self.holders(path[i])[next2[i] - 1] == path[i + 1] by {
            assert(next2[i] == next[i]);
        }
    }

    /// One more wait of the last transaction leads to an unvisited one.
    proof fn lemma_search_push(
        &self,
        start: TxnId,
        state: Map<u64, u8>,
        path: Seq<TxnId>,
        next: Seq<usize>,
        rank: Map<TxnId, int>,
        explored: int,
    )
        requires
            self.search_inv(start, state, path, next, rank, explored),
            path.len() > 0,
            next.last() < self.holders(path.last()).len(),
            next.last() < usize::MAX,
            !state.contains_key(self.holders(path.last())[next.last() as int].id()),
        ensures
            self.search_inv(
                start,
                state.insert(self.holders(path.last())[next.last() as int].id(), 1u8),
                path.push(self.holders(path.last())[next.last() as int]),
                next.update(path.len() - 1, (next.last() + 1) as usize).push(0),
                rank,
                explored,
            ),
            Set::<u64>::full().difference(
                state.insert(self.holders(path.last())[next.last() as int].id(), 1u8).dom(),
            ).len() < Set::<u64>::full().difference(state.dom()).len(),
    {
        let top = path.len() - 1;
        let target = self.holders(path.last())[next.last() as int];
        let state2 = state.insert(target.id(), 1u8);
        let path2 = path.push(target);
        let next2 = next.update(top, (next.last() + 1) as usize).push(0);
        assert(Self::done(state2) =~= Self::done(state));
        assert forall|i: int| 0 <= i < path2.len() implies state2.contains_key(
            (#[trigger] path2[i]).id(),
        ) && state2[path2[i].id()] == 1 by {
            if i < path.len() {
                assert(path2[i] == path[i]);
            }
        }
        assert forall|i: int, j: int|
            0 <= i < path2.len() && 0 <= j < path2.len() && i != j implies path2[i] != path2[j] by {
            if i < path.len() {
                assert(state.contains_key(path[i].id()));
            }
            if j < path.len() {
                assert(state.contains_key(path[j].id()));
            }
        }
        assert forall|t: TxnId| #[trigger] state2.contains_key(t.id()) implies state2[t.id()] == 2
            || (state2[t.id()] == 1 && path2.contains(t)) by {
            if t == target {
                assert(path2[path.len() as int] == target);
            } else {
                assert(state.contains_key(t.id()));
                if path.contains(t) {
                    let i = choose|i: int| 0 <= i < path.len() && path[i] == t;
                    assert(path2[i] == t);
                }
            }
        }
        assert forall|i: int| 0 <= i < path2.len() - 1 implies (#[trigger] next2[i]) > 0
            && self.holders(path2[i])[next2[i] - 1] == path2[i + 1] by {
            assert(path2[i] == path[i]);
            if i < top {
                assert(next2[i] == next[i]);
                assert(path2[i + 1] == path[i + 1]);
            }
        }
        assert forall|i: int, j: int|
            0 <= i < path2.len() && 0 <= j < next2[i] implies Self::done(state2).contains(
            #[trigger] self.holders(path2[i])[j],
        ) || (i < path2.len() - 1 && j == next2[i] - 1) by {
            assert(i < path.len());
            assert(path2[i] == path[i]);
            if i < top {
                assert(next2[i] == next[i]);
            }
            if j < next[i] {
                assert(Self::done(state).contains(self.holders(path[i])[j]) || (i < path.len() - 1
                    && j == next[i] - 1));
            }
        }
        assert forall|i: int| 0 <= i < path2.len() implies (#[trigger] next2[i]) <= self.holders(
            path2[i],
        ).len() by {
            if i < top {
                assert(next2[i] == next[i]);
            }
        }
        let rest = Set::<u64>::full().difference(state.dom());
        assert(Set::<u64>::full().difference(state2.dom()) =~= rest.remove(target.id()));
        broadcast use vstd::set_lib::full_set_properties;
        vstd::set_lib::lemma_len_difference(Set::<u64>::full(), state.dom());
        vstd::set_lib::lemma_set_subset_finite(Set::<u64>::full(), rest);
    }

    /// Every wait of the last transaction has been followed.
    proof fn lemma_search_pop(
        &self,
        start: TxnId,
        state: Map<u64, u8>,
        path: Seq<TxnId>,
        next: Seq<usize>,
        rank: Map<TxnId, int>,
        explored: int,
    )
        requires
            self.search_inv(start, state, path, next, rank, explored),
            path.len() > 0,
            next.last() == self.holders(path.last()).len(),
        ensures
            self.search_inv(
                start,
                state.insert(path.last().id(), 2u8),
                path.drop_last(),
                next.drop_last(),
                rank.insert(path.last(), explored),
                explored + 1,
            ),
            Set::<u64>::full().difference(state.insert(path.last().id(), 2u8).dom())
                == Set::<u64>::full().difference(state.dom()),
    {
        let top = path.len() - 1;
        let node = path.last();
        let state2 = state.insert(node.id(), 2u8);
        let path2 = path.drop_last();
        let next2 = next.drop_last();
        let rank2 = rank.insert(node, explored);
        assert(state.contains_key(path[top].id()));
        assert(Self::done(state2) =~= Self::done(state).insert(node));
        assert(state2.dom() =~= state.dom());
        assert forall|t: TxnId| #[trigger] state2.contains_key(t.id()) implies state2[t.id()] == 2
            || (state2[t.id()] == 1 && path2.contains(t)) by {
            if t != node && path.contains(t) {
                let i = choose|i: int| 0 <= i < path.len() && path[i] == t;
                assert(path2[i] == t);
            }
        }
        assert forall|i: int| 0 <= i < path2.len() implies state2.contains_key(
            (#[trigger] path2[i]).id(),
        ) && state2[path2[i].id()] == 1 by {
            assert(path2[i] == path[i]);
            assert(path[i] != path[top]);
        }
        assert forall|i: int| 0 <= i < path2.len() - 1 implies (#[trigger] next2[i]) > 0
            && self.holders(path2[i])[next2[i] - 1] == path2[i + 1] by {
            assert(next2[i] == next[i]);
        }
        assert forall|i: int, j: int|
            0 <= i < path2.len() && 0 <= j < next2[i] implies Self::done(state2).contains(
            #[trigger] self.holders(path2[i])[j],
        ) || (i < path2.len() - 1 && j == next2[i] - 1) by {
            assert(next2[i] == next[i] && path2[i] == path[i]);
            assert(Self::done(state).contains(self.holders(path[i])[j]) || (i < path.len() - 1 && j
                == next[i] - 1));
            if i == top - 1 && j == next[i] - 1 {
                assert(self.holders(path[i])[next[i] - 1] == path[i + 1]);
            }
        }
        assert forall|i: int| 0 <= i < path2.len() implies (#[trigger] next2[i]) <= self.holders(
            path2[i],
        ).len() by {
            assert(next2[i] == next[i]);
        }
        assert forall|a: TxnId, b: TxnId|
            Self::done(state2).contains(a) && #[trigger] self@.contains((a, b)) implies Self::done(
            state2,
        ).contains(b) && rank2[b] < rank2[a] by {
            if a == node {
                let j = choose|j: int| 0 <= j < self.holders(node).len() && self.holders(node)[j]
                    == b;
                assert(Self::done(state).contains(self.holders(path[top])[j]));
            } else {
                assert(Self::done(state).contains(a));
                assert(Self::done(state).contains(b));
            }
        }
    }

    /// A wait of the last transaction leads back to the path.
    proof fn lemma_search_closes(
        &self,
        start: TxnId,
        state: Map<u64, u8>,
        path: Seq<TxnId>,
        next: Seq<usize>,
        rank: Map<TxnId, int>,
        explored: int,
        pos: int,
    )
        requires
            self.search_inv(start, state, path, next, rank, explored),
            0 <= pos < path.len(),
            next.last() < self.holders(path.last()).len(),
            self.holders(path.last())[next.last() as int] == path[pos],
        ensures
            graph::is_cycle(self@, path.subrange(pos, path.len() as int)),
            path.subrange(pos, path.len() as int).no_duplicates(),
            graph::leads_into(self@, start, path.subrange(pos, path.len() as int)),
            graph::reaches(self@, start, path[pos]),
    {
        assert forall|i: int| 0 <= i < path.len() - 1 implies #[trigger] graph::step(
            self@,
            path,
            i,
        ) by {
            assert(next[i] > 0);
            assert(next[i] <= self.holders(path[i]).len());
            assert(self.holders(path[i])[next[i] - 1] == path[i + 1]);
            assert(self.holders(path[i]).contains(path[i + 1]));
        }
        graph::lemma_subpath(self@, path, pos, path.len() as int);
        graph::lemma_path_reaches(self@, path, pos);
        let whole = path.take(pos) + path.subrange(pos, path.len() as int);
        assert(whole =~= path);
        assert(graph::is_path(self@, whole));
        assert(self.holders(path.last()).contains(path[pos]));
        assert(self@.contains((path.last(), path[pos])));
    }
}

/// Law: the victim is a member of the cycle, and no member is younger, or older,
/// as the policy has it; and such a member is the victim.
pub proof fn law_victim_is_the_extreme_member(
    cycle: Seq<TxnId>,
    policy: VictimPolicy,
    victim: TxnId,
)
    ensures
        is_victim(cycle, policy, victim) && policy is Youngest <==> {
            &&& policy is Youngest
            &&& exists|i: int| 0 <= i < cycle.len() && #[trigger] cycle[i] == victim
            &&& forall|i: int| 0 <= i < cycle.len() ==> (#[trigger] cycle[i]).id() <= victim.id()
        },
        is_victim(cycle, policy, victim) && policy is Oldest <==> {
            &&& policy is Oldest
            &&& exists|i: int| 0 <= i < cycle.len() && #[trigger] cycle[i] == victim
            &&& forall|i: int| 0 <= i < cycle.len() ==> (#[trigger] cycle[i]).id() >= victim.id()
        },
{
}

/// Law: a deadlock of a wait-for relation is a ring of distinct transactions in
/// which each waits for the next, with a victim among them that is the youngest,
/// or the oldest, as the policy has it.
pub proof fn law_deadlock_is_a_ring(
    edges: Set<(TxnId, TxnId)>,
    policy: VictimPolicy,
    d: Deadlock,
    i: int,
    j: int,
)
    requires
        is_deadlock(edges, policy, d),
        0 <= i < d.cycle@.len(),
        0 <= j < d.cycle@.len(),
    ensures
        edges.contains((d.cycle@[i], d.cycle@[if i + 1 == d.cycle@.len() { 0 } else { i + 1 }])),
        i != j ==> d.cycle@[i] != d.cycle@[j],
        d.cycle@.contains(d.victim),
        policy is Youngest ==> d.cycle@[i].id() <= d.victim.id(),
        policy is Oldest ==> d.victim.id() <= d.cycle@[i].id(),
{
    graph::law_cycle_is_a_ring(edges, d.cycle@);
}

/// Law: a policy names one member of a cycle, and no other.
pub proof fn law_victim_is_unique(cycle: Seq<TxnId>, policy: VictimPolicy, a: TxnId, b: TxnId)
    requires
        is_victim(cycle, policy, a),
        is_victim(cycle, policy, b),
    ensures
        a == b,
{
    let i = choose|i: int| 0 <= i < cycle.len() && cycle[i] == a;
    let j = choose|j: int| 0 <= j < cycle.len() && cycle[j] == b;
    assert(cycle[i].id() == a.id() && cycle[j].id() == b.id());
}

/// Law: taking any member of a cycle out of the graph, or just its waits, breaks
/// the cycle, and leaves no cycle that contains the transaction.
pub proof fn law_aborting_a_member_breaks_the_cycle(
    edges: Set<(TxnId, TxnId)>,
    c: Seq<TxnId>,
    member: TxnId,
)
    requires
        c.contains(member),
    ensures
        !graph::is_cycle(edges.filter(|e: (TxnId, TxnId)| e.0 != member), c),
        !graph::is_cycle(edges.filter(|e: (TxnId, TxnId)| e.0 != member && e.1 != member), c),
{
    let cleared = edges.filter(|e: (TxnId, TxnId)| e.0 != member);
    let removed = edges.filter(|e: (TxnId, TxnId)| e.0 != member && e.1 != member);
    if graph::is_cycle(cleared, c) {
        graph::law_no_cycle_without_waiting(cleared, member, c);
    }
    if graph::is_cycle(removed, c) {
        graph::law_no_cycle_without_waiting(removed, member, c);
    }
}

/// Returns the first position of `txn` in `list`.
fn position(list: &Vec<TxnId>, txn: TxnId) -> (r: Option<usize>)
    ensures
        r matches Some(i) ==> i < list@.len() && list@[i as int] == txn,
        r is None ==> !list@.contains(txn),
{
    let mut i: usize = 0;
    while i < list.len()
        invariant
            0 <= i <= list@.len(),
            forall|j: int| 0 <= j < i ==> list@[j] != txn,
        decreases list@.len() - i,
    {
        if list[i] == txn {
            return Some(i);
        }
        i += 1;
    }
    None
}

/// Returns the members of `list` other than `txn`, in order.
fn without(list: &Vec<TxnId>, txn: TxnId) -> (kept: Vec<TxnId>)
    ensures
        forall|h: TxnId| #[trigger] kept@.contains(h) <==> list@.contains(h) && h != txn,
{
    let mut kept: Vec<TxnId> = Vec::new();
    let mut i: usize = 0;
    while i < list.len()
        invariant
            0 <= i <= list@.len(),
            forall|h: TxnId| #[trigger]
                kept@.contains(h) <==> list@.take(i as int).contains(h) && h != txn,
        decreases list@.len() - i,
    {
        let ghost before = kept@;
        let ghost seen = list@.take(i as int);
        let next = list[i];
        if next != txn {
            kept.push(next);
        }
        proof {
            assert(list@.take(i + 1) =~= seen.push(next));
            assert forall|h: TxnId| #[trigger] kept@.contains(h) <==> list@.take(i + 1).contains(h)
                && h != txn by {
                crate::ledger::lemma_contains_push(before, next, h);
                crate::ledger::lemma_contains_push(seen, next, h);
            }
        }
        i += 1;
    }
    assert(list@.take(i as int) =~= list@);
    kept
}

} // verus!
