//! Paths and cycles of a wait-for relation.
//!
//! The relation is a set of edges `(a, b)`, read "`a` waits for `b`".
use crate::id::TxnId;
use vstd::prelude::*;

verus! {

/// Whether the transaction at position `i` of `p` waits for the next one in `p`.
pub open spec fn step(edges: Set<(TxnId, TxnId)>, p: Seq<TxnId>, i: int) -> bool {
    edges.contains((p[i], p[i + 1]))
}

/// Whether each transaction of `p` waits for the next one.
pub open spec fn is_path(edges: Set<(TxnId, TxnId)>, p: Seq<TxnId>) -> bool {
    &&& p.len() > 0
    &&& forall|i: int| 0 <= i < p.len() - 1 ==> #[trigger] step(edges, p, i)
}

/// Whether some path leads from `a` to `b`. Every transaction reaches itself.
pub open spec fn reaches(edges: Set<(TxnId, TxnId)>, a: TxnId, b: TxnId) -> bool {
    exists|p: Seq<TxnId>| #[trigger] is_path(edges, p) && p.first() == a && p.last() == b
}

/// Whether each transaction of `c` waits for the next one and the last waits
/// for the first.
pub open spec fn is_cycle(edges: Set<(TxnId, TxnId)>, c: Seq<TxnId>) -> bool {
    is_path(edges, c) && edges.contains((c.last(), c.first()))
}

/// Whether a walk from `start` that visits no transaction twice leads to the
/// first transaction of `c` and from there on along `c`.
pub open spec fn leads_into(edges: Set<(TxnId, TxnId)>, start: TxnId, c: Seq<TxnId>) -> bool {
    exists|lead: Seq<TxnId>|
        {
            &&& #[trigger] is_path(edges, lead + c)
            &&& (lead + c).no_duplicates()
            &&& (lead + c).first() == start
        }
}

/// Whether the relation has no cycle.
pub open spec fn acyclic(edges: Set<(TxnId, TxnId)>) -> bool {
    forall|c: Seq<TxnId>| !#[trigger] is_cycle(edges, c)
}

/// A path that starts in a set closed under waiting stays in the set.
pub proof fn lemma_path_stays(edges: Set<(TxnId, TxnId)>, closed: Set<TxnId>, p: Seq<TxnId>, n: int)
    requires
        is_path(edges, p),
        closed.contains(p.first()),
        forall|a: TxnId, b: TxnId|
            closed.contains(a) && #[trigger] edges.contains((a, b)) ==> closed.contains(b),
        0 <= n < p.len(),
    ensures
        closed.contains(p[n]),
    decreases n,
{
    if n > 0 {
        lemma_path_stays(edges, closed, p, n - 1);
        assert(step(edges, p, n - 1));
    }
}

/// Along a path through a set in which waiting lowers a rank, the rank falls by
/// at least one with each step.
proof fn lemma_rank_falls(
    edges: Set<(TxnId, TxnId)>,
    closed: Set<TxnId>,
    rank: Map<TxnId, int>,
    p: Seq<TxnId>,
    n: int,
)
    requires
        is_path(edges, p),
        closed.contains(p.first()),
        forall|a: TxnId, b: TxnId|
            closed.contains(a) && #[trigger] edges.contains((a, b)) ==> closed.contains(b)
                && rank[b] < rank[a],
        0 <= n < p.len(),
    ensures
        closed.contains(p[n]),
        rank[p[n]] + n <= rank[p.first()],
    decreases n,
{
    if n > 0 {
        lemma_rank_falls(edges, closed, rank, p, n - 1);
        assert(step(edges, p, n - 1));
    }
}

/// No cycle is reachable from a set that is closed under waiting and in which
/// waiting lowers a rank.
pub proof fn lemma_ranked_set_reaches_no_cycle(
    edges: Set<(TxnId, TxnId)>,
    closed: Set<TxnId>,
    rank: Map<TxnId, int>,
    start: TxnId,
    c: Seq<TxnId>,
)
    requires
        closed.contains(start),
        forall|a: TxnId, b: TxnId|
            closed.contains(a) && #[trigger] edges.contains((a, b)) ==> closed.contains(b)
                && rank[b] < rank[a],
        is_cycle(edges, c),
    ensures
        !reaches(edges, start, c.first()),
{
    if reaches(edges, start, c.first()) {
        let p = choose|p: Seq<TxnId>| #[trigger]
            is_path(edges, p) && p.first() == start && p.last() == c.first();
        lemma_path_stays(edges, closed, p, p.len() - 1);
        lemma_rank_falls(edges, closed, rank, c, c.len() - 1);
        assert(edges.contains((c.last(), c.first())));
    }
}

/// A part of a path is a path.
pub proof fn lemma_subpath(edges: Set<(TxnId, TxnId)>, p: Seq<TxnId>, i: int, j: int)
    requires
        is_path(edges, p),
        0 <= i < j <= p.len(),
    ensures
        is_path(edges, p.subrange(i, j)),
{
    let q = p.subrange(i, j);
    assert forall|k: int| 0 <= k < q.len() - 1 implies #[trigger] step(edges, q, k) by {
        assert(step(edges, p, k + i));
    }
}

/// The first transaction of a path reaches each of its transactions.
pub proof fn lemma_path_reaches(edges: Set<(TxnId, TxnId)>, p: Seq<TxnId>, n: int)
    requires
        is_path(edges, p),
        0 <= n < p.len(),
    ensures
        reaches(edges, p.first(), p[n]),
{
    lemma_subpath(edges, p, 0, n + 1);
    let q = p.subrange(0, n + 1);
    assert(q.first() == p.first() && q.last() == p[n]);
}

/// Law: a walk that leads into a cycle it started in starts at the cycle's first
/// transaction.
pub proof fn law_cycle_of_its_start_begins_there(
    edges: Set<(TxnId, TxnId)>,
    start: TxnId,
    c: Seq<TxnId>,
)
    requires
        c.contains(start),
        leads_into(edges, start, c),
    ensures
        c.first() == start,
{
    let lead = choose|lead: Seq<TxnId>|
        {
            &&& #[trigger] is_path(edges, lead + c)
            &&& (lead + c).no_duplicates()
            &&& (lead + c).first() == start
        };
    let n = choose|n: int| 0 <= n < c.len() && c[n] == start;
    assert((lead + c)[lead.len() + n] == (lead + c)[0]);
}

/// A cycle read from any of its positions on is a cycle.
pub proof fn lemma_cycle_rotates(edges: Set<(TxnId, TxnId)>, c: Seq<TxnId>, n: int)
    requires
        is_cycle(edges, c),
        0 <= n < c.len(),
    ensures
        is_cycle(edges, c.skip(n) + c.take(n)),
        (c.skip(n) + c.take(n)).first() == c[n],
        forall|t: TxnId| (c.skip(n) + c.take(n)).contains(t) <==> c.contains(t),
{
    let d = c.skip(n) + c.take(n);
    assert forall|k: int| 0 <= k < d.len() - 1 implies #[trigger] step(edges, d, k) by {
        if k < c.len() - n - 1 {
            assert(step(edges, c, k + n));
        } else if k == c.len() - n - 1 {
            assert(d[k] == c.last() && d[k + 1] == c.first());
        } else {
            assert(step(edges, c, k + n - c.len()));
        }
    }
    if n > 0 {
        assert(step(edges, c, n - 1));
        assert(d.last() == c[n - 1] && d.first() == c[n]);
    }
    assert forall|t: TxnId| d.contains(t) <==> c.contains(t) by {
        if c.contains(t) {
            let i = choose|i: int| 0 <= i < c.len() && c[i] == t;
            if i >= n {
                assert(d[i - n] == t);
            } else {
                assert(d[i + c.len() - n] == t);
            }
        }
        if d.contains(t) {
            let i = choose|i: int| 0 <= i < d.len() && d[i] == t;
            if i < c.len() - n {
                assert(c[i + n] == t);
            } else {
                assert(c[i + n - c.len()] == t);
            }
        }
    }
}

/// Each transaction of a cycle waits for some transaction of the cycle.
pub proof fn lemma_cycle_member_waits(edges: Set<(TxnId, TxnId)>, c: Seq<TxnId>, n: int) -> (h:
    TxnId)
    requires
        is_cycle(edges, c),
        0 <= n < c.len(),
    ensures
        edges.contains((c[n], h)),
        c.contains(h),
{
    if n + 1 < c.len() {
        assert(step(edges, c, n));
        c[n + 1]
    } else {
        c.first()
    }
}

/// A path all of whose steps are in another relation is a path of that relation.
pub proof fn lemma_path_of_more_edges(
    edges: Set<(TxnId, TxnId)>,
    more: Set<(TxnId, TxnId)>,
    p: Seq<TxnId>,
)
    requires
        is_path(edges, p),
        forall|i: int| 0 <= i < p.len() - 1 && step(edges, p, i) ==> #[trigger] step(more, p, i),
    ensures
        is_path(more, p),
{
    assert forall|i: int| 0 <= i < p.len() - 1 implies #[trigger] step(more, p, i) by {
        assert(step(edges, p, i));
    }
}

/// Law: a cycle is a ring in which each transaction waits for the next, and the
/// last for the first.
pub proof fn law_cycle_is_a_ring(edges: Set<(TxnId, TxnId)>, c: Seq<TxnId>)
    ensures
        is_cycle(edges, c) <==> c.len() > 0 && forall|i: int, j: int|
            0 <= i < c.len() && 0 <= j < c.len() && j == (if i + 1 == c.len() {
                0
            } else {
                i + 1
            }) ==> edges.contains((#[trigger] c[i], #[trigger] c[j])),
{
    if is_cycle(edges, c) {
        assert forall|i: int, j: int|
            0 <= i < c.len() && 0 <= j < c.len() && j == (if i + 1 == c.len() {
                0
            } else {
                i + 1
            }) implies edges.contains((#[trigger] c[i], #[trigger] c[j])) by {
            if i + 1 < c.len() {
                assert(step(edges, c, i));
            }
        }
    } else if c.len() > 0 {
        if forall|i: int| 0 <= i < c.len() - 1 ==> #[trigger] step(edges, c, i) {
            assert(!edges.contains((c[c.len() - 1], c[0])));
        } else {
            let i = choose|i: int| 0 <= i < c.len() - 1 && !#[trigger] step(edges, c, i);
            assert(!edges.contains((c[i], c[i + 1])));
        }
    }
}

/// Law: an acyclic relation has no ring of waits, of whatever length: in every
/// list of transactions there is one that does not wait for the next. In
/// particular no two transactions wait for each other.
pub proof fn law_acyclic_has_no_ring(
    edges: Set<(TxnId, TxnId)>,
    c: Seq<TxnId>,
    a: TxnId,
    b: TxnId,
)
    requires
        acyclic(edges),
        c.len() > 0,
    ensures
        exists|i: int, j: int|
            0 <= i < c.len() && 0 <= j < c.len() && j == (if i + 1 == c.len() {
                0
            } else {
                i + 1
            }) && !edges.contains((#[trigger] c[i], #[trigger] c[j])),
        !(edges.contains((a, b)) && edges.contains((b, a))),
{
    law_cycle_is_a_ring(edges, c);
    assert(!is_cycle(edges, c));
    let two = seq![a, b];
    law_cycle_is_a_ring(edges, two);
    assert(!is_cycle(edges, two));
}

/// Law: a relation that is not acyclic has a ring of waits.
pub proof fn law_not_acyclic_has_a_ring(edges: Set<(TxnId, TxnId)>) -> (c: Seq<TxnId>)
    requires
        !acyclic(edges),
    ensures
        c.len() > 0,
        forall|i: int, j: int|
            0 <= i < c.len() && 0 <= j < c.len() && j == (if i + 1 == c.len() {
                0
            } else {
                i + 1
            }) ==> edges.contains((#[trigger] c[i], #[trigger] c[j])),
{
    let c = choose|c: Seq<TxnId>| #[trigger] is_cycle(edges, c);
    law_cycle_is_a_ring(edges, c);
    c
}

/// Law: every transaction reaches itself and whomever one that it reaches waits
/// for, and no one else: a set that contains a transaction, and with each member
/// all that the member waits for, contains everything reached from it.
pub proof fn law_reaches_is_the_closure_of_waiting(
    edges: Set<(TxnId, TxnId)>,
    a: TxnId,
    b: TxnId,
    c: TxnId,
    closed: Set<TxnId>,
)
    ensures
        reaches(edges, a, a),
        reaches(edges, a, b) && edges.contains((b, c)) ==> reaches(edges, a, c),
        reaches(edges, a, b) && closed.contains(a) && (forall|x: TxnId, y: TxnId|
            closed.contains(x) && #[trigger] edges.contains((x, y)) ==> closed.contains(y))
            ==> closed.contains(b),
{
    let one = seq![a];
    assert(is_path(edges, one) && one.first() == a && one.last() == a);
    if reaches(edges, a, b) {
        let p = choose|p: Seq<TxnId>| #[trigger]
            is_path(edges, p) && p.first() == a && p.last() == b;
        if edges.contains((b, c)) {
            let q = p.push(c);
            assert forall|i: int| 0 <= i < q.len() - 1 implies #[trigger] step(edges, q, i) by {
                if i < p.len() - 1 {
                    assert(step(edges, p, i));
                }
            }
            assert(is_path(edges, q) && q.first() == a && q.last() == c);
        }
        if closed.contains(a) && (forall|x: TxnId, y: TxnId|
            closed.contains(x) && #[trigger] edges.contains((x, y)) ==> closed.contains(y)) {
            lemma_path_stays(edges, closed, p, p.len() - 1);
        }
    }
}

/// Law: where a walk leads into a list of transactions, there is a way from its
/// start up to the list that goes on along the list, each transaction on it waiting
/// for the next, and none occurring twice.
pub proof fn law_what_a_walk_leads_into(
    edges: Set<(TxnId, TxnId)>,
    start: TxnId,
    c: Seq<TxnId>,
) -> (lead: Seq<TxnId>)
    requires
        c.len() > 0,
        leads_into(edges, start, c),
    ensures
        (lead + c)[0] == start,
        forall|i: int, j: int|
            0 <= i < j < lead.len() + c.len() && j == i + 1 ==> edges.contains(
                (#[trigger] (lead + c)[i], #[trigger] (lead + c)[j]),
            ),
        forall|i: int, j: int|
            0 <= i < j < lead.len() + c.len() ==> #[trigger] (lead + c)[i]
                != #[trigger] (lead + c)[j],
        reaches(edges, start, c[0]),
{
    let lead = choose|lead: Seq<TxnId>|
        {
            &&& #[trigger] is_path(edges, lead + c)
            &&& (lead + c).no_duplicates()
            &&& (lead + c).first() == start
        };
    lemma_path_reaches(edges, lead + c, lead.len() as int);
    assert((lead + c)[lead.len() as int] == c[0]);
    assert forall|i: int, j: int|
        0 <= i < j < lead.len() + c.len() && j == i + 1 implies edges.contains(
        (#[trigger] (lead + c)[i], #[trigger] (lead + c)[j]),
    ) by {
        assert(step(edges, lead + c, i));
    }
    lead
}

/// Law: taking edges away never makes a cycle.
pub proof fn law_fewer_edges_stay_acyclic(edges: Set<(TxnId, TxnId)>, fewer: Set<(TxnId, TxnId)>)
    requires
        fewer.subset_of(edges),
        acyclic(edges),
    ensures
        acyclic(fewer),
{
    assert forall|c: Seq<TxnId>| !#[trigger] is_cycle(fewer, c) by {
        if is_cycle(fewer, c) {
            lemma_path_of_more_edges(fewer, edges, c);
            assert(is_cycle(edges, c));
        }
    }
}

/// Law: if the relation had no cycle before one transaction's waits changed,
/// then every cycle there is afterwards contains that transaction, and is
/// reachable from it.
pub proof fn law_new_cycle_contains_the_waiter(
    before: Set<(TxnId, TxnId)>,
    after: Set<(TxnId, TxnId)>,
    waiter: TxnId,
    c: Seq<TxnId>,
)
    requires
        acyclic(before),
        forall|a: TxnId, b: TxnId|
            a != waiter && #[trigger] after.contains((a, b)) ==> before.contains((a, b)),
        is_cycle(after, c),
    ensures
        c.contains(waiter),
        reaches(after, waiter, c.first()),
{
    if !c.contains(waiter) {
        assert forall|i: int|
            0 <= i < c.len() - 1 && step(after, c, i) implies #[trigger] step(before, c, i) by {
            assert(c.contains(c[i]));
        }
        lemma_path_of_more_edges(after, before, c);
        assert(c.contains(c.last()));
        assert(is_cycle(before, c));
    }
    let n = choose|n: int| 0 <= n < c.len() && c[n] == waiter;
    lemma_cycle_rotates(after, c, n);
    let d = c.skip(n) + c.take(n);
    if n == 0 {
        lemma_path_reaches(after, c, 0);
    } else {
        assert(d[c.len() - n] == c.first());
        lemma_path_reaches(after, d, c.len() - n);
    }
}

/// Law: a transaction that waits for no one is in no cycle.
pub proof fn law_no_cycle_without_waiting(
    edges: Set<(TxnId, TxnId)>,
    txn: TxnId,
    c: Seq<TxnId>,
)
    requires
        forall|b: TxnId| !edges.contains((txn, b)),
        is_cycle(edges, c),
    ensures
        !c.contains(txn),
{
    if c.contains(txn) {
        let n = choose|n: int| 0 <= n < c.len() && c[n] == txn;
        let h = lemma_cycle_member_waits(edges, c, n);
    }
}

} // verus!
