use lock_db::{Deadlock, TxnId, VictimPolicy, WaitForGraph};

fn t(id: u64) -> TxnId {
    TxnId::new(id)
}

#[test]
fn test_empty_graph_has_no_cycle() {
    let g = WaitForGraph::new();
    assert!(g.is_empty());
    assert!(g.detect_cycle().is_none());
}

#[test]
fn test_self_edge_ignored() {
    let mut g = WaitForGraph::new();
    g.add_wait(t(1), t(1));
    assert!(g.is_empty());
    assert!(g.detect_cycle().is_none());
}

#[test]
fn test_chain_has_no_cycle() {
    let mut g = WaitForGraph::new();
    g.add_wait(t(1), t(2));
    g.add_wait(t(2), t(3));
    g.add_wait(t(3), t(4));
    assert!(g.detect_cycle().is_none());
}

#[test]
fn test_two_cycle_detected() {
    let mut g = WaitForGraph::new();
    g.add_wait(t(1), t(2));
    g.add_wait(t(2), t(1));
    let cycle = g.detect_cycle().unwrap();
    assert_eq!(cycle.len(), 2);
    assert!(cycle.contains(&t(1)) && cycle.contains(&t(2)));
}

#[test]
fn test_three_cycle_detected() {
    let mut g = WaitForGraph::new();
    g.add_wait(t(1), t(2));
    g.add_wait(t(2), t(3));
    g.add_wait(t(3), t(1));
    let cycle = g.detect_cycle().unwrap();
    assert_eq!(cycle.len(), 3);
}

#[test]
fn test_cycle_from_unknown_txn_is_none() {
    let mut g = WaitForGraph::new();
    g.add_wait(t(1), t(2));
    g.add_wait(t(2), t(1));
    assert!(g.cycle_from(t(99)).is_none());
}

#[test]
fn test_cycle_from_finds_cycle_containing_start() {
    let mut g = WaitForGraph::new();
    g.add_wait(t(1), t(2));
    g.add_wait(t(2), t(3));
    g.add_wait(t(3), t(2)); // cycle 2<->3, reachable from 1
    let cycle = g.cycle_from(t(1)).unwrap();
    assert!(cycle.contains(&t(2)) && cycle.contains(&t(3)));
    assert!(!cycle.contains(&t(1))); // 1 is not in the cycle
}

#[test]
fn test_clear_waiter_breaks_cycle() {
    let mut g = WaitForGraph::new();
    g.add_wait(t(1), t(2));
    g.add_wait(t(2), t(1));
    g.clear_waiter(t(1));
    assert!(g.detect_cycle().is_none());
}

#[test]
fn test_remove_txn_drops_incoming_and_outgoing() {
    let mut g = WaitForGraph::new();
    g.add_wait(t(1), t(2));
    g.add_wait(t(2), t(1));
    g.add_wait(t(3), t(2));
    g.remove_txn(t(2));
    assert!(g.detect_cycle().is_none());
    // t(3)'s edge to the removed t(2) is gone.
    assert!(g.cycle_from(t(3)).is_none());
}

#[test]
fn test_diamond_no_cycle() {
    // 1->2, 1->3, 2->4, 3->4: a DAG, no cycle.
    let mut g = WaitForGraph::new();
    g.add_wait(t(1), t(2));
    g.add_wait(t(1), t(3));
    g.add_wait(t(2), t(4));
    g.add_wait(t(3), t(4));
    assert!(g.detect_cycle().is_none());
}

#[test]
fn test_pick_victim_policies() {
    let cycle = [t(3), t(7), t(5)];
    assert_eq!(
        WaitForGraph::pick_victim(&cycle, VictimPolicy::Youngest),
        Some(t(7))
    );
    assert_eq!(
        WaitForGraph::pick_victim(&cycle, VictimPolicy::Oldest),
        Some(t(3))
    );
    assert_eq!(WaitForGraph::pick_victim(&[], VictimPolicy::Youngest), None);
}

#[test]
fn test_detected_cycle_is_an_actual_cycle() {
    // Every consecutive pair in the returned cycle must be a real edge, and
    // the last must wait for the first.
    let mut g = WaitForGraph::new();
    g.add_wait(t(1), t(2));
    g.add_wait(t(2), t(3));
    g.add_wait(t(3), t(1));
    let cycle = g.detect_cycle().unwrap();
    for i in 0..cycle.len() {
        let from = cycle[i];
        let to = cycle[(i + 1) % cycle.len()];
        assert!(g.waits_for(from, to), "missing edge {from:?} -> {to:?}");
    }
}

#[test]
fn test_default_policy_is_youngest() {
    assert_eq!(VictimPolicy::default(), VictimPolicy::Youngest);
}

#[test]
fn add_waits_records_every_holder_but_the_waiter() {
    let mut g = WaitForGraph::default();
    g.add_waits(t(1), &[t(2), t(3), t(1)]);
    assert!(g.waits_for(t(1), t(2)) && g.waits_for(t(1), t(3)));
    assert!(!g.waits_for(t(1), t(1)) && !g.waits_for(t(2), t(1)));
    assert_eq!(g.waiter_count(), 1);
    assert!(g.detect_cycle().is_none());
    g.add_waits(t(4), &[]);
    g.add_waits(t(5), &[t(5)]);
    assert_eq!(g.waiter_count(), 1);
}

#[test]
fn repeated_waits_count_once() {
    let mut g = WaitForGraph::new();
    g.add_wait(t(1), t(2));
    g.add_wait(t(1), t(2));
    assert_eq!(g.waiter_count(), 1);
    g.clear_waiter(t(1));
    assert!(!g.waits_for(t(1), t(2)));
    assert!(g.is_empty());
}

#[test]
fn removing_the_only_holder_ends_the_wait() {
    let mut g = WaitForGraph::new();
    g.add_wait(t(1), t(2));
    g.add_wait(t(3), t(2));
    g.add_wait(t(3), t(4));
    g.remove_txn(t(2));
    assert_eq!(g.waiter_count(), 1);
    assert!(g.waits_for(t(3), t(4)));
    g.remove_txn(t(4));
    assert!(g.is_empty());
    assert_eq!(g.waiter_count(), 0);
}

#[test]
fn closing_a_chain_makes_a_cycle_reachable_from_the_new_waiter() {
    let mut g = WaitForGraph::new();
    for i in 0..1000 {
        g.add_wait(t(i), t(i + 1));
    }
    assert!(g.cycle_from(t(0)).is_none());
    g.add_wait(t(1000), t(500));
    let cycle = g.cycle_from(t(1000)).unwrap();
    assert_eq!(cycle.len(), 501);
    for i in 0..cycle.len() {
        assert!(g.waits_for(cycle[i], cycle[(i + 1) % cycle.len()]));
    }
    let victim = WaitForGraph::pick_victim(&cycle, VictimPolicy::Oldest).unwrap();
    assert_eq!(victim, t(500));
    g.remove_txn(victim);
    assert!(g.detect_cycle().is_none());
}

#[test]
fn victim_of_one_is_itself() {
    assert_eq!(
        WaitForGraph::pick_victim(&[t(9)], VictimPolicy::Oldest),
        Some(t(9))
    );
    assert_eq!(WaitForGraph::pick_victim(&[], VictimPolicy::Oldest), None);
}

#[test]
fn cycle_is_listed_from_where_it_is_entered() {
    let mut g = WaitForGraph::new();
    g.add_wait(t(9), t(8));
    g.add_wait(t(8), t(1));
    g.add_wait(t(1), t(2));
    g.add_wait(t(2), t(3));
    g.add_wait(t(3), t(1));
    assert_eq!(g.cycle_from(t(9)), Some(vec![t(1), t(2), t(3)]));
    assert_eq!(g.cycle_from(t(2)), Some(vec![t(2), t(3), t(1)]));
}

#[test]
fn deadlock_of_a_cycle_names_its_victim() {
    let cycle = vec![t(4), t(9), t(2)];
    let young = Deadlock::of(cycle.clone(), VictimPolicy::Youngest).unwrap();
    assert_eq!(young.victim, t(9));
    assert_eq!(young.cycle, cycle);
    let old = Deadlock::of(cycle, VictimPolicy::Oldest).unwrap();
    assert_eq!(old.victim, t(2));
    assert!(Deadlock::of(Vec::new(), VictimPolicy::Oldest).is_none());
}

#[test]
fn deadlock_in_a_graph_names_its_victim() {
    let mut g = WaitForGraph::new();
    g.add_wait(t(7), t(3));
    g.add_wait(t(3), t(5));
    assert!(g.find_deadlock(VictimPolicy::Youngest).is_none());
    g.add_wait(t(5), t(3));
    let d = g.deadlock_from(t(5), VictimPolicy::Oldest).unwrap();
    assert_eq!(d.cycle, vec![t(5), t(3)]);
    assert_eq!(d.victim, t(3));
    assert_eq!(g.find_deadlock(VictimPolicy::Youngest).unwrap().victim, t(5));
    assert!(g.deadlock_from(t(9), VictimPolicy::Youngest).is_none());
}
