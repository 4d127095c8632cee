//! Long runs of operations, checked step by step against a small reference
//! model, and workers whose steps are interleaved at random.
use lock_db::{Acquisition, KeyRange, LockError, LockManager, LockMode, ResourceId, TxnId};
use std::collections::BTreeMap;

const TXNS: u64 = 4;
const RESOURCES: u64 = 3;
const MODES: [LockMode; 5] = [
    LockMode::IntentionShared,
    LockMode::IntentionExclusive,
    LockMode::Shared,
    LockMode::SharedIntentionExclusive,
    LockMode::Exclusive,
];

/// A small generator of numbers that look random (xorshift64).
fn next_rand(state: &mut u64) -> u64 {
    let mut x = *state;
    x ^= x << 13;
    x ^= x >> 7;
    x ^= x << 17;
    *state = x;
    x
}

/// The mode each transaction holds on each resource.
#[derive(Default)]
struct Model {
    held: BTreeMap<(u64, u64), LockMode>,
}

impl Model {
    fn holders_of(&self, res: u64) -> Vec<(u64, LockMode)> {
        self.held
            .iter()
            .filter(|((_, r), _)| *r == res)
            .map(|((t, _), m)| (*t, *m))
            .collect()
    }

    fn acquire(&mut self, txn: u64, res: u64, mode: LockMode) -> Result<(), LockError> {
        let wanted = match self.held.get(&(txn, res)) {
            Some(current) => current.join(mode),
            None => mode,
        };
        let free = self
            .holders_of(res)
            .into_iter()
            .all(|(t, m)| t == txn || m.compatible_with(wanted));
        if free {
            self.held.insert((txn, res), wanted);
            Ok(())
        } else {
            Err(LockError::Conflict)
        }
    }

    fn release(&mut self, txn: u64, res: u64) -> Result<(), LockError> {
        match self.held.remove(&(txn, res)) {
            Some(_) => Ok(()),
            None => Err(LockError::NotHeld),
        }
    }

    fn check_coherent(&self) {
        for ((t1, r1), m1) in &self.held {
            for ((t2, r2), m2) in &self.held {
                if r1 == r2 && t1 != t2 {
                    assert!(m1.compatible_with(*m2));
                }
            }
        }
    }
}

fn run_against_model(seed: u64, shards: usize, modes: &[LockMode]) {
    let mut rng = seed;
    let mut lm = LockManager::with_shards(shards);
    let mut model = Model::default();
    for _ in 0..3000 {
        let txn = next_rand(&mut rng) % TXNS;
        let res = next_rand(&mut rng) % RESOURCES;
        let (t, r) = (TxnId::new(txn), ResourceId::new(res));
        match next_rand(&mut rng) % 16 {
            0 => {
                let expected = model.held.keys().filter(|(t, _)| *t == txn).count();
                assert_eq!(lm.release_all(t), expected);
                model.held.retain(|(t, _), _| *t != txn);
            }
            1..=6 => {
                assert_eq!(lm.release(t, r), model.release(txn, res));
            }
            _ => {
                let mode = modes[(next_rand(&mut rng) % modes.len() as u64) as usize];
                assert_eq!(lm.try_acquire(t, r, mode), model.acquire(txn, res, mode));
            }
        }
        model.check_coherent();
        for t in 0..TXNS {
            for r in 0..RESOURCES {
                let expected = model.held.get(&(t, r)).copied();
                assert_eq!(lm.mode_held(TxnId::new(t), ResourceId::new(r)), expected);
            }
        }
        for r in 0..RESOURCES {
            assert_eq!(
                lm.holder_count(ResourceId::new(r)),
                model.holders_of(r).len()
            );
        }
    }
}

#[test]
fn manager_matches_model() {
    for (seed, shards) in [(1, 1), (2, 4), (3, 16)] {
        run_against_model(seed, shards, &[LockMode::Shared, LockMode::Exclusive]);
    }
}

#[test]
fn manager_matches_model_in_every_mode() {
    for (seed, shards) in [(11, 1), (12, 4), (13, 16), (14, 64)] {
        run_against_model(seed, shards, &MODES);
    }
}

/// `release_all` drops exactly the locks the model says a transaction holds, and
/// leaves every other transaction's locks untouched.
#[test]
fn release_all_matches_model() {
    let mut rng = 0x5EED;
    for round in 0..400 {
        let victim = round % TXNS;
        let mut lm = LockManager::with_shards(8);
        let mut model = Model::default();
        for _ in 0..next_rand(&mut rng) % 200 {
            let txn = next_rand(&mut rng) % TXNS;
            let res = next_rand(&mut rng) % RESOURCES;
            let (t, r) = (TxnId::new(txn), ResourceId::new(res));
            match next_rand(&mut rng) % 4 {
                0 | 1 => {
                    if model.release(txn, res).is_ok() {
                        assert_eq!(lm.release(t, r), Ok(()));
                    }
                }
                pick => {
                    let mode = if pick == 2 {
                        LockMode::Shared
                    } else {
                        LockMode::Exclusive
                    };
                    if model.acquire(txn, res, mode).is_ok() {
                        assert_eq!(lm.try_acquire(t, r, mode), Ok(()));
                    }
                }
            }
        }
        let expected = model.held.keys().filter(|(t, _)| *t == victim).count();
        assert_eq!(lm.release_all(TxnId::new(victim)), expected);
        for r in 0..RESOURCES {
            let res = ResourceId::new(r);
            assert_eq!(lm.mode_held(TxnId::new(victim), res), None);
            for t in (0..TXNS).filter(|t| *t != victim) {
                let kept = model.held.get(&(t, r)).copied();
                assert_eq!(lm.mode_held(TxnId::new(t), res), kept);
            }
        }
    }
}

#[test]
fn ranges_match_model() {
    let mut rng = 77;
    let mut lm = LockManager::with_shards(4);
    let space = ResourceId::new(1);
    let mut held: BTreeMap<(u64, u64, u64), LockMode> = BTreeMap::new();
    for _ in 0..3000 {
        let txn = next_rand(&mut rng) % TXNS;
        let start = next_rand(&mut rng) % 8;
        let end = start + next_rand(&mut rng) % 3;
        let range = KeyRange::new(start, end).unwrap();
        let t = TxnId::new(txn);
        if next_rand(&mut rng) % 2 == 0 {
            let mode = MODES[(next_rand(&mut rng) % 5) as usize];
            let free = held.iter().all(|((h, s, e), m)| {
                *h == txn || *s > end || *e < start || m.compatible_with(mode)
            });
            let got = lm.try_acquire_range(t, space, range, mode);
            if free {
                assert_eq!(got, Ok(()));
                let key = (txn, start, end);
                let joined = match held.get(&key) {
                    Some(m) => m.join(mode),
                    None => mode,
                };
                held.insert(key, joined);
            } else {
                assert_eq!(got, Err(LockError::Conflict));
            }
        } else if next_rand(&mut rng) % 8 == 0 {
            let expected = held.keys().filter(|(h, _, _)| *h == txn).count();
            assert_eq!(lm.release_all(t), expected);
            held.retain(|(h, _, _), _| *h != txn);
        } else {
            let expected = match held.remove(&(txn, start, end)) {
                Some(_) => Ok(()),
                None => Err(LockError::NotHeld),
            };
            assert_eq!(lm.release_range(t, space, range), expected);
        }
        assert_eq!(lm.range_count(space), held.len());
    }
}

/// Workers acquire pairs of resources in random order, the recipe for deadlock,
/// one step at a time in a random interleaving. With detection and abort, every
/// worker commits its share.
#[test]
fn interleaved_deadlock_storm_makes_progress() {
    const WORKERS: usize = 8;
    const POOL: u64 = 6;
    const COMMITS: usize = 100;

    let mut rng = 0x9E37_79B9;
    let mut lm = LockManager::new(4);
    let mut next_txn = 1;
    // The transaction, the pair it wants, and how many of the pair it has.
    let mut workers: Vec<(u64, [u64; 2], usize)> = vec![(0, [0, 0], 0); WORKERS];
    let mut committed = vec![0; WORKERS];
    let mut steps = 0;
    let mut deadlocks = 0;
    while committed.iter().any(|c| *c < COMMITS) {
        steps += 1;
        assert!(steps < 1_000_000, "no progress: {committed:?}");
        let w = (next_rand(&mut rng) % WORKERS as u64) as usize;
        if committed[w] == COMMITS {
            continue;
        }
        if workers[w].0 == 0 {
            let a = next_rand(&mut rng) % POOL;
            let mut b = next_rand(&mut rng) % POOL;
            if b == a {
                b = (a + 1) % POOL;
            }
            workers[w] = (next_txn, [a, b], 0);
            next_txn += 1;
        }
        let (txn, pair, has) = workers[w];
        let t = TxnId::new(txn);
        match lm.request(t, ResourceId::new(pair[has]), LockMode::Exclusive) {
            Acquisition::Granted => {
                assert_eq!(lm.holder_count(ResourceId::new(pair[has])), 1);
                workers[w].2 += 1;
                if workers[w].2 == 2 {
                    assert_eq!(lm.release_all(t), 2);
                    committed[w] += 1;
                    workers[w].0 = 0;
                }
            }
            Acquisition::Waiting => assert!(lm.find_deadlock().is_none()),
            Acquisition::Deadlock(d) => {
                deadlocks += 1;
                assert!(d.cycle.contains(&d.victim));
                assert!(d.cycle.iter().all(|m| *m <= d.victim));
                // The victim's worker starts over with a new transaction.
                lm.release_all(d.victim);
                for worker in workers.iter_mut() {
                    if worker.0 == d.victim.get() {
                        worker.0 = 0;
                    }
                }
                assert!(lm.find_deadlock().is_none());
            }
        }
    }
    assert!(deadlocks > 0);
    assert_eq!(lm.waiting_count(), 0);
    for r in 0..POOL {
        assert_eq!(lm.holder_count(ResourceId::new(r)), 0);
    }
    assert!(lm.find_deadlock().is_none());
}
