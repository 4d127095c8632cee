# lock-db

A lock manager for transactional databases, written and proved in Verus: row
and range locks over several granularities, the five standard lock modes, and
a wait-for graph that finds deadlocks and names a victim.

- `src/` is the library. Every operation states what it returns and what it
  changes as a relation between the sets of held locks before and after it.
  `src/laws.rs` has what the operations promise together: no two incompatible
  locks are ever held, a released lock is gone and every other one stays, a range
  lock keeps phantoms out, no deadlock is missed and none is made up.
- `tests/` runs the library, on chosen cases, in step with a small reference
  model, and under every interleaving of two threads.
- `app/` puts the table behind mutexes, one per shard, for threads to share, and
  gives the identifiers, modes and errors a serialised form.

```rust
use lock_db::prelude::{LockError, LockManager, LockMode, ResourceId, TxnId};

let mut lm = LockManager::new(8);
let row = ResourceId::new(1);
let (writer, reader) = (TxnId::new(1), TxnId::new(2));

lm.try_acquire(writer, row, LockMode::Exclusive).unwrap();
assert_eq!(lm.try_acquire(reader, row, LockMode::Shared), Err(LockError::Conflict));

lm.release(writer, row).unwrap();
lm.try_acquire(reader, row, LockMode::Shared).unwrap();
```
