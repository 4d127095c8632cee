//! Lock manager and deadlock detection for databases: row and range locks,
//! multiple granularities, and wait-for cycle detection.
//!
//! A lock manager lets many transactions touch shared data at once without
//! corrupting it. Each transaction asks for a lock on a resource in a
//! [`LockMode`]; the manager grants it only when the mode is compatible with
//! what every other transaction already holds. That single rule, the
//! compatibility matrix, is what keeps concurrent reads and writes correct.
//!
//! - [`mode`] has the modes, the compatibility matrix and the join of modes.
//! - [`range`] has the key ranges that range locks are on.
//! - [`ledger`] has the locks of one partition of the table.
//! - [`shard`] decides which partition a resource belongs to.
//! - [`manager`] has the lock table as a whole.
//! - [`graph`] and [`deadlock`] have the wait-for relation and find its cycles.
//! - [`laws`] has what the operations promise together.
pub mod deadlock;
pub mod error;
pub mod graph;
pub mod id;
pub mod laws;
pub mod ledger;
pub mod manager;
pub mod mode;
pub mod prelude;
pub mod range;
pub mod shard;

pub use crate::deadlock::{Deadlock, VictimPolicy, WaitForGraph};
pub use crate::error::LockError;
pub use crate::id::{ResourceId, TxnId};
pub use crate::manager::{Acquisition, LockManager};
pub use crate::mode::LockMode;
pub use crate::range::KeyRange;
