//! The crate's common imports.
pub use crate::deadlock::{Deadlock, VictimPolicy, WaitForGraph};
pub use crate::error::LockError;
pub use crate::id::{ResourceId, TxnId};
pub use crate::manager::{Acquisition, LockManager};
pub use crate::mode::LockMode;
pub use crate::range::KeyRange;
