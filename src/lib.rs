//! Bounded admission queue for signed transactions.
//!
//! Producers push accepted transactions; a single consumer drains batches
//! for the next block. Expired, committed and unauthorised transactions are
//! evicted lazily, at push and at drain time.
pub mod containers;
pub mod laws;
pub mod model;
pub mod queue;
pub mod time;
pub mod transaction;

pub use queue::{Config, Error, Failure, Queue, TransactionEvent, TransactionStatus};
pub use time::TimeSource;
pub use transaction::{
    Account, AcceptedTransaction, Fingerprint, PublicKey, SignatureCheckCondition, StateView,
};
