//! An embedded, transactional key-value store with an integrated durable
//! delivery queue.
//!
//! The crate verifies the storage engine itself: the order-preserving key
//! codec, value encoding, range selectors with resumable cursors, the
//! atomic-write pipeline (checks, mutations, enqueues), the queue scheduler
//! rules (ready, running, requeue, dead-letter), expiration sweeping, and the
//! close discipline.  Durability (a relational store on disk) and the
//! asynchronous plumbing around the engine live outside the library and drive
//! it through the public operations.

pub mod byteseq;
pub mod errors;
pub mod key_order;
pub mod keys;
pub mod laws;
pub mod limits;
pub mod queue;
pub mod remote;
pub mod repl;
pub mod selector;
pub mod store;
pub mod types;
pub mod values;
pub mod watch;

pub use errors::KvError;
