//! Playtime bookkeeping for applications started by a supervising launcher.
//!
//! * [`schedule`]: periodic timers whose deadlines sit on multiples of their
//!   period, counted from a fixed epoch.
//! * [`db`]: the playtime ledger, a write-back cache over an hourly time
//!   series together with a journal of lifecycle events.
//! * [`store`]: the durable store as the ledger sees it, and the meaning of
//!   each write that the ledger asks for.
//! * [`mem_store`]: a store that lives in memory and follows that meaning
//!   row for row.
//! * [`observer`]: the tasks that run on each tick.
//! * [`procfs`]: readers for the few files of the process table that tell
//!   which applications run.
//! * [`laws`]: what holds of the ledger and the store together.
//!
//! The library performs no input or output. Every ledger operation returns
//! the list of [`store::StoreOp`] that the caller has to run against the
//! durable store, in order and as one transaction.

pub mod db;
pub mod laws;
pub mod mem_store;
pub mod observer;
pub mod procfs;
pub mod schedule;
pub mod store;
