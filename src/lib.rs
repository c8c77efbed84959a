//! Orchestration core of the detector-data viewers: the shared result store,
//! the progress counter, the dispatcher's decisions, the round-robin worker
//! pool with its artifact cache, the event index with its cursor, the time
//! chunker and the load state machine.

pub mod progress;
pub mod store;
pub mod dispatch;
pub mod pool;
pub mod index;
pub mod chunks;
pub mod state;
