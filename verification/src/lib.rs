//! Replay engine for a simulated ledger's append-only event log.
//!
//! The library folds an ordered log of ownership-transition events into the
//! inventory of currently live objects, and answers point-in-time queries
//! over that inventory: which objects an owner holds, which identifiers were
//! deleted or transferred since a log position, and how many events exist.

pub mod engine;
pub mod laws;
pub mod model;
