//! A host metrics agent's core, verified: the stateful delta engine that
//! turns monotonic kernel counters into per-interval rates across process
//! restarts, the self-healing snapshot store it persists through, and the
//! multi-node write repository with randomized failover. The operating
//! system readers, the network transport and the scheduler live outside and
//! hand the library plain values.

pub mod common_enums;
pub mod model;
pub mod repository;
pub mod service;
pub mod traits;
pub mod utils_module;
