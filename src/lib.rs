//! Liveness checking for a catalog of book sources.
//!
//! The library holds the decisions of the checker: which catalog entries are
//! probed and under which address, how many probes may run at once, how the
//! answer of one probe is classified, and which entries survive.  The network,
//! the file system and the JSON format live with the caller.
pub mod classify;
pub mod config;
pub mod dispatch;
pub mod plan;
pub mod target;
