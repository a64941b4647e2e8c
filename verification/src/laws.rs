//! What holds of every note and of every collection, proved from what the
//! functions of the library promise.
pub mod graph;
pub mod idempotence;
pub mod regions;
pub mod replacing;
pub mod section;
pub mod shifting;
