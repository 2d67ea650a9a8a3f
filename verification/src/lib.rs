//! A small settings service core: an in-memory map from application
//! identifiers to opaque settings blobs, a line-oriented persistence
//! format with a load/save contract, the action protocol that serializes
//! all reads, writes and shutdown through one dispatch loop, and the
//! lifecycle controller that drives a clean, flush-before-exit shutdown.

pub mod lifecycle;
pub mod protocol;
pub mod store;
