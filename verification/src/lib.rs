//! An append-only, single-file key-value store.
//!
//! The store keeps a versioned log of length-prefixed records.  A record
//! holds a key, a value, and a tombstone flag; a key's current value is
//! decided by the last record for that key in log order.  An in-memory
//! offset index accelerates point lookups but never holds authority over
//! the log itself.

pub mod codec;
pub mod command;
pub mod config;
pub mod error;
pub mod index;
pub mod laws;
pub mod proto;
pub mod response;
pub mod storage;
