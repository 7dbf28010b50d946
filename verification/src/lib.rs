//! A key-value map whose every state can be captured as a content-addressed snapshot.
//!
//! The map keeps its entries in key order, so that equal contents always give equal
//! payload bytes and therefore equal content hashes. Snapshots are named after the moment
//! they were taken, the operation that caused them and the hash of their payload; a
//! directory of snapshots is handled as a plain list of files, which the caller reads
//! from and writes to disk.

pub mod key_order;
pub mod entries;
pub mod store;
pub mod payload;
pub mod error;
pub mod snapshot;
pub mod content_hash;
pub mod naming;
pub mod clock;
pub mod directory;
pub mod diff;
pub mod history;
pub mod cli;
