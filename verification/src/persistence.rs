//! Local durability for the in-memory store: a write-ahead log, periodic snapshots, and recovery
//! on restart.
//!
//! The library frames and reads the bytes and decides which files count; opening, writing and
//! renaming the files is left to the caller.

pub mod generations;
pub mod record;
pub mod replay;
pub mod snapshot;
pub mod wal;
