//! Durable memory: the write-ahead log, segments and recovery.

pub mod cache;
pub mod mmap;
pub mod recover;
pub mod segment;
pub mod segment_laws;
pub mod wal;
pub mod wal_laws;
