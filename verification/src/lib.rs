//! fusion-store: the decision logic of a single-machine storage engine that keeps key/value
//! state, vectors and fixed-width columns in append-only segments behind a write-ahead log.

pub mod bytes;
pub mod cli;
pub mod columnar;
pub mod compact;
pub mod engine;
pub mod engine_laws;
pub mod error;
pub mod ffi;
pub mod lock;
pub mod mem;
pub mod serve;
pub mod sharded;
pub mod store;
pub mod text;
pub mod vector;
