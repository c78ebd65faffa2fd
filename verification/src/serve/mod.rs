//! The decisions of the management daemon: who may do what, what is answered, and what is
//! counted.

use vstd::prelude::*;

pub mod auth;
pub mod base64;
pub mod compaction;
pub mod health;
pub mod metrics;
pub mod queue;

verus! {

/// The port that the daemon listens on.
pub const DEFAULT_PORT: u16 = 11_463;

/// How many workers write.
pub const WRITE_WORKERS: usize = 4;

/// How many searches run at a time.
pub const KNN_CONCURRENCY: usize = 64;

/// How many bytes the body of a request may have.
pub const MAX_BODY_BYTES: usize = 16_777_216;

/// An answer that refuses a request: the HTTP status and the words.
#[derive(Debug, Clone, PartialEq, Eq)]
pub struct AppError(pub u16, pub String);

/// Whether an answer is the given refusal.
pub open spec fn refuses(e: AppError, status: u16, text: Seq<char>) -> bool {
    e.0 == status && e.1@ == text
}

/// A request to write a key.
#[derive(Debug, Clone)]
pub struct PutKvReq {
    pub key: String,
    pub value: String,
}

/// A request to write a vector, given by the bits of its components.
#[derive(Debug, Clone)]
pub struct InsertVectorReq {
    pub id: u64,
    pub vector: Vec<u32>,
}

/// A request to write a table, given as an Arrow stream in base64.
#[derive(Debug, Clone)]
pub struct PutColumnarReq {
    pub table_id: String,
    pub ipc_base64: String,
}

/// A request to search, given by the bits of the components.
#[derive(Debug, Clone)]
pub struct KnnReq {
    pub query: Vec<u32>,
    pub top_k: usize,
}

} // verus!
