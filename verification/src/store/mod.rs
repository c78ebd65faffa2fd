//! Key/value store.

pub mod kv;
pub mod kv_laws;
