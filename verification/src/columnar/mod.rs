//! Columnar store: tables of fixed-width columns in segments.

pub mod batch;
pub mod notes;
pub mod store;
pub mod store_laws;
pub mod types;
