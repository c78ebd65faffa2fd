//! Vector index: distances, the navigable graph, its snapshot and the store around it.

pub mod dist;
pub mod heap;
pub mod locators;
pub mod nsw;
pub mod pool;
pub mod reach_laws;
pub mod schema;
pub mod search;
pub mod search_laws;
pub mod snapshot;
pub mod snapshot_laws;
pub mod store;
pub mod store_laws;
