//! What is fixed of a vector index when it is made: dimension, metric and search width.

use vstd::prelude::*;
use crate::error::{Result, StoreError};
use crate::vector::nsw::DEFAULT_EF_SEARCH;

verus! {

/// How the distance of two vectors is measured.
#[derive(Debug, Clone, Copy, PartialEq, Eq, Structural)]
pub enum MetricKind {
    Cosine,
    L2,
    Dot,
}

/// The schema of a vector index.
#[derive(Debug, Clone, Copy, PartialEq, Eq, Structural)]
pub struct VectorSchema {
    pub dim: usize,
    pub metric: MetricKind,
    pub ef_search: usize,
}

/// The search width of a schema that was stored without one.
pub fn default_ef_search() -> (r: usize)
    ensures
        r == DEFAULT_EF_SEARCH,
{
    DEFAULT_EF_SEARCH
}

/// The schema that is in force: the one that an index was made with, whatever is asked for; the
/// one that is asked for where there is no index yet.
pub fn schema_in_force(stored: Option<VectorSchema>, asked: Option<VectorSchema>) -> (r: Option<
    VectorSchema,
>)
    ensures
        stored is Some ==> r == stored,
        stored is None ==> r == asked,
{
    match stored {
        Some(s) => Some(s),
        None => asked,
    }
}

impl VectorSchema {
    /// A schema with the default search width.
    pub fn new(dim: usize, metric: MetricKind) -> (r: VectorSchema)
        ensures
            r == (VectorSchema { dim, metric, ef_search: DEFAULT_EF_SEARCH }),
    {
        VectorSchema { dim, metric, ef_search: DEFAULT_EF_SEARCH }
    }

    /// A schema with its own search width; 0 stands for the default.
    pub fn with_ef_search(dim: usize, metric: MetricKind, ef_search: usize) -> (r: VectorSchema)
        ensures
            r.dim == dim,
            r.metric == metric,
            r.ef_search == if ef_search == 0 {
                DEFAULT_EF_SEARCH
            } else {
                ef_search
            },
    {
        VectorSchema {
            dim,
            metric,
            ef_search: if ef_search == 0 {
                DEFAULT_EF_SEARCH
            } else {
                ef_search
            },
        }
    }

    /// Refuses a vector of another dimension.
    pub fn validate_dim(&self, vector: &[u32]) -> (r: Result<()>)
        ensures
            vector@.len() == self.dim ==> r is Ok,
            vector@.len() != self.dim ==> r == Err::<(), _>(
                StoreError::DimensionMismatch {
                    expected: self.dim,
                    got: vector@.len() as usize,
                },
            ),
    {
        if vector.len() == self.dim {
            Ok(())
        } else {
            Err(StoreError::DimensionMismatch { expected: self.dim, got: vector.len() })
        }
    }
}

} // verus!
