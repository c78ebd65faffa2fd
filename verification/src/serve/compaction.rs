//! The compaction endpoint: one compaction at a time.

use vstd::prelude::*;
use vstd::string::StringExecFns;
use crate::compact::CompactResult;
use crate::error::StoreError;
use crate::serve::health::internal_error;
use crate::serve::{refuses, AppError};

verus! {

/// The answer to a request to compact.
#[derive(Debug, Clone, Copy, PartialEq, Eq, Structural)]
pub struct CompactResp {
    pub live_vectors: usize,
    pub reclaimable_segs: usize,
}

/// Whether a compaction runs.
#[derive(Debug, Clone, Copy, PartialEq, Eq, Structural)]
pub struct CompactGate {
    pub in_progress: bool,
}

impl CompactGate {
    /// Lets a compaction begin; where one runs already, the request is refused with 409.
    pub fn begin(&mut self) -> (r: Result<(), AppError>)
        ensures
            final(self).in_progress,
            old(self).in_progress ==> r is Err && refuses(
                r->Err_0,
                409,
                "compact already in progress"@,
            ),
            !old(self).in_progress ==> r is Ok,
    {
        if self.in_progress {
            return Err(AppError(409, String::from_str("compact already in progress")));
        }
        self.in_progress = true;
        Ok(())
    }

    /// Ends a compaction and answers the request.
    pub fn finish(&mut self, outcome: &Result<CompactResult, StoreError>) -> (r: Result<
        CompactResp,
        AppError,
    >)
        ensures
            !final(self).in_progress,
            outcome matches Ok(c) ==> r == Ok::<CompactResp, AppError>(
                CompactResp {
                    live_vectors: c.live_vectors,
                    reclaimable_segs: c.reclaimable_segs.len(),
                },
            ),
            outcome matches Err(e) ==> r is Err && refuses(r->Err_0, 500, e.text()),
    {
        self.in_progress = false;
        match outcome {
            Ok(c) => Ok(
                CompactResp {
                    live_vectors: c.live_vectors,
                    reclaimable_segs: c.reclaimable_segs.len(),
                },
            ),
            Err(e) => Err(internal_error(e)),
        }
    }
}

} // verus!
