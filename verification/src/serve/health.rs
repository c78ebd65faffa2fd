//! What the daemon says of itself.

use vstd::prelude::*;
use vstd::string::StringExecFns;
use crate::engine::Engine;
use crate::error::StoreError;
use crate::mem::segment::file_view;
use crate::serve::{refuses, AppError};
use crate::store::kv::{quota_of, KvStore};
use crate::vector::nsw::{ids_where, takes_memory};
use crate::vector::store::VectorIndex;

verus! {

/// From this depth of the write queue on, the daemon calls itself degraded.
pub const BACKPRESSURE_THRESHOLD: usize = 8_000;

/// The answer to a health request.
#[derive(Debug, Clone)]
pub struct HealthResp {
    pub status: &'static str,
    pub store_open: bool,
    pub compact_in_progress: bool,
    pub backpressure: bool,
}

/// The status and its word: unavailable while a compaction runs, degraded while the write queue
/// is nearly full, otherwise fine.
pub open spec fn health_of(queue_depth: usize, compact: bool) -> (u16, Seq<char>) {
    if compact {
        (503u16, "unavailable"@)
    } else if queue_depth >= BACKPRESSURE_THRESHOLD {
        (200u16, "degraded"@)
    } else {
        (200u16, "ok"@)
    }
}

/// Answers a health request.
pub fn health(queue_depth: usize, compact_in_progress: bool) -> (r: (u16, HealthResp))
    ensures
        (r.0, r.1.status@) == health_of(queue_depth, compact_in_progress),
        r.1.store_open,
        r.1.compact_in_progress == compact_in_progress,
        r.1.backpressure == (queue_depth >= BACKPRESSURE_THRESHOLD),
{
    let backpressure: bool = queue_depth >= BACKPRESSURE_THRESHOLD;
    let (code, status): (u16, &'static str) = if compact_in_progress {
        (503, "unavailable")
    } else if backpressure {
        (200, "degraded")
    } else {
        (200, "ok")
    };
    (code, HealthResp { status, store_open: true, compact_in_progress, backpressure })
}

/// The answer to a request for statistics.
#[derive(Debug, Clone)]
pub struct StatsResp {
    pub namespace: String,
    pub kv_used_bytes: u64,
    pub kv_quota: u64,
    pub kv_disk_bytes: u64,
    pub vec_disk_bytes: u64,
    pub vector_count: usize,
    pub vector_dim: usize,
    pub graph_memory_bytes: usize,
    pub queue_depth: usize,
}

/// Gathers the statistics; without a vector index there are none. What is on disk and what
/// waits in the queue comes from outside.
pub fn stats(
    engine: &Engine,
    quota: Option<&[u8]>,
    kv_disk_bytes: u64,
    vec_disk_bytes: u64,
    queue_depth: usize,
) -> (r: std::result::Result<StatsResp, AppError>)
    requires
        engine.wf(),
    ensures
        engine.vec_view() is None ==> r is Err && refuses(
            r->Err_0,
            500,
            StoreError::NotFound.text(),
        ),
        engine.vec_view() matches Some(v) ==> ({
            &&& r is Ok
            &&& r->Ok_0.namespace@ == "default"@
            &&& r->Ok_0.kv_used_bytes == quota_of(file_view(quota))
            &&& r->Ok_0.kv_quota == engine.kv_view().limit
            &&& r->Ok_0.kv_disk_bytes == kv_disk_bytes
            &&& r->Ok_0.vec_disk_bytes == vec_disk_bytes
            &&& r->Ok_0.vector_count == ids_where(v.graph.order, v.graph.nodes, false).len()
            &&& r->Ok_0.vector_dim == v.schema.dim
            &&& takes_memory(v.graph, r->Ok_0.graph_memory_bytes)
            &&& r->Ok_0.queue_depth == queue_depth
        }),
{
    let index: &VectorIndex = match engine.vec_index() {
        Ok(i) => i,
        Err(e) => return Err(internal_error(&e)),
    };
    Ok(
        StatsResp {
            namespace: String::from_str("default"),
            kv_used_bytes: KvStore::used_bytes(quota),
            kv_quota: engine.kv().quota_limit(),
            kv_disk_bytes,
            vec_disk_bytes,
            vector_count: index.len(),
            vector_dim: index.schema().dim,
            graph_memory_bytes: index.graph_memory_usage(),
            queue_depth,
        },
    )
}

/// Any failure of the store is answered with 500 and its words.
pub fn internal_error(e: &StoreError) -> (r: AppError)
    ensures
        refuses(r, 500, e.text()),
{
    AppError(500, e.message())
}

/// The daemon is unavailable exactly while a compaction runs; otherwise it is fine exactly as long
/// as fewer than 8000 writes wait, and degraded from there on, at any depth.
pub proof fn health_follows_queue_and_compaction(queue_depth: usize, compact: bool)
    ensures
        health_of(queue_depth, compact).0 == 503 <==> compact,
        health_of(queue_depth, compact).0 == 200 <==> !compact,
        health_of(queue_depth, compact).1 == "unavailable"@ <==> compact,
        health_of(queue_depth, compact).1 == "ok"@ <==> !compact && queue_depth < 8000,
        health_of(queue_depth, compact).1 == "degraded"@ <==> !compact && queue_depth >= 8000,
{
    reveal_strlit("unavailable");
    reveal_strlit("ok");
    reveal_strlit("degraded");
    assert("unavailable"@.len() != "ok"@.len());
    assert("unavailable"@.len() != "degraded"@.len());
    assert("ok"@.len() != "degraded"@.len());
}

} // verus!
