//! What is counted and measured. Each metric can be missing, where it could not be registered;
//! the rest go on without it.

use vstd::prelude::*;

verus! {

/// Which metrics are registered.
#[derive(Debug, Clone, Copy, PartialEq, Eq, Structural)]
pub struct Metrics {
    pub ops_total: bool,
    pub ops_latency_us: bool,
    pub seg_used_bytes: bool,
    pub seg_capacity_bytes: bool,
    pub backpressure_queue_depth: bool,
}

/// A change of a metric.
#[derive(Debug, Clone, Copy)]
pub enum Update<'a> {
    /// One more operation with this result.
    OpsTotal { op: &'a str, result: &'a str },
    /// An operation took so many microseconds.
    OpsLatency { op: &'a str, elapsed_us: u64 },
    SegUsed(i64),
    SegCapacity(i64),
    QueueDepth(i64),
}

pub open spec fn only(present: bool, u: Update) -> Seq<Update> {
    if present {
        seq![u]
    } else {
        Seq::empty()
    }
}

impl Metrics {
    /// Whether a metric is missing.
    pub fn degraded(&self) -> (r: bool)
        ensures
            r == !(self.ops_total && self.ops_latency_us && self.seg_used_bytes
                && self.seg_capacity_bytes && self.backpressure_queue_depth),
    {
        !self.ops_total || !self.ops_latency_us || !self.seg_used_bytes || !self.seg_capacity_bytes
            || !self.backpressure_queue_depth
    }
}

/// Counts an operation and notes how long it took.
pub fn observe<'a>(m: Option<Metrics>, op: &'a str, result: &'a str, elapsed_us: u64) -> (r: Vec<
    Update<'a>,
>)
    ensures
        r@ == match m {
            Some(m) => only(m.ops_total, Update::OpsTotal { op, result }) + only(
                m.ops_latency_us,
                Update::OpsLatency { op, elapsed_us },
            ),
            None => Seq::empty(),
        },
{
    let mut updates: Vec<Update> = Vec::new();
    match m {
        Some(m) => {
            if m.ops_total {
                updates.push(Update::OpsTotal { op, result });
            }
            if m.ops_latency_us {
                updates.push(Update::OpsLatency { op, elapsed_us });
            }
        },
        None => {},
    }
    updates
}

/// Counts an operation.
pub fn inc<'a>(m: Option<Metrics>, op: &'a str, result: &'a str) -> (r: Vec<Update<'a>>)
    ensures
        r@ == match m {
            Some(m) => only(m.ops_total, Update::OpsTotal { op, result }),
            None => Seq::empty(),
        },
{
    let mut updates: Vec<Update> = Vec::new();
    match m {
        Some(m) => {
            if m.ops_total {
                updates.push(Update::OpsTotal { op, result });
            }
        },
        None => {},
    }
    updates
}

/// Shows how many bytes are in use, of how many.
pub fn set_seg_util<'a>(m: Option<Metrics>, used: u64, capacity: u64) -> (r: Vec<Update<'a>>)
    ensures
        r@ == match m {
            Some(m) => only(m.seg_used_bytes, Update::SegUsed(used as i64)) + only(
                m.seg_capacity_bytes,
                Update::SegCapacity(capacity as i64),
            ),
            None => Seq::empty(),
        },
{
    let mut updates: Vec<Update> = Vec::new();
    match m {
        Some(m) => {
            if m.seg_used_bytes {
                #[verifier::truncate]
                let shown: i64 = used as i64;
                updates.push(Update::SegUsed(shown));
            }
            if m.seg_capacity_bytes {
                #[verifier::truncate]
                let shown: i64 = capacity as i64;
                updates.push(Update::SegCapacity(shown));
            }
        },
        None => {},
    }
    updates
}

/// Shows how many writes wait.
pub fn set_queue_depth<'a>(m: Option<Metrics>, depth: usize) -> (r: Vec<Update<'a>>)
    ensures
        r@ == match m {
            Some(m) => only(m.backpressure_queue_depth, Update::QueueDepth(depth as i64)),
            None => Seq::empty(),
        },
{
    let mut updates: Vec<Update> = Vec::new();
    match m {
        Some(m) => {
            if m.backpressure_queue_depth {
                #[verifier::truncate]
                let shown: i64 = depth as i64;
                updates.push(Update::QueueDepth(shown));
            }
        },
        None => {},
    }
    updates
}

/// A metric that is there is changed once, one that is missing not at all.
pub proof fn missing_metrics_are_passed_over(present: bool, u: Update)
    ensures
        present ==> only(present, u).len() == 1 && only(present, u)[0] == u,
        !present ==> only(present, u).len() == 0,
{
}

} // verus!
