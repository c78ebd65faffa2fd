//! The bounded write queue: a request is taken in or turned away at once, never left to pile up.

use vstd::prelude::*;
use vstd::string::StringExecFns;
use crate::serve::{refuses, AppError};

verus! {

/// How many writes wait at most, where nothing else is asked for.
pub const DEFAULT_QUEUE_CAP: usize = 10_000;

/// The cap to use; 0 asks for the usual one.
pub fn queue_cap(asked: usize) -> (r: usize)
    ensures
        r == if asked == 0 {
            DEFAULT_QUEUE_CAP
        } else {
            asked
        },
{
    if asked == 0 {
        DEFAULT_QUEUE_CAP
    } else {
        asked
    }
}

/// A write that waits.
#[derive(Debug, Clone)]
pub enum WriteReq {
    PutKv { key: Vec<u8>, value: Vec<u8> },
    InsertVector { id: u64, vector: Vec<u32> },
    PutColumnar { table_id: String, ipc: Vec<u8> },
}

impl WriteReq {
    /// The name that the write is counted and answered under.
    pub open spec fn name(self) -> Seq<char> {
        match self {
            WriteReq::PutKv { key: _, value: _ } => "put_kv"@,
            WriteReq::InsertVector { id: _, vector: _ } => "insert_vector"@,
            WriteReq::PutColumnar { table_id: _, ipc: _ } => "put_columnar"@,
        }
    }

    pub fn label(&self) -> (r: &'static str)
        ensures
            r@ == self.name(),
    {
        match self {
            WriteReq::PutKv { key: _, value: _ } => "put_kv",
            WriteReq::InsertVector { id: _, vector: _ } => "insert_vector",
            WriteReq::PutColumnar { table_id: _, ipc: _ } => "put_columnar",
        }
    }
}

/// What is answered where the queue is full.
pub open spec fn full_text() -> Seq<char> {
    "backpressure: queue full"@
}

/// What became of handing a request to the workers.
#[derive(Debug, Clone, Copy, PartialEq, Eq, Structural)]
pub enum Sent {
    Queued,
    /// There was no room.
    Full,
    /// No worker is left to take it.
    Closed,
}

/// The depth of the queue and its cap.
#[derive(Debug, Clone, Copy)]
pub struct WriteQueue {
    pub cap: usize,
    pub depth: usize,
}

impl WriteQueue {
    pub fn new(cap: usize) -> (r: WriteQueue)
        ensures
            r == (WriteQueue { cap, depth: 0 }),
    {
        WriteQueue { cap, depth: 0 }
    }

    /// Takes a place in the queue; where there is none, the request is refused with 503 and the
    /// depth stays as it was.
    pub fn reserve(&mut self) -> (r: Result<(), AppError>)
        ensures
            final(self).cap == old(self).cap,
            old(self).depth >= old(self).cap ==> r is Err && refuses(r->Err_0, 503, full_text())
                && final(self).depth == old(self).depth,
            old(self).depth < old(self).cap ==> r is Ok && final(self).depth == old(self).depth + 1,
    {
        if self.depth >= self.cap {
            return Err(AppError(503, String::from_str("backpressure: queue full")));
        }
        self.depth = self.depth + 1;
        Ok(())
    }

    /// Takes what became of handing over a request that has a place: the depth to show or, where
    /// there was no room after all, the refusal, with the place given back.
    pub fn try_enqueue(&mut self, sent: Sent) -> (r: Result<usize, AppError>)
        requires
            old(self).depth > 0,
        ensures
            final(self).cap == old(self).cap,
            sent == Sent::Full ==> r is Err && refuses(r->Err_0, 503, full_text())
                && final(self).depth == old(self).depth - 1,
            sent != Sent::Full ==> r == Ok::<usize, AppError>(old(self).depth) && final(self).depth
                == old(self).depth,
    {
        match sent {
            Sent::Full => {
                self.depth = self.depth - 1;
                Err(AppError(503, String::from_str("backpressure: queue full")))
            },
            Sent::Queued => Ok(self.depth),
            Sent::Closed => Ok(self.depth),
        }
    }

    /// Notes that a worker has dealt with a request: the depth to show.
    pub fn finished(&mut self) -> (r: usize)
        requires
            old(self).depth > 0,
        ensures
            final(self).cap == old(self).cap,
            final(self).depth == old(self).depth - 1,
            r == final(self).depth,
    {
        self.depth = self.depth - 1;
        self.depth
    }
}

/// What a waiting client learns of its write.
#[derive(Debug, Clone, Copy, PartialEq, Eq, Structural)]
pub enum WriteOutcome {
    Done,
    Failed,
    /// No worker answered.
    Dropped,
}

/// What is answered to a write: 204 where it was done, otherwise 500 with the name of the write.
pub open spec fn write_answer(outcome: WriteOutcome, label: Seq<char>) -> Result<
    u16,
    (u16, Seq<char>),
> {
    match outcome {
        WriteOutcome::Done => Ok(204u16),
        WriteOutcome::Failed => Err((500u16, label + " failed"@)),
        WriteOutcome::Dropped => Err((500u16, label + " worker dropped"@)),
    }
}

/// Answers a write.
pub fn await_write_done(outcome: WriteOutcome, label: &str) -> (r: Result<u16, AppError>)
    ensures
        match write_answer(outcome, label@) {
            Ok(status) => r == Ok::<u16, AppError>(status),
            Err((status, text)) => r is Err && refuses(r->Err_0, status, text),
        },
{
    match outcome {
        WriteOutcome::Done => Ok(204),
        WriteOutcome::Failed => {
            let mut text: String = String::from_str(label);
            text.append(" failed");
            Err(AppError(500, text))
        },
        WriteOutcome::Dropped => {
            let mut text: String = String::from_str(label);
            text.append(" worker dropped");
            Err(AppError(500, text))
        },
    }
}

/// What a worker does when a write has ended.
pub struct WriteReport {
    /// What it is counted under.
    pub label: &'static str,
    /// Counted as `ok` or as `error`.
    pub result: &'static str,
    /// Whether the gauges of the bytes in use are to be set anew.
    pub refresh_usage: bool,
    /// What the client is told.
    pub outcome: WriteOutcome,
}

/// Reports the end of a write.
pub fn handle_write_req(req: &WriteReq, ok: bool) -> (r: WriteReport)
    ensures
        r.label@ == req.name(),
        r.result@ == if ok {
            "ok"@
        } else {
            "error"@
        },
        r.refresh_usage == (ok && req is PutKv),
        r.outcome == if ok {
            WriteOutcome::Done
        } else {
            WriteOutcome::Failed
        },
{
    let put_kv: bool = match req {
        WriteReq::PutKv { key: _, value: _ } => true,
        WriteReq::InsertVector { id: _, vector: _ } => false,
        WriteReq::PutColumnar { table_id: _, ipc: _ } => false,
    };
    if ok {
        WriteReport {
            label: req.label(),
            result: "ok",
            refresh_usage: put_kv,
            outcome: WriteOutcome::Done,
        }
    } else {
        WriteReport {
            label: req.label(),
            result: "error",
            refresh_usage: false,
            outcome: WriteOutcome::Failed,
        }
    }
}

/// Refuses a search where as many run as may.
pub fn admit_knn(permitted: bool) -> (r: Result<(), AppError>)
    ensures
        permitted ==> r is Ok,
        !permitted ==> r is Err && refuses(r->Err_0, 503, "knn concurrency limit reached"@),
{
    if permitted {
        Ok(())
    } else {
        Err(AppError(503, String::from_str("knn concurrency limit reached")))
    }
}

/// A client hears of success exactly where its write was done; otherwise it gets 500 and words
/// that begin with the name of the write and tell a failure from a lost worker.
pub proof fn only_done_writes_succeed(outcome: WriteOutcome, label: Seq<char>)
    ensures
        write_answer(outcome, label) is Ok <==> outcome == WriteOutcome::Done,
        write_answer(outcome, label) matches Ok(status) ==> status == 204,
        write_answer(outcome, label) matches Err((status, text)) ==> status == 500 && text.take(
            label.len() as int,
        ) == label && text.len() > label.len(),
        write_answer(WriteOutcome::Failed, label) != write_answer(WriteOutcome::Dropped, label),
{
    reveal_strlit(" failed");
    reveal_strlit(" worker dropped");
    let a = label + " failed"@;
    let b = label + " worker dropped"@;
    assert(a.take(label.len() as int) =~= label);
    assert(b.take(label.len() as int) =~= label);
    assert(a.len() != b.len());
}

/// Writes of different kinds are counted under different names.
pub proof fn names_tell_writes_apart(a: WriteReq, b: WriteReq)
    requires
        a.name() == b.name(),
    ensures
        a is PutKv <==> b is PutKv,
        a is InsertVector <==> b is InsertVector,
        a is PutColumnar <==> b is PutColumnar,
{
    reveal_strlit("put_kv");
    reveal_strlit("insert_vector");
    reveal_strlit("put_columnar");
    assert("put_kv"@.len() != "insert_vector"@.len());
    assert("put_kv"@.len() != "put_columnar"@.len());
    assert("insert_vector"@.len() != "put_columnar"@.len());
}

} // verus!
