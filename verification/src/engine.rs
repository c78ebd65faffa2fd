//! The engine: one namespace with its key/value store, vector index, columnar store and log.
//!
//! Every write goes to the log first. Only once its frame is durable is it applied to a store;
//! after a crash the entries behind the last checkpoint are replayed.

use vstd::prelude::*;
use vstd::slice::slice_to_vec;
use vstd::string::StringExecFns;
use crate::columnar::batch::{
    all_fit, batch_columns, batch_rows, encode_ipc, ipc_read, ipc_readable, unfit, ArrowBatch,
};
use crate::columnar::notes::fits_stream;
use crate::columnar::store::{check_columns, columns_len, old_total, ColumnarStore};
use crate::columnar::types::TableMeta;
use crate::error::{Corruption, Result, StoreError};
use crate::mem::recover::{build_recover_plan, plan_result, RecoverPlan};
use crate::mem::wal::{
    body_of, entries_view, first_misfit, fits, frame_of, log_of, max_of, numbered, CheckpointMarker,
    EntryView, OpView, PendingAppend, Wal, WalEntry, WalOp,
};
use crate::mem::segment::file_view;
use crate::store::kv::{
    charged, check_put, put_check, quota_of, KvStore, KvView,
};
use crate::text::{dec, push_dec};
use crate::vector::schema::VectorSchema;
use crate::vector::store::{batch_error, insert_error, IndexView, VectorIndex};

verus! {

/// One thing that a checkpoint does.
#[derive(Debug, Clone, Copy, PartialEq, Eq, Structural)]
pub enum CheckpointAction {
    FlushKv,
    FlushColumnar,
    SnapshotVectors,
    WriteMarker,
    TruncateLog,
}

/// What a checkpoint does, in order: the stores reach the disk before the marker says so, and
/// the log is cut only after that.
pub open spec fn checkpoint_actions(col_open: bool, vec_open: bool) -> Seq<CheckpointAction> {
    let kv = seq![CheckpointAction::FlushKv];
    let col = if col_open {
        seq![CheckpointAction::FlushColumnar]
    } else {
        Seq::empty()
    };
    let vec = if vec_open {
        seq![CheckpointAction::SnapshotVectors]
    } else {
        Seq::empty()
    };
    kv + col + vec + seq![CheckpointAction::WriteMarker, CheckpointAction::TruncateLog]
}

/// What ends a replay, in order: what was replayed reaches the disk, and only then is it cut
/// from the log. The marker stays as it is.
pub open spec fn replay_end_actions(col_open: bool, vec_open: bool) -> Seq<CheckpointAction> {
    let all = checkpoint_actions(col_open, vec_open);
    all.take(all.len() - 2).push(CheckpointAction::TruncateLog)
}

/// The name under which a checkpoint knows its graph snapshot.
pub open spec fn snapshot_name_of(applied: u64) -> Seq<char> {
    "nsw_checkpoint_"@ + dec(applied as nat) + ".mmap"@
}

/// A checkpoint on its way.
pub struct Checkpoint {
    applied_seq: u64,
    col_open: bool,
    vec_open: bool,
    marks: bool,
    done: u8,
}

/// A checkpoint on its way: the number up to which the log is applied, and what is done.
pub struct CheckpointView {
    pub applied: u64,
    pub actions: Seq<CheckpointAction>,
    pub done: nat,
}

impl View for Checkpoint {
    type V = CheckpointView;

    closed spec fn view(&self) -> CheckpointView {
        CheckpointView {
            applied: self.applied_seq,
            actions: if self.marks {
                checkpoint_actions(self.col_open, self.vec_open)
            } else {
                replay_end_actions(self.col_open, self.vec_open)
            },
            done: self.done as nat,
        }
    }
}

impl Checkpoint {
    /// Starts a checkpoint that covers every entry numbered before `next_seq`.
    pub fn begin(next_seq: u64, col_open: bool, vec_open: bool) -> (r: Checkpoint)
        ensures
            r@ == (CheckpointView {
                applied: if next_seq > 0 {
                    (next_seq - 1) as u64
                } else {
                    0
                },
                actions: checkpoint_actions(col_open, vec_open),
                done: 0,
            }),
    {
        Checkpoint {
            applied_seq: next_seq.saturating_sub(1),
            col_open,
            vec_open,
            marks: true,
            done: 0,
        }
    }

    /// Starts the end of a replay that has reached the entry numbered `reached`.
    pub fn after_replay(reached: u64, col_open: bool, vec_open: bool) -> (r: Checkpoint)
        ensures
            r@ == (CheckpointView {
                applied: reached,
                actions: replay_end_actions(col_open, vec_open),
                done: 0,
            }),
    {
        Checkpoint { applied_seq: reached, col_open, vec_open, marks: false, done: 0 }
    }

    /// The number up to which the log is cut.
    pub fn applied(&self) -> (r: u64)
        ensures
            r == self@.applied,
    {
        self.applied_seq
    }

    /// What to do next; `None` when all is done.
    pub fn action(&self) -> (r: Option<CheckpointAction>)
        ensures
            r == (if self@.done < self@.actions.len() {
                Some(self@.actions[self@.done as int])
            } else {
                None
            }),
    {
        let mut rest: u8 = self.done;
        if rest == 0 {
            return Some(CheckpointAction::FlushKv);
        }
        rest = rest - 1;
        if self.col_open {
            if rest == 0 {
                return Some(CheckpointAction::FlushColumnar);
            }
            rest = rest - 1;
        }
        if self.vec_open {
            if rest == 0 {
                return Some(CheckpointAction::SnapshotVectors);
            }
            rest = rest - 1;
        }
        if self.marks {
            if rest == 0 {
                return Some(CheckpointAction::WriteMarker);
            }
            rest = rest - 1;
        }
        if rest == 0 {
            Some(CheckpointAction::TruncateLog)
        } else {
            None
        }
    }

    /// Notes that the action has succeeded. One that failed ends the checkpoint where it is.
    pub fn succeeded(&mut self)
        requires
            old(self)@.done < old(self)@.actions.len(),
        ensures
            final(self)@ == (CheckpointView {
                applied: old(self)@.applied,
                actions: old(self)@.actions,
                done: old(self)@.done + 1,
            }),
    {
        self.done = self.done + 1;
    }

    /// The marker that the checkpoint writes.
    pub fn marker(&self) -> (r: CheckpointMarker)
        ensures
            r.applied_seq == self@.applied,
            r.checkpoint_seq == self@.applied,
            r.graph_snapshot is Some,
            r.graph_snapshot->Some_0@ == snapshot_name_of(self@.applied),
    {
        let mut name: String = String::new();
        name.append("nsw_checkpoint_");
        push_dec(&mut name, self.applied_seq);
        name.append(".mmap");
        proof {
            assert(name@ =~= snapshot_name_of(self.applied_seq));
        }
        CheckpointMarker {
            applied_seq: self.applied_seq,
            checkpoint_seq: self.applied_seq,
            graph_snapshot: Some(name),
        }
    }
}

/// What replaying an entry does. A columnar store that is not open yet is opened first.
#[derive(Debug, Clone, Copy, PartialEq, Eq, Structural)]
pub enum ReplayAction {
    PutKv,
    DeleteKv,
    InsertVector,
    DeleteVector,
    PutColumnar { open_first: bool },
}

/// What replaying an operation does; an error where there is no vector index.
pub open spec fn replay_of(op: OpView, vec_open: bool, col_open: bool) -> Result<ReplayAction> {
    match op {
        OpView::PutKv { .. } => Ok(ReplayAction::PutKv),
        OpView::DeleteKv { .. } => Ok(ReplayAction::DeleteKv),
        OpView::InsertVector { .. } => if vec_open {
            Ok(ReplayAction::InsertVector)
        } else {
            Err(StoreError::NotFound)
        },
        OpView::DeleteVector { .. } => if vec_open {
            Ok(ReplayAction::DeleteVector)
        } else {
            Err(StoreError::NotFound)
        },
        OpView::PutColumnar { .. } => Ok(ReplayAction::PutColumnar { open_first: !col_open }),
    }
}

/// What replaying an operation does.
pub fn replay_op(op: &WalOp, vec_open: bool, col_open: bool) -> (r: Result<ReplayAction>)
    ensures
        r == replay_of(op@, vec_open, col_open),
{
    match op {
        WalOp::PutKv { .. } => Ok(ReplayAction::PutKv),
        WalOp::DeleteKv { .. } => Ok(ReplayAction::DeleteKv),
        WalOp::InsertVector { .. } => {
            if vec_open {
                Ok(ReplayAction::InsertVector)
            } else {
                Err(StoreError::NotFound)
            }
        },
        WalOp::DeleteVector { .. } => {
            if vec_open {
                Ok(ReplayAction::DeleteVector)
            } else {
                Err(StoreError::NotFound)
            }
        },
        WalOp::PutColumnar { .. } => Ok(ReplayAction::PutColumnar { open_first: !col_open }),
    }
}

/// Whether an error of a replayed operation means that it was applied before: a vector that is
/// there already.
pub open spec fn applied_before(op: OpView, e: StoreError) -> bool {
    op is InsertVector && e is DuplicateVector
}

/// The entries that are being replayed: all of them, how many are done, and the number that was
/// applied before.
pub struct RecoveryView {
    pub entries: Seq<EntryView>,
    pub done: nat,
    pub applied: u64,
}

impl RecoveryView {
    /// The highest number that is applied so far.
    pub open spec fn reached(self) -> nat {
        let m = max_of(self.entries.take(self.done as int));
        if m >= self.applied {
            m
        } else {
            self.applied as nat
        }
    }
}

/// A replay on its way.
pub struct Recovery {
    entries: Vec<WalEntry>,
    done: usize,
    applied_seq: u64,
    max_seq: u64,
}

impl View for Recovery {
    type V = RecoveryView;

    closed spec fn view(&self) -> RecoveryView {
        RecoveryView {
            entries: entries_view(self.entries@),
            done: self.done as nat,
            applied: self.applied_seq,
        }
    }
}

impl Recovery {
    pub closed spec fn wf(&self) -> bool {
        self.done <= self.entries@.len() && self.max_seq == self@.reached()
    }

    /// Starts a replay.
    pub fn begin(plan: RecoverPlan) -> (r: Recovery)
        ensures
            r.wf(),
            r@ == (RecoveryView {
                entries: entries_view(plan.entries@),
                done: 0,
                applied: plan.applied_seq,
            }),
    {
        let r = Recovery {
            entries: plan.entries,
            done: 0,
            applied_seq: plan.applied_seq,
            max_seq: plan.applied_seq,
        };
        proof {
            assert(r@.entries.take(0) =~= Seq::<EntryView>::empty());
        }
        r
    }

    /// The entry to replay next; `None` when all are done.
    pub fn current(&self) -> (r: Option<&WalEntry>)
        requires
            self.wf(),
        ensures
            r is Some <==> self@.done < self@.entries.len(),
            r matches Some(e) ==> e@ == self@.entries[self@.done as int],
    {
        if self.done < self.entries.len() {
            Some(&self.entries[self.done])
        } else {
            None
        }
    }

    /// Takes the outcome of replaying the entry. A vector that is there already counts as
    /// replayed; any other error ends the replay, with the log uncut.
    pub fn settle(&mut self, outcome: Result<()>) -> (r: Result<()>)
        requires
            old(self).wf(),
            old(self)@.done < old(self)@.entries.len(),
        ensures
            final(self).wf(),
            ({
                let op = old(self)@.entries[old(self)@.done as int].op;
                if outcome is Ok || applied_before(op, outcome->Err_0) {
                    r is Ok && final(self)@ == (RecoveryView {
                        entries: old(self)@.entries,
                        done: old(self)@.done + 1,
                        applied: old(self)@.applied,
                    })
                } else {
                    r is Err && r->Err_0 == outcome->Err_0 && final(self)@ == old(self)@
                }
            }),
    {
        let ghost es = self@.entries;
        let entry: &WalEntry = &self.entries[self.done];
        let seq: u64 = entry.seq;
        match outcome {
            Ok(()) => {},
            Err(e) => {
                let insert: bool = match entry.op {
                    WalOp::InsertVector { .. } => true,
                    _ => false,
                };
                let there: bool = match e {
                    StoreError::DuplicateVector(_) => true,
                    _ => false,
                };
                if !(insert && there) {
                    return Err(e);
                }
            },
        }
        proof {
            assert(self.done < self.entries.len());
            assert(es.take(self.done + 1).drop_last() =~= es.take(self.done as int));
        }
        if seq > self.max_seq {
            self.max_seq = seq;
        }
        self.done = self.done + 1;
        Ok(())
    }

    /// Where to cut the log once every entry is replayed; `None` where there was none, and the
    /// log stays as it is.
    pub fn finish(&self) -> (r: Option<u64>)
        requires
            self.wf(),
            self@.done == self@.entries.len(),
        ensures
            self@.entries.len() == 0 ==> r is None,
            self@.entries.len() > 0 ==> r is Some && r->Some_0 == self@.reached(),
    {
        if self.entries.len() == 0 {
            None
        } else {
            Some(self.max_seq)
        }
    }
}

/// The engine of one namespace.
pub struct Engine {
    kv: KvStore,
    vec: Option<VectorIndex>,
    col: Option<ColumnarStore>,
    wal: Wal,
    quota_limit: u64,
}

/// `r` is the frame under `seq` of an operation, or the error where it does not fit.
pub open spec fn logs(seq: u64, op: OpView, r: Result<PendingAppend>) -> bool {
    if fits(op) {
        r is Ok && r->Ok_0.first_seq == seq && r->Ok_0.count == 1 && r->Ok_0.bytes@ == frame_of(
            seq,
            op,
        )
    } else {
        r is Err && r->Err_0 == StoreError::ValueTooLarge(body_of(op).len() as usize)
    }
}

/// The insertions of a batch of vectors.
pub open spec fn insert_ops(items: Seq<(u64, Vec<u32>)>) -> Seq<OpView> {
    Seq::new(
        items.len(),
        |i: int| OpView::InsertVector { id: items[i].0, vector: items[i].1@ },
    )
}

impl Engine {
    /// The number of the next log entry.
    pub closed spec fn next_seq(&self) -> u64 {
        self.wal.seq()
    }

    /// The key/value store.
    pub closed spec fn kv_view(&self) -> KvView {
        self.kv@
    }

    /// The vector index, if there is one.
    pub closed spec fn vec_view(&self) -> Option<IndexView> {
        match self.vec {
            Some(v) => Some(v@),
            None => None,
        }
    }

    /// The columnar store, if it is open.
    pub closed spec fn col_view(&self) -> Option<KvView> {
        match self.col {
            Some(c) => Some(c@),
            None => None,
        }
    }

    /// The limit on the bytes that each store may use.
    pub closed spec fn limit(&self) -> u64 {
        self.quota_limit
    }

    /// The vector index is well-formed.
    pub closed spec fn wf(&self) -> bool {
        self.vec matches Some(v) ==> v.wf()
    }

    /// An engine on open stores. The columnar store is opened when it is first written.
    pub fn open(kv: KvStore, vec: Option<VectorIndex>, wal: Wal, quota_limit: u64) -> (r: Engine)
        requires
            vec matches Some(v) ==> v.wf(),
        ensures
            r.wf(),
            r.next_seq() == wal.seq(),
            r.kv_view() == kv@,
            r.vec_view() == (match vec {
                Some(v) => Some(v@),
                None => None,
            }),
            r.col_view() is None,
            r.limit() == quota_limit,
    {
        Engine { kv, vec, col: None, wal, quota_limit }
    }

    /// The limit on the bytes that the tables may use.
    pub open spec fn col_limit(&self) -> u64 {
        match self.col_view() {
            Some(c) => c.limit,
            None => self.limit(),
        }
    }

    /// The frame that logs a put. Takes the locator that stands under the key and the count, as
    /// the table holds them: what the store would refuse does not reach the log.
    pub fn put_kv(
        &self,
        key: &[u8],
        value: &[u8],
        old_locator: Option<&[u8]>,
        quota: Option<&[u8]>,
    ) -> (r: Result<PendingAppend>)
        requires
            self.next_seq() < u64::MAX,
        ensures
            match put_check(
                self.kv_view().limit,
                key@.len(),
                value@.len(),
                file_view(old_locator),
                file_view(quota),
            ) {
                Err(e) => r is Err && r->Err_0 == e,
                Ok(_) => logs(self.next_seq(), (OpView::PutKv { key: key@, value: value@ }), r),
            },
    {
        check_put(self.kv.quota_limit(), key, value.len() as u64, old_locator, quota)?;
        self.wal.append(&WalOp::PutKv { key: slice_to_vec(key), value: slice_to_vec(value) })
    }

    /// The frame that logs the deletion of a key. An empty key, which the table cannot look up,
    /// is refused before it reaches the log.
    pub fn delete_kv(&self, key: &[u8]) -> (r: Result<PendingAppend>)
        requires
            self.next_seq() < u64::MAX,
        ensures
            key@.len() == 0 ==> r is Err && r->Err_0 == StoreError::InvalidKey(0),
            key@.len() > 0 ==> logs(self.next_seq(), (OpView::DeleteKv { key: key@ }), r),
    {
        if key.len() == 0 {
            return Err(StoreError::InvalidKey(0));
        }
        self.wal.append(&WalOp::DeleteKv { key: slice_to_vec(key) })
    }

    /// The frame that logs the insertion of a vector. What the index would refuse does not reach
    /// the log.
    pub fn insert_vector(&self, id: u64, vector: &[u32]) -> (r: Result<PendingAppend>)
        requires
            self.wf(),
            self.next_seq() < u64::MAX,
        ensures
            match self.vec_view() {
                None => r is Err && r->Err_0 == StoreError::NotFound,
                Some(v) => match insert_error(v, id, vector@.len()) {
                    Some(e) => r is Err && r->Err_0 == e,
                    None => logs(
                        self.next_seq(),
                        (OpView::InsertVector { id, vector: vector@ }),
                        r,
                    ),
                },
            },
    {
        self.vec_index()?.check_insert(id, vector)?;
        self.wal.append(&WalOp::InsertVector { id, vector: slice_to_vec(vector) })
    }

    /// The frames that log the insertion of a batch of vectors, to be written as one. What the
    /// index would refuse does not reach the log.
    pub fn insert_vector_batch(&self, items: &Vec<(u64, Vec<u32>)>) -> (r: Result<PendingAppend>)
        requires
            self.wf(),
            self.next_seq() + items@.len() <= u64::MAX,
        ensures
            match self.vec_view() {
                None => r is Err && r->Err_0 == StoreError::NotFound,
                Some(v) => match batch_error(v, items@) {
                    Some(e) => r is Err && r->Err_0 == e,
                    None => ({
                        let ops = insert_ops(items@);
                        let k = first_misfit(ops);
                        if k < ops.len() {
                            r is Err && r->Err_0 == StoreError::ValueTooLarge(
                                body_of(ops[k as int]).len() as usize,
                            )
                        } else {
                            r is Ok && r->Ok_0.first_seq == self.next_seq() && r->Ok_0.count
                                == items@.len() && r->Ok_0.bytes@ == log_of(
                                numbered(ops, self.next_seq() as int),
                            )
                        }
                    }),
                },
            },
    {
        self.vec_index()?.check_batch(items)?;
        let mut ops: Vec<WalOp> = Vec::new();
        let mut i: usize = 0;
        while i < items.len()
            invariant
                i <= items@.len(),
                ops@.len() == i,
                forall|j: int|
                    0 <= j < i ==> (#[trigger] ops@[j])@ == (OpView::InsertVector {
                        id: items@[j].0,
                        vector: items@[j].1@,
                    }),
            decreases items@.len() - i,
        {
            ops.push(
                WalOp::InsertVector {
                    id: items[i].0,
                    vector: slice_to_vec(items[i].1.as_slice()),
                },
            );
            i = i + 1;
        }
        proof {
            assert(ops@.map_values(|o: WalOp| o@) =~= insert_ops(items@));
        }
        self.wal.append_batch(ops.as_slice())
    }

    /// The frame that logs the deletion of a vector; an error where there is no index.
    pub fn delete_vector(&self, id: u64) -> (r: Result<PendingAppend>)
        requires
            self.wf(),
            self.next_seq() < u64::MAX,
        ensures
            self.vec_view() is None ==> r is Err && r->Err_0 == StoreError::NotFound,
            self.vec_view() is Some ==> logs(
                self.next_seq(),
                (OpView::DeleteVector { id }),
                r,
            ),
    {
        self.vec_index()?;
        self.wal.append(&WalOp::DeleteVector { id })
    }

    /// The frame that logs a table, under bytes that read back as the batch. Takes the table
    /// that stands under the same name and the count, as the table store holds them: what the
    /// store would refuse does not reach the log, nor does what a stream cannot hold.
    pub fn put_columnar(
        &self,
        table_id: &str,
        batch: &ArrowBatch,
        earlier: &Option<TableMeta>,
        quota: Option<&[u8]>,
    ) -> (r: Result<PendingAppend>)
        requires
            self.next_seq() < u64::MAX,
        ensures
            ({
                let cols = batch_columns(*batch);
                let used = charged(
                    quota_of(file_view(quota)),
                    old_total(*earlier),
                    columns_len(cols),
                    self.col_limit(),
                );
                if !all_fit(cols) {
                    r is Err && unfit(*batch, r->Err_0)
                } else if used is None {
                    r is Err && r->Err_0 == StoreError::QuotaExceeded
                } else if !fits_stream(*batch) {
                    r is Err && r->Err_0 == StoreError::Corrupt(Corruption::SchemaTooLarge)
                } else {
                    exists|ipc: Seq<u8>|
                        ipc_readable(ipc) && ipc_read(ipc) == Some(
                            Some((batch_rows(*batch), cols)),
                        ) && #[trigger] logs(
                            self.next_seq(),
                            (OpView::PutColumnar { table_id: table_id@, ipc }),
                            r,
                        )
                }
            }),
    {
        let limit: u64 = match &self.col {
            Some(c) => c.quota_limit(),
            None => self.quota_limit,
        };
        check_columns(limit, batch, earlier, quota)?;
        let ipc: Vec<u8> = encode_ipc(batch)?;
        let ghost bytes = ipc@;
        let r = self.wal.append(
            &WalOp::PutColumnar { table_id: String::from_str(table_id), ipc },
        );
        proof {
            assert(logs(
                self.next_seq(),
                OpView::PutColumnar { table_id: table_id@, ipc: bytes },
                r,
            ));
        }
        r
    }

    /// Moves the numbering on once frames are durable.
    pub fn logged(&mut self, p: &PendingAppend)
        requires
            old(self).wf(),
            p.first_seq == old(self).next_seq(),
            p.first_seq + p.count <= u64::MAX,
        ensures
            final(self).wf(),
            final(self).next_seq() == p.first_seq + p.count,
            final(self).kv_view() == old(self).kv_view(),
            final(self).vec_view() == old(self).vec_view(),
            final(self).col_view() == old(self).col_view(),
            final(self).limit() == old(self).limit(),
    {
        self.wal.committed(p);
    }

    /// The number of the next log entry.
    pub fn wal_next_seq(&self) -> (r: u64)
        ensures
            r == self.next_seq(),
    {
        self.wal.next_seq()
    }

    /// The key/value store.
    pub fn kv(&self) -> (r: &KvStore)
        ensures
            r@ == self.kv_view(),
    {
        &self.kv
    }

    /// The key/value store, to be written.
    pub fn kv_mut(&mut self) -> (r: &mut KvStore)
        requires
            old(self).wf(),
        ensures
            r@ == old(self).kv_view(),
            final(self).wf(),
            final(self).kv_view() == final(r)@,
            final(self).vec_view() == old(self).vec_view(),
            final(self).col_view() == old(self).col_view(),
            final(self).next_seq() == old(self).next_seq(),
            final(self).limit() == old(self).limit(),
    {
        &mut self.kv
    }

    /// The vector index; an error where there is none.
    pub fn vec_index(&self) -> (r: Result<&VectorIndex>)
        requires
            self.wf(),
        ensures
            self.vec_view() is None ==> r == Err::<&VectorIndex, _>(StoreError::NotFound),
            self.vec_view() matches Some(v) ==> r is Ok && r->Ok_0@ == v && r->Ok_0.wf(),
    {
        match &self.vec {
            Some(v) => Ok(v),
            None => Err(StoreError::NotFound),
        }
    }

    /// The schema of the vector index; an error where there is none.
    pub fn open_vector_index(&self) -> (r: Result<VectorSchema>)
        requires
            self.wf(),
        ensures
            self.vec_view() is None ==> r == Err::<VectorSchema, _>(StoreError::NotFound),
            self.vec_view() matches Some(v) ==> r == Ok::<VectorSchema, StoreError>(v.schema),
    {
        match &self.vec {
            Some(v) => Ok(*v.schema()),
            None => Err(StoreError::NotFound),
        }
    }

    /// Gives the engine a vector index, in the place of the one it had.
    pub fn create_vector_index(&mut self, index: VectorIndex)
        requires
            old(self).wf(),
            index.wf(),
        ensures
            final(self).wf(),
            final(self).vec_view() == Some(index@),
            final(self).kv_view() == old(self).kv_view(),
            final(self).col_view() == old(self).col_view(),
            final(self).next_seq() == old(self).next_seq(),
            final(self).limit() == old(self).limit(),
    {
        self.vec = Some(index);
    }

    /// Takes the vector index out, to be written and put back.
    pub fn take_vector_index(&mut self) -> (r: Result<VectorIndex>)
        requires
            old(self).wf(),
        ensures
            final(self).wf(),
            final(self).vec_view() is None,
            old(self).vec_view() is None ==> r is Err && r->Err_0 == StoreError::NotFound,
            old(self).vec_view() matches Some(v) ==> r is Ok && r->Ok_0@ == v && r->Ok_0.wf(),
            final(self).kv_view() == old(self).kv_view(),
            final(self).col_view() == old(self).col_view(),
            final(self).next_seq() == old(self).next_seq(),
            final(self).limit() == old(self).limit(),
    {
        let mut taken: Option<VectorIndex> = None;
        std::mem::swap(&mut self.vec, &mut taken);
        match taken {
            Some(v) => Ok(v),
            None => Err(StoreError::NotFound),
        }
    }

    /// The columnar store; an error where it is not open.
    pub fn columnar(&self) -> (r: Result<&ColumnarStore>)
        ensures
            self.col_view() is None ==> r == Err::<&ColumnarStore, _>(StoreError::NotFound),
            self.col_view() matches Some(c) ==> r is Ok && r->Ok_0@ == c,
    {
        match &self.col {
            Some(c) => Ok(c),
            None => Err(StoreError::NotFound),
        }
    }

    /// Opens the columnar store.
    pub fn open_columnar(&mut self, store: ColumnarStore)
        requires
            old(self).wf(),
        ensures
            final(self).wf(),
            final(self).col_view() == Some(store@),
            final(self).vec_view() == old(self).vec_view(),
            final(self).kv_view() == old(self).kv_view(),
            final(self).next_seq() == old(self).next_seq(),
            final(self).limit() == old(self).limit(),
    {
        self.col = Some(store);
    }

    /// Takes the columnar store out, to be written and put back.
    pub fn take_columnar(&mut self) -> (r: Result<ColumnarStore>)
        requires
            old(self).wf(),
        ensures
            final(self).wf(),
            final(self).col_view() is None,
            old(self).col_view() is None ==> r is Err && r->Err_0 == StoreError::NotFound,
            old(self).col_view() matches Some(c) ==> r is Ok && r->Ok_0@ == c,
            final(self).vec_view() == old(self).vec_view(),
            final(self).kv_view() == old(self).kv_view(),
            final(self).next_seq() == old(self).next_seq(),
            final(self).limit() == old(self).limit(),
    {
        let mut taken: Option<ColumnarStore> = None;
        std::mem::swap(&mut self.col, &mut taken);
        match taken {
            Some(c) => Ok(c),
            None => Err(StoreError::NotFound),
        }
    }

    /// The limit on the bytes that each store may use.
    pub fn quota_limit(&self) -> (r: u64)
        ensures
            r == self.limit(),
    {
        self.quota_limit
    }

    /// Which entries of the log are still to be replayed.
    pub fn pending_recover_plan(log: &[u8], marker: &Option<CheckpointMarker>) -> (r: Result<
        RecoverPlan,
    >)
        ensures
            plan_result(log@, *marker, r),
    {
        build_recover_plan(log, marker)
    }

    /// Starts a checkpoint of everything that is logged.
    pub fn checkpoint(&self) -> (r: Checkpoint)
        requires
            self.wf(),
        ensures
            r@ == (CheckpointView {
                applied: if self.next_seq() > 0 {
                    (self.next_seq() - 1) as u64
                } else {
                    0
                },
                actions: checkpoint_actions(self.col_view() is Some, self.vec_view() is Some),
                done: 0,
            }),
    {
        Checkpoint::begin(self.wal.next_seq(), self.col.is_some(), self.vec.is_some())
    }

    /// Starts what has to follow a compaction, which is a checkpoint. A compaction frees ids for
    /// other vectors; what the log still says of the earlier ones must not be replayed then.
    pub fn after_compaction(&self) -> (r: Checkpoint)
        requires
            self.wf(),
        ensures
            r@ == (CheckpointView {
                applied: if self.next_seq() > 0 {
                    (self.next_seq() - 1) as u64
                } else {
                    0
                },
                actions: checkpoint_actions(self.col_view() is Some, self.vec_view() is Some),
                done: 0,
            }),
    {
        self.checkpoint()
    }

    /// Starts closing the engine, which is a checkpoint.
    pub fn close(&self) -> (r: Checkpoint)
        requires
            self.wf(),
        ensures
            r@ == (CheckpointView {
                applied: if self.next_seq() > 0 {
                    (self.next_seq() - 1) as u64
                } else {
                    0
                },
                actions: checkpoint_actions(self.col_view() is Some, self.vec_view() is Some),
                done: 0,
            }),
    {
        self.checkpoint()
    }

    /// What the stores take on disk, added up as far as a `u64` goes; a store that is not open
    /// counts nothing.
    pub fn disk_bytes(&self, kv: u64, vec: u64, col: u64) -> (r: u64)
        ensures
            ({
                let total = kv + if self.vec_view() is Some {
                    vec as int
                } else {
                    0
                } + if self.col_view() is Some {
                    col as int
                } else {
                    0
                };
                r == if total <= u64::MAX {
                    total as u64
                } else {
                    u64::MAX
                }
            }),
    {
        let mut total: u64 = kv;
        if self.vec.is_some() {
            total = total.saturating_add(vec);
        }
        if self.col.is_some() {
            total = total.saturating_add(col);
        }
        total
    }
}

} // verus!
