//! What holds of every engine: a crash loses nothing that was logged, replaying is harmless,
//! and a checkpoint cuts the log only when everything in it has reached the disk.

use vstd::prelude::*;
use crate::engine::{
    applied_before, checkpoint_actions, insert_ops, logs, replay_end_actions, replay_of,
    snapshot_name_of, CheckpointAction, RecoveryView, ReplayAction,
};
use crate::error::{Corruption, StoreError};
use crate::mem::wal::{
    after, fits, frame_of, log_of, max_of, read_from, EntryView, OpView, PendingAppend,
};
use crate::mem::wal_laws::{highest_number_is_there, read_inverts_write};
use crate::text::{dec, decimal_text_is_one_to_one};

verus! {

/// What an engine holds: the values, the vectors with whether they are deleted, and the tables.
pub struct StateView {
    pub kv: Map<Seq<u8>, Seq<u8>>,
    pub vecs: Map<u64, (Seq<u32>, bool)>,
    pub tables: Map<Seq<char>, Seq<u8>>,
}

/// A vector after an operation: an insertion counts only where there is none yet, a deletion
/// only where there is one.
pub open spec fn vec_step(o: Option<(Seq<u32>, bool)>, op: OpView, id: u64) -> Option<
    (Seq<u32>, bool),
> {
    match op {
        OpView::InsertVector { id: i, vector } => if i == id && o is None {
            Some((vector, false))
        } else {
            o
        },
        OpView::DeleteVector { id: i } => if i == id && o is Some {
            Some((o->Some_0.0, true))
        } else {
            o
        },
        _ => o,
    }
}

/// The vector under an id.
pub open spec fn vec_of(s: StateView, id: u64) -> Option<(Seq<u32>, bool)> {
    if s.vecs.contains_key(id) {
        Some(s.vecs[id])
    } else {
        None
    }
}

/// The state after an operation that was not refused: what the laws `contents_follow_the_operations`
/// and `vectors_follow_the_operations` say of the stores.
pub open spec fn applied_op(s: StateView, op: OpView) -> StateView {
    match op {
        OpView::PutKv { key, value } => StateView { kv: s.kv.insert(key, value), ..s },
        OpView::DeleteKv { key } => StateView { kv: s.kv.remove(key), ..s },
        OpView::InsertVector { id, vector } => if s.vecs.contains_key(id) {
            s
        } else {
            StateView { vecs: s.vecs.insert(id, (vector, false)), ..s }
        },
        OpView::DeleteVector { id } => if s.vecs.contains_key(id) {
            StateView { vecs: s.vecs.insert(id, (s.vecs[id].0, true)), ..s }
        } else {
            s
        },
        OpView::PutColumnar { table_id, ipc } => StateView {
            tables: s.tables.insert(table_id, ipc),
            ..s
        },
    }
}

/// The state after some operations, in order.
pub open spec fn applied_ops(s: StateView, ops: Seq<OpView>) -> StateView
    decreases ops.len(),
{
    if ops.len() == 0 {
        s
    } else {
        applied_op(applied_ops(s, ops.drop_last()), ops.last())
    }
}

/// What the last operation on a key leaves: a value, nothing, or (`None`) whatever was there.
pub open spec fn kv_effect(ops: Seq<OpView>, key: Seq<u8>) -> Option<Option<Seq<u8>>>
    decreases ops.len(),
{
    if ops.len() == 0 {
        None
    } else {
        match ops.last() {
            OpView::PutKv { key: k, value } if k == key => Some(Some(value)),
            OpView::DeleteKv { key: k } if k == key => Some(None),
            _ => kv_effect(ops.drop_last(), key),
        }
    }
}

/// The last table that some operations put under a name.
pub open spec fn table_effect(ops: Seq<OpView>, table: Seq<char>) -> Option<Seq<u8>>
    decreases ops.len(),
{
    if ops.len() == 0 {
        None
    } else {
        match ops.last() {
            OpView::PutColumnar { table_id, ipc } if table_id == table => Some(ipc),
            _ => table_effect(ops.drop_last(), table),
        }
    }
}

/// A vector after some operations.
pub open spec fn vec_run(o: Option<(Seq<u32>, bool)>, ops: Seq<OpView>, id: u64) -> Option<
    (Seq<u32>, bool),
>
    decreases ops.len(),
{
    if ops.len() == 0 {
        o
    } else {
        vec_step(vec_run(o, ops.drop_last(), id), ops.last(), id)
    }
}

/// Whether some operations delete a vector.
pub open spec fn deletes(ops: Seq<OpView>, id: u64) -> bool {
    exists|i: int| 0 <= i < ops.len() && #[trigger] ops[i] == (OpView::DeleteVector { id })
}

proof fn lemma_effects(s: StateView, ops: Seq<OpView>, key: Seq<u8>, table: Seq<char>, id: u64)
    ensures
        ({
            let t = applied_ops(s, ops);
            &&& match kv_effect(ops, key) {
                Some(Some(v)) => t.kv.contains_key(key) && t.kv[key] == v,
                Some(None) => !t.kv.contains_key(key),
                None => t.kv.contains_key(key) == s.kv.contains_key(key) && (s.kv.contains_key(key)
                    ==> t.kv[key] == s.kv[key]),
            }
            &&& match table_effect(ops, table) {
                Some(v) => t.tables.contains_key(table) && t.tables[table] == v,
                None => t.tables.contains_key(table) == s.tables.contains_key(table) && (
                s.tables.contains_key(table) ==> t.tables[table] == s.tables[table]),
            }
            &&& vec_of(t, id) == vec_run(vec_of(s, id), ops, id)
        }),
    decreases ops.len(),
{
    if ops.len() > 0 {
        lemma_effects(s, ops.drop_last(), key, table, id);
    }
}

proof fn lemma_run_split(o: Option<(Seq<u32>, bool)>, ops: Seq<OpView>, m: int, id: u64)
    requires
        0 <= m <= ops.len(),
    ensures
        vec_run(o, ops, id) == vec_run(vec_run(o, ops.take(m), id), ops.skip(m), id),
    decreases ops.len(),
{
    if m == ops.len() {
        assert(ops.take(m) =~= ops);
        assert(ops.skip(m) =~= Seq::<OpView>::empty());
    } else {
        lemma_run_split(o, ops.drop_last(), m, id);
        assert(ops.drop_last().take(m) =~= ops.take(m));
        assert(ops.drop_last().skip(m) =~= ops.skip(m).drop_last());
    }
}

proof fn lemma_run_there(v: Seq<u32>, gone: bool, ops: Seq<OpView>, id: u64)
    ensures
        vec_run(Some((v, gone)), ops, id) == Some((v, gone || deletes(ops, id))),
    decreases ops.len(),
{
    if ops.len() > 0 {
        let init = ops.drop_last();
        lemma_run_there(v, gone, init, id);
        if deletes(init, id) {
            let i = choose|i: int| 0 <= i < init.len() && #[trigger] init[i] == (
            OpView::DeleteVector { id });
            assert(ops[i] == (OpView::DeleteVector { id }));
        }
        if ops.last() == (OpView::DeleteVector { id }) {
            assert(ops[ops.len() - 1] == (OpView::DeleteVector { id }));
        } else if deletes(ops, id) {
            let i = choose|i: int| 0 <= i < ops.len() && #[trigger] ops[i] == (
            OpView::DeleteVector { id });
            assert(init[i] == (OpView::DeleteVector { id }));
        }
    }
}

/// The vectors of a log on which replaying twice would differ from replaying once: not there at
/// first, live at the end, and yet deleted on the way, which is to say before they came.
pub open spec fn deleted_before_inserted(s: StateView, ops: Seq<OpView>, id: u64) -> bool {
    &&& !s.vecs.contains_key(id)
    &&& applied_ops(s, ops).vecs.contains_key(id)
    &&& !applied_ops(s, ops).vecs[id].1
    &&& deletes(ops, id)
}

/// A crash loses nothing that was logged. Whatever part of the logged operations had reached
/// the stores, replaying them all gives the state in which all were applied.
pub proof fn replay_restores_everything(s: StateView, ops: Seq<OpView>, reached: int)
    requires
        0 <= reached <= ops.len(),
        forall|id: u64| !deleted_before_inserted(s, ops, id),
    ensures
        applied_ops(applied_ops(s, ops.take(reached)), ops) == applied_ops(s, ops),
{
    let part = applied_ops(s, ops.take(reached));
    let twice = applied_ops(part, ops);
    let once = applied_ops(s, ops);
    assert forall|key: Seq<u8>|
        #![trigger twice.kv.dom().contains(key)]
        #![trigger once.kv.dom().contains(key)]
        twice.kv.contains_key(key) == once.kv.contains_key(key) && (once.kv.contains_key(key)
            ==> twice.kv[key] == once.kv[key]) by {
        lemma_effects(s, ops, key, Seq::empty(), 0);
        lemma_effects(part, ops, key, Seq::empty(), 0);
        lemma_effects(s, ops.take(reached), key, Seq::empty(), 0);
        lemma_no_kv_effect(ops, key, reached);
    }
    assert(twice.kv =~= once.kv);
    assert forall|table: Seq<char>|
        #![trigger twice.tables.dom().contains(table)]
        #![trigger once.tables.dom().contains(table)]
        twice.tables.contains_key(table) == once.tables.contains_key(table) && (
        once.tables.contains_key(table) ==> twice.tables[table] == once.tables[table]) by {
        lemma_effects(s, ops, Seq::empty(), table, 0);
        lemma_effects(part, ops, Seq::empty(), table, 0);
        lemma_effects(s, ops.take(reached), Seq::empty(), table, 0);
        lemma_no_table_effect(ops, table, reached);
    }
    assert(twice.tables =~= once.tables);
    assert forall|id: u64| vec_of(twice, id) == vec_of(once, id) by {
        lemma_effects(s, ops, Seq::empty(), Seq::empty(), id);
        lemma_effects(part, ops, Seq::empty(), Seq::empty(), id);
        lemma_effects(s, ops.take(reached), Seq::empty(), Seq::empty(), id);
        lemma_run_split(vec_of(s, id), ops, reached, id);
        assert(!deleted_before_inserted(s, ops, id));
        match vec_of(part, id) {
            None => {
                if vec_of(s, id) is Some {
                    let (v, gone) = vec_of(s, id)->Some_0;
                    lemma_run_there(v, gone, ops.take(reached), id);
                }
            },
            Some((v, gone)) => {
                lemma_run_there(v, gone, ops, id);
                lemma_run_there(v, gone, ops.skip(reached), id);
                lemma_deletes_split(ops, reached, id);
                if vec_of(s, id) is Some {
                    let (w, was) = vec_of(s, id)->Some_0;
                    lemma_run_there(w, was, ops, id);
                    lemma_run_there(w, was, ops.take(reached), id);
                }
            },
        }
    }
    assert(twice.vecs =~= once.vecs) by {
        assert forall|id: u64|
            #![trigger twice.vecs.dom().contains(id)]
            #![trigger once.vecs.dom().contains(id)]
            twice.vecs.contains_key(id) == once.vecs.contains_key(id) && (once.vecs.contains_key(
                id,
            ) ==> twice.vecs[id] == once.vecs[id]) by {
            assert(vec_of(twice, id) == vec_of(once, id));
        }
    }
}

proof fn lemma_no_kv_effect(ops: Seq<OpView>, key: Seq<u8>, m: int)
    requires
        0 <= m <= ops.len(),
    ensures
        kv_effect(ops, key) is None ==> kv_effect(ops.take(m), key) is None,
    decreases ops.len(),
{
    if m < ops.len() {
        lemma_no_kv_effect(ops.drop_last(), key, m);
        assert(ops.drop_last().take(m) =~= ops.take(m));
    } else {
        assert(ops.take(m) =~= ops);
    }
}

proof fn lemma_no_table_effect(ops: Seq<OpView>, table: Seq<char>, m: int)
    requires
        0 <= m <= ops.len(),
    ensures
        table_effect(ops, table) is None ==> table_effect(ops.take(m), table) is None,
    decreases ops.len(),
{
    if m < ops.len() {
        lemma_no_table_effect(ops.drop_last(), table, m);
        assert(ops.drop_last().take(m) =~= ops.take(m));
    } else {
        assert(ops.take(m) =~= ops);
    }
}

proof fn lemma_deletes_split(ops: Seq<OpView>, m: int, id: u64)
    requires
        0 <= m <= ops.len(),
    ensures
        deletes(ops.skip(m), id) ==> deletes(ops, id),
        deletes(ops.take(m), id) ==> deletes(ops, id),
{
    if deletes(ops.skip(m), id) {
        let s = ops.skip(m);
        let i = choose|i: int| 0 <= i < s.len() && #[trigger] s[i] == (OpView::DeleteVector { id });
        assert(ops[i + m] == (OpView::DeleteVector { id }));
    }
    if deletes(ops.take(m), id) {
        let s = ops.take(m);
        let i = choose|i: int| 0 <= i < s.len() && #[trigger] s[i] == (OpView::DeleteVector { id });
        assert(ops[i] == (OpView::DeleteVector { id }));
    }
}

/// Replaying a log that has been replayed changes nothing.
pub proof fn replay_is_idempotent(s: StateView, ops: Seq<OpView>)
    requires
        forall|id: u64| !deleted_before_inserted(s, ops, id),
    ensures
        applied_ops(applied_ops(s, ops), ops) == applied_ops(s, ops),
{
    replay_restores_everything(s, ops, ops.len() as int);
    assert(ops.take(ops.len() as int) =~= ops);
}

/// Operations that the engine has let into the log: a vector is put in only where there is none
/// under its id.
pub open spec fn accepted(s: StateView, ops: Seq<OpView>) -> bool
    decreases ops.len(),
{
    ops.len() > 0 ==> accepted(s, ops.drop_last()) && (ops.last() matches OpView::InsertVector {
        id,
        vector,
    } ==> !applied_ops(s, ops.drop_last()).vecs.contains_key(id))
}

/// The state after a compaction: the deleted vectors are gone.
pub open spec fn compacted_state(s: StateView) -> StateView {
    StateView {
        vecs: Map::new(|id: u64| s.vecs.contains_key(id) && !s.vecs[id].1, |id: u64| s.vecs[id]),
        ..s
    }
}

/// A vector that was there from the start is not put in again, so without it nothing comes.
proof fn lemma_run_without(s: StateView, ops: Seq<OpView>, id: u64)
    requires
        accepted(s, ops),
        s.vecs.contains_key(id),
    ensures
        vec_run(None, ops, id) is None,
        applied_ops(s, ops).vecs.contains_key(id),
    decreases ops.len(),
{
    if ops.len() > 0 {
        lemma_run_without(s, ops.drop_last(), id);
    }
}

/// Replaying what was logged before a compaction onto the compacted state changes nothing that
/// can be read: no deleted vector comes back, none that is live is lost. So a crash between the
/// compaction and the checkpoint that follows it is harmless.
pub proof fn replaying_onto_a_compacted_state(s: StateView, ops: Seq<OpView>)
    requires
        accepted(s, ops),
        forall|id: u64| !deleted_before_inserted(s, ops, id),
    ensures
        ({
            let t = compacted_state(applied_ops(s, ops));
            compacted_state(applied_ops(t, ops)) == t
        }),
{
    let once = applied_ops(s, ops);
    let t = compacted_state(once);
    let twice = applied_ops(t, ops);
    let back = compacted_state(twice);
    assert forall|key: Seq<u8>|
        #![trigger back.kv.dom().contains(key)]
        #![trigger t.kv.dom().contains(key)]
        back.kv.contains_key(key) == t.kv.contains_key(key) && (t.kv.contains_key(key)
            ==> back.kv[key] == t.kv[key]) by {
        lemma_effects(s, ops, key, Seq::empty(), 0);
        lemma_effects(t, ops, key, Seq::empty(), 0);
    }
    assert(back.kv =~= t.kv);
    assert forall|table: Seq<char>|
        #![trigger back.tables.dom().contains(table)]
        #![trigger t.tables.dom().contains(table)]
        back.tables.contains_key(table) == t.tables.contains_key(table) && (
        t.tables.contains_key(table) ==> back.tables[table] == t.tables[table]) by {
        lemma_effects(s, ops, Seq::empty(), table, 0);
        lemma_effects(t, ops, Seq::empty(), table, 0);
    }
    assert(back.tables =~= t.tables);
    assert forall|id: u64|
        #![trigger back.vecs.dom().contains(id)]
        #![trigger t.vecs.dom().contains(id)]
        back.vecs.contains_key(id) == t.vecs.contains_key(id) && (t.vecs.contains_key(id)
            ==> back.vecs[id] == t.vecs[id]) by {
        lemma_effects(s, ops, Seq::empty(), Seq::empty(), id);
        lemma_effects(t, ops, Seq::empty(), Seq::empty(), id);
        assert(!deleted_before_inserted(s, ops, id));
        if s.vecs.contains_key(id) {
            let (v, gone) = s.vecs[id];
            lemma_run_there(v, gone, ops, id);
            lemma_run_without(s, ops, id);
        }
        if t.vecs.contains_key(id) {
            let (v, gone) = t.vecs[id];
            lemma_run_there(v, gone, ops, id);
        }
    }
    assert(back.vecs =~= t.vecs);
}

/// The operations of some entries.
pub open spec fn ops_of(entries: Seq<EntryView>) -> Seq<OpView> {
    entries.map_values(|e: EntryView| e.op)
}

/// Only what lies behind the checkpoint is replayed: the entries up to it are in the state
/// already, and replaying the rest on top of them gives the state of the whole log.
pub proof fn checkpoint_and_replay_give_the_whole_log(
    s: StateView,
    entries: Seq<EntryView>,
    applied: u64,
    k: int,
)
    requires
        0 <= k <= entries.len(),
        forall|i: int| 0 <= i < entries.len() ==> ((#[trigger] entries[i]).seq <= applied <==> i < k),
    ensures
        applied_ops(
            applied_ops(s, ops_of(entries.take(k))),
            ops_of(after(entries, applied)),
        ) == applied_ops(s, ops_of(entries)),
    decreases entries.len(),
{
    if entries.len() == 0 {
        assert(entries.take(k) =~= entries);
        assert(ops_of(after(entries, applied)) =~= Seq::<OpView>::empty());
        assert(ops_of(entries) =~= Seq::<OpView>::empty());
    } else {
        let init = entries.drop_last();
        let last = entries.last();
        assert(last == entries[entries.len() - 1]);
        if k == entries.len() {
            lemma_none_after(entries, applied);
            assert(entries.take(k) =~= entries);
            assert(ops_of(after(entries, applied)) =~= Seq::<OpView>::empty());
        } else {
            assert forall|i: int| 0 <= i < init.len() implies ((#[trigger] init[i]).seq <= applied
                <==> i < k) by {
                assert(init[i] == entries[i]);
            }
            checkpoint_and_replay_give_the_whole_log(s, init, applied, k);
            assert(init.take(k) =~= entries.take(k));
            let tail = ops_of(after(init, applied));
            assert(ops_of(after(entries, applied)) =~= tail.push(last.op));
            assert(tail.push(last.op).drop_last() =~= tail);
            assert(ops_of(entries).drop_last() =~= ops_of(init));
            assert(ops_of(entries).last() == last.op);
        }
    }
}

proof fn lemma_none_after(entries: Seq<EntryView>, applied: u64)
    requires
        forall|i: int| 0 <= i < entries.len() ==> (#[trigger] entries[i]).seq <= applied,
    ensures
        after(entries, applied).len() == 0,
    decreases entries.len(),
{
    if entries.len() > 0 {
        assert(entries.last() == entries[entries.len() - 1]);
        assert forall|i: int| 0 <= i < entries.drop_last().len() implies (
        #[trigger] entries.drop_last()[i]).seq <= applied by {
            assert(entries.drop_last()[i] == entries[i]);
        }
        lemma_none_after(entries.drop_last(), applied);
    }
}

/// The log is cut last, after the marker, which comes after every store that is open has
/// reached the disk. At the end of a replay it is cut last too, so that what was replayed is
/// not lost when the engine stops before its next checkpoint.
pub proof fn checkpoint_cuts_the_log_last(col_open: bool, vec_open: bool, i: int)
    ensures
        ({
            let actions = checkpoint_actions(col_open, vec_open);
            let n = actions.len() as int;
            0 <= i < n ==> {
                &&& actions[i] == CheckpointAction::TruncateLog <==> i == n - 1
                &&& actions[i] == CheckpointAction::WriteMarker <==> i == n - 2
                &&& actions.contains(CheckpointAction::FlushKv)
                &&& actions.contains(CheckpointAction::FlushColumnar) <==> col_open
                &&& actions.contains(CheckpointAction::SnapshotVectors) <==> vec_open
            }
        }),
        ({
            let actions = replay_end_actions(col_open, vec_open);
            let n = actions.len() as int;
            0 <= i < n ==> {
                &&& actions[i] == CheckpointAction::TruncateLog <==> i == n - 1
                &&& actions[i] != CheckpointAction::WriteMarker
                &&& actions.contains(CheckpointAction::FlushKv)
                &&& actions.contains(CheckpointAction::FlushColumnar) <==> col_open
                &&& actions.contains(CheckpointAction::SnapshotVectors) <==> vec_open
            }
        }),
{
    let actions = checkpoint_actions(col_open, vec_open);
    let end = replay_end_actions(col_open, vec_open);
    assert(actions[0] == CheckpointAction::FlushKv);
    assert(end[0] == CheckpointAction::FlushKv);
    if col_open {
        assert(actions[1] == CheckpointAction::FlushColumnar);
        assert(end[1] == CheckpointAction::FlushColumnar);
        if vec_open {
            assert(actions[2] == CheckpointAction::SnapshotVectors);
            assert(end[2] == CheckpointAction::SnapshotVectors);
        }
    } else if vec_open {
        assert(actions[1] == CheckpointAction::SnapshotVectors);
        assert(end[1] == CheckpointAction::SnapshotVectors);
    }
}

/// What an action on the stores makes of the state, with what an operation holds. An action that
/// does not go with the operation makes nothing of it.
pub open spec fn performed(s: StateView, action: ReplayAction, op: OpView) -> StateView {
    match (action, op) {
        (ReplayAction::PutKv, OpView::PutKv { key, value }) => StateView {
            kv: s.kv.insert(key, value),
            ..s
        },
        (ReplayAction::DeleteKv, OpView::DeleteKv { key }) => StateView {
            kv: s.kv.remove(key),
            ..s
        },
        (ReplayAction::InsertVector, OpView::InsertVector { id, vector }) => if s.vecs.contains_key(
            id,
        ) {
            s
        } else {
            StateView { vecs: s.vecs.insert(id, (vector, false)), ..s }
        },
        (ReplayAction::DeleteVector, OpView::DeleteVector { id }) => if s.vecs.contains_key(id) {
            StateView { vecs: s.vecs.insert(id, (s.vecs[id].0, true)), ..s }
        } else {
            s
        },
        (ReplayAction::PutColumnar { open_first }, OpView::PutColumnar { table_id, ipc }) => {
            StateView { tables: s.tables.insert(table_id, ipc), ..s }
        },
        _ => s,
    }
}

/// Replaying is total and faithful. Where the vector index is open, every logged operation is
/// replayed by the action of its own kind, whether the columnar store is open or not; without an
/// index, only the operations on vectors are refused. A columnar store that is not open is opened
/// for a table, and for nothing else.
pub proof fn replaying_is_total_and_faithful(
    s: StateView,
    op: OpView,
    vec_open: bool,
    col_open: bool,
)
    ensures
        vec_open || !(op is InsertVector || op is DeleteVector) ==> replay_of(
            op,
            vec_open,
            col_open,
        ) is Ok,
        !vec_open && (op is InsertVector || op is DeleteVector) ==> replay_of(
            op,
            vec_open,
            col_open,
        ) == Err::<ReplayAction, _>(StoreError::NotFound),
        replay_of(op, vec_open, col_open) matches Ok(action) ==> {
            &&& performed(s, action, op) == applied_op(s, op)
            &&& action is PutKv <==> op is PutKv
            &&& action is DeleteKv <==> op is DeleteKv
            &&& action is InsertVector <==> op is InsertVector
            &&& action is DeleteVector <==> op is DeleteVector
            &&& action is PutColumnar <==> op is PutColumnar
            &&& action matches ReplayAction::PutColumnar { open_first } ==> open_first == !col_open
        },
{
}

/// The state after a replay of some operations, each by its action, and whether the columnar store
/// is open then; `None` where one was refused.
pub open spec fn replayed(s: StateView, ops: Seq<OpView>, vec_open: bool, col_open: bool) -> Option<
    (StateView, bool),
>
    decreases ops.len(),
{
    if ops.len() == 0 {
        Some((s, col_open))
    } else {
        match replayed(s, ops.drop_last(), vec_open, col_open) {
            None => None,
            Some((t, open)) => match replay_of(ops.last(), vec_open, open) {
                Err(_) => None,
                Ok(action) => Some(
                    (performed(t, action, ops.last()), open || action is PutColumnar),
                ),
            },
        }
    }
}

/// Replaying a whole plan ends in the state in which all its operations were applied, with the
/// columnar store open if it was or if a table was among them. It is refused only where there is a
/// vector and no index.
pub proof fn replaying_a_plan_applies_it(
    s: StateView,
    ops: Seq<OpView>,
    vec_open: bool,
    col_open: bool,
)
    requires
        vec_open || forall|i: int|
            0 <= i < ops.len() ==> !((#[trigger] ops[i]) is InsertVector || ops[i] is DeleteVector),
    ensures
        replayed(s, ops, vec_open, col_open) is Some,
        replayed(s, ops, vec_open, col_open)->Some_0.0 == applied_ops(s, ops),
        replayed(s, ops, vec_open, col_open)->Some_0.1 <==> col_open || exists|i: int|
            0 <= i < ops.len() && (#[trigger] ops[i]) is PutColumnar,
    decreases ops.len(),
{
    if ops.len() > 0 {
        let init = ops.drop_last();
        let last = ops.last();
        assert(ops[ops.len() - 1] == last);
        assert forall|i: int| !vec_open && 0 <= i < init.len() implies !((
        #[trigger] init[i]) is InsertVector || init[i] is DeleteVector) by {
            assert(init[i] == ops[i]);
        }
        replaying_a_plan_applies_it(s, init, vec_open, col_open);
        let (t, open) = replayed(s, init, vec_open, col_open)->Some_0;
        replaying_is_total_and_faithful(t, last, vec_open, open);
        if exists|i: int| 0 <= i < init.len() && (#[trigger] init[i]) is PutColumnar {
            let i = choose|i: int| 0 <= i < init.len() && (#[trigger] init[i]) is PutColumnar;
            assert(ops[i] is PutColumnar);
        }
        if exists|i: int| 0 <= i < ops.len() && (#[trigger] ops[i]) is PutColumnar {
            let i = choose|i: int| 0 <= i < ops.len() && (#[trigger] ops[i]) is PutColumnar;
            if i < init.len() {
                assert(init[i] is PutColumnar);
            }
        }
    }
}

/// An error that a replay passes over means that there is nothing left to do: it is that of a
/// vector that is there already, and inserting one that is there changes nothing. No other error
/// is passed over.
pub proof fn only_harmless_errors_are_passed_over(s: StateView, op: OpView, e: StoreError)
    ensures
        applied_before(op, e) <==> (op is InsertVector && e is DuplicateVector),
        applied_before(op, e) && s.vecs.contains_key(op->InsertVector_id) ==> applied_op(s, op)
            == s,
{
}

/// The log is cut where the replay has reached: no replayed entry has a higher number, nor has the
/// checkpoint before it, and one of them has this very number.
pub proof fn a_replay_reaches_its_entries(r: RecoveryView)
    requires
        r.done <= r.entries.len(),
    ensures
        r.reached() >= r.applied,
        forall|i: int| 0 <= i < r.done ==> (#[trigger] r.entries[i]).seq <= r.reached(),
        r.reached() == r.applied || exists|i: int|
            0 <= i < r.done && (#[trigger] r.entries[i]).seq == r.reached(),
{
    let part = r.entries.take(r.done as int);
    highest_number_is_there(part);
    assert forall|i: int| 0 <= i < r.done implies (#[trigger] r.entries[i]).seq <= r.reached() by {
        assert(part[i] == r.entries[i]);
    }
    if r.reached() != r.applied {
        let i = choose|i: int| 0 <= i < part.len() && (#[trigger] part[i]).seq == max_of(part);
        assert(r.entries[i].seq == r.reached());
    }
}

/// A checkpoint does each thing once: the stores that are open, the key/value store first, the
/// tables next and the vectors last, then the marker, then the log. The end of a replay does the same without the marker.
pub proof fn checkpoints_do_each_thing_once(col_open: bool, vec_open: bool)
    ensures
        ({
            let actions = checkpoint_actions(col_open, vec_open);
            let end = replay_end_actions(col_open, vec_open);
            &&& actions.len() == 3 + (if col_open {
                1int
            } else {
                0
            }) + (if vec_open {
                1int
            } else {
                0
            })
            &&& end.len() == actions.len() - 1
            &&& actions.no_duplicates()
            &&& end.no_duplicates()
            &&& actions[0] == CheckpointAction::FlushKv
            &&& end[0] == CheckpointAction::FlushKv
            &&& forall|i: int| 0 <= i < end.len() - 1 ==> #[trigger] end[i] == actions[i]
            &&& col_open ==> actions[1] == CheckpointAction::FlushColumnar
            &&& vec_open ==> actions[actions.len() - 3] == CheckpointAction::SnapshotVectors
        }),
{
}

/// What is logged reads back: the bytes of a frame are those of one entry, under the number it was
/// given, with the operation that was logged. A frame is refused only where the operation does not
/// fit one.
pub proof fn logged_operations_read_back(
    seq: u64,
    op: OpView,
    r: crate::error::Result<PendingAppend>,
)
    requires
        logs(seq, op, r),
    ensures
        r is Ok <==> fits(op),
        r is Ok ==> r->Ok_0.first_seq == seq && r->Ok_0.count == 1 && read_from(
            r->Ok_0.bytes@,
            0,
        ) == Ok::<(Seq<EntryView>, int), Corruption>(
            (seq![EntryView { seq, op }], r->Ok_0.bytes@.len() as int),
        ),
{
    if fits(op) {
        let e = EntryView { seq, op };
        let es = seq![e];
        assert(es.drop_last() =~= Seq::<EntryView>::empty());
        assert(log_of(Seq::<EntryView>::empty()) =~= Seq::<u8>::empty());
        assert(Seq::<u8>::empty() + frame_of(seq, op) =~= frame_of(seq, op));
        assert(log_of(es) == frame_of(seq, op));
        read_inverts_write(es);
    }
}

/// A batch of vectors is logged vector by vector, in order.
pub proof fn batches_log_every_vector(items: Seq<(u64, Vec<u32>)>)
    ensures
        insert_ops(items).len() == items.len(),
        forall|i: int|
            0 <= i < items.len() ==> #[trigger] insert_ops(items)[i] == (OpView::InsertVector {
                id: items[i].0,
                vector: items[i].1@,
            }),
{
}

/// Checkpoints at different numbers know their snapshots under different names.
pub proof fn snapshots_have_names_of_their_own(a: u64, b: u64)
    requires
        snapshot_name_of(a) == snapshot_name_of(b),
    ensures
        a == b,
{
    let before = "nsw_checkpoint_"@;
    let behind = ".mmap"@;
    let x = snapshot_name_of(a);
    let y = snapshot_name_of(b);
    assert(dec(a as nat) =~= x.subrange(before.len() as int, x.len() - behind.len()));
    assert(dec(b as nat) =~= y.subrange(before.len() as int, y.len() - behind.len()));
    decimal_text_is_one_to_one(a as nat, b as nat);
}

} // verus!
