//! Recovery: which entries of the log are to be replayed, and the log once they have been.

use vstd::prelude::*;
use crate::error::{Result, StoreError};
use crate::mem::wal::{
    after, applied_of, entries_view, log_of, read_from, scan, CheckpointMarker, EntryView, Wal,
    WalEntry,
};

verus! {

/// The entries behind the last checkpoint, in order.
pub struct RecoverPlan {
    pub entries: Vec<WalEntry>,
    pub applied_seq: u64,
}

/// `r` plans the replay of a log under a marker.
pub open spec fn plan_result(
    log: Seq<u8>,
    marker: Option<CheckpointMarker>,
    r: Result<RecoverPlan>,
) -> bool {
    match read_from(log, 0) {
        Ok((es, _)) => r is Ok && r->Ok_0.applied_seq == applied_of(marker) && entries_view(
            r->Ok_0.entries@,
        ) == after(es, applied_of(marker)),
        Err(c) => r is Err && r->Err_0 == StoreError::Corrupt(c),
    }
}

/// Plans the replay of a log: the entries behind the marker's checkpoint, all of them where
/// there is no marker. The log stays as it is.
pub fn build_recover_plan(log: &[u8], marker: &Option<CheckpointMarker>) -> (r: Result<
    RecoverPlan,
>)
    ensures
        plan_result(log@, *marker, r),
{
    let applied_seq: u64 = match marker {
        Some(m) => m.applied_seq,
        None => 0,
    };
    let (all, _) = scan(log)?;
    Ok(RecoverPlan { entries: keep_after(all, applied_seq), applied_seq })
}

/// The entries with a number above `applied`, in order.
fn keep_after(all: Vec<WalEntry>, applied: u64) -> (r: Vec<WalEntry>)
    ensures
        entries_view(r@) == after(entries_view(all@), applied),
{
    let ghost es = entries_view(all@);
    let mut left: Vec<WalEntry> = all;
    let mut down: Vec<WalEntry> = Vec::new();
    proof {
        assert(entries_view(down@).reverse() =~= Seq::<EntryView>::empty());
        assert(after(es, applied) + Seq::<EntryView>::empty() =~= after(es, applied));
    }
    while left.len() > 0
        invariant
            after(entries_view(left@), applied) + entries_view(down@).reverse() == after(
                es,
                applied,
            ),
        decreases left@.len(),
    {
        let ghost before = entries_view(left@);
        let ghost d0 = entries_view(down@);
        if let Some(e) = left.pop() {
            let ghost ev = e@;
            proof {
                assert(before.last() == ev);
                assert(before.drop_last() =~= entries_view(left@));
            }
            if e.seq > applied {
                down.push(e);
                proof {
                    assert(entries_view(down@).reverse() =~= seq![ev] + d0.reverse());
                    assert(after(entries_view(left@), applied) + (seq![ev] + d0.reverse())
                        =~= after(entries_view(left@), applied).push(ev) + d0.reverse());
                }
            }
        }
    }
    proof {
        assert(entries_view(left@) =~= Seq::<EntryView>::empty());
        assert(after(entries_view(left@), applied) + entries_view(down@).reverse()
            =~= entries_view(down@).reverse());
    }
    let mut up: Vec<WalEntry> = Vec::new();
    let ghost all_down = entries_view(down@);
    proof {
        assert(entries_view(up@) + all_down.reverse() =~= all_down.reverse());
    }
    while down.len() > 0
        invariant
            entries_view(up@) + entries_view(down@).reverse() == all_down.reverse(),
        decreases down@.len(),
    {
        let ghost u0 = entries_view(up@);
        let ghost d0 = entries_view(down@);
        if let Some(e) = down.pop() {
            let ghost ev = e@;
            up.push(e);
            proof {
                assert(entries_view(up@) =~= u0.push(ev));
                assert(d0 =~= entries_view(down@).push(ev));
                assert(d0.reverse() =~= seq![ev] + entries_view(down@).reverse());
                assert(entries_view(up@) + entries_view(down@).reverse() =~= u0 + d0.reverse());
            }
        }
    }
    proof {
        assert(entries_view(up@) + entries_view(down@).reverse() =~= entries_view(up@));
    }
    up
}

/// The log once the replay has been done up to `applied_seq`; `None` where it stays as it is.
pub fn finalize_recover(log: &[u8], applied_seq: u64) -> (r: Result<Option<Vec<u8>>>)
    ensures
        match read_from(log@, 0) {
            Ok((es, _)) => if es.len() == 0 {
                r matches Ok(None)
            } else {
                r matches Ok(Some(kept)) && kept@ == log_of(after(es, applied_seq))
            },
            Err(c) => r is Err && r->Err_0 == StoreError::Corrupt(c),
        },
{
    Wal::truncate_to(log, applied_seq)
}

/// Planning twice gives the same plan.
pub proof fn planning_is_idempotent(
    log: Seq<u8>,
    marker: Option<CheckpointMarker>,
    a: Result<RecoverPlan>,
    b: Result<RecoverPlan>,
)
    requires
        plan_result(log, marker, a),
        plan_result(log, marker, b),
    ensures
        a is Ok <==> b is Ok,
        a is Ok ==> entries_view(a->Ok_0.entries@) == entries_view(b->Ok_0.entries@)
            && a->Ok_0.applied_seq == b->Ok_0.applied_seq,
        a is Err ==> a->Err_0 == b->Err_0,
{
}

/// What is planned to be replayed is what the log holds behind the checkpoint: every entry with a
/// higher number than the marker's, or than 0 where there is none, and no other.
pub proof fn plans_hold_what_is_behind_the_checkpoint(
    log: Seq<u8>,
    marker: Option<CheckpointMarker>,
    r: Result<RecoverPlan>,
)
    requires
        plan_result(log, marker, r),
        read_from(log, 0) is Ok,
    ensures
        r is Ok,
        marker is None ==> r->Ok_0.applied_seq == 0,
        marker matches Some(m) ==> r->Ok_0.applied_seq == m.applied_seq,
        forall|e: EntryView| #[trigger]
            entries_view(r->Ok_0.entries@).contains(e) <==> read_from(log, 0)->Ok_0.0.contains(e)
                && e.seq > r->Ok_0.applied_seq,
{
    let es = read_from(log, 0)->Ok_0.0;
    crate::mem::wal_laws::after_keeps_exactly(es, applied_of(marker));
    assert forall|e: EntryView| #[trigger]
        entries_view(r->Ok_0.entries@).contains(e) <==> es.contains(e) && e.seq
            > r->Ok_0.applied_seq by {
        assert(after(es, applied_of(marker)).contains(e) <==> es.contains(e) && e.seq
            > applied_of(marker));
    }
}

} // verus!
