//! What the commands print.

use vstd::prelude::*;
use vstd::string::StringExecFns;
use crate::compact::CompactResult;
use crate::mem::recover::RecoverPlan;
use crate::serve::health::StatsResp;
use crate::text::{dec, push_dec};

verus! {

/// The exit code of a read that finds nothing.
pub const NOT_FOUND_EXIT: i32 = 2;

/// What a finished compaction prints.
pub fn compact_line(c: &CompactResult) -> (r: String)
    ensures
        r@ == "compact ok: live_vectors="@ + dec(c.live_vectors as nat) + ", reclaimable_segs="@
            + dec(c.reclaimable_segs@.len()),
{
    let mut out: String = String::from_str("compact ok: live_vectors=");
    push_dec(&mut out, c.live_vectors as u64);
    out.append(", reclaimable_segs=");
    push_dec(&mut out, c.reclaimable_segs.len() as u64);
    out
}

/// Whether a compaction is followed by the removal of old segments: where it was asked for and
/// there are any.
pub fn reclaims_now(asked: bool, c: &CompactResult) -> (r: bool)
    ensures
        r == (asked && c.reclaimable_segs@.len() > 0),
{
    asked && c.reclaimable_segs.len() > 0
}

/// What is said of old segments: how many were removed, or that they wait; nothing where there
/// are none.
pub open spec fn reclaim_text(old_segs: nat, reclaimed: Option<usize>) -> Option<Seq<char>> {
    match reclaimed {
        Some(n) => Some(
            if n < old_segs {
                "reclaimed "@ + dec(n as nat) + " of "@ + dec(old_segs) + " old segment(s); "@
                    + dec((old_segs - n) as nat)
                    + " skipped (sealed < safety period, retry later)"@
            } else {
                "reclaimed "@ + dec(n as nat) + " old segment(s)"@
            },
        ),
        None => if old_segs > 0 {
            Some(
                "note: old segments pending reclaim (safety period). pass --reclaim-now to delete."@,
            )
        } else {
            None
        },
    }
}

pub fn reclaim_line(c: &CompactResult, reclaimed: Option<usize>) -> (r: Option<String>)
    ensures
        match reclaim_text(c.reclaimable_segs@.len(), reclaimed) {
            Some(t) => r is Some && r->Some_0@ == t,
            None => r is None,
        },
{
    let old_segs: usize = c.reclaimable_segs.len();
    match reclaimed {
        Some(n) => {
            let mut out: String = String::from_str("reclaimed ");
            push_dec(&mut out, n as u64);
            if n < old_segs {
                out.append(" of ");
                push_dec(&mut out, old_segs as u64);
                out.append(" old segment(s); ");
                push_dec(&mut out, (old_segs - n) as u64);
                out.append(" skipped (sealed < safety period, retry later)");
            } else {
                out.append(" old segment(s)");
            }
            Some(out)
        },
        None => {
            if old_segs > 0 {
                Some(
                    String::from_str(
                        "note: old segments pending reclaim (safety period). pass --reclaim-now to delete.",
                    ),
                )
            } else {
                None
            }
        },
    }
}

/// What a look at the log prints first.
pub fn plan_line(plan: &RecoverPlan) -> (r: String)
    ensures
        r@ == "recover plan: applied_seq="@ + dec(plan.applied_seq as nat) + ", to_replay="@ + dec(
            plan.entries@.len(),
        ),
{
    let mut out: String = String::from_str("recover plan: applied_seq=");
    push_dec(&mut out, plan.applied_seq);
    out.append(", to_replay=");
    push_dec(&mut out, plan.entries.len() as u64);
    out
}

/// What a recovery prints: what is still to be replayed behind it.
pub fn recover_line(after: &RecoverPlan) -> (r: String)
    ensures
        r@ == if after.entries@.len() == 0 {
            "recover ok: WAL replayed + truncated, nothing pending"@
        } else {
            "recover ok: "@ + dec(after.entries@.len()) + " entry(ies) still pending after open"@
        },
{
    if after.entries.len() == 0 {
        return String::from_str("recover ok: WAL replayed + truncated, nothing pending");
    }
    let mut out: String = String::from_str("recover ok: ");
    push_dec(&mut out, after.entries.len() as u64);
    out.append(" entry(ies) still pending after open");
    out
}

/// What a put prints: the key and how long the value is.
pub fn put_line(key: &str, value_len: usize) -> (r: String)
    ensures
        r@ == "put ok: "@ + key@ + " ("@ + dec(value_len as nat) + "B)"@,
{
    let mut out: String = String::from_str("put ok: ");
    out.append(key);
    out.append(" (");
    push_dec(&mut out, value_len as u64);
    out.append("B)");
    out
}

/// The statistics of a namespace, a line each.
pub open spec fn stats_text(ns: Seq<char>, s: StatsResp) -> Seq<char> {
    "namespace: "@ + ns + "\nkv_used_bytes: "@ + dec(s.kv_used_bytes as nat) + "\nkv_quota: "@
        + dec(s.kv_quota as nat) + "\nkv_disk_bytes: "@ + dec(s.kv_disk_bytes as nat)
        + "\nvec_disk_bytes: "@ + dec(s.vec_disk_bytes as nat) + "\nvector_count: "@ + dec(
        s.vector_count as nat,
    ) + "\nvector_dim: "@ + dec(s.vector_dim as nat) + "\ngraph_memory_bytes: "@ + dec(
        s.graph_memory_bytes as nat,
    )
}

pub fn stats_lines(ns: &str, s: &StatsResp) -> (r: String)
    ensures
        r@ == stats_text(ns@, *s),
{
    let mut out: String = String::from_str("namespace: ");
    out.append(ns);
    out.append("\nkv_used_bytes: ");
    push_dec(&mut out, s.kv_used_bytes);
    out.append("\nkv_quota: ");
    push_dec(&mut out, s.kv_quota);
    out.append("\nkv_disk_bytes: ");
    push_dec(&mut out, s.kv_disk_bytes);
    out.append("\nvec_disk_bytes: ");
    push_dec(&mut out, s.vec_disk_bytes);
    out.append("\nvector_count: ");
    push_dec(&mut out, s.vector_count as u64);
    out.append("\nvector_dim: ");
    push_dec(&mut out, s.vector_dim as u64);
    out.append("\ngraph_memory_bytes: ");
    push_dec(&mut out, s.graph_memory_bytes as u64);
    out
}

/// Old segments are spoken of exactly where there are any or their removal was tried.
pub proof fn old_segments_are_spoken_of(old_segs: nat, reclaimed: Option<usize>)
    ensures
        reclaim_text(old_segs, reclaimed) is None <==> reclaimed is None && old_segs == 0,
        reclaimed matches Some(n) ==> n < old_segs ==> reclaim_text(old_segs, reclaimed)
            != reclaim_text(n as nat, reclaimed),
{
    if let Some(n) = reclaimed {
        if n < old_segs {
            reveal_strlit("reclaimed ");
            reveal_strlit(" of ");
            reveal_strlit(" old segment(s)");
            reveal_strlit(" old segment(s); ");
            reveal_strlit(" skipped (sealed < safety period, retry later)");
            let a = reclaim_text(old_segs, reclaimed)->Some_0;
            let b = reclaim_text(n as nat, reclaimed)->Some_0;
            assert(a.len() > b.len());
        }
    }
}

} // verus!
