//! Compaction from the outside: the switch to the rewritten vectors, and the delayed removal of
//! the segments that they came from.

use vstd::prelude::*;
use crate::error::Result;
use crate::vector::locators::table_of;
use crate::vector::store::{
    measures_pairs, move_entries, move_ids, pair_fn, rebuilt, CompactPlan, IndexView, VectorIndex,
};
use crate::vector::pool::may_go;
use crate::vector::snapshot::{snapshot_fits, snapshot_of};
use crate::mem::cache::dropped;
use crate::mem::segment::PoolView;

verus! {

/// How long old segments are kept for readers that still hold them, in seconds.
pub const DEFAULT_RECLAIM_SAFETY: u64 = 60;

/// What a compaction came to.
#[derive(Debug)]
pub struct CompactResult {
    /// How many vectors are live.
    pub live_vectors: usize,
    /// The segments whose files can go once no reader holds them.
    pub reclaimable_segs: Vec<u32>,
    /// The snapshot of the graph that was built, to be stored in the place of the old one.
    pub snapshot: Vec<u8>,
}

/// Ends a compaction whose vectors have been rewritten: switches the index over, says which
/// segments can go later, and takes the snapshot that has to follow the new locators. A graph of
/// so many vectors fits its snapshot by `rebuilt_graphs_fit_a_snapshot`.
pub fn run_compact<P: Fn(u64, u64) -> u32>(
    index: &mut VectorIndex,
    plan: &CompactPlan,
    pair: &P,
) -> (r: Result<CompactResult>)
    requires
        old(index).wf(),
        measures_pairs(*pair),
        move_ids(plan.moves@).no_duplicates(),
        snapshot_fits(rebuilt(move_ids(plan.moves@), pair_fn(*pair), plan.moves@.len())),
    ensures
        r is Ok,
        r->Ok_0.snapshot@ == snapshot_of(final(index)@.graph),
        r->Ok_0.live_vectors == plan.moves.len(),
        r->Ok_0.reclaimable_segs@ == plan.old_segs@,
        final(index).wf(),
        final(index)@ == (IndexView {
            schema: old(index)@.schema,
            pool: old(index)@.pool,
            table: table_of(move_entries(plan.moves@), plan.moves@.len()),
            graph: rebuilt(move_ids(plan.moves@), pair_fn(*pair), plan.moves@.len()),
        }),
{
    let live_vectors: usize = index.switch(plan, pair)?;
    let reclaimable_segs: Vec<u32> = vstd::slice::slice_to_vec(plan.old_segs.as_slice());
    let snapshot: Vec<u8> = index.checkpoint();
    Ok(CompactResult { live_vectors, reclaimable_segs, snapshot })
}

/// A removal of old segments, one after the other.
pub struct Reclaim {
    segs: Vec<u32>,
    next: usize,
    reclaimed: usize,
    deferred: Vec<u32>,
}

#[verifier::ext_equal]
pub struct ReclaimView {
    /// The segments asked for.
    pub segs: Seq<u32>,
    /// How many of them have been dealt with.
    pub next: nat,
    /// How many files were removed.
    pub reclaimed: nat,
    /// Those that are still in use.
    pub deferred: Seq<u32>,
}

impl View for Reclaim {
    type V = ReclaimView;

    closed spec fn view(&self) -> ReclaimView {
        ReclaimView {
            segs: self.segs@,
            next: self.next as nat,
            reclaimed: self.reclaimed as nat,
            deferred: self.deferred@,
        }
    }
}

impl Reclaim {
    /// Each segment is either removed, or put off, or had no file.
    pub closed spec fn wf(&self) -> bool {
        self.reclaimed + self.deferred@.len() <= self.next <= self.segs.len()
    }

    pub fn begin(seg_ids: &[u32]) -> (r: Reclaim)
        ensures
            r.wf(),
            r@ == (ReclaimView {
                segs: seg_ids@,
                next: 0,
                reclaimed: 0,
                deferred: Seq::empty(),
            }),
    {
        Reclaim {
            segs: vstd::slice::slice_to_vec(seg_ids),
            next: 0,
            reclaimed: 0,
            deferred: Vec::new(),
        }
    }

    /// The segment whose turn it is; `None` when all have been dealt with.
    pub fn current(&self) -> (r: Option<u32>)
        requires
            self.wf(),
        ensures
            r == (if self@.next < self@.segs.len() {
                Some(self@.segs[self@.next as int])
            } else {
                None
            }),
    {
        if self.next < self.segs.len() {
            Some(self.segs[self.next])
        } else {
            None
        }
    }

    /// Whether the file of the segment may go now. One that is still in use is put off, and the
    /// next segment has its turn.
    pub fn check(&mut self, index: &VectorIndex, readers: usize, age_ms: Option<u64>) -> (r: bool)
        requires
            old(self).wf(),
            old(self)@.next < old(self)@.segs.len(),
        ensures
            final(self).wf(),
            r == may_go(
                index@.pool.cache.mapped.contains(old(self)@.segs[old(self)@.next as int]),
                readers,
                age_ms,
            ),
            r ==> final(self)@ == old(self)@,
            !r ==> final(self)@ == (ReclaimView {
                segs: old(self)@.segs,
                next: old(self)@.next + 1,
                reclaimed: old(self)@.reclaimed,
                deferred: old(self)@.deferred.push(old(self)@.segs[old(self)@.next as int]),
            }),
    {
        let seg_id: u32 = self.segs[self.next];
        if index.reclaim_safe(seg_id, readers, age_ms) {
            true
        } else {
            self.deferred.push(seg_id);
            self.next = self.next + 1;
            false
        }
    }

    /// Notes that the file of the segment is gone, and whether it was there to be removed. The
    /// index forgets the segment.
    pub fn removed(&mut self, index: &mut VectorIndex, existed: bool)
        requires
            old(self).wf(),
            old(self)@.next < old(self)@.segs.len(),
            old(index).wf(),
        ensures
            final(self).wf(),
            final(index).wf(),
            final(self)@ == (ReclaimView {
                segs: old(self)@.segs,
                next: old(self)@.next + 1,
                reclaimed: if existed {
                    old(self)@.reclaimed + 1
                } else {
                    old(self)@.reclaimed
                },
                deferred: old(self)@.deferred,
            }),
            final(index)@ == (IndexView {
                schema: old(index)@.schema,
                pool: PoolView {
                    seg_size: old(index)@.pool.seg_size,
                    active: old(index)@.pool.active,
                    cursor: old(index)@.pool.cursor,
                    cache: dropped(
                        old(index)@.pool.cache,
                        old(self)@.segs[old(self)@.next as int],
                    ),
                },
                table: old(index)@.table,
                graph: old(index)@.graph,
            }),
    {
        let seg_id: u32 = self.segs[self.next];
        index.segment_reclaimed(seg_id);
        if existed {
            self.reclaimed = self.reclaimed + 1;
        }
        self.next = self.next + 1;
    }

    /// How many files were removed.
    pub fn reclaimed(&self) -> (r: usize)
        ensures
            r == self@.reclaimed,
    {
        self.reclaimed
    }

    /// The segments that were put off, to be tried again later.
    pub fn deferred(&self) -> (r: &Vec<u32>)
        ensures
            r@ == self@.deferred,
    {
        &self.deferred
    }
}

} // verus!
