//! Segments of vectors: as payload segments, but every payload is one vector of fixed dimension
//! and a pool always starts a new segment.

use vstd::prelude::*;
use crate::error::{Corruption, Result, StoreError};
use crate::mem::cache::{
    dropped, evicted, eviction_only_removes, held_fn, mapped_in, tells, touched, CacheView,
    SealedCache,
};
use crate::mem::segment::{
    max_number, names_view, next_number, number_after, AppendPlan, PoolView, ValueLocator,
};
use crate::text::{make_name, name_number, numbered_name, parse_name};

verus! {

/// The size of a segment where none is asked for: 128 MiB.
pub const DEFAULT_VEC_SEGMENT_SIZE: u64 = 134_217_728;

/// How long a sealed segment that readers hold stays before it may go: two seconds.
pub const MIN_RECLAIM_SAFETY_MS: u64 = 2_000;

/// The file of a segment of vectors.
pub fn vec_segment_file(seg_id: u32) -> (r: String)
    ensures
        r@ == numbered_name("vec_payload_"@, seg_id as nat, ".mmap"@),
{
    make_name("vec_payload_", seg_id, ".mmap")
}

/// The segment of a file.
pub fn parse_vec_seg_id(name: &str) -> (r: Option<u32>)
    ensures
        r == name_number(name@, "vec_payload_"@, ".mmap"@),
{
    parse_name(name, "vec_payload_", ".mmap")
}

/// The number of the next segment among the files of a directory.
pub fn next_vec_seg_id(names: &Vec<String>) -> (r: Option<u32>)
    ensures
        r == number_after(max_number(names_view(names@), "vec_payload_"@, ".mmap"@)),
{
    next_number(names, "vec_payload_", ".mmap")
}

/// The pool after the active segment has been sealed and the next one started. Eviction stops
/// at the first segment that is held.
pub open spec fn vec_rotated(p: PoolView, held: spec_fn(u32) -> bool) -> PoolView {
    PoolView {
        seg_size: p.seg_size,
        active: (p.active + 1) as u32,
        cursor: 0,
        cache: evicted(mapped_in(p.cache, p.active), held, 1),
    }
}

/// The pool after a vector of `need` bytes has been placed, and where.
pub open spec fn vec_appended(p: PoolView, held: spec_fn(u32) -> bool, need: nat) -> (
    PoolView,
    ValueLocator,
) {
    let q = if need > p.left() {
        vec_rotated(p, held)
    } else {
        p
    };
    (
        PoolView {
            seg_size: q.seg_size,
            active: q.active,
            cursor: (q.cursor + need) as u64,
            cache: q.cache,
        },
        ValueLocator { seg_id: q.active, offset: q.cursor as u32, len: need as u32 },
    )
}

/// What a plan says of the change from one pool to the other.
pub open spec fn vec_plan_tells(p: PoolView, q: PoolView, plan: AppendPlan) -> bool {
    &&& plan.pad == 0
    &&& plan.sealed == (if q.active != p.active {
        Some(p.active)
    } else {
        None
    })
    &&& plan.unmapped@.to_set() == (if q.active != p.active {
        p.cache.mapped.insert(p.active).difference(q.cache.mapped)
    } else {
        Set::empty()
    })
}

/// Places fit a locator, what is written fits the active segment, and no mapped segment comes
/// behind it.
pub open spec fn pool_sound(p: PoolView) -> bool {
    &&& p.seg_size <= u32::MAX
    &&& p.cursor <= p.seg_size
    &&& forall|s: u32| #[trigger] p.cache.mapped.contains(s) ==> s <= p.active
}

/// Sealing keeps a pool sound, and so does placing a vector that fits a segment.
pub proof fn pools_stay_sound(p: PoolView, held: spec_fn(u32) -> bool, need: nat)
    requires
        pool_sound(p),
        p.active < u32::MAX,
    ensures
        pool_sound(vec_rotated(p, held)),
        need <= p.seg_size ==> pool_sound(vec_appended(p, held, need).0),
{
    eviction_only_removes(mapped_in(p.cache, p.active), held, 1);
}

/// A pool of segments of vectors.
pub struct VecSegmentPool {
    seg_size: u64,
    dim: usize,
    active_id: u32,
    active_cursor: u64,
    handles: SealedCache,
}

impl View for VecSegmentPool {
    type V = PoolView;

    closed spec fn view(&self) -> PoolView {
        PoolView {
            seg_size: self.seg_size,
            active: self.active_id,
            cursor: self.active_cursor,
            cache: self.handles@,
        }
    }
}

impl VecSegmentPool {
    /// The dimension of the vectors.
    pub closed spec fn dimension(&self) -> nat {
        self.dim as nat
    }

    /// The pool is sound.
    pub open spec fn wf(&self) -> bool {
        pool_sound(self@)
    }

    /// Opens a pool on a directory: a new segment behind all others. `None` where the numbers
    /// of segments have run out.
    pub fn open(names: &Vec<String>, seg_size: u64, dim: usize) -> (r: Option<VecSegmentPool>)
        requires
            seg_size <= u32::MAX,
        ensures
            ({
                let size = if seg_size == 0 {
                    DEFAULT_VEC_SEGMENT_SIZE
                } else {
                    seg_size
                };
                match number_after(max_number(names_view(names@), "vec_payload_"@, ".mmap"@)) {
                    Some(id) => r is Some && r->Some_0.wf() && r->Some_0.dimension() == dim
                        && r->Some_0@ == (PoolView {
                        seg_size: size,
                        active: id,
                        cursor: 0,
                        cache: CacheView { mapped: Set::empty(), lru: Seq::empty() },
                    }),
                    None => r is None,
                }
            }),
    {
        let size: u64 = if seg_size == 0 {
            DEFAULT_VEC_SEGMENT_SIZE
        } else {
            seg_size
        };
        match next_vec_seg_id(names) {
            Some(id) => Some(
                VecSegmentPool {
                    seg_size: size,
                    dim,
                    active_id: id,
                    active_cursor: 0,
                    handles: SealedCache::new(),
                },
            ),
            None => None,
        }
    }

    /// Whether a vector fits a segment.
    pub fn fits(&self) -> (r: bool)
        ensures
            r == (4 * self.dimension() <= self@.seg_size),
    {
        self.dim as u64 <= self.seg_size / 4
    }

    /// How many bytes a vector takes.
    pub fn byte_len(&self) -> (r: u64)
        requires
            4 * self.dimension() <= self@.seg_size,
        ensures
            r == 4 * self.dimension(),
    {
        4 * self.dim as u64
    }

    /// How many bytes the active segment still takes.
    pub fn remaining(&self) -> (r: u64)
        ensures
            r == self@.left(),
    {
        self.seg_size.saturating_sub(self.active_cursor)
    }

    /// The number of the active segment.
    pub fn active_seg_id(&self) -> (r: u32)
        ensures
            r == self@.active,
    {
        self.active_id
    }

    /// Seals the active segment and starts the next one. Returns the segments that are no
    /// longer mapped.
    pub fn seal_and_rotate<H: Fn(u32) -> bool>(&mut self, held: &H) -> (gone: Vec<u32>)
        requires
            tells(*held),
            old(self).wf(),
            old(self)@.active < u32::MAX,
        ensures
            final(self).wf(),
            final(self)@ == vec_rotated(old(self)@, held_fn(*held)),
            final(self).dimension() == old(self).dimension(),
            gone@.to_set() == old(self)@.cache.mapped.insert(old(self)@.active).difference(
                final(self)@.cache.mapped,
            ),
    {
        proof {
            pools_stay_sound(self@, held_fn(*held), 0);
        }
        self.handles.insert(self.active_id);
        let gone: Vec<u32> = self.handles.evict_passing(held, 1);
        self.active_id = self.active_id + 1;
        self.active_cursor = 0;
        gone
    }

    /// Places a vector behind what is written.
    pub fn append<H: Fn(u32) -> bool>(&mut self, held: &H) -> (r: AppendPlan)
        requires
            tells(*held),
            old(self).wf(),
            4 * old(self).dimension() <= old(self)@.seg_size,
            old(self)@.active < u32::MAX,
        ensures
            final(self).wf(),
            final(self).dimension() == old(self).dimension(),
            ({
                let (q, loc) = vec_appended(
                    old(self)@,
                    held_fn(*held),
                    4 * old(self).dimension(),
                );
                final(self)@ == q && r.locator == loc && vec_plan_tells(old(self)@, q, r)
            }),
    {
        proof {
            pools_stay_sound(self@, held_fn(*held), 4 * self.dimension());
        }
        let need: u64 = self.byte_len();
        let mut sealed: Option<u32> = None;
        let mut unmapped: Vec<u32> = Vec::new();
        proof {
            assert(unmapped@.to_set() =~= Set::empty());
        }
        if need > self.remaining() {
            sealed = Some(self.active_id);
            unmapped = self.seal_and_rotate(held);
        }
        #[verifier::truncate]
        let offset: u32 = self.active_cursor as u32;
        #[verifier::truncate]
        let len: u32 = need as u32;
        let locator = ValueLocator { seg_id: self.active_id, offset, len };
        self.active_cursor = self.active_cursor + need;
        AppendPlan { pad: 0, sealed, unmapped, locator }
    }

    /// All segments that are known: the mapped ones and the active one, which comes last.
    pub fn all_seg_ids(&self) -> (r: Vec<u32>)
        ensures
            r@.len() > 0,
            r@.last() == self@.active,
            r@.to_set() == self@.cache.mapped.insert(self@.active),
    {
        let mut ids: Vec<u32> = self.handles.mapped_ids();
        let ghost before = ids@;
        ids.push(self.active_id);
        proof {
            assert forall|x: u32| ids@.to_set().contains(x) == before.to_set().insert(
                self.active_id,
            ).contains(x) by {
                if before.contains(x) {
                    let k = choose|k: int| 0 <= k < before.len() && before[k] == x;
                    assert(ids@[k] == x);
                }
                assert(ids@[before.len() as int] == self.active_id);
            }
            assert(ids@.to_set() =~= self@.cache.mapped.insert(self@.active));
        }
        ids
    }

    /// Whether the file of a segment may go: it is not mapped, no reader holds it, or it was
    /// sealed long enough ago. `readers` counts who holds the mapping, the pool among them;
    /// `age_ms` is how long ago it was sealed, as far as is known.
    pub fn reclaim_safe(&self, seg_id: u32, readers: usize, age_ms: Option<u64>) -> (r: bool)
        ensures
            r == may_go(self@.cache.mapped.contains(seg_id), readers, age_ms),
    {
        if !self.handles.contains(seg_id) || readers <= 1 {
            return true;
        }
        match age_ms {
            Some(t) => t >= MIN_RECLAIM_SAFETY_MS,
            None => true,
        }
    }

    /// Notes that a segment's file is gone.
    pub fn drop_sealed(&mut self, seg_id: u32)
        ensures
            old(self).wf() ==> final(self).wf(),
            final(self)@ == (PoolView {
                seg_size: old(self)@.seg_size,
                active: old(self)@.active,
                cursor: old(self)@.cursor,
                cache: dropped(old(self)@.cache, seg_id),
            }),
            final(self).dimension() == old(self).dimension(),
    {
        self.handles.drop_sealed(seg_id);
    }

    /// Whether a sealed segment is mapped already; if so, notes the use.
    pub fn sealed_handle(&mut self, seg_id: u32) -> (r: bool)
        ensures
            old(self).wf() ==> final(self).wf(),
            r == old(self)@.cache.mapped.contains(seg_id),
            final(self).dimension() == old(self).dimension(),
            final(self)@ == (PoolView {
                seg_size: old(self)@.seg_size,
                active: old(self)@.active,
                cursor: old(self)@.cursor,
                cache: if r {
                    touched(old(self)@.cache, seg_id)
                } else {
                    old(self)@.cache
                },
            }),
    {
        if self.handles.contains(seg_id) {
            self.handles.touch_sealed(seg_id);
            true
        } else {
            false
        }
    }

    /// Notes that a segment's file was looked for to be mapped: an error where it is missing,
    /// otherwise the segments that are no longer mapped to make room. No file comes behind the
    /// active segment.
    pub fn sealed_opened<H: Fn(u32) -> bool>(&mut self, seg_id: u32, exists: bool, held: &H) -> (r:
        Result<Vec<u32>>)
        requires
            tells(*held),
            old(self).wf(),
            exists ==> seg_id <= old(self)@.active,
        ensures
            final(self).wf(),
            final(self).dimension() == old(self).dimension(),
            !exists ==> r is Err && r->Err_0 == StoreError::Corrupt(
                Corruption::VecSegmentMissing { seg_id },
            ) && final(self)@ == old(self)@,
            exists ==> r is Ok && final(self)@ == (PoolView {
                seg_size: old(self)@.seg_size,
                active: old(self)@.active,
                cursor: old(self)@.cursor,
                cache: evicted(mapped_in(old(self)@.cache, seg_id), held_fn(*held), 1),
            }) && r->Ok_0@.to_set() == old(self)@.cache.mapped.insert(seg_id).difference(
                final(self)@.cache.mapped,
            ),
    {
        if !exists {
            return Err(StoreError::Corrupt(Corruption::VecSegmentMissing { seg_id }));
        }
        proof {
            eviction_only_removes(mapped_in(self@.cache, seg_id), held_fn(*held), 1);
        }
        self.handles.insert(seg_id);
        Ok(self.handles.evict_passing(held, 1))
    }
}

/// Whether the file of a segment may go.
pub open spec fn may_go(mapped: bool, readers: usize, age_ms: Option<u64>) -> bool {
    !mapped || readers <= 1 || age_ms is None || age_ms->Some_0 >= MIN_RECLAIM_SAFETY_MS
}

/// A vector goes right behind the last one where it still fits there, otherwise to the beginning
/// of the next segment, and is told its place in its full length.
pub proof fn vectors_go_behind_the_last_or_to_the_next(
    p: PoolView,
    held: spec_fn(u32) -> bool,
    need: nat,
)
    requires
        pool_sound(p),
        p.active < u32::MAX,
        need <= p.seg_size,
    ensures
        ({
            let (q, loc) = vec_appended(p, held, need);
            &&& q.seg_size == p.seg_size
            &&& loc.len == need
            &&& q.active == loc.seg_id
            &&& q.cursor == loc.offset + need
            &&& p.cursor + need <= p.seg_size ==> loc.seg_id == p.active && loc.offset == p.cursor
                && q.cache == p.cache
            &&& p.cursor + need > p.seg_size ==> loc.seg_id == p.active + 1 && loc.offset == 0
        }),
{
}

/// Sealing starts the next segment at its beginning. The sealed one is mapped then, and whatever
/// was mapped before, but for what had to make room.
pub proof fn sealing_starts_the_next_segment(p: PoolView, held: spec_fn(u32) -> bool)
    requires
        p.active < u32::MAX,
    ensures
        vec_rotated(p, held).active == p.active + 1,
        vec_rotated(p, held).cursor == 0,
        vec_rotated(p, held).seg_size == p.seg_size,
        vec_rotated(p, held).cache.mapped.subset_of(p.cache.mapped.insert(p.active)),
        p.cache.lru.len() < 64 ==> vec_rotated(p, held).cache.mapped == p.cache.mapped.insert(
            p.active,
        ),
{
    eviction_only_removes(mapped_in(p.cache, p.active), held, 1);
}

/// A segment is kept exactly while it is mapped, others than the pool hold it, and it is known to
/// have been sealed less than two seconds ago.
pub proof fn segments_in_use_are_kept(mapped: bool, readers: usize, age_ms: Option<u64>)
    ensures
        !may_go(mapped, readers, age_ms) <==> mapped && readers >= 2 && age_ms is Some
            && age_ms->Some_0 < 2000,
{
}

/// A plan tells what was sealed: the segment that was active, exactly where the vector did not fit
/// behind the last one; and which segments are no longer mapped then. Vectors are not padded.
pub proof fn vector_plans_tell_what_is_sealed(
    p: PoolView,
    held: spec_fn(u32) -> bool,
    need: nat,
    plan: AppendPlan,
    id: u32,
)
    requires
        pool_sound(p),
        p.active < u32::MAX,
        vec_plan_tells(p, vec_appended(p, held, need).0, plan),
    ensures
        plan.pad == 0,
        plan.sealed == (if p.cursor + need > p.seg_size {
            Some(p.active)
        } else {
            None
        }),
        plan.unmapped@.contains(id) <==> p.cursor + need > p.seg_size && (
        p.cache.mapped.contains(id) || id == p.active) && !vec_appended(
            p,
            held,
            need,
        ).0.cache.mapped.contains(id),
{
    let gone = plan.unmapped@;
    assert(gone.contains(id) <==> gone.to_set().contains(id));
}

} // verus!
