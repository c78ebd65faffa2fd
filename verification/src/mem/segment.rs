//! Append-only payload segments.
//!
//! A segment has a fixed size. Payloads go one behind the other into the active segment; one
//! that does not fit seals it and starts the next. What has been written is never changed.
//! The pool decides where bytes go; the bytes themselves are written by whoever asked.

use vstd::prelude::*;
use crate::bytes::{le_bytes, le_val, push_le, read_le_at};
use crate::error::{Corruption, Result, StoreError};
use crate::mem::cache::{
    evicted, held_fn, mapped_in, tells, touched, CacheView, SealedCache,
};
use crate::text::{make_name, name_number, numbered_name, parse_name};

verus! {

/// The size of a segment where none is asked for: 64 MiB.
pub const DEFAULT_SEGMENT_SIZE: u64 = 67_108_864;

/// Where a payload stands.
#[derive(Debug, Clone, Copy, PartialEq, Eq, Structural)]
pub struct ValueLocator {
    pub seg_id: u32,
    pub offset: u32,
    pub len: u32,
}

/// The file of a segment.
pub fn segment_file(seg_id: u32) -> (r: String)
    ensures
        r@ == numbered_name("kv_payload_"@, seg_id as nat, ".mmap"@),
{
    make_name("kv_payload_", seg_id, ".mmap")
}

/// The segment of a file.
pub fn parse_seg_id(name: &str) -> (r: Option<u32>)
    ensures
        r == name_number(name@, "kv_payload_"@, ".mmap"@),
{
    parse_name(name, "kv_payload_", ".mmap")
}

/// The contents of a list of names.
pub open spec fn names_view(names: Seq<String>) -> Seq<Seq<char>> {
    names.map_values(|s: String| s@)
}

/// The highest number in names of the form `prefix`, number, `suffix`.
pub open spec fn max_number(
    names: Seq<Seq<char>>,
    prefix: Seq<char>,
    suffix: Seq<char>,
) -> Option<u32>
    decreases names.len(),
{
    if names.len() == 0 {
        None
    } else {
        match (
            max_number(names.drop_last(), prefix, suffix),
            name_number(names.last(), prefix, suffix),
        ) {
            (Some(m), Some(n)) => if n > m {
                Some(n)
            } else {
                Some(m)
            },
            (None, n) => n,
            (m, None) => m,
        }
    }
}

/// The number behind the highest in use: 0 where none is, none where numbers have run out.
pub open spec fn number_after(max: Option<u32>) -> Option<u32> {
    match max {
        None => Some(0),
        Some(m) => if m < u32::MAX {
            Some((m + 1) as u32)
        } else {
            None
        },
    }
}

/// The number behind the highest of the numbered names.
pub fn next_number(names: &Vec<String>, prefix: &str, suffix: &str) -> (r: Option<u32>)
    ensures
        r == number_after(max_number(names_view(names@), prefix@, suffix@)),
{
    let ghost ns = names_view(names@);
    let mut max: Option<u32> = None;
    let mut i: usize = 0;
    while i < names.len()
        invariant
            i <= names@.len(),
            ns == names_view(names@),
            max == max_number(ns.take(i as int), prefix@, suffix@),
        decreases names@.len() - i,
    {
        proof {
            assert(ns.take(i + 1).drop_last() =~= ns.take(i as int));
            assert(ns.take(i + 1).last() == names@[i as int]@);
        }
        match parse_name(names[i].as_str(), prefix, suffix) {
            None => {},
            Some(n) => {
                max = match max {
                    None => Some(n),
                    Some(m) => if n > m {
                        Some(n)
                    } else {
                        Some(m)
                    },
                };
            },
        }
        i = i + 1;
    }
    proof {
        assert(ns.take(i as int) =~= ns);
    }
    match max {
        None => Some(0),
        Some(m) => if m < u32::MAX {
            Some(m + 1)
        } else {
            None
        },
    }
}

/// The number of the next segment among the files of a directory.
pub fn next_seg_id(names: &Vec<String>) -> (r: Option<u32>)
    ensures
        r == number_after(max_number(names_view(names@), "kv_payload_"@, ".mmap"@)),
{
    next_number(names, "kv_payload_", ".mmap")
}

/// What the cursor file says: segment and cursor, in twelve bytes.
pub open spec fn cursor_of(bytes: Option<Seq<u8>>) -> Option<(u32, u64)> {
    match bytes {
        Some(b) => if b.len() == 12 {
            Some((le_val(b.subrange(0, 4)) as u32, le_val(b.subrange(4, 12)) as u64))
        } else {
            None
        },
        None => None,
    }
}

/// The contents of a file that may not be there.
pub open spec fn file_view(file: Option<&[u8]>) -> Option<Seq<u8>> {
    match file {
        Some(b) => Some(b@),
        None => None,
    }
}

/// What the cursor file says; a file of another length is taken as none.
pub fn read_active_cursor(file: Option<&[u8]>) -> (r: Option<(u32, u64)>)
    ensures
        r == cursor_of(file_view(file)),
{
    match file {
        None => None,
        Some(b) => {
            if b.len() != 12 {
                None
            } else {
                proof {
                    crate::bytes::lemma_le_limits();
                }
                Some((read_le_at(b, 0, 4) as u32, read_le_at(b, 4, 8)))
            }
        },
    }
}

/// The bytes of a cursor file.
pub open spec fn cursor_bytes(seg_id: u32, cursor: u64) -> Seq<u8> {
    le_bytes(seg_id as nat, 4) + le_bytes(cursor as nat, 8)
}

/// The bytes of a cursor file.
pub fn write_active_cursor(seg_id: u32, cursor: u64) -> (r: Vec<u8>)
    ensures
        r@ == cursor_bytes(seg_id, cursor),
{
    let mut out: Vec<u8> = Vec::new();
    push_le(&mut out, seg_id as u64, 4);
    push_le(&mut out, cursor, 8);
    proof {
        assert(out@ =~= cursor_bytes(seg_id, cursor));
    }
    out
}

/// A pool of segments: their size, the active one and how far it is written, and which sealed
/// ones are mapped.
pub struct PoolView {
    pub seg_size: u64,
    pub active: u32,
    pub cursor: u64,
    pub cache: CacheView,
}

impl PoolView {
    /// How many bytes the active segment still takes.
    pub open spec fn left(self) -> nat {
        if self.cursor <= self.seg_size {
            (self.seg_size - self.cursor) as nat
        } else {
            0
        }
    }

    /// Whether a payload of `len` bytes can be placed or refused: it fits an empty segment or
    /// is too large for any locator, and there is a number for one more segment.
    pub open spec fn takes(self, len: nat) -> bool {
        self.active < u32::MAX && (len <= self.seg_size || len > u32::MAX)
    }
}

/// The pool after the active segment has been sealed and the next one started.
pub open spec fn rotated(p: PoolView, held: spec_fn(u32) -> bool) -> PoolView {
    let cache = mapped_in(p.cache, p.active);
    PoolView {
        seg_size: p.seg_size,
        active: (p.active + 1) as u32,
        cursor: 0,
        cache: evicted(cache, held, cache.lru.len()),
    }
}

/// The pool after a payload of `len` bytes has been placed, and where it was placed.
pub open spec fn appended(p: PoolView, held: spec_fn(u32) -> bool, len: nat) -> (
    PoolView,
    std::result::Result<ValueLocator, StoreError>,
) {
    if len > u32::MAX {
        (p, Err(StoreError::ValueTooLarge(len as usize)))
    } else {
        let q = if len > p.left() {
            rotated(p, held)
        } else {
            p
        };
        if q.cursor > u32::MAX {
            (q, Err(StoreError::Corrupt(Corruption::CursorOverflow { cursor: q.cursor })))
        } else {
            (
                PoolView {
                    seg_size: q.seg_size,
                    active: q.active,
                    cursor: (q.cursor + len) as u64,
                    cache: q.cache,
                },
                Ok(ValueLocator { seg_id: q.active, offset: q.cursor as u32, len: len as u32 }),
            )
        }
    }
}

/// How many bytes stand between the cursor and the next multiple of `align`.
pub open spec fn padding(cursor: u64, align: nat) -> nat {
    ((align - cursor as nat % align) as nat) % align
}

/// As `appended`, but the payload starts at a multiple of `align`: zeros go before it, or the
/// next segment is started where they do not fit.
pub open spec fn appended_aligned(
    p: PoolView,
    held: spec_fn(u32) -> bool,
    len: nat,
    align: nat,
) -> (PoolView, std::result::Result<ValueLocator, StoreError>) {
    if align <= 1 || padding(p.cursor, align) == 0 {
        appended(p, held, len)
    } else if padding(p.cursor, align) > p.left() {
        appended(rotated(p, held), held, len)
    } else {
        let (q, r) = appended(p, held, padding(p.cursor, align));
        match r {
            Ok(_) => appended(q, held, len),
            Err(e) => (q, Err(e)),
        }
    }
}

/// Where a payload goes: `pad` zeros at the old cursor of the segment that was active, then, if
/// a segment is sealed, on to the next one, which the cursor file then names with a cursor of 0;
/// the payload stands at the locator. Segments in `unmapped` are no longer mapped.
pub struct AppendPlan {
    pub pad: u64,
    pub sealed: Option<u32>,
    pub unmapped: Vec<u32>,
    pub locator: ValueLocator,
}

/// A pool of append-only segments.
pub struct SegmentPool {
    seg_size: u64,
    active_id: u32,
    active_cursor: u64,
    sealed: SealedCache,
}

impl View for SegmentPool {
    type V = PoolView;

    closed spec fn view(&self) -> PoolView {
        PoolView {
            seg_size: self.seg_size,
            active: self.active_id,
            cursor: self.active_cursor,
            cache: self.sealed@,
        }
    }
}

/// The pool that is opened on a directory: it goes on where the cursor file says, if the
/// segment is there and the cursor within it; otherwise it starts a new segment behind all
/// others.
pub open spec fn opened(
    cursor_file: Option<Seq<u8>>,
    names: Seq<Seq<char>>,
    seg_size: u64,
) -> Option<PoolView> {
    let size = if seg_size == 0 {
        DEFAULT_SEGMENT_SIZE
    } else {
        seg_size
    };
    let cache = CacheView { mapped: Set::empty(), lru: Seq::empty() };
    let fresh = number_after(max_number(names, "kv_payload_"@, ".mmap"@));
    match cursor_of(cursor_file) {
        Some((sid, c)) if c <= size && names.contains(
            numbered_name("kv_payload_"@, sid as nat, ".mmap"@),
        ) => Some(PoolView { seg_size: size, active: sid, cursor: c, cache }),
        _ => match fresh {
            Some(id) => Some(PoolView { seg_size: size, active: id, cursor: 0, cache }),
            None => None,
        },
    }
}

/// Whether a name is among others.
pub fn has_name(names: &Vec<String>, name: &String) -> (r: bool)
    ensures
        r == names_view(names@).contains(name@),
{
    let mut i: usize = 0;
    while i < names.len()
        invariant
            i <= names@.len(),
            forall|j: int| 0 <= j < i ==> (#[trigger] names@[j])@ != name@,
        decreases names@.len() - i,
    {
        if names[i] == *name {
            proof {
                assert(names_view(names@)[i as int] == name@);
            }
            return true;
        }
        i = i + 1;
    }
    proof {
        if names_view(names@).contains(name@) {
            let j = choose|j: int|
                0 <= j < names@.len() && names_view(names@)[j] == name@;
            assert(names@[j]@ == name@);
        }
    }
    false
}

impl SegmentPool {
    /// Opens a pool on a directory: the cursor file, if there is one, and the names in it.
    /// `None` where the numbers of segments have run out.
    pub fn open(cursor_file: Option<&[u8]>, names: &Vec<String>, seg_size: u64) -> (r: Option<
        SegmentPool,
    >)
        ensures
            match opened(file_view(cursor_file), names_view(names@), seg_size) {
                Some(p) => r is Some && r->Some_0@ == p,
                None => r is None,
            },
    {
        let size: u64 = if seg_size == 0 {
            DEFAULT_SEGMENT_SIZE
        } else {
            seg_size
        };
        match read_active_cursor(cursor_file) {
            Some((sid, c)) => {
                if c <= size && has_name(names, &segment_file(sid)) {
                    return Some(
                        SegmentPool {
                            seg_size: size,
                            active_id: sid,
                            active_cursor: c,
                            sealed: SealedCache::new(),
                        },
                    );
                }
            },
            None => {},
        }
        match next_seg_id(names) {
            Some(id) => Some(
                SegmentPool {
                    seg_size: size,
                    active_id: id,
                    active_cursor: 0,
                    sealed: SealedCache::new(),
                },
            ),
            None => None,
        }
    }

    /// The size of a segment.
    pub fn seg_size(&self) -> (r: u64)
        ensures
            r == self@.seg_size,
    {
        self.seg_size
    }

    /// How many bytes the active segment still takes.
    pub fn remaining(&self) -> (r: u64)
        ensures
            r == self@.left(),
    {
        self.seg_size.saturating_sub(self.active_cursor)
    }

    /// The number of the active segment.
    pub fn active_seg_id(&self) -> (r: u32)
        ensures
            r == self@.active,
    {
        self.active_id
    }

    /// How far the active segment is written.
    pub fn active_cursor(&self) -> (r: u64)
        ensures
            r == self@.cursor,
    {
        self.active_cursor
    }

    /// How many sealed segments are mapped.
    pub fn sealed_count(&self) -> (r: usize)
        ensures
            r == self@.cache.mapped.len(),
    {
        self.sealed.len()
    }

    /// Whether a payload of `len` bytes can be placed or refused.
    pub fn accepts(&self, len: usize) -> (r: bool)
        ensures
            r == self@.takes(len as nat),
    {
        self.active_id < u32::MAX && (len as u64 <= self.seg_size || len as u64 > u32::MAX as u64)
    }

    /// Seals the active segment and starts the next one. Returns the segments that are no
    /// longer mapped.
    fn seal_and_rotate<H: Fn(u32) -> bool>(&mut self, held: &H) -> (gone: Vec<u32>)
        requires
            tells(*held),
            old(self)@.active < u32::MAX,
        ensures
            final(self)@ == rotated(old(self)@, held_fn(*held)),
            gone@.to_set() == old(self)@.cache.mapped.insert(old(self)@.active).difference(
                final(self)@.cache.mapped,
            ),
    {
        self.sealed.insert(self.active_id);
        let gone: Vec<u32> = self.sealed.evict_sealed(held);
        self.active_id = self.active_id + 1;
        self.active_cursor = 0;
        gone
    }

    /// Places a payload behind what is written. One that does not fit seals the active segment
    /// and goes to the start of the next.
    pub fn append<H: Fn(u32) -> bool>(&mut self, payload: &[u8], held: &H) -> (r: Result<
        AppendPlan,
    >)
        requires
            tells(*held),
            old(self)@.takes(payload@.len()),
        ensures
            ({
                let (q, e) = appended(old(self)@, held_fn(*held), payload@.len());
                &&& final(self)@ == q
                &&& e is Err ==> r is Err && r->Err_0 == e->Err_0
                &&& e is Ok ==> r is Ok && r->Ok_0.locator == e->Ok_0 && r->Ok_0.pad == 0
            }),
            r matches Ok(plan) ==> plan_tells(old(self)@, final(self)@, plan),
    {
        if payload.len() as u64 > u32::MAX as u64 {
            return Err(StoreError::ValueTooLarge(payload.len()));
        }
        let need: u64 = payload.len() as u64;
        let mut sealed: Option<u32> = None;
        let mut unmapped: Vec<u32> = Vec::new();
        proof {
            assert(unmapped@.to_set() =~= Set::empty());
        }
        if need > self.remaining() {
            sealed = Some(self.active_id);
            unmapped = self.seal_and_rotate(held);
        }
        if self.active_cursor > u32::MAX as u64 {
            return Err(
                StoreError::Corrupt(Corruption::CursorOverflow { cursor: self.active_cursor }),
            );
        }
        let locator = ValueLocator {
            seg_id: self.active_id,
            offset: self.active_cursor as u32,
            len: payload.len() as u32,
        };
        self.active_cursor = self.active_cursor + need;
        Ok(AppendPlan { pad: 0, sealed, unmapped, locator })
    }

    /// Places a payload at a multiple of `align` behind what is written.
    pub fn append_aligned<H: Fn(u32) -> bool>(
        &mut self,
        payload: &[u8],
        align: usize,
        held: &H,
    ) -> (r: Result<AppendPlan>)
        requires
            tells(*held),
            old(self)@.takes(payload@.len()),
            old(self)@.active < u32::MAX - 1,
        ensures
            ({
                let (q, e) = appended_aligned(
                    old(self)@,
                    held_fn(*held),
                    payload@.len(),
                    align as nat,
                );
                &&& final(self)@ == q
                &&& e is Err ==> r is Err && r->Err_0 == e->Err_0
                &&& e is Ok ==> r is Ok && r->Ok_0.locator == e->Ok_0
            }),
            r matches Ok(plan) ==> plan_tells(old(self)@, final(self)@, plan) && plan.pad == (
            if align > 1 && padding(old(self)@.cursor, align as nat) <= old(self)@.left() {
                padding(old(self)@.cursor, align as nat)
            } else {
                0
            }),
    {
        if align <= 1 {
            return self.append(payload, held);
        }
        let a: u64 = align as u64;
        let over: u64 = self.active_cursor % a;
        let pad: u64 = (a - over) % a;
        proof {
            assert(pad == padding(self.active_cursor, align as nat));
            assert(pad < a);
        }
        if pad == 0 {
            return self.append(payload, held);
        }
        if pad > self.remaining() {
            let sealed: u32 = self.active_id;
            let unmapped: Vec<u32> = self.seal_and_rotate(held);
            let ghost mid = self@;
            let plan: AppendPlan = self.append(payload, held)?;
            Ok(AppendPlan { pad: 0, sealed: Some(sealed), unmapped, locator: plan.locator })
        } else {
            if pad > u32::MAX as u64 {
                return Err(StoreError::ValueTooLarge(pad as usize));
            }
            if self.active_cursor > u32::MAX as u64 {
                return Err(
                    StoreError::Corrupt(
                        Corruption::CursorOverflow { cursor: self.active_cursor },
                    ),
                );
            }
            self.active_cursor = self.active_cursor + pad;
            let plan: AppendPlan = self.append(payload, held)?;
            Ok(
                AppendPlan {
                    pad,
                    sealed: plan.sealed,
                    unmapped: plan.unmapped,
                    locator: plan.locator,
                },
            )
        }
    }

    /// Moves the cursor of the active segment back, so that what was placed behind `offset` is
    /// given up. A segment that has been sealed meanwhile stays as it is.
    pub fn rewind_active_to(&mut self, seg_id: u32, offset: u32) -> (r: Result<()>)
        ensures
            ({
                let (q, e) = rewound(old(self)@, seg_id, offset);
                final(self)@ == q && r == e
            }),
    {
        if seg_id != self.active_id {
            return Ok(());
        }
        let target: u64 = offset as u64;
        if target > self.active_cursor {
            return Err(
                StoreError::Corrupt(
                    Corruption::RewindTarget { target, cursor: self.active_cursor },
                ),
            );
        }
        self.active_cursor = target;
        Ok(())
    }

    /// Whether a sealed segment is mapped already; if so, notes the use.
    pub fn sealed_handle(&mut self, seg_id: u32) -> (r: bool)
        ensures
            r == old(self)@.cache.mapped.contains(seg_id),
            final(self)@ == (PoolView {
                seg_size: old(self)@.seg_size,
                active: old(self)@.active,
                cursor: old(self)@.cursor,
                cache: if r {
                    touched(old(self)@.cache, seg_id)
                } else {
                    old(self)@.cache
                },
            }),
    {
        if self.sealed.contains(seg_id) {
            self.sealed.touch_sealed(seg_id);
            true
        } else {
            false
        }
    }

    /// Notes that a segment's file was looked for to be mapped: an error where it is missing,
    /// otherwise the segments that are no longer mapped to make room.
    pub fn sealed_opened<H: Fn(u32) -> bool>(&mut self, seg_id: u32, exists: bool, held: &H) -> (r:
        Result<Vec<u32>>)
        requires
            tells(*held),
        ensures
            !exists ==> r is Err && r->Err_0 == StoreError::Corrupt(
                Corruption::SegmentMissing { seg_id },
            ) && final(self)@ == old(self)@,
            exists ==> ({
                let c = mapped_in(old(self)@.cache, seg_id);
                r is Ok && final(self)@ == (PoolView {
                    seg_size: old(self)@.seg_size,
                    active: old(self)@.active,
                    cursor: old(self)@.cursor,
                    cache: evicted(c, held_fn(*held), c.lru.len()),
                }) && r->Ok_0@.to_set() == c.mapped.difference(final(self)@.cache.mapped)
            }),
    {
        if !exists {
            return Err(StoreError::Corrupt(Corruption::SegmentMissing { seg_id }));
        }
        self.sealed.insert(seg_id);
        Ok(self.sealed.evict_sealed(held))
    }

    /// What the cursor file says once the active segment has been flushed.
    pub fn flush(&self) -> (r: Vec<u8>)
        ensures
            r@ == cursor_bytes(self@.active, self@.cursor),
    {
        write_active_cursor(self.active_id, self.active_cursor)
    }
}

/// What a plan says of the change from one pool to the other.
pub open spec fn plan_tells(p: PoolView, q: PoolView, plan: AppendPlan) -> bool {
    &&& plan.sealed == (if q.active != p.active {
        Some(p.active)
    } else {
        None
    })
    &&& plan.unmapped@.to_set() == (if q.active != p.active {
        p.cache.mapped.insert(p.active).difference(q.cache.mapped)
    } else {
        Set::empty()
    })
}

/// The pool after the cursor has been moved back.
pub open spec fn rewound(p: PoolView, seg_id: u32, offset: u32) -> (PoolView, Result<()>) {
    if seg_id != p.active {
        (p, Ok(()))
    } else if offset > p.cursor {
        (
            p,
            Err(
                StoreError::Corrupt(
                    Corruption::RewindTarget { target: offset as u64, cursor: p.cursor },
                ),
            ),
        )
    } else {
        (
            PoolView {
                seg_size: p.seg_size,
                active: p.active,
                cursor: offset as u64,
                cache: p.cache,
            },
            Ok(()),
        )
    }
}

/// Whether a file counts as a segment: a name, a dot and `mmap`.
pub open spec fn is_segment_name(name: Seq<char>) -> bool {
    name.len() > 5 && name.skip(name.len() - 5) == ".mmap"@
}

/// The sizes of the segment files, added up.
pub open spec fn segment_bytes(files: Seq<(String, u64)>) -> nat
    decreases files.len(),
{
    if files.len() == 0 {
        0
    } else {
        segment_bytes(files.drop_last()) + if is_segment_name(files.last().0@) {
            files.last().1 as nat
        } else {
            0
        }
    }
}

/// What the segment files of a directory take on disk, as far as a `u64` goes.
pub fn disk_bytes(files: &Vec<(String, u64)>) -> (r: u64)
    ensures
        r == if segment_bytes(files@) <= u64::MAX {
            segment_bytes(files@) as u64
        } else {
            u64::MAX
        },
{
    let mut total: u64 = 0;
    let mut i: usize = 0;
    while i < files.len()
        invariant
            i <= files@.len(),
            total == if segment_bytes(files@.take(i as int)) <= u64::MAX {
                segment_bytes(files@.take(i as int)) as u64
            } else {
                u64::MAX
            },
        decreases files@.len() - i,
    {
        proof {
            assert(files@.take(i + 1).drop_last() =~= files@.take(i as int));
            reveal_strlit(".mmap");
        }
        if crate::text::ends_with(files[i].0.as_str(), ".mmap") {
            total = total.saturating_add(files[i].1);
        }
        i = i + 1;
    }
    proof {
        assert(files@.take(i as int) =~= files@);
    }
    total
}

} // verus!
