//! What holds of every pool: a payload stays as it was written, whatever comes after it, and a
//! reopened pool goes on where the flushed one was.

use vstd::prelude::*;
use crate::bytes::{le_bytes, le_round_trip, lemma_le_bytes_len, lemma_le_limits};
use crate::mem::segment::{
    appended, appended_aligned, cursor_bytes, cursor_of, max_number, number_after, opened, padding,
    plan_tells, rewound, rotated, segment_bytes, AppendPlan, PoolView, ValueLocator,
};
use crate::text::{name_number, name_round_trip, numbered_name};

verus! {

/// What stands in the segments: a byte for each segment and place.
pub type Memory = spec_fn(u32, int) -> u8;

/// The segments after `data` has been written at a place.
pub open spec fn written(mem: Memory, seg: u32, offset: int, data: Seq<u8>) -> Memory {
    |s: u32, at: int|
        if s == seg && offset <= at < offset + data.len() {
            data[at - offset]
        } else {
            mem(s, at)
        }
}

/// What stands at a locator.
pub open spec fn payload_at(mem: Memory, loc: ValueLocator) -> Seq<u8> {
    Seq::new(loc.len as nat, |i: int| mem(loc.seg_id, loc.offset + i))
}

/// Whether a locator lies within what the pool has written.
pub open spec fn within(p: PoolView, loc: ValueLocator) -> bool {
    loc.seg_id < p.active || (loc.seg_id == p.active && loc.offset + loc.len <= p.cursor)
}

/// Appending places a payload where nothing stands yet: it can be read back at its locator,
/// every payload placed before reads as it did, and all of them stay within the pool.
pub proof fn append_keeps_what_is_written(
    p: PoolView,
    held: spec_fn(u32) -> bool,
    data: Seq<u8>,
    mem: Memory,
    earlier: ValueLocator,
)
    requires
        p.takes(data.len()),
        appended(p, held, data.len()).1 is Ok,
        within(p, earlier),
    ensures
        ({
            let (q, r) = appended(p, held, data.len());
            let loc = r->Ok_0;
            let after = written(mem, loc.seg_id, loc.offset as int, data);
            &&& payload_at(after, loc) == data
            &&& payload_at(after, earlier) == payload_at(mem, earlier)
            &&& within(q, loc)
            &&& within(q, earlier)
        }),
{
    let (q, r) = appended(p, held, data.len());
    let loc = r->Ok_0;
    let after = written(mem, loc.seg_id, loc.offset as int, data);
    assert(payload_at(after, loc) =~= data);
    assert(payload_at(after, earlier) =~= payload_at(mem, earlier));
}

/// The same holds of an aligned payload, which starts at a multiple of the alignment.
pub proof fn aligned_append_keeps_what_is_written(
    p: PoolView,
    held: spec_fn(u32) -> bool,
    data: Seq<u8>,
    align: nat,
    mem: Memory,
    earlier: ValueLocator,
)
    requires
        p.takes(data.len()),
        p.active < u32::MAX - 1,
        align > 0,
        appended_aligned(p, held, data.len(), align).1 is Ok,
        within(p, earlier),
    ensures
        ({
            let (q, r) = appended_aligned(p, held, data.len(), align);
            let loc = r->Ok_0;
            let after = written(mem, loc.seg_id, loc.offset as int, data);
            &&& loc.offset as nat % align == 0
            &&& payload_at(after, loc) == data
            &&& payload_at(after, earlier) == payload_at(mem, earlier)
            &&& within(q, loc)
            &&& within(q, earlier)
        }),
{
    let (q, r) = appended_aligned(p, held, data.len(), align);
    let loc = r->Ok_0;
    let after = written(mem, loc.seg_id, loc.offset as int, data);
    assert(payload_at(after, loc) =~= data);
    assert(payload_at(after, earlier) =~= payload_at(mem, earlier));
    if align > 1 {
        lemma_padding(p.cursor, align);
        vstd::arithmetic::div_mod::lemma_small_mod(0, align);
    }
}

proof fn lemma_padding(cursor: u64, align: nat)
    requires
        align > 1,
    ensures
        (cursor + padding(cursor, align)) as nat % align == 0,
        padding(cursor, align) < align,
        padding(cursor, align) == 0 ==> cursor as nat % align == 0,
{
    let a = align as int;
    let c = cursor as int;
    let m = c % a;
    vstd::arithmetic::div_mod::lemma_fundamental_div_mod(c, a);
    vstd::arithmetic::div_mod::lemma_mod_bound(c, a);
    if m == 0 {
        vstd::arithmetic::div_mod::lemma_mod_self_0(a);
    } else {
        vstd::arithmetic::div_mod::lemma_small_mod((a - m) as nat, align);
        assert(c + (a - m) == a * (c / a + 1)) by (nonlinear_arith)
            requires
                c == a * (c / a) + m,
        ;
        vstd::arithmetic::div_mod::lemma_mod_multiples_basic(c / a + 1, a);
        assert(a * (c / a + 1) == (c / a + 1) * a) by (nonlinear_arith);
    }
}

/// Giving up what was placed last leaves every payload before it within the pool.
pub proof fn rewind_keeps_what_came_before(
    p: PoolView,
    seg_id: u32,
    offset: u32,
    earlier: ValueLocator,
)
    requires
        within(p, earlier),
        earlier.seg_id == seg_id ==> earlier.offset + earlier.len <= offset,
    ensures
        within(rewound(p, seg_id, offset).0, earlier),
{
}

/// Appending and then rewinding to where the cursor was gives the pool back, if no segment was
/// sealed on the way.
pub proof fn rewind_undoes_append(p: PoolView, held: spec_fn(u32) -> bool, len: nat)
    requires
        p.takes(len),
        appended(p, held, len).1 is Ok,
        p.cursor <= u32::MAX,
        len <= p.left(),
    ensures
        rewound(appended(p, held, len).0, p.active, p.cursor as u32) == (p, Ok::<
            (),
            crate::error::StoreError,
        >(())),
{
}

/// The cursor file says what was written into it.
pub proof fn cursor_round_trip(seg_id: u32, cursor: u64)
    ensures
        cursor_of(Some(cursor_bytes(seg_id, cursor))) == Some((seg_id, cursor)),
{
    let b = cursor_bytes(seg_id, cursor);
    lemma_le_limits();
    lemma_le_bytes_len(seg_id as nat, 4);
    lemma_le_bytes_len(cursor as nat, 8);
    le_round_trip(seg_id as nat, 4);
    le_round_trip(cursor as nat, 8);
    assert(b.subrange(0, 4) =~= le_bytes(seg_id as nat, 4));
    assert(b.subrange(4, 12) =~= le_bytes(cursor as nat, 8));
}

/// A pool reopened after a flush goes on in the same segment at the same place.
pub proof fn reopen_goes_on(p: PoolView, names: Seq<Seq<char>>)
    requires
        p.seg_size > 0,
        p.cursor <= p.seg_size,
        names.contains(numbered_name("kv_payload_"@, p.active as nat, ".mmap"@)),
    ensures
        ({
            let q = opened(Some(cursor_bytes(p.active, p.cursor)), names, p.seg_size);
            q is Some && q->Some_0.active == p.active && q->Some_0.cursor == p.cursor
                && q->Some_0.seg_size == p.seg_size
        }),
{
    cursor_round_trip(p.active, p.cursor);
}

/// The file of a segment leads back to the segment.
pub proof fn segment_name_round_trip(seg_id: u32)
    ensures
        name_number(
            numbered_name("kv_payload_"@, seg_id as nat, ".mmap"@),
            "kv_payload_"@,
            ".mmap"@,
        ) == Some(seg_id),
{
    name_round_trip("kv_payload_"@, seg_id, ".mmap"@);
}

/// Every payload that fits a segment is placed, in its full length: right behind the last one
/// where it still fits there, otherwise at the beginning of the next segment. Only a payload that
/// no locator can describe is refused.
pub proof fn payloads_go_behind_the_last_or_to_the_next(
    p: PoolView,
    held: spec_fn(u32) -> bool,
    len: nat,
)
    requires
        p.active < u32::MAX,
        p.cursor <= p.seg_size <= u32::MAX,
    ensures
        ({
            let (q, r) = appended(p, held, len);
            &&& q.seg_size == p.seg_size
            &&& len > u32::MAX ==> q == p && r == Err::<ValueLocator, _>(
                crate::error::StoreError::ValueTooLarge(len as usize),
            )
            &&& p.cursor + len <= p.seg_size ==> q.active == p.active && q.cursor == p.cursor + len
                && r == Ok::<_, crate::error::StoreError>(
                ValueLocator { seg_id: p.active, offset: p.cursor as u32, len: len as u32 },
            )
            &&& p.cursor + len > p.seg_size && len <= p.seg_size ==> q.active == p.active + 1
                && q.cursor == len && r == Ok::<_, crate::error::StoreError>(
                ValueLocator { seg_id: (p.active + 1) as u32, offset: 0, len: len as u32 },
            )
        }),
{
}

/// An aligned payload that fits a segment is placed, in its full length, and leaves no more room
/// than its alignment asks for: it stands in the active segment less than one alignment behind
/// the last payload, or at the beginning of the next one, where it had no room in the active one.
pub proof fn aligned_payloads_waste_little(
    p: PoolView,
    held: spec_fn(u32) -> bool,
    len: nat,
    align: nat,
)
    requires
        p.active < u32::MAX - 1,
        p.cursor <= p.seg_size <= u32::MAX,
        len <= p.seg_size,
        align > 0,
    ensures
        ({
            let (q, r) = appended_aligned(p, held, len, align);
            let loc = r->Ok_0;
            &&& r is Ok
            &&& loc.len == len
            &&& q.active == loc.seg_id
            &&& q.cursor == loc.offset + len
            &&& if loc.seg_id == p.active {
                p.cursor <= loc.offset < p.cursor + align
            } else {
                loc.seg_id == p.active + 1 && loc.offset == 0 && p.cursor + (align - 1) + len
                    > p.seg_size
            }
        }),
{
    if align > 1 {
        lemma_padding(p.cursor, align);
    }
}

/// A rewind moves the cursor of the active segment back and nothing else; a place in another
/// segment is left alone, and one that is not yet written is refused.
pub proof fn rewinding_moves_the_cursor_back(p: PoolView, seg_id: u32, offset: u32)
    ensures
        rewound(p, seg_id, offset).1 is Err <==> seg_id == p.active && offset > p.cursor,
        rewound(p, seg_id, offset).0.active == p.active,
        rewound(p, seg_id, offset).0.seg_size == p.seg_size,
        rewound(p, seg_id, offset).0.cache == p.cache,
        rewound(p, seg_id, offset).0.cursor == (if seg_id == p.active && offset <= p.cursor {
            offset as u64
        } else {
            p.cursor
        }),
{
}

/// The highest number among some names is that of one of them, and none has a higher one; there
/// is none exactly where no name has a number.
pub proof fn highest_name_is_there(names: Seq<Seq<char>>, prefix: Seq<char>, suffix: Seq<char>)
    ensures
        match max_number(names, prefix, suffix) {
            None => forall|i: int|
                0 <= i < names.len() ==> name_number(#[trigger] names[i], prefix, suffix) is None,
            Some(m) => (exists|i: int|
                0 <= i < names.len() && name_number(#[trigger] names[i], prefix, suffix) == Some(
                    m,
                )) && forall|i: int|
                0 <= i < names.len() && name_number(names[i], prefix, suffix) is Some
                    ==> name_number(#[trigger] names[i], prefix, suffix)->Some_0 <= m,
        },
    decreases names.len(),
{
    if names.len() > 0 {
        let init = names.drop_last();
        highest_name_is_there(init, prefix, suffix);
        assert(names.last() == names[names.len() - 1]);
        assert forall|i: int| 0 <= i < init.len() implies init[i] == names[i] by {}
        if let Some(m) = max_number(init, prefix, suffix) {
            let i = choose|i: int|
                0 <= i < init.len() && name_number(#[trigger] init[i], prefix, suffix) == Some(m);
            assert(name_number(names[i], prefix, suffix) == Some(m));
        }
    }
}

/// A new segment gets a number that no file has, one above the highest, or 0 where there is none.
pub proof fn new_numbers_are_free(names: Seq<Seq<char>>, prefix: Seq<char>, suffix: Seq<char>)
    ensures
        match number_after(max_number(names, prefix, suffix)) {
            Some(n) => (forall|i: int|
                0 <= i < names.len() ==> name_number(#[trigger] names[i], prefix, suffix) != Some(
                    n,
                )) && (n == 0 || exists|i: int|
                0 <= i < names.len() && name_number(#[trigger] names[i], prefix, suffix) == Some(
                    (n - 1) as u32,
                )),
            None => exists|i: int|
                0 <= i < names.len() && name_number(#[trigger] names[i], prefix, suffix) == Some(
                    u32::MAX,
                ),
        },
{
    highest_name_is_there(names, prefix, suffix);
}

/// A pool whose cursor file is missing, or names a segment that is not there or a place outside
/// it, starts a new segment with a number that no file has. Segments have the size asked for, or
/// 64 MiB.
pub proof fn pools_start_anew_without_a_cursor(
    cursor_file: Option<Seq<u8>>,
    names: Seq<Seq<char>>,
    seg_size: u64,
)
    ensures
        opened(cursor_file, names, seg_size) matches Some(p) ==> {
            &&& p.seg_size == (if seg_size == 0 {
                64 * 1024 * 1024int
            } else {
                seg_size as int
            })
            &&& p.cursor <= p.seg_size
            &&& p.cache.mapped.len() == 0
            &&& p.cache.lru.len() == 0
            &&& names.contains(numbered_name("kv_payload_"@, p.active as nat, ".mmap"@))
                ==> cursor_of(cursor_file) == Some((p.active, p.cursor))
            &&& cursor_of(cursor_file) is None ==> p.cursor == 0 && forall|i: int|
                0 <= i < names.len() ==> name_number(
                    #[trigger] names[i],
                    "kv_payload_"@,
                    ".mmap"@,
                ) != Some(p.active)
        },
{
    new_numbers_are_free(names, "kv_payload_"@, ".mmap"@);
    if let Some(p) = opened(cursor_file, names, seg_size) {
        let name = numbered_name("kv_payload_"@, p.active as nat, ".mmap"@);
        if names.contains(name) {
            segment_name_round_trip(p.active);
            let i = choose|i: int| 0 <= i < names.len() && names[i] == name;
            assert(name_number(names[i], "kv_payload_"@, ".mmap"@) == Some(p.active));
        }
    }
}

/// What segment files take adds up file by file; a file counts exactly where its name ends in
/// `.mmap` behind something.
pub proof fn files_add_up(a: Seq<(String, u64)>, b: Seq<(String, u64)>, file: (String, u64))
    ensures
        segment_bytes(a + b) == segment_bytes(a) + segment_bytes(b),
        segment_bytes(seq![file]) == (if file.0@.len() > 5 && file.0@.skip(file.0@.len() - 5)
            == ".mmap"@ {
            file.1 as nat
        } else {
            0
        }),
    decreases b.len(),
{
    assert(seq![file].drop_last() =~= Seq::<(String, u64)>::empty());
    assert(segment_bytes(Seq::<(String, u64)>::empty()) == 0);
    if b.len() == 0 {
        assert(a + b =~= a);
    } else {
        files_add_up(a, b.drop_last(), file);
        assert((a + b).drop_last() =~= a + b.drop_last());
        assert((a + b).last() == b.last());
    }
}

/// A pool takes a payload exactly where it fits an empty segment or is so long that it is refused,
/// and there is a number for one more segment.
pub proof fn pools_take_what_fits(p: PoolView, len: nat)
    ensures
        p.takes(len) <==> p.active < 0xFFFF_FFFF && (len <= p.seg_size || len > 0xFFFF_FFFF),
        p.cursor <= p.seg_size ==> p.cursor + p.left() == p.seg_size,
        p.cursor > p.seg_size ==> p.left() == 0,
{
}

/// A plan tells what was sealed: the segment that was active, exactly where the payload did not
/// fit behind the last one; and which segments are no longer mapped then.
pub proof fn plans_tell_what_is_sealed(
    p: PoolView,
    held: spec_fn(u32) -> bool,
    len: nat,
    plan: AppendPlan,
    id: u32,
)
    requires
        p.takes(len),
        len <= u32::MAX,
        p.cursor <= p.seg_size,
        plan_tells(p, appended(p, held, len).0, plan),
    ensures
        plan.sealed == (if p.cursor + len > p.seg_size {
            Some(p.active)
        } else {
            None
        }),
        plan.unmapped@.contains(id) <==> p.cursor + len > p.seg_size && (p.cache.mapped.contains(id)
            || id == p.active) && !appended(p, held, len).0.cache.mapped.contains(id),
{
    let gone = plan.unmapped@;
    assert(gone.contains(id) <==> gone.to_set().contains(id));
}

/// Sealing starts the next segment at its beginning. The sealed one is mapped then, and whatever
/// was mapped before, but for what had to make room; while fewer than 64 are mapped, nothing has.
pub proof fn sealing_starts_the_next(p: PoolView, held: spec_fn(u32) -> bool)
    requires
        p.active < u32::MAX,
    ensures
        rotated(p, held).active == p.active + 1,
        rotated(p, held).cursor == 0,
        rotated(p, held).seg_size == p.seg_size,
        rotated(p, held).cache.mapped.subset_of(p.cache.mapped.insert(p.active)),
        p.cache.lru.len() < 64 ==> rotated(p, held).cache.mapped == p.cache.mapped.insert(p.active)
            && rotated(p, held).cache.lru == p.cache.lru.push(p.active),
{
    let c = crate::mem::cache::mapped_in(p.cache, p.active);
    crate::mem::cache::eviction_only_removes(c, held, c.lru.len());
}

} // verus!
