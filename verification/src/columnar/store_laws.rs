//! What holds of every columnar store: columns read back as they were put, aligned, and a put
//! that fails leaves everything that was there.

use vstd::prelude::*;
use crate::columnar::batch::{
    batch_columns, batch_rows, batch_types, first_unfit, null_free, types_known, unfit, ArrowBatch,
};
use crate::columnar::store::{
    column_lies_in, columns_len, columns_result, describes, first_outside, lemma_placed_shape,
    old_total, placed, put_columns, selection, step_planned, table_locators, takes_all, total_len,
    ColumnView, ColumnarPlan,
};
use crate::columnar::types::{type_of_code, ColType, ColumnMeta, TableMeta};
use crate::error::{Corruption, StoreError};
use crate::mem::segment::{appended_aligned, PoolView, ValueLocator};
use crate::mem::segment_laws::{
    aligned_append_keeps_what_is_written, payload_at, within, written, Memory,
};
use crate::store::kv::{charged, quota_of, KvView};

verus! {

/// The segments after the first `k` columns have been written.
pub open spec fn columns_written(
    mem: Memory,
    locs: Seq<ValueLocator>,
    cols: Seq<ColumnView>,
    k: nat,
) -> Memory
    decreases k,
{
    if k == 0 {
        mem
    } else {
        written(
            columns_written(mem, locs, cols, (k - 1) as nat),
            locs[k - 1].seg_id,
            locs[k - 1].offset as int,
            cols[k - 1].3,
        )
    }
}

/// Every column that was placed reads back as it was, at a multiple of its width, and every
/// payload placed before the table reads as it did.
pub proof fn columns_read_back(
    p: PoolView,
    held: spec_fn(u32) -> bool,
    cols: Seq<ColumnView>,
    k: nat,
    mem: Memory,
    earlier: ValueLocator,
)
    requires
        takes_all(p, cols),
        k <= cols.len(),
        placed(p, held, cols, k).1 is Ok,
        within(p, earlier),
    ensures
        ({
            let (q, r) = placed(p, held, cols, k);
            let locs = r->Ok_0;
            let after = columns_written(mem, locs, cols, k);
            &&& locs.len() == k
            &&& forall|i: int|
                0 <= i < k ==> payload_at(after, #[trigger] locs[i]) == cols[i].3 && within(
                    q,
                    locs[i],
                ) && locs[i].offset as nat % type_of_code(cols[i].1)->Some_0.width() == 0
            &&& payload_at(after, earlier) == payload_at(mem, earlier)
            &&& within(q, earlier)
        }),
    decreases k,
{
    if k > 0 {
        let j = (k - 1) as nat;
        lemma_placed_shape(p, held, cols, j);
        columns_read_back(p, held, cols, j, mem, earlier);
        let (q0, r0) = placed(p, held, cols, j);
        let locs0 = r0->Ok_0;
        let (q, r) = placed(p, held, cols, k);
        let locs = r->Ok_0;
        let c = cols[k - 1];
        let t = type_of_code(c.1)->Some_0;
        assert(c.3.len() <= p.seg_size || c.3.len() > u32::MAX);
        let before = columns_written(mem, locs0, cols, j);
        lemma_columns_written_prefix(mem, locs0, locs, cols, j);
        assert(columns_written(mem, locs, cols, j) == before);
        aligned_append_keeps_what_is_written(q0, held, c.3, t.width(), before, earlier);
        assert forall|i: int| 0 <= i < k implies payload_at(
            columns_written(mem, locs, cols, k),
            #[trigger] locs[i],
        ) == cols[i].3 && within(q, locs[i]) && locs[i].offset as nat % type_of_code(
            cols[i].1,
        )->Some_0.width() == 0 by {
            if i < j {
                assert(locs[i] == locs0[i]);
                aligned_append_keeps_what_is_written(
                    q0,
                    held,
                    c.3,
                    t.width(),
                    before,
                    locs0[i],
                );
            }
        }
    }
}

proof fn lemma_columns_written_prefix(
    mem: Memory,
    a: Seq<ValueLocator>,
    b: Seq<ValueLocator>,
    cols: Seq<ColumnView>,
    k: nat,
)
    requires
        k <= a.len(),
        k <= b.len(),
        forall|i: int| 0 <= i < k ==> a[i] == b[i],
    ensures
        columns_written(mem, a, cols, k) == columns_written(mem, b, cols, k),
    decreases k,
{
    if k > 0 {
        lemma_columns_written_prefix(mem, a, b, cols, (k - 1) as nat);
    }
}

proof fn lemma_aligned_same_segment(
    p: PoolView,
    held: spec_fn(u32) -> bool,
    len: nat,
    align: nat,
)
    requires
        p.active < u32::MAX - 1,
        len <= p.seg_size || len > u32::MAX,
    ensures
        ({
            let q = appended_aligned(p, held, len, align).0;
            &&& q.active == p.active ==> q.cache == p.cache && q.cursor >= p.cursor
            &&& q.seg_size == p.seg_size
            &&& p.active <= q.active
        }),
{
}

#[verifier::rlimit(40)]
proof fn lemma_same_segment(p: PoolView, held: spec_fn(u32) -> bool, cols: Seq<ColumnView>, k: nat)
    requires
        takes_all(p, cols),
        k <= cols.len(),
    ensures
        ({
            let q = placed(p, held, cols, k).0;
            &&& q.active == p.active ==> q.cache == p.cache && q.cursor >= p.cursor
            &&& q.seg_size == p.seg_size
            &&& p.active <= q.active
        }),
    decreases k,
{
    if k > 0 {
        lemma_same_segment(p, held, cols, (k - 1) as nat);
        lemma_placed_shape(p, held, cols, (k - 1) as nat);
        lemma_placed_shape(p, held, cols, k);
        let q = placed(p, held, cols, (k - 1) as nat).0;
        let c = cols[k - 1];
        if type_of_code(c.1) is Some && c.2 == 0 {
            assert(c.3.len() <= p.seg_size || c.3.len() > u32::MAX);
            lemma_aligned_same_segment(q, held, c.3.len(), type_of_code(c.1)->Some_0.width());
        }
    }
}

/// A put that fails leaves what was placed before within the pool; where no segment was sealed
/// on the way, it leaves the pool as it was.
pub proof fn failed_put_keeps_everything(
    s: KvView,
    held: spec_fn(u32) -> bool,
    cols: Seq<ColumnView>,
    old_total: nat,
    quota: Option<Seq<u8>>,
    earlier: ValueLocator,
)
    requires
        takes_all(s.pool, cols),
        s.pool.cursor <= u32::MAX,
        put_columns(s, held, cols, old_total, quota).1 is Err,
        within(s.pool, earlier),
    ensures
        ({
            let back = put_columns(s, held, cols, old_total, quota).0;
            within(back, earlier) && (back.active == s.pool.active ==> back == s.pool)
        }),
{
    lemma_same_segment(s.pool, held, cols, cols.len());
}

proof fn lemma_fault_comes_first(
    p: PoolView,
    held: spec_fn(u32) -> bool,
    cols: Seq<ColumnView>,
    k: nat,
    bad: int,
)
    requires
        0 <= bad < k <= cols.len(),
        type_of_code(cols[bad].1) is None || cols[bad].2 != 0,
    ensures
        placed(p, held, cols, k).1 is Err,
    decreases k,
{
    if bad < k - 1 {
        lemma_fault_comes_first(p, held, cols, (k - 1) as nat, bad);
    }
}

/// A table with a column of an unknown type, or with a null, is never accepted.
pub proof fn unfit_tables_are_refused(
    s: KvView,
    held: spec_fn(u32) -> bool,
    cols: Seq<ColumnView>,
    old_total: nat,
    quota: Option<Seq<u8>>,
)
    requires
        !types_known(cols) || !null_free(cols),
    ensures
        put_columns(s, held, cols, old_total, quota).1 is Err,
{
    let bad = choose|i: int|
        0 <= i < cols.len() && (type_of_code((#[trigger] cols[i]).1) is None || cols[i].2 != 0);
    lemma_fault_comes_first(s.pool, held, cols, cols.len(), bad);
}

proof fn lemma_placed_len(p: PoolView, held: spec_fn(u32) -> bool, cols: Seq<ColumnView>, k: nat)
    requires
        takes_all(p, cols),
        k <= cols.len(),
        placed(p, held, cols, k).1 is Ok,
    ensures
        total_len(placed(p, held, cols, k).1->Ok_0) == columns_len(cols.take(k as int)),
    decreases k,
{
    if k == 0 {
        assert(cols.take(0) =~= Seq::<ColumnView>::empty());
    } else {
        let j = (k - 1) as nat;
        lemma_placed_len(p, held, cols, j);
        let locs = placed(p, held, cols, j).1->Ok_0;
        let more = placed(p, held, cols, k).1->Ok_0;
        assert(more.drop_last() =~= locs);
        assert(cols.take(k as int).drop_last() =~= cols.take(j as int));
        assert(cols.take(k as int).last() == cols[k - 1]);
    }
}

/// A table that passes the check before it is logged keeps to the limit: the put that follows
/// is not refused for its size. The count is then what it was, less the table that was there, plus
/// the new one.
pub proof fn checked_tables_keep_to_the_limit(
    s: KvView,
    held: spec_fn(u32) -> bool,
    cols: Seq<ColumnView>,
    old_total: nat,
    quota: Option<Seq<u8>>,
)
    requires
        takes_all(s.pool, cols),
        placed(s.pool, held, cols, cols.len()).1 is Ok,
        charged(quota_of(quota), old_total, columns_len(cols), s.limit) is Some,
    ensures
        put_columns(s, held, cols, old_total, quota).1 is Ok,
        put_columns(s, held, cols, old_total, quota).1->Ok_0.1 == columns_len(cols) + (
        if quota_of(quota) > old_total {
            quota_of(quota) - old_total
        } else {
            0
        }),
{
    lemma_placed_len(s.pool, held, cols, cols.len());
    assert(cols.take(cols.len() as int) =~= cols);
}

/// What some tables take, added up.
pub open spec fn tables_len(totals: Map<Seq<char>, nat>) -> nat
    decreases totals.dom().len(),
    when totals.dom().finite()
{
    if totals.dom().len() == 0 {
        0
    } else {
        let k = totals.dom().choose();
        totals[k] + tables_len(totals.remove(k))
    }
}

proof fn lemma_tables_remove(totals: Map<Seq<char>, nat>, name: Seq<char>)
    requires
        totals.dom().finite(),
        totals.contains_key(name),
    ensures
        tables_len(totals) == totals[name] + tables_len(totals.remove(name)),
    decreases totals.dom().len(),
{
    let k = totals.dom().choose();
    if k != name {
        let a = totals.remove(k);
        let b = totals.remove(name);
        lemma_tables_remove(a, name);
        lemma_tables_remove(b, k);
        assert(a.remove(name) =~= b.remove(k));
    }
}

/// The count is what the tables take: a put takes off the table that was there and adds the new
/// one.
pub proof fn count_is_what_the_tables_take(
    s: KvView,
    held: spec_fn(u32) -> bool,
    cols: Seq<ColumnView>,
    quota: Option<Seq<u8>>,
    totals: Map<Seq<char>, nat>,
    name: Seq<char>,
)
    requires
        takes_all(s.pool, cols),
        totals.dom().finite(),
        quota_of(quota) == tables_len(totals),
        ({
            let old = if totals.contains_key(name) { totals[name] } else { 0 };
            put_columns(s, held, cols, old, quota).1 is Ok
        }),
    ensures
        ({
            let old = if totals.contains_key(name) { totals[name] } else { 0 };
            let (locs, used) = put_columns(s, held, cols, old, quota).1->Ok_0;
            used == tables_len(totals.insert(name, total_len(locs))) && total_len(locs)
                == columns_len(cols)
        }),
{
    let old = if totals.contains_key(name) { totals[name] } else { 0 };
    let (locs, used) = put_columns(s, held, cols, old, quota).1->Ok_0;
    let after = totals.insert(name, total_len(locs));
    lemma_placed_len(s.pool, held, cols, cols.len());
    assert(cols.take(cols.len() as int) =~= cols);
    lemma_tables_remove(after, name);
    assert(after.remove(name) =~= totals.remove(name));
    if totals.contains_key(name) {
        lemma_tables_remove(totals, name);
    } else {
        assert(totals.remove(name) =~= totals);
    }
}

/// A read returns exactly the columns that are asked for: all where no name is given, otherwise
/// those whose name is among the names; each once, in the order of the table.
pub proof fn reads_return_the_columns_asked_for(
    meta: TableMeta,
    wanted: Seq<Seq<char>>,
    k: nat,
)
    requires
        k <= meta.columns@.len(),
    ensures
        forall|i: usize| #[trigger]
            selection(meta, wanted, k).contains(i) <==> i < k && (wanted.len() == 0 || exists|
                w: int,
            |
                0 <= w < wanted.len() && wanted[w] == meta.columns@[i as int].name@),
        forall|a: int, b: int|
            0 <= a < b < selection(meta, wanted, k).len() ==> selection(meta, wanted, k)[a]
                < selection(meta, wanted, k)[b],
    decreases k,
{
    if k > 0 {
        let j = (k - 1) as nat;
        reads_return_the_columns_asked_for(meta, wanted, j);
        let before = selection(meta, wanted, j);
        let now = selection(meta, wanted, k);
        assert(meta.columns.len() == meta.columns@.len());
        assert forall|i: usize| #[trigger] now.contains(i) <==> i < k && (wanted.len() == 0
            || exists|w: int|
            0 <= w < wanted.len() && wanted[w] == meta.columns@[i as int].name@) by {
            if before.contains(i) {
                let m = choose|m: int| 0 <= m < before.len() && before[m] == i;
                assert(now[m] == i);
            }
            if now.len() > before.len() {
                assert(now[before.len() as int] == j);
            }
            if now.contains(i) && !before.contains(i) {
                let m = choose|m: int| 0 <= m < now.len() && now[m] == i;
                assert(m == before.len());
            }
        }
        assert forall|a: int, b: int| 0 <= a < b < now.len() implies now[a] < now[b] by {
            assert(before.contains(before[a]));
        }
    }
}

/// The numbers of types and their widths: five types are known, and no other number is one.
pub proof fn known_types(code: u8)
    ensures
        type_of_code(1) == Some(ColType::Int32) && ColType::Int32.width() == 4,
        type_of_code(2) == Some(ColType::Int64) && ColType::Int64.width() == 8,
        type_of_code(3) == Some(ColType::Float32) && ColType::Float32.width() == 4,
        type_of_code(4) == Some(ColType::Float64) && ColType::Float64.width() == 8,
        type_of_code(5) == Some(ColType::Boolean) && ColType::Boolean.width() == 1,
        type_of_code(code) is Some <==> 1 <= code <= 5,
        type_of_code(code) matches Some(t) ==> t.code() == code,
{
}

/// The first unfit column is the first that has an unknown type or a null.
pub proof fn unfit_columns_are_found(cols: Seq<ColumnView>, i: nat)
    requires
        i <= cols.len(),
    ensures
        i <= first_unfit(cols, i) <= cols.len(),
        forall|j: int|
            i <= j < first_unfit(cols, i) ==> 1 <= (#[trigger] cols[j]).1 <= 5 && cols[j].2 == 0,
        first_unfit(cols, i) < cols.len() ==> !(1 <= cols[first_unfit(cols, i) as int].1 <= 5
            && cols[first_unfit(cols, i) as int].2 == 0),
        first_unfit(cols, 0) == cols.len() <==> types_known(cols) && null_free(cols),
    decreases cols.len() - i,
{
    if i < cols.len() && 1 <= cols[i as int].1 <= 5 && cols[i as int].2 == 0 {
        unfit_columns_are_found(cols, i + 1);
    }
    lemma_first_unfit(cols, 0);
    let k = first_unfit(cols, 0);
    if k < cols.len() {
        let c = cols[k as int];
        assert(type_of_code(c.1) is None || c.2 != 0);
    }
}

proof fn lemma_first_unfit(cols: Seq<ColumnView>, i: nat)
    requires
        i <= cols.len(),
    ensures
        i <= first_unfit(cols, i) <= cols.len(),
        forall|j: int|
            i <= j < first_unfit(cols, i) ==> type_of_code((#[trigger] cols[j]).1) is Some
                && cols[j].2 == 0,
        first_unfit(cols, i) < cols.len() ==> type_of_code(
            cols[first_unfit(cols, i) as int].1,
        ) is None || cols[first_unfit(cols, i) as int].2 != 0,
    decreases cols.len() - i,
{
    if i < cols.len() && type_of_code(cols[i as int].1) is Some && cols[i as int].2 == 0 {
        lemma_first_unfit(cols, i + 1);
    }
}

/// The bytes of some columns, added up.
pub open spec fn bytes_of(cols: Seq<ColumnView>) -> nat
    decreases cols.len(),
{
    if cols.len() == 0 {
        0
    } else {
        cols[0].3.len() + bytes_of(cols.drop_first())
    }
}

proof fn lemma_bytes_of_last(cols: Seq<ColumnView>)
    requires
        cols.len() > 0,
    ensures
        bytes_of(cols) == bytes_of(cols.drop_last()) + cols.last().3.len(),
    decreases cols.len(),
{
    if cols.len() > 1 {
        lemma_bytes_of_last(cols.drop_first());
        assert(cols.drop_first().drop_last() =~= cols.drop_last().drop_first());
    } else {
        assert(cols.drop_first() =~= Seq::<ColumnView>::empty());
        assert(cols.drop_last() =~= Seq::<ColumnView>::empty());
    }
}

/// A table takes what its columns take, as far as a count goes.
pub proof fn tables_take_what_their_columns_take(cols: Seq<ColumnView>)
    ensures
        columns_len(cols) == (if bytes_of(cols) <= u64::MAX {
            bytes_of(cols)
        } else {
            u64::MAX as nat
        }),
    decreases cols.len(),
{
    if cols.len() > 0 {
        tables_take_what_their_columns_take(cols.drop_last());
        lemma_bytes_of_last(cols);
    }
}

/// The lengths of some payloads, added up.
pub open spec fn lens_of(locs: Seq<ValueLocator>) -> nat
    decreases locs.len(),
{
    if locs.len() == 0 {
        0
    } else {
        locs[0].len as nat + lens_of(locs.drop_first())
    }
}

proof fn lemma_lens_of_last(locs: Seq<ValueLocator>)
    requires
        locs.len() > 0,
    ensures
        lens_of(locs) == lens_of(locs.drop_last()) + locs.last().len,
    decreases locs.len(),
{
    if locs.len() > 1 {
        lemma_lens_of_last(locs.drop_first());
        assert(locs.drop_first().drop_last() =~= locs.drop_last().drop_first());
    } else {
        assert(locs.drop_first() =~= Seq::<ValueLocator>::empty());
        assert(locs.drop_last() =~= Seq::<ValueLocator>::empty());
    }
}

proof fn lemma_total_len(locs: Seq<ValueLocator>)
    ensures
        total_len(locs) == (if lens_of(locs) <= u64::MAX {
            lens_of(locs)
        } else {
            u64::MAX as nat
        }),
    decreases locs.len(),
{
    if locs.len() > 0 {
        lemma_total_len(locs.drop_last());
        lemma_lens_of_last(locs);
    }
}

/// An earlier table counts with what its columns take; none counts nothing.
pub proof fn earlier_tables_count(earlier: Option<TableMeta>)
    ensures
        earlier is None ==> old_total(earlier) == 0,
        earlier matches Some(m) ==> lens_of(
            m.columns@.map_values(
                |c: ColumnMeta| ValueLocator { seg_id: c.seg_id, offset: c.offset, len: c.len },
            ),
        ) <= u64::MAX ==> old_total(earlier) == lens_of(
            m.columns@.map_values(
                |c: ColumnMeta| ValueLocator { seg_id: c.seg_id, offset: c.offset, len: c.len },
            ),
        ),
{
    if let Some(m) = earlier {
        let there = m.columns@.map_values(
            |c: ColumnMeta| ValueLocator { seg_id: c.seg_id, offset: c.offset, len: c.len },
        );
        assert(table_locators(m) =~= there);
        lemma_total_len(table_locators(m));
    }
}

proof fn lemma_fitting_placed(
    p: PoolView,
    held: spec_fn(u32) -> bool,
    cols: Seq<ColumnView>,
    k: nat,
)
    requires
        k <= cols.len(),
        p.active + cols.len() + 1 < u32::MAX,
        p.seg_size <= u32::MAX,
        p.cursor <= p.seg_size,
        forall|i: int|
            0 <= i < cols.len() ==> 1 <= (#[trigger] cols[i]).1 <= 5 && cols[i].2 == 0
                && cols[i].3.len() <= p.seg_size,
    ensures
        ({
            let (q, r) = placed(p, held, cols, k);
            &&& r is Ok
            &&& r->Ok_0.len() == k
            &&& q.seg_size == p.seg_size
            &&& q.cursor <= q.seg_size
            &&& p.active <= q.active <= p.active + k
            &&& forall|i: int| 0 <= i < k ==> (#[trigger] r->Ok_0[i]).len == cols[i].3.len()
        }),
    decreases k,
{
    if k > 0 {
        let j = (k - 1) as nat;
        lemma_fitting_placed(p, held, cols, j);
        let (q0, r0) = placed(p, held, cols, j);
        let c = cols[k - 1];
        let t = type_of_code(c.1)->Some_0;
        let locs = placed(p, held, cols, k).1->Ok_0;
        assert(c.3.len() <= p.seg_size);
        assert forall|i: int| 0 <= i < k implies (#[trigger] locs[i]).len == cols[i].3.len() by {
            if i < j {
                assert(r0->Ok_0[i].len == cols[i].3.len());
            }
        }
    }
}

/// A table within the quota is taken: known types, no nulls, columns that fit a segment, and a
/// count that, with the old table taken off and the new one added, keeps to the limit. The count
/// is then exactly that.
pub proof fn tables_within_the_quota_are_taken(
    s: KvView,
    held: spec_fn(u32) -> bool,
    cols: Seq<ColumnView>,
    old_total: nat,
    quota: Option<Seq<u8>>,
    left: nat,
)
    requires
        s.pool.active + cols.len() + 1 < u32::MAX,
        s.pool.seg_size <= u32::MAX,
        s.pool.cursor <= s.pool.seg_size,
        forall|i: int|
            0 <= i < cols.len() ==> 1 <= (#[trigger] cols[i]).1 <= 5 && cols[i].2 == 0
                && cols[i].3.len() <= s.pool.seg_size,
        left == (if quota_of(quota) > old_total {
            quota_of(quota) - old_total
        } else {
            0
        }),
        left + bytes_of(cols) <= u64::MAX,
        s.limit == 0 || left + bytes_of(cols) <= s.limit,
    ensures
        put_columns(s, held, cols, old_total, quota).1 is Ok,
        put_columns(s, held, cols, old_total, quota).1->Ok_0.1 == left + bytes_of(cols),
        put_columns(s, held, cols, old_total, quota).1->Ok_0.0.len() == cols.len(),
        takes_all(s.pool, cols),
{
    lemma_fitting_placed(s.pool, held, cols, cols.len());
    assert(takes_all(s.pool, cols));
    lemma_placed_len(s.pool, held, cols, cols.len());
    assert(cols.take(cols.len() as int) =~= cols);
    tables_take_what_their_columns_take(cols);
}

/// A table over the quota is refused.
pub proof fn tables_over_the_quota_are_refused(
    s: KvView,
    held: spec_fn(u32) -> bool,
    cols: Seq<ColumnView>,
    old_total: nat,
    quota: Option<Seq<u8>>,
)
    requires
        takes_all(s.pool, cols),
        bytes_of(cols) <= u64::MAX,
        s.limit > 0,
        bytes_of(cols) + (if quota_of(quota) > old_total {
            quota_of(quota) - old_total
        } else {
            0
        }) > s.limit,
    ensures
        put_columns(s, held, cols, old_total, quota).1 is Err,
{
    if placed(s.pool, held, cols, cols.len()).1 is Ok {
        lemma_placed_len(s.pool, held, cols, cols.len());
        assert(cols.take(cols.len() as int) =~= cols);
        tables_take_what_their_columns_take(cols);
    }
}

/// A column lies within a segment exactly where its bytes do, every row has its bytes, and it
/// starts at a multiple of the width of its values.
pub proof fn columns_lie_where_their_rows_do(c: ColumnMeta, rows: nat, size: nat)
    ensures
        column_lies_in(c, rows, size) <==> c.offset + c.len <= size && match c.dtype {
            ColType::Int32 => 4 * rows <= c.len && c.offset as nat % 4 == 0,
            ColType::Float32 => 4 * rows <= c.len && c.offset as nat % 4 == 0,
            ColType::Int64 => 8 * rows <= c.len && c.offset as nat % 8 == 0,
            ColType::Float64 => 8 * rows <= c.len && c.offset as nat % 8 == 0,
            ColType::Boolean => rows <= 8 * c.len,
        },
{
    let w = c.dtype.width();
    let at = c.offset as nat;
    match c.dtype {
        ColType::Int32 | ColType::Float32 => {
            assert(rows * w == 4 * rows && at % w == at % 4) by (nonlinear_arith)
                requires
                    w == 4,
            ;
        },
        ColType::Int64 | ColType::Float64 => {
            assert(rows * w == 8 * rows && at % w == at % 8) by (nonlinear_arith)
                requires
                    w == 8,
            ;
        },
        ColType::Boolean => {
            assert(at % w == 0) by (nonlinear_arith)
                requires
                    w == 1,
            ;
        },
    }
}

/// The column that a read refuses is the first that is asked for and does not lie within its
/// segment; where all lie there, none is refused.
pub proof fn outside_columns_are_found(
    meta: TableMeta,
    picked: Seq<usize>,
    sizes: Seq<usize>,
    i: nat,
)
    requires
        i <= picked.len(),
    ensures
        match first_outside(meta, picked, sizes, i) {
            None => forall|j: int|
                i <= j < picked.len() ==> column_lies_in(
                    meta.columns@[(#[trigger] picked[j]) as int],
                    meta.row_count as nat,
                    sizes[picked[j] as int] as nat,
                ),
            Some(c) => exists|k: int|
                i <= k < picked.len() && (#[trigger] picked[k]) == c && !column_lies_in(
                    meta.columns@[c as int],
                    meta.row_count as nat,
                    sizes[c as int] as nat,
                ) && forall|j: int|
                    i <= j < k ==> column_lies_in(
                        meta.columns@[(#[trigger] picked[j]) as int],
                        meta.row_count as nat,
                        sizes[picked[j] as int] as nat,
                    ),
        },
    decreases picked.len() - i,
{
    if i < picked.len() {
        if column_lies_in(
            meta.columns@[picked[i as int] as int],
            meta.row_count as nat,
            sizes[picked[i as int] as int] as nat,
        ) {
            outside_columns_are_found(meta, picked, sizes, i + 1);
            if let Some(c) = first_outside(meta, picked, sizes, i + 1) {
                let k = choose|k: int|
                    i + 1 <= k < picked.len() && (#[trigger] picked[k]) == c && !column_lies_in(
                        meta.columns@[c as int],
                        meta.row_count as nat,
                        sizes[c as int] as nat,
                    ) && forall|j: int|
                        i + 1 <= j < k ==> column_lies_in(
                            meta.columns@[(#[trigger] picked[j]) as int],
                            meta.row_count as nat,
                            sizes[picked[j] as int] as nat,
                        );
                assert(picked[k] == c);
            }
        } else {
            assert(picked[i as int] == first_outside(meta, picked, sizes, i)->Some_0);
        }
    }
}

/// A table that was put reads back: it has as many rows and the same columns in the same order,
/// under their names and types, and every column is mapped at a place where exactly the bytes
/// stand that it was put with. No column is refused, where the segments are mapped whole.
pub proof fn tables_read_back(
    s: KvView,
    held: spec_fn(u32) -> bool,
    cols: Seq<ColumnView>,
    rows: nat,
    old_total: nat,
    quota: Option<Seq<u8>>,
    meta: TableMeta,
    mem: Memory,
    sizes: Seq<usize>,
    i: int,
)
    requires
        takes_all(s.pool, cols),
        s.pool.cursor <= s.pool.seg_size,
        put_columns(s, held, cols, old_total, quota).1 is Ok,
        describes(
            meta,
            rows,
            cols,
            put_columns(s, held, cols, old_total, quota).1->Ok_0.0,
        ),
        sizes.len() == cols.len(),
        forall|j: int| 0 <= j < cols.len() ==> #[trigger] sizes[j] >= s.pool.seg_size,
        forall|j: int|
            0 <= j < cols.len() ==> (#[trigger] cols[j]).3.len() == type_of_code(
                cols[j].1,
            )->Some_0.bytes_for(rows),
        0 <= i < cols.len(),
    ensures
        ({
            let locs = put_columns(s, held, cols, old_total, quota).1->Ok_0.0;
            let after = columns_written(mem, locs, cols, cols.len());
            let c = meta.columns@[i];
            &&& meta.row_count == rows
            &&& meta.columns@.len() == cols.len()
            &&& c.name@ == cols[i].0
            &&& type_of_code(cols[i].1) == Some(c.dtype)
            &&& payload_at(
                after,
                ValueLocator { seg_id: c.seg_id, offset: c.offset, len: c.len },
            ) == cols[i].3
            &&& column_lies_in(c, rows, sizes[i] as nat)
        }),
{
    let locs = put_columns(s, held, cols, old_total, quota).1->Ok_0.0;
    let after = columns_written(mem, locs, cols, cols.len());
    let zero = ValueLocator { seg_id: s.pool.active, offset: 0, len: 0 };
    columns_read_back(s.pool, held, cols, cols.len(), mem, zero);
    lemma_locs_in_segment(s.pool, held, cols, cols.len());
    let c = meta.columns@[i];
    assert(table_locators(meta)[i] == (ValueLocator {
        seg_id: c.seg_id,
        offset: c.offset,
        len: c.len,
    }));
    assert(locs[i] == table_locators(meta)[i]);
    assert(payload_at(after, locs[i]) == cols[i].3);
    assert(payload_at(after, locs[i]).len() == locs[i].len);
    assert(sizes[i] >= s.pool.seg_size);
}

proof fn lemma_locs_in_segment(
    p: PoolView,
    held: spec_fn(u32) -> bool,
    cols: Seq<ColumnView>,
    k: nat,
)
    requires
        takes_all(p, cols),
        p.cursor <= p.seg_size,
        k <= cols.len(),
        placed(p, held, cols, k).1 is Ok,
    ensures
        placed(p, held, cols, k).0.cursor <= p.seg_size,
        placed(p, held, cols, k).1->Ok_0.len() == k,
        forall|i: int|
            0 <= i < k ==> (#[trigger] placed(p, held, cols, k).1->Ok_0[i]).offset
                + placed(p, held, cols, k).1->Ok_0[i].len <= p.seg_size,
    decreases k,
{
    if k > 0 {
        let j = (k - 1) as nat;
        lemma_placed_shape(p, held, cols, j);
        lemma_locs_in_segment(p, held, cols, j);
        let locs0 = placed(p, held, cols, j).1->Ok_0;
        let locs = placed(p, held, cols, k).1->Ok_0;
        let c = cols[k - 1];
        assert(c.3.len() <= p.seg_size || c.3.len() > u32::MAX);
        assert forall|i: int| 0 <= i < k implies (#[trigger] locs[i]).offset + locs[i].len
            <= p.seg_size by {
            if i < j {
                assert(locs[i] == locs0[i]);
            }
        }
    }
}

/// A put is planned as the table says: every column's bytes go to the place under which the table
/// has it, the count that is written is the one that the limit was held against, and a failed
/// transaction rewinds to where the pool was.
pub proof fn plans_follow_the_table(
    s: KvView,
    held: spec_fn(u32) -> bool,
    batch: ArrowBatch,
    earlier: Option<TableMeta>,
    quota: Option<Seq<u8>>,
    after: PoolView,
    plan: ColumnarPlan,
    i: int,
)
    requires
        takes_all(s.pool, batch_columns(batch)),
        s.pool.cursor <= u32::MAX,
        columns_result(s, held, batch, earlier, quota, after, Ok(plan)),
        0 <= i < batch_columns(batch).len(),
    ensures
        plan.meta.row_count == batch_rows(batch),
        plan.meta.columns@.len() == batch_columns(batch).len(),
        plan.data@.len() == batch_columns(batch).len(),
        plan.appends@.len() == batch_columns(batch).len(),
        plan.meta.columns@[i].name@ == batch_columns(batch)[i].0,
        Some(plan.meta.columns@[i].dtype) == type_of_code(batch_columns(batch)[i].1),
        plan.data@[i]@ == batch_columns(batch)[i].3,
        plan.appends@[i].locator.seg_id == plan.meta.columns@[i].seg_id,
        plan.appends@[i].locator.offset == plan.meta.columns@[i].offset,
        plan.appends@[i].locator.len == plan.meta.columns@[i].len,
        plan.rollback.0 == s.pool.active,
        plan.rollback.1 == s.pool.cursor,
        s.limit == 0 || quota_of(Some(plan.quota@)) <= s.limit,
{
    let cols = batch_columns(batch);
    let (locs, used) = put_columns(s, held, cols, old_total(earlier), quota).1->Ok_0;
    crate::store::kv_laws::quota_round_trip(used);
    lemma_placed_shape(s.pool, held, cols, cols.len());
    lemma_placed_prefix(s.pool, held, cols, i, cols.len());
    assert(plan.data@[i]@ == cols[i].3);
    assert(step_planned(s.pool, held, cols, i, plan.appends@[i]));
    assert(table_locators(plan.meta)[i] == locs[i]);
    assert(plan.meta.columns@[i].name@ == cols[i].0);
}

/// What was placed stays where it was when more is placed.
proof fn lemma_placed_prefix(
    p: PoolView,
    held: spec_fn(u32) -> bool,
    cols: Seq<ColumnView>,
    i: int,
    k: nat,
)
    requires
        0 <= i < k <= cols.len(),
        takes_all(p, cols),
        placed(p, held, cols, k).1 is Ok,
    ensures
        placed(p, held, cols, (i + 1) as nat).1 is Ok,
        placed(p, held, cols, k).1->Ok_0[i] == placed(p, held, cols, (i + 1) as nat).1->Ok_0[i],
    decreases k,
{
    if i < k - 1 {
        lemma_placed_prefix(p, held, cols, i, (k - 1) as nat);
        lemma_placed_shape(p, held, cols, (k - 1) as nat);
    }
}

/// A batch that is refused for a column is told the first that does not fit: the type of one that
/// is not known, the name of one that has nulls.
pub proof fn unfit_columns_are_told(batch: ArrowBatch, e: StoreError)
    requires
        unfit(batch, e),
        !(types_known(batch_columns(batch)) && null_free(batch_columns(batch))),
    ensures
        exists|k: int| #[trigger]
            told_of(batch, e, k) && 0 <= k < batch_columns(batch).len() && forall|j: int|
                0 <= j < k ==> 1 <= (#[trigger] batch_columns(batch)[j]).1 <= 5
                    && batch_columns(batch)[j].2 == 0,
{
    unfit_columns_are_found(batch_columns(batch), 0);
    let k = first_unfit(batch_columns(batch), 0) as int;
    assert(told_of(batch, e, k));
}

/// `e` tells of the `k`-th column: of its type where that is not known, otherwise of its nulls.
pub open spec fn told_of(batch: ArrowBatch, e: StoreError, k: int) -> bool {
    let c = batch_columns(batch)[k];
    if 1 <= c.1 <= 5 {
        c.2 != 0 && (e matches StoreError::Corrupt(Corruption::ColumnHasNulls(n)) && n@ == c.0)
    } else {
        e matches StoreError::Corrupt(Corruption::UnsupportedColumn(t)) && t@ == batch_types(
            batch,
        )[k]
    }
}

} // verus!
