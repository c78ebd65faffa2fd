//! Columnar store: the columns of a table go into segments one after the other, aligned to the
//! width of their values, and the table is known by where they stand.
//!
//! Tables and the count of bytes in use lie in a transactional table. A put that fails on the
//! way takes back what it has placed, unless a segment was sealed meanwhile.

use vstd::prelude::*;
use crate::bytes::le_bytes;
use crate::columnar::batch::{
    all_fit, batch_columns, batch_rows, batch_types, num_columns, num_rows, read_column,
    refuse_unfit, unfit, ArrowBatch, ColumnRead,
};
use crate::columnar::types::{type_of_code, ColType, ColumnMeta, TableMeta};
use crate::error::{Corruption, Result, StoreError};
use crate::mem::cache::{held_fn, tells};
use crate::mem::segment::{
    appended_aligned, file_view, has_name, names_view, padding, plan_tells, rewound, AppendPlan,
    PoolView, SegmentPool, ValueLocator,
};
use crate::store::kv::{charge, charged, quota_of, read_quota, write_quota, KvView};

verus! {

/// A column of a batch: name, number of the type, nulls, bytes.
pub type ColumnView = (Seq<char>, u8, nat, Seq<u8>);

/// Why a column was not placed.
pub enum ColumnFault {
    Unsupported(nat),
    HasNulls(Seq<char>),
    NotPlaced(StoreError),
}

/// `e` tells of a fault in a batch whose columns have these types.
pub open spec fn fault_tells(types: Seq<Seq<char>>, f: ColumnFault, e: StoreError) -> bool {
    match f {
        ColumnFault::Unsupported(i) => e matches StoreError::Corrupt(
            Corruption::UnsupportedColumn(t),
        ) && t@ == types[i as int],
        ColumnFault::HasNulls(name) => e matches StoreError::Corrupt(
            Corruption::ColumnHasNulls(n),
        ) && n@ == name,
        ColumnFault::NotPlaced(x) => e == x,
    }
}

/// The pool after the first `k` columns have been placed, and where they stand; the first
/// column that cannot be placed ends it.
pub open spec fn placed(
    p: PoolView,
    held: spec_fn(u32) -> bool,
    cols: Seq<ColumnView>,
    k: nat,
) -> (PoolView, std::result::Result<Seq<ValueLocator>, ColumnFault>)
    decreases k,
{
    if k == 0 {
        (p, Ok(Seq::empty()))
    } else {
        let (q, r) = placed(p, held, cols, (k - 1) as nat);
        let c = cols[k - 1];
        match r {
            Err(f) => (q, Err(f)),
            Ok(locs) => match type_of_code(c.1) {
                None => (q, Err(ColumnFault::Unsupported((k - 1) as nat))),
                Some(t) => if c.2 != 0 {
                    (q, Err(ColumnFault::HasNulls(c.0)))
                } else {
                    let (q2, e) = appended_aligned(q, held, c.3.len(), t.width());
                    match e {
                        Ok(loc) => (q2, Ok(locs.push(loc))),
                        Err(x) => (q2, Err(ColumnFault::NotPlaced(x))),
                    }
                },
            },
        }
    }
}

/// The lengths of some payloads, added up as far as a `u64` goes.
pub open spec fn total_len(locs: Seq<ValueLocator>) -> nat
    decreases locs.len(),
{
    if locs.len() == 0 {
        0
    } else {
        let sum = total_len(locs.drop_last()) + locs.last().len as nat;
        if sum <= u64::MAX {
            sum
        } else {
            u64::MAX as nat
        }
    }
}

/// The lengths of some columns, added up as far as a `u64` goes.
pub open spec fn columns_len(cols: Seq<ColumnView>) -> nat
    decreases cols.len(),
{
    if cols.len() == 0 {
        0
    } else {
        let sum = columns_len(cols.drop_last()) + cols.last().3.len();
        if sum <= u64::MAX {
            sum
        } else {
            u64::MAX as nat
        }
    }
}

/// Where the columns of a table stand.
pub open spec fn table_locators(meta: TableMeta) -> Seq<ValueLocator> {
    meta.columns@.map_values(
        |c: ColumnMeta| ValueLocator { seg_id: c.seg_id, offset: c.offset, len: c.len },
    )
}

/// What the columns of an earlier table take; nothing where there is none.
pub open spec fn old_total(earlier: Option<TableMeta>) -> nat {
    match earlier {
        Some(m) => total_len(table_locators(m)),
        None => 0,
    }
}

/// What a put of columns comes to: the pool after it, and where the columns stand with the
/// count to write.
pub open spec fn put_columns(
    s: KvView,
    held: spec_fn(u32) -> bool,
    cols: Seq<ColumnView>,
    old_total: nat,
    quota: Option<Seq<u8>>,
) -> (PoolView, std::result::Result<(Seq<ValueLocator>, u64), ColumnFault>) {
    let (q, r) = placed(s.pool, held, cols, cols.len());
    let back = rewound(q, s.pool.active, s.pool.cursor as u32).0;
    match r {
        Err(f) => (back, Err(f)),
        Ok(locs) => match charged(quota_of(quota), old_total, total_len(locs), s.limit) {
            None => (back, Err(ColumnFault::NotPlaced(StoreError::QuotaExceeded))),
            Some(used) => (q, Ok((locs, used))),
        },
    }
}

/// `meta` is the table of these rows and columns at these places.
pub open spec fn describes(
    meta: TableMeta,
    rows: nat,
    cols: Seq<ColumnView>,
    locs: Seq<ValueLocator>,
) -> bool {
    &&& meta.row_count == rows
    &&& meta.columns@.len() == cols.len()
    &&& table_locators(meta) == locs
    &&& forall|i: int|
        0 <= i < cols.len() ==> (#[trigger] meta.columns@[i]).name@ == cols[i].0 && Some(
            meta.columns@[i].dtype,
        ) == type_of_code(cols[i].1)
}

/// Whether every column can be placed or refused, whatever is sealed on the way.
pub open spec fn takes_all(p: PoolView, cols: Seq<ColumnView>) -> bool {
    &&& p.active + cols.len() + 1 < u32::MAX
    &&& forall|i: int|
        0 <= i < cols.len() && type_of_code(cols[i].1) is Some && cols[i].2 == 0 ==> (
        #[trigger] cols[i]).3.len() <= p.seg_size || cols[i].3.len() > u32::MAX
}

/// What a put writes: each column as its plan says, the table, and the count. Where the
/// transaction fails, `rollback` is where to rewind the pool to.
pub struct ColumnarPlan {
    pub appends: Vec<AppendPlan>,
    pub data: Vec<Vec<u8>>,
    pub meta: TableMeta,
    pub quota: Vec<u8>,
    pub rollback: (u32, u32),
}

/// A columnar store.
pub struct ColumnarStore {
    pool: SegmentPool,
    quota_limit: u64,
}

impl View for ColumnarStore {
    type V = KvView;

    closed spec fn view(&self) -> KvView {
        KvView { pool: self.pool@, limit: self.quota_limit }
    }
}

pub proof fn lemma_placed_shape(p: PoolView, held: spec_fn(u32) -> bool, cols: Seq<ColumnView>, k: nat)
    requires
        k <= cols.len(),
        takes_all(p, cols),
    ensures
        placed(p, held, cols, k).0.seg_size == p.seg_size,
        p.active <= placed(p, held, cols, k).0.active <= p.active + k,
        placed(p, held, cols, k).1 matches Ok(locs) ==> locs.len() == k,
    decreases k,
{
    if k > 0 {
        lemma_placed_shape(p, held, cols, (k - 1) as nat);
        let q = placed(p, held, cols, (k - 1) as nat).0;
        let c = cols[k - 1];
        if type_of_code(c.1) is Some {
            lemma_aligned_shape(q, held, c.3.len(), type_of_code(c.1)->Some_0.width());
        }
    }
}

pub proof fn lemma_aligned_shape(p: PoolView, held: spec_fn(u32) -> bool, len: nat, align: nat)
    ensures
        appended_aligned(p, held, len, align).0.seg_size == p.seg_size,
        p.active < u32::MAX - 1 && (len <= p.seg_size || len > u32::MAX) ==> p.active
            <= appended_aligned(p, held, len, align).0.active <= p.active + 1,
{
}

pub proof fn lemma_placed_err(
    p: PoolView,
    held: spec_fn(u32) -> bool,
    cols: Seq<ColumnView>,
    j: nat,
    k: nat,
)
    requires
        j <= k,
        placed(p, held, cols, j).1 is Err,
    ensures
        placed(p, held, cols, k) == placed(p, held, cols, j),
    decreases k,
{
    if j < k {
        lemma_placed_err(p, held, cols, j, (k - 1) as nat);
    }
}

/// The lengths of the columns of a table, added up as far as a `u64` goes.
pub fn table_bytes(meta: &TableMeta) -> (r: u64)
    ensures
        r == total_len(table_locators(*meta)),
{
    let ghost locs = table_locators(*meta);
    let mut sum: u64 = 0;
    let mut i: usize = 0;
    while i < meta.columns.len()
        invariant
            i <= meta.columns@.len(),
            locs == table_locators(*meta),
            sum == total_len(locs.take(i as int)),
        decreases meta.columns@.len() - i,
    {
        proof {
            assert(locs.take(i + 1).drop_last() =~= locs.take(i as int));
        }
        sum = sum.saturating_add(meta.columns[i].len as u64);
        i = i + 1;
    }
    proof {
        assert(locs.take(i as int) =~= locs);
    }
    sum
}

/// Checks a put against a limit, without placing anything: that the store takes every column,
/// and that the table keeps to the limit (0 is no limit).
pub fn check_columns(
    limit: u64,
    batch: &ArrowBatch,
    earlier: &Option<TableMeta>,
    quota: Option<&[u8]>,
) -> (r: Result<()>)
    ensures
        ({
            let cols = batch_columns(*batch);
            &&& !all_fit(cols) ==> r is Err && unfit(*batch, r->Err_0)
            &&& all_fit(cols) ==> match charged(
                quota_of(file_view(quota)),
                old_total(*earlier),
                columns_len(cols),
                limit,
            ) {
                Some(_) => r is Ok,
                None => r == Err::<(), _>(StoreError::QuotaExceeded),
            }
        }),
{
    refuse_unfit(batch)?;
    let ghost cols = batch_columns(*batch);
    let n: usize = num_columns(batch);
    let mut sum: u64 = 0;
    let mut i: usize = 0;
    while i < n
        invariant
            cols == batch_columns(*batch),
            all_fit(cols),
            n == cols.len(),
            i <= n,
            sum == columns_len(cols.take(i as int)),
        decreases n - i,
    {
        proof {
            assert(cols.take(i + 1).drop_last() =~= cols.take(i as int));
            assert(type_of_code(cols[i as int].1) is Some && cols[i as int].2 == 0);
        }
        if let ColumnRead::Values { name: _, dtype: _, bytes } = read_column(batch, i) {
            sum = sum.saturating_add(bytes.len() as u64);
        }
        i = i + 1;
    }
    proof {
        assert(cols.take(i as int) =~= cols);
    }
    let old_bytes: u64 = match earlier {
        Some(m) => table_bytes(m),
        None => 0,
    };
    charge(read_quota(quota), old_bytes, sum, limit)?;
    Ok(())
}

/// `r` and `after` are what a put of columns comes to.
pub open spec fn columns_result(
    s: KvView,
    held: spec_fn(u32) -> bool,
    batch: ArrowBatch,
    earlier: Option<TableMeta>,
    quota: Option<Seq<u8>>,
    after: PoolView,
    r: Result<ColumnarPlan>,
) -> bool {
    let cols = batch_columns(batch);
    let (pool, e) = put_columns(s, held, cols, old_total(earlier), quota);
    &&& after == pool
    &&& e matches Err(f) ==> r is Err && fault_tells(batch_types(batch), f, r->Err_0)
    &&& e matches Ok((locs, used)) ==> r is Ok && describes(
        r->Ok_0.meta,
        batch_rows(batch),
        cols,
        locs,
    ) && r->Ok_0.quota@ == le_bytes(used as nat, 8) && r->Ok_0.rollback == (
        s.pool.active,
        s.pool.cursor as u32,
    ) && plan_places(s.pool, held, cols, r->Ok_0.appends@, r->Ok_0.data@)
}

impl ColumnarStore {
    /// A store on an open pool. A limit of 0 is no limit.
    pub fn open(pool: SegmentPool, quota_limit: u64) -> (r: ColumnarStore)
        ensures
            r@ == (KvView { pool: pool@, limit: quota_limit }),
    {
        ColumnarStore { pool, quota_limit }
    }

    /// Whether every column of a batch can be placed or refused.
    pub fn accepts(&self, batch: &ArrowBatch) -> (r: bool)
        ensures
            r == takes_all(self@.pool, batch_columns(*batch)),
    {
        let n: usize = num_columns(batch);
        let ghost cols = batch_columns(*batch);
        if n as u64 >= (u32::MAX - self.pool.active_seg_id()) as u64 || n as u64 + 1
            >= (u32::MAX - self.pool.active_seg_id()) as u64 {
            return false;
        }
        let mut i: usize = 0;
        while i < n
            invariant
                n == cols.len(),
                cols == batch_columns(*batch),
                i <= n,
                forall|j: int|
                    0 <= j < i && type_of_code(cols[j].1) is Some && cols[j].2 == 0 ==> (
                    #[trigger] cols[j]).3.len() <= self@.pool.seg_size || cols[j].3.len()
                        > u32::MAX,
            decreases n - i,
        {
            match read_column(batch, i) {
                ColumnRead::Values { name: _, dtype: _, bytes } => {
                    let len: u64 = bytes.len() as u64;
                    if len > self.pool.seg_size() && len <= u32::MAX as u64 {
                        return false;
                    }
                },
                _ => {},
            }
            i = i + 1;
        }
        true
    }

    /// Places the columns of a batch. Takes the table that stands under the same name and the
    /// count, as the table store holds them.
    pub fn put_columnar<H: Fn(u32) -> bool>(
        &mut self,
        batch: &ArrowBatch,
        earlier: &Option<TableMeta>,
        quota: Option<&[u8]>,
        held: &H,
    ) -> (r: Result<ColumnarPlan>)
        requires
            tells(*held),
            takes_all(old(self)@.pool, batch_columns(*batch)),
        ensures
            columns_result(
                old(self)@,
                held_fn(*held),
                *batch,
                *earlier,
                file_view(quota),
                final(self)@.pool,
                r,
            ),
            final(self)@.limit == old(self)@.limit,
    {
        let limit: u64 = self.quota_limit;
        self.put_within(limit, batch, earlier, quota, held)
    }

    /// Places the columns of a batch that the log holds. It was held against the limit before
    /// it was logged, and is not held against it again.
    pub fn replay_columnar<H: Fn(u32) -> bool>(
        &mut self,
        batch: &ArrowBatch,
        earlier: &Option<TableMeta>,
        quota: Option<&[u8]>,
        held: &H,
    ) -> (r: Result<ColumnarPlan>)
        requires
            tells(*held),
            takes_all(old(self)@.pool, batch_columns(*batch)),
        ensures
            columns_result(
                (KvView { pool: old(self)@.pool, limit: 0 }),
                held_fn(*held),
                *batch,
                *earlier,
                file_view(quota),
                final(self)@.pool,
                r,
            ),
            final(self)@.limit == old(self)@.limit,
    {
        self.put_within(0, batch, earlier, quota, held)
    }

    fn put_within<H: Fn(u32) -> bool>(
        &mut self,
        limit: u64,
        batch: &ArrowBatch,
        earlier: &Option<TableMeta>,
        quota: Option<&[u8]>,
        held: &H,
    ) -> (r: Result<ColumnarPlan>)
        requires
            tells(*held),
            takes_all(old(self)@.pool, batch_columns(*batch)),
        ensures
            columns_result(
                (KvView { pool: old(self)@.pool, limit }),
                held_fn(*held),
                *batch,
                *earlier,
                file_view(quota),
                final(self)@.pool,
                r,
            ),
            final(self)@.limit == old(self)@.limit,
    {
        let ghost p0 = self.pool@;
        let ghost h = held_fn(*held);
        let ghost cols = batch_columns(*batch);
        let rollback_seg: u32 = self.pool.active_seg_id();
        #[verifier::truncate]
        let rollback_off: u32 = self.pool.active_cursor() as u32;
        let n: usize = num_columns(batch);
        let mut columns: Vec<ColumnMeta> = Vec::new();
        let mut appends: Vec<AppendPlan> = Vec::new();
        let mut data: Vec<Vec<u8>> = Vec::new();
        let mut bytes_added: u64 = 0;
        let mut failed: Option<StoreError> = None;
        let mut i: usize = 0;
        let ghost mut locs: Seq<ValueLocator> = Seq::empty();
        while i < n && failed.is_none()
            invariant
                tells(*held),
                h == held_fn(*held),
                cols == batch_columns(*batch),
                takes_all(p0, cols),
                n == cols.len(),
                i <= n,
                self.pool@ == placed(p0, h, cols, i as nat).0,
                failed is None ==> placed(p0, h, cols, i as nat).1 == Ok::<
                    Seq<ValueLocator>,
                    ColumnFault,
                >(locs),
                failed is Some ==> placed(p0, h, cols, i as nat).1 is Err && fault_tells(
                    batch_types(*batch),
                    placed(p0, h, cols, i as nat).1->Err_0,
                    failed->Some_0,
                ),
                self.quota_limit == old(self).quota_limit,
                failed is None ==> locs.len() == i && columns@.len() == i && appends@.len() == i
                    && data@.len() == i && bytes_added == total_len(locs),
                failed is None ==> forall|j: int|
                    0 <= j < i ==> (#[trigger] columns@[j]).name@ == cols[j].0 && Some(
                        columns@[j].dtype,
                    ) == type_of_code(cols[j].1) && (ValueLocator {
                        seg_id: columns@[j].seg_id,
                        offset: columns@[j].offset,
                        len: columns@[j].len,
                    }) == locs[j],
                failed is None ==> forall|j: int|
                    0 <= j < i ==> (#[trigger] data@[j])@ == cols[j].3,
                failed is None ==> forall|j: int|
                    0 <= j < i ==> step_planned(p0, h, cols, j, #[trigger] appends@[j]),
            decreases n - i, if failed is None { 1int } else { 0int },
        {
            let ghost q = self.pool@;
            proof {
                lemma_placed_shape(p0, h, cols, i as nat);
            }
            match read_column(batch, i) {
                ColumnRead::Unsupported(text) => {
                    failed = Some(StoreError::Corrupt(Corruption::UnsupportedColumn(text)));
                },
                ColumnRead::HasNulls(name) => {
                    failed = Some(StoreError::Corrupt(Corruption::ColumnHasNulls(name)));
                },
                ColumnRead::Values { name, dtype, bytes } => {
                    proof {
                        assert(cols[i as int].3.len() <= p0.seg_size || cols[i as int].3.len()
                            > u32::MAX);
                    }
                    match self.pool.append_aligned(bytes.as_slice(), dtype.byte_width(), held) {
                        Err(e) => {
                            failed = Some(e);
                        },
                        Ok(plan) => {
                            let loc: ValueLocator = plan.locator;
                            bytes_added = bytes_added.saturating_add(loc.len as u64);
                            columns.push(
                                ColumnMeta {
                                    name,
                                    dtype,
                                    seg_id: loc.seg_id,
                                    offset: loc.offset,
                                    len: loc.len,
                                },
                            );
                            appends.push(plan);
                            data.push(bytes);
                            proof {
                                let more = locs.push(loc);
                                assert(more.drop_last() =~= locs);
                                locs = more;
                                assert(placed(p0, h, cols, (i + 1) as nat).0 == self.pool@);
                                assert(step_planned(p0, h, cols, i as int, appends@[i as int]));
                            }
                        },
                    }
                },
            }
            i = i + 1;
        }
        if let Some(e) = failed {
            proof {
                lemma_placed_err(p0, h, cols, i as nat, cols.len());
            }
            let _ = self.pool.rewind_active_to(rollback_seg, rollback_off);
            return Err(e);
        }
        proof {
            assert(i == n);
        }
        let old_bytes: u64 = match earlier {
            Some(m) => table_bytes(m),
            None => 0,
        };
        let used: u64 = match charge(read_quota(quota), old_bytes, bytes_added, limit) {
            Ok(u) => u,
            Err(e) => {
                let _ = self.pool.rewind_active_to(rollback_seg, rollback_off);
                return Err(e);
            },
        };
        let meta = TableMeta { row_count: num_rows(batch), columns };
        proof {
            assert(table_locators(meta) =~= locs);
        }
        Ok(
            ColumnarPlan {
                appends,
                data,
                meta,
                quota: write_quota(used),
                rollback: (rollback_seg, rollback_off),
            },
        )
    }

    /// Takes back what a put has placed, where its transaction failed.
    pub fn rollback(&mut self, plan: &ColumnarPlan) -> (r: Result<()>)
        ensures
            ({
                let (pool, e) = rewound(old(self)@.pool, plan.rollback.0, plan.rollback.1);
                final(self)@ == (KvView { pool, limit: old(self)@.limit }) && r == e
            }),
    {
        self.pool.rewind_active_to(plan.rollback.0, plan.rollback.1)
    }

    /// The pool of the store.
    pub fn pool(&self) -> (r: &SegmentPool)
        ensures
            r@ == self@.pool,
    {
        &self.pool
    }

    /// The pool of the store, to note which segments are mapped.
    pub fn pool_mut(&mut self) -> (r: &mut SegmentPool)
        ensures
            r@ == old(self)@.pool,
            final(self)@ == (KvView { pool: final(r)@, limit: old(self)@.limit }),
    {
        &mut self.pool
    }

    /// What the cursor file says once the active segment has been flushed.
    pub fn flush(&self) -> (r: Vec<u8>)
        ensures
            r@ == crate::mem::segment::cursor_bytes(self@.pool.active, self@.pool.cursor),
    {
        self.pool.flush()
    }

    /// The bytes in use.
    pub fn used_bytes(quota: Option<&[u8]>) -> (r: u64)
        ensures
            r == quota_of(file_view(quota)),
    {
        read_quota(quota)
    }

    /// The limit on the bytes in use; 0 is no limit.
    pub fn quota_limit(&self) -> (r: u64)
        ensures
            r == self@.limit,
    {
        self.quota_limit
    }
}

/// `plan` is how column `j` was placed behind those before it.
pub open spec fn step_planned(
    p: PoolView,
    held: spec_fn(u32) -> bool,
    cols: Seq<ColumnView>,
    j: int,
    plan: AppendPlan,
) -> bool {
    let before = placed(p, held, cols, j as nat).0;
    let after = placed(p, held, cols, (j + 1) as nat);
    &&& plan_tells(before, after.0, plan)
    &&& after.1 is Ok
    &&& after.1->Ok_0.len() == j + 1
    &&& plan.locator == after.1->Ok_0[j]
    &&& plan.pad == (if type_of_code(cols[j].1)->Some_0.width() > 1 && padding(
        before.cursor,
        type_of_code(cols[j].1)->Some_0.width(),
    ) <= before.left() {
        padding(before.cursor, type_of_code(cols[j].1)->Some_0.width())
    } else {
        0
    })
}

/// The plans and bytes of all columns.
pub open spec fn plan_places(
    p: PoolView,
    held: spec_fn(u32) -> bool,
    cols: Seq<ColumnView>,
    appends: Seq<AppendPlan>,
    data: Seq<Vec<u8>>,
) -> bool {
    &&& appends.len() == cols.len()
    &&& data.len() == cols.len()
    &&& forall|j: int| 0 <= j < cols.len() ==> (#[trigger] data[j])@ == cols[j].3
    &&& forall|j: int|
        0 <= j < cols.len() ==> step_planned(p, held, cols, j, #[trigger] appends[j])
}

/// Whether a column is asked for: by name, or with all others where none is named.
pub open spec fn asked_for(name: Seq<char>, wanted: Seq<Seq<char>>) -> bool {
    wanted.len() == 0 || wanted.contains(name)
}

/// The columns that are asked for, among the first `k` of a table.
pub open spec fn selection(meta: TableMeta, wanted: Seq<Seq<char>>, k: nat) -> Seq<usize>
    decreases k,
{
    if k == 0 {
        Seq::empty()
    } else if asked_for(meta.columns@[k - 1].name@, wanted) {
        selection(meta, wanted, (k - 1) as nat).push((k - 1) as usize)
    } else {
        selection(meta, wanted, (k - 1) as nat)
    }
}

/// Which columns of a table a read returns, in the order of the table; `None` where it returns
/// none.
pub fn select_columns(meta: &TableMeta, wanted: &Vec<String>) -> (r: Option<Vec<usize>>)
    ensures
        ({
            let s = selection(*meta, names_view(wanted@), meta.columns@.len());
            if s.len() == 0 {
                r is None
            } else {
                r is Some && r->Some_0@ == s
            }
        }),
{
    let ghost ws = names_view(wanted@);
    let mut out: Vec<usize> = Vec::new();
    let mut i: usize = 0;
    while i < meta.columns.len()
        invariant
            i <= meta.columns@.len(),
            ws == names_view(wanted@),
            out@ == selection(*meta, ws, i as nat),
        decreases meta.columns@.len() - i,
    {
        if wanted.len() == 0 || has_name(wanted, &meta.columns[i].name) {
            out.push(i);
        }
        i = i + 1;
    }
    if out.len() == 0 {
        None
    } else {
        Some(out)
    }
}

/// Whether a column lies within a segment of `size` bytes, aligned, with room for its rows.
pub open spec fn column_lies_in(c: ColumnMeta, rows: nat, size: nat) -> bool {
    &&& c.offset + c.len <= size
    &&& c.dtype.bytes_for(rows) <= c.len
    &&& c.offset as nat % c.dtype.width() == 0
}

/// Refuses a column that does not lie within its segment.
pub fn check_column(c: &ColumnMeta, rows: usize, size: usize) -> (r: Result<()>)
    ensures
        column_lies_in(*c, rows as nat, size as nat) ==> r is Ok,
        !column_lies_in(*c, rows as nat, size as nat) ==> r is Err && r->Err_0
            == StoreError::Corrupt(
            Corruption::ColumnOutside { start: c.offset, bytes: c.len, rows, size },
        ),
{
    let end: u64 = c.offset as u64 + c.len as u64;
    let width: u64 = c.dtype.byte_width() as u64;
    let need: u128 = match c.dtype {
        ColType::Boolean => (rows as u128 + 7) / 8,
        _ => {
            assert(rows as u128 * width as u128 <= 8 * u64::MAX) by (nonlinear_arith)
                requires
                    rows <= u64::MAX,
                    width <= 8,
            ;
            rows as u128 * width as u128
        },
    };
    if end > size as u64 || need > c.len as u128 || c.offset as u64 % width != 0 {
        Err(
            StoreError::Corrupt(
                Corruption::ColumnOutside { start: c.offset, bytes: c.len, rows, size },
            ),
        )
    } else {
        Ok(())
    }
}

/// The first of the selected columns that does not lie within its segment, from the `i`th on.
pub open spec fn first_outside(
    meta: TableMeta,
    picked: Seq<usize>,
    sizes: Seq<usize>,
    i: nat,
) -> Option<usize>
    decreases picked.len() - i,
{
    if i >= picked.len() {
        None
    } else if column_lies_in(
        meta.columns@[picked[i as int] as int],
        meta.row_count as nat,
        sizes[picked[i as int] as int] as nat,
    ) {
        first_outside(meta, picked, sizes, i + 1)
    } else {
        Some(picked[i as int])
    }
}

/// Which columns a read of a table maps, in the order of the table; `None` where there is no
/// such table or no such column. Every column must lie within its segment; `sizes` says of each
/// column of the table how many bytes of its segment are mapped.
pub fn get_columnar_zero_copy(
    meta: Option<&TableMeta>,
    wanted: &Vec<String>,
    sizes: &Vec<usize>,
) -> (r: Result<Option<Vec<usize>>>)
    requires
        meta matches Some(m) ==> sizes@.len() == m.columns@.len(),
    ensures
        meta is None ==> r == Ok::<Option<Vec<usize>>, StoreError>(None),
        meta matches Some(m) ==> ({
            let s = selection(*m, names_view(wanted@), m.columns@.len());
            if s.len() == 0 {
                r == Ok::<Option<Vec<usize>>, StoreError>(None)
            } else {
                match first_outside(*m, s, sizes@, 0) {
                    None => r is Ok && r->Ok_0 is Some && r->Ok_0->Some_0@ == s,
                    Some(c) => r is Err && r->Err_0 == StoreError::Corrupt(
                        Corruption::ColumnOutside {
                            start: m.columns@[c as int].offset,
                            bytes: m.columns@[c as int].len,
                            rows: m.row_count,
                            size: sizes@[c as int],
                        },
                    ),
                }
            }
        }),
{
    let table: &TableMeta = match meta {
        Some(m) => m,
        None => return Ok(None),
    };
    let picked: Vec<usize> = match select_columns(table, wanted) {
        Some(p) => p,
        None => return Ok(None),
    };
    proof {
        lemma_selection(*table, names_view(wanted@), table.columns@.len());
    }
    let mut i: usize = 0;
    while i < picked.len()
        invariant
            i <= picked@.len(),
            picked@ == selection(*table, names_view(wanted@), table.columns@.len()),
            meta == Some(table),
            sizes@.len() == table.columns@.len(),
            picked@.len() > 0,
            forall|j: int| 0 <= j < picked@.len() ==> #[trigger] picked@[j] < table.columns@.len(),
            first_outside(*table, picked@, sizes@, 0) == first_outside(
                *table,
                picked@,
                sizes@,
                i as nat,
            ),
        decreases picked@.len() - i,
    {
        let c: usize = picked[i];
        check_column(&table.columns[c], table.row_count, sizes[c])?;
        i = i + 1;
    }
    Ok(Some(picked))
}

proof fn lemma_selection(meta: TableMeta, wanted: Seq<Seq<char>>, k: nat)
    requires
        k <= meta.columns.len(),
    ensures
        forall|j: int|
            0 <= j < selection(meta, wanted, k).len() ==> #[trigger] selection(meta, wanted, k)[j]
                < k,
    decreases k,
{
    if k > 0 {
        lemma_selection(meta, wanted, (k - 1) as nat);
        let before = selection(meta, wanted, (k - 1) as nat);
        let now = selection(meta, wanted, k);
        assert forall|j: int| 0 <= j < now.len() implies #[trigger] now[j] < k by {
            if j < before.len() {
                assert(before[j] < k - 1);
            }
        }
    }
}

} // verus!
