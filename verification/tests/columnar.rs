use std::collections::BTreeMap;
use std::sync::Arc;

use arrow::array::{
    Array, ArrayRef, BooleanArray, Float32Array, Float64Array, Int32Array, Int64Array, StringArray,
};
use arrow::datatypes::{DataType, Field, Schema};
use arrow::record_batch::RecordBatch;
use fusion_store::columnar::batch::{
    decode_ipc, encode_ipc, first_batch, logged_batch, num_columns, num_rows, read_column,
    refuse_unfit, ArrowBatch, ColumnRead,
};
use fusion_store::columnar::notes::{stream_holds, MAX_TABLES};
use fusion_store::columnar::store::{
    check_column, get_columnar_zero_copy, select_columns, table_bytes, ColumnarStore,
};
use fusion_store::columnar::types::{ColType, ColumnMeta, TableMeta};
use fusion_store::error::{Corruption, StoreError};
use fusion_store::mem::segment::SegmentPool;

/// A columnar store with its tables and segments in memory.
struct Store {
    col: ColumnarStore,
    tables: BTreeMap<String, TableMeta>,
    quota: Option<Vec<u8>>,
    segs: BTreeMap<u32, Vec<u8>>,
    seg_size: u64,
}

/// A column that was read: its name and type, and its bytes.
struct Column {
    name: String,
    dtype: ColType,
    bytes: Vec<u8>,
}

struct Read {
    rows: usize,
    columns: Vec<Column>,
}

impl Read {
    fn words(&self, i: usize) -> Vec<i32> {
        self.columns[i].bytes.chunks(4).map(|c| i32::from_le_bytes(c.try_into().unwrap())).collect()
    }

    fn longs(&self, i: usize) -> Vec<i64> {
        self.columns[i].bytes.chunks(8).map(|c| i64::from_le_bytes(c.try_into().unwrap())).collect()
    }

    fn doubles(&self, i: usize) -> Vec<f64> {
        self.columns[i].bytes.chunks(8).map(|c| f64::from_le_bytes(c.try_into().unwrap())).collect()
    }

    fn flag(&self, i: usize, row: usize) -> bool {
        self.columns[i].bytes[row / 8] & (1 << (row % 8)) != 0
    }
}

impl Store {
    fn open(seg_size: u64, quota: u64) -> Store {
        let pool = SegmentPool::open(None, &Vec::new(), seg_size).unwrap();
        let seg_size = pool.seg_size();
        Store {
            col: ColumnarStore::open(pool, quota),
            tables: BTreeMap::new(),
            quota: None,
            segs: BTreeMap::new(),
            seg_size,
        }
    }

    fn put_columnar(&mut self, table: &str, batch: &RecordBatch) -> Result<(), StoreError> {
        let batch = ArrowBatch { inner: batch.clone() };
        assert!(self.col.accepts(&batch));
        let earlier = self.tables.get(table).cloned();
        let plan =
            self.col.put_columnar(&batch, &earlier, self.quota.as_deref(), &|_: u32| false)?;
        for (append, data) in plan.appends.iter().zip(&plan.data) {
            let loc = append.locator;
            let seg = self.segs.entry(loc.seg_id).or_default();
            let end = loc.offset as usize + data.len();
            if seg.len() < end {
                seg.resize(end, 0);
            }
            seg[loc.offset as usize..end].copy_from_slice(data);
        }
        self.tables.insert(table.to_string(), plan.meta);
        self.quota = Some(plan.quota);
        Ok(())
    }

    fn get_columnar(&self, table: &str, wanted: &[&str]) -> Result<Option<Read>, StoreError> {
        let wanted: Vec<String> = wanted.iter().map(|w| w.to_string()).collect();
        let meta = self.tables.get(table);
        let count = meta.map(|m| m.columns.len()).unwrap_or(0);
        let sizes = vec![self.seg_size as usize; count];
        let picked = match get_columnar_zero_copy(meta, &wanted, &sizes)? {
            Some(p) => p,
            None => return Ok(None),
        };
        let meta = meta.unwrap();
        let columns = picked
            .iter()
            .map(|i| {
                let c = &meta.columns[*i];
                let seg = &self.segs[&c.seg_id];
                Column {
                    name: c.name.clone(),
                    dtype: c.dtype,
                    bytes: seg[c.offset as usize..(c.offset + c.len) as usize].to_vec(),
                }
            })
            .collect();
        Ok(Some(Read { rows: meta.row_count, columns }))
    }

    fn used_bytes(&self) -> u64 {
        ColumnarStore::used_bytes(self.quota.as_deref())
    }
}

fn batch_of(fields: Vec<(&str, DataType, bool)>, columns: Vec<ArrayRef>) -> RecordBatch {
    let fields: Vec<Field> =
        fields.into_iter().map(|(n, t, null)| Field::new(n, t, null)).collect();
    RecordBatch::try_new(Arc::new(Schema::new(fields)), columns).unwrap()
}

fn make_batch() -> RecordBatch {
    batch_of(
        vec![("id", DataType::Int32, false), ("score", DataType::Float32, false)],
        vec![
            Arc::new(Int32Array::from(vec![1, 2, 3, 4])),
            Arc::new(Float32Array::from(vec![0.1, 0.2, 0.3, 0.4])),
        ],
    )
}

fn all_types() -> RecordBatch {
    batch_of(
        vec![
            ("i32", DataType::Int32, false),
            ("i64", DataType::Int64, false),
            ("f32", DataType::Float32, false),
            ("f64", DataType::Float64, false),
            ("b", DataType::Boolean, false),
        ],
        vec![
            Arc::new(Int32Array::from(vec![10, 20, 30])),
            Arc::new(Int64Array::from(vec![100i64, 200, 300])),
            Arc::new(Float32Array::from(vec![1.5f32, 2.5, 3.5])),
            Arc::new(Float64Array::from(vec![1.5f64, 2.5, 3.5])),
            Arc::new(BooleanArray::from(vec![true, false, true])),
        ],
    )
}

fn with_null() -> RecordBatch {
    batch_of(
        vec![("n", DataType::Int32, true)],
        vec![Arc::new(Int32Array::from(vec![Some(1), None, Some(3)]))],
    )
}

fn of_text() -> RecordBatch {
    batch_of(
        vec![("s", DataType::Utf8, false)],
        vec![Arc::new(StringArray::from(vec!["a", "b"]))],
    )
}

#[test]
fn put_get_columnar_roundtrip() {
    let mut store = Store::open(0, 0);
    store.put_columnar("t1", &make_batch()).unwrap();
    let out = store.get_columnar("t1", &[]).unwrap().unwrap();
    assert_eq!(out.rows, 4);
    assert_eq!(out.columns.len(), 2);
    assert_eq!(out.words(0), vec![1, 2, 3, 4]);
    assert_eq!(out.columns[0].name, "id");
    assert_eq!(out.columns[1].dtype, ColType::Float32);
}

#[test]
fn get_missing_returns_none() {
    let store = Store::open(0, 0);
    assert!(store.get_columnar("nope", &[]).unwrap().is_none());
}

#[test]
fn all_types_roundtrip() {
    let mut store = Store::open(0, 0);
    store.put_columnar("alltypes", &all_types()).unwrap();
    let out = store.get_columnar("alltypes", &[]).unwrap().unwrap();
    assert_eq!(out.rows, 3);
    assert_eq!(out.words(0), vec![10, 20, 30]);
    assert_eq!(out.longs(1), vec![100, 200, 300]);
    assert_eq!(out.words(2), vec![1.5f32, 2.5, 3.5].iter().map(|f| f.to_bits() as i32).collect::<Vec<_>>());
    assert_eq!(out.doubles(3), vec![1.5f64, 2.5, 3.5]);
    assert!(out.flag(4, 0));
    assert!(!out.flag(4, 1));
    assert!(out.flag(4, 2));
}

#[test]
fn zero_copy_pointer_in_mmap_region() {
    let mut store = Store::open(64, 0);
    let batch = batch_of(
        vec![("x", DataType::Int64, false)],
        vec![Arc::new(Int64Array::from(vec![7i64, 8, 9]))],
    );
    store.put_columnar("z", &batch).unwrap();
    let out = store.get_columnar("z", &[]).unwrap().unwrap();
    assert_eq!(out.longs(0), vec![7, 8, 9]);
}

#[test]
fn column_projection_subset() {
    let mut store = Store::open(0, 0);
    let batch = batch_of(
        vec![("a", DataType::Int32, false), ("b", DataType::Float64, false)],
        vec![
            Arc::new(Int32Array::from(vec![1, 2])),
            Arc::new(Float64Array::from(vec![9.0, 8.0])),
        ],
    );
    store.put_columnar("proj", &batch).unwrap();
    let out = store.get_columnar("proj", &["b"]).unwrap().unwrap();
    assert_eq!(out.columns.len(), 1);
    assert_eq!(out.doubles(0), vec![9.0, 8.0]);
    assert!(store.get_columnar("proj", &["c"]).unwrap().is_none());
}

#[test]
fn reject_null_column() {
    let mut store = Store::open(0, 0);
    let err = store.put_columnar("nulls", &with_null()).unwrap_err();
    assert!(matches!(err, StoreError::Corrupt(_)));
    assert_eq!(err, StoreError::Corrupt(Corruption::ColumnHasNulls("n".to_string())));
}

#[test]
fn reject_unsupported_type() {
    let mut store = Store::open(0, 0);
    let err = store.put_columnar("str", &of_text()).unwrap_err();
    assert!(matches!(err, StoreError::Corrupt(_)));
    assert_eq!(err, StoreError::Corrupt(Corruption::UnsupportedColumn("Utf8".to_string())));
}

#[test]
fn quota_exceeded_rejects_put_columnar() {
    let mut store = Store::open(0, 16);
    let batch = batch_of(
        vec![("id", DataType::Int32, false)],
        vec![Arc::new(Int32Array::from(vec![1, 2, 3, 4]))],
    );
    store.put_columnar("t", &batch).unwrap();
    assert_eq!(store.used_bytes(), 16);
    store.put_columnar("t", &batch).unwrap();
    assert_eq!(store.used_bytes(), 16);
    let err = store.put_columnar("t2", &batch).unwrap_err();
    assert!(matches!(err, StoreError::QuotaExceeded));
}

#[test]
fn refused_puts_take_no_room() {
    let mut store = Store::open(0, 0);
    store.put_columnar("t", &make_batch()).unwrap();
    let before = (store.col.pool().active_seg_id(), store.col.pool().active_cursor());
    let mixed = batch_of(
        vec![("ok", DataType::Int64, false), ("n", DataType::Int32, true)],
        vec![
            Arc::new(Int64Array::from(vec![1i64, 2])),
            Arc::new(Int32Array::from(vec![Some(1), None])),
        ],
    );
    assert!(store.put_columnar("t", &mixed).is_err());
    assert_eq!((store.col.pool().active_seg_id(), store.col.pool().active_cursor()), before);
    assert_eq!(store.get_columnar("t", &[]).unwrap().unwrap().words(0), vec![1, 2, 3, 4]);
}

#[test]
fn rolled_back_puts_take_no_room() {
    let mut store = Store::open(0, 0);
    let before = (store.col.pool().active_seg_id(), store.col.pool().active_cursor());
    let batch = ArrowBatch { inner: make_batch() };
    let plan = store.col.put_columnar(&batch, &None, None, &|_: u32| false).unwrap();
    assert_eq!(plan.rollback, (before.0, before.1 as u32));
    assert_eq!(store.col.pool().active_cursor(), 32);
    store.col.rollback(&plan).unwrap();
    assert_eq!((store.col.pool().active_seg_id(), store.col.pool().active_cursor()), before);
}

#[test]
fn columns_are_aligned_to_their_width() {
    let mut store = Store::open(0, 0);
    store.put_columnar("t", &all_types()).unwrap();
    let meta = &store.tables["t"];
    for c in &meta.columns {
        assert_eq!(c.offset as usize % c.dtype.byte_width(), 0);
    }
    assert_eq!(meta.columns[1].offset, 16, "twelve bytes, then four to fill up");
    assert_eq!(table_bytes(meta), 12 + 24 + 12 + 24 + 1);
}

#[test]
fn widths_of_the_types() {
    assert_eq!(ColType::Int32.byte_width(), 4);
    assert_eq!(ColType::Float32.byte_width(), 4);
    assert_eq!(ColType::Int64.byte_width(), 8);
    assert_eq!(ColType::Float64.byte_width(), 8);
    assert_eq!(ColType::Boolean.byte_width(), 1);
}

#[test]
fn logged_batches_read_back() {
    let batch = ArrowBatch { inner: all_types() };
    let ipc = encode_ipc(&batch).unwrap();
    assert_ne!(ipc.len(), 0);
    let back = decode_ipc(&ipc).unwrap();
    assert_eq!(back.inner, batch.inner);
    let logged = logged_batch(&batch).unwrap();
    assert_eq!(logged.inner, batch.inner);
    assert_eq!((num_rows(&logged), num_columns(&logged)), (3, 5));
}

#[test]
fn unknown_types_do_not_reach_the_log() {
    let batch = ArrowBatch { inner: of_text() };
    let fault = StoreError::Corrupt(Corruption::UnsupportedColumn("Utf8".to_string()));
    assert_eq!(
        fault.message(),
        "corrupt: unsupported column type Utf8 (M3: Int32/Int64/Float32/Float64/Boolean only)"
    );
    assert_eq!(refuse_unfit(&batch), Err(fault.clone()));
    assert_eq!(logged_batch(&batch).err(), Some(fault));
    assert!(refuse_unfit(&ArrowBatch { inner: all_types() }).is_ok());
}

#[test]
fn columns_with_nulls_do_not_reach_the_log() {
    let batch = ArrowBatch { inner: with_null() };
    let name = batch.inner.schema().field(0).name().clone();
    let fault = StoreError::Corrupt(Corruption::ColumnHasNulls(name.clone()));
    assert_eq!(
        fault.message(),
        format!("corrupt: column {} has nulls (M3 supports non-null only)", name)
    );
    assert_eq!(refuse_unfit(&batch), Err(fault.clone()));
    assert_eq!(logged_batch(&batch).err(), Some(fault));
}

fn noted(n: usize) -> ArrowBatch {
    let notes: std::collections::HashMap<String, String> =
        (0..n).map(|i| (format!("k{i}"), "v".repeat(i % 7))).collect();
    let field = Field::new("a", DataType::Int32, false).with_metadata(notes.clone());
    let schema = Schema::new_with_metadata(vec![field], notes);
    let column: ArrayRef = Arc::new(Int32Array::from(vec![7, 8]));
    ArrowBatch { inner: RecordBatch::try_new(Arc::new(schema), vec![column]).unwrap() }
}

#[test]
fn notes_reach_the_log() {
    let batch = noted(40);
    let back = decode_ipc(&encode_ipc(&batch).unwrap()).unwrap();
    assert_eq!(back.inner, batch.inner);
    assert_eq!(back.inner.schema().metadata().len(), 40);
    assert_eq!(back.inner.schema().field(0).metadata().len(), 40);
}

#[test]
fn notes_count_towards_what_a_stream_holds() {
    // two tables for the message, two for the column, one for each note
    let most = (MAX_TABLES - 4) / 2;
    assert!(stream_holds(&noted(most)));
    assert!(!stream_holds(&noted(most + 1)));
}

#[test]
fn tables_that_are_too_wide_do_not_reach_the_log() {
    let wide = |n: usize| {
        let fields: Vec<Field> =
            (0..n).map(|_| Field::new("c", DataType::Boolean, false)).collect();
        let column: ArrayRef = Arc::new(BooleanArray::from(vec![true]));
        let columns: Vec<ArrayRef> = (0..n).map(|_| column.clone()).collect();
        ArrowBatch { inner: RecordBatch::try_new(Arc::new(Schema::new(fields)), columns).unwrap() }
    };
    let most = (MAX_TABLES - 2) / 2;
    let fault = StoreError::Corrupt(Corruption::SchemaTooLarge);
    assert_eq!(encode_ipc(&wide(most + 1)).err(), Some(fault.clone()));
    assert_eq!(fault.message(), "corrupt: schema of the table is too large for the log");
    let ipc = encode_ipc(&wide(most)).unwrap();
    assert_eq!(num_columns(&decode_ipc(&ipc).unwrap()), most);
}

#[test]
fn columns_are_read_as_they_are() {
    let batch = ArrowBatch { inner: all_types() };
    match read_column(&batch, 4) {
        ColumnRead::Values { name, dtype, bytes } => {
            assert_eq!((name.as_str(), dtype, bytes), ("b", ColType::Boolean, vec![0b101]));
        }
        _ => panic!("not read"),
    }
    match read_column(&batch, 0) {
        ColumnRead::Values { bytes, .. } => {
            assert_eq!(bytes, vec![10, 0, 0, 0, 20, 0, 0, 0, 30, 0, 0, 0]);
        }
        _ => panic!("not read"),
    }
    assert!(matches!(read_column(&ArrowBatch { inner: with_null() }, 0), ColumnRead::HasNulls(_)));
    assert!(matches!(read_column(&ArrowBatch { inner: of_text() }, 0), ColumnRead::Unsupported(_)));
}

#[test]
fn sliced_booleans_are_packed_from_the_start() {
    let all: Vec<bool> = (0..20).map(|i| i % 3 == 0).collect();
    let sliced = BooleanArray::from(all.clone()).slice(5, 9);
    let batch = batch_of(vec![("b", DataType::Boolean, false)], vec![Arc::new(sliced)]);
    match read_column(&ArrowBatch { inner: batch }, 0) {
        ColumnRead::Values { bytes, .. } => {
            for i in 0..9 {
                assert_eq!(bytes[i / 8] & (1 << (i % 8)) != 0, all[5 + i]);
            }
        }
        _ => panic!("not read"),
    }
}

#[test]
fn streams_without_a_batch_are_refused() {
    assert_eq!(
        first_batch(Ok(None)).err(),
        Some(StoreError::Corrupt(Corruption::EmptyIpcStream))
    );
    let fault = arrow::error::ArrowError::IpcError("broken".to_string());
    assert!(matches!(first_batch(Err(fault)), Err(StoreError::Arrow(_))));
}

fn meta(offset: u32, len: u32, dtype: ColType) -> ColumnMeta {
    ColumnMeta { name: "c".to_string(), dtype, seg_id: 0, offset, len }
}

#[test]
fn columns_outside_their_segment_are_refused() {
    assert!(check_column(&meta(8, 16, ColType::Int64), 2, 24).is_ok());
    assert_eq!(
        check_column(&meta(16, 16, ColType::Int64), 2, 24),
        Err(StoreError::Corrupt(Corruption::ColumnOutside { start: 16, bytes: 16, rows: 2, size: 24 }))
    );
    assert!(check_column(&meta(8, 8, ColType::Int64), 2, 24).is_err(), "too few bytes");
    assert!(check_column(&meta(4, 16, ColType::Int64), 2, 24).is_err(), "not aligned");
    assert!(check_column(&meta(3, 2, ColType::Boolean), 16, 24).is_ok());
    assert!(check_column(&meta(3, 2, ColType::Boolean), 17, 24).is_err());
    let table = TableMeta { row_count: 2, columns: vec![meta(16, 16, ColType::Int64)] };
    assert!(get_columnar_zero_copy(Some(&table), &Vec::new(), &vec![24]).is_err());
    assert_eq!(get_columnar_zero_copy(Some(&table), &Vec::new(), &vec![32]), Ok(Some(vec![0])));
    assert_eq!(select_columns(&table, &vec!["x".to_string()]), None);
}
