//! Record batches: what the store reads of them, and their form in the write-ahead log.

use arrow::array::{Array, AsArray, BooleanBuilder};
use arrow::datatypes::{DataType, Float32Type, Float64Type, Int32Type, Int64Type};
use arrow::error::ArrowError;
use arrow::ipc::reader::StreamReader;
use arrow::ipc::writer::StreamWriter;
use arrow::record_batch::RecordBatch;
use vstd::prelude::*;
use crate::columnar::notes::{fits_stream, stream_holds};
use crate::columnar::types::{type_of_code, ColType};
use crate::error::{Corruption, Result, StoreError};

verus! {

/// A batch of columns in memory: a `RecordBatch` of the `arrow` crate.
#[verifier::external_body]
pub struct ArrowBatch {
    pub inner: RecordBatch,
}

/// What goes wrong in the `arrow` crate.
#[verifier::external_type_specification]
#[verifier::external_body]
pub struct ExArrowError(ArrowError);

/// The columns of a batch, in order: name, number of the type (0 for one that the store does
/// not know), how many values are null, and the bytes of the values, booleans packed into bits.
pub uninterp spec fn batch_columns(batch: ArrowBatch) -> Seq<(Seq<char>, u8, nat, Seq<u8>)>;

/// The types of the columns of a batch in words.
pub uninterp spec fn batch_types(batch: ArrowBatch) -> Seq<Seq<char>>;

/// How many rows a batch has.
pub uninterp spec fn batch_rows(batch: ArrowBatch) -> nat;

/// What a string of bytes reads as: `None` where reading fails, `Some(None)` where the stream
/// holds no batch, otherwise the rows and columns of the first batch.
pub uninterp spec fn ipc_read(ipc: Seq<u8>) -> Option<
    Option<(nat, Seq<(Seq<char>, u8, nat, Seq<u8>)>)>,
>;

/// Whether reading a string of bytes comes to an end: on some malformed ones the reader panics.
pub uninterp spec fn ipc_readable(ipc: Seq<u8>) -> bool;

/// `RecordBatch::num_rows`: how many rows the batch has.
#[verifier::external_body]
fn rows_of(batch: &ArrowBatch) -> (r: usize)
    ensures
        r == batch_rows(*batch),
{
    batch.inner.num_rows()
}

/// `RecordBatch::num_columns`: how many columns the batch has.
#[verifier::external_body]
pub(crate) fn column_count(batch: &ArrowBatch) -> (r: usize)
    ensures
        r == batch_columns(*batch).len(),
{
    batch.inner.num_columns()
}

/// The name of a column, by `Schema::field` and `Field::name`.
#[verifier::external_body]
pub(crate) fn column_name(batch: &ArrowBatch, i: usize) -> (r: String)
    requires
        i < batch_columns(*batch).len(),
    ensures
        r@ == batch_columns(*batch)[i as int].0,
{
    batch.inner.schema().field(i).name().clone()
}

/// The type of a column, by `Schema::field` and `Field::data_type`: one of the five types that
/// the store knows, or none.
#[verifier::external_body]
fn column_type(batch: &ArrowBatch, i: usize) -> (r: Option<ColType>)
    requires
        i < batch_columns(*batch).len(),
    ensures
        r == type_of_code(batch_columns(*batch)[i as int].1),
{
    match batch.inner.schema().field(i).data_type() {
        DataType::Int32 => Some(ColType::Int32),
        DataType::Int64 => Some(ColType::Int64),
        DataType::Float32 => Some(ColType::Float32),
        DataType::Float64 => Some(ColType::Float64),
        DataType::Boolean => Some(ColType::Boolean),
        _ => None,
    }
}

/// The type of a column in words, by the `Debug` form of `DataType`.
#[verifier::external_body]
fn column_type_text(batch: &ArrowBatch, i: usize) -> (r: String)
    requires
        i < batch_columns(*batch).len(),
    ensures
        r@ == batch_types(*batch)[i as int],
{
    format!("{:?}", batch.inner.schema().field(i).data_type())
}

/// `Array::null_count` of a column: how many of its values are null.
#[verifier::external_body]
fn column_nulls(batch: &ArrowBatch, i: usize) -> (r: usize)
    requires
        i < batch_columns(*batch).len(),
    ensures
        r == batch_columns(*batch)[i as int].2,
{
    batch.inner.column(i).null_count()
}

/// The bytes of a column of known type: `PrimitiveArray::values` as bytes by
/// `bytemuck::cast_slice`, or the bits that `BooleanBuilder` packs.
#[verifier::external_body]
fn column_bytes(batch: &ArrowBatch, i: usize) -> (r: Vec<u8>)
    requires
        i < batch_columns(*batch).len(),
        type_of_code(batch_columns(*batch)[i as int].1) is Some,
    ensures
        r@ == batch_columns(*batch)[i as int].3,
{
    let a = batch.inner.column(i);
    match a.data_type() {
        DataType::Int32 => bytemuck::cast_slice(a.as_primitive::<Int32Type>().values()).to_vec(),
        DataType::Int64 => bytemuck::cast_slice(a.as_primitive::<Int64Type>().values()).to_vec(),
        DataType::Float32 => bytemuck::cast_slice(a.as_primitive::<Float32Type>().values()).to_vec(),
        DataType::Float64 => bytemuck::cast_slice(a.as_primitive::<Float64Type>().values()).to_vec(),
        _ => {
            let mut bits = BooleanBuilder::new();
            bits.append_slice(&a.as_boolean().values().iter().collect::<Vec<bool>>());
            bits.values_slice().to_vec()
        },
    }
}

/// The text of an error, by its `Display` form. Nothing is claimed of it.
#[verifier::external_body]
fn error_text(e: &ArrowError) -> String {
    e.to_string()
}

/// Whether a batch has columns of known types only.
pub open spec fn types_known(cols: Seq<(Seq<char>, u8, nat, Seq<u8>)>) -> bool {
    forall|i: int| 0 <= i < cols.len() ==> type_of_code((#[trigger] cols[i]).1) is Some
}

/// Whether no column has a null.
pub open spec fn null_free(cols: Seq<(Seq<char>, u8, nat, Seq<u8>)>) -> bool {
    forall|i: int| 0 <= i < cols.len() ==> (#[trigger] cols[i]).2 == 0
}

/// Whether the store takes a column: its type is known and no value is null.
pub open spec fn fit(c: (Seq<char>, u8, nat, Seq<u8>)) -> bool {
    type_of_code(c.1) is Some && c.2 == 0
}

/// A stream of the one batch, by `StreamWriter`. Writing into memory succeeds where a stream can
/// hold the schema, the reader takes what is written, and columns without nulls read back as
/// they were.
#[verifier::external_body]
fn write_stream(batch: &ArrowBatch) -> (r: std::result::Result<Vec<u8>, ArrowError>)
    requires
        types_known(batch_columns(*batch)),
        fits_stream(*batch),
    ensures
        r is Ok,
        ipc_readable(r->Ok_0@),
        null_free(batch_columns(*batch)) ==> ipc_read(r->Ok_0@) == Some(
            Some((batch_rows(*batch), batch_columns(*batch))),
        ),
{
    let mut out = Vec::new();
    let mut writer = StreamWriter::try_new(&mut out, &batch.inner.schema())?;
    writer.write(&batch.inner)?;
    writer.finish()?;
    drop(writer);
    Ok(out)
}

/// The first batch of a stream, by `StreamReader`. Only for bytes on which the reader returns.
#[verifier::external_body]
fn read_stream(ipc: &[u8]) -> (r: std::result::Result<Option<ArrowBatch>, ArrowError>)
    requires
        ipc_readable(ipc@),
    ensures
        match r {
            Err(_) => ipc_read(ipc@) is None,
            Ok(None) => ipc_read(ipc@) == Some(
                None::<(nat, Seq<(Seq<char>, u8, nat, Seq<u8>)>)>,
            ),
            Ok(Some(b)) => ipc_read(ipc@) == Some(Some((batch_rows(b), batch_columns(b)))),
        },
{
    let batch = StreamReader::try_new(std::io::Cursor::new(ipc), None)?.next().transpose()?;
    Ok(batch.map(|inner| ArrowBatch { inner }))
}

/// The rows of a batch.
pub fn num_rows(batch: &ArrowBatch) -> (r: usize)
    ensures
        r == batch_rows(*batch),
{
    rows_of(batch)
}

/// What a column is read as before it is placed: why it cannot be, or its name, type and bytes.
pub enum ColumnRead {
    Unsupported(String),
    HasNulls(String),
    Values { name: String, dtype: ColType, bytes: Vec<u8> },
}

pub fn num_columns(batch: &ArrowBatch) -> (r: usize)
    ensures
        r == batch_columns(*batch).len(),
{
    column_count(batch)
}

/// Reads a column: first its type, then whether it has nulls, then its values.
pub fn read_column(batch: &ArrowBatch, i: usize) -> (r: ColumnRead)
    requires
        i < batch_columns(*batch).len(),
    ensures
        ({
            let c = batch_columns(*batch)[i as int];
            match type_of_code(c.1) {
                None => r matches ColumnRead::Unsupported(t) && t@ == batch_types(*batch)[i as int],
                Some(t) => if c.2 != 0 {
                    r matches ColumnRead::HasNulls(n) && n@ == c.0
                } else {
                    r matches ColumnRead::Values { name, dtype, bytes } && name@ == c.0 && dtype
                        == t && bytes@ == c.3
                },
            }
        }),
{
    let dtype: ColType = match column_type(batch, i) {
        Some(t) => t,
        None => return ColumnRead::Unsupported(column_type_text(batch, i)),
    };
    if column_nulls(batch, i) != 0 {
        return ColumnRead::HasNulls(column_name(batch, i));
    }
    ColumnRead::Values { name: column_name(batch, i), dtype, bytes: column_bytes(batch, i) }
}

/// The first column that the store does not take, from the `i`th on; the number of columns
/// where there is none.
pub open spec fn first_unfit(cols: Seq<(Seq<char>, u8, nat, Seq<u8>)>, i: nat) -> nat
    decreases cols.len() - i,
{
    if i >= cols.len() || !fit(cols[i as int]) {
        i
    } else {
        first_unfit(cols, i + 1)
    }
}

/// Whether the store takes every column.
pub open spec fn all_fit(cols: Seq<(Seq<char>, u8, nat, Seq<u8>)>) -> bool {
    types_known(cols) && null_free(cols)
}

/// `e` tells of the first column that the store does not take: its type, or its nulls.
pub open spec fn unfit(batch: ArrowBatch, e: StoreError) -> bool {
    let k = first_unfit(batch_columns(batch), 0) as int;
    let c = batch_columns(batch)[k];
    if type_of_code(c.1) is None {
        e matches StoreError::Corrupt(Corruption::UnsupportedColumn(t)) && t@ == batch_types(
            batch,
        )[k]
    } else {
        e matches StoreError::Corrupt(Corruption::ColumnHasNulls(n)) && n@ == c.0
    }
}

/// Refuses a batch with a column that the store does not take, by the first one.
pub fn refuse_unfit(batch: &ArrowBatch) -> (r: Result<()>)
    ensures
        all_fit(batch_columns(*batch)) ==> r is Ok,
        !all_fit(batch_columns(*batch)) ==> r is Err && unfit(*batch, r->Err_0),
{
    let n: usize = column_count(batch);
    let mut i: usize = 0;
    while i < n
        invariant
            n == batch_columns(*batch).len(),
            i <= n,
            first_unfit(batch_columns(*batch), 0) == first_unfit(
                batch_columns(*batch),
                i as nat,
            ),
            forall|j: int| 0 <= j < i ==> fit(#[trigger] batch_columns(*batch)[j]),
        decreases n - i,
    {
        let ghost c = batch_columns(*batch)[i as int];
        if column_type(batch, i).is_none() {
            return Err(
                StoreError::Corrupt(Corruption::UnsupportedColumn(column_type_text(batch, i))),
            );
        }
        if column_nulls(batch, i) != 0 {
            return Err(StoreError::Corrupt(Corruption::ColumnHasNulls(column_name(batch, i))));
        }
        i = i + 1;
    }
    Ok(())
}

/// The bytes under which a batch goes into the log. A batch whose schema a stream cannot hold is
/// refused.
pub fn encode_ipc(batch: &ArrowBatch) -> (r: Result<Vec<u8>>)
    requires
        types_known(batch_columns(*batch)),
    ensures
        fits_stream(*batch) ==> r is Ok && ipc_readable(r->Ok_0@) && (null_free(
            batch_columns(*batch),
        ) ==> ipc_read(r->Ok_0@) == Some(Some((batch_rows(*batch), batch_columns(*batch))))),
        !fits_stream(*batch) ==> r == Err::<Vec<u8>, _>(
            StoreError::Corrupt(Corruption::SchemaTooLarge),
        ),
{
    if !stream_holds(batch) {
        return Err(StoreError::Corrupt(Corruption::SchemaTooLarge));
    }
    match write_stream(batch) {
        Ok(ipc) => Ok(ipc),
        Err(e) => Err(StoreError::Arrow(error_text(&e))),
    }
}

/// The batch that was read from a stream, which must hold one.
pub fn first_batch(read: std::result::Result<Option<ArrowBatch>, ArrowError>) -> (r: Result<
    ArrowBatch,
>)
    ensures
        match read {
            Err(_) => r is Err && r->Err_0 is Arrow,
            Ok(None) => r is Err && r->Err_0 == StoreError::Corrupt(Corruption::EmptyIpcStream),
            Ok(Some(b)) => r == Ok::<ArrowBatch, StoreError>(b),
        },
{
    match read {
        Err(e) => Err(StoreError::Arrow(error_text(&e))),
        Ok(None) => Err(StoreError::Corrupt(Corruption::EmptyIpcStream)),
        Ok(Some(b)) => Ok(b),
    }
}

/// The batch under some bytes of the log.
pub fn decode_ipc(ipc: &[u8]) -> (r: Result<ArrowBatch>)
    requires
        ipc_readable(ipc@),
    ensures
        match ipc_read(ipc@) {
            None => r is Err && r->Err_0 is Arrow,
            Some(None) => r is Err && r->Err_0 == StoreError::Corrupt(
                Corruption::EmptyIpcStream,
            ),
            Some(Some((rows, cols))) => r is Ok && batch_rows(r->Ok_0) == rows && batch_columns(
                r->Ok_0,
            ) == cols,
        },
{
    first_batch(read_stream(ipc))
}

/// The batch that a replay of the log puts for `batch`: the same rows and columns. An error
/// where the batch cannot be stored or logged.
pub fn logged_batch(batch: &ArrowBatch) -> (r: Result<ArrowBatch>)
    ensures
        ({
            let cols = batch_columns(*batch);
            &&& !all_fit(cols) ==> r is Err && unfit(*batch, r->Err_0)
            &&& all_fit(cols) && !fits_stream(*batch) ==> r is Err && r->Err_0
                == StoreError::Corrupt(Corruption::SchemaTooLarge)
            &&& all_fit(cols) && fits_stream(*batch) ==> r is Ok && batch_rows(r->Ok_0)
                == batch_rows(*batch) && batch_columns(r->Ok_0) == cols
        }),
{
    refuse_unfit(batch)?;
    let ipc: Vec<u8> = encode_ipc(batch)?;
    decode_ipc(ipc.as_slice())
}

} // verus!
