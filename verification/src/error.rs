//! The one error type of the library.

use vstd::prelude::*;
use vstd::string::StringExecFns;
use crate::text::{dec, decimal_text_is_one_to_one, digits, push_dec, push_hex};

verus! {

/// What was found wrong with stored bytes or with a request that would store wrong bytes.
#[derive(Debug, Clone, PartialEq, Eq)]
pub enum Corruption {
    WalUnknownTag { tag: u8 },
    WalTruncatedAtU32,
    WalTruncated { need: usize, have: usize },
    WalPutKvTrailing,
    WalInsertVecTruncatedId,
    WalInsertVecDimOverflow,
    WalInsertVecTrailing,
    WalDeleteKvTrailing,
    WalDeleteVecBody,
    WalPutColTableIdNotUtf8,
    WalPutColTrailing,
    DanglingEdge { node: u64, target: u64 },
    EntryDeleted { entry: u64 },
    NoEntryPoint,
    LocatorLength { len: usize },
    OutsideSegment { offset: usize, len: usize, size: usize },
    UnsupportedColumn(String),
    ColumnHasNulls(String),
    SchemaTooLarge,
    ColumnOutside { start: u32, bytes: u32, rows: usize, size: usize },
    EmptyIpcStream,
    CursorOverflow { cursor: u64 },
    RewindTarget { target: u64, cursor: u64 },
    SegmentMissing { seg_id: u32 },
    VecSegmentMissing { seg_id: u32 },
    NoShards,
    VectorReadFailed,
    VectorLength { id: u64, bytes: u32 },
    SchemaMissing,
    SnapshotTooSmall { len: usize },
    SnapshotMagic { magic: u32 },
    SnapshotTruncated { len: usize, expected: u64 },
    SnapshotCrc { stored: u32, computed: u32 },
    SnapshotEdgeRange { node: u64, lo: u32, hi: u32, edge_count: u32 },
}

/// Everything that an operation of the store can fail with.
#[derive(Debug, Clone, PartialEq, Eq)]
pub enum StoreError {
    Io(String),
    Heed(String),
    SerdeJson(String),
    NotFound,
    DuplicateVector(u64),
    DimensionMismatch { expected: usize, got: usize },
    QuotaExceeded,
    Busy,
    SegmentFull,
    LockBusy,
    Corrupt(Corruption),
    MapFull { current: u64, limit: u64 },
    Timeout,
    ValueTooLarge(usize),
    LockPoisoned,
    InvalidKey(usize),
    Arrow(String),
}

impl Corruption {
    /// The words for it.
    pub open spec fn text(self) -> Seq<char> {
        match self {
            Corruption::WalUnknownTag { tag } => "unknown wal op tag "@ + dec(tag as nat),
            Corruption::WalTruncatedAtU32 => "wal op body truncated at u32"@,
            Corruption::WalTruncated { need, have } => "wal op body truncated: need "@ + dec(need as nat) + " have "@ + dec(have as nat),
            Corruption::WalPutKvTrailing => "wal put_kv trailing bytes"@,
            Corruption::WalInsertVecTruncatedId => "wal insert_vec truncated id"@,
            Corruption::WalInsertVecDimOverflow => "wal insert_vec dim overflow"@,
            Corruption::WalInsertVecTrailing => "wal insert_vec trailing bytes"@,
            Corruption::WalDeleteKvTrailing => "wal delete_kv trailing bytes"@,
            Corruption::WalDeleteVecBody => "wal delete_vec body != 8 bytes"@,
            Corruption::WalPutColTableIdNotUtf8 => "wal put_col table_id not utf8"@,
            Corruption::WalPutColTrailing => "wal put_col trailing bytes"@,
            Corruption::DanglingEdge { node, target } => "dangling edge: node "@ + dec(node as nat) + " -> "@ + dec(target as nat) + " (target not in graph)"@,
            Corruption::EntryDeleted { entry } => "entry point "@ + dec(entry as nat) + " is soft-deleted, no valid search start"@,
            Corruption::NoEntryPoint => "non-empty graph has no entry point"@,
            Corruption::LocatorLength { len } => "locator len "@ + dec(len as nat) + " != 12"@,
            Corruption::OutsideSegment { offset, len, size } => "range at "@ + dec(offset as nat) + " of "@ + dec(len as nat) + " bytes lies outside a segment of "@ + dec(size as nat),
            Corruption::UnsupportedColumn(name) => "unsupported column type "@ + name@ + " (M3: Int32/Int64/Float32/Float64/Boolean only)"@,
            Corruption::ColumnHasNulls(name) => "column "@ + name@ + " has nulls (M3 supports non-null only)"@,
            Corruption::SchemaTooLarge => "schema of the table is too large for the log"@,
            Corruption::ColumnOutside { start, bytes, rows, size } => "column at "@ + dec(start as nat) + " of "@ + dec(bytes as nat) + " bytes and "@ + dec(rows as nat) + " rows lies outside a segment of "@ + dec(size as nat),
            Corruption::EmptyIpcStream => "empty IPC stream"@,
            Corruption::CursorOverflow { cursor } => "active cursor "@ + dec(cursor as nat) + " exceeds u32 max, segment overflow"@,
            Corruption::RewindTarget { target, cursor } => "rewind target "@ + dec(target as nat) + " > active cursor "@ + dec(cursor as nat),
            Corruption::SegmentMissing { seg_id } => "sealed segment "@ + dec(seg_id as nat) + " missing"@,
            Corruption::VecSegmentMissing { seg_id } => "sealed vec segment "@ + dec(seg_id as nat) + " missing"@,
            Corruption::NoShards => "num_shards must be >= 1"@,
            Corruption::VectorReadFailed => "vector segment read failed during knn \u{2014} result unreliable"@,
            Corruption::VectorLength { id, bytes } => "vector "@ + dec(id as nat) + " has a wrong length: "@ + dec(bytes as nat),
            Corruption::SchemaMissing => "vector schema not persisted"@,
            Corruption::SnapshotTooSmall { len } => "graph snapshot too small: "@ + dec(len as nat) + " < 28"@,
            Corruption::SnapshotMagic { magic } => "graph snapshot magic mismatch: 0x"@ + digits(magic as nat, 16),
            Corruption::SnapshotTruncated { len, expected } => "graph snapshot truncated: file "@ + dec(len as nat) + " < expected "@ + dec(expected as nat),
            Corruption::SnapshotCrc { stored, computed } => "graph snapshot crc mismatch: stored 0x"@ + digits(stored as nat, 16) + " != calc 0x"@ + digits(computed as nat, 16) + " (corrupt/half-written)"@,
            Corruption::SnapshotEdgeRange { node, lo, hi, edge_count } => "node "@ + dec(node as nat) + " edge range ["@ + dec(lo as nat) + ", "@ + dec(hi as nat) + ") invalid (edge_count="@ + dec(edge_count as nat) + ")"@,
        }
    }

    /// What is wrong, in words.
    pub fn message(&self) -> (r: String)
        ensures
            r@ == self.text(),
    {
        match self {
            Corruption::WalUnknownTag { tag } => {
                let mut out: String = String::from_str("unknown wal op tag ");
                push_dec(&mut out, *tag as u64);
                out
            },
            Corruption::WalTruncatedAtU32 => String::from_str("wal op body truncated at u32"),
            Corruption::WalTruncated { need, have } => {
                let mut out: String = String::from_str("wal op body truncated: need ");
                push_dec(&mut out, *need as u64);
                out.append(" have ");
                push_dec(&mut out, *have as u64);
                out
            },
            Corruption::WalPutKvTrailing => String::from_str("wal put_kv trailing bytes"),
            Corruption::WalInsertVecTruncatedId => String::from_str("wal insert_vec truncated id"),
            Corruption::WalInsertVecDimOverflow => String::from_str("wal insert_vec dim overflow"),
            Corruption::WalInsertVecTrailing => String::from_str("wal insert_vec trailing bytes"),
            Corruption::WalDeleteKvTrailing => String::from_str("wal delete_kv trailing bytes"),
            Corruption::WalDeleteVecBody => String::from_str("wal delete_vec body != 8 bytes"),
            Corruption::WalPutColTableIdNotUtf8 => String::from_str("wal put_col table_id not utf8"),
            Corruption::WalPutColTrailing => String::from_str("wal put_col trailing bytes"),
            Corruption::DanglingEdge { node, target } => {
                let mut out: String = String::from_str("dangling edge: node ");
                push_dec(&mut out, *node as u64);
                out.append(" -> ");
                push_dec(&mut out, *target as u64);
                out.append(" (target not in graph)");
                out
            },
            Corruption::EntryDeleted { entry } => {
                let mut out: String = String::from_str("entry point ");
                push_dec(&mut out, *entry as u64);
                out.append(" is soft-deleted, no valid search start");
                out
            },
            Corruption::NoEntryPoint => String::from_str("non-empty graph has no entry point"),
            Corruption::LocatorLength { len } => {
                let mut out: String = String::from_str("locator len ");
                push_dec(&mut out, *len as u64);
                out.append(" != 12");
                out
            },
            Corruption::OutsideSegment { offset, len, size } => {
                let mut out: String = String::from_str("range at ");
                push_dec(&mut out, *offset as u64);
                out.append(" of ");
                push_dec(&mut out, *len as u64);
                out.append(" bytes lies outside a segment of ");
                push_dec(&mut out, *size as u64);
                out
            },
            Corruption::UnsupportedColumn(name) => {
                let mut out: String = String::from_str("unsupported column type ");
                out.append(name.as_str());
                out.append(" (M3: Int32/Int64/Float32/Float64/Boolean only)");
                out
            },
            Corruption::ColumnHasNulls(name) => {
                let mut out: String = String::from_str("column ");
                out.append(name.as_str());
                out.append(" has nulls (M3 supports non-null only)");
                out
            },
            Corruption::SchemaTooLarge => String::from_str(
                "schema of the table is too large for the log",
            ),
            Corruption::ColumnOutside { start, bytes, rows, size } => {
                let mut out: String = String::from_str("column at ");
                push_dec(&mut out, *start as u64);
                out.append(" of ");
                push_dec(&mut out, *bytes as u64);
                out.append(" bytes and ");
                push_dec(&mut out, *rows as u64);
                out.append(" rows lies outside a segment of ");
                push_dec(&mut out, *size as u64);
                out
            },
            Corruption::EmptyIpcStream => String::from_str("empty IPC stream"),
            Corruption::CursorOverflow { cursor } => {
                let mut out: String = String::from_str("active cursor ");
                push_dec(&mut out, *cursor as u64);
                out.append(" exceeds u32 max, segment overflow");
                out
            },
            Corruption::RewindTarget { target, cursor } => {
                let mut out: String = String::from_str("rewind target ");
                push_dec(&mut out, *target as u64);
                out.append(" > active cursor ");
                push_dec(&mut out, *cursor as u64);
                out
            },
            Corruption::SegmentMissing { seg_id } => {
                let mut out: String = String::from_str("sealed segment ");
                push_dec(&mut out, *seg_id as u64);
                out.append(" missing");
                out
            },
            Corruption::VecSegmentMissing { seg_id } => {
                let mut out: String = String::from_str("sealed vec segment ");
                push_dec(&mut out, *seg_id as u64);
                out.append(" missing");
                out
            },
            Corruption::NoShards => String::from_str("num_shards must be >= 1"),
            Corruption::VectorReadFailed => String::from_str("vector segment read failed during knn \u{2014} result unreliable"),
            Corruption::VectorLength { id, bytes } => {
                let mut out: String = String::from_str("vector ");
                push_dec(&mut out, *id);
                out.append(" has a wrong length: ");
                push_dec(&mut out, *bytes as u64);
                out
            },
            Corruption::SchemaMissing => String::from_str("vector schema not persisted"),
            Corruption::SnapshotTooSmall { len } => {
                let mut out: String = String::from_str("graph snapshot too small: ");
                push_dec(&mut out, *len as u64);
                out.append(" < 28");
                out
            },
            Corruption::SnapshotMagic { magic } => {
                let mut out: String = String::from_str("graph snapshot magic mismatch: 0x");
                push_hex(&mut out, *magic as u64);
                out
            },
            Corruption::SnapshotTruncated { len, expected } => {
                let mut out: String = String::from_str("graph snapshot truncated: file ");
                push_dec(&mut out, *len as u64);
                out.append(" < expected ");
                push_dec(&mut out, *expected as u64);
                out
            },
            Corruption::SnapshotCrc { stored, computed } => {
                let mut out: String = String::from_str("graph snapshot crc mismatch: stored 0x");
                push_hex(&mut out, *stored as u64);
                out.append(" != calc 0x");
                push_hex(&mut out, *computed as u64);
                out.append(" (corrupt/half-written)");
                out
            },
            Corruption::SnapshotEdgeRange { node, lo, hi, edge_count } => {
                let mut out: String = String::from_str("node ");
                push_dec(&mut out, *node as u64);
                out.append(" edge range [");
                push_dec(&mut out, *lo as u64);
                out.append(", ");
                push_dec(&mut out, *hi as u64);
                out.append(") invalid (edge_count=");
                push_dec(&mut out, *edge_count as u64);
                out.append(")");
                out
            },
        }
    }
}

impl StoreError {
    /// The words for it.
    pub open spec fn text(self) -> Seq<char> {
        match self {
            StoreError::Io(text) => "io error: "@ + text@,
            StoreError::Heed(text) => "heed error: "@ + text@,
            StoreError::SerdeJson(text) => "serde json error: "@ + text@,
            StoreError::NotFound => "key not found"@,
            StoreError::DuplicateVector(id) => "vector id "@ + dec(id as nat) + " already exists"@,
            StoreError::DimensionMismatch { expected, got } => "dimension mismatch: expected "@ + dec(expected as nat) + ", got "@ + dec(got as nat),
            StoreError::QuotaExceeded => "namespace quota exceeded"@,
            StoreError::Busy => "write backpressure: queue full"@,
            StoreError::SegmentFull => "mmap segment full"@,
            StoreError::LockBusy => "lock contention: writer held by another process"@,
            StoreError::Corrupt(what) => "corrupt: "@ + what.text(),
            StoreError::MapFull { current, limit } => "heed map full: metadata exceeded map_size ("@ + dec(current as nat) + " bytes, limit "@ + dec(limit as nat) + ")"@,
            StoreError::Timeout => "operation timed out"@,
            StoreError::ValueTooLarge(len) => "value too large: "@ + dec(len as nat) + " bytes exceeds u32 max"@,
            StoreError::LockPoisoned => "lock poisoned: writer panicked while holding lock"@,
            StoreError::InvalidKey(len) => "invalid key: "@ + dec(len as nat) + " bytes (1 to 511 allowed)"@,
            StoreError::Arrow(text) => "arrow error: "@ + text@,
        }
    }

    /// What failed, in words.
    pub fn message(&self) -> (r: String)
        ensures
            r@ == self.text(),
    {
        match self {
            StoreError::Io(text) => {
                let mut out: String = String::from_str("io error: ");
                out.append(text.as_str());
                out
            },
            StoreError::Heed(text) => {
                let mut out: String = String::from_str("heed error: ");
                out.append(text.as_str());
                out
            },
            StoreError::SerdeJson(text) => {
                let mut out: String = String::from_str("serde json error: ");
                out.append(text.as_str());
                out
            },
            StoreError::NotFound => String::from_str("key not found"),
            StoreError::DuplicateVector(id) => {
                let mut out: String = String::from_str("vector id ");
                push_dec(&mut out, *id as u64);
                out.append(" already exists");
                out
            },
            StoreError::DimensionMismatch { expected, got } => {
                let mut out: String = String::from_str("dimension mismatch: expected ");
                push_dec(&mut out, *expected as u64);
                out.append(", got ");
                push_dec(&mut out, *got as u64);
                out
            },
            StoreError::QuotaExceeded => String::from_str("namespace quota exceeded"),
            StoreError::Busy => String::from_str("write backpressure: queue full"),
            StoreError::SegmentFull => String::from_str("mmap segment full"),
            StoreError::LockBusy => String::from_str("lock contention: writer held by another process"),
            StoreError::Corrupt(what) => {
                let mut out: String = String::from_str("corrupt: ");
                let inner: String = what.message();
                out.append(inner.as_str());
                out
            },
            StoreError::MapFull { current, limit } => {
                let mut out: String = String::from_str("heed map full: metadata exceeded map_size (");
                push_dec(&mut out, *current as u64);
                out.append(" bytes, limit ");
                push_dec(&mut out, *limit as u64);
                out.append(")");
                out
            },
            StoreError::Timeout => String::from_str("operation timed out"),
            StoreError::ValueTooLarge(len) => {
                let mut out: String = String::from_str("value too large: ");
                push_dec(&mut out, *len as u64);
                out.append(" bytes exceeds u32 max");
                out
            },
            StoreError::LockPoisoned => String::from_str("lock poisoned: writer panicked while holding lock"),
            StoreError::InvalidKey(len) => {
                let mut out: String = String::from_str("invalid key: ");
                push_dec(&mut out, *len as u64);
                out.append(" bytes (1 to 511 allowed)");
                out
            },
            StoreError::Arrow(text) => {
                let mut out: String = String::from_str("arrow error: ");
                out.append(text.as_str());
                out
            },
        }
    }
}

pub type Result<T> = std::result::Result<T, StoreError>;

proof fn lemma_between(before: Seq<char>, a: nat, b: nat, behind: Seq<char>)
    requires
        before + dec(a) + behind == before + dec(b) + behind,
    ensures
        a == b,
{
    let x = before + dec(a) + behind;
    let y = before + dec(b) + behind;
    assert(dec(a) =~= x.subrange(before.len() as int, x.len() - behind.len()));
    assert(dec(b) =~= y.subrange(before.len() as int, y.len() - behind.len()));
    decimal_text_is_one_to_one(a, b);
}

/// A message tells which vector, how long a value or key, or which segment it is about: with
/// another number it reads otherwise. What is wrong with stored bytes is told behind one word.
pub proof fn messages_tell_numbers(e: StoreError, f: StoreError, c: Corruption, d: Corruption)
    ensures
        e.text() == f.text() && e is DuplicateVector && f is DuplicateVector ==> e == f,
        e.text() == f.text() && e is ValueTooLarge && f is ValueTooLarge ==> e == f,
        e.text() == f.text() && e is InvalidKey && f is InvalidKey ==> e == f,
        c.text() == d.text() && c is LocatorLength && d is LocatorLength ==> c == d,
        c.text() == d.text() && c is EntryDeleted && d is EntryDeleted ==> c == d,
        c.text() == d.text() && c is SegmentMissing && d is SegmentMissing ==> c == d,
        c.text() == d.text() && c is VecSegmentMissing && d is VecSegmentMissing ==> c == d,
        c.text() == d.text() && c is CursorOverflow && d is CursorOverflow ==> c == d,
        StoreError::Corrupt(c).text() == "corrupt: "@ + c.text(),
{
    if e.text() == f.text() {
        match (e, f) {
            (StoreError::DuplicateVector(a), StoreError::DuplicateVector(b)) => {
                lemma_between("vector id "@, a as nat, b as nat, " already exists"@);
            },
            (StoreError::ValueTooLarge(a), StoreError::ValueTooLarge(b)) => {
                lemma_between("value too large: "@, a as nat, b as nat, " bytes exceeds u32 max"@);
            },
            (StoreError::InvalidKey(a), StoreError::InvalidKey(b)) => {
                lemma_between("invalid key: "@, a as nat, b as nat, " bytes (1 to 511 allowed)"@);
            },
            _ => {},
        }
    }
    if c.text() == d.text() {
        match (c, d) {
            (Corruption::LocatorLength { len: a }, Corruption::LocatorLength { len: b }) => {
                lemma_between("locator len "@, a as nat, b as nat, " != 12"@);
            },
            (Corruption::EntryDeleted { entry: a }, Corruption::EntryDeleted { entry: b }) => {
                lemma_between(
                    "entry point "@,
                    a as nat,
                    b as nat,
                    " is soft-deleted, no valid search start"@,
                );
            },
            (Corruption::SegmentMissing { seg_id: a }, Corruption::SegmentMissing { seg_id: b }) => {
                lemma_between("sealed segment "@, a as nat, b as nat, " missing"@);
            },
            (
                Corruption::VecSegmentMissing { seg_id: a },
                Corruption::VecSegmentMissing { seg_id: b },
            ) => {
                lemma_between("sealed vec segment "@, a as nat, b as nat, " missing"@);
            },
            (Corruption::CursorOverflow { cursor: a }, Corruption::CursorOverflow { cursor: b }) => {
                lemma_between(
                    "active cursor "@,
                    a as nat,
                    b as nat,
                    " exceeds u32 max, segment overflow"@,
                );
            },
            _ => {},
        }
    }
}

} // verus!
