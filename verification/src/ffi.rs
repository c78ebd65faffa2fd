//! What callers of another language get: an error code, and copies into buffers that are theirs.

use vstd::prelude::*;
use crate::engine::Engine;
use crate::error::StoreError;

verus! {

pub const OK: i32 = 0;

pub const ERR_IO: i32 = -1;

pub const ERR_HEED: i32 = -2;

pub const ERR_NOT_FOUND: i32 = -3;

pub const ERR_DUP_VECTOR: i32 = -4;

pub const ERR_DIM_MISMATCH: i32 = -5;

pub const ERR_QUOTA: i32 = -6;

pub const ERR_BUSY: i32 = -7;

pub const ERR_LOCK: i32 = -8;

pub const ERR_CORRUPT: i32 = -9;

pub const ERR_TIMEOUT: i32 = -10;

pub const ERR_SEGMENT_FULL: i32 = -11;

pub const ERR_ARROW: i32 = -12;

pub const ERR_SERDE: i32 = -13;

pub const ERR_VALUE_TOO_LARGE: i32 = -14;

pub const ERR_LOCK_POISONED: i32 = -15;

pub const ERR_MAP_FULL: i32 = -16;

pub const ERR_INVALID_KEY: i32 = -17;

/// A null pointer, a path that is no text, or a buffer that is too small.
pub const ERR_OTHER: i32 = -99;

/// The code of an error.
pub open spec fn code_of(e: StoreError) -> i32 {
    match e {
        StoreError::Io(_) => ERR_IO,
        StoreError::Heed(_) => ERR_HEED,
        StoreError::NotFound => ERR_NOT_FOUND,
        StoreError::DuplicateVector(_) => ERR_DUP_VECTOR,
        StoreError::DimensionMismatch { .. } => ERR_DIM_MISMATCH,
        StoreError::QuotaExceeded => ERR_QUOTA,
        StoreError::Busy => ERR_BUSY,
        StoreError::LockBusy => ERR_LOCK,
        StoreError::Corrupt(_) => ERR_CORRUPT,
        StoreError::Timeout => ERR_TIMEOUT,
        StoreError::SegmentFull => ERR_SEGMENT_FULL,
        StoreError::Arrow(_) => ERR_ARROW,
        StoreError::SerdeJson(_) => ERR_SERDE,
        StoreError::ValueTooLarge(_) => ERR_VALUE_TOO_LARGE,
        StoreError::LockPoisoned => ERR_LOCK_POISONED,
        StoreError::MapFull { .. } => ERR_MAP_FULL,
        StoreError::InvalidKey(_) => ERR_INVALID_KEY,
    }
}

pub fn err_code(e: &StoreError) -> (r: i32)
    ensures
        r == code_of(*e),
{
    match e {
        StoreError::Io(_) => ERR_IO,
        StoreError::Heed(_) => ERR_HEED,
        StoreError::NotFound => ERR_NOT_FOUND,
        StoreError::DuplicateVector(_) => ERR_DUP_VECTOR,
        StoreError::DimensionMismatch { .. } => ERR_DIM_MISMATCH,
        StoreError::QuotaExceeded => ERR_QUOTA,
        StoreError::Busy => ERR_BUSY,
        StoreError::LockBusy => ERR_LOCK,
        StoreError::Corrupt(_) => ERR_CORRUPT,
        StoreError::Timeout => ERR_TIMEOUT,
        StoreError::SegmentFull => ERR_SEGMENT_FULL,
        StoreError::Arrow(_) => ERR_ARROW,
        StoreError::SerdeJson(_) => ERR_SERDE,
        StoreError::ValueTooLarge(_) => ERR_VALUE_TOO_LARGE,
        StoreError::LockPoisoned => ERR_LOCK_POISONED,
        StoreError::MapFull { .. } => ERR_MAP_FULL,
        StoreError::InvalidKey(_) => ERR_INVALID_KEY,
    }
}

/// What is told to a caller that asked for items in a buffer of its own.
#[derive(Debug, Clone, Copy, PartialEq, Eq, Structural)]
pub struct CopyOut {
    pub code: i32,
    /// What to write where the caller wants to know how many there are; nothing where there are
    /// none to speak of.
    pub needed: Option<usize>,
    /// How many items to copy.
    pub copied: usize,
}

/// Items are copied whole or not at all: where the buffer is too small, the caller learns how
/// many there are and can ask again.
pub fn copy_out(found: &Result<Option<usize>, StoreError>, cap: usize) -> (r: CopyOut)
    ensures
        r == match *found {
            Err(e) => CopyOut { code: code_of(e), needed: None, copied: 0 },
            Ok(None) => CopyOut { code: ERR_NOT_FOUND, needed: None, copied: 0 },
            Ok(Some(n)) => if n > cap {
                CopyOut { code: ERR_OTHER, needed: Some(n), copied: 0 }
            } else {
                CopyOut { code: OK, needed: Some(n), copied: n }
            },
        },
{
    match found {
        Err(e) => CopyOut { code: err_code(e), needed: None, copied: 0 },
        Ok(None) => CopyOut { code: ERR_NOT_FOUND, needed: None, copied: 0 },
        Ok(Some(n)) => {
            if *n > cap {
                CopyOut { code: ERR_OTHER, needed: Some(*n), copied: 0 }
            } else {
                CopyOut { code: OK, needed: Some(*n), copied: *n }
            }
        },
    }
}

/// The results of a search go into buffers with room for `top_k` of them.
pub fn copy_results(found: &Result<usize, StoreError>, top_k: usize) -> (r: CopyOut)
    ensures
        r == match *found {
            Err(e) => CopyOut { code: code_of(e), needed: None, copied: 0 },
            Ok(n) => {
                let m = if n < top_k {
                    n
                } else {
                    top_k
                };
                CopyOut { code: OK, needed: Some(m), copied: m }
            },
        },
{
    match found {
        Err(e) => CopyOut { code: err_code(e), needed: None, copied: 0 },
        Ok(n) => {
            let m: usize = if *n < top_k {
                *n
            } else {
                top_k
            };
            CopyOut { code: OK, needed: Some(m), copied: m }
        },
    }
}

/// The code of an operation that gives nothing back.
pub fn done_code(outcome: &Result<(), StoreError>) -> (r: i32)
    ensures
        r == match *outcome {
            Ok(()) => OK,
            Err(e) => code_of(e),
        },
{
    match outcome {
        Ok(()) => OK,
        Err(e) => err_code(e),
    }
}

/// The code of a deletion: a vector that is not there, or deleted already, is not found.
pub fn delete_code(outcome: &Result<bool, StoreError>) -> (r: i32)
    ensures
        r == match *outcome {
            Ok(deleted) => if deleted {
                OK
            } else {
                ERR_NOT_FOUND
            },
            Err(e) => code_of(e),
        },
{
    match outcome {
        Ok(deleted) => if *deleted {
            OK
        } else {
            ERR_NOT_FOUND
        },
        Err(e) => err_code(e),
    }
}

/// The dimension of the vectors; 0 where there is no index.
pub fn vector_dim(engine: &Engine) -> (r: usize)
    requires
        engine.wf(),
    ensures
        r == match engine.vec_view() {
            Some(v) => v.schema.dim,
            None => 0,
        },
{
    match engine.open_vector_index() {
        Ok(schema) => schema.dim,
        Err(_) => 0,
    }
}

/// A successful call and no other answers with 0, so the code tells a caller all that it needs.
pub proof fn only_success_is_zero(e: StoreError)
    ensures
        code_of(e) < 0,
        code_of(e) != OK,
{
}

/// The codes tell the kinds of errors apart, and lie right below 0.
pub proof fn codes_tell_errors_apart(e: StoreError, f: StoreError)
    ensures
        -17 <= code_of(e) <= -1,
        code_of(e) == code_of(f) ==> {
            &&& e is Io <==> f is Io
            &&& e is Heed <==> f is Heed
            &&& e is SerdeJson <==> f is SerdeJson
            &&& e is NotFound <==> f is NotFound
            &&& e is DuplicateVector <==> f is DuplicateVector
            &&& e is DimensionMismatch <==> f is DimensionMismatch
            &&& e is QuotaExceeded <==> f is QuotaExceeded
            &&& e is Busy <==> f is Busy
            &&& e is SegmentFull <==> f is SegmentFull
            &&& e is LockBusy <==> f is LockBusy
            &&& e is Corrupt <==> f is Corrupt
            &&& e is MapFull <==> f is MapFull
            &&& e is Timeout <==> f is Timeout
            &&& e is ValueTooLarge <==> f is ValueTooLarge
            &&& e is LockPoisoned <==> f is LockPoisoned
            &&& e is InvalidKey <==> f is InvalidKey
            &&& e is Arrow <==> f is Arrow
        },
        e is Io ==> code_of(e) == -1,
        e is Heed ==> code_of(e) == -2,
        e is NotFound ==> code_of(e) == -3,
        e is DuplicateVector ==> code_of(e) == -4,
        e is DimensionMismatch ==> code_of(e) == -5,
        e is QuotaExceeded ==> code_of(e) == -6,
        e is Busy ==> code_of(e) == -7,
        e is LockBusy ==> code_of(e) == -8,
        e is Corrupt ==> code_of(e) == -9,
        e is Timeout ==> code_of(e) == -10,
        e is SegmentFull ==> code_of(e) == -11,
        e is Arrow ==> code_of(e) == -12,
        e is SerdeJson ==> code_of(e) == -13,
        e is ValueTooLarge ==> code_of(e) == -14,
        e is LockPoisoned ==> code_of(e) == -15,
        e is MapFull ==> code_of(e) == -16,
        e is InvalidKey ==> code_of(e) == -17,
{
}

} // verus!
