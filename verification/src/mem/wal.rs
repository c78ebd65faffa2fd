//! Write-ahead log: the only point at which a write becomes durable.
//!
//! An entry carries the whole payload of its operation, so replaying it does not depend on
//! what had reached the segments. Entries are numbered by a growing sequence number; a
//! checkpoint records the highest number that no longer has to be replayed.
//!
//! A frame is `[seq: 8][tag: 1][body_len: 4][body]`, integers in little-endian order. Tags:
//! 1 put key/value, 2 insert vector, 3 delete key, 4 delete vector, 5 put columns.

use vstd::prelude::*;
use vstd::slice::{slice_subrange, slice_to_vec};
use vstd::utf8::{encode_utf8, decode_utf8, valid_utf8};
use crate::bytes::{le_bytes, le_val, word_bytes, words_of, push_le, read_le, read_le_at};
use crate::error::{Corruption, Result, StoreError};

verus! {

pub const FRAME_HEADER: usize = 13;

pub const OP_PUT_KV: u8 = 1;

pub const OP_INSERT_VEC: u8 = 2;

pub const OP_DELETE_KV: u8 = 3;

pub const OP_DELETE_VEC: u8 = 4;

pub const OP_PUT_COL: u8 = 5;

/// A logged operation with its payload. Vector components are the bits of IEEE single floats.
#[derive(Debug, Clone, PartialEq, Eq)]
pub enum WalOp {
    PutKv { key: Vec<u8>, value: Vec<u8> },
    InsertVector { id: u64, vector: Vec<u32> },
    DeleteKv { key: Vec<u8> },
    DeleteVector { id: u64 },
    PutColumnar { table_id: String, ipc: Vec<u8> },
}

/// A logged operation under its sequence number.
#[derive(Debug, Clone, PartialEq, Eq)]
pub struct WalEntry {
    pub seq: u64,
    pub op: WalOp,
}

/// The contents of a `WalOp`.
pub enum OpView {
    PutKv { key: Seq<u8>, value: Seq<u8> },
    InsertVector { id: u64, vector: Seq<u32> },
    DeleteKv { key: Seq<u8> },
    DeleteVector { id: u64 },
    PutColumnar { table_id: Seq<char>, ipc: Seq<u8> },
}

/// The contents of a `WalEntry`.
pub struct EntryView {
    pub seq: u64,
    pub op: OpView,
}

impl View for WalOp {
    type V = OpView;

    open spec fn view(&self) -> OpView {
        match *self {
            WalOp::PutKv { key, value } => OpView::PutKv { key: key@, value: value@ },
            WalOp::InsertVector { id, vector } => OpView::InsertVector { id, vector: vector@ },
            WalOp::DeleteKv { key } => OpView::DeleteKv { key: key@ },
            WalOp::DeleteVector { id } => OpView::DeleteVector { id },
            WalOp::PutColumnar { table_id, ipc } => OpView::PutColumnar {
                table_id: table_id@,
                ipc: ipc@,
            },
        }
    }
}

impl View for WalEntry {
    type V = EntryView;

    open spec fn view(&self) -> EntryView {
        EntryView { seq: self.seq, op: self.op@ }
    }
}

/// The contents of a list of entries.
pub open spec fn entries_view(es: Seq<WalEntry>) -> Seq<EntryView> {
    es.map_values(|e: WalEntry| e@)
}

/// A length-prefixed byte string.
pub open spec fn field_bytes(s: Seq<u8>) -> Seq<u8> {
    le_bytes(s.len(), 4) + s
}

/// The tag under which an operation is logged.
pub open spec fn tag_of(op: OpView) -> u8 {
    match op {
        OpView::PutKv { .. } => OP_PUT_KV,
        OpView::InsertVector { .. } => OP_INSERT_VEC,
        OpView::DeleteKv { .. } => OP_DELETE_KV,
        OpView::DeleteVector { .. } => OP_DELETE_VEC,
        OpView::PutColumnar { .. } => OP_PUT_COL,
    }
}

/// The body under which an operation is logged.
pub open spec fn body_of(op: OpView) -> Seq<u8> {
    match op {
        OpView::PutKv { key, value } => field_bytes(key) + field_bytes(value),
        OpView::InsertVector { id, vector } => le_bytes(id as nat, 8) + le_bytes(vector.len(), 4)
            + word_bytes(vector),
        OpView::DeleteKv { key } => field_bytes(key),
        OpView::DeleteVector { id } => le_bytes(id as nat, 8),
        OpView::PutColumnar { table_id, ipc } => field_bytes(encode_utf8(table_id)) + field_bytes(
            ipc,
        ),
    }
}

/// Whether the length of an operation's body fits the frame header.
pub open spec fn fits(op: OpView) -> bool {
    body_of(op).len() <= u32::MAX
}

/// The frame of an operation logged under `seq`.
pub open spec fn frame_of(seq: u64, op: OpView) -> Seq<u8> {
    le_bytes(seq as nat, 8) + seq![tag_of(op)] + le_bytes(body_of(op).len(), 4) + body_of(op)
}

/// The frames of `entries`, one after the other.
pub open spec fn log_of(entries: Seq<EntryView>) -> Seq<u8>
    decreases entries.len(),
{
    if entries.len() == 0 {
        Seq::empty()
    } else {
        log_of(entries.drop_last()) + frame_of(entries.last().seq, entries.last().op)
    }
}

/// Entries whose numbers count up by one from `first`.
pub open spec fn numbered(ops: Seq<OpView>, first: int) -> Seq<EntryView> {
    Seq::new(ops.len(), |i: int| EntryView { seq: (first + i) as u64, op: ops[i] })
}

/// The entries that a replay after a checkpoint at `applied` still has to apply.
pub open spec fn after(entries: Seq<EntryView>, applied: u64) -> Seq<EntryView>
    decreases entries.len(),
{
    if entries.len() == 0 {
        Seq::empty()
    } else if entries.last().seq > applied {
        after(entries.drop_last(), applied).push(entries.last())
    } else {
        after(entries.drop_last(), applied)
    }
}

/// The length-prefixed byte string at `at`, and the place behind it.
pub open spec fn field_at(body: Seq<u8>, at: int) -> std::result::Result<
    (Seq<u8>, int),
    Corruption,
> {
    if body.len() - at < 4 {
        Err(Corruption::WalTruncatedAtU32)
    } else {
        let n = le_val(body.subrange(at, at + 4)) as int;
        if body.len() - at - 4 < n {
            Err(
                Corruption::WalTruncated {
                    need: n as usize,
                    have: (body.len() - at - 4) as usize,
                },
            )
        } else {
            Ok((body.subrange(at + 4, at + 4 + n), at + 4 + n))
        }
    }
}

/// What a body under a tag stands for, or why it stands for nothing.
pub open spec fn decoded(tag: u8, body: Seq<u8>) -> std::result::Result<OpView, Corruption> {
    if tag == OP_PUT_KV {
        match field_at(body, 0) {
            Err(c) => Err(c),
            Ok((key, at)) => match field_at(body, at) {
                Err(c) => Err(c),
                Ok((value, end)) => if end != body.len() {
                    Err(Corruption::WalPutKvTrailing)
                } else {
                    Ok(OpView::PutKv { key, value })
                },
            },
        }
    } else if tag == OP_INSERT_VEC {
        if body.len() < 8 {
            Err(Corruption::WalInsertVecTruncatedId)
        } else if body.len() < 12 {
            Err(Corruption::WalTruncatedAtU32)
        } else {
            let need = 4 * le_val(body.subrange(8, 12)) as int;
            if need > usize::MAX {
                Err(Corruption::WalInsertVecDimOverflow)
            } else if body.len() - 12 < need {
                Err(
                    Corruption::WalTruncated {
                        need: need as usize,
                        have: (body.len() - 12) as usize,
                    },
                )
            } else if body.len() - 12 != need {
                Err(Corruption::WalInsertVecTrailing)
            } else {
                Ok(
                    OpView::InsertVector {
                        id: le_val(body.take(8)) as u64,
                        vector: words_of(body.skip(12)),
                    },
                )
            }
        }
    } else if tag == OP_DELETE_KV {
        match field_at(body, 0) {
            Err(c) => Err(c),
            Ok((key, end)) => if end != body.len() {
                Err(Corruption::WalDeleteKvTrailing)
            } else {
                Ok(OpView::DeleteKv { key })
            },
        }
    } else if tag == OP_DELETE_VEC {
        if body.len() != 8 {
            Err(Corruption::WalDeleteVecBody)
        } else {
            Ok(OpView::DeleteVector { id: le_val(body) as u64 })
        }
    } else if tag == OP_PUT_COL {
        match field_at(body, 0) {
            Err(c) => Err(c),
            Ok((table, at)) => if !valid_utf8(table) {
                Err(Corruption::WalPutColTableIdNotUtf8)
            } else {
                match field_at(body, at) {
                    Err(c) => Err(c),
                    Ok((ipc, end)) => if end != body.len() {
                        Err(Corruption::WalPutColTrailing)
                    } else {
                        Ok(OpView::PutColumnar { table_id: decode_utf8(table), ipc })
                    },
                }
            },
        }
    } else {
        Err(Corruption::WalUnknownTag { tag })
    }
}

/// What stands at a place of the log: a whole frame (with the place behind it), a frame that
/// breaks off, nothing more, or a whole frame that stands for no operation.
pub enum FrameView {
    Entry(EntryView, int),
    TornTail,
    Eof,
    Corrupt(Corruption),
}

/// The frame at `at`.
#[verifier::opaque]
pub open spec fn frame_at(log: Seq<u8>, at: int) -> FrameView {
    if log.len() - at < FRAME_HEADER {
        FrameView::Eof
    } else {
        let seq = le_val(log.subrange(at, at + 8)) as u64;
        let n = le_val(log.subrange(at + 9, at + 13)) as int;
        if log.len() - at - 13 < n {
            FrameView::TornTail
        } else {
            match decoded(log[at + 8], log.subrange(at + 13, at + 13 + n)) {
                Ok(op) => FrameView::Entry(EntryView { seq, op }, at + 13 + n),
                Err(c) => FrameView::Corrupt(c),
            }
        }
    }
}

/// The entries from `at` to the last whole frame, and the place behind it; an error at the
/// first whole frame that stands for no operation.
pub open spec fn read_from(log: Seq<u8>, at: int) -> std::result::Result<
    (Seq<EntryView>, int),
    Corruption,
>
    decreases log.len() - at,
{
    proof {
        reveal(frame_at);
    }
    match frame_at(log, at) {
        FrameView::Entry(e, next) => match read_from(log, next) {
            Ok((es, end)) => Ok((seq![e] + es, end)),
            Err(c) => Err(c),
        },
        FrameView::Corrupt(c) => Err(c),
        _ => Ok((Seq::empty(), at)),
    }
}

/// The highest number among `entries`, 0 where there are none.
pub open spec fn max_of(entries: Seq<EntryView>) -> nat
    decreases entries.len(),
{
    if entries.len() == 0 {
        0
    } else if entries.last().seq > max_of(entries.drop_last()) {
        entries.last().seq as nat
    } else {
        max_of(entries.drop_last())
    }
}

/// The tag of an operation.
pub fn op_tag(op: &WalOp) -> (r: u8)
    ensures
        r == tag_of(op@),
{
    match op {
        WalOp::PutKv { .. } => OP_PUT_KV,
        WalOp::InsertVector { .. } => OP_INSERT_VEC,
        WalOp::DeleteKv { .. } => OP_DELETE_KV,
        WalOp::DeleteVector { .. } => OP_DELETE_VEC,
        WalOp::PutColumnar { .. } => OP_PUT_COL,
    }
}

/// Appends `v` in four bytes.
pub fn write_u32(buf: &mut Vec<u8>, v: u32)
    ensures
        final(buf)@ == old(buf)@ + le_bytes(v as nat, 4),
{
    push_le(buf, v as u64, 4);
}

/// Takes four bytes off the front of `reader`.
pub fn read_u32(reader: &mut &[u8]) -> (r: Result<u32>)
    ensures
        old(reader)@.len() < 4 ==> r == Err::<u32, _>(
            StoreError::Corrupt(Corruption::WalTruncatedAtU32),
        ) && final(reader)@ == old(reader)@,
        old(reader)@.len() >= 4 ==> r is Ok && r->Ok_0 == le_val(old(reader)@.take(4))
            && final(reader)@ == old(reader)@.skip(4),
{
    if reader.len() < 4 {
        return Err(StoreError::Corrupt(Corruption::WalTruncatedAtU32));
    }
    let v: u64 = read_le_at(*reader, 0, 4);
    proof {
        crate::bytes::lemma_le_limits();
        assert(reader@.subrange(0, 4) =~= reader@.take(4));
    }
    *reader = slice_subrange(*reader, 4, reader.len());
    proof {
        assert(reader@ =~= old(reader)@.skip(4));
    }
    Ok(v as u32)
}

/// Takes `len` bytes off the front of `reader`.
pub fn read_bytes<'a>(reader: &mut &'a [u8], len: usize) -> (r: Result<&'a [u8]>)
    ensures
        old(reader)@.len() < len ==> r == Err::<&'a [u8], _>(
            StoreError::Corrupt(
                Corruption::WalTruncated { need: len, have: old(reader)@.len() as usize },
            ),
        ) && final(reader)@ == old(reader)@,
        old(reader)@.len() >= len ==> r is Ok && r->Ok_0@ == old(reader)@.take(len as int)
            && final(reader)@ == old(reader)@.skip(len as int),
{
    if reader.len() < len {
        return Err(
            StoreError::Corrupt(Corruption::WalTruncated { need: len, have: reader.len() }),
        );
    }
    let out: &'a [u8] = slice_subrange(*reader, 0, len);
    *reader = slice_subrange(*reader, len, reader.len());
    proof {
        assert(out@ =~= old(reader)@.take(len as int));
        assert(reader@ =~= old(reader)@.skip(len as int));
    }
    Ok(out)
}

/// The text that `bytes` spell in UTF-8, by `std::str::from_utf8`; `None` where they spell none.
#[verifier::external_body]
fn text_of_utf8(bytes: &[u8]) -> (r: Option<String>)
    ensures
        r is Some <==> valid_utf8(bytes@),
        r is Some ==> r->Some_0@ == decode_utf8(bytes@),
{
    match std::str::from_utf8(bytes) {
        Ok(s) => Some(s.to_string()),
        Err(_) => None,
    }
}

fn write_field(buf: &mut Vec<u8>, s: &[u8])
    ensures
        final(buf)@ == old(buf)@ + field_bytes(s@),
{
    #[verifier::truncate]
    let n: u32 = s.len() as u32;
    proof {
        lemma_len_prefix(s@.len());
    }
    write_u32(buf, n);
    buf.extend_from_slice(s);
    proof {
        assert(buf@ =~= old(buf)@ + field_bytes(s@));
    }
}

/// The body of an operation.
pub fn encode_op(op: &WalOp) -> (r: Vec<u8>)
    ensures
        r@ == body_of(op@),
{
    let mut buf: Vec<u8> = Vec::new();
    match op {
        WalOp::PutKv { key, value } => {
            write_field(&mut buf, key.as_slice());
            write_field(&mut buf, value.as_slice());
            proof {
                assert(buf@ =~= body_of(op@));
            }
        },
        WalOp::InsertVector { id, vector } => {
            push_le(&mut buf, *id, 8);
            #[verifier::truncate]
            let n: u32 = vector.len() as u32;
            proof {
                lemma_len_prefix(vector@.len());
            }
            write_u32(&mut buf, n);
            let ghost head = buf@;
            let mut i: usize = 0;
            proof {
                assert(vector@.take(0) =~= Seq::<u32>::empty());
                assert(buf@ =~= head + word_bytes(vector@.take(0)));
            }
            while i < vector.len()
                invariant
                    i <= vector@.len(),
                    buf@ == head + word_bytes(vector@.take(i as int)),
                decreases vector@.len() - i,
            {
                let ghost before = buf@;
                write_u32(&mut buf, vector[i]);
                proof {
                    let w = vector@[i as int];
                    assert(vector@.take(i + 1) =~= vector@.take(i as int).push(w));
                    crate::bytes::lemma_word_bytes_push(vector@.take(i as int), w);
                    assert(buf@ =~= head + word_bytes(vector@.take(i + 1)));
                }
                i = i + 1;
            }
            proof {
                assert(vector@.take(i as int) =~= vector@);
                assert(buf@ =~= body_of(op@));
            }
        },
        WalOp::DeleteKv { key } => {
            write_field(&mut buf, key.as_slice());
            proof {
                assert(buf@ =~= body_of(op@));
            }
        },
        WalOp::DeleteVector { id } => {
            push_le(&mut buf, *id, 8);
            proof {
                assert(buf@ =~= body_of(op@));
            }
        },
        WalOp::PutColumnar { table_id, ipc } => {
            write_field(&mut buf, table_id.as_str().as_bytes());
            write_field(&mut buf, ipc.as_slice());
            proof {
                assert(buf@ =~= body_of(op@));
            }
        },
    }
    buf
}

/// A length keeps its low four bytes when it is narrowed to 32 bits.
proof fn lemma_len_prefix(n: nat)
    requires
        n <= usize::MAX,
    ensures
        le_bytes(((n as usize) as u32) as nat, 4) == le_bytes(n, 4),
{
    let x = n as usize;
    assert(x as u32 == (x as u64) % 0x1_0000_0000u64) by (bit_vector);
    crate::bytes::lemma_le_limits();
    crate::bytes::lemma_le_bytes_mod(n, 4);
}

fn read_field<'a>(reader: &mut &'a [u8]) -> (r: Result<&'a [u8]>)
    ensures
        match field_at(old(reader)@, 0) {
            Ok((s, end)) => r is Ok && r->Ok_0@ == s && final(reader)@ == old(reader)@.skip(end),
            Err(c) => r == Err::<&'a [u8], _>(StoreError::Corrupt(c)),
        },
{
    proof {
        assert(reader@.take(4) =~= reader@.subrange(0, 4) || reader@.len() < 4);
        assert(reader@.len() == reader.len());
    }
    let n: u32 = read_u32(reader)?;
    let ghost rest = reader@;
    let s: &'a [u8] = read_bytes(reader, n as usize)?;
    proof {
        assert(s@ =~= old(reader)@.subrange(4, 4 + n as int));
        assert(reader@ =~= old(reader)@.skip(4 + n as int));
    }
    Ok(s)
}

/// A field found behind the first `at` bytes.
proof fn lemma_field_skip(body: Seq<u8>, at: int)
    requires
        0 <= at <= body.len(),
    ensures
        match field_at(body.skip(at), 0) {
            Ok((s, end)) => field_at(body, at) == Ok::<(Seq<u8>, int), Corruption>((s, at + end)),
            Err(c) => field_at(body, at) == Err::<(Seq<u8>, int), Corruption>(c),
        },
{
    let b = body.skip(at);
    if b.len() >= 4 {
        assert(b.subrange(0, 4) =~= body.subrange(at, at + 4));
        let n = le_val(b.subrange(0, 4)) as int;
        if b.len() - 4 >= n {
            assert(b.subrange(4, 4 + n) =~= body.subrange(at + 4, at + 4 + n));
        }
    }
}

fn decode_put_kv(body: &[u8]) -> (r: Result<WalOp>)
    ensures
        decode_result(OP_PUT_KV, body@, r),
{
    let mut r: &[u8] = body;
    let key: Vec<u8> = slice_to_vec(read_field(&mut r)?);
    proof {
        lemma_field_skip(body@, 4 + key@.len() as int);
    }
    let value: Vec<u8> = slice_to_vec(read_field(&mut r)?);
    if !r.is_empty() {
        return Err(StoreError::Corrupt(Corruption::WalPutKvTrailing));
    }
    Ok(WalOp::PutKv { key, value })
}

fn decode_insert_vec(body: &[u8]) -> (r: Result<WalOp>)
    ensures
        decode_result(OP_INSERT_VEC, body@, r),
{
    proof {
        assert(body@.len() == body.len());
    }
    if body.len() < 8 {
        return Err(StoreError::Corrupt(Corruption::WalInsertVecTruncatedId));
    }
    let id: u64 = read_le_at(body, 0, 8);
    let mut r: &[u8] = slice_subrange(body, 8, body.len());
    proof {
        assert(body@.subrange(0, 8) =~= body@.take(8));
        assert(body@.len() >= 12 ==> r@.take(4) =~= body@.subrange(8, 12));
    }
    let dim: u32 = read_u32(&mut r)?;
    let need: usize = match (dim as usize).checked_mul(4) {
        Some(n) => n,
        None => return Err(StoreError::Corrupt(Corruption::WalInsertVecDimOverflow)),
    };
    let ghost rest = r@;
    let raw: &[u8] = read_bytes(&mut r, need)?;
    proof {
        assert(rest =~= body@.skip(12));
    }
    let mut vector: Vec<u32> = Vec::new();
    let mut i: usize = 0;
    while i < dim as usize
        invariant
            i <= dim,
            need == 4 * dim,
            raw@.len() == need,
            vector@.len() == i,
            forall|j: int| 0 <= j < i ==> vector@[j] == words_of(raw@)[j],
        decreases dim - i,
    {
        let w: u64 = read_le_at(raw, 4 * i, 4);
        proof {
            crate::bytes::lemma_le_limits();
        }
        vector.push(w as u32);
        i = i + 1;
    }
    if !r.is_empty() {
        return Err(StoreError::Corrupt(Corruption::WalInsertVecTrailing));
    }
    proof {
        assert(raw@ =~= body@.skip(12));
        assert(vector@ =~= words_of(raw@));
    }
    Ok(WalOp::InsertVector { id, vector })
}

fn decode_delete_kv(body: &[u8]) -> (r: Result<WalOp>)
    ensures
        decode_result(OP_DELETE_KV, body@, r),
{
    let mut r: &[u8] = body;
    let key: Vec<u8> = slice_to_vec(read_field(&mut r)?);
    if !r.is_empty() {
        return Err(StoreError::Corrupt(Corruption::WalDeleteKvTrailing));
    }
    Ok(WalOp::DeleteKv { key })
}

fn decode_delete_vec(body: &[u8]) -> (r: Result<WalOp>)
    ensures
        decode_result(OP_DELETE_VEC, body@, r),
{
    if body.len() != 8 {
        return Err(StoreError::Corrupt(Corruption::WalDeleteVecBody));
    }
    let id: u64 = read_le(body);
    Ok(WalOp::DeleteVector { id })
}

fn decode_put_col(body: &[u8]) -> (r: Result<WalOp>)
    ensures
        decode_result(OP_PUT_COL, body@, r),
{
    let mut r: &[u8] = body;
    let table: &[u8] = read_field(&mut r)?;
    let table_id: String = match text_of_utf8(table) {
        Some(t) => t,
        None => return Err(StoreError::Corrupt(Corruption::WalPutColTableIdNotUtf8)),
    };
    proof {
        lemma_field_skip(body@, 4 + table@.len() as int);
    }
    let ipc: Vec<u8> = slice_to_vec(read_field(&mut r)?);
    if !r.is_empty() {
        return Err(StoreError::Corrupt(Corruption::WalPutColTrailing));
    }
    Ok(WalOp::PutColumnar { table_id, ipc })
}

/// `r` is what `decoded` says of a body under a tag.
pub open spec fn decode_result(tag: u8, body: Seq<u8>, r: Result<WalOp>) -> bool {
    match decoded(tag, body) {
        Ok(op) => r is Ok && r->Ok_0@ == op,
        Err(c) => r is Err && r->Err_0 == StoreError::Corrupt(c),
    }
}

/// The operation that a body stands for.
pub fn decode_op(tag: u8, body: &[u8]) -> (r: Result<WalOp>)
    ensures
        decode_result(tag, body@, r),
{
    if tag == OP_PUT_KV {
        decode_put_kv(body)
    } else if tag == OP_INSERT_VEC {
        decode_insert_vec(body)
    } else if tag == OP_DELETE_KV {
        decode_delete_kv(body)
    } else if tag == OP_DELETE_VEC {
        decode_delete_vec(body)
    } else if tag == OP_PUT_COL {
        decode_put_col(body)
    } else {
        Err(StoreError::Corrupt(Corruption::WalUnknownTag { tag }))
    }
}

/// What stands at a place of the log, short of a whole frame that stands for no operation.
pub enum FrameRead {
    Entry { entry: WalEntry, next: usize },
    TornTail,
    Eof,
}

/// Reads the frame at `at`. A frame that breaks off is a torn tail, not an error.
pub fn read_frame_or_torn(log: &[u8], at: usize) -> (r: Result<FrameRead>)
    requires
        at <= log@.len(),
    ensures
        match frame_at(log@, at as int) {
            FrameView::Entry(e, n) => r matches Ok(FrameRead::Entry { entry, next }) && entry@ == e
                && next == n && at < next <= log@.len(),
            FrameView::TornTail => r matches Ok(FrameRead::TornTail),
            FrameView::Eof => r matches Ok(FrameRead::Eof),
            FrameView::Corrupt(c) => r is Err && r->Err_0 == StoreError::Corrupt(c),
        },
{
    proof {
        assert(log@.len() == log.len());
        crate::bytes::lemma_le_limits();
        reveal(frame_at);
    }
    if log.len() - at < FRAME_HEADER {
        return Ok(FrameRead::Eof);
    }
    let seq: u64 = read_le_at(log, at, 8);
    let tag: u8 = log[at + 8];
    let n: usize = read_le_at(log, at + 9, 4) as usize;
    let start: usize = at + 13;
    if log.len() - start < n {
        return Ok(FrameRead::TornTail);
    }
    let op: WalOp = decode_op(tag, slice_subrange(log, start, start + n))?;
    Ok(FrameRead::Entry { entry: WalEntry { seq, op }, next: start + n })
}

/// `r` is what `read_from` says of a whole log.
pub open spec fn scan_result(log: Seq<u8>, r: Result<(Vec<WalEntry>, usize)>) -> bool {
    match read_from(log, 0) {
        Ok((es, end)) => r is Ok && entries_view(r->Ok_0.0@) == es && r->Ok_0.1 == end,
        Err(c) => r is Err && r->Err_0 == StoreError::Corrupt(c),
    }
}

/// Reads a log up to its last whole frame: the entries, and how many bytes they take.
pub fn scan(log: &[u8]) -> (r: Result<(Vec<WalEntry>, usize)>)
    ensures
        scan_result(log@, r),
        r is Ok ==> r->Ok_0.1 <= log@.len(),
{
    let mut entries: Vec<WalEntry> = Vec::new();
    let mut at: usize = 0;
    let mut more: bool = true;
    proof {
        assert(entries_view(entries@) =~= Seq::<EntryView>::empty());
        match read_from(log@, 0) {
            Ok((es, end)) => {
                assert(Seq::<EntryView>::empty() + es =~= es);
            },
            Err(_) => {},
        }
    }
    while more
        invariant
            at <= log@.len(),
            match read_from(log@, at as int) {
                Ok((es, end)) => read_from(log@, 0) == Ok::<(Seq<EntryView>, int), Corruption>(
                    (entries_view(entries@) + es, end),
                ),
                Err(c) => read_from(log@, 0) == Err::<(Seq<EntryView>, int), Corruption>(c),
            },
            !more ==> read_from(log@, at as int) == Ok::<(Seq<EntryView>, int), Corruption>(
                (Seq::empty(), at as int),
            ),
        decreases log@.len() - at, if more { 1int } else { 0int },
    {
        match read_frame_or_torn(log, at)? {
            FrameRead::Entry { entry, next } => {
                let ghost before = entries_view(entries@);
                let ghost e = entry@;
                entries.push(entry);
                proof {
                    assert(entries_view(entries@) =~= before.push(e));
                    match read_from(log@, next as int) {
                        Ok((es, end)) => {
                            assert(before.push(e) + es =~= before + (seq![e] + es));
                        },
                        Err(_) => {},
                    }
                }
                at = next;
            },
            FrameRead::TornTail => {
                more = false;
            },
            FrameRead::Eof => {
                more = false;
            },
        }
    }
    proof {
        assert(entries_view(entries@) + Seq::<EntryView>::empty() =~= entries_view(entries@));
    }
    Ok((entries, at))
}

fn max_entry(entries: &Vec<WalEntry>) -> (r: u64)
    ensures
        r == max_of(entries_view(entries@)),
{
    let mut m: u64 = 0;
    let mut i: usize = 0;
    let ghost es = entries_view(entries@);
    while i < entries.len()
        invariant
            i <= entries@.len(),
            es == entries_view(entries@),
            m == max_of(es.take(i as int)),
        decreases entries@.len() - i,
    {
        proof {
            assert(es.take(i + 1).drop_last() =~= es.take(i as int));
            assert(es.take(i + 1).last() == entries@[i as int]@);
        }
        if entries[i].seq > m {
            m = entries[i].seq;
        }
        i = i + 1;
    }
    proof {
        assert(es.take(i as int) =~= es);
    }
    m
}

/// The highest sequence number in a log, 0 where it holds no entry.
pub fn max_seq(log: &[u8]) -> (r: Result<u64>)
    ensures
        match read_from(log@, 0) {
            Ok((es, _)) => r is Ok && r->Ok_0 == max_of(es),
            Err(c) => r is Err && r->Err_0 == StoreError::Corrupt(c),
        },
{
    let (entries, _) = scan(log)?;
    Ok(max_entry(&entries))
}

fn push_frame(out: &mut Vec<u8>, seq: u64, tag: u8, body: &Vec<u8>)
    ensures
        final(out)@ == old(out)@ + (le_bytes(seq as nat, 8) + seq![tag] + le_bytes(body@.len(), 4)
            + body@),
{
    push_le(out, seq, 8);
    out.push(tag);
    #[verifier::truncate]
    let n: u32 = body.len() as u32;
    proof {
        lemma_len_prefix(body@.len());
    }
    write_u32(out, n);
    out.extend_from_slice(body.as_slice());
    proof {
        assert(out@ =~= old(out)@ + (le_bytes(seq as nat, 8) + seq![tag] + le_bytes(body@.len(), 4)
            + body@));
    }
}

/// What a checkpoint recorded: the highest sequence number that need not be replayed, its own
/// number, and the file of the graph snapshot.
#[derive(Debug, Clone, PartialEq, Eq)]
pub struct CheckpointMarker {
    pub applied_seq: u64,
    pub checkpoint_seq: u64,
    pub graph_snapshot: Option<String>,
}

/// The `applied_seq` of a marker, 0 where there is none.
pub open spec fn applied_of(marker: Option<CheckpointMarker>) -> u64 {
    match marker {
        Some(m) => m.applied_seq,
        None => 0,
    }
}

/// Frames to be written to the end of the log, with the numbers they carry.
pub struct PendingAppend {
    pub first_seq: u64,
    pub count: u64,
    pub bytes: Vec<u8>,
}

/// The numbering of a write-ahead log.
pub struct Wal {
    next_seq: u64,
}

/// The first of `ops` whose body does not fit a frame; their number where there is none.
pub open spec fn first_misfit(ops: Seq<OpView>) -> nat
    decreases ops.len(),
{
    if ops.len() == 0 || !fits(ops[0]) {
        0
    } else {
        1 + first_misfit(ops.drop_first())
    }
}

impl Wal {
    /// The number that the next entry gets.
    pub closed spec fn seq(&self) -> u64 {
        self.next_seq
    }

    /// Opens a log under the marker that stands beside it. Also says how many bytes of the log
    /// are whole frames: what follows is a torn tail and goes before anything is appended.
    /// Numbering goes on behind the highest number that the log or the marker holds.
    pub fn open(log: &[u8], marker: &Option<CheckpointMarker>) -> (r: Result<(Wal, usize)>)
        ensures
            match read_from(log@, 0) {
                Ok((es, end)) => r is Ok && r->Ok_0.1 == end && r->Ok_0.1 <= log@.len()
                    && r->Ok_0.0.seq() == next_after(max_of(es), applied_of(*marker)),
                Err(c) => r is Err && r->Err_0 == StoreError::Corrupt(c),
            },
    {
        let (entries, end) = scan(log)?;
        let m: u64 = max_entry(&entries);
        let applied: u64 = match marker {
            Some(m) => m.applied_seq,
            None => 0,
        };
        let top: u64 = if m >= applied {
            m
        } else {
            applied
        };
        Ok((Wal { next_seq: top.saturating_add(1) }, end))
    }

    /// The number that the next entry gets.
    pub fn next_seq(&self) -> (r: u64)
        ensures
            r == self.seq(),
    {
        self.next_seq
    }

    /// The frame that appends `op`.
    pub fn append(&self, op: &WalOp) -> (r: Result<PendingAppend>)
        requires
            self.seq() < u64::MAX,
        ensures
            fits(op@) ==> r is Ok && r->Ok_0.first_seq == self.seq() && r->Ok_0.count == 1
                && r->Ok_0.bytes@ == frame_of(self.seq(), op@),
            !fits(op@) ==> r is Err && r->Err_0 == StoreError::ValueTooLarge(
                body_of(op@).len() as usize,
            ),
    {
        let body: Vec<u8> = encode_op(op);
        if body.len() > u32::MAX as usize {
            return Err(StoreError::ValueTooLarge(body.len()));
        }
        let mut bytes: Vec<u8> = Vec::new();
        push_frame(&mut bytes, self.next_seq, op_tag(op), &body);
        proof {
            assert(bytes@ =~= frame_of(self.next_seq, op@));
        }
        Ok(PendingAppend { first_seq: self.next_seq, count: 1, bytes })
    }

    /// The frames that append `ops` under consecutive numbers, to be written as one.
    pub fn append_batch(&self, ops: &[WalOp]) -> (r: Result<PendingAppend>)
        requires
            self.seq() + ops@.len() <= u64::MAX,
        ensures
            ({
                let vs = ops@.map_values(|o: WalOp| o@);
                let k = first_misfit(vs);
                if k < vs.len() {
                    r is Err && r->Err_0 == StoreError::ValueTooLarge(
                        body_of(vs[k as int]).len() as usize,
                    )
                } else {
                    r is Ok && r->Ok_0.first_seq == self.seq() && r->Ok_0.count == ops@.len()
                        && r->Ok_0.bytes@ == log_of(numbered(vs, self.seq() as int))
                }
            }),
    {
        let ghost vs = ops@.map_values(|o: WalOp| o@);
        let mut bytes: Vec<u8> = Vec::new();
        let mut i: usize = 0;
        proof {
            assert(vs.skip(0) =~= vs);
            assert(numbered(vs.take(0), self.next_seq as int) =~= Seq::<EntryView>::empty());
        }
        while i < ops.len()
            invariant
                i <= ops@.len(),
                vs == ops@.map_values(|o: WalOp| o@),
                self.next_seq + ops@.len() <= u64::MAX,
                first_misfit(vs) == i + first_misfit(vs.skip(i as int)),
                bytes@ == log_of(numbered(vs.take(i as int), self.next_seq as int)),
            decreases ops@.len() - i,
        {
            let op: &WalOp = &ops[i];
            let body: Vec<u8> = encode_op(op);
            proof {
                assert(vs.skip(i as int)[0] == op@);
                assert(vs.skip(i as int).drop_first() =~= vs.skip(i + 1));
            }
            if body.len() > u32::MAX as usize {
                return Err(StoreError::ValueTooLarge(body.len()));
            }
            let ghost before = bytes@;
            let seq: u64 = self.next_seq + i as u64;
            push_frame(&mut bytes, seq, op_tag(op), &body);
            proof {
                let all = numbered(vs.take(i + 1), self.next_seq as int);
                assert(all.drop_last() =~= numbered(vs.take(i as int), self.next_seq as int));
                assert(all.last() == EntryView { seq, op: op@ });
                assert(bytes@ =~= log_of(all));
            }
            i = i + 1;
        }
        proof {
            assert(vs.take(i as int) =~= vs);
            assert(vs.skip(i as int).len() == 0);
        }
        Ok(PendingAppend { first_seq: self.next_seq, count: ops.len() as u64, bytes })
    }

    /// Moves the numbering behind frames that have reached the log.
    pub fn committed(&mut self, p: &PendingAppend)
        requires
            p.first_seq == old(self).seq(),
            p.first_seq + p.count <= u64::MAX,
        ensures
            final(self).seq() == p.first_seq + p.count,
    {
        self.next_seq = p.first_seq + p.count;
    }

    /// The entries of a log up to its last whole frame.
    pub fn read_all(log: &[u8]) -> (r: Result<Vec<WalEntry>>)
        ensures
            match read_from(log@, 0) {
                Ok((es, _)) => r is Ok && entries_view(r->Ok_0@) == es,
                Err(c) => r is Err && r->Err_0 == StoreError::Corrupt(c),
            },
    {
        let (entries, _) = scan(log)?;
        Ok(entries)
    }

    /// The log without the entries up to `applied_seq`; `None` where the log holds no entry
    /// and stays as it is.
    pub fn truncate_to(log: &[u8], applied_seq: u64) -> (r: Result<Option<Vec<u8>>>)
        ensures
            match read_from(log@, 0) {
                Ok((es, _)) => if es.len() == 0 {
                    r matches Ok(None)
                } else {
                    r matches Ok(Some(kept)) && kept@ == log_of(after(es, applied_seq))
                },
                Err(c) => r is Err && r->Err_0 == StoreError::Corrupt(c),
            },
    {
        let (entries, _) = scan(log)?;
        if entries.len() == 0 {
            return Ok(None);
        }
        let ghost es = entries_view(entries@);
        let mut kept: Vec<u8> = Vec::new();
        let mut i: usize = 0;
        while i < entries.len()
            invariant
                i <= entries@.len(),
                es == entries_view(entries@),
                kept@ == log_of(after(es.take(i as int), applied_seq)),
            decreases entries@.len() - i,
        {
            let entry: &WalEntry = &entries[i];
            proof {
                assert(es.take(i + 1).drop_last() =~= es.take(i as int));
                assert(es.take(i + 1).last() == entry@);
            }
            if entry.seq > applied_seq {
                let body: Vec<u8> = encode_op(&entry.op);
                push_frame(&mut kept, entry.seq, op_tag(&entry.op), &body);
                proof {
                    let all = after(es.take(i + 1), applied_seq);
                    assert(all.drop_last() =~= after(es.take(i as int), applied_seq));
                    assert(kept@ =~= log_of(all));
                }
            }
            i = i + 1;
        }
        proof {
            assert(es.take(i as int) =~= es);
        }
        Ok(Some(kept))
    }
}

/// The number behind both `max` and `applied`, as far as numbers go.
pub open spec fn next_after(max: nat, applied: u64) -> u64 {
    let top = if max >= applied {
        max
    } else {
        applied as nat
    };
    if top < u64::MAX {
        (top + 1) as u64
    } else {
        u64::MAX
    }
}

} // verus!
