//! What holds of every log: operations and entries come back as they were written, a torn log
//! reads as a prefix, and truncation keeps exactly the entries behind the checkpoint.

use vstd::prelude::*;
use vstd::utf8::encode_utf8;
use crate::bytes::{
    le_bytes, le_read_back, le_round_trip, le_val, lemma_le_bytes_len, lemma_le_limits,
    lemma_le_val_bound, lemma_word_bytes_len, word_bytes, words_read_back, words_round_trip,
};
use crate::error::Corruption;
use crate::mem::wal::{
    after, applied_of, body_of, decoded, field_at, field_bytes, first_misfit, fits, frame_at,
    frame_of, log_of, max_of, next_after, numbered, read_from, tag_of, CheckpointMarker, EntryView,
    FrameView, OpView, OP_DELETE_KV, OP_DELETE_VEC, OP_INSERT_VEC, OP_PUT_KV,
};

verus! {

proof fn lemma_field_bytes_at(pre: Seq<u8>, s: Seq<u8>, post: Seq<u8>)
    requires
        s.len() <= u32::MAX,
    ensures
        field_bytes(s).len() == 4 + s.len(),
        field_at(pre + field_bytes(s) + post, pre.len() as int) == Ok::<
            (Seq<u8>, int),
            Corruption,
        >((s, (pre.len() + 4 + s.len()) as int)),
{
    let all = pre + field_bytes(s) + post;
    let at = pre.len() as int;
    lemma_le_bytes_len(s.len(), 4);
    lemma_le_limits();
    le_round_trip(s.len(), 4);
    assert(all.subrange(at, at + 4) =~= le_bytes(s.len(), 4));
    assert(all.subrange(at + 4, at + 4 + s.len()) =~= s);
}

/// Whether the lengths in the body of an operation fit the four bytes that they have there, and
/// the components of a vector take no more bytes than a machine can count.
pub open spec fn lengths_fit(op: OpView) -> bool {
    match op {
        OpView::PutKv { key, value } => key.len() <= u32::MAX && value.len() <= u32::MAX,
        OpView::InsertVector { id: _, vector } => vector.len() <= u32::MAX && 4 * vector.len()
            <= usize::MAX,
        OpView::DeleteKv { key } => key.len() <= u32::MAX,
        OpView::DeleteVector { .. } => true,
        OpView::PutColumnar { table_id, ipc } => encode_utf8(table_id).len() <= u32::MAX
            && ipc.len() <= u32::MAX,
    }
}

/// The lengths of an operation that fits a frame fit its body.
proof fn lemma_lengths_fit(op: OpView)
    requires
        fits(op),
    ensures
        lengths_fit(op),
{
    match op {
        OpView::PutKv { key, value } => {
            lemma_le_bytes_len(key.len(), 4);
            lemma_le_bytes_len(value.len(), 4);
        },
        OpView::InsertVector { id, vector } => {
            lemma_le_bytes_len(id as nat, 8);
            lemma_le_bytes_len(vector.len(), 4);
            lemma_word_bytes_len(vector);
        },
        OpView::DeleteKv { key } => {
            lemma_le_bytes_len(key.len(), 4);
        },
        OpView::DeleteVector { .. } => {},
        OpView::PutColumnar { table_id, ipc } => {
            lemma_le_bytes_len(encode_utf8(table_id).len(), 4);
            lemma_le_bytes_len(ipc.len(), 4);
        },
    }
}

/// Decoding what was encoded gives the operation back.
pub proof fn decode_inverts_encode(op: OpView)
    requires
        lengths_fit(op),
    ensures
        decoded(tag_of(op), body_of(op)) == Ok::<OpView, Corruption>(op),
{
    let body = body_of(op);
    let none = Seq::<u8>::empty();
    lemma_le_limits();
    match op {
        OpView::PutKv { key, value } => {
            lemma_le_bytes_len(key.len(), 4);
            lemma_le_bytes_len(value.len(), 4);
            lemma_field_bytes_at(none, key, field_bytes(value));
            lemma_field_bytes_at(field_bytes(key), value, none);
            assert(none + field_bytes(key) + field_bytes(value) =~= body);
            assert(field_bytes(key) + field_bytes(value) + none =~= body);
        },
        OpView::InsertVector { id, vector } => {
            lemma_le_bytes_len(id as nat, 8);
            lemma_le_bytes_len(vector.len(), 4);
            lemma_word_bytes_len(vector);
            le_round_trip(id as nat, 8);
            le_round_trip(vector.len(), 4);
            words_round_trip(vector);
            assert(body.take(8) =~= le_bytes(id as nat, 8));
            assert(body.subrange(8, 12) =~= le_bytes(vector.len(), 4));
            assert(body.skip(12) =~= word_bytes(vector));
        },
        OpView::DeleteKv { key } => {
            lemma_le_bytes_len(key.len(), 4);
            lemma_field_bytes_at(none, key, none);
            assert(none + field_bytes(key) + none =~= body);
        },
        OpView::DeleteVector { id } => {
            lemma_le_bytes_len(id as nat, 8);
            le_round_trip(id as nat, 8);
        },
        OpView::PutColumnar { table_id, ipc } => {
            let t = encode_utf8(table_id);
            vstd::utf8::encode_utf8_valid_utf8(table_id);
            vstd::utf8::encode_utf8_decode_utf8(table_id);
            lemma_le_bytes_len(t.len(), 4);
            lemma_le_bytes_len(ipc.len(), 4);
            lemma_field_bytes_at(none, t, field_bytes(ipc));
            lemma_field_bytes_at(field_bytes(t), ipc, none);
            assert(none + field_bytes(t) + field_bytes(ipc) =~= body);
            assert(field_bytes(t) + field_bytes(ipc) + none =~= body);
        },
    }
}

proof fn lemma_field_at_bytes(body: Seq<u8>, at: int)
    requires
        0 <= at <= body.len(),
        field_at(body, at) is Ok,
    ensures
        ({
            let (s, end) = field_at(body, at)->Ok_0;
            at + 4 <= end <= body.len() && body.subrange(at, end) == field_bytes(s)
        }),
{
    let (s, end) = field_at(body, at)->Ok_0;
    le_read_back(body.subrange(at, at + 4));
    assert(body.subrange(at, end) =~= field_bytes(s));
}

/// Encoding what was decoded gives the bytes back: an operation has one encoding.
pub proof fn encode_inverts_decode(tag: u8, body: Seq<u8>)
    requires
        decoded(tag, body) is Ok,
    ensures
        tag_of(decoded(tag, body)->Ok_0) == tag,
        body_of(decoded(tag, body)->Ok_0) == body,
{
    lemma_le_limits();
    if tag == OP_PUT_KV {
        lemma_field_at_bytes(body, 0);
        let (key, at) = field_at(body, 0)->Ok_0;
        lemma_field_at_bytes(body, at);
        let (value, end) = field_at(body, at)->Ok_0;
        assert(body.subrange(0, at) + body.subrange(at, end) =~= body);
    } else if tag == OP_INSERT_VEC {
        lemma_le_val_bound(body.take(8));
        le_read_back(body.take(8));
        lemma_le_val_bound(body.subrange(8, 12));
        le_read_back(body.subrange(8, 12));
        words_read_back(body.skip(12));
        assert(body.take(8) + body.subrange(8, 12) + body.skip(12) =~= body);
    } else if tag == OP_DELETE_KV {
        lemma_field_at_bytes(body, 0);
        assert(body.subrange(0, body.len() as int) =~= body);
    } else if tag == OP_DELETE_VEC {
        lemma_le_val_bound(body);
        le_read_back(body);
    } else {
        lemma_field_at_bytes(body, 0);
        let (table, at) = field_at(body, 0)->Ok_0;
        lemma_field_at_bytes(body, at);
        let (ipc, end) = field_at(body, at)->Ok_0;
        vstd::utf8::decode_utf8_encode_utf8(table);
        assert(body.subrange(0, at) + body.subrange(at, end) =~= body);
    }
}

proof fn lemma_frame_len(seq: u64, op: OpView)
    ensures
        frame_of(seq, op).len() == 13 + body_of(op).len(),
{
    lemma_le_bytes_len(seq as nat, 8);
    lemma_le_bytes_len(body_of(op).len(), 4);
}

/// A frame read where it stands.
proof fn lemma_frame_at(pre: Seq<u8>, e: EntryView, post: Seq<u8>)
    requires
        fits(e.op),
    ensures
        frame_at(pre + frame_of(e.seq, e.op) + post, pre.len() as int) == FrameView::Entry(
            e,
            (pre.len() + frame_of(e.seq, e.op).len()) as int,
        ),
{
    reveal(frame_at);
    let f = frame_of(e.seq, e.op);
    let body = body_of(e.op);
    let log = pre + f + post;
    let at = pre.len() as int;
    lemma_frame_len(e.seq, e.op);
    lemma_le_bytes_len(e.seq as nat, 8);
    lemma_le_bytes_len(body.len(), 4);
    lemma_le_limits();
    le_round_trip(e.seq as nat, 8);
    le_round_trip(body.len(), 4);
    lemma_lengths_fit(e.op);
    decode_inverts_encode(e.op);
    assert(log.subrange(at, at + 8) =~= le_bytes(e.seq as nat, 8));
    assert(log[at + 8] == tag_of(e.op));
    assert(log.subrange(at + 9, at + 13) =~= le_bytes(body.len(), 4));
    assert(log.subrange(at + 13, at + 13 + body.len()) =~= body);
}

/// A frame that breaks off ends the log without an error.
proof fn lemma_frame_torn(pre: Seq<u8>, e: EntryView, n: int)
    requires
        fits(e.op),
        0 <= n < frame_of(e.seq, e.op).len(),
    ensures
        ({
            let f = frame_at(pre + frame_of(e.seq, e.op).take(n), pre.len() as int);
            f is TornTail || f is Eof
        }),
{
    reveal(frame_at);
    let f = frame_of(e.seq, e.op);
    let body = body_of(e.op);
    let log = pre + f.take(n);
    let at = pre.len() as int;
    lemma_frame_len(e.seq, e.op);
    lemma_le_bytes_len(e.seq as nat, 8);
    lemma_le_bytes_len(body.len(), 4);
    lemma_le_limits();
    le_round_trip(body.len(), 4);
    if n >= 13 {
        assert(log.subrange(at + 9, at + 13) =~= le_bytes(body.len(), 4));
    }
}

/// The log of a list is the log of its first part followed by that of the rest.
pub proof fn log_concat(a: Seq<EntryView>, b: Seq<EntryView>)
    ensures
        log_of(a + b) == log_of(a) + log_of(b),
    decreases b.len(),
{
    if b.len() == 0 {
        assert(a + b =~= a);
        assert(log_of(a) + log_of(b) =~= log_of(a));
    } else {
        log_concat(a, b.drop_last());
        assert((a + b).drop_last() =~= a + b.drop_last());
        let f = frame_of(b.last().seq, b.last().op);
        assert(log_of(a) + log_of(b.drop_last()) + f =~= log_of(a) + (log_of(b.drop_last()) + f));
    }
}

/// All operations of `entries` fit a frame.
pub open spec fn all_fit(entries: Seq<EntryView>) -> bool {
    forall|i: int| 0 <= i < entries.len() ==> fits(#[trigger] entries[i].op)
}

/// A log ends where its bytes end.
proof fn lemma_eof(log: Seq<u8>)
    ensures
        read_from(log, log.len() as int) == Ok::<(Seq<EntryView>, int), Corruption>(
            (Seq::empty(), log.len() as int),
        ),
{
    reveal(frame_at);
}

/// Reading a whole frame goes on behind it.
proof fn lemma_read_step(log: Seq<u8>, at: int, e: EntryView, next: int)
    requires
        frame_at(log, at) == FrameView::Entry(e, next),
    ensures
        match read_from(log, next) {
            Ok((es, end)) => read_from(log, at) == Ok::<(Seq<EntryView>, int), Corruption>(
                (seq![e] + es, end),
            ),
            Err(c) => read_from(log, at) == Err::<(Seq<EntryView>, int), Corruption>(c),
        },
{
}

/// The log around the frame at index `i`.
proof fn lemma_log_around(entries: Seq<EntryView>, i: int)
    requires
        0 <= i < entries.len(),
    ensures
        log_of(entries.take(i + 1)) == log_of(entries.take(i)) + frame_of(
            entries[i].seq,
            entries[i].op,
        ),
        log_of(entries) == log_of(entries.take(i)) + frame_of(entries[i].seq, entries[i].op)
            + log_of(entries.skip(i + 1)),
{
    assert(entries.take(i + 1).drop_last() =~= entries.take(i));
    assert(entries.take(i + 1) + entries.skip(i + 1) =~= entries);
    log_concat(entries.take(i + 1), entries.skip(i + 1));
}

/// Reading passes over whole frames and goes on behind them.
proof fn lemma_read_over(entries: Seq<EntryView>, i: int, post: Seq<u8>)
    requires
        all_fit(entries),
        0 <= i <= entries.len(),
    ensures
        ({
            let log = log_of(entries) + post;
            match read_from(log, log_of(entries).len() as int) {
                Ok((es, end)) => read_from(log, log_of(entries.take(i)).len() as int) == Ok::<
                    (Seq<EntryView>, int),
                    Corruption,
                >((entries.skip(i) + es, end)),
                Err(c) => read_from(log, log_of(entries.take(i)).len() as int) == Err::<
                    (Seq<EntryView>, int),
                    Corruption,
                >(c),
            }
        }),
    decreases entries.len() - i,
{
    let log = log_of(entries) + post;
    if i == entries.len() {
        assert(entries.take(i) =~= entries);
        match read_from(log, log_of(entries).len() as int) {
            Ok((es, end)) => {
                assert(entries.skip(i) + es =~= es);
            },
            Err(_) => {},
        }
    } else {
        let e = entries[i];
        let f = frame_of(e.seq, e.op);
        let rest = entries.skip(i + 1);
        let at = log_of(entries.take(i)).len() as int;
        lemma_read_over(entries, i + 1, post);
        lemma_log_around(entries, i);
        assert(log =~= log_of(entries.take(i)) + f + (log_of(rest) + post));
        lemma_frame_at(log_of(entries.take(i)), e, log_of(rest) + post);
        lemma_read_step(log, at, e, at + f.len());
        match read_from(log, log_of(entries).len() as int) {
            Ok((es, end)) => {
                assert(seq![e] + (rest + es) =~= entries.skip(i) + es);
            },
            Err(_) => {},
        }
    }
}

/// A log of whole frames reads back as the entries that were written.
pub proof fn read_inverts_write(entries: Seq<EntryView>)
    requires
        all_fit(entries),
    ensures
        read_from(log_of(entries), 0) == Ok::<(Seq<EntryView>, int), Corruption>(
            (entries, log_of(entries).len() as int),
        ),
{
    let none = Seq::<u8>::empty();
    assert(log_of(entries) + none =~= log_of(entries));
    lemma_read_over(entries, 0, none);
    lemma_eof(log_of(entries));
    assert(entries.take(0) =~= Seq::<EntryView>::empty());
    assert(entries.skip(0) + Seq::<EntryView>::empty() =~= entries);
}

/// How many of the frames of `entries` lie whole within the first `n` bytes of their log.
pub open spec fn whole_frames(entries: Seq<EntryView>, n: int) -> nat
    decreases entries.len(),
{
    if entries.len() == 0 {
        0
    } else if log_of(entries).len() <= n {
        entries.len()
    } else {
        whole_frames(entries.drop_last(), n)
    }
}

proof fn lemma_whole_frames(entries: Seq<EntryView>, n: int)
    requires
        0 <= n <= log_of(entries).len(),
    ensures
        ({
            let k = whole_frames(entries, n) as int;
            &&& 0 <= k <= entries.len()
            &&& log_of(entries.take(k)).len() <= n
            &&& k < entries.len() ==> n < log_of(entries.take(k + 1)).len()
        }),
    decreases entries.len(),
{
    assert(entries.take(entries.len() as int) =~= entries);
    if entries.len() > 0 && n < log_of(entries).len() {
        let init = entries.drop_last();
        if n <= log_of(init).len() {
            lemma_whole_frames(init, n);
            let k = whole_frames(init, n) as int;
            assert(init.take(k) =~= entries.take(k));
            if k < init.len() {
                assert(init.take(k + 1) =~= entries.take(k + 1));
            }
        } else {
            assert(init =~= entries.take(entries.len() - 1));
            if init.len() > 0 {
                assert(whole_frames(init, n) == init.len());
            }
        }
    }
}

/// A log cut off anywhere reads without an error, as the entries whose frames are still whole.
pub proof fn torn_log_reads_as_prefix(entries: Seq<EntryView>, n: int)
    requires
        all_fit(entries),
        0 <= n <= log_of(entries).len(),
    ensures
        ({
            let kept = entries.take(whole_frames(entries, n) as int);
            read_from(log_of(entries).take(n), 0) == Ok::<(Seq<EntryView>, int), Corruption>(
                (kept, log_of(kept).len() as int),
            )
        }),
{
    lemma_whole_frames(entries, n);
    let k = whole_frames(entries, n) as int;
    let kept = entries.take(k);
    let log = log_of(entries);
    assert(kept + entries.skip(k) =~= entries);
    log_concat(kept, entries.skip(k));
    let m = log_of(kept).len() as int;
    let post = log.subrange(m, n);
    assert(log.take(n) =~= log_of(kept) + post);
    lemma_read_over(kept, 0, post);
    assert(kept.take(0) =~= Seq::<EntryView>::empty());
    if k < entries.len() {
        let e = entries[k];
        let rest = entries.skip(k + 1);
        assert(entries.take(k + 1).drop_last() =~= kept);
        assert(entries.take(k + 1) + rest =~= entries);
        log_concat(entries.take(k + 1), rest);
        let f = frame_of(e.seq, e.op);
        lemma_frame_torn(log_of(kept), e, n - m);
        assert(post =~= f.take(n - m));
    } else {
        assert(kept =~= entries);
        lemma_eof(log.take(n));
    }
    assert(read_from(log.take(n), m) == Ok::<(Seq<EntryView>, int), Corruption>(
        (Seq::empty(), m),
    ));
    assert(kept.skip(0) + Seq::<EntryView>::empty() =~= kept);
}

/// What a log reads as is what it holds: the bytes up to the last whole frame are the frames
/// of the entries that were read.
pub proof fn read_log_is_canonical(log: Seq<u8>)
    requires
        read_from(log, 0) is Ok,
    ensures
        ({
            let (es, end) = read_from(log, 0)->Ok_0;
            0 <= end <= log.len() && log.take(end) == log_of(es) && all_fit(es)
        }),
{
    lemma_read_canonical(log, 0);
    let (es, end) = read_from(log, 0)->Ok_0;
    assert(log.subrange(0, end) =~= log.take(end));
}

proof fn lemma_read_canonical(log: Seq<u8>, at: int)
    requires
        0 <= at <= log.len(),
        read_from(log, at) is Ok,
    ensures
        ({
            let (es, end) = read_from(log, at)->Ok_0;
            at <= end <= log.len() && log.subrange(at, end) == log_of(es) && all_fit(es)
        }),
    decreases log.len() - at,
{
    reveal(frame_at);
    match frame_at(log, at) {
        FrameView::Entry(e, next) => {
            lemma_read_canonical(log, next);
            let (es, end) = read_from(log, next)->Ok_0;
            let n = next - at - 13;
            let body = log.subrange(at + 13, next);
            lemma_le_limits();
            lemma_le_val_bound(log.subrange(at, at + 8));
            lemma_le_val_bound(log.subrange(at + 9, at + 13));
            le_read_back(log.subrange(at, at + 8));
            le_read_back(log.subrange(at + 9, at + 13));
            encode_inverts_decode(log[at + 8], body);
            assert(log.subrange(at, next) =~= frame_of(e.seq, e.op));
            log_concat(seq![e], es);
            assert(seq![e].drop_last() =~= Seq::<EntryView>::empty());
            assert(log_of(seq![e]) =~= frame_of(e.seq, e.op)) by {
                assert(log_of(Seq::<EntryView>::empty()) =~= Seq::<u8>::empty());
            }
            assert(log.subrange(at, end) =~= log.subrange(at, next) + log.subrange(next, end));
            assert forall|i: int| 0 <= i < (seq![e] + es).len() implies fits(
                #[trigger] (seq![e] + es)[i].op,
            ) by {
                if i > 0 {
                    assert(fits(es[i - 1].op));
                }
            }
        },
        _ => {
            assert(log.subrange(at, at) =~= Seq::<u8>::empty());
        },
    }
}

/// Appending to the whole frames of a log, torn or not, adds exactly the new entries.
pub proof fn append_then_read(log: Seq<u8>, ops: Seq<OpView>, first: u64)
    requires
        read_from(log, 0) is Ok,
        first + ops.len() <= u64::MAX,
        forall|i: int| 0 <= i < ops.len() ==> fits(#[trigger] ops[i]),
    ensures
        ({
            let (es, end) = read_from(log, 0)->Ok_0;
            let new = numbered(ops, first as int);
            read_from(log.take(end) + log_of(new), 0) == Ok::<(Seq<EntryView>, int), Corruption>(
                (es + new, end + log_of(new).len()),
            )
        }),
{
    read_log_is_canonical(log);
    let (es, end) = read_from(log, 0)->Ok_0;
    let new = numbered(ops, first as int);
    log_concat(es, new);
    assert(all_fit(es + new)) by {
        assert forall|i: int| 0 <= i < (es + new).len() implies fits(#[trigger] (es + new)[i].op) by {
            if i < es.len() {
                assert(fits(es[i].op));
            } else {
                assert(fits(ops[i - es.len()]));
            }
        }
    }
    read_inverts_write(es + new);
}

proof fn lemma_after_fit(entries: Seq<EntryView>, applied: u64)
    requires
        all_fit(entries),
    ensures
        all_fit(after(entries, applied)),
    decreases entries.len(),
{
    if entries.len() > 0 {
        lemma_after_fit(entries.drop_last(), applied);
        assert(fits(entries.last().op));
    }
}

/// After truncation the log reads as exactly the entries behind the checkpoint, in order.
pub proof fn truncate_then_read(log: Seq<u8>, applied: u64)
    requires
        read_from(log, 0) is Ok,
    ensures
        ({
            let kept = after(read_from(log, 0)->Ok_0.0, applied);
            read_from(log_of(kept), 0) == Ok::<(Seq<EntryView>, int), Corruption>(
                (kept, log_of(kept).len() as int),
            )
        }),
{
    read_log_is_canonical(log);
    let es = read_from(log, 0)->Ok_0.0;
    lemma_after_fit(es, applied);
    read_inverts_write(after(es, applied));
}

/// What is left behind a checkpoint is exactly what carries a higher number.
pub proof fn after_keeps_exactly(entries: Seq<EntryView>, applied: u64)
    ensures
        forall|e: EntryView|
            after(entries, applied).contains(e) <==> entries.contains(e) && e.seq > applied,
    decreases entries.len(),
{
    if entries.len() > 0 {
        let init = entries.drop_last();
        let last = entries.last();
        after_keeps_exactly(init, applied);
        assert(entries =~= init.push(last));
        assert forall|e: EntryView|
            after(entries, applied).contains(e) <==> entries.contains(e) && e.seq > applied by {
            if last.seq > applied {
                let a = after(init, applied);
                assert(a.push(last)[a.len() as int] == last);
                if a.contains(e) {
                    let i = choose|i: int| 0 <= i < a.len() && a[i] == e;
                    assert(a.push(last)[i] == e);
                }
            }
            assert(entries[entries.len() - 1] == last);
            if init.contains(e) {
                let i = choose|i: int| 0 <= i < init.len() && init[i] == e;
                assert(entries[i] == e);
            }
            if entries.contains(e) && e != last {
                let i = choose|i: int| 0 <= i < entries.len() && entries[i] == e;
                assert(init[i] == e);
            }
        }
    } else {
        assert forall|e: EntryView|
            after(entries, applied).contains(e) <==> entries.contains(e) && e.seq > applied by {}
    }
}

/// Truncating twice at one number is truncating once.
pub proof fn truncation_is_idempotent(entries: Seq<EntryView>, applied: u64)
    ensures
        after(after(entries, applied), applied) == after(entries, applied),
    decreases entries.len(),
{
    if entries.len() > 0 {
        truncation_is_idempotent(entries.drop_last(), applied);
        if entries.last().seq > applied {
            let a = after(entries.drop_last(), applied).push(entries.last());
            assert(a.drop_last() =~= after(entries.drop_last(), applied));
        }
    }
}

proof fn lemma_max_of(entries: Seq<EntryView>)
    ensures
        forall|i: int| 0 <= i < entries.len() ==> (#[trigger] entries[i]).seq <= max_of(entries),
        max_of(entries) <= u64::MAX,
    decreases entries.len(),
{
    if entries.len() > 0 {
        lemma_max_of(entries.drop_last());
        assert forall|i: int| 0 <= i < entries.len() implies (#[trigger] entries[i]).seq <= max_of(
            entries,
        ) by {
            if i < entries.len() - 1 {
                assert(entries.drop_last()[i] == entries[i]);
            }
        }
    }
}

/// Numbering goes on upwards: a number given out after opening a log is higher than every
/// number in the log and than the checkpoint, so a later recovery replays its entry. Numbers
/// run out at `u64::MAX`.
pub proof fn numbering_grows(entries: Seq<EntryView>, marker: Option<CheckpointMarker>)
    requires
        max_of(entries) < u64::MAX,
        applied_of(marker) < u64::MAX,
    ensures
        next_after(max_of(entries), applied_of(marker)) > applied_of(marker),
        forall|i: int|
            0 <= i < entries.len() ==> (#[trigger] entries[i]).seq < next_after(
                max_of(entries),
                applied_of(marker),
            ),
{
    lemma_max_of(entries);
}

/// Every entry appended since the last checkpoint is in the plan of a recovery.
pub proof fn fresh_entries_are_replayed(
    entries: Seq<EntryView>,
    marker: Option<CheckpointMarker>,
    ops: Seq<OpView>,
)
    requires
        max_of(entries) < u64::MAX,
        applied_of(marker) < u64::MAX,
        next_after(max_of(entries), applied_of(marker)) + ops.len() <= u64::MAX,
    ensures
        ({
            let new = numbered(ops, next_after(max_of(entries), applied_of(marker)) as int);
            after(entries + new, applied_of(marker)) == after(entries, applied_of(marker)) + new
        }),
    decreases ops.len(),
{
    let applied = applied_of(marker);
    let first = next_after(max_of(entries), applied) as int;
    let new = numbered(ops, first);
    if ops.len() == 0 {
        assert(entries + new =~= entries);
        assert(after(entries, applied) + new =~= after(entries, applied));
    } else {
        fresh_entries_are_replayed(entries, marker, ops.drop_last());
        let head = numbered(ops.drop_last(), first);
        assert((entries + new).drop_last() =~= entries + head);
        assert(new =~= head.push(new.last()));
        assert((after(entries, applied) + head).push(new.last()) =~= after(entries, applied) + new);
    }
}

/// How a frame is laid out: the number in eight bytes, the tag in one, the length of the body in
/// four, and the body. Tags count the kinds of operations from 1.
pub proof fn frames_are_laid_out(seq: u64, op: OpView)
    requires
        fits(op),
    ensures
        ({
            let f = frame_of(seq, op);
            &&& f.len() == 13 + body_of(op).len()
            &&& le_val(f.subrange(0, 8)) == seq
            &&& f[8] == match op {
                OpView::PutKv { .. } => 1u8,
                OpView::InsertVector { .. } => 2u8,
                OpView::DeleteKv { .. } => 3u8,
                OpView::DeleteVector { .. } => 4u8,
                OpView::PutColumnar { .. } => 5u8,
            }
            &&& le_val(f.subrange(9, 13)) == body_of(op).len()
            &&& f.skip(13) == body_of(op)
        }),
{
    let f = frame_of(seq, op);
    let n = body_of(op).len();
    lemma_frame_len(seq, op);
    lemma_le_limits();
    lemma_le_bytes_len(seq as nat, 8);
    lemma_le_bytes_len(n, 4);
    le_round_trip(seq as nat, 8);
    le_round_trip(n, 4);
    assert(f.subrange(0, 8) =~= le_bytes(seq as nat, 8));
    assert(f.subrange(9, 13) =~= le_bytes(n, 4));
    assert(f.skip(13) =~= body_of(op));
}

/// An operation fits a frame exactly where its strings, each with its length in four bytes, are
/// no longer than a frame can say; a vector counts eight bytes for its id, four for its length
/// and four for each component.
pub proof fn what_fits_a_frame(op: OpView)
    ensures
        fits(op) <==> match op {
            OpView::PutKv { key, value } => 8 + key.len() + value.len() <= 0xFFFF_FFFF,
            OpView::InsertVector { id, vector } => 12 + 4 * vector.len() <= 0xFFFF_FFFF,
            OpView::DeleteKv { key } => 4 + key.len() <= 0xFFFF_FFFF,
            OpView::DeleteVector { id } => true,
            OpView::PutColumnar { table_id, ipc } => 8 + encode_utf8(table_id).len() + ipc.len()
                <= 0xFFFF_FFFF,
        },
{
    match op {
        OpView::PutKv { key, value } => {
            lemma_le_bytes_len(key.len(), 4);
            lemma_le_bytes_len(value.len(), 4);
        },
        OpView::InsertVector { id, vector } => {
            lemma_le_bytes_len(id as nat, 8);
            lemma_le_bytes_len(vector.len(), 4);
            lemma_word_bytes_len(vector);
        },
        OpView::DeleteKv { key } => {
            lemma_le_bytes_len(key.len(), 4);
        },
        OpView::DeleteVector { id } => {
            lemma_le_bytes_len(id as nat, 8);
        },
        OpView::PutColumnar { table_id, ipc } => {
            lemma_le_bytes_len(encode_utf8(table_id).len(), 4);
            lemma_le_bytes_len(ipc.len(), 4);
        },
    }
}

/// A batch is refused for the first operation that does not fit a frame, and only where there is
/// one.
pub proof fn misfits_are_found(ops: Seq<OpView>)
    ensures
        first_misfit(ops) <= ops.len(),
        forall|i: int| 0 <= i < first_misfit(ops) ==> fits(#[trigger] ops[i]),
        first_misfit(ops) < ops.len() ==> !fits(ops[first_misfit(ops) as int]),
    decreases ops.len(),
{
    if ops.len() > 0 && fits(ops[0]) {
        misfits_are_found(ops.drop_first());
        assert forall|i: int| 0 <= i < first_misfit(ops) implies fits(#[trigger] ops[i]) by {
            if i > 0 {
                assert(ops.drop_first()[i - 1] == ops[i]);
            }
        }
    }
}

/// A batch carries its operations in order, under numbers that count up by one.
pub proof fn batches_count_up(ops: Seq<OpView>, first: u64)
    requires
        first + ops.len() <= u64::MAX,
    ensures
        numbered(ops, first as int).len() == ops.len(),
        forall|i: int|
            0 <= i < ops.len() ==> (#[trigger] numbered(ops, first as int)[i]).seq == first + i
                && numbered(ops, first as int)[i].op == ops[i],
{
}

/// What lies behind a checkpoint stays in order: entries are kept piece by piece, and a single
/// entry is kept exactly where its number is higher.
pub proof fn entries_are_kept_in_order(
    a: Seq<EntryView>,
    b: Seq<EntryView>,
    e: EntryView,
    applied: u64,
)
    ensures
        after(a + b, applied) == after(a, applied) + after(b, applied),
        e.seq > applied ==> after(seq![e], applied) == seq![e],
        e.seq <= applied ==> after(seq![e], applied).len() == 0,
    decreases b.len(),
{
    assert(seq![e].drop_last() =~= Seq::<EntryView>::empty());
    assert(after(Seq::empty(), applied) =~= Seq::<EntryView>::empty());
    assert(Seq::<EntryView>::empty().push(e) =~= seq![e]);
    if b.len() == 0 {
        assert(a + b =~= a);
        assert(after(b, applied) =~= Seq::<EntryView>::empty());
    } else {
        entries_are_kept_in_order(a, b.drop_last(), e, applied);
        assert((a + b).drop_last() =~= a + b.drop_last());
        assert((a + b).last() == b.last());
    }
}

/// The highest number of a log is that of one of its entries, and none is higher; a log without
/// entries has 0.
pub proof fn highest_number_is_there(entries: Seq<EntryView>)
    ensures
        forall|i: int| 0 <= i < entries.len() ==> (#[trigger] entries[i]).seq <= max_of(entries),
        max_of(entries) == 0 || exists|i: int|
            0 <= i < entries.len() && (#[trigger] entries[i]).seq == max_of(entries),
    decreases entries.len(),
{
    if entries.len() > 0 {
        let init = entries.drop_last();
        highest_number_is_there(init);
        assert(entries.last() == entries[entries.len() - 1]);
        assert forall|i: int| 0 <= i < entries.len() implies (#[trigger] entries[i]).seq <= max_of(
            entries,
        ) by {
            if i < init.len() {
                assert(init[i] == entries[i]);
            }
        }
        if max_of(init) != 0 && max_of(entries) == max_of(init) {
            let i = choose|i: int| 0 <= i < init.len() && (#[trigger] init[i]).seq == max_of(init);
            assert(entries[i].seq == max_of(entries));
        }
    }
}

/// Numbering leaves no gap: the next number is one above the highest of the log or one above the
/// checkpoint, whichever is higher.
pub proof fn numbering_leaves_no_gap(entries: Seq<EntryView>, marker: Option<CheckpointMarker>)
    requires
        max_of(entries) < u64::MAX,
        applied_of(marker) < u64::MAX,
    ensures
        ({
            let next = next_after(max_of(entries), applied_of(marker));
            &&& next == max_of(entries) + 1 || next == applied_of(marker) + 1
            &&& next > max_of(entries)
            &&& next > applied_of(marker)
        }),
        marker is None ==> applied_of(marker) == 0,
        marker matches Some(m) ==> applied_of(marker) == m.applied_seq,
{
}

/// A body under a tag that stands for no kind of operation stands for nothing, and is told by its
/// tag.
pub proof fn unknown_tags_are_told(tag: u8, body: Seq<u8>)
    requires
        tag == 0 || tag > 5,
    ensures
        decoded(tag, body) == Err::<OpView, _>(Corruption::WalUnknownTag { tag }),
{
}

/// A body with bytes behind its operation stands for nothing.
pub proof fn trailing_bytes_are_refused(op: OpView, extra: Seq<u8>)
    requires
        fits(op),
        extra.len() > 0,
    ensures
        decoded(tag_of(op), body_of(op) + extra) == Err::<OpView, Corruption>(
            match op {
                OpView::PutKv { .. } => Corruption::WalPutKvTrailing,
                OpView::InsertVector { .. } => Corruption::WalInsertVecTrailing,
                OpView::DeleteKv { .. } => Corruption::WalDeleteKvTrailing,
                OpView::DeleteVector { .. } => Corruption::WalDeleteVecBody,
                OpView::PutColumnar { .. } => Corruption::WalPutColTrailing,
            },
        ),
{
    let body = body_of(op) + extra;
    let none = Seq::<u8>::empty();
    lemma_lengths_fit(op);
    lemma_le_limits();
    match op {
        OpView::PutKv { key, value } => {
            lemma_field_bytes_at(none, key, field_bytes(value) + extra);
            assert(none + field_bytes(key) + (field_bytes(value) + extra) =~= body);
            lemma_field_bytes_at(field_bytes(key), value, extra);
            assert(field_bytes(key) + field_bytes(value) + extra =~= body);
        },
        OpView::InsertVector { id, vector } => {
            lemma_le_bytes_len(id as nat, 8);
            lemma_le_bytes_len(vector.len(), 4);
            lemma_word_bytes_len(vector);
            le_round_trip(vector.len(), 4);
            assert(body.subrange(8, 12) =~= le_bytes(vector.len(), 4));
        },
        OpView::DeleteKv { key } => {
            lemma_field_bytes_at(none, key, extra);
            assert(none + field_bytes(key) + extra =~= body);
        },
        OpView::DeleteVector { id } => {
            lemma_le_bytes_len(id as nat, 8);
        },
        OpView::PutColumnar { table_id, ipc } => {
            let table = encode_utf8(table_id);
            vstd::utf8::encode_utf8_valid_utf8(table_id);
            lemma_field_bytes_at(none, table, field_bytes(ipc) + extra);
            assert(none + field_bytes(table) + (field_bytes(ipc) + extra) =~= body);
            lemma_field_bytes_at(field_bytes(table), ipc, extra);
            assert(field_bytes(table) + field_bytes(ipc) + extra =~= body);
        },
    }
}

/// A body that breaks off stands for nothing.
pub proof fn cut_bodies_are_refused(op: OpView, n: int)
    requires
        fits(op),
        0 <= n < body_of(op).len(),
    ensures
        decoded(tag_of(op), body_of(op).take(n)) is Err,
{
    let body = body_of(op);
    let cut = body.take(n);
    if decoded(tag_of(op), cut) is Ok {
        let other = decoded(tag_of(op), cut)->Ok_0;
        encode_inverts_decode(tag_of(op), cut);
        trailing_bytes_are_refused(other, body.skip(n));
        assert(cut + body.skip(n) =~= body);
        lemma_lengths_fit(op);
        decode_inverts_encode(op);
    }
}

/// A string that is shorter than it says is refused with both lengths, and a body too short for the
/// length of a string, for an id, or for the number of components is refused as such.
pub proof fn short_bodies_are_told(n: u32, s: Seq<u8>, short: Seq<u8>)
    requires
        s.len() < n,
        n <= usize::MAX,
    ensures
        decoded(3, le_bytes(n as nat, 4) + s) == Err::<OpView, _>(
            (Corruption::WalTruncated { need: n as usize, have: s.len() as usize }),
        ),
        decoded(1, le_bytes(n as nat, 4) + s) == Err::<OpView, _>(
            (Corruption::WalTruncated { need: n as usize, have: s.len() as usize }),
        ),
        short.len() < 4 ==> decoded(3, short) == Err::<OpView, _>(Corruption::WalTruncatedAtU32)
            && decoded(1, short) == Err::<OpView, _>(Corruption::WalTruncatedAtU32)
            && decoded(5, short) == Err::<OpView, _>(Corruption::WalTruncatedAtU32),
        short.len() < 8 ==> decoded(2, short) == Err::<OpView, _>(
            Corruption::WalInsertVecTruncatedId,
        ),
        8 <= short.len() < 12 ==> decoded(2, short) == Err::<OpView, _>(
            Corruption::WalTruncatedAtU32,
        ),
        short.len() != 8 ==> decoded(4, short) == Err::<OpView, _>(Corruption::WalDeleteVecBody),
{
    let body = le_bytes(n as nat, 4) + s;
    lemma_le_limits();
    lemma_le_bytes_len(n as nat, 4);
    le_round_trip(n as nat, 4);
    assert(body.subrange(0, 4) =~= le_bytes(n as nat, 4));
}

} // verus!
