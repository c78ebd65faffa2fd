use fusion_store::error::{Corruption, StoreError};
use fusion_store::mem::recover::{build_recover_plan, finalize_recover};
use fusion_store::mem::wal::{
    decode_op, encode_op, max_seq, op_tag, read_bytes, read_frame_or_torn, read_u32, scan,
    write_u32, CheckpointMarker, FrameRead, Wal, WalOp, FRAME_HEADER, OP_DELETE_KV, OP_DELETE_VEC,
    OP_INSERT_VEC, OP_PUT_COL, OP_PUT_KV,
};

/// A log in memory, with its numbering.
struct Log {
    bytes: Vec<u8>,
    wal: Wal,
}

impl Log {
    fn open(bytes: Vec<u8>) -> Log {
        Log::open_behind(bytes, None)
    }

    fn open_behind(mut bytes: Vec<u8>, marker: Option<CheckpointMarker>) -> Log {
        let (wal, clean) = Wal::open(&bytes, &marker).unwrap();
        bytes.truncate(clean);
        Log { bytes, wal }
    }

    fn append(&mut self, op: WalOp) -> u64 {
        let p = self.wal.append(&op).unwrap();
        self.bytes.extend_from_slice(&p.bytes);
        self.wal.committed(&p);
        p.first_seq
    }

    fn append_batch(&mut self, ops: &[WalOp]) -> u64 {
        let p = self.wal.append_batch(ops).unwrap();
        self.bytes.extend_from_slice(&p.bytes);
        self.wal.committed(&p);
        p.first_seq
    }

    fn truncate_to(&mut self, applied: u64) {
        if let Some(kept) = Wal::truncate_to(&self.bytes, applied).unwrap() {
            self.bytes = kept;
        }
    }
}

fn bits(v: &[f32]) -> Vec<u32> {
    v.iter().map(|x| x.to_bits()).collect()
}

fn marker(applied: u64) -> Option<CheckpointMarker> {
    Some(CheckpointMarker { applied_seq: applied, checkpoint_seq: applied, graph_snapshot: None })
}

#[test]
fn append_then_read_back_preserves_entries() {
    let mut log = Log::open(Vec::new());
    let s1 = log.append(WalOp::PutKv { key: b"k1".to_vec(), value: b"hello-wal".to_vec() });
    let s2 = log.append(WalOp::InsertVector { id: 42, vector: bits(&[0.1, 0.2, 0.3, 0.4]) });
    assert_eq!(s1, 1);
    assert_eq!(s2, 2);
    let entries = Wal::read_all(&log.bytes).unwrap();
    assert_eq!(entries.len(), 2);
    assert_eq!(entries[0].seq, 1);
    assert_eq!(
        entries[0].op,
        WalOp::PutKv { key: b"k1".to_vec(), value: b"hello-wal".to_vec() }
    );
    assert_eq!(entries[1].seq, 2);
    assert_eq!(
        entries[1].op,
        WalOp::InsertVector { id: 42, vector: bits(&[0.1, 0.2, 0.3, 0.4]) }
    );
}

#[test]
fn reopen_resumes_seq_from_max() {
    let mut log = Log::open(Vec::new());
    log.append(WalOp::DeleteKv { key: b"x".to_vec() });
    log.append(WalOp::DeleteVector { id: 7 });
    let log = Log::open(log.bytes);
    assert_eq!(log.wal.next_seq(), 3);
    assert_eq!(Wal::read_all(&log.bytes).unwrap().len(), 2);
}

#[test]
fn truncate_keeps_only_after_applied_seq() {
    let mut log = Log::open(Vec::new());
    for i in 0..5u64 {
        log.append(WalOp::DeleteKv { key: format!("k{}", i).into_bytes() });
    }
    log.truncate_to(3);
    let entries = Wal::read_all(&log.bytes).unwrap();
    assert_eq!(entries.len(), 2);
    assert_eq!(entries[0].seq, 4);
    assert_eq!(entries[1].seq, 5);
    assert_eq!(log.wal.next_seq(), 6);
}

#[test]
fn empty_wal_read_returns_empty() {
    let log = Log::open(Vec::new());
    assert!(Wal::read_all(&log.bytes).unwrap().is_empty());
    assert_eq!(log.wal.next_seq(), 1);
}

#[test]
fn binary_op_encode_decode_roundtrip() {
    let ops = vec![
        WalOp::PutKv { key: b"k".to_vec(), value: vec![0u8; 300] },
        WalOp::InsertVector { id: 42, vector: bits(&[0.1, -0.2, 3.5, f32::INFINITY, 0.0]) },
        WalOp::DeleteKv { key: b"long-key-xyz".to_vec() },
        WalOp::DeleteVector { id: 999 },
        WalOp::PutColumnar { table_id: "t1".to_string(), ipc: vec![1, 2, 3, 4, 5] },
    ];
    for op in &ops {
        let body = encode_op(op);
        let decoded = decode_op(op_tag(op), &body).unwrap();
        assert_eq!(*op, decoded, "binary roundtrip mismatch for {:?}", op);
    }
}

#[test]
fn binary_vector_body_size_not_inflated() {
    let op = WalOp::InsertVector { id: 1, vector: vec![0.5f32.to_bits(); 768] };
    let body = encode_op(&op);
    assert_eq!(body.len(), 8 + 4 + 768 * 4, "768-dim binary body = 3080B");
}

#[test]
fn append_batch_single_fsync_and_contiguous_seq() {
    let mut log = Log::open(Vec::new());
    let ops: Vec<WalOp> = (0..1000u64)
        .map(|i| WalOp::InsertVector { id: i, vector: vec![(i as f32).to_bits(); 8] })
        .collect();
    let first = log.append_batch(&ops);
    assert_eq!(first, 1, "batch first seq starts at next_seq");
    assert_eq!(log.wal.next_seq(), 1001, "next_seq advanced by batch size");
    let entries = Wal::read_all(&log.bytes).unwrap();
    assert_eq!(entries.len(), 1000, "all 1000 batch entries persisted");
    assert_eq!(entries[0].seq, 1);
    assert_eq!(entries[999].seq, 1000);
    assert_eq!(
        entries[500].op,
        WalOp::InsertVector { id: 500, vector: vec![500.0f32.to_bits(); 8] }
    );
}

#[test]
fn append_batch_empty_noop() {
    let mut log = Log::open(Vec::new());
    let before = log.wal.next_seq();
    let first = log.append_batch(&[]);
    assert_eq!(first, before);
    assert_eq!(log.wal.next_seq(), before);
    assert!(Wal::read_all(&log.bytes).unwrap().is_empty());
}

#[test]
fn append_batch_torn_tail_drops_whole_batch() {
    let mut log = Log::open(Vec::new());
    let ops: Vec<WalOp> = (0..5u64)
        .map(|i| WalOp::InsertVector { id: i, vector: vec![(i as f32).to_bits(); 4] })
        .collect();
    log.append_batch(&ops);
    let truncated = log.bytes.len() / 3;
    let log = Log::open(log.bytes[..truncated].to_vec());
    let entries = Wal::read_all(&log.bytes).unwrap();
    assert!(entries.len() <= 5, "torn tail tolerates, no panic");
    // each frame takes 13 + 8 + 4 + 16 = 41 bytes, so a third of 205 holds one of them
    assert_eq!(entries.len(), 1);
    assert_eq!(log.bytes.len(), 41);
}

#[test]
fn torn_tail_frame_is_truncated_not_error() {
    let mut log = Log::open(Vec::new());
    log.append(WalOp::PutKv { key: b"keep1".to_vec(), value: b"v1".to_vec() });
    log.append(WalOp::PutKv { key: b"keep2".to_vec(), value: b"v2".to_vec() });
    let whole = log.bytes.len();
    let mut torn = log.bytes.clone();
    torn.extend_from_slice(&99u64.to_le_bytes());
    torn.push(OP_PUT_KV);
    torn.extend_from_slice(&100u32.to_le_bytes());
    torn.extend_from_slice(b"abc");
    let log = Log::open(torn);
    assert_eq!(log.bytes.len(), whole, "what is torn is cut off");
    let entries = Wal::read_all(&log.bytes).unwrap();
    assert_eq!(entries.len(), 2);
    assert_eq!(entries[0].seq, 1);
    assert_eq!(entries[1].seq, 2);
    assert_eq!(log.wal.next_seq(), 3, "the torn frame's number is not taken");
}

#[test]
fn plan_replays_only_after_applied_seq() {
    let mut log = Log::open(Vec::new());
    log.append(WalOp::PutKv { key: b"a".to_vec(), value: b"va".to_vec() });
    log.append(WalOp::InsertVector { id: 1, vector: bits(&[0.1, 0.2]) });
    log.append(WalOp::PutKv { key: b"b".to_vec(), value: b"vb".to_vec() });
    log.append(WalOp::InsertVector { id: 2, vector: bits(&[0.3, 0.4]) });
    let plan = build_recover_plan(&log.bytes, &marker(2)).unwrap();
    assert_eq!(plan.applied_seq, 2);
    assert_eq!(plan.entries.len(), 2);
    assert_eq!(plan.entries[0].seq, 3);
    assert_eq!(plan.entries[1].seq, 4);
}

#[test]
fn plan_no_marker_replays_all() {
    let mut log = Log::open(Vec::new());
    log.append(WalOp::DeleteKv { key: b"x".to_vec() });
    log.append(WalOp::DeleteVector { id: 9 });
    let plan = build_recover_plan(&log.bytes, &None).unwrap();
    assert_eq!(plan.applied_seq, 0);
    assert_eq!(plan.entries.len(), 2);
}

#[test]
fn finalize_truncates_wal_after_recover() {
    let mut log = Log::open(Vec::new());
    for i in 0..6u64 {
        log.append(WalOp::InsertVector { id: i, vector: vec![(i as f32).to_bits()] });
    }
    let plan = build_recover_plan(&log.bytes, &marker(4)).unwrap();
    assert_eq!(plan.entries.len(), 2);
    let kept = finalize_recover(&log.bytes, 4).unwrap().unwrap();
    let remaining = Wal::read_all(&kept).unwrap();
    assert_eq!(remaining.len(), 2);
    assert_eq!(remaining[0].seq, 5);
}

#[test]
fn double_recover_plan_is_idempotent() {
    let mut log = Log::open(Vec::new());
    log.append(WalOp::PutKv { key: b"k".to_vec(), value: b"v".to_vec() });
    let p1 = build_recover_plan(&log.bytes, &None).unwrap();
    let p2 = build_recover_plan(&log.bytes, &None).unwrap();
    assert_eq!(p1.entries.len(), p2.entries.len());
    assert_eq!(p1.applied_seq, p2.applied_seq);
    assert_eq!(p1.entries, p2.entries);
}

#[test]
fn frames_have_their_exact_bytes() {
    let mut log = Log::open(Vec::new());
    log.append(WalOp::DeleteVector { id: 0x0102 });
    assert_eq!(
        log.bytes,
        vec![1, 0, 0, 0, 0, 0, 0, 0, OP_DELETE_VEC, 8, 0, 0, 0, 2, 1, 0, 0, 0, 0, 0, 0]
    );
    assert_eq!(log.bytes.len(), FRAME_HEADER + 8);
    assert_eq!(
        encode_op(&WalOp::PutKv { key: b"ab".to_vec(), value: b"c".to_vec() }),
        vec![2, 0, 0, 0, b'a', b'b', 1, 0, 0, 0, b'c']
    );
    assert_eq!(
        encode_op(&WalOp::PutColumnar { table_id: "t".to_string(), ipc: vec![7] }),
        vec![1, 0, 0, 0, b't', 1, 0, 0, 0, 7]
    );
}

#[test]
fn tags_are_those_of_the_format() {
    assert_eq!(op_tag(&WalOp::PutKv { key: Vec::new(), value: Vec::new() }), 1);
    assert_eq!(op_tag(&WalOp::InsertVector { id: 0, vector: Vec::new() }), 2);
    assert_eq!(op_tag(&WalOp::DeleteKv { key: Vec::new() }), 3);
    assert_eq!(op_tag(&WalOp::DeleteVector { id: 0 }), 4);
    assert_eq!(op_tag(&WalOp::PutColumnar { table_id: String::new(), ipc: Vec::new() }), 5);
}

fn refused(tag: u8, body: &[u8]) -> Corruption {
    match decode_op(tag, body) {
        Err(StoreError::Corrupt(c)) => c,
        other => panic!("not refused: {:?}", other),
    }
}

#[test]
fn malformed_bodies_are_refused() {
    assert_eq!(refused(9, &[]), Corruption::WalUnknownTag { tag: 9 });
    assert_eq!(refused(OP_PUT_KV, &[1, 0]), Corruption::WalTruncatedAtU32);
    assert_eq!(refused(OP_PUT_KV, &[5, 0, 0, 0, 1]), Corruption::WalTruncated { need: 5, have: 1 });
    assert_eq!(
        refused(OP_PUT_KV, &[0, 0, 0, 0, 0, 0, 0, 0, 1]),
        Corruption::WalPutKvTrailing
    );
    assert_eq!(refused(OP_INSERT_VEC, &[1, 2, 3]), Corruption::WalInsertVecTruncatedId);
    assert_eq!(
        refused(OP_INSERT_VEC, &[0, 0, 0, 0, 0, 0, 0, 0, 0, 0, 0, 0, 1]),
        Corruption::WalInsertVecTrailing
    );
    assert_eq!(refused(OP_DELETE_KV, &[0, 0, 0, 0, 1]), Corruption::WalDeleteKvTrailing);
    assert_eq!(refused(OP_DELETE_VEC, &[1, 2, 3]), Corruption::WalDeleteVecBody);
    assert_eq!(
        refused(OP_PUT_COL, &[1, 0, 0, 0, 0xff, 0, 0, 0, 0]),
        Corruption::WalPutColTableIdNotUtf8
    );
    assert_eq!(
        refused(OP_PUT_COL, &[0, 0, 0, 0, 0, 0, 0, 0, 1]),
        Corruption::WalPutColTrailing
    );
}

#[test]
fn table_names_are_read_as_utf8() {
    // the text of the bytes comes from a decoder outside the library
    let op = WalOp::PutColumnar { table_id: "t\u{e4}bel-\u{8868}".to_string(), ipc: vec![9, 8] };
    assert_eq!(decode_op(OP_PUT_COL, &encode_op(&op)).unwrap(), op);
}

#[test]
fn readers_take_from_the_front() {
    let mut buf: Vec<u8> = Vec::new();
    write_u32(&mut buf, 0x0403_0201);
    assert_eq!(buf, vec![1, 2, 3, 4]);
    buf.extend_from_slice(b"xyz");
    let mut reader: &[u8] = &buf;
    assert_eq!(read_u32(&mut reader).unwrap(), 0x0403_0201);
    assert_eq!(read_bytes(&mut reader, 2).unwrap(), b"xy");
    assert_eq!(reader, b"z");
    assert_eq!(
        read_bytes(&mut reader, 2),
        Err(StoreError::Corrupt(Corruption::WalTruncated { need: 2, have: 1 }))
    );
}

#[test]
fn every_prefix_of_a_log_reads_as_its_whole_frames() {
    let mut log = Log::open(Vec::new());
    let mut ends = vec![0usize];
    for i in 0..4u64 {
        log.append(WalOp::DeleteKv { key: vec![b'k'; i as usize] });
        ends.push(log.bytes.len());
    }
    for cut in 0..=log.bytes.len() {
        let whole = ends.iter().filter(|e| **e > 0 && **e <= cut).count();
        let (entries, clean) = scan(&log.bytes[..cut]).unwrap();
        assert_eq!(entries.len(), whole);
        assert_eq!(clean, ends[whole]);
        assert_eq!(max_seq(&log.bytes[..cut]).unwrap(), whole as u64);
    }
}

#[test]
fn frames_are_told_apart() {
    let mut log = Log::open(Vec::new());
    log.append(WalOp::DeleteVector { id: 3 });
    match read_frame_or_torn(&log.bytes, 0).unwrap() {
        FrameRead::Entry { entry, next } => {
            assert_eq!(entry.seq, 1);
            assert_eq!(entry.op, WalOp::DeleteVector { id: 3 });
            assert_eq!(next, log.bytes.len());
        }
        _ => panic!("no entry"),
    }
    assert!(matches!(read_frame_or_torn(&log.bytes, log.bytes.len()).unwrap(), FrameRead::Eof));
    assert!(matches!(
        read_frame_or_torn(&log.bytes[..log.bytes.len() - 1], 0).unwrap(),
        FrameRead::TornTail
    ));
}

#[test]
fn numbering_goes_on_past_a_checkpoint() {
    // the log was cut at a checkpoint, so its own entries no longer tell the last number
    let log = Log::open_behind(Vec::new(), marker(17));
    assert_eq!(log.wal.next_seq(), 18);
    let mut log = Log::open_behind(Vec::new(), marker(2));
    assert_eq!(log.append(WalOp::DeleteVector { id: 1 }), 3);
    let plan = build_recover_plan(&log.bytes, &marker(2)).unwrap();
    assert_eq!(plan.entries.len(), 1, "what comes after the checkpoint is replayed");
}

#[test]
fn cutting_twice_is_cutting_once() {
    let mut log = Log::open(Vec::new());
    for i in 0..4u64 {
        log.append(WalOp::DeleteVector { id: i });
    }
    log.truncate_to(2);
    let once = log.bytes.clone();
    log.truncate_to(2);
    assert_eq!(log.bytes, once);
    assert!(Wal::truncate_to(&[], 2).unwrap().is_none(), "an empty log stays as it is");
}

#[test]
fn corrupt_frames_stop_everything() {
    let mut bytes = Vec::new();
    bytes.extend_from_slice(&1u64.to_le_bytes());
    bytes.push(77);
    bytes.extend_from_slice(&0u32.to_le_bytes());
    let fault = StoreError::Corrupt(Corruption::WalUnknownTag { tag: 77 });
    assert_eq!(Wal::read_all(&bytes), Err(fault.clone()));
    assert_eq!(max_seq(&bytes), Err(fault.clone()));
    assert!(Wal::open(&bytes, &None).is_err());
    assert!(build_recover_plan(&bytes, &None).is_err());
    assert!(finalize_recover(&bytes, 0).is_err());
    assert_eq!(fault.message(), "corrupt: unknown wal op tag 77");
}
