use std::collections::BTreeMap;

use fusion_store::error::{Corruption, StoreError};
use fusion_store::mem::cache::{SealedCache, SEALED_CACHE_CAP};
use fusion_store::mem::mmap::{ZeroCopyBuffer, ZeroCopyVec};
use fusion_store::mem::segment::{
    disk_bytes, next_seg_id, parse_seg_id, read_active_cursor, segment_file, write_active_cursor,
    AppendPlan, SegmentPool, ValueLocator, DEFAULT_SEGMENT_SIZE,
};

/// A pool with its segments in memory.
struct Store {
    pool: SegmentPool,
    segs: BTreeMap<u32, Vec<u8>>,
    cursor: Option<Vec<u8>>,
}

fn names(segs: &BTreeMap<u32, Vec<u8>>) -> Vec<String> {
    segs.keys().map(|id| segment_file(*id)).collect()
}

impl Store {
    fn open(seg_size: u64) -> Store {
        Store::reopen(BTreeMap::new(), None, seg_size)
    }

    fn reopen(segs: BTreeMap<u32, Vec<u8>>, cursor: Option<Vec<u8>>, seg_size: u64) -> Store {
        let pool = SegmentPool::open(cursor.as_deref(), &names(&segs), seg_size).unwrap();
        let mut s = Store { pool, segs, cursor };
        s.segs.entry(s.pool.active_seg_id()).or_default();
        s
    }

    fn written(&mut self, plan: &AppendPlan, payload: &[u8]) -> ValueLocator {
        let loc = plan.locator;
        let seg = self.segs.entry(loc.seg_id).or_default();
        let end = loc.offset as usize + payload.len();
        if seg.len() < end {
            seg.resize(end, 0);
        }
        seg[loc.offset as usize..end].copy_from_slice(payload);
        loc
    }

    fn append(&mut self, payload: &[u8]) -> ValueLocator {
        self.append_held(payload, &|_: u32| false)
    }

    fn append_held<H: Fn(u32) -> bool>(&mut self, payload: &[u8], held: &H) -> ValueLocator {
        assert!(self.pool.accepts(payload.len()));
        let plan = self.pool.append(payload, held).unwrap();
        self.written(&plan, payload)
    }

    fn append_aligned(&mut self, payload: &[u8], align: usize) -> ValueLocator {
        assert!(self.pool.accepts(payload.len()));
        let plan = self.pool.append_aligned(payload, align, &|_: u32| false).unwrap();
        self.written(&plan, payload)
    }

    fn sealed_handle(&mut self, seg_id: u32) -> &[u8] {
        if !self.pool.sealed_handle(seg_id) {
            let exists = self.segs.contains_key(&seg_id);
            self.pool.sealed_opened(seg_id, exists, &|_: u32| false).unwrap();
        }
        &self.segs[&seg_id]
    }

    fn flush(&mut self) {
        self.cursor = Some(self.pool.flush());
    }
}

#[test]
fn append_returns_locator_in_bounds() {
    let mut s = Store::open(0);
    let payload = b"fusion-store-kv-payload-001";
    let loc = s.append(payload);
    assert_eq!(loc.seg_id, s.pool.active_seg_id());
    assert_eq!(loc.len as usize, payload.len());
    assert!(loc.offset as u64 + loc.len as u64 <= s.pool.seg_size());
    assert_eq!(s.pool.seg_size(), DEFAULT_SEGMENT_SIZE);
    assert_eq!(DEFAULT_SEGMENT_SIZE, 64 * 1024 * 1024);
}

#[test]
fn seal_and_rotate_on_full() {
    let mut s = Store::open(32);
    let first = s.pool.active_seg_id();
    let _ = s.append(&[0xABu8; 32]);
    let loc = s.append(&[0xCDu8; 16]);
    assert_ne!(loc.seg_id, first);
    assert!(loc.seg_id > first);
}

#[test]
fn sealed_handle_reads_back_payload() {
    let mut s = Store::open(64);
    let payload = b"hello-zero-copy-via-sealed-segment";
    let loc = s.append(payload);
    let _ = s.append(&[0u8; 64]);
    assert!(s.pool.sealed_handle(loc.seg_id), "sealed by the second append");
    let handle = s.sealed_handle(loc.seg_id);
    let buf = ZeroCopyBuffer::new(handle, loc.offset as usize, loc.len as usize).unwrap();
    assert_eq!(buf.as_bytes(), payload);
    let region = handle.as_ptr_range();
    assert!(region.contains(&buf.as_bytes().as_ptr()));
}

#[test]
fn sealed_lru_evicts_when_cap_exceeded() {
    let mut s = Store::open(16);
    let mut seg_ids = Vec::new();
    for i in 0..200u32 {
        let loc = s.append(&[i as u8; 16]);
        if i > 0 {
            seg_ids.push(loc.seg_id);
        }
        let _ = s.append(&[i as u8; 1]);
    }
    for &sid in seg_ids.iter().take(80) {
        let _ = s.sealed_handle(sid);
    }
    assert!(
        s.pool.sealed_count() <= 65,
        "sealed cache {} exceeded cap+1 after LRU eviction",
        s.pool.sealed_count()
    );
    let again = s.sealed_handle(seg_ids[0]).to_vec();
    assert_eq!(again, vec![1u8; 16]);
}

#[test]
fn evict_continues_past_held_oldest_segment() {
    let mut s = Store::open(16);
    let mut held: Option<u32> = None;
    for i in 0..200u32 {
        let keep = held;
        let loc = s.append_held(&[i as u8; 16], &|id: u32| Some(id) == keep);
        let _ = s.append_held(&[i as u8; 1], &|id: u32| Some(id) == keep);
        if i == 5 {
            let _ = s.sealed_handle(loc.seg_id);
            held = Some(loc.seg_id);
        }
    }
    assert!(s.pool.sealed_handle(held.unwrap()), "what is held stays mapped");
    let _ = s.append(&[0xFFu8; 16]);
    let _ = s.append(&[0x01u8; 1]);
    assert!(
        s.pool.sealed_count() <= SEALED_CACHE_CAP + 1,
        "sealed cache {} still bounded while/after holding segment",
        s.pool.sealed_count()
    );
}

#[test]
fn reopen_reuses_unfilled_active_segment() {
    let mut s = Store::open(4096);
    let seg_id = s.pool.active_seg_id();
    let _ = s.append(&[0xABu8; 100]);
    s.flush();
    let cursor_after = s.pool.active_cursor();
    assert_eq!(cursor_after, 100);
    let mut s2 = Store::reopen(s.segs, s.cursor, 4096);
    assert_eq!(s2.pool.active_seg_id(), seg_id, "reopen reuses same active seg, not new one");
    assert_eq!(s2.pool.active_cursor(), cursor_after, "reopen restores cursor at {}", cursor_after);
    let loc = s2.append(&[0xCDu8; 50]);
    assert_eq!(loc.offset as u64, 100, "continued write at restored cursor");
}

#[test]
fn reopen_after_seal_opens_new_segment() {
    let mut s = Store::open(64);
    let sealed_id = s.pool.active_seg_id();
    let _ = s.append(&[0u8; 64]);
    let _ = s.append(&[0u8; 10]);
    s.flush();
    let s2 = Store::reopen(s.segs, s.cursor, 64);
    assert_ne!(s2.pool.active_seg_id(), sealed_id, "sealed full segment not reused on reopen");
    assert_eq!(s2.pool.active_cursor(), 10, "new active segment restores written cursor");
}

#[test]
fn zero_copy_buffer_reads_mmap_region() {
    let payload = b"hello-fusion-store-zero-copy";
    let handle: Vec<u8> = payload.to_vec();
    let buf = ZeroCopyBuffer::new(&handle, 0, payload.len()).unwrap();
    assert_eq!(buf.as_bytes(), payload);
    assert!(!buf.is_empty());
    assert_eq!(buf.len(), payload.len());
    assert!(handle.as_ptr_range().contains(&buf.as_bytes().as_ptr()));
    assert_eq!(buf.to_owned_slice(), handle);
}

#[test]
fn buffers_stay_within_their_region() {
    let region = [1u8, 2, 3, 4, 5, 6, 7, 8];
    assert_eq!(ZeroCopyBuffer::new(&region, 2, 3).unwrap().as_bytes(), &[3, 4, 5]);
    assert!(ZeroCopyBuffer::new(&region, 8, 0).unwrap().is_empty());
    assert!(matches!(
        ZeroCopyBuffer::new(&region, 6, 3),
        Err(StoreError::Corrupt(Corruption::OutsideSegment { offset: 6, len: 3, size: 8 }))
    ));
    assert!(ZeroCopyBuffer::new(&region, usize::MAX, 2).is_err());
    let v = ZeroCopyVec::new(&region, 0, 2).unwrap();
    assert_eq!(v.len(), 2);
    assert!(!v.is_empty());
    assert_eq!(v.to_bits(), vec![0x0403_0201, 0x0807_0605]);
    assert!(ZeroCopyVec::new(&region, 4, 2).is_err());
    assert!(ZeroCopyVec::new(&region, 0, usize::MAX).is_err());
}

#[test]
fn aligned_appends_stand_at_multiples() {
    let mut s = Store::open(64);
    let a = s.append(&[1, 2, 3]);
    let b = s.append_aligned(&[9u8; 8], 8);
    assert_eq!((a.offset, b.offset), (0, 8));
    let c = s.append_aligned(&[7u8; 4], 4);
    assert_eq!(c.offset, 16);
    // what is left does not hold the payload, which goes to the start of the next segment
    let d = s.append_aligned(&[5u8; 48], 8);
    assert_eq!((d.seg_id, d.offset), (a.seg_id + 1, 0));
    assert_eq!(s.segs[&a.seg_id][..20], [1, 2, 3, 0, 0, 0, 0, 0, 9, 9, 9, 9, 9, 9, 9, 9, 7, 7, 7, 7]);
}

#[test]
fn rewinding_takes_an_append_back() {
    let mut s = Store::open(64);
    let a = s.append(&[1u8; 10]);
    let before = (s.pool.active_seg_id(), s.pool.active_cursor());
    let _ = s.append(&[2u8; 10]);
    s.pool.rewind_active_to(before.0, before.1 as u32).unwrap();
    assert_eq!((s.pool.active_seg_id(), s.pool.active_cursor()), before);
    let c = s.append(&[3u8; 10]);
    assert_eq!(c.offset, 10);
    assert_eq!(s.segs[&a.seg_id][..20], [[1u8; 10], [3u8; 10]].concat()[..]);
    assert_eq!(
        s.pool.rewind_active_to(a.seg_id, 21),
        Err(StoreError::Corrupt(Corruption::RewindTarget { target: 21, cursor: 20 }))
    );
    assert_eq!(s.pool.rewind_active_to(a.seg_id + 1, 0), Ok(()), "another segment stays");
    assert_eq!(s.pool.active_cursor(), 20);
}

#[test]
fn nothing_written_is_ever_changed() {
    let mut s = Store::open(16);
    let mut written: Vec<(ValueLocator, Vec<u8>)> = Vec::new();
    for i in 0..60u8 {
        let payload = vec![i; (i as usize % 16) + 1];
        let loc = s.append(&payload);
        written.push((loc, payload));
        for (l, p) in &written {
            let seg = &s.segs[&l.seg_id];
            assert_eq!(&seg[l.offset as usize..(l.offset + l.len) as usize], &p[..]);
        }
    }
}

#[test]
fn too_large_payloads_are_not_accepted() {
    let s = Store::open(16);
    assert!(s.pool.accepts(16));
    assert!(!s.pool.accepts(17));
    assert_eq!(s.pool.remaining(), 16);
}

#[test]
fn segment_names_and_numbers() {
    assert_eq!(segment_file(7), "kv_payload_0007.mmap");
    assert_eq!(segment_file(12345), "kv_payload_12345.mmap");
    assert_eq!(parse_seg_id("kv_payload_0007.mmap"), Some(7));
    assert_eq!(parse_seg_id("kv_payload_x.mmap"), None);
    assert_eq!(parse_seg_id("vec_payload_0007.mmap"), None);
    assert_eq!(next_seg_id(&Vec::new()), Some(0));
    assert_eq!(
        next_seg_id(&vec!["kv_payload_0003.mmap".to_string(), "other".to_string()]),
        Some(4)
    );
    assert_eq!(next_seg_id(&vec!["kv_payload_4294967295.mmap".to_string()]), None);
}

#[test]
fn cursor_file_has_twelve_bytes() {
    let bytes = write_active_cursor(2, 0x0102);
    assert_eq!(bytes, vec![2, 0, 0, 0, 2, 1, 0, 0, 0, 0, 0, 0]);
    assert_eq!(read_active_cursor(Some(&bytes)), Some((2, 0x0102)));
    assert_eq!(read_active_cursor(Some(&bytes[..11])), None);
    assert_eq!(read_active_cursor(None), None);
}

#[test]
fn missing_segments_are_reported() {
    let mut s = Store::open(16);
    assert_eq!(
        s.pool.sealed_opened(9, false, &|_: u32| false),
        Err(StoreError::Corrupt(Corruption::SegmentMissing { seg_id: 9 }))
    );
}

#[test]
fn disk_bytes_counts_segments_only() {
    let files = vec![
        ("kv_payload_0000.mmap".to_string(), 64u64),
        ("kv_payload_0001.mmap".to_string(), 64),
        ("active.cursor".to_string(), 12),
    ];
    assert_eq!(disk_bytes(&files), 128);
}

#[test]
fn cache_forgets_the_longest_unused() {
    let mut c = SealedCache::new();
    for id in 0..SEALED_CACHE_CAP as u32 + 2 {
        c.insert(id);
    }
    c.touch_sealed(0);
    let gone = c.evict_sealed(&|_: u32| false);
    assert_eq!(gone, vec![1, 2]);
    assert!(c.contains(0));
    assert_eq!(c.len(), SEALED_CACHE_CAP);
    c.drop_sealed(0);
    assert!(!c.contains(0));
    assert!(!c.mapped_ids().contains(&0));
}
