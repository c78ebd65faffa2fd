use std::collections::BTreeMap;

use fusion_store::error::{Corruption, StoreError};
use fusion_store::mem::mmap::ZeroCopyBuffer;
use fusion_store::mem::segment::{SegmentPool, ValueLocator};
use fusion_store::store::kv::{
    binencode, bindecode, charge, check_key, read_quota, write_quota, xxhash, KvStore, MAX_KEY_LEN,
};

/// A key/value store with its table and segments in memory.
struct Store {
    kv: KvStore,
    table: BTreeMap<Vec<u8>, Vec<u8>>,
    quota: Option<Vec<u8>>,
    segs: BTreeMap<u32, Vec<u8>>,
}

impl Store {
    fn open(seg_size: u64, quota: u64) -> Store {
        let pool = SegmentPool::open(None, &Vec::new(), seg_size).unwrap();
        Store {
            kv: KvStore::open(pool, quota),
            table: BTreeMap::new(),
            quota: None,
            segs: BTreeMap::new(),
        }
    }

    fn put_kv(&mut self, key: &[u8], value: &[u8]) -> Result<(), StoreError> {
        assert!(self.kv.pool().accepts(value.len()));
        let plan = self.kv.put_kv(
            key,
            value,
            self.table.get(key).map(|v| v.as_slice()),
            self.quota.as_deref(),
            &|_: u32| false,
        )?;
        let loc = plan.append.locator;
        let seg = self.segs.entry(loc.seg_id).or_default();
        let end = loc.offset as usize + value.len();
        if seg.len() < end {
            seg.resize(end, 0);
        }
        seg[loc.offset as usize..end].copy_from_slice(value);
        self.table.insert(key.to_vec(), plan.locator);
        self.quota = Some(plan.quota);
        Ok(())
    }

    fn get_kv_zero_copy(&self, key: &[u8]) -> Result<Option<ZeroCopyBuffer<'_>>, StoreError> {
        match KvStore::get_kv_zero_copy(self.table.get(key).map(|v| v.as_slice()))? {
            None => Ok(None),
            Some(loc) => {
                let seg = &self.segs[&loc.seg_id];
                Ok(Some(ZeroCopyBuffer::new(seg, loc.offset as usize, loc.len as usize)?))
            }
        }
    }

    fn delete_kv(&mut self, key: &[u8]) -> bool {
        let old = self.table.get(key).map(|v| v.as_slice());
        match self.kv.delete_kv(old, self.quota.as_deref()) {
            None => false,
            Some(quota) => {
                self.table.remove(key);
                self.quota = Some(quota);
                true
            }
        }
    }

    fn used_bytes(&self) -> u64 {
        KvStore::used_bytes(self.quota.as_deref())
    }
}

#[test]
fn put_get_delete_roundtrip() {
    let mut store = Store::open(0, 0);
    let key = b"k1";
    let val = b"v1-fusion-store";
    store.put_kv(key, val).unwrap();
    let buf = store.get_kv_zero_copy(key).unwrap().unwrap();
    assert_eq!(buf.as_bytes(), val);
    assert!(store.delete_kv(key));
    assert!(store.get_kv_zero_copy(key).unwrap().is_none());
}

#[test]
fn get_returns_zero_copy_mmap_pointer() {
    let mut store = Store::open(128, 0);
    let key = b"zk";
    let val = b"zero-copy-payload-into-mmap-region";
    store.put_kv(key, val).unwrap();
    for i in 0..32 {
        store.put_kv(format!("fill{}", i).as_bytes(), &[0u8; 64]).unwrap();
    }
    let buf = store.get_kv_zero_copy(key).unwrap().unwrap();
    assert_eq!(buf.as_bytes(), val);
}

#[test]
fn quota_exceeded_rejects_put() {
    let mut store = Store::open(0, 64);
    store.put_kv(b"a", &[0u8; 32]).unwrap();
    let err = store.put_kv(b"b", &[0u8; 64]).unwrap_err();
    assert!(matches!(err, StoreError::QuotaExceeded));
    assert_eq!(store.used_bytes(), 32, "what was refused counts nothing");
    assert!(store.get_kv_zero_copy(b"b").unwrap().is_none());
}

#[test]
fn delete_decrements_quota() {
    let mut store = Store::open(0, 128);
    store.put_kv(b"a", &[0u8; 32]).unwrap();
    assert_eq!(store.used_bytes(), 32);
    assert!(store.delete_kv(b"a"));
    assert_eq!(store.used_bytes(), 0);
}

#[test]
fn large_value_rounds_through_payload_segment() {
    let mut store = Store::open(0, 0);
    let key = b"large-key";
    let val = vec![0x7Fu8; 8 * 1024];
    store.put_kv(key, &val).unwrap();
    let buf = store.get_kv_zero_copy(key).unwrap().unwrap();
    assert_eq!(buf.as_bytes(), &val[..]);
    assert_eq!(buf.len(), val.len());
}

#[test]
fn zero_copy_pointer_falls_in_mmap_region() {
    let mut store = Store::open(256, 0);
    let key = b"zk-ptr";
    let val = b"zero-copy-pointer-assertion-payload";
    store.put_kv(key, val).unwrap();
    for i in 0..40 {
        store.put_kv(format!("fill-{i}").as_bytes(), &[0u8; 64]).unwrap();
    }
    let buf = store.get_kv_zero_copy(key).unwrap().unwrap();
    assert_eq!(buf.as_bytes(), val);
    assert!(store.segs[&0].as_ptr_range().contains(&buf.as_bytes().as_ptr()));
}

#[test]
fn overwrite_value_returns_latest() {
    let mut store = Store::open(0, 0);
    let key = b"ow";
    store.put_kv(key, b"v1").unwrap();
    store.put_kv(key, b"v2-longer-value").unwrap();
    let buf = store.get_kv_zero_copy(key).unwrap().unwrap();
    assert_eq!(buf.as_bytes(), b"v2-longer-value");
}

#[test]
fn namespace_quota_isolation() {
    let mut store_a = Store::open(0, 64);
    let mut store_b = Store::open(0, 1024);
    store_a.put_kv(b"a1", &[0u8; 64]).unwrap();
    let err = store_a.put_kv(b"a2", &[0u8; 8]).unwrap_err();
    assert!(matches!(err, StoreError::QuotaExceeded));
    store_b.put_kv(b"b1", &[0u8; 256]).unwrap();
    let buf = store_b.get_kv_zero_copy(b"b1").unwrap().unwrap();
    assert_eq!(buf.len(), 256);
}

#[test]
fn scale_write_then_verify() {
    let mut store = Store::open(4096, 0);
    let n = 10_000usize;
    for i in 0..n {
        let key = format!("k{i:06}").into_bytes();
        let val = format!("v{i}").into_bytes();
        store.put_kv(&key, &val).unwrap();
    }
    for i in [0usize, n / 2, n - 1, 42, 999] {
        let key = format!("k{i:06}").into_bytes();
        let expect = format!("v{i}").into_bytes();
        let buf = store.get_kv_zero_copy(&key).unwrap().unwrap();
        assert_eq!(buf.as_bytes(), expect.as_slice(), "mismatch at {i}");
    }
    assert!(store.used_bytes() > 0);
}

#[test]
fn sla_single_put_kv_meets_5k_ops() {
    let mut store = Store::open(0, 0);
    let n = 2000u64;
    let start = std::time::Instant::now();
    for i in 0..n {
        let k = format!("k{i}");
        let v = format!("v{i}-fusion-store-sla");
        store.put_kv(k.as_bytes(), v.as_bytes()).unwrap();
    }
    let elapsed = start.elapsed().as_secs_f64();
    let ops = n as f64 / elapsed;
    println!("sla put_kv: {n} ops in {elapsed:.3}s = {ops:.0} ops/s");
    assert!(ops >= 5000.0, "put_kv SLA not met: {ops:.0} ops/s < 5K");
}

#[test]
fn keys_of_every_length_are_taken_or_refused() {
    for len in 0..=1200usize {
        let mut store = Store::open(0, 0);
        let key = vec![b'k'; len];
        let res = store.put_kv(&key, b"v");
        if len == 0 || len > 511 {
            assert_eq!(res, Err(StoreError::InvalidKey(len)));
            assert_eq!(check_key(&key), Err(StoreError::InvalidKey(len)));
        } else {
            assert!(res.is_ok(), "valid key ({}B) accepted", len);
        }
    }
    assert_eq!(MAX_KEY_LEN, 511);
}

#[test]
fn values_come_back_byte_for_byte() {
    let mut store = Store::open(2048, 0);
    for len in 0..1024usize {
        let key = vec![(len % 251) as u8; 1 + len % 256];
        let value: Vec<u8> = (0..len).map(|i| (i * 7 + len) as u8).collect();
        store.put_kv(&key, &value).unwrap();
        let got = store.get_kv_zero_copy(&key).unwrap().unwrap();
        assert_eq!(got.to_owned_slice(), value);
    }
}

#[test]
fn deleting_twice_finds_nothing() {
    let mut store = Store::open(0, 0);
    store.put_kv(b"a", b"x").unwrap();
    store.put_kv(b"b", b"y").unwrap();
    assert!(store.delete_kv(b"a"));
    assert!(!store.delete_kv(b"a"));
    assert_eq!(store.get_kv_zero_copy(b"b").unwrap().unwrap().as_bytes(), b"y");
    assert_eq!(store.used_bytes(), 1);
}

#[test]
fn putting_twice_is_putting_once() {
    let mut store = Store::open(0, 100);
    store.put_kv(b"a", &[7u8; 60]).unwrap();
    store.put_kv(b"a", &[7u8; 60]).unwrap();
    assert_eq!(store.used_bytes(), 60);
    assert_eq!(store.get_kv_zero_copy(b"a").unwrap().unwrap().as_bytes(), &[7u8; 60]);
}

#[test]
fn locators_take_twelve_bytes() {
    let loc = ValueLocator { seg_id: 1, offset: 0x0203, len: 4 };
    let bytes = binencode(&loc);
    assert_eq!(bytes, vec![1, 0, 0, 0, 3, 2, 0, 0, 4, 0, 0, 0]);
    assert_eq!(bindecode(&bytes).unwrap(), loc);
    let fault = StoreError::Corrupt(Corruption::LocatorLength { len: 11 });
    assert_eq!(bindecode(&bytes[..11]), Err(fault.clone()));
    assert_eq!(KvStore::get_kv_zero_copy(Some(&bytes[..11])), Err(fault.clone()));
    assert_eq!(fault.message(), "corrupt: locator len 11 != 12");
    let mut store = Store::open(0, 0);
    store.table.insert(b"bad".to_vec(), vec![0; 11]);
    assert_eq!(store.put_kv(b"bad", b"v"), Err(fault));
}

#[test]
fn quota_is_eight_bytes_or_nothing() {
    assert_eq!(write_quota(0x0102), vec![2, 1, 0, 0, 0, 0, 0, 0]);
    assert_eq!(read_quota(Some(&write_quota(u64::MAX))), u64::MAX);
    assert_eq!(read_quota(Some(&[1, 2, 3])), 0);
    assert_eq!(read_quota(None), 0);
}

#[test]
fn charging_counts_the_difference() {
    assert_eq!(charge(10, 0, 5, 0), Ok(15));
    assert_eq!(charge(10, 3, 5, 12), Ok(12));
    assert_eq!(charge(10, 3, 6, 12), Err(StoreError::QuotaExceeded));
    assert_eq!(charge(10, 8, 2, 12), Ok(4), "a value that shrinks gives the rest back");
    assert_eq!(charge(u64::MAX, 0, 1, 0), Err(StoreError::QuotaExceeded));
}

#[test]
fn hash_is_fnv_1a() {
    assert_eq!(xxhash(b""), 0xcbf2_9ce4_8422_2325);
    assert_eq!(xxhash(b"a"), 0xaf63_dc4c_8601_ec8c);
    assert_eq!(xxhash(b"foobar"), 0x8594_4171_f739_67e8);
}

#[test]
fn the_count_is_what_the_values_take() {
    let mut store = Store::open(0, 128);
    store.put_kv(b"a", &[0u8; 32]).unwrap();
    store.put_kv(b"a", &[0u8; 8]).unwrap();
    assert_eq!(store.used_bytes(), 8);
    store.put_kv(b"b", &[0u8; 120]).unwrap();
    assert_eq!(store.used_bytes(), 128);
    assert_eq!(store.put_kv(b"a", &[0u8; 9]), Err(StoreError::QuotaExceeded));
    assert!(store.delete_kv(b"a"));
    assert!(store.delete_kv(b"b"));
    assert_eq!(store.used_bytes(), 0);
}
