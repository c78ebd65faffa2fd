//! Key/value store: payloads in segments, their locators under the keys, and a count of the
//! bytes in use that is held against a quota.
//!
//! Locators and the count lie in a transactional table. Each operation takes what the table
//! holds and says what to write; everything it says goes into one transaction.

use vstd::prelude::*;
use crate::bytes::{le_bytes, le_val, push_le, read_le, read_le_at};
use crate::error::{Corruption, Result, StoreError};
use crate::mem::cache::{held_fn, tells};
use crate::mem::segment::{
    appended, file_view, plan_tells, AppendPlan, PoolView, SegmentPool, ValueLocator,
};

verus! {

/// The longest key that the table takes.
pub const MAX_KEY_LEN: usize = 511;

/// The bytes of a locator.
pub open spec fn locator_bytes(loc: ValueLocator) -> Seq<u8> {
    le_bytes(loc.seg_id as nat, 4) + le_bytes(loc.offset as nat, 4) + le_bytes(loc.len as nat, 4)
}

/// The locator in twelve bytes.
pub open spec fn locator_of(bytes: Seq<u8>) -> ValueLocator {
    ValueLocator {
        seg_id: le_val(bytes.subrange(0, 4)) as u32,
        offset: le_val(bytes.subrange(4, 8)) as u32,
        len: le_val(bytes.subrange(8, 12)) as u32,
    }
}

/// The bytes of a locator.
pub fn binencode(loc: &ValueLocator) -> (r: Vec<u8>)
    ensures
        r@ == locator_bytes(*loc),
{
    let mut out: Vec<u8> = Vec::with_capacity(12);
    push_le(&mut out, loc.seg_id as u64, 4);
    push_le(&mut out, loc.offset as u64, 4);
    push_le(&mut out, loc.len as u64, 4);
    proof {
        assert(out@ =~= locator_bytes(*loc));
    }
    out
}

/// The locator in some bytes.
pub fn bindecode(bytes: &[u8]) -> (r: Result<ValueLocator>)
    ensures
        bytes@.len() == 12 ==> r == Ok::<_, StoreError>(locator_of(bytes@)),
        bytes@.len() != 12 ==> r == Err::<ValueLocator, _>(
            StoreError::Corrupt(Corruption::LocatorLength { len: bytes@.len() as usize }),
        ),
{
    if bytes.len() != 12 {
        return Err(StoreError::Corrupt(Corruption::LocatorLength { len: bytes.len() }));
    }
    proof {
        crate::bytes::lemma_le_limits();
    }
    Ok(
        ValueLocator {
            seg_id: read_le_at(bytes, 0, 4) as u32,
            offset: read_le_at(bytes, 4, 4) as u32,
            len: read_le_at(bytes, 8, 4) as u32,
        },
    )
}

/// The count of bytes in use that the table holds: 0 where it holds none in eight bytes.
pub open spec fn quota_of(bytes: Option<Seq<u8>>) -> u64 {
    match bytes {
        Some(b) => if b.len() == 8 {
            le_val(b) as u64
        } else {
            0
        },
        None => 0,
    }
}

/// The count of bytes in use that the table holds.
pub fn read_quota(bytes: Option<&[u8]>) -> (r: u64)
    ensures
        r == quota_of(file_view(bytes)),
{
    match bytes {
        Some(b) => {
            if b.len() == 8 {
                read_le(b)
            } else {
                0
            }
        },
        None => 0,
    }
}

/// The bytes of a count.
pub fn write_quota(used: u64) -> (r: Vec<u8>)
    ensures
        r@ == le_bytes(used as nat, 8),
{
    let mut out: Vec<u8> = Vec::new();
    push_le(&mut out, used, 8);
    proof {
        assert(out@ =~= le_bytes(used as nat, 8));
    }
    out
}

/// A hash of a key that may stand in a log: FNV-1a with 64 bits.
pub open spec fn fnv1a(key: Seq<u8>) -> u64
    decreases key.len(),
{
    if key.len() == 0 {
        0xcbf2_9ce4_8422_2325
    } else {
        (fnv1a(key.drop_last()) ^ (key.last() as u64)).wrapping_mul(0x100_0000_01b3)
    }
}

/// A hash of a key that may stand in a log.
pub fn xxhash(key: &[u8]) -> (r: u64)
    ensures
        r == fnv1a(key@),
{
    let mut h: u64 = 0xcbf2_9ce4_8422_2325;
    let mut i: usize = 0;
    while i < key.len()
        invariant
            i <= key@.len(),
            h == fnv1a(key@.take(i as int)),
        decreases key@.len() - i,
    {
        proof {
            assert(key@.take(i + 1).drop_last() =~= key@.take(i as int));
        }
        h = (h ^ (key[i] as u64)).wrapping_mul(0x100_0000_01b3);
        i = i + 1;
    }
    proof {
        assert(key@.take(i as int) =~= key@);
    }
    h
}

/// Whether the table takes a key of this length.
pub open spec fn key_ok(len: nat) -> bool {
    0 < len <= MAX_KEY_LEN
}

/// Refuses a key that the table does not take.
pub fn check_key(key: &[u8]) -> (r: Result<()>)
    ensures
        key_ok(key@.len()) ==> r is Ok,
        !key_ok(key@.len()) ==> r == Err::<(), _>(StoreError::InvalidKey(key@.len() as usize)),
{
    if key.len() == 0 || key.len() > MAX_KEY_LEN {
        Err(StoreError::InvalidKey(key.len()))
    } else {
        Ok(())
    }
}

/// The bytes in use once a value of `len` bytes has taken the place of one of `old_len`: the old
/// length is taken off and the new one added. `None` where that is more than a count holds, or
/// more than the limit (0 is no limit).
pub open spec fn charged(used: u64, old_len: nat, len: nat, limit: u64) -> Option<u64> {
    let kept = if used > old_len {
        (used - old_len) as nat
    } else {
        0
    };
    if kept + len > u64::MAX || (limit > 0 && kept + len > limit) {
        None
    } else {
        Some((kept + len) as u64)
    }
}

/// Holds a new value against the quota.
pub fn charge(used: u64, old_len: u64, len: u64, limit: u64) -> (r: Result<u64>)
    ensures
        match charged(used, old_len as nat, len as nat, limit) {
            Some(u) => r == Ok::<u64, StoreError>(u),
            None => r == Err::<u64, StoreError>(StoreError::QuotaExceeded),
        },
{
    let new_used: u64 = match used.saturating_sub(old_len).checked_add(len) {
        Some(u) => u,
        None => return Err(StoreError::QuotaExceeded),
    };
    if limit > 0 && new_used > limit {
        return Err(StoreError::QuotaExceeded);
    }
    Ok(new_used)
}

/// What a put writes: the payload as the plan says, the locator under the key, and the count.
pub struct PutPlan {
    pub append: AppendPlan,
    pub locator: Vec<u8>,
    pub quota: Vec<u8>,
}

/// The pool of a store, and its limit.
pub struct KvView {
    pub pool: PoolView,
    pub limit: u64,
}

/// Whether a put is to be refused: the count to write where it is not.
pub open spec fn put_check(
    limit: u64,
    key_len: nat,
    len: nat,
    old_locator: Option<Seq<u8>>,
    quota: Option<Seq<u8>>,
) -> std::result::Result<u64, StoreError> {
    if !key_ok(key_len) {
        Err(StoreError::InvalidKey(key_len as usize))
    } else if old_locator is Some && old_locator->Some_0.len() != 12 {
        Err(
            StoreError::Corrupt(
                Corruption::LocatorLength { len: old_locator->Some_0.len() as usize },
            ),
        )
    } else {
        let old_len = match old_locator {
            Some(b) => locator_of(b).len as nat,
            None => 0,
        };
        match charged(quota_of(quota), old_len, len, limit) {
            None => Err(StoreError::QuotaExceeded),
            Some(used) => Ok(used),
        }
    }
}

/// Checks a put against a limit, without placing anything. Returns the count to write.
pub fn check_put(
    limit: u64,
    key: &[u8],
    len: u64,
    old_locator: Option<&[u8]>,
    quota: Option<&[u8]>,
) -> (r: Result<u64>)
    ensures
        r == put_check(limit, key@.len(), len as nat, file_view(old_locator), file_view(quota)),
{
    check_key(key)?;
    let old_len: u64 = match old_locator {
        Some(b) => bindecode(b)?.len as u64,
        None => 0,
    };
    charge(read_quota(quota), old_len, len, limit)
}

/// What a put comes to: the pool after it, and the locator and count to write.
pub open spec fn put_outcome(
    s: KvView,
    held: spec_fn(u32) -> bool,
    key_len: nat,
    len: nat,
    old_locator: Option<Seq<u8>>,
    quota: Option<Seq<u8>>,
) -> (PoolView, std::result::Result<(ValueLocator, u64), StoreError>) {
    match put_check(s.limit, key_len, len, old_locator, quota) {
        Err(e) => (s.pool, Err(e)),
        Ok(used) => {
            let (pool, r) = appended(s.pool, held, len);
            match r {
                Ok(loc) => (pool, Ok((loc, used))),
                Err(e) => (pool, Err(e)),
            }
        },
    }
}

/// `r` and `after` are what a put comes to.
pub open spec fn put_result(
    s: KvView,
    held: spec_fn(u32) -> bool,
    key_len: nat,
    len: nat,
    old_locator: Option<Seq<u8>>,
    quota: Option<Seq<u8>>,
    after: PoolView,
    r: Result<PutPlan>,
) -> bool {
    let (pool, e) = put_outcome(s, held, key_len, len, old_locator, quota);
    &&& after == pool
    &&& e matches Err(x) ==> r is Err && r->Err_0 == x
    &&& e matches Ok((loc, used)) ==> r is Ok && r->Ok_0.append.locator == loc
        && r->Ok_0.append.pad == 0 && plan_tells(s.pool, pool, r->Ok_0.append)
        && r->Ok_0.locator@ == locator_bytes(loc) && r->Ok_0.quota@ == le_bytes(used as nat, 8)
}

/// What a delete comes to: nothing where there is no locator, otherwise the count to write. A
/// locator that cannot be read counts as empty.
pub open spec fn delete_outcome(
    old_locator: Option<Seq<u8>>,
    quota: Option<Seq<u8>>,
) -> Option<u64> {
    match old_locator {
        None => None,
        Some(b) => {
            let old_len = if b.len() == 12 {
                locator_of(b).len as nat
            } else {
                0
            };
            let used = quota_of(quota);
            Some(
                if used >= old_len {
                    (used - old_len) as u64
                } else {
                    0
                },
            )
        },
    }
}

/// A key/value store.
pub struct KvStore {
    pool: SegmentPool,
    quota_limit: u64,
}

impl View for KvStore {
    type V = KvView;

    closed spec fn view(&self) -> KvView {
        KvView { pool: self.pool@, limit: self.quota_limit }
    }
}

impl KvStore {
    /// A store on an open pool. A limit of 0 is no limit.
    pub fn open(pool: SegmentPool, quota_limit: u64) -> (r: KvStore)
        ensures
            r@ == (KvView { pool: pool@, limit: quota_limit }),
    {
        KvStore { pool, quota_limit }
    }

    /// Places a value. Takes the locator that stands under the key and the count, as the table
    /// holds them.
    pub fn put_kv<H: Fn(u32) -> bool>(
        &mut self,
        key: &[u8],
        value: &[u8],
        old_locator: Option<&[u8]>,
        quota: Option<&[u8]>,
        held: &H,
    ) -> (r: Result<PutPlan>)
        requires
            tells(*held),
            old(self)@.pool.takes(value@.len()),
        ensures
            put_result(
                old(self)@,
                held_fn(*held),
                key@.len(),
                value@.len(),
                file_view(old_locator),
                file_view(quota),
                final(self)@.pool,
                r,
            ),
            final(self)@.limit == old(self)@.limit,
    {
        let limit: u64 = self.quota_limit;
        self.put_within(limit, key, value, old_locator, quota, held)
    }

    /// Places a value that the log holds. It was held against the limit before it was logged,
    /// and later entries may have freed what it needs, so it is not held against it again.
    pub fn replay_kv<H: Fn(u32) -> bool>(
        &mut self,
        key: &[u8],
        value: &[u8],
        old_locator: Option<&[u8]>,
        quota: Option<&[u8]>,
        held: &H,
    ) -> (r: Result<PutPlan>)
        requires
            tells(*held),
            old(self)@.pool.takes(value@.len()),
        ensures
            put_result(
                (KvView { pool: old(self)@.pool, limit: 0 }),
                held_fn(*held),
                key@.len(),
                value@.len(),
                file_view(old_locator),
                file_view(quota),
                final(self)@.pool,
                r,
            ),
            final(self)@.limit == old(self)@.limit,
    {
        self.put_within(0, key, value, old_locator, quota, held)
    }

    fn put_within<H: Fn(u32) -> bool>(
        &mut self,
        limit: u64,
        key: &[u8],
        value: &[u8],
        old_locator: Option<&[u8]>,
        quota: Option<&[u8]>,
        held: &H,
    ) -> (r: Result<PutPlan>)
        requires
            tells(*held),
            old(self)@.pool.takes(value@.len()),
        ensures
            put_result(
                (KvView { pool: old(self)@.pool, limit }),
                held_fn(*held),
                key@.len(),
                value@.len(),
                file_view(old_locator),
                file_view(quota),
                final(self)@.pool,
                r,
            ),
            final(self)@.limit == old(self)@.limit,
    {
        let used: u64 = check_put(limit, key, value.len() as u64, old_locator, quota)?;
        let append: AppendPlan = self.pool.append(value, held)?;
        let locator: Vec<u8> = binencode(&append.locator);
        Ok(PutPlan { append, locator, quota: write_quota(used) })
    }

    /// The count to write when the key goes; `None` where no locator stands under it.
    pub fn delete_kv(&self, old_locator: Option<&[u8]>, quota: Option<&[u8]>) -> (r: Option<
        Vec<u8>,
    >)
        ensures
            match delete_outcome(file_view(old_locator), file_view(quota)) {
                None => r is None,
                Some(used) => r is Some && r->Some_0@ == le_bytes(used as nat, 8),
            },
    {
        let b: &[u8] = match old_locator {
            Some(b) => b,
            None => return None,
        };
        let old_len: u64 = match bindecode(b) {
            Ok(loc) => loc.len as u64,
            Err(_) => 0,
        };
        Some(write_quota(read_quota(quota).saturating_sub(old_len)))
    }

    /// Where a value stands: what the table holds under its key.
    pub fn get_kv_zero_copy(locator: Option<&[u8]>) -> (r: Result<Option<ValueLocator>>)
        ensures
            match locator {
                None => r == Ok::<Option<ValueLocator>, StoreError>(None),
                Some(b) => if b@.len() == 12 {
                    r == Ok::<Option<ValueLocator>, StoreError>(Some(locator_of(b@)))
                } else {
                    r == Err::<Option<ValueLocator>, _>(
                        StoreError::Corrupt(
                            Corruption::LocatorLength { len: b@.len() as usize },
                        ),
                    )
                },
            },
    {
        match locator {
            None => Ok(None),
            Some(b) => {
                match bindecode(b) {
                    Ok(loc) => Ok(Some(loc)),
                    Err(e) => Err(e),
                }
            },
        }
    }

    /// The pool of the store.
    pub fn pool(&self) -> (r: &SegmentPool)
        ensures
            r@ == self@.pool,
    {
        &self.pool
    }

    /// The pool of the store, to note which segments are mapped.
    pub fn pool_mut(&mut self) -> (r: &mut SegmentPool)
        ensures
            r@ == old(self)@.pool,
            final(self)@ == (KvView { pool: final(r)@, limit: old(self)@.limit }),
    {
        &mut self.pool
    }

    /// The bytes in use.
    pub fn used_bytes(quota: Option<&[u8]>) -> (r: u64)
        ensures
            r == quota_of(file_view(quota)),
    {
        read_quota(quota)
    }

    /// The limit on the bytes in use; 0 is no limit.
    pub fn quota_limit(&self) -> (r: u64)
        ensures
            r == self@.limit,
    {
        self.quota_limit
    }
}

} // verus!
