//! What holds of every key/value store: a value that was put is what is read, other keys keep
//! theirs, and the quota is never passed.

use vstd::prelude::*;
use crate::bytes::{le_bytes, le_round_trip, lemma_le_bytes_len, lemma_le_limits};
use crate::mem::segment::ValueLocator;
use crate::mem::segment_laws::{
    append_keeps_what_is_written, payload_at, within, written, Memory,
};
use crate::store::kv::{
    charged, delete_outcome, fnv1a, key_ok, locator_bytes, locator_of, put_check, put_outcome,
    quota_of, KvView,
};

verus! {

/// The locator comes back from its bytes.
pub proof fn locator_round_trip(loc: ValueLocator)
    ensures
        locator_bytes(loc).len() == 12,
        locator_of(locator_bytes(loc)) == loc,
{
    let b = locator_bytes(loc);
    lemma_le_limits();
    lemma_le_bytes_len(loc.seg_id as nat, 4);
    lemma_le_bytes_len(loc.offset as nat, 4);
    lemma_le_bytes_len(loc.len as nat, 4);
    le_round_trip(loc.seg_id as nat, 4);
    le_round_trip(loc.offset as nat, 4);
    le_round_trip(loc.len as nat, 4);
    assert(b.subrange(0, 4) =~= le_bytes(loc.seg_id as nat, 4));
    assert(b.subrange(4, 8) =~= le_bytes(loc.offset as nat, 4));
    assert(b.subrange(8, 12) =~= le_bytes(loc.len as nat, 4));
}

/// The count comes back from its bytes.
pub proof fn quota_round_trip(used: u64)
    ensures
        quota_of(Some(le_bytes(used as nat, 8))) == used,
{
    lemma_le_limits();
    lemma_le_bytes_len(used as nat, 8);
    le_round_trip(used as nat, 8);
}

/// A store with what lies in its table and its segments.
pub struct KvModel {
    pub kv: KvView,
    pub table: Map<Seq<u8>, ValueLocator>,
    pub used: u64,
    pub mem: Memory,
}

/// What the table holds under a key.
pub open spec fn stored_locator(m: KvModel, key: Seq<u8>) -> Option<Seq<u8>> {
    if m.table.contains_key(key) {
        Some(locator_bytes(m.table[key]))
    } else {
        None
    }
}

/// The value under a key.
pub open spec fn value_of(m: KvModel, key: Seq<u8>) -> Option<Seq<u8>> {
    if m.table.contains_key(key) {
        Some(payload_at(m.mem, m.table[key]))
    } else {
        None
    }
}

/// The lengths of all values, added up.
pub open spec fn live_bytes(table: Map<Seq<u8>, ValueLocator>) -> nat
    decreases table.dom().len(),
    when table.dom().finite()
{
    if table.dom().len() == 0 {
        0
    } else {
        let k = table.dom().choose();
        table[k].len as nat + live_bytes(table.remove(k))
    }
}

/// Every value lies within what the pool has written, and the count is what the values take.
pub open spec fn model_ok(m: KvModel) -> bool {
    &&& m.table.dom().finite()
    &&& forall|k: Seq<u8>| #[trigger] m.table.contains_key(k) ==> within(m.kv.pool, m.table[k])
    &&& live_bytes(m.table) == m.used
}

/// The store after a put; an error where it is refused.
pub open spec fn put(
    m: KvModel,
    held: spec_fn(u32) -> bool,
    key: Seq<u8>,
    value: Seq<u8>,
) -> std::result::Result<KvModel, crate::error::StoreError> {
    let (pool, r) = put_outcome(
        m.kv,
        held,
        key.len(),
        value.len(),
        stored_locator(m, key),
        Some(le_bytes(m.used as nat, 8)),
    );
    match r {
        Err(e) => Err(e),
        Ok((loc, used)) => Ok(
            KvModel {
                kv: KvView { pool, limit: m.kv.limit },
                table: m.table.insert(key, loc),
                used,
                mem: written(m.mem, loc.seg_id, loc.offset as int, value),
            },
        ),
    }
}

/// The store after a delete, and whether the key was there.
pub open spec fn delete(m: KvModel, key: Seq<u8>) -> (KvModel, bool) {
    match delete_outcome(stored_locator(m, key), Some(le_bytes(m.used as nat, 8))) {
        None => (m, false),
        Some(used) => (
            KvModel { kv: m.kv, table: m.table.remove(key), used, mem: m.mem },
            true,
        ),
    }
}

proof fn lemma_live_remove(table: Map<Seq<u8>, ValueLocator>, key: Seq<u8>)
    requires
        table.dom().finite(),
        table.contains_key(key),
    ensures
        live_bytes(table) == table[key].len + live_bytes(table.remove(key)),
    decreases table.dom().len(),
{
    let k = table.dom().choose();
    if k != key {
        let a = table.remove(k);
        let b = table.remove(key);
        lemma_live_remove(a, key);
        lemma_live_remove(b, k);
        assert(a.remove(key) =~= b.remove(k));
    }
}

proof fn lemma_live_insert(table: Map<Seq<u8>, ValueLocator>, key: Seq<u8>, loc: ValueLocator)
    requires
        table.dom().finite(),
    ensures
        live_bytes(table.insert(key, loc)) == loc.len + live_bytes(table.remove(key)),
{
    let t = table.insert(key, loc);
    lemma_live_remove(t, key);
    assert(t.remove(key) =~= table.remove(key));
}

/// A value that was put is what is read, and every other key keeps its value.
pub proof fn put_then_get(
    m: KvModel,
    held: spec_fn(u32) -> bool,
    key: Seq<u8>,
    value: Seq<u8>,
    other: Seq<u8>,
)
    requires
        model_ok(m),
        m.kv.pool.takes(value.len()),
        put(m, held, key, value) is Ok,
        other != key,
    ensures
        value_of(put(m, held, key, value)->Ok_0, key) == Some(value),
        value_of(put(m, held, key, value)->Ok_0, other) == value_of(m, other),
{
    if m.table.contains_key(key) {
        locator_round_trip(m.table[key]);
    }
    let zero = ValueLocator { seg_id: m.kv.pool.active, offset: 0, len: 0 };
    append_keeps_what_is_written(m.kv.pool, held, value, m.mem, zero);
    if m.table.contains_key(other) {
        append_keeps_what_is_written(m.kv.pool, held, value, m.mem, m.table[other]);
    }
}

/// A put keeps the store in order and within its limit: the count is what the values take, the
/// new one in the place of the one it has overwritten.
pub proof fn put_keeps_the_quota(
    m: KvModel,
    held: spec_fn(u32) -> bool,
    key: Seq<u8>,
    value: Seq<u8>,
)
    requires
        model_ok(m),
        m.kv.pool.takes(value.len()),
        put(m, held, key, value) is Ok,
    ensures
        model_ok(put(m, held, key, value)->Ok_0),
        put(m, held, key, value)->Ok_0.used == live_bytes(m.table.remove(key)) + value.len(),
        m.kv.limit > 0 ==> put(m, held, key, value)->Ok_0.used <= m.kv.limit,
{
    let n = put(m, held, key, value)->Ok_0;
    let loc = n.table[key];
    quota_round_trip(m.used);
    if m.table.contains_key(key) {
        locator_round_trip(m.table[key]);
        lemma_live_remove(m.table, key);
    } else {
        assert(m.table.remove(key) =~= m.table);
    }
    lemma_live_insert(m.table, key, loc);
    let zero = ValueLocator { seg_id: m.kv.pool.active, offset: 0, len: 0 };
    append_keeps_what_is_written(m.kv.pool, held, value, m.mem, zero);
    assert forall|k: Seq<u8>| #[trigger] n.table.contains_key(k) implies within(
        n.kv.pool,
        n.table[k],
    ) by {
        if k != key {
            assert(m.table.contains_key(k));
            append_keeps_what_is_written(m.kv.pool, held, value, m.mem, m.table[k]);
        }
    }
}

/// A put that would pass the limit is refused: what all other values take and what the value
/// adds are more than the limit.
pub proof fn put_over_quota_is_refused(
    m: KvModel,
    held: spec_fn(u32) -> bool,
    key: Seq<u8>,
    value: Seq<u8>,
)
    requires
        model_ok(m),
        key_ok(key.len()),
        m.kv.limit > 0,
        live_bytes(m.table.remove(key)) + value.len() > m.kv.limit,
    ensures
        put(m, held, key, value) == Err::<KvModel, _>(crate::error::StoreError::QuotaExceeded),
{
    quota_round_trip(m.used);
    if m.table.contains_key(key) {
        locator_round_trip(m.table[key]);
        lemma_live_remove(m.table, key);
    } else {
        assert(m.table.remove(key) =~= m.table);
    }
}

/// A deleted key has no value, and every other key keeps its value. Deleting says whether the
/// key was there.
pub proof fn delete_then_get(m: KvModel, key: Seq<u8>, other: Seq<u8>)
    requires
        model_ok(m),
        other != key,
    ensures
        delete(m, key).1 == m.table.contains_key(key),
        value_of(delete(m, key).0, key) is None,
        value_of(delete(m, key).0, other) == value_of(m, other),
{
}

/// A delete keeps the store in order and gives the bytes of the value free.
pub proof fn delete_gives_quota_back(m: KvModel, key: Seq<u8>)
    requires
        model_ok(m),
        m.table.contains_key(key),
    ensures
        model_ok(delete(m, key).0),
        delete(m, key).0.used == m.used - m.table[key].len,
{
    let n = delete(m, key).0;
    locator_round_trip(m.table[key]);
    quota_round_trip(m.used);
    lemma_live_remove(m.table, key);
    assert forall|k: Seq<u8>| #[trigger] n.table.contains_key(k) implies within(
        n.kv.pool,
        n.table[k],
    ) by {
        assert(m.table.contains_key(k));
    }
}

/// Deleting twice is deleting once.
pub proof fn delete_is_idempotent(m: KvModel, key: Seq<u8>)
    ensures
        delete(delete(m, key).0, key) == (delete(m, key).0, false),
{
}

/// Putting the same value twice reads like putting it once: replaying a put is harmless.
pub proof fn put_is_idempotent(
    m: KvModel,
    held: spec_fn(u32) -> bool,
    key: Seq<u8>,
    value: Seq<u8>,
    other: Seq<u8>,
)
    requires
        model_ok(m),
        m.kv.pool.takes(value.len()),
        put(m, held, key, value) is Ok,
        put(m, held, key, value)->Ok_0.kv.pool.takes(value.len()),
        put(put(m, held, key, value)->Ok_0, held, key, value) is Ok,
    ensures
        ({
            let once = put(m, held, key, value)->Ok_0;
            let twice = put(once, held, key, value)->Ok_0;
            value_of(twice, other) == value_of(once, other) && twice.used == once.used
        }),
{
    let once = put(m, held, key, value)->Ok_0;
    put_keeps_the_quota(m, held, key, value);
    let another = key.push(0);
    assert(another.len() != key.len());
    put_then_get(m, held, key, value, another);
    put_then_get(once, held, key, value, another);
    if other != key {
        put_then_get(m, held, key, value, other);
        put_then_get(once, held, key, value, other);
    }
    quota_round_trip(once.used);
    locator_round_trip(once.table[key]);
    assert(once.table[key].len == value.len());
}

/// The values under all keys.
pub open spec fn contents(m: KvModel) -> Map<Seq<u8>, Seq<u8>> {
    Map::new(|k: Seq<u8>| m.table.contains_key(k), |k: Seq<u8>| payload_at(m.mem, m.table[k]))
}

/// A put puts its value into the contents and changes nothing else; a delete takes the key out.
pub proof fn contents_follow_the_operations(
    m: KvModel,
    held: spec_fn(u32) -> bool,
    key: Seq<u8>,
    value: Seq<u8>,
)
    requires
        model_ok(m),
        m.kv.pool.takes(value.len()),
    ensures
        put(m, held, key, value) is Ok ==> contents(put(m, held, key, value)->Ok_0) == contents(
            m,
        ).insert(key, value),
        contents(delete(m, key).0) == contents(m).remove(key),
{
    if put(m, held, key, value) is Ok {
        let n = put(m, held, key, value)->Ok_0;
        let another = key.push(0);
        assert(another.len() != key.len());
        put_then_get(m, held, key, value, another);
        assert forall|k: Seq<u8>| #[trigger] n.table.contains_key(k) && k != key implies payload_at(
            n.mem,
            n.table[k],
        ) == payload_at(m.mem, m.table[k]) by {
            put_then_get(m, held, key, value, k);
        }
        assert(contents(n) =~= contents(m).insert(key, value));
    }
    assert(contents(delete(m, key).0) =~= contents(m).remove(key));
}

/// A put that passes the check before it is logged is not refused when it is applied, and a
/// replay, which knows no limit, refuses it neither.
pub proof fn checked_puts_are_applied(
    m: KvModel,
    held: spec_fn(u32) -> bool,
    key: Seq<u8>,
    value: Seq<u8>,
)
    requires
        model_ok(m),
        value.len() <= u32::MAX,
        m.kv.pool.takes(value.len()),
        m.kv.pool.seg_size <= u32::MAX,
        m.kv.pool.cursor <= m.kv.pool.seg_size,
    ensures
        put_check(
            m.kv.limit,
            key.len(),
            value.len(),
            stored_locator(m, key),
            Some(le_bytes(m.used as nat, 8)),
        ) is Ok <==> put(m, held, key, value) is Ok,
        key_ok(key.len()) && m.used + value.len() <= u64::MAX ==> put(
            (KvModel { kv: KvView { pool: m.kv.pool, limit: 0 }, ..m }),
            held,
            key,
            value,
        ) is Ok,
{
    quota_round_trip(m.used);
    if m.table.contains_key(key) {
        locator_round_trip(m.table[key]);
    }
}

/// A put within the quota is taken: a key of 1 to 511 bytes, a value that the pool takes, and
/// what all other values take and what the value adds are no more than the limit, if there is one.
pub proof fn puts_within_the_quota_are_taken(
    m: KvModel,
    held: spec_fn(u32) -> bool,
    key: Seq<u8>,
    value: Seq<u8>,
)
    requires
        model_ok(m),
        1 <= key.len() <= 511,
        value.len() <= u32::MAX,
        m.kv.pool.takes(value.len()),
        m.kv.pool.seg_size <= u32::MAX,
        m.kv.pool.cursor <= m.kv.pool.seg_size,
        live_bytes(m.table.remove(key)) + value.len() <= u64::MAX,
        m.kv.limit == 0 || live_bytes(m.table.remove(key)) + value.len() <= m.kv.limit,
    ensures
        put(m, held, key, value) is Ok,
        put_check(
            m.kv.limit,
            key.len(),
            value.len(),
            stored_locator(m, key),
            Some(le_bytes(m.used as nat, 8)),
        ) is Ok,
{
    quota_round_trip(m.used);
    if m.table.contains_key(key) {
        locator_round_trip(m.table[key]);
        lemma_live_remove(m.table, key);
    } else {
        assert(m.table.remove(key) =~= m.table);
    }
}

/// A put is refused for its key exactly where the key is empty or longer than 511 bytes, and is
/// told the length then.
pub proof fn keys_are_refused_for_their_length(
    m: KvModel,
    held: spec_fn(u32) -> bool,
    key: Seq<u8>,
    value: Seq<u8>,
)
    requires
        model_ok(m),
        value.len() <= u32::MAX,
        m.kv.pool.takes(value.len()),
        m.kv.pool.seg_size <= u32::MAX,
        m.kv.pool.cursor <= m.kv.pool.seg_size,
    ensures
        (put(m, held, key, value) matches Err(e) && e is InvalidKey) <==> key.len() == 0
            || key.len() > 511,
        key.len() == 0 || key.len() > 511 ==> put(m, held, key, value) == Err::<KvModel, _>(
            crate::error::StoreError::InvalidKey(key.len() as usize),
        ),
{
    if m.table.contains_key(key) {
        locator_round_trip(m.table[key]);
    }
}

/// A value that takes the place of one counts what it is longer; one that frees more than is
/// counted starts the count anew. What is taken under a limit is taken under every higher one,
/// and so is every shorter value; a value is refused only where the count would pass the limit or
/// no longer fit.
pub proof fn charging_keeps_to_the_limit(used: u64, old_len: nat, len: nat, limit: u64)
    ensures
        charged(used, old_len, len, limit) matches Some(u) ==> (limit == 0 || u <= limit) && (
        old_len <= used ==> u - used == len - old_len) && (old_len > used ==> u == len),
        charged(used, old_len, len, limit) is Some ==> forall|shorter: nat|
            shorter <= len ==> #[trigger] charged(used, old_len, shorter, limit) is Some,
        charged(used, old_len, len, limit) is Some ==> forall|higher: u64|
            higher == 0 || (limit > 0 && higher >= limit) ==> #[trigger] charged(
                used,
                old_len,
                len,
                higher,
            ) == charged(used, old_len, len, limit),
        old_len <= used && used - old_len + len <= u64::MAX && (limit == 0 || used - old_len + len
            <= limit) ==> charged(used, old_len, len, limit) is Some,
        old_len > used && len <= u64::MAX && (limit == 0 || len <= limit) ==> charged(
            used,
            old_len,
            len,
            limit,
        ) is Some,
{
}

/// Putting a value and deleting it again leaves the count that the other values take.
pub proof fn put_then_delete_gives_the_quota_back(
    m: KvModel,
    held: spec_fn(u32) -> bool,
    key: Seq<u8>,
    value: Seq<u8>,
)
    requires
        model_ok(m),
        m.kv.pool.takes(value.len()),
        put(m, held, key, value) is Ok,
    ensures
        delete(put(m, held, key, value)->Ok_0, key).1,
        delete(put(m, held, key, value)->Ok_0, key).0.used == live_bytes(m.table.remove(key)),
        contents(delete(put(m, held, key, value)->Ok_0, key).0) == contents(m).remove(key),
{
    let n = put(m, held, key, value)->Ok_0;
    put_keeps_the_quota(m, held, key, value);
    delete_gives_quota_back(n, key);
    lemma_live_remove(n.table, key);
    assert(n.table.remove(key) =~= m.table.remove(key));
    contents_follow_the_operations(m, held, key, value);
    assert(contents(delete(n, key).0) =~= contents(n).remove(key));
    assert(contents(m).insert(key, value).remove(key) =~= contents(m).remove(key));
}

/// A count or a locator of another length than it is written in is none: the count is 0, a put
/// over such a locator is refused with its length, and a delete counts the value as empty.
pub proof fn broken_entries_are_told(
    limit: u64,
    key_len: nat,
    len: nat,
    locator: Seq<u8>,
    quota: Seq<u8>,
)
    requires
        locator.len() != 12,
        locator.len() <= usize::MAX,
    ensures
        quota_of(None) == 0,
        quota.len() != 8 ==> quota_of(Some(quota)) == 0,
        1 <= key_len <= 511 ==> put_check(limit, key_len, len, Some(locator), Some(quota)) == Err::<
            u64,
            _,
        >(
            crate::error::StoreError::Corrupt(
                crate::error::Corruption::LocatorLength { len: locator.len() as usize },
            ),
        ),
        delete_outcome(Some(locator), Some(quota)) == Some(quota_of(Some(quota))),
        delete_outcome(None, Some(quota)) is None,
{
}

/// A step of the hash can be undone.
proof fn lemma_hash_step(x: u64)
    ensures
        (x.wrapping_mul(0x100_0000_01b3) as int * 0xce96_5057_aff6_957b)
            % 0x1_0000_0000_0000_0000 == x,
{
    let n = 0x1_0000_0000_0000_0000int;
    let p = 0x100_0000_01b3int;
    let q = 0xce96_5057_aff6_957bint;
    let v = x as int;
    vstd::arithmetic::div_mod::lemma_mul_mod_noop_left(v * p, q, n);
    assert((v * p) * q == n * (v * 887285111055) + v) by (nonlinear_arith)
        requires
            n == 0x1_0000_0000_0000_0000int,
            p == 0x100_0000_01b3int,
            q == 0xce96_5057_aff6_957bint,
    ;
    vstd::arithmetic::div_mod::lemma_mod_multiples_vanish(v * 887285111055, v, n);
    vstd::arithmetic::div_mod::lemma_small_mod(x as nat, n as nat);
}

/// Every byte of a key counts in its hash: keys that differ in their last byte alone have
/// different hashes, and hashes that differ stay different when the same byte follows.
pub proof fn every_byte_counts_in_the_hash(a: Seq<u8>, b: Seq<u8>, x: u8, y: u8)
    ensures
        x != y ==> fnv1a(a.push(x)) != fnv1a(a.push(y)),
        fnv1a(a) != fnv1a(b) ==> fnv1a(a.push(x)) != fnv1a(b.push(x)),
{
    assert(a.push(x).drop_last() =~= a);
    assert(a.push(y).drop_last() =~= a);
    assert(b.push(x).drop_last() =~= b);
    let h = fnv1a(a);
    let k = fnv1a(b);
    let u = x as u64;
    let v = y as u64;
    lemma_hash_step(h ^ u);
    lemma_hash_step(h ^ v);
    lemma_hash_step(k ^ u);
    assert((h ^ u) == (h ^ v) ==> u == v) by (bit_vector);
    assert((h ^ u) == (k ^ u) ==> h == k) by (bit_vector);
}

} // verus!
