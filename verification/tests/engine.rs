use std::collections::BTreeMap;
use std::sync::Arc;

use arrow::array::Int32Array;
use arrow::datatypes::{DataType, Field, Schema};
use arrow::record_batch::RecordBatch;
use fusion_store::cli::{
    compact_line, plan_line, put_line, reclaim_line, reclaims_now, recover_line, stats_lines,
    NOT_FOUND_EXIT,
};
use fusion_store::columnar::batch::{decode_ipc, ArrowBatch};
use fusion_store::columnar::store::ColumnarStore;
use fusion_store::columnar::types::TableMeta;
use fusion_store::compact::{run_compact, CompactResult};
use fusion_store::engine::{
    replay_op, Checkpoint, CheckpointAction, Engine, Recovery, ReplayAction,
};
use fusion_store::error::{Corruption, StoreError};
use fusion_store::ffi::{
    copy_out, copy_results, delete_code, done_code, err_code, vector_dim, CopyOut, ERR_OTHER,
};
use fusion_store::lock::{LockStep, LockTry, LockWait};
use fusion_store::mem::recover::{build_recover_plan, finalize_recover, RecoverPlan};
use fusion_store::mem::segment::{segment_file, AppendPlan, SegmentPool, ValueLocator};
use fusion_store::mem::wal::{CheckpointMarker, PendingAppend, Wal, WalOp};
use fusion_store::serve::health::{health, stats, BACKPRESSURE_THRESHOLD};
use fusion_store::sharded::{
    can_merge, disk_bytes, list_vector_ids, merge_knn, vector_count, HashRouter, ShardRouter,
    ShardWalk, ShardedEngine,
};
use fusion_store::store::kv::KvStore;
use fusion_store::vector::pool::vec_segment_file;
use fusion_store::vector::schema::{schema_in_force, MetricKind, VectorSchema};
use fusion_store::vector::store::VectorIndex;

type Segments = BTreeMap<u32, Vec<u8>>;

fn bits(v: &[f32]) -> Vec<u32> {
    v.iter().map(|x| x.to_bits()).collect()
}

fn distance(metric: MetricKind, a: &[f32], b: &[f32]) -> f32 {
    let dot: f32 = a.iter().zip(b).map(|(x, y)| x * y).sum();
    match metric {
        MetricKind::L2 => a.iter().zip(b).map(|(x, y)| (x - y) * (x - y)).sum(),
        MetricKind::Cosine => {
            let na: f32 = a.iter().map(|x| x * x).sum::<f32>().sqrt();
            let nb: f32 = b.iter().map(|x| x * x).sum::<f32>().sqrt();
            if na == 0.0 || nb == 0.0 {
                1.0
            } else {
                1.0 - dot / (na * nb)
            }
        }
        MetricKind::Dot => dot,
    }
}

fn read(segs: &Segments, loc: &ValueLocator) -> Vec<u8> {
    segs[&loc.seg_id][loc.offset as usize..(loc.offset + loc.len) as usize].to_vec()
}

fn floats(segs: &Segments, loc: &ValueLocator) -> Vec<f32> {
    read(segs, loc).chunks(4).map(|c| f32::from_le_bytes(c.try_into().unwrap())).collect()
}

fn write(segs: &mut Segments, plan: &AppendPlan, bytes: &[u8]) {
    let loc = plan.locator;
    let seg = segs.entry(loc.seg_id).or_default();
    let end = loc.offset as usize + bytes.len();
    if seg.len() < end {
        seg.resize(end, 0);
    }
    seg[loc.offset as usize..end].copy_from_slice(bytes);
}

fn not_held(_: u32) -> bool {
    false
}

/// What a namespace keeps beyond the life of its engine.
#[derive(Clone, Default)]
struct Disk {
    log: Vec<u8>,
    marker: Option<CheckpointMarker>,
    kv_segs: Segments,
    kv_cursor: Option<Vec<u8>>,
    kv_table: BTreeMap<Vec<u8>, Vec<u8>>,
    kv_quota: Option<Vec<u8>>,
    vec_segs: Segments,
    locators: BTreeMap<u64, ValueLocator>,
    schema: Option<VectorSchema>,
    snapshot: Option<Vec<u8>>,
    col_segs: Segments,
    tables: BTreeMap<String, TableMeta>,
    col_quota: Option<Vec<u8>>,
}

/// An engine on such a disk. Dropping it without closing is a crash.
struct Store {
    engine: Engine,
    disk: Disk,
}

type Done<T> = Result<T, StoreError>;

impl Store {
    fn open(mut disk: Disk, schema: Option<VectorSchema>, quota: u64) -> Done<Store> {
        let names: Vec<String> = disk.kv_segs.keys().map(|i| segment_file(*i)).collect();
        let pool = SegmentPool::open(disk.kv_cursor.as_deref(), &names, 0).unwrap();
        disk.kv_segs.entry(pool.active_seg_id()).or_default();
        let names: Vec<String> = disk.vec_segs.keys().map(|i| vec_segment_file(*i)).collect();
        let locators: Vec<(u64, ValueLocator)> =
            disk.locators.iter().map(|(id, l)| (*id, *l)).collect();
        let stored = disk.schema;
        disk.schema = schema_in_force(stored, schema);
        let vec = match (stored, disk.schema) {
            (_, None) => None,
            (None, Some(s)) => {
                Some(VectorIndex::open(s, &names, 0, disk.snapshot.as_deref(), &locators)?)
            }
            (Some(_), Some(_)) => {
                let (mut idx, stale) = VectorIndex::reopen(
                    &disk.schema,
                    &names,
                    0,
                    disk.snapshot.as_deref(),
                    &locators,
                )?;
                if stale {
                    let metric = idx.schema().metric;
                    let (segs, table) = (&disk.vec_segs, &disk.locators);
                    idx.refresh_graph(&|a: u64, b: u64| {
                        distance(metric, &floats(segs, &table[&a]), &floats(segs, &table[&b]))
                            .to_bits()
                    })?;
                }
                Some(idx)
            }
        };
        if let Some(v) = &vec {
            disk.vec_segs.entry(v.pool().active_seg_id()).or_default();
        }
        let (wal, clean) = Wal::open(&disk.log, &disk.marker)?;
        disk.log.truncate(clean);
        let engine = Engine::open(KvStore::open(pool, quota), vec, wal, quota);
        let mut store = Store { engine, disk };
        store.recover()?;
        Ok(store)
    }

    fn create(dim: usize) -> Store {
        Store::open(Disk::default(), Some(VectorSchema::new(dim, MetricKind::L2)), 0).unwrap()
    }

    fn kv_only(quota: u64) -> Store {
        Store::open(Disk::default(), None, quota).unwrap()
    }

    /// Stops without closing, and opens again.
    fn crash(self) -> Store {
        Store::open(self.disk, None, 0).unwrap()
    }

    fn recover(&mut self) -> Done<()> {
        let plan = build_recover_plan(&self.disk.log, &self.disk.marker)?;
        let mut recovery = Recovery::begin(plan);
        while let Some(entry) = recovery.current() {
            let op = entry.op.clone();
            let outcome = self.replay(&op);
            recovery.settle(outcome)?;
        }
        if let Some(reached) = recovery.finish() {
            let col = self.engine.columnar().is_ok();
            let vec = self.engine.vec_index().is_ok();
            self.run(Checkpoint::after_replay(reached, col, vec))?;
        }
        Ok(())
    }

    fn replay(&mut self, op: &WalOp) -> Done<()> {
        let vec_open = self.engine.vec_index().is_ok();
        let col_open = self.engine.columnar().is_ok();
        match (replay_op(op, vec_open, col_open)?, op) {
            (ReplayAction::PutKv, WalOp::PutKv { key, value }) => {
                self.apply_put(key, value, true)
            }
            (ReplayAction::DeleteKv, WalOp::DeleteKv { key }) => {
                self.apply_delete(key);
                Ok(())
            }
            (ReplayAction::InsertVector, WalOp::InsertVector { id, vector }) => {
                self.apply_insert(*id, vector)
            }
            (ReplayAction::DeleteVector, WalOp::DeleteVector { id }) => {
                self.apply_delete_vector(*id)?;
                Ok(())
            }
            (ReplayAction::PutColumnar { open_first }, WalOp::PutColumnar { table_id, ipc }) => {
                if open_first {
                    self.open_columnar();
                }
                self.apply_columnar(table_id, &decode_ipc(ipc)?, true)
            }
            _ => panic!("an action for another operation"),
        }
    }

    fn log(&mut self, p: PendingAppend) {
        self.disk.log.extend_from_slice(&p.bytes);
        self.engine.logged(&p);
    }

    fn apply_put(&mut self, key: &[u8], value: &[u8], replayed: bool) -> Done<()> {
        let d = &mut self.disk;
        let old = d.kv_table.get(key).map(|v| v.as_slice());
        let used = d.kv_quota.as_deref();
        assert!(self.engine.kv().pool().accepts(value.len()));
        let kv = self.engine.kv_mut();
        let plan = if replayed {
            kv.replay_kv(key, value, old, used, &not_held)?
        } else {
            kv.put_kv(key, value, old, used, &not_held)?
        };
        write(&mut d.kv_segs, &plan.append, value);
        d.kv_table.insert(key.to_vec(), plan.locator);
        d.kv_quota = Some(plan.quota);
        Ok(())
    }

    fn put_kv(&mut self, key: &[u8], value: &[u8]) -> Done<()> {
        let old = self.disk.kv_table.get(key).map(|v| v.as_slice());
        let p = self.engine.put_kv(key, value, old, self.disk.kv_quota.as_deref())?;
        self.log(p);
        self.apply_put(key, value, false)
    }

    fn get_kv(&self, key: &[u8]) -> Done<Option<Vec<u8>>> {
        let loc = KvStore::get_kv_zero_copy(self.disk.kv_table.get(key).map(|v| v.as_slice()))?;
        Ok(loc.map(|l| read(&self.disk.kv_segs, &l)))
    }

    fn apply_delete(&mut self, key: &[u8]) -> bool {
        let d = &mut self.disk;
        let old = d.kv_table.get(key).map(|v| v.as_slice());
        match self.engine.kv().delete_kv(old, d.kv_quota.as_deref()) {
            Some(quota) => {
                d.kv_table.remove(key);
                d.kv_quota = Some(quota);
                true
            }
            None => false,
        }
    }

    fn delete_kv(&mut self, key: &[u8]) -> Done<bool> {
        let p = self.engine.delete_kv(key)?;
        self.log(p);
        Ok(self.apply_delete(key))
    }

    fn with_index<T>(
        &mut self,
        f: impl FnOnce(&mut VectorIndex, &mut Disk) -> Done<T>,
    ) -> Done<T> {
        let mut idx = self.engine.take_vector_index()?;
        let r = f(&mut idx, &mut self.disk);
        self.engine.create_vector_index(idx);
        r
    }

    fn apply_insert(&mut self, id: u64, vector: &[u32]) -> Done<()> {
        self.with_index(|idx, d| {
            let plan = idx.insert(id, vector, &not_held)?;
            let bytes: Vec<u8> = vector.iter().flat_map(|x| x.to_le_bytes()).collect();
            write(&mut d.vec_segs, &plan, &bytes);
            d.locators.insert(id, plan.locator);
            let metric = idx.schema().metric;
            let v: Vec<f32> = vector.iter().map(|b| f32::from_bits(*b)).collect();
            let (segs, table) = (&d.vec_segs, &d.locators);
            idx.link(id, &|n: u64| distance(metric, &v, &floats(segs, &table[&n])).to_bits())
        })
    }

    fn insert_vector(&mut self, id: u64, v: &[f32]) -> Done<()> {
        let p = self.engine.insert_vector(id, &bits(v))?;
        self.log(p);
        self.apply_insert(id, &bits(v))
    }

    fn insert_vector_batch(&mut self, items: &[(u64, &[f32])]) -> Done<()> {
        let items: Vec<(u64, Vec<u32>)> = items.iter().map(|(id, v)| (*id, bits(v))).collect();
        let p = self.engine.insert_vector_batch(&items)?;
        self.log(p);
        self.with_index(|idx, d| {
            let plans = idx.insert_batch(&items, &not_held)?;
            for (plan, (id, v)) in plans.iter().zip(&items) {
                let bytes: Vec<u8> = v.iter().flat_map(|x| x.to_le_bytes()).collect();
                write(&mut d.vec_segs, plan, &bytes);
                d.locators.insert(*id, plan.locator);
            }
            let metric = idx.schema().metric;
            let (segs, table) = (&d.vec_segs, &d.locators);
            for (id, v) in &items {
                let v: Vec<f32> = v.iter().map(|b| f32::from_bits(*b)).collect();
                idx.link(*id, &|n: u64| {
                    distance(metric, &v, &floats(segs, &table[&n])).to_bits()
                })?;
            }
            Ok(())
        })
    }

    fn search_knn(&self, q: &[f32], top_k: usize) -> Done<Vec<(u64, f32)>> {
        let idx = self.engine.vec_index()?;
        let metric = idx.schema().metric;
        let found = idx.search_knn(
            &bits(q),
            top_k,
            &|n: u64| {
                distance(metric, q, &floats(&self.disk.vec_segs, &self.disk.locators[&n])).to_bits()
            },
            &|| false,
            &|| false,
        )?;
        Ok(found.into_iter().map(|(id, d)| (id, f32::from_bits(d))).collect())
    }

    fn apply_delete_vector(&mut self, id: u64) -> Done<bool> {
        self.with_index(|idx, _| Ok(idx.delete(id)))
    }

    fn delete_vector(&mut self, id: u64) -> Done<bool> {
        let p = self.engine.delete_vector(id)?;
        self.log(p);
        self.apply_delete_vector(id)
    }

    fn get_vector(&self, id: u64) -> Done<Option<Vec<f32>>> {
        let loc = self.engine.vec_index()?.get_vector(id)?;
        Ok(loc.map(|l| floats(&self.disk.vec_segs, &l)))
    }

    fn ids(&self) -> Vec<u64> {
        self.engine.vec_index().unwrap().list_vector_ids()
    }

    fn len(&self) -> usize {
        self.engine.vec_index().unwrap().len()
    }

    fn open_columnar(&mut self) {
        let pool = SegmentPool::open(None, &Vec::new(), 0).unwrap();
        self.engine.open_columnar(ColumnarStore::open(pool, self.engine.quota_limit()));
    }

    fn apply_columnar(&mut self, table: &str, batch: &ArrowBatch, replayed: bool) -> Done<()> {
        let mut col = self.engine.take_columnar()?;
        let d = &mut self.disk;
        let earlier = d.tables.get(table).cloned();
        assert!(col.accepts(batch));
        let r = if replayed {
            col.replay_columnar(batch, &earlier, d.col_quota.as_deref(), &not_held)
        } else {
            col.put_columnar(batch, &earlier, d.col_quota.as_deref(), &not_held)
        };
        self.engine.open_columnar(col);
        let plan = r?;
        for (append, data) in plan.appends.iter().zip(&plan.data) {
            write(&mut d.col_segs, append, data);
        }
        d.tables.insert(table.to_string(), plan.meta);
        d.col_quota = Some(plan.quota);
        Ok(())
    }

    fn put_columnar(&mut self, table: &str, batch: &ArrowBatch) -> Done<()> {
        if self.engine.columnar().is_err() {
            self.open_columnar();
        }
        let earlier = self.disk.tables.get(table).cloned();
        let p =
            self.engine.put_columnar(table, batch, &earlier, self.disk.col_quota.as_deref())?;
        self.log(p);
        self.apply_columnar(table, batch, false)
    }

    fn run(&mut self, mut c: Checkpoint) -> Done<()> {
        while let Some(action) = c.action() {
            match action {
                CheckpointAction::FlushKv => {
                    self.disk.kv_cursor = Some(self.engine.kv().pool().flush());
                }
                CheckpointAction::FlushColumnar => {
                    let _ = self.engine.columnar()?.flush();
                }
                CheckpointAction::SnapshotVectors => {
                    let idx = self.engine.vec_index()?;
                    assert!(idx.can_checkpoint());
                    self.disk.snapshot = Some(idx.checkpoint());
                }
                CheckpointAction::WriteMarker => self.disk.marker = Some(c.marker()),
                CheckpointAction::TruncateLog => {
                    if let Some(kept) = finalize_recover(&self.disk.log, c.applied())? {
                        self.disk.log = kept;
                    }
                }
            }
            c.succeeded();
        }
        Ok(())
    }

    fn checkpoint(&mut self) -> Done<()> {
        let c = self.engine.checkpoint();
        self.run(c)
    }

    /// Compacts the index, up to where a crash may come: before the checkpoint that follows, or
    /// after it.
    fn compact(&mut self, to_the_end: bool) -> Done<usize> {
        let live = self.with_index(|idx, d| {
            let plan = idx.compact(None, 0, &not_held)?;
            let mut moved: BTreeMap<u64, ValueLocator> = BTreeMap::new();
            for m in &plan.moves {
                let bytes = read(&d.vec_segs, &m.from);
                write(&mut d.vec_segs, &m.append, &bytes);
                moved.insert(m.id, m.append.locator);
            }
            d.vec_segs.entry(idx.pool().active_seg_id()).or_default();
            d.locators = moved;
            let metric = idx.schema().metric;
            let (segs, table) = (&d.vec_segs, &d.locators);
            let done = run_compact(idx, &plan, &|a: u64, b: u64| {
                distance(metric, &floats(segs, &table[&a]), &floats(segs, &table[&b])).to_bits()
            })?;
            d.snapshot = Some(done.snapshot);
            Ok(done.live_vectors)
        })?;
        if to_the_end {
            let c = self.engine.after_compaction();
            self.run(c)?;
        }
        Ok(live)
    }

    fn close(mut self) -> Disk {
        let c = self.engine.close();
        self.run(c).unwrap();
        self.disk
    }

    fn pending(&self) -> RecoverPlan {
        Engine::pending_recover_plan(&self.disk.log, &self.disk.marker).unwrap()
    }
}

#[test]
fn crash_without_checkpoint_recovers_all_writes() {
    let dim = 4usize;
    let mut s = Store::create(dim);
    for i in 0..5u64 {
        let k = format!("k{}", i);
        let v = format!("val{}", i);
        s.put_kv(k.as_bytes(), v.as_bytes()).unwrap();
        let mut vec = vec![0.0f32; dim];
        vec[0] = i as f32;
        s.insert_vector(100 + i, &vec).unwrap();
    }
    let s = s.crash();
    for i in 0..5u64 {
        let k = format!("k{}", i);
        let got = s.get_kv(k.as_bytes()).unwrap();
        assert_eq!(got, Some(format!("val{}", i).into_bytes()), "kv k{} recovered", i);
    }
    assert_eq!(s.len(), 5, "5 vectors recovered");
    let hits = s.search_knn(&[3.0, 0.0, 0.0, 0.0], 1).unwrap();
    assert_eq!(hits[0].0, 103, "nearest id=103 recovered");
}

#[test]
fn a_crash_before_the_stores_are_reached_loses_nothing() {
    // everything is in the log, and nothing of it anywhere else
    let mut s = Store::create(2);
    for i in 0..4u64 {
        s.put_kv(&[i as u8 + 1], &[i as u8; 9]).unwrap();
        s.insert_vector(i, &[i as f32, 0.0]).unwrap();
    }
    s.delete_vector(1).unwrap();
    s.delete_kv(&[1]).unwrap();
    let disk = Disk { log: s.disk.log.clone(), schema: s.disk.schema, ..Disk::default() };
    let s = Store::open(disk, None, 0).unwrap();
    assert_eq!(s.get_kv(&[1]).unwrap(), None);
    for i in 1..4u8 {
        assert_eq!(s.get_kv(&[i + 1]).unwrap(), Some(vec![i; 9]));
    }
    let mut ids = s.ids();
    ids.sort();
    assert_eq!(ids, vec![0, 2, 3]);
}

#[test]
fn repeated_reopen_is_idempotent() {
    let mut s = Store::create(2);
    for i in 0..3u64 {
        s.insert_vector(i, &[i as f32, 0.0]).unwrap();
    }
    for round in 0..3 {
        s = s.crash();
        assert_eq!(s.len(), 3, "round {}: 3 vectors, no accumulation", round);
    }
    assert!(s.pending().entries.is_empty(), "WAL truncated, no pending replay");
}

#[test]
fn crash_after_checkpoint_replays_only_tail() {
    let mut s = Store::create(2);
    for i in 0..4u64 {
        s.insert_vector(i, &[i as f32, 0.0]).unwrap();
    }
    s.checkpoint().unwrap();
    s.insert_vector(4, &[4.0, 0.0]).unwrap();
    s.put_kv(b"tail_k", b"tail_v").unwrap();
    assert_eq!(s.pending().entries.len(), 2);
    let s = s.crash();
    assert!(s.pending().entries.is_empty(), "tail replayed + truncated on open, no pending");
    assert_eq!(s.len(), 5, "4 checkpointed + 1 tail vector recovered");
    assert_eq!(s.get_kv(b"tail_k").unwrap().unwrap(), b"tail_v", "tail kv recovered");
}

#[test]
fn delete_ops_replayed_on_recover() {
    let mut s = Store::create(2);
    s.put_kv(b"del_k", b"del_v").unwrap();
    s.insert_vector(7, &[7.0, 0.0]).unwrap();
    s.delete_kv(b"del_k").unwrap();
    s.delete_vector(7).unwrap();
    s.put_kv(b"keep_k", b"keep_v").unwrap();
    s.insert_vector(8, &[8.0, 0.0]).unwrap();
    let s = s.crash();
    assert!(s.get_kv(b"del_k").unwrap().is_none(), "deleted kv key gone after recover");
    assert_eq!(s.get_kv(b"keep_k").unwrap().unwrap(), b"keep_v", "kept kv survived");
    assert_eq!(s.len(), 1, "1 vector kept (id=8), deleted id=7 gone");
    let hits = s.search_knn(&[8.0, 0.0], 1).unwrap();
    assert_eq!(hits[0].0, 8, "kept vector id=8 recovered");
}

#[test]
fn what_was_replayed_survives_the_next_crash() {
    let mut s = Store::create(2);
    for i in 0..3u64 {
        s.insert_vector(i, &[i as f32, 0.0]).unwrap();
    }
    s.checkpoint().unwrap();
    s.delete_vector(1).unwrap();
    let s = s.crash().crash();
    assert_eq!(s.len(), 2, "the deletion was cut from the log only once it was on disk");
    assert!(s.get_vector(1).unwrap().is_none());
}

#[test]
fn recover_truncates_wal_no_replay_after() {
    let mut s = Store::create(2);
    for i in 0..3u64 {
        s.insert_vector(i, &[i as f32, 0.0]).unwrap();
    }
    assert_eq!(s.pending().entries.len(), 3, "3 entries pending before reopen");
    let s = s.crash();
    assert!(s.pending().entries.is_empty(), "WAL truncated after recover, no pending replay");
}

#[test]
fn crash_resume_seq_continues_monotonic() {
    let mut s = Store::create(2);
    for i in 0..100u64 {
        s.put_kv(&[i as u8], b"v").unwrap();
    }
    let recovered = s.crash();
    let mut s = recovered;
    // the numbering goes on although the log has been cut
    let next = s.engine.wal_next_seq();
    assert_eq!(next, 101);
    s.put_kv(b"new", b"v").unwrap();
    let plan = s.pending();
    assert_eq!(plan.entries.len(), 1, "only the new write seq=101 pending");
    assert_eq!(plan.entries[0].seq, 101, "new write seq continues from max+1");
}

#[test]
fn numbers_are_never_used_twice() {
    let mut s = Store::create(2);
    s.put_kv(b"a", b"1").unwrap();
    s.checkpoint().unwrap();
    assert!(s.disk.log.is_empty());
    let mut s = s.crash();
    s.put_kv(b"a", b"2").unwrap();
    assert_eq!(s.pending().entries.len(), 1, "a write behind the checkpoint is replayed");
    let s = s.crash();
    assert_eq!(s.get_kv(b"a").unwrap().unwrap(), b"2");
}

#[test]
fn invalid_keys_do_not_reach_the_log() {
    let mut s = Store::kv_only(0);
    assert_eq!(s.put_kv(b"", b"v"), Err(StoreError::InvalidKey(0)));
    assert_eq!(s.put_kv(&[b'k'; 512], b"v"), Err(StoreError::InvalidKey(512)));
    assert!(s.disk.log.is_empty());
    s.put_kv(&[b'k'; 511], b"v").unwrap();
    assert!(s.crash().get_kv(&[b'k'; 511]).unwrap().is_some());
}

#[test]
fn without_an_index_vectors_are_not_found() {
    let mut s = Store::kv_only(0);
    assert_eq!(s.insert_vector(1, &[0.0]), Err(StoreError::NotFound));
    assert_eq!(s.search_knn(&[0.0], 1), Err(StoreError::NotFound));
    assert_eq!(s.engine.open_vector_index().err(), Some(StoreError::NotFound));
    assert!(s.engine.columnar().is_err());
}

fn table() -> ArrowBatch {
    let schema = Arc::new(Schema::new(vec![Field::new("id", DataType::Int32, false)]));
    let column = Arc::new(Int32Array::from(vec![1, 2, 3]));
    ArrowBatch { inner: RecordBatch::try_new(schema, vec![column]).unwrap() }
}

#[test]
fn tables_are_replayed_too() {
    let mut s = Store::kv_only(0);
    s.put_columnar("t", &table()).unwrap();
    let disk = Disk { log: s.disk.log.clone(), ..Disk::default() };
    let s = Store::open(disk, None, 0).unwrap();
    let meta = &s.disk.tables["t"];
    assert_eq!(meta.row_count, 3);
    let c = &meta.columns[0];
    let loc = ValueLocator { seg_id: c.seg_id, offset: c.offset, len: c.len };
    assert_eq!(read(&s.disk.col_segs, &loc), vec![1, 0, 0, 0, 2, 0, 0, 0, 3, 0, 0, 0]);
}

#[test]
fn replaying_ends_at_an_error_it_cannot_pass() {
    let entries = vec![fusion_store::mem::wal::WalEntry {
        seq: 1,
        op: WalOp::InsertVector { id: 1, vector: vec![0] },
    }];
    let mut r = Recovery::begin(RecoverPlan { entries, applied_seq: 0 });
    let fault = StoreError::DimensionMismatch { expected: 4, got: 1 };
    assert_eq!(r.settle(Err(fault.clone())), Err(fault));
    assert!(r.current().is_some(), "the entry is still to be replayed");
}

#[test]
fn refused_puts_do_not_reach_the_log() {
    let mut s = Store::kv_only(4);
    s.put_kv(b"a", b"1234").unwrap();
    let before = s.disk.log.clone();
    assert_eq!(s.put_kv(b"b", b"5"), Err(StoreError::QuotaExceeded));
    assert_eq!(s.delete_kv(b""), Err(StoreError::InvalidKey(0)));
    assert_eq!(s.disk.log, before);
    assert_eq!(s.delete_kv(&[b'k'; 600]), Ok(false), "a key that cannot be there is not");
    let s = Store::open(s.disk, None, 4).unwrap();
    assert_eq!(s.get_kv(b"a").unwrap().unwrap(), b"1234");
    assert!(s.get_kv(b"b").unwrap().is_none());
}

#[test]
fn replaying_passes_the_limit_on_the_way() {
    let mut s = Store::kv_only(4);
    s.put_kv(b"a", b"1234").unwrap();
    assert!(s.delete_kv(b"a").unwrap());
    s.put_kv(b"b", b"5678").unwrap();
    let s = Store::open(s.disk, None, 4).unwrap();
    assert!(s.get_kv(b"a").unwrap().is_none());
    assert_eq!(s.get_kv(b"b").unwrap().unwrap(), b"5678");
    assert_eq!(KvStore::used_bytes(s.disk.kv_quota.as_deref()), 4);
}

#[test]
fn refused_vectors_do_not_reach_the_log() {
    let mut s = Store::create(4);
    let mismatch = StoreError::DimensionMismatch { expected: 4, got: 2 };
    assert_eq!(s.insert_vector(1, &[0.0, 0.0]), Err(mismatch.clone()));
    assert_eq!(s.insert_vector_batch(&[(2, &[0.0; 4]), (3, &[0.0; 2])]), Err(mismatch));
    assert_eq!(
        s.insert_vector_batch(&[(2, &[0.0; 4]), (2, &[1.0; 4])]),
        Err(StoreError::DuplicateVector(2))
    );
    assert!(s.disk.log.is_empty());
    let mut s = s.crash();
    assert!(s.ids().is_empty());
    s.insert_vector(1, &[0.0; 4]).unwrap();
    assert_eq!(s.insert_vector(1, &[1.0; 4]), Err(StoreError::DuplicateVector(1)));
    let s = s.crash();
    assert_eq!(s.get_vector(1).unwrap().unwrap(), vec![0.0; 4]);
}

#[test]
fn prop_dim_mismatch_rejected() {
    for dim in 1..=64usize {
        for got in (1..=64).filter(|got| *got != dim) {
            let mut s = Store::create(dim);
            assert_eq!(
                s.insert_vector(1, &vec![0.0; got]),
                Err(StoreError::DimensionMismatch { expected: dim, got })
            );
            assert!(s.ids().is_empty());
            assert!(s.crash().ids().is_empty(), "the store opens again, and is empty");
        }
    }
}

#[test]
fn prop_insert_search_roundtrip_arbitrary_dim() {
    for dim in 1..=64usize {
        let mut s = Store::create(dim);
        let v = vec![0.5f32; dim];
        s.insert_vector(7, &v).unwrap();
        let hits = s.search_knn(&v, 1).unwrap();
        assert_eq!(hits.len(), 1);
        assert_eq!(hits[0].0, 7);
    }
}

#[test]
fn prop_kv_boundary_value_roundtrip() {
    let mut s = Store::kv_only(0);
    for len in 1..=256usize {
        let key: Vec<u8> = (0..len).map(|i| (i * 7 + len) as u8).collect();
        let value: Vec<u8> = (0..(len * 37) % 1024).map(|i| (i * len) as u8).collect();
        s.put_kv(&key, &value).unwrap();
        assert_eq!(s.get_kv(&key).unwrap().unwrap(), value);
    }
}

#[test]
fn prop_kv_invalid_key_rejected() {
    let mut s = Store::kv_only(0);
    for len in 0..=1200usize {
        let res = s.put_kv(&vec![b'k'; len], b"v");
        if len == 0 || len > 511 {
            assert_eq!(res, Err(StoreError::InvalidKey(len)));
        } else {
            assert!(res.is_ok());
        }
    }
}

#[test]
fn prop_knn_top_k_bounds() {
    for n in 1..=20usize {
        let mut s = Store::create(4);
        for i in 0..n as u64 {
            s.insert_vector(i, &[i as f32, 0.0, 0.0, 0.0]).unwrap();
        }
        for top_k in 0..=40usize {
            assert_eq!(s.search_knn(&[0.0; 4], top_k).unwrap().len(), top_k.min(n));
        }
    }
}

#[test]
fn refused_tables_do_not_reach_the_log() {
    let mut s = Store::kv_only(8);
    assert_eq!(s.put_columnar("t", &table()), Err(StoreError::QuotaExceeded));
    let schema = Arc::new(Schema::new(vec![Field::new("n", DataType::Int32, true)]));
    let column = Arc::new(Int32Array::from(vec![Some(1), None]));
    let nulls = ArrowBatch { inner: RecordBatch::try_new(schema, vec![column]).unwrap() };
    assert_eq!(
        s.put_columnar("t", &nulls),
        Err(StoreError::Corrupt(Corruption::ColumnHasNulls("n".to_string())))
    );
    assert!(s.disk.log.is_empty());
    assert!(Store::open(s.disk, None, 8).unwrap().disk.tables.is_empty());
}

#[test]
fn recovering_twice_revives_nothing() {
    let mut s = Store::create(2);
    s.insert_vector(7, &[7.0, 0.0]).unwrap();
    assert!(s.delete_vector(7).unwrap());
    s.insert_vector(8, &[8.0, 0.0]).unwrap();
    let s = s.crash().crash();
    assert_eq!(s.ids(), vec![8]);
    assert!(s.get_vector(7).unwrap().is_none());
    assert!(s.pending().entries.is_empty());
}

#[test]
fn checkpointed_deletions_survive_a_stale_graph() {
    let mut s = Store::create(2);
    s.insert_vector(7, &[7.0, 0.0]).unwrap();
    s.insert_vector(8, &[8.0, 0.0]).unwrap();
    s.delete_vector(7).unwrap();
    s.checkpoint().unwrap();
    s.insert_vector(9, &[9.0, 0.0]).unwrap();
    let s = s.crash();
    assert_eq!(s.ids(), vec![8, 9]);
    assert!(s.get_vector(7).unwrap().is_none());
}

#[test]
fn a_crash_after_a_compaction_loses_nothing() {
    let mut s = Store::create(2);
    for id in 0..4 {
        s.insert_vector(id, &[id as f32, 0.0]).unwrap();
    }
    s.checkpoint().unwrap();
    s.delete_vector(1).unwrap();
    assert_eq!(s.compact(true), Ok(3));
    assert!(s.disk.log.is_empty());
    s.insert_vector(1, &[9.0, 9.0]).unwrap();
    s.insert_vector(7, &[7.0, 0.0]).unwrap();
    let s = s.crash();
    assert_eq!(s.len(), 5);
    assert_eq!(s.get_vector(1).unwrap().unwrap(), vec![9.0, 9.0]);
    assert_eq!(s.search_knn(&[9.0, 9.0], 1).unwrap()[0].0, 1);
    assert_eq!(s.search_knn(&[7.0, 0.0], 5).unwrap().len(), 5);
    assert_eq!(s.crash().len(), 5);
}

#[test]
fn a_crash_before_the_log_is_cut_revives_nothing() {
    let mut s = Store::create(2);
    for id in 0..4 {
        s.insert_vector(id, &[id as f32, 0.0]).unwrap();
    }
    s.delete_vector(1).unwrap();
    assert_eq!(s.compact(false), Ok(3));
    let s = s.crash();
    assert_eq!(s.len(), 3);
    assert!(s.get_vector(1).unwrap().is_none());
    assert_eq!(s.search_knn(&[1.0, 0.0], 9).unwrap().len(), 3);
}

#[test]
fn the_schema_of_an_index_stays() {
    let s = Store::create(2);
    let other = VectorSchema::new(5, MetricKind::Dot);
    let s = Store::open(s.disk, Some(other), 0).unwrap();
    assert_eq!(s.engine.open_vector_index().unwrap(), VectorSchema::new(2, MetricKind::L2));
    assert_eq!(schema_in_force(None, Some(other)), Some(other));
    assert_eq!(schema_in_force(None, None), None);
}

#[test]
fn vectors_that_are_there_count_as_replayed() {
    let op = WalOp::InsertVector { id: 1, vector: vec![0] };
    let entries = vec![
        fusion_store::mem::wal::WalEntry { seq: 5, op: op.clone() },
        fusion_store::mem::wal::WalEntry { seq: 6, op: WalOp::DeleteVector { id: 1 } },
    ];
    let mut r = Recovery::begin(RecoverPlan { entries, applied_seq: 4 });
    assert_eq!(r.current().unwrap().op, op);
    assert_eq!(r.settle(Err(StoreError::DuplicateVector(1))), Ok(()));
    assert_eq!(
        r.settle(Err(StoreError::DuplicateVector(1))),
        Err(StoreError::DuplicateVector(1)),
        "only for an insertion"
    );
    assert_eq!(r.settle(Ok(())), Ok(()));
    assert_eq!(r.finish(), Some(6));
    assert_eq!(Recovery::begin(RecoverPlan { entries: Vec::new(), applied_seq: 4 }).finish(), None);
}

#[test]
fn checkpoints_go_in_order() {
    let s = Store::create(2);
    let mut c = s.engine.checkpoint();
    let mut actions = Vec::new();
    while let Some(a) = c.action() {
        actions.push(a);
        c.succeeded();
    }
    assert_eq!(
        actions,
        vec![
            CheckpointAction::FlushKv,
            CheckpointAction::SnapshotVectors,
            CheckpointAction::WriteMarker,
            CheckpointAction::TruncateLog,
        ]
    );
    let mut c = Checkpoint::begin(8, true, true);
    assert_eq!(c.marker().applied_seq, 7);
    assert_eq!(c.marker().graph_snapshot.as_deref(), Some("nsw_checkpoint_7.mmap"));
    let mut n = 0;
    while c.action().is_some() {
        c.succeeded();
        n += 1;
    }
    assert_eq!(n, 5);
    let c = Checkpoint::after_replay(3, false, false);
    assert_eq!((c.applied(), c.action()), (3, Some(CheckpointAction::FlushKv)));
}

#[test]
fn what_a_store_takes_on_disk() {
    let s = Store::create(2);
    assert_eq!(s.engine.disk_bytes(5, 7, 11), 12, "the columnar store is not open");
    assert_eq!(s.engine.disk_bytes(u64::MAX, 7, 0), u64::MAX);
    assert_eq!(Store::kv_only(0).engine.disk_bytes(5, 7, 11), 5);
}

// ---- several engines as one ----

const DIM: usize = 64;

struct Sharded {
    router: ShardedEngine<HashRouter>,
    shards: Vec<Store>,
}

impl Sharded {
    fn open(n: usize, schema: Option<VectorSchema>) -> Sharded {
        Sharded::reopen(vec![Disk::default(); n], schema)
    }

    fn reopen(disks: Vec<Disk>, schema: Option<VectorSchema>) -> Sharded {
        let router = ShardedEngine::open(disks.len()).unwrap();
        let shards = disks.into_iter().map(|d| Store::open(d, schema, 0).unwrap()).collect();
        Sharded { router, shards }
    }

    fn vector(&mut self, id: u64) -> &mut Store {
        &mut self.shards[self.router.shard_for_vector(id)]
    }

    fn key(&mut self, key: &[u8]) -> &mut Store {
        &mut self.shards[self.router.shard_for_key(key)]
    }

    fn insert_batch(&mut self, items: &[(u64, &[f32])]) -> Done<()> {
        let ids: Vec<u64> = items.iter().map(|(id, _)| *id).collect();
        for (i, bucket) in self.router.split_batch(&ids).iter().enumerate() {
            if bucket.is_empty() {
                continue;
            }
            let part: Vec<(u64, &[f32])> = bucket.iter().map(|at| items[*at]).collect();
            self.shards[i].insert_vector_batch(&part)?;
        }
        Ok(())
    }

    fn try_search(&self, q: &[f32], top_k: usize) -> Done<Vec<(u64, f32)>> {
        let parts: Vec<Done<Vec<(u64, u32)>>> = self
            .shards
            .iter()
            .map(|s| {
                s.search_knn(q, top_k)
                    .map(|f| f.into_iter().map(|(id, d)| (id, d.to_bits())).collect())
            })
            .collect();
        assert!(can_merge(&parts));
        let found = merge_knn(&parts, top_k)?;
        Ok(found.into_iter().map(|(id, d)| (id, f32::from_bits(d))).collect())
    }

    fn search_knn(&self, q: &[f32], top_k: usize) -> Vec<(u64, f32)> {
        self.try_search(q, top_k).unwrap()
    }

    fn vector_count(&self) -> u64 {
        let parts: Vec<Option<u64>> =
            self.shards.iter().map(|s| s.engine.vec_index().ok().map(|i| i.len() as u64)).collect();
        vector_count(&parts)
    }

    fn list_vector_ids(&self) -> Vec<u64> {
        list_vector_ids(&self.shards.iter().map(|s| s.ids()).collect())
    }

    fn each(&mut self, f: impl Fn(&mut Store) -> Done<()>) -> Done<()> {
        let mut walk = ShardWalk::begin(self.shards.len());
        while let Some(i) = walk.current() {
            let outcome = f(&mut self.shards[i]);
            walk.settle(outcome)?;
        }
        Ok(())
    }
}

fn gen_vectors(n: usize, dim: usize, seed: u64) -> Vec<Vec<f32>> {
    let mut v = Vec::with_capacity(n);
    let mut s = seed;
    for i in 0..n {
        let mut row = Vec::with_capacity(dim);
        for j in 0..dim {
            s ^= s << 13;
            s ^= s >> 7;
            s ^= s << 17;
            let f = ((s % 1000) as f32) / 100.0 + (i as f32 * 0.001) + (j as f32 * 0.0001);
            row.push(f);
        }
        v.push(row);
    }
    v
}

fn cosine() -> Option<VectorSchema> {
    Some(VectorSchema::new(DIM, MetricKind::Cosine))
}

#[test]
fn sharded_searches_of_a_wrong_dimension_are_refused() {
    let s = Sharded::open(2, Some(VectorSchema::new(4, MetricKind::L2)));
    assert_eq!(
        s.try_search(&[0.0, 0.0], 1),
        Err(StoreError::DimensionMismatch { expected: 4, got: 2 })
    );
    let s = Sharded::open(2, None);
    assert_eq!(s.try_search(&[0.0, 0.0], 1), Ok(vec![]), "shards without an index are left out");
}

#[test]
fn sharded_open_creates_k_shard_dirs() {
    let eng = Sharded::open(3, cosine());
    assert_eq!(eng.router.num_shards(), 3);
    for i in 0..3 {
        assert_eq!(ShardedEngine::<HashRouter>::shard_dir(i), format!("shard_{}", i));
    }
    assert_eq!(ShardedEngine::<HashRouter>::shard_dir(1234), "shard_1234");
}

#[test]
fn sharded_insert_routes_by_id_mod() {
    let mut eng = Sharded::open(4, cosine());
    let router = HashRouter;
    let vecs = gen_vectors(40, DIM, 42);
    for (id, v) in vecs.iter().enumerate() {
        eng.vector(id as u64).insert_vector(id as u64, v).unwrap();
    }
    for (id, v) in vecs.iter().enumerate() {
        let expect_shard = router.shard_for_vector(id as u64, 4);
        assert!(expect_shard < 4);
        assert_eq!(expect_shard, id % 4);
        let got = eng.shards[expect_shard].get_vector(id as u64).unwrap();
        assert_eq!(got, Some(v.clone()), "id {} roundtrip mismatch", id);
    }
    assert_eq!(eng.vector_count(), 40);
}

#[test]
fn sharded_kv_routes_and_roundtrips() {
    let mut eng = Sharded::open(4, None);
    for i in 0..20u64 {
        let key = format!("key_{}", i);
        let val = format!("val_{}", i);
        eng.key(key.as_bytes()).put_kv(key.as_bytes(), val.as_bytes()).unwrap();
    }
    for i in 0..20u64 {
        let key = format!("key_{}", i);
        let got = eng.key(key.as_bytes()).get_kv(key.as_bytes()).unwrap();
        assert_eq!(got, Some(format!("val_{}", i).into_bytes()), "key {} missing", key);
    }
    for i in 0..10u64 {
        let key = format!("key_{}", i);
        let deleted = eng.key(key.as_bytes()).delete_kv(key.as_bytes()).unwrap();
        assert!(deleted, "delete key {} should return true", key);
    }
    for i in 0..20u64 {
        let key = format!("key_{}", i);
        let got = eng.key(key.as_bytes()).get_kv(key.as_bytes()).unwrap();
        assert_eq!(got.is_some(), i >= 10, "key {}", key);
    }
}

#[test]
fn sharded_fanout_knn_recall_vs_bruteforce() {
    let mut eng = Sharded::open(4, cosine());
    let vecs = gen_vectors(1000, DIM, 7);
    for (id, v) in vecs.iter().enumerate() {
        eng.vector(id as u64).insert_vector(id as u64, v).unwrap();
    }
    let query = gen_vectors(1, DIM, 99)[0].clone();
    let top_k = 10;
    let got = eng.search_knn(&query, top_k);
    assert_eq!(got.len(), top_k, "fan-out should return top_k");
    let mut truth: Vec<(u64, f32)> = vecs
        .iter()
        .enumerate()
        .map(|(i, v)| (i as u64, distance(MetricKind::Cosine, &query, v)))
        .collect();
    truth.sort_by(|a, b| a.1.total_cmp(&b.1));
    truth.truncate(top_k);
    let overlap = got.iter().filter(|(id, _)| truth.iter().any(|(t, _)| t == id)).count();
    assert!(overlap as f64 / top_k as f64 >= 0.9, "fan-out recall {} too low", overlap);
}

#[test]
fn sharded_insert_batch_splits_across_shards() {
    let mut eng = Sharded::open(4, cosine());
    let vecs = gen_vectors(100, DIM, 5);
    let items: Vec<(u64, &[f32])> =
        vecs.iter().enumerate().map(|(i, v)| (i as u64, v.as_slice())).collect();
    eng.insert_batch(&items).unwrap();
    assert_eq!(eng.vector_count(), 100);
    for (id, v) in vecs.iter().enumerate() {
        assert_eq!(eng.vector(id as u64).get_vector(id as u64).unwrap(), Some(v.clone()));
    }
}

#[test]
fn sharded_delete_get_vector_routes() {
    let mut eng = Sharded::open(3, cosine());
    let vecs = gen_vectors(30, DIM, 3);
    for (id, v) in vecs.iter().enumerate() {
        eng.vector(id as u64).insert_vector(id as u64, v).unwrap();
    }
    for id in (0..30u64).step_by(2) {
        let deleted = eng.vector(id).delete_vector(id).unwrap();
        assert!(deleted, "delete id {} should return true", id);
    }
    for id in 0..30u64 {
        let got = eng.vector(id).get_vector(id).unwrap();
        if id % 2 == 0 {
            assert!(got.is_none(), "deleted id {} should be None", id);
        } else {
            assert!(got.is_some(), "alive id {} should be Some", id);
        }
    }
}

#[test]
fn sharded_list_vector_ids_merges_all_shards() {
    let mut eng = Sharded::open(3, cosine());
    let vecs = gen_vectors(60, DIM, 11);
    for (id, v) in vecs.iter().enumerate() {
        eng.vector(id as u64).insert_vector(id as u64, v).unwrap();
    }
    let mut ids = eng.list_vector_ids();
    ids.sort();
    let expect: Vec<u64> = (0..60).collect();
    assert_eq!(ids, expect, "list should merge all 60 ids across shards");
}

#[test]
fn sharded_checkpoint_close_reopen_persists() {
    let mut eng = Sharded::open(3, cosine());
    let vecs = gen_vectors(30, DIM, 8);
    for (id, v) in vecs.iter().enumerate() {
        eng.vector(id as u64).insert_vector(id as u64, v).unwrap();
    }
    eng.key(b"meta").put_kv(b"meta", b"persisted").unwrap();
    eng.each(|s| s.checkpoint()).unwrap();
    let disks: Vec<Disk> = eng.shards.into_iter().map(|s| s.close()).collect();
    let mut eng = Sharded::reopen(disks, None);
    assert_eq!(eng.vector_count(), 30, "vectors should persist after reopen");
    assert_eq!(eng.key(b"meta").get_kv(b"meta").unwrap().unwrap(), b"persisted");
    let query = gen_vectors(1, DIM, 8)[0].clone();
    assert!(!eng.search_knn(&query, 5).is_empty());
}

#[test]
fn sharded_vector_count_aggregates() {
    let mut eng = Sharded::open(4, cosine());
    assert_eq!(eng.vector_count(), 0);
    let vecs = gen_vectors(80, DIM, 2);
    for (id, v) in vecs.iter().enumerate() {
        eng.vector(id as u64).insert_vector(id as u64, v).unwrap();
    }
    assert_eq!(eng.vector_count(), 80);
    for id in 0..20u64 {
        eng.vector(id).delete_vector(id).unwrap();
    }
    assert_eq!(eng.vector_count(), 60);
}

#[test]
fn shards_are_needed() {
    let fault = StoreError::Corrupt(Corruption::NoShards);
    assert_eq!(ShardedEngine::open(0).err(), Some(fault.clone()));
    assert_eq!(fault.message(), "corrupt: num_shards must be >= 1");
}

#[test]
fn keys_are_routed_by_their_hash() {
    let router = HashRouter;
    // the 64-bit hash of "a" is af63dc4c8601ec8c
    assert_eq!(router.shard_for_key(b"a", 16), 0xc);
    assert_eq!(router.shard_for_key(b"a", 1000), (0xaf63_dc4c_8601_ec8cu64 % 1000) as usize);
    assert_eq!(router.shard_for_key(b"a", 0), 0);
    assert_eq!(router.shard_for_vector(u64::MAX, 10), 5);
}

/// A router that keeps everything in the last shard.
struct Last;

impl ShardRouter for Last {
    fn vector_shard(&self, id: u64, num_shards: usize) -> usize {
        self.shard_for_vector(id, num_shards)
    }

    fn key_shard(&self, key: &[u8], num_shards: usize) -> usize {
        self.shard_for_key(key, num_shards)
    }

    fn shard_for_vector(&self, _: u64, num_shards: usize) -> usize {
        num_shards.saturating_sub(1)
    }

    fn shard_for_key(&self, _: &[u8], num_shards: usize) -> usize {
        num_shards.saturating_sub(1)
    }
}

#[test]
fn routers_can_be_replaced() {
    let eng = ShardedEngine::open_with_router(3, Last).unwrap();
    assert_eq!(eng.shard_for_vector(0), 2);
    assert_eq!(eng.split_batch(&vec![7, 8]), vec![vec![], vec![], vec![0, 1]]);
}

#[test]
fn merging_keeps_the_nearest_and_their_order() {
    let b = |f: f32| f.to_bits();
    let parts: Vec<Done<Vec<(u64, u32)>>> = vec![
        Ok(vec![(1, b(0.5)), (2, b(2.0))]),
        Err(StoreError::Timeout),
        Ok(vec![(3, b(-0.0)), (4, b(0.5)), (5, b(9.0))]),
        Ok(vec![(6, b(0.0))]),
    ];
    assert_eq!(
        merge_knn(&parts, 5).unwrap(),
        vec![(3, b(-0.0)), (6, b(0.0)), (1, b(0.5)), (4, b(0.5)), (2, b(2.0))]
    );
    assert_eq!(merge_knn(&parts, 0), Ok(vec![]));
    assert!(!can_merge(&vec![Ok(vec![(1, f32::NAN.to_bits())])]));
}

#[test]
fn shards_are_added_up() {
    assert_eq!(disk_bytes(&vec![1, 2, 3]), 6);
    assert_eq!(vector_count(&vec![Some(4), None, Some(5)]), 9);
    let mut walk = ShardWalk::begin(2);
    assert_eq!(walk.settle(Err(StoreError::Timeout)), Err(StoreError::Timeout));
    assert_eq!(walk.current(), Some(0), "a walk ends at the first that fails");
    walk.settle(Ok(())).unwrap();
    walk.settle(Ok(())).unwrap();
    assert_eq!(walk.current(), None);
}

// ---- callers of another language ----

fn found<T>(r: &Done<Option<Vec<T>>>) -> Done<Option<usize>> {
    match r {
        Ok(v) => Ok(v.as_ref().map(|v| v.len())),
        Err(e) => Err(e.clone()),
    }
}

#[test]
fn create_insert_knn_end_to_end() {
    let dim = 4usize;
    let mut h = Store::create(dim);
    for i in 0..10u64 {
        let mut v = vec![0.0f32; dim];
        v[0] = i as f32;
        assert_eq!(done_code(&h.insert_vector(i, &v)), 0);
    }
    let res = h.search_knn(&[3.0, 0.0, 0.0, 0.0], 3);
    let out = copy_results(&res.as_ref().map(|r| r.len()).map_err(|e| e.clone()), 3);
    assert_eq!(out.code, 0);
    assert!(out.copied >= 1, "knn returned empty");
    let res = res.unwrap();
    assert_eq!(res[0].0, 3, "nearest should be id=3");
    assert_eq!(res[0].1, 0.0, "exact match dist=0");
}

#[test]
fn read_is_forced_copy_ids_dists_owned() {
    let mut h = Store::create(2);
    for i in 0..5u64 {
        h.insert_vector(i, &[i as f32, 0.0]).unwrap();
    }
    let res = h.search_knn(&[1.0, 0.0], 5).unwrap();
    drop(h);
    assert!(!res.is_empty());
    assert_eq!(res[0].0, 1, "owned buffer valid after close");
}

#[test]
fn put_kv_get_kv_forced_copy_roundtrip() {
    let mut h = Store::create(4);
    let key = b"the-key";
    let val = b"fusion-store-payload-bytes";
    assert_eq!(done_code(&h.put_kv(key, val)), 0);
    let got = h.get_kv(key);
    let out = copy_out(&found(&got), val.len() + 16);
    assert_eq!(out, CopyOut { code: 0, needed: Some(val.len()), copied: val.len() });
    assert_eq!(got.unwrap().unwrap(), val, "kv value forced-copy roundtrip");
}

#[test]
fn get_kv_missing_returns_not_found() {
    let h = Store::create(4);
    let out = copy_out(&found(&h.get_kv(b"nope")), 64);
    assert_eq!(out.code, -3, "missing key -> ERR_NOT_FOUND(-3), got {}", out.code);
    assert_eq!(out.needed, None);
}

#[test]
fn create_close_open_reopen_persisted() {
    let dim = 8usize;
    let mut h = Store::create(dim);
    h.insert_vector(42, &vec![5.0f32; dim]).unwrap();
    assert_eq!(done_code(&h.checkpoint()), 0);
    let h = Store::open(h.close(), None, 0).unwrap();
    assert_eq!(vector_dim(&h.engine), dim, "dim restored from persisted schema");
    let res = h.search_knn(&vec![5.0f32; dim], 1).unwrap();
    assert_eq!(res.len(), 1, "vector persisted across reopen");
    assert_eq!(res[0].0, 42, "id=42 recovered");
}

#[test]
fn delete_vector_then_get_and_list() {
    let dim = 4usize;
    let mut h = Store::create(dim);
    for i in 0..5u64 {
        let mut v = vec![0.0f32; dim];
        v[0] = i as f32;
        h.insert_vector(i, &v).unwrap();
    }
    let out = copy_out(&Ok(Some(h.ids().len())), 8);
    assert_eq!((out.code, out.copied), (0, 5), "5 live ids before delete");
    let out = copy_out(&found(&h.get_vector(2)), dim);
    assert_eq!((out.code, out.needed), (0, Some(dim)));
    assert_eq!(delete_code(&h.delete_vector(2)), 0, "delete_vector(2) ok");
    assert_eq!(delete_code(&h.delete_vector(2)), -3, "delete again -> ERR_NOT_FOUND");
    assert_eq!(delete_code(&h.delete_vector(99)), -3, "delete missing -> ERR_NOT_FOUND");
    assert_eq!(copy_out(&found(&h.get_vector(2)), dim).code, -3, "get deleted -> ERR_NOT_FOUND");
    let ids = h.ids();
    assert_eq!(ids.len(), 4, "4 live ids after delete");
    assert!(!ids.contains(&2), "deleted id excluded from list");
}

#[test]
fn list_vector_ids_capacity_probe() {
    let mut h = Store::create(2);
    for i in 0..7u64 {
        h.insert_vector(i, &[i as f32, 0.0]).unwrap();
    }
    let out = copy_out(&Ok(Some(h.ids().len())), 0);
    assert_eq!(out.code, -99, "cap=0 -> ERR_OTHER, got {}", out.code);
    assert_eq!(out.code, ERR_OTHER);
    assert_eq!(out.needed, Some(7), "need == 7");
    assert_eq!(out.copied, 0);
    let out = copy_out(&Ok(Some(h.ids().len())), 7);
    assert_eq!((out.code, out.copied), (0, 7));
}

#[test]
fn every_error_has_its_code() {
    let errors = vec![
        (StoreError::Io(String::new()), -1),
        (StoreError::Heed(String::new()), -2),
        (StoreError::NotFound, -3),
        (StoreError::DuplicateVector(1), -4),
        (StoreError::DimensionMismatch { expected: 1, got: 2 }, -5),
        (StoreError::QuotaExceeded, -6),
        (StoreError::Busy, -7),
        (StoreError::LockBusy, -8),
        (StoreError::Corrupt(Corruption::NoShards), -9),
        (StoreError::Timeout, -10),
        (StoreError::SegmentFull, -11),
        (StoreError::Arrow(String::new()), -12),
        (StoreError::SerdeJson(String::new()), -13),
        (StoreError::ValueTooLarge(1), -14),
        (StoreError::LockPoisoned, -15),
        (StoreError::MapFull { current: 1, limit: 2 }, -16),
        (StoreError::InvalidKey(0), -17),
    ];
    for (e, code) in errors {
        assert_eq!(err_code(&e), code);
        assert_eq!(done_code(&Err(e.clone())), code);
        assert_eq!(delete_code(&Err(e.clone())), code);
        assert_eq!(copy_out(&Err(e.clone()), 1).code, code);
        assert_eq!(copy_results(&Err(e), 1), CopyOut { code, needed: None, copied: 0 });
    }
    assert_eq!(copy_results(&Ok(9), 3).copied, 3);
    assert_eq!(vector_dim(&Store::kv_only(0).engine), 0);
}

#[test]
fn errors_say_what_failed() {
    assert_eq!(StoreError::Io("gone".to_string()).message(), "io error: gone");
    assert_eq!(StoreError::Heed("x".to_string()).message(), "heed error: x");
    assert_eq!(StoreError::SerdeJson("x".to_string()).message(), "serde json error: x");
    assert_eq!(StoreError::NotFound.message(), "key not found");
    assert_eq!(StoreError::DuplicateVector(12).message(), "vector id 12 already exists");
    assert_eq!(
        StoreError::DimensionMismatch { expected: 768, got: 4 }.message(),
        "dimension mismatch: expected 768, got 4"
    );
    assert_eq!(StoreError::QuotaExceeded.message(), "namespace quota exceeded");
    assert_eq!(StoreError::Busy.message(), "write backpressure: queue full");
    assert_eq!(StoreError::SegmentFull.message(), "mmap segment full");
    assert_eq!(
        StoreError::LockBusy.message(),
        "lock contention: writer held by another process"
    );
    assert_eq!(
        StoreError::MapFull { current: 5, limit: 4 }.message(),
        "heed map full: metadata exceeded map_size (5 bytes, limit 4)"
    );
    assert_eq!(StoreError::Timeout.message(), "operation timed out");
    assert_eq!(
        StoreError::ValueTooLarge(5_000_000_000).message(),
        "value too large: 5000000000 bytes exceeds u32 max"
    );
    assert_eq!(
        StoreError::LockPoisoned.message(),
        "lock poisoned: writer panicked while holding lock"
    );
    assert_eq!(
        StoreError::Corrupt(Corruption::SnapshotCrc { stored: 0xAB, computed: 0 }).message(),
        "corrupt: graph snapshot crc mismatch: stored 0xab != calc 0x0 (corrupt/half-written)"
    );
    assert_eq!(
        Corruption::DanglingEdge { node: 1, target: 2 }.message(),
        "dangling edge: node 1 -> 2 (target not in graph)"
    );
    assert_eq!(
        Corruption::CursorOverflow { cursor: 4_294_967_296 }.message(),
        "active cursor 4294967296 exceeds u32 max, segment overflow"
    );
    assert_eq!(
        Corruption::RewindTarget { target: 3, cursor: 2 }.message(),
        "rewind target 3 > active cursor 2"
    );
}

// ---- the lock, and what the daemon says of an engine ----

#[test]
fn locks_are_tried_once_or_waited_for() {
    let mut kv = LockWait::kv(None);
    assert_eq!(kv.how(), LockTry::Now);
    assert_eq!(kv.settle(true), Ok(LockStep::Taken));
    assert_eq!(kv.settle(false), Err(StoreError::LockBusy));
    assert_eq!(LockWait::columnar(None).how(), LockTry::Block);
    let mut wait = LockWait::kv(Some(120_000_000));
    assert_eq!(wait.how(), LockTry::Now);
    for _ in 0..3 {
        assert_eq!(wait.settle(false), Ok(LockStep::Sleep(50)));
    }
    assert_eq!(wait.settle(false), Err(StoreError::LockBusy), "150 ms are over 120");
    let mut short = LockWait::columnar(Some(1));
    assert_eq!(short.how(), LockTry::Now);
    assert_eq!(short.settle(false), Ok(LockStep::Sleep(5)));
    assert_eq!(short.settle(false), Err(StoreError::LockBusy));
    assert_eq!(LockWait::columnar(Some(0)).settle(false), Err(StoreError::LockBusy));
}

#[test]
fn stats_reports_kv_and_vector_state() {
    let mut s = Store::create(4);
    s.insert_vector(1, &[1.0, 0.0, 0.0, 0.0]).unwrap();
    let resp = stats(&s.engine, s.disk.kv_quota.as_deref(), 0, 128, 0).unwrap();
    assert_eq!(resp.vector_count, 1);
    assert_eq!(resp.vector_dim, 4);
    assert!(resp.graph_memory_bytes > 0, "graph_memory_bytes > 0 for 1-node graph");
    assert_eq!(resp.queue_depth, 0);
    assert!(resp.vec_disk_bytes > 0, "vec_disk_bytes > 0 (segment preallocated)");
    assert_eq!(resp.namespace, "default");
}

#[test]
fn kv_write_endpoint_roundtrips() {
    let mut s = Store::create(4);
    s.put_kv(b"k1", b"v1-fusion").unwrap();
    let resp = stats(&s.engine, s.disk.kv_quota.as_deref(), 64, 0, 3).unwrap();
    assert_eq!(resp.kv_used_bytes, 9);
    assert_eq!((resp.kv_quota, resp.kv_disk_bytes, resp.queue_depth), (0, 64, 3));
    let refused = stats(&Store::kv_only(0).engine, None, 0, 0, 0).unwrap_err();
    assert_eq!((refused.0, refused.1.as_str()), (500, "key not found"));
}

#[test]
fn health_returns_ok_when_idle() {
    let (code, resp) = health(0, false);
    assert_eq!(code, 200);
    assert_eq!(resp.status, "ok");
    assert!(resp.store_open);
    assert!(!resp.backpressure);
    assert!(!resp.compact_in_progress);
}

#[test]
fn health_reports_backpressure_when_depth_high() {
    let (code, resp) = health(BACKPRESSURE_THRESHOLD, false);
    assert_eq!(code, 200);
    assert_eq!(resp.status, "degraded");
    assert!(resp.backpressure);
    assert!(!health(BACKPRESSURE_THRESHOLD - 1, false).1.backpressure);
    assert_eq!(BACKPRESSURE_THRESHOLD, 8000);
}

#[test]
fn health_is_unavailable_during_a_compaction() {
    let (code, resp) = health(9000, true);
    assert_eq!((code, resp.status), (503, "unavailable"));
    assert!(resp.compact_in_progress && resp.backpressure);
}

#[test]
fn knn_endpoint_returns_hits() {
    let mut s = Store::create(4);
    for i in 0..5u64 {
        s.insert_vector(i, &[i as f32, 0.0, 0.0, 0.0]).unwrap();
    }
    let results = s.search_knn(&[3.0, 0.0, 0.0, 0.0], 2).unwrap();
    assert_eq!(results.len(), 2);
    assert_eq!(results[0].0, 3);
}

#[test]
fn vector_write_endpoint_roundtrips() {
    let mut s = Store::create(4);
    s.insert_vector(42, &[1.0, 2.0, 3.0, 4.0]).unwrap();
    let results = s.search_knn(&[1.0, 2.0, 3.0, 4.0], 1).unwrap();
    assert_eq!(results.len(), 1);
    assert_eq!(results[0].0, 42, "vector 42 retrievable via knn");
}

// ---- the commands ----

#[test]
fn init_put_get_roundtrips() {
    let mut s = Store::create(8);
    s.put_kv(b"k1", b"v1-fusion").unwrap();
    assert_eq!(put_line("k1", 9), "put ok: k1 (9B)");
    let s = Store::open(s.disk, None, 0).unwrap();
    assert_eq!(s.get_kv(b"k1").unwrap().unwrap(), b"v1-fusion", "get returns value");
}

#[test]
fn get_missing_exits_nonzero() {
    let s = Store::create(4);
    assert!(s.get_kv(b"nope").unwrap().is_none());
    assert_ne!(NOT_FOUND_EXIT, 0);
    assert_eq!(NOT_FOUND_EXIT, 2);
}

#[test]
fn stats_reports_namespace_state() {
    let mut s = Store::create(16);
    s.put_kv(b"k", b"val").unwrap();
    let resp = stats(&s.engine, s.disk.kv_quota.as_deref(), 7, 8, 0).unwrap();
    let out = stats_lines("ns3", &resp);
    assert!(out.contains("namespace: ns3"), "stats namespace: {out}");
    assert!(out.contains("kv_used_bytes:"), "stats kv_used: {out}");
    assert!(out.contains("vector_dim: 16"), "stats dim: {out}");
    assert_eq!(
        out,
        "namespace: ns3\nkv_used_bytes: 3\nkv_quota: 0\nkv_disk_bytes: 7\nvec_disk_bytes: 8\n\
         vector_count: 0\nvector_dim: 16\ngraph_memory_bytes: 0"
    );
}

#[test]
fn compact_runs_on_empty_namespace() {
    let res = CompactResult { live_vectors: 0, reclaimable_segs: vec![0], snapshot: Vec::new() };
    let out = compact_line(&res);
    assert!(out.contains("compact ok"), "compact output: {out}");
    assert!(out.contains("live_vectors=0"), "empty compact live 0: {out}");
    assert_eq!(out, "compact ok: live_vectors=0, reclaimable_segs=1");
}

#[test]
fn recover_dry_run_on_fresh_namespace() {
    let s = Store::create(4);
    let out = plan_line(&s.pending());
    assert!(out.contains("to_replay=0"), "fresh recover no entries: {out}");
    assert_eq!(out, "recover plan: applied_seq=0, to_replay=0");
}

#[test]
fn what_is_said_of_old_segments() {
    let res = CompactResult { live_vectors: 3, reclaimable_segs: vec![4, 5, 6], snapshot: Vec::new() };
    assert!(reclaims_now(true, &res) && !reclaims_now(false, &res));
    assert_eq!(
        reclaim_line(&res, Some(1)).unwrap(),
        "reclaimed 1 of 3 old segment(s); 2 skipped (sealed < safety period, retry later)"
    );
    assert_eq!(reclaim_line(&res, Some(3)).unwrap(), "reclaimed 3 old segment(s)");
    assert_eq!(
        reclaim_line(&res, None).unwrap(),
        "note: old segments pending reclaim (safety period). pass --reclaim-now to delete."
    );
    let none = CompactResult { live_vectors: 3, reclaimable_segs: Vec::new(), snapshot: Vec::new() };
    assert!(!reclaims_now(true, &none));
    assert_eq!(reclaim_line(&none, None), None);
}

#[test]
fn what_a_recovery_says() {
    let mut s = Store::create(2);
    assert_eq!(
        recover_line(&s.pending()),
        "recover ok: WAL replayed + truncated, nothing pending"
    );
    s.put_kv(b"a", b"b").unwrap();
    assert_eq!(recover_line(&s.pending()), "recover ok: 1 entry(ies) still pending after open");
}
