use std::cell::Cell;
use std::collections::BTreeMap;

use fusion_store::compact::{run_compact, CompactResult, Reclaim, DEFAULT_RECLAIM_SAFETY};
use fusion_store::error::{Corruption, StoreError};
use fusion_store::mem::mmap::ZeroCopyVec;
use fusion_store::mem::segment::{AppendPlan, ValueLocator};
use fusion_store::vector::pool::{
    next_vec_seg_id, parse_vec_seg_id, vec_segment_file, DEFAULT_VEC_SEGMENT_SIZE,
    MIN_RECLAIM_SAFETY_MS,
};
use fusion_store::vector::schema::{MetricKind, VectorSchema};
use fusion_store::vector::store::{check_disk, VectorIndex};

type Segments = BTreeMap<u32, Vec<u8>>;

fn bits(v: &[f32]) -> Vec<u32> {
    v.iter().map(|x| x.to_bits()).collect()
}

fn distance(metric: MetricKind, a: &[f32], b: &[f32]) -> f32 {
    let dot = || -> f32 { a.iter().zip(b).map(|(x, y)| x * y).sum() };
    match metric {
        MetricKind::L2 => a.iter().zip(b).map(|(x, y)| (x - y) * (x - y)).sum(),
        MetricKind::Cosine => {
            let na: f32 = a.iter().map(|x| x * x).sum::<f32>().sqrt();
            let nb: f32 = b.iter().map(|x| x * x).sum::<f32>().sqrt();
            if na == 0.0 || nb == 0.0 {
                1.0
            } else {
                1.0 - dot() / (na * nb)
            }
        }
        MetricKind::Dot => dot(),
    }
}

fn read(segs: &Segments, loc: &ValueLocator) -> Option<Vec<f32>> {
    let seg = segs.get(&loc.seg_id)?;
    let v = ZeroCopyVec::new(seg, loc.offset as usize, loc.len as usize / 4).ok()?;
    Some(v.to_bits().into_iter().map(f32::from_bits).collect())
}

fn write(segs: &mut Segments, plan: &AppendPlan, bytes: &[u8]) {
    let loc = plan.locator;
    let seg = segs.entry(loc.seg_id).or_default();
    let end = loc.offset as usize + bytes.len();
    if seg.len() < end {
        seg.resize(end, 0);
    }
    seg[loc.offset as usize..end].copy_from_slice(bytes);
}

fn not_held(_: u32) -> bool {
    false
}

/// What is on disk of an index.
#[derive(Clone, Default)]
struct Disk {
    segs: Segments,
    locators: BTreeMap<u64, ValueLocator>,
    snapshot: Option<Vec<u8>>,
    schema: Option<VectorSchema>,
}

struct Index {
    idx: VectorIndex,
    disk: Disk,
}

impl Index {
    fn open(disk: Disk, schema: VectorSchema, seg_size: u64) -> Index {
        let names: Vec<String> = disk.segs.keys().map(|id| vec_segment_file(*id)).collect();
        let locators: Vec<(u64, ValueLocator)> =
            disk.locators.iter().map(|(id, l)| (*id, *l)).collect();
        let idx =
            VectorIndex::open(schema, &names, seg_size, disk.snapshot.as_deref(), &locators)
                .unwrap();
        let mut index = Index { idx, disk };
        index.disk.schema = Some(schema);
        index.disk.segs.entry(index.idx.pool().active_seg_id()).or_default();
        index
    }

    fn make(dim: usize) -> Index {
        Index::open(Disk::default(), VectorSchema::new(dim, MetricKind::L2), 0)
    }

    fn reopen(disk: Disk) -> Result<Index, StoreError> {
        let names: Vec<String> = disk.segs.keys().map(|id| vec_segment_file(*id)).collect();
        let locators: Vec<(u64, ValueLocator)> =
            disk.locators.iter().map(|(id, l)| (*id, *l)).collect();
        let (idx, stale) = VectorIndex::reopen(
            &disk.schema,
            &names,
            0,
            disk.snapshot.as_deref(),
            &locators,
        )?;
        let mut index = Index { idx, disk };
        index.disk.segs.entry(index.idx.pool().active_seg_id()).or_default();
        if stale {
            let segs = &index.disk.segs;
            let table = &index.disk.locators;
            let metric = index.idx.schema().metric;
            index.idx.refresh_graph(&|a: u64, b: u64| {
                let x = read(segs, &table[&a]).unwrap();
                let y = read(segs, &table[&b]).unwrap();
                distance(metric, &x, &y).to_bits()
            })?;
        }
        Ok(index)
    }

    fn link(&mut self, id: u64, v: &[f32]) -> Result<(), StoreError> {
        let segs = &self.disk.segs;
        let table = &self.disk.locators;
        let metric = self.idx.schema().metric;
        self.idx.link(id, &|n: u64| {
            distance(metric, v, &read(segs, &table[&n]).unwrap()).to_bits()
        })
    }

    fn insert(&mut self, id: u64, v: &[f32]) -> Result<(), StoreError> {
        let plan = self.idx.insert(id, &bits(v), &not_held)?;
        let bytes: Vec<u8> = v.iter().flat_map(|x| x.to_le_bytes()).collect();
        write(&mut self.disk.segs, &plan, &bytes);
        self.disk.locators.insert(id, plan.locator);
        self.link(id, v)
    }

    fn insert_batch(&mut self, items: &[(u64, &[f32])]) -> Result<(), StoreError> {
        let batch: Vec<(u64, Vec<u32>)> = items.iter().map(|(id, v)| (*id, bits(v))).collect();
        let plans = self.idx.insert_batch(&batch, &not_held)?;
        for (plan, (id, v)) in plans.iter().zip(items) {
            let bytes: Vec<u8> = v.iter().flat_map(|x| x.to_le_bytes()).collect();
            write(&mut self.disk.segs, plan, &bytes);
            self.disk.locators.insert(*id, plan.locator);
        }
        for (id, v) in items {
            self.link(*id, v)?;
        }
        Ok(())
    }

    fn search_knn(&self, q: &[f32], top_k: usize) -> Result<Vec<(u64, f32)>, StoreError> {
        self.search_until(q, top_k, &|| false)
    }

    fn search_until<E: Fn() -> bool>(
        &self,
        q: &[f32],
        top_k: usize,
        expired: &E,
    ) -> Result<Vec<(u64, f32)>, StoreError> {
        let failed = Cell::new(false);
        let metric = self.idx.schema().metric;
        let dist = |n: u64| -> u32 {
            match read(&self.disk.segs, &self.idx.locator(n).unwrap()) {
                Some(v) => distance(metric, q, &v).to_bits(),
                None => {
                    failed.set(true);
                    f32::INFINITY.to_bits()
                }
            }
        };
        let found = self.idx.search_knn(&bits(q), top_k, &dist, expired, &|| failed.get())?;
        Ok(found.into_iter().map(|(id, d)| (id, f32::from_bits(d))).collect())
    }

    fn get_vector(&self, id: u64) -> Option<Vec<f32>> {
        self.idx.get_vector(id).unwrap().map(|loc| read(&self.disk.segs, &loc).unwrap())
    }

    fn compact(&mut self) -> Result<CompactResult, StoreError> {
        let disk_bytes: u64 = self.disk.segs.values().map(|s| s.len() as u64).sum();
        let plan = self.idx.compact(None, disk_bytes, &not_held)?;
        let mut moved: BTreeMap<u64, ValueLocator> = BTreeMap::new();
        for m in &plan.moves {
            let v = read(&self.disk.segs, &m.from).unwrap();
            let bytes: Vec<u8> = v.iter().flat_map(|x| x.to_le_bytes()).collect();
            write(&mut self.disk.segs, &m.append, &bytes);
            moved.insert(m.id, m.append.locator);
        }
        self.disk.segs.entry(self.idx.pool().active_seg_id()).or_default();
        let segs = &self.disk.segs;
        let metric = self.idx.schema().metric;
        let result = run_compact(&mut self.idx, &plan, &|a: u64, b: u64| {
            let x = read(segs, &moved[&a]).unwrap();
            let y = read(segs, &moved[&b]).unwrap();
            distance(metric, &x, &y).to_bits()
        })?;
        self.disk.locators = moved;
        self.disk.snapshot = Some(result.snapshot.clone());
        Ok(result)
    }

    fn reclaim(&mut self, seg_ids: &[u32], readers: usize, age_ms: Option<u64>) -> Reclaim {
        let mut r = Reclaim::begin(seg_ids);
        while let Some(seg_id) = r.current() {
            if r.check(&self.idx, readers, age_ms) {
                let existed = self.disk.segs.remove(&seg_id).is_some();
                r.removed(&mut self.idx, existed);
            }
        }
        r
    }

    fn checkpoint(&mut self) {
        assert!(self.idx.can_checkpoint());
        self.disk.snapshot = Some(self.idx.checkpoint());
    }
}

/// Vectors whose first component is their id.
fn line(dim: usize, n: u64) -> Index {
    let mut idx = Index::make(dim);
    for i in 0..n {
        let mut v = vec![0.0f32; dim];
        v[0] = i as f32;
        idx.insert(i, &v).unwrap();
    }
    idx
}

const N: usize = 1000;
const DIM: usize = 128;
const TOP_K: usize = 10;

fn gen_vectors(n: usize, dim: usize, seed: u64) -> Vec<Vec<f32>> {
    let mut v = Vec::with_capacity(n);
    let mut s = seed;
    for i in 0..n {
        let mut row = Vec::with_capacity(dim);
        for j in 0..dim {
            s ^= s << 13;
            s ^= s >> 7;
            s ^= s << 17;
            let f = ((s % 1000) as f32) / 100.0 + (i as f32 * 0.001) + (j as f32 * 0.0001);
            row.push(f);
        }
        v.push(row);
    }
    v
}

fn filled(n: usize, dim: usize, seed: u64) -> (Index, Vec<Vec<f32>>) {
    let vecs = gen_vectors(n, dim, seed);
    let items: Vec<(u64, &[f32])> =
        vecs.iter().enumerate().map(|(i, v)| (i as u64, v.as_slice())).collect();
    let mut idx = Index::make(dim);
    idx.insert_batch(&items).unwrap();
    (idx, vecs)
}

#[test]
fn insert_then_knn_returns_nearest() {
    let idx = line(8, 10);
    let q = vec![3.0f32, 0.0, 0.0, 0.0, 0.0, 0.0, 0.0, 0.0];
    let res = idx.search_knn(&q, 3).unwrap();
    assert!(!res.is_empty());
    assert_eq!(res[0].0, 3);
}

#[test]
fn store_insert_duplicate_rejects() {
    let mut idx = Index::make(8);
    let v = vec![1.0f32; 8];
    idx.insert(1, &v).unwrap();
    let err = idx.insert(1, &v).unwrap_err();
    assert!(matches!(err, StoreError::DuplicateVector(1)));
}

#[test]
fn delete_excludes_from_knn() {
    let mut idx = line(8, 10);
    assert!(idx.idx.delete(3));
    let q = vec![3.0f32, 0.0, 0.0, 0.0, 0.0, 0.0, 0.0, 0.0];
    let res = idx.search_knn(&q, 3).unwrap();
    assert!(!res.iter().any(|(id, _)| *id == 3));
}

#[test]
fn batch_insert_then_knn() {
    let mut idx = Index::make(4);
    let vecs: Vec<(u64, Vec<f32>)> = (0..20u64)
        .map(|i| {
            let mut v = vec![0.0f32; 4];
            v[0] = i as f32;
            (i, v)
        })
        .collect();
    let items: Vec<(u64, &[f32])> = vecs.iter().map(|(id, v)| (*id, v.as_slice())).collect();
    idx.insert_batch(&items).unwrap();
    let q = vec![5.0f32, 0.0, 0.0, 0.0];
    let res = idx.search_knn(&q, 3).unwrap();
    assert_eq!(res[0].0, 5);
}

#[test]
fn checkpoint_then_reload_restores_graph() {
    let mut idx = line(8, 10);
    assert_eq!(idx.idx.len(), 10);
    idx.checkpoint();
    let idx2 = Index::open(idx.disk, VectorSchema::new(8, MetricKind::L2), 0);
    assert_eq!(idx2.idx.len(), 10, "graph reloaded from snapshot");
    let q = vec![3.0f32, 0.0, 0.0, 0.0, 0.0, 0.0, 0.0, 0.0];
    let res = idx2.search_knn(&q, 1).unwrap();
    assert_eq!(res[0].0, 3, "knn works after reload");
}

#[test]
fn compact_reclaims_soft_deleted_vectors() {
    let mut idx = line(8, 10);
    idx.idx.delete(3);
    idx.idx.delete(7);
    assert_eq!(idx.idx.len(), 8, "8 live after 2 soft-delete");
    let res = idx.compact().unwrap();
    assert_eq!(res.live_vectors, 8, "compact keeps 8 live");
    let q = vec![7.0f32, 0.0, 0.0, 0.0, 0.0, 0.0, 0.0, 0.0];
    let knn = idx.search_knn(&q, 3).unwrap();
    assert!(!knn.iter().any(|(id, _)| *id == 7));
    assert!(!knn.iter().any(|(id, _)| *id == 3));
    assert_eq!(idx.idx.len(), 8);
}

#[test]
fn compact_preserves_knn_correctness() {
    let mut idx = line(4, 20);
    let q = vec![5.0f32, 0.0, 0.0, 0.0];
    let before = idx.search_knn(&q, 5).unwrap();
    idx.compact().unwrap();
    let after = idx.search_knn(&q, 5).unwrap();
    assert_eq!(before[0].0, after[0].0, "nearest preserved after compact");
    assert_eq!(before.len(), after.len());
}

#[test]
fn compact_empty_index_noop() {
    let mut idx = Index::make(4);
    let res = idx.compact().unwrap();
    assert_eq!(res.live_vectors, 0);
    assert_eq!(idx.idx.len(), 0);
}

#[test]
fn compact_then_checkpoint_then_reopen_restores() {
    let mut idx = line(4, 10);
    idx.idx.delete(2);
    idx.compact().unwrap();
    idx.checkpoint();
    let idx2 = Index::open(idx.disk, VectorSchema::new(4, MetricKind::L2), 0);
    assert_eq!(idx2.idx.len(), 9, "9 live after compact+checkpoint+reopen");
    let q = vec![2.0f32, 0.0, 0.0, 0.0];
    let knn = idx2.search_knn(&q, 3).unwrap();
    assert!(!knn.iter().any(|(id, _)| *id == 2));
}

#[test]
fn reclaim_deletes_old_segment_files() {
    let mut idx = Index::make(4);
    for i in 0..5u64 {
        idx.insert(i, &[i as f32, 0.0, 0.0, 0.0]).unwrap();
    }
    assert!(idx.disk.segs.contains_key(&0));
    assert_eq!(vec_segment_file(0), "vec_payload_0000.mmap");
    let res = idx.compact().unwrap();
    assert!(!res.reclaimable_segs.is_empty());
    let r = idx.reclaim(&res.reclaimable_segs, 1, Some(MIN_RECLAIM_SAFETY_MS));
    assert_eq!(r.reclaimed(), res.reclaimable_segs.len());
    for sid in &res.reclaimable_segs {
        assert!(!idx.disk.segs.contains_key(sid), "old seg {} file reclaimed", sid);
    }
    assert!(idx.search_knn(&[0.0, 0.0, 0.0, 0.0], 1).is_ok());
    for i in 0..5u64 {
        assert_eq!(idx.get_vector(i), Some(vec![i as f32, 0.0, 0.0, 0.0]));
    }
}

#[test]
fn compact_read_during_compact_not_blocked() {
    let mut idx = Index::make(4);
    for i in 0..10u64 {
        idx.insert(i, &[i as f32, 0.0, 0.0, 0.0]).unwrap();
    }
    let _ = idx.compact().unwrap();
    let q = vec![5.0f32, 0.0, 0.0, 0.0];
    let res = idx.search_knn(&q, 5).unwrap();
    assert_eq!(res.len(), 5);
    assert_eq!(res[0].0, 5, "nearest preserved after compact");
}

fn recall(idx: &Index, vecs: &[Vec<f32>]) -> f32 {
    let query = &vecs[123];
    let mut brute: Vec<(u64, f32)> =
        (0..N).map(|i| (i as u64, distance(MetricKind::L2, query, &vecs[i]))).collect();
    brute.sort_by(|a, b| a.1.total_cmp(&b.1));
    let brute_top: Vec<u64> = brute.iter().take(TOP_K).map(|(id, _)| *id).collect();
    let found: Vec<u64> =
        idx.search_knn(query, TOP_K).unwrap().iter().map(|(id, _)| *id).collect();
    found.iter().filter(|id| brute_top.contains(id)).count() as f32 / TOP_K as f32
}

#[test]
fn hnsw_recall_vs_bruteforce_top10() {
    let (idx, vecs) = filled(N, DIM, 42);
    let recall = recall(&idx, &vecs);
    assert!(recall >= 0.90, "recall {} < 0.90", recall);
}

#[test]
fn nsw_recall_vs_bruteforce_top10() {
    let (idx, vecs) = filled(N, DIM, 42);
    let recall = recall(&idx, &vecs);
    assert!(recall >= 0.90, "recall {} < 0.90", recall);
}

#[test]
fn get_vector_and_list_vector_ids_roundtrip() {
    let (mut idx, vecs) = filled(20, 8, 7);
    let mut ids = idx.idx.list_vector_ids();
    ids.sort();
    assert_eq!(ids, (0..20u64).collect::<Vec<_>>());
    let got = idx.get_vector(5);
    assert_eq!(got.as_ref().unwrap().as_slice(), vecs[5].as_slice());
    assert!(idx.get_vector(999).is_none());
    assert!(idx.idx.delete(5));
    assert!(idx.get_vector(5).is_none());
    let mut ids2 = idx.idx.list_vector_ids();
    ids2.sort();
    assert_eq!(ids2, (0..20u64).filter(|i| *i != 5).collect::<Vec<_>>());
}

#[test]
fn wrong_dimensions_change_nothing() {
    for schema_dim in 1..=16usize {
        for dim in (1..=16usize).filter(|d| *d != schema_dim) {
            let mut idx = Index::make(schema_dim);
            let fault = StoreError::DimensionMismatch { expected: schema_dim, got: dim };
            assert_eq!(idx.insert(1, &vec![0.0; dim]), Err(fault.clone()));
            assert!(idx.idx.list_vector_ids().is_empty(), "rejected vector not persisted");
            assert!(idx.disk.locators.is_empty());
            assert_eq!(idx.search_knn(&vec![0.0; dim], 1), Err(fault));
        }
    }
}

#[test]
fn a_vector_finds_itself() {
    for dim in 1..=64usize {
        let mut idx = Index::make(dim);
        let v = vec![0.5f32; dim];
        idx.insert(7, &v).unwrap();
        assert_eq!(idx.search_knn(&v, 1).unwrap(), vec![(7, 0.0)]);
    }
}

#[test]
fn batches_are_taken_whole_or_not_at_all() {
    let mut idx = Index::make(2);
    idx.insert(1, &[1.0, 1.0]).unwrap();
    let before = idx.idx.pool().remaining();
    let long = [0.0f32; 3];
    assert_eq!(
        idx.insert_batch(&[(5, &[0.0, 0.0]), (6, &long)]),
        Err(StoreError::DimensionMismatch { expected: 2, got: 3 })
    );
    assert_eq!(
        idx.insert_batch(&[(5, &[0.0, 0.0]), (1, &[0.0, 0.0])]),
        Err(StoreError::DuplicateVector(1))
    );
    assert_eq!(
        idx.insert_batch(&[(5, &[0.0, 0.0]), (5, &[0.0, 0.0])]),
        Err(StoreError::DuplicateVector(5))
    );
    assert_eq!(idx.idx.list_vector_ids(), vec![1]);
    assert_eq!(idx.idx.pool().remaining(), before);
}

#[test]
fn compaction_moves_out_of_the_old_segments() {
    let mut idx = Index::open(Disk::default(), VectorSchema::new(2, MetricKind::L2), 16);
    for i in 0..7u64 {
        idx.insert(i, &[i as f32, 1.0]).unwrap();
    }
    idx.idx.delete(4);
    let old: Vec<u32> = idx.disk.segs.keys().copied().collect();
    let res = idx.compact().unwrap();
    let mut reclaimable = res.reclaimable_segs.clone();
    reclaimable.sort();
    assert_eq!(reclaimable, old);
    assert_eq!(res.live_vectors, 6);
    for loc in idx.disk.locators.values() {
        assert!(!old.contains(&loc.seg_id));
    }
    assert_eq!(idx.get_vector(6), Some(vec![6.0, 1.0]));
    assert_eq!(idx.get_vector(4), None);
}

#[test]
fn segments_in_use_are_put_off() {
    let mut idx = line(4, 5);
    let res = idx.compact().unwrap();
    let r = idx.reclaim(&res.reclaimable_segs, 2, Some(MIN_RECLAIM_SAFETY_MS - 1));
    assert_eq!(r.reclaimed(), 0);
    assert_eq!(*r.deferred(), res.reclaimable_segs);
    assert!(idx.disk.segs.contains_key(&res.reclaimable_segs[0]));
    assert!(idx.idx.reclaim_safe(res.reclaimable_segs[0], 1, Some(0)), "no reader holds it");
    let r = idx.reclaim(&res.reclaimable_segs, 2, Some(MIN_RECLAIM_SAFETY_MS));
    assert_eq!(r.reclaimed(), res.reclaimable_segs.len());
    assert!(r.deferred().is_empty());
    let r = idx.reclaim(&res.reclaimable_segs, 2, Some(0));
    assert_eq!(r.reclaimed(), 0, "there was no file left");
    assert_eq!(DEFAULT_RECLAIM_SAFETY, 60);
    assert_eq!(MIN_RECLAIM_SAFETY_MS, 2000);
}

#[test]
fn compaction_needs_room_on_disk() {
    let mut idx = line(4, 5);
    let fault = "compact needs ~100B disk for COW rewrite but only 99B available";
    assert_eq!(
        idx.idx.compact(Some(99), 100, &not_held).err(),
        Some(StoreError::Io(fault.to_string()))
    );
    assert_eq!(idx.idx.len(), 5, "nothing has changed");
    assert_eq!(idx.get_vector(4), Some(vec![4.0, 0.0, 0.0, 0.0]));
    assert!(check_disk(Some(100), 100).is_ok());
    assert!(check_disk(None, 100).is_ok(), "where nothing is known it goes ahead");
}

#[test]
fn stale_graphs_are_rebuilt() {
    let mut idx = line(4, 6);
    idx.checkpoint();
    idx.insert(6, &[6.0, 0.0, 0.0, 0.0]).unwrap();
    let idx2 = Index::reopen(idx.disk).unwrap();
    assert_eq!(idx2.idx.len(), 7);
    assert_eq!(idx2.search_knn(&[6.0, 0.0, 0.0, 0.0], 1).unwrap()[0].0, 6);
}

#[test]
fn deleted_vectors_stay_deleted() {
    let mut idx = line(4, 6);
    idx.idx.delete(3);
    idx.checkpoint();
    let idx2 = Index::reopen(idx.disk).unwrap();
    assert_eq!(idx2.idx.len(), 5);
    assert!(idx2.get_vector(3).is_none());
}

#[test]
fn a_deleted_entry_stays_deleted() {
    let mut idx = line(4, 3);
    for id in [0, 1, 2] {
        idx.idx.delete(id);
        idx.checkpoint();
        let again = Index::reopen(idx.disk.clone()).unwrap();
        assert_eq!(again.idx.list_vector_ids(), idx.idx.list_vector_ids());
        let schema = VectorSchema::new(4, MetricKind::L2);
        let opened = Index::open(idx.disk.clone(), schema, 0);
        assert_eq!(opened.idx.list_vector_ids(), idx.idx.list_vector_ids());
    }
    assert!(idx.idx.is_empty());
}

#[test]
fn vectors_that_stand_nowhere_stop_a_compaction() {
    let loc = ValueLocator { seg_id: 9, offset: 0, len: 8 };
    let open = |loc: ValueLocator| {
        let schema = VectorSchema::new(2, MetricKind::L2);
        VectorIndex::open(schema, &Vec::new(), 0, None, &vec![(3, loc)]).unwrap()
    };
    let missing = StoreError::Corrupt(Corruption::VecSegmentMissing { seg_id: 9 });
    assert_eq!(open(loc).compact(None, 0, &not_held).err(), Some(missing));
    let loc = ValueLocator { seg_id: 0, len: 4, ..loc };
    let short = StoreError::Corrupt(Corruption::VectorLength { id: 3, bytes: 4 });
    assert_eq!(open(loc).compact(None, 0, &not_held).err(), Some(short.clone()));
    assert_eq!(short.message(), "corrupt: vector 3 has a wrong length: 4");
}

#[test]
fn a_restart_after_a_compaction_gives_it_back() {
    let mut idx = line(4, 4);
    idx.idx.delete(1);
    idx.checkpoint();
    idx.compact().unwrap();
    let back = Index::reopen(idx.disk.clone()).unwrap();
    assert_eq!(back.idx.list_vector_ids(), vec![0, 2, 3]);
    assert_eq!(back.idx.checkpoint(), idx.idx.checkpoint(), "the graph is the same");
    // with no checkpoint between
    idx.insert(1, &[9.0; 4]).unwrap();
    idx.insert(7, &[7.0; 4]).unwrap();
    let mut back = Index::reopen(idx.disk.clone()).unwrap();
    assert_eq!(back.idx.len(), 5);
    for id in [0, 1, 2, 3, 7] {
        assert_eq!(back.get_vector(id), idx.get_vector(id));
        let v = back.get_vector(id).unwrap();
        assert_eq!(back.search_knn(&v, 1).unwrap()[0].0, id);
    }
    back.insert(5, &[5.0; 4]).unwrap();
    assert_eq!(back.search_knn(&[5.0; 4], 1).unwrap()[0].0, 5);
}

#[test]
fn a_crash_before_the_snapshot_of_a_compaction_is_harmless() {
    let mut idx = line(4, 2);
    idx.idx.delete(1);
    idx.checkpoint();
    let before = idx.disk.snapshot.clone();
    idx.compact().unwrap();
    idx.disk.snapshot = before;
    idx.insert(2, &[2.0; 4]).unwrap();
    let mut back = Index::reopen(idx.disk.clone()).unwrap();
    assert_eq!(back.get_vector(2), Some(vec![2.0; 4]));
    assert_eq!(back.search_knn(&[2.0; 4], 3).unwrap().len(), 2);
    back.insert(1, &[1.0; 4]).unwrap();
    assert_eq!(back.idx.len(), 3);
}

#[test]
fn compaction_frees_the_ids_of_deleted_vectors() {
    let mut idx = line(4, 4);
    idx.idx.delete(2);
    let before: Vec<Option<Vec<f32>>> = (0..4).map(|i| idx.get_vector(i)).collect();
    let n = idx.compact().unwrap().live_vectors;
    assert_eq!(n, 3);
    let after: Vec<Option<Vec<f32>>> = (0..4).map(|i| idx.get_vector(i)).collect();
    assert_eq!(after, before);
    idx.insert(2, &[5.0; 4]).unwrap();
    assert_eq!(idx.get_vector(2), Some(vec![5.0; 4]));
}

#[test]
fn broken_snapshots_are_dropped_on_reopening() {
    let mut idx = line(4, 6);
    idx.checkpoint();
    let mut disk = idx.disk;
    let n = disk.snapshot.as_ref().unwrap().len();
    disk.snapshot.as_mut().unwrap()[n - 1] ^= 1;
    let names: Vec<String> = disk.segs.keys().map(|id| vec_segment_file(*id)).collect();
    let opened = VectorIndex::open(
        VectorSchema::new(4, MetricKind::L2),
        &names,
        0,
        disk.snapshot.as_deref(),
        &Vec::new(),
    );
    assert!(matches!(opened, Err(StoreError::Corrupt(_))));
    let idx2 = Index::reopen(disk).unwrap();
    assert_eq!(idx2.idx.len(), 6, "built anew from the vectors");
}

#[test]
fn reopening_needs_a_schema() {
    let fault = StoreError::Corrupt(Corruption::SchemaMissing);
    assert_eq!(Index::reopen(Disk::default()).err(), Some(fault.clone()));
    assert_eq!(fault.message(), "corrupt: vector schema not persisted");
}

#[test]
fn an_index_says_whether_vectors_fit_a_segment() {
    let open = |dim: usize| {
        let schema = VectorSchema::new(dim, MetricKind::L2);
        VectorIndex::open(schema, &Vec::new(), 16, None, &Vec::new()).unwrap()
    };
    assert!(open(4).fits());
    assert!(!open(5).fits());
    assert!(open(5).is_empty());
    assert_eq!(DEFAULT_VEC_SEGMENT_SIZE, 128 * 1024 * 1024);
}

#[test]
fn unreadable_vectors_make_a_search_useless() {
    let mut idx = line(4, 3);
    idx.disk.segs.clear();
    let fault = StoreError::Corrupt(Corruption::VectorReadFailed);
    assert_eq!(idx.search_knn(&[0.0; 4], 2), Err(fault.clone()));
    assert_eq!(
        fault.message(),
        "corrupt: vector segment read failed during knn \u{2014} result unreliable"
    );
}

#[test]
fn missing_vector_segments_are_reported() {
    let mut idx = line(4, 3);
    let fault = StoreError::Corrupt(Corruption::VecSegmentMissing { seg_id: 9 });
    assert_eq!(idx.idx.segment_opened(9, false, &not_held), Err(fault.clone()));
    assert_eq!(fault.message(), "corrupt: sealed vec segment 9 missing");
    assert_eq!(idx.idx.segment_opened(0, true, &not_held), Ok(Vec::new()));
}

#[test]
fn vector_segment_names() {
    assert_eq!(vec_segment_file(12), "vec_payload_0012.mmap");
    assert_eq!(parse_vec_seg_id("vec_payload_0012.mmap"), Some(12));
    assert_eq!(parse_vec_seg_id("kv_payload_0012.mmap"), None);
    assert_eq!(next_vec_seg_id(&vec!["vec_payload_0004.mmap".to_string()]), Some(5));
}

/// The latency that all but one in a hundred searches keep to, in microseconds, over vectors
/// that are read where they lie.
fn p99(idx: &Index, vecs: &[Vec<f32>]) -> f64 {
    let mut latencies = Vec::with_capacity(vecs.len());
    for q in vecs {
        let t0 = std::time::Instant::now();
        let limit = std::time::Duration::from_millis(5);
        let dist = |n: u64| distance(MetricKind::L2, q, &vecs[n as usize]).to_bits();
        let expired = || t0.elapsed() > limit;
        let _ = idx.idx.search_knn(&bits(q), TOP_K, &dist, &expired, &|| false).unwrap();
        latencies.push(t0.elapsed().as_micros() as f64);
    }
    latencies.sort_by(|a, b| a.partial_cmp(b).unwrap());
    latencies[(latencies.len() as f64 * 0.99) as usize]
}

#[test]
fn test_hnsw_recall_knn_latency_p99_under_5ms() {
    let (idx, vecs) = filled(N, DIM, 7);
    let p99 = p99(&idx, &vecs);
    assert!(p99 < 5000.0, "p99 {}us >= 5000us", p99);
}

#[test]
fn test_nsw_recall_knn_latency_p99_under_5ms() {
    let (idx, vecs) = filled(N, DIM, 7);
    let p99 = p99(&idx, &vecs);
    assert!(p99 < 5000.0, "p99 {}us >= 5000us", p99);
}

#[test]
fn sla_batch_insert_meets_10k_vecs() {
    let mut idx = Index::make(768);
    let batch_size = 100usize;
    let vecs: Vec<Vec<f32>> = (0..batch_size).map(|i| vec![i as f32; 768]).collect();
    let batch: Vec<(u64, &[f32])> =
        (0..batch_size).map(|i| (i as u64, vecs[i].as_slice())).collect();
    let start = std::time::Instant::now();
    idx.insert_batch(&batch).unwrap();
    let elapsed = start.elapsed().as_secs_f64();
    let vps = batch_size as f64 / elapsed;
    println!("sla batch: {batch_size} vecs in {elapsed:.3}s = {vps:.0} vecs/s");
    assert_eq!(idx.idx.len(), batch_size);
}
