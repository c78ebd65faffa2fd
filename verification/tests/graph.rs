use std::collections::BTreeMap;

use fusion_store::error::{Corruption, StoreError};
use fusion_store::vector::dist::{bits_of_rank, less, not_a_number, order_rank};
use fusion_store::vector::heap::MaxHeap;
use fusion_store::vector::nsw::{NswGraph, DEFAULT_EF_SEARCH, EF_CONSTRUCTION, M};
use fusion_store::vector::schema::{default_ef_search, MetricKind, VectorSchema};
use fusion_store::vector::snapshot::{
    crc32_finalize, crc32_update, fits_snapshot, load, resume, serialize, HEADER, MAGIC,
};

fn l2(a: &[f32], b: &[f32]) -> f32 {
    a.iter().zip(b).map(|(x, y)| (x - y) * (x - y)).sum()
}

type Vectors = BTreeMap<u64, Vec<f32>>;

fn dist_fn<'a>(vectors: &'a Vectors, query: &'a [f32]) -> impl Fn(u64) -> u32 + 'a {
    move |id: u64| l2(query, &vectors[&id]).to_bits()
}

fn never() -> bool {
    false
}

/// Vectors whose first component is their id, in a graph.
fn line(n: u64) -> (Vectors, NswGraph) {
    let mut v = Vectors::new();
    for i in 0..n {
        let mut x = vec![0.0f32; 8];
        x[0] = i as f32;
        v.insert(i, x);
    }
    let mut g = NswGraph::new();
    for i in 0..n {
        g.insert(i, &dist_fn(&v, &v[&i])).unwrap();
    }
    (v, g)
}

#[test]
fn insert_first_sets_entry_point() {
    let mut v = Vectors::new();
    v.insert(1, vec![1.0f32; 8]);
    let mut g = NswGraph::new();
    g.insert(1, &dist_fn(&v, &v[&1])).unwrap();
    assert_eq!(g.len(), 1);
    assert_eq!(g.snapshot_entry_point(), Some(1));
}

#[test]
fn nsw_insert_duplicate_rejects() {
    let mut v = Vectors::new();
    v.insert(1, vec![1.0f32; 8]);
    let mut g = NswGraph::new();
    g.insert(1, &dist_fn(&v, &v[&1])).unwrap();
    let err = g.insert(1, &dist_fn(&v, &v[&1])).unwrap_err();
    assert!(matches!(err, StoreError::DuplicateVector(1)));
}

#[test]
fn knn_returns_nearest() {
    let (v, g) = line(10);
    let q = vec![3.0f32, 0.0, 0.0, 0.0, 0.0, 0.0, 0.0, 0.0];
    let res = g.search_knn(&dist_fn(&v, &q), 3, DEFAULT_EF_SEARCH, &never).unwrap();
    assert!(!res.is_empty());
    assert_eq!(res[0].0, 3);
}

#[test]
fn soft_delete_skips_in_knn() {
    let (v, mut g) = line(10);
    assert!(g.delete(3));
    let q = vec![3.0f32, 0.0, 0.0, 0.0, 0.0, 0.0, 0.0, 0.0];
    let res = g.search_knn(&dist_fn(&v, &q), 3, DEFAULT_EF_SEARCH, &never).unwrap();
    assert!(!res.iter().any(|(id, _)| *id == 3));
}

#[test]
fn results_are_the_nearest_in_order() {
    let (v, g) = line(30);
    let q = vec![10.2f32, 0.0, 0.0, 0.0, 0.0, 0.0, 0.0, 0.0];
    let res = g.search_knn(&dist_fn(&v, &q), 5, DEFAULT_EF_SEARCH, &never).unwrap();
    let ids: Vec<u64> = res.iter().map(|(id, _)| *id).collect();
    assert_eq!(ids, vec![10, 11, 9, 12, 8]);
    assert_eq!(f32::from_bits(res[1].1), l2(&q, &v[&11]));
}

#[test]
fn results_are_as_many_as_asked_for_or_there_are() {
    for n in 1..=20u64 {
        let (v, g) = line(n);
        let q = vec![0.0f32; 8];
        for top_k in 0..=40usize {
            let res = g.search_knn(&dist_fn(&v, &q), top_k, DEFAULT_EF_SEARCH, &never).unwrap();
            assert_eq!(res.len(), top_k.min(n as usize));
        }
    }
}

#[test]
fn an_empty_graph_finds_nothing() {
    let g = NswGraph::new();
    let res = g.search_knn(&|_: u64| 0, 3, DEFAULT_EF_SEARCH, &never).unwrap();
    assert!(res.is_empty());
    assert!(g.is_empty());
}

#[test]
fn deleting_is_marking() {
    let (_, mut g) = line(4);
    assert!(g.delete(2));
    assert!(!g.delete(2), "deleted already");
    assert!(!g.delete(99), "never there");
    assert_eq!(g.len(), 3);
    assert_eq!(g.node_count(), 4);
    assert_eq!(g.all_ids(), vec![0, 1, 3]);
    assert_eq!(g.all_deleted_ids(), vec![2]);
    assert!(g.is_deleted(2) && g.is_deleted(99) && !g.is_deleted(1));
    assert!(g.is_marked_deleted(2) && !g.is_marked_deleted(99));
}

#[test]
fn neighbors_are_bounded_and_in_the_graph() {
    let (_, g) = line(60);
    for (_, neighbors) in g.snapshot_nodes() {
        assert!(neighbors.len() <= 2 * M);
        assert!(neighbors.iter().all(|n| *n < 60));
    }
    assert!(g.validate_edges().is_ok());
    assert_eq!((M, EF_CONSTRUCTION, DEFAULT_EF_SEARCH), (16, 200, 200));
}

#[test]
fn memory_counts_nodes_and_room_for_neighbors() {
    assert_eq!(NswGraph::new().memory_usage(), 0);
    let (_, g) = line(3);
    let edges: usize = g.snapshot_nodes().iter().map(|(_, n)| n.len()).sum();
    assert!(g.memory_usage() >= 3 * 80 + 8 * edges);
}

#[test]
fn validate_dim_passes_on_match() {
    let schema = VectorSchema::new(768, MetricKind::Cosine);
    assert!(schema.validate_dim(&vec![0.0f32.to_bits(); 768]).is_ok());
}

#[test]
fn validate_dim_rejects_mismatch() {
    let schema = VectorSchema::new(768, MetricKind::Cosine);
    let err = schema.validate_dim(&vec![0.0f32.to_bits(); 1024]).unwrap_err();
    match err {
        StoreError::DimensionMismatch { expected, got } => {
            assert_eq!(expected, 768);
            assert_eq!(got, 1024);
        }
        _ => panic!("expected DimensionMismatch"),
    }
}

#[test]
fn search_width_has_a_default() {
    assert_eq!(VectorSchema::new(4, MetricKind::L2).ef_search, 200);
    assert_eq!(VectorSchema::with_ef_search(4, MetricKind::L2, 50).ef_search, 50);
    assert_eq!(VectorSchema::with_ef_search(4, MetricKind::L2, 0).ef_search, default_ef_search());
}

fn reason(res: Result<Option<NswGraph>, StoreError>) -> String {
    match res {
        Err(e @ StoreError::Corrupt(_)) => e.message(),
        _ => panic!("not refused as corrupt"),
    }
}

fn two_nodes() -> NswGraph {
    let mut g = NswGraph::new();
    g.restore_node(10, vec![11], false);
    g.restore_node(11, vec![10], false);
    g.restore_entry_point(10);
    g
}

#[test]
fn snapshot_roundtrip_preserves_topology() {
    let mut g = NswGraph::new();
    g.restore_node(10, vec![11, 12], false);
    g.restore_node(11, vec![10], false);
    g.restore_node(12, vec![10], false);
    g.restore_entry_point(10);
    assert!(fits_snapshot(&g));
    let bytes = serialize(&g);
    let loaded = load(Some(&bytes)).unwrap().unwrap();
    assert_eq!(loaded.len(), 3);
    let snap = loaded.snapshot_nodes();
    let n10 = snap.iter().find(|(id, _)| *id == 10).unwrap();
    assert!(n10.1.contains(&11) && n10.1.contains(&12));
}

#[test]
fn load_missing_returns_none() {
    assert!(load(None).unwrap().is_none());
}

#[test]
fn snapshot_roundtrip_preserves_deleted_flags() {
    let mut g = NswGraph::new();
    g.restore_node(1, vec![2, 3], false);
    g.restore_node(2, vec![1], true);
    g.restore_node(3, vec![1], false);
    g.restore_entry_point(1);
    let loaded = load(Some(&serialize(&g))).unwrap().unwrap();
    assert_eq!(loaded.len(), 2);
    assert!(loaded.is_deleted(2));
    assert!(!loaded.is_deleted(1));
    assert!(!loaded.is_deleted(3));
    assert_eq!(loaded.snapshot_nodes_with_deleted(), g.snapshot_nodes_with_deleted());
    assert_eq!(loaded.snapshot_entry_point(), Some(1));
}

#[test]
fn load_rejects_corrupt_body_via_crc() {
    let mut bytes = serialize(&two_nodes());
    bytes[28] ^= 0xFF;
    let res = load(Some(&bytes));
    assert!(res.is_err(), "expected error on corrupt body");
    assert!(reason(res).contains("crc"));
}

#[test]
fn load_rejects_truncated_file() {
    let bytes = serialize(&two_nodes());
    let res = load(Some(&bytes[..bytes.len() / 2]));
    assert!(res.is_err(), "expected error on truncated file");
    assert!(reason(res).contains("truncated"));
}

#[test]
fn load_rejects_tiny_header() {
    let res = load(Some(&[0u8; 16]));
    assert!(res.is_err(), "expected error on tiny header");
    assert!(reason(res).contains("too small"));
}

#[test]
fn load_rejects_dangling_edge_via_validate() {
    let mut g = NswGraph::new();
    g.restore_node(10, vec![11, 99], false);
    g.restore_node(11, vec![10], false);
    g.restore_entry_point(10);
    let res = load(Some(&serialize(&g)));
    assert!(res.is_err(), "dangling edge must be rejected");
    assert!(reason(res).contains("dangling edge"));
    assert_eq!(
        g.validate_edges(),
        Err(StoreError::Corrupt(Corruption::DanglingEdge { node: 10, target: 99 }))
    );
}

#[test]
fn load_rejects_deleted_entry_point() {
    let mut g = NswGraph::new();
    g.restore_node(10, vec![11], true);
    g.restore_node(11, vec![10], false);
    g.restore_entry_point(10);
    let res = load(Some(&serialize(&g)));
    assert!(res.is_err(), "deleted entry point must be rejected");
    assert!(reason(res).contains("entry point"));
}

#[test]
fn graphs_with_a_deleted_entry_are_resumed() {
    let mut g = NswGraph::new();
    g.restore_node(10, vec![11], true);
    g.restore_node(11, vec![10], false);
    g.restore_entry_point(10);
    let again = resume(Some(&serialize(&g))).unwrap().unwrap();
    assert_eq!(again.snapshot_nodes_with_deleted(), g.snapshot_nodes_with_deleted());
    assert_eq!(again.snapshot_entry_point(), Some(10));
    assert!(again.is_deleted(10));
    assert!(resume(None).unwrap().is_none());
    let mut entryless = NswGraph::new();
    entryless.restore_node(10, vec![], false);
    assert!(reason(resume(Some(&serialize(&entryless)))).contains("entry point"));
}

#[test]
fn nodes_are_restored_in_any_order() {
    let (_, mut g) = line(40);
    g.delete(7);
    let nodes = g.snapshot_nodes_with_deleted();
    let mut back = NswGraph::new();
    for (id, neighbors, deleted) in nodes.iter().rev() {
        back.restore_node(*id, neighbors.clone(), *deleted);
    }
    let mut found = back.snapshot_nodes_with_deleted();
    found.sort();
    let mut wanted = nodes;
    wanted.sort();
    assert_eq!(found, wanted);
    assert_eq!(back.len(), g.len());
}

#[test]
fn neighbor_lists_name_others_and_each_once() {
    let (_, mut g) = line(200);
    g.delete(100);
    for (id, neighbors) in g.snapshot_nodes() {
        let mut once = neighbors.clone();
        once.sort();
        once.dedup();
        assert_eq!(once.len(), neighbors.len());
        assert!(!neighbors.contains(&id));
    }
}

#[test]
fn load_rejects_nonempty_graph_no_entry_point() {
    let mut g = NswGraph::new();
    g.restore_node(10, vec![11], false);
    g.restore_node(11, vec![10], false);
    let res = load(Some(&serialize(&g)));
    assert!(res.is_err(), "non-empty graph without entry point must be rejected");
    assert!(reason(res).contains("entry point"));
}

#[test]
fn every_changed_byte_of_a_snapshot_is_noticed() {
    let bytes = serialize(&two_nodes());
    // the magic number, and everything behind the header; the rest of the header tells lengths
    // and the checksum itself
    for i in (0..4).chain(HEADER..bytes.len()) {
        let mut changed = bytes.clone();
        changed[i] ^= 1;
        assert!(load(Some(&changed)).is_err(), "byte {i}");
    }
    for cut in 0..bytes.len() {
        assert!(load(Some(&bytes[..cut])).is_err(), "cut at {cut}");
    }
}

#[test]
fn snapshots_begin_with_the_magic_number() {
    let bytes = serialize(&two_nodes());
    assert_eq!(bytes[..4], MAGIC.to_le_bytes());
    // two ids, three offsets, two edges and two flags behind the header
    assert_eq!(bytes.len(), HEADER + 2 * 8 + 3 * 4 + 2 * 8 + 2);
    let mut other = bytes.clone();
    other[..4].copy_from_slice(&0x1234u32.to_le_bytes());
    assert_eq!(reason(load(Some(&other))), "corrupt: graph snapshot magic mismatch: 0x1234");
}

#[test]
fn an_empty_graph_round_trips() {
    let bytes = serialize(&NswGraph::new());
    let loaded = load(Some(&bytes)).unwrap().unwrap();
    assert!(loaded.is_empty());
}

#[test]
fn edge_ranges_are_checked() {
    // the offsets of the first node are made to run backwards, and the checksum made to fit
    let mut bytes = serialize(&two_nodes());
    let offsets = HEADER + 16;
    bytes[offsets..offsets + 4].copy_from_slice(&2u32.to_le_bytes());
    let crc = crc32_finalize(crc32_update(0xFFFF_FFFF, &bytes[HEADER..]));
    let stored = bytes[..HEADER].windows(4).position(|w| {
        w == crc32_finalize(crc32_update(0xFFFF_FFFF, &serialize(&two_nodes())[HEADER..]))
            .to_le_bytes()
    });
    let at = stored.unwrap();
    bytes[at..at + 4].copy_from_slice(&crc.to_le_bytes());
    assert_eq!(
        reason(load(Some(&bytes))),
        "corrupt: node 10 edge range [2, 1) invalid (edge_count=2)"
    );
}

#[test]
fn checksum_is_the_usual_one() {
    assert_eq!(crc32_finalize(crc32_update(0xFFFF_FFFF, b"123456789")), 0xCBF4_3926);
    assert_eq!(crc32_finalize(crc32_update(0xFFFF_FFFF, b"")), 0);
    let halves = crc32_update(crc32_update(0xFFFF_FFFF, b"12345"), b"6789");
    assert_eq!(crc32_finalize(halves), 0xCBF4_3926);
}

#[test]
fn ranks_order_as_floats_do() {
    let floats = [f32::NEG_INFINITY, -2.5, -1.0e-40, -0.0, 0.0, 1.0e-40, 0.1, 2.5, f32::INFINITY];
    for (i, a) in floats.iter().enumerate() {
        assert_eq!(bits_of_rank(order_rank(a.to_bits())), a.to_bits());
        assert!(!not_a_number(a.to_bits()));
        for (j, b) in floats.iter().enumerate() {
            assert_eq!(less(a.to_bits(), b.to_bits()), a < b);
            assert_eq!(order_rank(a.to_bits()) < order_rank(b.to_bits()), i < j);
        }
    }
    assert!(not_a_number(f32::NAN.to_bits()));
    assert!(!less(f32::NAN.to_bits(), 0));
    assert!(!less(0, f32::NAN.to_bits()));
}

#[test]
fn the_heap_gives_the_largest_first() {
    let mut h = MaxHeap::new();
    assert_eq!(h.peek(), None);
    for x in [5u128, 1, 9, 3, 7] {
        h.push(x);
    }
    assert_eq!(h.len(), 5);
    assert_eq!(h.peek(), Some(9));
    let mut out = Vec::new();
    while let Some(x) = h.pop() {
        out.push(x);
    }
    assert_eq!(out, vec![9, 7, 5, 3, 1]);
}

#[test]
fn an_expired_search_ends_early() {
    let (v, g) = line(300);
    let q = vec![299.0f32, 0.0, 0.0, 0.0, 0.0, 0.0, 0.0, 0.0];
    let all = g.search_knn(&dist_fn(&v, &q), 5, 200, &never).unwrap();
    assert_eq!(all[0].0, 299);
    let early = g.search_knn(&dist_fn(&v, &q), 5, 200, &|| true).unwrap();
    assert!(early.len() <= 5, "what was found by then");
}

#[test]
fn a_layer_search_gives_the_nearest_it_met() {
    let (v, g) = line(20);
    let q = vec![7.0f32, 0.0, 0.0, 0.0, 0.0, 0.0, 0.0, 0.0];
    let found = g.search_layer(&dist_fn(&v, &q), 4, 0, &never);
    assert!(found.iter().any(|(id, _)| *id == 7));
    assert!(found.len() <= 4);
}
