//! Graph snapshot: the graph as one string of bytes, behind a checksum.
//!
//! `[magic: 4][nodes: 4][edges: 4][entry: 8][crc: 4][zeros: 4]`, then the numbers of the nodes
//! (8 bytes each), where each node's neighbors start and end among the edges (4 bytes each, one
//! more than there are nodes), the edges (8 bytes each), and a deletion flag for each node.

use vstd::prelude::*;
use vstd::slice::slice_subrange;
use crate::bytes::{
    le_bytes, le_val, long_bytes, longs_of, push_le, read_le_at, word_bytes, words_of,
};
use crate::error::{Corruption, Result, StoreError};
use crate::vector::nsw::{dangling, edges_valid, with_entry, with_node, NswGraph};
use crate::vector::search::{GraphView, NodeView};

verus! {

pub const MAGIC: u32 = 0xF5_C504;

pub const HEADER: usize = 28;

/// One step of the CRC-32 register.
pub open spec fn crc_bit(c: u32) -> u32 {
    if c & 1 != 0 {
        (c >> 1) ^ 0xEDB8_8320
    } else {
        c >> 1
    }
}

/// `n` steps of the register.
pub open spec fn crc_bits(c: u32, n: nat) -> u32
    decreases n,
{
    if n == 0 {
        c
    } else {
        crc_bit(crc_bits(c, (n - 1) as nat))
    }
}

/// The register after `data`.
pub open spec fn crc_run(c: u32, data: Seq<u8>) -> u32
    decreases data.len(),
{
    if data.len() == 0 {
        c
    } else {
        crc_bits(crc_run(c, data.drop_last()) ^ (data.last() as u32), 8)
    }
}

/// The CRC-32 of `data`.
pub open spec fn crc_of(data: Seq<u8>) -> u32 {
    !crc_run(0xFFFF_FFFF, data)
}

/// Runs the checksum register over `data`.
pub fn crc32_update(crc: u32, data: &[u8]) -> (r: u32)
    ensures
        r == crc_run(crc, data@),
{
    let mut c: u32 = crc;
    let mut i: usize = 0;
    proof {
        assert(data@.take(0) =~= Seq::<u8>::empty());
    }
    while i < data.len()
        invariant
            i <= data@.len(),
            c == crc_run(crc, data@.take(i as int)),
        decreases data@.len() - i,
    {
        let ghost before = c;
        c = c ^ (data[i] as u32);
        let ghost first = c;
        let mut n: usize = 0;
        while n < 8
            invariant
                n <= 8,
                c == crc_bits(first, n as nat),
            decreases 8 - n,
        {
            c = if c & 1 != 0 {
                (c >> 1) ^ 0xEDB8_8320
            } else {
                c >> 1
            };
            n = n + 1;
        }
        proof {
            assert(data@.take(i + 1).drop_last() =~= data@.take(i as int));
        }
        i = i + 1;
    }
    proof {
        assert(data@.take(i as int) =~= data@);
    }
    c
}

/// The checksum in the register.
pub fn crc32_finalize(crc: u32) -> (r: u32)
    ensures
        r == !crc,
{
    !crc
}

/// The nodes of a graph in order.
pub open spec fn node_list(g: GraphView) -> Seq<(u64, NodeView)> {
    Seq::new(g.order.len(), |i: int| (g.order[i], g.nodes[g.order[i]]))
}

pub open spec fn ids_of(list: Seq<(u64, NodeView)>) -> Seq<u64> {
    Seq::new(list.len(), |i: int| list[i].0)
}

/// The neighbors of all nodes, one list after the other.
pub open spec fn edges_of(list: Seq<(u64, NodeView)>) -> Seq<u64>
    decreases list.len(),
{
    if list.len() == 0 {
        Seq::empty()
    } else {
        edges_of(list.drop_last()) + list.last().1.neighbors
    }
}

/// Where each list of neighbors starts, and where the last one ends.
pub open spec fn offsets_of(list: Seq<(u64, NodeView)>) -> Seq<u32> {
    Seq::new(list.len() + 1, |i: int| edges_of(list.take(i)).len() as u32)
}

pub open spec fn flags_of(list: Seq<(u64, NodeView)>) -> Seq<u8> {
    Seq::new(
        list.len(),
        |i: int|
            if list[i].1.deleted {
                1u8
            } else {
                0u8
            },
    )
}

/// What the checksum covers.
pub open spec fn body_bytes(list: Seq<(u64, NodeView)>) -> Seq<u8> {
    long_bytes(ids_of(list)) + word_bytes(offsets_of(list)) + long_bytes(edges_of(list))
        + flags_of(list)
}

/// The header of a snapshot with this body.
pub open spec fn header_bytes(nodes: nat, edges: nat, entry: u64, crc: u32) -> Seq<u8> {
    le_bytes(MAGIC as nat, 4) + le_bytes(nodes, 4) + le_bytes(edges, 4) + le_bytes(entry as nat, 8)
        + le_bytes(crc as nat, 4) + le_bytes(0, 4)
}

pub open spec fn entry_or_zero(g: GraphView) -> u64 {
    match g.entry {
        Some(e) => e,
        None => 0,
    }
}

/// The snapshot of a graph.
pub open spec fn snapshot_of(g: GraphView) -> Seq<u8> {
    let list = node_list(g);
    header_bytes(list.len(), edges_of(list).len(), entry_or_zero(g), crc_of(body_bytes(list)))
        + body_bytes(list)
}

/// Whether a snapshot has room for the numbers of nodes and edges.
pub open spec fn snapshot_fits(g: GraphView) -> bool {
    g.order.len() <= u32::MAX && edges_of(node_list(g)).len() <= u32::MAX
}

spec fn row_view(row: (u64, Vec<u64>, bool)) -> (u64, NodeView) {
    (row.0, NodeView { deleted: row.2, neighbors: row.1@ })
}

spec fn rows_view(rows: Seq<(u64, Vec<u64>, bool)>) -> Seq<(u64, NodeView)> {
    rows.map_values(|row: (u64, Vec<u64>, bool)| row_view(row))
}

/// Whether the graph fits a snapshot.
pub fn fits_snapshot(graph: &NswGraph) -> (r: bool)
    requires
        graph.wf(),
    ensures
        r == snapshot_fits(graph@),
{
    let rows: Vec<(u64, Vec<u64>, bool)> = graph.snapshot_nodes_with_deleted();
    let ghost list = node_list(graph@);
    proof {
        assert(rows_view(rows@) =~= list);
        assert(list.take(0) =~= Seq::<(u64, NodeView)>::empty());
    }
    let limit: usize = u32::MAX as usize;
    let mut room: usize = limit;
    let mut i: usize = 0;
    while i < rows.len()
        invariant
            i <= rows@.len(),
            list == rows_view(rows@),
            list == node_list(graph@),
            room == u32::MAX - edges_of(list.take(i as int)).len(),
        decreases rows@.len() - i,
    {
        let n: usize = rows[i].1.len();
        proof {
            lemma_edges_next(list, i as int);
            lemma_edges_grow(list, i + 1);
        }
        if n > room {
            return false;
        }
        room = room - n;
        i = i + 1;
    }
    proof {
        assert(list.take(i as int) =~= list);
    }
    rows.len() <= limit
}

pub proof fn lemma_edges_next(list: Seq<(u64, NodeView)>, i: int)
    requires
        0 <= i < list.len(),
    ensures
        edges_of(list.take(i + 1)) == edges_of(list.take(i)) + list[i].1.neighbors,
{
    assert(list.take(i + 1).drop_last() =~= list.take(i));
}

pub proof fn lemma_edges_grow(list: Seq<(u64, NodeView)>, i: int)
    requires
        0 <= i <= list.len(),
    ensures
        edges_of(list.take(i)).len() <= edges_of(list).len(),
    decreases list.len() - i,
{
    if i == list.len() {
        assert(list.take(i) =~= list);
    } else {
        lemma_edges_next(list, i);
        lemma_edges_grow(list, i + 1);
    }
}

/// The snapshot of a graph.
pub fn serialize(graph: &NswGraph) -> (r: Vec<u8>)
    requires
        graph.wf(),
        snapshot_fits(graph@),
    ensures
        r@ == snapshot_of(graph@),
{
    let rows: Vec<(u64, Vec<u64>, bool)> = graph.snapshot_nodes_with_deleted();
    let ghost list = node_list(graph@);
    let mut ids: Vec<u8> = Vec::new();
    let mut offsets: Vec<u8> = Vec::new();
    let mut edges: Vec<u8> = Vec::new();
    let mut flags: Vec<u8> = Vec::new();
    let mut acc: u32 = 0;
    push_le(&mut offsets, 0, 4);
    proof {
        assert(rows_view(rows@) =~= list);
        assert(list.take(0) =~= Seq::<(u64, NodeView)>::empty());
        assert(ids_of(list).take(0) =~= Seq::<u64>::empty());
        assert(flags@ =~= flags_of(list).take(0));
        let zero = offsets_of(list).take(1);
        assert(zero.drop_last() =~= Seq::<u32>::empty());
        assert(word_bytes(zero.drop_last()) =~= Seq::<u8>::empty());
        assert(offsets@ =~= word_bytes(zero));
    }
    let mut i: usize = 0;
    while i < rows.len()
        invariant
            i <= rows@.len(),
            list == rows_view(rows@),
            edges_of(list).len() <= u32::MAX,
            acc == edges_of(list.take(i as int)).len(),
            ids@ == long_bytes(ids_of(list).take(i as int)),
            offsets@ == word_bytes(offsets_of(list).take(i + 1)),
            edges@ == long_bytes(edges_of(list.take(i as int))),
            flags@ == flags_of(list).take(i as int),
        decreases rows@.len() - i,
    {
        let neighbors: &Vec<u64> = &rows[i].1;
        proof {
            lemma_edges_next(list, i as int);
            lemma_edges_grow(list, i + 1);
            assert(ids_of(list).take(i + 1).drop_last() =~= ids_of(list).take(i as int));
            assert(offsets_of(list).take(i + 2).drop_last() =~= offsets_of(list).take(i + 1));
        }
        push_le(&mut ids, rows[i].0, 8);
        acc = acc + neighbors.len() as u32;
        push_le(&mut offsets, acc as u64, 4);
        push_all(&mut edges, neighbors, Ghost(edges_of(list.take(i as int))));
        flags.push(
            if rows[i].2 {
                1
            } else {
                0
            },
        );
        proof {
            assert(flags@ =~= flags_of(list).take(i + 1));
        }
        i = i + 1;
    }
    proof {
        assert(list.take(i as int) =~= list);
        assert(ids_of(list).take(i as int) =~= ids_of(list));
        assert(offsets_of(list).take(i + 1) =~= offsets_of(list));
        assert(flags_of(list).take(i as int) =~= flags_of(list));
    }
    let mut body: Vec<u8> = ids;
    body.append(&mut offsets);
    body.append(&mut edges);
    body.append(&mut flags);
    proof {
        assert(body@ =~= body_bytes(list));
    }
    let crc: u32 = crc32_finalize(crc32_update(0xFFFF_FFFF, body.as_slice()));
    let entry: u64 = match graph.snapshot_entry_point() {
        Some(e) => e,
        None => 0,
    };
    let mut out: Vec<u8> = Vec::new();
    push_le(&mut out, MAGIC as u64, 4);
    push_le(&mut out, rows.len() as u64, 4);
    push_le(&mut out, acc as u64, 4);
    push_le(&mut out, entry, 8);
    push_le(&mut out, crc as u64, 4);
    push_le(&mut out, 0, 4);
    proof {
        assert(out@ =~= header_bytes(
            list.len(),
            edges_of(list).len(),
            entry_or_zero(graph@),
            crc_of(body_bytes(list)),
        ));
    }
    out.append(&mut body);
    out
}

/// Appends the bytes of `v` to those of what came before.
fn push_all(out: &mut Vec<u8>, v: &Vec<u64>, Ghost(before): Ghost<Seq<u64>>)
    requires
        old(out)@ == long_bytes(before),
    ensures
        final(out)@ == long_bytes(before + v@),
{
    let mut i: usize = 0;
    proof {
        assert(before + v@.take(0) =~= before);
    }
    while i < v.len()
        invariant
            i <= v@.len(),
            out@ == long_bytes(before + v@.take(i as int)),
        decreases v@.len() - i,
    {
        push_le(out, v[i], 8);
        proof {
            crate::bytes::lemma_long_bytes_push(before + v@.take(i as int), v@[i as int]);
            assert((before + v@.take(i as int)).push(v@[i as int]) =~= before + v@.take(i + 1));
        }
        i = i + 1;
    }
    proof {
        assert(v@.take(i as int) =~= v@);
    }
}

/// What a snapshot's header says.
pub struct HeaderView {
    pub nodes: nat,
    pub edges: nat,
    pub entry: u64,
    pub crc: u32,
}

pub open spec fn header_of(bytes: Seq<u8>) -> HeaderView {
    HeaderView {
        nodes: le_val(bytes.subrange(4, 8)),
        edges: le_val(bytes.subrange(8, 12)),
        entry: le_val(bytes.subrange(12, 20)) as u64,
        crc: le_val(bytes.subrange(20, 24)) as u32,
    }
}

/// Where the offsets start in a snapshot of `n` nodes.
pub open spec fn offsets_start(n: nat) -> int {
    28 + 8 * n as int
}

/// Where the edges start.
pub open spec fn edges_start(n: nat) -> int {
    offsets_start(n) + 4 * (n + 1)
}

/// Where the flags start.
pub open spec fn flags_start(n: nat, e: nat) -> int {
    edges_start(n) + 8 * e
}

/// The length of a snapshot of `n` nodes and `e` edges.
pub open spec fn snapshot_len(n: nat, e: nat) -> int {
    flags_start(n, e) + n
}

pub open spec fn stored_ids(bytes: Seq<u8>) -> Seq<u64> {
    longs_of(bytes.subrange(28, offsets_start(header_of(bytes).nodes)))
}

pub open spec fn stored_offsets(bytes: Seq<u8>) -> Seq<u32> {
    let n = header_of(bytes).nodes;
    words_of(bytes.subrange(offsets_start(n), edges_start(n)))
}

pub open spec fn stored_edges(bytes: Seq<u8>) -> Seq<u64> {
    let h = header_of(bytes);
    longs_of(bytes.subrange(edges_start(h.nodes), flags_start(h.nodes, h.edges)))
}

/// The checksum of what a snapshot stores behind its header.
pub open spec fn stored_body_crc(bytes: Seq<u8>) -> u32 {
    let h = header_of(bytes);
    crc_of(bytes.subrange(28, snapshot_len(h.nodes, h.edges)))
}

/// Whether the neighbors of node `i` lie among the edges.
pub open spec fn range_ok(bytes: Seq<u8>, i: int) -> bool {
    let offs = stored_offsets(bytes);
    offs[i] <= offs[i + 1] <= header_of(bytes).edges
}

/// The node at index `i` of a snapshot.
pub open spec fn stored_node(bytes: Seq<u8>, i: int) -> NodeView {
    let h = header_of(bytes);
    let offs = stored_offsets(bytes);
    NodeView {
        deleted: bytes[flags_start(h.nodes, h.edges) + i] != 0,
        neighbors: stored_edges(bytes).subrange(offs[i] as int, offs[i + 1] as int),
    }
}

/// The first `k` nodes of a snapshot, put into a graph.
pub open spec fn built(bytes: Seq<u8>, k: nat) -> GraphView
    decreases k,
{
    if k == 0 {
        GraphView { order: Seq::empty(), nodes: Map::empty(), entry: None }
    } else {
        with_node(
            built(bytes, (k - 1) as nat),
            stored_ids(bytes)[k - 1],
            stored_node(bytes, k - 1),
        )
    }
}

/// The graph that a snapshot holds.
pub open spec fn stored_graph(bytes: Seq<u8>) -> GraphView {
    let h = header_of(bytes);
    if h.nodes == 0 {
        built(bytes, 0)
    } else {
        with_entry(built(bytes, h.nodes), h.entry)
    }
}

/// The first node of a snapshot whose neighbors do not lie among the edges, from `i` on.
pub open spec fn first_bad_range(bytes: Seq<u8>, i: nat) -> nat
    decreases header_of(bytes).nodes - i,
{
    if i >= header_of(bytes).nodes || !range_ok(bytes, i as int) {
        i
    } else {
        first_bad_range(bytes, i + 1)
    }
}

/// Why bytes are no snapshot, as far as their form goes.
pub open spec fn form_error(bytes: Seq<u8>) -> Option<Corruption> {
    let h = header_of(bytes);
    if bytes.len() < HEADER {
        Some(Corruption::SnapshotTooSmall { len: bytes.len() as usize })
    } else if le_val(bytes.take(4)) != MAGIC {
        Some(Corruption::SnapshotMagic { magic: le_val(bytes.take(4)) as u32 })
    } else if bytes.len() < snapshot_len(h.nodes, h.edges) {
        Some(
            Corruption::SnapshotTruncated {
                len: bytes.len() as usize,
                expected: snapshot_len(h.nodes, h.edges) as u64,
            },
        )
    } else if stored_body_crc(bytes) != h.crc {
        Some(Corruption::SnapshotCrc { stored: h.crc, computed: stored_body_crc(bytes) })
    } else {
        let i = first_bad_range(bytes, 0);
        if i < h.nodes {
            Some(
                Corruption::SnapshotEdgeRange {
                    node: stored_ids(bytes)[i as int],
                    lo: stored_offsets(bytes)[i as int],
                    hi: stored_offsets(bytes)[i as int + 1],
                    edge_count: h.edges as u32,
                },
            )
        } else {
            None
        }
    }
}

/// `e` is why a graph of a well-formed snapshot cannot be searched.
pub open spec fn graph_error(g: GraphView, e: StoreError) -> bool {
    if exists|n: u64, t: u64| dangling(g, n, t) {
        exists|n: u64, t: u64|
            dangling(g, n, t) && e == StoreError::Corrupt(
                Corruption::DanglingEdge { node: n, target: t },
            )
    } else {
        match g.entry {
            Some(entry) => e == StoreError::Corrupt(Corruption::EntryDeleted { entry }),
            None => e == StoreError::Corrupt(Corruption::NoEntryPoint),
        }
    }
}

/// `e` is why a snapshot does not load.
pub open spec fn load_error(bytes: Seq<u8>, e: StoreError) -> bool {
    match form_error(bytes) {
        Some(c) => e == StoreError::Corrupt(c),
        None => graph_error(stored_graph(bytes), e),
    }
}

fn long_at(bytes: &[u8], region: usize, i: usize, Ghost(end): Ghost<int>) -> (r: u64)
    requires
        region + 8 * i + 8 <= end <= bytes@.len(),
    ensures
        r == longs_of(bytes@.subrange(region as int, end))[i as int],
{
    proof {
        assert(bytes@.len() == bytes.len());
        assert(bytes@.subrange(region + 8 * i, region + 8 * i + 8) =~= bytes@.subrange(
            region as int,
            end,
        ).subrange(8 * i as int, 8 * i + 8));
        crate::bytes::lemma_le_limits();
    }
    read_le_at(bytes, region + 8 * i, 8)
}

fn word_at(bytes: &[u8], region: usize, i: usize, Ghost(end): Ghost<int>) -> (r: u32)
    requires
        region + 4 * i + 4 <= end <= bytes@.len(),
    ensures
        r == words_of(bytes@.subrange(region as int, end))[i as int],
{
    proof {
        assert(bytes@.len() == bytes.len());
        assert(bytes@.subrange(region + 4 * i, region + 4 * i + 4) =~= bytes@.subrange(
            region as int,
            end,
        ).subrange(4 * i as int, 4 * i + 4));
        crate::bytes::lemma_le_limits();
    }
    read_le_at(bytes, region + 4 * i, 4) as u32
}

pub proof fn lemma_first_bad(bytes: Seq<u8>, i: nat, k: nat)
    requires
        i <= k <= header_of(bytes).nodes,
        forall|j: int| i <= j < k ==> #[trigger] range_ok(bytes, j),
    ensures
        first_bad_range(bytes, i) == first_bad_range(bytes, k),
    decreases k - i,
{
    if i < k {
        assert(range_ok(bytes, i as int));
        lemma_first_bad(bytes, i + 1, k);
    }
}

/// The graph that a snapshot holds; `None` where there is no snapshot. One that cannot be
/// searched is refused.
pub fn load(snapshot: Option<&[u8]>) -> (r: Result<Option<NswGraph>>)
    ensures
        snapshot is None ==> r is Ok && r->Ok_0 is None,
        snapshot matches Some(bytes) ==> if form_error(bytes@) is None && edges_valid(
            stored_graph(bytes@),
        ) {
            r is Ok && r->Ok_0 is Some && r->Ok_0->Some_0.wf() && r->Ok_0->Some_0@ == stored_graph(
                bytes@,
            )
        } else {
            r is Err && load_error(bytes@, r->Err_0)
        },
{
    let graph: NswGraph = match read_graph(snapshot)? {
        Some(g) => g,
        None => return Ok(None),
    };
    graph.validate_edges()?;
    Ok(Some(graph))
}

/// Whether a graph can be taken up again: no edge dangles, and a graph with nodes has an entry.
/// The entry may be deleted; searches start there all the same.
pub open spec fn resumable(g: GraphView) -> bool {
    &&& forall|node: u64, target: u64| !dangling(g, node, target)
    &&& g.order.len() > 0 ==> g.entry is Some
}

/// The graph that a snapshot holds, to go on with; `None` where there is no snapshot. Deleted
/// nodes stay deleted, the entry among them.
pub fn resume(snapshot: Option<&[u8]>) -> (r: Result<Option<NswGraph>>)
    ensures
        snapshot is None ==> r is Ok && r->Ok_0 is None,
        snapshot matches Some(bytes) ==> if form_error(bytes@) is None && resumable(
            stored_graph(bytes@),
        ) {
            r is Ok && r->Ok_0 is Some && r->Ok_0->Some_0.wf() && r->Ok_0->Some_0@ == stored_graph(
                bytes@,
            )
        } else {
            r is Err && load_error(bytes@, r->Err_0)
        },
{
    let graph: NswGraph = match read_graph(snapshot)? {
        Some(g) => g,
        None => return Ok(None),
    };
    match graph.validate_edges() {
        Ok(()) => {},
        Err(StoreError::Corrupt(Corruption::EntryDeleted { entry: _ })) => {},
        Err(e) => return Err(e),
    }
    Ok(Some(graph))
}

/// The graph that a snapshot of the right form holds.
fn read_graph(snapshot: Option<&[u8]>) -> (r: Result<Option<NswGraph>>)
    ensures
        snapshot is None ==> r is Ok && r->Ok_0 is None,
        snapshot matches Some(bytes) ==> match form_error(bytes@) {
            Some(c) => r is Err && r->Err_0 == StoreError::Corrupt(c),
            None => r is Ok && r->Ok_0 is Some && r->Ok_0->Some_0.wf() && r->Ok_0->Some_0@
                == stored_graph(bytes@),
        },
{
    let bytes: &[u8] = match snapshot {
        Some(b) => b,
        None => return Ok(None),
    };
    proof {
        assert(bytes@.len() == bytes.len());
        crate::bytes::lemma_le_limits();
    }
    if bytes.len() < HEADER {
        return Err(StoreError::Corrupt(Corruption::SnapshotTooSmall { len: bytes.len() }));
    }
    let magic: u32 = read_le_at(bytes, 0, 4) as u32;
    proof {
        assert(bytes@.subrange(0, 4) =~= bytes@.take(4));
    }
    if magic != MAGIC {
        return Err(StoreError::Corrupt(Corruption::SnapshotMagic { magic }));
    }
    let n: u64 = read_le_at(bytes, 4, 4);
    let e: u64 = read_le_at(bytes, 8, 4);
    let entry: u64 = read_le_at(bytes, 12, 8);
    let stored: u32 = read_le_at(bytes, 20, 4) as u32;
    let ghost h = header_of(bytes@);
    let total: u64 = 28 + 8 * n + 4 * (n + 1) + 8 * e + n;
    if (bytes.len() as u64) < total {
        return Err(
            StoreError::Corrupt(
                Corruption::SnapshotTruncated { len: bytes.len(), expected: total },
            ),
        );
    }
    let computed: u32 = crc32_finalize(
        crc32_update(0xFFFF_FFFF, slice_subrange(bytes, HEADER, total as usize)),
    );
    if computed != stored {
        return Err(StoreError::Corrupt(Corruption::SnapshotCrc { stored, computed }));
    }
    let mut graph: NswGraph = NswGraph::new();
    let count: usize = n as usize;
    let edge_count: usize = e as usize;
    let offsets_off: usize = 28 + 8 * count;
    let edges_off: usize = offsets_off + 4 * (count + 1);
    let flags_off: usize = edges_off + 8 * edge_count;
    let mut i: usize = 0;
    while i < count
        invariant
            h == header_of(bytes@),
            count == h.nodes <= u32::MAX,
            edge_count == h.edges <= u32::MAX,
            offsets_off == offsets_start(h.nodes),
            edges_off == edges_start(h.nodes),
            flags_off == flags_start(h.nodes, h.edges),
            snapshot_len(h.nodes, h.edges) <= bytes@.len() <= usize::MAX,
            i <= count,
            graph.wf(),
            graph@ == built(bytes@, i as nat),
            forall|j: int| 0 <= j < i ==> #[trigger] range_ok(bytes@, j),
            bytes@.len() >= HEADER,
            le_val(bytes@.take(4)) == MAGIC,
            stored_body_crc(bytes@) == h.crc,
            snapshot == Some(bytes),
        decreases count - i,
    {
        let id: u64 = long_at(bytes, HEADER, i, Ghost(offsets_off as int));
        let lo: u32 = word_at(bytes, offsets_off, i, Ghost(edges_off as int));
        let hi: u32 = word_at(bytes, offsets_off, i + 1, Ghost(edges_off as int));
        if hi < lo || hi as usize > edge_count {
            proof {
                lemma_first_bad(bytes@, 0, i as nat);
                assert(!range_ok(bytes@, i as int));
                assert(first_bad_range(bytes@, i as nat) == i);
            }
            return Err(
                StoreError::Corrupt(
                    Corruption::SnapshotEdgeRange { node: id, lo, hi, edge_count: edge_count as u32 },
                ),
            );
        }
        let mut neighbors: Vec<u64> = Vec::new();
        let mut j: usize = lo as usize;
        while j < hi as usize
            invariant
                h == header_of(bytes@),
                lo <= j <= hi <= edge_count,
                edge_count == h.edges,
                edges_off == edges_start(h.nodes),
                flags_off == flags_start(h.nodes, h.edges),
                flags_off <= bytes@.len() <= usize::MAX,
                neighbors@ == stored_edges(bytes@).subrange(lo as int, j as int),
                stored_edges(bytes@).len() == edge_count,
            decreases hi - j,
        {
            neighbors.push(long_at(bytes, edges_off, j, Ghost(flags_off as int)));
            j = j + 1;
            proof {
                assert(neighbors@ =~= stored_edges(bytes@).subrange(lo as int, j as int));
            }
        }
        let deleted: bool = bytes[flags_off + i] != 0;
        graph.restore_node(id, neighbors, deleted);
        proof {
            assert(range_ok(bytes@, i as int));
            assert(stored_node(bytes@, i as int) == (NodeView { deleted, neighbors: neighbors@ }));
        }
        i = i + 1;
    }
    proof {
        lemma_first_bad(bytes@, 0, h.nodes);
        assert(first_bad_range(bytes@, h.nodes) == h.nodes);
    }
    if count == 0 {
        return Ok(Some(graph));
    }
    graph.restore_entry_point(entry);
    Ok(Some(graph))
}

} // verus!
