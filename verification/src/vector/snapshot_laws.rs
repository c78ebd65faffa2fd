//! What holds of every snapshot: it gives the graph back, and a changed byte is found out.

use vstd::prelude::*;
use crate::bytes::{
    le_bytes, le_round_trip, le_val, lemma_le_bytes_len, lemma_le_limits, lemma_long_bytes_len,
    lemma_word_bytes_len, long_bytes, longs_round_trip, word_bytes, words_round_trip,
};
use crate::error::{Corruption, StoreError};
use crate::vector::nsw::edges_valid;
use crate::vector::search::{GraphView, NodeView};
use crate::vector::snapshot::{
    body_bytes, built, crc_bit, crc_bits, crc_of, crc_run, edges_of, edges_start, entry_or_zero,
    first_bad_range, flags_of, flags_start, form_error, graph_error, header_bytes, header_of,
    ids_of, lemma_edges_grow, lemma_edges_next, lemma_first_bad, node_list, offsets_of,
    offsets_start, range_ok, snapshot_fits, snapshot_len, snapshot_of, stored_body_crc,
    stored_edges, stored_graph, stored_ids, stored_node, stored_offsets, HeaderView, MAGIC,
};

verus! {

proof fn lemma_header(nodes: nat, edges: nat, entry: u64, crc: u32, rest: Seq<u8>)
    requires
        nodes <= u32::MAX,
        edges <= u32::MAX,
    ensures
        header_bytes(nodes, edges, entry, crc).len() == 28,
        le_val((header_bytes(nodes, edges, entry, crc) + rest).take(4)) == MAGIC,
        header_of(header_bytes(nodes, edges, entry, crc) + rest) == (HeaderView {
            nodes,
            edges,
            entry,
            crc,
        }),
{
    lemma_le_limits();
    lemma_le_bytes_len(MAGIC as nat, 4);
    lemma_le_bytes_len(nodes, 4);
    lemma_le_bytes_len(edges, 4);
    lemma_le_bytes_len(entry as nat, 8);
    lemma_le_bytes_len(crc as nat, 4);
    lemma_le_bytes_len(0, 4);
    le_round_trip(MAGIC as nat, 4);
    le_round_trip(nodes, 4);
    le_round_trip(edges, 4);
    le_round_trip(entry as nat, 8);
    le_round_trip(crc as nat, 4);
    let all = header_bytes(nodes, edges, entry, crc) + rest;
    assert(all.take(4) =~= le_bytes(MAGIC as nat, 4));
    assert(all.subrange(4, 8) =~= le_bytes(nodes, 4));
    assert(all.subrange(8, 12) =~= le_bytes(edges, 4));
    assert(all.subrange(12, 20) =~= le_bytes(entry as nat, 8));
    assert(all.subrange(20, 24) =~= le_bytes(crc as nat, 4));
}

/// The regions of a snapshot hold what was put there.
proof fn lemma_regions(g: GraphView)
    requires
        snapshot_fits(g),
    ensures
        ({
            let bytes = snapshot_of(g);
            let list = node_list(g);
            &&& bytes.len() == snapshot_len(list.len(), edges_of(list).len())
            &&& le_val(bytes.take(4)) == MAGIC
            &&& header_of(bytes) == (HeaderView {
                nodes: list.len(),
                edges: edges_of(list).len(),
                entry: entry_or_zero(g),
                crc: crc_of(body_bytes(list)),
            })
            &&& stored_body_crc(bytes) == crc_of(body_bytes(list))
            &&& stored_ids(bytes) == ids_of(list)
            &&& stored_offsets(bytes) == offsets_of(list)
            &&& stored_edges(bytes) == edges_of(list)
            &&& forall|i: int|
                0 <= i < list.len() ==> #[trigger] bytes[flags_start(
                    list.len(),
                    edges_of(list).len(),
                ) + i] == flags_of(list)[i]
        }),
{
    let bytes = snapshot_of(g);
    let list = node_list(g);
    let n = list.len();
    let e = edges_of(list).len();
    let ids = long_bytes(ids_of(list));
    let offs = word_bytes(offsets_of(list));
    let edges = long_bytes(edges_of(list));
    let flags = flags_of(list);
    let body = body_bytes(list);
    let crc = crc_of(body);
    lemma_header(n, e, entry_or_zero(g), crc, body);
    lemma_long_bytes_len(ids_of(list));
    lemma_word_bytes_len(offsets_of(list));
    lemma_long_bytes_len(edges_of(list));
    longs_round_trip(ids_of(list));
    words_round_trip(offsets_of(list));
    longs_round_trip(edges_of(list));
    assert(bytes.subrange(28, offsets_start(n)) =~= ids);
    assert(bytes.subrange(offsets_start(n), edges_start(n)) =~= offs);
    assert(bytes.subrange(edges_start(n), flags_start(n, e)) =~= edges);
    assert(bytes.subrange(28, snapshot_len(n, e)) =~= body);
    assert forall|i: int| 0 <= i < n implies #[trigger] bytes[flags_start(n, e) + i]
        == flags[i] by {
        assert(body[ids.len() + offs.len() + edges.len() + i] == flags[i]);
    }
}

/// The neighbors of a node lie where the offsets say.
proof fn lemma_neighbors(list: Seq<(u64, NodeView)>, i: int)
    requires
        0 <= i < list.len(),
    ensures
        edges_of(list.take(i)).len() <= edges_of(list.take(i + 1)).len() <= edges_of(list).len(),
        edges_of(list).subrange(
            edges_of(list.take(i)).len() as int,
            edges_of(list.take(i + 1)).len() as int,
        ) == list[i].1.neighbors,
{
    lemma_edges_next(list, i);
    lemma_edges_grow(list, i + 1);
    lemma_edges_prefix(list, i + 1);
    let a = edges_of(list.take(i)).len() as int;
    let b = edges_of(list.take(i + 1)).len() as int;
    assert(edges_of(list).subrange(a, b) =~= edges_of(list.take(i + 1)).subrange(a, b));
    assert(edges_of(list.take(i + 1)).subrange(a, b) =~= list[i].1.neighbors);
}

proof fn lemma_edges_prefix(list: Seq<(u64, NodeView)>, k: int)
    requires
        0 <= k <= list.len(),
    ensures
        edges_of(list.take(k)).len() <= edges_of(list).len(),
        forall|j: int|
            0 <= j < edges_of(list.take(k)).len() ==> edges_of(list)[j] == #[trigger] edges_of(
                list.take(k),
            )[j],
    decreases list.len() - k,
{
    if k == list.len() {
        assert(list.take(k) =~= list);
    } else {
        lemma_edges_prefix(list, k + 1);
        lemma_edges_next(list, k);
        assert forall|j: int| 0 <= j < edges_of(list.take(k)).len() implies edges_of(list)[j]
            == #[trigger] edges_of(list.take(k))[j] by {
            assert(edges_of(list.take(k + 1))[j] == edges_of(list.take(k))[j]);
        }
    }
}

proof fn lemma_built(g: GraphView, k: nat)
    requires
        g.ordered(),
        snapshot_fits(g),
        k <= g.order.len(),
    ensures
        ({
            let b = built(snapshot_of(g), k);
            &&& b.order == g.order.take(k as int)
            &&& b.entry is None
            &&& forall|id: u64| #[trigger]
                b.nodes.contains_key(id) <==> g.order.take(k as int).contains(id)
            &&& forall|id: u64| #[trigger]
                b.nodes.contains_key(id) ==> b.nodes[id] == g.nodes[id]
        }),
        forall|i: int| 0 <= i < g.order.len() ==> #[trigger] range_ok(snapshot_of(g), i),
    decreases k,
{
    let bytes = snapshot_of(g);
    let list = node_list(g);
    lemma_regions(g);
    assert forall|i: int| 0 <= i < g.order.len() implies #[trigger] range_ok(bytes, i) by {
        lemma_neighbors(list, i);
    }
    if k == 0 {
        assert(built(bytes, 0).order =~= g.order.take(0));
    } else {
        let i = k - 1;
        lemma_built(g, i as nat);
        lemma_neighbors(list, i);
        let prev = built(bytes, i as nat);
        let b = built(bytes, k);
        let id = g.order[i];
        assert(stored_ids(bytes)[i] == id);
        assert(bytes[flags_start(list.len(), edges_of(list).len()) + i] == flags_of(list)[i]);
        assert(stored_node(bytes, i) == g.nodes[id]);
        let pre = g.order.take(i);
        let post = g.order.take(k as int);
        assert(post =~= pre.push(id));
        assert(!pre.contains(id)) by {
            if pre.contains(id) {
                let j = choose|j: int| 0 <= j < pre.len() && pre[j] == id;
                assert(g.order[j] == g.order[i]);
            }
        }
        assert forall|x: u64| post.contains(x) <==> pre.contains(x) || x == id by {
            if pre.contains(x) {
                let j = choose|j: int| 0 <= j < pre.len() && pre[j] == x;
                assert(post[j] == x);
            }
            assert(post[i] == id);
        }
        assert(b.order =~= post);
    }
}

/// A snapshot gives its graph back: its form is right, and what it holds is the graph. So
/// loading it succeeds with the graph if that can be searched, and is refused if not. The one
/// graph that comes back otherwise has no entry but a node of number 0, which then is the entry.
pub proof fn snapshot_round_trip(g: GraphView)
    requires
        g.ordered(),
        snapshot_fits(g),
        g.entry is Some || !g.nodes.contains_key(0),
    ensures
        form_error(snapshot_of(g)) is None,
        stored_graph(snapshot_of(g)) == g,
{
    let bytes = snapshot_of(g);
    let n = g.order.len();
    lemma_regions(g);
    lemma_built(g, n);
    lemma_first_bad(bytes, 0, n);
    assert(g.order.take(n as int) =~= g.order);
    let b = built(bytes, n);
    assert(b.nodes =~= g.nodes) by {
        assert forall|id: u64| b.nodes.contains_key(id) <==> g.nodes.contains_key(id) by {
            assert(g.order.contains(id) <==> g.nodes.contains_key(id));
        }
    }
    if n == 0 {
        if g.entry is Some {
            let id = g.entry->Some_0;
            assert(g.order.contains(id));
        }
        assert(b == g);
    }
}

proof fn lemma_crc_bit_one_to_one(a: u32, b: u32)
    by (bit_vector)
    requires
        crc_bit(a) == crc_bit(b),
    ensures
        a == b,
{
}

proof fn lemma_crc_bits_one_to_one(a: u32, b: u32, n: nat)
    requires
        crc_bits(a, n) == crc_bits(b, n),
    ensures
        a == b,
    decreases n,
{
    if n > 0 {
        lemma_crc_bit_one_to_one(crc_bits(a, (n - 1) as nat), crc_bits(b, (n - 1) as nat));
        lemma_crc_bits_one_to_one(a, b, (n - 1) as nat);
    }
}

proof fn lemma_xor_one_to_one(a: u32, b: u32, x: u32)
    by (bit_vector)
    requires
        a ^ x == b ^ x,
    ensures
        a == b,
{
}

proof fn lemma_xor_bytes(c: u32, x: u8, y: u8)
    by (bit_vector)
    requires
        c ^ (x as u32) == c ^ (y as u32),
    ensures
        x == y,
{
}

/// Two strings of bytes that differ in one place have different checksums.
pub proof fn one_changed_byte_changes_the_checksum(data: Seq<u8>, at: int, byte: u8)
    requires
        0 <= at < data.len(),
        byte != data[at],
    ensures
        crc_of(data.update(at, byte)) != crc_of(data),
{
    lemma_crc_run_differs(data, at, byte);
    let a = crc_run(0xFFFF_FFFF, data);
    let b = crc_run(0xFFFF_FFFF, data.update(at, byte));
    assert(a != b ==> !a != !b) by (bit_vector);
}

proof fn lemma_crc_run_differs(data: Seq<u8>, at: int, byte: u8)
    requires
        0 <= at < data.len(),
        byte != data[at],
    ensures
        crc_run(0xFFFF_FFFF, data.update(at, byte)) != crc_run(0xFFFF_FFFF, data),
    decreases data.len(),
{
    let other = data.update(at, byte);
    let init = data.drop_last();
    let c = crc_run(0xFFFF_FFFF, init);
    if at == data.len() - 1 {
        assert(other.drop_last() =~= init);
        if crc_run(0xFFFF_FFFF, other) == crc_run(0xFFFF_FFFF, data) {
            lemma_crc_bits_one_to_one(c ^ (byte as u32), c ^ (data.last() as u32), 8);
            lemma_xor_bytes(c, byte, data.last());
        }
    } else {
        lemma_crc_run_differs(init, at, byte);
        assert(other.drop_last() =~= init.update(at, byte));
        let c2 = crc_run(0xFFFF_FFFF, other.drop_last());
        let x = data.last() as u32;
        if crc_run(0xFFFF_FFFF, other) == crc_run(0xFFFF_FFFF, data) {
            lemma_crc_bits_one_to_one(c2 ^ x, c ^ x, 8);
            lemma_xor_one_to_one(c2, c, x);
        }
    }
}

/// A snapshot with one byte changed behind its header is refused, as its checksum is wrong.
pub proof fn changed_snapshot_is_refused(bytes: Seq<u8>, at: int, byte: u8)
    requires
        form_error(bytes) is None,
        28 <= at < snapshot_len(header_of(bytes).nodes, header_of(bytes).edges),
        byte != bytes[at],
    ensures
        form_error(bytes.update(at, byte)) matches Some(Corruption::SnapshotCrc { .. }),
{
    let other = bytes.update(at, byte);
    assert(other.take(4) =~= bytes.take(4));
    assert(other.subrange(4, 8) =~= bytes.subrange(4, 8));
    assert(other.subrange(8, 12) =~= bytes.subrange(8, 12));
    assert(other.subrange(12, 20) =~= bytes.subrange(12, 20));
    assert(other.subrange(20, 24) =~= bytes.subrange(20, 24));
    let total = snapshot_len(header_of(bytes).nodes, header_of(bytes).edges);
    let body = bytes.subrange(28, total);
    assert(other.subrange(28, total) =~= body.update(at - 28, byte));
    one_changed_byte_changes_the_checksum(body, at - 28, byte);
}

/// A snapshot cut short is refused.
pub proof fn truncated_snapshot_is_refused(g: GraphView, len: int)
    requires
        snapshot_fits(g),
        0 <= len < snapshot_of(g).len(),
    ensures
        form_error(snapshot_of(g).take(len)) is Some,
{
    lemma_regions(g);
    let bytes = snapshot_of(g);
    let cut = bytes.take(len);
    if len >= 28 {
        assert(cut.subrange(4, 8) =~= bytes.subrange(4, 8));
        assert(cut.subrange(8, 12) =~= bytes.subrange(8, 12));
    }
}

/// How a snapshot is laid out: its mark, the numbers of nodes and edges, the entry, the checksum
/// of everything behind the header, and the header is 28 bytes; then eight bytes for each node,
/// four for each offset, of which there is one more than nodes, eight for each edge, and one for
/// each node's mark.
pub proof fn snapshots_are_laid_out(g: GraphView)
    requires
        snapshot_fits(g),
    ensures
        ({
            let s = snapshot_of(g);
            let n = g.order.len();
            let e = edges_of(node_list(g)).len();
            &&& s.len() == 28 + 8 * n + 4 * (n + 1) + 8 * e + n
            &&& le_val(s.take(4)) == 0x00F5_C504
            &&& le_val(s.subrange(4, 8)) == n
            &&& le_val(s.subrange(8, 12)) == e
            &&& le_val(s.subrange(12, 20)) == (match g.entry {
                Some(x) => x as nat,
                None => 0,
            })
            &&& le_val(s.subrange(20, 24)) == crc_of(s.skip(28))
        }),
{
    let list = node_list(g);
    let n = list.len();
    let e = edges_of(list).len();
    let body = body_bytes(list);
    let crc = crc_of(body);
    let h = header_bytes(n, e, entry_or_zero(g), crc);
    let s = snapshot_of(g);
    lemma_le_limits();
    lemma_le_bytes_len(MAGIC as nat, 4);
    lemma_le_bytes_len(n, 4);
    lemma_le_bytes_len(e, 4);
    lemma_le_bytes_len(entry_or_zero(g) as nat, 8);
    lemma_le_bytes_len(crc as nat, 4);
    lemma_le_bytes_len(0, 4);
    le_round_trip(MAGIC as nat, 4);
    le_round_trip(n, 4);
    le_round_trip(e, 4);
    le_round_trip(entry_or_zero(g) as nat, 8);
    le_round_trip(crc as nat, 4);
    assert(s.take(4) =~= le_bytes(MAGIC as nat, 4));
    assert(s.subrange(4, 8) =~= le_bytes(n, 4));
    assert(s.subrange(8, 12) =~= le_bytes(e, 4));
    assert(s.subrange(12, 20) =~= le_bytes(entry_or_zero(g) as nat, 8));
    assert(s.subrange(20, 24) =~= le_bytes(crc as nat, 4));
    assert(s.skip(28) =~= body);
    lemma_long_bytes_len(ids_of(list));
    lemma_word_bytes_len(offsets_of(list));
    lemma_long_bytes_len(edges_of(list));
}

/// The edges of a snapshot are the neighbors of its nodes, node after node.
pub proof fn edges_go_node_by_node(
    a: Seq<(u64, NodeView)>,
    b: Seq<(u64, NodeView)>,
    n: (u64, NodeView),
)
    ensures
        edges_of(a + b) == edges_of(a) + edges_of(b),
        edges_of(seq![n]) == n.1.neighbors,
    decreases b.len(),
{
    assert(seq![n].drop_last() =~= Seq::<(u64, NodeView)>::empty());
    assert(edges_of(Seq::<(u64, NodeView)>::empty()) =~= Seq::<u64>::empty());
    assert(Seq::<u64>::empty() + n.1.neighbors =~= n.1.neighbors);
    if b.len() == 0 {
        assert(a + b =~= a);
        assert(edges_of(a) + edges_of(b) =~= edges_of(a));
    } else {
        edges_go_node_by_node(a, b.drop_last(), n);
        assert((a + b).drop_last() =~= a + b.drop_last());
        assert((a + b).last() == b.last());
        assert(edges_of(a + b) =~= edges_of(a) + edges_of(b));
    }
}

/// Bytes are a snapshot in form exactly where they begin with the mark, are as long as their
/// header says, have the checksum that it says, and every list of neighbors lies among the edges.
pub proof fn snapshots_are_known_by_their_form(bytes: Seq<u8>)
    ensures
        form_error(bytes) is None <==> {
            let h = header_of(bytes);
            &&& bytes.len() >= 28
            &&& le_val(bytes.take(4)) == 0x00F5_C504
            &&& bytes.len() >= 28 + 8 * h.nodes + 4 * (h.nodes + 1) + 8 * h.edges + h.nodes
            &&& stored_body_crc(bytes) == h.crc
            &&& forall|i: int|
                0 <= i < h.nodes ==> #[trigger] stored_offsets(bytes)[i] <= stored_offsets(bytes)[i
                    + 1] <= h.edges
        },
        bytes.len() < 28 ==> form_error(bytes) matches Some(Corruption::SnapshotTooSmall { .. }),
        bytes.len() >= 28 && le_val(bytes.take(4)) != 0x00F5_C504 ==> form_error(
            bytes,
        ) matches Some(Corruption::SnapshotMagic { .. }),
{
    lemma_first_bad_is_first(bytes, 0);
    let k = first_bad_range(bytes, 0);
    if k < header_of(bytes).nodes {
        assert(!range_ok(bytes, k as int));
        assert(!(stored_offsets(bytes)[k as int] <= stored_offsets(bytes)[k as int + 1]
            <= header_of(bytes).edges));
    } else {
        assert forall|i: int| 0 <= i < header_of(bytes).nodes implies #[trigger] stored_offsets(
            bytes,
        )[i] <= stored_offsets(bytes)[i + 1] <= header_of(bytes).edges by {
            assert(range_ok(bytes, i));
        }
    }
}

proof fn lemma_first_bad_is_first(bytes: Seq<u8>, i: nat)
    requires
        i <= header_of(bytes).nodes,
    ensures
        i <= first_bad_range(bytes, i) <= header_of(bytes).nodes,
        forall|j: int| i <= j < first_bad_range(bytes, i) ==> #[trigger] range_ok(bytes, j),
        first_bad_range(bytes, i) < header_of(bytes).nodes ==> !range_ok(
            bytes,
            first_bad_range(bytes, i) as int,
        ),
    decreases header_of(bytes).nodes - i,
{
    if i < header_of(bytes).nodes && range_ok(bytes, i as int) {
        lemma_first_bad_is_first(bytes, i + 1);
    }
}

/// Why a graph cannot be searched is told truly: an edge that is named dangles, an entry that is
/// named is there and deleted, and only a graph without an entry is said to have none.
pub proof fn graph_errors_are_true(g: GraphView, e: StoreError)
    requires
        !edges_valid(g),
        graph_error(g, e),
    ensures
        match e {
            StoreError::Corrupt(Corruption::DanglingEdge { node, target }) => g.nodes.contains_key(
                node,
            ) && g.nodes[node].neighbors.contains(target) && !g.nodes.contains_key(target),
            StoreError::Corrupt(Corruption::EntryDeleted { entry }) => g.entry == Some(entry)
                && !g.live(entry),
            StoreError::Corrupt(Corruption::NoEntryPoint) => g.entry is None && g.order.len() > 0,
            _ => false,
        },
{
}

spec fn crc_byte(c: u32) -> u32 {
    crc_bit(crc_bit(crc_bit(crc_bit(crc_bit(crc_bit(crc_bit(crc_bit(c))))))))
}

proof fn lemma_crc_byte(c: u32)
    ensures
        crc_bits(c, 8) == crc_byte(c),
{
    reveal_with_fuel(crc_bits, 9);
}

/// What lies above the lowest byte of the register moves down unchanged.
proof fn lemma_crc_shift(x: u32, y: u32)
    requires
        y < 0x100_0000,
    ensures
        crc_byte(x ^ (y << 8)) == crc_byte(x) ^ y,
{
    assert(crc_byte(x ^ (y << 8)) == crc_byte(x) ^ y) by (bit_vector)
        requires
            y < 0x100_0000,
    ;
}

/// A checksum put behind its data, lowest byte first, leaves the register at the same number
/// whatever the data is.
pub proof fn checksums_leave_one_residue(data: Seq<u8>)
    ensures
        crc_run(
            0xFFFF_FFFF,
            data + seq![
                (crc_of(data) & 0xFF) as u8,
                ((crc_of(data) >> 8) & 0xFF) as u8,
                ((crc_of(data) >> 16) & 0xFF) as u8,
                ((crc_of(data) >> 24) & 0xFF) as u8,
            ],
        ) == 0xDEBB_20E3,
{
    let r = crc_run(0xFFFF_FFFF, data);
    let w = crc_of(data);
    let b0 = (w & 0xFF) as u8;
    let b1 = ((w >> 8) & 0xFF) as u8;
    let b2 = ((w >> 16) & 0xFF) as u8;
    let b3 = ((w >> 24) & 0xFF) as u8;
    let s1 = data.push(b0);
    let s2 = s1.push(b1);
    let s3 = s2.push(b2);
    let s4 = s3.push(b3);
    assert(data + seq![b0, b1, b2, b3] =~= s4);
    assert(s4.drop_last() =~= s3 && s3.drop_last() =~= s2 && s2.drop_last() =~= s1
        && s1.drop_last() =~= data);
    let y1 = w >> 8;
    let y2 = w >> 16;
    let y3 = w >> 24;
    let c0 = r ^ (b0 as u32);
    lemma_crc_byte(c0);
    let c1 = crc_byte(c0) ^ (b1 as u32);
    lemma_crc_byte(c1);
    let c2 = crc_byte(c1) ^ (b2 as u32);
    lemma_crc_byte(c2);
    let c3 = crc_byte(c2) ^ (b3 as u32);
    lemma_crc_byte(c3);
    assert(y1 < 0x100_0000 && y2 < 0x100_0000 && y3 < 0x100_0000) by (bit_vector)
        requires
            y1 == w >> 8,
            y2 == w >> 16,
            y3 == w >> 24,
    ;
    assert(b0 as u32 == w & 0xFF && b1 as u32 == (w >> 8) & 0xFF && b2 as u32 == (w >> 16) & 0xFF
        && b3 as u32 == (w >> 24) & 0xFF) by (bit_vector)
        requires
            b0 == (w & 0xFF) as u8,
            b1 == ((w >> 8) & 0xFF) as u8,
            b2 == ((w >> 16) & 0xFF) as u8,
            b3 == ((w >> 24) & 0xFF) as u8,
    ;
    let z0 = b0 as u32;
    let z1 = b1 as u32;
    let z2 = b2 as u32;
    let z3 = b3 as u32;
    let all = 0xFFFF_FFFFu32;
    assert(c0 ^ (y1 << 8) == all) by (bit_vector)
        requires
            w == !r,
            z0 == w & 0xFF,
            y1 == w >> 8,
            c0 == r ^ z0,
            all == 0xFFFF_FFFFu32,
    ;
    lemma_crc_shift(c0, y1);
    let k0 = crc_byte(c0);
    assert(c1 ^ (y2 << 8) == k0 ^ y1) by (bit_vector)
        requires
            z1 == (w >> 8) & 0xFF,
            y1 == w >> 8,
            y2 == w >> 16,
            c1 == k0 ^ z1,
    ;
    lemma_crc_shift(c1, y2);
    let k1 = crc_byte(c1);
    assert(c2 ^ (y3 << 8) == k1 ^ y2) by (bit_vector)
        requires
            z2 == (w >> 16) & 0xFF,
            y2 == w >> 16,
            y3 == w >> 24,
            c2 == k1 ^ z2,
    ;
    lemma_crc_shift(c2, y3);
    let k2 = crc_byte(c2);
    assert(c3 == k2 ^ y3) by (bit_vector)
        requires
            z3 == (w >> 24) & 0xFF,
            y3 == w >> 24,
            c3 == k2 ^ z3,
    ;
    assert(crc_byte(crc_byte(crc_byte(crc_byte(0xFFFF_FFFFu32)))) == 0xDEBB_20E3u32)
        by (bit_vector);
    assert(crc_run(0xFFFF_FFFF, s1) == k0);
    assert(crc_run(0xFFFF_FFFF, s2) == k1);
    assert(crc_run(0xFFFF_FFFF, s3) == k2);
    assert(crc_run(0xFFFF_FFFF, s4) == crc_byte(c3));
}

/// Where the nodes of a snapshot stand in its bytes: the mark of the `i`-th behind everything else,
/// set where its byte is not zero, and its neighbors among the edges, from its own offset to the
/// next, eight bytes each.
pub proof fn stored_nodes_are_read_where_they_stand(bytes: Seq<u8>, i: int, j: int)
    requires
        form_error(bytes) is None,
        0 <= i < header_of(bytes).nodes,
        0 <= j < stored_offsets(bytes)[i + 1] - stored_offsets(bytes)[i],
    ensures
        ({
            let n = header_of(bytes).nodes;
            let e = header_of(bytes).edges;
            let at = 28 + 8 * n + 4 * (n + 1);
            let node = stored_node(bytes, i);
            let edge = at + 8 * (stored_offsets(bytes)[i] + j);
            &&& node.deleted <==> bytes[at + 8 * e + i] != 0
            &&& node.neighbors.len() == stored_offsets(bytes)[i + 1] - stored_offsets(bytes)[i]
            &&& node.neighbors[j] == le_val(bytes.subrange(edge, edge + 8))
            &&& stored_offsets(bytes)[i] == le_val(
                bytes.subrange(28 + 8 * n + 4 * i, 28 + 8 * n + 4 * i + 4),
            )
            &&& stored_ids(bytes)[i] == le_val(bytes.subrange(28 + 8 * i, 28 + 8 * i + 8))
        }),
{
    snapshots_are_known_by_their_form(bytes);
    lemma_le_limits();
    let n = header_of(bytes).nodes;
    let e = header_of(bytes).edges;
    let lo = stored_offsets(bytes)[i] as int;
    assert(lo <= stored_offsets(bytes)[i + 1] <= e);
    let region = bytes.subrange(edges_start(n), flags_start(n, e));
    let m = lo + j;
    assert(region.subrange(8 * m, 8 * m + 8) =~= bytes.subrange(
        edges_start(n) + 8 * m,
        edges_start(n) + 8 * m + 8,
    ));
    crate::bytes::lemma_le_val_bound(region.subrange(8 * m, 8 * m + 8));
    let offs = bytes.subrange(offsets_start(n), edges_start(n));
    assert(offs.subrange(4 * i, 4 * i + 4) =~= bytes.subrange(
        offsets_start(n) + 4 * i,
        offsets_start(n) + 4 * i + 4,
    ));
    crate::bytes::lemma_le_val_bound(offs.subrange(4 * i, 4 * i + 4));
    let ids = bytes.subrange(28, offsets_start(n));
    assert(ids.subrange(8 * i, 8 * i + 8) =~= bytes.subrange(28 + 8 * i, 28 + 8 * i + 8));
    crate::bytes::lemma_le_val_bound(ids.subrange(8 * i, 8 * i + 8));
}

} // verus!
