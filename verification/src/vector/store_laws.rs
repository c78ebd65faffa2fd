//! What holds of every vector index: vectors read back as they were put, whatever comes after
//! them; a compaction keeps exactly the vectors that are not deleted and moves them out of the
//! segments that then go; a snapshot brings the graph back, deleted vectors included.

use vstd::prelude::*;
use crate::bytes::{lemma_word_bytes_len, word_bytes, words_of, words_round_trip};
use crate::error::{Corruption, StoreError};
use crate::mem::segment::{AppendPlan, PoolView, ValueLocator};
use crate::mem::segment_laws::{new_numbers_are_free, payload_at, within, written, Memory};
use crate::text::name_number;
use crate::vector::locators::{table_of, TableView};
use crate::vector::nsw::{edges_valid, ids_where, inserted, with_deleted, M};
use crate::vector::pool::{pool_sound, pools_stay_sound, vec_appended};
use crate::vector::search::{GraphView, NodeView};
use crate::vector::search_laws::{
    degrees_bounded, deletion_keeps_the_graph_sound, insertion_keeps_the_graph_sound,
    lemma_ids_where, lemma_same_len, lists_tidy, neighbor_lists_stay_tidy, no_dangling,
};
use crate::vector::snapshot::{edges_of, node_list, resumable, snapshot_fits, snapshot_of};
use crate::vector::snapshot_laws::snapshot_round_trip;
use crate::vector::store::{
    batch_error, batch_step, comes_before, compact_result, compacted, dist_from, first_lost,
    first_misfit, first_repeated, first_taken, in_step, index_sound, insert_error, item_ids, kept,
    kept_ids, loaded_graph, marked, move_entries, move_ids, move_step, opened_pool, placed,
    placed_all, rebuilt, refreshed, reopened, rewritten, rewritten_at, rewritten_table, stands,
    vectors_fit, CompactPlan, IndexView, Move,
};

verus! {

/// A pool whose places fit a locator and whose vectors fit a segment.
pub open spec fn pool_ok(p: PoolView, need: nat) -> bool {
    p.seg_size <= u32::MAX && need <= p.seg_size && p.cursor <= p.seg_size
}

/// A placed vector reads back as it was written, and every vector placed before reads as it
/// did.
pub proof fn placing_keeps_what_is_written(
    p: PoolView,
    held: spec_fn(u32) -> bool,
    data: Seq<u8>,
    mem: Memory,
    earlier: ValueLocator,
)
    requires
        p.active < u32::MAX,
        pool_ok(p, data.len()),
        within(p, earlier),
    ensures
        ({
            let (q, loc) = vec_appended(p, held, data.len());
            let after = written(mem, loc.seg_id, loc.offset as int, data);
            &&& payload_at(after, loc) == data
            &&& payload_at(after, earlier) == payload_at(mem, earlier)
            &&& within(q, loc)
            &&& within(q, earlier)
            &&& pool_ok(q, data.len())
            &&& p.active <= q.active <= p.active + 1
            &&& loc.seg_id == q.active
        }),
{
    let (q, loc) = vec_appended(p, held, data.len());
    let after = written(mem, loc.seg_id, loc.offset as int, data);
    assert(payload_at(after, loc) =~= data);
    assert(payload_at(after, earlier) =~= payload_at(mem, earlier));
}

/// The segments after the first `k` kept vectors have been copied.
pub open spec fn copied(
    mem: Memory,
    v: IndexView,
    held: spec_fn(u32) -> bool,
    k: nat,
) -> Memory
    decreases k,
{
    if k == 0 {
        mem
    } else {
        let loc = rewritten_at(v.pool, held, 4 * v.schema.dim as nat, (k - 1) as nat);
        written(
            copied(mem, v, held, (k - 1) as nat),
            loc.seg_id,
            loc.offset as int,
            payload_at(mem, v.table.locs[kept_ids(v)[k - 1]]),
        )
    }
}

/// Every locator of the index lies within its pool and has the length of a vector.
pub open spec fn located(v: IndexView) -> bool {
    forall|id: u64| #[trigger]
        v.table.locs.contains_key(id) ==> within(v.pool, v.table.locs[id])
            && v.table.locs[id].len == 4 * v.schema.dim
}

pub(crate) proof fn lemma_kept(v: IndexView, k: nat)
    requires
        v.table.ordered(),
        k <= v.table.order.len(),
    ensures
        kept(v, k).len() <= k,
        kept(v, k).no_duplicates(),
        forall|id: u64| #[trigger]
            kept(v, k).contains(id) <==> v.table.order.take(k as int).contains(id) && !(
            v.graph.nodes.contains_key(id) && v.graph.nodes[id].deleted),
    decreases k,
{
    let now = kept(v, k);
    if k > 0 {
        let j = (k - 1) as nat;
        lemma_kept(v, j);
        let before = kept(v, j);
        let id = v.table.order[j as int];
        let pre = v.table.order.take(j as int);
        let post = v.table.order.take(k as int);
        assert(post =~= pre.push(id));
        assert(!pre.contains(id)) by {
            if pre.contains(id) {
                let i = choose|i: int| 0 <= i < pre.len() && pre[i] == id;
                assert(v.table.order[i] == v.table.order[j as int]);
            }
        }
        assert forall|x: u64| post.contains(x) <==> pre.contains(x) || x == id by {
            if pre.contains(x) {
                let i = choose|i: int| 0 <= i < pre.len() && pre[i] == x;
                assert(post[i] == x);
            }
            assert(post[j as int] == id);
        }
        if !(v.graph.nodes.contains_key(id) && v.graph.nodes[id].deleted) {
            assert forall|x: u64| now.contains(x) <==> before.contains(x) || x == id by {
                if before.contains(x) {
                    let i = choose|i: int| 0 <= i < before.len() && before[i] == x;
                    assert(now[i] == x);
                }
                assert(now[before.len() as int] == id);
            }
            assert(!before.contains(id));
            assert forall|a: int, b: int| 0 <= a < b < now.len() implies now[a] != now[b] by {
                if b == before.len() {
                    assert(before.contains(before[a]));
                }
            }
        }
    } else {
        assert(v.table.order.take(0) =~= Seq::<u64>::empty());
    }
}

/// A compaction keeps exactly the stored vectors that are not deleted, each once.
pub proof fn compaction_keeps_the_undeleted(v: IndexView)
    requires
        v.table.ordered(),
    ensures
        kept_ids(v).no_duplicates(),
        forall|id: u64| #[trigger]
            kept_ids(v).contains(id) <==> v.table.locs.contains_key(id) && !(
            v.graph.nodes.contains_key(id) && v.graph.nodes[id].deleted),
{
    lemma_kept(v, v.table.order.len());
    assert(v.table.order.take(v.table.order.len() as int) =~= v.table.order);
}

/// Every vector that a compaction keeps stands within the pool.
pub open spec fn kept_stand(v: IndexView) -> bool {
    forall|id: u64| #[trigger] kept_ids(v).contains(id) ==> stands(v, v.table.locs[id])
}

proof fn lemma_rewritten(v: IndexView, held: spec_fn(u32) -> bool, mem: Memory, k: nat)
    requires
        v.table.ordered(),
        kept_stand(v),
        pool_sound(v.pool),
        k > 0 ==> vectors_fit(v),
        v.pool.active < u32::MAX,
        v.pool.active + k < u32::MAX,
        k <= kept_ids(v).len(),
    ensures
        ({
            let need = 4 * v.schema.dim as nat;
            let q = rewritten(v.pool, held, need, k);
            let after = copied(mem, v, held, k);
            &&& pool_sound(q)
            &&& q.seg_size == v.pool.seg_size
            &&& v.pool.active < q.active <= v.pool.active + k + 1
            &&& forall|i: int|
                0 <= i < k ==> within(q, #[trigger] rewritten_at(v.pool, held, need, i as nat))
                    && rewritten_at(v.pool, held, need, i as nat).seg_id > v.pool.active
                    && payload_at(after, rewritten_at(v.pool, held, need, i as nat))
                    == payload_at(mem, v.table.locs[kept_ids(v)[i]])
            &&& forall|id: u64| #[trigger]
                kept_ids(v).contains(id) ==> payload_at(after, v.table.locs[id]) == payload_at(
                    mem,
                    v.table.locs[id],
                ) && within(q, v.table.locs[id])
        }),
    decreases k,
{
    let need = 4 * v.schema.dim as nat;
    let ids = kept_ids(v);
    if k == 0 {
        pools_stay_sound(v.pool, held, 0);
    } else {
        let j = (k - 1) as nat;
        lemma_rewritten(v, held, mem, j);
        compaction_keeps_the_undeleted(v);
        let p = rewritten(v.pool, held, need, j);
        let q = rewritten(v.pool, held, need, k);
        let before = copied(mem, v, held, j);
        let after = copied(mem, v, held, k);
        assert(ids.contains(ids[j as int]));
        let data = payload_at(mem, v.table.locs[ids[j as int]]);
        assert(stands(v, v.table.locs[ids[j as int]]));
        assert(data.len() == need);
        pools_stay_sound(p, held, need);
        let zero = ValueLocator { seg_id: p.active, offset: 0, len: 0 };
        placing_keeps_what_is_written(p, held, data, before, zero);
        assert forall|i: int| 0 <= i < k implies within(
            q,
            #[trigger] rewritten_at(v.pool, held, need, i as nat),
        ) && rewritten_at(v.pool, held, need, i as nat).seg_id > v.pool.active && payload_at(
            after,
            rewritten_at(v.pool, held, need, i as nat),
        ) == payload_at(mem, v.table.locs[ids[i]]) by {
            if i < j {
                placing_keeps_what_is_written(
                    p,
                    held,
                    data,
                    before,
                    rewritten_at(v.pool, held, need, i as nat),
                );
            }
        }
        assert forall|id: u64| #[trigger] ids.contains(id) implies payload_at(
            after,
            v.table.locs[id],
        ) == payload_at(mem, v.table.locs[id]) && within(q, v.table.locs[id]) by {
            placing_keeps_what_is_written(p, held, data, before, v.table.locs[id]);
        }
    }
}

/// After a compaction every kept vector reads as it did, from a segment behind all that were
/// there before: none of the segments that then go holds a vector that is still in use.
pub proof fn compaction_moves_vectors_out_of_old_segments(
    v: IndexView,
    held: spec_fn(u32) -> bool,
    pd: spec_fn(u64, u64) -> u32,
    mem: Memory,
    id: u64,
)
    requires
        index_sound(v),
        kept_stand(v),
        vectors_fit(v),
        v.pool.active + kept_ids(v).len() < u32::MAX,
        kept_ids(v).contains(id),
    ensures
        ({
            let w = compacted(v, held, pd);
            let after = copied(mem, v, held, kept_ids(v).len());
            &&& w.table.locs.contains_key(id)
            &&& w.table.locs[id].seg_id > v.pool.active
            &&& within(w.pool, w.table.locs[id])
            &&& payload_at(after, w.table.locs[id]) == payload_at(mem, v.table.locs[id])
        }),
{
    let ids = kept_ids(v);
    lemma_kept(v, v.table.order.len());
    lemma_rewritten(v, held, mem, ids.len());
    let i = ids.index_of(id);
    assert(0 <= i < ids.len() && ids[i] == id);
    let at = rewritten_at(v.pool, held, 4 * v.schema.dim as nat, i as nat);
    assert(within(compacted(v, held, pd).pool, at));
}

/// The plan of a compaction leads to the compacted index.
pub proof fn switch_completes_the_compaction(
    v: IndexView,
    held: spec_fn(u32) -> bool,
    moves: Seq<Move>,
)
    requires
        v.table.ordered(),
        move_ids(moves) == kept_ids(v),
        forall|i: int| 0 <= i < moves.len() ==> move_step(v, held, i, #[trigger] moves[i]),
    ensures
        table_of(move_entries(moves), moves.len()) == rewritten_table(
            v.pool,
            held,
            4 * v.schema.dim as nat,
            kept_ids(v),
        ),
{
    let ids = kept_ids(v);
    assert(move_ids(moves).len() == moves.len());
    compaction_keeps_the_undeleted(v);
    lemma_table_of_moves(v, held, moves, moves.len());
    let t = table_of(move_entries(moves), moves.len());
    let u = rewritten_table(v.pool, held, 4 * v.schema.dim as nat, ids);
    assert(ids.take(moves.len() as int) =~= ids);
    assert(t.locs =~= u.locs) by {
        assert forall|id: u64| t.locs.contains_key(id) implies t.locs[id] == u.locs[id] by {
            let i = ids.index_of(id);
            assert(ids.contains(id));
            assert(0 <= i < ids.len() && ids[i] == id);
            assert(t.locs[ids[i]] == moves[i].append.locator);
            assert(move_step(v, held, i, moves[i]));
        }
    }
}

proof fn lemma_table_of_moves(v: IndexView, held: spec_fn(u32) -> bool, moves: Seq<Move>, k: nat)
    requires
        move_ids(moves) == kept_ids(v),
        kept_ids(v).no_duplicates(),
        k <= moves.len(),
    ensures
        ({
            let t = table_of(move_entries(moves), k);
            let ids = kept_ids(v);
            &&& t.order == ids.take(k as int)
            &&& forall|id: u64| #[trigger]
                t.locs.contains_key(id) <==> ids.take(k as int).contains(id)
            &&& forall|i: int| 0 <= i < k ==> t.locs[#[trigger] ids[i]] == moves[i].append.locator
        }),
    decreases k,
{
    let ids = kept_ids(v);
    let t = table_of(move_entries(moves), k);
    if k == 0 {
        assert(t.order =~= ids.take(0));
    } else {
        let j = (k - 1) as nat;
        lemma_table_of_moves(v, held, moves, j);
        let s = table_of(move_entries(moves), j);
        let id = moves[j as int].id;
        assert(move_ids(moves)[j as int] == id);
        let pre = ids.take(j as int);
        let post = ids.take(k as int);
        assert(post =~= pre.push(id));
        assert(!pre.contains(id)) by {
            if pre.contains(id) {
                let i = choose|i: int| 0 <= i < pre.len() && pre[i] == id;
                assert(ids[i] == ids[j as int]);
            }
        }
        assert(t == s.with(id, moves[j as int].append.locator));
        assert(t.order =~= post);
        assert forall|x: u64| #[trigger] t.locs.contains_key(x) <==> post.contains(x) by {
            if pre.contains(x) {
                let i = choose|i: int| 0 <= i < pre.len() && pre[i] == x;
                assert(post[i] == x);
            }
            assert(post[j as int] == id);
        }
        assert forall|i: int| 0 <= i < k implies t.locs[#[trigger] ids[i]]
            == moves[i].append.locator by {
            if i < j {
                assert(ids[i] != ids[j as int]);
                assert(s.locs[ids[i]] == moves[i].append.locator);
            }
        }
    }
}

/// A graph that was built anew holds each vector once, all of them live, and can be searched.
pub proof fn rebuilt_graph_is_sound(ids: Seq<u64>, pd: spec_fn(u64, u64) -> u32, k: nat)
    requires
        ids.no_duplicates(),
        k <= ids.len(),
    ensures
        ({
            let g = rebuilt(ids, pd, k);
            &&& g.ordered()
            &&& g.order == ids.take(k as int)
            &&& edges_valid(g)
            &&& degrees_bounded(g)
            &&& lists_tidy(g)
            &&& forall|id: u64| #[trigger] g.live(id) <==> ids.take(k as int).contains(id)
        }),
    decreases k,
{
    let g = rebuilt(ids, pd, k);
    if k == 0 {
        assert(g.order =~= ids.take(0));
        assert forall|id: u64| g.order.contains(id) <==> g.nodes.contains_key(id) by {}
        assert(edges_valid(g));
    } else {
        let j = (k - 1) as nat;
        rebuilt_graph_is_sound(ids, pd, j);
        let h = rebuilt(ids, pd, j);
        let id = ids[j as int];
        let pre = ids.take(j as int);
        let post = ids.take(k as int);
        assert(post =~= pre.push(id));
        assert(!pre.contains(id)) by {
            if pre.contains(id) {
                let i = choose|i: int| 0 <= i < pre.len() && pre[i] == id;
                assert(ids[i] == ids[j as int]);
            }
        }
        assert(!h.nodes.contains_key(id)) by {
            assert(h.order.contains(id) <==> h.nodes.contains_key(id));
        }
        insertion_keeps_the_graph_sound(h, id, dist_from(pd, id));
        assert(no_dangling(h));
        neighbor_lists_stay_tidy(h, id, dist_from(pd, id));
        assert(g.order =~= post);
        assert forall|x: u64| #[trigger] g.live(x) <==> post.contains(x) by {
            if pre.contains(x) {
                let i = choose|i: int| 0 <= i < pre.len() && pre[i] == x;
                assert(post[i] == x);
            }
            assert(post[j as int] == id);
            assert(h.live(x) <==> pre.contains(x));
        }
        assert(no_dangling(h));
        if h.order.len() > 0 {
            assert(h.live(h.entry->Some_0));
            assert(g.entry == h.entry);
        } else if h.entry is Some {
            assert(h.nodes.contains_key(h.entry->Some_0));
            assert(h.order.contains(h.entry->Some_0));
        }
    }
}

/// After a compaction no vector is deleted, and the graph holds exactly the kept vectors.
pub proof fn compacted_graph_holds_the_kept(
    v: IndexView,
    held: spec_fn(u32) -> bool,
    pd: spec_fn(u64, u64) -> u32,
)
    requires
        v.table.ordered(),
    ensures
        ({
            let w = compacted(v, held, pd);
            &&& edges_valid(w.graph)
            &&& w.graph.order == kept_ids(v)
            &&& w.table.order == kept_ids(v)
            &&& forall|id: u64| #[trigger] w.graph.live(id) <==> kept_ids(v).contains(id)
        }),
{
    compaction_keeps_the_undeleted(v);
    let ids = kept_ids(v);
    rebuilt_graph_is_sound(ids, pd, ids.len());
    assert(ids.take(ids.len() as int) =~= ids);
}

/// A checkpoint brings the graph back when the index is opened again: the same nodes, deleted
/// ones still deleted, whichever they are. So a vector that was deleted stays deleted.
pub proof fn checkpoint_then_open(g: GraphView, bytes: &[u8])
    requires
        g.ordered(),
        snapshot_fits(g),
        resumable(g),
        bytes@ == snapshot_of(g),
    ensures
        loaded_graph(Some(bytes)) == Some(g),
{
    if g.entry is None {
        if g.nodes.contains_key(0) {
            assert(g.order.contains(0));
        }
    }
    snapshot_round_trip(g);
}

/// An index whose table and graph know the same vectors comes back when it is reopened from its
/// checkpoint and the locators that are stored: the graph is taken up as it was and not built
/// anew, so nothing that was deleted comes back.
pub proof fn reopened_index_is_not_stale(
    v: IndexView,
    bytes: &[u8],
    pool: PoolView,
    rows: Seq<(u64, ValueLocator)>,
)
    requires
        index_sound(v),
        in_step(v),
        snapshot_fits(v.graph),
        bytes@ == snapshot_of(v.graph),
        rows_say(rows, v.table.locs),
    ensures
        ({
            let back = reopened(v.schema, pool, Some(bytes), rows);
            &&& back.graph == v.graph
            &&& back.table.locs == v.table.locs
            &&& back.table.ordered()
            &&& in_step(back)
        }),
{
    checkpoint_then_open(v.graph, bytes);
    rows_bring_the_table_back(rows, v.table.locs);
}

proof fn lemma_marked(g: GraphView, ids: Seq<u64>, id: u64)
    ensures
        marked(g, ids).live(id) <==> g.live(id) && !ids.contains(id),
        marked(g, ids).nodes.contains_key(id) <==> g.nodes.contains_key(id),
    decreases ids.len(),
{
    if ids.len() > 0 {
        let init = ids.drop_last();
        lemma_marked(g, init, id);
        if ids.contains(id) && id != ids.last() {
            let i = choose|i: int| 0 <= i < ids.len() && ids[i] == id;
            assert(init[i] == id);
        }
        if init.contains(id) {
            let i = choose|i: int| 0 <= i < init.len() && init[i] == id;
            assert(ids[i] == id);
        }
        assert(ids[ids.len() - 1] == ids.last());
    }
}

/// A stale index that is refreshed knows all its vectors again, and those that its graph had
/// marked deleted stay deleted.
pub proof fn refreshing_keeps_deletions(v: IndexView, pd: spec_fn(u64, u64) -> u32, id: u64)
    requires
        index_sound(v),
    ensures
        refreshed(v, pd).nodes.contains_key(id) <==> v.table.locs.contains_key(id),
        refreshed(v, pd).live(id) <==> v.table.locs.contains_key(id) && !(
        v.graph.nodes.contains_key(id) && v.graph.nodes[id].deleted),
{
    let order = v.table.order;
    let gone = ids_where(v.graph.order, v.graph.nodes, true);
    rebuilt_graph_is_sound(order, pd, order.len());
    assert(order.take(order.len() as int) =~= order);
    let g = rebuilt(order, pd, order.len());
    lemma_marked(g, gone, id);
    lemma_ids_where(v.graph.order, v.graph.nodes, true);
    assert(v.graph.order.contains(id) <==> v.graph.nodes.contains_key(id));
    assert(g.order.contains(id) <==> g.nodes.contains_key(id));
}

proof fn lemma_marked_sound(g: GraphView, ids: Seq<u64>)
    requires
        g.ordered(),
        resumable(g),
    ensures
        marked(g, ids).ordered(),
        resumable(marked(g, ids)),
    decreases ids.len(),
{
    if ids.len() > 0 {
        lemma_marked_sound(g, ids.drop_last());
        let h = marked(g, ids.drop_last());
        assert(no_dangling(h));
        deletion_keeps_the_graph_sound(h, ids.last());
        assert(no_dangling(marked(g, ids)));
    }
}

/// An index that is reopened, and refreshed where it is stale, is in step: whatever its snapshot
/// was, its graph knows exactly the stored vectors, all of them live but those that the snapshot
/// had marked deleted, and a vector that passes the check before it is logged can be linked.
pub proof fn reopened_index_knows_the_stored_vectors(
    v: IndexView,
    pd: spec_fn(u64, u64) -> u32,
    id: u64,
)
    requires
        index_sound(v),
    ensures
        ({
            let after = if in_step(v) {
                v
            } else {
                IndexView { graph: refreshed(v, pd), ..v }
            };
            &&& index_sound(after)
            &&& in_step(after)
            &&& after.table == v.table
            &&& after.graph.live(id) <==> v.table.locs.contains_key(id) && !(
            v.graph.nodes.contains_key(id) && v.graph.nodes[id].deleted)
            &&& insert_error(after, id, v.schema.dim as nat) is None
                ==> !after.graph.nodes.contains_key(id)
        }),
{
    if in_step(v) {
        assert(v.table.locs.contains_key(id) <==> v.graph.nodes.contains_key(id));
    } else {
        let order = v.table.order;
        let after = IndexView { graph: refreshed(v, pd), ..v };
        rebuilt_graph_is_sound(order, pd, order.len());
        lemma_marked_sound(
            rebuilt(order, pd, order.len()),
            ids_where(v.graph.order, v.graph.nodes, true),
        );
        assert forall|x: u64| #[trigger] after.table.locs.contains_key(x)
            <==> after.graph.nodes.contains_key(x) by {
            refreshing_keeps_deletions(v, pd, x);
        }
        refreshing_keeps_deletions(v, pd, id);
    }
}

/// Rows that say of each vector of a table where it stands, in whatever order.
pub open spec fn rows_say(
    rows: Seq<(u64, ValueLocator)>,
    locs: Map<u64, ValueLocator>,
) -> bool {
    &&& forall|i: int, j: int|
        0 <= i < j < rows.len() ==> (#[trigger] rows[i]).0 != (#[trigger] rows[j]).0
    &&& forall|i: int|
        0 <= i < rows.len() ==> locs.contains_key((#[trigger] rows[i]).0) && locs[rows[i].0]
            == rows[i].1
    &&& forall|id: u64| #[trigger]
        locs.contains_key(id) ==> exists|i: int| 0 <= i < rows.len() && (#[trigger] rows[i]).0
            == id
}

proof fn lemma_table_of_rows(rows: Seq<(u64, ValueLocator)>, k: nat)
    requires
        k <= rows.len(),
        forall|i: int, j: int|
            0 <= i < j < rows.len() ==> (#[trigger] rows[i]).0 != (#[trigger] rows[j]).0,
    ensures
        ({
            let t = table_of(rows, k);
            &&& t.order.len() == k
            &&& forall|i: int| 0 <= i < k ==> t.order[i] == (#[trigger] rows[i]).0
            &&& forall|i: int|
                0 <= i < k ==> t.locs.contains_key((#[trigger] rows[i]).0) && t.locs[rows[i].0]
                    == rows[i].1
            &&& forall|id: u64| #[trigger]
                t.locs.contains_key(id) ==> exists|i: int| 0 <= i < k && (#[trigger] rows[i]).0
                    == id
        }),
    decreases k,
{
    if k > 0 {
        let j = (k - 1) as nat;
        lemma_table_of_rows(rows, j);
        let s = table_of(rows, j);
        let t = table_of(rows, k);
        let id = rows[j as int].0;
        assert(!s.locs.contains_key(id));
        assert forall|x: u64| #[trigger] t.locs.contains_key(x) implies exists|i: int|
            0 <= i < k && (#[trigger] rows[i]).0 == x by {
            if x == id {
                assert(rows[j as int].0 == x);
            } else {
                assert(s.locs.contains_key(x));
                let i = choose|i: int| 0 <= i < j && (#[trigger] rows[i]).0 == x;
                assert(rows[i].0 == x);
            }
        }
    }
}

/// Rows bring the table back: every vector stands where it stood.
pub proof fn rows_bring_the_table_back(
    rows: Seq<(u64, ValueLocator)>,
    locs: Map<u64, ValueLocator>,
)
    requires
        rows_say(rows, locs),
    ensures
        table_of(rows, rows.len()).locs == locs,
        table_of(rows, rows.len()).ordered(),
{
    let t = table_of(rows, rows.len());
    lemma_table_of_rows(rows, rows.len());
    assert forall|id: u64| t.locs.contains_key(id) <==> locs.contains_key(id) by {
        if locs.contains_key(id) {
            let i = choose|i: int| 0 <= i < rows.len() && (#[trigger] rows[i]).0 == id;
            assert(t.locs.contains_key(rows[i].0));
        }
    }
    assert(t.locs =~= locs) by {
        assert forall|id: u64| t.locs.contains_key(id) implies t.locs[id] == locs[id] by {
            let i = choose|i: int| 0 <= i < rows.len() && (#[trigger] rows[i]).0 == id;
            assert(t.locs[rows[i].0] == rows[i].1);
        }
    }
    assert forall|id: u64| t.order.contains(id) <==> t.locs.contains_key(id) by {
        if t.order.contains(id) {
            let i = choose|i: int| 0 <= i < t.order.len() && t.order[i] == id;
            assert(t.locs.contains_key(rows[i].0));
        }
        if t.locs.contains_key(id) {
            let i = choose|i: int| 0 <= i < rows.len() && (#[trigger] rows[i]).0 == id;
            assert(t.order[i] == id);
        }
    }
    assert forall|i: int, j: int| 0 <= i < j < t.order.len() implies t.order[i] != t.order[j] by {
        assert(rows[i].0 != rows[j].0);
    }
}

/// A restart after a compaction gives the compacted index back: with the snapshot that the
/// compaction has ended with and the locators that it has switched to, the reopened index has
/// the same graph and every vector where it stands, and is not stale.
pub proof fn compaction_survives_a_restart(
    v: IndexView,
    held: spec_fn(u32) -> bool,
    pd: spec_fn(u64, u64) -> u32,
    bytes: &[u8],
    pool: PoolView,
    rows: Seq<(u64, ValueLocator)>,
)
    requires
        index_sound(v),
        snapshot_fits(compacted(v, held, pd).graph),
        bytes@ == snapshot_of(compacted(v, held, pd).graph),
        rows_say(rows, compacted(v, held, pd).table.locs),
    ensures
        ({
            let w = compacted(v, held, pd);
            let back = reopened(v.schema, pool, Some(bytes), rows);
            &&& back.graph == w.graph
            &&& back.table.locs == w.table.locs
            &&& back.table.ordered()
            &&& in_step(back)
        }),
{
    let w = compacted(v, held, pd);
    let ids = kept_ids(v);
    compaction_keeps_the_undeleted(v);
    compacted_graph_holds_the_kept(v, held, pd);
    rebuilt_graph_is_sound(ids, pd, ids.len());
    assert(resumable(w.graph));
    checkpoint_then_open(w.graph, bytes);
    rows_bring_the_table_back(rows, w.table.locs);
    let back = reopened(v.schema, pool, Some(bytes), rows);
    assert forall|id: u64| #[trigger] back.table.locs.contains_key(id)
        <==> back.graph.nodes.contains_key(id) by {
        assert(w.graph.order.contains(id) <==> w.graph.nodes.contains_key(id));
    }
}

/// Vectors that were put in after a compaction, and not checkpointed, survive a restart: the
/// reopened index is stale as soon as there is one, and once refreshed it knows all stored
/// vectors, every one of them live.
pub proof fn insertions_after_a_compaction_survive(
    v: IndexView,
    held: spec_fn(u32) -> bool,
    pd: spec_fn(u64, u64) -> u32,
    bytes: &[u8],
    pool: PoolView,
    rows: Seq<(u64, ValueLocator)>,
    locs: Map<u64, ValueLocator>,
    pd2: spec_fn(u64, u64) -> u32,
    id: u64,
)
    requires
        index_sound(v),
        pool_sound(pool),
        snapshot_fits(compacted(v, held, pd).graph),
        bytes@ == snapshot_of(compacted(v, held, pd).graph),
        rows_say(rows, locs),
        forall|x: u64| #[trigger]
            compacted(v, held, pd).table.locs.contains_key(x) ==> locs.contains_key(x),
    ensures
        ({
            let w = compacted(v, held, pd);
            let back = reopened(v.schema, pool, Some(bytes), rows);
            let after = if in_step(back) {
                back
            } else {
                IndexView { graph: refreshed(back, pd2), ..back }
            };
            &&& locs.contains_key(id) && !w.table.locs.contains_key(id) ==> !in_step(back)
            &&& index_sound(after)
            &&& in_step(after)
            &&& after.table.locs == locs
            &&& after.graph.live(id) <==> locs.contains_key(id)
        }),
{
    let w = compacted(v, held, pd);
    let ids = kept_ids(v);
    compaction_keeps_the_undeleted(v);
    compacted_graph_holds_the_kept(v, held, pd);
    rebuilt_graph_is_sound(ids, pd, ids.len());
    assert(resumable(w.graph));
    checkpoint_then_open(w.graph, bytes);
    rows_bring_the_table_back(rows, locs);
    let back = reopened(v.schema, pool, Some(bytes), rows);
    assert(w.graph.order.contains(id) <==> w.graph.nodes.contains_key(id));
    assert(w.table.order.contains(id) <==> w.table.locs.contains_key(id));
    if locs.contains_key(id) && !w.table.locs.contains_key(id) {
        assert(back.table.locs.contains_key(id) && !back.graph.nodes.contains_key(id));
    }
    assert(w.graph.live(id) <==> ids.contains(id));
    reopened_index_knows_the_stored_vectors(back, pd2, id);
}

proof fn lemma_edges_bounded(list: Seq<(u64, NodeView)>)
    requires
        forall|i: int| 0 <= i < list.len() ==> (#[trigger] list[i]).1.neighbors.len() <= 2 * M,
    ensures
        edges_of(list).len() <= 2 * M * list.len(),
    decreases list.len(),
{
    if list.len() > 0 {
        let init = list.drop_last();
        assert forall|i: int| 0 <= i < init.len() implies (#[trigger] init[i]).1.neighbors.len()
            <= 2 * M by {
            assert(init[i] == list[i]);
        }
        lemma_edges_bounded(init);
        assert(list[list.len() - 1].1.neighbors.len() <= 2 * M);
        assert(2 * M * list.len() == 2 * M * init.len() + 2 * M) by (nonlinear_arith)
            requires
                list.len() == init.len() + 1,
        ;
    }
}

/// A graph that was built anew fits a snapshot where its lists could all be full and fit.
pub proof fn rebuilt_graphs_fit_a_snapshot(ids: Seq<u64>, pd: spec_fn(u64, u64) -> u32)
    requires
        ids.no_duplicates(),
        2 * M * ids.len() <= u32::MAX,
    ensures
        snapshot_fits(rebuilt(ids, pd, ids.len())),
{
    let g = rebuilt(ids, pd, ids.len());
    rebuilt_graph_is_sound(ids, pd, ids.len());
    assert(ids.take(ids.len() as int) =~= ids);
    let list = node_list(g);
    assert forall|i: int| 0 <= i < list.len() implies (#[trigger] list[i]).1.neighbors.len() <= 2
        * M by {
        assert(g.order.contains(g.order[i]));
        assert(g.nodes.contains_key(g.order[i]));
    }
    lemma_edges_bounded(list);
}

proof fn lemma_all_live(order: Seq<u64>, nodes: Map<u64, NodeView>)
    requires
        forall|i: int| 0 <= i < order.len() ==> !nodes[#[trigger] order[i]].deleted,
    ensures
        ids_where(order, nodes, false) == order,
    decreases order.len(),
{
    if order.len() > 0 {
        let init = order.drop_last();
        assert forall|i: int| 0 <= i < init.len() implies !nodes[#[trigger] init[i]].deleted by {
            assert(init[i] == order[i]);
        }
        lemma_all_live(init, nodes);
        assert(!nodes[order[order.len() - 1]].deleted);
        assert(init.push(order.last()) =~= order);
    }
}

proof fn lemma_none_lost_stand(v: IndexView, ids: Seq<u64>, i: nat, j: int)
    requires
        first_lost(v, ids, i) >= ids.len(),
        i <= j < ids.len(),
    ensures
        stands(v, v.table.locs[ids[j]]),
    decreases ids.len() - i,
{
    if i < j {
        lemma_none_lost_stand(v, ids, i + 1, j);
    }
}

/// What a compaction comes to as a whole, once its plan `p` is written and switched to: `after`
/// is the index. The schema stays; exactly the stored vectors that were not deleted are there,
/// all of them live and listed, each reads bit for bit as it did and stands in none of the
/// segments that may go; every other id is free again. Where table and graph knew the same
/// vectors, those are the vectors that were live.
pub proof fn compaction_keeps_exactly_the_live_vectors(
    v: IndexView,
    held: spec_fn(u32) -> bool,
    pd: spec_fn(u64, u64) -> u32,
    mem: Memory,
    available: Option<u64>,
    disk_bytes: u64,
    w: IndexView,
    p: CompactPlan,
    after: IndexView,
    id: u64,
)
    requires
        index_sound(v),
        v.table.order.len() > 0 ==> vectors_fit(v),
        v.pool.active + kept_ids(v).len() < u32::MAX,
        compact_result(v, held, available, disk_bytes, w, Ok(p)),
        after == (IndexView {
            table: table_of(move_entries(p.moves@), p.moves@.len()),
            graph: rebuilt(move_ids(p.moves@), pd, p.moves@.len()),
            ..w
        }),
    ensures
        ({
            let ids = kept_ids(v);
            let mem2 = copied(mem, v, held, ids.len());
            &&& after == compacted(v, held, pd)
            &&& after.schema == v.schema
            &&& index_sound(after)
            &&& in_step(after)
            &&& p.moves@.len() == ids.len()
            &&& ids_where(after.graph.order, after.graph.nodes, false) == ids
            &&& ids.contains(id) ==> after.graph.live(id) && after.table.locs.contains_key(id)
                && payload_at(mem2, after.table.locs[id]) == payload_at(mem, v.table.locs[id])
                && !p.old_segs@.contains(after.table.locs[id].seg_id)
            &&& !ids.contains(id) ==> !after.graph.live(id) && insert_error(
                after,
                id,
                v.schema.dim as nat,
            ) is None
            &&& in_step(v) ==> (ids.contains(id) <==> v.graph.live(id))
            &&& in_step(v) ==> ids.len() == ids_where(v.graph.order, v.graph.nodes, false).len()
        }),
{
    let ids = kept_ids(v);
    let need = 4 * v.schema.dim as nat;
    let mem2 = copied(mem, v, held, ids.len());
    compaction_keeps_the_undeleted(v);
    lemma_kept(v, v.table.order.len());
    assert(move_ids(p.moves@).len() == p.moves@.len());
    switch_completes_the_compaction(v, held, p.moves@);
    assert(after == compacted(v, held, pd));
    assert(kept_stand(v)) by {
        assert forall|x: u64| #[trigger] ids.contains(x) implies stands(v, v.table.locs[x]) by {
            let j = choose|j: int| 0 <= j < ids.len() && ids[j] == x;
            lemma_none_lost_stand(v, ids, 0, j);
        }
    }
    lemma_rewritten(v, held, mem, ids.len());
    rebuilt_graph_is_sound(ids, pd, ids.len());
    assert(ids.take(ids.len() as int) =~= ids);
    let g = after.graph;
    assert forall|i: int| 0 <= i < g.order.len() implies !g.nodes[#[trigger] g.order[i]].deleted by {
        assert(ids.contains(ids[i]));
        assert(g.live(ids[i]));
    }
    lemma_all_live(g.order, g.nodes);
    assert(after.table.ordered());
    assert(resumable(g));
    assert(in_step(after)) by {
        assert forall|x: u64| #[trigger] after.table.locs.contains_key(x) <==> g.nodes.contains_key(
            x,
        ) by {
            assert(g.order.contains(x) <==> g.nodes.contains_key(x));
        }
    }
    if ids.contains(id) {
        compaction_moves_vectors_out_of_old_segments(v, held, pd, mem, id);
        let s = after.table.locs[id].seg_id;
        if p.old_segs@.contains(s) {
            assert(p.old_segs@.to_set().contains(s));
        }
    } else {
        assert(!after.table.locs.contains_key(id));
    }
    if in_step(v) {
        assert forall|x: u64| ids.contains(x) <==> v.graph.live(x) by {
            assert(v.table.locs.contains_key(x) <==> v.graph.nodes.contains_key(x));
        }
        lemma_ids_where(v.graph.order, v.graph.nodes, false);
        let live = ids_where(v.graph.order, v.graph.nodes, false);
        assert forall|x: u64| ids.contains(x) <==> live.contains(x) by {
            assert(v.graph.order.contains(x) <==> v.graph.nodes.contains_key(x));
        }
        lemma_same_len(ids, live);
    }
}

/// The vectors of an index and whether they are deleted.
pub open spec fn vectors(v: IndexView, mem: Memory) -> Map<u64, (Seq<u32>, bool)> {
    Map::new(
        |id: u64| v.table.locs.contains_key(id),
        |id: u64| (words_of(payload_at(mem, v.table.locs[id])), v.graph.nodes[id].deleted),
    )
}

/// An insertion under a new id puts its vector in, live, and changes no other; a deletion marks
/// its vector, if there is one, and changes nothing else.
pub proof fn vectors_follow_the_operations(
    v: IndexView,
    held: spec_fn(u32) -> bool,
    id: u64,
    vector: Seq<u32>,
    d: spec_fn(u64) -> u32,
    mem: Memory,
)
    requires
        in_step(v),
        located(v),
        v.pool.active < u32::MAX,
        pool_ok(v.pool, 4 * v.schema.dim as nat),
        vector.len() == v.schema.dim,
    ensures
        !v.table.locs.contains_key(id) ==> ({
            let p = placed(v, held, id);
            let after = IndexView { graph: inserted(v.graph, id, d), ..p };
            let loc = p.table.locs[id];
            let mem2 = written(mem, loc.seg_id, loc.offset as int, word_bytes(vector));
            vectors(after, mem2) == vectors(v, mem).insert(id, (vector, false)) && in_step(after)
                && located(after)
        }),
        ({
            let after = IndexView { graph: with_deleted(v.graph, id), ..v };
            vectors(after, mem) == (if vectors(v, mem).contains_key(id) {
                vectors(v, mem).insert(id, (vectors(v, mem)[id].0, true))
            } else {
                vectors(v, mem)
            }) && in_step(after) && located(after)
        }),
{
    if !v.table.locs.contains_key(id) {
        let p = placed(v, held, id);
        let after = IndexView { graph: inserted(v.graph, id, d), ..p };
        let loc = p.table.locs[id];
        let data = word_bytes(vector);
        let mem2 = written(mem, loc.seg_id, loc.offset as int, data);
        lemma_word_bytes_len(vector);
        words_round_trip(vector);
        assert(payload_at(mem2, loc) =~= data);
        assert forall|k: u64| #[trigger] v.table.locs.contains_key(k) implies payload_at(
            mem2,
            v.table.locs[k],
        ) == payload_at(mem, v.table.locs[k]) && within(p.pool, v.table.locs[k]) by {
            placing_keeps_what_is_written(v.pool, held, data, mem, v.table.locs[k]);
        }
        assert(vectors(after, mem2) =~= vectors(v, mem).insert(id, (vector, false)));
        assert(in_step(after));
        assert(located(after));
    }
    let after = IndexView { graph: with_deleted(v.graph, id), ..v };
    if vectors(v, mem).contains_key(id) {
        assert(vectors(after, mem) =~= vectors(v, mem).insert(id, (vectors(v, mem)[id].0, true)));
    } else {
        assert(vectors(after, mem) =~= vectors(v, mem));
    }
    assert(in_step(after));
}

/// A vector is taken exactly where it has the dimension of the index and its id is free; the
/// dimension is looked at first. Once placed, its id is no longer free, and every other id is as
/// free as it was.
pub proof fn vectors_are_taken_under_free_ids(
    v: IndexView,
    held: spec_fn(u32) -> bool,
    id: u64,
    other: u64,
    len: nat,
)
    requires
        other != id,
        len <= usize::MAX,
    ensures
        insert_error(v, id, len) is None <==> len == v.schema.dim && !v.table.locs.contains_key(id),
        len != v.schema.dim ==> insert_error(v, id, len) == Some(
            StoreError::DimensionMismatch { expected: v.schema.dim, got: len as usize },
        ),
        len == v.schema.dim && v.table.locs.contains_key(id) ==> insert_error(v, id, len) == Some(
            StoreError::DuplicateVector(id),
        ),
        insert_error(placed(v, held, id), id, v.schema.dim as nat) == Some(
            StoreError::DuplicateVector(id),
        ),
        insert_error(placed(v, held, id), other, len) == insert_error(v, other, len),
{
}

proof fn lemma_first_misfit(items: Seq<(u64, Vec<u32>)>, dim: nat, i: nat)
    requires
        i <= items.len(),
    ensures
        i <= first_misfit(items, dim, i) <= items.len(),
        forall|j: int|
            i <= j < first_misfit(items, dim, i) ==> (#[trigger] items[j]).1@.len() == dim,
        first_misfit(items, dim, i) < items.len() ==> items[first_misfit(
            items,
            dim,
            i,
        ) as int].1@.len() != dim,
    decreases items.len() - i,
{
    if i < items.len() && items[i as int].1@.len() == dim {
        lemma_first_misfit(items, dim, i + 1);
    }
}

proof fn lemma_first_taken(items: Seq<(u64, Vec<u32>)>, table: TableView, i: nat)
    requires
        i <= items.len(),
    ensures
        i <= first_taken(items, table, i) <= items.len(),
        forall|j: int|
            i <= j < first_taken(items, table, i) ==> !table.locs.contains_key(
                (#[trigger] items[j]).0,
            ),
        first_taken(items, table, i) < items.len() ==> table.locs.contains_key(
            items[first_taken(items, table, i) as int].0,
        ),
    decreases items.len() - i,
{
    if i < items.len() && !table.locs.contains_key(items[i as int].0) {
        lemma_first_taken(items, table, i + 1);
    }
}

proof fn lemma_first_repeated(items: Seq<(u64, Vec<u32>)>, i: nat)
    requires
        i <= items.len(),
    ensures
        i <= first_repeated(items, i) <= items.len(),
        forall|j: int|
            i <= j < first_repeated(items, i) ==> !comes_before(
                items,
                j as nat,
                (#[trigger] items[j]).0,
            ),
        first_repeated(items, i) < items.len() ==> comes_before(
            items,
            first_repeated(items, i),
            items[first_repeated(items, i) as int].0,
        ),
    decreases items.len() - i,
{
    if i < items.len() && !comes_before(items, i, items[i as int].0) {
        lemma_first_repeated(items, i + 1);
    }
}

/// A batch is taken exactly where every vector has the dimension of the index, every id is free,
/// and no id comes twice. It is refused by the first vector of another dimension, and only where
/// there is none by an id that is in use or comes twice.
pub proof fn batches_are_taken_under_free_ids(v: IndexView, items: Seq<(u64, Vec<u32>)>)
    ensures
        batch_error(v, items) is None <==> (forall|i: int|
            0 <= i < items.len() ==> (#[trigger] items[i]).1@.len() == v.schema.dim
                && !v.table.locs.contains_key(items[i].0)) && item_ids(items).no_duplicates(),
        batch_error(v, items) matches Some(e) ==> {
            ||| e is DimensionMismatch && e->expected == v.schema.dim && exists|i: int|
                0 <= i < items.len() && e->got == (#[trigger] items[i]).1@.len() as usize
                    && items[i].1@.len() != v.schema.dim && forall|j: int|
                    0 <= j < i ==> (#[trigger] items[j]).1@.len() == v.schema.dim
            ||| e is DuplicateVector && (forall|i: int|
                0 <= i < items.len() ==> (#[trigger] items[i]).1@.len() == v.schema.dim) && (exists|
                i: int,
            |
                0 <= i < items.len() && (#[trigger] items[i]).0 == e->DuplicateVector_0 && (
                v.table.locs.contains_key(items[i].0) || comes_before(items, i as nat, items[i].0)))
        },
{
    let dim = v.schema.dim as nat;
    lemma_first_misfit(items, dim, 0);
    lemma_first_taken(items, v.table, 0);
    lemma_first_repeated(items, 0);
    let bad = first_misfit(items, dim, 0);
    let taken = first_taken(items, v.table, 0);
    let again = first_repeated(items, 0);
    let ids = item_ids(items);
    if again < items.len() {
        let id = items[again as int].0;
        let j = choose|j: int| 0 <= j < again && (#[trigger] items[j]).0 == id;
        assert(ids[j] == ids[again as int]);
        assert(!ids.no_duplicates());
    } else {
        assert forall|i: int, j: int| 0 <= i < j < ids.len() implies ids[i] != ids[j] by {
            assert(!comes_before(items, j as nat, items[j].0));
            assert(items[i].0 == ids[i]);
        }
    }
    if bad < items.len() {
        assert(items[bad as int].1@.len() != dim);
    }
}

/// A batch of one vector is refused as the vector alone is.
pub proof fn a_batch_of_one_is_an_insertion(v: IndexView, items: Seq<(u64, Vec<u32>)>)
    requires
        items.len() == 1,
    ensures
        batch_error(v, items) == insert_error(v, items[0].0, items[0].1@.len()),
{
    lemma_first_misfit(items, v.schema.dim as nat, 0);
    lemma_first_taken(items, v.table, 0);
    lemma_first_repeated(items, 0);
}

/// Placing some vectors as one is placing them one after the other, the first part first.
pub proof fn batches_are_placed_one_by_one(
    v: IndexView,
    held: spec_fn(u32) -> bool,
    a: Seq<u64>,
    b: Seq<u64>,
    id: u64,
)
    ensures
        placed_all(v, held, a + b, (a + b).len()) == placed_all(
            placed_all(v, held, a, a.len()),
            held,
            b,
            b.len(),
        ),
        placed_all(v, held, seq![id], 1) == placed(v, held, id),
    decreases b.len(),
{
    reveal_with_fuel(placed_all, 2);
    if b.len() == 0 {
        assert(a + b =~= a);
    } else {
        let init = b.drop_last();
        batches_are_placed_one_by_one(v, held, a, init, id);
        lemma_placed_all_prefix(v, held, a + init, a + b, (a + init).len());
        lemma_placed_all_prefix(placed_all(v, held, a, a.len()), held, init, b, init.len());
        assert((a + b)[(a + b).len() - 1] == b[b.len() - 1]);
    }
}

proof fn lemma_placed_all_prefix(
    v: IndexView,
    held: spec_fn(u32) -> bool,
    a: Seq<u64>,
    b: Seq<u64>,
    k: nat,
)
    requires
        k <= a.len(),
        k <= b.len(),
        forall|i: int| 0 <= i < k ==> #[trigger] a[i] == b[i],
    ensures
        placed_all(v, held, a, k) == placed_all(v, held, b, k),
    decreases k,
{
    if k > 0 {
        lemma_placed_all_prefix(v, held, a, b, (k - 1) as nat);
        assert(a[k - 1] == b[k - 1]);
    }
}

/// A placed vector has a place of its own in its full length; the others stand where they stood,
/// and neither the schema nor the graph changes.
pub proof fn placing_changes_one_locator(
    v: IndexView,
    held: spec_fn(u32) -> bool,
    id: u64,
    other: u64,
)
    requires
        pool_ok(v.pool, 4 * v.schema.dim as nat),
        v.pool.active < u32::MAX,
        other != id,
    ensures
        ({
            let p = placed(v, held, id);
            &&& p.schema == v.schema
            &&& p.graph == v.graph
            &&& p.table.locs.contains_key(id)
            &&& p.table.locs[id].len == 4 * v.schema.dim
            &&& p.table.locs.contains_key(other) == v.table.locs.contains_key(other)
            &&& v.table.locs.contains_key(other) ==> p.table.locs[other] == v.table.locs[other]
            &&& !v.table.locs.contains_key(id) ==> p.table.order == v.table.order.push(id)
        }),
{
}

/// Marking marks exactly the given nodes, besides those that are marked, and changes nothing else.
pub proof fn marking_marks_the_given(g: GraphView, ids: Seq<u64>, n: u64)
    ensures
        marked(g, ids).order == g.order,
        marked(g, ids).entry == g.entry,
        marked(g, ids).nodes.contains_key(n) == g.nodes.contains_key(n),
        g.nodes.contains_key(n) ==> marked(g, ids).nodes[n].neighbors == g.nodes[n].neighbors,
        g.nodes.contains_key(n) ==> (marked(g, ids).nodes[n].deleted <==> g.nodes[n].deleted
            || ids.contains(n)),
    decreases ids.len(),
{
    if ids.len() > 0 {
        let init = ids.drop_last();
        marking_marks_the_given(g, init, n);
        if init.contains(n) {
            let i = choose|i: int| 0 <= i < init.len() && init[i] == n;
            assert(ids[i] == n);
        }
        if ids.contains(n) && ids.last() != n {
            let i = choose|i: int| 0 <= i < ids.len() && ids[i] == n;
            assert(init[i] == n);
        }
        assert(ids[ids.len() - 1] == ids.last());
    }
}

/// A graph that is built anew starts at the first vector and takes the others in order, each by
/// its own distances.
pub proof fn graphs_are_built_in_order(ids: Seq<u64>, pd: spec_fn(u64, u64) -> u32, k: nat)
    requires
        k < ids.len(),
    ensures
        rebuilt(ids, pd, 0).order.len() == 0,
        rebuilt(ids, pd, 0).nodes.dom() == Set::<u64>::empty(),
        rebuilt(ids, pd, k + 1) == inserted(
            rebuilt(ids, pd, k),
            ids[k as int],
            |n: u64| pd(ids[k as int], n),
        ),
        rebuilt(ids, pd, k + 1).entry == Some(ids[0]),
    decreases k,
{
    assert(rebuilt(ids, pd, 0).nodes.dom() =~= Set::<u64>::empty());
    assert(dist_from(pd, ids[k as int]) =~= (|n: u64| pd(ids[k as int], n)));
    if k > 0 {
        graphs_are_built_in_order(ids, pd, (k - 1) as nat);
    }
}

/// The kept vectors stay in the order in which they came.
pub proof fn kept_vectors_stay_in_order(v: IndexView, a: int, b: int)
    requires
        v.table.ordered(),
        0 <= a < b < kept_ids(v).len(),
    ensures
        exists|i: int, j: int|
            0 <= i < j < v.table.order.len() && #[trigger] v.table.order[i] == kept_ids(v)[a]
                && #[trigger] v.table.order[j] == kept_ids(v)[b],
{
    lemma_kept_in_order(v, v.table.order.len(), a, b);
}

proof fn lemma_kept_in_order(v: IndexView, k: nat, a: int, b: int)
    requires
        v.table.ordered(),
        k <= v.table.order.len(),
        0 <= a < b < kept(v, k).len(),
    ensures
        exists|i: int, j: int|
            0 <= i < j < k && #[trigger] v.table.order[i] == kept(v, k)[a]
                && #[trigger] v.table.order[j] == kept(v, k)[b],
    decreases k,
{
    if k > 0 {
        let m = (k - 1) as nat;
        let before = kept(v, m);
        if b < before.len() {
            lemma_kept_in_order(v, m, a, b);
            let (i, j) = choose|i: int, j: int|
                0 <= i < j < m && #[trigger] v.table.order[i] == before[a]
                    && #[trigger] v.table.order[j] == before[b];
            assert(v.table.order[i] == kept(v, k)[a] && v.table.order[j] == kept(v, k)[b]);
        } else {
            lemma_kept(v, m);
            let pre = v.table.order.take(m as int);
            assert(before.contains(before[a]));
            assert(pre.contains(before[a]));
            let i = choose|i: int| 0 <= i < pre.len() && pre[i] == before[a];
            assert(v.table.order[i] == kept(v, k)[a] && v.table.order[m as int] == kept(v, k)[b]);
        }
    }
}

/// A compaction goes ahead exactly where the disk is known to have room or not known at all, and
/// every vector that it keeps stands in a segment that there is, in its full length. Where it is
/// refused, nothing has changed.
pub proof fn compactions_go_ahead_where_they_can(
    v: IndexView,
    held: spec_fn(u32) -> bool,
    available: Option<u64>,
    disk_bytes: u64,
    w: IndexView,
    r: crate::error::Result<CompactPlan>,
)
    requires
        compact_result(v, held, available, disk_bytes, w, r),
    ensures
        r is Ok <==> (available is None || available->Some_0 >= disk_bytes) && forall|i: int|
            0 <= i < kept_ids(v).len() ==> {
                let loc = v.table.locs[#[trigger] kept_ids(v)[i]];
                loc.len == 4 * v.schema.dim && loc.seg_id <= v.pool.active
            },
        r is Err ==> w == v,
{
    lemma_first_lost_is_first(v, kept_ids(v), 0);
    let k = first_lost(v, kept_ids(v), 0);
    if k < kept_ids(v).len() {
        let loc = v.table.locs[kept_ids(v)[k as int]];
        assert(!(loc.len == 4 * v.schema.dim && loc.seg_id <= v.pool.active));
    } else {
        assert forall|i: int| 0 <= i < kept_ids(v).len() implies {
            let loc = v.table.locs[#[trigger] kept_ids(v)[i]];
            loc.len == 4 * v.schema.dim && loc.seg_id <= v.pool.active
        } by {
            assert(stands(v, v.table.locs[kept_ids(v)[i]]));
        }
    }
}

proof fn lemma_first_lost_is_first(v: IndexView, ids: Seq<u64>, i: nat)
    requires
        i <= ids.len(),
    ensures
        i <= first_lost(v, ids, i) <= ids.len(),
        forall|j: int|
            i <= j < first_lost(v, ids, i) ==> stands(v, v.table.locs[#[trigger] ids[j]]),
        first_lost(v, ids, i) < ids.len() ==> !stands(
            v,
            v.table.locs[ids[first_lost(v, ids, i) as int]],
        ),
    decreases ids.len() - i,
{
    if i < ids.len() && stands(v, v.table.locs[ids[i as int]]) {
        lemma_first_lost_is_first(v, ids, i + 1);
    }
}

/// An index starts a segment of its own, with a number that no file has, of the size asked for or
/// 128 MiB. It cannot only where the last number is in use.
pub proof fn indexes_start_a_new_segment(names: Seq<Seq<char>>, seg_size: u64)
    ensures
        match opened_pool(names, seg_size) {
            Some(p) => {
                &&& p.cursor == 0
                &&& p.seg_size == (if seg_size == 0 {
                    128 * 1024 * 1024int
                } else {
                    seg_size as int
                })
                &&& p.cache.mapped.len() == 0
                &&& forall|i: int|
                    0 <= i < names.len() ==> name_number(
                        #[trigger] names[i],
                        "vec_payload_"@,
                        ".mmap"@,
                    ) != Some(p.active)
            },
            None => exists|i: int|
                0 <= i < names.len() && name_number(
                    #[trigger] names[i],
                    "vec_payload_"@,
                    ".mmap"@,
                ) == Some(u32::MAX),
        },
{
    new_numbers_are_free(names, "vec_payload_"@, ".mmap"@);
}

/// Where a compaction is refused for a vector, it is one that would be kept and does not stand
/// anywhere, and the error says why: its segment is not there, or it has another length.
pub proof fn lost_vectors_are_told(
    v: IndexView,
    held: spec_fn(u32) -> bool,
    available: Option<u64>,
    disk_bytes: u64,
    w: IndexView,
    r: crate::error::Result<CompactPlan>,
)
    requires
        compact_result(v, held, available, disk_bytes, w, r),
        r is Err,
        available is None || available->Some_0 >= disk_bytes,
    ensures
        exists|i: int|
            0 <= i < kept_ids(v).len() && ({
                let id = #[trigger] kept_ids(v)[i];
                let loc = v.table.locs[id];
                if loc.seg_id > v.pool.active {
                    r->Err_0 == StoreError::Corrupt(
                        Corruption::VecSegmentMissing { seg_id: loc.seg_id },
                    )
                } else {
                    loc.len != 4 * v.schema.dim && r->Err_0 == StoreError::Corrupt(
                        Corruption::VectorLength { id, bytes: loc.len },
                    )
                }
            }),
{
    lemma_first_lost_is_first(v, kept_ids(v), 0);
    let k = first_lost(v, kept_ids(v), 0) as int;
    assert(!stands(v, v.table.locs[kept_ids(v)[k]]));
}

/// What a batch was told of a vector's place is where the table has it.
pub proof fn batch_plans_tell_the_places(
    v: IndexView,
    held: spec_fn(u32) -> bool,
    ids: Seq<u64>,
    i: int,
    plan: AppendPlan,
)
    requires
        0 <= i < ids.len(),
        ids.no_duplicates(),
        batch_step(v, held, ids, i, plan),
    ensures
        placed_all(v, held, ids, ids.len()).table.locs.contains_key(ids[i]),
        placed_all(v, held, ids, ids.len()).table.locs[ids[i]] == plan.locator,
{
    lemma_placed_stays(v, held, ids, i, ids.len());
}

proof fn lemma_placed_stays(
    v: IndexView,
    held: spec_fn(u32) -> bool,
    ids: Seq<u64>,
    i: int,
    k: nat,
)
    requires
        0 <= i < k <= ids.len(),
        ids.no_duplicates(),
    ensures
        ({
            let before = placed_all(v, held, ids, i as nat);
            let t = placed_all(v, held, ids, k).table;
            t.locs.contains_key(ids[i]) && t.locs[ids[i]] == vec_appended(
                before.pool,
                held,
                4 * before.schema.dim as nat,
            ).1
        }),
    decreases k,
{
    if i < k - 1 {
        lemma_placed_stays(v, held, ids, i, (k - 1) as nat);
        assert(ids[k - 1] != ids[i]);
    }
}

} // verus!
