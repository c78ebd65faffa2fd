//! What holds of every search and of every graph that insertions and deletions build.

use vstd::prelude::*;
use crate::vector::dist::{below, is_nan, lemma_not_below_down, rank};
use crate::vector::heap::{largest, lemma_largest_exists};
use crate::vector::nsw::{
    dangling, first_of, ids_where, inserted, lemma_unseen_shrinks, nearest, wider, with_deleted,
    with_entry, with_node, EF_CONSTRUCTION, M,
};
use crate::vector::search::{
    cand_bits, cand_item, clock_read_after, ends_after, full_result, is_item, item_id,
    lemma_ends_once, lemma_finite_u128, lemma_items, lemma_ranked, lemma_search_result,
    lemma_see_all_ok, lemma_see_ok, lemma_state_ok, near_bits, near_item, search_over,
    search_result, search_start, search_state, search_step, see, see_all, state_ok, GraphView,
    NodeView, SearchState,
};

verus! {

/// The results keep the nearest: there are at most `ef` (one, where `ef` is 0 and the entry is
/// live); while there are fewer than `ef`, every live node seen is among them; and a live node
/// seen that is not among them is not below the farthest that is.
pub open spec fn keeps_nearest(
    g: GraphView,
    d: spec_fn(u64) -> u32,
    ef: usize,
    st: SearchState,
) -> bool {
    &&& st.results.len() <= ef || st.results.len() == 1
    &&& forall|v: u64|
        #![trigger st.visited.contains(v)]
        st.visited.contains(v) && g.live(v) && !st.results.contains(near_item(d(v), v))
            ==> st.results.len() >= ef && (st.results.len() > 0 ==> !below(
            d(v),
            near_bits(largest(st.results)),
        ))
}

proof fn lemma_start_nearest(g: GraphView, d: spec_fn(u64) -> u32, ef: usize, entry: u64)
    ensures
        keeps_nearest(g, d, ef, search_start(g, d, entry)),
{
    let st = search_start(g, d, entry);
    if g.live(entry) {
        assert(st.results.len() == 1);
    } else {
        assert(st.results.len() == 0);
    }
}

proof fn lemma_see_nearest(
    g: GraphView,
    d: spec_fn(u64) -> u32,
    ef: usize,
    st: SearchState,
    id: u64,
)
    requires
        state_ok(g, d, st),
        keeps_nearest(g, d, ef, st),
    ensures
        keeps_nearest(g, d, ef, see(g, d, ef, st, id)),
{
    let s = see(g, d, ef, st, id);
    lemma_finite_u128(st.results);
    lemma_finite_u128(s.results);
    lemma_see_ok(g, d, ef, st, id);
    if !st.visited.contains(id) && g.live(id) {
        let x = near_item(d(id), id);
        lemma_items(d(id), id);
        if st.results.len() < ef {
            assert forall|v: u64|
                #![trigger s.visited.contains(v)]
                s.visited.contains(v) && g.live(v) implies s.results.contains(
                near_item(d(v), v),
            ) by {
                if v != id {
                    assert(st.visited.contains(v));
                }
            }
        } else if st.results.len() > 0 {
            lemma_largest_exists(st.results);
            let far = largest(st.results);
            lemma_items(d(item_id(far)), item_id(far));
            if below(d(id), near_bits(far)) {
                lemma_largest_exists(s.results);
                let far2 = largest(s.results);
                lemma_items(d(item_id(far2)), item_id(far2));
                assert(far2 <= far);
                assert(rank(near_bits(far2)) <= rank(near_bits(far)));
                assert forall|v: u64|
                    #![trigger s.visited.contains(v)]
                    s.visited.contains(v) && g.live(v) && !s.results.contains(
                        near_item(d(v), v),
                    ) implies !below(d(v), near_bits(far2)) by {
                    lemma_items(d(v), v);
                    if near_item(d(v), v) != far {
                        assert(v != id);
                        assert(st.visited.contains(v));
                        lemma_not_below_down(d(v), near_bits(far), near_bits(far2));
                    }
                }
                assert(st.results.remove(far).len() == st.results.len() - 1);
                assert(s.results.len() == st.results.len());
            } else {
                assert forall|v: u64|
                    #![trigger s.visited.contains(v)]
                    s.visited.contains(v) && g.live(v) && !s.results.contains(
                        near_item(d(v), v),
                    ) implies !below(d(v), near_bits(far)) by {
                    if v != id {
                        assert(st.visited.contains(v));
                    }
                }
            }
        } else {
            assert(s.results == st.results);
        }
    } else if !st.visited.contains(id) {
        assert forall|v: u64|
            #![trigger s.visited.contains(v)]
            s.visited.contains(v) && g.live(v) implies st.visited.contains(v) by {}
    }
}

proof fn lemma_see_all_nearest(
    g: GraphView,
    d: spec_fn(u64) -> u32,
    ef: usize,
    st: SearchState,
    ids: Seq<u64>,
)
    requires
        state_ok(g, d, st),
        keeps_nearest(g, d, ef, st),
    ensures
        keeps_nearest(g, d, ef, see_all(g, d, ef, st, ids)),
    decreases ids.len(),
{
    if ids.len() > 0 {
        lemma_see_all_nearest(g, d, ef, st, ids.drop_last());
        lemma_see_all_ok(g, d, ef, st, ids.drop_last());
        lemma_see_nearest(g, d, ef, see_all(g, d, ef, st, ids.drop_last()), ids.last());
    }
}

/// At every step a search keeps the nearest of what it has seen.
pub proof fn search_keeps_the_nearest(
    g: GraphView,
    d: spec_fn(u64) -> u32,
    ef: usize,
    entry: u64,
    k: nat,
)
    ensures
        keeps_nearest(g, d, ef, search_state(g, d, ef, entry, k)),
    decreases k,
{
    if k == 0 {
        lemma_start_nearest(g, d, ef, entry);
    } else {
        let st = search_state(g, d, ef, entry, (k - 1) as nat);
        search_keeps_the_nearest(g, d, ef, entry, (k - 1) as nat);
        lemma_state_ok(g, d, ef, entry, (k - 1) as nat);
        let c = largest(st.cands);
        let rest = SearchState {
            visited: st.visited,
            cands: st.cands.remove(c),
            results: st.results,
        };
        assert(state_ok(g, d, rest));
        assert(keeps_nearest(g, d, ef, rest)) by {
            assert forall|v: u64|
                #![trigger rest.visited.contains(v)]
                rest.visited.contains(v) && g.live(v) && !rest.results.contains(
                    near_item(d(v), v),
                ) implies rest.results.len() >= ef && (rest.results.len() > 0 ==> !below(
                d(v),
                near_bits(largest(rest.results)),
            )) by {
                assert(st.visited.contains(v));
            }
        }
        if g.nodes.contains_key(item_id(c)) {
            lemma_see_all_nearest(g, d, ef, rest, g.nodes[item_id(c)].neighbors);
        }
    }
}

/// Every node seen is still a candidate, or its neighbors have been seen.
pub open spec fn looked_around(g: GraphView, d: spec_fn(u64) -> u32, st: SearchState) -> bool {
    forall|v: u64, w: u64|
        #![trigger st.visited.contains(v), g.nodes[v].neighbors.contains(w)]
        st.visited.contains(v) && !st.cands.contains(cand_item(d(v), v)) && g.nodes.contains_key(v)
            && g.nodes[v].neighbors.contains(w) ==> st.visited.contains(w)
}

/// As `looked_around`, but for one node.
spec fn looked_around_but(
    g: GraphView,
    d: spec_fn(u64) -> u32,
    st: SearchState,
    u: u64,
) -> bool {
    forall|v: u64, w: u64|
        #![trigger st.visited.contains(v), g.nodes[v].neighbors.contains(w)]
        st.visited.contains(v) && !st.cands.contains(cand_item(d(v), v)) && g.nodes.contains_key(v)
            && g.nodes[v].neighbors.contains(w) && v != u ==> st.visited.contains(w)
}

proof fn lemma_see_all_around(
    g: GraphView,
    d: spec_fn(u64) -> u32,
    ef: usize,
    st: SearchState,
    ids: Seq<u64>,
    u: u64,
)
    requires
        looked_around_but(g, d, st, u),
    ensures
        looked_around_but(g, d, see_all(g, d, ef, st, ids), u),
        st.visited.subset_of(see_all(g, d, ef, st, ids).visited),
        forall|i: int|
            0 <= i < ids.len() ==> see_all(g, d, ef, st, ids).visited.contains(#[trigger] ids[i]),
    decreases ids.len(),
{
    if ids.len() > 0 {
        let init = ids.drop_last();
        lemma_see_all_around(g, d, ef, st, init, u);
        let s = see_all(g, d, ef, st, init);
        let t = see(g, d, ef, s, ids.last());
        assert forall|v: u64, w: u64|
            #![trigger t.visited.contains(v), g.nodes[v].neighbors.contains(w)]
            t.visited.contains(v) && !t.cands.contains(cand_item(d(v), v)) && g.nodes.contains_key(
                v,
            ) && g.nodes[v].neighbors.contains(w) && v != u implies t.visited.contains(w) by {
            assert(s.visited.contains(v));
        }
        assert forall|i: int| 0 <= i < ids.len() implies t.visited.contains(#[trigger] ids[i]) by {
            if i < init.len() {
                assert(s.visited.contains(init[i]));
            }
        }
    }
}

proof fn lemma_looked_around(
    g: GraphView,
    d: spec_fn(u64) -> u32,
    ef: usize,
    entry: u64,
    k: nat,
)
    requires
        forall|j: nat| j < k ==> !search_over(ef, #[trigger] search_state(g, d, ef, entry, j)),
    ensures
        looked_around(g, d, search_state(g, d, ef, entry, k)),
        search_state(g, d, ef, entry, k).visited.contains(entry),
    decreases k,
{
    if k > 0 {
        let j = (k - 1) as nat;
        lemma_looked_around(g, d, ef, entry, j);
        lemma_state_ok(g, d, ef, entry, j);
        let st = search_state(g, d, ef, entry, j);
        assert(!search_over(ef, st));
        lemma_finite_u128(st.cands);
        lemma_largest_exists(st.cands);
        let c = largest(st.cands);
        let u = item_id(c);
        lemma_items(d(u), u);
        let rest = SearchState {
            visited: st.visited,
            cands: st.cands.remove(c),
            results: st.results,
        };
        assert(looked_around_but(g, d, rest, u)) by {
            assert forall|v: u64, w: u64|
                #![trigger rest.visited.contains(v), g.nodes[v].neighbors.contains(w)]
                rest.visited.contains(v) && !rest.cands.contains(cand_item(d(v), v))
                    && g.nodes.contains_key(v) && g.nodes[v].neighbors.contains(w) && v
                    != u implies rest.visited.contains(w) by {
                lemma_items(d(v), v);
                assert(st.visited.contains(v));
            }
        }
        let t = search_state(g, d, ef, entry, k);
        if g.nodes.contains_key(u) {
            let ids = g.nodes[u].neighbors;
            lemma_see_all_around(g, d, ef, rest, ids, u);
            assert forall|v: u64, w: u64|
                #![trigger t.visited.contains(v), g.nodes[v].neighbors.contains(w)]
                t.visited.contains(v) && !t.cands.contains(cand_item(d(v), v))
                    && g.nodes.contains_key(v) && g.nodes[v].neighbors.contains(
                    w,
                ) implies t.visited.contains(w) by {
                if v == u {
                    let i = choose|i: int| 0 <= i < ids.len() && ids[i] == w;
                    assert(t.visited.contains(ids[i]));
                }
            }
        } else {
            assert forall|v: u64, w: u64|
                #![trigger t.visited.contains(v), g.nodes[v].neighbors.contains(w)]
                t.visited.contains(v) && !t.cands.contains(cand_item(d(v), v))
                    && g.nodes.contains_key(v) && g.nodes[v].neighbors.contains(
                    w,
                ) implies t.visited.contains(w) by {
                assert(rest.visited.contains(v));
            }
        }
    }
}

spec fn unseen(st: SearchState) -> nat {
    Set::<u64>::full().difference(st.visited).len()
}

proof fn lemma_see_all_shrinks(
    g: GraphView,
    d: spec_fn(u64) -> u32,
    ef: usize,
    st: SearchState,
    ids: Seq<u64>,
)
    ensures
        unseen(see_all(g, d, ef, st, ids)) < unseen(st) || (unseen(see_all(g, d, ef, st, ids))
            == unseen(st) && see_all(g, d, ef, st, ids).cands == st.cands),
    decreases ids.len(),
{
    if ids.len() > 0 {
        lemma_see_all_shrinks(g, d, ef, st, ids.drop_last());
        let s = see_all(g, d, ef, st, ids.drop_last());
        if !s.visited.contains(ids.last()) {
            lemma_unseen_shrinks(s.visited, ids.last());
        }
    }
}

proof fn lemma_search_ends_from(
    g: GraphView,
    d: spec_fn(u64) -> u32,
    ef: usize,
    entry: u64,
    k: nat,
)
    requires
        forall|j: nat| j < k ==> !search_over(ef, #[trigger] search_state(g, d, ef, entry, j)),
    ensures
        exists|e: nat| ends_after(g, d, ef, entry, e),
    decreases
            unseen(search_state(g, d, ef, entry, k)),
            search_state(g, d, ef, entry, k).cands.len(),
{
    let st = search_state(g, d, ef, entry, k);
    if search_over(ef, st) {
        assert(ends_after(g, d, ef, entry, k));
    } else {
        let c = largest(st.cands);
        let rest = SearchState {
            visited: st.visited,
            cands: st.cands.remove(c),
            results: st.results,
        };
        lemma_finite_u128(st.cands);
        lemma_largest_exists(st.cands);
        if g.nodes.contains_key(item_id(c)) {
            lemma_see_all_shrinks(g, d, ef, rest, g.nodes[item_id(c)].neighbors);
        }
        let next = search_state(g, d, ef, entry, k + 1);
        assert(next == search_step(g, d, ef, st));
        assert(unseen(rest) == unseen(st));
        lemma_search_ends_from(g, d, ef, entry, k + 1);
    }
}

/// Every search comes to an end.
pub proof fn every_search_ends(g: GraphView, d: spec_fn(u64) -> u32, ef: usize, entry: u64)
    ensures
        exists|k: nat| ends_after(g, d, ef, entry, k),
{
    lemma_search_ends_from(g, d, ef, entry, 0);
}

/// A way through the graph, edge by edge.
pub open spec fn is_path(g: GraphView, path: Seq<u64>) -> bool {
    &&& path.len() > 0
    &&& forall|i: int|
        0 <= i < path.len() - 1 ==> g.nodes.contains_key(#[trigger] path[i])
            && g.nodes[path[i]].neighbors.contains(path[i + 1])
}

proof fn lemma_path_seen(
    g: GraphView,
    d: spec_fn(u64) -> u32,
    st: SearchState,
    path: Seq<u64>,
    i: int,
)
    requires
        looked_around(g, d, st),
        st.cands =~= Set::<u128>::empty(),
        is_path(g, path),
        st.visited.contains(path[0]),
        0 <= i < path.len(),
    ensures
        st.visited.contains(path[i]),
    decreases i,
{
    if i > 0 {
        lemma_path_seen(g, d, st, path, i - 1);
        assert(g.nodes.contains_key(path[i - 1]));
        assert(g.nodes[path[i - 1]].neighbors.contains(path[i - 1 + 1]));
    }
}

/// A search that ends with fewer than `ef` results has found every live node that can be
/// reached from the entry.
pub proof fn unfilled_search_is_exhaustive(
    g: GraphView,
    d: spec_fn(u64) -> u32,
    ef: usize,
    entry: u64,
    k: nat,
    path: Seq<u64>,
)
    requires
        ends_after(g, d, ef, entry, k),
        search_result(g, d, ef, entry, k).len() < ef,
        is_path(g, path),
        path[0] == entry,
        g.live(path.last()),
    ensures
        search_result(g, d, ef, entry, k).contains((path.last(), d(path.last()))),
{
    let st = search_state(g, d, ef, entry, k);
    let v = path.last();
    lemma_looked_around(g, d, ef, entry, k);
    lemma_state_ok(g, d, ef, entry, k);
    search_keeps_the_nearest(g, d, ef, entry, k);
    lemma_finite_u128(st.cands);
    lemma_finite_u128(st.results);
    assert forall|x: u128| #[trigger] st.results.contains(x) implies is_item(x) by {
        lemma_items(d(item_id(x)), item_id(x));
    }
    lemma_ranked(st.results);
    assert(st.cands =~= Set::<u128>::empty()) by {
        assert(st.cands.len() == 0);
    }
    lemma_path_seen(g, d, st, path, path.len() - 1);
    assert(st.visited.contains(v));
    let x = near_item(d(v), v);
    assert(st.results.contains(x));
    lemma_items(d(v), v);
}

/// A search returns at most `ef` results, or one.
pub proof fn search_result_is_bounded(
    g: GraphView,
    d: spec_fn(u64) -> u32,
    ef: usize,
    entry: u64,
    k: nat,
)
    ensures
        search_result(g, d, ef, entry, k).len() <= ef || search_result(
            g,
            d,
            ef,
            entry,
            k,
        ).len() == 1,
{
    search_keeps_the_nearest(g, d, ef, entry, k);
    lemma_search_result(g, d, ef, entry, k);
}

/// A deleted node is never found: whatever a search returns after a deletion, the node is not
/// in it.
pub proof fn deleted_nodes_are_not_found(
    g: GraphView,
    id: u64,
    d: spec_fn(u64) -> u32,
    ef: usize,
    entry: u64,
    k: nat,
)
    ensures
        forall|i: int|
            0 <= i < search_result(with_deleted(g, id), d, ef, entry, k).len() ==> (
            #[trigger] search_result(with_deleted(g, id), d, ef, entry, k)[i]).0 != id,
{
    lemma_search_result(with_deleted(g, id), d, ef, entry, k);
}

/// No edge of the graph dangles.
pub open spec fn no_dangling(g: GraphView) -> bool {
    forall|n: u64, t: u64| !dangling(g, n, t)
}

/// No node has more neighbors than the limit.
pub open spec fn degrees_bounded(g: GraphView) -> bool {
    forall|n: u64| #[trigger]
        g.nodes.contains_key(n) ==> g.nodes[n].neighbors.len() <= 2 * M
}

/// Insertion keeps the graph sound: no edge comes to dangle, no list outgrows its limit, the
/// other nodes stay live or deleted as they were, and the entry stays.
pub proof fn insertion_keeps_the_graph_sound(g: GraphView, id: u64, d: spec_fn(u64) -> u32)
    requires
        g.ordered(),
        !g.nodes.contains_key(id),
    ensures
        inserted(g, id, d).ordered(),
        no_dangling(g) ==> no_dangling(inserted(g, id, d)),
        degrees_bounded(g) ==> degrees_bounded(inserted(g, id, d)),
        inserted(g, id, d).live(id),
        forall|n: u64| n != id ==> inserted(g, id, d).live(n) == g.live(n),
        g.entry is Some ==> inserted(g, id, d).entry == g.entry,
{
    let h = inserted(g, id, d);
    assert(h.order == g.order.push(id));
    assert forall|n: u64| h.order.contains(n) <==> h.nodes.contains_key(n) by {
        if g.order.contains(n) {
            let i = choose|i: int| 0 <= i < g.order.len() && g.order[i] == n;
            assert(h.order[i] == n);
        }
        assert(h.order[g.order.len() as int] == id);
    }
    assert(h.order.no_duplicates()) by {
        assert forall|i: int, j: int| 0 <= i < j < h.order.len() implies h.order[i]
            != h.order[j] by {
            assert(g.order.contains(g.order[i]));
        }
    }
    match g.entry {
        None => {
            assert forall|n: u64, t: u64| no_dangling(g) implies !dangling(h, n, t) by {
                assert(!dangling(g, n, t));
            }
        },
        Some(e) => {
            let found = full_result(g, d, EF_CONSTRUCTION, e);
            let chosen = nearest(found, M as nat);
            every_search_ends(g, d, EF_CONSTRUCTION, e);
            let k = choose|k: nat| ends_after(g, d, EF_CONSTRUCTION, e, k);
            lemma_ends_once(g, d, EF_CONSTRUCTION, e, k);
            lemma_search_result(g, d, EF_CONSTRUCTION, e, k);
            assert forall|n: u64, t: u64| no_dangling(g) implies !dangling(h, n, t) by {
                assert(!dangling(g, n, t));
                if h.nodes.contains_key(n) && h.nodes[n].neighbors.contains(t) {
                    let hs = h.nodes[n].neighbors;
                    let i = choose|i: int| 0 <= i < hs.len() && hs[i] == t;
                    if n == id {
                        assert(g.live(found[i].0));
                    } else if chosen.contains(n) {
                        if i < g.nodes[n].neighbors.len() {
                            assert(g.nodes[n].neighbors[i] == t);
                        }
                    }
                }
            }
        },
    }
}

/// Deletion keeps every node and edge; only searches leave the node out.
pub proof fn deletion_keeps_the_graph_sound(g: GraphView, id: u64)
    requires
        g.ordered(),
    ensures
        with_deleted(g, id).ordered(),
        no_dangling(g) ==> no_dangling(with_deleted(g, id)),
        degrees_bounded(g) ==> degrees_bounded(with_deleted(g, id)),
        !with_deleted(g, id).live(id),
        forall|n: u64| n != id ==> with_deleted(g, id).live(n) == g.live(n),
{
    let h = with_deleted(g, id);
    assert forall|n: u64, t: u64| no_dangling(g) implies !dangling(h, n, t) by {
        assert(!dangling(g, n, t));
    }
}

/// Deleting twice is deleting once.
pub proof fn deletion_is_idempotent(g: GraphView, id: u64)
    ensures
        with_deleted(with_deleted(g, id), id) == with_deleted(g, id),
{
    let h = with_deleted(g, id);
    assert(with_deleted(h, id).nodes =~= h.nodes);
}

/// Neighbor lists in which nothing comes twice, and no node is its own neighbor.
pub open spec fn lists_tidy(g: GraphView) -> bool {
    forall|n: u64| #[trigger]
        g.nodes.contains_key(n) ==> g.nodes[n].neighbors.no_duplicates()
            && !g.nodes[n].neighbors.contains(n)
}

/// Insertion and deletion keep the lists tidy: a new node is linked to others, each once, and
/// comes into their lists once.
pub proof fn neighbor_lists_stay_tidy(g: GraphView, id: u64, d: spec_fn(u64) -> u32)
    requires
        g.ordered(),
        no_dangling(g),
        lists_tidy(g),
    ensures
        !g.nodes.contains_key(id) ==> lists_tidy(inserted(g, id, d)),
        lists_tidy(with_deleted(g, id)),
{
    if !g.nodes.contains_key(id) && g.entry is Some {
        let e = g.entry->Some_0;
        let h = inserted(g, id, d);
        let found = full_result(g, d, EF_CONSTRUCTION, e);
        let chosen = nearest(found, M as nat);
        every_search_ends(g, d, EF_CONSTRUCTION, e);
        let k = choose|k: nat| ends_after(g, d, EF_CONSTRUCTION, e, k);
        lemma_ends_once(g, d, EF_CONSTRUCTION, e, k);
        lemma_search_result(g, d, EF_CONSTRUCTION, e, k);
        assert forall|n: u64| #[trigger] h.nodes.contains_key(n) implies h.nodes[
            n
        ].neighbors.no_duplicates() && !h.nodes[n].neighbors.contains(n) by {
            let list = h.nodes[n].neighbors;
            if n == id {
                if list.contains(n) {
                    let i = choose|i: int| 0 <= i < list.len() && list[i] == n;
                    assert(g.live(found[i].0));
                }
            } else if chosen.contains(n) {
                let old = g.nodes[n].neighbors;
                assert(!dangling(g, n, id));
                assert forall|i: int| 0 <= i < list.len() implies list[i] == #[trigger] old.push(
                    id,
                )[i] by {}
                if list.contains(n) {
                    let i = choose|i: int| 0 <= i < list.len() && list[i] == n;
                    assert(old.push(id)[i] == n);
                    assert(i < old.len() && old[i] == n);
                    assert(old.contains(n));
                }
                assert forall|i: int, j: int| 0 <= i < j < list.len() implies list[i]
                    != list[j] by {
                    assert(list[i] == old.push(id)[i]);
                    assert(list[j] == old.push(id)[j]);
                    assert(old[i] == list[i]);
                    assert(old.contains(old[i]));
                }
            }
        }
    }
}

/// The graph of the first `k` of some nodes, put in as they are, one after the other.
pub open spec fn restored(rows: Seq<(u64, NodeView)>, k: nat) -> GraphView
    decreases k,
{
    if k == 0 {
        GraphView { order: Seq::empty(), nodes: Map::empty(), entry: None }
    } else {
        with_node(restored(rows, (k - 1) as nat), rows[k - 1].0, rows[k - 1].1)
    }
}

/// `rows` are the nodes of a graph, each once, in any order.
pub open spec fn are_nodes_of(rows: Seq<(u64, NodeView)>, g: GraphView) -> bool {
    &&& forall|i: int, j: int|
        0 <= i < j < rows.len() ==> (#[trigger] rows[i]).0 != (#[trigger] rows[j]).0
    &&& forall|i: int|
        0 <= i < rows.len() ==> g.nodes.contains_key((#[trigger] rows[i]).0) && g.nodes[rows[i].0]
            == rows[i].1
    &&& forall|id: u64| #[trigger]
        g.nodes.contains_key(id) ==> exists|i: int| 0 <= i < rows.len() && (#[trigger] rows[i]).0
            == id
}

proof fn lemma_restored(rows: Seq<(u64, NodeView)>, k: nat)
    requires
        k <= rows.len(),
        forall|i: int, j: int|
            0 <= i < j < rows.len() ==> (#[trigger] rows[i]).0 != (#[trigger] rows[j]).0,
    ensures
        ({
            let h = restored(rows, k);
            &&& h.order.len() == k
            &&& h.entry is None
            &&& forall|i: int| 0 <= i < k ==> h.order[i] == (#[trigger] rows[i]).0
            &&& forall|i: int|
                0 <= i < k ==> h.nodes.contains_key((#[trigger] rows[i]).0) && h.nodes[rows[i].0]
                    == rows[i].1
            &&& forall|id: u64| #[trigger]
                h.nodes.contains_key(id) ==> exists|i: int| 0 <= i < k && (#[trigger] rows[i]).0
                    == id
        }),
    decreases k,
{
    if k > 0 {
        let j = (k - 1) as nat;
        lemma_restored(rows, j);
        let b = restored(rows, j);
        let h = restored(rows, k);
        let id = rows[j as int].0;
        assert(!b.nodes.contains_key(id));
        assert forall|x: u64| #[trigger] h.nodes.contains_key(x) implies exists|i: int|
            0 <= i < k && (#[trigger] rows[i]).0 == x by {
            if x == id {
                assert(rows[j as int].0 == x);
            } else {
                assert(b.nodes.contains_key(x));
                let i = choose|i: int| 0 <= i < j && (#[trigger] rows[i]).0 == x;
                assert(rows[i].0 == x);
            }
        }
    }
}

/// Which nodes of an order are deleted, or live: each once.
pub proof fn lemma_ids_where(order: Seq<u64>, nodes: Map<u64, NodeView>, deleted: bool)
    requires
        order.no_duplicates(),
    ensures
        ids_where(order, nodes, deleted).no_duplicates(),
        forall|id: u64| #[trigger]
            ids_where(order, nodes, deleted).contains(id) <==> order.contains(id)
                && nodes[id].deleted == deleted,
    decreases order.len(),
{
    if order.len() > 0 {
        let init = order.drop_last();
        let last = order.last();
        lemma_ids_where(init, nodes, deleted);
        let pre = ids_where(init, nodes, deleted);
        let now = ids_where(order, nodes, deleted);
        assert(order =~= init.push(last));
        assert forall|id: u64| order.contains(id) <==> init.contains(id) || id == last by {
            if init.contains(id) {
                let i = choose|i: int| 0 <= i < init.len() && init[i] == id;
                assert(order[i] == id);
            }
            assert(order[order.len() - 1] == last);
        }
        assert(!init.contains(last)) by {
            if init.contains(last) {
                let i = choose|i: int| 0 <= i < init.len() && init[i] == last;
                assert(order[i] == order[order.len() - 1]);
            }
        }
        if nodes[last].deleted == deleted {
            assert(now == pre.push(last));
            assert forall|id: u64| now.contains(id) <==> pre.contains(id) || id == last by {
                if pre.contains(id) {
                    let i = choose|i: int| 0 <= i < pre.len() && pre[i] == id;
                    assert(now[i] == id);
                }
                assert(now[pre.len() as int] == last);
            }
            assert(!pre.contains(last));
            assert forall|a: int, b: int| 0 <= a < b < now.len() implies now[a] != now[b] by {
                assert(pre.contains(pre[a]));
            }
        }
    }
}

/// Two lists without repetition that hold the same are of one length.
pub proof fn lemma_same_len(a: Seq<u64>, b: Seq<u64>)
    requires
        a.no_duplicates(),
        b.no_duplicates(),
        forall|x: u64| a.contains(x) <==> b.contains(x),
    ensures
        a.len() == b.len(),
{
    a.unique_seq_to_set();
    b.unique_seq_to_set();
    assert(a.to_set() =~= b.to_set());
}

/// Restoring the nodes of a graph in any order gives them back: the same neighbors in the same
/// order, the same deletion marks, as many nodes and as many live ones. It sets no entry.
pub proof fn restoring_gives_the_nodes_back(g: GraphView, rows: Seq<(u64, NodeView)>)
    requires
        g.ordered(),
        are_nodes_of(rows, g),
    ensures
        ({
            let h = restored(rows, rows.len());
            &&& h.ordered()
            &&& h.nodes == g.nodes
            &&& h.entry is None
            &&& h.order.len() == g.order.len()
            &&& ids_where(h.order, h.nodes, false).len() == ids_where(
                g.order,
                g.nodes,
                false,
            ).len()
        }),
{
    let h = restored(rows, rows.len());
    lemma_restored(rows, rows.len());
    assert forall|id: u64| h.nodes.contains_key(id) <==> g.nodes.contains_key(id) by {
        if g.nodes.contains_key(id) {
            let i = choose|i: int| 0 <= i < rows.len() && (#[trigger] rows[i]).0 == id;
            assert(h.nodes.contains_key(rows[i].0));
        }
    }
    assert(h.nodes =~= g.nodes) by {
        assert forall|id: u64| h.nodes.contains_key(id) implies h.nodes[id] == g.nodes[id] by {
            let i = choose|i: int| 0 <= i < rows.len() && (#[trigger] rows[i]).0 == id;
            assert(h.nodes[rows[i].0] == rows[i].1);
        }
    }
    assert forall|id: u64| h.order.contains(id) <==> h.nodes.contains_key(id) by {
        if h.order.contains(id) {
            let i = choose|i: int| 0 <= i < h.order.len() && h.order[i] == id;
            assert(h.nodes.contains_key(rows[i].0));
        }
        if h.nodes.contains_key(id) {
            let i = choose|i: int| 0 <= i < rows.len() && (#[trigger] rows[i]).0 == id;
            assert(h.order[i] == id);
        }
    }
    assert forall|i: int, j: int| 0 <= i < j < h.order.len() implies h.order[i] != h.order[j] by {
        assert(rows[i].0 != rows[j].0);
    }
    assert forall|id: u64| h.order.contains(id) <==> g.order.contains(id) by {
        assert(g.order.contains(id) <==> g.nodes.contains_key(id));
    }
    lemma_same_len(h.order, g.order);
    lemma_ids_where(h.order, h.nodes, false);
    lemma_ids_where(g.order, g.nodes, false);
    lemma_same_len(ids_where(h.order, h.nodes, false), ids_where(g.order, g.nodes, false));
}

/// What is returned is the beginning of what was found: as many as are asked for, or all, each
/// where it was.
pub proof fn answers_begin_what_was_found(found: Seq<(u64, u32)>, top_k: nat)
    ensures
        top_k <= found.len() ==> first_of(found, top_k).len() == top_k,
        top_k > found.len() ==> first_of(found, top_k).len() == found.len(),
        forall|i: int|
            0 <= i < first_of(found, top_k).len() ==> #[trigger] first_of(found, top_k)[i]
                == found[i],
{
}

/// A search is as wide as is asked for, and wide enough for what is to be returned.
pub proof fn searches_are_wide_enough(ef: usize, top_k: usize)
    ensures
        wider(ef, top_k) >= ef,
        wider(ef, top_k) >= top_k,
        wider(ef, top_k) == ef || wider(ef, top_k) == top_k,
{
}

proof fn lemma_found_in_order(
    g: GraphView,
    d: spec_fn(u64) -> u32,
    ef: usize,
    entry: u64,
    k: nat,
    i: int,
    j: int,
)
    requires
        0 <= i < j < search_result(g, d, ef, entry, k).len(),
    ensures
        ({
            let found = search_result(g, d, ef, entry, k);
            &&& found[i].0 != found[j].0
            &&& rank(found[i].1) <= rank(found[j].1)
            &&& found[i].1 == found[j].1 ==> found[i].0 < found[j].0
        }),
{
    let st = search_state(g, d, ef, entry, k);
    let found = search_result(g, d, ef, entry, k);
    lemma_state_ok(g, d, ef, entry, k);
    assert forall|x: u128| #[trigger] st.results.contains(x) implies is_item(x) by {
        lemma_items(d(item_id(x)), item_id(x));
    }
    lemma_ranked(st.results);
    lemma_search_result(g, d, ef, entry, k);
    assert(near_item(found[i].1, found[i].0) < near_item(found[j].1, found[j].0));
    lemma_items(found[i].1, found[i].0);
    lemma_items(found[j].1, found[j].0);
}

proof fn lemma_left_out(
    g: GraphView,
    d: spec_fn(u64) -> u32,
    ef: usize,
    entry: u64,
    k: nat,
    v: u64,
    i: int,
)
    requires
        forall|v: u64| g.live(v) ==> !is_nan(#[trigger] d(v)),
        search_state(g, d, ef, entry, k).visited.contains(v),
        g.live(v),
        !search_result(g, d, ef, entry, k).contains((v, d(v))),
    ensures
        search_result(g, d, ef, entry, k).len() >= ef,
        0 <= i < search_result(g, d, ef, entry, k).len() ==> !below(
            d(v),
            search_result(g, d, ef, entry, k)[i].1,
        ),
{
    let st = search_state(g, d, ef, entry, k);
    let found = search_result(g, d, ef, entry, k);
    lemma_state_ok(g, d, ef, entry, k);
    search_keeps_the_nearest(g, d, ef, entry, k);
    lemma_finite_u128(st.results);
    assert forall|x: u128| #[trigger] st.results.contains(x) implies is_item(x) by {
        lemma_items(d(item_id(x)), item_id(x));
    }
    lemma_ranked(st.results);
    lemma_items(d(v), v);
    assert(!st.results.contains(near_item(d(v), v)));
    if 0 <= i < found.len() {
        lemma_largest_exists(st.results);
        let far = largest(st.results);
        lemma_items(d(item_id(far)), item_id(far));
        assert(!is_nan(d(item_id(far))));
        assert(st.results.contains(near_item(found[i].1, found[i].0)));
        lemma_items(found[i].1, found[i].0);
        lemma_not_below_down(d(v), near_bits(far), found[i].1);
    }
}

/// The answer to a query is the nearest of all live nodes that the search has seen: live nodes,
/// each once, at their distances, the nearest first and among equals the lowest number; a node
/// that was seen is left out only where the answer is full, and is then no nearer than any node
/// in the answer.
pub proof fn answers_are_the_nearest_seen(
    g: GraphView,
    d: spec_fn(u64) -> u32,
    ef_search: usize,
    top_k: usize,
    entry: u64,
    k: nat,
)
    requires
        forall|v: u64| g.live(v) ==> !is_nan(#[trigger] d(v)),
    ensures
        ({
            let found = search_result(g, d, wider(ef_search, top_k), entry, k);
            let r = first_of(found, top_k as nat);
            let seen = search_state(g, d, wider(ef_search, top_k), entry, k).visited;
            &&& r.len() <= top_k
            &&& forall|i: int|
                0 <= i < r.len() ==> g.live((#[trigger] r[i]).0) && r[i].1 == d(r[i].0)
                    && seen.contains(r[i].0)
            &&& forall|i: int, j: int|
                0 <= i < j < r.len() ==> (#[trigger] r[i]).0 != (#[trigger] r[j]).0 && !below(
                    r[j].1,
                    r[i].1,
                ) && (r[i].1 == r[j].1 ==> r[i].0 < r[j].0)
            &&& forall|v: u64|
                #![trigger seen.contains(v)]
                seen.contains(v) && g.live(v) ==> r.contains((v, d(v))) || (r.len() == top_k
                    && forall|i: int| 0 <= i < r.len() ==> !below(d(v), (#[trigger] r[i]).1))
        }),
{
    let width = wider(ef_search, top_k);
    let seen = search_state(g, d, width, entry, k).visited;
    let found = search_result(g, d, width, entry, k);
    let r = first_of(found, top_k as nat);
    lemma_search_result(g, d, width, entry, k);
    assert forall|i: int| 0 <= i < r.len() implies g.live((#[trigger] r[i]).0) && r[i].1 == d(
        r[i].0,
    ) && seen.contains(r[i].0) by {
        assert(r[i] == found[i]);
    }
    assert forall|i: int, j: int| 0 <= i < j < r.len() implies (#[trigger] r[i]).0 != (
    #[trigger] r[j]).0 && !below(r[j].1, r[i].1) && (r[i].1 == r[j].1 ==> r[i].0 < r[j].0) by {
        assert(r[i] == found[i] && r[j] == found[j]);
        lemma_found_in_order(g, d, width, entry, k, i, j);
    }
    assert forall|v: u64|
        #![trigger seen.contains(v)]
        seen.contains(v) && g.live(v) && !r.contains((v, d(v))) implies r.len() == top_k
        && forall|i: int| 0 <= i < r.len() ==> !below(d(v), (#[trigger] r[i]).1) by {
        if found.contains((v, d(v))) {
            let at = choose|at: int| 0 <= at < found.len() && found[at] == (v, d(v));
            if at < r.len() {
                assert(r[at] == (v, d(v)));
            }
        } else {
            lemma_left_out(g, d, width, entry, k, v, 0);
        }
        assert forall|i: int| 0 <= i < r.len() implies !below(d(v), (#[trigger] r[i]).1) by {
            assert(r[i] == found[i]);
            if !found.contains((v, d(v))) {
                lemma_left_out(g, d, width, entry, k, v, i);
            } else {
                let at = choose|at: int| 0 <= at < found.len() && found[at] == (v, d(v));
                lemma_found_in_order(g, d, width, entry, k, i, at);
            }
        }
    }
}

/// A search stops only where going on could not help: whatever it has not looked at lies behind
/// nodes that are farther than the farthest of `ef` results.
pub proof fn searches_stop_when_the_rest_is_farther(
    g: GraphView,
    d: spec_fn(u64) -> u32,
    ef: usize,
    entry: u64,
    k: nat,
    v: u64,
    w: u64,
)
    requires
        ends_after(g, d, ef, entry, k),
        search_state(g, d, ef, entry, k).visited.contains(v),
        g.nodes.contains_key(v),
        g.nodes[v].neighbors.contains(w),
        !search_state(g, d, ef, entry, k).visited.contains(w),
    ensures
        ({
            let found = search_result(g, d, ef, entry, k);
            &&& found.len() >= ef
            &&& found.len() > 0
            &&& !is_nan(d(v)) ==> forall|i: int|
                0 <= i < found.len() && !is_nan((#[trigger] found[i]).1) ==> below(
                    found[i].1,
                    d(v),
                )
        }),
{
    let st = search_state(g, d, ef, entry, k);
    let found = search_result(g, d, ef, entry, k);
    lemma_looked_around(g, d, ef, entry, k);
    lemma_state_ok(g, d, ef, entry, k);
    lemma_search_result(g, d, ef, entry, k);
    lemma_finite_u128(st.cands);
    lemma_finite_u128(st.results);
    lemma_items(d(v), v);
    let x = cand_item(d(v), v);
    assert(st.cands.contains(x));
    assert(st.cands.remove(x).len() < st.cands.len());
    lemma_largest_exists(st.cands);
    let c = largest(st.cands);
    lemma_items(d(item_id(c)), item_id(c));
    assert(x <= c);
    assert(rank(cand_bits(c)) <= rank(d(v)));
    lemma_largest_exists(st.results);
    let far = largest(st.results);
    lemma_items(d(item_id(far)), item_id(far));
    assert forall|y: u128| #[trigger] st.results.contains(y) implies is_item(y) by {
        lemma_items(d(item_id(y)), item_id(y));
    }
    lemma_ranked(st.results);
    assert forall|i: int|
        !is_nan(d(v)) && 0 <= i < found.len() && !is_nan((#[trigger] found[i]).1) implies below(
        found[i].1,
        d(v),
    ) by {
        let y = near_item(found[i].1, found[i].0);
        assert(st.results.contains(y));
        lemma_items(found[i].1, found[i].0);
        assert(rank(found[i].1) <= rank(near_bits(far)));
    }
}

/// The clock is looked at no earlier than in the 256th step, and not again before the next 256:
/// a shorter search is never cut short.
pub proof fn short_searches_are_not_cut(
    g: GraphView,
    d: spec_fn(u64) -> u32,
    ef: usize,
    entry: u64,
    k: nat,
    j: nat,
)
    requires
        clock_read_after(g, d, ef, entry, k),
    ensures
        k >= 255,
        clock_read_after(g, d, ef, entry, j) && j > k ==> j >= k + 256,
{
}

/// A new node is linked to the nearest that a search of width 200 finds, 16 of them or all, the
/// nearest first. Each of those lists it behind its other neighbors, unless 32 stand there
/// already. Every other list and every mark stays as it is.
pub proof fn new_nodes_are_linked_to_the_nearest_found(
    g: GraphView,
    id: u64,
    d: spec_fn(u64) -> u32,
    k: nat,
    n: u64,
)
    requires
        g.ordered(),
        !g.nodes.contains_key(id),
        g.entry is Some,
        ends_after(g, d, 200, g.entry->Some_0, k),
        g.nodes.contains_key(n),
        g.nodes[n].neighbors.len() <= 32,
    ensures
        ({
            let found = search_result(g, d, 200, g.entry->Some_0, k);
            let h = inserted(g, id, d);
            let links = h.nodes[id].neighbors;
            let list = h.nodes[n].neighbors;
            &&& h.order == g.order.push(id)
            &&& h.entry == g.entry
            &&& h.nodes.dom() == g.nodes.dom().insert(id)
            &&& !h.nodes[id].deleted
            &&& links.len() == (if found.len() < 16 {
                found.len()
            } else {
                16
            })
            &&& forall|i: int| 0 <= i < links.len() ==> #[trigger] links[i] == found[i].0
            &&& h.nodes[n].deleted == g.nodes[n].deleted
            &&& if links.contains(n) && g.nodes[n].neighbors.len() < 32 {
                list == g.nodes[n].neighbors.push(id)
            } else {
                list == g.nodes[n].neighbors
            }
        }),
{
    let h = inserted(g, id, d);
    lemma_ends_once(g, d, 200, g.entry->Some_0, k);
    assert(h.nodes.dom() =~= g.nodes.dom().insert(id));
    if h.nodes[id].neighbors.contains(n) && g.nodes[n].neighbors.len() == 32 {
        assert(h.nodes[n].neighbors =~= g.nodes[n].neighbors);
    }
}

/// No list is cut anywhere but at its end: what stands in a list after an insertion stood there
/// before, in the same place, or is the new node, last.
pub proof fn insertion_only_adds_at_the_end(g: GraphView, id: u64, d: spec_fn(u64) -> u32, n: u64)
    requires
        !g.nodes.contains_key(id),
        g.nodes.contains_key(n),
    ensures
        ({
            let old_list = g.nodes[n].neighbors;
            let list = inserted(g, id, d).nodes[n].neighbors;
            &&& list.len() <= old_list.len() + 1
            &&& list.len() < old_list.len() ==> list.len() == 32
            &&& forall|i: int|
                0 <= i < list.len() && i < old_list.len() ==> #[trigger] list[i] == old_list[i]
            &&& list.len() > old_list.len() ==> list.last() == id
        }),
{
}

/// The first node of a graph has no neighbors, and searches start at it.
pub proof fn the_first_node_is_the_entry(g: GraphView, id: u64, d: spec_fn(u64) -> u32)
    requires
        g.entry is None,
    ensures
        inserted(g, id, d).entry == Some(id),
        inserted(g, id, d).live(id),
        inserted(g, id, d).nodes[id].neighbors.len() == 0,
        inserted(g, id, d).order == g.order.push(id),
        forall|n: u64|
            n != id && g.nodes.contains_key(n) ==> inserted(g, id, d).nodes.contains_key(n)
                && #[trigger] inserted(g, id, d).nodes[n] == g.nodes[n],
{
}

/// A deletion leaves every neighbor list, the order and the entry as they are, and marks the node
/// alone.
pub proof fn deletion_only_marks(g: GraphView, id: u64, n: u64)
    ensures
        with_deleted(g, id).order == g.order,
        with_deleted(g, id).entry == g.entry,
        with_deleted(g, id).nodes.contains_key(n) == g.nodes.contains_key(n),
        g.nodes.contains_key(n) ==> with_deleted(g, id).nodes[n].neighbors
            == g.nodes[n].neighbors && (with_deleted(g, id).nodes[n].deleted <==> n == id
            || g.nodes[n].deleted),
{
}

/// Only a node can be made the entry; nothing else changes.
pub proof fn only_nodes_become_the_entry(g: GraphView, id: u64)
    ensures
        with_entry(g, id).nodes == g.nodes,
        with_entry(g, id).order == g.order,
        g.nodes.contains_key(id) ==> with_entry(g, id).entry == Some(id),
        !g.nodes.contains_key(id) ==> with_entry(g, id).entry == g.entry,
        g.ordered() ==> with_entry(g, id).ordered(),
{
}

/// A node that is put in as it is stands there as it is, in the place of one with its id or
/// behind all others; no other node changes.
pub proof fn putting_a_node_in_changes_no_other(g: GraphView, id: u64, node: NodeView, n: u64)
    requires
        g.ordered(),
    ensures
        with_node(g, id, node).ordered(),
        with_node(g, id, node).nodes.contains_key(id),
        with_node(g, id, node).nodes[id] == node,
        with_node(g, id, node).entry == g.entry,
        n != id ==> with_node(g, id, node).nodes.contains_key(n) == g.nodes.contains_key(n),
        n != id && g.nodes.contains_key(n) ==> with_node(g, id, node).nodes[n] == g.nodes[n],
        forall|i: int|
            0 <= i < g.order.len() ==> #[trigger] with_node(g, id, node).order[i] == g.order[i],
{
    let h = with_node(g, id, node);
    if !g.nodes.contains_key(id) {
        assert(!g.order.contains(id));
        assert forall|x: u64| h.order.contains(x) <==> h.nodes.contains_key(x) by {
            if g.order.contains(x) {
                let i = choose|i: int| 0 <= i < g.order.len() && g.order[i] == x;
                assert(h.order[i] == x);
            }
            assert(h.order[g.order.len() as int] == id);
        }
        assert forall|i: int, j: int| 0 <= i < j < h.order.len() implies h.order[i]
            != h.order[j] by {
            assert(g.order.contains(g.order[i]));
        }
    } else {
        assert forall|x: u64| h.order.contains(x) <==> h.nodes.contains_key(x) by {
            assert(g.order.contains(x) <==> g.nodes.contains_key(x));
        }
    }
}

/// Nodes are listed in the order in which they came: listing goes piece by piece, and a single
/// node is listed exactly where its mark is the one asked for.
pub proof fn nodes_are_listed_in_order(
    a: Seq<u64>,
    b: Seq<u64>,
    nodes: Map<u64, NodeView>,
    deleted: bool,
    id: u64,
)
    ensures
        ids_where(a + b, nodes, deleted) == ids_where(a, nodes, deleted) + ids_where(
            b,
            nodes,
            deleted,
        ),
        nodes[id].deleted == deleted ==> ids_where(seq![id], nodes, deleted) == seq![id],
        nodes[id].deleted != deleted ==> ids_where(seq![id], nodes, deleted).len() == 0,
        ids_where(Seq::empty(), nodes, deleted).len() == 0,
    decreases b.len(),
{
    assert(seq![id].drop_last() =~= Seq::<u64>::empty());
    assert(ids_where(Seq::empty(), nodes, deleted) =~= Seq::<u64>::empty());
    assert(Seq::<u64>::empty().push(id) =~= seq![id]);
    if b.len() == 0 {
        assert(a + b =~= a);
        assert(ids_where(b, nodes, deleted) =~= Seq::<u64>::empty());
    } else {
        nodes_are_listed_in_order(a, b.drop_last(), nodes, deleted, id);
        assert((a + b).drop_last() =~= a + b.drop_last());
        assert((a + b).last() == b.last());
    }
}

/// Candidates are taken the nearest first, and among equals the highest number; results are ranked
/// the nearest first, and among equals the lowest number.
pub proof fn nodes_order_by_distance_then_number(a: u32, x: u64, b: u32, y: u64)
    ensures
        cand_item(a, x) > cand_item(b, y) <==> rank(a) < rank(b) || (a == b && x > y),
        near_item(a, x) < near_item(b, y) <==> rank(a) < rank(b) || (a == b && x < y),
        item_id(cand_item(a, x)) == x && cand_bits(cand_item(a, x)) == a,
        item_id(near_item(a, x)) == x && near_bits(near_item(a, x)) == a,
{
    lemma_items(a, x);
    lemma_items(b, y);
    crate::vector::dist::rank_is_one_to_one(a);
    crate::vector::dist::rank_is_one_to_one(b);
}

} // verus!
