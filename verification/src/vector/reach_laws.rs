//! What searches reach: in an index of a few vectors, none of them deleted, all of them.

use vstd::prelude::*;
use crate::vector::dist::rank;
use crate::vector::heap::largest;
use crate::vector::nsw::{capped, dangling, first_of, inserted, nearest, EF_CONSTRUCTION, M};
use crate::vector::search::{
    ends_after, full_result, item_id, lemma_ends_once, lemma_finite_u128, lemma_search_result,
    near_item, search_result, search_state, see, see_all, GraphView, SearchState,
};
use crate::vector::search_laws::{
    degrees_bounded, every_search_ends, is_path, lists_tidy, no_dangling,
    unfilled_search_is_exhaustive,
};
use crate::vector::store::{dist_from, rebuilt};
use crate::vector::store_laws::rebuilt_graph_is_sound;

verus! {

/// Whether a node can be reached from the entry.
pub open spec fn reachable(g: GraphView, id: u64) -> bool {
    g.entry is Some && exists|path: Seq<u64>| #[trigger]
        is_path(g, path) && path[0] == g.entry->Some_0 && path.last() == id
}

proof fn lemma_see_finds(
    g: GraphView,
    d: spec_fn(u64) -> u32,
    ef: usize,
    st: SearchState,
    ids: Seq<u64>,
)
    requires
        st.results.len() > 0,
    ensures
        see_all(g, d, ef, st, ids).results.len() > 0,
    decreases ids.len(),
{
    if ids.len() > 0 {
        lemma_see_finds(g, d, ef, st, ids.drop_last());
        let s = see_all(g, d, ef, st, ids.drop_last());
        let t = see(g, d, ef, s, ids.last());
        lemma_finite_u128(s.results);
        lemma_finite_u128(t.results);
        if t.results != s.results {
            let x = near_item(d(ids.last()), ids.last());
            assert(t.results.contains(x));
            assert(t.results.remove(x).len() < t.results.len());
        }
    }
}

/// A search from a live entry finds something.
pub proof fn searches_from_a_live_entry_find(
    g: GraphView,
    d: spec_fn(u64) -> u32,
    ef: usize,
    entry: u64,
    k: nat,
)
    requires
        g.live(entry),
    ensures
        search_result(g, d, ef, entry, k).len() > 0,
    decreases k,
{
    lemma_search_result(g, d, ef, entry, k);
    if k > 0 {
        let j = (k - 1) as nat;
        searches_from_a_live_entry_find(g, d, ef, entry, j);
        lemma_search_result(g, d, ef, entry, j);
        let st = search_state(g, d, ef, entry, j);
        let c = largest(st.cands);
        let rest = SearchState {
            visited: st.visited,
            cands: st.cands.remove(c),
            results: st.results,
        };
        let u = item_id(c);
        if g.nodes.contains_key(u) {
            lemma_see_finds(g, d, ef, rest, g.nodes[u].neighbors);
        }
    }
}

/// A list that names others, each once, is shorter than there are nodes.
proof fn lemma_list_is_short(g: GraphView, n: u64)
    requires
        g.ordered(),
        no_dangling(g),
        lists_tidy(g),
        g.nodes.contains_key(n),
    ensures
        g.nodes[n].neighbors.len() < g.order.len(),
{
    let list = g.nodes[n].neighbors;
    let a = list.to_set().insert(n);
    let b = g.order.to_set();
    list.unique_seq_to_set();
    g.order.unique_seq_to_set();
    assert(g.order.contains(n));
    assert forall|x: u64| a.contains(x) implies b.contains(x) by {
        if x != n {
            assert(list.contains(x));
            assert(!dangling(g, n, x));
            assert(g.order.contains(x));
        }
    }
    vstd::set_lib::lemma_len_subset(a, b);
    assert(!list.to_set().contains(n));
}

/// Insertion takes no edge away.
proof fn lemma_paths_stay(g: GraphView, id: u64, d: spec_fn(u64) -> u32, path: Seq<u64>)
    requires
        g.entry is Some,
        degrees_bounded(g),
        !g.nodes.contains_key(id),
        is_path(g, path),
    ensures
        is_path(inserted(g, id, d), path),
{
    let h = inserted(g, id, d);
    assert forall|i: int| 0 <= i < path.len() - 1 implies h.nodes.contains_key(
        #[trigger] path[i],
    ) && h.nodes[path[i]].neighbors.contains(path[i + 1]) by {
        let n = path[i];
        assert(g.nodes.contains_key(n));
        let old_list = g.nodes[n].neighbors;
        let list = h.nodes[n].neighbors;
        let j = choose|j: int| 0 <= j < old_list.len() && old_list[j] == path[i + 1];
        if list != old_list {
            assert(list == capped(old_list.push(id)));
            assert(list[j] == old_list[j]);
        }
        assert(list.contains(path[i + 1]));
    }
}

/// In a graph that insertions alone have built, of so few nodes that no neighbor list is cut,
/// every node can be reached.
pub proof fn small_graphs_are_connected(ids: Seq<u64>, pd: spec_fn(u64, u64) -> u32, k: nat)
    requires
        ids.no_duplicates(),
        k <= ids.len(),
        k <= 2 * M + 1,
    ensures
        forall|i: int| 0 <= i < k ==> reachable(rebuilt(ids, pd, k), #[trigger] ids[i]),
    decreases k,
{
    if k > 0 {
        let j = (k - 1) as nat;
        let h = rebuilt(ids, pd, j);
        let g = rebuilt(ids, pd, k);
        let id = ids[j as int];
        let d = dist_from(pd, id);
        small_graphs_are_connected(ids, pd, j);
        rebuilt_graph_is_sound(ids, pd, j);
        assert(!h.nodes.contains_key(id)) by {
            if h.order.contains(id) {
                let i = choose|i: int| 0 <= i < h.order.len() && h.order[i] == id;
                assert(ids[i] == ids[j as int]);
            }
            assert(h.order.contains(id) <==> h.nodes.contains_key(id));
        }
        if j == 0 {
            let path = seq![id];
            assert(h.entry is None);
            assert(is_path(g, path) && path[0] == g.entry->Some_0 && path.last() == id);
            assert(reachable(g, id));
        } else {
            let e = h.entry->Some_0;
            let found = full_result(h, d, EF_CONSTRUCTION, e);
            let chosen = nearest(found, M as nat);
            every_search_ends(h, d, EF_CONSTRUCTION, e);
            let n = choose|n: nat| ends_after(h, d, EF_CONSTRUCTION, e, n);
            lemma_ends_once(h, d, EF_CONSTRUCTION, e, n);
            searches_from_a_live_entry_find(h, d, EF_CONSTRUCTION, e, n);
            lemma_search_result(h, d, EF_CONSTRUCTION, e, n);
            let c = found[0].0;
            assert(h.live(c));
            assert(chosen[0] == c);
            assert(chosen.contains(c));
            lemma_list_is_short(h, c);
            let list = g.nodes[c].neighbors;
            assert(c != id);
            assert(list == h.nodes[c].neighbors.push(id));
            assert(list[list.len() - 1] == id);
            assert(list.contains(id));
            let pre = ids.take(j as int);
            assert(pre.contains(c));
            let at = choose|i: int| 0 <= i < pre.len() && pre[i] == c;
            assert(reachable(h, ids[at]));
            let to_c = choose|path: Seq<u64>| #[trigger]
                is_path(h, path) && path[0] == e && path.last() == c;
            lemma_paths_stay(h, id, d, to_c);
            let path = to_c.push(id);
            assert(is_path(g, path)) by {
                assert forall|i: int| 0 <= i < path.len() - 1 implies g.nodes.contains_key(
                    #[trigger] path[i],
                ) && g.nodes[path[i]].neighbors.contains(path[i + 1]) by {
                    if i < to_c.len() - 1 {
                        assert(path[i] == to_c[i] && path[i + 1] == to_c[i + 1]);
                        assert(g.nodes.contains_key(to_c[i]));
                    } else {
                        assert(path[i] == c && path[i + 1] == id);
                    }
                }
            }
            assert(path[0] == g.entry->Some_0 && path.last() == id);
            assert forall|i: int| 0 <= i < k implies reachable(g, #[trigger] ids[i]) by {
                if i < j {
                    assert(reachable(h, ids[i]));
                    let p = choose|path: Seq<u64>| #[trigger]
                        is_path(h, path) && path[0] == e && path.last() == ids[i];
                    lemma_paths_stay(h, id, d, p);
                    assert(is_path(g, p) && p[0] == g.entry->Some_0 && p.last() == ids[i]);
                }
            }
        }
    }
}

/// An index of a few vectors, none of them deleted, answers in full: a search that is wide
/// enough and not cut short finds every vector, at its distance, the nearest first, and returns
/// as many as were asked for, or all. No vector that is left out is nearer than one returned.
pub proof fn small_index_answers_in_full(
    ids: Seq<u64>,
    pd: spec_fn(u64, u64) -> u32,
    d: spec_fn(u64) -> u32,
    width: usize,
    top_k: nat,
    k: nat,
)
    requires
        ids.no_duplicates(),
        0 < ids.len() <= 2 * M + 1,
        ids.len() <= width,
        ends_after(
            rebuilt(ids, pd, ids.len()),
            d,
            width,
            rebuilt(ids, pd, ids.len()).entry->Some_0,
            k,
        ),
    ensures
        ({
            let g = rebuilt(ids, pd, ids.len());
            let found = search_result(g, d, width, g.entry->Some_0, k);
            &&& g.entry is Some
            &&& found.len() == ids.len()
            &&& forall|i: int|
                0 <= i < ids.len() ==> found.contains((#[trigger] ids[i], d(ids[i])))
            &&& first_of(found, top_k).len() == (if top_k < ids.len() {
                top_k
            } else {
                ids.len()
            })
            &&& forall|i: int, j: int|
                0 <= i < ids.len() && !first_of(found, top_k).contains((ids[i], d(ids[i]))) && 0
                    <= j < first_of(found, top_k).len() ==> rank(
                    (#[trigger] first_of(found, top_k)[j]).1,
                ) <= rank(d(#[trigger] ids[i]))
        }),
{
    let n = ids.len();
    let g = rebuilt(ids, pd, n);
    rebuilt_graph_is_sound(ids, pd, n);
    small_graphs_are_connected(ids, pd, n);
    assert(ids.take(n as int) =~= ids);
    let e = g.entry->Some_0;
    let found = search_result(g, d, width, e, k);
    lemma_search_result(g, d, width, e, k);
    let got = Seq::new(found.len(), |i: int| found[i].0);
    assert(got.no_duplicates()) by {
        assert forall|i: int, j: int| 0 <= i < j < got.len() implies got[i] != got[j] by {
            assert(found[i].0 != found[j].0);
        }
    }
    got.unique_seq_to_set();
    ids.unique_seq_to_set();
    assert forall|x: u64| got.to_set().contains(x) implies ids.to_set().contains(x) by {
        let i = choose|i: int| 0 <= i < got.len() && got[i] == x;
        assert(g.live(found[i].0));
    }
    vstd::set_lib::lemma_len_subset(got.to_set(), ids.to_set());
    if found.len() < width {
        assert forall|i: int| 0 <= i < n implies found.contains((#[trigger] ids[i], d(ids[i]))) by {
            assert(ids.contains(ids[i]));
            assert(g.live(ids[i]));
            assert(reachable(g, ids[i]));
            let path = choose|path: Seq<u64>| #[trigger]
                is_path(g, path) && path[0] == e && path.last() == ids[i];
            unfilled_search_is_exhaustive(g, d, width, e, k, path);
        }
        assert forall|x: u64| ids.to_set().contains(x) implies got.to_set().contains(x) by {
            let i = choose|i: int| 0 <= i < ids.len() && ids[i] == x;
            assert(found.contains((ids[i], d(ids[i]))));
            let j = choose|j: int| 0 <= j < found.len() && found[j] == (ids[i], d(ids[i]));
            assert(got[j] == x);
        }
        vstd::set_lib::lemma_len_subset(ids.to_set(), got.to_set());
    } else {
        vstd::set_lib::lemma_subset_equality(got.to_set(), ids.to_set());
        assert forall|i: int| 0 <= i < n implies found.contains((#[trigger] ids[i], d(ids[i]))) by {
            assert(ids.to_set().contains(ids[i]));
            assert(got.to_set().contains(ids[i]));
            let j = choose|j: int| 0 <= j < got.len() && got[j] == ids[i];
            assert(found[j] == (ids[i], d(ids[i])));
        }
    }
    let r = first_of(found, top_k);
    assert forall|i: int, j: int|
        0 <= i < ids.len() && !r.contains((ids[i], d(ids[i]))) && 0 <= j < r.len() implies rank(
        (#[trigger] r[j]).1,
    ) <= rank(d(#[trigger] ids[i])) by {
        assert(found.contains((ids[i], d(ids[i]))));
        let at = choose|at: int| 0 <= at < found.len() && found[at] == (ids[i], d(ids[i]));
        if at < r.len() {
            assert(r[at] == (ids[i], d(ids[i])));
        }
        assert(r[j] == found[j]);
    }
}

} // verus!
