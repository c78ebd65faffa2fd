//! The best-first search of a graph layer, as a machine whose every step is determined.
//!
//! A search keeps the nodes it has seen, the candidates whose neighbors it has not yet looked
//! at, and the nearest live nodes found. Candidates and results are numbers that order by
//! distance first and node second.

use vstd::prelude::*;
use crate::vector::dist::{below, rank, unrank};
use crate::vector::heap::{largest, lemma_largest_exists};

verus! {

/// A node of the graph: whether it is deleted, and its neighbors.
pub struct NodeView {
    pub deleted: bool,
    pub neighbors: Seq<u64>,
}

/// A graph: its nodes, the order in which they came, and the node where searches start.
pub struct GraphView {
    pub order: Seq<u64>,
    pub nodes: Map<u64, NodeView>,
    pub entry: Option<u64>,
}

impl GraphView {
    /// The order names each node once, and the entry is a node.
    pub open spec fn ordered(self) -> bool {
        &&& self.order.no_duplicates()
        &&& forall|id: u64| self.order.contains(id) <==> self.nodes.contains_key(id)
        &&& self.entry is Some ==> self.nodes.contains_key(self.entry->Some_0)
    }

    /// Whether a node is there and not deleted.
    pub open spec fn live(self, id: u64) -> bool {
        self.nodes.contains_key(id) && !self.nodes[id].deleted
    }
}

/// A result: ordered by distance, then by node.
pub open spec fn near_item(bits: u32, id: u64) -> u128 {
    (rank(bits) * 0x1_0000_0000_0000_0000 + id) as u128
}

/// A candidate: the nearest is the largest, and among equals the node with the largest number.
pub open spec fn cand_item(bits: u32, id: u64) -> u128 {
    ((0xFFFF_FFFF - rank(bits)) * 0x1_0000_0000_0000_0000 + id) as u128
}

/// The node of a result or a candidate.
pub open spec fn item_id(x: u128) -> u64 {
    (x % 0x1_0000_0000_0000_0000) as u64
}

/// The distance of a result.
pub open spec fn near_bits(x: u128) -> u32 {
    unrank((x / 0x1_0000_0000_0000_0000) as u32)
}

/// The distance of a candidate.
pub open spec fn cand_bits(x: u128) -> u32 {
    unrank((0xFFFF_FFFF - x / 0x1_0000_0000_0000_0000) as u32)
}

pub proof fn lemma_items(bits: u32, id: u64)
    ensures
        item_id(near_item(bits, id)) == id,
        near_bits(near_item(bits, id)) == bits,
        item_id(cand_item(bits, id)) == id,
        cand_bits(cand_item(bits, id)) == bits,
        near_item(bits, id) as int == rank(bits) * 0x1_0000_0000_0000_0000 + id,
        cand_item(bits, id) as int == (0xFFFF_FFFF - rank(bits)) * 0x1_0000_0000_0000_0000 + id,
{
}

/// What a search holds.
pub struct SearchState {
    pub visited: Set<u64>,
    pub cands: Set<u128>,
    pub results: Set<u128>,
}

/// A search that has seen its entry only.
pub open spec fn search_start(g: GraphView, d: spec_fn(u64) -> u32, entry: u64) -> SearchState {
    SearchState {
        visited: set![entry],
        cands: set![cand_item(d(entry), entry)],
        results: if g.live(entry) {
            set![near_item(d(entry), entry)]
        } else {
            Set::empty()
        },
    }
}

/// The results after a live node has been seen: it joins while there are fewer than `ef`;
/// after that it takes the place of the farthest if it is nearer.
pub open spec fn keep_nearest(results: Set<u128>, ef: usize, bits: u32, id: u64) -> Set<u128> {
    if results.len() < ef {
        results.insert(near_item(bits, id))
    } else if results.len() > 0 && below(bits, near_bits(largest(results))) {
        results.remove(largest(results)).insert(near_item(bits, id))
    } else {
        results
    }
}

/// The search after it has come across `id`.
pub open spec fn see(
    g: GraphView,
    d: spec_fn(u64) -> u32,
    ef: usize,
    st: SearchState,
    id: u64,
) -> SearchState {
    if st.visited.contains(id) {
        st
    } else {
        SearchState {
            visited: st.visited.insert(id),
            cands: st.cands.insert(cand_item(d(id), id)),
            results: if g.live(id) {
                keep_nearest(st.results, ef, d(id), id)
            } else {
                st.results
            },
        }
    }
}

/// The search after it has come across `ids`, in order.
pub open spec fn see_all(
    g: GraphView,
    d: spec_fn(u64) -> u32,
    ef: usize,
    st: SearchState,
    ids: Seq<u64>,
) -> SearchState
    decreases ids.len(),
{
    if ids.len() == 0 {
        st
    } else {
        see(g, d, ef, see_all(g, d, ef, st, ids.drop_last()), ids.last())
    }
}

/// Whether the nearest candidate is farther than the farthest of enough results.
pub open spec fn too_far(ef: usize, st: SearchState) -> bool {
    st.results.len() >= ef && st.results.len() > 0 && below(
        near_bits(largest(st.results)),
        cand_bits(largest(st.cands)),
    )
}

/// Whether the search is over.
pub open spec fn search_over(ef: usize, st: SearchState) -> bool {
    st.cands.len() == 0 || too_far(ef, st)
}

/// The search after it has looked at the neighbors of the nearest candidate.
pub open spec fn search_step(
    g: GraphView,
    d: spec_fn(u64) -> u32,
    ef: usize,
    st: SearchState,
) -> SearchState {
    let c = largest(st.cands);
    let rest = SearchState { visited: st.visited, cands: st.cands.remove(c), results: st.results };
    if g.nodes.contains_key(item_id(c)) {
        see_all(g, d, ef, rest, g.nodes[item_id(c)].neighbors)
    } else {
        rest
    }
}

/// The search after `k` steps.
pub open spec fn search_state(
    g: GraphView,
    d: spec_fn(u64) -> u32,
    ef: usize,
    entry: u64,
    k: nat,
) -> SearchState
    decreases k,
{
    if k == 0 {
        search_start(g, d, entry)
    } else {
        search_step(g, d, ef, search_state(g, d, ef, entry, (k - 1) as nat))
    }
}

/// Results in order, the nearest first.
pub open spec fn ranked(results: Set<u128>) -> Seq<(u64, u32)>
    decreases results.len(),
    when results.finite()
{
    if results.len() == 0 {
        Seq::empty()
    } else {
        proof {
            lemma_largest_exists(results);
        }
        let x = largest(results);
        ranked(results.remove(x)).push((item_id(x), near_bits(x)))
    }
}

/// The search is over after `k` steps and was not before.
pub open spec fn ends_after(
    g: GraphView,
    d: spec_fn(u64) -> u32,
    ef: usize,
    entry: u64,
    k: nat,
) -> bool {
    &&& search_over(ef, search_state(g, d, ef, entry, k))
    &&& forall|j: nat| j < k ==> !search_over(ef, #[trigger] search_state(g, d, ef, entry, j))
}

/// The search was still going after `k` steps, when the clock is looked at.
pub open spec fn clock_read_after(
    g: GraphView,
    d: spec_fn(u64) -> u32,
    ef: usize,
    entry: u64,
    k: nat,
) -> bool {
    &&& (k + 1) % 256 == 0
    &&& search_state(g, d, ef, entry, k).cands.len() > 0
    &&& forall|j: nat| j < k ==> !search_over(ef, #[trigger] search_state(g, d, ef, entry, j))
}

/// What a search over `k` steps returns.
pub open spec fn search_result(
    g: GraphView,
    d: spec_fn(u64) -> u32,
    ef: usize,
    entry: u64,
    k: nat,
) -> Seq<(u64, u32)> {
    ranked(search_state(g, d, ef, entry, k).results)
}

/// What the complete search returns.
pub open spec fn full_result(
    g: GraphView,
    d: spec_fn(u64) -> u32,
    ef: usize,
    entry: u64,
) -> Seq<(u64, u32)> {
    search_result(g, d, ef, entry, choose|k: nat| ends_after(g, d, ef, entry, k))
}

/// A search ends in one way only.
pub proof fn lemma_ends_once(
    g: GraphView,
    d: spec_fn(u64) -> u32,
    ef: usize,
    entry: u64,
    k: nat,
)
    requires
        ends_after(g, d, ef, entry, k),
    ensures
        full_result(g, d, ef, entry) == search_result(g, d, ef, entry, k),
{
    let c = choose|k: nat| ends_after(g, d, ef, entry, k);
    assert(ends_after(g, d, ef, entry, c));
    if c < k {
        assert(!search_over(ef, search_state(g, d, ef, entry, c)));
    }
    if k < c {
        assert(!search_over(ef, search_state(g, d, ef, entry, k)));
    }
}

/// Every set of numbers of fixed width is finite.
pub proof fn lemma_finite_u128(s: Set<u128>)
    ensures
        s.finite(),
{
    broadcast use vstd::set_lib::full_set_properties;
    vstd::set_lib::lemma_len_subset(s, Set::<u128>::full());
}

/// Candidates and results stand for nodes that were seen, at their distances; results are live.
pub open spec fn state_ok(g: GraphView, d: spec_fn(u64) -> u32, st: SearchState) -> bool {
    &&& forall|x: u128| #[trigger]
        st.cands.contains(x) ==> st.visited.contains(item_id(x)) && x == cand_item(
            d(item_id(x)),
            item_id(x),
        )
    &&& forall|x: u128| #[trigger]
        st.results.contains(x) ==> st.visited.contains(item_id(x)) && x == near_item(
            d(item_id(x)),
            item_id(x),
        ) && g.live(item_id(x))
}

pub proof fn lemma_start_ok(g: GraphView, d: spec_fn(u64) -> u32, entry: u64)
    ensures
        state_ok(g, d, search_start(g, d, entry)),
{
    lemma_items(d(entry), entry);
}

pub proof fn lemma_see_ok(
    g: GraphView,
    d: spec_fn(u64) -> u32,
    ef: usize,
    st: SearchState,
    id: u64,
)
    requires
        state_ok(g, d, st),
    ensures
        state_ok(g, d, see(g, d, ef, st, id)),
        !st.visited.contains(id) ==> !st.cands.contains(cand_item(d(id), id))
            && !st.results.contains(near_item(d(id), id)),
{
    lemma_items(d(id), id);
}

pub proof fn lemma_see_all_ok(
    g: GraphView,
    d: spec_fn(u64) -> u32,
    ef: usize,
    st: SearchState,
    ids: Seq<u64>,
)
    requires
        state_ok(g, d, st),
    ensures
        state_ok(g, d, see_all(g, d, ef, st, ids)),
    decreases ids.len(),
{
    if ids.len() > 0 {
        lemma_see_all_ok(g, d, ef, st, ids.drop_last());
        lemma_see_ok(g, d, ef, see_all(g, d, ef, st, ids.drop_last()), ids.last());
    }
}

pub proof fn lemma_step_ok(g: GraphView, d: spec_fn(u64) -> u32, ef: usize, st: SearchState)
    requires
        state_ok(g, d, st),
    ensures
        state_ok(g, d, search_step(g, d, ef, st)),
{
    let c = largest(st.cands);
    let rest = SearchState { visited: st.visited, cands: st.cands.remove(c), results: st.results };
    assert(state_ok(g, d, rest));
    if g.nodes.contains_key(item_id(c)) {
        lemma_see_all_ok(g, d, ef, rest, g.nodes[item_id(c)].neighbors);
    }
}

/// `x` is a result item.
pub open spec fn is_item(x: u128) -> bool {
    x == near_item(near_bits(x), item_id(x))
}

/// Ranked results are the results, each once, in ascending order.
pub proof fn lemma_ranked(results: Set<u128>)
    requires
        forall|x: u128| #[trigger] results.contains(x) ==> is_item(x),
    ensures
        results.finite(),
        ranked(results).len() == results.len(),
        forall|i: int|
            0 <= i < ranked(results).len() ==> results.contains(
                near_item((#[trigger] ranked(results)[i]).1, ranked(results)[i].0),
            ),
        forall|i: int, j: int|
            0 <= i < j < ranked(results).len() ==> near_item(
                (#[trigger] ranked(results)[i]).1,
                ranked(results)[i].0,
            ) < near_item((#[trigger] ranked(results)[j]).1, ranked(results)[j].0),
        forall|x: u128| #[trigger]
            results.contains(x) ==> ranked(results).contains((item_id(x), near_bits(x))),
    decreases results.len(),
{
    lemma_finite_u128(results);
    if results.len() == 0 {
        assert forall|x: u128| #[trigger] results.contains(x) implies ranked(results).contains(
            (item_id(x), near_bits(x)),
        ) by {
            assert(results.remove(x).len() < results.len());
        }
    } else {
        lemma_largest_exists(results);
        let m = largest(results);
        let rest = results.remove(m);
        lemma_ranked(rest);
        let r = ranked(results);
        let q = ranked(rest);
        assert(r == q.push((item_id(m), near_bits(m))));
        assert(is_item(m));
        assert forall|i: int, j: int| 0 <= i < j < r.len() implies near_item(
            (#[trigger] r[i]).1,
            r[i].0,
        ) < near_item((#[trigger] r[j]).1, r[j].0) by {
            let x = near_item(q[i].1, q[i].0);
            assert(rest.contains(x));
            if j == q.len() {
                assert(results.contains(x));
                assert(x != m);
            }
        }
        assert forall|i: int| 0 <= i < r.len() implies results.contains(
            near_item((#[trigger] r[i]).1, r[i].0),
        ) by {
            if i < q.len() {
                assert(rest.contains(near_item(q[i].1, q[i].0)));
            }
        }
        assert forall|x: u128| #[trigger] results.contains(x) implies r.contains(
            (item_id(x), near_bits(x)),
        ) by {
            if x == m {
                assert(r[q.len() as int] == (item_id(x), near_bits(x)));
            } else {
                assert(rest.contains(x));
                let i = choose|i: int| 0 <= i < q.len() && q[i] == (item_id(x), near_bits(x));
                assert(r[i] == (item_id(x), near_bits(x)));
            }
        }
    }
}

/// The state after any number of steps is sound.
pub proof fn lemma_state_ok(
    g: GraphView,
    d: spec_fn(u64) -> u32,
    ef: usize,
    entry: u64,
    k: nat,
)
    ensures
        state_ok(g, d, search_state(g, d, ef, entry, k)),
    decreases k,
{
    if k == 0 {
        lemma_start_ok(g, d, entry);
    } else {
        lemma_state_ok(g, d, ef, entry, (k - 1) as nat);
        lemma_step_ok(g, d, ef, search_state(g, d, ef, entry, (k - 1) as nat));
    }
}

/// What a search returns: live nodes, each once, at their distances, the nearest first.
pub proof fn lemma_search_result(
    g: GraphView,
    d: spec_fn(u64) -> u32,
    ef: usize,
    entry: u64,
    k: nat,
)
    ensures
        ({
            let r = search_result(g, d, ef, entry, k);
            let st = search_state(g, d, ef, entry, k);
            &&& r.len() == st.results.len()
            &&& forall|i: int|
                0 <= i < r.len() ==> g.live((#[trigger] r[i]).0) && r[i].1 == d(r[i].0)
                    && st.visited.contains(r[i].0)
            &&& forall|i: int, j: int|
                0 <= i < j < r.len() ==> (#[trigger] r[i]).0 != (#[trigger] r[j]).0
            &&& forall|i: int, j: int|
                0 <= i < j < r.len() ==> rank((#[trigger] r[i]).1) <= rank((#[trigger] r[j]).1)
        }),
{
    lemma_state_ok(g, d, ef, entry, k);
    let st = search_state(g, d, ef, entry, k);
    let r = search_result(g, d, ef, entry, k);
    assert forall|x: u128| #[trigger] st.results.contains(x) implies is_item(x) by {
        lemma_items(d(item_id(x)), item_id(x));
    }
    lemma_ranked(st.results);
    assert forall|i: int| 0 <= i < r.len() implies g.live((#[trigger] r[i]).0) && r[i].1 == d(
        r[i].0,
    ) && st.visited.contains(r[i].0) by {
        let x = near_item(r[i].1, r[i].0);
        assert(st.results.contains(x));
        lemma_items(r[i].1, r[i].0);
        lemma_items(d(r[i].0), r[i].0);
    }
    assert forall|i: int, j: int| 0 <= i < j < r.len() implies (#[trigger] r[i]).0 != (
    #[trigger] r[j]).0 && rank(r[i].1) <= rank(r[j].1) by {
        lemma_items(r[i].1, r[i].0);
        lemma_items(r[j].1, r[j].0);
    }
}

} // verus!
