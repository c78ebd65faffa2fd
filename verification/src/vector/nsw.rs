//! The vector graph: a single layer of nodes and neighbor lists, kept in memory.
//!
//! The graph holds no vectors; whoever inserts or searches hands in the distances. Deleted
//! nodes stay as stepping stones and are never results.

use std::collections::{HashMap, HashSet};
use vstd::prelude::*;
use crate::error::{Corruption, Result, StoreError};
use crate::vector::dist::{bits_of_rank, less, order_rank};
use crate::vector::heap::{largest, MaxHeap};
use crate::vector::search::{
    cand_bits, cand_item, clock_read_after, ends_after, full_result, item_id, lemma_ends_once,
    lemma_finite_u128, lemma_see_all_ok, lemma_see_ok, lemma_start_ok, lemma_step_ok, near_bits,
    near_item, ranked, search_over, search_result, search_start, search_state, search_step,
    see_all, state_ok, GraphView, NodeView, SearchState,
};

verus! {

broadcast use vstd::std_specs::hash::group_hash_axioms;

/// How many neighbors a new node is linked to.
pub const M: usize = 16;

/// How many results the search for neighbors of a new node keeps.
pub const EF_CONSTRUCTION: usize = 200;

/// How many results a search keeps where the schema says nothing else.
pub const DEFAULT_EF_SEARCH: usize = 200;

/// A node's number.
pub type NodeId = u64;

struct Node {
    id: u64,
    deleted: bool,
    neighbors: Vec<u64>,
}

impl Node {
    spec fn view(&self) -> NodeView {
        NodeView { deleted: self.deleted, neighbors: self.neighbors@ }
    }

    fn new(id: u64) -> (r: Node)
        ensures
            r.id == id,
            r.view() == (NodeView { deleted: false, neighbors: Seq::empty() }),
    {
        Node { id, deleted: false, neighbors: Vec::with_capacity(M) }
    }
}

/// A single-layer navigable graph.
pub struct NswGraph {
    nodes: Vec<Node>,
    index: HashMap<u64, usize>,
    entry_point: Option<u64>,
}

/// The distances that a closure gives.
pub open spec fn dist_fn<D: Fn(u64) -> u32>(dist: D) -> spec_fn(u64) -> u32 {
    |id: u64| choose|x: u32| dist.ensures((id,), x)
}

/// A closure that gives each node one distance.
pub open spec fn measures<D: Fn(u64) -> u32>(dist: D) -> bool {
    &&& forall|id: u64| #[trigger] dist.requires((id,))
    &&& forall|id: u64, x: u32, y: u32| #[trigger]
        dist.ensures((id,), x) && #[trigger] dist.ensures((id,), y) ==> x == y
}

/// A closure that gives the distances `d`.
pub open spec fn gives<D: Fn(u64) -> u32>(dist: D, d: spec_fn(u64) -> u32) -> bool {
    &&& forall|id: u64| #[trigger] dist.requires((id,))
    &&& forall|id: u64, x: u32| #[trigger] dist.ensures((id,), x) ==> x == d(id)
}

/// A closure that gives each node one distance gives its own distances.
pub proof fn lemma_gives<D: Fn(u64) -> u32>(dist: D)
    requires
        measures(dist),
    ensures
        gives(dist, dist_fn(dist)),
{
    assert forall|id: u64, x: u32| #[trigger] dist.ensures((id,), x) implies x == dist_fn(dist)(
        id,
    ) by {
        let y = dist_fn(dist)(id);
        assert(dist.ensures((id,), y));
    }
}

/// A neighbor list that has grown, cut to its limit.
pub open spec fn capped(neighbors: Seq<u64>) -> Seq<u64> {
    if neighbors.len() > 2 * M {
        neighbors.take(2 * M as int)
    } else {
        neighbors
    }
}

/// The nodes after `id` has been linked to `chosen`.
pub open spec fn linked(
    nodes: Map<u64, NodeView>,
    id: u64,
    chosen: Seq<u64>,
) -> Map<u64, NodeView> {
    Map::new(
        |k: u64| nodes.contains_key(k) || k == id,
        |k: u64|
            if k == id {
                NodeView { deleted: false, neighbors: chosen }
            } else if chosen.contains(k) {
                NodeView {
                    deleted: nodes[k].deleted,
                    neighbors: capped(nodes[k].neighbors.push(id)),
                }
            } else {
                nodes[k]
            },
    )
}

/// The nodes of search results, the nearest `n` of them.
pub open spec fn nearest(found: Seq<(u64, u32)>, n: nat) -> Seq<u64> {
    Seq::new(
        if found.len() < n {
            found.len()
        } else {
            n
        },
        |i: int| found[i].0,
    )
}

/// The graph after a new node has been put in.
pub open spec fn inserted(g: GraphView, id: u64, d: spec_fn(u64) -> u32) -> GraphView {
    match g.entry {
        None => GraphView {
            order: g.order.push(id),
            nodes: g.nodes.insert(id, NodeView { deleted: false, neighbors: Seq::empty() }),
            entry: Some(id),
        },
        Some(entry) => GraphView {
            order: g.order.push(id),
            nodes: linked(
                g.nodes,
                id,
                nearest(full_result(g, d, EF_CONSTRUCTION, entry), M as nat),
            ),
            entry: g.entry,
        },
    }
}

/// The nodes of `order` that are deleted, or those that are not.
pub open spec fn ids_where(order: Seq<u64>, nodes: Map<u64, NodeView>, deleted: bool) -> Seq<u64>
    decreases order.len(),
{
    if order.len() == 0 {
        Seq::empty()
    } else if nodes[order.last()].deleted == deleted {
        ids_where(order.drop_last(), nodes, deleted).push(order.last())
    } else {
        ids_where(order.drop_last(), nodes, deleted)
    }
}

/// An edge whose target is not a node.
pub open spec fn dangling(g: GraphView, node: u64, target: u64) -> bool {
    g.nodes.contains_key(node) && g.nodes[node].neighbors.contains(target)
        && !g.nodes.contains_key(target)
}

/// A graph that can be searched: no edge dangles, and a graph with nodes has a live entry.
pub open spec fn edges_valid(g: GraphView) -> bool {
    &&& forall|node: u64, target: u64| !dangling(g, node, target)
    &&& g.order.len() > 0 ==> g.entry is Some && g.live(g.entry->Some_0)
}

impl View for NswGraph {
    type V = GraphView;

    closed spec fn view(&self) -> GraphView {
        GraphView {
            order: Seq::new(self.nodes@.len(), |i: int| self.nodes@[i].id),
            nodes: Map::new(
                |id: u64| self.index@.contains_key(id),
                |id: u64| self.nodes@[self.index@[id] as int].view(),
            ),
            entry: self.entry_point,
        }
    }
}

/// Whether a graph can take so many bytes in memory: a fixed amount for each node, and eight
/// bytes for each neighbor that its list has room for, which is at least as many as it holds.
pub open spec fn takes_memory(g: GraphView, r: usize) -> bool {
    exists|rooms: Seq<usize>|
        rooms.len() == g.order.len() && (forall|i: int|
            0 <= i < rooms.len() ==> #[trigger] rooms[i] >= g.nodes[g.order[i]].neighbors.len())
            && r == clamped(g.order.len() * NODE_BYTES as nat + 8 * #[trigger] sum_of(rooms))
}

impl NswGraph {
    /// The index finds every node where it stands, and the entry is a node.
    pub closed spec fn wf(&self) -> bool {
        &&& self.entry_point is Some ==> self.index@.contains_key(self.entry_point->Some_0)
        &&& forall|i: int|
            0 <= i < self.nodes@.len() ==> self.index@.contains_key(#[trigger] self.nodes@[i].id)
                && self.index@[self.nodes@[i].id] == i
        &&& forall|id: u64| #[trigger]
            self.index@.contains_key(id) ==> self.index@[id] < self.nodes@.len()
                && self.nodes@[self.index@[id] as int].id == id
    }

    /// A well-formed graph names each node once in its order, and its entry is a node.
    pub proof fn lemma_ordered(&self)
        requires
            self.wf(),
        ensures
            self@.ordered(),
    {
        let g = self@;
        assert forall|id: u64| g.order.contains(id) <==> g.nodes.contains_key(id) by {
            if g.order.contains(id) {
                let i = choose|i: int| 0 <= i < g.order.len() && g.order[i] == id;
                assert(self.nodes@[i].id == id);
            }
            if g.nodes.contains_key(id) {
                let i = self.index@[id] as int;
                assert(g.order[i] == id);
            }
        }
        assert forall|i: int, j: int|
            0 <= i < j < g.order.len() implies g.order[i] != g.order[j] by {
            assert(self.index@[self.nodes@[i].id] == i);
            assert(self.index@[self.nodes@[j].id] == j);
        }
    }

    pub fn new() -> (r: NswGraph)
        ensures
            r.wf(),
            r@ == (GraphView { order: Seq::empty(), nodes: Map::empty(), entry: None }),
    {
        let r = NswGraph { nodes: Vec::new(), index: HashMap::new(), entry_point: None };
        proof {
            assert(r@.order =~= Seq::empty());
            assert(r@.nodes =~= Map::empty());
        }
        r
    }

    fn find(&self, id: u64) -> (r: Option<usize>)
        requires
            self.wf(),
        ensures
            r is Some <==> self@.nodes.contains_key(id),
            r matches Some(i) ==> i < self.nodes@.len() && self.nodes@[i as int].id == id
                && self.index@[id] == i && self@.nodes[id] == self.nodes@[i as int].view(),
    {
        match self.index.get(&id) {
            Some(i) => Some(*i),
            None => None,
        }
    }

    /// Whether a node is there, deleted or not.
    pub fn knows(&self, id: u64) -> (r: bool)
        requires
            self.wf(),
        ensures
            r == self@.nodes.contains_key(id),
    {
        self.find(id).is_some()
    }

    /// Whether a node is deleted, or not there.
    pub fn is_deleted(&self, id: u64) -> (r: bool)
        requires
            self.wf(),
        ensures
            r == !self@.live(id),
    {
        match self.find(id) {
            Some(i) => self.nodes[i].deleted,
            None => true,
        }
    }

    /// Whether a node is there and deleted.
    pub fn is_marked_deleted(&self, id: u64) -> (r: bool)
        requires
            self.wf(),
        ensures
            r == (self@.nodes.contains_key(id) && self@.nodes[id].deleted),
    {
        match self.find(id) {
            Some(i) => self.nodes[i].deleted,
            None => false,
        }
    }

    /// How many nodes there are, deleted ones included.
    pub fn node_count(&self) -> (r: usize)
        ensures
            r == self@.order.len(),
    {
        self.nodes.len()
    }

    /// Best-first search from `entry` that keeps the `ef` nearest live nodes. The clock is
    /// looked at every 256 steps; where `expired` says so the search ends with what it has.
    pub fn search_layer<D: Fn(u64) -> u32, E: Fn() -> bool>(
        &self,
        dist: &D,
        ef: usize,
        entry: u64,
        expired: &E,
    ) -> (r: Vec<(u64, u32)>)
        requires
            self.wf(),
            measures(*dist),
            expired.requires(()),
        ensures
            exists|k: nat|
                r@ == #[trigger] search_result(self@, dist_fn(*dist), ef, entry, k) && (ends_after(
                    self@,
                    dist_fn(*dist),
                    ef,
                    entry,
                    k,
                ) || (expired.ensures((), true) && clock_read_after(
                    self@,
                    dist_fn(*dist),
                    ef,
                    entry,
                    k,
                ))),
    {
        proof {
            lemma_gives(*dist);
        }
        self.search_layer_by(dist, ef, entry, expired, Ghost(dist_fn(*dist)))
    }

    /// The search, by distances that are known to be `d`.
    fn search_layer_by<D: Fn(u64) -> u32, E: Fn() -> bool>(
        &self,
        dist: &D,
        ef: usize,
        entry: u64,
        expired: &E,
        Ghost(d): Ghost<spec_fn(u64) -> u32>,
    ) -> (r: Vec<(u64, u32)>)
        requires
            self.wf(),
            gives(*dist, d),
            expired.requires(()),
        ensures
            exists|k: nat|
                r@ == #[trigger] search_result(self@, d, ef, entry, k) && (ends_after(
                    self@,
                    d,
                    ef,
                    entry,
                    k,
                ) || (expired.ensures((), true) && clock_read_after(
                    self@,
                    d,
                    ef,
                    entry,
                    k,
                ))),
    {
        let ghost g = self@;
        let ghost mut k: nat = 0;
        let ghost mut timed_out: bool = false;
        let mut visited: HashSet<u64> = HashSet::new();
        let mut cands: MaxHeap = MaxHeap::new();
        let mut results: MaxHeap = MaxHeap::new();
        let d0: u32 = (*dist)(entry);
        cands.push(pack_cand(d0, entry));
        visited.insert(entry);
        if !self.is_deleted(entry) {
            results.push(pack_near(d0, entry));
        }
        proof {
            lemma_start_ok(g, d, entry);
            let st = search_start(g, d, entry);
            assert(visited@ =~= st.visited);
            assert(cands@ =~= st.cands);
            assert(results@ =~= st.results);
        }
        let mut pop_count: u32 = 0;
        let mut more: bool = true;
        while more
            invariant
                self.wf(),
                g == self@,
                gives(*dist, d),
                expired.requires(()),
                cands.wf(),
                results.wf(),
                more ==> pop_count as int % 256 == k as int % 256,
                more ==> visited@ == search_state(g, d, ef, entry, k).visited,
                more ==> cands@ == search_state(g, d, ef, entry, k).cands,
                results@ == search_state(g, d, ef, entry, k).results,
                state_ok(g, d, search_state(g, d, ef, entry, k)),
                forall|j: nat|
                    j < k ==> !search_over(ef, #[trigger] search_state(g, d, ef, entry, j)),
                more ==> !timed_out,
                !more && !timed_out ==> search_over(ef, search_state(g, d, ef, entry, k)),
                timed_out ==> expired.ensures((), true) && clock_read_after(g, d, ef, entry, k),
            decreases
                    Set::<u64>::full().difference(visited@).len(),
                    cands@.len(),
                    if more {
                        1int
                    } else {
                        0int
                    },
        {
            let ghost st = search_state(g, d, ef, entry, k);
            proof {
                lemma_finite_u128(st.cands);
                lemma_finite_u128(st.results);
                lemma_step_ok(g, d, ef, st);
            }
            match cands.pop() {
                None => {
                    more = false;
                },
                Some(c) => {
                    let cid: u64 = unpack_id(c);
                    let cd: u32 = unpack_cand(c);
                    pop_count = pop_count.wrapping_add(1);
                    proof {
                        assert(pop_count as int % 256 == (k + 1) % 256);
                        assert(st.cands.len() > 0);
                    }
                    if pop_count % 256 == 0 && (*expired)() {
                        more = false;
                        proof {
                            timed_out = true;
                        }
                    } else if results.len() >= ef && farther(&results, cd) {
                        more = false;
                    } else {
                        let ghost rest = SearchState {
                            visited: st.visited,
                            cands: st.cands.remove(c),
                            results: st.results,
                        };
                        match self.find(cid) {
                            None => {},
                            Some(at) => {
                                self.look_at(at, dist, ef, &mut visited, &mut cands, &mut results, Ghost(rest), Ghost(d));
                            },
                        }
                        proof {
                            k = k + 1;
                            assert(search_state(g, d, ef, entry, k) == search_step(g, d, ef, st));
                        }
                    }
                },
            }
        }
        let out: Vec<(u64, u32)> = drain_ranked(results);
        proof {
            assert(out@ == search_result(g, d, ef, entry, k));
        }
        out
    }

    /// Looks at the neighbors of the node at `at`.
    fn look_at<D: Fn(u64) -> u32>(
        &self,
        at: usize,
        dist: &D,
        ef: usize,
        visited: &mut HashSet<u64>,
        cands: &mut MaxHeap,
        results: &mut MaxHeap,
        Ghost(st): Ghost<SearchState>,
        Ghost(d): Ghost<spec_fn(u64) -> u32>,
    )
        requires
            self.wf(),
            at < self.nodes@.len(),
            gives(*dist, d),
            old(cands).wf(),
            old(results).wf(),
            old(visited)@ == st.visited,
            old(cands)@ == st.cands,
            old(results)@ == st.results,
            state_ok(self@, d, st),
        ensures
            final(cands).wf(),
            final(results).wf(),
            ({
                let s = see_all(
                    self@,
                    d,
                    ef,
                    st,
                    self.nodes@[at as int].neighbors@,
                );
                final(visited)@ == s.visited && final(cands)@ == s.cands && final(results)@
                    == s.results
            }),
            final(visited)@ == old(visited)@ && final(cands)@ == old(cands)@ || Set::<
                u64,
            >::full().difference(final(visited)@).len() < Set::<u64>::full().difference(
                old(visited)@,
            ).len(),
    {
        let ghost g = self@;
        let neighbors: &Vec<u64> = &self.nodes[at].neighbors;
        let mut i: usize = 0;
        proof {
            assert(neighbors@.take(0) =~= Seq::<u64>::empty());
        }
        while i < neighbors.len()
            invariant
                self.wf(),
                g == self@,
                gives(*dist, d),
                i <= neighbors@.len(),
                cands.wf(),
                results.wf(),
                state_ok(g, d, st),
                visited@ == see_all(g, d, ef, st, neighbors@.take(i as int)).visited,
                cands@ == see_all(g, d, ef, st, neighbors@.take(i as int)).cands,
                results@ == see_all(g, d, ef, st, neighbors@.take(i as int)).results,
                visited@ == old(visited)@ && cands@ == old(cands)@ || Set::<u64>::full().difference(
                    visited@,
                ).len() < Set::<u64>::full().difference(old(visited)@).len(),
            decreases neighbors@.len() - i,
        {
            let nb: u64 = neighbors[i];
            let ghost s = see_all(g, d, ef, st, neighbors@.take(i as int));
            proof {
                assert(neighbors@.take(i + 1).drop_last() =~= neighbors@.take(i as int));
                lemma_see_all_ok(g, d, ef, st, neighbors@.take(i as int));
                lemma_see_ok(g, d, ef, s, nb);
            }
            if !visited.contains(&nb) {
                proof {
                    lemma_unseen_shrinks(visited@, nb);
                }
                visited.insert(nb);
                let dn: u32 = (*dist)(nb);
                cands.push(pack_cand(dn, nb));
                if !self.is_deleted(nb) {
                    if results.len() < ef {
                        results.push(pack_near(dn, nb));
                    } else {
                        match results.peek() {
                            None => {},
                            Some(far) => {
                                if less(dn, unpack_near(far)) {
                                    results.pop();
                                    results.push(pack_near(dn, nb));
                                }
                            },
                        }
                    }
                }
            }
            i = i + 1;
        }
        proof {
            assert(neighbors@.take(i as int) =~= neighbors@);
        }
    }
}

/// The graph after `id` has been marked deleted.
pub open spec fn with_deleted(g: GraphView, id: u64) -> GraphView {
    if g.nodes.contains_key(id) {
        GraphView {
            order: g.order,
            nodes: g.nodes.insert(
                id,
                NodeView { deleted: true, neighbors: g.nodes[id].neighbors },
            ),
            entry: g.entry,
        }
    } else {
        g
    }
}

/// The graph after a node has been put in, or put in the place of one, as it is.
pub open spec fn with_node(g: GraphView, id: u64, node: NodeView) -> GraphView {
    GraphView {
        order: if g.nodes.contains_key(id) {
            g.order
        } else {
            g.order.push(id)
        },
        nodes: g.nodes.insert(id, node),
        entry: g.entry,
    }
}

/// The graph after an entry has been asked for: only a node can be the entry.
pub open spec fn with_entry(g: GraphView, id: u64) -> GraphView {
    GraphView {
        order: g.order,
        nodes: g.nodes,
        entry: if g.nodes.contains_key(id) {
            Some(id)
        } else {
            g.entry
        },
    }
}

/// A copy of a neighbor list.
fn copied(v: &Vec<u64>) -> (r: Vec<u64>)
    ensures
        r@ == v@,
{
    vstd::slice::slice_to_vec(v.as_slice())
}

/// How many elements a list has room for, by `Vec::capacity`: at least as many as it holds.
#[verifier::external_body]
fn room_of(v: &Vec<u64>) -> (r: usize)
    ensures
        r >= v@.len(),
{
    v.capacity()
}

/// The sum of `rooms`.
pub open spec fn sum_of(rooms: Seq<usize>) -> nat
    decreases rooms.len(),
{
    if rooms.len() == 0 {
        0
    } else {
        sum_of(rooms.drop_last()) + rooms.last() as nat
    }
}

/// `x`, or the largest number that a `usize` holds.
pub open spec fn clamped(x: nat) -> usize {
    if x <= usize::MAX {
        x as usize
    } else {
        usize::MAX
    }
}

fn times(a: usize, b: usize) -> (r: usize)
    ensures
        r == clamped(a as nat * b as nat),
{
    match a.checked_mul(b) {
        Some(p) => p,
        None => usize::MAX,
    }
}

/// What a node takes in memory besides its neighbor list.
pub const NODE_BYTES: usize = 80;

impl NswGraph {
    /// Puts in a node and links it with the nearest of the nodes that a search finds.
    pub fn insert<D: Fn(u64) -> u32>(&mut self, id: u64, dist: &D) -> (r: Result<()>)
        requires
            old(self).wf(),
            measures(*dist),
        ensures
            final(self).wf(),
            old(self)@.nodes.contains_key(id) ==> r == Err::<(), _>(
                StoreError::DuplicateVector(id),
            ) && final(self)@ == old(self)@,
            !old(self)@.nodes.contains_key(id) ==> r is Ok && final(self)@ == inserted(
                old(self)@,
                id,
                dist_fn(*dist),
            ),
    {
        proof {
            lemma_gives(*dist);
        }
        self.insert_by(id, dist, Ghost(dist_fn(*dist)))
    }

    /// The insertion, by distances that are known to be `d`.
    pub(crate) fn insert_by<D: Fn(u64) -> u32>(
        &mut self,
        id: u64,
        dist: &D,
        Ghost(d): Ghost<spec_fn(u64) -> u32>,
    ) -> (r: Result<()>)
        requires
            old(self).wf(),
            gives(*dist, d),
        ensures
            final(self).wf(),
            old(self)@.nodes.contains_key(id) ==> r == Err::<(), _>(
                StoreError::DuplicateVector(id),
            ) && final(self)@ == old(self)@,
            !old(self)@.nodes.contains_key(id) ==> r is Ok && final(self)@ == inserted(
                old(self)@,
                id,
                d,
            ),
    {
        if self.find(id).is_some() {
            return Err(StoreError::DuplicateVector(id));
        }
        let ghost g = self@;
        let mut node: Node = Node::new(id);
        match self.entry_point {
            None => {
                self.push_node(node);
                proof {
                    assert(self@.nodes.contains_key(id));
                }
                self.entry_point = Some(id);
                proof {
                    assert(self@.order =~= inserted(g, id, d).order);
                    assert(self@.nodes =~= inserted(g, id, d).nodes);
                }
            },
            Some(entry) => {
                let never = || -> (b: bool)
                    ensures
                        !b,
                    { false };
                let found: Vec<(u64, u32)> = self.search_layer_by(
                    dist,
                    EF_CONSTRUCTION,
                    entry,
                    &never,
                    Ghost(d),
                );
                proof {
                    let k = choose|k: nat|
                        found@ == #[trigger] search_result(g, d, EF_CONSTRUCTION, entry, k)
                            && ends_after(g, d, EF_CONSTRUCTION, entry, k);
                    lemma_ends_once(g, d, EF_CONSTRUCTION, entry, k);
                    crate::vector::search::lemma_search_result(g, d, EF_CONSTRUCTION, entry, k);
                }
                let ghost chosen = nearest(found@, M as nat);
                let mut i: usize = 0;
                let mut neighbors: Vec<u64> = Vec::new();
                while i < found.len() && i < M
                    invariant
                        i <= found@.len(),
                        i <= M,
                        chosen == nearest(found@, M as nat),
                        neighbors@ == chosen.take(i as int),
                    decreases found@.len() - i,
                {
                    neighbors.push(found[i].0);
                    i = i + 1;
                    proof {
                        assert(neighbors@ =~= chosen.take(i as int));
                    }
                }
                proof {
                    assert(chosen.take(i as int) =~= chosen);
                }
                self.link_back(id, &neighbors);
                let ghost linked_back = self@;
                node.neighbors = neighbors;
                self.push_node(node);
                proof {
                    assert(self@.order =~= inserted(g, id, d).order);
                    assert(self@.nodes =~= inserted(g, id, d).nodes);
                }
            },
        }
        Ok(())
    }

    /// Puts `id` at the end of the lists of its neighbors.
    fn link_back(&mut self, id: u64, neighbors: &Vec<u64>)
        requires
            old(self).wf(),
            neighbors@.no_duplicates(),
            forall|i: int|
                0 <= i < neighbors@.len() ==> old(self)@.nodes.contains_key(
                    #[trigger] neighbors@[i],
                ),
        ensures
            final(self).wf(),
            final(self)@.order == old(self)@.order,
            final(self)@.entry == old(self)@.entry,
            forall|k: u64|
                final(self)@.nodes.contains_key(k) == #[trigger] old(self)@.nodes.contains_key(k),
            forall|k: u64| #[trigger]
                old(self)@.nodes.contains_key(k) ==> final(self)@.nodes[k] == (
                if neighbors@.contains(k) {
                    NodeView {
                        deleted: old(self)@.nodes[k].deleted,
                        neighbors: capped(old(self)@.nodes[k].neighbors.push(id)),
                    }
                } else {
                    old(self)@.nodes[k]
                }),
    {
        let ghost g = self@;
        let mut i: usize = 0;
        while i < neighbors.len()
            invariant
                self.wf(),
                i <= neighbors@.len(),
                neighbors@.no_duplicates(),
                self@.order == g.order,
                self@.entry == g.entry,
                forall|j: int|
                    0 <= j < neighbors@.len() ==> g.nodes.contains_key(#[trigger] neighbors@[j]),
                forall|k: u64| self@.nodes.contains_key(k) == #[trigger] g.nodes.contains_key(k),
                forall|k: u64| #[trigger]
                    g.nodes.contains_key(k) ==> self@.nodes[k] == (if neighbors@.take(
                        i as int,
                    ).contains(k) {
                        NodeView {
                            deleted: g.nodes[k].deleted,
                            neighbors: capped(g.nodes[k].neighbors.push(id)),
                        }
                    } else {
                        g.nodes[k]
                    }),
            decreases neighbors@.len() - i,
        {
            let nb: u64 = neighbors[i];
            let ghost s = self@;
            let ghost nodes0 = self.nodes@;
            proof {
                assert(g.nodes.contains_key(neighbors@[i as int]));
                assert(!neighbors@.take(i as int).contains(nb)) by {
                    if neighbors@.take(i as int).contains(nb) {
                        let j = choose|j: int|
                            0 <= j < i && neighbors@.take(i as int)[j] == nb;
                        assert(neighbors@[j] == neighbors@[i as int]);
                    }
                }
            }
            match self.find(nb) {
                None => {},
                Some(at) => {
                    self.nodes[at].neighbors.push(id);
                    if self.nodes[at].neighbors.len() > M * 2 {
                        self.nodes[at].neighbors.truncate(M * 2);
                    }
                    proof {
                        assert(self.nodes@[at as int].neighbors@ =~= capped(
                            nodes0[at as int].neighbors@.push(id),
                        ));
                        assert forall|j: int| 0 <= j < self.nodes@.len() implies (
                        #[trigger] self.nodes@[j]).id == nodes0[j].id by {}
                        assert(self@.order =~= g.order);
                    }
                },
            }
            proof {
                let pre = neighbors@.take(i as int);
                let post = neighbors@.take(i + 1);
                assert(post =~= pre.push(nb));
                assert forall|k: u64| post.contains(k) <==> pre.contains(k) || k == nb by {
                    if pre.contains(k) {
                        let j = choose|j: int| 0 <= j < pre.len() && pre[j] == k;
                        assert(post[j] == k);
                    }
                    assert(post[i as int] == nb);
                }
            }
            i = i + 1;
        }
        proof {
            assert(neighbors@.take(i as int) =~= neighbors@);
        }
    }

    /// Puts a node with a new number behind the others.
    fn push_node(&mut self, node: Node)
        requires
            old(self).wf(),
            !old(self)@.nodes.contains_key(node.id),
        ensures
            final(self).wf(),
            final(self)@ == (GraphView {
                order: old(self)@.order.push(node.id),
                nodes: old(self)@.nodes.insert(node.id, node.view()),
                entry: old(self)@.entry,
            }),
    {
        let ghost g = self@;
        let ghost nodes0 = self.nodes@;
        let ghost id = node.id;
        let ghost nv = node.view();
        self.index.insert(node.id, self.nodes.len());
        self.nodes.push(node);
        proof {
            assert forall|i: int| 0 <= i < self.nodes@.len() implies self.index@.contains_key(
                #[trigger] self.nodes@[i].id,
            ) && self.index@[self.nodes@[i].id] == i by {
                if i < nodes0.len() {
                    assert(self.nodes@[i] == nodes0[i]);
                    assert(g.nodes.contains_key(nodes0[i].id));
                }
            }
            assert(self@.order =~= g.order.push(id));
            assert(self@.nodes =~= g.nodes.insert(id, nv));
        }
    }

    /// The `top_k` nearest live nodes of a search that keeps `ef_search` results, or `top_k`
    /// if that is more.
    pub fn search_knn<D: Fn(u64) -> u32, E: Fn() -> bool>(
        &self,
        dist: &D,
        top_k: usize,
        ef_search: usize,
        expired: &E,
    ) -> (r: Result<Vec<(u64, u32)>>)
        requires
            self.wf(),
            measures(*dist),
            expired.requires(()),
        ensures
            r is Ok,
            self@.entry is None ==> r->Ok_0@ == Seq::<(u64, u32)>::empty(),
            self@.entry matches Some(entry) ==> exists|k: nat|
                r->Ok_0@ == first_of(
                    #[trigger] search_result(
                        self@,
                        dist_fn(*dist),
                        wider(ef_search, top_k),
                        entry,
                        k,
                    ),
                    top_k as nat,
                ) && (ends_after(self@, dist_fn(*dist), wider(ef_search, top_k), entry, k) || (
                expired.ensures((), true) && clock_read_after(
                    self@,
                    dist_fn(*dist),
                    wider(ef_search, top_k),
                    entry,
                    k,
                ))),
    {
        let entry: u64 = match self.entry_point {
            Some(e) => e,
            None => return Ok(Vec::new()),
        };
        let ef: usize = if ef_search >= top_k {
            ef_search
        } else {
            top_k
        };
        let mut found: Vec<(u64, u32)> = self.search_layer(dist, ef, entry, expired);
        let ghost all = found@;
        found.truncate(top_k);
        proof {
            assert(found@ =~= first_of(all, top_k as nat));
            let d = dist_fn(*dist);
            let k = choose|k: nat|
                all == #[trigger] search_result(self@, d, ef, entry, k) && (ends_after(
                    self@,
                    d,
                    ef,
                    entry,
                    k,
                ) || (expired.ensures((), true) && clock_read_after(self@, d, ef, entry, k)));
            assert(found@ == first_of(search_result(self@, d, ef, entry, k), top_k as nat));
            assert(ef == wider(ef_search, top_k));
        }
        Ok(found)
    }

    /// Marks a node deleted. Whether it was there and live.
    pub fn delete(&mut self, id: u64) -> (r: bool)
        requires
            old(self).wf(),
        ensures
            final(self).wf(),
            r == old(self)@.live(id),
            final(self)@ == with_deleted(old(self)@, id),
    {
        let ghost g = self@;
        let ghost nodes0 = self.nodes@;
        match self.find(id) {
            None => false,
            Some(at) => {
                let was: bool = !self.nodes[at].deleted;
                self.nodes[at].deleted = true;
                proof {
                    assert forall|j: int| 0 <= j < self.nodes@.len() implies (
                    #[trigger] self.nodes@[j]).id == nodes0[j].id by {}
                    assert(self@.order =~= g.order);
                    assert(self@.nodes =~= with_deleted(g, id).nodes);
                }
                was
            },
        }
    }

    /// Puts a node in as it is, without linking it.
    pub fn restore_node(&mut self, id: u64, neighbors: Vec<u64>, deleted: bool)
        requires
            old(self).wf(),
        ensures
            final(self).wf(),
            final(self)@ == with_node(
                old(self)@,
                id,
                (NodeView { deleted, neighbors: neighbors@ }),
            ),
    {
        let ghost g = self@;
        let ghost nodes0 = self.nodes@;
        let ghost nv = NodeView { deleted, neighbors: neighbors@ };
        match self.find(id) {
            None => {
                self.push_node(Node { id, deleted, neighbors });
            },
            Some(at) => {
                self.nodes.set(at, Node { id, deleted, neighbors });
                proof {
                    assert forall|j: int| 0 <= j < self.nodes@.len() implies (
                    #[trigger] self.nodes@[j]).id == nodes0[j].id by {}
                    assert(self@.order =~= g.order);
                    assert(self@.nodes =~= with_node(g, id, nv).nodes);
                }
            },
        }
    }

    /// Makes a node the entry; a number that is no node changes nothing.
    pub fn restore_entry_point(&mut self, id: u64)
        requires
            old(self).wf(),
        ensures
            final(self).wf(),
            final(self)@ == with_entry(old(self)@, id),
    {
        let ghost g = self@;
        if self.find(id).is_some() {
            self.entry_point = Some(id);
        }
        proof {
            assert(self@.order =~= g.order);
            assert(self@.nodes =~= g.nodes);
        }
    }

    /// The node where searches start.
    pub fn snapshot_entry_point(&self) -> (r: Option<u64>)
        ensures
            r == self@.entry,
    {
        self.entry_point
    }

    fn ids_with(&self, deleted: bool) -> (r: Vec<u64>)
        requires
            self.wf(),
        ensures
            r@ == ids_where(self@.order, self@.nodes, deleted),
    {
        let ghost g = self@;
        let mut out: Vec<u64> = Vec::new();
        let mut i: usize = 0;
        while i < self.nodes.len()
            invariant
                self.wf(),
                g == self@,
                i <= self.nodes@.len(),
                out@ == ids_where(g.order.take(i as int), g.nodes, deleted),
            decreases self.nodes@.len() - i,
        {
            proof {
                let next = g.order.take(i + 1);
                assert(next.drop_last() =~= g.order.take(i as int));
                assert(next.last() == self.nodes@[i as int].id);
                assert(self.index@.contains_key(self.nodes@[i as int].id));
            }
            if self.nodes[i].deleted == deleted {
                out.push(self.nodes[i].id);
            }
            i = i + 1;
        }
        proof {
            assert(g.order.take(i as int) =~= g.order);
        }
        out
    }

    /// The live nodes.
    pub fn all_ids(&self) -> (r: Vec<u64>)
        requires
            self.wf(),
        ensures
            r@ == ids_where(self@.order, self@.nodes, false),
    {
        self.ids_with(false)
    }

    /// The deleted nodes.
    pub fn all_deleted_ids(&self) -> (r: Vec<u64>)
        requires
            self.wf(),
        ensures
            r@ == ids_where(self@.order, self@.nodes, true),
    {
        self.ids_with(true)
    }

    /// How many nodes are live.
    pub fn len(&self) -> (r: usize)
        requires
            self.wf(),
        ensures
            r == ids_where(self@.order, self@.nodes, false).len(),
    {
        self.ids_with(false).len()
    }

    /// Whether no node is live.
    pub fn is_empty(&self) -> (r: bool)
        requires
            self.wf(),
        ensures
            r == (ids_where(self@.order, self@.nodes, false).len() == 0),
    {
        self.len() == 0
    }

    /// The nodes with their neighbors, in order.
    pub fn snapshot_nodes(&self) -> (r: Vec<(u64, Vec<u64>)>)
        requires
            self.wf(),
        ensures
            r@.len() == self@.order.len(),
            forall|i: int|
                0 <= i < r@.len() ==> (#[trigger] r@[i]).0 == self@.order[i] && r@[i].1@
                    == self@.nodes[self@.order[i]].neighbors,
    {
        let ghost g = self@;
        let mut out: Vec<(u64, Vec<u64>)> = Vec::new();
        let mut i: usize = 0;
        while i < self.nodes.len()
            invariant
                self.wf(),
                g == self@,
                i <= self.nodes@.len(),
                out@.len() == i,
                forall|j: int|
                    0 <= j < i ==> (#[trigger] out@[j]).0 == g.order[j] && out@[j].1@
                        == g.nodes[g.order[j]].neighbors,
            decreases self.nodes@.len() - i,
        {
            proof {
                assert(self.index@.contains_key(self.nodes@[i as int].id));
            }
            out.push((self.nodes[i].id, copied(&self.nodes[i].neighbors)));
            i = i + 1;
        }
        out
    }

    /// The nodes with their neighbors and whether they are deleted, in order.
    pub fn snapshot_nodes_with_deleted(&self) -> (r: Vec<(u64, Vec<u64>, bool)>)
        requires
            self.wf(),
        ensures
            r@.len() == self@.order.len(),
            forall|i: int|
                0 <= i < r@.len() ==> (#[trigger] r@[i]).0 == self@.order[i] && (NodeView {
                    deleted: r@[i].2,
                    neighbors: r@[i].1@,
                }) == self@.nodes[self@.order[i]],
    {
        let ghost g = self@;
        let mut out: Vec<(u64, Vec<u64>, bool)> = Vec::new();
        let mut i: usize = 0;
        while i < self.nodes.len()
            invariant
                self.wf(),
                g == self@,
                i <= self.nodes@.len(),
                out@.len() == i,
                forall|j: int|
                    0 <= j < i ==> (#[trigger] out@[j]).0 == g.order[j] && (NodeView {
                        deleted: out@[j].2,
                        neighbors: out@[j].1@,
                    }) == g.nodes[g.order[j]],
            decreases self.nodes@.len() - i,
        {
            proof {
                assert(self.index@.contains_key(self.nodes@[i as int].id));
            }
            out.push(
                (self.nodes[i].id, copied(&self.nodes[i].neighbors), self.nodes[i].deleted),
            );
            i = i + 1;
        }
        out
    }

    /// What the graph takes in memory: a fixed amount for each node, and eight bytes for each
    /// neighbor that a list has room for.
    pub fn memory_usage(&self) -> (r: usize)
        requires
            self.wf(),
        ensures
            takes_memory(self@, r),
    {
        let ghost g = self@;
        let ghost mut rooms: Seq<usize> = Seq::empty();
        let mut bytes: usize = times(self.nodes.len(), NODE_BYTES);
        let mut i: usize = 0;
        while i < self.nodes.len()
            invariant
                self.wf(),
                g == self@,
                i <= self.nodes@.len(),
                rooms.len() == i,
                forall|j: int|
                    0 <= j < i ==> #[trigger] rooms[j] >= g.nodes[g.order[j]].neighbors.len(),
                bytes == clamped(g.order.len() * NODE_BYTES as nat + 8 * sum_of(rooms)),
            decreases self.nodes@.len() - i,
        {
            proof {
                assert(self.index@.contains_key(self.nodes@[i as int].id));
            }
            let room: usize = room_of(&self.nodes[i].neighbors);
            bytes = bytes.saturating_add(times(room, 8));
            proof {
                let more = rooms.push(room);
                assert(more.drop_last() =~= rooms);
                rooms = more;
            }
            i = i + 1;
        }
        bytes
    }

    /// Whether the graph can be searched: every edge leads to a node, and a graph with nodes
    /// has an entry that is live.
    pub fn validate_edges(&self) -> (r: Result<()>)
        requires
            self.wf(),
        ensures
            r is Ok <==> edges_valid(self@),
            r matches Err(e) ==> if exists|n: u64, t: u64| dangling(self@, n, t) {
                exists|n: u64, t: u64|
                    dangling(self@, n, t) && e == StoreError::Corrupt(
                        Corruption::DanglingEdge { node: n, target: t },
                    )
            } else {
                match self@.entry {
                    Some(entry) => e == StoreError::Corrupt(Corruption::EntryDeleted { entry }),
                    None => e == StoreError::Corrupt(Corruption::NoEntryPoint),
                }
            },
    {
        let ghost g = self@;
        let mut i: usize = 0;
        while i < self.nodes.len()
            invariant
                self.wf(),
                g == self@,
                i <= self.nodes@.len(),
                forall|a: int, t: u64|
                    0 <= a < i ==> !#[trigger] dangling(g, self.nodes@[a].id, t),
            decreases self.nodes@.len() - i,
        {
            let ghost id = self.nodes@[i as int].id;
            proof {
                assert(self.index@.contains_key(self.nodes@[i as int].id));
            }
            let mut j: usize = 0;
            while j < self.nodes[i].neighbors.len()
                invariant
                    self.wf(),
                    g == self@,
                    i < self.nodes@.len(),
                    id == self.nodes@[i as int].id,
                    g.nodes.contains_key(id),
                    g.nodes[id] == self.nodes@[i as int].view(),
                    j <= self.nodes@[i as int].neighbors@.len(),
                    forall|b: int|
                        0 <= b < j ==> g.nodes.contains_key(
                            #[trigger] self.nodes@[i as int].neighbors@[b],
                        ),
                decreases self.nodes@[i as int].neighbors@.len() - j,
            {
                let nb: u64 = self.nodes[i].neighbors[j];
                if self.find(nb).is_none() {
                    proof {
                        assert(g.nodes[id].neighbors[j as int] == nb);
                        assert(dangling(g, id, nb));
                    }
                    return Err(
                        StoreError::Corrupt(
                            Corruption::DanglingEdge { node: self.nodes[i].id, target: nb },
                        ),
                    );
                }
                j = j + 1;
            }
            i = i + 1;
        }
        proof {
            assert forall|n: u64, t: u64| !dangling(g, n, t) by {
                if g.nodes.contains_key(n) {
                    let a = self.index@[n] as int;
                    assert(self.nodes@[a].id == n);
                }
            }
        }
        if self.nodes.len() > 0 {
            match self.entry_point {
                Some(entry) => {
                    if self.is_deleted(entry) {
                        return Err(StoreError::Corrupt(Corruption::EntryDeleted { entry }));
                    }
                },
                None => {
                    return Err(StoreError::Corrupt(Corruption::NoEntryPoint));
                },
            }
        }
        Ok(())
    }
}

/// The larger of two widths.
pub open spec fn wider(a: usize, b: usize) -> usize {
    if a >= b {
        a
    } else {
        b
    }
}

/// The first `n` of `s`, or all of them.
pub open spec fn first_of(s: Seq<(u64, u32)>, n: nat) -> Seq<(u64, u32)> {
    if s.len() > n {
        s.take(n as int)
    } else {
        s
    }
}

/// One more node seen leaves one less to see.
pub proof fn lemma_unseen_shrinks(visited: Set<u64>, id: u64)
    requires
        !visited.contains(id),
    ensures
        Set::<u64>::full().difference(visited.insert(id)).len() < Set::<u64>::full().difference(
            visited,
        ).len(),
{
    broadcast use vstd::set_lib::full_set_properties;
    let a = Set::<u64>::full().difference(visited);
    vstd::set_lib::lemma_len_subset(a, Set::<u64>::full());
    assert(Set::<u64>::full().difference(visited.insert(id)) =~= a.remove(id));
}

fn pack_near(bits: u32, id: u64) -> (r: u128)
    ensures
        r == near_item(bits, id),
{
    order_rank(bits) as u128 * 0x1_0000_0000_0000_0000 + id as u128
}

fn pack_cand(bits: u32, id: u64) -> (r: u128)
    ensures
        r == cand_item(bits, id),
{
    (0xFFFF_FFFF - order_rank(bits)) as u128 * 0x1_0000_0000_0000_0000 + id as u128
}

fn unpack_id(x: u128) -> (r: u64)
    ensures
        r == item_id(x),
{
    (x % 0x1_0000_0000_0000_0000) as u64
}

fn unpack_near(x: u128) -> (r: u32)
    ensures
        r == near_bits(x),
{
    bits_of_rank((x / 0x1_0000_0000_0000_0000) as u32)
}

fn unpack_cand(x: u128) -> (r: u32)
    requires
        x / 0x1_0000_0000_0000_0000 <= 0xFFFF_FFFF,
    ensures
        r == cand_bits(x),
{
    bits_of_rank(0xFFFF_FFFF - (x / 0x1_0000_0000_0000_0000) as u32)
}

/// Whether a candidate is farther than the farthest result.
fn farther(results: &MaxHeap, cd: u32) -> (r: bool)
    requires
        results.wf(),
    ensures
        r == (results@.len() > 0 && crate::vector::dist::below(near_bits(largest(results@)), cd)),
{
    match results.peek() {
        None => false,
        Some(far) => less(unpack_near(far), cd),
    }
}

/// Empties a heap of results into a list, the nearest first.
fn drain_ranked(results: MaxHeap) -> (r: Vec<(u64, u32)>)
    requires
        results.wf(),
    ensures
        r@ == ranked(results@),
{
    let mut heap: MaxHeap = results;
    let mut down: Vec<(u64, u32)> = Vec::new();
    let mut more: bool = true;
    proof {
        lemma_finite_u128(heap@);
        assert(ranked(heap@) + down@.reverse() =~= ranked(results@));
    }
    while more
        invariant
            heap.wf(),
            ranked(heap@) + down@.reverse() == ranked(results@),
            !more ==> heap@.len() == 0,
        decreases heap@.len(), if more { 1int } else { 0int },
    {
        proof {
            lemma_finite_u128(heap@);
        }
        let ghost before = heap@;
        let ghost d0 = down@;
        match heap.pop() {
            None => {
                more = false;
            },
            Some(x) => {
                let item: (u64, u32) = (unpack_id(x), unpack_near(x));
                down.push(item);
                proof {
                    assert(ranked(before) == ranked(heap@).push(item));
                    assert(down@.reverse() =~= seq![item] + d0.reverse());
                    assert(ranked(heap@) + down@.reverse() =~= ranked(before) + d0.reverse());
                }
            },
        }
    }
    proof {
        lemma_finite_u128(heap@);
        assert(ranked(heap@) =~= Seq::<(u64, u32)>::empty());
        assert(down@.reverse() =~= ranked(results@));
    }
    let mut up: Vec<(u64, u32)> = Vec::new();
    let mut i: usize = down.len();
    while i > 0
        invariant
            i <= down@.len(),
            up@ == down@.skip(i as int).reverse(),
        decreases i,
    {
        i = i - 1;
        up.push(down[i]);
        proof {
            assert(up@ =~= down@.skip(i as int).reverse());
        }
    }
    proof {
        assert(down@.skip(0) =~= down@);
    }
    up
}

/// A graph takes no less memory than its nodes and their neighbors do: 80 bytes for each node and
/// eight for each neighbor, as far as a count goes.
pub proof fn memory_holds_nodes_and_neighbors(g: GraphView, r: usize)
    requires
        takes_memory(g, r),
    ensures
        r == usize::MAX || r >= 80 * g.order.len() + 8 * neighbor_count(g, g.order.len()),
{
    let rooms = choose|rooms: Seq<usize>|
        rooms.len() == g.order.len() && (forall|i: int|
            0 <= i < rooms.len() ==> #[trigger] rooms[i] >= g.nodes[g.order[i]].neighbors.len())
            && r == clamped(g.order.len() * NODE_BYTES as nat + 8 * #[trigger] sum_of(rooms));
    lemma_rooms(g, rooms, rooms.len());
    assert(rooms.take(rooms.len() as int) =~= rooms);
    let n = g.order.len();
    assert(n * NODE_BYTES as nat == 80 * n) by (nonlinear_arith);
}

/// How many neighbors the first `k` nodes have.
pub open spec fn neighbor_count(g: GraphView, k: nat) -> nat
    decreases k,
{
    if k == 0 {
        0
    } else {
        g.nodes[g.order[k - 1]].neighbors.len() + neighbor_count(g, (k - 1) as nat)
    }
}

proof fn lemma_rooms(g: GraphView, rooms: Seq<usize>, k: nat)
    requires
        k <= rooms.len(),
        rooms.len() == g.order.len(),
        forall|i: int|
            0 <= i < rooms.len() ==> #[trigger] rooms[i] >= g.nodes[g.order[i]].neighbors.len(),
    ensures
        sum_of(rooms.take(k as int)) >= neighbor_count(g, k),
    decreases k,
{
    if k > 0 {
        lemma_rooms(g, rooms, (k - 1) as nat);
        assert(rooms.take(k as int).drop_last() =~= rooms.take(k - 1));
        assert(rooms[k - 1] >= g.nodes[g.order[k - 1]].neighbors.len());
    }
}

} // verus!
