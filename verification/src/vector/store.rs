//! Vector index: vectors in segments, a locator for each, and the graph that finds them.
//!
//! Writing a vector takes two steps. First it is placed: the index says where its bytes go and
//! what stands under its id. Once that is written the vector is linked into the graph, by
//! distances that are measured on the stored bytes.

use std::collections::HashSet;
use vstd::prelude::*;
use vstd::string::StringExecFns;
use crate::error::{Corruption, Result, StoreError};
use crate::mem::cache::{dropped, held_fn, tells, CacheView};
use crate::mem::segment::{
    max_number, names_view, number_after, AppendPlan, PoolView, ValueLocator,
};
use crate::text::{dec, push_dec};
use crate::vector::locators::{table_of, LocatorTable, TableView};
use crate::vector::nsw::{
    dist_fn, first_of, ids_where, inserted, measures, wider, with_deleted, NswGraph,
};
use crate::vector::pool::{
    may_go, pool_sound, vec_appended, vec_plan_tells, vec_rotated, VecSegmentPool,
    DEFAULT_VEC_SEGMENT_SIZE,
};
use crate::vector::schema::VectorSchema;
use crate::vector::search::{clock_read_after, ends_after, search_result, GraphView};
use crate::vector::search_laws::{
    deletion_keeps_the_graph_sound, insertion_keeps_the_graph_sound, no_dangling,
};
use crate::vector::snapshot::{
    fits_snapshot, form_error, load_error, resumable, resume, serialize, snapshot_fits,
    snapshot_of, stored_graph,
};
use crate::vector::store_laws::{lemma_kept, rebuilt_graph_is_sound};

verus! {

broadcast use vstd::std_specs::hash::group_hash_axioms;

/// A vector index.
pub struct IndexView {
    pub schema: VectorSchema,
    pub pool: PoolView,
    pub table: TableView,
    pub graph: GraphView,
}

/// A graph without nodes.
pub open spec fn empty_graph() -> GraphView {
    GraphView { order: Seq::empty(), nodes: Map::empty(), entry: None }
}

/// The distances between vectors that a closure gives.
pub open spec fn pair_fn<P: Fn(u64, u64) -> u32>(pair: P) -> spec_fn(u64, u64) -> u32 {
    |a: u64, b: u64| choose|x: u32| pair.ensures((a, b), x)
}

/// A closure that gives each two vectors one distance.
pub open spec fn measures_pairs<P: Fn(u64, u64) -> u32>(pair: P) -> bool {
    &&& forall|a: u64, b: u64| #[trigger] pair.requires((a, b))
    &&& forall|a: u64, b: u64, x: u32, y: u32| #[trigger]
        pair.ensures((a, b), x) && #[trigger] pair.ensures((a, b), y) ==> x == y
}

/// The distances from one vector.
pub open spec fn dist_from(pd: spec_fn(u64, u64) -> u32, id: u64) -> spec_fn(u64) -> u32 {
    |n: u64| pd(id, n)
}

/// The graph of the first `k` of `ids`, put in one after the other.
pub open spec fn rebuilt(ids: Seq<u64>, pd: spec_fn(u64, u64) -> u32, k: nat) -> GraphView
    decreases k,
{
    if k == 0 {
        empty_graph()
    } else {
        inserted(rebuilt(ids, pd, (k - 1) as nat), ids[k - 1], dist_from(pd, ids[k - 1]))
    }
}

/// The graph after some nodes have been deleted.
pub open spec fn marked(g: GraphView, ids: Seq<u64>) -> GraphView
    decreases ids.len(),
{
    if ids.len() == 0 {
        g
    } else {
        with_deleted(marked(g, ids.drop_last()), ids.last())
    }
}

/// The graph that a stale index gets: all its vectors, with the deletions that its graph knew.
pub open spec fn refreshed(v: IndexView, pd: spec_fn(u64, u64) -> u32) -> GraphView {
    marked(
        rebuilt(v.table.order, pd, v.table.order.len()),
        ids_where(v.graph.order, v.graph.nodes, true),
    )
}

/// The index after a vector has been placed.
pub open spec fn placed(v: IndexView, held: spec_fn(u32) -> bool, id: u64) -> IndexView {
    let (pool, loc) = vec_appended(v.pool, held, 4 * v.schema.dim as nat);
    IndexView { schema: v.schema, pool, table: v.table.with(id, loc), graph: v.graph }
}

/// The index after the first `k` of `ids` have been placed.
pub open spec fn placed_all(
    v: IndexView,
    held: spec_fn(u32) -> bool,
    ids: Seq<u64>,
    k: nat,
) -> IndexView
    decreases k,
{
    if k == 0 {
        v
    } else {
        placed(placed_all(v, held, ids, (k - 1) as nat), held, ids[k - 1])
    }
}

/// The first of some vectors that has another dimension; their number where there is none.
pub open spec fn first_misfit(items: Seq<(u64, Vec<u32>)>, dim: nat, i: nat) -> nat
    decreases items.len() - i,
{
    if i >= items.len() || items[i as int].1@.len() != dim {
        i
    } else {
        first_misfit(items, dim, i + 1)
    }
}

/// Whether an id comes among the first `i` of some vectors.
pub open spec fn comes_before(items: Seq<(u64, Vec<u32>)>, i: nat, id: u64) -> bool {
    exists|j: int| 0 <= j < i && (#[trigger] items[j]).0 == id
}

/// The first of some vectors whose id has come before; their number where there is none.
pub open spec fn first_repeated(items: Seq<(u64, Vec<u32>)>, i: nat) -> nat
    decreases items.len() - i,
{
    if i >= items.len() || comes_before(items, i, items[i as int].0) {
        i
    } else {
        first_repeated(items, i + 1)
    }
}

/// Why some vectors cannot be put in as one: a wrong dimension, an id in use, an id that comes
/// twice.
pub open spec fn batch_error(v: IndexView, items: Seq<(u64, Vec<u32>)>) -> Option<StoreError> {
    let bad = first_misfit(items, v.schema.dim as nat, 0);
    let taken = first_taken(items, v.table, 0);
    let again = first_repeated(items, 0);
    if bad < items.len() {
        Some(
            StoreError::DimensionMismatch {
                expected: v.schema.dim,
                got: items[bad as int].1@.len() as usize,
            },
        )
    } else if taken < items.len() {
        Some(StoreError::DuplicateVector(items[taken as int].0))
    } else if again < items.len() {
        Some(StoreError::DuplicateVector(items[again as int].0))
    } else {
        None
    }
}

/// Why a vector cannot be put in: a wrong dimension, or an id in use.
pub open spec fn insert_error(v: IndexView, id: u64, len: nat) -> Option<StoreError> {
    if len != v.schema.dim {
        Some(StoreError::DimensionMismatch { expected: v.schema.dim, got: len as usize })
    } else if v.table.locs.contains_key(id) {
        Some(StoreError::DuplicateVector(id))
    } else {
        None
    }
}

/// Whether a vector fits a segment.
pub open spec fn vectors_fit(v: IndexView) -> bool {
    4 * v.schema.dim <= v.pool.seg_size
}

/// Whether a vector stands in a segment that there is, in its full length.
pub open spec fn stands(v: IndexView, loc: ValueLocator) -> bool {
    loc.len == 4 * v.schema.dim && loc.seg_id <= v.pool.active
}

/// The first of the kept vectors that does not stand anywhere, from the `i`th of `ids` on.
pub open spec fn first_lost(v: IndexView, ids: Seq<u64>, i: nat) -> nat
    decreases ids.len() - i,
{
    if i >= ids.len() || !stands(v, v.table.locs[ids[i as int]]) {
        i
    } else {
        first_lost(v, ids, i + 1)
    }
}

/// The first of some vectors whose id is in use; their number where there is none.
pub open spec fn first_taken(items: Seq<(u64, Vec<u32>)>, table: TableView, i: nat) -> nat
    decreases items.len() - i,
{
    if i >= items.len() || table.locs.contains_key(items[i as int].0) {
        i
    } else {
        first_taken(items, table, i + 1)
    }
}

pub open spec fn item_ids(items: Seq<(u64, Vec<u32>)>) -> Seq<u64> {
    Seq::new(items.len(), |i: int| items[i].0)
}

/// The ids that a compaction keeps: those of the first `k` that are not deleted.
pub open spec fn kept(v: IndexView, k: nat) -> Seq<u64>
    decreases k,
{
    if k == 0 {
        Seq::empty()
    } else {
        let id = v.table.order[k - 1];
        if v.graph.nodes.contains_key(id) && v.graph.nodes[id].deleted {
            kept(v, (k - 1) as nat)
        } else {
            kept(v, (k - 1) as nat).push(id)
        }
    }
}

/// All ids that a compaction keeps.
pub open spec fn kept_ids(v: IndexView) -> Seq<u64> {
    kept(v, v.table.order.len())
}

/// The pool after `k` vectors have been written to a fresh segment and those behind it.
pub open spec fn rewritten(p: PoolView, held: spec_fn(u32) -> bool, need: nat, k: nat) -> PoolView
    decreases k,
{
    if k == 0 {
        vec_rotated(p, held)
    } else {
        vec_appended(rewritten(p, held, need, (k - 1) as nat), held, need).0
    }
}

/// Where the `k`-th of the rewritten vectors stands.
pub open spec fn rewritten_at(
    p: PoolView,
    held: spec_fn(u32) -> bool,
    need: nat,
    k: nat,
) -> ValueLocator {
    vec_appended(rewritten(p, held, need, k), held, need).1
}

/// The table of the rewritten vectors.
pub open spec fn rewritten_table(
    p: PoolView,
    held: spec_fn(u32) -> bool,
    need: nat,
    ids: Seq<u64>,
) -> TableView {
    TableView {
        order: ids,
        locs: Map::new(
            |id: u64| ids.contains(id),
            |id: u64| rewritten_at(p, held, need, ids.index_of(id) as nat),
        ),
    }
}

/// The index after a compaction.
pub open spec fn compacted(
    v: IndexView,
    held: spec_fn(u32) -> bool,
    pd: spec_fn(u64, u64) -> u32,
) -> IndexView {
    let ids = kept_ids(v);
    let need = 4 * v.schema.dim as nat;
    IndexView {
        schema: v.schema,
        pool: rewritten(v.pool, held, need, ids.len()),
        table: rewritten_table(v.pool, held, need, ids),
        graph: rebuilt(ids, pd, ids.len()),
    }
}

/// A vector that moves: its id, where it stands, and where it goes.
pub struct Move {
    pub id: u64,
    pub from: ValueLocator,
    pub append: AppendPlan,
}

/// What a compaction writes: `sealed` is sealed first and `unmapped` no longer mapped; then the
/// vectors move. Once the locators have been replaced, the segments in `old_segs` can go.
pub struct CompactPlan {
    pub old_segs: Vec<u32>,
    pub sealed: u32,
    pub unmapped: Vec<u32>,
    pub moves: Vec<Move>,
}

pub open spec fn move_ids(moves: Seq<Move>) -> Seq<u64> {
    Seq::new(moves.len(), |i: int| moves[i].id)
}

/// A vector index.
pub struct VectorIndex {
    schema: VectorSchema,
    pool: VecSegmentPool,
    locators: LocatorTable,
    graph: NswGraph,
}

impl View for VectorIndex {
    type V = IndexView;

    closed spec fn view(&self) -> IndexView {
        IndexView {
            schema: self.schema,
            pool: self.pool@,
            table: self.locators@,
            graph: self.graph@,
        }
    }
}

/// The pool that an index starts with; `None` where there is no number for a segment.
pub open spec fn opened_pool(names: Seq<Seq<char>>, seg_size: u64) -> Option<PoolView> {
    let size = if seg_size == 0 {
        DEFAULT_VEC_SEGMENT_SIZE
    } else {
        seg_size
    };
    match number_after(max_number(names, "vec_payload_"@, ".mmap"@)) {
        Some(id) => Some(
            PoolView {
                seg_size: size,
                active: id,
                cursor: 0,
                cache: CacheView { mapped: Set::empty(), lru: Seq::empty() },
            },
        ),
        None => None,
    }
}

/// Whether a snapshot can be taken up again, and as which graph; an index without a snapshot
/// starts empty.
pub open spec fn loaded_graph(snapshot: Option<&[u8]>) -> Option<GraphView> {
    match snapshot {
        None => Some(empty_graph()),
        Some(b) => if form_error(b@) is None && resumable(stored_graph(b@)) {
            Some(stored_graph(b@))
        } else {
            None
        },
    }
}

/// Builds a graph of `ids`, put in one after the other.
fn build_graph<P: Fn(u64, u64) -> u32>(ids: &Vec<u64>, pair: &P) -> (r: Result<NswGraph>)
    requires
        measures_pairs(*pair),
        ids@.no_duplicates(),
    ensures
        r is Ok,
        r->Ok_0.wf(),
        r->Ok_0@ == rebuilt(ids@, pair_fn(*pair), ids@.len()),
{
    let ghost pd = pair_fn(*pair);
    let mut g: NswGraph = NswGraph::new();
    let mut i: usize = 0;
    while i < ids.len()
        invariant
            i <= ids@.len(),
            ids@.no_duplicates(),
            measures_pairs(*pair),
            pd == pair_fn(*pair),
            g.wf(),
            g@ == rebuilt(ids@, pd, i as nat),
            forall|id: u64| #[trigger]
                g@.nodes.contains_key(id) <==> ids@.take(i as int).contains(id),
        decreases ids@.len() - i,
    {
        let id: u64 = ids[i];
        let dist = |n: u64| -> (d: u32)
            ensures
                pair.ensures((id, n), d),
            { (*pair)(id, n) };
        proof {
            assert forall|n: u64, x: u32| #[trigger] dist.ensures((n,), x) implies x == dist_from(
                pd,
                id,
            )(n) by {
                assert(pair.ensures((id, n), x));
                let y = pd(id, n);
                assert(pair.ensures((id, n), y));
            }
            if ids@.take(i as int).contains(id) {
                let j = choose|j: int| 0 <= j < i && ids@.take(i as int)[j] == id;
                assert(ids@[j] == ids@[i as int]);
            }
            assert(!g@.nodes.contains_key(id));
        }
        let ghost before = g@;
        g.insert_by(id, &dist, Ghost(dist_from(pd, id)))?;
        proof {
            assert(ids@.take(i + 1) =~= ids@.take(i as int).push(id));
            assert forall|x: u64| #[trigger] g@.nodes.contains_key(x) <==> ids@.take(
                i + 1,
            ).contains(x) by {
                let pre = ids@.take(i as int);
                if pre.contains(x) {
                    let j = choose|j: int| 0 <= j < pre.len() && pre[j] == x;
                    assert(ids@.take(i + 1)[j] == x);
                }
                assert(ids@.take(i + 1)[i as int] == id);
                assert(before.nodes.contains_key(x) <==> pre.contains(x));
            }
        }
        i = i + 1;
    }
    Ok(g)
}

impl VectorIndex {
    /// The parts are well-formed, and the graph can be taken up again from a snapshot.
    pub closed spec fn wf(&self) -> bool {
        &&& self.pool.wf()
        &&& self.pool.dimension() == self.schema.dim
        &&& self.locators.wf()
        &&& self.graph.wf()
        &&& resumable(self.graph@)
    }

    /// What a well-formed index keeps to.
    pub proof fn lemma_ordered(&self)
        requires
            self.wf(),
        ensures
            index_sound(self@),
    {
        self.locators.lemma_ordered();
        self.graph.lemma_ordered();
    }

    /// Opens an index: the names of the segment files, the snapshot of the graph, if there is
    /// one, and the locators. A snapshot that does not load is an error.
    pub fn open(
        schema: VectorSchema,
        names: &Vec<String>,
        seg_size: u64,
        snapshot: Option<&[u8]>,
        locators: &Vec<(u64, ValueLocator)>,
    ) -> (r: Result<VectorIndex>)
        requires
            seg_size <= u32::MAX,
        ensures
            match (opened_pool(names_view(names@), seg_size), loaded_graph(snapshot)) {
                (None, _) => r is Err && r->Err_0 is SegmentFull,
                (_, None) => r is Err && load_error(snapshot->Some_0@, r->Err_0),
                (Some(pool), Some(graph)) => r is Ok && r->Ok_0.wf() && r->Ok_0@ == (IndexView {
                    schema,
                    pool,
                    table: table_of(locators@, locators@.len()),
                    graph,
                }),
            },
    {
        let pool: VecSegmentPool = match VecSegmentPool::open(names, seg_size, schema.dim) {
            Some(p) => p,
            None => return Err(StoreError::SegmentFull),
        };
        let graph: NswGraph = match resume(snapshot) {
            Ok(Some(g)) => g,
            Ok(None) => NswGraph::new(),
            Err(e) => return Err(e),
        };
        Ok(VectorIndex { schema, pool, locators: LocatorTable::of(locators), graph })
    }

    /// Reopens an index by the schema that was stored with it. A snapshot that does not load is
    /// dropped. Also says whether the graph is stale: it does not know the same vectors as the
    /// table, and has to be refreshed.
    pub fn reopen(
        stored: &Option<VectorSchema>,
        names: &Vec<String>,
        seg_size: u64,
        snapshot: Option<&[u8]>,
        locators: &Vec<(u64, ValueLocator)>,
    ) -> (r: Result<(VectorIndex, bool)>)
        requires
            seg_size <= u32::MAX,
        ensures
            match *stored {
                None => r is Err && r->Err_0 == StoreError::Corrupt(Corruption::SchemaMissing),
                Some(schema) => match opened_pool(names_view(names@), seg_size) {
                    None => r is Err && r->Err_0 is SegmentFull,
                    Some(pool) => r is Ok && r->Ok_0.0.wf() && r->Ok_0.0@ == reopened(
                        schema,
                        pool,
                        snapshot,
                        locators@,
                    ) && r->Ok_0.1 == !in_step(r->Ok_0.0@),
                },
            },
    {
        let schema: VectorSchema = match stored {
            Some(s) => *s,
            None => return Err(StoreError::Corrupt(Corruption::SchemaMissing)),
        };
        let pool: VecSegmentPool = match VecSegmentPool::open(names, seg_size, schema.dim) {
            Some(p) => p,
            None => return Err(StoreError::SegmentFull),
        };
        let graph: NswGraph = match resume(snapshot) {
            Ok(Some(g)) => g,
            Ok(None) => NswGraph::new(),
            Err(_) => NswGraph::new(),
        };
        let locators: LocatorTable = LocatorTable::of(locators);
        let index: VectorIndex = VectorIndex { schema, pool, locators, graph };
        let stale: bool = !index.is_in_step();
        Ok((index, stale))
    }

    /// Whether the table and the graph know the same vectors.
    fn is_in_step(&self) -> (r: bool)
        requires
            self.wf(),
        ensures
            r == in_step(self@),
    {
        let total: usize = self.locators.len();
        let mut i: usize = 0;
        while i < total
            invariant
                self.wf(),
                total == self@.table.order.len(),
                i <= total,
                forall|j: int|
                    0 <= j < i ==> self@.graph.nodes.contains_key(
                        #[trigger] self@.table.order[j],
                    ),
            decreases total - i,
        {
            let (id, _) = self.locators.entry(i);
            if !self.graph.knows(id) {
                return false;
            }
            i = i + 1;
        }
        proof {
            self.lemma_ordered();
            lemma_in_step(self@);
        }
        self.graph.node_count() == total
    }

    /// Builds the graph anew from the stored vectors, all of them live.
    pub fn rebuild_graph_from_data<P: Fn(u64, u64) -> u32>(&mut self, pair: &P) -> (r: Result<()>)
        requires
            old(self).wf(),
            measures_pairs(*pair),
        ensures
            r is Ok,
            final(self).wf(),
            final(self)@ == (IndexView {
                schema: old(self)@.schema,
                pool: old(self)@.pool,
                table: old(self)@.table,
                graph: rebuilt(
                    old(self)@.table.order,
                    pair_fn(*pair),
                    old(self)@.table.order.len(),
                ),
            }),
    {
        proof {
            self.locators.lemma_ordered();
        }
        let mut ids: Vec<u64> = Vec::new();
        let mut i: usize = 0;
        while i < self.locators.len()
            invariant
                self.wf(),
                i <= self.locators@.order.len(),
                ids@ == self.locators@.order.take(i as int),
            decreases self.locators@.order.len() - i,
        {
            ids.push(self.locators.entry(i).0);
            i = i + 1;
            proof {
                assert(ids@ =~= self.locators@.order.take(i as int));
            }
        }
        proof {
            assert(ids@ =~= self.locators@.order);
        }
        self.graph = build_graph(&ids, pair)?;
        proof {
            rebuilt_graph_is_sound(ids@, pair_fn(*pair), ids@.len());
        }
        Ok(())
    }

    /// Builds the graph of a stale index anew, and marks again what its graph had marked deleted.
    pub fn refresh_graph<P: Fn(u64, u64) -> u32>(&mut self, pair: &P) -> (r: Result<()>)
        requires
            old(self).wf(),
            measures_pairs(*pair),
        ensures
            r is Ok,
            final(self).wf(),
            final(self)@ == (IndexView {
                graph: refreshed(old(self)@, pair_fn(*pair)),
                ..old(self)@
            }),
    {
        let gone: Vec<u64> = self.graph.all_deleted_ids();
        let ghost v0 = self@;
        self.rebuild_graph_from_data(pair)?;
        let ghost base = self@.graph;
        let mut i: usize = 0;
        proof {
            assert(gone@.take(0) =~= Seq::<u64>::empty());
        }
        while i < gone.len()
            invariant
                self.wf(),
                i <= gone@.len(),
                self@ == (IndexView { graph: marked(base, gone@.take(i as int)), ..v0 }),
            decreases gone@.len() - i,
        {
            self.delete(gone[i]);
            proof {
                assert(gone@.take(i + 1).drop_last() =~= gone@.take(i as int));
            }
            i = i + 1;
        }
        proof {
            assert(gone@.take(i as int) =~= gone@);
        }
        Ok(())
    }

    /// The schema of the index.
    pub fn schema(&self) -> (r: &VectorSchema)
        ensures
            *r == self@.schema,
    {
        &self.schema
    }

    /// Whether a vector fits a segment.
    pub fn fits(&self) -> (r: bool)
        requires
            self.wf(),
        ensures
            r == vectors_fit(self@),
    {
        self.pool.fits()
    }

    /// Refuses a vector of another dimension, or one whose id is in use.
    pub fn check_insert(&self, id: u64, vector: &[u32]) -> (r: Result<()>)
        requires
            self.wf(),
        ensures
            r == (match insert_error(self@, id, vector@.len()) {
                Some(e) => Err(e),
                None => Ok(()),
            }),
    {
        self.schema.validate_dim(vector)?;
        if self.locators.get(id).is_some() {
            return Err(StoreError::DuplicateVector(id));
        }
        Ok(())
    }

    /// Places a vector under a new id.
    pub fn insert<H: Fn(u32) -> bool>(&mut self, id: u64, vector: &[u32], held: &H) -> (r: Result<
        AppendPlan,
    >)
        requires
            old(self).wf(),
            tells(*held),
            old(self)@.pool.active < u32::MAX,
            insert_error(old(self)@, id, vector@.len()) is None ==> vectors_fit(old(self)@),
        ensures
            final(self).wf(),
            match insert_error(old(self)@, id, vector@.len()) {
                Some(e) => r is Err && r->Err_0 == e && final(self)@ == old(self)@,
                None => r is Ok && final(self)@ == placed(old(self)@, held_fn(*held), id)
                    && r->Ok_0.locator == final(self)@.table.locs[id] && vec_plan_tells(
                    old(self)@.pool,
                    final(self)@.pool,
                    r->Ok_0,
                ),
            },
    {
        self.check_insert(id, vector)?;
        let plan: AppendPlan = self.pool.append(held);
        self.locators.insert(id, plan.locator);
        Ok(plan)
    }

    /// Links a vector that has been placed and written into the graph.
    pub fn link<D: Fn(u64) -> u32>(&mut self, id: u64, dist: &D) -> (r: Result<()>)
        requires
            old(self).wf(),
            measures(*dist),
        ensures
            final(self).wf(),
            old(self)@.graph.nodes.contains_key(id) ==> r == Err::<(), _>(
                StoreError::DuplicateVector(id),
            ) && final(self)@ == old(self)@,
            !old(self)@.graph.nodes.contains_key(id) ==> r is Ok && final(self)@ == (IndexView {
                schema: old(self)@.schema,
                pool: old(self)@.pool,
                table: old(self)@.table,
                graph: inserted(old(self)@.graph, id, dist_fn(*dist)),
            }),
    {
        proof {
            self.graph.lemma_ordered();
            if !self@.graph.nodes.contains_key(id) {
                lemma_insertion_resumable(self@.graph, id, dist_fn(*dist));
            }
        }
        self.graph.insert(id, dist)
    }

    /// Refuses a batch of vectors that cannot be put in as one: first every dimension is
    /// checked, then every id against those in use, then the ids against each other.
    pub fn check_batch(&self, items: &Vec<(u64, Vec<u32>)>) -> (r: Result<()>)
        requires
            self.wf(),
        ensures
            r == (match batch_error(self@, items@) {
                Some(e) => Err(e),
                None => Ok(()),
            }),
    {
        let dim: usize = self.schema.dim;
        let mut i: usize = 0;
        while i < items.len()
            invariant
                self.wf(),
                dim == self@.schema.dim,
                i <= items@.len(),
                first_misfit(items@, dim as nat, 0) == first_misfit(items@, dim as nat, i as nat),
            decreases items@.len() - i,
        {
            if items[i].1.len() != dim {
                return Err(
                    StoreError::DimensionMismatch { expected: dim, got: items[i].1.len() },
                );
            }
            i = i + 1;
        }
        i = 0;
        while i < items.len()
            invariant
                self.wf(),
                i <= items@.len(),
                first_misfit(items@, self@.schema.dim as nat, 0) >= items@.len(),
                first_taken(items@, self@.table, 0) == first_taken(items@, self@.table, i as nat),
            decreases items@.len() - i,
        {
            if self.locators.get(items[i].0).is_some() {
                return Err(StoreError::DuplicateVector(items[i].0));
            }
            i = i + 1;
        }
        let mut seen: HashSet<u64> = HashSet::new();
        i = 0;
        while i < items.len()
            invariant
                i <= items@.len(),
                first_misfit(items@, self@.schema.dim as nat, 0) >= items@.len(),
                first_taken(items@, self@.table, 0) >= items@.len(),
                first_repeated(items@, 0) == first_repeated(items@, i as nat),
                forall|id: u64| #[trigger] seen@.contains(id) <==> comes_before(items@, i as nat, id),
            decreases items@.len() - i,
        {
            let id: u64 = items[i].0;
            if !seen.insert(id) {
                return Err(StoreError::DuplicateVector(id));
            }
            i = i + 1;
            proof {
                assert forall|x: u64| #[trigger] seen@.contains(x) <==> comes_before(
                    items@,
                    i as nat,
                    x,
                ) by {
                    assert(items@[i - 1].0 == id);
                    if comes_before(items@, (i - 1) as nat, x) {
                        let j = choose|j: int| 0 <= j < i - 1 && (#[trigger] items@[j]).0 == x;
                        assert(items@[j].0 == x);
                    }
                    if comes_before(items@, i as nat, x) && x != id {
                        let j = choose|j: int| 0 <= j < i && (#[trigger] items@[j]).0 == x;
                        assert(0 <= j < i - 1 && items@[j].0 == x);
                    }
                }
            }
        }
        Ok(())
    }

    /// Places a batch of vectors under new ids, all or none.
    pub fn insert_batch<H: Fn(u32) -> bool>(&mut self, items: &Vec<(u64, Vec<u32>)>, held: &H) -> (r:
        Result<Vec<AppendPlan>>)
        requires
            old(self).wf(),
            tells(*held),
            old(self)@.pool.active + items@.len() < u32::MAX,
            items@.len() > 0 && batch_error(old(self)@, items@) is None ==> vectors_fit(old(self)@),
        ensures
            final(self).wf(),
            match batch_error(old(self)@, items@) {
                Some(e) => r is Err && r->Err_0 == e && final(self)@ == old(self)@,
                None => {
                    &&& r is Ok
                    &&& r->Ok_0@.len() == items@.len()
                    &&& final(self)@ == placed_all(
                        old(self)@,
                        held_fn(*held),
                        item_ids(items@),
                        items@.len(),
                    )
                    &&& forall|i: int|
                        0 <= i < items@.len() ==> batch_step(
                            old(self)@,
                            held_fn(*held),
                            item_ids(items@),
                            i,
                            #[trigger] r->Ok_0@[i],
                        )
                },
            },
    {
        let ghost v0 = self@;
        let ghost h = held_fn(*held);
        let ghost ids = item_ids(items@);
        self.check_batch(items)?;
        let mut i: usize = 0;
        let mut plans: Vec<AppendPlan> = Vec::new();
        while i < items.len()
            invariant
                self.wf(),
                tells(*held),
                h == held_fn(*held),
                ids == item_ids(items@),
                i <= items@.len(),
                v0.pool.active + items@.len() < u32::MAX,
                items@.len() > 0 ==> vectors_fit(v0),
                self@ == placed_all(v0, h, ids, i as nat),
                self@.schema == v0.schema,
                self@.pool.seg_size == v0.pool.seg_size,
                self@.pool.active <= v0.pool.active + i,
                plans@.len() == i,
                forall|j: int| 0 <= j < i ==> batch_step(v0, h, ids, j, #[trigger] plans@[j]),
            decreases items@.len() - i,
        {
            let ghost before = self@;
            let plan: AppendPlan = self.pool.append(held);
            self.locators.insert(items[i].0, plan.locator);
            plans.push(plan);
            proof {
                assert(self@ == placed(before, h, ids[i as int]));
                assert(batch_step(v0, h, ids, i as int, plans@[i as int]));
            }
            i = i + 1;
        }
        Ok(plans)
    }

    /// The nearest `top_k` live vectors to a query, by the distances to it. `failed` says
    /// whether a stored vector could not be read on the way, which makes the result useless.
    pub fn search_knn<D: Fn(u64) -> u32, E: Fn() -> bool, F: Fn() -> bool>(
        &self,
        query: &[u32],
        top_k: usize,
        dist: &D,
        expired: &E,
        failed: &F,
    ) -> (r: Result<Vec<(u64, u32)>>)
        requires
            self.wf(),
            measures(*dist),
            expired.requires(()),
            failed.requires(()),
        ensures
            query@.len() != self@.schema.dim ==> r is Err && r->Err_0
                == (StoreError::DimensionMismatch {
                expected: self@.schema.dim,
                got: query@.len() as usize,
            }),
            query@.len() == self@.schema.dim && r is Err ==> failed.ensures((), true) && r->Err_0
                == StoreError::Corrupt(Corruption::VectorReadFailed),
            query@.len() == self@.schema.dim && r is Ok ==> failed.ensures((), false),
            query@.len() == self@.schema.dim && r is Ok && self@.graph.entry is None ==> r->Ok_0@
                == Seq::<(u64, u32)>::empty(),
            query@.len() == self@.schema.dim && r is Ok && self@.graph.entry is Some ==> exists|
                k: nat,
            |
                r->Ok_0@ == first_of(
                    #[trigger] search_result(
                        self@.graph,
                        dist_fn(*dist),
                        wider(self@.schema.ef_search, top_k),
                        self@.graph.entry->Some_0,
                        k,
                    ),
                    top_k as nat,
                ) && (ends_after(
                    self@.graph,
                    dist_fn(*dist),
                    wider(self@.schema.ef_search, top_k),
                    self@.graph.entry->Some_0,
                    k,
                ) || (expired.ensures((), true) && clock_read_after(
                    self@.graph,
                    dist_fn(*dist),
                    wider(self@.schema.ef_search, top_k),
                    self@.graph.entry->Some_0,
                    k,
                ))),
    {
        self.schema.validate_dim(query)?;
        let found: Vec<(u64, u32)> = match self.graph.search_knn(
            dist,
            top_k,
            self.schema.ef_search,
            expired,
        ) {
            Ok(f) => f,
            Err(e) => return Err(e),
        };
        if (*failed)() {
            return Err(StoreError::Corrupt(Corruption::VectorReadFailed));
        }
        Ok(found)
    }

    /// Marks a vector deleted; its bytes stay until a compaction. Whether it was there and live.
    pub fn delete(&mut self, id: u64) -> (r: bool)
        requires
            old(self).wf(),
        ensures
            final(self).wf(),
            r == old(self)@.graph.live(id),
            final(self)@ == (IndexView {
                schema: old(self)@.schema,
                pool: old(self)@.pool,
                table: old(self)@.table,
                graph: with_deleted(old(self)@.graph, id),
            }),
    {
        proof {
            self.graph.lemma_ordered();
            lemma_deletion_resumable(self@.graph, id);
        }
        self.graph.delete(id)
    }

    /// How many vectors are live.
    pub fn len(&self) -> (r: usize)
        requires
            self.wf(),
        ensures
            r == ids_where(self@.graph.order, self@.graph.nodes, false).len(),
    {
        self.graph.len()
    }

    /// Whether no vector is live.
    pub fn is_empty(&self) -> (r: bool)
        requires
            self.wf(),
        ensures
            r == (ids_where(self@.graph.order, self@.graph.nodes, false).len() == 0),
    {
        self.graph.is_empty()
    }

    /// What the graph takes in memory.
    pub fn graph_memory_usage(&self) -> (r: usize)
        requires
            self.wf(),
        ensures
            crate::vector::nsw::takes_memory(self@.graph, r),
    {
        self.graph.memory_usage()
    }

    /// Where a live vector stands; `None` where there is none or it is deleted.
    pub fn get_vector(&self, id: u64) -> (r: Result<Option<ValueLocator>>)
        requires
            self.wf(),
        ensures
            !self@.graph.live(id) ==> r == Ok::<Option<ValueLocator>, StoreError>(None),
            self@.graph.live(id) && self@.table.locs.contains_key(id) ==> r == Ok::<
                Option<ValueLocator>,
                StoreError,
            >(Some(self@.table.locs[id])),
            self@.graph.live(id) && !self@.table.locs.contains_key(id) ==> r == Err::<
                Option<ValueLocator>,
                StoreError,
            >(StoreError::NotFound),
    {
        if self.graph.is_deleted(id) {
            return Ok(None);
        }
        match self.locators.get(id) {
            Some(loc) => Ok(Some(loc)),
            None => Err(StoreError::NotFound),
        }
    }

    /// Where a vector stands, deleted or not.
    pub fn locator(&self, id: u64) -> (r: Option<ValueLocator>)
        requires
            self.wf(),
        ensures
            r is Some <==> self@.table.locs.contains_key(id),
            r matches Some(loc) ==> loc == self@.table.locs[id],
    {
        self.locators.get(id)
    }

    /// The ids of the live vectors.
    pub fn list_vector_ids(&self) -> (r: Vec<u64>)
        requires
            self.wf(),
        ensures
            r@ == ids_where(self@.graph.order, self@.graph.nodes, false),
    {
        self.graph.all_ids()
    }

    /// Whether a snapshot has room for the graph.
    pub fn can_checkpoint(&self) -> (r: bool)
        requires
            self.wf(),
        ensures
            r == snapshot_fits(self@.graph),
    {
        fits_snapshot(&self.graph)
    }

    /// The snapshot of the graph.
    pub fn checkpoint(&self) -> (r: Vec<u8>)
        requires
            self.wf(),
            snapshot_fits(self@.graph),
        ensures
            r@ == snapshot_of(self@.graph),
    {
        serialize(&self.graph)
    }

    /// The pool of the index.
    pub fn pool(&self) -> (r: &VecSegmentPool)
        ensures
            r@ == self@.pool,
    {
        &self.pool
    }

    /// Notes that a segment's file was looked for to be mapped for reading: an error where it is
    /// missing, otherwise the segments that are no longer mapped to make room.
    pub fn segment_opened<H: Fn(u32) -> bool>(&mut self, seg_id: u32, exists: bool, held: &H) -> (r:
        Result<Vec<u32>>)
        requires
            old(self).wf(),
            tells(*held),
            exists ==> seg_id <= old(self)@.pool.active,
        ensures
            final(self).wf(),
            !exists ==> r is Err && r->Err_0 == StoreError::Corrupt(
                Corruption::VecSegmentMissing { seg_id },
            ) && final(self)@ == old(self)@,
            exists ==> r is Ok && final(self)@ == (IndexView {
                schema: old(self)@.schema,
                pool: PoolView {
                    seg_size: old(self)@.pool.seg_size,
                    active: old(self)@.pool.active,
                    cursor: old(self)@.pool.cursor,
                    cache: crate::mem::cache::evicted(
                        crate::mem::cache::mapped_in(old(self)@.pool.cache, seg_id),
                        held_fn(*held),
                        1,
                    ),
                },
                table: old(self)@.table,
                graph: old(self)@.graph,
            }) && r->Ok_0@.to_set() == old(self)@.pool.cache.mapped.insert(seg_id).difference(
                final(self)@.pool.cache.mapped,
            ),
    {
        self.pool.sealed_opened(seg_id, exists, held)
    }

    /// Starts a compaction: the vectors that are not deleted are to be written to a fresh
    /// segment and those behind it. Refused where less is available on disk than the segments
    /// take now; where what is available is not known, it goes ahead. Refused too where a
    /// vector does not stand in any segment.
    pub fn compact<H: Fn(u32) -> bool>(
        &mut self,
        available: Option<u64>,
        disk_bytes: u64,
        held: &H,
    ) -> (r: Result<CompactPlan>)
        requires
            old(self).wf(),
            tells(*held),
            old(self)@.pool.active + kept_ids(old(self)@).len() < u32::MAX,
            old(self)@.table.order.len() > 0 ==> vectors_fit(old(self)@),
        ensures
            final(self).wf(),
            compact_result(
                old(self)@,
                held_fn(*held),
                available,
                disk_bytes,
                final(self)@,
                r,
            ),
    {
        let ghost v0 = self@;
        let ghost h = held_fn(*held);
        let ghost need = 4 * v0.schema.dim as nat;
        let ghost ids = kept_ids(v0);
        proof {
            self.lemma_ordered();
            lemma_kept(v0, v0.table.order.len());
        }
        check_disk(available, disk_bytes)?;
        self.check_kept()?;
        let old_segs: Vec<u32> = self.pool.all_seg_ids();
        let sealed: u32 = self.pool.active_seg_id();
        let unmapped: Vec<u32> = self.pool.seal_and_rotate(held);
        let mut moves: Vec<Move> = Vec::new();
        let total: usize = self.locators.len();
        let mut i: usize = 0;
        proof {
            assert(move_ids(moves@) =~= kept(v0, 0));
        }
        while i < total
            invariant
                self.wf(),
                tells(*held),
                h == held_fn(*held),
                need == 4 * v0.schema.dim,
                total == v0.table.order.len(),
                v0.pool.active + kept_ids(v0).len() < u32::MAX,
                total > 0 ==> vectors_fit(v0),
                i <= total,
                self@.schema == v0.schema,
                self@.table == v0.table,
                self@.graph == v0.graph,
                self@.pool.seg_size == v0.pool.seg_size,
                moves@.len() <= i,
                move_ids(moves@) == kept(v0, i as nat),
                self@.pool == rewritten(v0.pool, h, need, moves@.len()),
                self@.pool.active <= v0.pool.active + 1 + moves@.len(),
                forall|j: int|
                    0 <= j < moves@.len() ==> move_step(v0, h, j, #[trigger] moves@[j]),
            decreases total - i,
        {
            let (id, from) = self.locators.entry(i);
            if !self.graph.is_marked_deleted(id) {
                let ghost ids0 = move_ids(moves@);
                proof {
                    lemma_kept_prefix(v0, (i + 1) as nat, total as nat);
                }
                let append: AppendPlan = self.pool.append(held);
                moves.push(Move { id, from, append });
                proof {
                    assert(move_ids(moves@) =~= ids0.push(id));
                    assert(move_step(v0, h, moves@.len() - 1, moves@[moves@.len() - 1]));
                }
            }
            i = i + 1;
        }
        Ok(CompactPlan { old_segs, sealed, unmapped, moves })
    }

    /// Refuses a compaction while a vector that it keeps does not stand in any segment.
    fn check_kept(&self) -> (r: Result<()>)
        requires
            self.wf(),
        ensures
            ({
                let ids = kept_ids(self@);
                let k = first_lost(self@, ids, 0);
                if k < ids.len() {
                    r == Err::<(), _>(lost_error(self@, ids[k as int]))
                } else {
                    r is Ok
                }
            }),
    {
        let ghost v = self@;
        let total: usize = self.locators.len();
        let need: u128 = 4 * self.schema.dim as u128;
        let mut i: usize = 0;
        while i < total
            invariant
                self.wf(),
                v == self@,
                need == 4 * v.schema.dim,
                total == v.table.order.len(),
                i <= total,
                forall|j: int|
                    0 <= j < kept(v, i as nat).len() ==> stands(
                        v,
                        v.table.locs[#[trigger] kept(v, i as nat)[j]],
                    ),
            decreases total - i,
        {
            let (id, loc) = self.locators.entry(i);
            if !self.graph.is_marked_deleted(id) {
                let active: u32 = self.pool.active_seg_id();
                proof {
                    assert(kept(v, (i + 1) as nat) =~= kept(v, i as nat).push(id));
                }
                if loc.seg_id > active {
                    proof {
                        lemma_first_lost(v, i as nat, id);
                    }
                    return Err(
                        StoreError::Corrupt(Corruption::VecSegmentMissing { seg_id: loc.seg_id }),
                    );
                }
                if loc.len as u128 != need {
                    proof {
                        lemma_first_lost(v, i as nat, id);
                    }
                    return Err(StoreError::Corrupt(Corruption::VectorLength { id, bytes: loc.len }));
                }
            }
            i = i + 1;
        }
        proof {
            lemma_none_lost(v, kept_ids(v), 0);
        }
        Ok(())
    }

    /// Ends a compaction once its vectors have been written and the locators replaced: the
    /// graph is built anew and the locators are those of the plan. How many vectors are live.
    pub fn switch<P: Fn(u64, u64) -> u32>(&mut self, plan: &CompactPlan, pair: &P) -> (r: Result<
        usize,
    >)
        requires
            old(self).wf(),
            measures_pairs(*pair),
            move_ids(plan.moves@).no_duplicates(),
        ensures
            r == Ok::<usize, StoreError>(plan.moves@.len() as usize),
            final(self).wf(),
            final(self)@ == (IndexView {
                schema: old(self)@.schema,
                pool: old(self)@.pool,
                table: table_of(move_entries(plan.moves@), plan.moves@.len()),
                graph: rebuilt(move_ids(plan.moves@), pair_fn(*pair), plan.moves@.len()),
            }),
    {
        let mut ids: Vec<u64> = Vec::new();
        let mut entries: Vec<(u64, ValueLocator)> = Vec::new();
        let mut i: usize = 0;
        while i < plan.moves.len()
            invariant
                i <= plan.moves@.len(),
                ids@ == move_ids(plan.moves@).take(i as int),
                entries@ == move_entries(plan.moves@).take(i as int),
            decreases plan.moves@.len() - i,
        {
            ids.push(plan.moves[i].id);
            entries.push((plan.moves[i].id, plan.moves[i].append.locator));
            i = i + 1;
            proof {
                assert(ids@ =~= move_ids(plan.moves@).take(i as int));
                assert(entries@ =~= move_entries(plan.moves@).take(i as int));
            }
        }
        proof {
            assert(ids@ =~= move_ids(plan.moves@));
            assert(entries@ =~= move_entries(plan.moves@));
        }
        self.graph = build_graph(&ids, pair)?;
        proof {
            rebuilt_graph_is_sound(ids@, pair_fn(*pair), ids@.len());
        }
        self.locators = LocatorTable::of(&entries);
        Ok(plan.moves.len())
    }

    /// Whether the file of an old segment may go now.
    pub fn reclaim_safe(&self, seg_id: u32, readers: usize, age_ms: Option<u64>) -> (r: bool)
        ensures
            r == may_go(self@.pool.cache.mapped.contains(seg_id), readers, age_ms),
    {
        self.pool.reclaim_safe(seg_id, readers, age_ms)
    }

    /// Notes that the file of an old segment is gone.
    pub fn segment_reclaimed(&mut self, seg_id: u32)
        requires
            old(self).wf(),
        ensures
            final(self).wf(),
            final(self)@ == (IndexView {
                schema: old(self)@.schema,
                pool: PoolView {
                    seg_size: old(self)@.pool.seg_size,
                    active: old(self)@.pool.active,
                    cursor: old(self)@.pool.cursor,
                    cache: dropped(old(self)@.pool.cache, seg_id),
                },
                table: old(self)@.table,
                graph: old(self)@.graph,
            }),
    {
        self.pool.drop_sealed(seg_id);
    }
}

/// The index that is reopened: the graph of the snapshot, where it can be taken up again, and
/// the locators that are stored.
pub open spec fn reopened(
    schema: VectorSchema,
    pool: PoolView,
    snapshot: Option<&[u8]>,
    rows: Seq<(u64, ValueLocator)>,
) -> IndexView {
    IndexView {
        schema,
        pool,
        table: table_of(rows, rows.len()),
        graph: match loaded_graph(snapshot) {
            Some(g) => g,
            None => empty_graph(),
        },
    }
}

/// An index whose table and graph know the same vectors.
pub open spec fn in_step(v: IndexView) -> bool {
    forall|id: u64| #[trigger] v.table.locs.contains_key(id) <==> v.graph.nodes.contains_key(id)
}

/// Where the graph knows all vectors of the table, it knows no others if and only if there are
/// as many nodes as vectors.
proof fn lemma_in_step(v: IndexView)
    requires
        v.table.ordered(),
        v.graph.ordered(),
        forall|j: int|
            0 <= j < v.table.order.len() ==> v.graph.nodes.contains_key(
                #[trigger] v.table.order[j],
            ),
    ensures
        in_step(v) <==> v.graph.order.len() == v.table.order.len(),
{
    let a = v.table.order;
    let b = v.graph.order;
    a.unique_seq_to_set();
    b.unique_seq_to_set();
    assert forall|id: u64| a.contains(id) implies b.contains(id) by {
        let j = choose|j: int| 0 <= j < a.len() && a[j] == id;
        assert(v.graph.nodes.contains_key(a[j]));
    }
    assert(a.to_set().subset_of(b.to_set()));
    if in_step(v) {
        assert forall|id: u64| b.contains(id) implies a.contains(id) by {
            assert(v.graph.nodes.contains_key(id));
            assert(v.table.locs.contains_key(id) <==> v.graph.nodes.contains_key(id));
        }
        assert(a.to_set() =~= b.to_set());
    }
    if a.len() == b.len() {
        vstd::set_lib::lemma_subset_equality(a.to_set(), b.to_set());
        assert forall|id: u64| #[trigger] v.table.locs.contains_key(id)
            <==> v.graph.nodes.contains_key(id) by {
            assert(a.to_set().contains(id) <==> b.to_set().contains(id));
            assert(a.contains(id) <==> b.contains(id));
        }
    }
}

/// What holds of every well-formed index: the orders name each vector once, the graph can be
/// taken up again, and the pool is sound.
pub open spec fn index_sound(v: IndexView) -> bool {
    v.table.ordered() && v.graph.ordered() && resumable(v.graph) && pool_sound(v.pool)
}

/// Why a vector that does not stand in any segment cannot be moved: its segment is not there, or
/// it has another length.
pub open spec fn lost_error(v: IndexView, id: u64) -> StoreError {
    let loc = v.table.locs[id];
    if loc.seg_id > v.pool.active {
        StoreError::Corrupt(Corruption::VecSegmentMissing { seg_id: loc.seg_id })
    } else {
        StoreError::Corrupt(Corruption::VectorLength { id, bytes: loc.len })
    }
}

/// `w` and `r` are what the start of a compaction comes to.
pub open spec fn compact_result(
    v: IndexView,
    held: spec_fn(u32) -> bool,
    available: Option<u64>,
    disk_bytes: u64,
    w: IndexView,
    r: Result<CompactPlan>,
) -> bool {
    let ids = kept_ids(v);
    let need = 4 * v.schema.dim as nat;
    let lost = first_lost(v, ids, 0);
    if available is Some && available->Some_0 < disk_bytes {
        r is Err && r->Err_0 is Io && r->Err_0->Io_0@ == disk_text(
            disk_bytes,
            available->Some_0,
        ) && w == v
    } else if lost < ids.len() {
        r is Err && r->Err_0 == lost_error(v, ids[lost as int]) && w == v
    } else {
        &&& r is Ok
        &&& move_ids(r->Ok_0.moves@) == ids
        &&& ids.no_duplicates()
        &&& r->Ok_0.sealed == v.pool.active
        &&& r->Ok_0.old_segs@.to_set() == v.pool.cache.mapped.insert(v.pool.active)
        &&& r->Ok_0.unmapped@.to_set() == v.pool.cache.mapped.insert(v.pool.active).difference(
            vec_rotated(v.pool, held).cache.mapped,
        )
        &&& w == (IndexView { pool: rewritten(v.pool, held, need, ids.len()), ..v })
        &&& forall|i: int|
            0 <= i < ids.len() ==> move_step(v, held, i, #[trigger] r->Ok_0.moves@[i])
    }
}

proof fn lemma_kept_prefix(v: IndexView, i: nat, k: nat)
    requires
        i <= k,
    ensures
        kept(v, i).len() <= kept(v, k).len(),
        forall|j: int| 0 <= j < kept(v, i).len() ==> kept(v, k)[j] == #[trigger] kept(v, i)[j],
    decreases k,
{
    if i < k {
        lemma_kept_prefix(v, i, (k - 1) as nat);
    }
}

proof fn lemma_lost_at(v: IndexView, ids: Seq<u64>, i: nat, k: nat)
    requires
        i <= k < ids.len(),
        forall|j: int| i <= j < k ==> stands(v, v.table.locs[#[trigger] ids[j]]),
        !stands(v, v.table.locs[ids[k as int]]),
    ensures
        first_lost(v, ids, i) == k,
    decreases k - i,
{
    if i < k {
        assert(stands(v, v.table.locs[ids[i as int]]));
        lemma_lost_at(v, ids, i + 1, k);
    }
}

proof fn lemma_none_lost(v: IndexView, ids: Seq<u64>, i: nat)
    requires
        forall|j: int| 0 <= j < ids.len() ==> stands(v, v.table.locs[#[trigger] ids[j]]),
    ensures
        first_lost(v, ids, i) >= ids.len(),
    decreases ids.len() - i,
{
    if i < ids.len() {
        assert(stands(v, v.table.locs[ids[i as int]]));
        lemma_none_lost(v, ids, i + 1);
    }
}

/// Which vector is the first one lost: the `i`-th of the table, where those before it stand.
proof fn lemma_first_lost(v: IndexView, i: nat, id: u64)
    requires
        i < v.table.order.len(),
        kept(v, (i + 1) as nat) == kept(v, i).push(id),
        forall|j: int| 0 <= j < kept(v, i).len() ==> stands(v, v.table.locs[#[trigger] kept(v, i)[j]]),
        !stands(v, v.table.locs[id]),
    ensures
        ({
            let ids = kept_ids(v);
            let k = first_lost(v, ids, 0);
            k < ids.len() && ids[k as int] == id
        }),
{
    let ids = kept_ids(v);
    let k = kept(v, i).len();
    lemma_kept_prefix(v, i, v.table.order.len());
    lemma_kept_prefix(v, i + 1, v.table.order.len());
    assert(kept(v, i + 1)[k as int] == id);
    assert(ids[k as int] == id);
    assert forall|j: int| 0 <= j < k implies stands(v, v.table.locs[#[trigger] ids[j]]) by {
        assert(ids[j] == kept(v, i)[j]);
    }
    lemma_lost_at(v, ids, 0, k);
}

/// A graph that can be taken up again stays so when a node is put in.
proof fn lemma_insertion_resumable(g: GraphView, id: u64, d: spec_fn(u64) -> u32)
    requires
        g.ordered(),
        resumable(g),
        !g.nodes.contains_key(id),
    ensures
        resumable(inserted(g, id, d)),
{
    insertion_keeps_the_graph_sound(g, id, d);
    assert(no_dangling(g));
    assert(no_dangling(inserted(g, id, d)));
}

/// A graph that can be taken up again stays so when a node is deleted.
proof fn lemma_deletion_resumable(g: GraphView, id: u64)
    requires
        g.ordered(),
        resumable(g),
    ensures
        resumable(with_deleted(g, id)),
{
    deletion_keeps_the_graph_sound(g, id);
    assert(no_dangling(g));
    assert(no_dangling(with_deleted(g, id)));
}

/// `plan` is how the `i`-th vector of a batch was placed behind those before it.
pub open spec fn batch_step(
    v: IndexView,
    held: spec_fn(u32) -> bool,
    ids: Seq<u64>,
    i: int,
    plan: AppendPlan,
) -> bool {
    let before = placed_all(v, held, ids, i as nat);
    let (q, loc) = vec_appended(before.pool, held, 4 * before.schema.dim as nat);
    plan.locator == loc && vec_plan_tells(before.pool, q, plan)
}

/// `m` is how the `i`-th of the kept vectors moves.
pub open spec fn move_step(v: IndexView, held: spec_fn(u32) -> bool, i: int, m: Move) -> bool {
    let need = 4 * v.schema.dim as nat;
    let before = rewritten(v.pool, held, need, i as nat);
    let (q, loc) = vec_appended(before, held, need);
    &&& v.table.locs.contains_key(m.id)
    &&& m.from == v.table.locs[m.id]
    &&& m.append.locator == loc
    &&& vec_plan_tells(before, q, m.append)
}

pub open spec fn move_entries(moves: Seq<Move>) -> Seq<(u64, ValueLocator)> {
    Seq::new(moves.len(), |i: int| (moves[i].id, moves[i].append.locator))
}

/// What is said where a compaction lacks space on disk.
pub open spec fn disk_text(needed: u64, available: u64) -> Seq<char> {
    "compact needs ~"@ + dec(needed as nat) + "B disk for COW rewrite but only "@ + dec(
        available as nat,
    ) + "B available"@
}

/// Refuses a compaction where less is available on disk than is needed.
pub fn check_disk(available: Option<u64>, needed: u64) -> (r: Result<()>)
    ensures
        (available is Some && available->Some_0 < needed) ==> r is Err && r->Err_0 is Io
            && r->Err_0->Io_0@ == disk_text(needed, available->Some_0),
        !(available is Some && available->Some_0 < needed) ==> r is Ok,
{
    match available {
        Some(a) => {
            if a < needed {
                let mut text: String = String::from_str("compact needs ~");
                push_dec(&mut text, needed);
                text.append("B disk for COW rewrite but only ");
                push_dec(&mut text, a);
                text.append("B available");
                Err(StoreError::Io(text))
            } else {
                Ok(())
            }
        },
        None => Ok(()),
    }
}

} // verus!
