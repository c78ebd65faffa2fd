//! Sharding: one logical store over several engines, each with its own directory and log.
//! Vectors are routed by id and keys by hash; a search asks every shard and merges.

use vstd::prelude::*;
use vstd::string::StringExecFns;
use crate::error::{Corruption, Result, StoreError};
use crate::store::kv::{fnv1a, xxhash};
use crate::text::{dec, push_dec};
use crate::vector::dist::{below, is_nan, less, not_a_number};

verus! {

/// Decides to which shard a vector or a key goes.
pub trait ShardRouter {
    /// The shard of a vector.
    spec fn vector_shard(&self, id: u64, num_shards: usize) -> usize;

    /// The shard of a key.
    spec fn key_shard(&self, key: &[u8], num_shards: usize) -> usize;

    fn shard_for_vector(&self, id: u64, num_shards: usize) -> (r: usize)
        ensures
            r == self.vector_shard(id, num_shards),
            num_shards > 0 ==> r < num_shards,
    ;

    fn shard_for_key(&self, key: &[u8], num_shards: usize) -> (r: usize)
        ensures
            r == self.key_shard(key, num_shards),
            num_shards > 0 ==> r < num_shards,
    ;
}

/// Routes a vector by its id and a key by its FNV-1a hash, each modulo the number of shards.
#[derive(Debug, Clone, Copy)]
pub struct HashRouter;

/// `x` modulo the number of shards; 0 where there is none.
pub open spec fn modulo(x: u64, num_shards: usize) -> usize {
    if num_shards == 0 {
        0
    } else {
        (x as int % num_shards as int) as usize
    }
}

fn rest(x: u64, num_shards: usize) -> (r: usize)
    ensures
        r == modulo(x, num_shards),
        num_shards > 0 ==> r < num_shards,
{
    if num_shards == 0 {
        0
    } else {
        (x % num_shards as u64) as usize
    }
}

impl ShardRouter for HashRouter {
    open spec fn vector_shard(&self, id: u64, num_shards: usize) -> usize {
        modulo(id, num_shards)
    }

    open spec fn key_shard(&self, key: &[u8], num_shards: usize) -> usize {
        modulo(fnv1a(key@), num_shards)
    }

    fn shard_for_vector(&self, id: u64, num_shards: usize) -> (r: usize) {
        rest(id, num_shards)
    }

    fn shard_for_key(&self, key: &[u8], num_shards: usize) -> (r: usize) {
        rest(xxhash(key), num_shards)
    }
}

/// The directory of a shard.
pub open spec fn shard_dir_name(i: nat) -> Seq<char> {
    "shard_"@ + dec(i)
}

/// The places of the first `k` ids that go to a shard.
pub open spec fn bucket_of<R: ShardRouter>(
    router: &R,
    num_shards: usize,
    ids: Seq<u64>,
    shard: usize,
    k: nat,
) -> Seq<usize>
    decreases k,
{
    if k == 0 {
        Seq::empty()
    } else if router.vector_shard(ids[k - 1], num_shards) == shard {
        bucket_of(router, num_shards, ids, shard, (k - 1) as nat).push((k - 1) as usize)
    } else {
        bucket_of(router, num_shards, ids, shard, (k - 1) as nat)
    }
}

/// A result put among sorted ones, behind those that it is not below.
pub open spec fn put_in(sorted: Seq<(u64, u32)>, x: (u64, u32)) -> Seq<(u64, u32)>
    decreases sorted.len(),
{
    if sorted.len() == 0 {
        seq![x]
    } else if below(x.1, sorted.last().1) {
        put_in(sorted.drop_last(), x).push(sorted.last())
    } else {
        sorted.push(x)
    }
}

/// Results sorted by distance; those that are equal keep their order.
pub open spec fn sorted_by_distance(all: Seq<(u64, u32)>) -> Seq<(u64, u32)>
    decreases all.len(),
{
    if all.len() == 0 {
        Seq::empty()
    } else {
        put_in(sorted_by_distance(all.drop_last()), all.last())
    }
}

/// The results of the shards that answered, one after the other.
pub open spec fn gathered(parts: Seq<Result<Vec<(u64, u32)>>>) -> Seq<(u64, u32)>
    decreases parts.len(),
{
    if parts.len() == 0 {
        Seq::empty()
    } else {
        match parts.last() {
            Ok(found) => gathered(parts.drop_last()) + found@,
            Err(_) => gathered(parts.drop_last()),
        }
    }
}

/// Whether no distance is not a number.
pub open spec fn comparable(all: Seq<(u64, u32)>) -> bool {
    forall|i: int| 0 <= i < all.len() ==> !is_nan((#[trigger] all[i]).1)
}

/// The merged results of several shards: the nearest `top_k` of all.
pub open spec fn merged(parts: Seq<Result<Vec<(u64, u32)>>>, top_k: nat) -> Seq<(u64, u32)> {
    let s = sorted_by_distance(gathered(parts));
    if s.len() > top_k {
        s.take(top_k as int)
    } else {
        s
    }
}

fn gather(parts: &Vec<Result<Vec<(u64, u32)>>>) -> (r: Vec<(u64, u32)>)
    ensures
        r@ == gathered(parts@),
{
    let mut all: Vec<(u64, u32)> = Vec::new();
    let mut i: usize = 0;
    proof {
        assert(parts@.take(0) =~= Seq::<Result<Vec<(u64, u32)>>>::empty());
    }
    while i < parts.len()
        invariant
            i <= parts@.len(),
            all@ == gathered(parts@.take(i as int)),
        decreases parts@.len() - i,
    {
        let ghost before = all@;
        match &parts[i] {
            Ok(part) => {
                let mut j: usize = 0;
                proof {
                    assert(before + part@.take(0) =~= before);
                }
                while j < part.len()
                    invariant
                        j <= part@.len(),
                        all@ == before + part@.take(j as int),
                    decreases part@.len() - j,
                {
                    all.push(part[j]);
                    j = j + 1;
                    proof {
                        assert(all@ =~= before + part@.take(j as int));
                    }
                }
                proof {
                    assert(part@.take(j as int) =~= part@);
                }
            },
            Err(_) => {},
        }
        proof {
            assert(parts@.take(i + 1).drop_last() =~= parts@.take(i as int));
        }
        i = i + 1;
    }
    proof {
        assert(parts@.take(i as int) =~= parts@);
    }
    all
}

/// Whether what the shards answered can be merged: no distance is not a number.
pub fn can_merge(parts: &Vec<Result<Vec<(u64, u32)>>>) -> (r: bool)
    ensures
        r == comparable(gathered(parts@)),
{
    let all: Vec<(u64, u32)> = gather(parts);
    let mut i: usize = 0;
    while i < all.len()
        invariant
            i <= all@.len(),
            all@ == gathered(parts@),
            forall|j: int| 0 <= j < i ==> !is_nan((#[trigger] all@[j]).1),
        decreases all@.len() - i,
    {
        if not_a_number(all[i].1) {
            return false;
        }
        i = i + 1;
    }
    true
}

/// The first answer, from the `i`th on, that the query has a wrong dimension.
pub open spec fn first_mismatch(parts: Seq<Result<Vec<(u64, u32)>>>, i: nat) -> Option<StoreError>
    decreases parts.len() - i,
{
    if i >= parts.len() {
        None
    } else {
        match parts[i as int] {
            Err(StoreError::DimensionMismatch { expected, got }) => Some(
                StoreError::DimensionMismatch { expected, got },
            ),
            _ => first_mismatch(parts, i + 1),
        }
    }
}

/// Refuses a search whose query a shard has found of a wrong dimension.
pub fn check_dimension(parts: &Vec<Result<Vec<(u64, u32)>>>) -> (r: Result<()>)
    ensures
        r == (match first_mismatch(parts@, 0) {
            Some(e) => Err(e),
            None => Ok(()),
        }),
{
    let mut i: usize = 0;
    while i < parts.len()
        invariant
            i <= parts@.len(),
            first_mismatch(parts@, 0) == first_mismatch(parts@, i as nat),
        decreases parts@.len() - i,
    {
        match &parts[i] {
            Err(StoreError::DimensionMismatch { expected, got }) => {
                return Err(StoreError::DimensionMismatch { expected: *expected, got: *got });
            },
            _ => {},
        }
        i = i + 1;
    }
    Ok(())
}

/// Merges what several shards answered to a search. A query of a wrong dimension is refused, as
/// one store would; shards that failed otherwise are left out.
pub fn merge_knn(parts: &Vec<Result<Vec<(u64, u32)>>>, top_k: usize) -> (r: Result<
    Vec<(u64, u32)>,
>)
    requires
        comparable(gathered(parts@)),
    ensures
        match first_mismatch(parts@, 0) {
            Some(e) => r is Err && r->Err_0 == e,
            None => r is Ok && r->Ok_0@ == merged(parts@, top_k as nat),
        },
{
    check_dimension(parts)?;
    let all: Vec<(u64, u32)> = gather(parts);
    let mut sorted: Vec<(u64, u32)> = Vec::new();
    let mut i: usize = 0;
    proof {
        assert(all@.take(0) =~= Seq::<(u64, u32)>::empty());
    }
    while i < all.len()
        invariant
            i <= all@.len(),
            sorted@ == sorted_by_distance(all@.take(i as int)),
        decreases all@.len() - i,
    {
        proof {
            assert(all@.take(i + 1).drop_last() =~= all@.take(i as int));
        }
        insert_sorted(&mut sorted, all[i]);
        i = i + 1;
    }
    proof {
        assert(all@.take(i as int) =~= all@);
    }
    sorted.truncate(top_k);
    proof {
        assert(sorted@ =~= merged(parts@, top_k as nat));
    }
    Ok(sorted)
}

fn insert_sorted(sorted: &mut Vec<(u64, u32)>, x: (u64, u32))
    ensures
        final(sorted)@ == put_in(old(sorted)@, x),
{
    let mut at: usize = sorted.len();
    proof {
        assert(sorted@.take(at as int) =~= sorted@);
        assert(put_in(sorted@, x) + sorted@.skip(at as int) =~= put_in(sorted@, x));
    }
    while at > 0 && less(x.1, sorted[at - 1].1)
        invariant
            sorted@ == old(sorted)@,
            at <= sorted@.len(),
            put_in(sorted@, x) == put_in(sorted@.take(at as int), x) + sorted@.skip(at as int),
        decreases at,
    {
        proof {
            let a = sorted@.take(at as int);
            assert(a.drop_last() =~= sorted@.take(at - 1));
            assert(put_in(a.drop_last(), x).push(a.last()) + sorted@.skip(at as int) =~= put_in(
                a.drop_last(),
                x,
            ) + sorted@.skip(at - 1));
        }
        at = at - 1;
    }
    proof {
        let a = sorted@.take(at as int);
        if at == 0 {
            assert(put_in(a, x) =~= seq![x]);
        }
        assert(put_in(a, x) =~= a.push(x));
        assert(a.push(x) + sorted@.skip(at as int) =~= sorted@.insert(at as int, x));
    }
    sorted.insert(at, x);
}

/// A sharded store: the number of shards and how they are chosen.
pub struct ShardedEngine<R: ShardRouter> {
    num_shards: usize,
    router: R,
}

impl<R: ShardRouter> ShardedEngine<R> {
    /// How many shards there are.
    pub closed spec fn shards(&self) -> usize {
        self.num_shards
    }

    /// How they are chosen.
    pub closed spec fn routing(&self) -> R {
        self.router
    }

    /// There is at least one shard.
    pub open spec fn wf(&self) -> bool {
        self.shards() > 0
    }

    /// A sharded store with its own router. At least one shard is needed.
    pub fn open_with_router(num_shards: usize, router: R) -> (r: Result<ShardedEngine<R>>)
        ensures
            num_shards == 0 ==> r is Err && r->Err_0 == StoreError::Corrupt(Corruption::NoShards),
            num_shards > 0 ==> r is Ok && r->Ok_0.wf() && r->Ok_0.shards() == num_shards
                && r->Ok_0.routing() == router,
    {
        if num_shards == 0 {
            return Err(StoreError::Corrupt(Corruption::NoShards));
        }
        Ok(ShardedEngine { num_shards, router })
    }

    /// How many shards there are.
    pub fn num_shards(&self) -> (r: usize)
        ensures
            r == self.shards(),
    {
        self.num_shards
    }

    /// The shard of a vector.
    pub fn shard_for_vector(&self, id: u64) -> (r: usize)
        requires
            self.wf(),
        ensures
            r == self.routing().vector_shard(id, self.shards()),
            r < self.shards(),
    {
        self.router.shard_for_vector(id, self.num_shards)
    }

    /// The shard of a key; a table goes by its name.
    pub fn shard_for_key(&self, key: &[u8]) -> (r: usize)
        requires
            self.wf(),
        ensures
            r == self.routing().key_shard(key, self.shards()),
            r < self.shards(),
    {
        self.router.shard_for_key(key, self.num_shards)
    }

    /// The directory of a shard.
    pub fn shard_dir(i: usize) -> (r: String)
        ensures
            r@ == shard_dir_name(i as nat),
    {
        let mut name: String = String::new();
        name.append("shard_");
        push_dec(&mut name, i as u64);
        proof {
            assert(name@ =~= shard_dir_name(i as nat));
        }
        name
    }

    /// Splits a batch: for each shard the places of the vectors that go there, in order.
    pub fn split_batch(&self, ids: &Vec<u64>) -> (r: Vec<Vec<usize>>)
        requires
            self.wf(),
        ensures
            r@.len() == self.shards(),
            forall|s: int|
                0 <= s < r@.len() ==> (#[trigger] r@[s])@ == bucket_of(
                    &self.routing(),
                    self.shards(),
                    ids@,
                    s as usize,
                    ids@.len(),
                ),
    {
        let mut buckets: Vec<Vec<usize>> = Vec::new();
        let mut s: usize = 0;
        while s < self.num_shards
            invariant
                s <= self.num_shards,
                buckets@.len() == s,
                forall|j: int| 0 <= j < s ==> (#[trigger] buckets@[j])@ == Seq::<usize>::empty(),
            decreases self.num_shards - s,
        {
            buckets.push(Vec::new());
            s = s + 1;
        }
        let mut i: usize = 0;
        while i < ids.len()
            invariant
                self.wf(),
                i <= ids@.len(),
                buckets@.len() == self.shards(),
                forall|j: int|
                    0 <= j < buckets@.len() ==> (#[trigger] buckets@[j])@ == bucket_of(
                        &self.routing(),
                        self.shards(),
                        ids@,
                        j as usize,
                        i as nat,
                    ),
            decreases ids@.len() - i,
        {
            let at: usize = self.shard_for_vector(ids[i]);
            buckets[at].push(i);
            i = i + 1;
        }
        buckets
    }
}

impl ShardedEngine<HashRouter> {
    /// A sharded store that routes by id and hash.
    pub fn open(num_shards: usize) -> (r: Result<ShardedEngine<HashRouter>>)
        ensures
            num_shards == 0 ==> r is Err && r->Err_0 == StoreError::Corrupt(Corruption::NoShards),
            num_shards > 0 ==> r is Ok && r->Ok_0.wf() && r->Ok_0.shards() == num_shards
                && r->Ok_0.routing() == HashRouter,
    {
        ShardedEngine::open_with_router(num_shards, HashRouter)
    }
}

/// The sum of some numbers.
pub open spec fn sum(parts: Seq<u64>) -> nat
    decreases parts.len(),
{
    if parts.len() == 0 {
        0
    } else {
        sum(parts.drop_last()) + parts.last() as nat
    }
}

proof fn lemma_sum_grows(parts: Seq<u64>, k: nat)
    requires
        k <= parts.len(),
    ensures
        sum(parts.take(k as int)) <= sum(parts),
    decreases parts.len() - k,
{
    if k == parts.len() {
        assert(parts.take(k as int) =~= parts);
    } else {
        lemma_sum_grows(parts, k + 1);
        assert(parts.take(k as int + 1).drop_last() =~= parts.take(k as int));
    }
}

fn total(parts: &Vec<u64>) -> (r: u64)
    requires
        sum(parts@) <= u64::MAX,
    ensures
        r == sum(parts@),
{
    let mut t: u64 = 0;
    let mut i: usize = 0;
    while i < parts.len()
        invariant
            i <= parts@.len(),
            sum(parts@) <= u64::MAX,
            t == sum(parts@.take(i as int)),
        decreases parts@.len() - i,
    {
        proof {
            assert(parts@.take(i + 1).drop_last() =~= parts@.take(i as int));
            lemma_sum_grows(parts@, i as nat + 1);
        }
        t = t + parts[i];
        i = i + 1;
    }
    proof {
        assert(parts@.take(i as int) =~= parts@);
    }
    t
}

/// The bytes that all shards take on disk.
pub fn disk_bytes(parts: &Vec<u64>) -> (r: u64)
    requires
        sum(parts@) <= u64::MAX,
    ensures
        r == sum(parts@),
{
    total(parts)
}

/// What each shard counts; one without an index counts none.
pub open spec fn counts(parts: Seq<Option<u64>>) -> Seq<u64> {
    Seq::new(
        parts.len(),
        |i: int|
            match parts[i] {
                Some(n) => n,
                None => 0,
            },
    )
}

/// How many vectors are live in all shards.
pub fn vector_count(parts: &Vec<Option<u64>>) -> (r: u64)
    requires
        sum(counts(parts@)) <= u64::MAX,
    ensures
        r == sum(counts(parts@)),
{
    let mut each: Vec<u64> = Vec::new();
    let mut i: usize = 0;
    while i < parts.len()
        invariant
            i <= parts@.len(),
            each@ == counts(parts@).take(i as int),
        decreases parts@.len() - i,
    {
        let n: u64 = match parts[i] {
            Some(n) => n,
            None => 0,
        };
        each.push(n);
        i = i + 1;
        proof {
            assert(each@ =~= counts(parts@).take(i as int));
        }
    }
    proof {
        assert(each@ =~= counts(parts@));
    }
    total(&each)
}

/// The ids of all shards, one shard after the other.
pub open spec fn all_ids(parts: Seq<Vec<u64>>) -> Seq<u64>
    decreases parts.len(),
{
    if parts.len() == 0 {
        Seq::empty()
    } else {
        all_ids(parts.drop_last()) + parts.last()@
    }
}

/// The ids of the live vectors of all shards.
pub fn list_vector_ids(parts: &Vec<Vec<u64>>) -> (r: Vec<u64>)
    ensures
        r@ == all_ids(parts@),
{
    let mut all: Vec<u64> = Vec::new();
    let mut i: usize = 0;
    proof {
        assert(parts@.take(0) =~= Seq::<Vec<u64>>::empty());
    }
    while i < parts.len()
        invariant
            i <= parts@.len(),
            all@ == all_ids(parts@.take(i as int)),
        decreases parts@.len() - i,
    {
        let ghost before = all@;
        let part: &Vec<u64> = &parts[i];
        let mut j: usize = 0;
        proof {
            assert(before + part@.take(0) =~= before);
        }
        while j < part.len()
            invariant
                j <= part@.len(),
                all@ == before + part@.take(j as int),
            decreases part@.len() - j,
        {
            all.push(part[j]);
            j = j + 1;
            proof {
                assert(all@ =~= before + part@.take(j as int));
            }
        }
        proof {
            assert(part@.take(j as int) =~= part@);
            assert(parts@.take(i + 1).drop_last() =~= parts@.take(i as int));
        }
        i = i + 1;
    }
    proof {
        assert(parts@.take(i as int) =~= parts@);
    }
    all
}

/// A walk over all shards, in order, that ends at the first that fails.
pub struct ShardWalk {
    next: usize,
    total: usize,
}

impl ShardWalk {
    /// How many shards are done, of how many.
    pub closed spec fn progress(&self) -> (usize, usize) {
        (self.next, self.total)
    }

    pub fn begin(total: usize) -> (r: ShardWalk)
        ensures
            r.progress() == (0usize, total),
    {
        ShardWalk { next: 0, total }
    }

    /// The shard whose turn it is; `None` when all are done.
    pub fn current(&self) -> (r: Option<usize>)
        ensures
            r == (if self.progress().0 < self.progress().1 {
                Some(self.progress().0)
            } else {
                None
            }),
    {
        if self.next < self.total {
            Some(self.next)
        } else {
            None
        }
    }

    /// Takes the outcome of a shard: the walk goes on, or ends with the error.
    pub fn settle(&mut self, outcome: Result<()>) -> (r: Result<()>)
        requires
            old(self).progress().0 < old(self).progress().1,
        ensures
            outcome is Ok ==> r is Ok && final(self).progress() == (
                (old(self).progress().0 + 1) as usize,
                old(self).progress().1,
            ),
            outcome is Err ==> r is Err && r->Err_0 == outcome->Err_0 && final(self).progress()
                == old(self).progress(),
    {
        match outcome {
            Ok(()) => {
                self.next = self.next + 1;
                Ok(())
            },
            Err(e) => Err(e),
        }
    }
}

/// Every vector of a batch goes to exactly one shard: its place is in the bucket of that shard
/// and in no other.
pub proof fn batch_is_partitioned<R: ShardRouter>(
    router: &R,
    num_shards: usize,
    ids: Seq<u64>,
    shard: usize,
    k: nat,
)
    requires
        k <= ids.len(),
        ids.len() <= usize::MAX,
    ensures
        forall|i: usize| #[trigger]
            bucket_of(router, num_shards, ids, shard, k).contains(i) <==> i < k
                && router.vector_shard(ids[i as int], num_shards) == shard,
    decreases k,
{
    let b = bucket_of(router, num_shards, ids, shard, k);
    if k > 0 {
        let j = (k - 1) as nat;
        batch_is_partitioned(router, num_shards, ids, shard, j);
        let a = bucket_of(router, num_shards, ids, shard, j);
        assert forall|i: usize| #[trigger] b.contains(i) <==> i < k && router.vector_shard(
            ids[i as int],
            num_shards,
        ) == shard by {
            if a.contains(i) {
                let m = choose|m: int| 0 <= m < a.len() && a[m] == i;
                if b.len() > a.len() {
                    assert(b[m] == i);
                }
            }
            if router.vector_shard(ids[j as int], num_shards) == shard {
                assert(b[a.len() as int] == j);
            }
        }
    }
}

/// Whether `y` is below none of some results.
spec fn above_all(y: u32, s: Seq<(u64, u32)>) -> bool {
    forall|i: int| 0 <= i < s.len() ==> !below(y, (#[trigger] s[i]).1)
}

proof fn lemma_put_in(sorted: Seq<(u64, u32)>, x: (u64, u32))
    requires
        comparable(sorted),
        !is_nan(x.1),
        forall|i: int, j: int| 0 <= i < j < sorted.len() ==> !below(sorted[j].1, sorted[i].1),
    ensures
        put_in(sorted, x).to_multiset() == sorted.to_multiset().insert(x),
        forall|i: int, j: int|
            0 <= i < j < put_in(sorted, x).len() ==> !below(
                put_in(sorted, x)[j].1,
                put_in(sorted, x)[i].1,
            ),
        comparable(put_in(sorted, x)),
        put_in(sorted, x).len() == sorted.len() + 1,
        forall|y: u32|
            above_all(y, sorted) && !below(y, x.1) ==> #[trigger] above_all(y, put_in(sorted, x)),
    decreases sorted.len(),
{
    broadcast use vstd::seq_lib::group_to_multiset_ensures;

    let r = put_in(sorted, x);
    if sorted.len() == 0 {
        assert(r =~= Seq::<(u64, u32)>::empty().push(x));
        assert(sorted =~= Seq::<(u64, u32)>::empty());
    } else if below(x.1, sorted.last().1) {
        let init = sorted.drop_last();
        let last = sorted.last();
        lemma_put_in(init, x);
        let q = put_in(init, x);
        assert(sorted =~= init.push(last));
        assert(above_all(last.1, init));
        assert(above_all(last.1, q));
        assert(q.push(last).to_multiset() =~= q.to_multiset().insert(last));
        assert(init.push(last).to_multiset() =~= init.to_multiset().insert(last));
        assert(r.to_multiset() =~= sorted.to_multiset().insert(x));
        assert forall|y: u32| above_all(y, sorted) && !below(y, x.1) implies #[trigger] above_all(
            y,
            r,
        ) by {
            assert(above_all(y, init)) by {
                assert forall|i: int| 0 <= i < init.len() implies !below(
                    y,
                    (#[trigger] init[i]).1,
                ) by {
                    assert(sorted[i] == init[i]);
                }
            }
            assert(above_all(y, q));
            assert(!below(y, sorted[sorted.len() - 1].1));
        }
    } else {
        assert(r == sorted.push(x));
        assert forall|i: int, j: int| 0 <= i < j < r.len() implies !below(r[j].1, r[i].1) by {
            if j == sorted.len() && i < sorted.len() - 1 {
                assert(!below(sorted[sorted.len() - 1].1, sorted[i].1));
                lemma_not_below_transitive(sorted[i].1, sorted.last().1, x.1);
            }
        }
    }
}

/// Among numbers, not being below carries over.
proof fn lemma_not_below_transitive(a: u32, b: u32, c: u32)
    requires
        !is_nan(a),
        !is_nan(b),
        !is_nan(c),
        !below(b, a),
        !below(c, b),
    ensures
        !below(c, a),
{
}

proof fn lemma_sorted(all: Seq<(u64, u32)>)
    requires
        comparable(all),
    ensures
        sorted_by_distance(all).to_multiset() == all.to_multiset(),
        forall|i: int, j: int|
            0 <= i < j < sorted_by_distance(all).len() ==> !below(
                sorted_by_distance(all)[j].1,
                sorted_by_distance(all)[i].1,
            ),
        comparable(sorted_by_distance(all)),
        sorted_by_distance(all).len() == all.len(),
    decreases all.len(),
{
    broadcast use vstd::seq_lib::group_to_multiset_ensures;

    if all.len() > 0 {
        let init = all.drop_last();
        assert(comparable(init)) by {
            assert forall|i: int| 0 <= i < init.len() implies !is_nan((#[trigger] init[i]).1) by {
                assert(all[i] == init[i]);
            }
        }
        lemma_sorted(init);
        let s = sorted_by_distance(init);
        assert(!is_nan(all[all.len() - 1].1));
        lemma_put_in(s, all.last());
        assert(all =~= init.push(all.last()));
        assert(all.to_multiset() =~= init.to_multiset().insert(all.last()));
    } else {
        assert(sorted_by_distance(all) =~= all);
    }
}

/// A merged search is what a search of one store would be: the candidates of all shards, nearest
/// first, cut to `top_k`; no candidate that was left out is nearer than one that was returned.
pub proof fn merge_keeps_the_nearest(parts: Seq<Result<Vec<(u64, u32)>>>, top_k: nat)
    requires
        comparable(gathered(parts)),
    ensures
        ({
            let all = gathered(parts);
            let s = sorted_by_distance(all);
            let r = merged(parts, top_k);
            &&& s.to_multiset() == all.to_multiset()
            &&& r.len() == if all.len() < top_k {
                all.len()
            } else {
                top_k
            }
            &&& forall|i: int| 0 <= i < r.len() ==> r[i] == s[i]
            &&& forall|i: int, j: int| 0 <= i < j < s.len() ==> !below(s[j].1, s[i].1)
        }),
{
    lemma_sorted(gathered(parts));
}

/// Gathering goes shard by shard: what some shards and then others answered is what the first
/// answered followed by what the others did; one shard that answered gives its hits, one that
/// failed gives none.
pub proof fn gathering_goes_shard_by_shard(
    a: Seq<Result<Vec<(u64, u32)>>>,
    b: Seq<Result<Vec<(u64, u32)>>>,
    part: Result<Vec<(u64, u32)>>,
)
    ensures
        gathered(a + b) == gathered(a) + gathered(b),
        gathered(seq![part]) == (match part {
            Ok(found) => found@,
            Err(_) => Seq::<(u64, u32)>::empty(),
        }),
    decreases b.len(),
{
    let one = seq![part];
    assert(one.drop_last() =~= Seq::<Result<Vec<(u64, u32)>>>::empty());
    assert(gathered(one.drop_last()) =~= Seq::<(u64, u32)>::empty());
    assert(gathered(one) =~= (match part {
        Ok(found) => found@,
        Err(_) => Seq::<(u64, u32)>::empty(),
    }));
    if b.len() == 0 {
        assert(a + b =~= a);
        assert(gathered(a) + gathered(b) =~= gathered(a));
    } else {
        gathering_goes_shard_by_shard(a, b.drop_last(), part);
        assert((a + b).drop_last() =~= a + b.drop_last());
        assert(gathered(a + b) =~= gathered(a) + gathered(b));
    }
}

/// All hits of the shards that answered, as often as they came.
pub open spec fn hits(parts: Seq<Result<Vec<(u64, u32)>>>) -> vstd::multiset::Multiset<(u64, u32)>
    decreases parts.len(),
{
    if parts.len() == 0 {
        vstd::multiset::Multiset::empty()
    } else {
        match parts[0] {
            Ok(found) => found@.to_multiset().add(hits(parts.drop_first())),
            Err(_) => hits(parts.drop_first()),
        }
    }
}

/// Whether a hit stands in the answer of a shard.
pub open spec fn hit_by(parts: Seq<Result<Vec<(u64, u32)>>>, i: int, x: (u64, u32)) -> bool {
    0 <= i < parts.len() && parts[i] is Ok && parts[i]->Ok_0@.contains(x)
}

/// What is merged is what the shards answered: every hit of every shard that answered, as often
/// as it came, and nothing else.
pub proof fn gathering_loses_nothing(parts: Seq<Result<Vec<(u64, u32)>>>)
    ensures
        gathered(parts).to_multiset() == hits(parts),
        forall|x: (u64, u32)| #[trigger]
            gathered(parts).contains(x) <==> exists|i: int| hit_by(parts, i, x),
    decreases parts.len(),
{
    broadcast use vstd::seq_lib::group_to_multiset_ensures;

    if parts.len() == 0 {
        assert(gathered(parts).to_multiset() =~= hits(parts));
    } else {
        let head = seq![parts[0]];
        let tail = parts.drop_first();
        assert(parts =~= head + tail);
        gathering_goes_shard_by_shard(head, tail, parts[0]);
        gathering_loses_nothing(tail);
        let first = gathered(head);
        vstd::seq_lib::lemma_multiset_commutative(first, gathered(tail));
        assert(gathered(parts).to_multiset() =~= hits(parts)) by {
            if parts[0] is Err {
                assert(first + gathered(tail) =~= gathered(tail));
            }
        }
        assert forall|x: (u64, u32)| #[trigger] gathered(parts).contains(x) <==> exists|i: int|
            hit_by(parts, i, x) by {
            let all = first + gathered(tail);
            if gathered(parts).contains(x) {
                let k = choose|k: int| 0 <= k < all.len() && all[k] == x;
                if k < first.len() {
                    assert(first[k] == x);
                    assert(hit_by(parts, 0, x));
                } else {
                    assert(gathered(tail)[k - first.len()] == x);
                    assert(gathered(tail).contains(x));
                    let i = choose|i: int| hit_by(tail, i, x);
                    assert(hit_by(parts, i + 1, x));
                }
            }
            if exists|i: int| hit_by(parts, i, x) {
                let i = choose|i: int| hit_by(parts, i, x);
                if i == 0 {
                    let k = choose|k: int| 0 <= k < first.len() && first[k] == x;
                    assert(all[k] == x);
                } else {
                    assert(hit_by(tail, i - 1, x));
                    assert(gathered(tail).contains(x));
                    let k = choose|k: int| 0 <= k < gathered(tail).len() && gathered(tail)[k] == x;
                    assert(all[first.len() + k] == x);
                }
            }
        }
    }
}

/// Whether no shard that answered gave a distance that is not a number.
pub open spec fn all_numbers(parts: Seq<Result<Vec<(u64, u32)>>>) -> bool {
    forall|i: int, x: (u64, u32)| #[trigger] hit_by(parts, i, x) ==> !is_nan(x.1)
}

/// Answers can be merged exactly where every distance in every one of them is a number.
pub proof fn numbers_can_be_merged(parts: Seq<Result<Vec<(u64, u32)>>>)
    ensures
        comparable(gathered(parts)) <==> all_numbers(parts),
{
    gathering_loses_nothing(parts);
    let all = gathered(parts);
    if comparable(all) {
        assert forall|i: int, x: (u64, u32)| #[trigger] hit_by(parts, i, x) implies !is_nan(
            x.1,
        ) by {
            assert(all.contains(x));
            let k = choose|k: int| 0 <= k < all.len() && all[k] == x;
            assert(!is_nan(all[k].1));
        }
    }
    if all_numbers(parts) {
        assert forall|k: int| 0 <= k < all.len() implies !is_nan((#[trigger] all[k]).1) by {
            assert(all.contains(all[k]));
            let i = choose|i: int| hit_by(parts, i, all[k]);
            assert(hit_by(parts, i, all[k]));
        }
    }
}

/// A merged search gives the nearest of all hits of all shards: as many as were asked for, or
/// all there are; each of them a hit of some shard, none more often than it came; the nearest
/// first; and no hit of any shard that answered is nearer than one that is returned, unless it is
/// returned too.
pub proof fn merged_answer_is_the_nearest_of_all(
    parts: Seq<Result<Vec<(u64, u32)>>>,
    top_k: nat,
)
    requires
        all_numbers(parts),
    ensures
        ({
            let r = merged(parts, top_k);
            &&& r.len() == (if hits(parts).len() < top_k {
                hits(parts).len()
            } else {
                top_k
            })
            &&& r.to_multiset().subset_of(hits(parts))
            &&& forall|a: int, b: int| 0 <= a < b < r.len() ==> !below(r[b].1, r[a].1)
            &&& forall|i: int, x: (u64, u32), a: int| #[trigger]
                hit_by(parts, i, x) && 0 <= a < r.len() && below(x.1, (#[trigger] r[a]).1)
                    ==> r.contains(x)
        }),
{
    broadcast use vstd::seq_lib::group_to_multiset_ensures;

    let all = gathered(parts);
    let s = sorted_by_distance(all);
    let r = merged(parts, top_k);
    numbers_can_be_merged(parts);
    gathering_loses_nothing(parts);
    merge_keeps_the_nearest(parts, top_k);
    lemma_sorted(all);
    assert(all.to_multiset().len() == all.len());
    assert(r =~= s.take(r.len() as int));
    assert(s =~= r + s.skip(r.len() as int));
    vstd::seq_lib::lemma_multiset_commutative(r, s.skip(r.len() as int));
    assert forall|i: int, x: (u64, u32), a: int| #[trigger]
        hit_by(parts, i, x) && 0 <= a < r.len() && below(x.1, (#[trigger] r[a]).1)
        implies r.contains(x) by {
        assert(all.contains(x));
        assert(all.to_multiset().count(x) > 0);
        assert(s.contains(x));
        let k = choose|k: int| 0 <= k < s.len() && s[k] == x;
        if k >= r.len() {
            assert(!below(s[k].1, s[a].1));
        }
        assert(r[k] == x);
    }
}

/// Hits that are equally far keep the order in which their shards gave them.
pub proof fn sorting_is_stable(all: Seq<(u64, u32)>, bits: u32)
    requires
        comparable(all),
    ensures
        sorted_by_distance(all).filter(|x: (u64, u32)| x.1 == bits) == all.filter(
            |x: (u64, u32)| x.1 == bits,
        ),
    decreases all.len(),
{
    let f = |x: (u64, u32)| x.1 == bits;
    if all.len() > 0 {
        let init = all.drop_last();
        assert(comparable(init)) by {
            assert forall|i: int| 0 <= i < init.len() implies !is_nan((#[trigger] init[i]).1) by {
                assert(all[i] == init[i]);
            }
        }
        sorting_is_stable(init, bits);
        lemma_sorted(init);
        assert(!is_nan(all[all.len() - 1].1));
        lemma_put_in_stable(sorted_by_distance(init), all.last(), bits);
        assert(all =~= init.push(all.last()));
        reveal(Seq::filter);
    } else {
        assert(sorted_by_distance(all) =~= all);
    }
}

proof fn lemma_put_in_stable(sorted: Seq<(u64, u32)>, x: (u64, u32), bits: u32)
    requires
        comparable(sorted),
        !is_nan(x.1),
        forall|i: int, j: int| 0 <= i < j < sorted.len() ==> !below(sorted[j].1, sorted[i].1),
    ensures
        ({
            let f = |y: (u64, u32)| y.1 == bits;
            put_in(sorted, x).filter(f) == (if x.1 == bits {
                sorted.filter(f).push(x)
            } else {
                sorted.filter(f)
            })
        }),
    decreases sorted.len(),
{
    let f = |y: (u64, u32)| y.1 == bits;
    reveal(Seq::filter);
    if sorted.len() == 0 {
        let one = seq![x];
        assert(one.drop_last() =~= Seq::<(u64, u32)>::empty());
        assert(sorted.filter(f) =~= Seq::<(u64, u32)>::empty());
        assert(one.drop_last().filter(f) =~= Seq::<(u64, u32)>::empty());
        assert(put_in(sorted, x) == one);
        if x.1 == bits {
            assert(one.filter(f) =~= sorted.filter(f).push(x));
        }
    } else if below(x.1, sorted.last().1) {
        let init = sorted.drop_last();
        let q = put_in(init, x);
        assert(comparable(init)) by {
            assert forall|i: int| 0 <= i < init.len() implies !is_nan((#[trigger] init[i]).1) by {
                assert(sorted[i] == init[i]);
            }
        }
        lemma_put_in_stable(init, x, bits);
        assert(q.push(sorted.last()).drop_last() =~= q);
    } else {
        assert(sorted.push(x).drop_last() =~= sorted);
    }
}

/// A search is refused for a wrong dimension exactly where some shard says so, with what the
/// first such shard says.
pub proof fn mismatch_is_the_first_there_is(parts: Seq<Result<Vec<(u64, u32)>>>, i: nat)
    ensures
        match first_mismatch(parts, i) {
            None => forall|j: int|
                i <= j < parts.len() ==> !((#[trigger] parts[j]) is Err && parts[j]->Err_0
                    is DimensionMismatch),
            Some(e) => e is DimensionMismatch && exists|k: int|
                i <= k < parts.len() && (#[trigger] parts[k]) is Err && parts[k]->Err_0 == e
                    && forall|j: int|
                    i <= j < k ==> !((#[trigger] parts[j]) is Err && parts[j]->Err_0
                        is DimensionMismatch),
        },
    decreases parts.len() - i,
{
    if i < parts.len() {
        let bad = parts[i as int] is Err && parts[i as int]->Err_0 is DimensionMismatch;
        if !bad {
            mismatch_is_the_first_there_is(parts, i + 1);
            match first_mismatch(parts, i + 1) {
                None => {},
                Some(e) => {
                    let k = choose|k: int|
                        i + 1 <= k < parts.len() && (#[trigger] parts[k]) is Err
                            && parts[k]->Err_0 == e && forall|j: int|
                            i + 1 <= j < k ==> !((#[trigger] parts[j]) is Err
                                && parts[j]->Err_0 is DimensionMismatch);
                    assert(parts[k] is Err);
                },
            }
        } else {
            assert(parts[i as int] is Err && parts[i as int]->Err_0 == first_mismatch(
                parts,
                i,
            )->Some_0);
        }
    }
}

/// The vectors of a batch keep their order within a shard.
pub proof fn buckets_keep_the_order<R: ShardRouter>(
    router: &R,
    num_shards: usize,
    ids: Seq<u64>,
    shard: usize,
    k: nat,
)
    requires
        k <= ids.len(),
        ids.len() <= usize::MAX,
    ensures
        forall|a: int, b: int|
            0 <= a < b < bucket_of(router, num_shards, ids, shard, k).len() ==> bucket_of(
                router,
                num_shards,
                ids,
                shard,
                k,
            )[a] < bucket_of(router, num_shards, ids, shard, k)[b],
    decreases k,
{
    if k > 0 {
        let j = (k - 1) as nat;
        buckets_keep_the_order(router, num_shards, ids, shard, j);
        batch_is_partitioned(router, num_shards, ids, shard, j);
        let a = bucket_of(router, num_shards, ids, shard, j);
        assert forall|m: int| 0 <= m < a.len() implies a[m] < j by {
            assert(a.contains(a[m]));
        }
    }
}

/// A vector goes to the shard that its id names, counted round: an id below the number of shards
/// to the shard of that number, and an id that is so much higher to the same shard.
pub proof fn vectors_go_round_the_shards(id: u64, num_shards: usize)
    requires
        num_shards > 0,
    ensures
        HashRouter.vector_shard(id, num_shards) < num_shards,
        id < num_shards ==> HashRouter.vector_shard(id, num_shards) == id,
        id + num_shards <= u64::MAX ==> HashRouter.vector_shard(
            (id + num_shards) as u64,
            num_shards,
        ) == HashRouter.vector_shard(id, num_shards),
{
    let n = num_shards as int;
    let x = id as int;
    vstd::arithmetic::div_mod::lemma_mod_bound(x, n);
    if id < num_shards {
        vstd::arithmetic::div_mod::lemma_small_mod(id as nat, num_shards as nat);
    }
    if id + num_shards <= u64::MAX {
        vstd::arithmetic::div_mod::lemma_mod_bound(x + n, n);
        vstd::arithmetic::div_mod::lemma_mod_multiples_vanish(1, x, n);
    }
}

/// A key goes to a shard by its hash, as a vector with that id would.
pub proof fn keys_go_by_their_hash(key: &[u8], num_shards: usize)
    ensures
        HashRouter.key_shard(key, num_shards) == HashRouter.vector_shard(
            fnv1a(key@),
            num_shards,
        ),
{
}

/// Adding up goes part by part.
pub proof fn sums_add_up(a: Seq<u64>, b: Seq<u64>, x: u64)
    ensures
        sum(a + b) == sum(a) + sum(b),
        sum(seq![x]) == x,
    decreases b.len(),
{
    let one = seq![x];
    assert(one.drop_last() =~= Seq::<u64>::empty());
    assert(sum(one.drop_last()) == 0);
    if b.len() == 0 {
        assert(a + b =~= a);
    } else {
        sums_add_up(a, b.drop_last(), x);
        assert((a + b).drop_last() =~= a + b.drop_last());
    }
}

/// Each shard counts what it says, or nothing where it has no index.
pub proof fn shards_count_what_they_say(parts: Seq<Option<u64>>, i: int)
    requires
        0 <= i < parts.len(),
    ensures
        counts(parts).len() == parts.len(),
        parts[i] is Some ==> counts(parts)[i] == parts[i]->Some_0,
        parts[i] is None ==> counts(parts)[i] == 0,
{
}

/// The ids of all shards are listed shard by shard, each as it lists them.
pub proof fn ids_are_listed_shard_by_shard(a: Seq<Vec<u64>>, b: Seq<Vec<u64>>, part: Vec<u64>)
    ensures
        all_ids(a + b) == all_ids(a) + all_ids(b),
        all_ids(seq![part]) == part@,
    decreases b.len(),
{
    let one = seq![part];
    assert(one.drop_last() =~= Seq::<Vec<u64>>::empty());
    assert(all_ids(one.drop_last()) =~= Seq::<u64>::empty());
    assert(all_ids(one) =~= part@);
    if b.len() == 0 {
        assert(a + b =~= a);
        assert(all_ids(a) + all_ids(b) =~= all_ids(a));
    } else {
        ids_are_listed_shard_by_shard(a, b.drop_last(), part);
        assert((a + b).drop_last() =~= a + b.drop_last());
        assert(all_ids(a + b) =~= all_ids(a) + all_ids(b));
    }
}

/// Shards lie in directories of their own.
pub proof fn shards_have_directories_of_their_own(a: nat, b: nat)
    requires
        shard_dir_name(a) == shard_dir_name(b),
    ensures
        a == b,
{
    let before = "shard_"@;
    let x = shard_dir_name(a);
    let y = shard_dir_name(b);
    assert(dec(a) =~= x.skip(before.len() as int));
    assert(dec(b) =~= y.skip(before.len() as int));
    crate::text::decimal_text_is_one_to_one(a, b);
}

} // verus!
