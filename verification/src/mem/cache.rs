//! Which sealed segments stay mapped: the least recently used go first, but never one that a
//! reader holds.

use std::collections::{HashSet, VecDeque};
use vstd::prelude::*;
use vstd::std_specs::iter::IteratorSpec;

verus! {

broadcast use vstd::std_specs::hash::group_hash_axioms;

/// How many segments stay mapped while none is held.
pub const SEALED_CACHE_CAP: usize = 64;

/// The mapped segments, and their numbers in order of use, the least recent first.
pub struct CacheView {
    pub mapped: Set<u32>,
    pub lru: Seq<u32>,
}

/// What readers hold, as a closure says.
pub open spec fn held_fn<H: Fn(u32) -> bool>(held: H) -> spec_fn(u32) -> bool {
    |id: u32| choose|b: bool| held.ensures((id,), b)
}

/// A closure that says of each segment whether readers hold it.
pub open spec fn tells<H: Fn(u32) -> bool>(held: H) -> bool {
    &&& forall|id: u32| #[trigger] held.requires((id,))
    &&& forall|id: u32, x: bool, y: bool| #[trigger]
        held.ensures((id,), x) && #[trigger] held.ensures((id,), y) ==> x == y
}

/// Lets go of segments from the least recent on while there are too many. One that cannot go
/// moves to the end; `skips` bounds how often that happens.
pub open spec fn evicted(c: CacheView, held: spec_fn(u32) -> bool, skips: nat) -> CacheView
    decreases c.lru.len() + skips,
{
    if c.lru.len() <= SEALED_CACHE_CAP || skips == 0 {
        c
    } else if c.mapped.contains(c.lru[0]) && !held(c.lru[0]) {
        evicted(
            CacheView { mapped: c.mapped.remove(c.lru[0]), lru: c.lru.skip(1) },
            held,
            skips,
        )
    } else {
        evicted(
            CacheView { mapped: c.mapped, lru: c.lru.skip(1).push(c.lru[0]) },
            held,
            (skips - 1) as nat,
        )
    }
}

/// The cache after a segment has been mapped.
pub open spec fn mapped_in(c: CacheView, id: u32) -> CacheView {
    CacheView { mapped: c.mapped.insert(id), lru: c.lru.push(id) }
}

/// The place of the first `id` in `s`; the length of `s` where there is none.
pub open spec fn first_at(s: Seq<u32>, id: u32) -> nat
    decreases s.len(),
{
    if s.len() == 0 || s[0] == id {
        0
    } else {
        1 + first_at(s.skip(1), id)
    }
}

/// The cache after a segment has been used: its first mention moves to the end.
pub open spec fn touched(c: CacheView, id: u32) -> CacheView {
    let at = first_at(c.lru, id);
    if at < c.lru.len() {
        CacheView { mapped: c.mapped, lru: c.lru.remove(at as int).push(id) }
    } else {
        c
    }
}

/// The mapped sealed segments.
pub struct SealedCache {
    mapped: HashSet<u32>,
    lru: VecDeque<u32>,
}

impl View for SealedCache {
    type V = CacheView;

    closed spec fn view(&self) -> CacheView {
        CacheView { mapped: self.mapped@, lru: self.lru@ }
    }
}

impl SealedCache {
    pub fn new() -> (r: SealedCache)
        ensures
            r@ == (CacheView { mapped: Set::empty(), lru: Seq::empty() }),
    {
        SealedCache { mapped: HashSet::new(), lru: VecDeque::new() }
    }

    /// Whether a segment is mapped.
    pub fn contains(&self, id: u32) -> (r: bool)
        ensures
            r == self@.mapped.contains(id),
    {
        self.mapped.contains(&id)
    }

    /// How many segments are mapped.
    pub fn len(&self) -> (r: usize)
        ensures
            r == self@.mapped.len(),
    {
        self.mapped.len()
    }

    /// The mapped segments, in no particular order.
    pub fn mapped_ids(&self) -> (r: Vec<u32>)
        ensures
            r@.to_set() == self@.mapped,
            r@.no_duplicates(),
    {
        let mut out: Vec<u32> = Vec::new();
        for id in it: self.mapped.iter()
            invariant
                out@ == it.seq().unref().take(it.index() as int),
        {
            out.push(*id);
            proof {
                assert(out@ =~= it.seq().unref().take(it.index() + 1));
            }
        }
        proof {
            let all = vstd::std_specs::hash::spec_hash_keys_iter(&self.mapped).remaining();
            assert(out@ =~= all.unref());
            assert forall|i: int, j: int| 0 <= i < j < out@.len() implies out@[i] != out@[j] by {
                assert(all[i] != all[j]);
            }
        }
        out
    }

    /// Notes that a segment has been mapped.
    pub fn insert(&mut self, id: u32)
        ensures
            final(self)@ == mapped_in(old(self)@, id),
    {
        self.mapped.insert(id);
        self.lru.push_back(id);
    }

    /// Notes that a segment is no longer mapped.
    pub fn drop_sealed(&mut self, id: u32)
        ensures
            final(self)@ == dropped(old(self)@, id),
    {
        self.mapped.remove(&id);
        let at: usize = self.position(id);
        if at < self.lru.len() {
            self.lru.remove(at);
        }
    }

    fn position(&self, id: u32) -> (r: usize)
        ensures
            r == first_at(self@.lru, id),
            r <= self@.lru.len(),
    {
        let mut i: usize = 0;
        proof {
            assert(self.lru@.skip(0) =~= self.lru@);
        }
        while i < self.lru.len() && self.lru[i] != id
            invariant
                i <= self.lru@.len(),
                first_at(self.lru@, id) == i + first_at(self.lru@.skip(i as int), id),
            decreases self.lru@.len() - i,
        {
            proof {
                assert(self.lru@.skip(i as int).skip(1) =~= self.lru@.skip(i + 1));
                assert(self.lru@.skip(i as int)[0] == self.lru@[i as int]);
            }
            i = i + 1;
        }
        proof {
            if i < self.lru@.len() {
                assert(self.lru@.skip(i as int)[0] == self.lru@[i as int]);
            }
        }
        i
    }

    /// Notes that a segment has been used.
    pub fn touch_sealed(&mut self, id: u32)
        ensures
            final(self)@ == touched(old(self)@, id),
    {
        let at: usize = self.position(id);
        if at < self.lru.len() {
            self.lru.remove(at);
            self.lru.push_back(id);
        }
    }

    /// Lets go of segments while too many are mapped, passing over those that are held.
    /// Returns those that went.
    pub fn evict_sealed<H: Fn(u32) -> bool>(&mut self, held: &H) -> (gone: Vec<u32>)
        requires
            tells(*held),
        ensures
            final(self)@ == evicted(old(self)@, held_fn(*held), old(self)@.lru.len()),
            gone@.to_set() == old(self)@.mapped.difference(final(self)@.mapped),
    {
        let skips: usize = self.lru.len();
        self.evict_passing(held, skips)
    }

    /// Lets go of segments while too many are mapped, up to `skips` that are held.
    pub fn evict_passing<H: Fn(u32) -> bool>(&mut self, held: &H, skips: usize) -> (gone: Vec<u32>)
        requires
            tells(*held),
        ensures
            final(self)@ == evicted(old(self)@, held_fn(*held), skips as nat),
            gone@.to_set() == old(self)@.mapped.difference(final(self)@.mapped),
    {
        let ghost start = self@;
        let ghost h = held_fn(*held);
        let mut gone: Vec<u32> = Vec::new();
        let total: usize = skips;
        let mut skipped: usize = 0;
        proof {
            assert(gone@.to_set() =~= start.mapped.difference(self@.mapped));
        }
        while self.lru.len() > SEALED_CACHE_CAP && skipped < total
            invariant
                tells(*held),
                h == held_fn(*held),
                skipped <= total,
                evicted(self@, h, (total - skipped) as nat) == evicted(start, h, total as nat),
                self@.mapped.subset_of(start.mapped),
                gone@.to_set() == start.mapped.difference(self@.mapped),
            decreases self.lru@.len() + total - skipped,
        {
            let ghost before = self@;
            let ghost gone0 = gone@;
            let id: u32 = match self.lru.pop_front() {
                Some(id) => id,
                None => {
                    return gone;
                },
            };
            proof {
                assert(self.lru@ =~= before.lru.skip(1));
            }
            if self.mapped.contains(&id) && !(*held)(id) {
                self.mapped.remove(&id);
                gone.push(id);
                proof {
                    assert(gone@.to_set() =~= gone0.to_set().insert(id)) by {
                        assert forall|x: u32| gone@.to_set().contains(x) == gone0.to_set().insert(
                            id,
                        ).contains(x) by {
                            if gone0.contains(x) {
                                let k = choose|k: int| 0 <= k < gone0.len() && gone0[k] == x;
                                assert(gone@[k] == x);
                            }
                            assert(gone@[gone0.len() as int] == id);
                        }
                    }
                    assert(gone@.to_set() =~= start.mapped.difference(self@.mapped));
                }
            } else {
                self.lru.push_back(id);
                skipped = skipped + 1;
            }
        }
        gone
    }
}

/// The cache after a segment has been let go of on request.
pub open spec fn dropped(c: CacheView, id: u32) -> CacheView {
    let at = first_at(c.lru, id);
    CacheView {
        mapped: c.mapped.remove(id),
        lru: if at < c.lru.len() {
            c.lru.remove(at as int)
        } else {
            c.lru
        },
    }
}

/// A segment that is held stays mapped.
pub proof fn held_segments_stay(c: CacheView, held: spec_fn(u32) -> bool, skips: nat)
    ensures
        evicted(c, held, skips).mapped.subset_of(c.mapped),
        forall|id: u32| #[trigger]
            c.mapped.contains(id) && held(id) ==> evicted(c, held, skips).mapped.contains(id),
    decreases c.lru.len() + skips,
{
    if c.lru.len() > SEALED_CACHE_CAP && skips > 0 {
        if c.mapped.contains(c.lru[0]) && !held(c.lru[0]) {
            held_segments_stay(
                CacheView { mapped: c.mapped.remove(c.lru[0]), lru: c.lru.skip(1) },
                held,
                skips,
            );
        } else {
            held_segments_stay(
                CacheView { mapped: c.mapped, lru: c.lru.skip(1).push(c.lru[0]) },
                held,
                (skips - 1) as nat,
            );
        }
    }
}

/// Eviction maps nothing.
pub proof fn eviction_only_removes(c: CacheView, held: spec_fn(u32) -> bool, skips: nat)
    ensures
        evicted(c, held, skips).mapped.subset_of(c.mapped),
    decreases c.lru.len() + skips,
{
    if c.lru.len() > SEALED_CACHE_CAP && skips > 0 {
        if c.mapped.contains(c.lru[0]) && !held(c.lru[0]) {
            eviction_only_removes(
                CacheView { mapped: c.mapped.remove(c.lru[0]), lru: c.lru.skip(1) },
                held,
                skips,
            );
        } else {
            eviction_only_removes(
                CacheView { mapped: c.mapped, lru: c.lru.skip(1).push(c.lru[0]) },
                held,
                (skips - 1) as nat,
            );
        }
    }
}

/// A segment that eviction cannot let go of: held, or not mapped any more.
pub open spec fn stuck(c: CacheView, held: spec_fn(u32) -> bool, id: u32) -> bool {
    !c.mapped.contains(id) || held(id)
}

proof fn lemma_evicted_or_stuck(c: CacheView, held: spec_fn(u32) -> bool, skips: nat, k: nat)
    requires
        k <= c.lru.len(),
        k + skips >= c.lru.len(),
        forall|i: int| c.lru.len() - k <= i < c.lru.len() ==> stuck(c, held, #[trigger] c.lru[i]),
    ensures
        ({
            let r = evicted(c, held, skips);
            r.lru.len() <= SEALED_CACHE_CAP || forall|i: int|
                0 <= i < r.lru.len() ==> stuck(r, held, #[trigger] r.lru[i])
        }),
    decreases c.lru.len() + skips,
{
    if c.lru.len() > SEALED_CACHE_CAP && skips > 0 {
        let first = c.lru[0];
        if c.mapped.contains(first) && !held(first) {
            let next = CacheView { mapped: c.mapped.remove(first), lru: c.lru.skip(1) };
            let k2 = if k > next.lru.len() {
                next.lru.len()
            } else {
                k
            };
            assert forall|i: int| next.lru.len() - k2 <= i < next.lru.len() implies stuck(
                next,
                held,
                #[trigger] next.lru[i],
            ) by {
                assert(next.lru[i] == c.lru[i + 1]);
            }
            lemma_evicted_or_stuck(next, held, skips, k2);
            assert(evicted(c, held, skips) == evicted(next, held, skips));
        } else {
            let next = CacheView { mapped: c.mapped, lru: c.lru.skip(1).push(first) };
            let k2 = if k + 1 > next.lru.len() {
                next.lru.len()
            } else {
                k + 1
            };
            assert forall|i: int| next.lru.len() - k2 <= i < next.lru.len() implies stuck(
                next,
                held,
                #[trigger] next.lru[i],
            ) by {
                if i < next.lru.len() - 1 {
                    assert(next.lru[i] == c.lru[i + 1]);
                }
            }
            lemma_evicted_or_stuck(next, held, (skips - 1) as nat, k2);
            assert(evicted(c, held, skips) == evicted(next, held, (skips - 1) as nat));
        }
    } else {
        assert(evicted(c, held, skips) == c);
        assert(skips == 0 ==> k == c.lru.len());
    }
}

/// A held segment does not stop eviction: one full round leaves no more segments than the
/// limit, or only such as cannot go.
pub proof fn eviction_goes_past_held_segments(c: CacheView, held: spec_fn(u32) -> bool)
    ensures
        ({
            let r = evicted(c, held, c.lru.len());
            r.lru.len() <= SEALED_CACHE_CAP || forall|i: int|
                0 <= i < r.lru.len() ==> stuck(r, held, #[trigger] r.lru[i])
        }),
{
    lemma_evicted_or_stuck(c, held, c.lru.len(), 0);
}

/// The first mention is one, and none comes before it.
pub proof fn first_mention_is_the_first(s: Seq<u32>, id: u32)
    ensures
        first_at(s, id) <= s.len(),
        first_at(s, id) < s.len() ==> s[first_at(s, id) as int] == id,
        forall|i: int| 0 <= i < first_at(s, id) ==> #[trigger] s[i] != id,
        s.contains(id) <==> first_at(s, id) < s.len(),
    decreases s.len(),
{
    if s.len() > 0 && s[0] != id {
        first_mention_is_the_first(s.skip(1), id);
        assert forall|i: int| 0 <= i < first_at(s, id) implies #[trigger] s[i] != id by {
            if i > 0 {
                assert(s.skip(1)[i - 1] == s[i]);
            }
        }
    }
    if s.contains(id) {
        let i = choose|i: int| 0 <= i < s.len() && s[i] == id;
        assert(s[i] == id);
    }
}

/// Using a segment makes it the most recent and changes nothing else: the others keep their
/// order, and the same segments are mapped. One that is not in the list stays out of it.
pub proof fn used_segments_become_the_most_recent(c: CacheView, id: u32)
    ensures
        touched(c, id).mapped == c.mapped,
        touched(c, id).lru.len() == c.lru.len(),
        !c.lru.contains(id) ==> touched(c, id).lru == c.lru,
        c.lru.contains(id) ==> touched(c, id).lru.last() == id && exists|at: int|
            0 <= at < c.lru.len() && c.lru[at] == id && touched(c, id).lru.drop_last()
                == #[trigger] c.lru.remove(at),
{
    first_mention_is_the_first(c.lru, id);
    let at = first_at(c.lru, id) as int;
    if c.lru.contains(id) {
        assert(touched(c, id).lru.drop_last() =~= c.lru.remove(at));
    }
}

/// A segment that is dropped is no longer mapped, and no other segment is concerned.
pub proof fn dropping_concerns_one_segment(c: CacheView, id: u32)
    ensures
        dropped(c, id).mapped == c.mapped.remove(id),
        !c.lru.contains(id) ==> dropped(c, id).lru == c.lru,
        c.lru.contains(id) ==> exists|at: int|
            0 <= at < c.lru.len() && c.lru[at] == id && dropped(c, id).lru
                == #[trigger] c.lru.remove(at),
{
    first_mention_is_the_first(c.lru, id);
    let at = first_at(c.lru, id) as int;
    if c.lru.contains(id) {
        assert(dropped(c, id).lru == c.lru.remove(at));
    }
}

/// While none is held, the 64 most recently used segments stay and all others go; a cache of no
/// more than 64 stays as it is.
pub proof fn the_most_recent_stay(c: CacheView, held: spec_fn(u32) -> bool, skips: nat)
    requires
        skips > 0,
        c.lru.no_duplicates(),
        forall|i: int|
            0 <= i < c.lru.len() ==> c.mapped.contains(#[trigger] c.lru[i]) && !held(c.lru[i]),
    ensures
        c.lru.len() <= 64 ==> evicted(c, held, skips) == c,
        c.lru.len() > 64 ==> evicted(c, held, skips).lru == c.lru.skip(c.lru.len() - 64),
        forall|id: u32| #[trigger]
            evicted(c, held, skips).mapped.contains(id) <==> c.mapped.contains(id) && (
            !c.lru.contains(id) || evicted(c, held, skips).lru.contains(id)),
    decreases c.lru.len(),
{
    let r = evicted(c, held, skips);
    if c.lru.len() > 64 {
        let first = c.lru[0];
        let next = CacheView { mapped: c.mapped.remove(first), lru: c.lru.skip(1) };
        assert forall|i: int| 0 <= i < next.lru.len() implies next.mapped.contains(
            #[trigger] next.lru[i],
        ) && !held(next.lru[i]) by {
            assert(next.lru[i] == c.lru[i + 1]);
        }
        assert forall|i: int, j: int| 0 <= i < j < next.lru.len() implies next.lru[i]
            != next.lru[j] by {
            assert(next.lru[i] == c.lru[i + 1] && next.lru[j] == c.lru[j + 1]);
        }
        the_most_recent_stay(next, held, skips);
        assert(r == evicted(next, held, skips));
        if next.lru.len() > 64 {
            assert(next.lru.skip(next.lru.len() - 64) =~= c.lru.skip(c.lru.len() - 64));
        } else {
            assert(next.lru =~= c.lru.skip(c.lru.len() - 64));
        }
        assert forall|id: u32| #[trigger]
            r.mapped.contains(id) <==> c.mapped.contains(id) && (!c.lru.contains(id)
                || r.lru.contains(id)) by {
            assert(r.mapped.contains(id) <==> next.mapped.contains(id) && (!next.lru.contains(id)
                || r.lru.contains(id)));
            if c.lru.contains(id) && id != first {
                let i = choose|i: int| 0 <= i < c.lru.len() && c.lru[i] == id;
                assert(next.lru[i - 1] == id);
            }
            if next.lru.contains(id) {
                let i = choose|i: int| 0 <= i < next.lru.len() && next.lru[i] == id;
                assert(c.lru[i + 1] == id);
            }
            if id == first {
                assert(c.lru.contains(id));
                if r.lru.contains(id) {
                    let i = choose|i: int| 0 <= i < r.lru.len() && r.lru[i] == id;
                    assert(c.lru[i + (c.lru.len() - 64)] == id);
                }
            }
        }
    }
}

} // verus!
