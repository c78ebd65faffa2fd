//! Where the vectors stand: a table of locators that keeps the order in which they came.

use std::collections::HashMap;
use vstd::prelude::*;
use crate::mem::segment::ValueLocator;

verus! {

broadcast use vstd::std_specs::hash::group_hash_axioms;

/// The ids in order, and their locators.
pub struct TableView {
    pub order: Seq<u64>,
    pub locs: Map<u64, ValueLocator>,
}

impl TableView {
    /// The order names each id once.
    pub open spec fn ordered(self) -> bool {
        &&& self.order.no_duplicates()
        &&& forall|id: u64| self.order.contains(id) <==> self.locs.contains_key(id)
    }

    /// The table with a locator put in, or put in the place of one.
    pub open spec fn with(self, id: u64, loc: ValueLocator) -> TableView {
        TableView {
            order: if self.locs.contains_key(id) {
                self.order
            } else {
                self.order.push(id)
            },
            locs: self.locs.insert(id, loc),
        }
    }

    pub open spec fn empty() -> TableView {
        TableView { order: Seq::empty(), locs: Map::empty() }
    }
}

/// A table of the first `k` of some entries; a later one takes the place of an earlier one.
pub open spec fn table_of(entries: Seq<(u64, ValueLocator)>, k: nat) -> TableView
    decreases k,
{
    if k == 0 {
        TableView::empty()
    } else {
        table_of(entries, (k - 1) as nat).with(entries[k - 1].0, entries[k - 1].1)
    }
}

/// Locators by id.
pub struct LocatorTable {
    entries: Vec<(u64, ValueLocator)>,
    index: HashMap<u64, usize>,
}

impl View for LocatorTable {
    type V = TableView;

    closed spec fn view(&self) -> TableView {
        TableView {
            order: Seq::new(self.entries@.len(), |i: int| self.entries@[i].0),
            locs: Map::new(
                |id: u64| self.index@.contains_key(id),
                |id: u64| self.entries@[self.index@[id] as int].1,
            ),
        }
    }
}

impl LocatorTable {
    /// The index finds every entry where it stands.
    pub closed spec fn wf(&self) -> bool {
        &&& forall|i: int|
            0 <= i < self.entries@.len() ==> self.index@.contains_key(
                (#[trigger] self.entries@[i]).0,
            ) && self.index@[self.entries@[i].0] == i
        &&& forall|id: u64| #[trigger]
            self.index@.contains_key(id) ==> self.index@[id] < self.entries@.len()
                && self.entries@[self.index@[id] as int].0 == id
    }

    pub proof fn lemma_ordered(&self)
        requires
            self.wf(),
        ensures
            self@.ordered(),
    {
        let v = self@;
        assert forall|id: u64| v.order.contains(id) <==> v.locs.contains_key(id) by {
            if v.order.contains(id) {
                let i = choose|i: int| 0 <= i < v.order.len() && v.order[i] == id;
                assert(self.entries@[i].0 == id);
            }
            if v.locs.contains_key(id) {
                assert(v.order[self.index@[id] as int] == id);
            }
        }
        assert forall|i: int, j: int|
            0 <= i < j < v.order.len() implies v.order[i] != v.order[j] by {
            assert(self.index@[self.entries@[i].0] == i);
            assert(self.index@[self.entries@[j].0] == j);
        }
    }

    pub fn new() -> (r: LocatorTable)
        ensures
            r.wf(),
            r@ == TableView::empty(),
    {
        let r = LocatorTable { entries: Vec::new(), index: HashMap::new() };
        proof {
            assert(r@.order =~= Seq::empty());
            assert(r@.locs =~= Map::empty());
        }
        r
    }

    pub fn len(&self) -> (r: usize)
        ensures
            r == self@.order.len(),
    {
        self.entries.len()
    }

    /// The entry at a place of the order.
    pub fn entry(&self, i: usize) -> (r: (u64, ValueLocator))
        requires
            self.wf(),
            i < self@.order.len(),
        ensures
            r.0 == self@.order[i as int],
            r.1 == self@.locs[r.0],
            self@.locs.contains_key(r.0),
    {
        proof {
            assert(self.index@.contains_key(self.entries@[i as int].0));
        }
        self.entries[i]
    }

    pub fn get(&self, id: u64) -> (r: Option<ValueLocator>)
        requires
            self.wf(),
        ensures
            r is Some <==> self@.locs.contains_key(id),
            r matches Some(loc) ==> loc == self@.locs[id],
    {
        match self.index.get(&id) {
            Some(i) => Some(self.entries[*i].1),
            None => None,
        }
    }

    pub fn insert(&mut self, id: u64, loc: ValueLocator)
        requires
            old(self).wf(),
        ensures
            final(self).wf(),
            final(self)@ == old(self)@.with(id, loc),
    {
        let ghost v = self@;
        let ghost entries0 = self.entries@;
        let found: Option<usize> = match self.index.get(&id) {
            Some(i) => Some(*i),
            None => None,
        };
        match found {
            Some(i) => {
                self.entries.set(i, (id, loc));
                proof {
                    assert forall|j: int| 0 <= j < self.entries@.len() implies (
                    #[trigger] self.entries@[j]).0 == entries0[j].0 by {}
                }
            },
            None => {
                self.index.insert(id, self.entries.len());
                self.entries.push((id, loc));
                proof {
                    assert forall|j: int|
                        0 <= j < self.entries@.len() implies self.index@.contains_key(
                        (#[trigger] self.entries@[j]).0,
                    ) && self.index@[self.entries@[j].0] == j by {
                        if j < entries0.len() {
                            assert(self.entries@[j] == entries0[j]);
                            assert(v.locs.contains_key(entries0[j].0));
                        }
                    }
                }
            },
        }
        proof {
            assert(self@.order =~= v.with(id, loc).order);
            assert(self@.locs =~= v.with(id, loc).locs);
        }
    }

    /// A table of some entries.
    pub fn of(entries: &Vec<(u64, ValueLocator)>) -> (r: LocatorTable)
        ensures
            r.wf(),
            r@ == table_of(entries@, entries@.len()),
    {
        let mut r: LocatorTable = LocatorTable::new();
        let mut i: usize = 0;
        while i < entries.len()
            invariant
                i <= entries@.len(),
                r.wf(),
                r@ == table_of(entries@, i as nat),
            decreases entries@.len() - i,
        {
            r.insert(entries[i].0, entries[i].1);
            i = i + 1;
        }
        r
    }
}

/// In a table of some rows an id stands where the last row with it says; an id without a row is
/// not there.
pub proof fn later_rows_win(entries: Seq<(u64, ValueLocator)>, k: nat, id: u64)
    requires
        k <= entries.len(),
    ensures
        table_of(entries, k).ordered(),
        table_of(entries, k).locs.contains_key(id) <==> exists|i: int|
            0 <= i < k && (#[trigger] entries[i]).0 == id,
        forall|i: int|
            0 <= i < k && (#[trigger] entries[i]).0 == id && (forall|j: int|
                i < j < k ==> (#[trigger] entries[j]).0 != id) ==> table_of(entries, k).locs[id]
                == entries[i].1,
    decreases k,
{
    if k > 0 {
        let j = (k - 1) as nat;
        later_rows_win(entries, j, id);
        let t = table_of(entries, j);
        let (new, loc) = entries[j as int];
        table_keeps_its_order(t, new, loc);
        if t.locs.contains_key(id) {
            let i = choose|i: int| 0 <= i < j && (#[trigger] entries[i]).0 == id;
            assert(entries[i].0 == id);
        }
        assert forall|i: int|
            0 <= i < k && (#[trigger] entries[i]).0 == id && (forall|m: int|
                i < m < k ==> (#[trigger] entries[m]).0 != id) implies table_of(entries, k).locs[id]
            == entries[i].1 by {
            if i < j {
                assert(entries[j as int].0 != id);
            }
        }
    }
}

/// A table keeps the order in which its ids came: a new one goes behind all others, one that is
/// there keeps its place, and no other locator changes.
pub proof fn table_keeps_its_order(t: TableView, id: u64, loc: ValueLocator)
    ensures
        t.with(id, loc).locs == t.locs.insert(id, loc),
        t.locs.contains_key(id) ==> t.with(id, loc).order == t.order,
        !t.locs.contains_key(id) ==> t.with(id, loc).order == t.order.push(id),
        t.ordered() ==> t.with(id, loc).ordered(),
{
    let u = t.with(id, loc);
    if t.ordered() {
        assert forall|x: u64| u.order.contains(x) <==> u.locs.contains_key(x) by {
            if t.order.contains(x) {
                let i = choose|i: int| 0 <= i < t.order.len() && t.order[i] == x;
                assert(u.order[i] == x);
            }
            assert(t.order.contains(x) <==> t.locs.contains_key(x));
            if !t.locs.contains_key(id) {
                assert(u.order[t.order.len() as int] == id);
            }
        }
        assert forall|i: int, j: int| 0 <= i < j < u.order.len() implies u.order[i]
            != u.order[j] by {
            assert(t.order.contains(t.order[i]));
            assert(t.order.contains(t.order[i]) <==> t.locs.contains_key(t.order[i]));
        }
    }
}

} // verus!
