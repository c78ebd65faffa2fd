//! A binary heap of distinct numbers that hands out the largest first.

use vstd::prelude::*;

verus! {

/// Distinct numbers, the largest on top.
pub struct MaxHeap {
    items: Vec<u128>,
}

spec fn parent(i: int) -> int {
    (i - 1) / 2
}

spec fn ordered_at(s: Seq<u128>, i: int) -> bool {
    0 < i < s.len() ==> s[i] <= s[parent(i)]
}

spec fn heap_ordered(s: Seq<u128>) -> bool {
    forall|i: int| #[trigger] ordered_at(s, i)
}

spec fn elems(s: Seq<u128>) -> Set<u128> {
    s.to_set()
}

/// The largest member of a non-empty finite set.
pub open spec fn largest(s: Set<u128>) -> u128 {
    choose|m: u128| s.contains(m) && forall|x: u128| s.contains(x) ==> x <= m
}

/// `m` is the largest member of `s`.
pub open spec fn is_largest(s: Set<u128>, m: u128) -> bool {
    s.contains(m) && forall|x: u128| s.contains(x) ==> x <= m
}

pub proof fn lemma_largest(s: Set<u128>, m: u128)
    requires
        is_largest(s, m),
    ensures
        largest(s) == m,
{
    let c = largest(s);
    assert(s.contains(c) && forall|x: u128| s.contains(x) ==> x <= c);
    assert(c <= m && m <= c);
}

/// A non-empty finite set of numbers has a largest member.
pub proof fn lemma_largest_exists(s: Set<u128>)
    requires
        s.finite(),
        s.len() > 0,
    ensures
        is_largest(s, largest(s)),
    decreases s.len(),
{
    let x = s.choose();
    let rest = s.remove(x);
    if rest.len() == 0 {
        assert(rest =~= Set::empty());
        assert forall|y: u128| s.contains(y) implies y <= x by {
            if y != x {
                assert(rest.contains(y));
            }
        }
        lemma_largest(s, x);
    } else {
        lemma_largest_exists(rest);
        let m = largest(rest);
        if x <= m {
            assert forall|y: u128| s.contains(y) implies y <= m by {
                if y != x {
                    assert(rest.contains(y));
                }
            }
            lemma_largest(s, m);
        } else {
            assert forall|y: u128| s.contains(y) implies y <= x by {
                if y != x {
                    assert(rest.contains(y));
                }
            }
            lemma_largest(s, x);
        }
    }
}

proof fn lemma_root_is_largest(s: Seq<u128>, i: int)
    requires
        heap_ordered(s),
        0 <= i < s.len(),
    ensures
        s[i] <= s[0],
    decreases i,
{
    if i > 0 {
        assert(ordered_at(s, i));
        lemma_root_is_largest(s, parent(i));
    }
}

/// Exchanging two places keeps the members and their distinctness.
proof fn lemma_swap(s: Seq<u128>, i: int, j: int)
    requires
        0 <= i < s.len(),
        0 <= j < s.len(),
        s.no_duplicates(),
    ensures
        ({
            let t = s.update(i, s[j]).update(j, s[i]);
            t.no_duplicates() && elems(t) == elems(s)
        }),
{
    let t = s.update(i, s[j]).update(j, s[i]);
    assert forall|x: u128| elems(t).contains(x) == elems(s).contains(x) by {
        if s.contains(x) {
            let k = choose|k: int| 0 <= k < s.len() && s[k] == x;
            let l = if k == i { j } else if k == j { i } else { k };
            assert(t[l] == x);
        }
        if t.contains(x) {
            let k = choose|k: int| 0 <= k < t.len() && t[k] == x;
            let l = if k == i { j } else if k == j { i } else { k };
            assert(s[l] == x);
        }
    }
    assert(elems(t) =~= elems(s));
}

impl View for MaxHeap {
    type V = Set<u128>;

    closed spec fn view(&self) -> Set<u128> {
        elems(self.items@)
    }
}

impl MaxHeap {
    /// The numbers are distinct and each stands below a larger one.
    pub closed spec fn wf(&self) -> bool {
        self.items@.no_duplicates() && heap_ordered(self.items@)
    }

    pub fn new() -> (r: MaxHeap)
        ensures
            r.wf(),
            r@ == Set::<u128>::empty(),
    {
        let r = MaxHeap { items: Vec::new() };
        proof {
            assert(elems(r.items@) =~= Set::<u128>::empty());
        }
        r
    }

    pub fn len(&self) -> (r: usize)
        requires
            self.wf(),
        ensures
            self@.finite(),
            r == self@.len(),
    {
        proof {
            self.items@.unique_seq_to_set();
        }
        self.items.len()
    }

    /// The largest number, which stays.
    pub fn peek(&self) -> (r: Option<u128>)
        requires
            self.wf(),
        ensures
            r is None <==> self@.len() == 0,
            r matches Some(x) ==> x == largest(self@) && is_largest(self@, x),
    {
        proof {
            self.items@.unique_seq_to_set();
        }
        if self.items.len() == 0 {
            None
        } else {
            proof {
                self.lemma_top();
            }
            Some(self.items[0])
        }
    }

    proof fn lemma_top(&self)
        requires
            self.wf(),
            self.items@.len() > 0,
        ensures
            is_largest(self@, self.items@[0]),
            largest(self@) == self.items@[0],
    {
        let s = self.items@;
        assert(s.contains(s[0]));
        assert forall|x: u128| self@.contains(x) implies x <= s[0] by {
            let k = choose|k: int| 0 <= k < s.len() && s[k] == x;
            lemma_root_is_largest(s, k);
        }
        lemma_largest(self@, s[0]);
    }

    /// Adds a number that is not there yet.
    pub fn push(&mut self, x: u128)
        requires
            old(self).wf(),
            !old(self)@.contains(x),
        ensures
            final(self).wf(),
            final(self)@ == old(self)@.insert(x),
    {
        let ghost before = self.items@;
        let mut i: usize = self.items.len();
        self.items.push(x);
        proof {
            assert(elems(self.items@) =~= elems(before).insert(x)) by {
                assert forall|y: u128| elems(self.items@).contains(y) == elems(before).insert(x).contains(
                    y,
                ) by {
                    if before.contains(y) {
                        let k = choose|k: int| 0 <= k < before.len() && before[k] == y;
                        assert(self.items@[k] == y);
                    }
                    assert(self.items@[before.len() as int] == x);
                }
            }
            assert forall|j: int| j != i implies #[trigger] ordered_at(self.items@, j) by {
                assert(ordered_at(before, j));
            }
        }
        let ghost goal = elems(self.items@);
        while i > 0 && self.items[(i - 1) / 2] < self.items[i]
            invariant
                i < self.items@.len(),
                self.items@.no_duplicates(),
                elems(self.items@) == goal,
                forall|j: int| j != i ==> #[trigger] ordered_at(self.items@, j),
                forall|j: int|
                    0 < j < self.items@.len() && parent(j) == i && i > 0
                        ==> #[trigger] self.items@[j] <= self.items@[parent(i as int)],
            decreases i,
        {
            let p: usize = (i - 1) / 2;
            let ghost s = self.items@;
            let a: u128 = self.items[i];
            let b: u128 = self.items[p];
            self.items.set(i, b);
            self.items.set(p, a);
            proof {
                let t = self.items@;
                assert(parent(i as int) == p);
                lemma_swap(s, i as int, p as int);
                assert(t =~= s.update(i as int, s[p as int]).update(p as int, s[i as int]));
                assert forall|j: int| j != p implies #[trigger] ordered_at(t, j) by {
                    assert(ordered_at(s, j) || j == i);
                    if 0 < j < t.len() {
                        if parent(j) == i {
                            assert(s[j] <= s[parent(i as int)]);
                        } else if parent(j) == p && j != i {
                            assert(s[j] <= s[p as int]);
                        }
                    }
                }
                assert forall|j: int|
                    0 < j < t.len() && parent(j) == p && p > 0 implies #[trigger] t[j]
                    <= t[parent(p as int)] by {
                    assert(ordered_at(s, p as int));
                    assert(ordered_at(s, j) || j == i);
                }
            }
            i = p;
        }
        proof {
            assert forall|j: int| #[trigger] ordered_at(self.items@, j) by {
                if j == i {
                    assert(parent(i as int) == (i - 1) / 2);
                }
            }
        }
    }

    /// Takes the largest number off.
    pub fn pop(&mut self) -> (r: Option<u128>)
        requires
            old(self).wf(),
        ensures
            final(self).wf(),
            r is None ==> old(self)@.len() == 0 && final(self)@ == old(self)@,
            r matches Some(x) ==> old(self)@.len() > 0 && x == largest(old(self)@) && is_largest(
                old(self)@,
                x,
            ) && final(self)@ == old(self)@.remove(x),
    {
        proof {
            self.items@.unique_seq_to_set();
        }
        let n: usize = self.items.len();
        if n == 0 {
            return None;
        }
        proof {
            self.lemma_top();
        }
        let ghost s0 = self.items@;
        let top: u128 = self.items[0];
        let last: u128 = self.items[n - 1];
        self.items.set(0, last);
        self.items.pop();
        let ghost goal = elems(s0).remove(top);
        proof {
            let t = self.items@;
            assert forall|x: u128| elems(t).contains(x) == goal.contains(x) by {
                if t.contains(x) {
                    let k = choose|k: int| 0 <= k < t.len() && t[k] == x;
                    let l = if k == 0 { n - 1 } else { k };
                    assert(s0[l] == x);
                    assert(s0[0] == top);
                }
                if goal.contains(x) {
                    let k = choose|k: int| 0 <= k < s0.len() && s0[k] == x;
                    assert(k != 0);
                    let l = if k == n - 1 { 0 } else { k };
                    assert(t[l] == x);
                }
            }
            assert(elems(t) =~= goal);
            assert forall|j: int| parent(j) != 0 implies #[trigger] ordered_at(t, j) by {
                assert(ordered_at(s0, j));
            }
        }
        let mut i: usize = 0;
        let len: usize = self.items.len();
        let mut done: bool = false;
        while !done
            invariant
                len == self.items@.len(),
                i <= len,
                i < len || len == 0,
                self.items@.no_duplicates(),
                elems(self.items@) == goal,
                forall|j: int|
                    parent(j) != i || done ==> #[trigger] ordered_at(self.items@, j),
                forall|j: int|
                    0 < j < len && parent(j) == i && i > 0 ==> #[trigger] self.items@[j]
                        <= self.items@[parent(i as int)],
            decreases len - i, if done { 0int } else { 1int },
        {
            let mut c: usize = i;
            if i < len && len - i > i + 1 {
                let left: usize = i + i + 1;
                if self.items[left] > self.items[c] {
                    c = left;
                }
                if len - left > 1 && self.items[left + 1] > self.items[c] {
                    c = left + 1;
                }
            }
            if c == i {
                done = true;
                proof {
                    assert forall|j: int| #[trigger] ordered_at(self.items@, j) by {
                        if parent(j) == i && 0 < j < len {
                            assert(j == 2 * i + 1 || j == 2 * i + 2);
                        }
                    }
                }
            } else {
                let ghost s = self.items@;
                let a: u128 = self.items[i];
                let b: u128 = self.items[c];
                self.items.set(i, b);
                self.items.set(c, a);
                proof {
                    let t = self.items@;
                    assert(parent(c as int) == i);
                    lemma_swap(s, i as int, c as int);
                    assert(t =~= s.update(i as int, s[c as int]).update(c as int, s[i as int]));
                    assert forall|j: int| parent(j) != c implies #[trigger] ordered_at(t, j) by {
                        if 0 < j < len {
                            if parent(j) == i {
                                assert(j == 2 * i + 1 || j == 2 * i + 2);
                            } else {
                                assert(ordered_at(s, j));
                                if j == i {
                                    assert(s[c as int] <= s[parent(i as int)]);
                                }
                            }
                        }
                    }
                    assert forall|j: int|
                        0 < j < len && parent(j) == c && c > 0 implies #[trigger] t[j]
                        <= t[parent(c as int)] by {
                        assert(ordered_at(s, j));
                    }
                }
                i = c;
            }
        }
        Some(top)
    }
}

} // verus!
