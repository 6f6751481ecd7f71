//! A min-priority queue: a binary heap laid out in a `Vec`.
//!
//! The queue is seen as the multiset of its entries. Which of several entries
//! of least priority leaves first is not fixed.
use vstd::multiset::*;
use vstd::prelude::*;
use vstd::seq_lib::*;

verus! {

/// Entries `(priority, item)`, of which `pop` hands out one of least priority.
pub struct Frontier<T> {
    items: Vec<(u32, T)>,
}

/// The entry at place `p` is no higher than the one at place `c`, if both exist.
pub open spec fn below<T>(s: Seq<(u32, T)>, p: int, c: int) -> bool {
    0 <= p < c < s.len() ==> s[p].0 <= s[c].0
}

/// The entry at place `p` is no higher than its two children, but for a child
/// at place `skip`.
pub open spec fn children_ok<T>(s: Seq<(u32, T)>, p: int, skip: int) -> bool {
    &&& 2 * p + 1 != skip ==> below(s, p, 2 * p + 1)
    &&& 2 * p + 2 != skip ==> below(s, p, 2 * p + 2)
}

/// If `p` is the parent of place `hole`, it is no higher than the children of
/// `hole`.
pub open spec fn grandchildren_ok<T>(s: Seq<(u32, T)>, p: int, hole: int) -> bool {
    2 * p + 1 == hole || 2 * p + 2 == hole ==> below(s, p, 2 * hole + 1) && below(
        s,
        p,
        2 * hole + 2,
    )
}

/// The heap order: no entry is higher than its children.
pub open spec fn heap_ordered<T>(s: Seq<(u32, T)>) -> bool {
    forall|p: int| #[trigger] children_ok(s, p, -1)
}

/// The heap order, but that the entry at `hole` may be lower than its parent.
pub open spec fn ordered_but_above<T>(s: Seq<(u32, T)>, hole: int) -> bool {
    &&& forall|p: int| #[trigger] children_ok(s, p, hole)
    &&& forall|p: int| #[trigger] grandchildren_ok(s, p, hole)
}

/// The heap order, but that the entry at `hole` may be higher than its
/// children.
pub open spec fn ordered_but_below<T>(s: Seq<(u32, T)>, hole: int) -> bool {
    &&& forall|p: int| p != hole ==> #[trigger] children_ok(s, p, -1)
    &&& forall|p: int| #[trigger] grandchildren_ok(s, p, hole)
}

/// In an ordered heap the first entry has the least priority.
pub proof fn lemma_root_is_least<T>(s: Seq<(u32, T)>, i: int)
    requires
        heap_ordered(s),
        0 <= i < s.len(),
    ensures
        s[0].0 <= s[i].0,
    decreases i,
{
    if i > 0 {
        let p = (i - 1) / 2;
        assert(i == 2 * p + 1 || i == 2 * p + 2);
        assert(children_ok(s, p, -1));
        lemma_root_is_least(s, p);
    }
}

/// Exchanging two entries keeps the multiset.
pub proof fn lemma_exchange_keeps_entries<T>(s: Seq<(u32, T)>, i: int, j: int)
    requires
        0 <= i < s.len(),
        0 <= j < s.len(),
    ensures
        s.update(i, s[j]).update(j, s[i]).to_multiset() == s.to_multiset(),
{
    broadcast use group_to_multiset_ensures;

    let s1 = s.update(i, s[j]);
    to_multiset_update(s, i, s[j]);
    to_multiset_update(s1, j, s[i]);
    assert(s.to_multiset().count(s[i]) > 0) by {
        assert(s.contains(s[i]));
    }
    assert(s.to_multiset().count(s[j]) > 0) by {
        assert(s.contains(s[j]));
    }
    assert(s1.update(j, s[i]).to_multiset() =~= s.to_multiset());
}

impl<T: Copy> View for Frontier<T> {
    type V = Multiset<(u32, T)>;

    closed spec fn view(&self) -> Multiset<(u32, T)> {
        self.items@.to_multiset()
    }
}

impl<T: Copy> Frontier<T> {
    /// The heap order holds.
    pub closed spec fn wf(&self) -> bool {
        heap_ordered(self.items@)
    }

    /// A queue with no entries.
    pub fn new() -> (f: Self)
        ensures
            f.wf(),
            f@ == Multiset::<(u32, T)>::empty(),
    {
        let f = Frontier { items: Vec::new() };
        proof {
            broadcast use group_to_multiset_ensures;

            assert(f.items@.to_multiset() =~= Multiset::<(u32, T)>::empty());
        }
        f
    }

    /// The number of entries.
    pub fn len(&self) -> (n: usize)
        ensures
            n == self@.len(),
    {
        proof {
            broadcast use group_to_multiset_ensures;

        }
        self.items.len()
    }

    /// Whether there is no entry.
    pub fn is_empty(&self) -> (b: bool)
        ensures
            b == (self@.len() == 0),
    {
        proof {
            broadcast use group_to_multiset_ensures;

        }
        self.items.len() == 0
    }

    /// Adds an entry.
    pub fn push(&mut self, priority: u32, item: T)
        requires
            old(self).wf(),
        ensures
            final(self).wf(),
            final(self)@ == old(self)@.insert((priority, item)),
    {
        self.items.push((priority, item));
        proof {
            broadcast use group_to_multiset_ensures;

            assert(old(self).items@.push((priority, item)).to_multiset() =~= old(
                self,
            ).items@.to_multiset().insert((priority, item)));
        }
        let ghost entries = self.items@.to_multiset();
        let mut i: usize = self.items.len() - 1;
        proof {
            let now = self.items@;
            let before = old(self).items@;
            assert forall|p: int| #[trigger] children_ok(now, p, i as int) by {
                assert(children_ok(before, p, -1));
            }
            assert forall|p: int| #[trigger] grandchildren_ok(now, p, i as int) by {}
            assert forall|p: int| i == 0 implies #[trigger] children_ok(now, p, -1) by {
                assert(children_ok(now, p, 0));
            }
        }
        while i > 0
            invariant
                0 <= i < self.items.len(),
                self.items@.to_multiset() == entries,
                ordered_but_above(self.items@, i as int),
                i == 0 ==> heap_ordered(self.items@),
            ensures
                self.items@.to_multiset() == entries,
                heap_ordered(self.items@),
            decreases i,
        {
            let up: usize = (i - 1) / 2;
            assert(i == 2 * up + 1 || i == 2 * up + 2);
            let below_entry = self.items[i];
            let above_entry = self.items[up];
            if above_entry.0 <= below_entry.0 {
                proof {
                    let now = self.items@;
                    assert forall|p: int| #[trigger] children_ok(now, p, -1) by {
                        assert(children_ok(now, p, i as int));
                    }
                }
                break ;
            }
            let ghost before = self.items@;
            self.items[i] = above_entry;
            self.items[up] = below_entry;
            proof {
                lemma_exchange_keeps_entries(before, i as int, up as int);
                assert(self.items@ =~= before.update(i as int, before[up as int]).update(
                    up as int,
                    before[i as int],
                ));
                let now = self.items@;
                assert forall|p: int| #[trigger] children_ok(now, p, up as int) by {
                    assert(children_ok(before, p, i as int));
                    assert(grandchildren_ok(before, up as int, i as int));
                    assert(children_ok(before, up as int, i as int));
                }
                assert forall|p: int| #[trigger] grandchildren_ok(now, p, up as int) by {
                    assert(children_ok(before, p, i as int));
                    assert(children_ok(before, up as int, i as int));
                }
                assert forall|p: int| up == 0 implies #[trigger] children_ok(now, p, -1) by {
                    assert(children_ok(now, p, 0));
                }
            }
            i = up;
        }
    }

    /// Takes out an entry of least priority, if there is any entry.
    pub fn pop(&mut self) -> (r: Option<(u32, T)>)
        requires
            old(self).wf(),
        ensures
            final(self).wf(),
            r is None ==> old(self)@.len() == 0 && final(self)@ == old(self)@,
            r is Some ==> old(self)@.count(r->Some_0) > 0,
            r is Some ==> final(self)@ == old(self)@.remove(r->Some_0),
            r is Some ==> forall|e: (u32, T)| old(self)@.count(e) > 0 ==> r->Some_0.0 <= e.0,
    {
        proof {
            broadcast use group_to_multiset_ensures;

        }
        if self.items.len() == 0 {
            return None;
        }
        let ghost full = self.items@;
        let least = self.items.swap_remove(0);
        proof {
            assert(full.contains(least));
            assert forall|e: (u32, T)| full.to_multiset().count(e) > 0 implies least.0 <= e.0 by {
                assert(full.contains(e));
                let k = choose|k: int| 0 <= k < full.len() && full[k] == e;
                lemma_root_is_least(full, k);
            }
            let moved = full.update(0, full.last());
            to_multiset_update(full, 0, full.last());
            assert(moved.drop_last() =~= moved.remove(moved.len() - 1));
            to_multiset_remove(moved, moved.len() - 1);
            assert(full.contains(full.last()));
            assert(self.items@.to_multiset() =~= full.to_multiset().remove(least));
            let now = self.items@;
            assert forall|p: int| p != 0 implies #[trigger] children_ok(now, p, -1) by {
                assert(children_ok(full, p, -1));
            }
            assert forall|p: int| #[trigger] grandchildren_ok(now, p, 0) by {}
        }
        let ghost entries = self.items@.to_multiset();
        let n: usize = self.items.len();
        let mut i: usize = 0;
        while i < n
            invariant
                n == self.items.len(),
                self.items@.to_multiset() == entries,
                i < n ==> ordered_but_below(self.items@, i as int),
                i >= n ==> heap_ordered(self.items@),
            ensures
                self.items@.to_multiset() == entries,
                heap_ordered(self.items@),
            decreases n - i,
        {
            let mut low: usize = i;
            if i <= (n - 1) / 2 {
                let left: usize = 2 * i + 1;
                if left < n {
                    if self.items[left].0 < self.items[low].0 {
                        low = left;
                    }
                    let right: usize = left + 1;
                    if right < n && self.items[right].0 < self.items[low].0 {
                        low = right;
                    }
                }
            }
            if low == i {
                proof {
                    let now = self.items@;
                    assert forall|p: int| #[trigger] children_ok(now, p, -1) by {
                        if p != i {
                            assert(children_ok(now, p, -1));
                        }
                    }
                }
                break ;
            }
            let ghost before = self.items@;
            let above_entry = self.items[i];
            let below_entry = self.items[low];
            self.items[i] = below_entry;
            self.items[low] = above_entry;
            proof {
                lemma_exchange_keeps_entries(before, i as int, low as int);
                assert(self.items@ =~= before.update(i as int, before[low as int]).update(
                    low as int,
                    before[i as int],
                ));
                let now = self.items@;
                assert forall|p: int| p != low implies #[trigger] children_ok(now, p, -1) by {
                    if p != i {
                        assert(children_ok(before, p, -1));
                        assert(grandchildren_ok(before, p, i as int));
                    }
                }
                assert forall|p: int| #[trigger] grandchildren_ok(now, p, low as int) by {
                    if p == i {
                        assert(children_ok(before, low as int, -1));
                    }
                }
            }
            i = low;
        }
        Some(least)
    }
}

} // verus!
