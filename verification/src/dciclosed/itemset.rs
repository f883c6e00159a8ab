//! Ordered itemsets for the DCI-Closed enumerator.
//!
//! An itemset is a set of item indices kept as a strictly ascending vector,
//! so that iterating positions `0..len()` yields the members in ascending
//! order, which the enumerator's pre/post bookkeeping relies on.

use vstd::prelude::*;

verus! {

/// A set of item indices; iteration by position is strictly ascending.
#[derive(Debug)]
pub struct ItemSet {
    items: Vec<usize>,
}

impl View for ItemSet {
    type V = Seq<int>;

    closed spec fn view(&self) -> Seq<int> {
        self.items@.map_values(|x: usize| x as int)
    }
}

impl ItemSet {
    /// The members as a mathematical set.
    pub open spec fn set(self) -> Set<int> {
        self@.to_set()
    }

    /// Members are strictly ascending by position (so they are distinct),
    /// and never negative.
    pub open spec fn wf(self) -> bool {
        &&& forall|k1: int, k2: int| 0 <= k1 < k2 < self@.len() ==> self@[k1] < self@[k2]
        &&& forall|k: int| 0 <= k < self@.len() ==> self@[k] >= 0
    }

    /// Every member is strictly below `bound`.
    pub open spec fn below(self, bound: int) -> bool {
        forall|id: int| self.set().contains(id) ==> 0 <= id < bound
    }

    /// Create an empty itemset.
    pub fn empty() -> (r: ItemSet)
        ensures
            r@ == Seq::<int>::empty(),
            r.set() == Set::<int>::empty(),
            r.wf(),
    {
        let r = ItemSet { items: Vec::new() };
        proof {
            assert(r@ =~= Seq::<int>::empty());
            assert(r.set() =~= Set::<int>::empty());
        }
        r
    }

    /// How many members the itemset has.
    pub fn len(&self) -> (r: usize)
        ensures
            r == self@.len(),
    {
        self.items.len()
    }

    /// The member at ascending position `k`.
    pub fn get(&self, k: usize) -> (r: usize)
        requires
            k < self@.len(),
        ensures
            r as int == self@[k as int],
    {
        self.items[k]
    }

    /// Does the itemset contain `item`?
    pub fn contains(&self, item: usize) -> (r: bool)
        ensures
            r == self.set().contains(item as int),
    {
        let mut k: usize = 0;
        while k < self.items.len()
            invariant
                k <= self.items@.len(),
                forall|j: int| 0 <= j < k ==> self.items@[j] != item,
            decreases self.items@.len() - k,
        {
            if self.items[k] == item {
                assert(self@[k as int] == item as int);
                return true;
            }
            k += 1;
        }
        assert(forall|j: int| 0 <= j < self@.len() ==> self@[j] != item as int);
        false
    }

    /// Add `item` to the set; adding a member again changes nothing.
    pub fn add(&mut self, item: usize)
        requires
            old(self).wf(),
        ensures
            final(self).wf(),
            final(self).set() == old(self).set().insert(item as int),
            final(self)@.len() <= old(self)@.len() + 1,
    {
        let ghost old_items = self.items@;
        let mut k: usize = 0;
        while k < self.items.len() && self.items[k] < item
            invariant
                self.items@ == old_items,
                k <= self.items@.len(),
                forall|j: int| 0 <= j < k ==> self.items@[j] < item,
            decreases self.items@.len() - k,
        {
            k += 1;
        }
        if k < self.items.len() && self.items[k] == item {
            proof {
                assert(self@[k as int] == item as int);
                assert(self.set().contains(item as int));
                assert(self.set() =~= self.set().insert(item as int));
            }
            return;
        }
        self.items.insert(k, item);
        proof {
            let new_items = self.items@;
            assert forall|x1: int, x2: int|
                0 <= x1 < x2 < old_items.len() implies old_items[x1] < old_items[x2] by {
                assert(old(self)@[x1] == old_items[x1] as int);
                assert(old(self)@[x2] == old_items[x2] as int);
            }
            assert((k as int) < old_items.len() ==> old_items[k as int] > item);
            assert forall|k1: int, k2: int| 0 <= k1 < k2 < new_items.len() implies new_items[k1]
                < new_items[k2] by {
                if k2 < k as int {
                    assert(new_items[k1] == old_items[k1]);
                    assert(new_items[k2] == old_items[k2]);
                } else if k1 < k as int && k2 == k as int {
                    assert(new_items[k1] == old_items[k1]);
                } else if k1 < k as int && k2 > k as int {
                    assert(new_items[k1] == old_items[k1]);
                    assert(new_items[k2] == old_items[k2 - 1]);
                    assert(old_items[k2 - 1] >= item || k2 - 1 < k as int);
                } else if k1 == k as int {
                    assert(new_items[k2] == old_items[k2 - 1]);
                    assert(k2 - 1 >= k as int);
                    assert(old_items[k2 - 1] >= item);
                    assert(old_items[k2 - 1] != item);
                } else {
                    assert(new_items[k1] == old_items[k1 - 1]);
                    assert(new_items[k2] == old_items[k2 - 1]);
                }
            }
            assert(self.set() =~= old(self).set().insert(item as int)) by {
                assert(forall|j: int|
                    0 <= j < old_items.len() ==> new_items[if j < k as int {
                        j
                    } else {
                        j + 1
                    }] == old_items[j]);
                assert(new_items[k as int] == item);
                assert forall|id: int| self.set().contains(id) implies old(
                    self,
                ).set().insert(item as int).contains(id) by {
                    let j = choose|j: int| 0 <= j < self@.len() && self@[j] == id;
                    assert(self@[j] == new_items[j] as int);
                    if j < k as int {
                        assert(old(self)@[j] == id);
                        assert(old(self)@.contains(id));
                    } else if j == k as int {
                    } else {
                        assert(old(self)@[j - 1] == id);
                        assert(old(self)@.contains(id));
                    }
                }
                assert forall|id: int| old(self).set().insert(item as int).contains(id) implies self.set().contains(id) by {
                    if id == item as int {
                        assert(self@[k as int] == item as int);
                        assert(self@.contains(id));
                    } else {
                        let j = choose|j: int| 0 <= j < old(self)@.len() && old(self)@[j] == id;
                        if j < k as int {
                            assert(self@[j] == new_items[j] as int);
                            assert(new_items[j] == old_items[j]);
                            assert(self@.contains(id));
                        } else {
                            assert(self@[j + 1] == new_items[j + 1] as int);
                            assert(new_items[j + 1] == old_items[j]);
                            assert(self@.contains(id));
                        }
                    }
                }
            }
        }
    }

    /// An independent copy with the same members.
    pub fn duplicate(&self) -> (r: ItemSet)
        ensures
            r@ == self@,
            r.wf() == self.wf(),
            r.set() == self.set(),
    {
        let items = self.items.clone();
        proof {
            assert(items@ =~= self.items@);
        }
        let r = ItemSet { items };
        proof {
            assert(r@ == self@);
            if r.wf() {
                assert(self.wf());
            }
            if self.wf() {
                assert(r.wf());
            }
        }
        r
    }
}

} // verus!
