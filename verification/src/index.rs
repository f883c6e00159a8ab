//! A reference inverted index over transactions: per item, the sorted list
//! of transaction ids containing it.  `count` reports how many transactions
//! contain a whole itemset, which makes the index a simple support oracle
//! to hold the miners against.

use vstd::prelude::*;

verus! {

pub struct Index {
    index: Vec<Vec<usize>>,
    transaction_count: usize,
}

impl Index {
    /// The transaction ids recorded for one item.
    pub closed spec fn item_tids(self, item: int) -> Set<int> {
        if 0 <= item < self.index@.len() {
            Set::new(
                |tid: int|
                    exists|x: int|
                        0 <= x < self.index@[item]@.len() && self.index@[item]@[x] == tid,
            )
        } else {
            Set::empty()
        }
    }

    /// The ids of the transactions that contain every item of `items`.
    pub open spec fn common_tids(self, items: Seq<usize>) -> Set<int> {
        Set::new(
            |tid: int|
                forall|k: int| 0 <= k < items.len() ==> self.item_tids(items[k] as int).contains(tid),
        )
    }

    /// Each list is strictly increasing and stays below the number of
    /// transactions inserted so far.
    pub closed spec fn wf(self) -> bool {
        forall|i: int, x1: int, x2: int|
            0 <= i < self.index@.len() && 0 <= x1 <= x2 < (#[trigger] self.index@[i])@.len() ==> (
            #[trigger] self.index@[i]@[x1]) <= (#[trigger] self.index@[i]@[x2])
                && (x1 < x2 ==> self.index@[i]@[x1] < self.index@[i]@[x2]) && self.index@[i]@[x2]
                < self.transaction_count
    }

    /// How many transactions have been inserted.
    pub closed spec fn tx_count(self) -> int {
        self.transaction_count as int
    }

    /// An empty index.
    pub fn new() -> (r: Index)
        ensures
            r.wf(),
            r.tx_count() == 0,
            forall|i: int| r.item_tids(i) == Set::<int>::empty(),
    {
        let r = Index { index: Vec::new(), transaction_count: 0 };
        proof {
            assert forall|i: int| r.item_tids(i) == Set::<int>::empty() by {}
        }
        r
    }

    /// Record one transaction: its fresh id joins the list of every item it
    /// contains.  Items must be distinct.
    pub fn insert(&mut self, transaction: &[usize])
        requires
            old(self).wf(),
            old(self).tx_count() < usize::MAX,
            forall|k1: int, k2: int|
                0 <= k1 < k2 < transaction@.len() ==> transaction@[k1] != transaction@[k2],
        ensures
            final(self).wf(),
            final(self).tx_count() == old(self).tx_count() + 1,
            forall|i: int|
                #![trigger final(self).item_tids(i)]
                final(self).item_tids(i) == if exists|k: int|
                    0 <= k < transaction@.len() && transaction@[k] == i {
                    old(self).item_tids(i).insert(old(self).tx_count())
                } else {
                    old(self).item_tids(i)
                },
    {
        let tid = self.transaction_count;
        let ghost orig = *old(self);
        let m = transaction.len();
        let mut k: usize = 0;
        while k < m
            invariant
                self.transaction_count == tid,
                tid == orig.tx_count(),
                orig == *old(self),
                orig.wf(),
                m == transaction@.len(),
                k <= m,
                forall|k1: int, k2: int|
                    0 <= k1 < k2 < transaction@.len() ==> transaction@[k1] != transaction@[k2],
                // every list is strictly increasing and bounded by the new id
                forall|i: int, x1: int, x2: int|
                    0 <= i < self.index@.len() && 0 <= x1 < x2 < (#[trigger] self.index@[i])@.len()
                        ==> (#[trigger] self.index@[i]@[x1]) < (#[trigger] self.index@[i]@[x2]),
                forall|i: int, x: int|
                    0 <= i < self.index@.len() && 0 <= x < (#[trigger] self.index@[i])@.len() ==> (
                    #[trigger] self.index@[i]@[x]) <= tid,
                // lists of items not yet recorded stay strictly below it
                forall|i: int, x: int|
                    0 <= i < self.index@.len() && 0 <= x < (#[trigger] self.index@[i])@.len() && !(
                    exists|kk: int| 0 <= kk < k && transaction@[kk] == i) ==> (
                    #[trigger] self.index@[i]@[x]) < tid,
                forall|i: int|
                    #![trigger self.item_tids(i)]
                    self.item_tids(i) == if exists|kk: int|
                        0 <= kk < k && transaction@[kk] == i {
                        orig.item_tids(i).insert(tid as int)
                    } else {
                        orig.item_tids(i)
                    },
            decreases m - k,
        {
            let item = transaction[k];
            let ghost pre = *self;
            while self.index.len() <= item
                invariant
                    self.transaction_count == pre.transaction_count,
                    self.index@.len() >= pre.index@.len(),
                    forall|i: int| 0 <= i < pre.index@.len() ==> self.index@[i] == pre.index@[i],
                    forall|i: int|
                        pre.index@.len() <= i < self.index@.len() ==> (
                        #[trigger] self.index@[i])@.len() == 0,
                decreases item + 1 - self.index@.len(),
            {
                self.index.push(Vec::new());
            }
            proof {
                assert forall|i: int|
                    #![trigger self.item_tids(i)]
                    self.item_tids(i) == pre.item_tids(i) by {
                    if 0 <= i < pre.index@.len() {
                        assert(self.index@[i] == pre.index@[i]);
                    } else if 0 <= i < self.index@.len() {
                        assert(self.index@[i]@.len() == 0);
                        assert(self.item_tids(i) =~= Set::<int>::empty());
                        assert(pre.item_tids(i) =~= Set::<int>::empty());
                    }
                }
            }
            let ghost mid = *self;
            let mut lst: Vec<usize> = Vec::new();
            self.index.set_and_swap(item, &mut lst);
            lst.push(tid);
            self.index.set_and_swap(item, &mut lst);
            proof {
                assert(self.index@[item as int]@ == mid.index@[item as int]@.push(tid));
                assert(forall|i: int|
                    0 <= i < self.index@.len() && i != item as int ==> self.index@[i]
                        == mid.index@[i]);
                assert(!(exists|kk: int| 0 <= kk < k && transaction@[kk] == item as int)) by {
                    if exists|kk: int| 0 <= kk < k && transaction@[kk] == item as int {
                        let kk = choose|kk: int| 0 <= kk < k && transaction@[kk] == item as int;
                        assert(transaction@[kk] != transaction@[k as int]);
                    }
                }
                assert(forall|x: int|
                    0 <= x < mid.index@[item as int]@.len() ==> mid.index@[item as int]@[x] < tid)
                    by {
                    if (item as int) < pre.index@.len() {
                        assert(mid.index@[item as int] == pre.index@[item as int]);
                    } else {
                        assert(mid.index@[item as int]@.len() == 0);
                    }
                }
                assert forall|i: int|
                    #![trigger self.item_tids(i)]
                    self.item_tids(i) == if exists|kk: int|
                        0 <= kk < k + 1 && transaction@[kk] == i {
                        orig.item_tids(i).insert(tid as int)
                    } else {
                        orig.item_tids(i)
                    } by {
                    assert((exists|kk: int| 0 <= kk < k + 1 && transaction@[kk] == i) == ((exists|kk: int|
                        0 <= kk < k && transaction@[kk] == i) || i == item as int)) by {
                        if (exists|kk: int| 0 <= kk < k + 1 && transaction@[kk] == i) && !(exists|kk: int|
                            0 <= kk < k && transaction@[kk] == i) {
                            let kk = choose|kk: int| 0 <= kk < k + 1 && transaction@[kk] == i;
                            assert(kk == k);
                        }
                        if exists|kk: int| 0 <= kk < k && transaction@[kk] == i {
                            let kk = choose|kk: int| 0 <= kk < k && transaction@[kk] == i;
                            assert(0 <= kk < k + 1 && transaction@[kk] == i);
                        }
                        assert(transaction@[k as int] == item);
                    }
                    if i == item as int {
                        assert(self.item_tids(i) =~= mid.item_tids(i).insert(tid as int)) by {
                            let l = mid.index@[i]@;
                            assert forall|t: int| self.item_tids(i).contains(t) implies mid.item_tids(
                                i,
                            ).insert(tid as int).contains(t) by {
                                let x = choose|x: int|
                                    0 <= x < self.index@[i]@.len() && self.index@[i]@[x] == t;
                                if x < l.len() {
                                    assert(l[x] == t);
                                }
                            }
                            assert forall|t: int|
                                mid.item_tids(i).insert(tid as int).contains(t) implies self.item_tids(
                                i,
                            ).contains(t) by {
                                if t == tid as int {
                                    assert(self.index@[i]@[l.len() as int] == tid);
                                } else {
                                    let x = choose|x: int| 0 <= x < l.len() && l[x] == t;
                                    assert(self.index@[i]@[x] == t);
                                }
                            }
                        }
                        assert(mid.item_tids(i) == orig.item_tids(i));
                    } else {
                        assert(self.item_tids(i) == mid.item_tids(i)) by {
                            if 0 <= i < self.index@.len() {
                                assert(self.index@[i] == mid.index@[i]);
                            }
                        }
                    }
                }
            }
            proof {
                let lim = mid.index@[item as int]@.len() as int;
                assert forall|i: int, x1: int, x2: int|
                    0 <= i < self.index@.len() && 0 <= x1 < x2 < (
                #[trigger] self.index@[i])@.len() implies (#[trigger] self.index@[i]@[x1]) < (
                #[trigger] self.index@[i]@[x2]) by {
                    if i == item as int {
                        if x2 == lim {
                            assert(self.index@[i]@[x2] == tid);
                            assert(self.index@[i]@[x1] == mid.index@[i]@[x1]);
                        } else {
                            assert(self.index@[i]@[x1] == mid.index@[i]@[x1]);
                            assert(self.index@[i]@[x2] == mid.index@[i]@[x2]);
                            assert(mid.index@[i] == pre.index@[i]);
                        }
                    } else {
                        assert(self.index@[i] == mid.index@[i]);
                        if 0 <= i < pre.index@.len() {
                            assert(mid.index@[i] == pre.index@[i]);
                        } else {
                            assert(mid.index@[i]@.len() == 0);
                        }
                    }
                }
                assert forall|i: int, x: int|
                    0 <= i < self.index@.len() && 0 <= x < (
                #[trigger] self.index@[i])@.len() implies (#[trigger] self.index@[i]@[x])
                    <= tid by {
                    if i == item as int {
                        if x == lim {
                        } else {
                            assert(self.index@[i]@[x] == mid.index@[i]@[x]);
                        }
                    } else {
                        assert(self.index@[i] == mid.index@[i]);
                        if 0 <= i < pre.index@.len() {
                            assert(mid.index@[i] == pre.index@[i]);
                        } else {
                            assert(mid.index@[i]@.len() == 0);
                        }
                    }
                }
                assert forall|i: int, x: int|
                    0 <= i < self.index@.len() && 0 <= x < (#[trigger] self.index@[i])@.len() && !(
                    exists|kk: int| 0 <= kk < k + 1 && transaction@[kk] == i) implies (
                #[trigger] self.index@[i]@[x]) < tid by {
                    assert(i != item as int) by {
                        assert(transaction@[k as int] == item);
                    }
                    assert(self.index@[i] == mid.index@[i]);
                    if 0 <= i < pre.index@.len() {
                        assert(mid.index@[i] == pre.index@[i]);
                        assert(!(exists|kk: int| 0 <= kk < k && transaction@[kk] == i)) by {
                            if exists|kk: int| 0 <= kk < k && transaction@[kk] == i {
                                let kk = choose|kk: int| 0 <= kk < k && transaction@[kk] == i;
                                assert(0 <= kk < k + 1 && transaction@[kk] == i);
                            }
                        }
                    } else {
                        assert(mid.index@[i]@.len() == 0);
                    }
                }
            }
            k += 1;
        }
        let ghost done = *self;
        self.transaction_count = tid + 1;
        proof {
            assert forall|i: int|
                #![trigger self.item_tids(i)]
                self.item_tids(i) == done.item_tids(i) by {
                assert(self.index@ == done.index@);
                assert(self.item_tids(i) =~= done.item_tids(i));
            }
            assert forall|i: int, x1: int, x2: int|
                0 <= i < self.index@.len() && 0 <= x1 <= x2 < (#[trigger] self.index@[i])@.len() implies (
            #[trigger] self.index@[i]@[x1]) <= (#[trigger] self.index@[i]@[x2]) && (x1 < x2
                ==> self.index@[i]@[x1] < self.index@[i]@[x2]) && self.index@[i]@[x2]
                < self.transaction_count by {}
        }
    }
    /// How many recorded transactions contain every item of `transaction`.
    /// An empty query counts no transactions.
    pub fn count(&self, transaction: &[usize]) -> (r: usize)
        requires
            self.wf(),
        ensures
            transaction@.len() == 0 ==> r == 0,
            transaction@.len() > 0 ==> r as int == self.common_tids(transaction@).len(),
    {
        if transaction.len() == 0 {
            return 0;
        }

        if transaction.len() == 1 {
            let item = transaction[0];
            if item >= self.index.len() {
                proof {
                    assert(self.item_tids(item as int) == Set::<int>::empty());
                    assert forall|tid: int|
                        !self.common_tids(transaction@).contains(tid) by {
                        assert(transaction@[0] == item);
                    }
                    assert(self.common_tids(transaction@) =~= Set::<int>::empty());
                }
                return 0;
            }
            let r = self.index[item].len();
            proof {
                let l = self.index@[item as int]@;
                let li = l.map_values(|v: usize| v as int);
                assert(li.no_duplicates()) by {
                    assert forall|x1: int, x2: int|
                        0 <= x1 < x2 < li.len() implies li[x1] != li[x2] by {
                        assert(l[x1] < l[x2]);
                    }
                }
                li.unique_seq_to_set();
                assert(self.item_tids(item as int) =~= li.to_set()) by {
                    assert forall|tid: int|
                        self.item_tids(item as int).contains(tid) implies li.to_set().contains(
                        tid,
                    ) by {
                        let x = choose|x: int| 0 <= x < l.len() && l[x] == tid;
                        assert(li[x] == tid);
                    }
                    assert forall|tid: int|
                        li.to_set().contains(tid) implies self.item_tids(item as int).contains(
                        tid,
                    ) by {
                        let x = choose|x: int| 0 <= x < li.len() && li[x] == tid;
                        assert(l[x] == tid);
                    }
                }
                assert(self.common_tids(transaction@) =~= self.item_tids(item as int)) by {
                    assert(transaction@[0] == item);
                }
            }
            return r;
        }

        // Several items: an unknown item makes the intersection empty.
        let m = transaction.len();
        let mut i: usize = 0;
        while i < m
            invariant
                self.wf(),
                m == transaction@.len(),
                i <= m,
                forall|x: int| 0 <= x < i ==> (#[trigger] transaction@[x] as int) < self.index@.len(),
            decreases m - i,
        {
            if transaction[i] >= self.index.len() {
                proof {
                    assert(self.item_tids(transaction@[i as int] as int) == Set::<int>::empty());
                    assert forall|tid: int|
                        !self.common_tids(transaction@).contains(tid) by {
                        if self.common_tids(transaction@).contains(tid) {
                            assert(self.item_tids(transaction@[i as int] as int).contains(tid));
                        }
                    }
                    assert(self.common_tids(transaction@) =~= Set::<int>::empty());
                }
                return 0;
            }
            i += 1;
        }

        let item0 = transaction[0];
        let ghost l0 = self.index@[item0 as int]@;
        let ghost common = self.common_tids(transaction@);
        let ghost pfx = |a: int|
            Set::new(|tid: int| exists|x: int| 0 <= x < a && l0[x] == tid);
        let n0 = self.index[item0].len();
        let mut p: Vec<usize> = vec![0; m];
        let mut count: usize = 0;
        let mut a: usize = 0;
        proof {
            assert(common.intersect(pfx(0)) =~= Set::<int>::empty());
        }
        // Walk the first item's list; for each of its ids, advance the
        // other lists' cursors and test whether they all reach it.
        while a < n0
            invariant
                self.wf(),
                m == transaction@.len(),
                2 <= m,
                forall|x: int| 0 <= x < m ==> (#[trigger] transaction@[x] as int) < self.index@.len(),
                item0 == transaction@[0],
                l0 == self.index@[item0 as int]@,
                common == self.common_tids(transaction@),
                pfx == (|a: int| Set::new(|tid: int| exists|x: int| 0 <= x < a && l0[x] == tid)),
                n0 == l0.len(),
                a <= n0,
                p@.len() == m,
                forall|ii: int|
                    1 <= ii < m ==> #[trigger] p@[ii]
                        <= self.index@[transaction@[ii] as int]@.len(),
                a < n0 ==> forall|ii: int, x: int|
                    1 <= ii < m && 0 <= x < p@[ii] ==> (
                    #[trigger] self.index@[transaction@[ii] as int]@[x]) < l0[a as int],
                common.intersect(pfx(a as int)).finite(),
                count == common.intersect(pfx(a as int)).len(),
                count <= a,
            decreases n0 - a,
        {
            let lref = &self.index[item0];
            let tid = lref[a];
            proof {
                assert(l0[a as int] == tid);
            }
            let mut all = true;
            let mut i: usize = 1;
            while i < m && all
                invariant
                    self.wf(),
                    m == transaction@.len(),
                    2 <= m,
                    forall|x: int|
                        0 <= x < m ==> (#[trigger] transaction@[x] as int) < self.index@.len(),
                    1 <= i <= m,
                    p@.len() == m,
                    forall|ii: int|
                        1 <= ii < m ==> #[trigger] p@[ii]
                            <= self.index@[transaction@[ii] as int]@.len(),
                    forall|ii: int, x: int|
                        1 <= ii < m && 0 <= x < p@[ii] ==> (
                        #[trigger] self.index@[transaction@[ii] as int]@[x]) < tid,
                    all ==> forall|k: int|
                        1 <= k < i ==> self.item_tids(#[trigger] transaction@[k] as int).contains(
                            tid as int,
                        ),
                    !all ==> exists|k: int|
                        1 <= k < m && !self.item_tids(
                            #[trigger] transaction@[k] as int,
                        ).contains(tid as int),
                decreases m - i,
            {
                let it = transaction[i];
                let lst = &self.index[it];
                let mut pi = p[i];
                while pi < lst.len() && lst[pi] < tid
                    invariant
                        lst@ == self.index@[it as int]@,
                        pi <= lst@.len(),
                        forall|x: int| 0 <= x < pi ==> lst@[x] < tid,
                    decreases lst@.len() - pi,
                {
                    pi += 1;
                }
                p.set(i, pi);
                let present = pi < lst.len() && lst[pi] == tid;
                proof {
                    assert(it == transaction@[i as int]);
                    assert(present == self.item_tids(it as int).contains(tid as int)) by {
                        if present {
                            assert(lst@[pi as int] == tid);
                        } else if self.item_tids(it as int).contains(tid as int) {
                            let x = choose|x: int| 0 <= x < lst@.len() && lst@[x] == tid as int;
                            assert(x >= pi);
                            assert(pi < lst@.len());
                            assert(lst@[pi as int] <= lst@[x]);
                            assert(lst@[pi as int] >= tid);
                        }
                    }
                }
                if !present {
                    all = false;
                }
                i += 1;
            }
            proof {
                let in_common = common.contains(tid as int);
                assert(in_common == all) by {
                    if all {
                        assert forall|k: int|
                            0 <= k < m implies self.item_tids(
                            #[trigger] transaction@[k] as int,
                        ).contains(tid as int) by {
                            if k == 0 {
                                assert(l0[a as int] == tid);
                            }
                        }
                    } else {
                        let k = choose|k: int|
                            1 <= k < m && !self.item_tids(transaction@[k] as int).contains(
                                tid as int,
                            );
                        assert(!self.common_tids(transaction@).contains(tid as int));
                    }
                }
                assert(pfx(a + 1) =~= pfx(a as int).insert(tid as int));
                assert(!pfx(a as int).contains(tid as int)) by {
                    if pfx(a as int).contains(tid as int) {
                        let x = choose|x: int| 0 <= x < a && l0[x] == tid as int;
                        assert(l0[x] < l0[a as int]);
                    }
                }
                if all {
                    assert(common.intersect(pfx(a + 1)) =~= common.intersect(
                        pfx(a as int),
                    ).insert(tid as int));
                    assert(!common.intersect(pfx(a as int)).contains(tid as int));
                } else {
                    assert(common.intersect(pfx(a + 1)) =~= common.intersect(pfx(a as int)));
                }
                if a + 1 < n0 {
                    assert forall|ii: int, x: int|
                        1 <= ii < m && 0 <= x < p@[ii] implies (
                    #[trigger] self.index@[transaction@[ii] as int]@[x]) < l0[a + 1] by {
                        assert(l0[a as int] < l0[a + 1]);
                    }
                }
            }
            if all {
                count += 1;
            }
            a += 1;
        }
        proof {
            assert(common.intersect(pfx(n0 as int)) =~= common) by {
                assert forall|tid: int| common.contains(tid) implies pfx(n0 as int).contains(
                    tid,
                ) by {
                    assert(self.item_tids(transaction@[0] as int).contains(tid));
                    let x = choose|x: int| 0 <= x < l0.len() && l0[x] == tid;
                }
            }
        }
        count
    }
}

} // verus!
