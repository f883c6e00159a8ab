//! Closed-pattern storage: buckets of candidate keys indexed by support.
//!
//! A bucket keeps its keys sorted by ascending cardinality.  A new key is
//! rejected exactly when some strictly larger key of the same support is a
//! superset of it — the closure test — and is otherwise inserted at the
//! first position whose key is at least as large.

use vstd::prelude::*;
use super::bitvector::BitVector;

verus! {

pub struct CPStorage {
    store: Vec<(usize, Vec<BitVector>)>,
}

impl CPStorage {
    /// Is there a bucket for this support?
    pub closed spec fn has_bucket(self, support: int) -> bool {
        exists|a: int| 0 <= a < self.store@.len() && self.store@[a].0 == support
    }

    /// Where that bucket sits in the backing vector.
    pub closed spec fn bucket_at(self, support: int) -> int {
        choose|a: int| 0 <= a < self.store@.len() && self.store@[a].0 == support
    }

    /// The keys recorded under `support`, in bucket order.
    pub closed spec fn bucket(self, support: int) -> Seq<BitVector> {
        if self.has_bucket(support) {
            self.store@[self.bucket_at(support)].1@
        } else {
            Seq::empty()
        }
    }

    /// Buckets have distinct supports, ascending cardinalities, and sound
    /// cardinality fields.
    pub closed spec fn wf(self) -> bool {
        &&& forall|a: int, b: int|
            0 <= a < b < self.store@.len() ==> (#[trigger] self.store@[a]).0 != (
            #[trigger] self.store@[b]).0
        &&& forall|a: int, k1: int, k2: int|
            #![trigger self.store@[a].1@[k1], self.store@[a].1@[k2]]
            0 <= a < self.store@.len() && 0 <= k1 < k2 < self.store@[a].1@.len()
                ==> self.store@[a].1@[k1].cardinality <= self.store@[a].1@[k2].cardinality
        &&& forall|a: int, k: int|
            0 <= a < self.store@.len() && 0 <= k < self.store@[a].1@.len() ==> (
            #[trigger] self.store@[a].1@[k]).wf()
    }

    /// Whatever bucket holds `support`, it is the one found at index `a`.
    proof fn lemma_bucket_is(self, support: int, a: int)
        requires
            self.wf(),
            0 <= a < self.store@.len(),
            self.store@[a].0 == support,
        ensures
            self.has_bucket(support),
            self.bucket_at(support) == a,
            self.bucket(support) == self.store@[a].1@,
    {
        assert(self.has_bucket(support));
        let b = self.bucket_at(support);
        if b != a {
            assert(false);
        }
    }

    /// An empty storage.
    pub fn new() -> (r: CPStorage)
        ensures
            r.wf(),
            forall|s: int| r.bucket(s) == Seq::<BitVector>::empty(),
    {
        let r = CPStorage { store: Vec::new() };
        proof {
            assert forall|s: int| r.bucket(s) == Seq::<BitVector>::empty() by {
                assert(!r.has_bucket(s));
            }
        }
        r
    }

    /// The closure test and insertion, as one operation.
    ///
    /// Rejects exactly when the bucket already holds a key of strictly
    /// greater cardinality that is a superset of `key`; otherwise inserts
    /// `key` before the first key of cardinality at least its own.
    pub fn insert_if_close(&mut self, key: BitVector, support: usize) -> (accepted: bool)
        requires
            old(self).wf(),
            key.wf(),
        ensures
            final(self).wf(),
            accepted == !(exists|k: int|
                0 <= k < old(self).bucket(support as int).len() && (#[trigger] old(self).bucket(
                    support as int,
                )[k]).cardinality > key.cardinality && key.set().subset_of(
                    old(self).bucket(support as int)[k].set(),
                )),
            !accepted ==> forall|s: int| final(self).bucket(s) == old(self).bucket(s),
            accepted ==> forall|s: int|
                s != support as int ==> final(self).bucket(s) == old(self).bucket(s),
            accepted ==> exists|pos: int|
                {
                    &&& 0 <= pos <= old(self).bucket(support as int).len()
                    &&& final(self).bucket(support as int) == old(self).bucket(
                        support as int,
                    ).insert(pos, key)
                    &&& forall|k: int|
                        0 <= k < pos ==> (#[trigger] old(self).bucket(
                            support as int,
                        )[k]).cardinality < key.cardinality
                    &&& pos < old(self).bucket(support as int).len() ==> old(self).bucket(
                        support as int,
                    )[pos].cardinality >= key.cardinality
                },
    {
        let n = self.store.len();
        let mut a: usize = 0;
        while a < n && self.store[a].0 != support
            invariant
                *self == *old(self),
                n == self.store@.len(),
                a <= n,
                forall|b: int| 0 <= b < a ==> (#[trigger] self.store@[b]).0 != support,
            decreases n - a,
        {
            a += 1;
        }
        if a == n {
            // No bucket yet: nothing can reject the key.
            proof {
                assert(!self.has_bucket(support as int));
            }
            let mut bucket: Vec<BitVector> = Vec::new();
            bucket.push(key);
            let ghost pre = *self;
            self.store.push((support, bucket));
            proof {
                let m = self.store@.len() - 1;
                assert forall|a2: int, b2: int|
                    0 <= a2 < b2 < self.store@.len() implies (#[trigger] self.store@[a2]).0 != (
                #[trigger] self.store@[b2]).0 by {
                    if b2 < m {
                        assert(self.store@[a2] == pre.store@[a2]);
                        assert(self.store@[b2] == pre.store@[b2]);
                    } else {
                        assert(self.store@[a2] == pre.store@[a2]);
                        assert(pre.store@[a2].0 != support);
                    }
                }
                self.lemma_bucket_is(support as int, m);
                assert(self.bucket(support as int) =~= pre.bucket(support as int).insert(0, key));
                assert forall|s: int| s != support as int implies self.bucket(s) == pre.bucket(
                    s,
                ) by {
                    if pre.has_bucket(s) {
                        let b = pre.bucket_at(s);
                        assert(self.store@[b] == pre.store@[b]);
                        self.lemma_bucket_is(s, b);
                    } else {
                        assert(!self.has_bucket(s)) by {
                            if self.has_bucket(s) {
                                let b = self.bucket_at(s);
                                assert(0 <= b < self.store@.len() && self.store@[b].0 == s);
                                assert(b < m ==> pre.store@[b].0 == s);
                            }
                        }
                    }
                }
            }
            return true;
        }
        proof {
            self.lemma_bucket_is(support as int, a as int);
        }
        let ghost obucket = self.bucket(support as int);
        let blen = self.store[a].1.len();
        let mut idx: usize = 0;
        while idx < blen && self.store[a].1[idx].cardinality < key.cardinality
            invariant
                *self == *old(self),
                self.wf(),
                a < self.store@.len(),
                self.store@[a as int].0 == support,
                obucket == self.store@[a as int].1@,
                blen == obucket.len(),
                idx <= blen,
                forall|k: int|
                    0 <= k < idx ==> (#[trigger] obucket[k]).cardinality < key.cardinality,
            decreases blen - idx,
        {
            idx += 1;
        }
        // Keys before idx are strictly smaller than the candidate, so they
        // cannot reject it; scan the rest for a strict superset.
        let mut j: usize = idx;
        while j < blen
            invariant
                *self == *old(self),
                self.wf(),
                key.wf(),
                a < self.store@.len(),
                self.store@[a as int].0 == support,
                obucket == self.store@[a as int].1@,
                blen == obucket.len(),
                idx <= j <= blen,
                forall|k: int|
                    0 <= k < idx ==> (#[trigger] obucket[k]).cardinality < key.cardinality,
                forall|k: int|
                    idx <= k < j ==> !((#[trigger] obucket[k]).cardinality > key.cardinality
                        && key.set().subset_of(obucket[k].set())),
            decreases blen - j,
        {
            let q = &self.store[a].1[j];
            if key.is_subset(q) {
                proof {
                    old(self).lemma_bucket_is(support as int, a as int);
                    assert(old(self).bucket(support as int) == obucket);
                    assert(old(self).bucket(support as int)[j as int].cardinality
                        > key.cardinality && key.set().subset_of(
                        old(self).bucket(support as int)[j as int].set(),
                    ));
                }
                return false;
            }
            j += 1;
        }
        proof {
            assert forall|k: int|
                0 <= k < obucket.len() implies !((#[trigger] obucket[k]).cardinality
                > key.cardinality && key.set().subset_of(obucket[k].set())) by {
                if k < idx {
                }
            }
        }
        let ghost pre = *self;
        let mut pair = self.store.swap_remove(a);
        pair.1.insert(idx, key);
        self.store.push(pair);
        proof {
            let m = self.store@.len() - 1;
            // The new store maps index-for-index onto the old one: the last
            // old entry moved to `a`, the changed bucket sits at the end.
            assert(self.store@.len() == pre.store@.len());
            assert(self.store@[m].0 == support);
            assert(self.store@[m].1@ == obucket.insert(idx as int, key));
            assert(forall|x: int| 0 <= x < m && x != a ==> self.store@[x] == pre.store@[x]);
            assert((a as int) < m ==> self.store@[a as int] == pre.store@[m]);
            let ghost src = |x: int|
                if x == m {
                    a as int
                } else if x == a as int && (a as int) < m {
                    m
                } else {
                    x
                };
            assert forall|x: int|
                0 <= x < self.store@.len() implies 0 <= src(x) < pre.store@.len() && (
            #[trigger] self.store@[x]).0 == pre.store@[src(x)].0 by {}
            assert forall|a2: int, b2: int|
                0 <= a2 < b2 < self.store@.len() implies (#[trigger] self.store@[a2]).0 != (
            #[trigger] self.store@[b2]).0 by {
                assert(self.store@[a2].0 == pre.store@[src(a2)].0);
                assert(self.store@[b2].0 == pre.store@[src(b2)].0);
                assert(src(a2) != src(b2));
            }
            // Sortedness of the changed bucket.
            assert forall|k1: int, k2: int|
                0 <= k1 < k2 < self.store@[m].1@.len() implies self.store@[m].1@[k1].cardinality
                <= self.store@[m].1@[k2].cardinality by {
                let nb = obucket.insert(idx as int, key);
                if k2 < idx {
                    assert(nb[k1] == obucket[k1]);
                    assert(nb[k2] == obucket[k2]);
                } else if k1 == idx as int && k2 > idx {
                    assert(nb[k2] == obucket[k2 - 1]);
                    assert(obucket[idx as int].cardinality <= obucket[k2 - 1].cardinality || idx
                        == k2 - 1);
                } else if k1 < idx && k2 == idx as int {
                    assert(nb[k1] == obucket[k1]);
                } else if k1 < idx && k2 > idx {
                    assert(nb[k1] == obucket[k1]);
                    assert(nb[k2] == obucket[k2 - 1]);
                } else {
                    assert(nb[k1] == obucket[k1 - 1]);
                    assert(nb[k2] == obucket[k2 - 1]);
                }
            }
            // Soundness of every stored key.
            assert forall|x: int, k: int|
                0 <= x < self.store@.len() && 0 <= k < (#[trigger] self.store@[x]).1@.len() implies (
            #[trigger] self.store@[x].1@[k]).wf() by {
                if x != m {
                    assert(self.store@[x] == pre.store@[src(x)]);
                } else {
                    let nb = obucket.insert(idx as int, key);
                    if k < idx {
                        assert(nb[k] == obucket[k]);
                    } else if k == idx as int {
                        assert(nb[k] == key);
                    } else {
                        assert(nb[k] == obucket[k - 1]);
                    }
                }
            }
            assert forall|x: int, k1: int, k2: int|
                #![trigger self.store@[x].1@[k1], self.store@[x].1@[k2]]
                0 <= x < self.store@.len() && 0 <= k1 < k2 < self.store@[x].1@.len()
                implies self.store@[x].1@[k1].cardinality <= self.store@[x].1@[k2].cardinality by {
                if x != m {
                    assert(self.store@[x] == pre.store@[src(x)]);
                }
            }
            self.lemma_bucket_is(support as int, m);
            assert forall|s: int| s != support as int implies self.bucket(s) == pre.bucket(s) by {
                if pre.has_bucket(s) {
                    let b = pre.bucket_at(s);
                    assert(pre.store@[b].0 == s);
                    if b == a as int {
                        assert(false);
                    } else if b == pre.store@.len() - 1 {
                        assert(self.store@[a as int] == pre.store@[b]);
                        self.lemma_bucket_is(s, a as int);
                    } else {
                        assert(self.store@[b] == pre.store@[b]);
                        self.lemma_bucket_is(s, b);
                    }
                } else {
                    assert(!self.has_bucket(s)) by {
                        if self.has_bucket(s) {
                            let b = self.bucket_at(s);
                            assert(0 <= b < self.store@.len() && self.store@[b].0 == s);
                            if b == m {
                            } else if b == a as int {
                                assert(pre.store@[pre.store@.len() - 1].0 == s);
                            } else {
                                assert(pre.store@[b].0 == s);
                            }
                        }
                    }
                }
            }
            assert(0 <= idx as int <= obucket.len());
        }
        true
    }
}

} // verus!
