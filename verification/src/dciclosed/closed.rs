//! The initial frame of the DCI-Closed recursion and its duplicate check.

use vstd::prelude::*;
use super::itemset::ItemSet;
use super::matrix::{Matrix, Cover};

verus! {

/// Items of the matrix that occur in every transaction.
pub open spec fn mat_universal(m: Matrix) -> Set<int> {
    Set::new(|i: int| 0 <= i < m.rows().len() && m.rows()[i].len() == m.width())
}

/// Frequent items of the matrix that are not universal.
pub open spec fn mat_frequent_proper(m: Matrix, min_sup: int) -> Set<int> {
    Set::new(
        |i: int|
            0 <= i < m.rows().len() && m.rows()[i].len() >= min_sup && m.rows()[i].len()
                < m.width(),
    )
}

/// The universal items are exactly the items whose row is the full
/// transaction id range, so their joint cover is every transaction.
pub proof fn lemma_universal_cover(m: Matrix)
    requires
        m.wf(),
    ensures
        m.cover_spec(mat_universal(m)) == vstd::set_lib::set_int_range(0, m.width()),
        m.support_spec(mat_universal(m)) == m.width(),
{
    let u = mat_universal(m);
    let range = vstd::set_lib::set_int_range(0, m.width());
    m.lemma_width_nonneg();
    vstd::set_lib::lemma_int_range(0, m.width());
    assert forall|t: int| range.contains(t) implies m.cover_spec(u).contains(t) by {
        assert forall|i: int| u.contains(i) implies #[trigger] m.rows()[i].contains(t) by {
            m.lemma_row_bounds(i);
            crate::model::lemma_subset_same_len_equal(range, m.rows()[i]);
        }
    }
    assert(m.cover_spec(u) =~= range);
}

/// The initial sets for the algorithm.
pub struct InitialSets {
    /// Itemset with all items that occur in all transactions.
    pub closed: ItemSet,
    /// Always empty.
    pub pre: ItemSet,
    /// Itemset with all frequent items, except those in closed.
    pub post: ItemSet,
}

impl InitialSets {
    /// Scan per-item supports once: universal items open the bottom closure,
    /// the remaining frequent items become extension candidates.
    pub fn new(dataset: &Matrix, min_sup: usize) -> (r: InitialSets)
        requires
            dataset.wf(),
        ensures
            r.closed.wf(),
            r.pre.wf(),
            r.post.wf(),
            r.pre@ == Seq::<int>::empty(),
            r.closed.set() == mat_universal(*dataset),
            r.post.set() == mat_frequent_proper(*dataset, min_sup as int),
    {
        let mut closed = ItemSet::empty();
        let pre = ItemSet::empty();
        let mut post = ItemSet::empty();

        let transactions_count = dataset.transactions_count();
        let items = dataset.items_count();

        let mut i: usize = 0;
        while i < items
            invariant
                dataset.wf(),
                items == dataset.rows().len(),
                transactions_count as int == dataset.width(),
                i <= items,
                closed.wf(),
                post.wf(),
                closed.set() == Set::new(
                    |x: int| 0 <= x < i && dataset.rows()[x].len() == dataset.width(),
                ),
                post.set() == Set::new(
                    |x: int|
                        0 <= x < i && dataset.rows()[x].len() >= min_sup && dataset.rows()[x].len()
                            < dataset.width(),
                ),
            decreases items - i,
        {
            let support = dataset.item_support(i);

            let ghost closed_pre = closed.set();
            let ghost post_pre = post.set();
            if support == transactions_count {
                closed.add(i);
                proof {
                    assert(closed.set() =~= Set::new(
                        |x: int| 0 <= x < i + 1 && dataset.rows()[x].len() == dataset.width(),
                    ));
                    assert(post.set() =~= Set::new(
                        |x: int|
                            0 <= x < i + 1 && dataset.rows()[x].len() >= min_sup
                                && dataset.rows()[x].len() < dataset.width(),
                    ));
                }
            } else if support >= min_sup {
                post.add(i);
                proof {
                    dataset.lemma_row_bounds(i as int);
                    assert(closed.set() =~= Set::new(
                        |x: int| 0 <= x < i + 1 && dataset.rows()[x].len() == dataset.width(),
                    ));
                    assert(post.set() =~= Set::new(
                        |x: int|
                            0 <= x < i + 1 && dataset.rows()[x].len() >= min_sup
                                && dataset.rows()[x].len() < dataset.width(),
                    ));
                }
            } else {
                proof {
                    dataset.lemma_row_bounds(i as int);
                    assert(closed.set() =~= Set::new(
                        |x: int| 0 <= x < i + 1 && dataset.rows()[x].len() == dataset.width(),
                    ));
                    assert(post.set() =~= Set::new(
                        |x: int|
                            0 <= x < i + 1 && dataset.rows()[x].len() >= min_sup
                                && dataset.rows()[x].len() < dataset.width(),
                    ));
                }
            }
            i += 1;
        }
        proof {
            assert(closed.set() =~= mat_universal(*dataset));
            assert(post.set() =~= mat_frequent_proper(*dataset, min_sup as int));
        }
        InitialSets { closed, pre, post }
    }
}

/// Would extending the current closure re-produce a closure that an earlier
/// branch already enumerated?  True exactly when some pre-set item supports
/// the whole new cover.
pub fn is_dup(dataset: &Matrix, new_gen_cover: &Cover, pre_set: &ItemSet) -> (r: bool)
    requires
        dataset.wf(),
        pre_set.below(dataset.rows().len() as int),
        new_gen_cover.width() == dataset.width(),
    ensures
        r == exists|j: int|
            pre_set.set().contains(j) && new_gen_cover@.subset_of(#[trigger] dataset.rows()[j]),
{
    let n = pre_set.len();
    let mut p: usize = 0;
    while p < n
        invariant
            dataset.wf(),
            pre_set.below(dataset.rows().len() as int),
            new_gen_cover.width() == dataset.width(),
            n == pre_set@.len(),
            p <= n,
            forall|q: int|
                0 <= q < p ==> !new_gen_cover@.subset_of(#[trigger] dataset.rows()[pre_set@[q]]),
        decreases n - p,
    {
        let item = pre_set.get(p);
        proof {
            assert(pre_set@.contains(pre_set@[p as int]));
            assert(pre_set.set().contains(item as int));
        }
        if dataset.supports(item, new_gen_cover) {
            return true;
        }
        p += 1;
    }
    proof {
        assert forall|j: int|
            pre_set.set().contains(j) implies !new_gen_cover@.subset_of(
            #[trigger] dataset.rows()[j],
        ) by {
            let q = choose|q: int| 0 <= q < pre_set@.len() && pre_set@[q] == j;
            assert(!new_gen_cover@.subset_of(dataset.rows()[pre_set@[q]]));
        }
    }
    false
}

} // verus!
