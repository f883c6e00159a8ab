//! The items-by-transactions bit grid that DCI-Closed enumerates over.
//!
//! The grid itself is a `bitmatrix::BitMatrix`; row `i` is item `i`'s
//! characteristic vector over transaction ids.  The matrix is reached only
//! through a small trusted layer whose contracts speak of `grid_rows`, the
//! set of transaction ids whose bit is set in each row.  Everything built on
//! top — covers, support counts, subset tests — is verified against those
//! contracts.

use vstd::prelude::*;
use vstd::set_lib::set_int_range;
use vstd::set_lib::lemma_int_range;
use vstd::set_lib::lemma_len_subset;
use crate::model;
use super::itemset::ItemSet;

verus! {

#[verifier::external_type_specification]
#[verifier::external_body]
pub struct ExBitMatrix(bitmatrix::BitMatrix);

/// What each row of a bit grid holds: the set of column indices whose bit is
/// set, one set per row.
pub uninterp spec fn grid_rows(m: bitmatrix::BitMatrix) -> Seq<Set<int>>;

/// The width a bit grid was created with.
pub uninterp spec fn grid_width(m: bitmatrix::BitMatrix) -> int;

/// Relies on bitmatrix::BitMatrix::new: a grid of height*width bits, all
/// clear.  The size bound keeps the bit count from overflowing the internal
/// `height * width` product and the backing allocation from exceeding the
/// byte-size limit of a Rust allocation.
#[verifier::external_body]
fn grid_new(height: usize, width: usize) -> (m: bitmatrix::BitMatrix)
    requires
        height * width <= usize::MAX / 2,
    ensures
        grid_rows(m).len() == height,
        grid_width(m) == width,
        forall|i: int| 0 <= i < height ==> grid_rows(m)[i] == Set::<int>::empty(),
{
    bitmatrix::BitMatrix::new(height, width)
}

/// Relies on bitmatrix::BitMatrix::set: sets one bit; every other bit and
/// the dimensions stay as they were.
#[verifier::external_body]
fn grid_set(m: &mut bitmatrix::BitMatrix, i: usize, t: usize)
    requires
        i < grid_rows(*old(m)).len(),
        t < grid_width(*old(m)),
    ensures
        grid_rows(*final(m)) == grid_rows(*old(m)).update(
            i as int,
            grid_rows(*old(m))[i as int].insert(t as int),
        ),
        grid_width(*final(m)) == grid_width(*old(m)),
{
    m.set((i, t), true);
}

/// Relies on Index<(usize, usize)> for bitmatrix::BitMatrix: reads one bit.
#[verifier::external_body]
fn grid_get(m: &bitmatrix::BitMatrix, i: usize, t: usize) -> (b: bool)
    requires
        i < grid_rows(*m).len(),
        t < grid_width(*m),
    ensures
        b == grid_rows(*m)[i as int].contains(t as int),
{
    m[(i, t)]
}

/// The set of transaction ids an enumeration step is currently restricted
/// to, as a dense bit vector over transaction ids.
pub struct Cover {
    bits: Vec<bool>,
}

impl View for Cover {
    type V = Set<int>;

    closed spec fn view(&self) -> Set<int> {
        Set::new(|t: int| 0 <= t < self.bits@.len() && self.bits@[t])
    }
}

impl Cover {
    /// The transaction id range this cover draws from.
    pub closed spec fn width(self) -> int {
        self.bits@.len() as int
    }

    /// A cover only holds ids below its width, so it is finite.
    pub proof fn lemma_bounds(self)
        ensures
            self@.finite(),
            self@.subset_of(set_int_range(0, self.width())),
            self@.len() <= self.width(),
    {
        lemma_int_range(0, self.width());
        assert(self@.subset_of(set_int_range(0, self.width())));
        lemma_len_subset(self@, set_int_range(0, self.width()));
    }

    /// The all-ones cover: every transaction id below `width`.
    pub fn full(width: usize) -> (r: Cover)
        ensures
            r@ == set_int_range(0, width as int),
            r.width() == width,
    {
        let bits: Vec<bool> = vec![true; width];
        let r = Cover { bits };
        proof {
            assert(r@ =~= set_int_range(0, width as int));
        }
        r
    }

    /// How many transaction ids the cover holds.
    pub fn count(&self) -> (r: usize)
        ensures
            r == self@.len(),
    {
        let mut r: usize = 0;
        let mut t: usize = 0;
        let ghost full = self@;
        proof {
            assert(Set::new(|x: int| full.contains(x) && x < 0) =~= Set::<int>::empty());
        }
        while t < self.bits.len()
            invariant
                t <= self.bits@.len(),
                full == self@,
                r <= t,
                r == Set::new(|x: int| full.contains(x) && x < t).len(),
            decreases self.bits@.len() - t,
        {
            let ghost pre = Set::new(|x: int| full.contains(x) && x < t);
            let ghost post = Set::new(|x: int| full.contains(x) && x < t + 1);
            proof {
                self.lemma_bounds();
                lemma_len_subset(pre, self@);
                if self.bits@[t as int] {
                    assert(post =~= pre.insert(t as int));
                    assert(!pre.contains(t as int));
                } else {
                    assert(post =~= pre);
                }
            }
            if self.bits[t] {
                r += 1;
            }
            t += 1;
        }
        proof {
            assert(Set::new(|x: int| self@.contains(x) && x < self.bits@.len()) =~= self@);
        }
        r
    }
}

/// Does some occurrence carry the id value `v`?
pub open spec fn some_id_is(txs: Seq<Vec<u32>>, v: int) -> bool {
    exists|t: int, j: int|
        0 <= t < txs.len() && 0 <= j < txs[t]@.len() && (#[trigger] txs[t]@[j]) as int == v
}

/// The one condition under which no bit matrix can be allocated for the
/// dataset: some item id is so large that a grid of `(id+1) * txs.len()`
/// bits would pass the allocation bound.
pub open spec fn grid_too_large(txs: Seq<Vec<u32>>) -> bool {
    exists|t: int, j: int|
        0 <= t < txs.len() && 0 <= j < txs[t]@.len() && ((#[trigger] txs[t]@[j]) as int) + 1
            > usize::MAX as int / 2 / txs.len() as int
}

/// A transaction dataset as a bit matrix: one row per item, one column per
/// transaction.
pub struct Matrix {
    grid: bitmatrix::BitMatrix,
    n_items: usize,
    n_tx: usize,
}

impl Matrix {
    /// Row `i`: the set of transaction ids whose transaction has item `i`.
    pub closed spec fn rows(self) -> Seq<Set<int>> {
        grid_rows(self.grid)
    }

    /// The number of transactions the matrix was built over.
    pub closed spec fn width(self) -> int {
        self.n_tx as int
    }

    /// Dimensions agree with the grid and rows stay inside the id range.
    pub closed spec fn wf(self) -> bool {
        &&& grid_rows(self.grid).len() == self.n_items
        &&& grid_width(self.grid) == self.n_tx
        &&& forall|i: int|
            0 <= i < self.n_items ==> (#[trigger] grid_rows(self.grid)[i]).subset_of(
                set_int_range(0, self.n_tx as int),
            )
    }

    /// The cover of an itemset: the transaction ids on which every item of
    /// `s` has its bit set.
    pub open spec fn cover_spec(self, s: Set<int>) -> Set<int> {
        Set::new(
            |t: int|
                0 <= t < self.width() && forall|i: int|
                    s.contains(i) ==> #[trigger] self.rows()[i].contains(t),
        )
    }

    /// The support of an itemset: how many transactions its cover holds.
    pub open spec fn support_spec(self, s: Set<int>) -> nat {
        self.cover_spec(s).len()
    }

    /// The transaction count is a count.
    pub proof fn lemma_width_nonneg(self)
        ensures
            self.width() >= 0,
    {
    }

    /// Rows are finite subsets of the transaction id range.
    pub proof fn lemma_row_bounds(self, i: int)
        requires
            self.wf(),
            0 <= i < self.rows().len(),
        ensures
            self.rows()[i].finite(),
            self.rows()[i].subset_of(set_int_range(0, self.width())),
            self.rows()[i].len() <= self.width(),
    {
        lemma_int_range(0, self.width());
        lemma_len_subset(self.rows()[i], set_int_range(0, self.width()));
    }

    /// Covers are finite subsets of the transaction id range.
    pub proof fn lemma_cover_spec_bounds(self, s: Set<int>)
        ensures
            self.cover_spec(s).finite(),
            self.cover_spec(s).subset_of(set_int_range(0, self.width())),
            self.cover_spec(s).len() <= self.width(),
    {
        lemma_int_range(0, self.width());
        assert(self.cover_spec(s).subset_of(set_int_range(0, self.width())));
        lemma_len_subset(self.cover_spec(s), set_int_range(0, self.width()));
    }

    /// Covering is antitone: a larger itemset has a smaller cover.
    pub proof fn lemma_cover_spec_antitone(self, s1: Set<int>, s2: Set<int>)
        requires
            s1.subset_of(s2),
        ensures
            self.cover_spec(s2).subset_of(self.cover_spec(s1)),
            self.support_spec(s2) <= self.support_spec(s1),
    {
        self.lemma_cover_spec_bounds(s1);
        lemma_len_subset(self.cover_spec(s2), self.cover_spec(s1));
    }

    /// An item that supports the whole cover of `s` can join `s` without
    /// changing the cover.
    pub proof fn lemma_cover_spec_insert_supported(self, s: Set<int>, j: int)
        requires
            self.cover_spec(s).subset_of(self.rows()[j]),
        ensures
            self.cover_spec(s.insert(j)) == self.cover_spec(s),
    {
        assert forall|t: int| self.cover_spec(s).contains(t) implies self.cover_spec(
            s.insert(j),
        ).contains(t) by {
            assert forall|i: int| s.insert(j).contains(i) implies #[trigger] self.rows()[i].contains(
                t,
            ) by {
                if i != j {
                    assert(s.contains(i));
                }
            }
        }
        assert forall|t: int| self.cover_spec(s.insert(j)).contains(t) implies self.cover_spec(
            s,
        ).contains(t) by {
            assert(forall|i: int| s.contains(i) ==> s.insert(j).contains(i));
        }
        assert(self.cover_spec(s.insert(j)) =~= self.cover_spec(s));
    }

    /// Covering one more item restricts the cover to that item's row.
    pub proof fn lemma_cover_spec_insert_pointwise(self, s: Set<int>, j: int)
        ensures
            forall|t: int|
                #[trigger] self.cover_spec(s.insert(j)).contains(t) == (self.cover_spec(
                    s,
                ).contains(t) && self.rows()[j].contains(t)),
    {
        assert forall|t: int|
            #[trigger] self.cover_spec(s.insert(j)).contains(t) == (self.cover_spec(s).contains(t)
                && self.rows()[j].contains(t)) by {
            if self.cover_spec(s.insert(j)).contains(t) {
                assert(s.insert(j).contains(j));
                assert(forall|i: int| s.contains(i) ==> s.insert(j).contains(i));
            }
            if self.cover_spec(s).contains(t) && self.rows()[j].contains(t) {
                assert forall|i: int| s.insert(j).contains(i) implies #[trigger] self.rows()[i].contains(
                    t,
                ) by {
                    if i != j {
                        assert(s.contains(i));
                    }
                }
            }
        }
    }

    /// The cover of a set containing item `i` sits inside row `i`.
    pub proof fn lemma_cover_spec_within_row(self, s: Set<int>, i: int)
        requires
            self.wf(),
            s.contains(i),
            0 <= i < self.rows().len(),
        ensures
            self.cover_spec(s).subset_of(self.rows()[i]),
            self.support_spec(s) <= self.rows()[i].len(),
    {
        self.lemma_row_bounds(i);
        assert(self.cover_spec(s).subset_of(self.rows()[i]));
        lemma_len_subset(self.cover_spec(s), self.rows()[i]);
    }

    /// How many items the dataset has.
    pub fn items_count(&self) -> (r: usize)
        requires
            self.wf(),
        ensures
            r == self.rows().len(),
    {
        self.n_items
    }

    /// How many transactions the dataset has.
    pub fn transactions_count(&self) -> (r: usize)
        ensures
            r as int == self.width(),
    {
        self.n_tx
    }

    /// The support of a single item: the population count of its row.
    pub fn item_support(&self, item: usize) -> (r: usize)
        requires
            self.wf(),
            item < self.rows().len(),
        ensures
            r == self.rows()[item as int].len(),
    {
        let ghost row = self.rows()[item as int];
        let mut r: usize = 0;
        let mut t: usize = 0;
        proof {
            assert(Set::new(|x: int| row.contains(x) && x < 0) =~= Set::<int>::empty());
        }
        while t < self.n_tx
            invariant
                self.wf(),
                item < self.rows().len(),
                row == self.rows()[item as int],
                t <= self.n_tx,
                r <= t,
                r == Set::new(|x: int| row.contains(x) && x < t).len(),
            decreases self.n_tx - t,
        {
            let ghost pre = Set::new(|x: int| row.contains(x) && x < t);
            let ghost post = Set::new(|x: int| row.contains(x) && x < t + 1);
            proof {
                self.lemma_row_bounds(item as int);
                lemma_len_subset(pre, row);
                if row.contains(t as int) {
                    assert(post =~= pre.insert(t as int));
                    assert(!pre.contains(t as int));
                } else {
                    assert(post =~= pre);
                }
            }
            if grid_get(&self.grid, item, t) {
                r += 1;
            }
            t += 1;
        }
        proof {
            self.lemma_row_bounds(item as int);
            assert(Set::new(|x: int| row.contains(x) && x < self.n_tx) =~= row);
        }
        r
    }

    /// Restrict `cov` to the transactions that also have item `item`.
    fn and_row(&self, item: usize, cov: &mut Cover)
        requires
            self.wf(),
            item < self.rows().len(),
            old(cov).width() == self.width(),
        ensures
            final(cov)@ == old(cov)@.intersect(self.rows()[item as int]),
            final(cov).width() == old(cov).width(),
    {
        let mut t: usize = 0;
        while t < self.n_tx
            invariant
                self.wf(),
                item < self.rows().len(),
                t <= self.n_tx,
                cov.width() == self.width(),
                cov.bits@.len() == self.n_tx,
                forall|x: int|
                    0 <= x < t ==> cov.bits@[x] == (old(cov).bits@[x]
                        && self.rows()[item as int].contains(x)),
                forall|x: int| t <= x < self.n_tx ==> cov.bits@[x] == old(cov).bits@[x],
            decreases self.n_tx - t,
        {
            let b = grid_get(&self.grid, item, t);
            let keep = cov.bits[t] && b;
            cov.bits.set(t, keep);
            t += 1;
        }
        proof {
            assert(cov@ =~= old(cov)@.intersect(self.rows()[item as int]));
        }
    }

    /// The cover of an itemset, built by intersecting the rows of its items
    /// into the all-ones cover.
    pub fn cover(&self, itemset: &ItemSet) -> (r: Cover)
        requires
            self.wf(),
            itemset.below(self.rows().len() as int),
        ensures
            r@ == self.cover_spec(itemset.set()),
            r.width() == self.width(),
    {
        let mut cov = Cover::full(self.n_tx);
        let n = itemset.len();
        let mut p: usize = 0;
        while p < n
            invariant
                self.wf(),
                itemset.below(self.rows().len() as int),
                n == itemset@.len(),
                p <= n,
                cov.width() == self.width(),
                cov@ == Set::new(
                    |t: int|
                        0 <= t < self.width() && forall|j: int|
                            0 <= j < p ==> #[trigger] self.rows()[itemset@[j]].contains(t),
                ),
            decreases n - p,
        {
            let item = itemset.get(p);
            proof {
                assert(itemset.set().contains(itemset@[p as int]));
            }
            self.and_row(item, &mut cov);
            proof {
                let prev = Set::new(
                    |t: int|
                        0 <= t < self.width() && forall|j: int|
                            0 <= j < p ==> #[trigger] self.rows()[itemset@[j]].contains(t),
                );
                let next = Set::new(
                    |t: int|
                        0 <= t < self.width() && forall|j: int|
                            0 <= j < p + 1 ==> #[trigger] self.rows()[itemset@[j]].contains(t),
                );
                assert forall|t: int| prev.intersect(self.rows()[item as int]).contains(t) implies next.contains(
                    t,
                ) by {
                    assert forall|j: int| 0 <= j < p + 1 implies #[trigger] self.rows()[itemset@[j]].contains(
                        t,
                    ) by {
                        if j < p {
                        } else {
                            assert(itemset@[j] == item as int);
                        }
                    }
                }
                assert(next =~= prev.intersect(self.rows()[item as int]));
            }
            p += 1;
        }
        proof {
            let fin = Set::new(
                |t: int|
                    0 <= t < self.width() && forall|j: int|
                        0 <= j < n ==> #[trigger] self.rows()[itemset@[j]].contains(t),
            );
            assert forall|t: int| fin.contains(t) implies self.cover_spec(itemset.set()).contains(t) by {
                assert forall|i: int| itemset.set().contains(i) implies #[trigger] self.rows()[i].contains(
                    t,
                ) by {
                    let j = choose|j: int| 0 <= j < itemset@.len() && itemset@[j] == i;
                    assert(self.rows()[itemset@[j]].contains(t));
                }
            }
            assert forall|t: int| self.cover_spec(itemset.set()).contains(t) implies fin.contains(t) by {
                assert forall|j: int| 0 <= j < n implies #[trigger] self.rows()[itemset@[j]].contains(
                    t,
                ) by {
                    assert(itemset.set().contains(itemset@[j]));
                }
            }
            assert(fin =~= self.cover_spec(itemset.set()));
        }
        cov
    }

    /// The support of an itemset: the population count of its cover.
    pub fn support(&self, itemset: &ItemSet) -> (r: usize)
        requires
            self.wf(),
            itemset.below(self.rows().len() as int),
        ensures
            r == self.support_spec(itemset.set()),
    {
        let cov = self.cover(itemset);
        cov.count()
    }

    /// Does item `item` appear in every transaction of the cover?
    pub fn supports(&self, item: usize, cover: &Cover) -> (r: bool)
        requires
            self.wf(),
            item < self.rows().len(),
            cover.width() == self.width(),
        ensures
            r == cover@.subset_of(self.rows()[item as int]),
    {
        let mut t: usize = 0;
        while t < self.n_tx
            invariant
                self.wf(),
                item < self.rows().len(),
                cover.width() == self.width(),
                cover.bits@.len() == self.n_tx,
                t <= self.n_tx,
                forall|x: int| 0 <= x < t && cover@.contains(x) ==> self.rows()[item as int].contains(x),
            decreases self.n_tx - t,
        {
            if cover.bits[t] {
                proof {
                    assert(cover@.contains(t as int));
                }
                if !grid_get(&self.grid, item, t) {
                    return false;
                }
            }
            t += 1;
        }
        proof {
            assert forall|x: int| cover@.contains(x) implies self.rows()[item as int].contains(x) by {
                assert(0 <= x < self.n_tx);
            }
        }
        true
    }

    /// Build the matrix for a dataset: row `i` holds transaction `t` exactly
    /// when transaction `t` contains item id `i`.  Returns `None` when the
    /// grid would exceed the size bound of `grid_new`.
    pub fn from_transactions(txs: &Vec<Vec<u32>>) -> (r: Option<Matrix>)
        ensures
            match r {
                Some(m) => {
                    &&& m.wf()
                    &&& m.width() == txs@.len()
                    &&& forall|i: int|
                        0 <= i < m.rows().len() ==> m.rows()[i] == model::item_cover(
                            model::tx_views(txs@),
                            i,
                        )
                    &&& forall|t: int, j: int|
                        0 <= t < txs@.len() && 0 <= j < txs@[t]@.len() ==> txs@[t]@[j]
                            < m.rows().len()
                    &&& txs@.len() == 0 ==> m.rows().len() == 0
                },
                None => true,
            },
            r.is_none() == grid_too_large(txs@),
    {
        let ghost txsv = model::tx_views(txs@);
        // First pass: the number of rows is one past the largest id present.
        let mut n_items: usize = 0;
        let mut t: usize = 0;
        while t < txs.len()
            invariant
                t <= txs@.len(),
                txs@.len() == 0 ==> n_items == 0,
                n_items == 0 || some_id_is(txs@, n_items - 1),
                forall|u: int, j: int|
                    0 <= u < t && 0 <= j < txs@[u]@.len() ==> txs@[u]@[j] < n_items,
            decreases txs@.len() - t,
        {
            let tx = &txs[t];
            let mut j: usize = 0;
            while j < tx.len()
                invariant
                    tx@ == txs@[t as int]@,
                    t < txs@.len(),
                    j <= tx@.len(),
                    n_items == 0 || some_id_is(txs@, n_items - 1),
                    forall|u: int, jj: int|
                        0 <= u < t && 0 <= jj < txs@[u]@.len() ==> txs@[u]@[jj] < n_items,
                    forall|jj: int| 0 <= jj < j ==> tx@[jj] < n_items,
                decreases tx@.len() - j,
            {
                let id = tx[j] as usize;
                if id >= n_items {
                    if id == usize::MAX {
                        proof {
                            assert(txs@[t as int]@[j as int] as int == usize::MAX as int);
                            assert(usize::MAX as int / 2 / txs@.len() as int
                                <= usize::MAX as int) by {
                                vstd::arithmetic::div_mod::lemma_div_is_ordered_by_denominator(
                                    usize::MAX as int,
                                    1,
                                    2,
                                );
                                vstd::arithmetic::div_mod::lemma_div_is_ordered_by_denominator(
                                    usize::MAX as int / 2,
                                    1,
                                    txs@.len() as int,
                                );
                            }
                            assert(grid_too_large(txs@));
                        }
                        return None;
                    }
                    n_items = id + 1;
                    proof {
                        assert(txs@[t as int]@[j as int] as int == n_items - 1);
                        assert(some_id_is(txs@, n_items - 1));
                    }
                }
                j += 1;
            }
            t += 1;
        }
        // Guard the grid allocation: the largest id decides.
        if txs.len() > 0 && n_items > usize::MAX / 2 / txs.len() {
            proof {
                let v = n_items - 1;
                assert(some_id_is(txs@, v));
                let (t0, j0) = choose|t0: int, j0: int|
                    0 <= t0 < txs@.len() && 0 <= j0 < txs@[t0]@.len() && (
                    #[trigger] txs@[t0]@[j0]) as int == v;
                assert((txs@[t0]@[j0] as int) + 1 > usize::MAX as int / 2 / txs@.len() as int);
                assert(grid_too_large(txs@));
            }
            return None;
        }
        proof {
            assert(!grid_too_large(txs@)) by {
                if grid_too_large(txs@) {
                    let (t0, j0) = choose|t0: int, j0: int|
                        0 <= t0 < txs@.len() && 0 <= j0 < txs@[t0]@.len() && ((
                        #[trigger] txs@[t0]@[j0]) as int) + 1 > usize::MAX as int / 2
                            / txs@.len() as int;
                    assert(txs@[t0]@[j0] < n_items);
                    assert(txs@.len() > 0);
                    assert(n_items <= usize::MAX / 2 / txs@.len() as usize || txs@.len() == 0);
                }
            }
        }
        let width = txs.len();
        proof {
            if width > 0 {
                assert(n_items <= usize::MAX / 2 / width);
                assert(n_items * width <= (usize::MAX / 2 / width) * width) by (nonlinear_arith)
                    requires
                        n_items <= usize::MAX / 2 / width,
                        width > 0,
                ;
                assert((usize::MAX / 2 / width) * width <= usize::MAX / 2) by (nonlinear_arith)
                    requires
                        width > 0,
                ;
            }
        }
        let mut grid = grid_new(n_items, width);
        // Second pass: set one bit per (item, transaction) occurrence.
        let mut t: usize = 0;
        while t < txs.len()
            invariant
                grid_rows(grid).len() == n_items,
                grid_width(grid) == width,
                width == txs@.len(),
                txs@.len() == 0 ==> n_items == 0,
                t <= txs@.len(),
                forall|u: int, j: int|
                    0 <= u < txs@.len() && 0 <= j < txs@[u]@.len() ==> txs@[u]@[j] < n_items,
                txsv == model::tx_views(txs@),
                forall|i: int|
                    0 <= i < n_items ==> #[trigger] grid_rows(grid)[i] == Set::new(
                        |u: int| 0 <= u < t && model::tx_contains(txsv[u], i),
                    ),
            decreases txs@.len() - t,
        {
            let tx = &txs[t];
            let mut j: usize = 0;
            while j < tx.len()
                invariant
                    grid_rows(grid).len() == n_items,
                    grid_width(grid) == width,
                    width == txs@.len(),
                    t < txs@.len(),
                    j <= tx@.len(),
                    tx@ == txs@[t as int]@,
                    forall|u: int, jj: int|
                        0 <= u < txs@.len() && 0 <= jj < txs@[u]@.len() ==> txs@[u]@[jj] < n_items,
                    txsv == model::tx_views(txs@),
                    forall|i: int|
                        0 <= i < n_items ==> #[trigger] grid_rows(grid)[i] == Set::new(
                            |u: int|
                                (0 <= u < t && model::tx_contains(txsv[u], i)) || (u == t && (
                                exists|jj: int| 0 <= jj < j && tx@[jj] == i)),
                        ),
                decreases tx@.len() - j,
            {
                let id = tx[j];
                proof {
                    assert(txs@[t as int]@[j as int] < n_items);
                }
                let ghost before = grid_rows(grid);
                grid_set(&mut grid, id as usize, t);
                proof {
                    assert forall|i: int| 0 <= i < n_items implies #[trigger] grid_rows(grid)[i]
                        == Set::new(
                        |u: int|
                            (0 <= u < t && model::tx_contains(txsv[u], i)) || (u == t && (
                            exists|jj: int| 0 <= jj < j + 1 && tx@[jj] == i)),
                    ) by {
                        let target = Set::new(
                            |u: int|
                                (0 <= u < t && model::tx_contains(txsv[u], i)) || (u == t && (
                                exists|jj: int| 0 <= jj < j + 1 && tx@[jj] == i)),
                        );
                        if i == id as int {
                            assert(grid_rows(grid)[i] == before[i].insert(t as int));
                            assert(tx@[j as int] == id);
                            assert(target =~= before[i].insert(t as int));
                        } else {
                            assert(grid_rows(grid)[i] == before[i]);
                            assert forall|jj: int| 0 <= jj < j + 1 && tx@[jj] == i implies 0 <= jj
                                < j by {
                                assert(tx@[j as int] == id);
                            }
                            assert(target =~= before[i]);
                        }
                    }
                }
                j += 1;
            }
            proof {
                assert forall|i: int| 0 <= i < n_items implies #[trigger] grid_rows(grid)[i]
                    == Set::new(|u: int| 0 <= u < t + 1 && model::tx_contains(txsv[u], i)) by {
                    assert(txsv[t as int] == txs@[t as int]@);
                    assert(grid_rows(grid)[i] =~= Set::new(
                        |u: int| 0 <= u < t + 1 && model::tx_contains(txsv[u], i),
                    ));
                }
            }
            t += 1;
        }
        let m = Matrix { grid, n_items, n_tx: width };
        proof {
            assert(txsv.len() == txs@.len());
            assert forall|i: int| 0 <= i < m.rows().len() implies m.rows()[i] == model::item_cover(
                txsv,
                i,
            ) by {
                assert(m.rows()[i] =~= model::item_cover(txsv, i));
            }
            assert forall|i: int|
                0 <= i < m.n_items implies (#[trigger] grid_rows(m.grid)[i]).subset_of(
                set_int_range(0, m.n_tx as int),
            ) by {
                assert(m.rows()[i] =~= model::item_cover(txsv, i));
            }
        }
        Some(m)
    }
}

} // verus!
