//! The DCI-Closed enumerator: a recursive closed-itemset search over a bit
//! matrix of items by transactions, with pre/post sets for duplicate
//! elimination.

pub mod itemset;
pub mod matrix;
pub mod closed;
pub mod sequential;
pub mod parallel;

use vstd::prelude::*;
use vstd::set_lib::set_int_range;
use vstd::set_lib::lemma_int_range;
use vstd::set_lib::lemma_len_subset;
use crate::model;
use self::itemset::ItemSet;
use self::matrix::Matrix;

verus! {

/// How many transactions contain a given item or itemset.
pub type Support = usize;

use crate::model::bottom_closure;

/// Run sequential DCI-Closed on a dataset of raw transactions.
///
/// Returns `None` exactly when the bit matrix would exceed the allocation
/// bound (see `matrix::grid_too_large`).  The first returned pair is the bottom closure with support equal
/// to the transaction count; every further pair holds a frequent itemset
/// with its exact support, strictly below the transaction count.
pub fn closed_from_transactions(transactions: &Vec<Vec<u32>>, min_sup: usize) -> (r: Option<
    Vec<(ItemSet, Support)>,
>)
    ensures
        match r {
            Some(out) => {
                let txsv = model::tx_views(transactions@);
                &&& out@.len() >= 1
                &&& out@[0].0.wf()
                &&& out@[0].0.set() == bottom_closure(txsv)
                &&& out@[0].1 == txsv.len()
                &&& forall|k: int|
                    0 <= k < out@.len() ==> (#[trigger] out@[k]).1 == model::support_of(
                        txsv,
                        out@[k].0.set(),
                    ) && out@[k].0.wf()
                &&& forall|k: int|
                    1 <= k < out@.len() ==> (#[trigger] out@[k]).1 >= min_sup && (out@[k].1 as int)
                        < txsv.len()
                &&& forall|k: int|
                    0 <= k < out@.len() && (#[trigger] out@[k]).1 >= 1
                        ==> model::closed_itemset_set(txsv, out@[k].0.set())
                &&& forall|c: Set<int>|
                    #[trigger] model::closed_itemset_set(txsv, c) && model::support_of(txsv, c)
                        >= min_sup && model::support_of(txsv, c) >= 1 ==> sequential::appears(
                        out@,
                        0,
                        c,
                    )
            },
            None => true,
        },
        r.is_none() == matrix::grid_too_large(transactions@),
{
    let ghost txsv = model::tx_views(transactions@);
    let dataset = match Matrix::from_transactions(transactions) {
        Some(m) => m,
        None => {
            return None;
        },
    };
    let out = sequential::closed(&dataset, min_sup);
    proof {
        let n = dataset.rows().len() as int;
        let w = dataset.width();
        assert(w == txsv.len());
        lemma_int_range(0, w);
        // Matrix covers agree with the transaction model on in-range sets.
        assert forall|s: Set<int>|
            (forall|id: int| s.contains(id) ==> 0 <= id < n) implies #[trigger] dataset.cover_spec(
            s,
        ) == model::cover_of(txsv, s) by {
            assert forall|t: int| dataset.cover_spec(s).contains(t) implies model::cover_of(
                txsv,
                s,
            ).contains(t) by {
                assert forall|id: int| s.contains(id) implies model::tx_contains(
                    txsv[t],
                    id,
                ) by {
                    assert(dataset.rows()[id].contains(t));
                }
            }
            assert forall|t: int| model::cover_of(txsv, s).contains(t) implies dataset.cover_spec(
                s,
            ).contains(t) by {
                assert forall|id: int| s.contains(id) implies #[trigger] dataset.rows()[id].contains(
                    t,
                ) by {
                    assert(model::tx_contains(txsv[t], id));
                }
            }
            assert(dataset.cover_spec(s) =~= model::cover_of(txsv, s));
        }
        assert forall|k: int| 0 <= k < out@.len() implies (#[trigger] out@[k]).1
            == model::support_of(txsv, out@[k].0.set()) by {
            if k == 0 {
                assert(out@[0].0.set() == closed::mat_universal(dataset));
            }
            assert(forall|id: int| out@[k].0.set().contains(id) ==> 0 <= id < n);
            assert(dataset.cover_spec(out@[k].0.set()) == model::cover_of(
                txsv,
                out@[k].0.set(),
            ));
        }
        // Closure carries over: nothing extends an output itemset without
        // cost, whether the item is a matrix row or never occurs at all.
        assert forall|k: int|
            0 <= k < out@.len() && (#[trigger] out@[k]).1 >= 1 implies model::closed_itemset_set(
            txsv,
            out@[k].0.set(),
        ) by {
            let c = out@[k].0.set();
            assert(dataset.cover_spec(c) == model::cover_of(txsv, c));
            assert forall|id: int|
                model::cover_of(txsv, c).subset_of(
                    #[trigger] model::item_cover(txsv, id),
                ) implies c.contains(id) by {
                if 0 <= id < n {
                    if !c.contains(id) {
                        assert forall|t: int|
                            dataset.cover_spec(c).contains(t) implies dataset.rows()[id].contains(
                            t,
                        ) by {
                            assert(model::item_cover(txsv, id).contains(t));
                        }
                        assert(dataset.cover_spec(c).subset_of(dataset.rows()[id]));
                        assert(false);
                    }
                } else {
                    // an id outside the rows occurs nowhere, so the cover
                    // would have to be empty — but the support is positive
                    assert(model::item_cover(txsv, id) =~= Set::<int>::empty()) by {
                        assert forall|t: int|
                            !model::item_cover(txsv, id).contains(t) by {
                            if model::item_cover(txsv, id).contains(t) {
                                assert(model::tx_contains(txsv[t], id));
                                let jj = choose|jj: int|
                                    0 <= jj < txsv[t].len() && txsv[t][jj] == id;
                                assert(transactions@[t]@[jj] < dataset.rows().len());
                            }
                        }
                    }
                    model::lemma_cover_finite(txsv, c);
                    lemma_len_subset(model::cover_of(txsv, c), model::item_cover(txsv, id));
                    assert(false);
                }
            }
        }
        // Completeness carries over: a closed frequent itemset over the
        // transactions is closed and frequent over the matrix.
        assert forall|c: Set<int>|
            #[trigger] model::closed_itemset_set(txsv, c) && model::support_of(txsv, c) >= min_sup
                && model::support_of(txsv, c) >= 1 implies sequential::appears(out@, 0, c) by {
            // every member occurs, so the set stays inside the matrix rows
            assert forall|id: int| c.contains(id) implies 0 <= id < n by {
                model::lemma_cover_finite(txsv, c);
                assert(exists|t: int| model::cover_of(txsv, c).contains(t)) by {
                    if forall|t: int| !model::cover_of(txsv, c).contains(t) {
                        assert(model::cover_of(txsv, c) =~= Set::<int>::empty());
                    }
                }
                let t = choose|t: int| model::cover_of(txsv, c).contains(t);
                assert(model::tx_contains(txsv[t], id));
                let jj = choose|jj: int| 0 <= jj < txsv[t].len() && txsv[t][jj] == id;
                assert(transactions@[t]@[jj] < dataset.rows().len());
            }
            assert(dataset.cover_spec(c) == model::cover_of(txsv, c));
            assert(sequential::set_closed(dataset, c)) by {
                assert forall|j: int|
                    0 <= j < dataset.rows().len() && !c.contains(j) implies !(
                #[trigger] dataset.cover_spec(c).subset_of(dataset.rows()[j])) by {
                    if dataset.cover_spec(c).subset_of(dataset.rows()[j]) {
                        assert forall|t: int|
                            model::cover_of(txsv, c).contains(t) implies model::item_cover(
                            txsv,
                            j,
                        ).contains(t) by {
                            assert(dataset.rows()[j].contains(t));
                        }
                        assert(model::cover_of(txsv, c).subset_of(model::item_cover(txsv, j)));
                        assert(c.contains(j));
                    }
                }
            }
            assert(dataset.support_spec(c) >= min_sup);
            assert(sequential::appears(out@, 0, c));
        }
        // The initial pair's itemset is the set of universal items.
        assert(out@[0].0.set() =~= bottom_closure(txsv)) by {
            assert forall|id: int| closed::mat_universal(dataset).contains(id) implies bottom_closure(
                txsv,
            ).contains(id) by {
                dataset.lemma_row_bounds(id);
                model::lemma_subset_same_len_equal(set_int_range(0, w), dataset.rows()[id]);
                assert forall|t: int| 0 <= t < txsv.len() implies model::tx_contains(
                    #[trigger] txsv[t],
                    id,
                ) by {
                    assert(dataset.rows()[id].contains(t));
                    assert(model::item_cover(txsv, id).contains(t));
                }
                assert(txsv.len() > 0) by {
                    if txsv.len() == 0 {
                        assert(dataset.rows().len() == 0);
                    }
                }
            }
            assert forall|id: int| bottom_closure(txsv).contains(id) implies closed::mat_universal(
                dataset,
            ).contains(id) by {
                assert(txsv.len() > 0);
                assert(model::tx_contains(txsv[0], id));
                let jj = choose|jj: int| 0 <= jj < txsv[0].len() && txsv[0][jj] == id;
                assert(transactions@[0]@[jj] < dataset.rows().len());
                assert(0 <= id < n);
                assert(dataset.rows()[id] =~= set_int_range(0, w)) by {
                    assert forall|t: int| 0 <= t < w implies dataset.rows()[id].contains(t) by {
                        assert(model::tx_contains(txsv[t], id));
                        assert(model::item_cover(txsv, id).contains(t));
                    }
                    dataset.lemma_row_bounds(id);
                }
                assert(dataset.rows()[id].len() == w);
            }
        }
    }
    Some(out)
}

} // verus!
