//! Closed frequent itemset mining.
//!
//! Two algorithmic cores are provided: a DCI-Closed enumerator working over a
//! bit matrix of items by transactions, and a NEclatClosed enumerator working
//! over per-item transaction id sets with a prefix tree and a closed-pattern
//! store.  Both return pairs of an itemset and its support count.

pub mod model;
pub mod index;
pub mod dciclosed;
pub mod neclatclosed;

pub use self::neclatclosed::NEclatClosed;

use vstd::prelude::*;

verus! {

/// Mine the closed itemsets of a dataset with NEclatClosed: the embedding
/// entry point, over plain transaction vectors and a support count.
///
/// Callers holding the threshold as a fraction of the transaction count
/// should round the product up; both miners in this crate share that
/// ceiling convention.
pub fn neclat(min_count: usize, transactions: &Vec<Vec<u32>>) -> (result: Vec<
    neclatclosed::ItemSet,
>)
    requires
        transactions@.len() <= u32::MAX,
    ensures
        forall|k: int|
            0 <= k < result@.len() ==> (#[trigger] result@[k]).support as int == model::support_of(
                model::tx_views(transactions@),
                result@[k].set(),
            ),
        forall|k: int|
            0 <= k < result@.len() ==> (#[trigger] result@[k]).support >= min_count || (
            result@[k]).support == transactions@.len(),
        exists|k: int|
            0 <= k < result@.len() && (#[trigger] result@[k]).support == transactions@.len(),
        forall|k1: int, k2: int|
            0 <= k1 < k2 < result@.len() ==> (#[trigger] result@[k1]).set() != (
            #[trigger] result@[k2]).set(),
        forall|k: int|
            0 <= k < result@.len() && (#[trigger] result@[k]).support >= 1
                ==> neclatclosed::closed_pair(model::tx_views(transactions@), result@[k]),
        forall|k: int|
            0 <= k < result@.len() && (#[trigger] result@[k]).support == transactions@.len()
                ==> result@[k].set() == model::bottom_closure(model::tx_views(transactions@)),
{
    let miner = NEclatClosed::default();
    miner.process(transactions, min_count)
}

} // verus!
