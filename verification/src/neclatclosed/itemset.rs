//! The result type of NEclatClosed: one closed itemset with its support.

use vstd::prelude::*;

verus! {

/// A closed itemset as original item ids, with its support count.
#[derive(Debug)]
pub struct ItemSet {
    /// The members, as original item ids.
    pub indices: Vec<usize>,
    /// How many transactions contain every member.
    pub support: usize,
}

impl ItemSet {
    /// The members as a mathematical set of ids.
    pub open spec fn set(self) -> Set<int> {
        self.indices@.map_values(|x: usize| x as int).to_set()
    }
}

} // verus!
