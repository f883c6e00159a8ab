//! Mathematical model of transaction datasets and itemset support.
//!
//! A dataset is a finite sequence of transactions; each transaction is a
//! sequence of item ids whose order and multiplicity are irrelevant.  The
//! model speaks of items as unbounded integers so that both algorithms
//! (which index items differently) can share one notion of cover, support
//! and closure.

use vstd::prelude::*;
use vstd::set_lib::set_int_range;
use vstd::set_lib::lemma_int_range;
use vstd::set_lib::lemma_len_subset;

verus! {

/// Does transaction `tx` contain the item id `id`?
pub open spec fn tx_contains(tx: Seq<u32>, id: int) -> bool {
    exists|k: int| 0 <= k < tx.len() && tx[k] == id
}

/// The views of a vector of transactions, as the model sees them.
pub open spec fn tx_views(txs: Seq<Vec<u32>>) -> Seq<Seq<u32>> {
    txs.map_values(|t: Vec<u32>| t@)
}

/// The set of transaction ids whose transaction contains item `id`.
pub open spec fn item_cover(txs: Seq<Seq<u32>>, id: int) -> Set<int> {
    Set::new(|t: int| 0 <= t < txs.len() && tx_contains(txs[t], id))
}

/// The set of transaction ids whose transaction contains every item of `s`.
pub open spec fn cover_of(txs: Seq<Seq<u32>>, s: Set<int>) -> Set<int> {
    Set::new(
        |t: int|
            0 <= t < txs.len() && forall|id: int| s.contains(id) ==> tx_contains(txs[t], id),
    )
}

/// How many transactions contain every item of `s`.
pub open spec fn support_of(txs: Seq<Seq<u32>>, s: Set<int>) -> nat {
    cover_of(txs, s).len()
}

/// The items contained in every transaction: the intersection of all
/// transactions' item sets, restricted to ids below `bound`.
pub open spec fn universal_items(txs: Seq<Seq<u32>>, bound: int) -> Set<int> {
    Set::new(|id: int| 0 <= id < bound && forall|t: int| 0 <= t < txs.len() ==> tx_contains(txs[t], id))
}

/// A cover is always a finite subset of the transaction id range.
pub proof fn lemma_cover_finite(txs: Seq<Seq<u32>>, s: Set<int>)
    ensures
        cover_of(txs, s).finite(),
        cover_of(txs, s).len() <= txs.len(),
        cover_of(txs, s).subset_of(set_int_range(0, txs.len() as int)),
{
    lemma_int_range(0, txs.len() as int);
    assert(cover_of(txs, s).subset_of(set_int_range(0, txs.len() as int)));
    lemma_len_subset(cover_of(txs, s), set_int_range(0, txs.len() as int));
}

/// An item's cover is a finite subset of the transaction id range.
pub proof fn lemma_item_cover_finite(txs: Seq<Seq<u32>>, id: int)
    ensures
        item_cover(txs, id).finite(),
        item_cover(txs, id).subset_of(set_int_range(0, txs.len() as int)),
        item_cover(txs, id).len() <= txs.len(),
{
    lemma_int_range(0, txs.len() as int);
    assert(item_cover(txs, id).subset_of(set_int_range(0, txs.len() as int)));
    lemma_len_subset(item_cover(txs, id), set_int_range(0, txs.len() as int));
}

/// Adding one item to an itemset intersects its cover with the item's cover.
pub proof fn lemma_cover_insert(txs: Seq<Seq<u32>>, s: Set<int>, id: int)
    ensures
        cover_of(txs, s.insert(id)) == cover_of(txs, s).intersect(item_cover(txs, id)),
{
    let lhs = cover_of(txs, s.insert(id));
    let rhs = cover_of(txs, s).intersect(item_cover(txs, id));
    assert forall|t: int| lhs.contains(t) implies rhs.contains(t) by {
        assert(s.insert(id).contains(id));
        assert(forall|x: int| s.contains(x) ==> s.insert(id).contains(x));
    }
    assert forall|t: int| rhs.contains(t) implies lhs.contains(t) by {
        assert forall|x: int| s.insert(id).contains(x) implies tx_contains(txs[t], x) by {
            if x != id {
                assert(s.contains(x));
            }
        }
    }
    assert(lhs =~= rhs);
}

/// The cover of the empty itemset is every transaction id.
pub proof fn lemma_cover_empty(txs: Seq<Seq<u32>>)
    ensures
        cover_of(txs, Set::empty()) == set_int_range(0, txs.len() as int),
        support_of(txs, Set::empty()) == txs.len(),
{
    assert(cover_of(txs, Set::<int>::empty()) =~= set_int_range(0, txs.len() as int));
    lemma_int_range(0, txs.len() as int);
}

/// No item outside the set occurs in all of its covering transactions.
pub open spec fn closed_itemset_set(txs: Seq<Seq<u32>>, set: Set<int>) -> bool {
    forall|id: int|
        cover_of(txs, set).subset_of(#[trigger] item_cover(txs, id)) ==> set.contains(id)
}

/// For covered itemsets, closedness is a fact about supports alone: the
/// set is closed exactly when every extension costs support.  Any
/// transformation of the dataset that keeps all supports therefore keeps
/// the closed family.
pub proof fn lemma_closed_iff_support_drops(txs: Seq<Seq<u32>>, s: Set<int>)
    requires
        support_of(txs, s) >= 1,
    ensures
        closed_itemset_set(txs, s) == (forall|id: int|
            !s.contains(id) ==> support_of(txs, #[trigger] s.insert(id)) < support_of(txs, s)),
{
    lemma_cover_finite(txs, s);
    if closed_itemset_set(txs, s) {
        assert forall|id: int| !s.contains(id) implies support_of(txs, #[trigger] s.insert(id))
            < support_of(txs, s) by {
            lemma_cover_insert(txs, s, id);
            let inter = cover_of(txs, s).intersect(item_cover(txs, id));
            assert(inter.subset_of(cover_of(txs, s)));
            lemma_len_subset(inter, cover_of(txs, s));
            assert(!cover_of(txs, s).subset_of(item_cover(txs, id)));
            let t = choose|t: int|
                cover_of(txs, s).contains(t) && !item_cover(txs, id).contains(t);
            assert(inter != cover_of(txs, s)) by {
                assert(!inter.contains(t));
            }
            if inter.len() == cover_of(txs, s).len() {
                lemma_subset_same_len_equal(cover_of(txs, s), inter);
            }
        }
    }
    if forall|id: int|
        !s.contains(id) ==> support_of(txs, #[trigger] s.insert(id)) < support_of(txs, s) {
        assert forall|id: int|
            cover_of(txs, s).subset_of(#[trigger] item_cover(txs, id)) implies s.contains(id) by {
            if !s.contains(id) {
                lemma_cover_insert(txs, s, id);
                assert(cover_of(txs, s.insert(id)) =~= cover_of(txs, s));
                assert(support_of(txs, s.insert(id)) < support_of(txs, s));
            }
        }
    }
}

/// The items occurring in every transaction; nothing is universal over an
/// empty dataset.
pub open spec fn bottom_closure(txs: Seq<Seq<u32>>) -> Set<int> {
    Set::new(
        |id: int|
            id >= 0 && txs.len() > 0 && forall|t: int|
                0 <= t < txs.len() ==> tx_contains(#[trigger] txs[t], id),
    )
}

/// An itemset supported by every transaction holds universal items only:
/// whatever miner reports a pair of maximal support, its itemset lies
/// inside the bottom closure.
pub proof fn lemma_maximal_support_is_universal(txs: Seq<Seq<u32>>, s: Set<int>)
    requires
        txs.len() > 0,
        support_of(txs, s) == txs.len(),
    ensures
        s.subset_of(bottom_closure(txs)),
{
    lemma_cover_finite(txs, s);
    lemma_int_range(0, txs.len() as int);
    lemma_subset_same_len_equal(set_int_range(0, txs.len() as int), cover_of(txs, s));
    assert forall|id: int| s.contains(id) implies bottom_closure(txs).contains(id) by {
        assert forall|t: int| 0 <= t < txs.len() implies tx_contains(#[trigger] txs[t], id) by {
            assert(cover_of(txs, s).contains(t));
        }
        assert(cover_of(txs, s).contains(0));
        assert(tx_contains(txs[0], id));
        let kk = choose|kk: int| 0 <= kk < txs[0].len() && txs[0][kk] == id;
        assert(id >= 0);
    }
}

/// Permuting the transactions changes no itemset's support: the closed
/// frequent family, which the miners' contracts pin through `support_of`,
/// is the same for both orders.
pub proof fn lemma_support_permutation(
    txs1: Seq<Seq<u32>>,
    txs2: Seq<Seq<u32>>,
    pi: spec_fn(int) -> int,
    pi_inv: spec_fn(int) -> int,
    s: Set<int>,
)
    requires
        txs1.len() == txs2.len(),
        forall|t: int| 0 <= t < txs2.len() ==> 0 <= #[trigger] pi(t) < txs1.len(),
        forall|u: int| 0 <= u < txs1.len() ==> 0 <= #[trigger] pi_inv(u) < txs2.len(),
        forall|t: int| 0 <= t < txs2.len() ==> #[trigger] pi_inv(pi(t)) == t,
        forall|u: int| 0 <= u < txs1.len() ==> #[trigger] pi(pi_inv(u)) == u,
        forall|t: int| 0 <= t < txs2.len() ==> #[trigger] txs2[t] == txs1[pi(t)],
    ensures
        support_of(txs2, s) == support_of(txs1, s),
{
    let c1 = cover_of(txs1, s);
    let c2 = cover_of(txs2, s);
    lemma_cover_finite(txs1, s);
    lemma_cover_finite(txs2, s);
    assert forall|t: int| c2.contains(t) implies c1.contains(#[trigger] pi(t)) by {
        assert(txs2[t] == txs1[pi(t)]);
    }
    assert(c2.map(pi) =~= c1) by {
        assert forall|u: int| c2.map(pi).contains(u) implies c1.contains(u) by {
            let t = choose|t: int| c2.contains(t) && pi(t) == u;
        }
        assert forall|u: int| c1.contains(u) implies c2.map(pi).contains(u) by {
            let t = pi_inv(u);
            assert(txs2[t] == txs1[pi(pi_inv(u))]);
            assert(txs2[t] == txs1[u]);
            assert(c2.contains(t));
            assert(pi(t) == u);
        }
    }
    assert(vstd::relations::injective_on(pi, c2)) by {
        assert forall|t1: int, t2: int|
            c2.contains(t1) && c2.contains(t2) && #[trigger] pi(t1) == #[trigger] pi(
                t2,
            ) implies t1 == t2 by {
            assert(pi_inv(pi(t1)) == t1);
            assert(pi_inv(pi(t2)) == t2);
        }
    }
    vstd::set_lib::lemma_map_size(c2, c1, pi);
}

/// Relabeling item ids through a bijection relabels every itemset and
/// keeps its support: the closed frequent family moves along with the ids.
pub proof fn lemma_support_relabeling(
    txs1: Seq<Seq<u32>>,
    txs2: Seq<Seq<u32>>,
    sigma: spec_fn(int) -> int,
    sigma_inv: spec_fn(int) -> int,
    s: Set<int>,
)
    requires
        txs1.len() == txs2.len(),
        forall|t: int| 0 <= t < txs1.len() ==> (#[trigger] txs2[t]).len() == txs1[t].len(),
        forall|t: int, k: int|
            0 <= t < txs1.len() && 0 <= k < txs1[t].len() ==> ((#[trigger] txs2[t][k]) as int)
                == sigma(txs1[t][k] as int),
        forall|id: int| #[trigger] sigma_inv(sigma(id)) == id,
        forall|id: int| #[trigger] sigma(sigma_inv(id)) == id,
    ensures
        cover_of(txs2, s.map(sigma)) == cover_of(txs1, s),
        support_of(txs2, s.map(sigma)) == support_of(txs1, s),
{
    let s2 = s.map(sigma);
    assert forall|t: int| cover_of(txs1, s).contains(t) implies cover_of(txs2, s2).contains(
        t,
    ) by {
        assert forall|id2: int| s2.contains(id2) implies tx_contains(txs2[t], id2) by {
            let id = choose|id: int| s.contains(id) && sigma(id) == id2;
            assert(tx_contains(txs1[t], id));
            let k = choose|k: int| 0 <= k < txs1[t].len() && txs1[t][k] == id;
            assert((txs2[t][k] as int) == sigma(id));
        }
    }
    assert forall|t: int| cover_of(txs2, s2).contains(t) implies cover_of(txs1, s).contains(
        t,
    ) by {
        assert forall|id: int| s.contains(id) implies tx_contains(txs1[t], id) by {
            assert(s2.contains(sigma(id)));
            assert(tx_contains(txs2[t], sigma(id)));
            let k = choose|k: int| 0 <= k < txs2[t].len() && txs2[t][k] == sigma(id);
            assert((txs2[t][k] as int) == sigma(txs1[t][k] as int));
            assert(sigma_inv(sigma(txs1[t][k] as int)) == txs1[t][k] as int);
            assert(sigma_inv(sigma(id)) == id);
            assert(txs1[t][k] as int == id);
        }
    }
    assert(cover_of(txs2, s2) =~= cover_of(txs1, s));
}

/// Removing a subset from a finite set leaves exactly the complement's share.
pub proof fn lemma_card_diff_subset<A>(a: Set<A>, b: Set<A>)
    requires
        a.finite(),
        b.subset_of(a),
    ensures
        a.difference(b).finite(),
        a.difference(b).len() == a.len() - b.len(),
    decreases b.len(),
{
    lemma_len_subset(b, a);
    if b.len() == 0 {
        b.lemma_len0_is_empty();
        assert(a.difference(b) =~= a);
    } else {
        let e = b.choose();
        assert(b.contains(e));
        assert(a.difference(b) =~= a.remove(e).difference(b.remove(e)));
        lemma_card_diff_subset(a.remove(e), b.remove(e));
    }
}

/// A finite set and a subset of the same size are one set.
pub proof fn lemma_subset_same_len_equal<A>(a: Set<A>, b: Set<A>)
    requires
        a.finite(),
        b.subset_of(a),
        a.len() == b.len(),
    ensures
        a == b,
{
    lemma_card_diff_subset(a, b);
    a.difference(b).lemma_len0_is_empty();
    assert(forall|x: A| a.contains(x) && !b.contains(x) ==> a.difference(b).contains(x));
    assert(a =~= b);
}

} // verus!
