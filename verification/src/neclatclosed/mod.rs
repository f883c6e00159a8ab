//! NEclatClosed algorithm implementation.
//!
//! A vertical enumeration: each frequent item gets the set of transaction
//! ids containing it, the items span a prefix tree whose deeper nodes carry
//! tidset differences, and candidates from the tree go through the
//! closed-pattern storage before they are emitted.

pub mod bitvector;
pub mod cpstorage;
pub mod itemset;
pub mod tidset;

pub use itemset::ItemSet;

use vstd::prelude::*;
use vstd::set_lib::set_int_range;
use vstd::set_lib::lemma_int_range;
use vstd::set_lib::lemma_len_subset;
use crate::model;
use self::bitvector::BitVector;
use self::cpstorage::CPStorage;
use self::tidset::{rb_new, rb_insert, rb_len, rb_is_empty, rb_sub, rb_clone, rb_set};
use roaring::RoaringBitmap;

verus! {

/// One frequent item: its original id and how many transactions hold it.
pub struct Item {
    /// The original item id.
    pub index: usize,
    /// The number of transactions containing the item.
    pub num: usize,
}

/// A prefix-tree node: its item, its stored tid or diff set, and its count.
/// The ghost `actual` is the true tidset of the path itemset ending here.
struct TreeNode {
    label: usize,
    tid_set: RoaringBitmap,
    count: usize,
    actual: Ghost<Set<int>>,
}

/// The original ids named by a sequence of internal item indices.
pub open spec fn ids_of(items: Seq<Item>, xs: Seq<usize>) -> Set<int> {
    xs.map_values(|x: usize| items[x as int].index as int).to_set()
}

/// An emitted pair carries its true support and meets the threshold.
pub open spec fn good_itemset(txs: Seq<Seq<u32>>, min_support: int, e: ItemSet) -> bool {
    &&& e.support as int == model::support_of(txs, e.set())
    &&& e.support >= min_support
}

/// The original id of one internal item index.
pub open spec fn id_of(items: Seq<Item>, l: int) -> int {
    items[l].index as int
}

/// What a subtree visit emits: itemsets that extend the path by the
/// visited node's item, drawing any further members from its siblings.
spec fn emission_shape(
    items: Seq<Item>,
    path: Seq<usize>,
    curr_label: usize,
    sibs: Seq<TreeNode>,
    s: Set<int>,
) -> bool {
    &&& s.contains(id_of(items, curr_label as int))
    &&& ids_of(items, path).subset_of(s)
    &&& forall|id: int|
        s.contains(id) ==> ids_of(items, path).contains(id) || id == id_of(
            items,
            curr_label as int,
        ) || (exists|si: int|
            0 <= si < sibs.len() && id == id_of(items, (#[trigger] sibs[si]).label as int))
}

/// Is `label` the label of one of the listed nodes?
spec fn from_sibling(sibs: Seq<TreeNode>, label: usize) -> bool {
    exists|si: int| 0 <= si < sibs.len() && label == (#[trigger] sibs[si]).label
}

/// Does the itemset hold the id of one of the marked internal indices?
spec fn marked_by(items: Seq<Item>, done: Set<int>, s: Set<int>) -> bool {
    exists|l: int| done.contains(l) && s.contains(#[trigger] id_of(items, l))
}

/// Membership in the id set of a path comes from one of its positions.
proof fn lemma_ids_of_member(items: Seq<Item>, xs: Seq<usize>, id: int)
    ensures
        ids_of(items, xs).contains(id) == (exists|q: int|
            0 <= q < xs.len() && id == id_of(items, (#[trigger] xs[q]) as int)),
{
    let f = |x: usize| items[x as int].index as int;
    let sq = xs.map_values(f);
    if ids_of(items, xs).contains(id) {
        let q = choose|q: int| 0 <= q < sq.len() && sq[q] == id;
        assert(id == id_of(items, xs[q] as int));
    }
    if exists|q: int| 0 <= q < xs.len() && id == id_of(items, (xs[q]) as int) {
        let q = choose|q: int| 0 <= q < xs.len() && id == id_of(items, (xs[q]) as int);
        assert(sq[q] == id);
        assert(sq.contains(id));
    }
}

/// Does `id` occur among the first `j` entries of `tx`?
spec fn seen_before(tx: Seq<u32>, j: int, id: int) -> bool {
    exists|x: int| 0 <= x < j && tx[x] == id
}

/// Is `id` the original id of one of the listed items?
pub open spec fn item_listed(items: Seq<Item>, id: int) -> bool {
    exists|p: int| 0 <= p < items.len() && ((#[trigger] items[p]).index as int) == id
}

/// Items come sorted by decreasing count, ties broken by ascending id.
pub open spec fn items_sorted(items: Seq<Item>) -> bool {
    forall|p1: int, p2: int|
        0 <= p1 < p2 < items.len() ==> ((#[trigger] items[p1]).num > (#[trigger] items[p2]).num
            || (items[p1].num == items[p2].num && items[p1].index < items[p2].index))
}

/// Does some position carry the id value `v`?
spec fn id_occurs_in(ids: Seq<u32>, v: int) -> bool {
    exists|q: int| 0 <= q < ids.len() && ((#[trigger] ids[q]) as int) == v
}

/// A listed item stays listed when the table only grows at the end.
proof fn lemma_item_listed_grow(pre: Seq<Item>, cur: Seq<Item>, id: int)
    requires
        pre.len() <= cur.len(),
        forall|x: int| 0 <= x < pre.len() ==> cur[x] == pre[x],
        item_listed(pre, id),
    ensures
        item_listed(cur, id),
{
    let p = choose|p: int| 0 <= p < pre.len() && ((pre[p]).index as int) == id;
    assert(((cur[p]).index as int) == id);
}

/// Is `id` one of the listed ids?
spec fn listed(ids: Seq<u32>, id: u32) -> bool {
    exists|p: int| 0 <= p < ids.len() && ids[p] == id
}

/// A listed id stays listed when the list only grows at the end.
proof fn lemma_listed_grow(pre: Seq<u32>, cur: Seq<u32>, id: u32)
    requires
        pre.len() <= cur.len(),
        forall|x: int| 0 <= x < pre.len() ==> cur[x] == pre[x],
        listed(pre, id),
    ensures
        listed(cur, id),
{
    let x = choose|x: int| 0 <= x < pre.len() && pre[x] == id;
    assert(cur[x] == id);
}

/// The transactions among the first `t` that contain `id`.
spec fn count_set(txsv: Seq<Seq<u32>>, t: int, id: int) -> Set<int> {
    Set::new(|u: int| 0 <= u < t && model::tx_contains(txsv[u], id))
}

/// The same, with transaction `t` included once `id` has been seen among
/// the first `j` entries of `tx` (the transaction under scan).
spec fn count_set_mid(txsv: Seq<Seq<u32>>, t: int, tx: Seq<u32>, j: int, id: int) -> Set<int> {
    Set::new(
        |u: int| (0 <= u < t && model::tx_contains(txsv[u], id)) || (u == t && seen_before(tx, j, id)),
    )
}

/// How one scan step changes the counted set.
proof fn lemma_count_set_mid_step(txsv: Seq<Seq<u32>>, t: int, tx: Seq<u32>, j: int, id: int)
    requires
        0 <= j < tx.len(),
        t >= 0,
    ensures
        count_set_mid(txsv, t, tx, j, id).contains(t) == seen_before(tx, j, id),
        tx[j] != id ==> count_set_mid(txsv, t, tx, j + 1, id) == count_set_mid(txsv, t, tx, j, id),
        tx[j] == id && seen_before(tx, j, id) ==> count_set_mid(txsv, t, tx, j + 1, id)
            == count_set_mid(txsv, t, tx, j, id),
        tx[j] == id && !seen_before(tx, j, id) ==> count_set_mid(txsv, t, tx, j + 1, id)
            == count_set_mid(txsv, t, tx, j, id).insert(t) && !count_set_mid(
            txsv,
            t,
            tx,
            j,
            id,
        ).contains(t),
{
    assert(seen_before(tx, j + 1, id) == (seen_before(tx, j, id) || tx[j] == id)) by {
        if seen_before(tx, j + 1, id) && !seen_before(tx, j, id) {
            let x = choose|x: int| 0 <= x < j + 1 && tx[x] == id;
            assert(x == j);
        }
        if seen_before(tx, j, id) {
            let x = choose|x: int| 0 <= x < j && tx[x] == id;
            assert(0 <= x < j + 1 && tx[x] == id);
        }
        if tx[j] == id {
            assert(0 <= j < j + 1 && tx[j] == id);
        }
    }
    if tx[j] != id {
        assert(count_set_mid(txsv, t, tx, j + 1, id) =~= count_set_mid(txsv, t, tx, j, id));
    } else if seen_before(tx, j, id) {
        assert(count_set_mid(txsv, t, tx, j + 1, id) =~= count_set_mid(txsv, t, tx, j, id));
    } else {
        assert(count_set_mid(txsv, t, tx, j + 1, id) =~= count_set_mid(txsv, t, tx, j, id).insert(
            t,
        ));
    }
}

/// The counted set is finite and bounded by the transactions seen so far.
proof fn lemma_count_set_mid_bound(txsv: Seq<Seq<u32>>, t: int, tx: Seq<u32>, j: int, id: int)
    requires
        t >= 0,
    ensures
        count_set_mid(txsv, t, tx, j, id).finite(),
        count_set_mid(txsv, t, tx, j, id).len() <= t + 1,
        !seen_before(tx, j, id) ==> count_set_mid(txsv, t, tx, j, id).len() <= t,
{
    let s = count_set_mid(txsv, t, tx, j, id);
    lemma_int_range(0, t + 1);
    assert(s.subset_of(set_int_range(0, t + 1)));
    lemma_len_subset(s, set_int_range(0, t + 1));
    if !seen_before(tx, j, id) {
        lemma_int_range(0, t);
        assert(s.subset_of(set_int_range(0, t)));
        lemma_len_subset(s, set_int_range(0, t));
    }
}


/// Does some position among the first `n` carry the id value `v`?
spec fn occurs_prefix(ids: Seq<u32>, n: int, v: int) -> bool {
    exists|q: int| 0 <= q < n && ((#[trigger] ids[q]) as int) == v
}

/// Does the transaction contain every member of `s`?
spec fn covers_all(tx: Seq<u32>, s: Seq<usize>) -> bool {
    forall|k: int| 0 <= k < s.len() ==> model::tx_contains(tx, ((#[trigger] s[k]) as int))
}

use crate::model::closed_itemset_set;

/// No item outside the pair's itemset occurs in all of its transactions.
pub open spec fn closed_pair(txs: Seq<Seq<u32>>, e: ItemSet) -> bool {
    closed_itemset_set(txs, e.set())
}

/// A transaction id belongs to a cover exactly when that transaction has
/// every member of the itemset's backing list.
proof fn lemma_cover_member(txsv: Seq<Seq<u32>>, s: Seq<usize>, u: int)
    ensures
        model::cover_of(txsv, s.map_values(|x: usize| x as int).to_set()).contains(u) == (0 <= u
            < txsv.len() && covers_all(txsv[u], s)),
{
    let set = s.map_values(|x: usize| x as int).to_set();
    if model::cover_of(txsv, set).contains(u) {
        assert forall|k: int| 0 <= k < s.len() implies model::tx_contains(
            txsv[u],
            ((#[trigger] s[k]) as int),
        ) by {
            assert(set.contains(s.map_values(|x: usize| x as int)[k]));
        }
    }
    if 0 <= u < txsv.len() && covers_all(txsv[u], s) {
        let si = s.map_values(|x: usize| x as int);
        assert forall|id: int| set.contains(id) implies model::tx_contains(txsv[u], id) by {
            let k = choose|k: int| 0 <= k < si.len() && #[trigger] si[k] == id;
            assert(model::tx_contains(txsv[u], s[k] as int));
        }
        assert(model::cover_of(txsv, set).contains(u));
    }
}

/// Does the transaction mention this item id?
fn tx_has(tx: &Vec<u32>, id: usize) -> (r: bool)
    ensures
        r == model::tx_contains(tx@, id as int),
{
    let mut j: usize = 0;
    while j < tx.len()
        invariant
            j <= tx@.len(),
            forall|x: int| 0 <= x < j ==> ((#[trigger] tx@[x]) as int) != id as int,
        decreases tx@.len() - j,
    {
        if tx[j] as usize == id {
            assert(tx@[j as int] as int == id as int);
            return true;
        }
        j += 1;
    }
    proof {
        if model::tx_contains(tx@, id as int) {
            let k = choose|k: int| 0 <= k < tx@.len() && tx@[k] == id as int;
        }
    }
    false
}

/// Does the transaction contain every member of `s`?
fn covers(tx: &Vec<u32>, s: &Vec<usize>) -> (r: bool)
    ensures
        r == covers_all(tx@, s@),
{
    let mut k: usize = 0;
    while k < s.len()
        invariant
            k <= s@.len(),
            forall|x: int| 0 <= x < k ==> model::tx_contains(tx@, ((#[trigger] s@[x]) as int)),
        decreases s@.len() - k,
    {
        if !tx_has(tx, s[k]) {
            return false;
        }
        k += 1;
    }
    true
}

/// Keep the listed ids that the transaction also mentions.
fn retain_in(tx: &Vec<u32>, inter: &Vec<u32>) -> (r: Vec<u32>)
    ensures
        forall|id: int|
            #[trigger] occurs_prefix(r@, r@.len() as int, id) == (occurs_prefix(
                inter@,
                inter@.len() as int,
                id,
            ) && model::tx_contains(tx@, id)),
{
    let mut kept: Vec<u32> = Vec::new();
    let mut x: usize = 0;
    while x < inter.len()
        invariant
            x <= inter@.len(),
            forall|id: int|
                #[trigger] occurs_prefix(kept@, kept@.len() as int, id) == (occurs_prefix(
                    inter@,
                    x as int,
                    id,
                ) && model::tx_contains(tx@, id)),
        decreases inter@.len() - x,
    {
        let v = inter[x];
        let ghost pre = kept@;
        if tx_has(tx, v as usize) {
            kept.push(v);
        }
        proof {
            assert forall|id: int|
                #[trigger] occurs_prefix(kept@, kept@.len() as int, id) == (occurs_prefix(
                inter@,
                x + 1,
                id,
            ) && model::tx_contains(tx@, id)) by {
                assert(occurs_prefix(inter@, x + 1, id) == (occurs_prefix(inter@, x as int, id)
                    || id == inter@[x as int] as int)) by {
                    if occurs_prefix(inter@, x + 1, id) && !occurs_prefix(inter@, x as int, id) {
                        let q = choose|q: int|
                            0 <= q < x + 1 && ((#[trigger] inter@[q]) as int) == id;
                        assert(q == x as int);
                    }
                    if occurs_prefix(inter@, x as int, id) {
                        let q = choose|q: int| 0 <= q < x && ((#[trigger] inter@[q]) as int) == id;
                        assert(0 <= q < x + 1 && (inter@[q] as int) == id);
                    }
                    if id == inter@[x as int] as int {
                        assert(0 <= x < x + 1 && (inter@[x as int] as int) == id);
                    }
                }
                if model::tx_contains(tx@, v as int) {
                    assert(kept@ == pre.push(v));
                    assert(occurs_prefix(kept@, kept@.len() as int, id) == (occurs_prefix(
                        pre,
                        pre.len() as int,
                        id,
                    ) || id == v as int)) by {
                        if occurs_prefix(kept@, kept@.len() as int, id) && !occurs_prefix(
                            pre,
                            pre.len() as int,
                            id,
                        ) {
                            let q = choose|q: int|
                                0 <= q < kept@.len() && ((#[trigger] kept@[q]) as int) == id;
                            assert(q == kept@.len() - 1);
                        }
                        if occurs_prefix(pre, pre.len() as int, id) {
                            let q = choose|q: int|
                                0 <= q < pre.len() && ((#[trigger] pre[q]) as int) == id;
                            assert(((kept@[q]) as int) == id);
                        }
                        if id == v as int {
                            assert(((kept@[kept@.len() - 1]) as int) == id);
                        }
                    }
                } else {
                    assert(kept@ == pre);
                }
            }
        }
        x += 1;
    }
    kept
}


/// Is `v` one of the listed members?
fn s_contains(s: &Vec<usize>, v: usize) -> (r: bool)
    ensures
        r == s@.map_values(|x: usize| x as int).to_set().contains(v as int),
{
    let ghost si = s@.map_values(|x: usize| x as int);
    let mut k: usize = 0;
    while k < s.len()
        invariant
            si == s@.map_values(|x: usize| x as int),
            k <= s@.len(),
            forall|x: int| 0 <= x < k ==> (#[trigger] s@[x]) != v,
        decreases s@.len() - k,
    {
        if s[k] == v {
            proof {
                assert(si[k as int] == v as int);
                assert(si.contains(v as int));
            }
            return true;
        }
        k += 1;
    }
    proof {
        if si.to_set().contains(v as int) {
            let q = choose|q: int| 0 <= q < si.len() && si[q] == v as int;
            assert(s@[q] == v);
        }
    }
    false
}

/// Does the candidate itemset pass the closure test against the dataset?
/// Exact whenever the candidate covers at least one transaction.
fn is_closed_check(transactions: &Vec<Vec<u32>>, s: &Vec<usize>) -> (r: bool)
    ensures
        model::cover_of(
            model::tx_views(transactions@),
            s@.map_values(|x: usize| x as int).to_set(),
        ) != Set::<int>::empty() ==> r == closed_itemset_set(
            model::tx_views(transactions@),
            s@.map_values(|x: usize| x as int).to_set(),
        ),
{
    let ghost txsv = model::tx_views(transactions@);
    let ghost set = s@.map_values(|x: usize| x as int).to_set();
    let n = transactions.len();
    // Find the first transaction the candidate covers.
    let mut t0: usize = 0;
    let mut found = false;
    while t0 < n && !found
        invariant
            txsv == model::tx_views(transactions@),
            set == s@.map_values(|x: usize| x as int).to_set(),
            n == transactions@.len(),
            t0 <= n,
            found ==> t0 < n && model::cover_of(txsv, set).contains(t0 as int),
            forall|u: int| 0 <= u < t0 ==> !model::cover_of(txsv, set).contains(u),
        decreases n - t0, (if found { 0int } else { 1 }),
    {
        let c = covers(&transactions[t0], s);
        proof {
            lemma_cover_member(txsv, s@, t0 as int);
        }
        if c {
            found = true;
        } else {
            t0 += 1;
        }
    }
    if !found {
        proof {
            assert forall|u: int| !model::cover_of(txsv, set).contains(u) by {
                lemma_cover_member(txsv, s@, u);
            }
            assert(model::cover_of(txsv, set) =~= Set::<int>::empty());
        }
        return true;
    }
    // The closure candidates: items of the first covering transaction that
    // recur in every later covering transaction.
    let mut inter: Vec<u32> = Vec::new();
    let first = &transactions[t0];
    let mut j: usize = 0;
    while j < first.len()
        invariant
            t0 < transactions@.len(),
            first@ == transactions@[t0 as int]@,
            j <= first@.len(),
            inter@ == first@.subrange(0, j as int),
        decreases first@.len() - j,
    {
        inter.push(first[j]);
        j += 1;
        proof {
            assert(inter@ =~= first@.subrange(0, j as int));
        }
    }
    proof {
        assert(inter@ == txsv[t0 as int]);
        assert forall|id: int|
            #[trigger] occurs_prefix(inter@, inter@.len() as int, id) == model::tx_contains(
            txsv[t0 as int],
            id,
        ) by {
            if model::tx_contains(txsv[t0 as int], id) {
                let k = choose|k: int|
                    0 <= k < txsv[t0 as int].len() && txsv[t0 as int][k] == id;
                assert((inter@[k] as int) == id);
            }
            if occurs_prefix(inter@, inter@.len() as int, id) {
                let q = choose|q: int|
                    0 <= q < inter@.len() && ((#[trigger] inter@[q]) as int) == id;
                assert(txsv[t0 as int][q] == id);
            }
        }
    }
    let mut t: usize = t0 + 1;
    while t < n
        invariant
            txsv == model::tx_views(transactions@),
            set == s@.map_values(|x: usize| x as int).to_set(),
            n == transactions@.len(),
            t0 < n,
            t0 < t <= n || t == t0 + 1,
            t0 + 1 <= t <= n,
            model::cover_of(txsv, set).contains(t0 as int),
            forall|u: int| 0 <= u < t0 ==> !model::cover_of(txsv, set).contains(u),
            forall|id: int|
                #[trigger] occurs_prefix(inter@, inter@.len() as int, id) == (model::tx_contains(
                    txsv[t0 as int],
                    id,
                ) && forall|u: int|
                    t0 < u < t && model::cover_of(txsv, set).contains(u)
                        ==> model::tx_contains(#[trigger] txsv[u], id)),
        decreases n - t,
    {
        let c = covers(&transactions[t], s);
        proof {
            lemma_cover_member(txsv, s@, t as int);
        }
        let ghost pre_inter = inter@;
        if c {
            let next = retain_in(&transactions[t], &inter);
            inter = next;
        }
        proof {
            assert forall|id: int|
                #[trigger] occurs_prefix(inter@, inter@.len() as int, id) == (model::tx_contains(
                txsv[t0 as int],
                id,
            ) && forall|u: int|
                t0 < u < t + 1 && model::cover_of(txsv, set).contains(u) ==> model::tx_contains(
                    #[trigger] txsv[u],
                    id,
                )) by {
                let old_cand = model::tx_contains(txsv[t0 as int], id) && (forall|u: int|
                    t0 < u < t && model::cover_of(txsv, set).contains(u) ==> model::tx_contains(
                        #[trigger] txsv[u],
                        id,
                    ));
                let new_cand = model::tx_contains(txsv[t0 as int], id) && (forall|u: int|
                    t0 < u < t + 1 && model::cover_of(txsv, set).contains(u)
                        ==> model::tx_contains(#[trigger] txsv[u], id));
                if c {
                    assert(occurs_prefix(inter@, inter@.len() as int, id) == (occurs_prefix(
                        pre_inter,
                        pre_inter.len() as int,
                        id,
                    ) && model::tx_contains(transactions@[t as int]@, id)));
                    assert(transactions@[t as int]@ == txsv[t as int]);
                    assert(new_cand == (old_cand && model::tx_contains(txsv[t as int], id))) by {
                        if old_cand && model::tx_contains(txsv[t as int], id) {
                            assert forall|u: int|
                                t0 < u < t + 1 && model::cover_of(txsv, set).contains(u)
                                    implies model::tx_contains(#[trigger] txsv[u], id) by {
                                if u < t {
                                } else {
                                    assert(u == t);
                                }
                            }
                        }
                    }
                } else {
                    assert(inter@ == pre_inter);
                    assert(new_cand == old_cand) by {
                        if old_cand {
                            assert forall|u: int|
                                t0 < u < t + 1 && model::cover_of(txsv, set).contains(u)
                                    implies model::tx_contains(#[trigger] txsv[u], id) by {
                                if u == t {
                                    assert(!model::cover_of(txsv, set).contains(t as int));
                                }
                            }
                        }
                    }
                }
            }
        }
        t += 1;
    }
    // Closed exactly when every candidate is already a member.
    let mut x: usize = 0;
    while x < inter.len()
        invariant
            txsv == model::tx_views(transactions@),
            set == s@.map_values(|x2: usize| x2 as int).to_set(),
            n == transactions@.len(),
            t0 < n,
            model::cover_of(txsv, set).contains(t0 as int),
            forall|u: int| 0 <= u < t0 ==> !model::cover_of(txsv, set).contains(u),
            forall|id: int|
                #[trigger] occurs_prefix(inter@, inter@.len() as int, id) == (model::tx_contains(
                    txsv[t0 as int],
                    id,
                ) && forall|u: int|
                    t0 < u < n && model::cover_of(txsv, set).contains(u) ==> model::tx_contains(
                        #[trigger] txsv[u],
                        id,
                    )),
            x <= inter@.len(),
            forall|q: int| 0 <= q < x ==> set.contains(((#[trigger] inter@[q]) as int)),
        decreases inter@.len() - x,
    {
        let v = inter[x];
        if !s_contains(s, v as usize) {
            proof {
                let id = v as int;
                assert(occurs_prefix(inter@, inter@.len() as int, id)) by {
                    assert(((inter@[x as int]) as int) == id);
                }
                assert forall|u: int|
                    model::cover_of(txsv, set).contains(u) implies #[trigger] model::item_cover(
                    txsv,
                    id,
                ).contains(u) by {
                    model::lemma_cover_finite(txsv, set);
                    if u == t0 as int {
                        assert(model::tx_contains(txsv[u], id));
                    } else if u > t0 as int {
                        assert(model::tx_contains(txsv[u], id));
                    } else {
                        assert(!model::cover_of(txsv, set).contains(u));
                    }
                }
                assert(model::cover_of(txsv, set).subset_of(model::item_cover(txsv, id)));
                assert(!set.contains(id));
                assert(!closed_itemset_set(txsv, set));
            }
            return false;
        }
        x += 1;
    }
    proof {
        assert forall|id: int|
            model::cover_of(txsv, set).subset_of(
                #[trigger] model::item_cover(txsv, id),
            ) implies set.contains(id) by {
            assert(model::item_cover(txsv, id).contains(t0 as int));
            assert(model::tx_contains(txsv[t0 as int], id));
            assert forall|u: int|
                t0 < u < n && model::cover_of(txsv, set).contains(u) implies model::tx_contains(
                #[trigger] txsv[u],
                id,
            ) by {
                assert(model::item_cover(txsv, id).contains(u));
            }
            assert(occurs_prefix(inter@, inter@.len() as int, id));
            let q = choose|q: int| 0 <= q < inter@.len() && ((#[trigger] inter@[q]) as int) == id;
            assert(set.contains(inter@[q] as int));
        }
    }
    true
}

/// The intersection of all transactions: the bottom closure's members.
fn bottom_items(transactions: &Vec<Vec<u32>>) -> (r: Vec<usize>)
    ensures
        r@.map_values(|x: usize| x as int).to_set() == model::bottom_closure(
            model::tx_views(transactions@),
        ),
{
    let ghost txsv = model::tx_views(transactions@);
    if transactions.len() == 0 {
        let r: Vec<usize> = Vec::new();
        proof {
            assert(r@.map_values(|x: usize| x as int).to_set() =~= model::bottom_closure(txsv));
        }
        return r;
    }
    let n = transactions.len();
    let mut inter: Vec<u32> = Vec::new();
    let first = &transactions[0];
    let mut j: usize = 0;
    while j < first.len()
        invariant
            transactions@.len() > 0,
            first@ == transactions@[0]@,
            j <= first@.len(),
            inter@ == first@.subrange(0, j as int),
        decreases first@.len() - j,
    {
        inter.push(first[j]);
        j += 1;
        proof {
            assert(inter@ =~= first@.subrange(0, j as int));
        }
    }
    proof {
        assert(inter@ == txsv[0]);
        assert forall|id: int|
            #[trigger] occurs_prefix(inter@, inter@.len() as int, id) == model::tx_contains(
            txsv[0],
            id,
        ) by {
            if model::tx_contains(txsv[0], id) {
                let k = choose|k: int| 0 <= k < txsv[0].len() && txsv[0][k] == id;
                assert((inter@[k] as int) == id);
            }
            if occurs_prefix(inter@, inter@.len() as int, id) {
                let q = choose|q: int|
                    0 <= q < inter@.len() && ((#[trigger] inter@[q]) as int) == id;
                assert(txsv[0][q] == id);
            }
        }
    }
    let mut t: usize = 1;
    while t < n
        invariant
            txsv == model::tx_views(transactions@),
            n == transactions@.len(),
            1 <= t <= n,
            forall|id: int|
                #[trigger] occurs_prefix(inter@, inter@.len() as int, id) == (model::tx_contains(
                    txsv[0],
                    id,
                ) && forall|u: int| 1 <= u < t ==> model::tx_contains(#[trigger] txsv[u], id)),
        decreases n - t,
    {
        let ghost pre_inter = inter@;
        let next = retain_in(&transactions[t], &inter);
        inter = next;
        proof {
            assert forall|id: int|
                #[trigger] occurs_prefix(inter@, inter@.len() as int, id) == (model::tx_contains(
                txsv[0],
                id,
            ) && forall|u: int| 1 <= u < t + 1 ==> model::tx_contains(#[trigger] txsv[u], id)) by {
                assert(occurs_prefix(inter@, inter@.len() as int, id) == (occurs_prefix(
                    pre_inter,
                    pre_inter.len() as int,
                    id,
                ) && model::tx_contains(transactions@[t as int]@, id)));
                assert(transactions@[t as int]@ == txsv[t as int]);
                if occurs_prefix(pre_inter, pre_inter.len() as int, id) && model::tx_contains(
                    txsv[t as int],
                    id,
                ) {
                    assert forall|u: int| 1 <= u < t + 1 implies model::tx_contains(
                        #[trigger] txsv[u],
                        id,
                    ) by {
                        if u < t {
                        } else {
                            assert(u == t);
                        }
                    }
                }
            }
        }
        t += 1;
    }
    // Hand the members out as item ids.
    let mut r: Vec<usize> = Vec::new();
    let mut x: usize = 0;
    while x < inter.len()
        invariant
            x <= inter@.len(),
            r@.len() == x,
            forall|q: int| 0 <= q < x ==> (#[trigger] r@[q]) as int == inter@[q] as int,
        decreases inter@.len() - x,
    {
        r.push(inter[x] as usize);
        x += 1;
    }
    proof {
        let ri = r@.map_values(|x2: usize| x2 as int);
        assert forall|id: int| ri.to_set().contains(id) implies model::bottom_closure(
            txsv,
        ).contains(id) by {
            let q = choose|q: int| 0 <= q < ri.len() && #[trigger] ri[q] == id;
            assert((inter@[q] as int) == id);
            assert(occurs_prefix(inter@, inter@.len() as int, id));
            assert forall|u: int| 0 <= u < txsv.len() implies model::tx_contains(
                #[trigger] txsv[u],
                id,
            ) by {
                if u == 0 {
                } else {
                }
            }
        }
        assert forall|id: int| model::bottom_closure(txsv).contains(id) implies ri.to_set().contains(
            id,
        ) by {
            assert(model::tx_contains(txsv[0], id));
            assert(forall|u: int| 1 <= u < n ==> model::tx_contains(#[trigger] txsv[u], id));
            assert(occurs_prefix(inter@, inter@.len() as int, id));
            let q = choose|q: int| 0 <= q < inter@.len() && ((#[trigger] inter@[q]) as int) == id;
            assert(ri[q] == id);
            assert(ri.contains(id));
        }
        assert(r@.map_values(|x2: usize| x2 as int).to_set() =~= model::bottom_closure(txsv));
    }
    r
}

pub struct NEclatClosed {
    n_items: usize,
    min_support: usize,
    items: Vec<Item>,
    n_transactions: usize,
    itemset_x: Vec<usize>,
    item_tids: Vec<RoaringBitmap>,
    cp_storage: CPStorage,
    closed_itemsets: Vec<ItemSet>,
    txs: Ghost<Seq<Seq<u32>>>,
}

impl NEclatClosed {
    /// The frequent-item table is sound: counts are true transaction
    /// counts, meet the threshold, and ids are distinct.
    pub closed spec fn items_ok(self) -> bool {
        &&& forall|p: int|
            0 <= p < self.items@.len() ==> (#[trigger] self.items@[p]).num
                == model::item_cover(self.txs@, self.items@[p].index as int).len()
        &&& forall|p: int|
            0 <= p < self.items@.len() ==> (#[trigger] self.items@[p]).num >= self.min_support
                && self.items@[p].num >= 1
        &&& forall|p1: int, p2: int|
            0 <= p1 < p2 < self.items@.len() ==> (#[trigger] self.items@[p1]).index != (
            #[trigger] self.items@[p2]).index
    }

    /// How many result itemsets the state has accumulated.
    pub closed spec fn pending(self) -> nat {
        self.closed_itemsets@.len()
    }

    /// The path buffer holds distinct internal indices.
    pub closed spec fn path_ok(self) -> bool {
        &&& forall|q: int| 0 <= q < self.itemset_x@.len() ==> self.itemset_x@[q] < self.n_items
        &&& forall|q1: int, q2: int|
            0 <= q1 < q2 < self.itemset_x@.len() ==> self.itemset_x@[q1] != self.itemset_x@[q2]
    }

    /// The state invariant of a run.
    pub closed spec fn inv(self) -> bool {
        &&& self.n_items == self.items@.len()
        &&& self.n_transactions == self.txs@.len()
        &&& self.items_ok()
        &&& self.path_ok()
        &&& self.cp_storage.wf()
        &&& forall|k: int|
            0 <= k < self.closed_itemsets@.len() ==> good_itemset(
                self.txs@,
                self.min_support as int,
                #[trigger] self.closed_itemsets@[k],
            )
    }

    /// A tree node is sound relative to its parent's true tidset.
    spec fn node_ok(self, node: TreeNode, parent: Set<int>, root_level: bool) -> bool {
        &&& node.label < self.n_items
        &&& node.actual@ == parent.intersect(
            model::item_cover(self.txs@, self.items@[node.label as int].index as int),
        )
        &&& node.actual@.finite()
        &&& node.count == node.actual@.len()
        &&& node.count >= self.min_support
        &&& rb_set(node.tid_set) == if root_level {
            node.actual@
        } else {
            parent.difference(node.actual@)
        }
        &&& if root_level {
            node.actual@.len() >= 1
        } else {
            node.actual@.len() < parent.len()
        }
    }

    /// A sibling list is sound: every node is, their labels are distinct,
    /// and none of them is on the path already.
    spec fn siblings_ok(self, nodes: Seq<TreeNode>, parent: Set<int>, root_level: bool) -> bool {
        &&& forall|k: int|
            0 <= k < nodes.len() ==> self.node_ok(#[trigger] nodes[k], parent, root_level)
        &&& forall|k1: int, k2: int|
            0 <= k1 < k2 < nodes.len() ==> (#[trigger] nodes[k1]).label != (
            #[trigger] nodes[k2]).label
        &&& forall|k: int, q: int|
            0 <= k < nodes.len() && 0 <= q < self.itemset_x@.len() ==> (#[trigger] nodes[k]).label
                != #[trigger] self.itemset_x@[q]
    }

    /// Appending an index to the path intersects its cover with that item's.
    proof fn lemma_path_push(self, xs: Seq<usize>, x: usize)
        requires
            x < self.items@.len(),
        ensures
            ids_of(self.items@, xs.push(x)) == ids_of(self.items@, xs).insert(
                self.items@[x as int].index as int,
            ),
            model::cover_of(self.txs@, ids_of(self.items@, xs.push(x))) == model::cover_of(
                self.txs@,
                ids_of(self.items@, xs),
            ).intersect(model::item_cover(self.txs@, self.items@[x as int].index as int)),
    {
        let f = |y: usize| self.items@[y as int].index as int;
        let s1 = xs.map_values(f);
        let s2 = xs.push(x).map_values(f);
        assert(s2 =~= s1.push(self.items@[x as int].index as int));
        assert forall|id: int| ids_of(self.items@, xs.push(x)).contains(id) implies ids_of(
            self.items@,
            xs,
        ).insert(self.items@[x as int].index as int).contains(id) by {
            let q = choose|q: int| 0 <= q < s2.len() && s2[q] == id;
            if q < s1.len() {
                assert(s1[q] == id);
            }
        }
        assert forall|id: int|
            ids_of(self.items@, xs).insert(self.items@[x as int].index as int).contains(
                id,
            ) implies ids_of(self.items@, xs.push(x)).contains(id) by {
            if id == self.items@[x as int].index as int {
                assert(s2[s2.len() - 1] == id);
            } else {
                let q = choose|q: int| 0 <= q < s1.len() && s1[q] == id;
                assert(s2[q] == id);
            }
        }
        assert(ids_of(self.items@, xs.push(x)) =~= ids_of(self.items@, xs).insert(
            self.items@[x as int].index as int,
        ));
        model::lemma_cover_insert(
            self.txs@,
            ids_of(self.items@, xs),
            self.items@[x as int].index as int,
        );
    }

    /// Distinct internal indices name distinct original ids.
    proof fn lemma_id_injective(self, l1: int, l2: int)
        requires
            self.items_ok(),
            0 <= l1 < self.items@.len(),
            0 <= l2 < self.items@.len(),
            l1 != l2,
        ensures
            id_of(self.items@, l1) != id_of(self.items@, l2),
    {
    }

    /// Scan the dataset once and keep the items whose transaction count
    /// meets the threshold, sorted by decreasing count (ties by ascending
    /// id).  A repeated id inside one transaction counts once.
    fn get_data(&mut self, transactions: &Vec<Vec<u32>>, min_count: usize)
        ensures
            final(self).txs@ == model::tx_views(transactions@),
            final(self).min_support == min_count,
            final(self).n_transactions == transactions@.len(),
            final(self).n_items == final(self).items@.len(),
            final(self).items_ok(),
            items_sorted(final(self).items@),
            forall|id: int|
                model::item_cover(model::tx_views(transactions@), id).len() >= min_count
                    && #[trigger] model::item_cover(model::tx_views(transactions@), id).len() >= 1
                    ==> item_listed(final(self).items@, id),
    {
        self.n_transactions = transactions.len();
        self.min_support = min_count;
        self.txs = Ghost(model::tx_views(transactions@));
        let ghost txsv = model::tx_views(transactions@);

        // Count, per item id, the transactions that contain it.
        let mut ids: Vec<u32> = Vec::new();
        let mut counts: Vec<usize> = Vec::new();
        let mut t: usize = 0;
        proof {
            assert forall|id: int| count_set(txsv, 0, id) =~= Set::<int>::empty() by {}
        }
        while t < transactions.len()
            invariant
                txsv == model::tx_views(transactions@),
                t <= transactions@.len(),
                ids@.len() == counts@.len(),
                forall|p1: int, p2: int| 0 <= p1 < p2 < ids@.len() ==> ids@[p1] != ids@[p2],
                forall|p: int|
                    0 <= p < ids@.len() ==> #[trigger] counts@[p] == count_set(
                        txsv,
                        t as int,
                        ids@[p] as int,
                    ).len() && counts@[p] >= 1,
                forall|u: int, jj: int|
                    0 <= u < t && 0 <= jj < txsv[u].len() ==> #[trigger] listed(ids@, txsv[u][jj]),
            decreases transactions@.len() - t,
        {
            let tx = &transactions[t];
            proof {
                assert(tx@ == txsv[t as int]);
                assert forall|id: int|
                    count_set_mid(txsv, t as int, tx@, 0, id) =~= count_set(txsv, t as int, id) by {}
            }
            let mut j: usize = 0;
            while j < tx.len()
                invariant
                    txsv == model::tx_views(transactions@),
                    t < transactions@.len(),
                    t < usize::MAX,
                    tx@ == transactions@[t as int]@,
                    tx@ == txsv[t as int],
                    j <= tx@.len(),
                    ids@.len() == counts@.len(),
                    forall|p1: int, p2: int| 0 <= p1 < p2 < ids@.len() ==> ids@[p1] != ids@[p2],
                    forall|p: int|
                        0 <= p < ids@.len() ==> #[trigger] counts@[p] == count_set_mid(
                            txsv,
                            t as int,
                            tx@,
                            j as int,
                            ids@[p] as int,
                        ).len() && counts@[p] >= 1,
                    forall|u: int, jj: int|
                        0 <= u < t && 0 <= jj < txsv[u].len() ==> #[trigger] listed(
                            ids@,
                            txsv[u][jj],
                        ),
                    forall|jj: int| 0 <= jj < j ==> #[trigger] listed(ids@, tx@[jj]),
                decreases tx@.len() - j,
            {
                let id = tx[j];
                let ghost iter_ids = ids@;
                // Only the first occurrence in this transaction counts.
                let mut dup = false;
                let mut j2: usize = 0;
                while j2 < j
                    invariant
                        j <= tx@.len(),
                        j2 <= j,
                        tx@ == transactions@[t as int]@,
                        id == tx@[j as int],
                        dup == exists|x: int| 0 <= x < j2 && tx@[x] == id,
                    decreases j - j2,
                {
                    if tx[j2] == id {
                        dup = true;
                    }
                    j2 += 1;
                }
                if !dup {
                    // Look the id up among those already seen.
                    let mut p: usize = 0;
                    while p < ids.len() && ids[p] != id
                        invariant
                            p <= ids@.len(),
                            forall|x: int| 0 <= x < p ==> ids@[x] != id,
                        decreases ids@.len() - p,
                    {
                        p += 1;
                    }
                    let ghost pre_counts = counts@;
                    if p < ids.len() {
                        let c = counts[p];
                        proof {
                            lemma_count_set_mid_bound(txsv, t as int, tx@, j as int, id as int);
                            assert(!seen_before(tx@, j as int, id as int));
                            assert(c <= t);
                            assert(c < usize::MAX);
                        }
                        counts.set(p, c + 1);
                        proof {
                            assert forall|q: int| 0 <= q < ids@.len() implies #[trigger] counts@[q]
                                == count_set_mid(
                                txsv,
                                t as int,
                                tx@,
                                j + 1,
                                ids@[q] as int,
                            ).len() && counts@[q] >= 1 by {
                                lemma_count_set_mid_step(txsv, t as int, tx@, j as int, ids@[q] as int);
                                if q == p as int {
                                    assert(tx@[j as int] == id);
                                    lemma_count_set_mid_bound(txsv, t as int, tx@, j as int, id as int);
                                } else {
                                    assert(ids@[q] != id);
                                    assert(counts@[q] == pre_counts[q]);
                                }
                            }
                            assert(ids@[p as int] == id);
                            assert(listed(ids@, id));
                        }
                    } else {
                        ids.push(id);
                        counts.push(1);
                        proof {
                            assert forall|q: int| 0 <= q < ids@.len() implies #[trigger] counts@[q]
                                == count_set_mid(
                                txsv,
                                t as int,
                                tx@,
                                j + 1,
                                ids@[q] as int,
                            ).len() && counts@[q] >= 1 by {
                                lemma_count_set_mid_step(txsv, t as int, tx@, j as int, ids@[q] as int);
                                if q == ids@.len() - 1 {
                                    assert(ids@[q] == id);
                                    // A fresh id occurs in no earlier transaction,
                                    // else it would already be listed.
                                    assert forall|u: int|
                                        0 <= u < t implies !model::tx_contains(
                                        txsv[u],
                                        id as int,
                                    ) by {
                                        if model::tx_contains(txsv[u], id as int) {
                                            let jj = choose|jj: int|
                                                0 <= jj < txsv[u].len() && txsv[u][jj] == id as int;
                                            assert(listed(iter_ids, txsv[u][jj]));
                                            let x = choose|x: int|
                                                0 <= x < iter_ids.len() && iter_ids[x] == txsv[u][jj];
                                            assert(iter_ids[x] == id);
                                            assert(ids@[x] != id);
                                        }
                                    }
                                    assert(!seen_before(tx@, j as int, id as int));
                                    assert(tx@[j as int] == id);
                                    assert(count_set_mid(txsv, t as int, tx@, j as int, id as int)
                                        =~= Set::<int>::empty());
                                    assert(count_set_mid(txsv, t as int, tx@, j + 1, id as int)
                                        =~= Set::<int>::empty().insert(t as int));
                                } else {
                                    assert(ids@[q] == iter_ids[q]);
                                    assert(ids@[q] != id);
                                    assert(counts@[q] == pre_counts[q]);
                                }
                            }
                            assert(ids@[ids@.len() - 1] == id);
                            assert(listed(ids@, id));
                        }
                    }
                } else {
                    proof {
                        let x0 = choose|x: int| 0 <= x < j && tx@[x] == id;
                        assert(listed(ids@, tx@[x0]));
                        assert(listed(ids@, id));
                        assert forall|q: int| 0 <= q < ids@.len() implies #[trigger] counts@[q]
                            == count_set_mid(
                            txsv,
                            t as int,
                            tx@,
                            j + 1,
                            ids@[q] as int,
                        ).len() && counts@[q] >= 1 by {
                            lemma_count_set_mid_step(txsv, t as int, tx@, j as int, ids@[q] as int);
                            if tx@[j as int] as int == ids@[q] as int {
                                assert(seen_before(tx@, j as int, ids@[q] as int)) by {
                                    assert(tx@[x0] == id);
                                }
                            }
                        }
                    }
                }
                proof {
                    assert(forall|x: int| 0 <= x < iter_ids.len() ==> ids@[x] == iter_ids[x]);
                    assert(iter_ids.len() <= ids@.len());
                    assert forall|jj: int| 0 <= jj < j + 1 implies #[trigger] listed(
                        ids@,
                        tx@[jj],
                    ) by {
                        if jj == j {
                            assert(listed(ids@, id));
                        } else {
                            lemma_listed_grow(iter_ids, ids@, tx@[jj]);
                        }
                    }
                    assert forall|u: int, jj: int|
                        0 <= u < t && 0 <= jj < txsv[u].len() implies #[trigger] listed(
                        ids@,
                        txsv[u][jj],
                    ) by {
                        lemma_listed_grow(iter_ids, ids@, txsv[u][jj]);
                    }
                }
                j += 1;
            }
            proof {
                assert forall|p: int| 0 <= p < ids@.len() implies #[trigger] counts@[p] == count_set(
                    txsv,
                    t + 1,
                    ids@[p] as int,
                ).len() && counts@[p] >= 1 by {
                    assert(count_set_mid(txsv, t as int, tx@, tx@.len() as int, ids@[p] as int)
                        =~= count_set(txsv, t + 1, ids@[p] as int));
                }
                assert forall|u: int, jj: int|
                    0 <= u < t + 1 && 0 <= jj < txsv[u].len() implies #[trigger] listed(
                    ids@,
                    txsv[u][jj],
                ) by {
                    if u == t {
                        assert(listed(ids@, tx@[jj]));
                    }
                }
            }
            t += 1;
        }
        proof {
            assert forall|p: int| 0 <= p < ids@.len() implies #[trigger] counts@[p]
                == model::item_cover(txsv, ids@[p] as int).len() && counts@[p] >= 1 by {
                assert(count_set(txsv, t as int, ids@[p] as int) =~= model::item_cover(
                    txsv,
                    ids@[p] as int,
                ));
            }
            // Every id with a nonempty cover occurs and so is listed.
            assert forall|id: int|
                #[trigger] model::item_cover(txsv, id).len() >= 1 implies id_occurs_in(
                ids@,
                id,
            ) by {
                model::lemma_item_cover_finite(txsv, id);
                assert(exists|u: int| model::item_cover(txsv, id).contains(u)) by {
                    if forall|u: int| !model::item_cover(txsv, id).contains(u) {
                        assert(model::item_cover(txsv, id) =~= Set::<int>::empty());
                    }
                }
                let u = choose|u: int| model::item_cover(txsv, id).contains(u);
                assert(model::tx_contains(txsv[u], id));
                let jj = choose|jj: int| 0 <= jj < txsv[u].len() && txsv[u][jj] == id;
                assert(listed(ids@, txsv[u][jj]));
                let q = choose|q: int| 0 <= q < ids@.len() && ids@[q] == txsv[u][jj];
                assert((ids@[q] as int) == id);
            }
        }
        // Keep the frequent items.
        self.items = Vec::new();
        let mut p: usize = 0;
        while p < ids.len()
            invariant
                self.txs@ == txsv,
                self.min_support == min_count,
                self.n_transactions == transactions@.len(),
                ids@.len() == counts@.len(),
                p <= ids@.len(),
                forall|p1: int, p2: int| 0 <= p1 < p2 < ids@.len() ==> ids@[p1] != ids@[p2],
                forall|q: int|
                    0 <= q < ids@.len() ==> #[trigger] counts@[q] == model::item_cover(
                        txsv,
                        ids@[q] as int,
                    ).len() && counts@[q] >= 1,
                self.items_ok(),
                forall|q: int|
                    0 <= q < self.items@.len() ==> exists|x: int|
                        0 <= x < p && ids@[x] as int == (#[trigger] self.items@[q]).index as int,
                forall|q: int|
                    0 <= q < p && counts@[q] >= min_count ==> item_listed(
                        self.items@,
                        (#[trigger] ids@[q]) as int,
                    ),
            decreases ids@.len() - p,
        {
            if counts[p] >= min_count {
                let ghost pre_items = self.items@;
                self.items.push(Item { index: ids[p] as usize, num: counts[p] });
                proof {
                    assert forall|p1: int, p2: int|
                        0 <= p1 < p2 < self.items@.len() implies (
                    #[trigger] self.items@[p1]).index != (#[trigger] self.items@[p2]).index by {
                        if p2 == self.items@.len() - 1 {
                            let x = choose|x: int|
                                0 <= x < p && ids@[x] as int == pre_items[p1].index as int;
                            assert(ids@[x] != ids@[p as int]);
                        } else {
                            assert(self.items@[p1] == pre_items[p1]);
                            assert(self.items@[p2] == pre_items[p2]);
                        }
                    }
                    assert forall|q: int|
                        0 <= q < p + 1 && counts@[q] >= min_count implies item_listed(
                        self.items@,
                        (#[trigger] ids@[q]) as int,
                    ) by {
                        if q == p as int {
                            assert((self.items@[self.items@.len() - 1].index as int) == (
                            ids@[q] as int));
                        } else {
                            lemma_item_listed_grow(pre_items, self.items@, ids@[q] as int);
                        }
                    }
                }
            } else {
                proof {
                    assert forall|q: int|
                        0 <= q < p + 1 && counts@[q] >= min_count implies item_listed(
                        self.items@,
                        (#[trigger] ids@[q]) as int,
                    ) by {}
                }
            }
            p += 1;
        }
        proof {
            // Ids that are frequent enough all made it into the table.
            assert forall|id: int|
                model::item_cover(txsv, id).len() >= min_count && #[trigger] model::item_cover(
                    txsv,
                    id,
                ).len() >= 1 implies item_listed(self.items@, id) by {
                assert(id_occurs_in(ids@, id));
                let q = choose|q: int| 0 <= q < ids@.len() && ((#[trigger] ids@[q]) as int) == id;
                assert(counts@[q] == model::item_cover(txsv, ids@[q] as int).len());
                assert(counts@[q] >= min_count);
                assert(item_listed(self.items@, ids@[q] as int));
            }
        }

        // Sort by decreasing count, ties by ascending id: repeatedly pick
        // the best remaining item.
        let ghost pre_sort = self.items@;
        let mut rest: Vec<Item> = Vec::new();
        core::mem::swap(&mut rest, &mut self.items);
        while rest.len() > 0
            invariant
                self.txs@ == txsv,
                self.min_support == min_count,
                self.n_transactions == transactions@.len(),
                self.items_ok(),
                forall|q: int|
                    0 <= q < rest@.len() ==> (#[trigger] rest@[q]).num == model::item_cover(
                        txsv,
                        rest@[q].index as int,
                    ).len() && rest@[q].num >= min_count && rest@[q].num >= 1,
                forall|q1: int, q2: int|
                    0 <= q1 < q2 < rest@.len() ==> (#[trigger] rest@[q1]).index != (
                    #[trigger] rest@[q2]).index,
                forall|q1: int, q2: int|
                    0 <= q1 < self.items@.len() && 0 <= q2 < rest@.len() ==> (
                    #[trigger] self.items@[q1]).index != (#[trigger] rest@[q2]).index,
                items_sorted(self.items@),
                forall|q1: int, q2: int|
                    0 <= q1 < self.items@.len() && 0 <= q2 < rest@.len() ==> ((
                    #[trigger] self.items@[q1]).num > (#[trigger] rest@[q2]).num || (
                    self.items@[q1].num == rest@[q2].num && self.items@[q1].index
                        < rest@[q2].index)),
                forall|id: int|
                    #[trigger] item_listed(pre_sort, id) ==> item_listed(self.items@, id)
                        || item_listed(rest@, id),
            decreases rest@.len(),
        {
            let mut best: usize = 0;
            let mut q: usize = 1;
            while q < rest.len()
                invariant
                    rest@.len() > 0,
                    best < q,
                    q <= rest@.len(),
                    forall|x: int|
                        0 <= x < q ==> !((#[trigger] rest@[x]).num > rest@[best as int].num || (
                        rest@[x].num == rest@[best as int].num && rest@[x].index
                            < rest@[best as int].index)),
                decreases rest@.len() - q,
            {
                let better = rest[q].num > rest[best].num || (rest[q].num == rest[best].num
                    && rest[q].index < rest[best].index);
                if better {
                    best = q;
                }
                q += 1;
            }
            let ghost pre_rest = rest@;
            let ghost pre_items = self.items@;
            let chosen = rest.swap_remove(best);
            self.items.push(chosen);
            proof {
                assert(chosen == pre_rest[best as int]);
                assert forall|x: int| 0 <= x < rest@.len() implies rest@[x] == pre_rest[x] || rest@[x]
                    == pre_rest[pre_rest.len() - 1] by {}
                assert forall|p1: int, p2: int|
                    0 <= p1 < p2 < self.items@.len() implies (#[trigger] self.items@[p1]).index != (
                #[trigger] self.items@[p2]).index by {
                    if p2 == self.items@.len() - 1 {
                        assert(self.items@[p1] == pre_items[p1]);
                    } else {
                        assert(self.items@[p1] == pre_items[p1]);
                        assert(self.items@[p2] == pre_items[p2]);
                    }
                }
                // The chosen item ranks no later than anything left over.
                assert forall|q2: int|
                    0 <= q2 < rest@.len() implies (chosen.num > (#[trigger] rest@[q2]).num || (
                chosen.num == rest@[q2].num && chosen.index < rest@[q2].index)) by {
                    let x = if rest@[q2] == pre_rest[q2] && q2 != best as int {
                        q2
                    } else {
                        pre_rest.len() - 1
                    };
                    if rest@[q2] == pre_rest[q2] && q2 != best as int {
                        assert(!(pre_rest[q2].num > chosen.num || (pre_rest[q2].num == chosen.num
                            && pre_rest[q2].index < chosen.index)));
                        assert(pre_rest[q2].index != chosen.index);
                    } else {
                        assert(rest@[q2] == pre_rest[pre_rest.len() - 1]);
                        assert(!(pre_rest[pre_rest.len() - 1].num > chosen.num || (pre_rest[
                            pre_rest.len() - 1].num == chosen.num && pre_rest[pre_rest.len()
                            - 1].index < chosen.index)));
                        if pre_rest.len() - 1 != best as int {
                            assert(pre_rest[pre_rest.len() - 1].index != chosen.index);
                        } else {
                            assert(rest@.len() == 0);
                        }
                    }
                }
                assert forall|p1: int, p2: int|
                    0 <= p1 < p2 < self.items@.len() implies ((#[trigger] self.items@[p1]).num > (
                #[trigger] self.items@[p2]).num || (self.items@[p1].num == self.items@[p2].num
                    && self.items@[p1].index < self.items@[p2].index)) by {
                    if p2 == self.items@.len() - 1 {
                        assert(self.items@[p1] == pre_items[p1]);
                        assert(self.items@[p2] == chosen);
                    } else {
                        assert(self.items@[p1] == pre_items[p1]);
                        assert(self.items@[p2] == pre_items[p2]);
                    }
                }
                // A listed id stays listed: it moved to the table or remains.
                assert forall|id: int|
                    #[trigger] item_listed(pre_sort, id) implies item_listed(self.items@, id)
                        || item_listed(rest@, id) by {
                    if item_listed(pre_items, id) {
                        lemma_item_listed_grow(pre_items, self.items@, id);
                    } else {
                        let x = choose|x: int|
                            0 <= x < pre_rest.len() && ((pre_rest[x]).index as int) == id;
                        if x == best as int {
                            assert((self.items@[self.items@.len() - 1].index as int) == id);
                        } else if x < pre_rest.len() - 1 {
                            assert(rest@[x] == pre_rest[x]);
                            assert(item_listed(rest@, id));
                        } else {
                            assert(rest@[best as int] == pre_rest[x]);
                            assert(item_listed(rest@, id));
                        }
                    }
                }
            }
        }
        proof {
            // With nothing left over, the sorted table lists everything the
            // selection pass kept.
            assert forall|id: int|
                model::item_cover(txsv, id).len() >= min_count && #[trigger] model::item_cover(
                    txsv,
                    id,
                ).len() >= 1 implies item_listed(self.items@, id) by {
                assert(item_listed(pre_sort, id));
                assert(!item_listed(rest@, id));
            }
        }
        self.n_items = self.items.len();
    }

    /// Build the per-item transaction id sets: frequent items collect the
    /// ids of the transactions containing them, other ids are ignored.
    fn build_tree(&mut self, transactions: &Vec<Vec<u32>>)
        requires
            old(self).items_ok(),
            old(self).n_items == old(self).items@.len(),
            old(self).txs@ == model::tx_views(transactions@),
            transactions@.len() <= u32::MAX,
        ensures
            *final(self) == (NEclatClosed { item_tids: final(self).item_tids, ..*old(self) }),
            final(self).item_tids@.len() == old(self).n_items,
            forall|i: int|
                0 <= i < final(self).item_tids@.len() ==> rb_set(
                    #[trigger] final(self).item_tids@[i],
                ) == model::item_cover(final(self).txs@, final(self).items@[i].index as int),
    {
        let ghost txsv = self.txs@;
        let mut tids: Vec<RoaringBitmap> = Vec::new();
        let n_items = self.n_items;
        while tids.len() < n_items
            invariant
                forall|i: int| 0 <= i < tids@.len() ==> rb_set(#[trigger] tids@[i]) == Set::<
                    int,
                >::empty(),
                tids@.len() <= n_items,
            decreases n_items - tids@.len(),
        {
            tids.push(rb_new());
        }
        proof {
            assert forall|i: int| 0 <= i < self.items@.len() implies rb_set(#[trigger] tids@[i])
                =~= count_set(txsv, 0, self.items@[i].index as int) by {}
        }
        let mut t: usize = 0;
        while t < transactions.len()
            invariant
                *self == *old(self),
                self.items_ok(),
                self.n_items == self.items@.len(),
                txsv == self.txs@,
                txsv == model::tx_views(transactions@),
                transactions@.len() <= u32::MAX,
                n_items == self.n_items,
                tids@.len() == n_items,
                t <= transactions@.len(),
                forall|i: int|
                    0 <= i < tids@.len() ==> rb_set(#[trigger] tids@[i]) == count_set(
                        txsv,
                        t as int,
                        self.items@[i].index as int,
                    ),
            decreases transactions@.len() - t,
        {
            let tx = &transactions[t];
            proof {
                assert(tx@ == txsv[t as int]);
                assert forall|i: int| 0 <= i < tids@.len() implies rb_set(#[trigger] tids@[i])
                    =~= count_set_mid(
                    txsv,
                    t as int,
                    tx@,
                    0,
                    self.items@[i].index as int,
                ) by {}
            }
            let mut j: usize = 0;
            while j < tx.len()
                invariant
                    *self == *old(self),
                    self.items_ok(),
                    self.n_items == self.items@.len(),
                    txsv == self.txs@,
                    txsv == model::tx_views(transactions@),
                    transactions@.len() <= u32::MAX,
                    n_items == self.n_items,
                    tids@.len() == n_items,
                    t < transactions@.len(),
                    tx@ == transactions@[t as int]@,
                    tx@ == txsv[t as int],
                    j <= tx@.len(),
                    forall|i: int|
                        0 <= i < tids@.len() ==> rb_set(#[trigger] tids@[i]) == count_set_mid(
                            txsv,
                            t as int,
                            tx@,
                            j as int,
                            self.items@[i].index as int,
                        ),
                decreases tx@.len() - j,
            {
                let id = tx[j];
                // Find the internal index of this id, if it is frequent.
                let mut i: usize = 0;
                while i < self.items.len() && self.items[i].index != id as usize
                    invariant
                        i <= self.items@.len(),
                        forall|x: int| 0 <= x < i ==> (#[trigger] self.items@[x]).index != id as usize,
                    decreases self.items@.len() - i,
                {
                    i += 1;
                }
                let ghost pre_tids = tids@;
                if i < self.items.len() {
                    let mut bm = rb_new();
                    tids.set_and_swap(i, &mut bm);
                    rb_insert(&mut bm, t as u32);
                    tids.set_and_swap(i, &mut bm);
                    proof {
                        assert(rb_set(tids@[i as int]) == rb_set(pre_tids[i as int]).insert(
                            t as int,
                        ));
                        assert(forall|q: int|
                            0 <= q < tids@.len() && q != i as int ==> tids@[q] == pre_tids[q]);
                    }
                }
                proof {
                    assert forall|q: int| 0 <= q < tids@.len() implies rb_set(#[trigger] tids@[q])
                        == count_set_mid(
                        txsv,
                        t as int,
                        tx@,
                        j + 1,
                        self.items@[q].index as int,
                    ) by {
                        let idx = self.items@[q].index as int;
                        lemma_count_set_mid_step(txsv, t as int, tx@, j as int, idx);
                        if i < self.items@.len() && q == i as int {
                            assert(tx@[j as int] as int == idx);
                            if seen_before(tx@, j as int, idx) {
                                assert(count_set_mid(txsv, t as int, tx@, j as int, idx).insert(
                                    t as int,
                                ) =~= count_set_mid(txsv, t as int, tx@, j as int, idx));
                            }
                        } else {
                            assert(tids@[q] == pre_tids[q]);
                            assert(tx@[j as int] as int != idx) by {
                                if q < i as int {
                                    assert(self.items@[q].index != id as usize);
                                }
                            }
                        }
                    }
                }
                j += 1;
            }
            proof {
                assert forall|i: int| 0 <= i < tids@.len() implies rb_set(#[trigger] tids@[i])
                    =~= count_set(txsv, t + 1, self.items@[i].index as int) by {}
            }
            t += 1;
        }
        proof {
            assert forall|i: int| 0 <= i < tids@.len() implies rb_set(#[trigger] tids@[i])
                =~= model::item_cover(txsv, self.items@[i].index as int) by {}
        }
        self.item_tids = tids;
    }

    /// Lay out the root's children: one node per frequent item, in
    /// descending internal order, carrying the item's full tidset.
    fn init_tree(&self) -> (roots: Vec<TreeNode>)
        requires
            self.items_ok(),
            self.n_items == self.items@.len(),
            self.n_transactions == self.txs@.len(),
            self.item_tids@.len() == self.n_items,
            forall|i: int|
                0 <= i < self.item_tids@.len() ==> rb_set(#[trigger] self.item_tids@[i])
                    == model::item_cover(self.txs@, self.items@[i].index as int),
            self.itemset_x@.len() == 0,
        ensures
            self.siblings_ok(
                roots@,
                set_int_range(0, self.n_transactions as int),
                true,
            ),
            roots@.len() == self.n_items,
            forall|k: int|
                0 <= k < roots@.len() ==> (#[trigger] roots@[k]).label == self.n_items - 1 - k,
    {
        let ghost parent = set_int_range(0, self.n_transactions as int);
        let mut roots: Vec<TreeNode> = Vec::new();
        let mut idx: usize = self.n_items;
        while idx > 0
            invariant
                self.items_ok(),
                self.n_items == self.items@.len(),
                self.n_transactions == self.txs@.len(),
                self.item_tids@.len() == self.n_items,
                forall|i: int|
                    0 <= i < self.item_tids@.len() ==> rb_set(#[trigger] self.item_tids@[i])
                        == model::item_cover(self.txs@, self.items@[i].index as int),
                self.itemset_x@.len() == 0,
                parent == set_int_range(0, self.n_transactions as int),
                idx <= self.n_items,
                roots@.len() == self.n_items - idx,
                forall|k: int|
                    0 <= k < roots@.len() ==> (#[trigger] roots@[k]).label == self.n_items - 1 - k,
                forall|k: int|
                    0 <= k < roots@.len() ==> self.node_ok(#[trigger] roots@[k], parent, true),
            decreases idx,
        {
            idx -= 1;
            let tid_set = rb_clone(&self.item_tids[idx]);
            let ghost cover = model::item_cover(self.txs@, self.items@[idx as int].index as int);
            proof {
                model::lemma_item_cover_finite(self.txs@, self.items@[idx as int].index as int);
                lemma_int_range(0, self.n_transactions as int);
                assert(parent.intersect(cover) =~= cover);
            }
            proof {
                assert(cover.len() <= self.txs@.len());
            }
            let len = rb_len(&tid_set);
            let count = len as usize;
            proof {
                assert(len as int <= self.n_transactions as int);
                assert(count == cover.len());
                assert(count == self.items@[idx as int].num);
            }
            let node = TreeNode { label: idx, tid_set, count, actual: Ghost(cover) };
            roots.push(node);
        }
        proof {
            assert forall|k1: int, k2: int|
                0 <= k1 < k2 < roots@.len() implies (#[trigger] roots@[k1]).label != (
            #[trigger] roots@[k2]).label by {}
        }
        roots
    }

    /// Visit one node: extend the path by its item, absorb equal-support
    /// siblings, try the path as a closed candidate, then descend into the
    /// children built from the remaining siblings.
    #[verifier::rlimit(100)]
    fn traverse(
        &mut self,
        curr: &TreeNode,
        siblings: &Vec<TreeNode>,
        root_level: bool,
        parent_actual: Ghost<Set<int>>,
    )
        requires
            old(self).inv(),
            old(self).node_ok(*curr, parent_actual@, root_level),
            old(self).siblings_ok(siblings@, parent_actual@, root_level),
            forall|kk: int| 0 <= kk < siblings@.len() ==> (#[trigger] siblings@[kk]).label != curr.label,
            forall|q: int|
                0 <= q < old(self).itemset_x@.len() ==> curr.label != old(self).itemset_x@[q],
            parent_actual@.finite(),
            parent_actual@.subset_of(set_int_range(0, old(self).txs@.len() as int)),
            model::cover_of(old(self).txs@, ids_of(old(self).items@, old(self).itemset_x@))
                == parent_actual@,
        ensures
            final(self).inv(),
            final(self).items == old(self).items,
            final(self).txs == old(self).txs,
            final(self).min_support == old(self).min_support,
            final(self).n_items == old(self).n_items,
            final(self).n_transactions == old(self).n_transactions,
            final(self).itemset_x@ == old(self).itemset_x@,
            final(self).closed_itemsets@.len() >= old(self).closed_itemsets@.len(),
            final(self).closed_itemsets@.subrange(0, old(self).closed_itemsets@.len() as int)
                == old(self).closed_itemsets@,
            forall|k: int|
                old(self).closed_itemsets@.len() <= k < final(self).closed_itemsets@.len()
                    ==> emission_shape(
                    old(self).items@,
                    old(self).itemset_x@,
                    curr.label,
                    siblings@,
                    (#[trigger] final(self).closed_itemsets@[k]).set(),
                ),
            forall|k1: int, k2: int|
                old(self).closed_itemsets@.len() <= k1 < k2 < final(self).closed_itemsets@.len()
                    ==> (#[trigger] final(self).closed_itemsets@[k1]).set() != (
                    #[trigger] final(self).closed_itemsets@[k2]).set(),
        decreases curr.count,
    {
        let ghost path0 = self.itemset_x@;
        let len_entry = self.itemset_x.len();
        self.itemset_x.push(curr.label);
        proof {
            self.lemma_path_push(path0, curr.label);
            assert(model::cover_of(self.txs@, ids_of(self.items@, self.itemset_x@))
                == curr.actual@);
            assert forall|kk: int, q: int|
                0 <= kk < siblings@.len() && 0 <= q < self.itemset_x@.len() implies (
            #[trigger] siblings@[kk]).label != #[trigger] self.itemset_x@[q] by {
                if q < len_entry {
                    assert(self.itemset_x@[q] == path0[q]);
                } else {
                    assert(self.itemset_x@[q] == curr.label);
                }
            }
        }

        // Scan the siblings: absorb those that keep the support, link the
        // rest as children.
        let mut children: Vec<TreeNode> = Vec::new();
        let mut k: usize = 0;
        while k < siblings.len()
            invariant
                self.inv(),
                self.items == old(self).items,
                self.txs == old(self).txs,
                self.min_support == old(self).min_support,
                self.n_items == old(self).n_items,
                self.n_transactions == old(self).n_transactions,
                self.cp_storage == old(self).cp_storage,
                self.closed_itemsets == old(self).closed_itemsets,
                old(self).node_ok(*curr, parent_actual@, root_level),
                parent_actual@.finite(),
                parent_actual@.subset_of(set_int_range(0, old(self).txs@.len() as int)),
                k <= siblings@.len(),
                forall|kk: int|
                    0 <= kk < siblings@.len() ==> self.node_ok(
                        #[trigger] siblings@[kk],
                        parent_actual@,
                        root_level,
                    ),
                forall|k1: int, k2: int|
                    0 <= k1 < k2 < siblings@.len() ==> (#[trigger] siblings@[k1]).label != (
                    #[trigger] siblings@[k2]).label,
                forall|kk: int, q: int|
                    k <= kk < siblings@.len() && 0 <= q < self.itemset_x@.len() ==> (
                    #[trigger] siblings@[kk]).label != #[trigger] self.itemset_x@[q],
                self.itemset_x@.len() >= len_entry + 1,
                len_entry == path0.len(),
                self.itemset_x@.subrange(0, len_entry + 1) == path0.push(curr.label),
                model::cover_of(self.txs@, ids_of(self.items@, self.itemset_x@)) == curr.actual@,
                forall|c: int|
                    0 <= c < children@.len() ==> self.node_ok(
                        #[trigger] children@[c],
                        curr.actual@,
                        false,
                    ) && children@[c].count < curr.count,
                forall|c1: int, c2: int|
                    0 <= c1 < c2 < children@.len() ==> (#[trigger] children@[c1]).label != (
                    #[trigger] children@[c2]).label,
                forall|c: int, q: int|
                    0 <= c < children@.len() && 0 <= q < self.itemset_x@.len() ==> (
                    #[trigger] children@[c]).label != #[trigger] self.itemset_x@[q],
                forall|c: int, kk: int|
                    0 <= c < children@.len() && k <= kk < siblings@.len() ==> (
                    #[trigger] children@[c]).label != (#[trigger] siblings@[kk]).label,
                forall|q: int|
                    len_entry + 1 <= q < self.itemset_x@.len() ==> from_sibling(
                        siblings@,
                        #[trigger] self.itemset_x@[q],
                    ),
                forall|c: int|
                    0 <= c < children@.len() ==> from_sibling(
                        siblings@,
                        (#[trigger] children@[c]).label,
                    ),
            decreases siblings@.len() - k,
        {
            let s = &siblings[k];
            let ghost child_actual = curr.actual@.intersect(s.actual@);
            proof {
                assert(child_actual.subset_of(curr.actual@));
                vstd::set_lib::lemma_set_subset_finite(curr.actual@, child_actual);
                lemma_len_subset(child_actual, curr.actual@);
            }
            let diff: RoaringBitmap;
            if root_level && !rb_is_empty(&s.tid_set) {
                diff = rb_sub(&curr.tid_set, &s.tid_set);
                proof {
                    assert(rb_set(diff) =~= curr.actual@.difference(child_actual));
                }
            } else if !rb_is_empty(&curr.tid_set) {
                proof {
                    if root_level {
                        assert(rb_set(s.tid_set) == s.actual@);
                        assert(s.actual@.len() >= 1);
                        assert(s.actual@ != Set::<int>::empty()) by {
                            if s.actual@ == Set::<int>::empty() {
                                assert(s.actual@.len() == 0);
                            }
                        }
                        assert(false);
                    }
                }
                diff = rb_sub(&s.tid_set, &curr.tid_set);
                proof {
                    assert(rb_set(s.tid_set) == parent_actual@.difference(s.actual@));
                    assert(rb_set(curr.tid_set) == parent_actual@.difference(curr.actual@));
                    assert(rb_set(diff) =~= curr.actual@.difference(child_actual)) by {
                        assert(curr.actual@.subset_of(parent_actual@));
                        assert(s.actual@.subset_of(parent_actual@));
                    }
                }
            } else {
                proof {
                    if root_level {
                        assert(rb_set(s.tid_set) == s.actual@);
                        assert(s.actual@.len() >= 1);
                        if s.actual@ == Set::<int>::empty() {
                            assert(s.actual@.len() == 0);
                        }
                        assert(false);
                    } else {
                        assert(rb_set(curr.tid_set) == parent_actual@.difference(curr.actual@));
                        model::lemma_card_diff_subset(parent_actual@, curr.actual@);
                        assert(parent_actual@.difference(curr.actual@).len() > 0);
                        if parent_actual@.difference(curr.actual@) == Set::<int>::empty() {
                            assert(parent_actual@.difference(curr.actual@).len() == 0);
                        }
                        assert(false);
                    }
                }
                diff = rb_new();
            }
            proof {
                model::lemma_card_diff_subset(curr.actual@, child_actual);
            }
            let dlen = rb_len(&diff);
            let dl = dlen as usize;
            let child_count = curr.count - dl;
            proof {
                assert(child_count == child_actual.len());
            }
            if child_count >= self.min_support {
                if curr.count == child_count {
                    // The sibling keeps the support: absorb it into the path.
                    proof {
                        model::lemma_subset_same_len_equal(curr.actual@, child_actual);
                    }
                    let lbl = s.label;
                    let ghost pre_path = self.itemset_x@;
                    self.itemset_x.push(lbl);
                    proof {
                        self.lemma_path_push(pre_path, lbl);
                        let item = model::item_cover(
                            self.txs@,
                            self.items@[lbl as int].index as int,
                        );
                        assert(s.actual@ == parent_actual@.intersect(item));
                        assert(curr.actual@.intersect(item) =~= child_actual) by {
                            assert(curr.actual@.subset_of(parent_actual@));
                        }
                        assert(model::cover_of(self.txs@, ids_of(self.items@, self.itemset_x@))
                            == curr.actual@);
                        assert(self.itemset_x@.subrange(0, len_entry + 1) =~= pre_path.subrange(
                            0,
                            len_entry + 1,
                        ));
                        assert forall|q: int|
                            len_entry + 1 <= q < self.itemset_x@.len() implies from_sibling(
                            siblings@,
                            #[trigger] self.itemset_x@[q],
                        ) by {
                            if q == self.itemset_x@.len() - 1 {
                                assert(self.itemset_x@[q] == siblings@[k as int].label);
                            } else {
                                assert(self.itemset_x@[q] == pre_path[q]);
                            }
                        }
                    }
                } else {
                    let child = TreeNode {
                        label: s.label,
                        tid_set: diff,
                        count: child_count,
                        actual: Ghost(child_actual),
                    };
                    children.push(child);
                    proof {
                        let item = model::item_cover(
                            self.txs@,
                            self.items@[s.label as int].index as int,
                        );
                        assert(s.actual@ == parent_actual@.intersect(item));
                        assert(curr.actual@.intersect(item) =~= child_actual) by {
                            assert(curr.actual@.subset_of(parent_actual@));
                        }
                        assert(self.node_ok(children@[children@.len() - 1], curr.actual@, false));
                        assert(children@[children@.len() - 1].label == siblings@[k as int].label);
                    }
                }
            }
            k += 1;
        }

        // Try the path as a closed candidate.
        let take = self.itemset_x.len();
        let key = BitVector::new(&self.itemset_x, take);
        let accepted = self.cp_storage.insert_if_close(key, curr.count);
        if accepted {
            let mut indices: Vec<usize> = Vec::new();
            let mut q: usize = 0;
            while q < self.itemset_x.len()
                invariant
                    self.inv(),
                    q <= self.itemset_x@.len(),
                    indices@.len() == q,
                    forall|x: int|
                        0 <= x < q ==> #[trigger] indices@[x] == self.items@[self.itemset_x@[x] as int].index,
                decreases self.itemset_x@.len() - q,
            {
                let xi = self.itemset_x[q];
                indices.push(self.items[xi].index);
                q += 1;
            }
            let e = ItemSet { indices, support: curr.count };
            proof {
                let f = |x: usize| self.items@[x as int].index as int;
                assert(e.indices@.map_values(|x: usize| x as int) =~= self.itemset_x@.map_values(
                    f,
                ));
                assert(e.set() == ids_of(self.items@, self.itemset_x@));
                assert(good_itemset(self.txs@, self.min_support as int, e));
            }
            let ghost pre_closed = self.closed_itemsets@;
            self.closed_itemsets.push(e);
            proof {
                assert(forall|x: int|
                    0 <= x < pre_closed.len() ==> self.closed_itemsets@[x] == pre_closed[x]);
                // The accepted candidate is the current path itself.
                assert(emission_shape(self.items@, path0, curr.label, siblings@, e.set())) by {
                    let pf = self.itemset_x@;
                    lemma_ids_of_member(self.items@, pf, id_of(self.items@, curr.label as int));
                    assert(pf.subrange(0, len_entry + 1)[len_entry as int] == path0.push(
                        curr.label,
                    )[len_entry as int]);
                    assert(pf[len_entry as int] == curr.label);
                    assert(e.set().contains(id_of(self.items@, curr.label as int)));
                    assert forall|id: int| ids_of(self.items@, path0).contains(id) implies e.set().contains(
                        id,
                    ) by {
                        lemma_ids_of_member(self.items@, path0, id);
                        let q = choose|q: int|
                            0 <= q < path0.len() && id == id_of(self.items@, (path0[q]) as int);
                        assert(pf.subrange(0, len_entry + 1)[q] == path0.push(curr.label)[q]);
                        assert(pf[q] == path0[q]);
                        lemma_ids_of_member(self.items@, pf, id);
                    }
                    assert forall|id: int| e.set().contains(id) implies ids_of(
                        self.items@,
                        path0,
                    ).contains(id) || id == id_of(self.items@, curr.label as int) || (exists|si: int|
                        0 <= si < siblings@.len() && id == id_of(
                            self.items@,
                            (#[trigger] siblings@[si]).label as int,
                        )) by {
                        lemma_ids_of_member(self.items@, pf, id);
                        let q = choose|q: int|
                            0 <= q < pf.len() && id == id_of(self.items@, (pf[q]) as int);
                        if q < len_entry {
                            assert(pf.subrange(0, len_entry + 1)[q] == path0.push(curr.label)[q]);
                            assert(pf[q] == path0[q]);
                            lemma_ids_of_member(self.items@, path0, id);
                        } else if q == len_entry {
                            assert(pf.subrange(0, len_entry + 1)[q] == path0.push(curr.label)[q]);
                            assert(pf[q] == curr.label);
                        } else {
                            assert(from_sibling(siblings@, pf[q]));
                            let si = choose|si: int|
                                0 <= si < siblings@.len() && pf[q] == (
                                #[trigger] siblings@[si]).label;
                            assert(id == id_of(self.items@, siblings@[si].label as int));
                        }
                    }
                }
                assert(self.closed_itemsets@[pre_closed.len() as int] == e);
                assert(emission_shape(
                    self.items@,
                    path0,
                    curr.label,
                    siblings@,
                    self.closed_itemsets@[pre_closed.len() as int].set(),
                ));
                assert(self.closed_itemsets@[pre_closed.len() as int].set() == ids_of(
                    self.items@,
                    self.itemset_x@,
                ));
            }
        }

        // Descend into the children, releasing each subtree in turn.
        let ghost path_full = self.itemset_x@;
        let ghost closed_mid = self.closed_itemsets@;
        let ghost n0 = old(self).closed_itemsets@.len() as int;
        let ghost mut done: Set<int> = Set::empty();
        proof {
            assert forall|q: int|
                len_entry + 1 <= q < path_full.len() implies from_sibling(
                siblings@,
                #[trigger] path_full[q],
            ) by {
                assert(from_sibling(siblings@, self.itemset_x@[q]));
            }
        }
        let mut children = children;
        while children.len() > 0
            invariant
                n0 == old(self).closed_itemsets@.len(),
                closed_mid.len() >= n0,
                forall|k: int| 0 <= k < n0 ==> closed_mid[k] == old(self).closed_itemsets@[k],
                old(self).items == self.items,
                old(self).itemset_x@ == path0,
                len_entry == path0.len(),
                path_full.len() >= len_entry + 1,
                path_full.subrange(0, len_entry + 1) == path0.push(curr.label),
                forall|q: int|
                    len_entry + 1 <= q < path_full.len() ==> from_sibling(
                        siblings@,
                        #[trigger] path_full[q],
                    ),
                forall|q: int| 0 <= q < path_full.len() ==> !done.contains(path_full[q] as int),
                forall|l: int| done.contains(l) ==> 0 <= l < self.n_items,
                forall|c: int|
                    0 <= c < children@.len() ==> !done.contains(
                        (#[trigger] children@[c]).label as int,
                    ),
                forall|c: int|
                    0 <= c < children@.len() ==> from_sibling(
                        siblings@,
                        (#[trigger] children@[c]).label,
                    ),
                forall|k: int|
                    n0 <= k < self.closed_itemsets@.len() ==> emission_shape(
                        self.items@,
                        path0,
                        curr.label,
                        siblings@,
                        (#[trigger] self.closed_itemsets@[k]).set(),
                    ),
                forall|k: int|
                    n0 <= k < self.closed_itemsets@.len() ==> ((
                    #[trigger] self.closed_itemsets@[k]).set() == ids_of(self.items@, path_full)
                        || marked_by(self.items@, done, self.closed_itemsets@[k].set())),
                forall|k1: int, k2: int|
                    n0 <= k1 < k2 < self.closed_itemsets@.len() ==> (
                    #[trigger] self.closed_itemsets@[k1]).set() != (
                    #[trigger] self.closed_itemsets@[k2]).set(),
                self.inv(),
                self.items == old(self).items,
                self.txs == old(self).txs,
                self.min_support == old(self).min_support,
                self.n_items == old(self).n_items,
                self.n_transactions == old(self).n_transactions,
                self.itemset_x@ == path_full,
                old(self).node_ok(*curr, parent_actual@, root_level),
                model::cover_of(self.txs@, ids_of(self.items@, self.itemset_x@)) == curr.actual@,
                forall|c: int|
                    0 <= c < children@.len() ==> self.node_ok(
                        #[trigger] children@[c],
                        curr.actual@,
                        false,
                    ) && children@[c].count < curr.count,
                forall|c1: int, c2: int|
                    0 <= c1 < c2 < children@.len() ==> (#[trigger] children@[c1]).label != (
                    #[trigger] children@[c2]).label,
                forall|c: int, q: int|
                    0 <= c < children@.len() && 0 <= q < self.itemset_x@.len() ==> (
                    #[trigger] children@[c]).label != #[trigger] self.itemset_x@[q],
                curr.actual@.finite(),
                curr.actual@.subset_of(set_int_range(0, self.txs@.len() as int)),
                self.closed_itemsets@.len() >= closed_mid.len(),
                self.closed_itemsets@.subrange(0, closed_mid.len() as int) == closed_mid,
            decreases children@.len(),
        {
            let ghost pre_children = children@;
            let c = children.remove(0);
            let ghost pre_rec = self.closed_itemsets@;
            self.traverse(&c, &children, false, Ghost(curr.actual@));
            proof {
                let l1 = pre_rec.len() as int;
                assert forall|x: int| 0 <= x < l1 implies self.closed_itemsets@[x] == pre_rec[x] by {
                    assert(self.closed_itemsets@.subrange(0, l1)[x] == self.closed_itemsets@[x]);
                }
                assert(self.closed_itemsets@.subrange(0, closed_mid.len() as int) =~= closed_mid);
                let items = self.items@;
                let cl = c.label;
                // New emissions fit the frame's shape: their extra members
                // come from `c` or from later children, all sibling items.
                assert forall|k: int|
                    n0 <= k < self.closed_itemsets@.len() implies emission_shape(
                    items,
                    path0,
                    curr.label,
                    siblings@,
                    (#[trigger] self.closed_itemsets@[k]).set(),
                ) by {
                    if k < l1 {
                        assert(self.closed_itemsets@[k] == pre_rec[k]);
                    } else {
                        let sk = self.closed_itemsets@[k].set();
                        assert(emission_shape(items, path_full, cl, children@, sk));
                        assert(sk.contains(id_of(items, curr.label as int))) by {
                            lemma_ids_of_member(items, path_full, id_of(items, curr.label as int));
                            assert(path_full.subrange(0, len_entry + 1)[len_entry as int]
                                == path0.push(curr.label)[len_entry as int]);
                            assert(path_full[len_entry as int] == curr.label);
                        }
                        assert forall|id: int| ids_of(items, path0).contains(id) implies sk.contains(
                            id,
                        ) by {
                            lemma_ids_of_member(items, path0, id);
                            let q = choose|q: int|
                                0 <= q < path0.len() && id == id_of(items, (path0[q]) as int);
                            assert(path_full.subrange(0, len_entry + 1)[q] == path0.push(
                                curr.label,
                            )[q]);
                            assert(path_full[q] == path0[q]);
                            lemma_ids_of_member(items, path_full, id);
                            assert(ids_of(items, path_full).contains(id));
                        }
                        assert forall|id: int| sk.contains(id) implies ids_of(
                            items,
                            path0,
                        ).contains(id) || id == id_of(items, curr.label as int) || (exists|si: int|
                            0 <= si < siblings@.len() && id == id_of(
                                items,
                                (#[trigger] siblings@[si]).label as int,
                            )) by {
                            if ids_of(items, path_full).contains(id) {
                                lemma_ids_of_member(items, path_full, id);
                                let q = choose|q: int|
                                    0 <= q < path_full.len() && id == id_of(
                                        items,
                                        (path_full[q]) as int,
                                    );
                                if q < len_entry {
                                    assert(path_full.subrange(0, len_entry + 1)[q] == path0.push(
                                        curr.label,
                                    )[q]);
                                    assert(path_full[q] == path0[q]);
                                    lemma_ids_of_member(items, path0, id);
                                } else if q == len_entry {
                                    assert(path_full.subrange(0, len_entry + 1)[q] == path0.push(
                                        curr.label,
                                    )[q]);
                                    assert(path_full[q] == curr.label);
                                } else {
                                    assert(from_sibling(siblings@, path_full[q]));
                                    let si = choose|si: int|
                                        0 <= si < siblings@.len() && path_full[q] == (
                                        #[trigger] siblings@[si]).label;
                                    assert(id == id_of(items, siblings@[si].label as int));
                                }
                            } else if id == id_of(items, cl as int) {
                                assert(pre_children[0].label == cl);
                                assert(from_sibling(siblings@, cl));
                                let si = choose|si: int|
                                    0 <= si < siblings@.len() && cl == (
                                    #[trigger] siblings@[si]).label;
                                assert(id == id_of(items, siblings@[si].label as int));
                            } else {
                                let ci = choose|ci: int|
                                    0 <= ci < children@.len() && id == id_of(
                                        items,
                                        (children@[ci]).label as int,
                                    );
                                assert(children@[ci] == pre_children[ci + 1]);
                                assert(from_sibling(siblings@, children@[ci].label));
                                let si = choose|si: int|
                                    0 <= si < siblings@.len() && children@[ci].label == (
                                    #[trigger] siblings@[si]).label;
                                assert(id == id_of(items, siblings@[si].label as int));
                            }
                        }
                    }
                }
                // No emission of this subtree repeats an earlier one: the
                // earlier ones either are the bare path or hold a consumed
                // child's item, which this subtree never mentions.
                assert forall|k1: int, k2: int|
                    n0 <= k1 < k2 < self.closed_itemsets@.len() implies (
                #[trigger] self.closed_itemsets@[k1]).set() != (
                #[trigger] self.closed_itemsets@[k2]).set() by {
                    if k2 < l1 {
                        assert(self.closed_itemsets@[k1] == pre_rec[k1]);
                        assert(self.closed_itemsets@[k2] == pre_rec[k2]);
                    } else if k1 >= l1 {
                    } else {
                        let s1 = self.closed_itemsets@[k1].set();
                        let s2 = self.closed_itemsets@[k2].set();
                        assert(self.closed_itemsets@[k1] == pre_rec[k1]);
                        assert(emission_shape(items, path_full, cl, children@, s2));
                        assert(s2.contains(id_of(items, cl as int)));
                        if s1 == ids_of(items, path_full) {
                            assert(!s1.contains(id_of(items, cl as int))) by {
                                lemma_ids_of_member(items, path_full, id_of(items, cl as int));
                                if exists|q: int|
                                    0 <= q < path_full.len() && id_of(items, cl as int) == id_of(
                                        items,
                                        (#[trigger] path_full[q]) as int,
                                    ) {
                                    let q = choose|q: int|
                                        0 <= q < path_full.len() && id_of(items, cl as int)
                                            == id_of(items, (path_full[q]) as int);
                                    assert(pre_children[0].label == cl);
                                    assert(path_full[q] != cl);
                                    self.lemma_id_injective(path_full[q] as int, cl as int);
                                }
                            }
                            assert(s1 != s2);
                        } else {
                            assert(marked_by(items, done, s1));
                            let l = choose|l: int|
                                done.contains(l) && s1.contains(#[trigger] id_of(items, l));
                            assert(s1.contains(id_of(items, l)));
                            assert(!s2.contains(id_of(items, l))) by {
                                if s2.contains(id_of(items, l)) {
                                    if ids_of(items, path_full).contains(id_of(items, l)) {
                                        lemma_ids_of_member(items, path_full, id_of(items, l));
                                        let q = choose|q: int|
                                            0 <= q < path_full.len() && id_of(items, l) == id_of(
                                                items,
                                                (path_full[q]) as int,
                                            );
                                        assert(!done.contains(path_full[q] as int));
                                        assert(path_full[q] as int != l);
                                        self.lemma_id_injective(path_full[q] as int, l);
                                    } else if id_of(items, l) == id_of(items, cl as int) {
                                        assert(pre_children[0].label == cl);
                                        assert(!done.contains(cl as int));
                                        assert(l != cl as int);
                                        self.lemma_id_injective(cl as int, l);
                                    } else {
                                        let ci = choose|ci: int|
                                            0 <= ci < children@.len() && id_of(items, l) == id_of(
                                                items,
                                                ((#[trigger] children@[ci]).label) as int,
                                            );
                                        assert(children@[ci] == pre_children[ci + 1]);
                                        assert(!done.contains(children@[ci].label as int));
                                        assert(children@[ci].label as int != l);
                                        self.lemma_id_injective(children@[ci].label as int, l);
                                    }
                                }
                            }
                            assert(s1 != s2);
                        }
                    }
                }
                let ghost old_done = done;
                done = done.insert(cl as int);
                assert forall|k: int|
                    n0 <= k < self.closed_itemsets@.len() implies ((
                #[trigger] self.closed_itemsets@[k]).set() == ids_of(items, path_full) || marked_by(
                    items,
                    done,
                    self.closed_itemsets@[k].set(),
                )) by {
                    if k < l1 {
                        assert(self.closed_itemsets@[k] == pre_rec[k]);
                        if marked_by(items, old_done, self.closed_itemsets@[k].set()) {
                            let l = choose|l: int|
                                old_done.contains(l) && self.closed_itemsets@[k].set().contains(
                                    #[trigger] id_of(items, l),
                                );
                            assert(done.contains(l) && self.closed_itemsets@[k].set().contains(
                                id_of(items, l),
                            ));
                            assert(marked_by(items, done, self.closed_itemsets@[k].set()));
                        }
                    } else {
                        assert(self.closed_itemsets@[k].set().contains(id_of(items, cl as int)));
                        assert(done.contains(cl as int));
                        assert(marked_by(items, done, self.closed_itemsets@[k].set()));
                    }
                }
            }
        }

        // Restore the path to what the caller had.
        self.itemset_x.truncate(len_entry);
        proof {
            assert(self.itemset_x@ =~= path0) by {
                assert(path_full.subrange(0, len_entry + 1) == path0.push(curr.label));
                assert(forall|q: int|
                    0 <= q < len_entry ==> path_full.subrange(0, len_entry + 1)[q] == path_full[q]);
            }
            let l0 = old(self).closed_itemsets@.len() as int;
            assert forall|x: int|
                0 <= x < closed_mid.len() implies self.closed_itemsets@[x] == closed_mid[x] by {
                assert(self.closed_itemsets@.subrange(0, closed_mid.len() as int)[x]
                    == self.closed_itemsets@[x]);
            }
            assert(self.closed_itemsets@.subrange(0, l0) =~= old(self).closed_itemsets@);
        }
    }

    /// Run the algorithm: mine every closed itemset of the dataset whose
    /// support reaches `min_count`.
    ///
    /// Every returned pair reports the exact number of transactions
    /// containing its itemset; each meets the threshold except possibly the
    /// bottom closure, which is always present with support equal to the
    /// transaction count.
    pub fn process(self, transactions: &Vec<Vec<u32>>, min_count: usize) -> (result: Vec<
        ItemSet,
    >)
        requires
            transactions@.len() <= u32::MAX,
        ensures
            forall|k: int|
                0 <= k < result@.len() ==> (#[trigger] result@[k]).support as int
                    == model::support_of(model::tx_views(transactions@), result@[k].set()),
            forall|k: int|
                0 <= k < result@.len() ==> (#[trigger] result@[k]).support >= min_count || (
                result@[k]).support == transactions@.len(),
            exists|k: int|
                0 <= k < result@.len() && (#[trigger] result@[k]).support == transactions@.len(),
            forall|k1: int, k2: int|
                0 <= k1 < k2 < result@.len() ==> (#[trigger] result@[k1]).set() != (
                #[trigger] result@[k2]).set(),
            forall|k: int|
                0 <= k < result@.len() && (#[trigger] result@[k]).support >= 1 ==> closed_pair(
                    model::tx_views(transactions@),
                    result@[k],
                ),
            forall|k: int|
                0 <= k < result@.len() && (#[trigger] result@[k]).support == transactions@.len()
                    ==> result@[k].set() == model::bottom_closure(model::tx_views(transactions@)),
    {
        let ghost txsv = model::tx_views(transactions@);
        let mut this = self;
        // Read dataset.
        this.get_data(transactions, min_count);
        this.itemset_x = Vec::new();
        this.cp_storage = CPStorage::new();
        this.closed_itemsets = Vec::new();

        // Build per-item tidsets, then the root's children.
        this.build_tree(transactions);
        let roots = this.init_tree();
        let ghost full = set_int_range(0, this.n_transactions as int);
        proof {
            lemma_int_range(0, this.n_transactions as int);
            model::lemma_cover_empty(txsv);
            assert(this.itemset_x@.map_values(|x: usize| this.items@[x as int].index as int)
                =~= Seq::<int>::empty());
            assert(ids_of(this.items@, this.itemset_x@) =~= Set::<int>::empty());
            assert(model::cover_of(txsv, ids_of(this.items@, this.itemset_x@)) == full);
        }

        // Find closed itemsets.
        let ghost mut done_root: Set<int> = Set::empty();
        let mut roots = roots;
        while roots.len() > 0
            invariant
                this.inv(),
                this.itemset_x@.len() == 0,
                this.txs@ == txsv,
                this.min_support == min_count,
                this.n_transactions == transactions@.len(),
                full == set_int_range(0, this.n_transactions as int),
                this.siblings_ok(roots@, full, true),
                model::cover_of(txsv, ids_of(this.items@, this.itemset_x@)) == full,
                forall|l: int| done_root.contains(l) ==> 0 <= l < this.n_items,
                forall|c: int|
                    0 <= c < roots@.len() ==> !done_root.contains(
                        (#[trigger] roots@[c]).label as int,
                    ),
                forall|k: int|
                    0 <= k < this.closed_itemsets@.len() ==> marked_by(
                        this.items@,
                        done_root,
                        (#[trigger] this.closed_itemsets@[k]).set(),
                    ),
                forall|k1: int, k2: int|
                    0 <= k1 < k2 < this.closed_itemsets@.len() ==> (
                    #[trigger] this.closed_itemsets@[k1]).set() != (
                    #[trigger] this.closed_itemsets@[k2]).set(),
            decreases roots@.len(),
        {
            let ghost pre_roots = roots@;
            let ghost pre_rec = this.closed_itemsets@;
            let c = roots.remove(0);
            proof {
                assert(c == pre_roots[0]);
                assert(forall|k: int| 0 <= k < roots@.len() ==> roots@[k] == pre_roots[k + 1]);
                lemma_int_range(0, this.n_transactions as int);
            }
            this.traverse(&c, &roots, true, Ghost(full));
            proof {
                assert(ids_of(this.items@, this.itemset_x@) =~= Set::<int>::empty());
                assert(model::cover_of(txsv, ids_of(this.items@, this.itemset_x@)) == full);
                assert(this.itemset_x@ =~= Seq::<usize>::empty());
                let items = this.items@;
                let cl = c.label;
                let l1 = pre_rec.len() as int;
                assert forall|x: int| 0 <= x < l1 implies this.closed_itemsets@[x] == pre_rec[x] by {
                    assert(this.closed_itemsets@.subrange(0, l1)[x] == this.closed_itemsets@[x]);
                }
                // A new emission never repeats an old one: the old holds a
                // consumed root's item, which the new subtree cannot name.
                assert forall|k1: int, k2: int|
                    0 <= k1 < k2 < this.closed_itemsets@.len() implies (
                #[trigger] this.closed_itemsets@[k1]).set() != (
                #[trigger] this.closed_itemsets@[k2]).set() by {
                    if k2 < l1 {
                        assert(this.closed_itemsets@[k1] == pre_rec[k1]);
                        assert(this.closed_itemsets@[k2] == pre_rec[k2]);
                    } else if k1 >= l1 {
                    } else {
                        let s1 = this.closed_itemsets@[k1].set();
                        let s2 = this.closed_itemsets@[k2].set();
                        assert(this.closed_itemsets@[k1] == pre_rec[k1]);
                        assert(emission_shape(items, Seq::empty(), cl, roots@, s2));
                        assert(marked_by(items, done_root, s1));
                        let l = choose|l: int|
                            done_root.contains(l) && s1.contains(#[trigger] id_of(items, l));
                        assert(!s2.contains(id_of(items, l))) by {
                            if s2.contains(id_of(items, l)) {
                                if ids_of(items, Seq::empty()).contains(id_of(items, l)) {
                                    lemma_ids_of_member(items, Seq::empty(), id_of(items, l));
                                } else if id_of(items, l) == id_of(items, cl as int) {
                                    assert(pre_roots[0].label == cl);
                                    assert(!done_root.contains(cl as int));
                                    assert(l != cl as int);
                                    this.lemma_id_injective(cl as int, l);
                                } else {
                                    let ci = choose|ci: int|
                                        0 <= ci < roots@.len() && id_of(items, l) == id_of(
                                            items,
                                            ((#[trigger] roots@[ci]).label) as int,
                                        );
                                    assert(roots@[ci] == pre_roots[ci + 1]);
                                    assert(!done_root.contains(roots@[ci].label as int));
                                    assert(roots@[ci].label as int != l);
                                    this.lemma_id_injective(roots@[ci].label as int, l);
                                }
                            }
                        }
                        assert(s1 != s2);
                    }
                }
                let ghost old_done_root = done_root;
                done_root = done_root.insert(cl as int);
                assert forall|k: int|
                    0 <= k < this.closed_itemsets@.len() implies marked_by(
                    items,
                    done_root,
                    (#[trigger] this.closed_itemsets@[k]).set(),
                ) by {
                    if k < l1 {
                        assert(this.closed_itemsets@[k] == pre_rec[k]);
                        assert(marked_by(items, old_done_root, this.closed_itemsets@[k].set()));
                        let l = choose|l: int|
                            old_done_root.contains(l) && this.closed_itemsets@[k].set().contains(
                                #[trigger] id_of(items, l),
                            );
                        assert(done_root.contains(l) && this.closed_itemsets@[k].set().contains(
                            id_of(items, l),
                        ));
                        assert(marked_by(items, done_root, this.closed_itemsets@[k].set()));
                    } else {
                        assert(emission_shape(
                            items,
                            Seq::empty(),
                            cl,
                            roots@,
                            this.closed_itemsets@[k].set(),
                        ));
                        assert(this.closed_itemsets@[k].set().contains(id_of(items, cl as int)));
                        assert(done_root.contains(cl as int));
                        assert(marked_by(items, done_root, this.closed_itemsets@[k].set()));
                    }
                }
            }
        }

        // Keep only candidates that pass the closure test, then make sure
        // the bottom closure is present.
        let ghost mined = this.closed_itemsets@;
        proof {
            assert(forall|k1: int, k2: int|
                0 <= k1 < k2 < mined.len() ==> (#[trigger] mined[k1]).set() != (
                #[trigger] mined[k2]).set());
            assert(forall|k: int|
                0 <= k < mined.len() ==> good_itemset(
                    txsv,
                    min_count as int,
                    #[trigger] mined[k],
                ));
        }
        let mut kept: Vec<ItemSet> = Vec::new();
        let ghost mut src: Seq<int> = Seq::empty();
        let mut k: usize = 0;
        while k < this.closed_itemsets.len()
            invariant
                this.closed_itemsets@ == mined,
                this.txs@ == txsv,
                this.min_support == min_count,
                this.n_transactions == transactions@.len(),
                txsv == model::tx_views(transactions@),
                k <= mined.len(),
                forall|x: int|
                    0 <= x < mined.len() ==> good_itemset(
                        txsv,
                        min_count as int,
                        #[trigger] mined[x],
                    ),
                forall|x1: int, x2: int|
                    0 <= x1 < x2 < mined.len() ==> (#[trigger] mined[x1]).set() != (
                    #[trigger] mined[x2]).set(),
                src.len() == kept@.len(),
                forall|x: int| 0 <= x < src.len() ==> 0 <= #[trigger] src[x] < k,
                forall|x1: int, x2: int|
                    0 <= x1 < x2 < src.len() ==> #[trigger] src[x1] < #[trigger] src[x2],
                forall|x: int|
                    0 <= x < kept@.len() ==> (#[trigger] kept@[x]).set() == mined[src[x]].set()
                        && kept@[x].support == mined[src[x]].support,
                forall|x: int|
                    0 <= x < kept@.len() && (#[trigger] kept@[x]).support >= 1 ==> closed_pair(
                        txsv,
                        kept@[x],
                    ),
            decreases mined.len() - k,
        {
            // An independent copy of the candidate under test.
            let mut indices: Vec<usize> = Vec::new();
            let mut j: usize = 0;
            while j < this.closed_itemsets[k].indices.len()
                invariant
                    this.closed_itemsets@ == mined,
                    k < mined.len(),
                    j <= mined[k as int].indices@.len(),
                    indices@ == mined[k as int].indices@.subrange(0, j as int),
                decreases mined[k as int].indices@.len() - j,
            {
                indices.push(this.closed_itemsets[k].indices[j]);
                j += 1;
                proof {
                    assert(indices@ =~= mined[k as int].indices@.subrange(0, j as int));
                }
            }
            let e = ItemSet { indices, support: this.closed_itemsets[k].support };
            proof {
                assert(e.indices@ =~= mined[k as int].indices@);
                assert(e.set() == mined[k as int].set());
            }
            let ok = if e.support >= 1 {
                proof {
                    assert(e.support as int == model::support_of(txsv, e.set()));
                    model::lemma_cover_finite(txsv, e.set());
                    assert(model::cover_of(txsv, e.set()) != Set::<int>::empty()) by {
                        if model::cover_of(txsv, e.set()) == Set::<int>::empty() {
                            assert(model::cover_of(txsv, e.set()).len() == 0);
                        }
                    }
                }
                is_closed_check(transactions, &e.indices)
            } else {
                true
            };
            if ok {
                let ghost pre_kept = kept@;
                let ghost pre_src = src;
                proof {
                    src = src.push(k as int);
                }
                kept.push(e);
                proof {
                    assert(forall|x: int| 0 <= x < pre_kept.len() ==> kept@[x] == pre_kept[x]);
                    assert(forall|x: int| 0 <= x < pre_src.len() ==> src[x] == pre_src[x]);
                    assert(src[src.len() - 1] == k as int);
                    assert(kept@[kept@.len() - 1] == e);
                    assert(e.set() == e.indices@.map_values(|x2: usize| x2 as int).to_set());
                }
            }
            k += 1;
        }
        proof {
            // The filter kept a subsequence: distinctness and exact supports
            // carry over, and every survivor of positive support is closed.
            assert forall|x1: int, x2: int|
                0 <= x1 < x2 < kept@.len() implies (#[trigger] kept@[x1]).set() != (
            #[trigger] kept@[x2]).set() by {
                assert(src[x1] < src[x2]);
                assert(mined[src[x1]].set() != mined[src[x2]].set());
            }
            assert forall|x: int| 0 <= x < kept@.len() implies good_itemset(
                txsv,
                min_count as int,
                #[trigger] kept@[x],
            ) by {
                assert(good_itemset(txsv, min_count as int, mined[src[x]]));
            }
        }
        let ghost filtered = kept@;

        let n = this.n_transactions;
        let mut has_bottom = false;
        let mut k2: usize = 0;
        while k2 < kept.len()
            invariant
                kept@ == filtered,
                k2 <= kept@.len(),
                has_bottom == exists|x: int|
                    0 <= x < k2 && (#[trigger] kept@[x]).support == n,
            decreases kept@.len() - k2,
        {
            if kept[k2].support == n {
                has_bottom = true;
            }
            k2 += 1;
        }
        if !has_bottom {
            let uni = bottom_items(transactions);
            let e = ItemSet { indices: uni, support: n };
            proof {
                assert(n == txsv.len());
                assert(e.set() == model::bottom_closure(txsv));
                // The bottom closure covers every transaction.
                assert forall|t: int| set_int_range(0, n as int).contains(t) implies model::cover_of(
                    txsv,
                    e.set(),
                ).contains(t) by {
                    assert forall|id: int| e.set().contains(id) implies model::tx_contains(
                        txsv[t],
                        id,
                    ) by {
                        assert(model::bottom_closure(txsv).contains(id));
                    }
                }
                model::lemma_cover_finite(txsv, e.set());
                lemma_int_range(0, n as int);
                assert(model::cover_of(txsv, e.set()) =~= set_int_range(0, n as int));
                assert(e.support as int == model::support_of(txsv, e.set()));
                // And nothing outside it covers them all.
                if n >= 1 {
                    assert(closed_pair(txsv, e)) by {
                        assert forall|id: int|
                            model::cover_of(txsv, e.set()).subset_of(
                                #[trigger] model::item_cover(txsv, id),
                            ) implies e.set().contains(id) by {
                            assert forall|t: int| 0 <= t < txsv.len() implies model::tx_contains(
                                #[trigger] txsv[t],
                                id,
                            ) by {
                                assert(model::cover_of(txsv, e.set()).contains(t));
                                assert(model::item_cover(txsv, id).contains(t));
                            }
                            assert(model::cover_of(txsv, e.set()).contains(0));
                            assert(model::item_cover(txsv, id).contains(0));
                            assert(model::tx_contains(txsv[0], id));
                            let kk = choose|kk: int|
                                0 <= kk < txsv[0].len() && txsv[0][kk] == id;
                            assert(id >= 0);
                            assert(model::bottom_closure(txsv).contains(id));
                        }
                    }
                }
            }
            kept.push(e);
            proof {
                assert(forall|x: int| 0 <= x < filtered.len() ==> kept@[x] == filtered[x]);
                assert(kept@[kept@.len() - 1] == e);
                assert(kept@[kept@.len() - 1].set() == model::bottom_closure(txsv));
                assert(kept@[kept@.len() - 1].support == n);
                assert((kept@[kept@.len() - 1].support) as int == model::support_of(
                    txsv,
                    kept@[kept@.len() - 1].set(),
                ));
                assert(n >= 1 ==> closed_pair(txsv, kept@[kept@.len() - 1]));
                // The added bottom pair repeats no kept itemset: an equal
                // itemset would have carried the maximal support already.
                assert forall|x1: int, x2: int|
                    0 <= x1 < x2 < kept@.len() implies (#[trigger] kept@[x1]).set() != (
                #[trigger] kept@[x2]).set() by {
                    if x2 < filtered.len() {
                        assert(kept@[x1] == filtered[x1]);
                        assert(kept@[x2] == filtered[x2]);
                    } else {
                        assert(kept@[x1] == filtered[x1]);
                        assert(kept@[x2] == e);
                        if filtered[x1].set() == e.set() {
                            assert(filtered[x1].support as int == model::support_of(
                                txsv,
                                filtered[x1].set(),
                            ));
                            assert(filtered[x1].support == n);
                            assert(false);
                        }
                    }
                }
            }
        }
        proof {
            assert(exists|x: int|
                0 <= x < kept@.len() && (#[trigger] kept@[x]).support == n);
            // A pair of maximal support names exactly the universal items.
            assert forall|x: int|
                0 <= x < kept@.len() && (#[trigger] kept@[x]).support == n implies kept@[x].set()
                == model::bottom_closure(txsv) by {
                if n >= 1 {
                    if x < filtered.len() {
                        assert(kept@[x] == filtered[x]);
                    }
                    assert(closed_pair(txsv, kept@[x]));
                    assert(kept@[x].support as int == model::support_of(txsv, kept@[x].set()));
                    model::lemma_maximal_support_is_universal(txsv, kept@[x].set());
                    assert forall|u: int|
                        model::bottom_closure(txsv).contains(u) implies kept@[x].set().contains(
                        u,
                    ) by {
                        model::lemma_cover_finite(txsv, kept@[x].set());
                        lemma_int_range(0, txsv.len() as int);
                        crate::model::lemma_subset_same_len_equal(
                            set_int_range(0, txsv.len() as int),
                            model::cover_of(txsv, kept@[x].set()),
                        );
                        assert forall|t: int|
                            model::cover_of(txsv, kept@[x].set()).contains(t) implies #[trigger] model::item_cover(
                            txsv,
                            u,
                        ).contains(t) by {
                            assert(set_int_range(0, txsv.len() as int).contains(t));
                            assert(model::tx_contains(txsv[t], u));
                        }
                        assert(model::cover_of(txsv, kept@[x].set()).subset_of(
                            model::item_cover(txsv, u),
                        ));
                    }
                    assert(kept@[x].set() =~= model::bottom_closure(txsv));
                } else {
                    // An empty dataset mines nothing: only the added bottom
                    // pair is present, and it is empty.
                    assert(txsv.len() == 0);
                    assert(this.items@.len() == 0) by {
                        if this.items@.len() > 0 {
                            assert(this.items@[0].num == model::item_cover(
                                txsv,
                                this.items@[0].index as int,
                            ).len());
                            assert(this.items@[0].num >= 1);
                            model::lemma_item_cover_finite(txsv, this.items@[0].index as int);
                            assert(model::item_cover(txsv, this.items@[0].index as int)
                                != Set::<int>::empty()) by {
                                if model::item_cover(txsv, this.items@[0].index as int)
                                    == Set::<int>::empty() {
                                    assert(model::item_cover(
                                        txsv,
                                        this.items@[0].index as int,
                                    ).len() == 0);
                                }
                            }
                            let t = choose|t: int|
                                model::item_cover(txsv, this.items@[0].index as int).contains(t);
                            assert(0 <= t < txsv.len());
                        }
                    }
                    assert(forall|l: int| !done_root.contains(l));
                    assert(mined.len() == 0) by {
                        if mined.len() > 0 {
                            assert(marked_by(this.items@, done_root, mined[0].set()));
                            let l = choose|l: int|
                                done_root.contains(l) && mined[0].set().contains(
                                    #[trigger] id_of(this.items@, l),
                                );
                        }
                    }
                    assert(filtered.len() == 0) by {
                        if filtered.len() > 0 {
                            assert(0 <= src[0] < mined.len());
                        }
                    }
                    assert(!has_bottom);
                    assert(x == kept@.len() - 1);
                    assert(kept@[x].set() == model::bottom_closure(txsv));
                }
            }
        }
        kept
    }
}

impl Default for NEclatClosed {
    /// A fresh state; `process` rebuilds everything from its input.
    fn default() -> (r: NEclatClosed)
        ensures
            r.pending() == 0,
    {
        NEclatClosed {
            n_items: 0,
            min_support: 0,
            items: Vec::new(),
            n_transactions: 0,
            itemset_x: Vec::new(),
            item_tids: Vec::new(),
            cp_storage: CPStorage::new(),
            closed_itemsets: Vec::new(),
            txs: Ghost(Seq::empty()),
        }
    }
}

} // verus!
