//! Sequential implementation of the DCI-Closed algorithm.

use vstd::prelude::*;
use vstd::set_lib::set_int_range;
use vstd::set_lib::lemma_int_range;
use vstd::set_lib::lemma_len_subset;
use super::itemset::ItemSet;
use super::matrix::Matrix;
use super::closed::{InitialSets, is_dup, mat_universal, lemma_universal_cover};
use super::Support;

verus! {

/// What holds of every pair the recursion emits: the reported count is the
/// itemset's true support, it meets the threshold, and it stays strictly
/// below the full transaction count (only the bottom closure reaches that).
pub open spec fn emitted_ok(m: Matrix, min_sup: int, pair: (ItemSet, Support)) -> bool {
    &&& pair.0.wf()
    &&& pair.0.below(m.rows().len() as int)
    &&& pair.1 as int == m.support_spec(pair.0.set())
    &&& pair.1 >= min_sup
    &&& (pair.1 as int) < m.width()
}

/// The emitted itemset is closed: no further item covers its whole cover.
pub open spec fn closed_ok(m: Matrix, pair: (ItemSet, Support)) -> bool {
    forall|j: int|
        0 <= j < m.rows().len() && !pair.0.set().contains(j) ==> !(#[trigger] m.cover_spec(
            pair.0.set(),
        ).subset_of(m.rows()[j]))
}

/// The duplicate-check invariant of a recursion frame: any frequent item
/// outside the frame's three sets can only support a large enough subcover
/// if some pre-set item supports it too — so the duplicate check catches
/// every closure such an item could complete.
pub open spec fn dci_inv(
    m: Matrix,
    min_sup: int,
    closed: Set<int>,
    pre: Set<int>,
    post: Set<int>,
) -> bool {
    forall|j: int, x: Set<int>|
        0 <= j < m.rows().len() && m.rows()[j].len() >= min_sup && !closed.contains(j)
            && !pre.contains(j) && !post.contains(j) && x.subset_of(m.cover_spec(closed))
            && x.len() >= min_sup && #[trigger] x.subset_of(m.rows()[j]) ==> exists|k: int|
            pre.contains(k) && x.subset_of(#[trigger] m.rows()[k])
}

/// What the loop has established about an already-visited post-set item:
/// its extension is infrequent, or a pre-set item supports it, or it has
/// itself joined the pre-set.
pub open spec fn dci_processed(
    m: Matrix,
    min_sup: int,
    closed: Set<int>,
    pre: Set<int>,
    j: int,
) -> bool {
    ||| m.support_spec(closed.insert(j)) < min_sup
    ||| (exists|k: int|
        pre.contains(k) && m.cover_spec(closed.insert(j)).subset_of(#[trigger] m.rows()[k]))
    ||| pre.contains(j)
}

/// A set of items is closed in the matrix: no further item covers its
/// whole cover.
pub open spec fn set_closed(m: Matrix, c: Set<int>) -> bool {
    forall|j: int|
        0 <= j < m.rows().len() && !c.contains(j) ==> !(#[trigger] m.cover_spec(c).subset_of(
            m.rows()[j],
        ))
}

/// A closed frequent itemset the frame is responsible for: it extends the
/// frame's closure through post-set items, and no pre-set item excuses it
/// as a duplicate.
pub open spec fn frame_candidate(
    m: Matrix,
    min_sup: int,
    closed: Set<int>,
    pre: Set<int>,
    post: Set<int>,
    c: Set<int>,
) -> bool {
    &&& closed.subset_of(c)
    &&& c != closed
    &&& forall|x: int| c.contains(x) && !closed.contains(x) ==> post.contains(x)
    &&& set_closed(m, c)
    &&& m.support_spec(c) >= min_sup
    &&& forall|j: int| pre.contains(j) ==> !(#[trigger] m.cover_spec(c).subset_of(m.rows()[j]))
}

/// Position `q` holds the least member of `c` among the listed items.
pub open spec fn least_at(s: Seq<int>, c: Set<int>, q: int) -> bool {
    &&& 0 <= q < s.len()
    &&& c.contains(s[q])
    &&& forall|q2: int| 0 <= q2 < q ==> !c.contains(#[trigger] s[q2])
}

/// The itemset appears among the output pairs at or past `lo`.
pub open spec fn appears(out: Seq<(ItemSet, Support)>, lo: int, c: Set<int>) -> bool {
    exists|k: int| lo <= k < out.len() && (#[trigger] out[k]).0.set() == c
}

/// A sequence with a member of `c` has a least position holding one.
proof fn lemma_least_exists(s: Seq<int>, c: Set<int>, q0: int)
    requires
        0 <= q0 < s.len(),
        c.contains(s[q0]),
    ensures
        exists|q: int| #[trigger] least_at(s, c, q),
    decreases q0,
{
    if forall|q2: int| 0 <= q2 < q0 ==> !c.contains(#[trigger] s[q2]) {
        assert(least_at(s, c, q0));
    } else {
        let q2 = choose|q2: int| 0 <= q2 < q0 && c.contains(#[trigger] s[q2]);
        lemma_least_exists(s, c, q2);
    }
}

/// Every itemset a frame emits extends the frame's closure by post-set
/// items, the least of which identifies the branch it came from.
pub open spec fn branch_shape(closed: Set<int>, post: Set<int>, s: Set<int>, mi: int) -> bool {
    &&& closed.subset_of(s)
    &&& s.contains(mi)
    &&& !closed.contains(mi)
    &&& post.contains(mi)
    &&& forall|x: int| s.contains(x) && !closed.contains(x) ==> x >= mi
}

/// The emitted itemset grew out of some branch of the frame.
pub open spec fn from_branch(closed: Set<int>, post: Set<int>, s: Set<int>) -> bool {
    exists|mi: int| branch_shape(closed, post, s, mi)
}

/// Some branch witness below the bound fits the emitted itemset.
pub open spec fn has_branch_witness(closed: Set<int>, post: Set<int>, s: Set<int>, bound: int) -> bool {
    exists|mi: int| branch_shape(closed, post, s, mi) && mi <= bound
}

/// The closure property in its second form: a strict superset of a closed
/// itemset always has strictly smaller support, so no two outputs can pair
/// a set and a strict superset with one support.
pub proof fn lemma_no_equal_support_superset(m: Matrix, s1: Set<int>, s2: Set<int>, c1: Support)
    requires
        m.wf(),
        forall|j: int|
            0 <= j < m.rows().len() && !s1.contains(j) ==> !(#[trigger] m.cover_spec(
                s1,
            ).subset_of(m.rows()[j])),
        c1 as int == m.support_spec(s1),
        s1.subset_of(s2),
        s1 != s2,
        forall|id: int| s2.contains(id) ==> 0 <= id < m.rows().len(),
    ensures
        m.support_spec(s2) < c1 as int,
{
    m.lemma_cover_spec_antitone(s1, s2);
    assert(exists|j: int| s2.contains(j) && !s1.contains(j)) by {
        if forall|j: int| s2.contains(j) ==> s1.contains(j) {
            assert(s1 =~= s2);
        }
    }
    let j = choose|j: int| s2.contains(j) && !s1.contains(j);
    assert(!m.cover_spec(s1).subset_of(m.rows()[j]));
    if m.support_spec(s2) == m.support_spec(s1) {
        m.lemma_cover_spec_bounds(s1);
        crate::model::lemma_subset_same_len_equal(m.cover_spec(s1), m.cover_spec(s2));
        assert forall|t: int| m.cover_spec(s1).contains(t) implies m.rows()[j].contains(t) by {
            assert(m.cover_spec(s2).contains(t));
        }
        assert(false);
    }
}

/// Sequential DCI-Closed.
///
/// The first returned pair is always the bottom closure: the set of items
/// occurring in every transaction, with support equal to the transaction
/// count.  Every further pair holds a frequent itemset with its exact
/// support, strictly below the transaction count, so the bottom closure is
/// the only pair of maximal support.  Every returned itemset is closed, and
/// no two returned itemsets are equal.
pub fn closed(dataset: &Matrix, min_sup: usize) -> (out: Vec<(ItemSet, Support)>)
    requires
        dataset.wf(),
    ensures
        out@.len() >= 1,
        out@[0].0.wf(),
        out@[0].0.below(dataset.rows().len() as int),
        out@[0].0.set() == mat_universal(*dataset),
        out@[0].1 as int == dataset.width(),
        out@[0].1 as int == dataset.support_spec(out@[0].0.set()),
        forall|k: int| 1 <= k < out@.len() ==> emitted_ok(*dataset, min_sup as int, out@[k]),
        forall|k: int| 0 <= k < out@.len() ==> closed_ok(*dataset, #[trigger] out@[k]),
        forall|k1: int, k2: int|
            0 <= k1 < k2 < out@.len() ==> (#[trigger] out@[k1]).0.set() != (
            #[trigger] out@[k2]).0.set(),
        forall|c: Set<int>|
            #[trigger] set_closed(*dataset, c) && dataset.support_spec(c) >= min_sup && (forall|
                id: int,
            |
                c.contains(id) ==> 0 <= id < dataset.rows().len()) ==> appears(out@, 0, c),
{
    let initial = InitialSets::new(dataset, min_sup);
    let closed = initial.closed;
    let pre = initial.pre;
    let post = initial.post;

    let closed_set = closed.duplicate();
    let transactions_count = dataset.transactions_count();

    proof {
        lemma_universal_cover(*dataset);
    }
    let mut closed_itemsets: Vec<(ItemSet, Support)> = Vec::new();
    closed_itemsets.push((closed_set, transactions_count));
    let ghost base = closed_itemsets@;

    proof {
        // The universal items form a closed itemset.
        assert(closed_ok(*dataset, base[0])) by {
            assert forall|j: int|
                0 <= j < dataset.rows().len() && !base[0].0.set().contains(j) implies !(
            #[trigger] dataset.cover_spec(base[0].0.set()).subset_of(dataset.rows()[j])) by {
                if dataset.cover_spec(base[0].0.set()).subset_of(dataset.rows()[j]) {
                    dataset.lemma_row_bounds(j);
                    assert(dataset.rows()[j] =~= set_int_range(0, dataset.width()));
                    lemma_int_range(0, dataset.width());
                    assert(mat_universal(*dataset).contains(j));
                }
            }
        }
        // Nothing frequent lies outside the two initial sets.
        assert(dci_inv(
            *dataset,
            min_sup as int,
            closed.set(),
            pre.set(),
            post.set(),
        )) by {
            assert forall|j: int, x: Set<int>|
                0 <= j < dataset.rows().len() && dataset.rows()[j].len() >= min_sup
                    && !closed.set().contains(j) && !pre.set().contains(j)
                    && !post.set().contains(j) && x.subset_of(dataset.cover_spec(closed.set()))
                    && x.len() >= min_sup && #[trigger] x.subset_of(
                    dataset.rows()[j],
                ) implies exists|k: int|
                pre.set().contains(k) && x.subset_of(#[trigger] dataset.rows()[k]) by {
                dataset.lemma_row_bounds(j);
                assert(dataset.rows()[j].len() < dataset.width() || mat_universal(
                    *dataset,
                ).contains(j));
                assert(false);
            }
        }
    }
    _closed(dataset, min_sup, &closed, pre, &post, &mut closed_itemsets);

    proof {
        assert(closed_itemsets@.subrange(0, 1)[0] == closed_itemsets@[0]);
        assert(closed_itemsets@[0] == base[0]);
        // Completeness: every closed frequent itemset of the matrix is in
        // the output — as the bottom closure, or through some branch.
        assert forall|c: Set<int>|
            #[trigger] set_closed(*dataset, c) && dataset.support_spec(c) >= min_sup && (forall|
                id: int,
            |
                c.contains(id) ==> 0 <= id < dataset.rows().len()) implies appears(
            closed_itemsets@,
            0,
            c,
        ) by {
            lemma_universal_cover(*dataset);
            lemma_int_range(0, dataset.width());
            assert forall|u: int| mat_universal(*dataset).contains(u) implies c.contains(u) by {
                dataset.lemma_row_bounds(u);
                crate::model::lemma_subset_same_len_equal(
                    set_int_range(0, dataset.width()),
                    dataset.rows()[u],
                );
                dataset.lemma_cover_spec_bounds(c);
                assert(dataset.cover_spec(c).subset_of(dataset.rows()[u]));
            }
            if c == closed.set() {
                assert(closed_itemsets@[0].0.set() == c);
                assert(appears(closed_itemsets@, 0, c));
            } else {
                assert(frame_candidate(
                    *dataset,
                    min_sup as int,
                    closed.set(),
                    pre.set(),
                    post.set(),
                    c,
                )) by {
                    assert(closed.set() == mat_universal(*dataset));
                    assert forall|x: int|
                        c.contains(x) && !closed.set().contains(x) implies post.set().contains(
                        x,
                    ) by {
                        assert(0 <= x < dataset.rows().len());
                        dataset.lemma_cover_spec_within_row(c, x);
                        dataset.lemma_row_bounds(x);
                        assert(dataset.rows()[x].len() >= min_sup);
                        assert(dataset.rows()[x].len() < dataset.width()) by {
                            if dataset.rows()[x].len() == dataset.width() {
                                assert(mat_universal(*dataset).contains(x));
                            }
                        }
                        assert(super::closed::mat_frequent_proper(
                            *dataset,
                            min_sup as int,
                        ).contains(x));
                    }
                    assert(forall|j: int| !pre.set().contains(j));
                }
                assert(appears(closed_itemsets@, 1, c));
                let k = choose|k: int|
                    1 <= k < closed_itemsets@.len() && (#[trigger] closed_itemsets@[k]).0.set()
                        == c;
                assert(appears(closed_itemsets@, 0, c));
            }
        }
        assert forall|k1: int, k2: int|
            0 <= k1 < k2 < closed_itemsets@.len() implies (
        #[trigger] closed_itemsets@[k1]).0.set() != (#[trigger] closed_itemsets@[k2]).0.set() by {
            if k1 == 0 {
                assert(from_branch(closed.set(), post.set(), closed_itemsets@[k2].0.set()));
                let mi = choose|mi: int|
                    branch_shape(closed.set(), post.set(), closed_itemsets@[k2].0.set(), mi);
                assert(closed_itemsets@[k2].0.set().contains(mi));
                assert(!closed.set().contains(mi));
            }
        }
    }
    closed_itemsets
}

/// One recursion frame: extend `closed_set` by each post-set item in
/// ascending order, emit the resulting closures, and record explored items
/// in the pre-set for the duplicate check of later branches.
#[verifier::rlimit(100)]
fn _closed(
    dataset: &Matrix,
    min_sup: usize,
    closed_set: &ItemSet,
    pre_set: ItemSet,
    post_set: &ItemSet,
    out: &mut Vec<(ItemSet, Support)>,
)
    requires
        dataset.wf(),
        closed_set.wf(),
        closed_set.below(dataset.rows().len() as int),
        pre_set.wf(),
        pre_set.below(dataset.rows().len() as int),
        post_set.wf(),
        post_set.below(dataset.rows().len() as int),
        forall|i: int|
            post_set.set().contains(i) ==> (#[trigger] dataset.rows()[i]).len() < dataset.width(),
        forall|i: int| post_set.set().contains(i) ==> !closed_set.set().contains(i),
        dci_inv(*dataset, min_sup as int, closed_set.set(), pre_set.set(), post_set.set()),
    ensures
        final(out)@.len() >= old(out)@.len(),
        final(out)@.subrange(0, old(out)@.len() as int) == old(out)@,
        forall|k: int|
            old(out)@.len() <= k < final(out)@.len() ==> emitted_ok(
                *dataset,
                min_sup as int,
                final(out)@[k],
            ),
        forall|k: int|
            old(out)@.len() <= k < final(out)@.len() ==> closed_ok(*dataset, final(out)@[k]),
        forall|k: int|
            old(out)@.len() <= k < final(out)@.len() ==> from_branch(
                closed_set.set(),
                post_set.set(),
                (#[trigger] final(out)@[k]).0.set(),
            ),
        forall|k1: int, k2: int|
            old(out)@.len() <= k1 < k2 < final(out)@.len() ==> (#[trigger] final(out)@[k1]).0.set()
                != (#[trigger] final(out)@[k2]).0.set(),
        forall|c: Set<int>|
            #[trigger] frame_candidate(
                *dataset,
                min_sup as int,
                closed_set.set(),
                pre_set.set(),
                post_set.set(),
                c,
            ) ==> appears(final(out)@, old(out)@.len() as int, c),
    decreases post_set@.len(),
{
    let ghost base = out@;
    let ghost pre_entry = pre_set.set();
    let ghost post_view = post_set@;
    let n = post_set.len();
    let mut pre_set = pre_set;
    let mut p: usize = 0;
    let ghost mut prev: int = -1;
    while p < n
        invariant
            dataset.wf(),
            closed_set.wf(),
            closed_set.below(dataset.rows().len() as int),
            pre_set.wf(),
            pre_set.below(dataset.rows().len() as int),
            post_set.wf(),
            post_set.below(dataset.rows().len() as int),
            forall|i: int|
                post_set.set().contains(i) ==> (#[trigger] dataset.rows()[i]).len()
                    < dataset.width(),
            forall|i: int| post_set.set().contains(i) ==> !closed_set.set().contains(i),
            dci_inv(*dataset, min_sup as int, closed_set.set(), pre_set.set(), post_set.set()),
            forall|q: int|
                0 <= q < p ==> dci_processed(
                    *dataset,
                    min_sup as int,
                    closed_set.set(),
                    pre_set.set(),
                    #[trigger] post_set@[q],
                ),
            n == post_set@.len(),
            p <= n,
            out@.len() >= base.len(),
            out@.subrange(0, base.len() as int) == base,
            forall|k: int|
                base.len() <= k < out@.len() ==> emitted_ok(*dataset, min_sup as int, out@[k]),
            forall|k: int| base.len() <= k < out@.len() ==> closed_ok(*dataset, out@[k]),
            forall|k: int|
                base.len() <= k < out@.len() ==> has_branch_witness(
                    closed_set.set(),
                    post_set.set(),
                    (#[trigger] out@[k]).0.set(),
                    prev,
                ),
            p < n ==> prev < post_set@[p as int],
            forall|k1: int, k2: int|
                base.len() <= k1 < k2 < out@.len() ==> (#[trigger] out@[k1]).0.set() != (
                #[trigger] out@[k2]).0.set(),
            post_view == post_set@,
            forall|x: int| pre_entry.contains(x) ==> pre_set.set().contains(x),
            forall|x: int|
                pre_set.set().contains(x) ==> pre_entry.contains(x) || (post_set.set().contains(x)
                    && (p < n ==> x < post_set@[p as int])),
            forall|c: Set<int>, q: int|
                frame_candidate(
                    *dataset,
                    min_sup as int,
                    closed_set.set(),
                    pre_entry,
                    post_set.set(),
                    c,
                ) && #[trigger] least_at(post_view, c, q) && q < p ==> appears(
                    out@,
                    base.len() as int,
                    c,
                ),
        decreases n - p,
    {
        let i = post_set.get(p);
        proof {
            assert(post_set@.contains(post_set@[p as int]));
            assert(post_set.set().contains(i as int));
        }
        let mut new_gen = closed_set.duplicate();
        new_gen.add(i);

        let new_gen_cover = dataset.cover(&new_gen);
        let sup = new_gen_cover.count();

        let ghost new_gen_set = new_gen.set();
        if (sup >= min_sup) && (!is_dup(dataset, &new_gen_cover, &pre_set)) {
            let mut closed_set_new = new_gen.duplicate();
            let mut post_set_new = ItemSet::empty();
            let mut q: usize = p + 1;
            while q < n
                invariant
                    dataset.wf(),
                    closed_set.wf(),
                    post_set.wf(),
                    post_set.below(dataset.rows().len() as int),
                    forall|x: int|
                        post_set.set().contains(x) ==> (#[trigger] dataset.rows()[x]).len()
                            < dataset.width(),
                    forall|x: int| post_set.set().contains(x) ==> !closed_set.set().contains(x),
                    n == post_set@.len(),
                    p < q,
                    q <= n,
                    i as int == post_set@[p as int],
                    post_set.set().contains(i as int),
                    new_gen_set == closed_set.set().insert(i as int),
                    closed_set_new.wf(),
                    closed_set_new.below(dataset.rows().len() as int),
                    post_set_new.wf(),
                    post_set_new.below(dataset.rows().len() as int),
                    new_gen_cover@ == dataset.cover_spec(new_gen_set),
                    new_gen_cover.width() == dataset.width(),
                    dataset.cover_spec(closed_set_new.set()) == dataset.cover_spec(new_gen_set),
                    post_set_new@.len() <= q - p - 1,
                    forall|x: int|
                        closed_set_new.set().contains(x) ==> closed_set.set().contains(x) || x
                            == i as int || (post_set.set().contains(x) && (i as int) < x && (q < n
                            ==> x < post_set@[q as int])),
                    forall|x: int| new_gen_set.contains(x) ==> closed_set_new.set().contains(x),
                    forall|x: int|
                        post_set_new.set().contains(x) ==> post_set.set().contains(x) && (
                        i as int) < x && (q < n ==> x < post_set@[q as int]),
                    forall|x: int|
                        post_set_new.set().contains(x) ==> !closed_set_new.set().contains(x),
                    forall|x: int|
                        post_set_new.set().contains(x) ==> !(new_gen_cover@.subset_of(
                            #[trigger] dataset.rows()[x],
                        )),
                    forall|x: int|
                        closed_set_new.set().contains(x) && !new_gen_set.contains(x)
                            ==> new_gen_cover@.subset_of(#[trigger] dataset.rows()[x]),
                    forall|x: int|
                        post_set.set().contains(x) && (i as int) < x && (q < n ==> x < post_set@[q as int])
                            ==> closed_set_new.set().contains(x) || post_set_new.set().contains(x),
                decreases n - q,
            {
                let j = post_set.get(q);
                proof {
                    assert(post_set@.contains(post_set@[q as int]));
                    assert(post_set.set().contains(j as int));
                    assert((i as int) < (j as int));
                }
                let ghost pre_closed_new = closed_set_new.set();
                let ghost pre_post_new = post_set_new.set();
                if dataset.supports(j, &new_gen_cover) {
                    closed_set_new.add(j);
                    proof {
                        dataset.lemma_cover_spec_insert_supported(pre_closed_new, j as int);
                    }
                } else {
                    post_set_new.add(j);
                }
                proof {
                    assert forall|x: int|
                        post_set.set().contains(x) && (i as int) < x && (q + 1 < n
                            ==> x < post_set@[q + 1]) implies closed_set_new.set().contains(x)
                        || post_set_new.set().contains(x) by {
                        if x != j as int {
                            assert(x < post_set@[q as int]) by {
                                let xp = choose|xp: int|
                                    0 <= xp < post_set@.len() && post_set@[xp] == x;
                                if xp > q {
                                    assert(post_set@[xp] >= post_set@[q + 1]);
                                }
                            }
                        }
                    }
                }
                q += 1;
            }

            let sup_new = dataset.support(&closed_set_new);
            proof {
                assert(new_gen_set.contains(i as int));
                dataset.lemma_cover_spec_within_row(new_gen_set, i as int);
            }
            let ghost out_before_push = out@;
            let pair = (closed_set_new.duplicate(), sup_new);
            out.push(pair);
            proof {
                assert(forall|k: int|
                    0 <= k < out_before_push.len() ==> out@[k] == out_before_push[k]);
                assert(out@.subrange(0, base.len() as int) =~= base);
                let s = out@[out_before_push.len() as int].0.set();
                assert(s == closed_set_new.set());
                assert(emitted_ok(*dataset, min_sup as int, out@[out_before_push.len() as int]));
                // The new pair extends the closure by items at least `i`.
                assert(branch_shape(closed_set.set(), post_set.set(), s, i as int)) by {
                    assert forall|x: int| closed_set.set().contains(x) implies s.contains(x) by {
                        assert(new_gen_set.contains(x));
                    }
                    assert(new_gen_set.contains(i as int));
                    assert(s.contains(i as int));
                    assert(!closed_set.set().contains(i as int));
                    assert forall|x: int|
                        s.contains(x) && !closed_set.set().contains(x) implies x >= i as int by {}
                }
                // The new pair is closed: every candidate extension fails.
                assert(closed_ok(*dataset, out@[out_before_push.len() as int])) by {
                    assert forall|j: int|
                        0 <= j < dataset.rows().len() && !s.contains(j) implies !(
                    #[trigger] dataset.cover_spec(s).subset_of(dataset.rows()[j])) by {
                        if dataset.cover_spec(s).subset_of(dataset.rows()[j]) {
                            let cov = dataset.cover_spec(s);
                            assert(cov == new_gen_cover@);
                            assert(cov.len() == sup);
                            dataset.lemma_cover_spec_bounds(s);
                            dataset.lemma_row_bounds(j);
                            if dataset.rows()[j].len() < min_sup {
                                lemma_len_subset(cov, dataset.rows()[j]);
                                assert(false);
                            } else if closed_set.set().contains(j) {
                                assert(s.contains(j));
                                assert(false);
                            } else if pre_set.set().contains(j) {
                                assert(false);
                            } else if post_set.set().contains(j) {
                                assert(cov.subset_of(dataset.cover_spec(closed_set.set()))) by {
                                    dataset.lemma_cover_spec_antitone(
                                        closed_set.set(),
                                        new_gen_set,
                                    );
                                }
                                if j == i as int {
                                    assert(s.contains(j));
                                } else if j > i as int {
                                    assert(closed_set_new.set().contains(j)
                                        || post_set_new.set().contains(j));
                                    assert(!post_set_new.set().contains(j));
                                    assert(s.contains(j));
                                } else {
                                    let qx = choose|qx: int|
                                        0 <= qx < post_set@.len() && post_set@[qx] == j;
                                    assert(qx < p as int) by {
                                        if qx >= p as int {
                                            assert(post_set@[qx] >= post_set@[p as int]);
                                        }
                                    }
                                    assert(dci_processed(
                                        *dataset,
                                        min_sup as int,
                                        closed_set.set(),
                                        pre_set.set(),
                                        post_set@[qx],
                                    ));
                                    dataset.lemma_cover_spec_insert_pointwise(
                                        closed_set.set(),
                                        j,
                                    );
                                    assert(cov.subset_of(
                                        dataset.cover_spec(closed_set.set().insert(j)),
                                    ));
                                    if dataset.support_spec(closed_set.set().insert(j))
                                        < min_sup {
                                        dataset.lemma_cover_spec_bounds(
                                            closed_set.set().insert(j),
                                        );
                                        lemma_len_subset(
                                            cov,
                                            dataset.cover_spec(closed_set.set().insert(j)),
                                        );
                                        assert(false);
                                    } else if exists|k: int|
                                        pre_set.set().contains(k) && dataset.cover_spec(
                                            closed_set.set().insert(j),
                                        ).subset_of(#[trigger] dataset.rows()[k]) {
                                        let k = choose|k: int|
                                            pre_set.set().contains(k) && dataset.cover_spec(
                                                closed_set.set().insert(j),
                                            ).subset_of(#[trigger] dataset.rows()[k]);
                                        assert(cov.subset_of(dataset.rows()[k]));
                                        assert(false);
                                    } else {
                                        assert(pre_set.set().contains(j));
                                        assert(false);
                                    }
                                }
                                assert(false);
                            } else {
                                // outside every set: the frame invariant
                                // hands the cover to some pre-set item
                                assert(cov.subset_of(dataset.cover_spec(closed_set.set()))) by {
                                    dataset.lemma_cover_spec_antitone(
                                        closed_set.set(),
                                        new_gen_set,
                                    );
                                }
                                assert(exists|k: int|
                                    pre_set.set().contains(k) && cov.subset_of(
                                        #[trigger] dataset.rows()[k],
                                    ));
                                assert(false);
                            }
                        }
                    }
                }
            }

            let pre_set_new = pre_set.duplicate();
            let ghost pre_clone_set = pre_set_new.set();

            let ghost out_before_rec = out@;
            proof {
                // The child frame inherits the duplicate-check invariant.
                assert(dci_inv(
                    *dataset,
                    min_sup as int,
                    closed_set_new.set(),
                    pre_set_new.set(),
                    post_set_new.set(),
                )) by {
                    assert forall|j: int, x: Set<int>|
                        0 <= j < dataset.rows().len() && dataset.rows()[j].len() >= min_sup
                            && !closed_set_new.set().contains(j) && !pre_set_new.set().contains(j)
                            && !post_set_new.set().contains(j) && x.subset_of(
                            dataset.cover_spec(closed_set_new.set()),
                        ) && x.len() >= min_sup && #[trigger] x.subset_of(
                            dataset.rows()[j],
                        ) implies exists|k: int|
                        pre_set_new.set().contains(k) && x.subset_of(
                            #[trigger] dataset.rows()[k],
                        ) by {
                        assert(x.subset_of(new_gen_cover@));
                        assert(x.subset_of(dataset.cover_spec(closed_set.set()))) by {
                            dataset.lemma_cover_spec_antitone(closed_set.set(), new_gen_set);
                        }
                        if !closed_set.set().contains(j) && !pre_set.set().contains(j)
                            && !post_set.set().contains(j) {
                            // outer invariant
                            assert(exists|k: int|
                                pre_set.set().contains(k) && x.subset_of(
                                    #[trigger] dataset.rows()[k],
                                ));
                        } else if post_set.set().contains(j) {
                            // an already-visited branch of this frame
                            assert(j < i as int || j == i as int || j > i as int);
                            if j > i as int {
                                assert(closed_set_new.set().contains(j)
                                    || post_set_new.set().contains(j));
                                assert(false);
                            } else if j == i as int {
                                assert(closed_set_new.set().contains(j));
                                assert(false);
                            } else {
                                let qx = choose|qx: int|
                                    0 <= qx < post_set@.len() && post_set@[qx] == j;
                                assert(qx < p as int) by {
                                    if qx >= p as int {
                                        assert(post_set@[qx] >= post_set@[p as int]);
                                    }
                                }
                                assert(dci_processed(
                                    *dataset,
                                    min_sup as int,
                                    closed_set.set(),
                                    pre_set.set(),
                                    post_set@[qx],
                                ));
                                dataset.lemma_cover_spec_insert_pointwise(closed_set.set(), j);
                                assert(x.subset_of(
                                    dataset.cover_spec(closed_set.set().insert(j)),
                                ));
                                if dataset.support_spec(closed_set.set().insert(j)) < min_sup {
                                    dataset.lemma_cover_spec_bounds(closed_set.set().insert(j));
                                    lemma_len_subset(
                                        x,
                                        dataset.cover_spec(closed_set.set().insert(j)),
                                    );
                                    assert(false);
                                } else if exists|k: int|
                                    pre_set.set().contains(k) && dataset.cover_spec(
                                        closed_set.set().insert(j),
                                    ).subset_of(#[trigger] dataset.rows()[k]) {
                                    let k = choose|k: int|
                                        pre_set.set().contains(k) && dataset.cover_spec(
                                            closed_set.set().insert(j),
                                        ).subset_of(#[trigger] dataset.rows()[k]);
                                    assert(x.subset_of(dataset.rows()[k]));
                                }
                            }
                        }
                    }
                }
            }
            _closed(dataset, min_sup, &closed_set_new, pre_set_new, &post_set_new, out);
            proof {
                let l1 = out_before_rec.len() as int;
                assert forall|k: int| 0 <= k < l1 implies out@[k] == out_before_rec[k] by {
                    assert(out@.subrange(0, l1)[k] == out@[k]);
                }
                assert(out@.subrange(0, base.len() as int) =~= base);
                assert forall|k: int|
                    base.len() <= k < out@.len() implies emitted_ok(
                    *dataset,
                    min_sup as int,
                    out@[k],
                ) && closed_ok(*dataset, out@[k]) by {
                    if k < out_before_push.len() {
                        assert(out@[k] == out_before_push[k]);
                    } else if k < l1 {
                        assert(out@[k] == out_before_rec[k]);
                        assert(k == out_before_push.len());
                    }
                }
                // Every pair gained in this branch starts its extension at i.
                assert forall|k: int|
                    out_before_push.len() <= k < out@.len() implies branch_shape(
                    closed_set.set(),
                    post_set.set(),
                    (#[trigger] out@[k]).0.set(),
                    i as int,
                ) by {
                    let s = out@[k].0.set();
                    if k < l1 {
                        assert(out@[k] == out_before_rec[k]);
                        assert(branch_shape(closed_set.set(), post_set.set(), s, i as int));
                    } else {
                        let mi2 = choose|mi2: int|
                            branch_shape(closed_set_new.set(), post_set_new.set(), s, mi2);
                        assert(closed_set.set().subset_of(s)) by {
                            assert(forall|x: int|
                                closed_set.set().contains(x)
                                    ==> closed_set_new.set().contains(x));
                        }
                        assert(s.contains(i as int));
                        assert forall|x: int|
                            s.contains(x) && !closed_set.set().contains(x) implies x
                            >= i as int by {
                            if closed_set_new.set().contains(x) {
                            } else {
                                assert(x >= mi2);
                                assert(post_set_new.set().contains(mi2));
                                assert(mi2 > i as int);
                            }
                        }
                    }
                }
                // Distinctness among everything appended so far.
                assert forall|k1: int, k2: int|
                    base.len() <= k1 < k2 < out@.len() implies (#[trigger] out@[k1]).0.set() != (
                #[trigger] out@[k2]).0.set() by {
                    let s1 = out@[k1].0.set();
                    let s2 = out@[k2].0.set();
                    if k2 < out_before_push.len() {
                        assert(out@[k1] == out_before_push[k1]);
                        assert(out@[k2] == out_before_push[k2]);
                    } else if k1 >= out_before_push.len() {
                        // both from this branch
                        if k1 == out_before_push.len() {
                            // the direct pair against a recursive pair
                            assert(out@[k1] == out_before_rec[k1]);
                            assert(s1 == closed_set_new.set());
                            let mi2 = choose|mi2: int|
                                branch_shape(closed_set_new.set(), post_set_new.set(), s2, mi2);
                            assert(s2.contains(mi2));
                            assert(!closed_set_new.set().contains(mi2));
                        }
                    } else {
                        // an earlier branch against this one
                        assert(out@[k1] == out_before_push[k1]);
                        assert(has_branch_witness(closed_set.set(), post_set.set(), s1, prev));
                        let mi1 = choose|mi1: int|
                            branch_shape(closed_set.set(), post_set.set(), s1, mi1) && mi1 <= prev;
                        assert(mi1 < post_set@[p as int]);
                        assert(branch_shape(closed_set.set(), post_set.set(), s2, i as int));
                        if s1 == s2 {
                            assert(s2.contains(mi1));
                            assert(!closed_set.set().contains(mi1));
                            assert(mi1 >= i as int);
                            assert(false);
                        }
                    }
                }
            }

            let ghost pre_before = pre_set.set();
            pre_set.add(i);
            proof {
                // The invariant survives the pre-set gaining `i`.
                assert(dci_inv(
                    *dataset,
                    min_sup as int,
                    closed_set.set(),
                    pre_set.set(),
                    post_set.set(),
                )) by {
                    assert forall|j: int, x: Set<int>|
                        0 <= j < dataset.rows().len() && dataset.rows()[j].len() >= min_sup
                            && !closed_set.set().contains(j) && !pre_set.set().contains(j)
                            && !post_set.set().contains(j) && x.subset_of(
                            dataset.cover_spec(closed_set.set()),
                        ) && x.len() >= min_sup && #[trigger] x.subset_of(
                            dataset.rows()[j],
                        ) implies exists|k: int|
                        pre_set.set().contains(k) && x.subset_of(
                            #[trigger] dataset.rows()[k],
                        ) by {
                        assert(!pre_before.contains(j));
                        let k = choose|k: int|
                            pre_before.contains(k) && x.subset_of(#[trigger] dataset.rows()[k]);
                        assert(pre_set.set().contains(k));
                    }
                }
                // Visited branches stay accounted for as the pre-set grows.
                assert forall|q: int| 0 <= q < p + 1 implies dci_processed(
                    *dataset,
                    min_sup as int,
                    closed_set.set(),
                    pre_set.set(),
                    #[trigger] post_set@[q],
                ) by {
                    if q == p as int {
                        assert(pre_set.set().contains(i as int));
                    } else {
                        assert(dci_processed(
                            *dataset,
                            min_sup as int,
                            closed_set.set(),
                            pre_before,
                            post_set@[q],
                        ));
                        if exists|k: int|
                            pre_before.contains(k) && dataset.cover_spec(
                                closed_set.set().insert(post_set@[q]),
                            ).subset_of(#[trigger] dataset.rows()[k]) {
                            let k = choose|k: int|
                                pre_before.contains(k) && dataset.cover_spec(
                                    closed_set.set().insert(post_set@[q]),
                                ).subset_of(#[trigger] dataset.rows()[k]);
                            assert(pre_set.set().contains(k));
                        }
                    }
                }
                // The branch witnesses stay bounded by the branch point.
                let prev_old = prev;
                prev = i as int;
                assert(prev_old < i as int);
                assert forall|k: int|
                    base.len() <= k < out@.len() implies has_branch_witness(
                    closed_set.set(),
                    post_set.set(),
                    (#[trigger] out@[k]).0.set(),
                    prev,
                ) by {
                    if k < out_before_push.len() {
                        assert(out@[k] == out_before_rec[k]);
                        assert(out@[k] == out_before_push[k]);
                        assert(has_branch_witness(
                            closed_set.set(),
                            post_set.set(),
                            out_before_push[k].0.set(),
                            prev_old,
                        ));
                        let mi = choose|mi: int|
                            branch_shape(
                                closed_set.set(),
                                post_set.set(),
                                out_before_push[k].0.set(),
                                mi,
                            ) && mi <= prev_old;
                        assert(branch_shape(closed_set.set(), post_set.set(), out@[k].0.set(), mi)
                            && mi <= prev);
                    } else {
                        assert(branch_shape(
                            closed_set.set(),
                            post_set.set(),
                            out@[k].0.set(),
                            i as int,
                        ) && i as int <= prev);
                    }
                }
                assert(p + 1 < n ==> prev < post_set@[p + 1]) by {
                    assert(p + 1 < n ==> post_set@[p as int] < post_set@[p + 1]);
                }
                // The pre-set still holds only entry items and visited post
                // items below the next branch point.
                assert forall|x: int|
                    pre_set.set().contains(x) implies pre_entry.contains(x) || (
                post_set.set().contains(x) && (p + 1 < n ==> x < post_set@[p + 1])) by {
                    if x == i as int {
                        assert(p + 1 < n ==> post_set@[p as int] < post_set@[p + 1]);
                    } else {
                        assert(pre_before.contains(x));
                        if !pre_entry.contains(x) {
                            assert(x < post_set@[p as int]);
                            assert(p + 1 < n ==> post_set@[p as int] < post_set@[p + 1]);
                        }
                    }
                }
                // Every candidate whose least post member is this branch's
                // item has now been emitted, here or in the child frame.
                assert forall|c: Set<int>, q: int|
                    frame_candidate(
                        *dataset,
                        min_sup as int,
                        closed_set.set(),
                        pre_entry,
                        post_set.set(),
                        c,
                    ) && #[trigger] least_at(post_view, c, q) && q < p + 1 implies appears(
                    out@,
                    base.len() as int,
                    c,
                ) by {
                    if q < p {
                        assert(appears(out_before_push, base.len() as int, c));
                        let k = choose|k: int|
                            base.len() <= k < out_before_push.len() && (
                            #[trigger] out_before_push[k]).0.set() == c;
                        assert(out@[k] == out_before_rec[k]);
                        assert(out@[k] == out_before_push[k]);
                        assert(appears(out@, base.len() as int, c));
                    } else {
                        assert(q == p as int);
                        assert(post_view[q] == i as int);
                        assert(c.contains(i as int));
                        assert(dataset.cover_spec(c).subset_of(new_gen_cover@)) by {
                            assert(new_gen_set.subset_of(c)) by {
                                assert forall|x: int| new_gen_set.contains(x) implies c.contains(
                                    x,
                                ) by {
                                    if x != i as int {
                                        assert(closed_set.set().contains(x));
                                    }
                                }
                            }
                            dataset.lemma_cover_spec_antitone(new_gen_set, c);
                        }
                        assert forall|x: int| closed_set_new.set().contains(x) implies c.contains(
                            x,
                        ) by {
                            if closed_set.set().contains(x) {
                            } else if x == i as int {
                            } else {
                                assert(!new_gen_set.contains(x));
                                assert(new_gen_cover@.subset_of(dataset.rows()[x]));
                                assert(dataset.cover_spec(c).subset_of(dataset.rows()[x]));
                                assert(post_set.set().contains(x));
                                assert(0 <= x < dataset.rows().len());
                                assert(c.contains(x));
                            }
                        }
                        if c == closed_set_new.set() {
                            assert(out@[out_before_push.len() as int]
                                == out_before_rec[out_before_push.len() as int]);
                            assert(out@[out_before_push.len() as int].0.set() == c);
                            assert(appears(out@, base.len() as int, c));
                        } else {
                            assert(frame_candidate(
                                *dataset,
                                min_sup as int,
                                closed_set_new.set(),
                                pre_clone_set,
                                post_set_new.set(),
                                c,
                            )) by {
                                assert forall|x: int|
                                    c.contains(x) && !closed_set_new.set().contains(
                                        x,
                                    ) implies post_set_new.set().contains(x) by {
                                    assert(post_set.set().contains(x));
                                    let qx = choose|qx: int|
                                        0 <= qx < post_view.len() && post_view[qx] == x;
                                    assert(qx > p as int) by {
                                        if qx < p as int {
                                            assert(!c.contains(post_view[qx]));
                                        } else if qx == p as int {
                                            assert(x == i as int);
                                        }
                                    }
                                    assert(x > i as int) by {
                                        assert(post_set@[p as int] < post_set@[qx]);
                                    }
                                    assert(closed_set_new.set().contains(x)
                                        || post_set_new.set().contains(x));
                                }
                                assert forall|j: int|
                                    pre_clone_set.contains(j) implies !(
                                #[trigger] dataset.cover_spec(c).subset_of(
                                    dataset.rows()[j],
                                )) by {
                                    if dataset.cover_spec(c).subset_of(dataset.rows()[j]) {
                                        assert(pre_before.contains(j));
                                        if pre_entry.contains(j) {
                                            assert(false);
                                        } else {
                                            assert(post_set.set().contains(j) && j < post_set@[p as int]);
                                            assert(0 <= j < dataset.rows().len());
                                            assert(c.contains(j));
                                            let qj = choose|qj: int|
                                                0 <= qj < post_view.len() && post_view[qj] == j;
                                            assert(qj < p as int) by {
                                                if qj >= p as int {
                                                    assert(post_set@[p as int] <= post_set@[qj]);
                                                }
                                            }
                                            assert(!c.contains(post_view[qj]));
                                            assert(false);
                                        }
                                    }
                                }
                            }
                            assert(pre_clone_set == pre_set_new.set());
                            assert(frame_candidate(
                                *dataset,
                                min_sup as int,
                                closed_set_new.set(),
                                pre_set_new.set(),
                                post_set_new.set(),
                                c,
                            ));
                            assert(appears(out@, out_before_rec.len() as int, c));
                            let k = choose|k: int|
                                out_before_rec.len() <= k < out@.len() && (
                                #[trigger] out@[k]).0.set() == c;
                            assert(appears(out@, base.len() as int, c));
                        }
                    }
                }
            }
        } else {
            proof {
                // A skipped branch is still accounted for: its extension is
                // infrequent, or a pre-set item supports its whole cover.
                assert(new_gen_set == closed_set.set().insert(i as int));
                assert(sup == dataset.support_spec(closed_set.set().insert(i as int)));
                assert(dci_processed(
                    *dataset,
                    min_sup as int,
                    closed_set.set(),
                    pre_set.set(),
                    i as int,
                ));
                assert forall|q: int| 0 <= q < p + 1 implies dci_processed(
                    *dataset,
                    min_sup as int,
                    closed_set.set(),
                    pre_set.set(),
                    #[trigger] post_set@[q],
                ) by {}
                assert(p + 1 < n ==> prev < post_set@[p + 1]) by {
                    assert(p + 1 < n ==> post_set@[p as int] < post_set@[p + 1]);
                }
                assert forall|x: int|
                    pre_set.set().contains(x) implies pre_entry.contains(x) || (
                post_set.set().contains(x) && (p + 1 < n ==> x < post_set@[p + 1])) by {
                    if !pre_entry.contains(x) {
                        assert(x < post_set@[p as int]);
                        assert(p + 1 < n ==> post_set@[p as int] < post_set@[p + 1]);
                    }
                }
                // No candidate starts at a skipped branch: its support would
                // fail, or a pre-set item would cover it whole.
                assert forall|c: Set<int>, q: int|
                    frame_candidate(
                        *dataset,
                        min_sup as int,
                        closed_set.set(),
                        pre_entry,
                        post_set.set(),
                        c,
                    ) && #[trigger] least_at(post_view, c, q) && q < p + 1 implies appears(
                    out@,
                    base.len() as int,
                    c,
                ) by {
                    if q == p as int {
                        assert(post_view[q] == i as int);
                        assert(c.contains(i as int));
                        assert(dataset.cover_spec(c).subset_of(new_gen_cover@)) by {
                            assert(new_gen_set.subset_of(c)) by {
                                assert forall|x: int| new_gen_set.contains(x) implies c.contains(
                                    x,
                                ) by {
                                    if x != i as int {
                                        assert(closed_set.set().contains(x));
                                    }
                                }
                            }
                            dataset.lemma_cover_spec_antitone(new_gen_set, c);
                        }
                        if sup < min_sup {
                            dataset.lemma_cover_spec_bounds(new_gen_set);
                            lemma_len_subset(dataset.cover_spec(c), new_gen_cover@);
                            assert(false);
                        } else {
                            let j = choose|j: int|
                                pre_set.set().contains(j) && new_gen_cover@.subset_of(
                                    #[trigger] dataset.rows()[j],
                                );
                            assert(dataset.cover_spec(c).subset_of(dataset.rows()[j]));
                            if pre_entry.contains(j) {
                                assert(false);
                            } else {
                                assert(post_set.set().contains(j) && j < post_set@[p as int]);
                                assert(0 <= j < dataset.rows().len());
                                assert(c.contains(j));
                                let qj = choose|qj: int|
                                    0 <= qj < post_view.len() && post_view[qj] == j;
                                assert(qj < p as int) by {
                                    if qj >= p as int {
                                        assert(post_set@[p as int] <= post_set@[qj]);
                                    }
                                }
                                assert(!c.contains(post_view[qj]));
                                assert(false);
                            }
                        }
                    }
                }
            }
        }
        p += 1;
    }
    proof {
        // Every candidate of the frame has a least post member, so the loop
        // has emitted it.
        assert forall|c: Set<int>|
            #[trigger] frame_candidate(
                *dataset,
                min_sup as int,
                closed_set.set(),
                pre_entry,
                post_set.set(),
                c,
            ) implies appears(out@, base.len() as int, c) by {
            assert(exists|x: int| c.contains(x) && !closed_set.set().contains(x)) by {
                if forall|x: int| c.contains(x) ==> closed_set.set().contains(x) {
                    assert(c =~= closed_set.set());
                }
            }
            let x = choose|x: int| c.contains(x) && !closed_set.set().contains(x);
            assert(post_set.set().contains(x));
            let qx = choose|qx: int| 0 <= qx < post_view.len() && post_view[qx] == x;
            lemma_least_exists(post_view, c, qx);
            let q = choose|q: int| #[trigger] least_at(post_view, c, q);
            assert(q < n);
            assert(appears(out@, base.len() as int, c));
        }
        assert forall|k: int|
            base.len() <= k < out@.len() implies from_branch(
            closed_set.set(),
            post_set.set(),
            (#[trigger] out@[k]).0.set(),
        ) by {
            assert(has_branch_witness(
                closed_set.set(),
                post_set.set(),
                out@[k].0.set(),
                prev,
            ));
            let mi = choose|mi: int|
                branch_shape(closed_set.set(), post_set.set(), out@[k].0.set(), mi) && mi <= prev;
            assert(branch_shape(closed_set.set(), post_set.set(), out@[k].0.set(), mi));
        }
    }
}

} // verus!