//! The parallel variant's verified core: one DCI-Closed recursion frame.
//!
//! A scheduler — a work-stealing pool with a result channel — repeatedly
//! calls `dci_frame` on a frame, forwards the emitted pairs, and spawns the
//! returned child frames.  Every mining decision (the support threshold,
//! the duplicate check, the absorb-or-defer split of the post set, the
//! pre-set snapshots) happens here, under contract; the scheduler only
//! moves data.

use vstd::prelude::*;
use vstd::set_lib::lemma_len_subset;
use super::itemset::ItemSet;
use super::matrix::Matrix;
use super::closed::is_dup;
use super::sequential::{emitted_ok, closed_ok, dci_inv, dci_processed};
use super::Support;

verus! {

/// One branch of the enumeration, ready to be visited: its closure so far,
/// the pre-set as of its creation, and its extension candidates.
pub struct Frame {
    /// Items known to be in the branch's closure.
    pub closed: ItemSet,
    /// Items whose earlier branches make extensions duplicates.
    pub pre: ItemSet,
    /// Items still eligible to extend the closure.
    pub post: ItemSet,
}

/// A frame the enumeration may recurse on: the requires of the sequential
/// recursion, bundled.
pub open spec fn frame_ok(
    m: Matrix,
    min_sup: int,
    closed: ItemSet,
    pre: ItemSet,
    post: ItemSet,
) -> bool {
    &&& closed.wf()
    &&& closed.below(m.rows().len() as int)
    &&& pre.wf()
    &&& pre.below(m.rows().len() as int)
    &&& post.wf()
    &&& post.below(m.rows().len() as int)
    &&& forall|i: int| post.set().contains(i) ==> (#[trigger] m.rows()[i]).len() < m.width()
    &&& forall|i: int| post.set().contains(i) ==> !closed.set().contains(i)
    &&& dci_inv(m, min_sup, closed.set(), pre.set(), post.set())
}

/// One DCI-Closed frame: extend `closed_set` by each post item in ascending
/// order; return the emitted pairs and the child frames, in branch order.
///
/// Every emitted pair carries its exact support, meets the threshold, stays
/// below the transaction count, and is closed; every returned child is a
/// sound frame, with strictly fewer extension candidates, so a scheduler
/// driving the frames to exhaustion terminates.
#[verifier::rlimit(100)]
pub fn dci_frame(
    dataset: &Matrix,
    min_sup: usize,
    closed_set: &ItemSet,
    pre_set: &ItemSet,
    post_set: &ItemSet,
) -> (r: (Vec<(ItemSet, Support)>, Vec<Frame>))
    requires
        dataset.wf(),
        frame_ok(*dataset, min_sup as int, *closed_set, *pre_set, *post_set),
    ensures
        forall|k: int|
            0 <= k < r.0@.len() ==> emitted_ok(*dataset, min_sup as int, #[trigger] r.0@[k])
                && closed_ok(*dataset, r.0@[k]),
        forall|k: int|
            0 <= k < r.1@.len() ==> frame_ok(
                *dataset,
                min_sup as int,
                (#[trigger] r.1@[k]).closed,
                r.1@[k].pre,
                r.1@[k].post,
            ) && r.1@[k].post@.len() < post_set@.len(),
{
    let mut emitted: Vec<(ItemSet, Support)> = Vec::new();
    let mut frames: Vec<Frame> = Vec::new();
    let mut pre_set = pre_set.duplicate();
    let n = post_set.len();
    let mut p: usize = 0;
    while p < n
        invariant
            dataset.wf(),
            closed_set.wf(),
            closed_set.below(dataset.rows().len() as int),
            pre_set.wf(),
            pre_set.below(dataset.rows().len() as int),
            post_set.wf(),
            post_set.below(dataset.rows().len() as int),
            forall|i: int|
                post_set.set().contains(i) ==> (#[trigger] dataset.rows()[i]).len()
                    < dataset.width(),
            forall|i: int| post_set.set().contains(i) ==> !closed_set.set().contains(i),
            dci_inv(*dataset, min_sup as int, closed_set.set(), pre_set.set(), post_set.set()),
            forall|q: int|
                0 <= q < p ==> dci_processed(
                    *dataset,
                    min_sup as int,
                    closed_set.set(),
                    pre_set.set(),
                    #[trigger] post_set@[q],
                ),
            n == post_set@.len(),
            p <= n,
            forall|k: int|
                0 <= k < emitted@.len() ==> emitted_ok(
                    *dataset,
                    min_sup as int,
                    #[trigger] emitted@[k],
                ) && closed_ok(*dataset, emitted@[k]),
            forall|k: int|
                0 <= k < frames@.len() ==> frame_ok(
                    *dataset,
                    min_sup as int,
                    (#[trigger] frames@[k]).closed,
                    frames@[k].pre,
                    frames@[k].post,
                ) && frames@[k].post@.len() < post_set@.len(),
        decreases n - p,
    {
        let i = post_set.get(p);
        proof {
            assert(post_set@.contains(post_set@[p as int]));
            assert(post_set.set().contains(i as int));
        }
        let mut new_gen = closed_set.duplicate();
        new_gen.add(i);

        let new_gen_cover = dataset.cover(&new_gen);
        let sup = new_gen_cover.count();

        let ghost new_gen_set = new_gen.set();
        if (sup >= min_sup) && (!is_dup(dataset, &new_gen_cover, &pre_set)) {
            let mut closed_set_new = new_gen.duplicate();
            let mut post_set_new = ItemSet::empty();
            let mut q: usize = p + 1;
            while q < n
                invariant
                    dataset.wf(),
                    closed_set.wf(),
                    post_set.wf(),
                    post_set.below(dataset.rows().len() as int),
                    forall|x: int|
                        post_set.set().contains(x) ==> (#[trigger] dataset.rows()[x]).len()
                            < dataset.width(),
                    forall|x: int| post_set.set().contains(x) ==> !closed_set.set().contains(x),
                    n == post_set@.len(),
                    p < q,
                    q <= n,
                    i as int == post_set@[p as int],
                    post_set.set().contains(i as int),
                    new_gen_set == closed_set.set().insert(i as int),
                    closed_set_new.wf(),
                    closed_set_new.below(dataset.rows().len() as int),
                    post_set_new.wf(),
                    post_set_new.below(dataset.rows().len() as int),
                    new_gen_cover@ == dataset.cover_spec(new_gen_set),
                    new_gen_cover.width() == dataset.width(),
                    dataset.cover_spec(closed_set_new.set()) == dataset.cover_spec(new_gen_set),
                    post_set_new@.len() <= q - p - 1,
                    forall|x: int|
                        closed_set_new.set().contains(x) ==> closed_set.set().contains(x) || x
                            == i as int || (post_set.set().contains(x) && (i as int) < x && (q < n
                            ==> x < post_set@[q as int])),
                    forall|x: int| new_gen_set.contains(x) ==> closed_set_new.set().contains(x),
                    forall|x: int|
                        post_set_new.set().contains(x) ==> post_set.set().contains(x) && (
                        i as int) < x && (q < n ==> x < post_set@[q as int]),
                    forall|x: int|
                        post_set_new.set().contains(x) ==> !closed_set_new.set().contains(x),
                    forall|x: int|
                        post_set_new.set().contains(x) ==> !(new_gen_cover@.subset_of(
                            #[trigger] dataset.rows()[x],
                        )),
                    forall|x: int|
                        post_set.set().contains(x) && (i as int) < x && (q < n ==> x < post_set@[q as int])
                            ==> closed_set_new.set().contains(x) || post_set_new.set().contains(x),
                decreases n - q,
            {
                let j = post_set.get(q);
                proof {
                    assert(post_set@.contains(post_set@[q as int]));
                    assert(post_set.set().contains(j as int));
                    assert((i as int) < (j as int));
                }
                let ghost pre_closed_new = closed_set_new.set();
                if dataset.supports(j, &new_gen_cover) {
                    closed_set_new.add(j);
                    proof {
                        dataset.lemma_cover_spec_insert_supported(pre_closed_new, j as int);
                    }
                } else {
                    post_set_new.add(j);
                }
                proof {
                    assert forall|x: int|
                        post_set.set().contains(x) && (i as int) < x && (q + 1 < n
                            ==> x < post_set@[q + 1]) implies closed_set_new.set().contains(x)
                        || post_set_new.set().contains(x) by {
                        if x != j as int {
                            assert(x < post_set@[q as int]) by {
                                let xp = choose|xp: int|
                                    0 <= xp < post_set@.len() && post_set@[xp] == x;
                                if xp > q {
                                    assert(post_set@[xp] >= post_set@[q + 1]);
                                }
                            }
                        }
                    }
                }
                q += 1;
            }

            let sup_new = dataset.support(&closed_set_new);
            proof {
                assert(new_gen_set.contains(i as int));
                dataset.lemma_cover_spec_within_row(new_gen_set, i as int);
            }
            let ghost emitted_before = emitted@;
            let pair = (closed_set_new.duplicate(), sup_new);
            emitted.push(pair);
            proof {
                assert(forall|k: int|
                    0 <= k < emitted_before.len() ==> emitted@[k] == emitted_before[k]);
                let s = emitted@[emitted_before.len() as int].0.set();
                assert(s == closed_set_new.set());
                assert(emitted_ok(*dataset, min_sup as int, emitted@[emitted_before.len() as int]));
                // The new pair is closed: every candidate extension fails.
                assert(closed_ok(*dataset, emitted@[emitted_before.len() as int])) by {
                    assert forall|j: int|
                        0 <= j < dataset.rows().len() && !s.contains(j) implies !(
                    #[trigger] dataset.cover_spec(s).subset_of(dataset.rows()[j])) by {
                        if dataset.cover_spec(s).subset_of(dataset.rows()[j]) {
                            let cov = dataset.cover_spec(s);
                            assert(cov == new_gen_cover@);
                            assert(cov.len() == sup);
                            dataset.lemma_cover_spec_bounds(s);
                            dataset.lemma_row_bounds(j);
                            if dataset.rows()[j].len() < min_sup {
                                lemma_len_subset(cov, dataset.rows()[j]);
                                assert(false);
                            } else if closed_set.set().contains(j) {
                                assert(s.contains(j)) by {
                                    assert(new_gen_set.contains(j));
                                    assert(closed_set_new.set().contains(j));
                                }
                                assert(false);
                            } else if pre_set.set().contains(j) {
                                assert(false);
                            } else if post_set.set().contains(j) {
                                assert(cov.subset_of(dataset.cover_spec(closed_set.set()))) by {
                                    dataset.lemma_cover_spec_antitone(
                                        closed_set.set(),
                                        new_gen_set,
                                    );
                                }
                                if j == i as int {
                                    assert(s.contains(j));
                                } else if j > i as int {
                                    assert(closed_set_new.set().contains(j)
                                        || post_set_new.set().contains(j)) by {
                                        assert(post_set.set().contains(j) && (i as int) < j);
                                    }
                                    assert(!post_set_new.set().contains(j)) by {
                                        if post_set_new.set().contains(j) {
                                            assert(!(new_gen_cover@.subset_of(
                                                dataset.rows()[j],
                                            )));
                                        }
                                    }
                                    assert(s.contains(j)) by {
                                        assert(closed_set_new.set().contains(j));
                                    }
                                } else {
                                    let qx = choose|qx: int|
                                        0 <= qx < post_set@.len() && post_set@[qx] == j;
                                    assert(qx < p as int) by {
                                        if qx >= p as int {
                                            assert(post_set@[qx] >= post_set@[p as int]);
                                        }
                                    }
                                    assert(dci_processed(
                                        *dataset,
                                        min_sup as int,
                                        closed_set.set(),
                                        pre_set.set(),
                                        post_set@[qx],
                                    ));
                                    dataset.lemma_cover_spec_insert_pointwise(
                                        closed_set.set(),
                                        j,
                                    );
                                    assert(cov.subset_of(
                                        dataset.cover_spec(closed_set.set().insert(j)),
                                    ));
                                    if dataset.support_spec(closed_set.set().insert(j))
                                        < min_sup {
                                        dataset.lemma_cover_spec_bounds(
                                            closed_set.set().insert(j),
                                        );
                                        lemma_len_subset(
                                            cov,
                                            dataset.cover_spec(closed_set.set().insert(j)),
                                        );
                                        assert(false);
                                    } else if exists|k: int|
                                        pre_set.set().contains(k) && dataset.cover_spec(
                                            closed_set.set().insert(j),
                                        ).subset_of(#[trigger] dataset.rows()[k]) {
                                        let k = choose|k: int|
                                            pre_set.set().contains(k) && dataset.cover_spec(
                                                closed_set.set().insert(j),
                                            ).subset_of(#[trigger] dataset.rows()[k]);
                                        assert(cov.subset_of(dataset.rows()[k]));
                                        assert(false);
                                    } else {
                                        assert(pre_set.set().contains(j));
                                        assert(false);
                                    }
                                }
                                assert(false);
                            } else {
                                // outside every set: the frame invariant
                                // hands the cover to some pre-set item
                                assert(cov.subset_of(dataset.cover_spec(closed_set.set()))) by {
                                    dataset.lemma_cover_spec_antitone(
                                        closed_set.set(),
                                        new_gen_set,
                                    );
                                }
                                assert(exists|k: int|
                                    pre_set.set().contains(k) && cov.subset_of(
                                        #[trigger] dataset.rows()[k],
                                    ));
                                assert(false);
                            }
                        }
                    }
                }
            }

            let pre_set_new = pre_set.duplicate();
            proof {
                // The child frame inherits the duplicate-check invariant.
                assert(dci_inv(
                    *dataset,
                    min_sup as int,
                    closed_set_new.set(),
                    pre_set_new.set(),
                    post_set_new.set(),
                )) by {
                    assert forall|j: int, x: Set<int>|
                        0 <= j < dataset.rows().len() && dataset.rows()[j].len() >= min_sup
                            && !closed_set_new.set().contains(j) && !pre_set_new.set().contains(j)
                            && !post_set_new.set().contains(j) && x.subset_of(
                            dataset.cover_spec(closed_set_new.set()),
                        ) && x.len() >= min_sup && #[trigger] x.subset_of(
                            dataset.rows()[j],
                        ) implies exists|k: int|
                        pre_set_new.set().contains(k) && x.subset_of(
                            #[trigger] dataset.rows()[k],
                        ) by {
                        assert(x.subset_of(new_gen_cover@));
                        assert(x.subset_of(dataset.cover_spec(closed_set.set()))) by {
                            dataset.lemma_cover_spec_antitone(closed_set.set(), new_gen_set);
                        }
                        if !closed_set.set().contains(j) && !pre_set.set().contains(j)
                            && !post_set.set().contains(j) {
                            // outer invariant
                            assert(exists|k: int|
                                pre_set.set().contains(k) && x.subset_of(
                                    #[trigger] dataset.rows()[k],
                                ));
                        } else if closed_set.set().contains(j) {
                            assert(closed_set_new.set().contains(j)) by {
                                assert(new_gen_set.contains(j));
                            }
                            assert(false);
                        } else if pre_set.set().contains(j) {
                            assert(pre_set_new.set().contains(j));
                            assert(false);
                        } else if post_set.set().contains(j) {
                            // an already-visited branch of this frame
                            assert(j < i as int || j == i as int || j > i as int);
                            if j > i as int {
                                assert(closed_set_new.set().contains(j)
                                    || post_set_new.set().contains(j)) by {
                                    assert(post_set.set().contains(j) && (i as int) < j);
                                }
                                assert(false);
                            } else if j == i as int {
                                assert(closed_set_new.set().contains(j)) by {
                                    assert(new_gen_set.contains(j));
                                }
                                assert(false);
                            } else {
                                let qx = choose|qx: int|
                                    0 <= qx < post_set@.len() && post_set@[qx] == j;
                                assert(qx < p as int) by {
                                    if qx >= p as int {
                                        assert(post_set@[qx] >= post_set@[p as int]);
                                    }
                                }
                                assert(dci_processed(
                                    *dataset,
                                    min_sup as int,
                                    closed_set.set(),
                                    pre_set.set(),
                                    post_set@[qx],
                                ));
                                dataset.lemma_cover_spec_insert_pointwise(closed_set.set(), j);
                                assert(x.subset_of(
                                    dataset.cover_spec(closed_set.set().insert(j)),
                                ));
                                if dataset.support_spec(closed_set.set().insert(j)) < min_sup {
                                    dataset.lemma_cover_spec_bounds(closed_set.set().insert(j));
                                    lemma_len_subset(
                                        x,
                                        dataset.cover_spec(closed_set.set().insert(j)),
                                    );
                                    assert(false);
                                } else if exists|k: int|
                                    pre_set.set().contains(k) && dataset.cover_spec(
                                        closed_set.set().insert(j),
                                    ).subset_of(#[trigger] dataset.rows()[k]) {
                                    let k = choose|k: int|
                                        pre_set.set().contains(k) && dataset.cover_spec(
                                            closed_set.set().insert(j),
                                        ).subset_of(#[trigger] dataset.rows()[k]);
                                    assert(x.subset_of(dataset.rows()[k]));
                                }
                            }
                        }
                    }
                }
            }
            let ghost frames_before = frames@;
            let child = Frame { closed: closed_set_new, pre: pre_set_new, post: post_set_new };
            frames.push(child);
            proof {
                assert(forall|k: int|
                    0 <= k < frames_before.len() ==> frames@[k] == frames_before[k]);
                let f = frames@[frames_before.len() as int];
                assert(frame_ok(*dataset, min_sup as int, f.closed, f.pre, f.post));
                assert(f.post@.len() < post_set@.len());
            }

            let ghost pre_before = pre_set.set();
            pre_set.add(i);
            proof {
                // The invariant survives the pre-set gaining `i`.
                assert(dci_inv(
                    *dataset,
                    min_sup as int,
                    closed_set.set(),
                    pre_set.set(),
                    post_set.set(),
                )) by {
                    assert forall|j: int, x: Set<int>|
                        0 <= j < dataset.rows().len() && dataset.rows()[j].len() >= min_sup
                            && !closed_set.set().contains(j) && !pre_set.set().contains(j)
                            && !post_set.set().contains(j) && x.subset_of(
                            dataset.cover_spec(closed_set.set()),
                        ) && x.len() >= min_sup && #[trigger] x.subset_of(
                            dataset.rows()[j],
                        ) implies exists|k: int|
                        pre_set.set().contains(k) && x.subset_of(
                            #[trigger] dataset.rows()[k],
                        ) by {
                        assert(!pre_before.contains(j));
                        let k = choose|k: int|
                            pre_before.contains(k) && x.subset_of(#[trigger] dataset.rows()[k]);
                        assert(pre_set.set().contains(k));
                    }
                }
                // Visited branches stay accounted for as the pre-set grows.
                assert forall|q: int| 0 <= q < p + 1 implies dci_processed(
                    *dataset,
                    min_sup as int,
                    closed_set.set(),
                    pre_set.set(),
                    #[trigger] post_set@[q],
                ) by {
                    if q == p as int {
                        assert(pre_set.set().contains(i as int));
                    } else {
                        assert(dci_processed(
                            *dataset,
                            min_sup as int,
                            closed_set.set(),
                            pre_before,
                            post_set@[q],
                        ));
                        if exists|k: int|
                            pre_before.contains(k) && dataset.cover_spec(
                                closed_set.set().insert(post_set@[q]),
                            ).subset_of(#[trigger] dataset.rows()[k]) {
                            let k = choose|k: int|
                                pre_before.contains(k) && dataset.cover_spec(
                                    closed_set.set().insert(post_set@[q]),
                                ).subset_of(#[trigger] dataset.rows()[k]);
                            assert(pre_set.set().contains(k));
                        }
                    }
                }
            }
        } else {
            proof {
                // A skipped branch is still accounted for: its extension is
                // infrequent, or a pre-set item supports its whole cover.
                assert(new_gen_set == closed_set.set().insert(i as int));
                assert(sup == dataset.support_spec(closed_set.set().insert(i as int)));
                assert(dci_processed(
                    *dataset,
                    min_sup as int,
                    closed_set.set(),
                    pre_set.set(),
                    i as int,
                ));
                assert forall|q: int| 0 <= q < p + 1 implies dci_processed(
                    *dataset,
                    min_sup as int,
                    closed_set.set(),
                    pre_set.set(),
                    #[trigger] post_set@[q],
                ) by {}
            }
        }
        p += 1;
    }
    (emitted, frames)
}

} // verus!