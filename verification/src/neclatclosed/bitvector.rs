//! Packed bitsets used as subset-test keys in the closed-pattern store.

use vstd::prelude::*;

verus! {

/// Is bit `s` of word `w` set?
pub open spec fn word_bit(w: u64, s: int) -> bool {
    0 <= s < 64 && (w >> (s as u64)) & 1u64 == 1u64
}

/// Is bit `x` set in the packed word sequence `bits`?
pub open spec fn bit_at(bits: Seq<u64>, x: int) -> bool {
    0 <= x && x / 64 < bits.len() && word_bit(bits[x / 64], x % 64)
}

/// The indices among the first `k` entries of `items`.
pub open spec fn prefix_set(items: Seq<usize>, k: int) -> Set<int> {
    Set::new(|x: int| exists|j: int| 0 <= j < k && items[j] == x)
}

/// A packed bit array over item indices, with its cardinality stored.
#[derive(Debug)]
pub struct BitVector {
    /// The packed words, least significant bit first.
    pub bits: Vec<u64>,
    /// The number of set bits.
    pub cardinality: usize,
}

impl BitVector {
    /// The indices whose bit is set.
    pub open spec fn set(self) -> Set<int> {
        Set::new(|x: int| bit_at(self.bits@, x))
    }

    /// The stored cardinality is the number of set bits.
    pub open spec fn wf(self) -> bool {
        &&& self.set().finite()
        &&& self.set().len() == self.cardinality
    }

    /// Setting one bit of a word keeps every other bit.
    proof fn lemma_or_bit(w: u64, sh: u64)
        requires
            sh < 64,
        ensures
            forall|s: int|
                0 <= s < 64 ==> #[trigger] word_bit(w | (1u64 << sh), s) == (word_bit(w, s) || s
                    == sh as int),
    {
        assert forall|s: int| 0 <= s < 64 implies #[trigger] word_bit(w | (1u64 << sh), s) == (
        word_bit(w, s) || s == sh as int) by {
            let su = s as u64;
            assert((((w | (1u64 << sh)) >> su) & 1u64 == 1u64) == (((w >> su) & 1u64 == 1u64) || su
                == sh)) by (bit_vector)
                requires
                    su < 64,
                    sh < 64,
            ;
        }
    }

    /// No bit of the zero word is set.
    proof fn lemma_zero_bits()
        ensures
            forall|s: int| 0 <= s < 64 ==> !#[trigger] word_bit(0u64, s),
    {
        assert forall|s: int| 0 <= s < 64 implies !#[trigger] word_bit(0u64, s) by {
            let su = s as u64;
            assert(((0u64 >> su) & 1u64) != 1u64) by (bit_vector);
        }
    }

    /// A nonzero word has a set bit at or above position `s`.
    proof fn lemma_find_bit(d: u64, s: u64)
        requires
            s < 64,
            (d >> s) != 0,
        ensures
            exists|t: u64| s <= t < 64 && #[trigger] ((d >> t) & 1u64) == 1u64,
        decreases 64 - s,
    {
        if (d >> s) & 1u64 == 1u64 {
            assert(s <= s < 64 && ((d >> s) & 1u64) == 1u64);
        } else {
            assert(s < 63 && (d >> (s + 1) as u64) != 0) by (bit_vector)
                requires
                    s < 64,
                    (d >> s) != 0,
                    (d >> s) & 1u64 != 1u64,
            ;
            Self::lemma_find_bit(d, (s + 1) as u64);
        }
    }

    /// A word contains another exactly when each set bit recurs in it.
    proof fn lemma_word_subset(sw: u64, ow: u64)
        ensures
            ((sw & !ow) == 0) == (forall|s: int|
                0 <= s < 64 ==> (#[trigger] word_bit(sw, s) ==> word_bit(ow, s))),
    {
        if (sw & !ow) == 0 {
            assert forall|s: int| 0 <= s < 64 && #[trigger] word_bit(sw, s) implies word_bit(
                ow,
                s,
            ) by {
                let su = s as u64;
                assert(((sw >> su) & 1u64 == 1u64) ==> ((ow >> su) & 1u64 == 1u64)) by (bit_vector)
                    requires
                        su < 64,
                        (sw & !ow) == 0u64,
                ;
            }
        } else {
            let d = sw & !ow;
            assert((d >> 0u64) != 0) by (bit_vector)
                requires
                    d != 0u64,
            ;
            Self::lemma_find_bit(d, 0);
            let t = choose|t: u64| 0 <= t < 64 && #[trigger] ((d >> t) & 1u64) == 1u64;
            assert(((sw >> t) & 1u64) == 1u64 && ((ow >> t) & 1u64) != 1u64) by (bit_vector)
                requires
                    t < 64,
                    d == sw & !ow,
                    ((d >> t) & 1u64) == 1u64,
            ;
            assert(word_bit(sw, t as int) && !word_bit(ow, t as int));
        }
    }

    /// Build the bitset of the first `take` entries of `itemset`, which must
    /// be distinct; the stored cardinality is then exactly `take`.
    pub fn new(itemset: &Vec<usize>, take: usize) -> (r: BitVector)
        requires
            1 <= take <= itemset@.len(),
            forall|k1: int, k2: int| 0 <= k1 < k2 < take ==> itemset@[k1] != itemset@[k2],
        ensures
            r.wf(),
            r.cardinality == take,
            r.set() == prefix_set(itemset@, take as int),
    {
        // The words must reach the largest index used.
        let mut max: usize = 0;
        let mut k: usize = 0;
        while k < take
            invariant
                take <= itemset@.len(),
                k <= take,
                forall|j: int| 0 <= j < k ==> itemset@[j] <= max,
            decreases take - k,
        {
            if itemset[k] > max {
                max = itemset[k];
            }
            k += 1;
        }
        let words = max / 64 + 1;
        let mut bits: Vec<u64> = vec![0u64; words];
        proof {
            Self::lemma_zero_bits();
            assert(prefix_set(itemset@, 0) =~= Set::<int>::empty());
            assert forall|x: int| !#[trigger] bit_at(bits@, x) by {
                if 0 <= x && x / 64 < bits@.len() {
                    assert(bits@[x / 64] == 0u64);
                }
            }
        }
        let mut k: usize = 0;
        while k < take
            invariant
                take <= itemset@.len(),
                k <= take,
                words == max / 64 + 1,
                bits@.len() == words,
                forall|j: int| 0 <= j < take ==> itemset@[j] <= max,
                forall|k1: int, k2: int| 0 <= k1 < k2 < take ==> itemset@[k1] != itemset@[k2],
                forall|x: int|
                    #[trigger] bit_at(bits@, x) <==> prefix_set(itemset@, k as int).contains(x),
                prefix_set(itemset@, k as int).finite(),
                prefix_set(itemset@, k as int).len() == k,
            decreases take - k,
        {
            let item = itemset[k];
            proof {
                vstd::arithmetic::div_mod::lemma_div_is_ordered(item as int, max as int, 64);
                assert(item / 64 < words);
            }
            let wi = item / 64;
            let sh = item % 64;
            let w = bits[wi];
            let nw = w | (1u64 << (sh as u64));
            let ghost obits = bits@;
            bits.set(wi, nw);
            proof {
                Self::lemma_or_bit(w, sh as u64);
                assert(item == 64 * wi + sh);
                assert forall|x: int|
                    #[trigger] bit_at(bits@, x) <==> prefix_set(itemset@, k + 1).contains(x) by {
                    assert(prefix_set(itemset@, k + 1).contains(x) == (prefix_set(
                        itemset@,
                        k as int,
                    ).contains(x) || x == item));
                    if 0 <= x && x / 64 < words {
                        if x / 64 == wi {
                            assert(bits@[x / 64] == nw);
                            assert(word_bit(nw, x % 64) == (word_bit(w, x % 64) || x % 64 == sh));
                            assert(x == 64 * (x / 64) + x % 64);
                            assert((x % 64 == sh && x / 64 == wi) == (x == item));
                            assert(bit_at(obits, x) == word_bit(w, x % 64));
                        } else {
                            assert(bits@[x / 64] == obits[x / 64]);
                            assert(bit_at(bits@, x) == bit_at(obits, x));
                        }
                    } else {
                        assert(!bit_at(bits@, x));
                        assert(!bit_at(obits, x));
                        assert(x != item);
                    }
                }
                assert(prefix_set(itemset@, k + 1) =~= prefix_set(itemset@, k as int).insert(
                    item as int,
                ));
                assert(!prefix_set(itemset@, k as int).contains(item as int));
            }
            k += 1;
        }
        let r = BitVector { bits, cardinality: take };
        proof {
            assert forall|x: int| r.set().contains(x) implies prefix_set(
                itemset@,
                take as int,
            ).contains(x) by {
                assert(bit_at(r.bits@, x));
            }
            assert forall|x: int|
                prefix_set(itemset@, take as int).contains(x) implies r.set().contains(x) by {
                assert(bit_at(r.bits@, x));
            }
            assert(r.set() =~= prefix_set(itemset@, take as int));
        }
        r
    }

    /// Is this bitset a strict subset of `other`?  True exactly when the
    /// stored cardinality is strictly smaller and every set bit recurs in
    /// `other`; words past `other`'s end count as zero.
    pub fn is_subset(&self, other: &BitVector) -> (r: bool)
        ensures
            r == (self.cardinality < other.cardinality && self.set().subset_of(other.set())),
    {
        if self.cardinality >= other.cardinality {
            return false;
        }
        let mut i: usize = 0;
        while i < self.bits.len()
            invariant
                forall|x: int|
                    0 <= x && x / 64 < i && #[trigger] bit_at(self.bits@, x) ==> bit_at(
                        other.bits@,
                        x,
                    ),
            decreases self.bits@.len() - i,
        {
            let sw = self.bits[i];
            let ow = if i < other.bits.len() {
                other.bits[i]
            } else {
                0u64
            };
            proof {
                Self::lemma_word_subset(sw, ow);
                Self::lemma_zero_bits();
            }
            if sw & !ow != 0 {
                proof {
                    let s = choose|s: int| 0 <= s < 64 && #[trigger] word_bit(sw, s) && !word_bit(
                        ow,
                        s,
                    );
                    let x = 64 * (i as int) + s;
                    assert(x / 64 == i as int && x % 64 == s);
                    assert(bit_at(self.bits@, x));
                    assert(!bit_at(other.bits@, x));
                    assert(self.set().contains(x) && !other.set().contains(x));
                }
                return false;
            }
            proof {
                assert forall|x: int|
                    0 <= x && x / 64 < i + 1 && #[trigger] bit_at(self.bits@, x) implies bit_at(
                    other.bits@,
                    x,
                ) by {
                    if x / 64 == i as int {
                        assert(word_bit(sw, x % 64));
                        assert(word_bit(ow, x % 64));
                        assert(i < other.bits@.len());
                    }
                }
            }
            i += 1;
        }
        proof {
            assert forall|x: int| self.set().contains(x) implies other.set().contains(x) by {
                assert(bit_at(self.bits@, x));
                assert(x / 64 < self.bits@.len());
                assert(bit_at(other.bits@, x));
            }
        }
        true
    }
}

} // verus!
