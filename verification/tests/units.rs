//! Unit tests for the supporting structures: the packed bit vector, the
//! closed-pattern storage and the inverted index.

use rustyfim::index::Index;
use rustyfim::neclatclosed::bitvector::BitVector;
use rustyfim::neclatclosed::cpstorage::CPStorage;

#[test]
fn bitvector_cardinality_and_subset() {
    let a = BitVector::new(&vec![3, 70, 5], 3);
    assert_eq!(a.cardinality, 3);
    let b = BitVector::new(&vec![3, 70], 2);
    assert_eq!(b.cardinality, 2);
    // b's members all recur in a, and it is strictly smaller.
    assert!(b.is_subset(&a));
    // a is bigger, never a subset of b.
    assert!(!a.is_subset(&b));
    // equal cardinality is never a strict subset
    let c = BitVector::new(&vec![3, 70, 9], 3);
    assert!(!a.is_subset(&c));
    // a high bit missing from the other vector is noticed even when the
    // other vector has fewer words
    let d = BitVector::new(&vec![3, 5, 9, 11], 4);
    let e = BitVector::new(&vec![3, 70], 2);
    assert!(!e.is_subset(&d));
}

#[test]
fn bitvector_prefix_only() {
    // Only the first `take` entries count.
    let v = BitVector::new(&vec![1, 2, 64], 2);
    assert_eq!(v.cardinality, 2);
    let w = BitVector::new(&vec![1, 2, 64], 3);
    assert!(v.is_subset(&w));
}

#[test]
fn cpstorage_rejects_covered_candidates() {
    let mut store = CPStorage::new();
    // The first key of its support is always kept.
    assert!(store.insert_if_close(BitVector::new(&vec![1, 2, 3], 3), 5));
    // A smaller key covered by the stored one at the same support is the
    // sign of a non-closed candidate: rejected.
    assert!(!store.insert_if_close(BitVector::new(&vec![1, 2], 2), 5));
    // The same key at another support is unrelated: accepted.
    assert!(store.insert_if_close(BitVector::new(&vec![1, 2], 2), 4));
    // A key not covered by anything of its support is accepted.
    assert!(store.insert_if_close(BitVector::new(&vec![1, 9], 2), 5));
    // A bigger key is never rejected by smaller ones.
    assert!(store.insert_if_close(BitVector::new(&vec![1, 2, 3, 4], 4), 5));
    // But now {2, 3} is covered by {1, 2, 3} as well as {1, 2, 3, 4}.
    assert!(!store.insert_if_close(BitVector::new(&vec![2, 3], 2), 5));
}

#[test]
fn index_counts_common_transactions() {
    let mut index = Index::new();
    index.insert(&[0, 2, 3]);
    index.insert(&[1, 2]);
    index.insert(&[2]);
    index.insert(&[0, 3]);
    index.insert(&[1, 2]);
    index.insert(&[0, 2]);
    // An empty query counts nothing.
    assert_eq!(index.count(&[]), 0);
    // Single items.
    assert_eq!(index.count(&[0]), 3);
    assert_eq!(index.count(&[1]), 2);
    assert_eq!(index.count(&[2]), 5);
    assert_eq!(index.count(&[3]), 2);
    // Pairs and triples.
    assert_eq!(index.count(&[0, 2]), 2);
    assert_eq!(index.count(&[0, 3]), 2);
    assert_eq!(index.count(&[1, 2]), 2);
    assert_eq!(index.count(&[0, 1]), 0);
    assert_eq!(index.count(&[0, 2, 3]), 1);
    // Unknown items are in no transaction.
    assert_eq!(index.count(&[9]), 0);
    assert_eq!(index.count(&[0, 9]), 0);
}

#[test]
fn index_agrees_with_the_miners() {
    let transactions: Vec<Vec<u32>> = vec![
        vec![0, 2, 3],
        vec![1, 2],
        vec![2],
        vec![0, 3],
        vec![1, 2],
        vec![0, 2],
    ];
    let mut index = Index::new();
    for t in transactions.iter() {
        let items: Vec<usize> = t.iter().map(|&x| x as usize).collect();
        index.insert(&items);
    }
    let out = rustyfim::dciclosed::closed_from_transactions(&transactions, 2).unwrap();
    for (s, c) in out.iter() {
        let mut items = Vec::new();
        let mut k: usize = 0;
        while k < s.len() {
            items.push(s.get(k));
            k += 1;
        }
        if !items.is_empty() {
            assert_eq!(index.count(&items), *c);
        }
    }
}
