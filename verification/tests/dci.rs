//! Tests for the sequential DCI-Closed enumerator.

use rustyfim::dciclosed::closed_from_transactions;
use rustyfim::dciclosed::itemset::ItemSet;
use rustyfim::dciclosed::Support;

fn pairs_of(out: Vec<(ItemSet, Support)>) -> Vec<(Vec<usize>, usize)> {
    let mut v: Vec<(Vec<usize>, usize)> = Vec::new();
    for (s, c) in out.iter() {
        let mut items = Vec::new();
        let mut k: usize = 0;
        while k < s.len() {
            items.push(s.get(k));
            k += 1;
        }
        v.push((items, *c));
    }
    v.sort();
    v
}

fn toy_transactions() -> Vec<Vec<u32>> {
    vec![
        vec![0, 2, 3],
        vec![1, 2],
        vec![2],
        vec![0, 3],
        vec![1, 2],
        vec![0, 2],
    ]
}

#[test]
fn test_toy() {
    let transactions = toy_transactions();
    let out = closed_from_transactions(&transactions, 2).unwrap();
    let got = pairs_of(out);
    let mut expected = vec![
        (vec![], 6),
        (vec![2], 5),
        (vec![0], 3),
        (vec![0, 2], 2),
        (vec![0, 3], 2),
        (vec![1, 2], 2),
    ];
    expected.sort();
    assert_eq!(got, expected);
}

#[test]
fn dci_bottom_closure_is_first_and_unique() {
    let transactions = toy_transactions();
    let out = closed_from_transactions(&transactions, 2).unwrap();
    assert_eq!(out[0].1, 6);
    assert_eq!(out[0].0.len(), 0);
    let maximal = out.iter().filter(|(_, c)| *c == 6).count();
    assert_eq!(maximal, 1);
}

#[test]
fn dci_empty_dataset() {
    let transactions: Vec<Vec<u32>> = Vec::new();
    let out = closed_from_transactions(&transactions, 0).unwrap();
    let got = pairs_of(out);
    assert_eq!(got, vec![(vec![], 0)]);
}

#[test]
fn dci_all_universal() {
    let transactions = vec![vec![0, 1, 2], vec![0, 1, 2], vec![0, 1, 2]];
    let out = closed_from_transactions(&transactions, 2).unwrap();
    let got = pairs_of(out);
    assert_eq!(got, vec![(vec![0, 1, 2], 3)]);
}

#[test]
fn dci_singletons_below_threshold() {
    let transactions = vec![vec![0], vec![1], vec![2]];
    let out = closed_from_transactions(&transactions, 2).unwrap();
    let got = pairs_of(out);
    assert_eq!(got, vec![(vec![], 3)]);
}

#[test]
fn dci_no_duplicate_itemsets() {
    let transactions = vec![
        vec![0, 1, 2, 3],
        vec![0, 1, 2],
        vec![0, 1],
        vec![0, 3],
        vec![2, 3],
        vec![1, 2, 3],
    ];
    let out = closed_from_transactions(&transactions, 1).unwrap();
    let got = pairs_of(out);
    for k in 1..got.len() {
        assert!(got[k - 1].0 != got[k].0);
    }
}

#[test]
fn dci_closure_property() {
    // For every output (S, c), no item outside S is in all c supporting
    // transactions.
    let transactions = vec![
        vec![0, 1, 2, 3],
        vec![0, 1, 2],
        vec![0, 1],
        vec![0, 3],
        vec![2, 3],
        vec![1, 2, 3],
    ];
    let out = closed_from_transactions(&transactions, 1).unwrap();
    let got = pairs_of(out);
    for (s, c) in got.iter() {
        let covering: Vec<&Vec<u32>> = transactions
            .iter()
            .filter(|t| s.iter().all(|i| t.contains(&(*i as u32))))
            .collect();
        assert_eq!(covering.len(), *c);
        for extra in 0u32..4 {
            if s.contains(&(extra as usize)) {
                continue;
            }
            let all_have = covering.iter().all(|t| t.contains(&extra));
            assert!(!all_have, "item {} extends {:?} without support loss", extra, s);
        }
    }
}
