//! Tests for the NEclatClosed enumerator.

use rustyfim::neclatclosed::NEclatClosed;

fn run(transactions: &Vec<Vec<u32>>, min_count: usize) -> Vec<(Vec<usize>, usize)> {
    let neclat = NEclatClosed::default();
    let result = neclat.process(transactions, min_count);
    let mut v: Vec<(Vec<usize>, usize)> = Vec::new();
    for e in result.iter() {
        let mut items = e.indices.clone();
        items.sort();
        v.push((items, e.support));
    }
    v.sort();
    v
}

fn toy_transactions() -> Vec<Vec<u32>> {
    vec![
        vec![0, 2, 3],
        vec![1, 2],
        vec![2],
        vec![0, 3],
        vec![1, 2],
        vec![0, 2],
    ]
}

#[test]
fn neclat_toy() {
    let got = run(&toy_transactions(), 2);
    let mut expected = vec![
        (vec![], 6),
        (vec![2], 5),
        (vec![0], 3),
        (vec![0, 2], 2),
        (vec![0, 3], 2),
        (vec![1, 2], 2),
    ];
    expected.sort();
    assert_eq!(got, expected);
}

#[test]
fn neclat_facade_runs_the_miner() {
    let transactions = toy_transactions();
    let result = rustyfim::neclat(2, &transactions);
    let mut got: Vec<(Vec<usize>, usize)> = result
        .iter()
        .map(|e| {
            let mut items = e.indices.clone();
            items.sort();
            (items, e.support)
        })
        .collect();
    got.sort();
    assert_eq!(got, run(&toy_transactions(), 2));
}

#[test]
fn neclat_empty_dataset() {
    let transactions: Vec<Vec<u32>> = Vec::new();
    assert_eq!(run(&transactions, 0), vec![(vec![], 0)]);
}

#[test]
fn neclat_all_universal() {
    let transactions = vec![vec![0, 1, 2], vec![0, 1, 2], vec![0, 1, 2]];
    assert_eq!(run(&transactions, 2), vec![(vec![0, 1, 2], 3)]);
}

#[test]
fn neclat_singletons_below_threshold() {
    let transactions = vec![vec![0], vec![1], vec![2]];
    assert_eq!(run(&transactions, 2), vec![(vec![], 3)]);
}

#[test]
fn neclat_duplicate_ids_in_transaction_count_once() {
    // A repeated id inside one transaction must not inflate its support.
    let transactions = vec![vec![7, 7, 7], vec![8]];
    let got = run(&transactions, 2);
    // Item 7 occurs in one transaction only, so nothing reaches support 2
    // except the empty bottom closure.
    assert_eq!(got, vec![(vec![], 2)]);
}

#[test]
fn neclat_sparse_ids() {
    // Original ids survive the internal dense remapping.
    let transactions = vec![vec![100, 4000], vec![100, 4000], vec![100]];
    let got = run(&transactions, 2);
    let mut expected = vec![(vec![100], 3), (vec![100, 4000], 2)];
    expected.sort();
    assert_eq!(got, expected);
}

#[test]
fn neclat_closure_property() {
    let transactions = vec![
        vec![0, 1, 2, 3],
        vec![0, 1, 2],
        vec![0, 1],
        vec![0, 3],
        vec![2, 3],
        vec![1, 2, 3],
    ];
    let got = run(&transactions, 1);
    for k in 1..got.len() {
        assert!(got[k - 1].0 != got[k].0);
    }
    for (s, c) in got.iter() {
        let covering: Vec<&Vec<u32>> = transactions
            .iter()
            .filter(|t| s.iter().all(|i| t.contains(&(*i as u32))))
            .collect();
        assert_eq!(covering.len(), *c);
        for extra in 0u32..4 {
            if s.contains(&(extra as usize)) {
                continue;
            }
            let all_have = covering.iter().all(|t| t.contains(&extra));
            assert!(!all_have, "item {} extends {:?} without support loss", extra, s);
        }
    }
}
