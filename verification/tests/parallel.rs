//! A work-stealing parallel driver around the verified DCI-Closed pieces,
//! checked against the sequential enumerator for determinism of the result
//! set.

use rustyfim::dciclosed::closed::InitialSets;
use rustyfim::dciclosed::parallel::{dci_frame, Frame};
use rustyfim::dciclosed::closed_from_transactions;
use rustyfim::dciclosed::itemset::ItemSet;
use rustyfim::dciclosed::matrix::Matrix;
use std::sync::mpsc::{channel, Sender};

fn itemset_to_vec(s: &ItemSet) -> Vec<usize> {
    let mut items = Vec::new();
    let mut k: usize = 0;
    while k < s.len() {
        items.push(s.get(k));
        k += 1;
    }
    items
}

/// Parallel DCI-Closed: the verified frame function makes every mining
/// decision (threshold, duplicate check, closure extension, pre-set
/// snapshots); this driver only funnels its emitted pairs into a channel
/// and spawns its child frames on a rayon work-stealing pool.
fn par_frame<'a>(
    dataset: &'a Matrix,
    min_sup: usize,
    frame: Frame,
    out: &Sender<(ItemSet, usize)>,
    scope: &rayon::Scope<'a>,
) {
    let (emitted, children) = dci_frame(dataset, min_sup, &frame.closed, &frame.pre, &frame.post);
    for pair in emitted {
        if out.send(pair).is_err() {
            return;
        }
    }
    for child in children {
        let out_child = out.clone();
        scope.spawn(move |scope| par_frame(dataset, min_sup, child, &out_child, scope));
    }
}

fn closed_parallel(transactions: &Vec<Vec<u32>>, min_sup: usize) -> Vec<(Vec<usize>, usize)> {
    let dataset = Matrix::from_transactions(transactions).unwrap();
    let initial = InitialSets::new(&dataset, min_sup);
    let bottom = initial.closed.duplicate();
    let root = Frame { closed: initial.closed, pre: initial.pre, post: initial.post };
    let (tx, rx) = channel();
    rayon::scope(|scope| par_frame(&dataset, min_sup, root, &tx, scope));
    drop(tx);
    let mut v = vec![(itemset_to_vec(&bottom), dataset.transactions_count())];
    for (s, c) in rx.iter() {
        v.push((itemset_to_vec(&s), c));
    }
    v.sort();
    v
}

fn sequential(transactions: &Vec<Vec<u32>>, min_sup: usize) -> Vec<(Vec<usize>, usize)> {
    let out = closed_from_transactions(transactions, min_sup).unwrap();
    let mut v: Vec<(Vec<usize>, usize)> = Vec::new();
    for (s, c) in out.iter() {
        v.push((itemset_to_vec(s), *c));
    }
    v.sort();
    v
}

#[test]
fn parallel_matches_sequential_and_is_deterministic() {
    let cases: Vec<(Vec<Vec<u32>>, usize)> = vec![
        (
            vec![
                vec![0, 2, 3],
                vec![1, 2],
                vec![2],
                vec![0, 3],
                vec![1, 2],
                vec![0, 2],
            ],
            2,
        ),
        (vec![vec![0, 1, 2], vec![0, 1, 2], vec![0, 1, 2]], 2),
        (vec![vec![0], vec![1], vec![2]], 2),
    ];
    for (txs, min_sup) in cases {
        let expected = sequential(&txs, min_sup);
        for _ in 0..30 {
            let got = closed_parallel(&txs, min_sup);
            assert_eq!(got, expected);
        }
    }
}
