//! Cross-algorithm and input-transformation properties.

use rustyfim::dciclosed::closed_from_transactions;
use rustyfim::neclatclosed::NEclatClosed;

fn run_dci(transactions: &Vec<Vec<u32>>, min_count: usize) -> Vec<(Vec<usize>, usize)> {
    let out = closed_from_transactions(transactions, min_count).unwrap();
    let mut v: Vec<(Vec<usize>, usize)> = Vec::new();
    for (s, c) in out.iter() {
        let mut items = Vec::new();
        let mut k: usize = 0;
        while k < s.len() {
            items.push(s.get(k));
            k += 1;
        }
        v.push((items, *c));
    }
    v.sort();
    v
}

fn run_neclat(transactions: &Vec<Vec<u32>>, min_count: usize) -> Vec<(Vec<usize>, usize)> {
    let neclat = NEclatClosed::default();
    let result = neclat.process(transactions, min_count);
    let mut v: Vec<(Vec<usize>, usize)> = Vec::new();
    for e in result.iter() {
        let mut items = e.indices.clone();
        items.sort();
        v.push((items, e.support));
    }
    v.sort();
    v
}

fn datasets() -> Vec<(Vec<Vec<u32>>, usize)> {
    vec![
        (
            vec![
                vec![0, 2, 3],
                vec![1, 2],
                vec![2],
                vec![0, 3],
                vec![1, 2],
                vec![0, 2],
            ],
            2,
        ),
        (vec![vec![0, 1, 2], vec![0, 1, 2], vec![0, 1, 2]], 2),
        (vec![vec![0], vec![1], vec![2]], 2),
        (
            vec![
                vec![0, 1, 2, 3],
                vec![0, 1, 2],
                vec![0, 1],
                vec![0, 3],
                vec![2, 3],
                vec![1, 2, 3],
            ],
            1,
        ),
        (Vec::new(), 0),
        (
            vec![vec![5, 9], vec![9, 5], vec![5], vec![9], vec![5, 9, 11]],
            2,
        ),
        (
            vec![
                vec![1, 3, 4, 6],
                vec![2, 3, 5],
                vec![1, 2, 4, 5, 6],
                vec![2, 5],
                vec![1, 4, 5, 6],
                vec![2, 3, 4],
                vec![0, 1, 2, 3, 4, 5, 6],
                vec![0, 4],
                vec![3, 4, 6],
                vec![1, 2, 5],
                vec![2, 4, 6],
                vec![0, 1, 3, 5],
            ],
            3,
        ),
    ]
}

#[test]
fn algorithms_agree() {
    for (txs, min_count) in datasets() {
        let a = run_dci(&txs, min_count);
        let b = run_neclat(&txs, min_count);
        assert_eq!(a, b, "algorithms disagree on {:?} at {}", txs, min_count);
    }
}

#[test]
fn permuting_transactions_keeps_the_output() {
    for (txs, min_count) in datasets() {
        let baseline_dci = run_dci(&txs, min_count);
        let baseline_nec = run_neclat(&txs, min_count);
        let mut permuted = txs.clone();
        permuted.reverse();
        assert_eq!(run_dci(&permuted, min_count), baseline_dci);
        assert_eq!(run_neclat(&permuted, min_count), baseline_nec);
        if permuted.len() >= 3 {
            permuted.swap(0, 2);
            assert_eq!(run_dci(&permuted, min_count), baseline_dci);
            assert_eq!(run_neclat(&permuted, min_count), baseline_nec);
        }
    }
}

#[test]
fn relabeling_items_relabels_the_output() {
    // A bijection over item ids carries through to the result sets.
    let relabel = |id: u32| -> u32 { 3 * id + 5 };
    for (txs, min_count) in datasets() {
        let mapped: Vec<Vec<u32>> = txs
            .iter()
            .map(|t| t.iter().map(|&id| relabel(id)).collect())
            .collect();
        for (run, runm) in [
            (run_dci(&txs, min_count), run_dci(&mapped, min_count)),
            (run_neclat(&txs, min_count), run_neclat(&mapped, min_count)),
        ] {
            let mut expected: Vec<(Vec<usize>, usize)> = run
                .iter()
                .map(|(s, c)| {
                    let mut m: Vec<usize> =
                        s.iter().map(|&i| relabel(i as u32) as usize).collect();
                    m.sort();
                    (m, *c)
                })
                .collect();
            expected.sort();
            assert_eq!(runm, expected);
        }
    }
}

fn support_of(transactions: &Vec<Vec<u32>>, s: &Vec<usize>) -> usize {
    transactions
        .iter()
        .filter(|t| s.iter().all(|&i| t.contains(&(i as u32))))
        .count()
}

#[test]
fn miners_match_brute_force() {
    // A deterministic pseudo-random dataset, small enough to enumerate all
    // itemsets exhaustively.
    let n_items: usize = 12;
    let mut state: u64 = 12345;
    let mut transactions: Vec<Vec<u32>> = Vec::new();
    for _ in 0..40 {
        let mut t = Vec::new();
        for id in 0..n_items {
            state = state
                .wrapping_mul(6364136223846793005)
                .wrapping_add(1442695040888963407);
            if (state >> 33) % 3 == 0 {
                t.push(id as u32);
            }
        }
        transactions.push(t);
    }
    let min_count = 4;

    // Brute force: keep every frequent itemset no extension of which
    // preserves its support.
    let mut expected: Vec<(Vec<usize>, usize)> = Vec::new();
    for mask in 0u32..(1 << n_items) {
        let s: Vec<usize> = (0..n_items).filter(|i| mask & (1 << i) != 0).collect();
        let sup = support_of(&transactions, &s);
        if sup < min_count {
            continue;
        }
        let closed = (0..n_items)
            .filter(|i| !s.contains(i))
            .all(|i| {
                let mut bigger = s.clone();
                bigger.push(i);
                support_of(&transactions, &bigger) < sup
            });
        if closed {
            expected.push((s, sup));
        }
    }
    expected.sort();

    assert_eq!(run_dci(&transactions, min_count), expected);
    assert_eq!(run_neclat(&transactions, min_count), expected);
}

#[test]
fn support_bound_holds() {
    for (txs, min_count) in datasets() {
        let n = txs.len();
        for (s, c) in run_dci(&txs, min_count) {
            assert!(c >= min_count || c == n, "({:?}, {}) under threshold", s, c);
            assert!(c <= n);
        }
        for (s, c) in run_neclat(&txs, min_count) {
            assert!(c >= min_count || c == n, "({:?}, {}) under threshold", s, c);
            assert!(c <= n);
        }
    }
}
