use std::time::{Duration, Instant};

use ar_matcher::engine::{
    brute_force_reference, find_combinations, find_combinations_capped, Combo, Deadline, InvoiceRow, SearchError,
};

fn row(amount: i64) -> InvoiceRow {
    InvoiceRow {
        invoice_no: format!("INV-{amount}"),
        date_label: "01/01/2024".into(),
        amount,
    }
}

fn canonical(combos: &[Combo]) -> Vec<(usize, i64, Vec<usize>)> {
    let mut keys: Vec<_> = combos
        .iter()
        .map(|c| {
            let mut idx = c.indices.clone();
            idx.sort_unstable();
            (c.indices.len(), c.total, idx)
        })
        .collect();
    keys.sort();
    keys
}

fn assert_same_set(a: &[Combo], b: &[Combo], context: &str) {
    assert_eq!(canonical(a), canonical(b), "mismatch: {context}");
}

#[test]
fn matches_brute_force_on_random_inputs() {
    // Deterministic LCG so failures are reproducible.
    let mut seed: u64 = 42;
    let mut rng = move || {
        seed = seed.wrapping_mul(6364136223846793005).wrapping_add(1442695040888963407);
        (seed >> 33) as i64
    };

    for case in 0..200u32 {
        let n = (rng().rem_euclid(12) + 1) as usize;
        let rows: Vec<InvoiceRow> = (0..n).map(|_| row(rng().rem_euclid(500_000) + 100)).collect();
        let target = rng().rem_euclid(1_000_000);
        let tol = rng().rem_euclid(20_000);
        let k = (rng().rem_euclid(4) + 1) as usize;

        let fast = find_combinations(&rows, target, tol, k, Deadline::after(30)).expect("no timeout");
        let slow = brute_force_reference(&rows, target, tol, k);

        assert_same_set(&fast, &slow, &format!("case={case} n={n} target={target} tol={tol} k={k}"));
    }
}

#[test]
fn finds_exact_match() {
    let rows = vec![row(100), row(200), row(300)];
    let combos = find_combinations(&rows, 300, 0, 3, Deadline::after(10)).unwrap();
    let totals: Vec<i64> = combos.iter().map(|c| c.total).collect();
    assert!(totals.contains(&300));
    // single invoice 300 and combination 100+200 both match
    assert_eq!(combos.len(), 2);
}

#[test]
fn respects_tolerance_window() {
    let rows = vec![row(1000), row(1010)];
    let combos = find_combinations(&rows, 1005, 10, 2, Deadline::after(10)).unwrap();
    assert_eq!(combos.len(), 2); // both singles fall inside ±10 of 1005
}

#[test]
fn caps_combination_size() {
    let rows = vec![row(100), row(100), row(100)];
    let combos = find_combinations(&rows, 300, 0, 2, Deadline::after(10)).unwrap();
    assert!(combos.iter().all(|c| c.indices.len() <= 2));
}

#[test]
fn times_out_when_deadline_passed() {
    let rows: Vec<InvoiceRow> = (0..40).map(|i| row((i as i64 + 1) * 1000)).collect();
    let deadline = Deadline::at_instant(Instant::now() - Duration::from_secs(1));
    let result = find_combinations(&rows, 999_999_999, 0, 5, deadline);
    assert!(matches!(result, Err(SearchError::Timeout)));
}

#[test]
fn combinations_list_ascending_indices_and_totals() {
    let rows = vec![row(300), row(100), row(200)];
    let combos = find_combinations(&rows, 300, 0, 3, Deadline::after(10)).unwrap();
    assert_eq!(canonical(&combos), vec![(1, 300, vec![0]), (2, 300, vec![1, 2])]);
    for c in &combos {
        assert!(c.indices.windows(2).all(|w| w[0] < w[1]));
        assert_eq!(c.total, c.indices.iter().map(|&i| rows[i].amount).sum::<i64>());
    }
}

#[test]
fn zero_size_limit_finds_nothing() {
    let rows = vec![row(100), row(200), row(300)];
    let combos = find_combinations(&rows, 300, 0, 0, Deadline::after(10)).unwrap();
    assert!(combos.is_empty());
    let capped = find_combinations_capped(&rows, 300, 0, 0, Deadline::after(10), u64::MAX, 10).unwrap();
    assert!(capped.combos.is_empty());
    assert!(!capped.truncated);
}

#[test]
fn brute_force_lists_every_subset_in_window() {
    let rows = vec![row(100), row(200), row(300)];
    let combos = brute_force_reference(&rows, 300, 0, 3);
    assert_eq!(canonical(&combos), vec![(1, 300, vec![2]), (2, 300, vec![0, 1])]);
    assert!(brute_force_reference(&rows, 300, 0, 0).is_empty());
}

#[test]
fn brute_force_lists_combinations_in_bitmask_order() {
    let rows = vec![row(100), row(200), row(300), row(100)];
    let combos = brute_force_reference(&rows, 300, 100, 3);
    let lists: Vec<Vec<usize>> = combos.iter().map(|c| c.indices.clone()).collect();
    // bitmasks 2, 3, 4, 5, 9, 10, 11, 12: increasing
    assert_eq!(
        lists,
        vec![
            vec![1],
            vec![0, 1],
            vec![2],
            vec![0, 2],
            vec![0, 3],
            vec![1, 3],
            vec![0, 1, 3],
            vec![2, 3],
        ]
    );
}

#[test]
fn capped_search_marks_truncation() {
    let rows = vec![row(100), row(100), row(100), row(100)];
    let outcome = find_combinations_capped(&rows, 200, 0, 2, Deadline::after(10), u64::MAX, 2).unwrap();
    assert!(outcome.truncated);
    assert_eq!(outcome.combos.len(), 2);

    let full = find_combinations_capped(&rows, 200, 0, 2, Deadline::after(10), u64::MAX, 100).unwrap();
    assert!(!full.truncated);
    assert_eq!(full.combos.len(), 6);
}

#[test]
fn capped_search_gives_up_after_node_budget() {
    let rows: Vec<InvoiceRow> = (0..20).map(|i| row(i as i64 + 1)).collect();
    let result = find_combinations_capped(&rows, 50, 0, 5, Deadline::after(10), 3, usize::MAX);
    assert!(matches!(result, Err(SearchError::BudgetExceeded)));
}

#[test]
fn deadline_in_future_has_not_expired() {
    assert!(!Deadline::after(60).expired());
    assert!(Deadline::at_instant(Instant::now() - Duration::from_secs(1)).expired());
}

#[test]
fn search_lists_combinations_in_depth_first_order_of_amounts() {
    // Ranked by descending amount: 300 (row 2), 200 (row 1), 100 (row 0).
    let rows = vec![row(100), row(200), row(300)];
    let combos = find_combinations(&rows, 300, 0, 3, Deadline::after(10)).unwrap();
    let lists: Vec<Vec<usize>> = combos.iter().map(|c| c.indices.clone()).collect();
    assert_eq!(lists, vec![vec![2], vec![0, 1]]);

    // Equal amounts keep row order: ranks are row 2, row 0, row 1.
    let rows = vec![row(100), row(100), row(200), row(50)];
    let combos = find_combinations(&rows, 200, 50, 3, Deadline::after(10)).unwrap();
    let lists: Vec<Vec<usize>> = combos.iter().map(|c| c.indices.clone()).collect();
    assert_eq!(lists, vec![vec![2], vec![2, 3], vec![0, 1], vec![0, 1, 3], vec![0, 3], vec![1, 3]]);
}
