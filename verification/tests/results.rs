use apsp::base::APSPResult;

fn result_of(entries: &[(usize, usize, u64)]) -> APSPResult {
    let mut r = APSPResult::new();
    for &(from, to, cost) in entries {
        r.add(from, to, cost);
    }
    r
}

#[test]
fn get_finds_recorded_pairs() {
    let r = result_of(&[(0, 1, 4), (1, 2, 7), (0, 0, 0)]);
    assert_eq!(r.get(0, 1), Some(4));
    assert_eq!(r.get(1, 2), Some(7));
    assert_eq!(r.get(0, 0), Some(0));
    assert_eq!(r.get(2, 1), None);
    assert_eq!(r.get(5, 5), None);
}

#[test]
fn compare_equal_results() {
    let a = result_of(&[(0, 1, 4), (1, 0, 4), (0, 0, 0)]);
    let b = result_of(&[(1, 0, 4), (0, 0, 0), (0, 1, 4)]);
    assert!(a.result_compare(&b));
    assert!(b.result_compare(&a));
}

#[test]
fn compare_detects_differing_weight() {
    let a = result_of(&[(0, 1, 4)]);
    let b = result_of(&[(0, 1, 5)]);
    assert!(!a.result_compare(&b));
}

#[test]
fn compare_detects_missing_off_diagonal_pair() {
    let a = result_of(&[(0, 1, 4), (1, 2, 2)]);
    let b = result_of(&[(0, 1, 4)]);
    assert!(!a.result_compare(&b));
    // The other direction only checks `b`'s own pairs.
    assert!(b.result_compare(&a));
}

#[test]
fn compare_tolerates_missing_diagonal() {
    // Consumers may omit the always-zero diagonal; that is not a mismatch.
    let a = result_of(&[(1, 1, 0), (0, 1, 4)]);
    let b = result_of(&[(0, 1, 4)]);
    assert!(a.result_compare(&b));
}

#[test]
fn compare_rejects_wrong_diagonal_weight() {
    let a = result_of(&[(1, 1, 0)]);
    let b = result_of(&[(1, 1, 3)]);
    assert!(!a.result_compare(&b));
}

#[test]
fn add_overwrites_existing_pair() {
    let mut r = result_of(&[(0, 1, 4), (1, 2, 7)]);
    r.add(0, 1, 9);
    assert_eq!(r.get(0, 1), Some(9));
    assert_eq!(r.get(1, 2), Some(7));
    // No duplicate entry was created.
    assert_eq!(r.shortest_paths.len(), 2);
}
