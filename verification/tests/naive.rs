use golomb_vanguard::known::optimal_length;
use golomb_vanguard::naive::{exists_ruler, find, verify_golomb};

#[test]
fn test_ogr_small() {
    for n in 2..=9 {
        let expected = optimal_length(n).unwrap();
        let result = find(n, expected).unwrap();
        assert_eq!(*result.last().unwrap(), expected, "OGR-{} should have length {}", n, expected);
        assert!(verify_golomb(&result));
    }
}

#[test]
fn test_ogr_10() {
    let result = find(10, 55).unwrap();
    assert_eq!(*result.last().unwrap(), 55, "OGR-10 must be 55, not 36!");
    assert!(verify_golomb(&result));
}

#[test]
fn test_prove_optimality_small() {
    assert!(find(6, 16).is_none());
    assert!(find(6, 17).is_some());
}

#[test]
fn naive_find_agrees_with_exists() {
    for n in 0..=7 {
        for max_len in 0..=30 {
            assert_eq!(find(n, max_len).is_some(), exists_ruler(n, max_len), "n={}, max_len={}", n, max_len);
        }
    }
}

#[test]
fn naive_small_cases() {
    assert_eq!(find(0, 0), Some(vec![]));
    assert_eq!(find(1, 0), Some(vec![0]));
    assert_eq!(find(2, 0), None);
    assert_eq!(find(2, 1), Some(vec![0, 1]));
    assert_eq!(find(4, 6), Some(vec![0, 1, 4, 6]));
    assert!(exists_ruler(1, 0));
    assert!(!exists_ruler(3, 2));
}

#[test]
fn verify_golomb_detects_repeats() {
    assert!(verify_golomb(&[0, 1, 4, 9, 11]));
    assert!(!verify_golomb(&[0, 1, 2]));
    assert!(!verify_golomb(&[0, 2, 3, 5]));
    assert!(verify_golomb(&[]));
    assert!(verify_golomb(&[7]));
}
