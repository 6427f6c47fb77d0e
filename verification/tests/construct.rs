use golomb_vanguard::construct::{construct_bound, construct_golomb, construct_prime_greedy};
use std::collections::HashSet;

#[test]
fn test_construct_valid_golomb() {
    for n in 2..=20 {
        let marks = construct_golomb(n);
        assert_eq!(marks.len(), n);
        assert_eq!(marks[0], 0);
        let mut dists = HashSet::new();
        for i in 0..marks.len() {
            for j in i + 1..marks.len() {
                let d = marks[j] - marks[i];
                assert!(dists.insert(d), "Duplicate distance {} for n={}", d, n);
            }
        }
    }
}

#[test]
fn test_construct_prime_greedy_valid() {
    for n in 2..=15 {
        let marks = construct_prime_greedy(n);
        assert_eq!(marks.len(), n);
        assert_eq!(marks[0], 0);
        let mut dists = HashSet::new();
        for i in 0..marks.len() {
            for j in i + 1..marks.len() {
                let d = marks[j] - marks[i];
                assert!(dists.insert(d), "Duplicate distance {} for n={}", d, n);
            }
        }
    }
}

#[test]
fn test_construct_bounds() {
    let cases = [(10, 55, 200), (14, 127, 400), (20, 283, 1000)];
    for (n, optimal, max_expected) in cases {
        let len = construct_bound(n);
        assert!(len > optimal, "n={}: len={} should exceed optimal {}", n, len, optimal);
        assert!(len < max_expected, "n={}: len={} should be < {}", n, len, max_expected);
        println!("OGR-{}: bound = {} (optimal = {})", n, len, optimal);
    }
}

#[test]
fn greedy_ruler_first_marks() {
    assert_eq!(construct_golomb(0), Vec::<u32>::new());
    assert_eq!(construct_golomb(1), vec![0]);
    assert_eq!(construct_golomb(10), vec![0, 1, 3, 7, 12, 20, 30, 44, 65, 80]);
}

#[test]
fn prime_greedy_first_marks() {
    assert_eq!(construct_prime_greedy(0), Vec::<u32>::new());
    assert_eq!(construct_prime_greedy(1), vec![0]);
    assert_eq!(construct_prime_greedy(4), vec![0, 1, 3, 7]);
}

#[test]
fn bound_is_the_shorter_construction() {
    for n in 0..=16 {
        let g = construct_golomb(n).last().copied().unwrap_or(0);
        let p = construct_prime_greedy(n).last().copied().unwrap_or(0);
        assert_eq!(construct_bound(n), g.min(p), "n={}", n);
    }
}
