use golomb_vanguard::engine_v2;
use golomb_vanguard::engine_v3;
use golomb_vanguard::engine_v4::{dfs_serial, generate_stubs, offer};
use golomb_vanguard::known::optimal_length;
use golomb_vanguard::naive::{self, verify_golomb};

// OGR-13 is left out: see README.md.
#[test]
fn v2_finds_optimal_rulers_up_to_12() {
    for n in 2..=12 {
        let expected = optimal_length(n).unwrap();
        let result = engine_v2::find::<2>(n, expected).unwrap();
        assert_eq!(*result.last().unwrap(), expected, "V2 OGR-{} should be {}", n, expected);
        assert!(verify_golomb(&result));
    }
}

#[test]
fn test_v2_vs_naive() {
    for n in 2..=10 {
        for max_len in 1..=optimal_length(n).unwrap() + 2 {
            let naive_result = naive::find(n, max_len).is_some();
            let v2_result = engine_v2::find::<2>(n, max_len).is_some();
            assert_eq!(
                naive_result, v2_result,
                "Disagreement at n={}, max_len={}: naive={}, v2={}",
                n, max_len, naive_result, v2_result
            );
        }
    }
}

#[test]
fn test_v2_ogr_10() {
    let result = engine_v2::find::<1>(10, 55).unwrap();
    assert_eq!(*result.last().unwrap(), 55);
}

// OGR-13 is left out: see README.md.
#[test]
fn v3_optimal_lengths_up_to_12() {
    for n in 2..=12 {
        let expected = optimal_length(n).unwrap();
        let (len, marks) = engine_v3::find_optimal::<2>(n, expected + 5).unwrap();
        assert_eq!(len, expected, "V3 OGR-{} should be {}, got {}", n, expected, len);
        assert!(verify_golomb(&marks));
    }
}

#[test]
fn test_v3_symmetry_breaking() {
    for n in 2..=10 {
        let naive_result = naive::find(n, optimal_length(n).unwrap());
        let v3_result = engine_v3::find::<2>(n, optimal_length(n).unwrap());
        assert_eq!(naive_result.is_some(), v3_result.is_some(), "V3 symmetry breaking broke OGR-{}", n);
    }
}

#[test]
fn test_v3_prove_impossible() {
    assert!(engine_v3::prove_impossible::<2>(6, 16));
    assert!(!engine_v3::prove_impossible::<2>(6, 17));
}

#[test]
fn v2_exists_agrees_with_naive() {
    for n in 0..=7 {
        for max_len in 0..=30 {
            assert_eq!(engine_v2::exists_ruler::<1>(n, max_len), naive::exists_ruler(n, max_len), "n={}, max_len={}", n, max_len);
        }
    }
}

#[test]
fn dispatched_engines_pick_a_width() {
    let r = engine_v2::find_dispatched(8, 34).unwrap();
    assert_eq!(*r.last().unwrap(), 34);
    assert!(engine_v2::exists_dispatched(8, 34));
    assert!(!engine_v2::exists_dispatched(8, 33));
    let (len, marks) = engine_v3::find_optimal_dispatched(9, 60).unwrap();
    assert_eq!(len, 44);
    assert_eq!(*marks.last().unwrap(), 44);
    assert!(engine_v3::prove_impossible_dispatched(9, 43));
    assert!(!engine_v3::prove_impossible_dispatched(9, 44));
    assert_eq!(*engine_v3::find_dispatched(7, 25).unwrap().last().unwrap(), 25);
}

#[test]
fn v3_result_is_shorter_than_start_and_mirror_free() {
    let (len, marks) = engine_v3::find_optimal::<1>(7, 40).unwrap();
    assert_eq!(len, 25);
    assert_eq!(marks[0], 0);
    assert_eq!(marks.len(), 7);
    assert!(marks[1] - marks[0] < marks[6] - marks[5]);
    assert!(engine_v3::find_optimal::<1>(7, 24).is_none());
    assert_eq!(engine_v3::find_optimal::<1>(1, 5), Some((0, vec![0])));
    assert_eq!(engine_v3::find_optimal::<1>(0, 5), Some((0, vec![])));
}

#[test]
fn prove_impossible_is_the_negation_of_existence() {
    for n in 0..=7 {
        for max_len in 0..=26 {
            assert_eq!(engine_v3::prove_impossible::<1>(n, max_len), !naive::exists_ruler(n, max_len), "n={}, max_len={}", n, max_len);
        }
    }
}

fn v4_serial_optimal<const W: usize>(n: usize, start_bound: u32) -> Option<(u32, Vec<u32>)> {
    let stubs = generate_stubs::<W>(n, start_bound);
    let mut best: Option<(u32, Vec<u32>)> = None;
    let mut local_best = start_bound + 1;
    for (state, gaps) in stubs {
        let mut gaps = gaps;
        let mut found = None;
        dfs_serial(state, n, &mut local_best, &mut gaps, &mut found);
        if let Some((len, marks)) = found {
            offer(&mut best, len, marks);
        }
    }
    best
}

#[test]
fn v4_serial_search_finds_optimal_rulers() {
    for n in 2..=10 {
        let expected = optimal_length(n).unwrap();
        let (len, marks) = v4_serial_optimal::<2>(n, expected + 5).unwrap();
        assert_eq!(len, expected, "OGR-{}", n);
        assert_eq!(*marks.last().unwrap(), len);
        assert_eq!(marks.len(), n);
        assert!(verify_golomb(&marks));
    }
    let (len, marks) = v4_serial_optimal::<1>(10, 55).unwrap();
    assert_eq!(len, 55);
    assert_eq!(*marks.last().unwrap(), 55);
    assert!(v4_serial_optimal::<1>(10, 54).is_none());
}

#[test]
fn offer_keeps_only_shorter_rulers() {
    let mut record: Option<(u32, Vec<u32>)> = None;
    assert!(offer(&mut record, 10, vec![0, 10]));
    assert!(!offer(&mut record, 12, vec![0, 12]));
    assert_eq!(record, Some((10, vec![0, 10])));
    assert!(offer(&mut record, 6, vec![0, 6]));
    assert_eq!(record, Some((6, vec![0, 6])));
    assert!(!offer(&mut record, 6, vec![0, 1, 6]));
    assert_eq!(record, Some((6, vec![0, 6])));
}

#[test]
fn v2_returns_the_same_ruler_as_naive() {
    for n in 0..=8 {
        for max_len in 0..=40 {
            assert_eq!(engine_v2::find::<1>(n, max_len), naive::find(n, max_len), "n={}, max_len={}", n, max_len);
        }
    }
    assert_eq!(engine_v2::find::<1>(4, 6), Some(vec![0, 1, 4, 6]));
}

#[test]
fn v3_find_returns_a_shortest_ruler() {
    for n in 2..=9 {
        let expected = optimal_length(n).unwrap();
        let marks = engine_v3::find::<1>(n, expected + 6).unwrap();
        assert_eq!(*marks.last().unwrap(), expected, "OGR-{}", n);
        assert_eq!(marks.len(), n);
        assert!(verify_golomb(&marks));
        let (len, opt) = engine_v3::find_optimal::<1>(n, expected + 6).unwrap();
        assert_eq!(len, expected);
        assert_eq!(opt, marks);
    }
}

#[test]
fn stubs_are_sorted_and_at_the_split_depth() {
    for (n, depth) in [(5usize, 2usize), (8, 3), (13, 4)] {
        let max_len = optimal_length(n).unwrap();
        let stubs = generate_stubs::<2>(n, max_len);
        assert!(!stubs.is_empty());
        for w in stubs.windows(2) {
            assert!(w[0].0.pos <= w[1].0.pos);
        }
        for (state, gaps) in &stubs {
            assert_eq!(state.depth, depth, "n={}", n);
            assert_eq!(gaps.len(), n - 1);
            assert!(state.pos <= max_len);
        }
    }
}

#[test]
fn stubs_fall_back_to_the_first_mark_when_nothing_fits() {
    let stubs = generate_stubs::<1>(6, 3);
    assert_eq!(stubs.len(), 1);
    assert_eq!(stubs[0].0.depth, 1);
    assert_eq!(stubs[0].0.pos, 0);
}
