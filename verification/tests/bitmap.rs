use golomb_vanguard::bitmap::Bitmap;

#[test]
fn test_set_get_bit() {
    let mut bm: Bitmap<2> = Bitmap::zero();
    assert!(!bm.get_bit(0));
    assert!(!bm.get_bit(100));

    bm.set_bit(0);
    bm.set_bit(63);
    bm.set_bit(64);
    bm.set_bit(127);

    assert!(bm.get_bit(0));
    assert!(bm.get_bit(63));
    assert!(bm.get_bit(64));
    assert!(bm.get_bit(127));
    assert!(!bm.get_bit(1));
    assert!(!bm.get_bit(62));
}

#[test]
fn test_shl_zero() {
    let mut bm: Bitmap<2> = Bitmap::zero();
    bm.set_bit(0);
    bm.set_bit(5);
    bm.set_bit(63);

    let shifted = bm.shl(0);
    assert_eq!(shifted, bm);
}

#[test]
fn test_shl_small() {
    let mut bm: Bitmap<2> = Bitmap::zero();
    bm.set_bit(0);
    let shifted = bm.shl(3);
    assert!(shifted.get_bit(3));
    assert!(!shifted.get_bit(0));
}

#[test]
fn test_shl_cross_word() {
    let mut bm: Bitmap<2> = Bitmap::zero();
    bm.set_bit(62);
    let shifted = bm.shl(3);
    assert!(!shifted.get_bit(62));
    assert!(shifted.get_bit(65));
}

#[test]
fn test_shl_word_aligned() {
    let mut bm: Bitmap<2> = Bitmap::zero();
    bm.set_bit(0);
    bm.set_bit(5);
    let shifted = bm.shl(64);
    assert!(!shifted.get_bit(0));
    assert!(!shifted.get_bit(5));
    assert!(shifted.get_bit(64));
    assert!(shifted.get_bit(69));
}

#[test]
fn test_shl_beyond_size() {
    let mut bm: Bitmap<2> = Bitmap::zero();
    bm.set_bit(0);
    let shifted = bm.shl(128);
    assert!(shifted.is_zero());
}

#[test]
fn test_shl_large_gap() {
    let mut bm: Bitmap<5> = Bitmap::zero();
    bm.set_bit(0);
    bm.set_bit(10);
    bm.set_bit(50);

    let shifted = bm.shl(130);
    assert!(shifted.get_bit(130));
    assert!(shifted.get_bit(140));
    assert!(shifted.get_bit(180));
    assert!(!shifted.get_bit(0));
    assert!(!shifted.get_bit(10));
}

#[test]
fn test_intersects() {
    let mut a: Bitmap<2> = Bitmap::zero();
    let mut b: Bitmap<2> = Bitmap::zero();
    assert!(!a.intersects(&b));

    a.set_bit(5);
    b.set_bit(10);
    assert!(!a.intersects(&b));

    b.set_bit(5);
    assert!(a.intersects(&b));
}

#[test]
fn test_iter_set_bits() {
    let mut bm: Bitmap<2> = Bitmap::zero();
    bm.set_bit(0);
    bm.set_bit(3);
    bm.set_bit(64);
    bm.set_bit(100);

    let bits: Vec<u32> = bm.iter_set_bits().collect();
    assert_eq!(bits, vec![0, 3, 64, 100]);
}

#[test]
fn test_sum_smallest_unset() {
    let mut bm: Bitmap<2> = Bitmap::zero();
    bm.set_bit(1);
    bm.set_bit(2);
    bm.set_bit(3);
    bm.set_bit(4);
    let sum = bm.sum_smallest_unset(3, 100).unwrap();
    assert_eq!(sum, 5 + 6 + 7);
}

#[test]
fn test_shl_into_vs_shl() {
    let mut bm: Bitmap<5> = Bitmap::zero();
    bm.set_bit(0);
    bm.set_bit(7);
    bm.set_bit(42);
    bm.set_bit(63);
    bm.set_bit(100);
    bm.set_bit(200);

    for g in [0, 1, 2, 7, 63, 64, 65, 127, 128, 130, 200, 319] {
        let expected = bm.shl(g);
        let mut actual = Bitmap::<5>::zero();
        bm.shl_into(g, &mut actual);
        assert_eq!(actual, expected, "Mismatch at g={}", g);
    }
}

#[test]
fn clear_bit_undoes_set_bit() {
    let mut bm: Bitmap<2> = Bitmap::zero();
    bm.set_bit(70);
    bm.set_bit(3);
    bm.clear_bit(70);
    assert!(!bm.get_bit(70));
    assert!(bm.get_bit(3));
    bm.clear_bit(3);
    assert_eq!(bm, Bitmap::<2>::zero());
    assert!(bm.is_zero());
}

#[test]
fn count_ones_counts_set_bits() {
    let mut bm: Bitmap<2> = Bitmap::zero();
    assert_eq!(bm.count_ones(), 0);
    bm.set_bit(0);
    bm.set_bit(3);
    bm.set_bit(64);
    bm.set_bit(100);
    bm.set_bit(127);
    assert_eq!(bm.count_ones(), 5);
}

#[test]
fn ctz_finds_lowest_set_bit() {
    let mut bm: Bitmap<2> = Bitmap::zero();
    assert_eq!(bm.ctz(), None);
    bm.set_bit(100);
    assert_eq!(bm.ctz(), Some(100));
    bm.set_bit(64);
    assert_eq!(bm.ctz(), Some(64));
    bm.set_bit(5);
    assert_eq!(bm.ctz(), Some(5));
}

#[test]
fn shr_moves_bits_down() {
    let mut bm: Bitmap<2> = Bitmap::zero();
    bm.set_bit(3);
    bm.set_bit(70);
    bm.set_bit(127);
    let r = bm.shr(4);
    let bits: Vec<u32> = r.iter_set_bits().collect();
    assert_eq!(bits, vec![66, 123]);
    let r = bm.shr(64);
    let bits: Vec<u32> = r.iter_set_bits().collect();
    assert_eq!(bits, vec![6, 63]);
    assert!(bm.shr(128).is_zero());
}

#[test]
fn shl_one_matches_shl_by_one() {
    let mut bm: Bitmap<2> = Bitmap::zero();
    bm.set_bit(0);
    bm.set_bit(63);
    bm.set_bit(126);
    bm.set_bit(127);
    let expected = bm.shl(1);
    bm.shl_one();
    assert_eq!(bm, expected);
    let bits: Vec<u32> = bm.iter_set_bits().collect();
    assert_eq!(bits, vec![1, 64, 127]);
}

#[test]
fn bit_operators_act_bitwise() {
    let mut a: Bitmap<2> = Bitmap::zero();
    let mut b: Bitmap<2> = Bitmap::zero();
    a.set_bit(1);
    a.set_bit(65);
    b.set_bit(65);
    b.set_bit(100);
    let or: Vec<u32> = (a | b).iter_set_bits().collect();
    assert_eq!(or, vec![1, 65, 100]);
    let and: Vec<u32> = (a & b).iter_set_bits().collect();
    assert_eq!(and, vec![65]);
    let not_a = !a;
    assert!(!not_a.get_bit(1));
    assert!(not_a.get_bit(0));
    assert_eq!(not_a.count_ones(), 126);
    let mut c = a;
    c |= b;
    assert_eq!(c, a | b);
    assert_eq!(Bitmap::<2>::default(), Bitmap::<2>::zero());
}

#[test]
fn one_holds_bit_zero() {
    let bm = Bitmap::<3>::one();
    let bits: Vec<u32> = bm.iter_set_bits().collect();
    assert_eq!(bits, vec![0]);
}

#[test]
fn collect_smallest_unset_lists_clear_positions() {
    let mut bm: Bitmap<2> = Bitmap::zero();
    bm.set_bit(1);
    bm.set_bit(3);
    bm.set_bit(4);
    let mut out = [0u32; 4];
    let count = bm.collect_smallest_unset(4, 100, &mut out);
    assert_eq!(count, 4);
    assert_eq!(out, [2, 5, 6, 7]);
    let count = bm.collect_smallest_unset(4, 5, &mut out);
    assert_eq!(count, 2);
    assert_eq!(&out[..2], &[2, 5]);
}

#[test]
fn sum_smallest_unset_without_enough_room() {
    let mut bm: Bitmap<1> = Bitmap::zero();
    bm.set_bit(1);
    bm.set_bit(2);
    assert_eq!(bm.sum_smallest_unset(2, 4), Some(3 + 4));
    assert_eq!(bm.sum_smallest_unset(3, 4), None);
    assert_eq!(bm.sum_smallest_unset(0, 4), Some(0));
}
