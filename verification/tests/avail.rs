use golomb_vanguard::avail::AvailDistances;
use golomb_vanguard::bitmap::Bitmap;

#[test]
fn test_avail_from_bitmap() {
    let mut bm: Bitmap<2> = Bitmap::zero();
    bm.set_bit(1);
    bm.set_bit(2);
    bm.set_bit(3);
    let avail = AvailDistances::from_bitmap(&bm, 5, 100);
    assert_eq!(avail.count(), 5);
    assert_eq!(avail.dist(0), 4);
    assert_eq!(avail.dist(1), 5);
    assert_eq!(avail.sum_k(3).unwrap(), 4 + 5 + 6);
}

#[test]
fn test_avail_without() {
    let mut bm: Bitmap<2> = Bitmap::zero();
    bm.set_bit(1);
    bm.set_bit(3);
    let base = AvailDistances::from_bitmap(&bm, 5, 100);

    let mut nb: Bitmap<2> = Bitmap::zero();
    nb.set_bit(4);
    nb.set_bit(6);
    let filtered = AvailDistances::without_bitmap(&base, &nb);
    assert_eq!(filtered.dist(0), 2);
    assert_eq!(filtered.dist(1), 5);
    assert_eq!(filtered.dist(2), 7);
    assert_eq!(filtered.sum_k(2).unwrap(), 2 + 5);
}

#[test]
fn test_avail_matches_scan() {
    let mut bm: Bitmap<2> = Bitmap::zero();
    bm.set_bit(1);
    bm.set_bit(5);
    bm.set_bit(10);

    let base = AvailDistances::from_bitmap(&bm, 10, 50);

    let mut nb: Bitmap<2> = Bitmap::zero();
    nb.set_bit(3);
    nb.set_bit(7);

    let filtered = AvailDistances::without_bitmap(&base, &nb);

    let mut test = bm;
    test |= nb;
    let scan_sum = test.sum_smallest_unset(5, 50).unwrap();

    assert_eq!(filtered.sum_k(5).unwrap(), scan_sum);
}

#[test]
fn avail_sum_k_beyond_count_is_none() {
    let mut bm: Bitmap<1> = Bitmap::zero();
    bm.set_bit(1);
    let avail = AvailDistances::from_bitmap(&bm, 3, 4);
    assert_eq!(avail.count(), 3);
    assert_eq!(avail.sum_k(0), Some(0));
    assert_eq!(avail.sum_k(3), Some(2 + 3 + 4));
    assert_eq!(avail.sum_k(4), None);
}

#[test]
fn avail_keeps_at_most_thirty() {
    let bm: Bitmap<2> = Bitmap::zero();
    let avail = AvailDistances::from_bitmap(&bm, 100, 120);
    assert_eq!(avail.count(), golomb_vanguard::avail::MAX_AVAIL);
    assert_eq!(avail.dist(29), 30);
}
