use vstd::prelude::*;
use crate::bitmap::{Bitmap, BitmapIter, unset_list, scan_end, lemma_sum_take_mono, lemma_view_len};
use crate::bounds::{lists_smallest, lemma_smallest_is_prefix};
use crate::positions::{seq_sum, lemma_sum_push, lemma_sum_take_push, lemma_positions_members};

verus! {

broadcast use {vstd::array::group_array_axioms, vstd::slice::group_slice_axioms, lemma_view_len};

/// Maximum number of available distances tracked.
pub const MAX_AVAIL: usize = 30;

/// Sorted array of the smallest available distances, with prefix sums for quick
/// sums of the `k` smallest.
#[derive(Clone, Copy)]
pub struct AvailDistances {
    dists: [u32; MAX_AVAIL],
    prefix: [u32; MAX_AVAIL],
    count: usize,
}

impl View for AvailDistances {
    type V = Seq<int>;

    /// The tracked distances, ascending.
    closed spec fn view(&self) -> Seq<int> {
        Seq::new(self.count as nat, |i: int| self.dists@[i] as int)
    }
}

impl AvailDistances {
    /// At most `MAX_AVAIL` positive distances, strictly ascending, with their prefix sums.
    pub closed spec fn wf(self) -> bool {
        &&& self.count <= MAX_AVAIL
        &&& forall|i: int, j: int| 0 <= i < j < self.count ==> self.dists@[i] < self.dists@[j]
        &&& forall|i: int| 0 <= i < self.count ==> self.dists@[i] >= 1
        &&& forall|i: int| 0 <= i < self.count ==> self.prefix@[i] == seq_sum(self@.take(i + 1))
    }

    /// The view of a well-formed value is ascending and positive.
    pub proof fn lemma_wf(self)
        requires
            self.wf(),
        ensures
            self@.len() <= MAX_AVAIL,
            forall|i: int, j: int| 0 <= i < j < self@.len() ==> self@[i] < self@[j],
            forall|i: int| 0 <= i < self@.len() ==> 1 <= #[trigger] self@[i] <= u32::MAX,
    {
    }

    /// Build from a bitmap: the smallest `min(max_k, MAX_AVAIL)` clear positions in `[1, max_bit]`.
    pub fn from_bitmap<const W: usize>(bitmap: &Bitmap<W>, max_k: usize, max_bit: usize) -> (r: Self)
        requires
            max_bit < usize::MAX,
            64 * W <= u32::MAX,
            seq_sum(unset_list(*bitmap, max_bit as int).take(avail_cap(*bitmap, max_k, max_bit))) <= u32::MAX,
        ensures
            r.wf(),
            r@ == unset_list(*bitmap, max_bit as int).take(avail_cap(*bitmap, max_k, max_bit)),
    {
        let ghost full = unset_list(*bitmap, max_bit as int);
        let ghost cap = avail_cap(*bitmap, max_k, max_bit);
        let mut dists = [0u32; MAX_AVAIL];
        let count = bitmap.collect_smallest_unset(max_k.min(MAX_AVAIL), max_bit, &mut dists);
        proof {
            crate::positions::lemma_positions_members(
                (*bitmap)@,
                false,
                1,
                crate::bitmap::scan_end(W as int, max_bit as int),
            );
        }
        assert(count == cap);
        let mut prefix = [0u32; MAX_AVAIL];
        let mut sum = 0u32;
        let mut i: usize = 0;
        while i < count
            invariant
                count == cap,
                cap <= MAX_AVAIL,
                cap <= full.len(),
                seq_sum(full.take(cap)) <= u32::MAX,
                forall|j: int| 0 <= j < full.len() ==> #[trigger] full[j] >= 1,
                forall|j: int| 0 <= j < count ==> dists@[j] == full[j],
                i <= count,
                sum == seq_sum(full.take(i as int)),
                forall|j: int| 0 <= j < i ==> prefix@[j] == seq_sum(full.take(j + 1)),
            decreases count - i,
        {
            proof {
                lemma_sum_take_push(full, i as int);
                lemma_sum_take_mono(full, i + 1, cap);
            }
            sum += dists[i];
            prefix[i] = sum;
            i += 1;
        }
        let r = Self { dists, prefix, count };
        proof {
            assert(r@ =~= full.take(cap));
            assert forall|j: int| 0 <= j < r.count implies r.prefix@[j] == seq_sum(r@.take(j + 1)) by {
                assert(r@.take(j + 1) =~= full.take(j + 1));
            }
        }
        r
    }

    /// The distances of `base` without those whose bit is set in `newbits`.
    pub fn without_bitmap<const W: usize>(base: &Self, newbits: &Bitmap<W>) -> (r: Self)
        requires
            base.wf(),
            64 * W <= u32::MAX,
        ensures
            r.wf(),
            forall|x: int| r@.contains(x) <==> (base@.contains(x) && !(0 <= x < 64 * W && newbits@[x])),
    {
        let mut result = *base;
        let mut it = newbits.iter_set_bits();
        loop
            invariant
                result.wf(),
                base.wf(),
                it.wf(),
                it.bits() == newbits@,
                64 * W <= u32::MAX,
                0 <= it.pos() <= 64 * W,
                forall|x: int| result@.contains(x) <==> (base@.contains(x) && !(0 <= x < it.pos() && newbits@[x])),
            decreases 64 * W - it.pos(),
        {
            let ghost p = it.pos();
            match it.next() {
                Some(bit) => {
                    proof {
                        base.lemma_wf();
                    }
                    if bit == 0 {
                        proof {
                            assert forall|x: int| result@.contains(x) <==> (base@.contains(x) && !(0 <= x < it.pos() && newbits@[x])) by {
                                if base@.contains(x) {
                                    let i = choose|i: int| 0 <= i < base@.len() && base@[i] == x;
                                    assert(base@[i] >= 1);
                                }
                            }
                        }
                        continue;
                    }
                    let ghost before = result@;
                    result.remove_sorted(bit);
                    proof {
                        assert forall|x: int| result@.contains(x) <==> (base@.contains(x) && !(0 <= x < it.pos() && newbits@[x])) by {
                            assert(before.contains(x) <==> (base@.contains(x) && !(0 <= x < p && newbits@[x])));
                        }
                    }
                },
                None => {
                    return result;
                },
            }
        }
    }

    /// Sum of the `k` smallest tracked distances, or `None` when fewer than `k` are tracked.
    pub fn sum_k(&self, k: usize) -> (r: Option<u32>)
        requires
            self.wf(),
        ensures
            r == if k <= self@.len() { Some(seq_sum(self@.take(k as int)) as u32) } else { None::<u32> },
    {
        if k == 0 {
            assert(self@.take(0) =~= Seq::<int>::empty());
            return Some(0);
        }
        if k > self.count {
            return None;
        }
        Some(self.prefix[k - 1])
    }

    /// The `i`-th smallest tracked distance.
    pub fn dist(&self, i: usize) -> (r: u32)
        requires
            self.wf(),
            i < self@.len(),
        ensures
            r == self@[i as int],
    {
        self.dists[i]
    }

    /// Number of tracked distances.
    pub fn count(&self) -> (r: usize)
        ensures
            r == self@.len(),
    {
        self.count
    }

    /// Remove `val` from the tracked distances, if present, and fix the prefix sums.
    fn remove_sorted(&mut self, val: u32)
        requires
            old(self).wf(),
        ensures
            final(self).wf(),
            forall|x: int| final(self)@.contains(x) <==> (old(self)@.contains(x) && x != val),
    {
        let ghost old_view = self@;
        let mut lo = 0usize;
        let mut hi = self.count;
        let mut found = false;
        let mut at: usize = 0;
        while lo < hi
            invariant_except_break
                !found,
                forall|i: int| hi <= i < self.count ==> self.dists@[i] > val,
            invariant
                *self == *old(self),
                self.wf(),
                lo <= hi <= self.count,
                forall|i: int| 0 <= i < lo ==> self.dists@[i] < val,
            ensures
                lo <= self.count,
                forall|i: int| 0 <= i < lo ==> self.dists@[i] < val,
                found ==> lo <= at < self.count && *self == *old(self) && self.dists@[at as int] == val,
                !found ==> *self == *old(self) && forall|i: int| 0 <= i < self.count ==> self.dists@[i] != val,
            decreases hi - lo,
        {
            let mid = lo + (hi - lo) / 2;
            if self.dists[mid] == val {
                at = mid;
                found = true;
                break;
            } else if self.dists[mid] < val {
                lo = mid + 1;
            } else {
                hi = mid;
            }
        }
        if found {
            let count = self.count;
            let mut i = at;
            let ghost d0 = self.dists@;
            while i + 1 < count
                invariant
                    count == self.count,
                    count == old(self).count,
                    count <= MAX_AVAIL,
                    at <= i < count,
                    self.prefix == old(self).prefix,
                    forall|j: int| 0 <= j < at ==> self.dists@[j] == d0[j],
                    forall|j: int| at <= j < i ==> self.dists@[j] == d0[j + 1],
                    forall|j: int| i <= j < count ==> self.dists@[j] == d0[j],
                decreases count - i,
            {
                self.dists[i] = self.dists[i + 1];
                i += 1;
            }
            self.count -= 1;
            let ghost nv = self@;
            proof {
                assert(nv =~= old_view.remove(at as int));
            }
            let mut sum = if lo > 0 { self.prefix[lo - 1] } else { 0u32 };
            let mut i = lo;
            proof {
                assert forall|j: int| 1 <= j <= lo implies #[trigger] nv.take(j) == old_view.take(j) by {
                    assert(nv.take(j) =~= old_view.take(j));
                }
                assert forall|j: int| 1 <= j <= old_view.len() implies seq_sum(#[trigger] old_view.take(j)) <= u32::MAX by {
                    assert(old(self).prefix@[j - 1] == seq_sum(old_view.take(j)));
                }
                if lo > 0 {
                    assert(old_view.take(lo as int) =~= nv.take(lo as int));
                } else {
                    assert(nv.take(0) =~= Seq::<int>::empty());
                }
                lemma_sum_take_mono_view(old_view, nv, at as int);
            }
            while i < self.count
                invariant
                    self.count == count - 1,
                    count <= MAX_AVAIL,
                    self@ == nv,
                    nv == old_view.remove(at as int),
                    0 <= at < count,
                    lo <= at,
                    lo <= i <= self.count,
                    forall|j: int| 1 <= j <= nv.len() ==> seq_sum(#[trigger] nv.take(j)) <= u32::MAX,
                    sum == seq_sum(nv.take(i as int)),
                    forall|j: int| 0 <= j < lo ==> self.prefix@[j] == old(self).prefix@[j],
                    forall|j: int| 0 <= j < lo ==> old(self).prefix@[j] == seq_sum(old_view.take(j + 1)),
                    forall|j: int| 1 <= j <= lo ==> #[trigger] nv.take(j) == old_view.take(j),
                    forall|j: int| lo <= j < i ==> self.prefix@[j] == seq_sum(nv.take(j + 1)),
                decreases self.count - i,
            {
                proof {
                    lemma_sum_take_push(nv, i as int);
                }
                sum += self.dists[i];
                self.prefix[i] = sum;
                i += 1;
            }
            proof {
                assert forall|j: int| 0 <= j < self.count implies self.prefix@[j] == seq_sum(self@.take(j + 1)) by {
                    if j < lo {
                        assert(nv.take(j + 1) == old_view.take(j + 1));
                        assert(old(self).prefix@[j] == seq_sum(old_view.take(j + 1)));
                    }
                }
                assert forall|a: int, b: int| 0 <= a < b < self.count implies self.dists@[a] < self.dists@[b] by {
                    assert(self.dists@[a] == nv[a] && self.dists@[b] == nv[b]);
                    let oa = if a < at { a } else { a + 1 };
                    let ob = if b < at { b } else { b + 1 };
                    assert(nv[a] == old_view[oa] && nv[b] == old_view[ob]);
                    assert(old(self).dists@[oa] < old(self).dists@[ob]);
                }
                assert forall|a: int| 0 <= a < self.count implies self.dists@[a] >= 1 by {
                    let oa = if a < at { a } else { a + 1 };
                    assert(self.dists@[a] == nv[a] && nv[a] == old_view[oa]);
                }
                assert forall|x: int| self@.contains(x) <==> (old_view.contains(x) && x != val) by {
                    if old_view.contains(x) && x != val {
                        let k = choose|k: int| 0 <= k < old_view.len() && old_view[k] == x;
                        if k < at {
                            assert(nv[k] == x);
                        } else {
                            assert(k != at);
                            assert(nv[k - 1] == x);
                        }
                    }
                    if self@.contains(x) {
                        let k = choose|k: int| 0 <= k < nv.len() && nv[k] == x;
                        if k < at {
                            assert(old_view[k] == x);
                            assert(old_view[k] < old_view[at as int]);
                        } else {
                            assert(old_view[k + 1] == x);
                            assert(old_view[at as int] < old_view[k + 1]);
                        }
                    }
                }
            }
        }
    }
}

/// Incremental filtering agrees with a full scan: the cached smallest clear positions of
/// `bitmap`, less those set in `newbits`, begin with the smallest clear positions of
/// `combined = bitmap | newbits`, so the first `k` survivors are its `k` smallest.
pub proof fn lemma_incremental_matches_scan<const W: usize>(
    bitmap: Bitmap<W>,
    newbits: Bitmap<W>,
    combined: Bitmap<W>,
    max_k: usize,
    max_bit: usize,
    base: AvailDistances,
    filtered: AvailDistances,
    k: int,
)
    requires
        forall|i: int| 0 <= i < 64 * W ==> #[trigger] combined@[i] == (bitmap@[i] || newbits@[i]),
        base.wf(),
        base@ == unset_list(bitmap, max_bit as int).take(avail_cap(bitmap, max_k, max_bit)),
        filtered.wf(),
        forall|x: int| filtered@.contains(x) <==> (base@.contains(x) && !(0 <= x < 64 * W && newbits@[x])),
        0 <= k <= filtered@.len(),
    ensures
        filtered@.take(k) == unset_list(combined, max_bit as int).take(k),
{
    let hi = scan_end(W as int, max_bit as int);
    let u = unset_list(bitmap, max_bit as int);
    let c = unset_list(combined, max_bit as int);
    let f = filtered@;
    let cap = avail_cap(bitmap, max_k, max_bit);
    let p = |v: int| c.contains(v);
    lemma_positions_members(bitmap@, false, 1, hi);
    lemma_positions_members(combined@, false, 1, hi);
    filtered.lemma_wf();
    base.lemma_wf();
    assert forall|i: int| 0 <= i < f.len() implies #[trigger] p(f[i]) by {
        assert(f.contains(f[i]));
        assert(base@.contains(f[i]));
        let t = choose|t: int| 0 <= t < base@.len() && base@[t] == f[i];
        assert(base@[t] == u[t]);
        assert(u.contains(u[t]));
        assert(!combined@[f[i]]);
    }
    assert forall|v: int, j: int| 0 <= j < f.len() && #[trigger] p(v) && v <= #[trigger] f[j] implies f.take(j + 1).contains(v) by {
        assert(f.contains(f[j]));
        let t = choose|t: int| 0 <= t < base@.len() && base@[t] == f[j];
        assert(base@[t] == u[t]);
        assert(1 <= v < hi && !combined@[v]);
        assert(!bitmap@[v] && !newbits@[v]);
        assert(u.contains(v));
        let t2 = choose|t2: int| 0 <= t2 < u.len() && u[t2] == v;
        if t2 > t {
            assert(u[t] < u[t2]);
        }
        assert(base@[t2] == u[t2]);
        assert(base@.contains(v));
        assert(f.contains(v));
        let j2 = choose|j2: int| 0 <= j2 < f.len() && f[j2] == v;
        if j2 > j {
            assert(f[j] < f[j2]);
        }
        assert(f.take(j + 1)[j2] == v);
    }
    assert(lists_smallest(f, p));
    lemma_smallest_is_prefix(f, c);
    assert(f.take(k) =~= c.take(k));
}

/// How many distances `from_bitmap` keeps: `min(max_k, MAX_AVAIL, available count)`.
pub open spec fn avail_cap<const W: usize>(bitmap: Bitmap<W>, max_k: usize, max_bit: usize) -> int {
    let k = if max_k < MAX_AVAIL { max_k as int } else { MAX_AVAIL as int };
    let n = unset_list(bitmap, max_bit as int).len() as int;
    if k < n {
        k
    } else {
        n
    }
}

/// Removing an element from a positive list keeps every prefix sum within the
/// bound that held before the removal.
proof fn lemma_sum_take_mono_view(old_view: Seq<int>, nv: Seq<int>, at: int)
    requires
        0 <= at < old_view.len(),
        nv == old_view.remove(at as int),
        forall|j: int| 0 <= j < old_view.len() ==> 1 <= #[trigger] old_view[j] <= u32::MAX,
        forall|j: int| 1 <= j <= old_view.len() ==> seq_sum(#[trigger] old_view.take(j)) <= u32::MAX,
    ensures
        forall|j: int| 1 <= j <= nv.len() ==> seq_sum(#[trigger] nv.take(j)) <= u32::MAX,
{
    assert forall|j: int| 1 <= j <= nv.len() implies seq_sum(#[trigger] nv.take(j)) <= u32::MAX by {
        if j <= at {
            assert(nv.take(j) =~= old_view.take(j));
        } else {
            assert(nv.take(j) =~= old_view.take(j + 1).remove(at));
            crate::positions::lemma_sum_remove(old_view.take(j + 1), at);
            assert(seq_sum(old_view.take(j + 1)) <= u32::MAX);
        }
    }
}

} // verus!
