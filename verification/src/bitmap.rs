use vstd::prelude::*;
use std::ops::{BitAnd, BitOr, BitOrAssign, Not};
use crate::bits::{
    word_bit, lemma_bit_zero, lemma_bit_or, lemma_bit_and, lemma_bit_not, lemma_bit_single,
    lemma_bit_shl, lemma_bit_shr, lemma_word_zero, lemma_trailing_zeros, lemma_clear_lowest,
    lemma_bit_low_mask,
};
use crate::positions::{
    positions, seq_sum, lemma_positions_step, lemma_positions_skip, lemma_positions_members,
    lemma_positions_prefix, lemma_sum_push,
};

verus! {

broadcast use {vstd::array::group_array_axioms, vstd::slice::group_slice_axioms};

/// Multi-word bitmap of `64 * W` bits.
#[derive(Clone, Copy, Debug, PartialEq, Eq)]
pub struct Bitmap<const W: usize> {
    words: [u64; W],
}

/// Bit `i` of a word array, counting word 0 first.
pub open spec fn words_bit<const W: usize>(words: [u64; W], i: int) -> bool {
    word_bit(words@[i / 64], (i % 64) as u64)
}

impl<const W: usize> View for Bitmap<W> {
    type V = Seq<bool>;

    /// The bits of the bitmap, bit 0 first.
    closed spec fn view(&self) -> Seq<bool> {
        Seq::new((64 * W) as nat, |i: int| words_bit(self.words, i))
    }
}

/// The bits of `s` moved `g` places up; bits moved past the end are lost.
pub open spec fn shifted(s: Seq<bool>, g: int) -> Seq<bool> {
    Seq::new(s.len(), |i: int| i >= g && s[i - g])
}

/// The bitmap whose bits are `bits`.
pub open spec fn with_bits<const W: usize>(bits: Seq<bool>) -> Bitmap<W> {
    choose|r: Bitmap<W>| r@ == bits
}

proof fn lemma_word_eq(a: u64, b: u64)
    requires
        forall|j: u64| j < 64 ==> #[trigger] word_bit(a, j) == word_bit(b, j),
    ensures
        a == b,
{
    assert forall|j: u64| j < 64 implies !#[trigger] word_bit(a ^ b, j) by {
        assert(word_bit(a, j) == word_bit(b, j));
        lemma_bit_xor_eq(a, b, j);
    }
    lemma_word_zero(a ^ b);
    assert(a ^ b == 0 ==> a == b) by (bit_vector);
}

proof fn lemma_bit_xor_eq(a: u64, b: u64, j: u64)
    by (bit_vector)
    requires
        j < 64,
        word_bit(a, j) == word_bit(b, j),
    ensures
        !word_bit(a ^ b, j),
{
}

/// A bitmap is determined by its bits.
pub proof fn lemma_view_injective<const W: usize>(a: Bitmap<W>, b: Bitmap<W>)
    requires
        a@ == b@,
    ensures
        a == b,
{
    assert forall|k: int| 0 <= k < W implies a.words@[k] == b.words@[k] by {
        assert forall|j: u64| j < 64 implies #[trigger] word_bit(a.words@[k], j) == word_bit(b.words@[k], j) by {
            let i = k * 64 + j;
            assert(i / 64 == k && i % 64 == j);
            assert(0 <= i < 64 * W);
            assert(a@[i] == words_bit(a.words, i));
            assert(b@[i] == words_bit(b.words, i));
            assert(a@[i] == b@[i]);
        }
        lemma_word_eq(a.words@[k], b.words@[k]);
    }
    assert(a.words =~= b.words);
}

/// End (exclusive) of the positions `[1, max_bit]` that a bitmap of `64 * W` bits holds.
pub open spec fn scan_end(w: int, max_bit: int) -> int {
    if max_bit + 1 < 64 * w {
        max_bit + 1
    } else {
        64 * w
    }
}

/// The clear positions in `[1, max_bit]` of the bitmap, ascending.
pub open spec fn unset_list<const W: usize>(bm: Bitmap<W>, max_bit: int) -> Seq<int> {
    positions(bm@, false, 1, scan_end(W as int, max_bit))
}

/// Partial sums of positive values grow with the prefix length.
pub proof fn lemma_sum_take_mono(s: Seq<int>, i: int, j: int)
    requires
        0 <= i <= j <= s.len(),
        forall|k: int| 0 <= k < s.len() ==> s[k] >= 1,
    ensures
        seq_sum(s.take(i)) <= seq_sum(s.take(j)),
        i < j ==> seq_sum(s.take(i)) < seq_sum(s.take(j)),
    decreases j - i,
{
    if i < j {
        lemma_sum_take_mono(s, i, j - 1);
        assert(s.take(j).drop_last() =~= s.take(j - 1));
    }
}

proof fn lemma_clear_lowest_smaller(u: u64)
    by (bit_vector)
    requires
        u != 0,
    ensures
        (u & ((u - 1) as u64)) < u,
{
}

/// How many entries of `s` are `true`.
pub open spec fn count_true(s: Seq<bool>) -> nat
    decreases s.len(),
{
    if s.len() == 0 {
        0
    } else {
        count_true(s.drop_last()) + if s.last() { 1nat } else { 0nat }
    }
}

/// How many of the 64 bits of `w` are set.
pub open spec fn popcount(w: u64) -> nat {
    count_true(Seq::new(64, |j: int| word_bit(w, j as u64)))
}

/// Calls std's `u64::count_ones`, whose documentation says it returns the number of ones
/// in the binary representation of `w`; the contract states that number as `popcount(w)`
/// and is trusted, not proved.
#[verifier::external_body]
fn word_count_ones(w: u64) -> (r: u32)
    ensures
        r == popcount(w),
{
    w.count_ones()
}

pub proof fn lemma_count_true_concat(a: Seq<bool>, b: Seq<bool>)
    ensures
        count_true(a + b) == count_true(a) + count_true(b),
        count_true(a) <= a.len(),
    decreases b.len(),
{
    if b.len() == 0 {
        assert(a + b =~= a);
        lemma_count_true_len(a);
    } else {
        lemma_count_true_concat(a, b.drop_last());
        assert((a + b).drop_last() =~= a + b.drop_last());
    }
}

pub proof fn lemma_count_true_len(a: Seq<bool>)
    ensures
        count_true(a) <= a.len(),
    decreases a.len(),
{
    if a.len() > 0 {
        lemma_count_true_len(a.drop_last());
    }
}

/// A bitmap has `64 * W` bits.
pub broadcast proof fn lemma_view_len<const W: usize>(b: Bitmap<W>)
    ensures
        #[trigger] b@.len() == 64 * W,
{
}

impl<const W: usize> Bitmap<W> {
    /// The word array behind the bitmap.
    pub closed spec fn words_spec(self) -> [u64; W] {
        self.words
    }

    /// The all-zero bitmap.
    pub fn zero() -> (r: Self)
        ensures
            r@ == Seq::new((64 * W) as nat, |i: int| false),
            forall|k: int| 0 <= k < W ==> r.words_spec()@[k] == 0u64,
    {
        let r = Self { words: [0u64; W] };
        assert forall|i: int| 0 <= i < 64 * W implies r@[i] == false by {
            assert(r.words@[i / 64] == 0u64);
            lemma_bit_zero((i % 64) as u64);
        }
        assert(r@ =~= Seq::new((64 * W) as nat, |i: int| false));
        r
    }

    /// The bitmap holding only bit 0.
    pub fn one() -> (r: Self)
        requires
            W >= 1,
        ensures
            r@ == Seq::new((64 * W) as nat, |i: int| i == 0),
    {
        let mut words = [0u64; W];
        words[0] = 1;
        let r = Self { words };
        assert forall|i: int| 0 <= i < 64 * W implies r@[i] == (i == 0) by {
            lemma_bit_zero((i % 64) as u64);
            lemma_bit_single(0, (i % 64) as u64);
            assert(1u64 << 0u64 == 1u64) by (bit_vector);
        }
        assert(r@ =~= Seq::new((64 * W) as nat, |i: int| i == 0));
        r
    }

    /// Set bit `bit`; a bit beyond the bitmap is ignored.
    pub fn set_bit(&mut self, bit: usize)
        ensures
            final(self)@ == if bit < 64 * W { old(self)@.update(bit as int, true) } else { old(self)@ },
    {
        let word = bit / 64;
        let offset = bit % 64;
        if word < W {
            let ghost old_self = *self;
            self.words[word] = self.words[word] | (1u64 << offset);
            proof {
                assert forall|i: int| 0 <= i < 64 * W implies self@[i] == old_self@.update(bit as int, true)[i] by {
                    lemma_bit_or(old_self.words@[i / 64], 1u64 << offset, (i % 64) as u64);
                    lemma_bit_single(offset as u64, (i % 64) as u64);
                }
                assert(self@ =~= old_self@.update(bit as int, true));
            }
        }
    }

    /// Whether bit `bit` is set; bits beyond the bitmap read as clear.
    pub fn get_bit(&self, bit: usize) -> (r: bool)
        ensures
            r == (bit < 64 * W && self@[bit as int]),
    {
        let word = bit / 64;
        let offset = bit % 64;
        if word < W {
            (self.words[word] >> offset) & 1 == 1
        } else {
            false
        }
    }

    /// Clear bit `bit`; a bit beyond the bitmap is ignored.
    pub fn clear_bit(&mut self, bit: usize)
        ensures
            final(self)@ == if bit < 64 * W { old(self)@.update(bit as int, false) } else { old(self)@ },
    {
        let word = bit / 64;
        let offset = bit % 64;
        if word < W {
            let ghost old_self = *self;
            self.words[word] = self.words[word] & !(1u64 << offset);
            proof {
                assert forall|i: int| 0 <= i < 64 * W implies self@[i] == old_self@.update(bit as int, false)[i] by {
                    lemma_bit_and(old_self.words@[i / 64], !(1u64 << offset), (i % 64) as u64);
                    lemma_bit_not(1u64 << offset, (i % 64) as u64);
                    lemma_bit_single(offset as u64, (i % 64) as u64);
                }
                assert(self@ =~= old_self@.update(bit as int, false));
            }
        }
    }

    /// Whether no bit is set.
    pub fn is_zero(&self) -> (r: bool)
        ensures
            r == forall|i: int| 0 <= i < 64 * W ==> !#[trigger] self@[i],
    {
        let mut acc = 0u64;
        let mut i: usize = 0;
        proof {
            assert forall|j: u64| j < 64 implies !#[trigger] word_bit(acc, j) by {
                lemma_bit_zero(j);
            }
        }
        while i < W
            invariant
                i <= W,
                forall|j: u64| j < 64 ==> (#[trigger] word_bit(acc, j) <==> exists|k: int| 0 <= k < i && word_bit(self.words@[k], j)),
            decreases W - i,
        {
            let ghost old_acc = acc;
            acc = acc | self.words[i];
            i += 1;
            proof {
                assert forall|j: u64| j < 64 implies (#[trigger] word_bit(acc, j) <==> exists|k: int| 0 <= k < i && word_bit(self.words@[k], j)) by {
                    lemma_bit_or(old_acc, self.words@[i - 1], j);
                    if exists|k: int| 0 <= k < i && word_bit(self.words@[k], j) {
                        let k = choose|k: int| 0 <= k < i && word_bit(self.words@[k], j);
                        if k < i - 1 {
                            assert(exists|k: int| 0 <= k < i - 1 && word_bit(self.words@[k], j));
                        }
                    }
                }
            }
        }
        proof {
            lemma_word_zero(acc);
            if acc != 0 {
                let j = choose|j: u64| j < 64 && word_bit(acc, j);
                let k = choose|k: int| 0 <= k < W && word_bit(self.words@[k], j);
                let b = k * 64 + j;
                assert(self@[b]);
            } else {
                assert forall|b: int| 0 <= b < 64 * W implies !#[trigger] self@[b] by {
                    let j = (b % 64) as u64;
                    assert(!word_bit(acc, j));
                    if word_bit(self.words@[b / 64], j) {
                        assert(exists|k: int| 0 <= k < W && word_bit(self.words@[k], j));
                    }
                }
            }
        }
        acc == 0
    }

    /// Whether some bit is set in both `self` and `other`.
    pub fn intersects(&self, other: &Self) -> (r: bool)
        ensures
            r == exists|i: int| 0 <= i < 64 * W && #[trigger] self@[i] && other@[i],
    {
        let mut i: usize = 0;
        while i < W
            invariant
                i <= W,
                forall|b: int| 0 <= b < 64 * i ==> !(#[trigger] self@[b] && other@[b]),
            decreases W - i,
        {
            let both = self.words[i] & other.words[i];
            if both != 0 {
                proof {
                    lemma_word_zero(both);
                    let j = choose|j: u64| j < 64 && word_bit(both, j);
                    lemma_bit_and(self.words@[i as int], other.words@[i as int], j);
                    let b = i * 64 + j;
                    assert(self@[b] && other@[b]);
                }
                return true;
            }
            proof {
                lemma_word_zero(both);
                assert forall|b: int| 0 <= b < 64 * (i + 1) implies !(#[trigger] self@[b] && other@[b]) by {
                    if b >= 64 * i {
                        lemma_bit_and(self.words@[i as int], other.words@[i as int], (b % 64) as u64);
                    }
                }
            }
            i += 1;
        }
        false
    }

    /// Word `i` of the bitmap.
    pub fn word(&self, i: usize) -> (r: u64)
        requires
            i < W,
        ensures
            r == self.words_spec()@[i as int],
            forall|j: u64| j < 64 ==> (#[trigger] word_bit(r, j) == self@[64 * i + j]),
    {
        self.words[i]
    }

    /// Shift left by `g` bits into a new bitmap.
    pub fn shl(&self, g: usize) -> (r: Self)
        ensures
            r@ == shifted(self@, g as int),
    {
        let mut result = Self::zero();
        self.shl_into(g, &mut result);
        result
    }

    /// Shift left by `g` bits, writing the result into `dst`.
    ///
    /// A shift of the whole size or more gives zero; a shift by whole words copies
    /// words; any other shift carries bits across word boundaries.
    pub fn shl_into(&self, g: usize, dst: &mut Self)
        ensures
            final(dst)@ == shifted(self@, g as int),
    {
        if g == 0 {
            *dst = *self;
            assert(dst@ =~= shifted(self@, g as int));
            return;
        }
        let word_off = g / 64;
        let bit_off = g % 64;
        if word_off >= W {
            *dst = Self::zero();
            assert(dst@ =~= shifted(self@, g as int));
            return;
        }
        if bit_off == 0 {
            *dst = Self::zero();
            assert forall|k: int| 0 <= k < W implies dst.words@[k] == 0u64 by {
                assert(dst.words_spec()@[k] == 0u64);
            }
            let mut i = W;
            while i > word_off
                invariant
                    word_off < W,
                    word_off <= i <= W,
                    forall|k: int| i <= k < W ==> dst.words@[k] == self.words@[k - word_off],
                    forall|k: int| 0 <= k < i ==> dst.words@[k] == 0u64,
                decreases i,
            {
                i -= 1;
                dst.words[i] = self.words[i - word_off];
            }
            proof {
                assert forall|b: int| 0 <= b < 64 * W implies dst@[b] == shifted(self@, g as int)[b] by {
                    let k = b / 64;
                    let j = (b % 64) as u64;
                    if k < word_off {
                        lemma_bit_zero(j);
                    } else {
                        assert(b - g == (k - word_off) * 64 + j);
                    }
                }
                assert(dst@ =~= shifted(self@, g as int));
            }
        } else {
            *dst = Self::zero();
            assert forall|k: int| 0 <= k < W implies dst.words@[k] == 0u64 by {
                assert(dst.words_spec()@[k] == 0u64);
            }
            let inv = 64 - bit_off;
            let mut i = word_off;
            while i < W
                invariant
                    word_off < W,
                    0 < bit_off < 64,
                    inv == 64 - bit_off,
                    word_off <= i <= W,
                    forall|k: int| word_off <= k < i ==> dst.words@[k] == if k - word_off > 0 {
                        (self.words@[k - word_off] << bit_off as u64) | (self.words@[k - word_off - 1] >> inv as u64)
                    } else {
                        self.words@[k - word_off] << bit_off as u64
                    },
                    forall|k: int| 0 <= k < word_off ==> dst.words@[k] == 0u64,
                decreases W - i,
            {
                let src = i - word_off;
                dst.words[i] = self.words[src] << bit_off;
                if src > 0 {
                    dst.words[i] = dst.words[i] | (self.words[src - 1] >> inv);
                }
                i += 1;
            }
            proof {
                assert forall|b: int| 0 <= b < 64 * W implies dst@[b] == shifted(self@, g as int)[b] by {
                    let k = b / 64;
                    let j = (b % 64) as u64;
                    if k < word_off {
                        lemma_bit_zero(j);
                    } else {
                        let src = k - word_off;
                        let hi = self.words@[src] << bit_off as u64;
                        lemma_bit_shl(self.words@[src], bit_off as u64, j);
                        if src > 0 {
                            let lo = self.words@[src - 1] >> inv as u64;
                            lemma_bit_or(hi, lo, j);
                            lemma_bit_shr(self.words@[src - 1], inv as u64, j);
                            if j >= bit_off {
                                assert(b - g == src * 64 + (j - bit_off));
                            } else {
                                assert(b - g == (src - 1) * 64 + (j + inv));
                            }
                        } else {
                            if j >= bit_off {
                                assert(b - g == src * 64 + (j - bit_off));
                            }
                        }
                    }
                }
                assert(dst@ =~= shifted(self@, g as int));
            }
        }
    }

    /// Prepared complement of word `word_idx`: its clear positions in `[max(cursor,1), word_end)`.
    proof fn lemma_scan_word(self, word_idx: int, max_bit: int, unset: u64, word_end: int)
        requires
            0 <= word_idx < W,
            64 * word_idx <= max_bit,
            word_end == if 64 * (word_idx + 1) < max_bit + 1 { 64 * (word_idx + 1) } else { max_bit + 1 },
            unset == ({
                let u0 = !self.words@[word_idx];
                let u1 = if word_idx == 0 { u0 & !1u64 } else { u0 };
                if word_end - 64 * word_idx < 64 {
                    u1 & (((1u64 << (word_end - 64 * word_idx) as u64) - 1u64) as u64)
                } else {
                    u1
                }
            }),
        ensures
            forall|j: u64| j < 64 ==> (#[trigger] word_bit(unset, j) <==> (64 * word_idx + j < word_end
                && 64 * word_idx + j >= 1 && !self@[64 * word_idx + j])),
    {
        let base = 64 * word_idx;
        assert forall|j: u64| j < 64 implies (#[trigger] word_bit(unset, j) <==> (base + j < word_end
            && base + j >= 1 && !self@[base + j])) by {
            let w = self.words@[word_idx];
            let u0 = !w;
            let u1 = if word_idx == 0 { u0 & !1u64 } else { u0 };
            lemma_bit_not(w, j);
            lemma_bit_and(u0, !1u64, j);
            lemma_bit_not(1u64, j);
            lemma_bit_single(0, j);
            assert(1u64 << 0u64 == 1u64) by (bit_vector);
            let bits = word_end - base;
            if bits < 64 {
                lemma_bit_and(u1, (((1u64 << bits as u64) - 1u64) as u64), j);
                lemma_bit_low_mask(bits as u64, j);
            }
            let i = base + j;
            assert(i / 64 == word_idx && i % 64 == j);
        }
    }

    /// Sum of the `k` smallest clear positions in `[1, max_bit]`, or `None` when there
    /// are fewer than `k` of them.
    pub fn sum_smallest_unset(&self, k: usize, max_bit: usize) -> (r: Option<u32>)
        requires
            max_bit < usize::MAX,
            64 * W <= u32::MAX,
            seq_sum(unset_list(*self, max_bit as int).take(
                if k < unset_list(*self, max_bit as int).len() { k as int } else { unset_list(*self, max_bit as int).len() as int },
            )) <= u32::MAX,
        ensures
            r == if unset_list(*self, max_bit as int).len() >= k {
                Some(seq_sum(unset_list(*self, max_bit as int).take(k as int)) as u32)
            } else {
                None::<u32>
            },
    {
        let ghost s = self@;
        let ghost hi = scan_end(W as int, max_bit as int);
        let ghost full = unset_list(*self, max_bit as int);
        let ghost cap: int = if k < full.len() { k as int } else { full.len() as int };
        proof {
            lemma_positions_members(s, false, 1, hi);
            assert(full.take(0) =~= Seq::<int>::empty());
        }
        if k == 0 {
            return Some(0);
        }
        let mut sum: u32 = 0;
        let mut count: usize = 0;
        let mut word_idx: usize = 0;
        while word_idx < W
            invariant
                s == self@,
                hi == scan_end(W as int, max_bit as int),
                full == positions(s, false, 1, hi),
                cap == (if k < full.len() { k as int } else { full.len() as int }),
                seq_sum(full.take(cap)) <= u32::MAX,
                forall|i: int| 0 <= i < full.len() ==> #[trigger] full[i] >= 1,
                max_bit < usize::MAX,
                64 * W <= u32::MAX,
                word_idx <= W,
                0 < k,
                count < k,
                count == positions(s, false, 1, scan_end(word_idx as int, max_bit as int)).len(),
                sum == seq_sum(positions(s, false, 1, scan_end(word_idx as int, max_bit as int))),
            ensures
                count == full.len(),
                count < k,
            decreases W - word_idx,
        {
            let base = word_idx * 64;
            if base > max_bit {
                proof {
                    assert(scan_end(word_idx as int, max_bit as int) == hi);
                }
                break;
            }
            let mut unset = !self.words[word_idx];
            if word_idx == 0 {
                unset = unset & !1u64;
            }
            assert((word_idx + 1) * 64 <= 64 * W);
            let word_end = ((word_idx + 1) * 64).min(max_bit + 1);
            let bits_in_word = word_end - base;
            if bits_in_word < 64 {
                let b64 = bits_in_word as u64;
                assert(1u64 << b64 >= 1u64) by (bit_vector)
                    requires
                        b64 < 64;
                unset = unset & ((1u64 << bits_in_word) - 1);
            }
            proof {
                self.lemma_scan_word(word_idx as int, max_bit as int, unset, word_end as int);
            }
            let ghost mut c: int = if base == 0 { 1 } else { base as int };
            while unset != 0
                invariant
                    s == self@,
                    hi == scan_end(W as int, max_bit as int),
                    full == positions(s, false, 1, hi),
                    cap == (if k < full.len() { k as int } else { full.len() as int }),
                    seq_sum(full.take(cap)) <= u32::MAX,
                    forall|i: int| 0 <= i < full.len() ==> #[trigger] full[i] >= 1,
                    64 * W <= u32::MAX,
                    word_idx < W,
                    base == 64 * word_idx,
                    base <= max_bit,
                    word_end == scan_end((word_idx + 1) as int, max_bit as int),
                    1 <= c,
                    base <= c <= word_end || (base == 0 && c == 1),
                    count < k,
                    count == positions(s, false, 1, c).len(),
                    sum == seq_sum(positions(s, false, 1, c)),
                    forall|j: u64| j < 64 ==> (#[trigger] word_bit(unset, j) <==> (c <= base + j < word_end
                        && !s[base + j])),
                decreases unset,
            {
                proof {
                    lemma_trailing_zeros(unset);
                }
                let bit = unset.trailing_zeros() as usize;
                proof {
                    let p = base + bit;
                    assert forall|q: int| c <= q < p implies s[q] != false by {
                        let j = (q - base) as u64;
                        assert(!word_bit(unset, j));
                    }
                    lemma_positions_skip(s, false, 1, c, p);
                    lemma_positions_step(s, false, 1, p);
                    lemma_sum_push(positions(s, false, 1, p), p);
                    lemma_positions_prefix(s, false, 1, p + 1, hi);
                    lemma_positions_members(s, false, 1, hi);
                    assert(positions(s, false, 1, p + 1) =~= full.take(count + 1));
                    lemma_sum_take_mono(full, count + 1, cap);
                }
                sum += (base + bit) as u32;
                count += 1;
                proof {
                    c = base + bit + 1;
                }
                if count == k {
                    proof {
                        assert(positions(s, false, 1, c) =~= full.take(k as int));
                    }
                    return Some(sum);
                }
                let ghost old_unset = unset;
                unset = unset & (unset - 1);
                proof {
                    assert forall|j: u64| j < 64 implies (#[trigger] word_bit(unset, j) <==> (c <= base + j < word_end
                        && !s[base + j])) by {
                        lemma_clear_lowest(old_unset, j);
                    }
                    lemma_clear_lowest_smaller(old_unset);
                }
            }
            proof {
                lemma_word_zero(unset);
                assert forall|q: int| c <= q < word_end implies s[q] != false by {
                    let j = (q - base) as u64;
                    assert(!word_bit(unset, j));
                }
                lemma_positions_skip(s, false, 1, c, word_end as int);
            }
            word_idx += 1;
        }
        proof {
            assert(count == full.len());
        }
        if count >= k {
            Some(sum)
        } else {
            None
        }
    }

    /// Write the `k` smallest clear positions in `[1, max_bit]` to the front of `out`,
    /// ascending; returns how many were written (fewer than `k` when no more exist).
    pub fn collect_smallest_unset(&self, k: usize, max_bit: usize, out: &mut [u32]) -> (r: usize)
        requires
            max_bit < usize::MAX,
            64 * W <= u32::MAX,
            old(out)@.len() >= if k < unset_list(*self, max_bit as int).len() { k as int } else { unset_list(*self, max_bit as int).len() as int },
        ensures
            r == if k < unset_list(*self, max_bit as int).len() { k as int } else { unset_list(*self, max_bit as int).len() as int },
            final(out)@.len() == old(out)@.len(),
            forall|i: int| 0 <= i < r ==> final(out)@[i] == unset_list(*self, max_bit as int)[i],
            forall|i: int| r <= i < old(out)@.len() ==> final(out)@[i] == old(out)@[i],
    {
        let ghost s = self@;
        let ghost hi = scan_end(W as int, max_bit as int);
        let ghost full = unset_list(*self, max_bit as int);
        let ghost out0 = out@;
        proof {
            lemma_positions_members(s, false, 1, hi);
        }
        let mut count: usize = 0;
        let mut word_idx: usize = 0;
        while word_idx < W
            invariant
                s == self@,
                hi == scan_end(W as int, max_bit as int),
                full == positions(s, false, 1, hi),
                out0 == old(out)@,
                out@.len() == out0.len(),
                out0.len() >= if k < full.len() { k as int } else { full.len() as int },
                max_bit < usize::MAX,
                64 * W <= u32::MAX,
                word_idx <= W,
                count <= k,
                count == positions(s, false, 1, scan_end(word_idx as int, max_bit as int)).len(),
                forall|i: int| 0 <= i < count ==> out@[i] == full[i],
                forall|i: int| count <= i < out0.len() ==> out@[i] == out0[i],
            ensures
                count == (if k < full.len() { k as int } else { full.len() as int }),
                forall|i: int| 0 <= i < count ==> out@[i] == full[i],
                forall|i: int| count <= i < out0.len() ==> out@[i] == out0[i],
            decreases W - word_idx,
        {
            let base = word_idx * 64;
            if base > max_bit || count >= k {
                proof {
                    if scan_end(word_idx as int, max_bit as int) >= 1 {
                        lemma_positions_prefix(s, false, 1, scan_end(word_idx as int, max_bit as int), hi);
                    }
                    if base > max_bit {
                        assert(scan_end(word_idx as int, max_bit as int) == hi);
                    }
                }
                break;
            }
            let mut unset = !self.words[word_idx];
            if word_idx == 0 {
                unset = unset & !1u64;
            }
            assert((word_idx + 1) * 64 <= 64 * W);
            let word_end = ((word_idx + 1) * 64).min(max_bit + 1);
            let bits_in_word = word_end - base;
            if bits_in_word < 64 {
                let b64 = bits_in_word as u64;
                assert(1u64 << b64 >= 1u64) by (bit_vector)
                    requires
                        b64 < 64;
                unset = unset & ((1u64 << bits_in_word) - 1);
            }
            proof {
                self.lemma_scan_word(word_idx as int, max_bit as int, unset, word_end as int);
            }
            let ghost mut c: int = if base == 0 { 1 } else { base as int };
            while unset != 0
                invariant
                    s == self@,
                    hi == scan_end(W as int, max_bit as int),
                    full == positions(s, false, 1, hi),
                    out0 == old(out)@,
                    out@.len() == out0.len(),
                    out0.len() >= if k < full.len() { k as int } else { full.len() as int },
                    64 * W <= u32::MAX,
                    word_idx < W,
                    base == 64 * word_idx,
                    base <= max_bit,
                    word_end == scan_end((word_idx + 1) as int, max_bit as int),
                    1 <= c,
                    base <= c <= word_end || (base == 0 && c == 1),
                    count < k,
                    count == positions(s, false, 1, c).len(),
                    forall|i: int| 0 <= i < count ==> out@[i] == full[i],
                    forall|i: int| count <= i < out0.len() ==> out@[i] == out0[i],
                    forall|j: u64| j < 64 ==> (#[trigger] word_bit(unset, j) <==> (c <= base + j < word_end
                        && !s[base + j])),
                decreases unset,
            {
                proof {
                    lemma_trailing_zeros(unset);
                }
                let bit = unset.trailing_zeros() as usize;
                proof {
                    let p = base + bit;
                    assert forall|q: int| c <= q < p implies s[q] != false by {
                        let j = (q - base) as u64;
                        assert(!word_bit(unset, j));
                    }
                    lemma_positions_skip(s, false, 1, c, p);
                    lemma_positions_step(s, false, 1, p);
                    lemma_positions_prefix(s, false, 1, p + 1, hi);
                    lemma_positions_members(s, false, 1, p + 1);
                    assert(positions(s, false, 1, p + 1)[count as int] == p);
                    assert(full[count as int] == p);
                }
                let ghost before = out@;
                out[count] = (base + bit) as u32;
                assert(out@ == before.update(count as int, (base + bit) as u32));
                count += 1;
                proof {
                    c = base + bit + 1;
                }
                if count >= k {
                    return count;
                }
                let ghost old_unset = unset;
                unset = unset & (unset - 1);
                proof {
                    assert forall|j: u64| j < 64 implies (#[trigger] word_bit(unset, j) <==> (c <= base + j < word_end
                        && !s[base + j])) by {
                        lemma_clear_lowest(old_unset, j);
                    }
                    lemma_clear_lowest_smaller(old_unset);
                }
            }
            proof {
                lemma_word_zero(unset);
                assert forall|q: int| c <= q < word_end implies s[q] != false by {
                    let j = (q - base) as u64;
                    assert(!word_bit(unset, j));
                }
                lemma_positions_skip(s, false, 1, c, word_end as int);
            }
            word_idx += 1;
        }
        count
    }

    /// Index of the lowest set bit, or `None` when no bit is set.
    pub fn ctz(&self) -> (r: Option<u32>)
        requires
            64 * W <= u32::MAX,
        ensures
            r is None <==> forall|i: int| 0 <= i < 64 * W ==> !#[trigger] self@[i],
            r matches Some(b) ==> b < 64 * W && self@[b as int] && forall|i: int| 0 <= i < b ==> !#[trigger] self@[i],
    {
        let mut i: usize = 0;
        while i < W
            invariant
                i <= W,
                64 * W <= u32::MAX,
                forall|b: int| 0 <= b < 64 * i ==> !#[trigger] self@[b],
            decreases W - i,
        {
            if self.words[i] != 0 {
                proof {
                    lemma_trailing_zeros(self.words@[i as int]);
                }
                let t = self.words[i].trailing_zeros();
                let r = i as u32 * 64 + t;
                proof {
                    assert(self@[r as int]) by {
                        assert((r as int) / 64 == i && (r as int) % 64 == t);
                    }
                    assert forall|b: int| 0 <= b < r implies !#[trigger] self@[b] by {
                        if b >= 64 * i {
                            assert(b / 64 == i && b % 64 == b - 64 * i);
                            assert(!word_bit(self.words@[i as int], (b - 64 * i) as u64));
                        }
                    }
                }
                return Some(r);
            }
            proof {
                lemma_word_zero(self.words@[i as int]);
                assert forall|b: int| 0 <= b < 64 * (i + 1) implies !#[trigger] self@[b] by {
                    if b >= 64 * i {
                        assert(!word_bit(self.words@[i as int], (b % 64) as u64));
                    }
                }
            }
            i += 1;
        }
        None
    }

    /// Number of set bits.
    pub fn count_ones(&self) -> (r: u32)
        requires
            64 * W <= u32::MAX,
        ensures
            r == count_true(self@),
    {
        let mut count = 0u32;
        let mut i: usize = 0;
        while i < W
            invariant
                i <= W,
                64 * W <= u32::MAX,
                count == count_true(self@.take(64 * i)),
            decreases W - i,
        {
            let c = word_count_ones(self.words[i]);
            proof {
                let wseq = Seq::new(64, |j: int| word_bit(self.words@[i as int], j as u64));
                assert(self@.take(64 * (i + 1)) =~= self@.take(64 * i) + wseq) by {
                    assert forall|b: int| 64 * i <= b < 64 * (i + 1) implies self@[b] == wseq[b - 64 * i] by {
                        assert(b / 64 == i && b % 64 == b - 64 * i);
                    }
                }
                lemma_count_true_concat(self@.take(64 * i), wseq);
                lemma_count_true_len(self@.take(64 * (i + 1)));
            }
            count += c;
            i += 1;
        }
        assert(self@.take(64 * W) =~= self@);
        count
    }

    /// Iterate over the set bit positions, lowest first.
    pub fn iter_set_bits(&self) -> (it: BitmapIter<'_, W>)
        ensures
            it.wf(),
            it.bits() == self@,
            it.pos() == 0,
    {
        BitmapIter::new(self)
    }

    /// Shift right by `k` bits into a new bitmap.
    pub fn shr(&self, k: usize) -> (r: Self)
        ensures
            r@ == Seq::new((64 * W) as nat, |i: int| i + k < 64 * W && self@[i + k]),
    {
        let mut result = Self::zero();
        let word_off = k / 64;
        let bit_off = k % 64;
        if word_off >= W {
            assert(result@ =~= Seq::new((64 * W) as nat, |i: int| i + k < 64 * W && self@[i + k]));
            return result;
        }
        assert forall|j: int| 0 <= j < W implies result.words@[j] == 0u64 by {
            assert(result.words_spec()@[j] == 0u64);
        }
        let mut i: usize = 0;
        while i + word_off < W
            invariant
                word_off < W,
                word_off == k / 64,
                bit_off == k % 64,
                i + word_off <= W,
                forall|j: int| 0 <= j < i ==> result.words@[j] == if bit_off == 0 || j + word_off + 1 >= W {
                    self.words@[j + word_off] >> bit_off as u64
                } else {
                    (self.words@[j + word_off] >> bit_off as u64) | (self.words@[j + word_off + 1] << (64 - bit_off) as u64)
                },
                forall|j: int| i <= j < W ==> result.words@[j] == 0u64,
            decreases W - i,
        {
            let src = i + word_off;
            let mut w = self.words[src] >> bit_off;
            if bit_off != 0 && src + 1 < W {
                w = w | (self.words[src + 1] << (64 - bit_off));
            }
            result.words[i] = w;
            i += 1;
        }
        proof {
            assert forall|b: int| 0 <= b < 64 * W implies result@[b] == (b + k < 64 * W && self@[b + k]) by {
                let j = b / 64;
                let t = (b % 64) as u64;
                if j + word_off >= W {
                    lemma_bit_zero(t);
                    assert(b + k >= 64 * W);
                } else {
                    let lo = self.words@[j + word_off] >> bit_off as u64;
                    lemma_bit_shr(self.words@[j + word_off], bit_off as u64, t);
                    if bit_off == 0 || j + word_off + 1 >= W {
                        if t + bit_off < 64 {
                            assert(b + k == (j + word_off) * 64 + (t + bit_off));
                        } else {
                            assert(b + k >= 64 * W);
                        }
                    } else {
                        let hi = self.words@[j + word_off + 1] << (64 - bit_off) as u64;
                        lemma_bit_or(lo, hi, t);
                        lemma_bit_shl(self.words@[j + word_off + 1], (64 - bit_off) as u64, t);
                        if t + bit_off < 64 {
                            assert(b + k == (j + word_off) * 64 + (t + bit_off));
                        } else {
                            assert(b + k == (j + word_off + 1) * 64 + (t + bit_off - 64));
                        }
                    }
                }
            }
            assert(result@ =~= Seq::new((64 * W) as nat, |i: int| i + k < 64 * W && self@[i + k]));
        }
        result
    }

    /// Shift left by one bit in place.
    pub fn shl_one(&mut self)
        ensures
            final(self)@ == shifted(old(self)@, 1),
    {
        let shifted_one = self.shl(1);
        *self = shifted_one;
    }
}

/// Walks the set bits of a bitmap in ascending order.
pub struct BitmapIter<'a, const W: usize> {
    bitmap: &'a Bitmap<W>,
    word_idx: usize,
    current: u64,
    pos: Ghost<int>,
}

impl<'a, const W: usize> BitmapIter<'a, W> {
    /// The bits being walked.
    pub closed spec fn bits(self) -> Seq<bool> {
        self.bitmap@
    }

    /// The next position to look at: every set bit below it has been handed out.
    pub closed spec fn pos(self) -> int {
        self.pos@
    }

    /// The iterator's internal state agrees with its position.
    pub closed spec fn wf(self) -> bool {
        &&& self.word_idx <= W
        &&& self.word_idx < W ==> {
            &&& 64 * self.word_idx <= self.pos@ <= 64 * self.word_idx + 64
            &&& forall|j: u64| j < 64 ==> (#[trigger] word_bit(self.current, j) <==> (64 * self.word_idx + j >= self.pos@
                && self.bitmap@[64 * self.word_idx + j]))
        }
        &&& self.word_idx == W ==> self.pos@ == 64 * W && self.current == 0
    }

    fn new(bitmap: &'a Bitmap<W>) -> (it: Self)
        ensures
            it.wf(),
            it.bits() == bitmap@,
            it.pos() == 0,
    {
        let it = Self {
            bitmap,
            word_idx: 0,
            current: if W > 0 { bitmap.words[0] } else { 0 },
            pos: Ghost(0),
        };
        proof {
            if W > 0 {
                assert forall|j: u64| j < 64 implies (#[trigger] word_bit(it.current, j) <==> (64 * it.word_idx + j >= it.pos@
                    && it.bitmap@[64 * it.word_idx + j])) by {
                    assert((j as int) / 64 == 0 && (j as int) % 64 == j);
                }
            }
        }
        it
    }

    /// The next set bit at or above the current position, or `None` when there is none.
    pub fn next(&mut self) -> (r: Option<u32>)
        requires
            old(self).wf(),
            64 * W <= u32::MAX,
        ensures
            final(self).wf(),
            final(self).bits() == old(self).bits(),
            match r {
                Some(b) => {
                    &&& old(self).pos() <= b < 64 * W
                    &&& old(self).bits()[b as int]
                    &&& forall|i: int| old(self).pos() <= i < b ==> !#[trigger] old(self).bits()[i]
                    &&& final(self).pos() == b + 1
                },
                None => {
                    &&& forall|i: int| old(self).pos() <= i < 64 * W ==> !#[trigger] old(self).bits()[i]
                    &&& final(self).pos() == 64 * W
                },
            },
    {
        let ghost p0 = self.pos@;
        loop
            invariant
                self.wf(),
                self.bitmap == old(self).bitmap,
                64 * W <= u32::MAX,
                p0 == old(self).pos(),
                p0 <= self.pos@,
                forall|i: int| p0 <= i < self.pos@ ==> !#[trigger] self.bitmap@[i],
            decreases W - self.word_idx,
        {
            if self.current != 0 {
                proof {
                    lemma_trailing_zeros(self.current);
                }
                let bit = self.current.trailing_zeros();
                let ghost old_cur = self.current;
                let ghost base = 64 * self.word_idx;
                self.current = self.current & (self.current - 1);
                let r = self.word_idx as u32 * 64 + bit;
                proof {
                    assert forall|i: int| p0 <= i < r implies !#[trigger] self.bitmap@[i] by {
                        if i >= self.pos@ {
                            assert(!word_bit(old_cur, (i - base) as u64));
                        }
                    }
                    self.pos = Ghost(r as int + 1);
                    assert forall|j: u64| j < 64 implies (#[trigger] word_bit(self.current, j) <==> (base + j >= self.pos@
                        && self.bitmap@[base + j])) by {
                        lemma_clear_lowest(old_cur, j);
                        if j < bit {
                            assert(!word_bit(old_cur, j));
                        }
                    }
                }
                return Some(r);
            }
            proof {
                lemma_word_zero(self.current);
                if self.word_idx < W {
                    assert forall|i: int| p0 <= i < 64 * self.word_idx + 64 implies !#[trigger] self.bitmap@[i] by {
                        if i >= self.pos@ {
                            assert(!word_bit(self.current, (i - 64 * self.word_idx) as u64));
                        }
                    }
                }
            }
            if self.word_idx + 1 >= W {
                self.word_idx = W;
                self.current = 0;
                proof {
                    self.pos = Ghost(64 * W as int);
                }
                return None;
            }
            self.word_idx += 1;
            self.current = self.bitmap.words[self.word_idx];
            proof {
                self.pos = Ghost(64 * self.word_idx as int);
                assert forall|j: u64| j < 64 implies (#[trigger] word_bit(self.current, j) <==> (64 * self.word_idx + j >= self.pos@
                    && self.bitmap@[64 * self.word_idx + j])) by {
                    let b = 64 * self.word_idx + j;
                    assert(b / 64 == self.word_idx && b % 64 == j);
                }
            }
        }
    }

    /// All remaining set bit positions, ascending.
    pub fn collect(self) -> (r: Vec<u32>)
        requires
            self.wf(),
            64 * W <= u32::MAX,
        ensures
            r@.len() == positions(self.bits(), true, self.pos(), 64 * W).len(),
            forall|i: int| 0 <= i < r@.len() ==> r@[i] == positions(self.bits(), true, self.pos(), 64 * W)[i],
    {
        let ghost s = self.bits();
        let ghost p0 = self.pos();
        let mut it = self;
        let mut r: Vec<u32> = Vec::new();
        loop
            invariant
                it.wf(),
                it.bits() == s,
                s == self.bits(),
                p0 == self.pos(),
                s.len() == 64 * W,
                64 * W <= u32::MAX,
                p0 <= it.pos() <= 64 * W,
                r@.len() == positions(s, true, p0, it.pos()).len(),
                forall|i: int| 0 <= i < r@.len() ==> r@[i] == positions(s, true, p0, it.pos())[i],
            decreases 64 * W - it.pos(),
        {
            let ghost before = it.pos();
            match it.next() {
                Some(b) => {
                    proof {
                        lemma_positions_skip(s, true, p0, before, b as int);
                        lemma_positions_step(s, true, p0, b as int);
                    }
                    r.push(b);
                },
                None => {
                    proof {
                        lemma_positions_skip(s, true, p0, before, 64 * W);
                    }
                    return r;
                },
            }
        }
    }
}

impl<const W: usize> Default for Bitmap<W> {
    fn default() -> (r: Self)
        ensures
            r@ == Seq::new((64 * W) as nat, |i: int| false),
    {
        Self::zero()
    }
}

impl<const W: usize> BitOrAssign for Bitmap<W> {
    fn bitor_assign(&mut self, rhs: Self)
        ensures
            final(self)@ == Seq::new((64 * W) as nat, |i: int| old(self)@[i] || rhs@[i]),
    {
        let ghost old_self = *self;
        let mut i: usize = 0;
        while i < W
            invariant
                i <= W,
                forall|k: int| 0 <= k < i ==> self.words@[k] == old_self.words@[k] | rhs.words@[k],
                forall|k: int| i <= k < W ==> self.words@[k] == old_self.words@[k],
            decreases W - i,
        {
            self.words[i] = self.words[i] | rhs.words[i];
            i += 1;
        }
        proof {
            assert forall|b: int| 0 <= b < 64 * W implies self@[b] == (old_self@[b] || rhs@[b]) by {
                lemma_bit_or(old_self.words@[b / 64], rhs.words@[b / 64], (b % 64) as u64);
            }
            assert(self@ =~= Seq::new((64 * W) as nat, |i: int| old_self@[i] || rhs@[i]));
        }
    }
}

impl<const W: usize> vstd::std_specs::ops::BitOrSpecImpl for Bitmap<W> {
    open spec fn obeys_bitor_spec() -> bool {
        true
    }

    open spec fn bitor_req(self, rhs: Self) -> bool {
        true
    }

    open spec fn bitor_spec(self, rhs: Self) -> Self {
        with_bits(Seq::new((64 * W) as nat, |i: int| self@[i] || rhs@[i]))
    }
}

impl<const W: usize> BitOr for Bitmap<W> {
    type Output = Self;

    fn bitor(self, rhs: Self) -> (r: Self)
        ensures
            r@ == Seq::new((64 * W) as nat, |i: int| self@[i] || rhs@[i]),
    {
        let mut r = self;
        r.bitor_assign(rhs);
        proof {
            lemma_view_injective(r, with_bits(Seq::new((64 * W) as nat, |i: int| self@[i] || rhs@[i])));
        }
        r
    }
}

impl<const W: usize> vstd::std_specs::ops::BitAndSpecImpl for Bitmap<W> {
    open spec fn obeys_bitand_spec() -> bool {
        true
    }

    open spec fn bitand_req(self, rhs: Self) -> bool {
        true
    }

    open spec fn bitand_spec(self, rhs: Self) -> Self {
        with_bits(Seq::new((64 * W) as nat, |i: int| self@[i] && rhs@[i]))
    }
}

impl<const W: usize> BitAnd for Bitmap<W> {
    type Output = Self;

    fn bitand(self, rhs: Self) -> (r: Self)
        ensures
            r@ == Seq::new((64 * W) as nat, |i: int| self@[i] && rhs@[i]),
    {
        let mut result = Self::zero();
        let mut i: usize = 0;
        while i < W
            invariant
                i <= W,
                forall|k: int| 0 <= k < i ==> result.words@[k] == self.words@[k] & rhs.words@[k],
            decreases W - i,
        {
            result.words[i] = self.words[i] & rhs.words[i];
            i += 1;
        }
        proof {
            assert forall|b: int| 0 <= b < 64 * W implies result@[b] == (self@[b] && rhs@[b]) by {
                lemma_bit_and(self.words@[b / 64], rhs.words@[b / 64], (b % 64) as u64);
            }
            assert(result@ =~= Seq::new((64 * W) as nat, |i: int| self@[i] && rhs@[i]));
            lemma_view_injective(result, with_bits(Seq::new((64 * W) as nat, |i: int| self@[i] && rhs@[i])));
        }
        result
    }
}

impl<const W: usize> vstd::std_specs::ops::NotSpecImpl for Bitmap<W> {
    open spec fn obeys_not_spec() -> bool {
        true
    }

    open spec fn not_req(self) -> bool {
        true
    }

    open spec fn not_spec(self) -> Self {
        with_bits(Seq::new((64 * W) as nat, |i: int| !self@[i]))
    }
}

impl<const W: usize> Not for Bitmap<W> {
    type Output = Self;

    fn not(self) -> (r: Self)
        ensures
            r@ == Seq::new((64 * W) as nat, |i: int| !self@[i]),
    {
        let mut result = Self::zero();
        let mut i: usize = 0;
        while i < W
            invariant
                i <= W,
                forall|k: int| 0 <= k < i ==> result.words@[k] == !self.words@[k],
            decreases W - i,
        {
            result.words[i] = !self.words[i];
            i += 1;
        }
        proof {
            assert forall|b: int| 0 <= b < 64 * W implies result@[b] == !self@[b] by {
                lemma_bit_not(self.words@[b / 64], (b % 64) as u64);
            }
            assert(result@ =~= Seq::new((64 * W) as nat, |i: int| !self@[i]));
            lemma_view_injective(result, with_bits(Seq::new((64 * W) as nat, |i: int| !self@[i])));
        }
        result
    }
}

} // verus!
