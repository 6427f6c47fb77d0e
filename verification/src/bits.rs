use vstd::prelude::*;

verus! {

/// Bit `j` (0 = least significant) of a 64-bit word.
pub open spec fn word_bit(w: u64, j: u64) -> bool {
    (w >> j) & 1u64 == 1u64
}

pub proof fn lemma_bit_zero(j: u64)
    by (bit_vector)
    requires
        j < 64,
    ensures
        !word_bit(0u64, j),
{
}

pub proof fn lemma_bit_or(a: u64, b: u64, j: u64)
    by (bit_vector)
    requires
        j < 64,
    ensures
        word_bit(a | b, j) == (word_bit(a, j) || word_bit(b, j)),
{
}

pub proof fn lemma_bit_and(a: u64, b: u64, j: u64)
    by (bit_vector)
    requires
        j < 64,
    ensures
        word_bit(a & b, j) == (word_bit(a, j) && word_bit(b, j)),
{
}

pub proof fn lemma_bit_not(a: u64, j: u64)
    by (bit_vector)
    requires
        j < 64,
    ensures
        word_bit(!a, j) == !word_bit(a, j),
{
}

pub proof fn lemma_bit_single(off: u64, j: u64)
    by (bit_vector)
    requires
        j < 64,
        off < 64,
    ensures
        word_bit(1u64 << off, j) == (j == off),
{
}

pub proof fn lemma_bit_shl(a: u64, b: u64, j: u64)
    by (bit_vector)
    requires
        j < 64,
        b < 64,
    ensures
        word_bit(a << b, j) == (j >= b && word_bit(a, (j - b) as u64)),
{
}

pub proof fn lemma_bit_shr(a: u64, b: u64, j: u64)
    by (bit_vector)
    requires
        j < 64,
        b < 64,
    ensures
        word_bit(a >> b, j) == (j + b < 64 && word_bit(a, (j + b) as u64)),
{
}

pub proof fn lemma_bit_low_mask(n: u64, j: u64)
    by (bit_vector)
    requires
        j < 64,
        n < 64,
    ensures
        word_bit(((1u64 << n) - 1u64) as u64, j) == (j < n),
{
}

/// A word is zero exactly when none of its 64 bits is set.
pub proof fn lemma_word_zero(a: u64)
    ensures
        a == 0 <==> forall|j: u64| j < 64 ==> !#[trigger] word_bit(a, j),
{
    if a != 0 {
        let t = a.trailing_zeros();
        vstd::std_specs::bits::axiom_u64_trailing_zeros(a);
        assert(word_bit(a, t as u64));
    } else {
        assert forall|j: u64| j < 64 implies !#[trigger] word_bit(a, j) by {
            lemma_bit_zero(j);
        }
    }
}

/// The lowest set bit of a non-zero word is at its trailing-zero count.
pub proof fn lemma_trailing_zeros(a: u64)
    requires
        a != 0,
    ensures
        (a.trailing_zeros() as u64) < 64,
        word_bit(a, a.trailing_zeros() as u64),
        forall|j: u64| j < a.trailing_zeros() ==> !#[trigger] word_bit(a, j),
{
    vstd::std_specs::bits::axiom_u64_trailing_zeros(a);
    let t = a.trailing_zeros() as u64;
    assert forall|j: u64| j < t implies !#[trigger] word_bit(a, j) by {
        assert((a >> j) & 1u64 == 0u64);
    }
}

/// Clearing the lowest set bit.
pub proof fn lemma_clear_lowest(a: u64, j: u64)
    requires
        a != 0,
        j < 64,
    ensures
        word_bit((a & ((a - 1) as u64)) as u64, j) == (word_bit(a, j) && j != a.trailing_zeros() as u64),
{
    lemma_trailing_zeros(a);
    vstd::std_specs::bits::axiom_u64_trailing_zeros(a);
    let t = a.trailing_zeros() as u64;
    lemma_clear_lowest_bv(a, t, j);
}

proof fn lemma_clear_lowest_bv(a: u64, t: u64, j: u64)
    by (bit_vector)
    requires
        a != 0,
        j < 64,
        t < 64,
        word_bit(a, t),
        a << ((64 - t) as u64) == 0,
    ensures
        word_bit((a & ((a - 1) as u64)) as u64, j) == (word_bit(a, j) && j != t),
{
}

} // verus!
