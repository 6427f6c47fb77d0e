use vstd::prelude::*;

verus! {

/// Known optimal Golomb ruler lengths (OEIS A003022).
/// Index = number of marks n, value = optimal ruler length L(n); n >= 29 is open.
pub const OGR_OPTIMAL: [u32; 29] = [
    0, 0, 1, 3, 6, 11, 17, 25, 34, 44, 55, 72, 85, 106, 127, 151, 177, 199, 216, 246, 283, 333,
    356, 372, 425, 480, 492, 553, 585,
];

/// The optimal length recorded for `n` marks, if the table holds one.
pub fn optimal_length(n: usize) -> (r: Option<u32>)
    ensures
        n < 29 ==> r == Some(OGR_OPTIMAL@[n as int]),
        n >= 29 ==> r is None,
{
    if n < OGR_OPTIMAL.len() {
        Some(OGR_OPTIMAL[n])
    } else {
        None
    }
}

/// Number of 64-bit words a bitmap needs to hold bits `0..=max_bit`.
pub fn required_words(max_bit: u32) -> (r: usize)
    requires
        max_bit <= u32::MAX - 64,
    ensures
        r == (max_bit + 64) / 64,
        max_bit < 64 * r,
        64 * r <= max_bit + 64,
{
    ((max_bit + 64) / 64) as usize
}

} // verus!
