use vstd::prelude::*;
use crate::bitmap::{Bitmap, lemma_view_len};
use crate::known::required_words;
use crate::ruler::{completes, is_golomb, is_ruler, ruler_exists, lemma_prefix_golomb, lemma_increasing_gaps, lex_less,
    first_completion, lemma_lex_first_leaf, lemma_lex_first_step};
use crate::search::{State, initial_state, child, lemma_newbits, gaps_describe, marks_from_gaps};

verus! {

broadcast use {lemma_view_len, vstd::slice::group_slice_axioms};

/// Find a Golomb ruler with `n` marks of length <= `max_len`; `None` means that no
/// such ruler exists.
pub fn find<const W: usize>(n: usize, max_len: u32) -> (r: Option<Vec<u32>>)
    requires
        max_len < 64 * W,
        64 * W <= u32::MAX,
        n <= u32::MAX,
    ensures
        r is Some <==> ruler_exists(n as nat, max_len as int),
        r matches Some(v) ==> is_ruler(v@, n as nat, max_len as int),
        r matches Some(v) ==> forall|w: Seq<u32>| #[trigger] is_ruler(w, n as nat, max_len as int) ==> !lex_less(w, v@),
{
    if n <= 1 {
        let v: Vec<u32> = vec![0u32; n.min(1)];
        proof {
            if n == 1 {
                assert(v@ =~= seq![0u32]);
            } else {
                assert(v@ =~= Seq::<u32>::empty());
            }
            assert(is_ruler(v@, n as nat, max_len as int));
            assert forall|w: Seq<u32>| #[trigger] is_ruler(w, n as nat, max_len as int) implies !lex_less(w, v@) by {
                if lex_less(w, v@) {
                    let i = choose|i: int| 0 <= i < w.len() && i < v@.len() && w[i] < v@[i] && forall|j: int| 0 <= j < i ==> w[j] == v@[j];
                }
            }
        }
        return Some(v);
    }
    let state = initial_state::<W>(Ghost(max_len as int));
    let mut gaps: Vec<u32> = vec![0u32; n - 1];
    let found = dfs_find(state, n, max_len, gaps.as_mut_slice(), 0);
    proof {
        if ruler_exists(n as nat, max_len as int) {
            let w = choose|w: Seq<u32>| is_ruler(w, n as nat, max_len as int);
            assert(completes(w, seq![0u32], n as nat, max_len as int));
        }
    }
    if found {
        let ghost w = choose|w: Seq<u32>| first_completion(w, seq![0u32], n as nat, max_len as int) && gaps_describe(gaps@, w);
        let marks = marks_from_gaps(gaps.as_slice(), n, Ghost(w));
        proof {
            assert forall|w2: Seq<u32>| #[trigger] is_ruler(w2, n as nat, max_len as int) implies !lex_less(w2, marks@) by {
                assert(completes(w2, seq![0u32], n as nat, max_len as int));
            }
        }
        Some(marks)
    } else {
        None
    }
}

/// `find` with the bitmap width chosen from `max_len`.
pub fn find_dispatched(n: usize, max_len: u32) -> (r: Option<Vec<u32>>)
    requires
        max_len < 640,
        n <= u32::MAX,
    ensures
        r is Some <==> ruler_exists(n as nat, max_len as int),
        r matches Some(v) ==> is_ruler(v@, n as nat, max_len as int),
        r matches Some(v) ==> forall|w: Seq<u32>| #[trigger] is_ruler(w, n as nat, max_len as int) ==> !lex_less(w, v@),
{
    let words = required_words(max_len);
    match words {
        1 => find::<1>(n, max_len),
        2 => find::<2>(n, max_len),
        3 => find::<3>(n, max_len),
        4 => find::<4>(n, max_len),
        5 => find::<5>(n, max_len),
        6 => find::<6>(n, max_len),
        7 => find::<7>(n, max_len),
        8 => find::<8>(n, max_len),
        9 => find::<9>(n, max_len),
        _ => find::<10>(n, max_len),
    }
}

fn dfs_find<const W: usize>(state: State<W>, n: usize, max_len: u32, gaps: &mut [u32], gap_idx: usize) -> (r: bool)
    requires
        state.inv(max_len as int),
        state.depth <= n <= u32::MAX,
        old(gaps)@.len() == n - 1,
        gap_idx == state.depth - 1,
        forall|i: int| 0 <= i < state.depth - 1 ==> #[trigger] old(gaps)@[i] == state.marks@[i + 1] - state.marks@[i],
    ensures
        final(gaps)@.len() == old(gaps)@.len(),
        forall|i: int| 0 <= i < state.depth - 1 ==> #[trigger] final(gaps)@[i] == old(gaps)@[i],
        r <==> exists|w: Seq<u32>| completes(w, state.marks@, n as nat, max_len as int),
        r ==> exists|w: Seq<u32>| first_completion(w, state.marks@, n as nat, max_len as int) && gaps_describe(final(gaps)@, w),
    decreases n - state.depth,
{
    let ghost m = state.marks@;
    let ghost k = m.len() as int;
    if state.depth == n {
        assert(completes(m, m, n as nat, max_len as int));
        assert(gaps_describe(gaps@, m));
        proof {
            lemma_lex_first_leaf(m, n as nat, max_len as int);
            assert(first_completion(m, m, n as nat, max_len as int));
        }
        return true;
    }
    let rem = n - state.depth;
    let max_gap = max_len.saturating_sub(state.pos);
    let gap_ceiling = max_gap.saturating_sub(rem as u32 - 1);
    let mut newbits = Bitmap::<W>::zero();
    let mut gap: u32 = 0;
    while gap < gap_ceiling
        invariant
            state.inv(max_len as int),
            m == state.marks@,
            k == m.len(),
            state.depth < n <= u32::MAX,
            rem == n - state.depth,
            gap_ceiling == (if max_len - state.pos >= rem - 1 { max_len - state.pos - (rem - 1) } else { 0 }),
            gap <= gap_ceiling,
            gaps@.len() == n - 1,
            old(gaps)@.len() == n - 1,
            gap_idx == state.depth - 1,
            forall|i: int| 0 <= i < state.depth - 1 ==> #[trigger] gaps@[i] == old(gaps)@[i],
            forall|i: int| 0 <= i < state.depth - 1 ==> #[trigger] old(gaps)@[i] == m[i + 1] - m[i],
            forall|w: Seq<u32>| #[trigger] completes(w, m, n as nat, max_len as int) ==> w[k] > state.pos + gap,
        decreases gap_ceiling - gap,
    {
        gap += 1;
        state.ruler.shl_into(gap as usize, &mut newbits);
        proof {
            lemma_newbits(state, max_len as int, gap as int, newbits@);
        }
        let conflict = newbits.intersects(&state.dist);
        let ghost x = (state.pos + gap) as u32;
        if conflict {
            proof {
                assert forall|w: Seq<u32>| #[trigger] completes(w, m, n as nat, max_len as int) implies w[k] > state.pos + gap by {
                    if w[k] == x {
                        lemma_prefix_golomb(w, k + 1);
                        assert(w.subrange(0, k + 1) =~= m.push(x));
                    }
                }
            }
            continue;
        }
        let new_state = child(&state, gap, &newbits, Ghost(max_len as int));
        gaps[gap_idx] = gap;
        let found = dfs_find(new_state, n, max_len, gaps, gap_idx + 1);
        if found {
            proof {
                let w = choose|w: Seq<u32>| first_completion(w, m.push(x), n as nat, max_len as int) && gaps_describe(gaps@, w);
                lemma_lex_first_step(m, x, w, n as nat, max_len as int);
                assert(first_completion(w, m, n as nat, max_len as int));
            }
            return true;
        }
        proof {
            assert forall|w: Seq<u32>| #[trigger] completes(w, m, n as nat, max_len as int) implies w[k] > state.pos + gap by {
                if w[k] == x {
                    assert(completes(w, m.push(x), n as nat, max_len as int));
                }
            }
        }
    }
    proof {
        assert forall|w: Seq<u32>| !completes(w, m, n as nat, max_len as int) by {
            if completes(w, m, n as nat, max_len as int) {
                lemma_increasing_gaps(w, k, n - 1);
            }
        }
    }
    false
}

/// Decide whether a Golomb ruler with `n` marks of length <= `max_len` exists.
pub fn exists_ruler<const W: usize>(n: usize, max_len: u32) -> (r: bool)
    requires
        max_len < 64 * W,
        64 * W <= u32::MAX,
        n <= u32::MAX,
    ensures
        r == ruler_exists(n as nat, max_len as int),
{
    if n <= 1 {
        proof {
            if n == 1 {
                assert(is_ruler(seq![0u32], 1, max_len as int));
            } else {
                assert(is_ruler(Seq::<u32>::empty(), 0, max_len as int));
            }
        }
        return true;
    }
    let state = initial_state::<W>(Ghost(max_len as int));
    let r = dfs_exists(state, n, max_len);
    proof {
        if ruler_exists(n as nat, max_len as int) {
            let w = choose|w: Seq<u32>| is_ruler(w, n as nat, max_len as int);
            assert(completes(w, seq![0u32], n as nat, max_len as int));
        }
        if r {
            let w = choose|w: Seq<u32>| completes(w, seq![0u32], n as nat, max_len as int);
            assert(is_ruler(w, n as nat, max_len as int));
        }
    }
    r
}

/// `exists_ruler` with the bitmap width chosen from `max_len`.
pub fn exists_dispatched(n: usize, max_len: u32) -> (r: bool)
    requires
        max_len < 640,
        n <= u32::MAX,
    ensures
        r == ruler_exists(n as nat, max_len as int),
{
    let words = required_words(max_len);
    match words {
        1 => exists_ruler::<1>(n, max_len),
        2 => exists_ruler::<2>(n, max_len),
        3 => exists_ruler::<3>(n, max_len),
        4 => exists_ruler::<4>(n, max_len),
        5 => exists_ruler::<5>(n, max_len),
        6 => exists_ruler::<6>(n, max_len),
        7 => exists_ruler::<7>(n, max_len),
        8 => exists_ruler::<8>(n, max_len),
        9 => exists_ruler::<9>(n, max_len),
        _ => exists_ruler::<10>(n, max_len),
    }
}

fn dfs_exists<const W: usize>(state: State<W>, n: usize, max_len: u32) -> (r: bool)
    requires
        state.inv(max_len as int),
        state.depth <= n <= u32::MAX,
    ensures
        r <==> exists|w: Seq<u32>| completes(w, state.marks@, n as nat, max_len as int),
    decreases n - state.depth,
{
    let ghost m = state.marks@;
    let ghost k = m.len() as int;
    if state.depth == n {
        assert(completes(m, m, n as nat, max_len as int));
        return true;
    }
    let rem = n - state.depth;
    let max_gap = max_len.saturating_sub(state.pos);
    let gap_ceiling = max_gap.saturating_sub(rem as u32 - 1);
    let mut newbits = Bitmap::<W>::zero();
    let mut gap: u32 = 0;
    while gap < gap_ceiling
        invariant
            state.inv(max_len as int),
            m == state.marks@,
            k == m.len(),
            state.depth < n <= u32::MAX,
            rem == n - state.depth,
            gap_ceiling == (if max_len - state.pos >= rem - 1 { max_len - state.pos - (rem - 1) } else { 0 }),
            gap <= gap_ceiling,
            forall|w: Seq<u32>| #[trigger] completes(w, m, n as nat, max_len as int) ==> w[k] > state.pos + gap,
        decreases gap_ceiling - gap,
    {
        gap += 1;
        state.ruler.shl_into(gap as usize, &mut newbits);
        proof {
            lemma_newbits(state, max_len as int, gap as int, newbits@);
        }
        let conflict = newbits.intersects(&state.dist);
        let ghost x = (state.pos + gap) as u32;
        if conflict {
            proof {
                assert forall|w: Seq<u32>| #[trigger] completes(w, m, n as nat, max_len as int) implies w[k] > state.pos + gap by {
                    if w[k] == x {
                        lemma_prefix_golomb(w, k + 1);
                        assert(w.subrange(0, k + 1) =~= m.push(x));
                    }
                }
            }
            continue;
        }
        let new_state = child(&state, gap, &newbits, Ghost(max_len as int));
        if dfs_exists(new_state, n, max_len) {
            proof {
                let w = choose|w: Seq<u32>| completes(w, m.push(x), n as nat, max_len as int);
                assert forall|i: int| 0 <= i < k implies w[i] == m[i] by {
                    assert(m.push(x)[i] == m[i]);
                }
                assert(completes(w, m, n as nat, max_len as int));
            }
            return true;
        }
        proof {
            assert forall|w: Seq<u32>| #[trigger] completes(w, m, n as nat, max_len as int) implies w[k] > state.pos + gap by {
                if w[k] == x {
                    assert(completes(w, m.push(x), n as nat, max_len as int));
                }
            }
        }
    }
    proof {
        assert forall|w: Seq<u32>| !completes(w, m, n as nat, max_len as int) by {
            if completes(w, m, n as nat, max_len as int) {
                lemma_increasing_gaps(w, k, n - 1);
            }
        }
    }
    false
}

} // verus!
