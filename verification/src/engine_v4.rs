use vstd::prelude::*;
use crate::bitmap::{Bitmap, lemma_view_len, unset_list, scan_end, shifted};
use std::ops::{BitOrAssign, Not};
use crate::bounds::{lists_smallest, lemma_smallest_sum, gaps_from, lemma_gaps_sum};
use crate::engine_v3::{known_lengths_are_lower_bounds, first_gap_smaller, lemma_static_tail};
use crate::known::OGR_OPTIMAL;
use crate::positions::{positions, seq_sum, lemma_positions_members};
use crate::ruler::{completes, is_golomb, is_distance, is_ruler, span, lemma_prefix_golomb, lemma_increasing_gaps};
use crate::search::{State, initial_state, child, lemma_newbits, gaps_describe, marks_from_gaps};

verus! {

broadcast use {lemma_view_len, vstd::slice::group_slice_axioms};

/// Stub work units: a search state and the gaps that led to it.
pub open spec fn stub_ok<const W: usize>(stub: (State<W>, Vec<u32>), n: nat, max_len: int) -> bool {
    &&& stub.0.inv(max_len)
    &&& stub.0.depth <= n
    &&& stub.1@.len() == n - 1
    &&& forall|i: int| 0 <= i < stub.0.depth - 1 ==> #[trigger] stub.1@[i] == stub.0.marks@[i + 1] - stub.0.marks@[i]
    &&& stub.0.depth == n ==> first_gap_smaller(stub.0.marks@)
}

/// With the table's lower bounds, the last gap of a ruler whose first gap is the
/// smaller one makes the tail after mark `i` at least the table value for the marks
/// before the last, plus the first gap, plus one.
pub proof fn lemma_sym_tail(w: Seq<u32>, i: int)
    requires
        known_lengths_are_lower_bounds(),
        is_golomb(w),
        w.len() >= 3,
        first_gap_smaller(w),
        0 <= i <= w.len() - 2,
        w.len() - 1 - i < 29,
    ensures
        w[w.len() - 1] - w[i] >= OGR_OPTIMAL@[w.len() - 1 - i] + (w[1] - w[0]) + 1,
{
    let l = w.len() - 1;
    let front = w.subrange(0, l);
    lemma_prefix_golomb(w, l);
    lemma_static_tail(front, i);
    assert(front[front.len() - 1] == w[l - 1] && front[i] == w[i]);
}

/// A stub produced below the marks `m`: it sits at the target depth (or holds all `n`
/// marks) and its marks begin with `m`.
pub open spec fn stub_reaches<const W: usize>(stub: (State<W>, Vec<u32>), target: int, n: int, m: Seq<u32>) -> bool {
    &&& stub.0.depth == target || stub.0.depth == n
    &&& stub.0.depth <= target
    &&& stub.0.marks@.len() >= m.len()
    &&& forall|i: int| 0 <= i < m.len() ==> stub.0.marks@[i] == m[i]
}

/// How many marks the units of work of the parallel engine hold.
pub open spec fn stub_depth(n: int) -> int {
    if n <= 6 {
        2
    } else if n <= 12 {
        3
    } else {
        4
    }
}

/// Enumerate all valid placements for the first marks, down to `target_depth`; each
/// becomes an independent unit of work.
fn enumerate_stubs<const W: usize>(
    state: State<W>,
    n: usize,
    max_len: u32,
    target_depth: usize,
    gaps: &mut [u32],
    gap_idx: usize,
    stubs: &mut Vec<(State<W>, Vec<u32>)>,
)
    requires
        state.inv(max_len as int),
        max_len < 0x0800_0000,
        2 <= n <= u32::MAX,
        state.depth <= n,
        state.depth <= target_depth,
        state.depth == n ==> first_gap_smaller(state.marks@),
        old(gaps)@.len() == n - 1,
        gap_idx == state.depth - 1,
        forall|i: int| 0 <= i < state.depth - 1 ==> #[trigger] old(gaps)@[i] == state.marks@[i + 1] - state.marks@[i],
        forall|j: int| 0 <= j < old(stubs)@.len() ==> stub_ok(#[trigger] old(stubs)@[j], n as nat, max_len as int),
    ensures
        final(gaps)@.len() == old(gaps)@.len(),
        forall|i: int| 0 <= i < state.depth - 1 ==> #[trigger] final(gaps)@[i] == old(gaps)@[i],
        final(stubs)@.len() >= old(stubs)@.len(),
        forall|j: int| 0 <= j < old(stubs)@.len() ==> #[trigger] final(stubs)@[j] == old(stubs)@[j],
        forall|j: int| 0 <= j < final(stubs)@.len() ==> stub_ok(#[trigger] final(stubs)@[j], n as nat, max_len as int),
        known_lengths_are_lower_bounds() ==> forall|w: Seq<u32>|
            #[trigger] completes(w, state.marks@, n as nat, max_len as int) && first_gap_smaller(w) ==> exists|j: int|
                old(stubs)@.len() <= j < final(stubs)@.len() && completes(w, (#[trigger] final(stubs)@[j]).0.marks@, n as nat, max_len as int),
        forall|j: int| old(stubs)@.len() <= j < final(stubs)@.len() ==> stub_reaches(
            #[trigger] final(stubs)@[j], target_depth as int, n as int, state.marks@),
    decreases n - state.depth,
{
    let ghost m = state.marks@;
    let ghost k = m.len() as int;
    let ghost s0 = stubs@;
    if state.depth == target_depth || state.depth == n {
        let v = vstd::slice::slice_to_vec(gaps);
        stubs.push((state, v));
        proof {
            assert(stubs@[s0.len() as int] == (state, v));
            assert(stub_reaches(stubs@[s0.len() as int], target_depth as int, n as int, m));
            assert forall|w: Seq<u32>| #[trigger] completes(w, m, n as nat, max_len as int) && first_gap_smaller(w) implies exists|j: int|
                s0.len() <= j < stubs@.len() && completes(w, (#[trigger] stubs@[j]).0.marks@, n as nat, max_len as int) by {
                assert(completes(w, stubs@[s0.len() as int].0.marks@, n as nat, max_len as int));
            }
        }
        return;
    }
    let rem = n - state.depth;
    let max_gap = max_len - state.pos;
    let gap_ceiling = max_gap.saturating_sub(rem as u32 - 1);
    if gap_ceiling == 0 {
        proof {
            assert forall|w: Seq<u32>| !(#[trigger] completes(w, m, n as nat, max_len as int) && first_gap_smaller(w)) by {
                if completes(w, m, n as nat, max_len as int) {
                    lemma_increasing_gaps(w, k, n - 1);
                    assert(w[k - 1] < w[k]);
                }
            }
        }
        return;
    }
    let mut newbits = Bitmap::<W>::zero();
    let mut gap: u32 = 0;
    while gap < gap_ceiling
        invariant
            state.inv(max_len as int),
            max_len < 0x0800_0000,
            m == state.marks@,
            k == m.len(),
            state.depth < n <= u32::MAX,
            state.depth < target_depth,
            n >= 2,
            rem == n - state.depth,
            gap_ceiling == (if max_len - state.pos >= rem - 1 { max_len - state.pos - (rem - 1) } else { 0 }),
            gap <= gap_ceiling,
            gaps@.len() == n - 1,
            old(gaps)@.len() == n - 1,
            gap_idx == state.depth - 1,
            forall|i: int| 0 <= i < state.depth - 1 ==> #[trigger] gaps@[i] == old(gaps)@[i],
            forall|i: int| 0 <= i < state.depth - 1 ==> #[trigger] old(gaps)@[i] == m[i + 1] - m[i],
            s0 == old(stubs)@,
            stubs@.len() >= s0.len(),
            forall|j: int| 0 <= j < s0.len() ==> #[trigger] stubs@[j] == s0[j],
            forall|j: int| 0 <= j < stubs@.len() ==> stub_ok(#[trigger] stubs@[j], n as nat, max_len as int),
            forall|j: int| s0.len() <= j < stubs@.len() ==> stub_reaches(#[trigger] stubs@[j], target_depth as int, n as int, m),
            known_lengths_are_lower_bounds() ==> forall|w: Seq<u32>|
                #[trigger] completes(w, m, n as nat, max_len as int) && first_gap_smaller(w) && w[k] <= state.pos + gap ==> exists|j: int|
                    s0.len() <= j < stubs@.len() && completes(w, (#[trigger] stubs@[j]).0.marks@, n as nat, max_len as int),
        decreases gap_ceiling - gap,
    {
        gap += 1;
        let ghost x = (state.pos + gap) as u32;
        let ghost before = stubs@;
        if state.depth == n - 1 && gap <= state.first_gap {
            proof {
                if known_lengths_are_lower_bounds() {
                    assert forall|w: Seq<u32>|
                        #[trigger] completes(w, m, n as nat, max_len as int) && first_gap_smaller(w) && w[k] <= state.pos + gap implies exists|j: int|
                            s0.len() <= j < stubs@.len() && completes(w, (#[trigger] stubs@[j]).0.marks@, n as nat, max_len as int) by {
                        if w[k] == x {
                            assert(w[1] == m[1]);
                        }
                    }
                }
            }
            continue;
        }
        state.ruler.shl_into(gap as usize, &mut newbits);
        proof {
            lemma_newbits(state, max_len as int, gap as int, newbits@);
        }
        if newbits.intersects(&state.dist) {
            proof {
                if known_lengths_are_lower_bounds() {
                    assert forall|w: Seq<u32>|
                        #[trigger] completes(w, m, n as nat, max_len as int) && first_gap_smaller(w) && w[k] <= state.pos + gap implies exists|j: int|
                            s0.len() <= j < stubs@.len() && completes(w, (#[trigger] stubs@[j]).0.marks@, n as nat, max_len as int) by {
                        if w[k] == x {
                            lemma_prefix_golomb(w, k + 1);
                            assert(w.subrange(0, k + 1) =~= m.push(x));
                        }
                    }
                }
            }
            continue;
        }
        if rem + 1 < OGR_OPTIMAL.len() {
            let new_pos = state.pos + gap;
            let bound = new_pos + OGR_OPTIMAL[rem];
            if bound > max_len {
                proof {
                    if known_lengths_are_lower_bounds() {
                        assert forall|w: Seq<u32>|
                            #[trigger] completes(w, m, n as nat, max_len as int) && first_gap_smaller(w) && w[k] <= state.pos + gap implies exists|j: int|
                                s0.len() <= j < stubs@.len() && completes(w, (#[trigger] stubs@[j]).0.marks@, n as nat, max_len as int) by {
                            if w[k] == x {
                                lemma_static_tail(w, k);
                            }
                        }
                    }
                }
                continue;
            }
        }
        if rem >= 2 && (rem - 1) < OGR_OPTIMAL.len() {
            let child_first_gap = if state.depth == 1 { gap } else { state.first_gap };
            if child_first_gap > 0 {
                let sym_bound = (state.pos + gap) + OGR_OPTIMAL[rem - 1] + child_first_gap + 1;
                if sym_bound > max_len {
                    proof {
                        if known_lengths_are_lower_bounds() {
                            assert forall|w: Seq<u32>|
                                #[trigger] completes(w, m, n as nat, max_len as int) && first_gap_smaller(w) && w[k] <= state.pos + gap implies exists|j: int|
                                    s0.len() <= j < stubs@.len() && completes(w, (#[trigger] stubs@[j]).0.marks@, n as nat, max_len as int) by {
                                if w[k] == x {
                                    if state.depth == 1 {
                                        assert(w[1] == x && w[0] == 0);
                                    } else {
                                        assert(w[1] == m[1]);
                                    }
                                    lemma_sym_tail(w, k);
                                }
                            }
                        }
                    }
                    continue;
                }
            }
        }
        let new_state = child(&state, gap, &newbits, Ghost(max_len as int));
        gaps[gap_idx] = gap;
        proof {
            if new_state.depth == n && n >= 3 {
                assert(new_state.marks@[1] == m[1]);
            }
        }
        enumerate_stubs(new_state, n, max_len, target_depth, gaps, gap_idx + 1, stubs);
        proof {
            assert forall|j: int| s0.len() <= j < stubs@.len() implies stub_reaches(#[trigger] stubs@[j], target_depth as int, n as int, m) by {
                if j >= before.len() {
                    assert forall|i: int| 0 <= i < m.len() implies stubs@[j].0.marks@[i] == m[i] by {
                        assert(m.push(x)[i] == m[i]);
                    }
                } else {
                    assert(stubs@[j] == before[j]);
                }
            }
            if known_lengths_are_lower_bounds() {
                assert forall|w: Seq<u32>|
                    #[trigger] completes(w, m, n as nat, max_len as int) && first_gap_smaller(w) && w[k] <= state.pos + gap implies exists|j: int|
                        s0.len() <= j < stubs@.len() && completes(w, (#[trigger] stubs@[j]).0.marks@, n as nat, max_len as int) by {
                    if w[k] == x {
                        assert(completes(w, m.push(x), n as nat, max_len as int));
                        let j = choose|j: int| before.len() <= j < stubs@.len() && completes(w, (#[trigger] stubs@[j]).0.marks@, n as nat, max_len as int);
                    } else {
                        let j = choose|j: int| s0.len() <= j < before.len() && completes(w, (#[trigger] before[j]).0.marks@, n as nat, max_len as int);
                        assert(stubs@[j] == before[j]);
                    }
                }
            }
        }
    }
    proof {
        assert forall|w: Seq<u32>| !(#[trigger] completes(w, m, n as nat, max_len as int) && first_gap_smaller(w) && w[k] > state.pos + gap) by {
            if completes(w, m, n as nat, max_len as int) && w[k] > state.pos + gap {
                lemma_increasing_gaps(w, k, n - 1);
            }
        }
    }
}

/// Clear positions of `dist` in `[1, max_bit]` within the bitmap.
pub open spec fn clear_in_range<const W: usize>(dist: Bitmap<W>, max_bit: int) -> spec_fn(int) -> bool {
    |v: int| 1 <= v < scan_end(W as int, max_bit) && !dist@[v]
}

/// The gaps of a completion after the rightmost placed mark are free distances of
/// the placed marks, below the completion's remaining length.
proof fn lemma_remaining_gaps<const W: usize>(st: State<W>, bound: int, w: Seq<u32>, n: nat)
    requires
        st.inv(bound),
        completes(w, st.marks@, n, bound),
        w.len() > st.marks@.len(),
    ensures
        ({
            let k = st.marks@.len() as int;
            let g = gaps_from(w, k - 1);
            &&& g.len() == n - k
            &&& g.no_duplicates()
            &&& seq_sum(g) == w[n - 1] - w[k - 1]
            &&& forall|i: int| 0 <= i < g.len() ==> 1 <= #[trigger] g[i] <= w[n - 1] - w[k - 1] && g[i] < 64 * W && !st.dist@[g[i]]
        }),
{
    let m = st.marks@;
    let k = m.len() as int;
    let g = gaps_from(w, k - 1);
    lemma_gaps_sum(w, k - 1);
    assert(g.no_duplicates()) by {
        assert forall|a: int, b: int| 0 <= a < g.len() && 0 <= b < g.len() && a != b implies g[a] != g[b] by {
            assert(g[a] == span(w, k - 1 + a, k + a));
            assert(g[b] == span(w, k - 1 + b, k + b));
        }
    }
    assert forall|i: int| 0 <= i < g.len() implies 1 <= #[trigger] g[i] <= w[n - 1] - w[k - 1] && g[i] < 64 * W && !st.dist@[g[i]] by {
        let d = g[i];
        assert(d == span(w, k - 1 + i, k + i));
        assert(w[k - 1 + i] < w[k + i]);
        assert(w[k + i] <= w[n - 1]);
        assert(w[k - 1] <= w[k - 1 + i]);
        if st.dist@[d] {
            let (a, b) = choose|a: int, b: int| 0 <= a < b < m.len() && #[trigger] span(m, a, b) == d;
            assert(span(w, a, b) == span(m, a, b));
        }
    }
}

/// The remaining gaps of a completion shorter than `lb` bound the sum of the smallest
/// free distances: there are at least as many free distances, and they sum to no more.
proof fn lemma_dynamic_bound<const W: usize>(st: State<W>, bound: int, w: Seq<u32>, n: nat, lb: int)
    requires
        st.inv(bound),
        completes(w, st.marks@, n, bound),
        w.len() > st.marks@.len(),
        w[n - 1] < lb,
    ensures
        unset_list(st.dist, lb).len() >= n - st.marks@.len(),
        st.pos + seq_sum(unset_list(st.dist, lb).take(n - st.marks@.len())) <= w[n - 1],
{
    let m = st.marks@;
    let k = m.len() as int;
    let g = gaps_from(w, k - 1);
    let u = unset_list(st.dist, lb);
    let p = clear_in_range(st.dist, lb);
    lemma_remaining_gaps(st, bound, w, n);
    lemma_positions_members(st.dist@, false, 1, scan_end(W as int, lb));
    assert(w[k - 1] == st.pos);
    assert forall|i: int| 0 <= i < g.len() implies #[trigger] p(g[i]) by {
        assert(g[i] <= w[n - 1] - w[k - 1]);
    }
    assert(g.to_set().subset_of(u.to_set())) by {
        assert forall|x: int| g.to_set().contains(x) implies u.to_set().contains(x) by {
            let i = choose|i: int| 0 <= i < g.len() && g[i] == x;
            assert(p(g[i]));
            assert(u.contains(x));
        }
    }
    g.unique_seq_to_set();
    u.lemma_cardinality_of_set();
    vstd::set_lib::lemma_len_subset(g.to_set(), u.to_set());
    assert(lists_smallest(u, p)) by {
        assert forall|i: int| 0 <= i < u.len() implies #[trigger] p(u[i]) by {
            assert(u.contains(u[i]));
        }
        assert forall|v: int, j: int| 0 <= j < u.len() && #[trigger] p(v) && v <= #[trigger] u[j] implies u.take(j + 1).contains(v) by {
            assert(u.contains(u[j]));
            assert(u.contains(v));
            let t = choose|t: int| 0 <= t < u.len() && u[t] == v;
            if t > j {
                assert(u[j] < u[t]);
            }
            assert(u.take(j + 1)[t] == v);
        }
    }
    lemma_smallest_sum(u, p, g);
}

/// The node-level bounds rule out a ruler shorter than `lb` below `state`: the table
/// bound on the remaining marks, its symmetric form (the last gap exceeds the first), the
/// sum of the smallest distances still free, or room for one gap per remaining mark.
pub open spec fn node_pruned<const W: usize>(state: State<W>, n: int, lb: int) -> bool {
    let rem = n - state.depth;
    let u = unset_list(state.dist, lb);
    ||| rem + 1 < 29 && state.pos + OGR_OPTIMAL@[rem + 1] >= lb
    ||| state.first_gap > 0 && 2 <= rem < 29 && state.pos + OGR_OPTIMAL@[rem] + state.first_gap + 1 >= lb
    ||| u.len() < rem || state.pos + seq_sum(u.take(rem)) >= lb
    ||| state.pos + (rem - 1) >= lb
}

/// Node-level pruning of the parallel engine: the largest gap worth trying for the next
/// mark given the best length `lb` known, or 0 when nothing below `lb` can follow.
pub fn node_gap_ceiling<const W: usize>(state: &State<W>, n: usize, lb: u32) -> (ceil: u32)
    requires
        state.inv(state.bound@),
        0 <= state.bound@ < 0x0800_0000,
        state.depth < n <= u32::MAX,
        (n as int) * (state.bound@ + 2) <= u32::MAX,
        lb <= state.bound@ + 1,
    ensures
        ceil == if node_pruned(*state, n as int, lb as int) { 0 } else { lb - state.pos - (n - state.depth - 1) },
        ceil > 0 ==> state.pos + (n - state.depth - 1) < lb && ceil == lb - state.pos - (n - state.depth - 1),
        known_lengths_are_lower_bounds() ==> ceil == 0 ==> forall|w: Seq<u32>|
            #[trigger] completes(w, state.marks@, n as nat, state.bound@) && first_gap_smaller(w) ==> w[n - 1] >= lb,
{
    let ghost bound = state.bound@;
    let ghost m = state.marks@;
    let ghost k = m.len() as int;
    let rem = n - state.depth;
    if rem + 1 < OGR_OPTIMAL.len() {
        let static_bound = state.pos + OGR_OPTIMAL[rem + 1];
        if static_bound >= lb {
            proof {
                if known_lengths_are_lower_bounds() {
                    assert forall|w: Seq<u32>| #[trigger] completes(w, m, n as nat, bound) && first_gap_smaller(w) implies w[n - 1] >= lb by {
                        assert(w[k - 1] == m[k - 1]);
                        lemma_static_tail(w, k - 1);
                    }
                }
            }
            return 0;
        }
    }
    if state.first_gap > 0 && rem < OGR_OPTIMAL.len() && rem >= 2 {
        let sym_bound = state.pos + OGR_OPTIMAL[rem] + state.first_gap + 1;
        if sym_bound >= lb {
            proof {
                if known_lengths_are_lower_bounds() {
                    assert forall|w: Seq<u32>| #[trigger] completes(w, m, n as nat, bound) && first_gap_smaller(w) implies w[n - 1] >= lb by {
                        assert(w[k - 1] == m[k - 1]);
                        assert(w[1] == m[1] && w[0] == 0);
                        lemma_sym_tail(w, k - 1);
                    }
                }
            }
            return 0;
        }
    }
    proof {
        let u = unset_list(state.dist, lb as int);
        let c = if rem < u.len() { rem as int } else { u.len() as int };
        lemma_positions_members(state.dist@, false, 1, scan_end(W as int, lb as int));
        assert forall|i: int| 0 <= i < u.take(c).len() implies 0 <= #[trigger] u.take(c)[i] <= bound + 2 by {
            assert(u.take(c)[i] == u[i]);
        }
        crate::engine_v3::lemma_sum_le(u.take(c), bound + 2);
        assert(c * (bound + 2) + bound + 2 <= (n as int) * (bound + 2)) by (nonlinear_arith)
            requires
                0 <= c <= n - 1,
                bound >= 0;
    }
    match state.dist.sum_smallest_unset(rem, lb as usize) {
        Some(s) if state.pos + s < lb => {},
        _ => {
            proof {
                if known_lengths_are_lower_bounds() {
                    assert forall|w: Seq<u32>| #[trigger] completes(w, m, n as nat, bound) && first_gap_smaller(w) implies w[n - 1] >= lb by {
                        if w[n - 1] < lb {
                            lemma_dynamic_bound(*state, bound, w, n as nat, lb as int);
                        }
                    }
                }
            }
            return 0;
        },
    }
    let max_gap = lb.saturating_sub(state.pos);
    if max_gap == 0 {
        proof {
            assert forall|w: Seq<u32>| #[trigger] completes(w, m, n as nat, bound) && first_gap_smaller(w) implies w[n - 1] >= lb by {
                assert(w[k - 1] == m[k - 1]);
                assert(w[k - 1] < w[n - 1]);
            }
        }
        return 0;
    }
    let gap_ceiling = max_gap.saturating_sub(rem as u32 - 1);
    if gap_ceiling == 0 {
        proof {
            assert forall|w: Seq<u32>| #[trigger] completes(w, m, n as nat, bound) && first_gap_smaller(w) implies w[n - 1] >= lb by {
                assert(w[k - 1] == m[k - 1]);
                assert(w[k - 1] < w[k]);
                lemma_increasing_gaps(w, k, n - 1);
            }
        }
        return 0;
    }
    gap_ceiling
}

/// A search task's effect on what it found: unchanged when the best length did not
/// drop, otherwise a ruler whose first marks are `m`.
pub open spec fn found_update(l1: u32, f1: Option<(u32, Vec<u32>)>, l0: u32, f0: Option<(u32, Vec<u32>)>, m: Seq<u32>) -> bool {
    &&& l1 == l0 ==> f1 == f0
    &&& l1 < l0 ==> (f1 matches Some((l, v)) && v@.len() >= m.len() && forall|i: int| 0 <= i < m.len() ==> v@[i] == m[i])
}

/// The result a search task has found: the best length reached and its ruler.
pub open spec fn found_ok(lb: u32, found: Option<(u32, Vec<u32>)>, n: nat, bound: int) -> bool {
    match found {
        Some((l, v)) => l == lb && is_ruler(v@, n, l as int) && v@[n - 1] == l && first_gap_smaller(v@) && l <= bound,
        None => true,
    }
}

/// Gaps that would repeat a used distance: gap `g` is forbidden when some mark `k`
/// left of the rightmost has `g + k` among the used distances.
fn forbidden_gaps<const W: usize>(state: &State<W>) -> (r: Bitmap<W>)
    requires
        64 * W <= u32::MAX,
    ensures
        forall|g: int| 0 <= g < 64 * W ==> (#[trigger] r@[g] <==> exists|k: int|
            0 <= k < 64 * W && state.ruler@[k] && g + k < 64 * W && state.dist@[g + k]),
{
    let mut forbidden = Bitmap::<W>::zero();
    let mut it = state.ruler.iter_set_bits();
    loop
        invariant
            it.wf(),
            it.bits() == state.ruler@,
            64 * W <= u32::MAX,
            0 <= it.pos() <= 64 * W,
            forall|g: int| 0 <= g < 64 * W ==> (#[trigger] forbidden@[g] <==> exists|k: int|
                0 <= k < it.pos() && state.ruler@[k] && g + k < 64 * W && state.dist@[g + k]),
        decreases 64 * W - it.pos(),
    {
        let ghost p = it.pos();
        match it.next() {
            Some(k) => {
                let ghost before = forbidden@;
                let sh = state.dist.shr(k as usize);
                forbidden.bitor_assign(sh);
                proof {
                    assert forall|g: int| 0 <= g < 64 * W implies (#[trigger] forbidden@[g] <==> exists|k2: int|
                        0 <= k2 < it.pos() && state.ruler@[k2] && g + k2 < 64 * W && state.dist@[g + k2]) by {
                        if exists|k2: int| 0 <= k2 < it.pos() && state.ruler@[k2] && g + k2 < 64 * W && state.dist@[g + k2] {
                            let k2 = choose|k2: int| 0 <= k2 < it.pos() && state.ruler@[k2] && g + k2 < 64 * W && state.dist@[g + k2];
                            if k2 != k {
                                assert(k2 < p);
                            }
                        }
                    }
                }
            },
            None => {
                proof {
                    assert forall|g: int| 0 <= g < 64 * W implies (#[trigger] forbidden@[g] <==> exists|k: int|
                        0 <= k < 64 * W && state.ruler@[k] && g + k < 64 * W && state.dist@[g + k]) by {
                        if exists|k: int| 0 <= k < 64 * W && state.ruler@[k] && g + k < 64 * W && state.dist@[g + k] {
                            let k = choose|k: int| 0 <= k < 64 * W && state.ruler@[k] && g + k < 64 * W && state.dist@[g + k];
                            assert(k < p);
                        }
                    }
                }
                return forbidden;
            },
        }
    }
}

/// A gap is forbidden exactly when the new mark would repeat a distance.
proof fn lemma_forbidden_conflict<const W: usize>(state: State<W>, bound: int, g: int, forbidden: Bitmap<W>)
    requires
        state.inv(bound),
        1 <= g,
        state.pos + g <= bound,
        forall|h: int| 0 <= h < 64 * W ==> (#[trigger] forbidden@[h] <==> exists|k: int|
            0 <= k < 64 * W && state.ruler@[k] && h + k < 64 * W && state.dist@[h + k]),
    ensures
        forbidden@[g] <==> !is_golomb(state.marks@.push((state.pos + g) as u32)),
{
    let nb = shifted(state.ruler@, g);
    lemma_newbits(state, bound, g, nb);
    if forbidden@[g] {
        let k = choose|k: int| 0 <= k < 64 * W && state.ruler@[k] && g + k < 64 * W && state.dist@[g + k];
        assert(nb[g + k] && state.dist@[g + k]);
    }
    if exists|d: int| 0 <= d < 64 * W && #[trigger] nb[d] && state.dist@[d] {
        let d = choose|d: int| 0 <= d < 64 * W && #[trigger] nb[d] && state.dist@[d];
        assert(state.ruler@[d - g]);
    }
}

proof fn lemma_shift_step(s: Seq<bool>, g: int)
    requires
        g >= 1,
    ensures
        shifted(shifted(s, g), 1) == shifted(s, g + 1),
{
    assert(shifted(shifted(s, g), 1) =~= shifted(s, g + 1));
}

/// Serial branch-and-bound search below `state`, keeping the best length in
/// `local_best` and the ruler reaching it in `found`.
#[verifier::rlimit(60)]
pub fn dfs_serial<const W: usize>(
    state: State<W>,
    n: usize,
    local_best: &mut u32,
    gaps: &mut [u32],
    found: &mut Option<(u32, Vec<u32>)>,
)
    requires
        0 <= state.bound@ < 0x0800_0000,
        2 <= n <= u32::MAX,
        (n as int) * (state.bound@ + 2) <= u32::MAX,
        state.depth <= n,
        state.inv(state.bound@) || (state.depth == n && state.marks@.len() == n && state.marks@[n - 1] == state.pos
            && state.pos >= *old(local_best)),
        state.inv(state.bound@) && state.depth == n ==> first_gap_smaller(state.marks@),
        old(gaps)@.len() == n - 1,
        forall|i: int| 0 <= i < state.depth - 1 ==> #[trigger] old(gaps)@[i] == state.marks@[i + 1] - state.marks@[i],
        *old(local_best) <= state.bound@ + 1,
        found_ok(*old(local_best), *old(found), n as nat, state.bound@),
    ensures
        final(gaps)@.len() == old(gaps)@.len(),
        forall|i: int| 0 <= i < state.depth - 1 ==> #[trigger] final(gaps)@[i] == old(gaps)@[i],
        *final(local_best) <= *old(local_best),
        found_ok(*final(local_best), *final(found), n as nat, state.bound@),
        *final(local_best) < *old(local_best) ==> (*final(found)) is Some,
        (*old(found)) is Some ==> (*final(found)) is Some,
        known_lengths_are_lower_bounds() ==> forall|w: Seq<u32>|
            #[trigger] completes(w, state.marks@, n as nat, state.bound@) && first_gap_smaller(w) ==> w[n - 1] >= *final(local_best),
        found_update(*final(local_best), *final(found), *old(local_best), *old(found), state.marks@),
    decreases n - state.depth,
{
    let ghost bound = state.bound@;
    let ghost m = state.marks@;
    let ghost k = m.len() as int;
    if state.depth == n {
        if state.pos < *local_best {
            *local_best = state.pos;
            let marks = marks_from_gaps(gaps, n, Ghost(m));
            *found = Some((state.pos, marks));
        }
        proof {
            assert forall|w: Seq<u32>| #[trigger] completes(w, m, n as nat, bound) && first_gap_smaller(w) implies w[n - 1] >= *local_best by {
                assert(w[n - 1] == m[n - 1]);
            }
        }
        return;
    }
    let rem = n - state.depth;
    let gap_ceiling = node_gap_ceiling(&state, n, *local_best);
    if gap_ceiling == 0 {
        return;
    }
    let ghost b0 = *local_best as int;
    proof {
        lemma_increasing_gaps(m, 0, k - 1);
    }
    if gap_ceiling > state.depth as u32 + 2 {
        let forbidden = forbidden_gaps(&state);
        let mut valid = forbidden.not();
        valid.clear_bit(0);
        let mut vit = valid.iter_set_bits();
        loop
            invariant
                0 <= bound < 0x0800_0000,
                (n as int) * (bound + 2) <= u32::MAX,
                state.inv(bound),
                m == state.marks@,
                k == m.len(),
                state.depth < n <= u32::MAX,
                n >= 2,
                rem == n - state.depth,
                b0 == *old(local_best),
                b0 <= bound + 1,
                gap_ceiling > 0,
                gap_ceiling == b0 - state.pos - (rem - 1),
                vit.wf(),
                vit.bits() == valid@,
                0 <= vit.pos() <= 64 * W,
                forall|g: int| 0 <= g < 64 * W ==> (#[trigger] valid@[g] <==> (g != 0 && !forbidden@[g])),
                forall|h: int| 0 <= h < 64 * W ==> (#[trigger] forbidden@[h] <==> exists|kk: int|
                    0 <= kk < 64 * W && state.ruler@[kk] && h + kk < 64 * W && state.dist@[h + kk]),
                *local_best <= b0,
                found_ok(*local_best, *found, n as nat, bound),
                found_update(*local_best, *found, b0 as u32, *old(found), m),
                *local_best < b0 ==> (*found) is Some,
                (*old(found)) is Some ==> (*found) is Some,
                gaps@.len() == n - 1,
                old(gaps)@.len() == n - 1,
                forall|i: int| 0 <= i < state.depth - 1 ==> #[trigger] gaps@[i] == old(gaps)@[i],
                forall|i: int| 0 <= i < state.depth - 1 ==> #[trigger] old(gaps)@[i] == m[i + 1] - m[i],
                known_lengths_are_lower_bounds() ==> forall|w: Seq<u32>|
                    #[trigger] completes(w, m, n as nat, bound) && first_gap_smaller(w) && w[k] < state.pos + vit.pos() ==> w[n - 1] >= *local_best,
            ensures
                *local_best <= b0,
                found_ok(*local_best, *found, n as nat, bound),
                found_update(*local_best, *found, b0 as u32, *old(found), m),
                *local_best < b0 ==> (*found) is Some,
                (*old(found)) is Some ==> (*found) is Some,
                gaps@.len() == n - 1,
                forall|i: int| 0 <= i < state.depth - 1 ==> #[trigger] gaps@[i] == old(gaps)@[i],
                known_lengths_are_lower_bounds() ==> forall|w: Seq<u32>|
                    #[trigger] completes(w, m, n as nat, bound) && first_gap_smaller(w) ==> w[n - 1] >= *local_best,
            decreases 64 * W - vit.pos(),
        {
            let ghost p = vit.pos();
            let next = vit.next();
            proof {
                // Gaps between the old and the new iterator position are all forbidden.
                if known_lengths_are_lower_bounds() {
                    assert forall|w: Seq<u32>|
                        #[trigger] completes(w, m, n as nat, bound) && first_gap_smaller(w) && w[k] >= state.pos + p
                            && w[k] < state.pos + vit.pos() && (next matches Some(g) ==> w[k] != state.pos + g) implies false by {
                        let g = w[k] - state.pos;
                        assert(w[k - 1] == m[k - 1]);
                        assert(w[k] <= w[n - 1]);
                        lemma_prefix_golomb(w, k + 1);
                        assert(w.subrange(0, k + 1) =~= m.push(w[k]));
                        lemma_forbidden_conflict(state, bound, g, forbidden);
                        assert(valid@[g]);
                    }
                }
            }
            match next {
                None => {
                    proof {
                        if known_lengths_are_lower_bounds() {
                            assert forall|w: Seq<u32>| #[trigger] completes(w, m, n as nat, bound) && first_gap_smaller(w) implies w[n - 1] >= *local_best by {
                                assert(w[k] <= w[n - 1]);
                                if w[k] >= state.pos + p {
                                    assert(w[k] < state.pos + vit.pos());
                                }
                            }
                        }
                    }
                    break;
                },
                Some(gap) => {
                    let ghost x = (state.pos + gap) as u32;
                    if gap > gap_ceiling {
                        proof {
                            if known_lengths_are_lower_bounds() {
                                assert forall|w: Seq<u32>| #[trigger] completes(w, m, n as nat, bound) && first_gap_smaller(w) implies w[n - 1] >= *local_best by {
                                    if w[k] >= state.pos + gap {
                                        lemma_increasing_gaps(w, k, n - 1);
                                    } else if w[k] >= state.pos + p {
                                        assert(w[k] < state.pos + vit.pos());
                                    }
                                }
                            }
                        }
                        break;
                    }
                    if state.depth == n - 1 && gap <= state.first_gap {
                        proof {
                            if known_lengths_are_lower_bounds() {
                                assert forall|w: Seq<u32>| #[trigger] completes(w, m, n as nat, bound) && first_gap_smaller(w) && w[k] == x implies w[n - 1] >= *local_best by {
                                    assert(w[1] == m[1]);
                                }
                            }
                        }
                        continue;
                    }
                    if rem < OGR_OPTIMAL.len() {
                        if state.pos + gap + OGR_OPTIMAL[rem] >= *local_best {
                            proof {
                                if known_lengths_are_lower_bounds() {
                                    assert forall|w: Seq<u32>| #[trigger] completes(w, m, n as nat, bound) && first_gap_smaller(w) && w[k] == x implies w[n - 1] >= *local_best by {
                                        lemma_static_tail(w, k);
                                    }
                                }
                            }
                            continue;
                        }
                    }
                    if rem >= 2 && (rem - 1) < OGR_OPTIMAL.len() {
                        let child_first_gap = if state.depth == 1 { gap } else { state.first_gap };
                        if child_first_gap > 0 {
                            let sym_bound = (state.pos + gap) + OGR_OPTIMAL[rem - 1] + child_first_gap + 1;
                            if sym_bound >= *local_best {
                                proof {
                                    if known_lengths_are_lower_bounds() {
                                        assert forall|w: Seq<u32>| #[trigger] completes(w, m, n as nat, bound) && first_gap_smaller(w) && w[k] == x implies w[n - 1] >= *local_best by {
                                            if state.depth == 1 {
                                                assert(w[1] == x && w[0] == 0);
                                            } else {
                                                assert(w[1] == m[1]);
                                            }
                                            lemma_sym_tail(w, k);
                                        }
                                    }
                                }
                                continue;
                            }
                        }
                    }
                    let newbits = state.ruler.shl(gap as usize);
                    proof {
                        if x <= bound {
                            lemma_forbidden_conflict(state, bound, gap as int, forbidden);
                        }
                    }
                    let new_state = child(&state, gap, &newbits, Ghost(bound));
                    gaps[state.depth - 1] = gap;
                    proof {
                        if x <= bound && new_state.depth == n && n >= 3 {
                            assert(new_state.marks@[1] == m[1]);
                        }
                    }
                    let ghost before_best = *local_best;
                    dfs_serial(new_state, n, local_best, gaps, found);
                    proof {
                        if *local_best < before_best {
                            let fv = found->0;
                            let v = fv.1;
                            assert forall|i: int| 0 <= i < m.len() implies v@[i] == m[i] by {
                                assert(m.push(x)[i] == m[i]);
                            }
                        }
                    }
                    proof {
                        if known_lengths_are_lower_bounds() {
                            assert forall|w: Seq<u32>| #[trigger] completes(w, m, n as nat, bound) && first_gap_smaller(w) && w[k] == x implies w[n - 1] >= *local_best by {
                                assert(completes(w, m.push(x), n as nat, bound));
                            }
                        }
                    }
                },
            }
        }
    } else {
        let mut newbits = state.ruler.shl(1);
        let mut gap: u32 = 0;
        while gap < gap_ceiling
            invariant
                0 <= bound < 0x0800_0000,
                (n as int) * (bound + 2) <= u32::MAX,
                state.inv(bound),
                m == state.marks@,
                k == m.len(),
                state.depth < n <= u32::MAX,
                n >= 2,
                rem == n - state.depth,
                b0 == *old(local_best),
                b0 <= bound + 1,
                gap_ceiling == b0 - state.pos - (rem - 1),
                gap <= gap_ceiling,
                newbits@ == shifted(state.ruler@, if gap == 0 { 1 } else { gap as int }),
                *local_best <= b0,
                found_ok(*local_best, *found, n as nat, bound),
                found_update(*local_best, *found, b0 as u32, *old(found), m),
                *local_best < b0 ==> (*found) is Some,
                (*old(found)) is Some ==> (*found) is Some,
                gaps@.len() == n - 1,
                old(gaps)@.len() == n - 1,
                forall|i: int| 0 <= i < state.depth - 1 ==> #[trigger] gaps@[i] == old(gaps)@[i],
                forall|i: int| 0 <= i < state.depth - 1 ==> #[trigger] old(gaps)@[i] == m[i + 1] - m[i],
                known_lengths_are_lower_bounds() ==> forall|w: Seq<u32>|
                    #[trigger] completes(w, m, n as nat, bound) && first_gap_smaller(w) && w[k] <= state.pos + gap ==> w[n - 1] >= *local_best,
            decreases gap_ceiling - gap,
        {
            gap += 1;
            if gap > 1 {
                proof {
                    lemma_shift_step(state.ruler@, gap - 1);
                }
                newbits.shl_one();
            }
            let ghost x = (state.pos + gap) as u32;
            if state.depth == n - 1 && gap <= state.first_gap {
                proof {
                    if known_lengths_are_lower_bounds() {
                        assert forall|w: Seq<u32>|
                            #[trigger] completes(w, m, n as nat, bound) && first_gap_smaller(w) && w[k] <= state.pos + gap implies w[n - 1] >= *local_best by {
                            if w[k] == x {
                                assert(w[1] == m[1]);
                            }
                        }
                    }
                }
                continue;
            }
            proof {
                if x <= bound {
                    lemma_newbits(state, bound, gap as int, newbits@);
                }
            }
            if newbits.intersects(&state.dist) {
                proof {
                    if known_lengths_are_lower_bounds() {
                        assert forall|w: Seq<u32>|
                            #[trigger] completes(w, m, n as nat, bound) && first_gap_smaller(w) && w[k] <= state.pos + gap implies w[n - 1] >= *local_best by {
                            if w[k] == x {
                                assert(w[k] <= w[n - 1]);
                                lemma_prefix_golomb(w, k + 1);
                                assert(w.subrange(0, k + 1) =~= m.push(x));
                            }
                        }
                    }
                }
                continue;
            }
            if rem < OGR_OPTIMAL.len() {
                let new_pos = state.pos + gap;
                if new_pos + OGR_OPTIMAL[rem] >= *local_best {
                    proof {
                        if known_lengths_are_lower_bounds() {
                            assert forall|w: Seq<u32>|
                                #[trigger] completes(w, m, n as nat, bound) && first_gap_smaller(w) && w[k] <= state.pos + gap implies w[n - 1] >= *local_best by {
                                if w[k] == x {
                                    lemma_static_tail(w, k);
                                }
                            }
                        }
                    }
                    continue;
                }
            }
            if rem >= 2 && (rem - 1) < OGR_OPTIMAL.len() {
                let child_first_gap = if state.depth == 1 { gap } else { state.first_gap };
                if child_first_gap > 0 {
                    let sym_bound = (state.pos + gap) + OGR_OPTIMAL[rem - 1] + child_first_gap + 1;
                    if sym_bound >= *local_best {
                        proof {
                            if known_lengths_are_lower_bounds() {
                                assert forall|w: Seq<u32>|
                                    #[trigger] completes(w, m, n as nat, bound) && first_gap_smaller(w) && w[k] <= state.pos + gap implies w[n - 1] >= *local_best by {
                                    if w[k] == x {
                                        if state.depth == 1 {
                                            assert(w[1] == x && w[0] == 0);
                                        } else {
                                            assert(w[1] == m[1]);
                                        }
                                        lemma_sym_tail(w, k);
                                    }
                                }
                            }
                        }
                        continue;
                    }
                }
            }
            let new_state = child(&state, gap, &newbits, Ghost(bound));
            gaps[state.depth - 1] = gap;
            proof {
                if x <= bound && new_state.depth == n && n >= 3 {
                    assert(new_state.marks@[1] == m[1]);
                }
            }
            let ghost before_best = *local_best;
                    dfs_serial(new_state, n, local_best, gaps, found);
                    proof {
                        if *local_best < before_best {
                            let fv = found->0;
                            let v = fv.1;
                            assert forall|i: int| 0 <= i < m.len() implies v@[i] == m[i] by {
                                assert(m.push(x)[i] == m[i]);
                            }
                        }
                    }
            proof {
                if known_lengths_are_lower_bounds() {
                    assert forall|w: Seq<u32>|
                        #[trigger] completes(w, m, n as nat, bound) && first_gap_smaller(w) && w[k] <= state.pos + gap implies w[n - 1] >= *local_best by {
                        if w[k] == x {
                            assert(completes(w, m.push(x), n as nat, bound));
                        }
                    }
                }
            }
        }
        proof {
            if known_lengths_are_lower_bounds() {
                assert forall|w: Seq<u32>| #[trigger] completes(w, m, n as nat, bound) && first_gap_smaller(w) implies w[n - 1] >= *local_best by {
                    if w[k] > state.pos + gap {
                        lemma_increasing_gaps(w, k, n - 1);
                    }
                }
            }
        }
    }
}

/// The gaps worth trying for the next mark when the work fans out: those below the
/// ceiling that repeat no distance and pass the table bounds (checked once for all
/// gaps), in ascending order.
pub fn candidate_gaps<const W: usize>(state: &State<W>, n: usize, local_best: u32, gap_ceiling: u32) -> (r: Vec<u32>)
    requires
        state.inv(state.bound@),
        0 <= state.bound@ < 0x0800_0000,
        state.depth < n <= u32::MAX,
        local_best <= state.bound@ + 1,
        gap_ceiling > 0,
        gap_ceiling == local_best - state.pos - (n - state.depth - 1),
    ensures
        forall|i: int| 0 <= i < r@.len() ==> 1 <= #[trigger] r@[i] <= gap_ceiling,
        forall|i: int, j: int| 0 <= i < j < r@.len() ==> r@[i] < r@[j],
        forall|i: int| 0 <= i < r@.len() ==> (state.pos + #[trigger] r@[i] <= state.bound@ ==> is_golomb(state.marks@.push((state.pos + r@[i]) as u32))),
        forall|i: int| 0 <= i < r@.len() ==> (state.depth == n - 1 ==> #[trigger] r@[i] > state.first_gap),
        known_lengths_are_lower_bounds() ==> forall|w: Seq<u32>|
            #[trigger] completes(w, state.marks@, n as nat, state.bound@) && first_gap_smaller(w) && w[n - 1] < local_best
                ==> r@.contains((w[state.marks@.len() as int] - state.pos) as u32),
{
    let ghost bound = state.bound@;
    let ghost m = state.marks@;
    let ghost k = m.len() as int;
    let rem = n - state.depth;
    let max_gap = local_best.saturating_sub(state.pos);
    let mut tight_ceiling = gap_ceiling;
    if rem < OGR_OPTIMAL.len() {
        let static_ceil = max_gap.saturating_sub(OGR_OPTIMAL[rem]).saturating_sub(1);
        if static_ceil < tight_ceiling {
            tight_ceiling = static_ceil;
        }
    }
    if rem >= 2 && (rem - 1) < OGR_OPTIMAL.len() {
        if state.depth == 1 {
            let sym_ceil = max_gap.saturating_sub(OGR_OPTIMAL[rem - 1]).saturating_sub(2) / 2;
            if sym_ceil < tight_ceiling {
                tight_ceiling = sym_ceil;
            }
        } else if state.first_gap > 0 {
            let sym_ceil = max_gap.saturating_sub(OGR_OPTIMAL[rem - 1]).saturating_sub(state.first_gap).saturating_sub(2);
            if sym_ceil < tight_ceiling {
                tight_ceiling = sym_ceil;
            }
        }
    }
    proof {
        if known_lengths_are_lower_bounds() {
            assert forall|w: Seq<u32>| #[trigger] completes(w, m, n as nat, bound) && first_gap_smaller(w) && w[n - 1] < local_best
                implies w[k] - state.pos <= tight_ceiling by {
                assert(w[k - 1] == m[k - 1]);
                assert(w[k - 1] < w[k]);
                lemma_increasing_gaps(w, k, n - 1);
                if rem < 29 {
                    lemma_static_tail(w, k);
                }
                if rem >= 2 && rem - 1 < 29 {
                    if state.depth == 1 {
                        assert(w[1] == w[k] && w[0] == 0);
                        lemma_sym_tail(w, k);
                    } else if state.first_gap > 0 {
                        assert(w[1] == m[1] && w[0] == 0);
                        lemma_sym_tail(w, k);
                    }
                }
            }
        }
    }
    let forbidden = forbidden_gaps(state);
    let mut valid = forbidden.not();
    valid.clear_bit(0);
    let mut valid_gaps: Vec<u32> = Vec::new();
    let mut vit = valid.iter_set_bits();
    loop
        invariant
            state.inv(bound),
            0 <= bound < 0x0800_0000,
            m == state.marks@,
            k == m.len(),
            state.depth < n,
            rem == n - state.depth,
            local_best <= bound + 1,
            tight_ceiling <= gap_ceiling,
            gap_ceiling == local_best - state.pos - (n - state.depth - 1),
            vit.wf(),
            vit.bits() == valid@,
            0 <= vit.pos() <= 64 * W,
            forall|g: int| 0 <= g < 64 * W ==> (#[trigger] valid@[g] <==> (g != 0 && !forbidden@[g])),
            forall|h: int| 0 <= h < 64 * W ==> (#[trigger] forbidden@[h] <==> exists|kk: int|
                0 <= kk < 64 * W && state.ruler@[kk] && h + kk < 64 * W && state.dist@[h + kk]),
            forall|i: int| 0 <= i < valid_gaps@.len() ==> 1 <= #[trigger] valid_gaps@[i] <= tight_ceiling,
            forall|i: int| 0 <= i < valid_gaps@.len() ==> #[trigger] valid_gaps@[i] < vit.pos(),
            forall|i: int, j: int| 0 <= i < j < valid_gaps@.len() ==> valid_gaps@[i] < valid_gaps@[j],
            forall|i: int| 0 <= i < valid_gaps@.len() ==> (state.pos + #[trigger] valid_gaps@[i] <= bound ==> is_golomb(m.push((state.pos + valid_gaps@[i]) as u32))),
            forall|i: int| 0 <= i < valid_gaps@.len() ==> (state.depth == n - 1 ==> #[trigger] valid_gaps@[i] > state.first_gap),
            known_lengths_are_lower_bounds() ==> forall|w: Seq<u32>|
                #[trigger] completes(w, m, n as nat, bound) && first_gap_smaller(w) && w[n - 1] < local_best
                    ==> w[k] - state.pos <= tight_ceiling,
            known_lengths_are_lower_bounds() ==> forall|w: Seq<u32>|
                #[trigger] completes(w, m, n as nat, bound) && first_gap_smaller(w) && w[n - 1] < local_best
                    && w[k] < state.pos + vit.pos() ==> valid_gaps@.contains((w[k] - state.pos) as u32),
        ensures
            forall|i: int| 0 <= i < valid_gaps@.len() ==> 1 <= #[trigger] valid_gaps@[i] <= tight_ceiling,
            forall|i: int, j: int| 0 <= i < j < valid_gaps@.len() ==> valid_gaps@[i] < valid_gaps@[j],
            forall|i: int| 0 <= i < valid_gaps@.len() ==> (state.pos + #[trigger] valid_gaps@[i] <= bound ==> is_golomb(m.push((state.pos + valid_gaps@[i]) as u32))),
            forall|i: int| 0 <= i < valid_gaps@.len() ==> (state.depth == n - 1 ==> #[trigger] valid_gaps@[i] > state.first_gap),
            known_lengths_are_lower_bounds() ==> forall|w: Seq<u32>|
                #[trigger] completes(w, m, n as nat, bound) && first_gap_smaller(w) && w[n - 1] < local_best
                    ==> valid_gaps@.contains((w[k] - state.pos) as u32),
        decreases 64 * W - vit.pos(),
    {
        let ghost p = vit.pos();
        let next = vit.next();
        proof {
            if known_lengths_are_lower_bounds() {
                assert forall|w: Seq<u32>|
                    #[trigger] completes(w, m, n as nat, bound) && first_gap_smaller(w) && w[n - 1] < local_best && w[k] >= state.pos + p
                        && w[k] < state.pos + vit.pos() && (next matches Some(g) ==> w[k] != state.pos + g) implies false by {
                    let g = w[k] - state.pos;
                    assert(w[k - 1] == m[k - 1]);
                    assert(w[k] <= w[n - 1]);
                    lemma_prefix_golomb(w, k + 1);
                    assert(w.subrange(0, k + 1) =~= m.push(w[k]));
                    lemma_forbidden_conflict(*state, bound, g, forbidden);
                    assert(valid@[g]);
                }
            }
        }
        match next {
            None => {
                proof {
                    if known_lengths_are_lower_bounds() {
                        assert forall|w: Seq<u32>| #[trigger] completes(w, m, n as nat, bound) && first_gap_smaller(w) && w[n - 1] < local_best
                            implies valid_gaps@.contains((w[k] - state.pos) as u32) by {
                            assert(w[k] <= w[n - 1]);
                            if w[k] >= state.pos + p {
                                assert(w[k] < state.pos + vit.pos());
                            }
                        }
                    }
                }
                break;
            },
            Some(gap) => {
                if gap > tight_ceiling {
                    proof {
                        if known_lengths_are_lower_bounds() {
                            assert forall|w: Seq<u32>| #[trigger] completes(w, m, n as nat, bound) && first_gap_smaller(w) && w[n - 1] < local_best
                                implies valid_gaps@.contains((w[k] - state.pos) as u32) by {
                                if w[k] >= state.pos + p {
                                    assert(w[k] < state.pos + vit.pos());
                                }
                            }
                        }
                    }
                    break;
                }
                let ghost x = (state.pos + gap) as u32;
                proof {
                    if x <= bound {
                        lemma_forbidden_conflict(*state, bound, gap as int, forbidden);
                    }
                }
                if state.depth == n - 1 && gap <= state.first_gap {
                    proof {
                        if known_lengths_are_lower_bounds() {
                            assert forall|w: Seq<u32>| #[trigger] completes(w, m, n as nat, bound) && first_gap_smaller(w) && w[n - 1] < local_best
                                && w[k] < state.pos + vit.pos() implies valid_gaps@.contains((w[k] - state.pos) as u32) by {
                                if w[k] == x {
                                    assert(w[1] == m[1]);
                                }
                            }
                        }
                    }
                    continue;
                }
                let ghost before = valid_gaps@;
                valid_gaps.push(gap);
                proof {
                    assert(valid_gaps@[before.len() as int] == gap);
                    if known_lengths_are_lower_bounds() {
                        assert forall|w: Seq<u32>| #[trigger] completes(w, m, n as nat, bound) && first_gap_smaller(w) && w[n - 1] < local_best
                            && w[k] < state.pos + vit.pos() implies valid_gaps@.contains((w[k] - state.pos) as u32) by {
                            if w[k] == x {
                                assert(valid_gaps@[before.len() as int] == gap);
                            } else {
                                assert(before.contains((w[k] - state.pos) as u32));
                                let i = choose|i: int| 0 <= i < before.len() && before[i] == (w[k] - state.pos) as u32;
                                assert(valid_gaps@[i] == before[i]);
                            }
                        }
                    }
                }
            },
        }
    }
    valid_gaps
}

/// The state after placing a mark `gap` beyond the rightmost one.
pub fn make_child<const W: usize>(state: &State<W>, gap: u32) -> (c: State<W>)
    requires
        state.inv(state.bound@),
        1 <= gap,
        state.pos + gap <= state.bound@ + 1,
        state.pos + gap <= state.bound@ ==> is_golomb(state.marks@.push((state.pos + gap) as u32)),
    ensures
        state.pos + gap <= state.bound@ ==> c.inv(state.bound@),
        c.marks@ == state.marks@.push((state.pos + gap) as u32),
        c.depth == state.depth + 1,
        c.pos == state.pos + gap,
        c.first_gap == if state.depth == 1 { gap } else { state.first_gap },
        c.bound == state.bound,
{
    let ghost bound = state.bound@;
    let nb = state.ruler.shl(gap as usize);
    child(state, gap, &nb, Ghost(bound))
}

/// The units of work reordered by the position of their last mark, smallest first.
fn sort_stubs_by_pos<const W: usize>(stubs: Vec<(State<W>, Vec<u32>)>) -> (r: Vec<(State<W>, Vec<u32>)>)
    ensures
        r@.len() == stubs@.len(),
        forall|x: (State<W>, Vec<u32>)| r@.contains(x) <==> stubs@.contains(x),
        forall|i: int, j: int| 0 <= i < j < r@.len() ==> r@[i].0.pos <= r@[j].0.pos,
{
    let ghost orig = stubs@;
    let mut rest = stubs;
    let mut out: Vec<(State<W>, Vec<u32>)> = Vec::new();
    while rest.len() > 0
        invariant
            out@.len() + rest@.len() == orig.len(),
            forall|x: (State<W>, Vec<u32>)| orig.contains(x) <==> (out@.contains(x) || rest@.contains(x)),
            forall|i: int, j: int| 0 <= i < j < out@.len() ==> out@[i].0.pos <= out@[j].0.pos,
            forall|i: int, j: int| 0 <= i < out@.len() && 0 <= j < rest@.len() ==> out@[i].0.pos <= rest@[j].0.pos,
        decreases rest@.len(),
    {
        let mut best: usize = 0;
        let mut i: usize = 1;
        while i < rest.len()
            invariant
                0 <= best < rest@.len(),
                1 <= i <= rest@.len(),
                forall|j: int| 0 <= j < i ==> rest@[best as int].0.pos <= rest@[j].0.pos,
            decreases rest@.len() - i,
        {
            if rest[i].0.pos < rest[best].0.pos {
                best = i;
            }
            i += 1;
        }
        let ghost r0 = rest@;
        let ghost o0 = out@;
        let item = rest.remove(best);
        out.push(item);
        proof {
            assert forall|x: (State<W>, Vec<u32>)| orig.contains(x) <==> (out@.contains(x) || rest@.contains(x)) by {
                if r0.contains(x) {
                    let t = choose|t: int| 0 <= t < r0.len() && r0[t] == x;
                    if t < best {
                        assert(rest@[t] == x);
                    } else if t > best {
                        assert(rest@[t - 1] == x);
                    } else {
                        assert(out@[o0.len() as int] == x);
                    }
                }
                if o0.contains(x) {
                    let t = choose|t: int| 0 <= t < o0.len() && o0[t] == x;
                    assert(out@[t] == x);
                }
                if out@.contains(x) {
                    let t = choose|t: int| 0 <= t < out@.len() && out@[t] == x;
                    if t < o0.len() {
                        assert(o0[t] == x);
                    } else {
                        assert(r0[best as int] == x);
                    }
                }
                if rest@.contains(x) {
                    let t = choose|t: int| 0 <= t < rest@.len() && rest@[t] == x;
                    if t < best {
                        assert(r0[t] == x);
                    } else {
                        assert(r0[t + 1] == x);
                    }
                }
            }
            assert forall|a: int, b: int| 0 <= a < out@.len() && 0 <= b < rest@.len() implies out@[a].0.pos <= rest@[b].0.pos by {
                if b < best {
                    assert(rest@[b] == r0[b]);
                } else {
                    assert(rest@[b] == r0[b + 1]);
                }
            }
        }
    }
    out
}

/// Enumerate the placements of the first marks (two, three or four of them, by `n`)
/// as independent units of work, ordered by the position of their last mark; with none,
/// the single-mark start is the only unit.
pub fn generate_stubs<const W: usize>(n: usize, max_len: u32) -> (stubs: Vec<(State<W>, Vec<u32>)>)
    requires
        max_len < 64 * W,
        64 * W <= u32::MAX,
        max_len < 0x0800_0000,
        2 <= n <= u32::MAX,
    ensures
        stubs@.len() >= 1,
        forall|j: int| 0 <= j < stubs@.len() ==> stub_ok(#[trigger] stubs@[j], n as nat, max_len as int),
        known_lengths_are_lower_bounds() ==> forall|w: Seq<u32>|
            #[trigger] is_ruler(w, n as nat, max_len as int) && first_gap_smaller(w) ==> exists|j: int|
                0 <= j < stubs@.len() && completes(w, (#[trigger] stubs@[j]).0.marks@, n as nat, max_len as int),
        forall|i: int, j: int| 0 <= i < j < stubs@.len() ==> stubs@[i].0.pos <= stubs@[j].0.pos,
        n <= 6 ==> stub_depth(n as int) == 2,
        6 < n <= 12 ==> stub_depth(n as int) == 3,
        12 < n ==> stub_depth(n as int) == 4,
        forall|j: int| 0 <= j < stubs@.len() ==> (#[trigger] stubs@[j]).0.depth == stub_depth(n as int) || {
            &&& stubs@.len() == 1
            &&& stubs@[j].0.depth == 1
            &&& stubs@[j].0.pos == 0
            &&& stubs@[j].0.marks@ == seq![0u32]
            &&& forall|i: int| 0 <= i < stubs@[j].1@.len() ==> stubs@[j].1@[i] == 0
            &&& known_lengths_are_lower_bounds() ==> forall|w: Seq<u32>|
                !(#[trigger] is_ruler(w, n as nat, max_len as int) && first_gap_smaller(w))
        },
{
    let depth: usize = if n <= 6 {
        2
    } else if n <= 12 {
        3
    } else {
        4
    };
    let mut stubs: Vec<(State<W>, Vec<u32>)> = Vec::new();
    let initial = initial_state::<W>(Ghost(max_len as int));
    let mut gaps: Vec<u32> = vec![0u32; n - 1];
    enumerate_stubs(initial, n, max_len, depth, gaps.as_mut_slice(), 0, &mut stubs);
    proof {
        if known_lengths_are_lower_bounds() {
            assert forall|w: Seq<u32>| #[trigger] is_ruler(w, n as nat, max_len as int) && first_gap_smaller(w) implies exists|j: int|
                0 <= j < stubs@.len() && completes(w, (#[trigger] stubs@[j]).0.marks@, n as nat, max_len as int) by {
                assert(completes(w, seq![0u32], n as nat, max_len as int));
            }
        }
    }
    if stubs.len() == 0 {
        let zeros: Vec<u32> = vec![0u32; n - 1];
        stubs.push((initial, zeros));
        proof {
            assert(stubs@[0] == (initial, zeros));
        }
        return stubs;
    }
    proof {
        assert forall|j: int| 0 <= j < stubs@.len() implies (#[trigger] stubs@[j]).0.depth == stub_depth(n as int) by {
            assert(stub_reaches(stubs@[j], depth as int, n as int, seq![0u32]));
        }
    }
    let ghost unsorted = stubs@;
    let sorted = sort_stubs_by_pos(stubs);
    proof {
        assert forall|j: int| 0 <= j < sorted@.len() implies stub_ok(#[trigger] sorted@[j], n as nat, max_len as int)
            && sorted@[j].0.depth == stub_depth(n as int) by {
            assert(sorted@.contains(sorted@[j]));
            let t = choose|t: int| 0 <= t < unsorted.len() && unsorted[t] == sorted@[j];
        }
        if known_lengths_are_lower_bounds() {
            assert forall|w: Seq<u32>| #[trigger] is_ruler(w, n as nat, max_len as int) && first_gap_smaller(w) implies exists|j: int|
                0 <= j < sorted@.len() && completes(w, (#[trigger] sorted@[j]).0.marks@, n as nat, max_len as int) by {
                let t = choose|t: int| 0 <= t < unsorted.len() && completes(w, (#[trigger] unsorted[t]).0.marks@, n as nat, max_len as int);
                assert(unsorted.contains(unsorted[t]));
                let j = choose|j: int| 0 <= j < sorted@.len() && sorted@[j] == unsorted[t];
            }
        }
    }
    sorted
}

/// Record a ruler of length `len` if it is shorter than the one recorded (an empty
/// record counts as length `u32::MAX`); says whether it was kept.
pub fn offer(record: &mut Option<(u32, Vec<u32>)>, len: u32, marks: Vec<u32>) -> (kept: bool)
    ensures
        kept == (len < match *old(record) {
            Some((l, _)) => l,
            None => u32::MAX,
        }),
        kept ==> *final(record) == Some((len, marks)),
        !kept ==> *final(record) == *old(record),
{
    let current = match record {
        Some((l, _)) => *l,
        None => u32::MAX,
    };
    let better = len < current;
    if better {
        *record = Some((len, marks));
    }
    better
}

} // verus!
