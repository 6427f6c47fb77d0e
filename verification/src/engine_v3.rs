use vstd::prelude::*;
use crate::avail::{AvailDistances, avail_cap};
use crate::bitmap::{Bitmap, unset_list, scan_end, lemma_view_len};
use crate::bounds::{lists_smallest, lemma_smallest_sum, gaps_from, lemma_gaps_sum, lemma_subrange_golomb, lemma_mirror, lemma_end_gaps_differ};
use crate::known::{OGR_OPTIMAL, required_words};
use crate::positions::{positions, seq_sum, lemma_positions_members};
use crate::ruler::{completes, is_distance, is_golomb, is_ruler, ruler_exists, span, mirror, lemma_prefix_golomb, lemma_increasing_gaps};
use crate::search::{State, initial_state, child, lemma_newbits, gaps_describe, marks_from_gaps, is_mark};

verus! {

broadcast use {lemma_view_len, vstd::slice::group_slice_axioms};

/// The recorded optimal lengths are lower bounds: no Golomb ruler with `k < 29` marks
/// is shorter than `OGR_OPTIMAL[k]`. This is the published table (OEIS A003022),
/// established by exhaustive searches outside this library; the branch-and-bound
/// pruning relies on it.
pub open spec fn known_lengths_are_lower_bounds() -> bool {
    forall|m: Seq<u32>| #[trigger] is_golomb(m) && 1 <= m.len() < 29 ==> m[m.len() - 1] - m[0] >= OGR_OPTIMAL@[m.len() as int]
}

/// Symmetry breaking: with three or more marks the last gap exceeds the first.
pub open spec fn first_gap_smaller(w: Seq<u32>) -> bool {
    w.len() >= 3 ==> w[w.len() - 1] - w[w.len() - 2] > w[1] - w[0]
}

/// Any ruler can be read from whichever end makes its first gap the smaller.
pub proof fn lemma_symmetric_choice(w: Seq<u32>, n: nat, max_len: int)
    requires
        is_ruler(w, n, max_len),
    ensures
        is_ruler(w, n, max_len) && first_gap_smaller(w) || is_ruler(mirror(w), n, max_len) && first_gap_smaller(mirror(w)),
        n >= 2 ==> mirror(w)[n - 1] == w[n - 1],
{
    lemma_mirror(w, n, max_len);
    if n >= 3 {
        lemma_end_gaps_differ(w);
    }
}

/// The tail of a completion after mark `i` is bounded below by the table.
pub(crate) proof fn lemma_static_tail(w: Seq<u32>, i: int)
    requires
        known_lengths_are_lower_bounds(),
        is_golomb(w),
        0 <= i < w.len(),
        w.len() - i < 29,
    ensures
        w[w.len() - 1] - w[i] >= OGR_OPTIMAL@[w.len() - i],
{
    let t = w.subrange(i, w.len() as int);
    lemma_subrange_golomb(w, i, w.len() as int);
    assert(is_golomb(t) && 1 <= t.len() < 29);
    assert(t[t.len() - 1] == w[w.len() - 1] && t[0] == w[i]);
}

/// Distances that neither the placed marks (`dist`) nor the new mark (`newbits`) use.
pub open spec fn free_distance<const W: usize>(dist: Bitmap<W>, newbits: Bitmap<W>) -> spec_fn(int) -> bool {
    |v: int| 1 <= v < 64 * W && !dist@[v] && !newbits@[v]
}

/// The best length found so far and the ruler that has it; `None` while nothing below
/// `bound + 1` has been found.
pub open spec fn best_ok(best: u32, best_marks: Option<Vec<u32>>, n: nat, bound: int) -> bool {
    match best_marks {
        Some(v) => is_ruler(v@, n, best as int) && v@[n - 1] == best && first_gap_smaller(v@) && best <= bound,
        None => best == bound + 1,
    }
}

/// A search step's effect on its record: unchanged when the best length did not drop,
/// otherwise a ruler whose first marks are `m`.
pub open spec fn record_update(b1: u32, r1: Option<Vec<u32>>, b0: u32, r0: Option<Vec<u32>>, m: Seq<u32>) -> bool {
    &&& b1 == b0 ==> r1 == r0
    &&& b1 < b0 ==> (r1 matches Some(v) && v@.len() >= m.len() && forall|i: int| 0 <= i < m.len() ==> v@[i] == m[i])
}

/// A sum of non-negative values each at most `b`.
pub(crate) proof fn lemma_sum_le(s: Seq<int>, b: int)
    requires
        b >= 0,
        forall|i: int| 0 <= i < s.len() ==> 0 <= #[trigger] s[i] <= b,
    ensures
        0 <= seq_sum(s) <= s.len() * b,
    decreases s.len(),
{
    if s.len() > 0 {
        lemma_sum_le(s.drop_last(), b);
        assert((s.len() - 1) * b + b == s.len() * b) by (nonlinear_arith);
    }
}

/// The cached smallest free distances, less the new ones, still list the smallest
/// distances that neither the old marks nor the new mark use.
proof fn lemma_filtered_smallest<const W: usize>(
    st: State<W>,
    bound: int,
    b0: int,
    gap: int,
    newbits: Bitmap<W>,
    base: AvailDistances,
    filtered: AvailDistances,
    cap: int,
)
    requires
        st.inv(bound),
        1 <= gap,
        st.pos + gap <= bound,
        0 <= b0,
        base.wf(),
        0 <= cap <= unset_list(st.dist, b0).len(),
        base@ == unset_list(st.dist, b0).take(cap),
        filtered.wf(),
        forall|x: int| filtered@.contains(x) <==> (base@.contains(x) && !(0 <= x < 64 * W && newbits@[x])),
    ensures
        lists_smallest(filtered@, free_distance(st.dist, newbits)),
{
    let p = free_distance(st.dist, newbits);
    let f = filtered@;
    let hi = scan_end(W as int, b0);
    let u = unset_list(st.dist, b0);
    lemma_positions_members(st.dist@, false, 1, hi);
    filtered.lemma_wf();
    base.lemma_wf();
    assert forall|i: int| 0 <= i < f.len() implies #[trigger] p(f[i]) by {
        assert(f.contains(f[i]));
        assert(base@.contains(f[i]));
        let t = choose|t: int| 0 <= t < base@.len() && base@[t] == f[i];
        assert(base@[t] == u[t]);
        assert(u.contains(f[i]));
    }
    assert forall|v: int, j: int| 0 <= j < f.len() && #[trigger] p(v) && v <= #[trigger] f[j] implies f.take(j + 1).contains(v) by {
        assert(f.contains(f[j]));
        let t = choose|t: int| 0 <= t < base@.len() && base@[t] == f[j];
        assert(base@[t] == u[t]);
        assert(u.contains(u[t]));
        assert(v < hi);
        assert(u.contains(v));
        let t2 = choose|t2: int| 0 <= t2 < u.len() && u[t2] == v;
        if t2 > t {
            assert(u[t] < u[t2]);
        }
        assert(t2 < cap);
        assert(base@[t2] == u[t2]);
        assert(base@.contains(v));
        assert(f.contains(v));
        let j2 = choose|j2: int| 0 <= j2 < f.len() && f[j2] == v;
        if j2 > j {
            assert(f[j] < f[j2]);
        }
        assert(f.take(j + 1)[j2] == v);
    }
}

/// The gaps of a completion after the new mark are free distances summing to the rest
/// of its length.
proof fn lemma_tail_gaps_free<const W: usize>(st: State<W>, bound: int, gap: int, newbits: Bitmap<W>, w: Seq<u32>, n: nat)
    requires
        st.inv(bound),
        1 <= gap,
        st.pos + gap <= bound,
        newbits@ == crate::bitmap::shifted(st.ruler@, gap),
        completes(w, st.marks@, n, bound),
        w.len() > st.marks@.len(),
        w[st.marks@.len() as int] == st.pos + gap,
    ensures
        ({
            let k = st.marks@.len() as int;
            let g = gaps_from(w, k);
            &&& g.len() == n - 1 - k
            &&& g.no_duplicates()
            &&& seq_sum(g) == w[n - 1] - w[k]
            &&& forall|i: int| 0 <= i < g.len() ==> 1 <= #[trigger] g[i] < 64 * W && !st.dist@[g[i]] && !newbits@[g[i]]
        }),
{
    let m = st.marks@;
    let k = m.len() as int;
    let g = gaps_from(w, k);
    lemma_newbits(st, bound, gap, newbits@);
    lemma_gaps_sum(w, k);
    assert(g.no_duplicates()) by {
        assert forall|a: int, b: int| 0 <= a < g.len() && 0 <= b < g.len() && a != b implies g[a] != g[b] by {
            assert(g[a] == span(w, k + a, k + a + 1));
            assert(g[b] == span(w, k + b, k + b + 1));
        }
    }
    assert forall|i: int| 0 <= i < g.len() implies 1 <= #[trigger] g[i] < 64 * W && !st.dist@[g[i]] && !newbits@[g[i]] by {
        let d = g[i];
        assert(d == span(w, k + i, k + i + 1));
        assert(w[k + i] < w[k + i + 1]);
        assert(w[k + i + 1] <= w[n - 1]);
        if st.dist@[d] {
            let (a, b) = choose|a: int, b: int| 0 <= a < b < m.len() && #[trigger] span(m, a, b) == d;
            assert(span(w, a, b) == span(m, a, b));
        }
        if newbits@[d] {
            let j = choose|j: int| 0 <= j < m.len() && st.pos + gap - m[j] == d;
            assert(span(w, j, k) == d);
        }
    }
}

/// Find the shortest Golomb ruler with `n` marks and length at most `start_bound`.
/// Returns its length and marks; among rulers of that length it returns one whose
/// first gap is smaller than its last.
pub fn find_optimal<const W: usize>(n: usize, start_bound: u32) -> (r: Option<(u32, Vec<u32>)>)
    requires
        start_bound < 64 * W,
        64 * W <= u32::MAX,
        start_bound < 0x0800_0000,
        n <= u32::MAX,
    ensures
        r matches Some((len, v)) ==> {
            &&& is_ruler(v@, n as nat, len as int)
            &&& len <= start_bound
            &&& n >= 1 ==> v@[n - 1] == len
            &&& first_gap_smaller(v@)
        },
        r is Some ==> ruler_exists(n as nat, start_bound as int),
        known_lengths_are_lower_bounds() ==> (r is None ==> !ruler_exists(n as nat, start_bound as int)),
        known_lengths_are_lower_bounds() ==> (r matches Some((len, v)) ==> forall|w: Seq<u32>|
            #[trigger] is_ruler(w, n as nat, start_bound as int) && n >= 1 ==> w[n - 1] >= len),
        n <= 1 ==> (r matches Some((len, v)) && len == 0 && v@.len() == n),
{
    if n <= 1 {
        let v: Vec<u32> = vec![0u32; n.min(1)];
        proof {
            if n == 1 {
                assert(v@ =~= seq![0u32]);
            } else {
                assert(v@ =~= Seq::<u32>::empty());
            }
            assert(is_ruler(v@, n as nat, 0));
            assert(is_ruler(v@, n as nat, start_bound as int));
        }
        return Some((0, v));
    }
    let ghost bound = start_bound as int;
    let mut best = start_bound + 1;
    let mut best_marks: Option<Vec<u32>> = None;
    let state = initial_state::<W>(Ghost(bound));
    let mut gaps: Vec<u32> = vec![0u32; n - 1];
    dfs_search(state, n, &mut best, gaps.as_mut_slice(), &mut best_marks, Ghost(bound));
    proof {
        if known_lengths_are_lower_bounds() {
            assert forall|w: Seq<u32>| #[trigger] is_ruler(w, n as nat, bound) implies w[n - 1] >= best by {
                lemma_symmetric_choice(w, n as nat, bound);
                if is_ruler(w, n as nat, bound) && first_gap_smaller(w) {
                    assert(completes(w, seq![0u32], n as nat, bound));
                } else {
                    assert(completes(mirror(w), seq![0u32], n as nat, bound));
                }
            }
        }
    }
    match best_marks {
        Some(m) => {
            proof {
                assert(is_ruler(m@, n as nat, bound));
            }
            Some((best, m))
        },
        None => {
            proof {
                if known_lengths_are_lower_bounds() && ruler_exists(n as nat, bound) {
                    let w = choose|w: Seq<u32>| is_ruler(w, n as nat, bound);
                    assert(w[n - 1] >= best);
                }
            }
            None
        },
    }
}

/// `find_optimal` with the bitmap width chosen from `start_bound`.
pub fn find_optimal_dispatched(n: usize, start_bound: u32) -> (r: Option<(u32, Vec<u32>)>)
    requires
        start_bound < 640,
        n <= u32::MAX,
    ensures
        r matches Some((len, v)) ==> {
            &&& is_ruler(v@, n as nat, len as int)
            &&& len <= start_bound
            &&& n >= 1 ==> v@[n - 1] == len
            &&& first_gap_smaller(v@)
        },
        r is Some ==> ruler_exists(n as nat, start_bound as int),
        known_lengths_are_lower_bounds() ==> (r is None ==> !ruler_exists(n as nat, start_bound as int)),
        known_lengths_are_lower_bounds() ==> (r matches Some((len, v)) ==> forall|w: Seq<u32>|
            #[trigger] is_ruler(w, n as nat, start_bound as int) && n >= 1 ==> w[n - 1] >= len),
        n <= 1 ==> (r matches Some((len, v)) && len == 0 && v@.len() == n),
{
    let words = required_words(start_bound);
    match words {
        1 => find_optimal::<1>(n, start_bound),
        2 => find_optimal::<2>(n, start_bound),
        3 => find_optimal::<3>(n, start_bound),
        4 => find_optimal::<4>(n, start_bound),
        5 => find_optimal::<5>(n, start_bound),
        6 => find_optimal::<6>(n, start_bound),
        7 => find_optimal::<7>(n, start_bound),
        8 => find_optimal::<8>(n, start_bound),
        9 => find_optimal::<9>(n, start_bound),
        _ => find_optimal::<10>(n, start_bound),
    }
}

/// Search for a Golomb ruler with `n` marks of length <= `max_len`.
pub fn find<const W: usize>(n: usize, max_len: u32) -> (r: Option<Vec<u32>>)
    requires
        max_len < 64 * W,
        64 * W <= u32::MAX,
        max_len < 0x0800_0000,
        n <= u32::MAX,
    ensures
        r matches Some(v) ==> is_ruler(v@, n as nat, max_len as int) && first_gap_smaller(v@),
        known_lengths_are_lower_bounds() ==> (r is Some <==> ruler_exists(n as nat, max_len as int)),
        known_lengths_are_lower_bounds() ==> (r matches Some(v) ==> forall|w: Seq<u32>|
            #[trigger] is_ruler(w, n as nat, max_len as int) && n >= 1 ==> w[n - 1] >= v@[n - 1]),
{
    match find_optimal::<W>(n, max_len) {
        Some((_, m)) => Some(m),
        None => None,
    }
}

/// `find` with the bitmap width chosen from `max_len`.
pub fn find_dispatched(n: usize, max_len: u32) -> (r: Option<Vec<u32>>)
    requires
        max_len < 640,
        n <= u32::MAX,
    ensures
        r matches Some(v) ==> is_ruler(v@, n as nat, max_len as int) && first_gap_smaller(v@),
        known_lengths_are_lower_bounds() ==> (r is Some <==> ruler_exists(n as nat, max_len as int)),
        known_lengths_are_lower_bounds() ==> (r matches Some(v) ==> forall|w: Seq<u32>|
            #[trigger] is_ruler(w, n as nat, max_len as int) && n >= 1 ==> w[n - 1] >= v@[n - 1]),
{
    match find_optimal_dispatched(n, max_len) {
        Some((_, m)) => Some(m),
        None => None,
    }
}

/// Whether the exhaustive search proves that no Golomb ruler with `n` marks of length
/// <= `max_len` exists.
pub fn prove_impossible<const W: usize>(n: usize, max_len: u32) -> (r: bool)
    requires
        max_len < 64 * W,
        64 * W <= u32::MAX,
        n <= u32::MAX,
    ensures
        r == !ruler_exists(n as nat, max_len as int),
{
    if n <= 1 {
        proof {
            if n == 1 {
                assert(is_ruler(seq![0u32], 1, max_len as int));
            } else {
                assert(is_ruler(Seq::<u32>::empty(), 0, max_len as int));
            }
        }
        return false;
    }
    let state = initial_state::<W>(Ghost(max_len as int));
    let found = dfs_exists(state, n, max_len);
    proof {
        if ruler_exists(n as nat, max_len as int) {
            let w = choose|w: Seq<u32>| is_ruler(w, n as nat, max_len as int);
            lemma_symmetric_choice(w, n as nat, max_len as int);
            if is_ruler(w, n as nat, max_len as int) && first_gap_smaller(w) {
                assert(completes(w, seq![0u32], n as nat, max_len as int));
            } else {
                assert(completes(mirror(w), seq![0u32], n as nat, max_len as int));
            }
        }
        if found {
            let w = choose|w: Seq<u32>| completes(w, seq![0u32], n as nat, max_len as int) && first_gap_smaller(w);
            assert(is_ruler(w, n as nat, max_len as int));
        }
    }
    !found
}

/// `prove_impossible` with the bitmap width chosen from `max_len`.
pub fn prove_impossible_dispatched(n: usize, max_len: u32) -> (r: bool)
    requires
        max_len < 640,
        n <= u32::MAX,
    ensures
        r == !ruler_exists(n as nat, max_len as int),
{
    let words = required_words(max_len);
    match words {
        1 => prove_impossible::<1>(n, max_len),
        2 => prove_impossible::<2>(n, max_len),
        3 => prove_impossible::<3>(n, max_len),
        4 => prove_impossible::<4>(n, max_len),
        5 => prove_impossible::<5>(n, max_len),
        6 => prove_impossible::<6>(n, max_len),
        7 => prove_impossible::<7>(n, max_len),
        8 => prove_impossible::<8>(n, max_len),
        9 => prove_impossible::<9>(n, max_len),
        _ => prove_impossible::<10>(n, max_len),
    }
}

fn dfs_exists<const W: usize>(state: State<W>, n: usize, max_len: u32) -> (r: bool)
    requires
        state.inv(max_len as int),
        state.depth <= n <= u32::MAX,
        n >= 2,
        state.depth == n ==> first_gap_smaller(state.marks@),
    ensures
        r <==> exists|w: Seq<u32>| completes(w, state.marks@, n as nat, max_len as int) && first_gap_smaller(w),
    decreases n - state.depth,
{
    let ghost m = state.marks@;
    let ghost k = m.len() as int;
    if state.depth == n {
        assert(completes(m, m, n as nat, max_len as int));
        return true;
    }
    let rem = n - state.depth;
    let max_gap = max_len - state.pos;
    let gap_ceiling = max_gap.saturating_sub(rem as u32 - 1);
    if gap_ceiling == 0 {
        proof {
            assert forall|w: Seq<u32>| !(completes(w, m, n as nat, max_len as int) && first_gap_smaller(w)) by {
                if completes(w, m, n as nat, max_len as int) {
                    lemma_increasing_gaps(w, k, n - 1);
                    assert(w[k - 1] < w[k]);
                }
            }
        }
        return false;
    }
    let mut newbits = Bitmap::<W>::zero();
    let mut gap: u32 = 0;
    while gap < gap_ceiling
        invariant
            state.inv(max_len as int),
            m == state.marks@,
            k == m.len(),
            state.depth < n <= u32::MAX,
            n >= 2,
            rem == n - state.depth,
            gap_ceiling == (if max_len - state.pos >= rem - 1 { max_len - state.pos - (rem - 1) } else { 0 }),
            gap <= gap_ceiling,
            forall|w: Seq<u32>| #[trigger] completes(w, m, n as nat, max_len as int) && first_gap_smaller(w) ==> w[k] > state.pos + gap,
        decreases gap_ceiling - gap,
    {
        gap += 1;
        let ghost x = (state.pos + gap) as u32;
        if state.depth == n - 1 && gap <= state.first_gap {
            proof {
                assert forall|w: Seq<u32>| #[trigger] completes(w, m, n as nat, max_len as int) && first_gap_smaller(w) implies w[k] > state.pos + gap by {
                    if w[k] == x {
                        assert(w[1] == m[1]);
                    }
                }
            }
            continue;
        }
        state.ruler.shl_into(gap as usize, &mut newbits);
        proof {
            lemma_newbits(state, max_len as int, gap as int, newbits@);
        }
        if newbits.intersects(&state.dist) {
            proof {
                assert forall|w: Seq<u32>| #[trigger] completes(w, m, n as nat, max_len as int) && first_gap_smaller(w) implies w[k] > state.pos + gap by {
                    if w[k] == x {
                        lemma_prefix_golomb(w, k + 1);
                        assert(w.subrange(0, k + 1) =~= m.push(x));
                    }
                }
            }
            continue;
        }
        let new_state = child(&state, gap, &newbits, Ghost(max_len as int));
        proof {
            if new_state.depth == n {
                let p = m.push(x);
                if n >= 3 {
                    assert(p[1] == m[1]);
                }
            }
        }
        if dfs_exists(new_state, n, max_len) {
            proof {
                let w = choose|w: Seq<u32>| completes(w, m.push(x), n as nat, max_len as int) && first_gap_smaller(w);
                assert forall|i: int| 0 <= i < k implies w[i] == m[i] by {
                    assert(m.push(x)[i] == m[i]);
                }
                assert(completes(w, m, n as nat, max_len as int));
            }
            return true;
        }
        proof {
            assert forall|w: Seq<u32>| #[trigger] completes(w, m, n as nat, max_len as int) && first_gap_smaller(w) implies w[k] > state.pos + gap by {
                if w[k] == x {
                    assert(completes(w, m.push(x), n as nat, max_len as int));
                }
            }
        }
    }
    proof {
        assert forall|w: Seq<u32>| !(completes(w, m, n as nat, max_len as int) && first_gap_smaller(w)) by {
            if completes(w, m, n as nat, max_len as int) {
                lemma_increasing_gaps(w, k, n - 1);
            }
        }
    }
    false
}

fn dfs_search<const W: usize>(
    state: State<W>,
    n: usize,
    best: &mut u32,
    gaps: &mut [u32],
    best_marks: &mut Option<Vec<u32>>,
    Ghost(bound): Ghost<int>,
)
    requires
        0 <= bound < 0x0800_0000,
        2 <= n <= u32::MAX,
        state.depth <= n,
        state.inv(bound) || (state.depth == n && state.marks@.len() == n && state.marks@[n - 1] == state.pos
            && state.pos >= *old(best)),
        state.inv(bound) && state.depth == n ==> first_gap_smaller(state.marks@),
        old(gaps)@.len() == n - 1,
        forall|i: int| 0 <= i < state.depth - 1 ==> #[trigger] old(gaps)@[i] == state.marks@[i + 1] - state.marks@[i],
        best_ok(*old(best), *old(best_marks), n as nat, bound),
    ensures
        final(gaps)@.len() == old(gaps)@.len(),
        forall|i: int| 0 <= i < state.depth - 1 ==> #[trigger] final(gaps)@[i] == old(gaps)@[i],
        *final(best) <= *old(best),
        best_ok(*final(best), *final(best_marks), n as nat, bound),
        known_lengths_are_lower_bounds() ==> forall|w: Seq<u32>|
            #[trigger] completes(w, state.marks@, n as nat, bound) && first_gap_smaller(w) ==> w[n - 1] >= *final(best),
        record_update(*final(best), *final(best_marks), *old(best), *old(best_marks), state.marks@),
    decreases n - state.depth,
{
    let ghost m = state.marks@;
    let ghost k = m.len() as int;
    if state.depth == n {
        if state.pos < *best {
            *best = state.pos;
            let marks = marks_from_gaps(gaps, n, Ghost(m));
            *best_marks = Some(marks);
        }
        proof {
            assert forall|w: Seq<u32>| #[trigger] completes(w, m, n as nat, bound) && first_gap_smaller(w) implies w[n - 1] >= *best by {
                assert(w[n - 1] == m[n - 1]);
            }
        }
        return;
    }
    let rem = n - state.depth;
    let max_gap = best.saturating_sub(state.pos);
    if max_gap == 0 {
        proof {
            assert forall|w: Seq<u32>| #[trigger] completes(w, m, n as nat, bound) && first_gap_smaller(w) implies w[n - 1] >= *best by {
                assert(w[k - 1] == m[k - 1]);
                assert(w[k - 1] < w[n - 1]);
            }
        }
        return;
    }
    if rem + 1 < OGR_OPTIMAL.len() {
        let static_bound = state.pos + OGR_OPTIMAL[rem + 1];
        if static_bound >= *best {
            proof {
                if known_lengths_are_lower_bounds() {
                    assert forall|w: Seq<u32>| #[trigger] completes(w, m, n as nat, bound) && first_gap_smaller(w) implies w[n - 1] >= *best by {
                        assert(w[k - 1] == m[k - 1]);
                        lemma_static_tail(w, k - 1);
                    }
                }
            }
            return;
        }
    }
    let gap_ceiling = max_gap.saturating_sub(rem as u32 - 1);
    if gap_ceiling == 0 {
        proof {
            assert forall|w: Seq<u32>| #[trigger] completes(w, m, n as nat, bound) && first_gap_smaller(w) implies w[n - 1] >= *best by {
                assert(w[k - 1] == m[k - 1]);
                assert(w[k - 1] < w[k]);
                lemma_increasing_gaps(w, k, n - 1);
            }
        }
        return;
    }
    let ghost b0 = *best as int;
    proof {
        let u = unset_list(state.dist, b0);
        let cap = avail_cap(state.dist, (rem - 1) as usize, b0 as usize);
        lemma_positions_members(state.dist@, false, 1, scan_end(W as int, b0));
        assert forall|i: int| 0 <= i < u.take(cap).len() implies 0 <= #[trigger] u.take(cap)[i] <= bound + 2 by {
            assert(u.take(cap)[i] == u[i]);
        }
        lemma_sum_le(u.take(cap), bound + 2);
        assert(cap * (bound + 2) <= 30 * (bound + 2)) by (nonlinear_arith)
            requires
                0 <= cap <= 30,
                bound >= 0;
    }
    let base_avail = if rem >= 2 {
        Some(AvailDistances::from_bitmap(&state.dist, rem - 1, *best as usize))
    } else {
        None
    };
    let mut newbits = Bitmap::<W>::zero();
    let mut gap: u32 = 0;
    while gap < gap_ceiling
        invariant
            0 <= bound < 0x0800_0000,
            state.inv(bound),
            m == state.marks@,
            k == m.len(),
            state.depth < n <= u32::MAX,
            n >= 2,
            rem == n - state.depth,
            b0 == *old(best),
            state.pos < b0 <= bound + 1,
            gap_ceiling == b0 - state.pos - (rem - 1),
            gap <= gap_ceiling,
            rem >= 2 ==> (base_avail matches Some(base) && base.wf()
                && base@ == unset_list(state.dist, b0).take(avail_cap(state.dist, (rem - 1) as usize, b0 as usize))),
            rem < 2 ==> base_avail is None,
            *best <= b0,
            best_ok(*best, *best_marks, n as nat, bound),
            record_update(*best, *best_marks, b0 as u32, *old(best_marks), m),
            gaps@.len() == n - 1,
            old(gaps)@.len() == n - 1,
            forall|i: int| 0 <= i < state.depth - 1 ==> #[trigger] gaps@[i] == old(gaps)@[i],
            forall|i: int| 0 <= i < state.depth - 1 ==> #[trigger] old(gaps)@[i] == m[i + 1] - m[i],
            known_lengths_are_lower_bounds() ==> forall|w: Seq<u32>|
                #[trigger] completes(w, m, n as nat, bound) && first_gap_smaller(w) && w[k] <= state.pos + gap ==> w[n - 1] >= *best,
        decreases gap_ceiling - gap,
    {
        gap += 1;
        let ghost x = (state.pos + gap) as u32;
        if state.depth == n - 1 && gap <= state.first_gap {
            proof {
                if known_lengths_are_lower_bounds() {
                    assert forall|w: Seq<u32>|
                        #[trigger] completes(w, m, n as nat, bound) && first_gap_smaller(w) && w[k] <= state.pos + gap implies w[n - 1] >= *best by {
                        if w[k] == x {
                            assert(w[1] == m[1]);
                        }
                    }
                }
            }
            continue;
        }
        state.ruler.shl_into(gap as usize, &mut newbits);
        proof {
            if x <= bound {
                lemma_newbits(state, bound, gap as int, newbits@);
            }
        }
        if newbits.intersects(&state.dist) {
            proof {
                if known_lengths_are_lower_bounds() {
                    assert forall|w: Seq<u32>|
                        #[trigger] completes(w, m, n as nat, bound) && first_gap_smaller(w) && w[k] <= state.pos + gap implies w[n - 1] >= *best by {
                        if w[k] == x {
                            assert(w[k] <= w[n - 1]);
                            lemma_prefix_golomb(w, k + 1);
                            assert(w.subrange(0, k + 1) =~= m.push(x));
                        }
                    }
                }
            }
            continue;
        }
        if let Some(base) = &base_avail {
            let new_pos = state.pos + gap;
            let filtered = AvailDistances::without_bitmap::<W>(base, &newbits);
            let ghost f = filtered@;
            let sum = filtered.sum_k(rem - 1);
            if let Some(dynamic_sum) = sum {
                proof {
                    filtered.lemma_wf();
                    assert forall|i: int| 0 <= i < f.take(rem - 1).len() implies 0 <= #[trigger] f.take(rem - 1)[i] <= bound + 2 by {
                        assert(f.take(rem - 1)[i] == f[i]);
                        assert(f.contains(f[i]));
                        assert(base@.contains(f[i]));
                        let u = unset_list(state.dist, b0);
                        let t = choose|t: int| 0 <= t < base@.len() && base@[t] == f[i];
                        lemma_positions_members(state.dist@, false, 1, scan_end(W as int, b0));
                        assert(u[t] == f[i]);
                    }
                    lemma_sum_le(f.take(rem - 1), bound + 2);
                    assert((rem - 1) * (bound + 2) <= 30 * (bound + 2)) by (nonlinear_arith)
                        requires
                            0 <= rem - 1 <= 30,
                            bound >= 0;
                }
                let dynamic_bound = new_pos + dynamic_sum;
                let mut prune = false;
                if rem + 1 < OGR_OPTIMAL.len() {
                    let static_bound = new_pos + OGR_OPTIMAL[rem];
                    if dynamic_bound.max(static_bound) >= *best {
                        prune = true;
                    }
                } else if dynamic_bound >= *best {
                    prune = true;
                }
                if prune {
                    proof {
                        if known_lengths_are_lower_bounds() {
                            assert forall|w: Seq<u32>|
                                #[trigger] completes(w, m, n as nat, bound) && first_gap_smaller(w) && w[k] <= state.pos + gap implies w[n - 1] >= *best by {
                                if w[k] == x {
                                    lemma_tail_gaps_free(state, bound, gap as int, newbits, w, n as nat);
                                    lemma_filtered_smallest(state, bound, b0, gap as int, newbits, *base, filtered,
                                        avail_cap(state.dist, (rem - 1) as usize, b0 as usize));
                                    lemma_smallest_sum(f, free_distance(state.dist, newbits), gaps_from(w, k));
                                    if rem + 1 < 29 {
                                        lemma_static_tail(w, k);
                                    }
                                }
                            }
                        }
                    }
                    continue;
                }
            }
        }
        let new_state = child(&state, gap, &newbits, Ghost(bound));
        gaps[state.depth - 1] = gap;
        proof {
            if x <= bound && new_state.depth == n && n >= 3 {
                assert(new_state.marks@[1] == m[1]);
            }
        }
        let ghost before_best = *best;
        let ghost before_marks = *best_marks;
        dfs_search(new_state, n, best, gaps, best_marks, Ghost(bound));
        proof {
            if *best < before_best {
                let v = best_marks->0;
                assert forall|i: int| 0 <= i < m.len() implies v@[i] == m[i] by {
                    assert(m.push(x)[i] == m[i]);
                }
            }
            if known_lengths_are_lower_bounds() {
                assert forall|w: Seq<u32>|
                    #[trigger] completes(w, m, n as nat, bound) && first_gap_smaller(w) && w[k] <= state.pos + gap implies w[n - 1] >= *best by {
                    if w[k] == x {
                        assert(completes(w, m.push(x), n as nat, bound));
                    }
                }
            }
        }
    }
    proof {
        if known_lengths_are_lower_bounds() {
            assert forall|w: Seq<u32>| #[trigger] completes(w, m, n as nat, bound) && first_gap_smaller(w) implies w[n - 1] >= *best by {
                if w[k] > state.pos + gap {
                    lemma_increasing_gaps(w, k, n - 1);
                }
            }
        }
    }
}

} // verus!
