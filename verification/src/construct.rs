use vstd::prelude::*;
use crate::ruler::{is_golomb, is_distance, span, lemma_extend, lemma_distance_push, lemma_prefix_golomb};
use crate::primality::{bpsw_prime, is_prime_bpsw};
use crate::engine_v3::known_lengths_are_lower_bounds;
use crate::known::OGR_OPTIMAL;
use std::collections::HashSet;
use vstd::arithmetic::power2::{pow2, lemma2_to64, lemma_pow2_unfold, lemma_pow2_strictly_increases};

verus! {

broadcast use vstd::std_specs::hash::group_hash_axioms;

/// `m` is the greedy ruler: it starts at 0 and each later mark is the smallest position
/// past the previous mark that keeps all distances different.
pub open spec fn is_greedy(m: Seq<u32>) -> bool {
    &&& m.len() >= 1 ==> m[0] == 0
    &&& is_golomb(m)
    &&& forall|i: int, y: int| 1 <= i < m.len() && m[i - 1] < y < m[i] ==> !#[trigger] is_golomb(m.take(i).push(y as u32))
}

/// A Golomb ruler can always be extended by a mark twice as far out plus one.
pub proof fn lemma_double_extends(p: Seq<u32>)
    requires
        is_golomb(p),
        p.len() >= 1,
        2 * p[p.len() - 1] + 1 <= u32::MAX,
    ensures
        is_golomb(p.push((2 * p[p.len() - 1] + 1) as u32)),
{
    let last = p[p.len() - 1];
    let x = (2 * last + 1) as u32;
    lemma_extend(p, x);
    assert forall|i: int| 0 <= i < p.len() implies !is_distance(p, x - p[i]) by {
        assert(p[i] <= last) by {
            if i < p.len() - 1 {
                assert(p[i] < p[p.len() - 1]);
            }
        }
        if is_distance(p, x - p[i]) {
            let (a, b) = choose|a: int, b: int| 0 <= a < b < p.len() && #[trigger] span(p, a, b) == x - p[i];
            assert(p[b] <= last) by {
                if b < p.len() - 1 {
                    assert(p[b] < p[p.len() - 1]);
                }
            }
        }
    }
}

/// How the greedy ruler chooses each mark, stated from the marks themselves: the first
/// mark is 0, the marks are a Golomb ruler, and no position strictly between two
/// neighbouring marks would have kept the distances before it different.
pub proof fn lemma_greedy_choice(m: Seq<u32>, i: int)
    requires
        is_greedy(m),
        1 <= i < m.len(),
    ensures
        m[0] == 0,
        m[i - 1] < m[i],
        is_golomb(m.take(i + 1)),
        forall|y: int| m[i - 1] < y < m[i] ==> !#[trigger] is_golomb(m.take(i).push(y as u32)),
{
    lemma_prefix_golomb(m, i + 1);
    assert(m.take(i + 1) =~= m.subrange(0, i + 1));
    assert forall|y: int| m[i - 1] < y < m[i] implies !#[trigger] is_golomb(m.take(i).push(y as u32)) by {
        assert(1 <= i < m.len() && m[i - 1] < y < m[i]);
    }
}

/// Distances recorded in `used` are exactly those of the ruler.
pub open spec fn used_set_matches(used: Set<u32>, m: Seq<u32>) -> bool {
    forall|d: u32| used.contains(d) <==> is_distance(m, d as int)
}

/// Whether placing a mark at `new_pos` repeats a distance already in `used`.
fn has_conflict(marks: &Vec<u32>, used: &HashSet<u32>, new_pos: u32) -> (conflict: bool)
    requires
        marks@.len() >= 1,
        is_golomb(marks@),
        marks@[marks@.len() - 1] < new_pos,
        used_set_matches(used@, marks@),
    ensures
        conflict == !is_golomb(marks@.push(new_pos)),
{
    proof {
        lemma_extend(marks@, new_pos);
    }
    let mut j: usize = 0;
    while j < marks.len()
        invariant
            marks@.len() >= 1,
            is_golomb(marks@),
            marks@[marks@.len() - 1] < new_pos,
            used_set_matches(used@, marks@),
            j <= marks@.len(),
            forall|i: int| 0 <= i < j ==> !is_distance(marks@, new_pos - marks@[i]),
        decreases marks@.len() - j,
    {
        assert(marks@[j as int] <= marks@[marks@.len() - 1]) by {
            if j < marks@.len() - 1 {
                assert(marks@[j as int] < marks@[marks@.len() - 1]);
            }
        }
        let d = new_pos - marks[j];
        if used.contains(&d) {
            proof {
                lemma_extend(marks@, new_pos);
            }
            return true;
        }
        j += 1;
    }
    proof {
        lemma_extend(marks@, new_pos);
    }
    false
}

/// Place a mark at `new_pos`, recording its distances to the earlier marks.
fn place(marks: &mut Vec<u32>, used: &mut HashSet<u32>, new_pos: u32)
    requires
        old(marks)@.len() >= 1,
        old(marks)@[old(marks)@.len() - 1] < new_pos,
        is_golomb(old(marks)@),
        is_golomb(old(marks)@.push(new_pos)),
        used_set_matches(old(used)@, old(marks)@),
    ensures
        final(marks)@ == old(marks)@.push(new_pos),
        used_set_matches(final(used)@, final(marks)@),
{
    let ghost m0 = marks@;
    let ghost u0 = used@;
    let mut j: usize = 0;
    while j < marks.len()
        invariant
            marks@ == m0,
            m0.len() >= 1,
            is_golomb(m0),
            m0[m0.len() - 1] < new_pos,
            j <= m0.len(),
            forall|d: u32| #[trigger] used@.contains(d) <==> (u0.contains(d) || exists|i: int| 0 <= i < j && new_pos - m0[i] == d),
        decreases m0.len() - j,
    {
        assert(m0[j as int] <= m0[m0.len() - 1]) by {
            if j < m0.len() - 1 {
                crate::ruler::lemma_increasing_gaps(m0, j as int, m0.len() - 1);
            }
        }
        let d = new_pos - marks[j];
        let ghost before = used@;
        used.insert(d);
        proof {
            assert forall|e: u32| used@.contains(e) <==> (u0.contains(e) || exists|i: int| 0 <= i < j + 1 && new_pos - m0[i] == e) by {
                if e == d {
                    assert(new_pos - m0[j as int] == e);
                } else {
                    assert(used@.contains(e) == before.contains(e));
                    assert(before.contains(e) <==> (u0.contains(e) || exists|i: int| 0 <= i < j && new_pos - m0[i] == e));
                    if exists|i: int| 0 <= i < j + 1 && new_pos - m0[i] == e {
                        let i = choose|i: int| 0 <= i < j + 1 && new_pos - m0[i] == e;
                        assert(i != j);
                        assert(0 <= i < j && new_pos - m0[i] == e);
                    }
                    if exists|i: int| 0 <= i < j && new_pos - m0[i] == e {
                        let i = choose|i: int| 0 <= i < j && new_pos - m0[i] == e;
                        assert(0 <= i < j + 1 && new_pos - m0[i] == e);
                    }
                }
            }
        }
        j += 1;
    }
    marks.push(new_pos);
    proof {
        assert forall|d: u32| used@.contains(d) <==> is_distance(marks@, d as int) by {
            lemma_distance_push(m0, new_pos, d as int);
        }
    }
}

/// Construct the greedy Golomb ruler with `n` marks: each mark is placed at the smallest
/// position past the previous one that keeps all distances different.
pub fn construct_golomb(n: usize) -> (r: Vec<u32>)
    requires
        forall|p: Seq<u32>| #[trigger] is_greedy(p) && 1 <= p.len() < n ==> exists|x: u32|
            p[p.len() - 1] < x && is_golomb(p.push(x)),
    ensures
        r@.len() == n,
        is_greedy(r@),
        n >= 1 ==> r@[0] == 0,
        is_golomb(r@),
        forall|i: int, y: int| 1 <= i < n && r@[i - 1] < y < r@[i] ==> !#[trigger] is_golomb(r@.take(i).push(y as u32)),
{
    if n == 0 {
        let v: Vec<u32> = Vec::new();
        return v;
    }
    if n == 1 {
        let v: Vec<u32> = vec![0u32];
        assert(v@ =~= seq![0u32]);
        return v;
    }
    let mut marks: Vec<u32> = vec![0u32];
    let mut used: HashSet<u32> = HashSet::new();
    let mut pos = 0u32;
    assert(marks@ =~= seq![0u32]);
    proof {
        assert forall|d: u32| used@.contains(d) <==> is_distance(marks@, d as int) by {
            if is_distance(marks@, d as int) {
                let (a, b) = choose|a: int, b: int| 0 <= a < b < marks@.len() && #[trigger] span(marks@, a, b) == d as int;
            }
        }
    }
    let mut placed: usize = 1;
    while placed < n
        invariant
            1 <= placed <= n,
            marks@.len() == placed,
            is_greedy(marks@),
            pos == marks@[marks@.len() - 1],
            used_set_matches(used@, marks@),
            forall|p: Seq<u32>| #[trigger] is_greedy(p) && 1 <= p.len() < n ==> exists|x: u32|
                p[p.len() - 1] < x && is_golomb(p.push(x)),
        decreases n - placed,
    {
        let ghost witness = choose|x: u32| pos < x && is_golomb(marks@.push(x));
        let ghost m0 = marks@;
        let mut gap = 1u32;
        loop
            invariant
                marks@ == m0,
                m0.len() == placed,
                1 <= placed < n,
                is_greedy(m0),
                pos == m0[m0.len() - 1],
                used_set_matches(used@, m0),
                pos < witness,
                is_golomb(m0.push(witness)),
                1 <= gap,
                pos + gap <= witness,
                forall|y: int| pos < y < pos + gap ==> !#[trigger] is_golomb(m0.push(y as u32)),
            ensures
                1 <= gap,
                pos + gap <= witness,
                is_golomb(m0.push((pos + gap) as u32)),
                forall|y: int| pos < y < pos + gap ==> !#[trigger] is_golomb(m0.push(y as u32)),
            decreases witness - pos - gap,
        {
            let new_pos = pos + gap;
            if !has_conflict(&marks, &used, new_pos) {
                break;
            }
            gap += 1;
        }
        let new_pos = pos + gap;
        place(&mut marks, &mut used, new_pos);
        proof {
            let p = marks@;
            assert forall|i: int, y: int| 1 <= i < p.len() && p[i - 1] < y < p[i] implies !#[trigger] is_golomb(p.take(i).push(y as u32)) by {
                if i == p.len() - 1 {
                    assert(p.take(i) =~= m0);
                } else {
                    assert(p.take(i) =~= m0.take(i));
                }
            }
            lemma_prefix_golomb(p, p.len() as int);
            assert(p.subrange(0, p.len() as int) =~= p);
        }
        pos = new_pos;
        placed += 1;
    }
    marks
}

/// The mark after `prefix` that the prime-gap heuristic picks is `x`: either the smallest gap
/// `g` with `2 <= g <= pos + 1` that the primality test accepts and that keeps all distances
/// different, or, when there is none, the smallest position past `pos` that keeps them
/// different (`pos` the last mark of `prefix`).
pub open spec fn prime_step(prefix: Seq<u32>, x: int) -> bool {
    let pos = prefix[prefix.len() - 1] as int;
    let g = x - pos;
    ||| {
        &&& 2 <= g <= pos + 1
        &&& bpsw_prime(g)
        &&& forall|h: int| 2 <= h < g && bpsw_prime(h) ==> !#[trigger] is_golomb(prefix.push((pos + h) as u32))
    }
    ||| {
        &&& forall|h: int| 2 <= h <= pos + 1 && bpsw_prime(h) ==> !#[trigger] is_golomb(prefix.push((pos + h) as u32))
        &&& forall|y: int| pos < y < x ==> !#[trigger] is_golomb(prefix.push(y as u32))
    }
}

/// `m` is the ruler of the prime-gap heuristic: it starts at 0, its distances are all
/// different, and each later mark is the one `prime_step` picks after the marks before it.
pub open spec fn is_prime_greedy(m: Seq<u32>) -> bool {
    &&& m.len() >= 1 ==> m[0] == 0
    &&& is_golomb(m)
    &&& forall|i: int| 1 <= i < m.len() ==> #[trigger] prime_step(m.take(i), m[i] as int)
}

/// Construct a Golomb ruler with `n` marks by the prime-gap heuristic: each step first tries
/// the gaps up to one past the last mark that the primality test accepts, smallest first, and
/// falls back to the smallest gap that keeps all distances different.
pub fn construct_prime_greedy(n: usize) -> (r: Vec<u32>)
    requires
        forall|p: Seq<u32>| #[trigger] is_prime_greedy(p) && 1 <= p.len() < n ==> 2 * p[p.len() - 1] + 1 <= u32::MAX,
    ensures
        r@.len() == n,
        is_prime_greedy(r@),
        n >= 1 ==> r@[0] == 0,
        is_golomb(r@),
        forall|i: int, h: int| 1 <= i < n && 2 <= h <= r@[i - 1] + 1 && h < r@[i] - r@[i - 1] && bpsw_prime(h)
            ==> !#[trigger] is_golomb(r@.take(i).push((r@[i - 1] + h) as u32)),
        forall|i: int| 1 <= i < n ==> (2 <= #[trigger] r@[i] - r@[i - 1] <= r@[i - 1] + 1 && bpsw_prime(r@[i] - r@[i - 1])) || {
            &&& forall|h: int| 2 <= h <= r@[i - 1] + 1 && bpsw_prime(h)
                ==> !#[trigger] is_golomb(r@.take(i).push((r@[i - 1] + h) as u32))
            &&& forall|y: int| r@[i - 1] < y < r@[i] ==> !#[trigger] is_golomb(r@.take(i).push(y as u32))
        },
{
    if n == 0 {
        let v: Vec<u32> = Vec::new();
        return v;
    }
    if n == 1 {
        let v: Vec<u32> = vec![0u32];
        assert(v@ =~= seq![0u32]);
        return v;
    }
    let mut marks: Vec<u32> = vec![0u32];
    let mut used: HashSet<u32> = HashSet::new();
    let mut pos = 0u32;
    assert(marks@ =~= seq![0u32]);
    proof {
        assert forall|d: u32| used@.contains(d) <==> is_distance(marks@, d as int) by {
            if is_distance(marks@, d as int) {
                let (a, b) = choose|a: int, b: int| 0 <= a < b < marks@.len() && #[trigger] span(marks@, a, b) == d as int;
            }
        }
    }
    let mut placed: usize = 1;
    while placed < n
        invariant
            1 <= placed <= n,
            marks@.len() == placed,
            is_prime_greedy(marks@),
            pos == marks@[marks@.len() - 1],
            used_set_matches(used@, marks@),
            forall|p: Seq<u32>| #[trigger] is_prime_greedy(p) && 1 <= p.len() < n ==> 2 * p[p.len() - 1] + 1 <= u32::MAX,
        decreases n - placed,
    {
        let ghost m0 = marks@;
        let ghost pos0 = pos as int;
        assert(2 * pos + 1 <= u32::MAX);
        let mut gap = 2u32;
        let mut found = false;
        while gap <= pos + 1
            invariant_except_break
                marks@ == m0,
                pos == pos0,
                !found,
                2 <= gap <= pos + 2,
                forall|h: int| 2 <= h < gap && bpsw_prime(h) ==> !#[trigger] is_golomb(m0.push((pos0 + h) as u32)),
            invariant
                m0.len() == placed,
                1 <= placed < n,
                is_prime_greedy(m0),
                pos0 == m0[m0.len() - 1],
                2 * pos0 + 1 <= u32::MAX,
                used_set_matches(used@, marks@),
            ensures
                found ==> marks@ == m0.push(pos) && is_golomb(marks@) && pos > pos0 && prime_step(m0, pos as int),
                !found ==> marks@ == m0 && pos == pos0 && forall|h: int| 2 <= h <= pos0 + 1 && bpsw_prime(h) ==> !#[trigger] is_golomb(m0.push((pos0 + h) as u32)),
            decreases pos + 2 - gap,
        {
            if is_prime_bpsw(gap as u64) {
                let new_pos = pos + gap;
                if !has_conflict(&marks, &used, new_pos) {
                    place(&mut marks, &mut used, new_pos);
                    pos = new_pos;
                    found = true;
                    break;
                }
            }
            gap += 1;
        }
        if !found {
            let ghost witness: u32 = (2 * pos0 + 1) as u32;
            proof {
                lemma_double_extends(m0);
            }
            let mut gap = 1u32;
            loop
                invariant
                    marks@ == m0,
                    m0.len() == placed,
                    1 <= placed < n,
                    is_prime_greedy(m0),
                    pos == pos0,
                    pos0 == m0[m0.len() - 1],
                    used_set_matches(used@, m0),
                    pos < witness,
                    is_golomb(m0.push(witness)),
                    1 <= gap,
                    pos + gap <= witness,
                    forall|y: int| pos < y < pos + gap ==> !#[trigger] is_golomb(m0.push(y as u32)),
                ensures
                    1 <= gap,
                    pos + gap <= witness,
                    is_golomb(m0.push((pos + gap) as u32)),
                    forall|y: int| pos < y < pos + gap ==> !#[trigger] is_golomb(m0.push(y as u32)),
                decreases witness - pos - gap,
            {
                let new_pos = pos + gap;
                if !has_conflict(&marks, &used, new_pos) {
                    break;
                }
                gap += 1;
            }
            let new_pos = pos + gap;
            place(&mut marks, &mut used, new_pos);
            pos = new_pos;
            proof {
                assert(prime_step(m0, pos as int));
            }
        }
        proof {
            let p = marks@;
            assert(p.take(m0.len() as int) =~= m0);
            assert forall|i: int| 1 <= i < p.len() implies #[trigger] prime_step(p.take(i), p[i] as int) by {
                if i < m0.len() {
                    assert(p.take(i) =~= m0.take(i));
                    assert(prime_step(m0.take(i), m0[i] as int));
                }
            }
        }
        placed += 1;
    }
    proof {
        lemma_prime_greedy_all(marks@);
    }
    marks
}

/// How the prime-gap ruler chooses each mark, stated from the marks themselves: with `pos`
/// the previous mark and `g` the gap to the next one,
/// - no prime gap `h` with `2 <= h <= pos + 1` smaller than `g` keeps the distances
///   different;
/// - unless `g` itself is such a prime gap, no prime gap `h` with `2 <= h <= pos + 1`
///   keeps them different, and no position between `pos` and the chosen mark does either
///   (the chosen mark is the nearest one that does).
pub proof fn lemma_prime_greedy_choice(m: Seq<u32>, i: int)
    requires
        is_prime_greedy(m),
        1 <= i < m.len(),
    ensures
        forall|h: int| 2 <= h <= m[i - 1] + 1 && h < m[i] - m[i - 1] && bpsw_prime(h)
            ==> !#[trigger] is_golomb(m.take(i).push((m[i - 1] + h) as u32)),
        (2 <= m[i] - m[i - 1] <= m[i - 1] + 1 && bpsw_prime(m[i] - m[i - 1])) || {
            &&& forall|h: int| 2 <= h <= m[i - 1] + 1 && bpsw_prime(h)
                ==> !#[trigger] is_golomb(m.take(i).push((m[i - 1] + h) as u32))
            &&& forall|y: int| m[i - 1] < y < m[i] ==> !#[trigger] is_golomb(m.take(i).push(y as u32))
        },
        is_golomb(m.take(i + 1)),
        m[i - 1] < m[i],
{
    let p = m.take(i);
    assert(prime_step(p, m[i] as int));
    assert(p[p.len() - 1] == m[i - 1]);
    lemma_prefix_golomb(m, i + 1);
    assert(m.take(i + 1) =~= m.subrange(0, i + 1));
}

/// `lemma_prime_greedy_choice` at every mark of the ruler.
proof fn lemma_prime_greedy_all(r: Seq<u32>)
    requires
        is_prime_greedy(r),
    ensures
        forall|i: int, h: int| 1 <= i < r.len() && 2 <= h <= r[i - 1] + 1 && h < r[i] - r[i - 1] && bpsw_prime(h)
            ==> !#[trigger] is_golomb(r.take(i).push((r[i - 1] + h) as u32)),
        forall|i: int| 1 <= i < r.len() ==> (2 <= #[trigger] r[i] - r[i - 1] <= r[i - 1] + 1 && bpsw_prime(r[i] - r[i - 1])) || {
            &&& forall|h: int| 2 <= h <= r[i - 1] + 1 && bpsw_prime(h)
                ==> !#[trigger] is_golomb(r.take(i).push((r[i - 1] + h) as u32))
            &&& forall|y: int| r[i - 1] < y < r[i] ==> !#[trigger] is_golomb(r.take(i).push(y as u32))
        },
{
    assert forall|i: int, h: int| 1 <= i < r.len() && 2 <= h <= r[i - 1] + 1 && h < r[i] - r[i - 1] && bpsw_prime(h)
        implies !#[trigger] is_golomb(r.take(i).push((r[i - 1] + h) as u32)) by {
        lemma_prime_greedy_choice(r, i);
    }
    assert forall|i: int| 1 <= i < r.len() implies (2 <= #[trigger] r[i] - r[i - 1] <= r[i - 1] + 1 && bpsw_prime(r[i] - r[i - 1])) || {
            &&& forall|h: int| 2 <= h <= r[i - 1] + 1 && bpsw_prime(h)
                ==> !#[trigger] is_golomb(r.take(i).push((r[i - 1] + h) as u32))
            &&& forall|y: int| r[i - 1] < y < r[i] ==> !#[trigger] is_golomb(r.take(i).push(y as u32))
        } by {
        lemma_prime_greedy_choice(r, i);
    }
}

/// The last mark of a ruler, `0` for an empty one.
pub open spec fn last_mark(m: Seq<u32>) -> int {
    if m.len() == 0 {
        0
    } else {
        m[m.len() - 1] as int
    }
}

/// Two greedy rulers with the same number of marks are the same ruler.
pub proof fn lemma_greedy_unique(a: Seq<u32>, b: Seq<u32>)
    requires
        is_greedy(a),
        is_greedy(b),
        a.len() == b.len(),
    ensures
        a == b,
{
    assert forall|k: int| 0 <= k <= a.len() implies #[trigger] a.take(k) == b.take(k) by {
        lemma_greedy_prefixes_agree(a, b, k);
    }
    assert(a.take(a.len() as int) =~= a);
    assert(b.take(b.len() as int) =~= b);
}

proof fn lemma_greedy_prefixes_agree(a: Seq<u32>, b: Seq<u32>, k: int)
    requires
        is_greedy(a),
        is_greedy(b),
        a.len() == b.len(),
        0 <= k <= a.len(),
    ensures
        a.take(k) == b.take(k),
    decreases k,
{
    if k == 0 {
        assert(a.take(0) =~= b.take(0));
    } else if k == 1 {
        assert(a.take(1) =~= b.take(1));
    } else {
        let i = k - 1;
        lemma_greedy_prefixes_agree(a, b, i);
        let p = a.take(i);
        assert(b.take(i) == p);
        lemma_prefix_golomb(a, k);
        lemma_prefix_golomb(b, k);
        assert(a.subrange(0, k) =~= p.push(a[i]));
        assert(b.subrange(0, k) =~= p.push(b[i]));
        assert(a[i - 1] == p[i - 1] && b[i - 1] == p[i - 1]);
        if a[i] < b[i] {
            let y = a[i] as int;
            assert(b[i - 1] < y < b[i]);
            assert(!is_golomb(b.take(i).push(y as u32)));
            assert(y as u32 == a[i]);
        } else if b[i] < a[i] {
            let y = b[i] as int;
            assert(a[i - 1] < y < a[i]);
            assert(!is_golomb(a.take(i).push(y as u32)));
            assert(y as u32 == b[i]);
        }
        assert(a.take(k) =~= b.take(k));
    }
}

/// The prime-gap heuristic picks one mark: two choices after the same prefix that both
/// keep all distances different are the same.
proof fn lemma_prime_step_unique(p: Seq<u32>, x: int, y: int)
    requires
        p.len() >= 1,
        0 <= x <= u32::MAX,
        0 <= y <= u32::MAX,
        p[p.len() - 1] < x,
        p[p.len() - 1] < y,
        prime_step(p, x),
        prime_step(p, y),
        is_golomb(p.push(x as u32)),
        is_golomb(p.push(y as u32)),
    ensures
        x == y,
{
    lemma_prime_step_order(p, x, y);
    lemma_prime_step_order(p, y, x);
}

proof fn lemma_prime_step_order(p: Seq<u32>, x: int, y: int)
    requires
        p.len() >= 1,
        0 <= x <= u32::MAX,
        0 <= y <= u32::MAX,
        p[p.len() - 1] < x,
        p[p.len() - 1] < y,
        prime_step(p, x),
        prime_step(p, y),
        is_golomb(p.push(x as u32)),
        is_golomb(p.push(y as u32)),
    ensures
        !(x < y),
{
    let pos = p[p.len() - 1] as int;
    let gx = x - pos;
    let gy = y - pos;
    assert((pos + gx) as u32 == x as u32);
    assert((pos + gy) as u32 == y as u32);
    if x < y {
        let a_y = 2 <= gy <= pos + 1 && bpsw_prime(gy) && forall|h: int| 2 <= h < gy && bpsw_prime(h) ==> !#[trigger] is_golomb(p.push((pos + h) as u32));
        if a_y {
            if 2 <= gx && bpsw_prime(gx) {
                assert(!is_golomb(p.push((pos + gx) as u32)));
            } else {
                assert(forall|h: int| 2 <= h <= pos + 1 && bpsw_prime(h) ==> !#[trigger] is_golomb(p.push((pos + h) as u32)));
                assert(!is_golomb(p.push((pos + gy) as u32)));
            }
        } else {
            assert(forall|z: int| pos < z < y ==> !#[trigger] is_golomb(p.push(z as u32)));
            assert(!is_golomb(p.push(x as u32)));
        }
    }
}

/// Two rulers of the prime-gap heuristic with the same number of marks are the same ruler.
pub proof fn lemma_prime_greedy_unique(a: Seq<u32>, b: Seq<u32>)
    requires
        is_prime_greedy(a),
        is_prime_greedy(b),
        a.len() == b.len(),
    ensures
        a == b,
{
    assert forall|k: int| 0 <= k <= a.len() implies #[trigger] a.take(k) == b.take(k) by {
        lemma_prime_greedy_prefixes_agree(a, b, k);
    }
    assert(a.take(a.len() as int) =~= a);
    assert(b.take(b.len() as int) =~= b);
}

proof fn lemma_prime_greedy_prefixes_agree(a: Seq<u32>, b: Seq<u32>, k: int)
    requires
        is_prime_greedy(a),
        is_prime_greedy(b),
        a.len() == b.len(),
        0 <= k <= a.len(),
    ensures
        a.take(k) == b.take(k),
    decreases k,
{
    if k == 0 {
        assert(a.take(0) =~= b.take(0));
    } else if k == 1 {
        assert(a.take(1) =~= b.take(1));
    } else {
        let i = k - 1;
        lemma_prime_greedy_prefixes_agree(a, b, i);
        let p = a.take(i);
        assert(b.take(i) == p);
        lemma_prefix_golomb(a, k);
        lemma_prefix_golomb(b, k);
        assert(a.subrange(0, k) =~= p.push(a[i]));
        assert(b.subrange(0, k) =~= p.push(b[i]));
        assert(a[i - 1] < a[i]);
        assert(b[i - 1] < b[i]);
        assert(prime_step(a.take(i), a[i] as int));
        assert(prime_step(b.take(i), b[i] as int));
        lemma_prime_step_unique(p, a[i] as int, b[i] as int);
        assert(a.take(k) =~= b.take(k));
    }
}

/// A mark that no smaller position past the previous mark could replace is at most twice
/// the previous mark plus one, since that position always extends the marks before it.
proof fn lemma_next_mark_bound(m: Seq<u32>, i: int)
    requires
        is_golomb(m),
        1 <= i < m.len(),
        2 * m[i - 1] + 1 <= u32::MAX,
        forall|y: int| m[i - 1] < y < m[i] ==> !#[trigger] is_golomb(m.take(i).push(y as u32)),
    ensures
        m[i] <= 2 * m[i - 1] + 1,
{
    let p = m.take(i);
    lemma_prefix_golomb(m, i);
    assert(p =~= m.subrange(0, i));
    lemma_double_extends(p);
    let y: int = 2 * m[i - 1] + 1;
    if m[i] > y {
        assert(m[i - 1] < y < m[i]);
        assert(!is_golomb(p.push(y as u32)));
    }
}

/// Each mark of the greedy ruler is below `2^i`, `i` its index.
proof fn lemma_greedy_mark_bound(m: Seq<u32>, i: int)
    requires
        is_greedy(m),
        0 <= i < m.len(),
        i <= 31,
    ensures
        m[i] < pow2(i as nat),
    decreases i,
{
    lemma2_to64();
    if i > 0 {
        lemma_greedy_mark_bound(m, i - 1);
        lemma_pow2_unfold(i as nat);
        lemma_pow2_strictly_increases((i - 1) as nat, 31);
        assert forall|y: int| m[i - 1] < y < m[i] implies !#[trigger] is_golomb(m.take(i).push(y as u32)) by {
            assert(1 <= i < m.len() && m[i - 1] < y < m[i]);
        }
        lemma_next_mark_bound(m, i);
    }
}

/// Each mark of the prime-gap ruler is below `2^i`, `i` its index.
proof fn lemma_prime_greedy_mark_bound(m: Seq<u32>, i: int)
    requires
        is_prime_greedy(m),
        0 <= i < m.len(),
        i <= 31,
    ensures
        m[i] < pow2(i as nat),
    decreases i,
{
    lemma2_to64();
    if i > 0 {
        lemma_prime_greedy_mark_bound(m, i - 1);
        lemma_pow2_unfold(i as nat);
        lemma_pow2_strictly_increases((i - 1) as nat, 31);
        let p = m.take(i);
        assert(prime_step(p, m[i] as int));
        assert(p[p.len() - 1] == m[i - 1]);
        if m[i] - m[i - 1] > m[i - 1] + 1 {
            assert forall|y: int| m[i - 1] < y < m[i] implies !#[trigger] is_golomb(m.take(i).push(y as u32)) by {}
            lemma_next_mark_bound(m, i);
        }
    }
}

/// Up to 33 marks, both constructions keep every mark within `u32`: the quantified
/// conditions that `construct_golomb`, `construct_prime_greedy` and `construct_bound` ask
/// for hold.
pub proof fn lemma_constructions_fit(n: usize)
    requires
        n <= 33,
    ensures
        forall|p: Seq<u32>| #[trigger] is_greedy(p) && 1 <= p.len() < n ==> exists|x: u32|
            p[p.len() - 1] < x && is_golomb(p.push(x)),
        forall|p: Seq<u32>| #[trigger] is_prime_greedy(p) && 1 <= p.len() < n ==> 2 * p[p.len() - 1] + 1 <= u32::MAX,
{
    lemma2_to64();
    assert forall|p: Seq<u32>| #[trigger] is_greedy(p) && 1 <= p.len() < n implies exists|x: u32|
        p[p.len() - 1] < x && is_golomb(p.push(x)) by {
        let k = p.len() - 1;
        lemma_greedy_mark_bound(p, k);
        if k < 31 {
            lemma_pow2_strictly_increases(k as nat, 31);
        }
        lemma_double_extends(p);
        let x = (2 * p[k] + 1) as u32;
        assert(p[k] < x && is_golomb(p.push(x)));
    }
    assert forall|p: Seq<u32>| #[trigger] is_prime_greedy(p) && 1 <= p.len() < n implies 2 * p[p.len() - 1] + 1 <= u32::MAX by {
        let k = p.len() - 1;
        lemma_prime_greedy_mark_bound(p, k);
        if k < 31 {
            lemma_pow2_strictly_increases(k as nat, 31);
        }
    }
}

/// Length of the better of the two constructions: the shorter of the greedy ruler and the
/// prime-gap ruler with `n` marks (0 for no marks). With the table's lower bounds it is
/// never below the optimal length.
pub fn construct_bound(n: usize) -> (r: u32)
    requires
        forall|p: Seq<u32>| #[trigger] is_greedy(p) && 1 <= p.len() < n ==> exists|x: u32|
            p[p.len() - 1] < x && is_golomb(p.push(x)),
        forall|p: Seq<u32>| #[trigger] is_prime_greedy(p) && 1 <= p.len() < n ==> 2 * p[p.len() - 1] + 1 <= u32::MAX,
    ensures
        exists|g: Seq<u32>, h: Seq<u32>| is_greedy(g) && g.len() == n && is_prime_greedy(h) && h.len() == n,
        known_lengths_are_lower_bounds() && 1 <= n < 29 ==> r >= OGR_OPTIMAL@[n as int],
        forall|g: Seq<u32>, h: Seq<u32>|
            is_greedy(g) && g.len() == n && is_prime_greedy(h) && h.len() == n ==> r == if last_mark(g) <= last_mark(h) {
                last_mark(g)
            } else {
                last_mark(h)
            },
{
    let greedy_marks = construct_golomb(n);
    let prime_marks = construct_prime_greedy(n);
    let greedy_len = if greedy_marks.len() == 0 { 0 } else { greedy_marks[greedy_marks.len() - 1] };
    let prime_len = if prime_marks.len() == 0 { 0 } else { prime_marks[prime_marks.len() - 1] };
    proof {
        assert forall|g: Seq<u32>, h: Seq<u32>|
            is_greedy(g) && g.len() == n && is_prime_greedy(h) && h.len() == n implies greedy_len == last_mark(g) && prime_len == last_mark(h) by {
            lemma_greedy_unique(g, greedy_marks@);
            lemma_prime_greedy_unique(h, prime_marks@);
        }
        assert(is_greedy(greedy_marks@) && greedy_marks@.len() == n && is_prime_greedy(prime_marks@) && prime_marks@.len() == n);
        if known_lengths_are_lower_bounds() && 1 <= n < 29 {
            assert(is_golomb(greedy_marks@) && 1 <= greedy_marks@.len() < 29);
            assert(is_golomb(prime_marks@) && 1 <= prime_marks@.len() < 29);
        }
    }
    if greedy_len <= prime_len {
        greedy_len
    } else {
        prime_len
    }
}

} // verus!
