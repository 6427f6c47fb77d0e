use vstd::prelude::*;
use crate::ruler::{
    completes, is_distance, is_golomb, is_ruler, lemma_distance_push, lemma_extend,
    lemma_prefix_golomb, ruler_exists, span, strictly_increasing, distinct_spans, lex_less,
    lemma_lex_first_leaf, lemma_lex_first_step,
};
use std::collections::HashSet;

verus! {

broadcast use vstd::std_specs::hash::group_hash_axioms;

/// `used[d]` tells exactly whether `d` is a distance of the ruler `m`.
pub open spec fn used_matches(used: Seq<bool>, m: Seq<u32>) -> bool {
    forall|d: int| 0 <= d < used.len() ==> (used[d] <==> is_distance(m, d))
}

/// A partial ruler that the search extends: starts at 0, Golomb, within `max_len`.
pub open spec fn valid_prefix(m: Seq<u32>, max_len: int) -> bool {
    &&& m.len() >= 1
    &&& m[0] == 0
    &&& is_golomb(m)
    &&& m[m.len() - 1] <= max_len
}

/// Find a Golomb ruler with `n` marks of length <= `max_len`; the search is exhaustive,
/// so `None` means that no such ruler exists.
pub fn find(n: usize, max_len: u32) -> (r: Option<Vec<u32>>)
    requires
        n <= 33,
        max_len < usize::MAX,
    ensures
        r is Some <==> ruler_exists(n as nat, max_len as int),
        r matches Some(v) ==> is_ruler(v@, n as nat, max_len as int),
        r matches Some(v) ==> forall|w: Seq<u32>| #[trigger] is_ruler(w, n as nat, max_len as int) ==> !lex_less(w, v@),
{
    if n == 0 {
        let v: Vec<u32> = Vec::new();
        assert(is_ruler(v@, 0, max_len as int));
        proof {
            assert forall|w: Seq<u32>| #[trigger] is_ruler(w, n as nat, max_len as int) implies !lex_less(w, v@) by {}
        }
        return Some(v);
    }
    if n == 1 {
        let v: Vec<u32> = vec![0u32];
        assert(is_ruler(v@, 1, max_len as int));
        proof {
            assert forall|w: Seq<u32>| #[trigger] is_ruler(w, n as nat, max_len as int) implies !lex_less(w, v@) by {
                if lex_less(w, v@) {
                    let i = choose|i: int| 0 <= i < w.len() && i < v@.len() && w[i] < v@[i] && forall|j: int| 0 <= j < i ==> w[j] == v@[j];
                }
            }
        }
        return Some(v);
    }
    let mut marks: Vec<u32> = vec![0u32];
    let mut used: Vec<bool> = vec![false; max_len as usize + 1];
    assert(marks@ =~= seq![0u32]);
    proof {
        assert forall|d: int| 0 <= d < used@.len() implies (used@[d] <==> is_distance(marks@, d)) by {
            if is_distance(marks@, d) {
                let (a, b) = choose|a: int, b: int| 0 <= a < b < marks@.len() && #[trigger] span(marks@, a, b) == d;
            }
        }
    }
    let r = dfs_find(n, max_len, &mut marks, &mut used);
    proof {
        if r is Some {
            assert(is_ruler(r->0@, n as nat, max_len as int));
            assert forall|w: Seq<u32>| #[trigger] is_ruler(w, n as nat, max_len as int) implies !lex_less(w, r->0@) by {
                assert(completes(w, seq![0u32], n as nat, max_len as int));
            }
        }
        if r is None {
            if ruler_exists(n as nat, max_len as int) {
                let w = choose|w: Seq<u32>| is_ruler(w, n as nat, max_len as int);
                assert(completes(w, seq![0u32], n as nat, max_len as int));
            }
        }
    }
    r
}

/// Decide whether a Golomb ruler with `n` marks of length <= `max_len` exists.
pub fn exists_ruler(n: usize, max_len: u32) -> (r: bool)
    requires
        n <= 33,
        max_len < usize::MAX,
    ensures
        r == ruler_exists(n as nat, max_len as int),
{
    if n <= 1 || max_len == 0 {
        proof {
            if n == 0 {
                assert(is_ruler(Seq::<u32>::empty(), 0, max_len as int));
            } else if n == 1 {
                assert(is_ruler(seq![0u32], 1, max_len as int));
            } else if ruler_exists(n as nat, max_len as int) {
                let w = choose|w: Seq<u32>| is_ruler(w, n as nat, max_len as int);
                assert(w[0] < w[1]);
            }
        }
        return n <= 1;
    }
    let mut marks: Vec<u32> = vec![0u32];
    let mut used: Vec<bool> = vec![false; max_len as usize + 1];
    assert(marks@ =~= seq![0u32]);
    proof {
        assert forall|d: int| 0 <= d < used@.len() implies (used@[d] <==> is_distance(marks@, d)) by {
            if is_distance(marks@, d) {
                let (a, b) = choose|a: int, b: int| 0 <= a < b < marks@.len() && #[trigger] span(marks@, a, b) == d;
            }
        }
    }
    let r = dfs_exists(n, max_len, &mut marks, &mut used);
    proof {
        if r {
            let w = choose|w: Seq<u32>| completes(w, seq![0u32], n as nat, max_len as int);
            assert(is_ruler(w, n as nat, max_len as int));
        }
        if ruler_exists(n as nat, max_len as int) {
            let w = choose|w: Seq<u32>| is_ruler(w, n as nat, max_len as int);
            assert(completes(w, seq![0u32], n as nat, max_len as int));
        }
    }
    r
}

fn dfs_find(n: usize, max_len: u32, marks: &mut Vec<u32>, used: &mut Vec<bool>) -> (r: Option<Vec<u32>>)
    requires
        1 <= old(marks).len() <= n <= 33,
        valid_prefix(old(marks)@, max_len as int),
        old(used).len() == max_len + 1,
        used_matches(old(used)@, old(marks)@),
    ensures
        match r {
            Some(v) => completes(v@, old(marks)@, n as nat, max_len as int) && forall|w: Seq<u32>|
                #[trigger] completes(w, old(marks)@, n as nat, max_len as int) ==> !lex_less(w, v@),
            None => {
                &&& final(marks)@ == old(marks)@
                &&& final(used)@ == old(used)@
                &&& forall|w: Seq<u32>| !completes(w, old(marks)@, n as nat, max_len as int)
            },
        },
    decreases n - old(marks).len(),
{
    let ghost m0 = marks@;
    let ghost u0 = used@;
    if marks.len() == n {
        let v = marks.clone();
        assert(v@ == m0);
        proof {
            assert(completes(m0, m0, n as nat, max_len as int));
            lemma_lex_first_leaf(m0, n as nat, max_len as int);
        }
        return Some(v);
    }
    let last = marks[marks.len() - 1];
    let mut x: u32 = last;
    while x < max_len
        invariant
            marks@ == m0,
            used@ == u0,
            old(marks)@ == m0,
            old(used)@ == u0,
            1 <= m0.len() < n <= 33,
            valid_prefix(m0, max_len as int),
            u0.len() == max_len + 1,
            used_matches(u0, m0),
            last == m0[m0.len() - 1],
            last <= x <= max_len,
            forall|w: Seq<u32>| #[trigger] completes(w, m0, n as nat, max_len as int) ==> w[m0.len() as int] > x,
        decreases max_len - x,
    {
        x = x + 1;
        proof {
            lemma_place_golomb(m0, x, u0);
        }
        let placed = try_place(x, marks, used);
        let ghost u1 = used@;
        if placed {
            assert(marks@.len() == m0.len() + 1);
            assert(n - marks@.len() < n - m0.len());
            let result = dfs_find(n, max_len, marks, used);
            if result.is_some() {
                proof {
                    let v = result->0;
                    lemma_lex_first_step(m0, x, v@, n as nat, max_len as int);
                }
                return result;
            }
            unplace(x, marks, used);
            proof {
                assert(marks@ =~= m0);
                assert(m0.push(x).drop_last() =~= m0);
                lemma_unplace_restores(m0, x, u0, u1, used@);
            }
        }
        proof {
            assert forall|w: Seq<u32>| #[trigger] completes(w, m0, n as nat, max_len as int) implies w[m0.len() as int] > x by {
                let k = m0.len() as int;
                assert(w[k - 1] == last);
                assert(w[k - 1] < w[k]);
                if w[k] == x {
                    if placed {
                        assert(completes(w, m0.push(x), n as nat, max_len as int));
                    } else {
                        lemma_prefix_golomb(w, k + 1);
                        assert(w.subrange(0, k + 1) =~= m0.push(x));
                    }
                }
            }
        }
    }
    proof {
        assert forall|w: Seq<u32>| !completes(w, m0, n as nat, max_len as int) by {
            if completes(w, m0, n as nat, max_len as int) {
                assert(w[m0.len() as int] <= w[n - 1]);
            }
        }
    }
    None
}

fn dfs_exists(n: usize, max_len: u32, marks: &mut Vec<u32>, used: &mut Vec<bool>) -> (r: bool)
    requires
        1 <= old(marks).len() <= n <= 33,
        valid_prefix(old(marks)@, max_len as int),
        old(used).len() == max_len + 1,
        used_matches(old(used)@, old(marks)@),
    ensures
        final(marks)@ == old(marks)@,
        final(used)@ == old(used)@,
        r <==> exists|w: Seq<u32>| completes(w, old(marks)@, n as nat, max_len as int),
    decreases n - old(marks).len(),
{
    let ghost m0 = marks@;
    let ghost u0 = used@;
    if marks.len() == n {
        assert(completes(m0, m0, n as nat, max_len as int));
        return true;
    }
    let last = marks[marks.len() - 1];
    let mut x: u32 = last;
    while x < max_len
        invariant
            marks@ == m0,
            used@ == u0,
            old(marks)@ == m0,
            old(used)@ == u0,
            1 <= m0.len() < n <= 33,
            valid_prefix(m0, max_len as int),
            u0.len() == max_len + 1,
            used_matches(u0, m0),
            last == m0[m0.len() - 1],
            last <= x <= max_len,
            forall|w: Seq<u32>| #[trigger] completes(w, m0, n as nat, max_len as int) ==> w[m0.len() as int] > x,
        decreases max_len - x,
    {
        x = x + 1;
        proof {
            lemma_place_golomb(m0, x, u0);
        }
        let placed = try_place(x, marks, used);
        let ghost u1 = used@;
        if placed {
            assert(marks@.len() == m0.len() + 1);
            let found = dfs_exists(n, max_len, marks, used);
            if found {
                proof {
                    let w = choose|w: Seq<u32>| completes(w, m0.push(x), n as nat, max_len as int);
                    assert forall|i: int| 0 <= i < m0.len() implies w[i] == m0[i] by {
                        assert(m0.push(x)[i] == m0[i]);
                    }
                    assert(completes(w, m0, n as nat, max_len as int));
                }
                unplace(x, marks, used);
                proof {
                    assert(marks@ =~= m0);
                    assert(m0.push(x).drop_last() =~= m0);
                    lemma_unplace_restores(m0, x, u0, u1, used@);
                }
                return true;
            }
            unplace(x, marks, used);
            proof {
                assert(marks@ =~= m0);
                assert(m0.push(x).drop_last() =~= m0);
                lemma_unplace_restores(m0, x, u0, u1, used@);
            }
        }
        proof {
            assert forall|w: Seq<u32>| #[trigger] completes(w, m0, n as nat, max_len as int) implies w[m0.len() as int] > x by {
                let k = m0.len() as int;
                assert(w[k - 1] == last);
                assert(w[k - 1] < w[k]);
                if w[k] == x {
                    if placed {
                        assert(completes(w, m0.push(x), n as nat, max_len as int));
                    } else {
                        lemma_prefix_golomb(w, k + 1);
                        assert(w.subrange(0, k + 1) =~= m0.push(x));
                    }
                }
            }
        }
    }
    proof {
        assert forall|w: Seq<u32>| !completes(w, m0, n as nat, max_len as int) by {
            if completes(w, m0, n as nat, max_len as int) {
                assert(w[m0.len() as int] <= w[n - 1]);
            }
        }
    }
    false
}

/// `e` is the distance from `x` back to one of the marks `m`.
pub open spec fn new_distance(m: Seq<u32>, x: u32, e: int) -> bool {
    exists|j: int| 0 <= j < m.len() && x - m[j] == e
}

/// With `used` recording the distances of a Golomb prefix, the check of `try_place`
/// tells whether the new mark keeps the ruler Golomb, and the updated table records
/// the distances of the longer ruler.
proof fn lemma_place_golomb(m0: Seq<u32>, x: u32, u0: Seq<bool>)
    requires
        m0.len() >= 1,
        is_golomb(m0),
        m0[m0.len() - 1] < x,
        (x as int) < u0.len(),
        used_matches(u0, m0),
    ensures
        (forall|j: int| 0 <= j < m0.len() ==> x - m0[j] < u0.len() && !u0[x - m0[j]]) == is_golomb(m0.push(x)),
        forall|j: int| 0 <= j < m0.len() ==> m0[j] <= x,
        forall|u1: Seq<bool>| u1.len() == u0.len() && (forall|e: int| 0 <= e < u0.len() ==> (#[trigger] u1[e] <==> (u0[e] || new_distance(m0, x, e))))
            ==> used_matches(u1, m0.push(x)),
{
    lemma_extend(m0, x);
    assert forall|j: int| 0 <= j < m0.len() implies m0[j] <= x by {
        if j < m0.len() - 1 {
            assert(m0[j] < m0[m0.len() - 1]);
        }
    }
    assert forall|u1: Seq<bool>| u1.len() == u0.len() && (forall|e: int| 0 <= e < u0.len() ==> (#[trigger] u1[e] <==> (u0[e] || new_distance(m0, x, e))))
        implies used_matches(u1, m0.push(x)) by {
        assert forall|d: int| 0 <= d < u1.len() implies (u1[d] <==> is_distance(m0.push(x), d)) by {
            lemma_distance_push(m0, x, d);
        }
    }
}

/// Try to place a mark at `x`: it succeeds when every distance from `x` to the marks is
/// within `used` and not yet used, and then records the mark and those distances.
fn try_place(x: u32, marks: &mut Vec<u32>, used: &mut Vec<bool>) -> (ok: bool)
    requires
        old(marks).len() <= 32,
        forall|j: int| 0 <= j < old(marks).len() ==> old(marks)@[j] <= x,
    ensures
        ok == forall|j: int| 0 <= j < old(marks).len() ==> x - old(marks)@[j] < old(used).len() && !old(used)@[x - old(marks)@[j]],
        final(used).len() == old(used).len(),
        ok ==> final(marks)@ == old(marks)@.push(x) && forall|e: int| 0 <= e < old(used).len() ==> (#[trigger] final(used)@[e] <==> (
            old(used)@[e] || new_distance(old(marks)@, x, e))),
        !ok ==> final(marks)@ == old(marks)@ && final(used)@ == old(used)@,
{
    let ghost m0 = marks@;
    let ghost u0 = used@;
    let mut dists = [0usize; 32];
    let mut count: usize = 0;
    while count < marks.len()
        invariant
            marks@ == m0,
            used@ == u0,
            m0.len() <= 32,
            count <= m0.len(),
            forall|j: int| 0 <= j < m0.len() ==> m0[j] <= x,
            forall|j: int| 0 <= j < count ==> #[trigger] dists@[j] == x - m0[j],
            forall|j: int| 0 <= j < count ==> x - m0[j] < u0.len() && !u0[x - m0[j]],
        decreases m0.len() - count,
    {
        let d = (x - marks[count]) as usize;
        if d >= used.len() || used[d] {
            return false;
        }
        dists[count] = d;
        count += 1;
    }
    let mut i: usize = 0;
    while i < count
        invariant
            marks@ == m0,
            count == m0.len(),
            count <= 32,
            i <= count,
            used@.len() == u0.len(),
            forall|j: int| 0 <= j < count ==> #[trigger] dists@[j] == x - m0[j],
            forall|j: int| 0 <= j < count ==> x - m0[j] < u0.len(),
            forall|e: int| 0 <= e < u0.len() ==> (#[trigger] used@[e] <==> (u0[e] || exists|j: int| 0 <= j < i && x - m0[j] == e)),
        decreases count - i,
    {
        let ghost before = used@;
        let ghost i0 = i as int;
        let di = dists[i];
        assert(di == dists@[i0]);
        used.set(di, true);
        i += 1;
        proof {
            assert forall|e: int| 0 <= e < u0.len() implies (#[trigger] used@[e] <==> (u0[e] || exists|j: int| 0 <= j < i && x - m0[j] == e)) by {
                if e == di as int {
                    assert(0 <= i0 < i && x - m0[i0] == e);
                } else {
                    assert(used@[e] == before[e]);
                    if exists|j: int| 0 <= j < i && x - m0[j] == e {
                        let j = choose|j: int| 0 <= j < i && x - m0[j] == e;
                        assert(j != i0);
                        assert(0 <= j < i0 && x - m0[j] == e);
                    }
                }
            }
        }
    }
    marks.push(x);
    true
}

/// Remove the last mark and clear the distances from `x` to the marks before it.
fn unplace(x: u32, marks: &mut Vec<u32>, used: &mut Vec<bool>)
    requires
        old(marks).len() >= 1,
        forall|j: int| 0 <= j < old(marks).len() - 1 ==> old(marks)@[j] <= x && x - old(marks)@[j] < old(used).len(),
    ensures
        final(marks)@ == old(marks)@.drop_last(),
        final(used).len() == old(used).len(),
        forall|e: int| 0 <= e < old(used).len() ==> (#[trigger] final(used)@[e] <==> (old(used)@[e]
            && !new_distance(old(marks)@.drop_last(), x, e))),
{
    let ghost full = marks@;
    marks.pop();
    let ghost m = marks@;
    assert(m =~= full.drop_last());
    let ghost u0 = used@;
    let mut i: usize = 0;
    while i < marks.len()
        invariant
            marks@ == m,
            m == full.drop_last(),
            i <= m.len(),
            used@.len() == u0.len(),
            forall|j: int| 0 <= j < m.len() ==> m[j] <= x && x - m[j] < u0.len(),
            forall|e: int| 0 <= e < u0.len() ==> (#[trigger] used@[e] <==> (u0[e] && !exists|j: int| 0 <= j < i && x - m[j] == e)),
        decreases m.len() - i,
    {
        let ghost before = used@;
        let ghost i0 = i as int;
        let d = (x - marks[i]) as usize;
        used.set(d, false);
        i += 1;
        proof {
            assert forall|e: int| 0 <= e < u0.len() implies (#[trigger] used@[e] <==> (u0[e] && !exists|j: int| 0 <= j < i && x - m[j] == e)) by {
                if e == d as int {
                    assert(0 <= i0 < i && x - m[i0] == e);
                } else {
                    assert(used@[e] == before[e]);
                    if exists|j: int| 0 <= j < i && x - m[j] == e {
                        let j = choose|j: int| 0 <= j < i && x - m[j] == e;
                        assert(j != i0);
                        assert(0 <= j < i0 && x - m[j] == e);
                    }
                }
            }
        }
    }
}

/// A successful placement followed by its removal leaves the marks and the table as
/// they were.
proof fn lemma_unplace_restores(m0: Seq<u32>, x: u32, u0: Seq<bool>, u1: Seq<bool>, u2: Seq<bool>)
    requires
        forall|j: int| 0 <= j < m0.len() ==> x - m0[j] < u0.len() && !u0[x - m0[j]],
        u1.len() == u0.len(),
        u2.len() == u0.len(),
        forall|e: int| 0 <= e < u0.len() ==> (#[trigger] u1[e] <==> (u0[e] || new_distance(m0, x, e))),
        forall|e: int| 0 <= e < u0.len() ==> (#[trigger] u2[e] <==> (u1[e] && !new_distance(m0, x, e))),
    ensures
        u2 == u0,
{
    assert forall|e: int| 0 <= e < u0.len() implies u2[e] == u0[e] by {
        if new_distance(m0, x, e) {
            let j = choose|j: int| 0 <= j < m0.len() && x - m0[j] == e;
        }
    }
    assert(u2 =~= u0);
}

/// Whether all pairwise distances of the ascending marks are different. A repeated
/// distance is reported by returning `false`, not by aborting: this library does not
/// panic, so a caller that treats a repeat as fatal asserts on the result
/// (`assert!(verify_golomb(&marks))`).
pub fn verify_golomb(marks: &[u32]) -> (r: bool)
    requires
        forall|i: int, j: int| 0 <= i < j < marks@.len() ==> marks@[i] <= marks@[j],
    ensures
        r == distinct_spans(marks@),
{
    let n = marks.len();
    let mut seen: HashSet<u32> = HashSet::new();
    let mut i: usize = 0;
    while i < n
        invariant
            n == marks@.len(),
            i <= n,
            forall|a: int, b: int| 0 <= a < b < marks@.len() ==> marks@[a] <= marks@[b],
            forall|a: int, b: int, c: int, d: int|
                0 <= a < b < n && 0 <= c < d < n && a < i && c < i && #[trigger] span(marks@, a, b)
                    == #[trigger] span(marks@, c, d) ==> a == c && b == d,
            forall|v: u32| seen@.contains(v) <==> exists|a: int, b: int| 0 <= a < i && a < b < n && #[trigger] span(marks@, a, b) == v,
        decreases n - i,
    {
        let mut j: usize = i + 1;
        while j < n
            invariant
                n == marks@.len(),
                i < n,
                forall|a: int, b: int| 0 <= a < b < marks@.len() ==> marks@[a] <= marks@[b],
                i + 1 <= j <= n,
                forall|a: int, b: int, c: int, d: int|
                    0 <= a < b < n && 0 <= c < d < n && (a < i || (a == i && b < j)) && (c < i || (c == i && d < j))
                        && #[trigger] span(marks@, a, b) == #[trigger] span(marks@, c, d) ==> a == c && b == d,
                forall|v: u32| seen@.contains(v) <==> exists|a: int, b: int|
                    0 <= a < b < n && (a < i || (a == i && b < j)) && #[trigger] span(marks@, a, b) == v,
            decreases n - j,
        {
            assert(marks@[i as int] <= marks@[j as int]);
            let d = marks[j] - marks[i];
            assert(span(marks@, i as int, j as int) == d);
            let fresh = seen.insert(d);
            if !fresh {
                proof {
                    let (a, b) = choose|a: int, b: int|
                        0 <= a < b < n && (a < i || (a == i && b < j)) && #[trigger] span(marks@, a, b) == d;
                    assert(span(marks@, i as int, j as int) == d);
                }
                return false;
            }
            j += 1;
        }
        i += 1;
    }
    true
}

} // verus!
