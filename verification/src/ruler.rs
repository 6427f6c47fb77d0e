use vstd::prelude::*;

verus! {

/// Distance between mark `a` and mark `b` of a ruler.
pub open spec fn span(m: Seq<u32>, a: int, b: int) -> int {
    m[b] - m[a]
}

/// Marks are listed in strictly ascending order.
pub open spec fn strictly_increasing(m: Seq<u32>) -> bool {
    forall|i: int, j: int| 0 <= i < j < m.len() ==> m[i] < m[j]
}

/// No two pairs of marks are the same distance apart.
pub open spec fn distinct_spans(m: Seq<u32>) -> bool {
    forall|a: int, b: int, c: int, d: int|
        0 <= a < b < m.len() && 0 <= c < d < m.len() && #[trigger] span(m, a, b) == #[trigger] span(
            m,
            c,
            d,
        ) ==> a == c && b == d
}

/// A Golomb ruler: ascending marks whose pairwise distances are all different.
pub open spec fn is_golomb(m: Seq<u32>) -> bool {
    strictly_increasing(m) && distinct_spans(m)
}

/// `d` is the distance between some two marks of `m`.
pub open spec fn is_distance(m: Seq<u32>, d: int) -> bool {
    exists|a: int, b: int| 0 <= a < b < m.len() && #[trigger] span(m, a, b) == d
}

/// `m` is a Golomb ruler with `n` marks, first mark 0 and length at most `max_len`.
pub open spec fn is_ruler(m: Seq<u32>, n: nat, max_len: int) -> bool {
    &&& m.len() == n
    &&& is_golomb(m)
    &&& n > 0 ==> m[0] == 0 && m[n - 1] <= max_len
}

/// Some Golomb ruler with `n` marks fits in length `max_len`.
pub open spec fn ruler_exists(n: nat, max_len: int) -> bool {
    exists|m: Seq<u32>| is_ruler(m, n, max_len)
}

/// `r` is a ruler as above whose first marks are those of `m`.
pub open spec fn completes(r: Seq<u32>, m: Seq<u32>, n: nat, max_len: int) -> bool {
    &&& is_ruler(r, n, max_len)
    &&& m.len() <= r.len()
    &&& forall|i: int| 0 <= i < m.len() ==> r[i] == m[i]
}

/// The ruler read from the other end.
pub open spec fn mirror(m: Seq<u32>) -> Seq<u32> {
    Seq::new(m.len(), |i: int| (m[m.len() - 1] - m[m.len() - 1 - i]) as u32)
}

pub proof fn lemma_prefix_golomb(r: Seq<u32>, k: int)
    requires
        is_golomb(r),
        0 <= k <= r.len(),
    ensures
        is_golomb(r.subrange(0, k)),
{
    let s = r.subrange(0, k);
    assert forall|a: int, b: int, c: int, d: int|
        0 <= a < b < s.len() && 0 <= c < d < s.len() && #[trigger] span(s, a, b) == #[trigger] span(
            s,
            c,
            d,
        ) implies a == c && b == d by {
        assert(span(s, a, b) == span(r, a, b));
        assert(span(s, c, d) == span(r, c, d));
    }
}

/// Adding a mark beyond the last one keeps the ruler Golomb exactly when none of
/// the new distances is already a distance of the ruler.
pub proof fn lemma_extend(m: Seq<u32>, x: u32)
    requires
        is_golomb(m),
        m.len() >= 1,
        m[m.len() - 1] < x,
    ensures
        is_golomb(m.push(x)) <==> (forall|i: int| 0 <= i < m.len() ==> !is_distance(m, x - m[i])),
{
    let p = m.push(x);
    let len = m.len() as int;
    assert(strictly_increasing(p)) by {
        assert forall|i: int, j: int| 0 <= i < j < p.len() implies p[i] < p[j] by {
            if j == len {
                assert(m[i] <= m[len - 1]);
            }
        }
    }
    if is_golomb(p) {
        assert forall|i: int| 0 <= i < m.len() implies !is_distance(m, x - m[i]) by {
            if is_distance(m, x - m[i]) {
                let (a, b) = choose|a: int, b: int| 0 <= a < b < m.len() && #[trigger] span(m, a, b) == x - m[i];
                assert(span(p, a, b) == span(m, a, b));
                assert(span(p, i, len) == x - m[i]);
            }
        }
    }
    if forall|i: int| 0 <= i < m.len() ==> !is_distance(m, x - m[i]) {
        assert forall|a: int, b: int, c: int, d: int|
            0 <= a < b < p.len() && 0 <= c < d < p.len() && #[trigger] span(p, a, b)
                == #[trigger] span(p, c, d) implies a == c && b == d by {
            if b == len && d == len {
                assert(p[a] == p[c]);
                if a < c {
                    assert(p[a] < p[c]);
                } else if c < a {
                    assert(p[c] < p[a]);
                }
            } else if b == len {
                assert(span(m, c, d) == span(p, c, d));
                assert(span(m, c, d) == x - m[a]);
                assert(is_distance(m, x - m[a]));
            } else if d == len {
                assert(span(m, a, b) == span(p, a, b));
                assert(span(m, a, b) == x - m[c]);
                assert(is_distance(m, x - m[c]));
            } else {
                assert(span(m, a, b) == span(p, a, b));
                assert(span(m, c, d) == span(p, c, d));
            }
        }
    }
}

/// The distances of an extended ruler are the old ones plus those to the new mark.
pub proof fn lemma_distance_push(m: Seq<u32>, x: u32, d: int)
    ensures
        is_distance(m.push(x), d) <==> (is_distance(m, d) || exists|i: int|
            0 <= i < m.len() && x - m[i] == d),
{
    let p = m.push(x);
    let len = m.len() as int;
    if is_distance(p, d) {
        let (a, b) = choose|a: int, b: int| 0 <= a < b < p.len() && #[trigger] span(p, a, b) == d;
        if b < len {
            assert(span(m, a, b) == span(p, a, b));
        } else {
            assert(x - m[a] == d);
        }
    }
    if is_distance(m, d) {
        let (a, b) = choose|a: int, b: int| 0 <= a < b < m.len() && #[trigger] span(m, a, b) == d;
        assert(span(p, a, b) == span(m, a, b));
    }
    if exists|i: int| 0 <= i < m.len() && x - m[i] == d {
        let i = choose|i: int| 0 <= i < m.len() && x - m[i] == d;
        assert(span(p, i, len) == d);
    }
}

/// In an ascending ruler, later marks lie at least one step per mark further on.
pub proof fn lemma_increasing_gaps(r: Seq<u32>, i: int, j: int)
    requires
        strictly_increasing(r),
        0 <= i <= j < r.len(),
    ensures
        r[j] - r[i] >= j - i,
    decreases j - i,
{
    if i < j {
        lemma_increasing_gaps(r, i, j - 1);
    }
}

/// `a` comes before `b` in lexicographic order: they agree up to some mark, where `a`'s
/// mark is the smaller.
pub open spec fn lex_less(a: Seq<u32>, b: Seq<u32>) -> bool {
    exists|i: int| 0 <= i < a.len() && i < b.len() && a[i] < b[i] && forall|j: int| 0 <= j < i ==> a[j] == b[j]
}

/// Two sequences of one length, neither lexicographically below the other, agree on
/// their first `k` entries.
proof fn lemma_lex_prefix_agree(a: Seq<u32>, b: Seq<u32>, k: int)
    requires
        a.len() == b.len(),
        !lex_less(a, b),
        !lex_less(b, a),
        0 <= k <= a.len(),
    ensures
        forall|j: int| 0 <= j < k ==> a[j] == b[j],
    decreases k,
{
    if k > 0 {
        lemma_lex_prefix_agree(a, b, k - 1);
        let i = k - 1;
        if a[i] < b[i] {
            assert(0 <= i < a.len() && i < b.len() && a[i] < b[i] && forall|j: int| 0 <= j < i ==> a[j] == b[j]);
            assert(lex_less(a, b));
        } else if b[i] < a[i] {
            assert(0 <= i < b.len() && i < a.len() && b[i] < a[i] && forall|j: int| 0 <= j < i ==> b[j] == a[j]);
            assert(lex_less(b, a));
        }
    }
}

/// The lexicographically first ruler is unique: two rulers with `n` marks within
/// `max_len`, each of which no such ruler precedes, are the same ruler. So any two
/// searches that return the first ruler in this order return the same one.
pub proof fn lemma_lex_first_unique(a: Seq<u32>, b: Seq<u32>, n: nat, max_len: int)
    requires
        is_ruler(a, n, max_len),
        is_ruler(b, n, max_len),
        forall|w: Seq<u32>| #[trigger] is_ruler(w, n, max_len) ==> !lex_less(w, a),
        forall|w: Seq<u32>| #[trigger] is_ruler(w, n, max_len) ==> !lex_less(w, b),
    ensures
        a == b,
{
    assert(!lex_less(a, b));
    assert(!lex_less(b, a));
    lemma_lex_prefix_agree(a, b, a.len() as int);
    assert(a =~= b);
}

/// `v` is the lexicographically first of the rulers that complete `m`.
pub open spec fn first_completion(v: Seq<u32>, m: Seq<u32>, n: nat, max_len: int) -> bool {
    &&& completes(v, m, n, max_len)
    &&& forall|w: Seq<u32>| #[trigger] completes(w, m, n, max_len) ==> !lex_less(w, v)
}

/// A ruler is the lexicographically first completion of its own marks.
pub proof fn lemma_lex_first_leaf(m: Seq<u32>, n: nat, max_len: int)
    requires
        completes(m, m, n, max_len),
    ensures
        forall|w: Seq<u32>| #[trigger] completes(w, m, n, max_len) ==> !lex_less(w, m),
{
    assert forall|w: Seq<u32>| #[trigger] completes(w, m, n, max_len) implies !lex_less(w, m) by {
        if lex_less(w, m) {
            let i = choose|i: int| 0 <= i < w.len() && i < m.len() && w[i] < m[i] && forall|j: int| 0 <= j < i ==> w[j] == m[j];
        }
    }
}

/// Depth-first order: if every completion of `m` places its next mark at `x` or beyond,
/// the first completion of `m.push(x)` is the first completion of `m`.
pub proof fn lemma_lex_first_step(m: Seq<u32>, x: u32, v: Seq<u32>, n: nat, max_len: int)
    requires
        completes(v, m.push(x), n, max_len),
        forall|w: Seq<u32>| #[trigger] completes(w, m.push(x), n, max_len) ==> !lex_less(w, v),
        forall|w: Seq<u32>| #[trigger] completes(w, m, n, max_len) ==> w[m.len() as int] >= x,
    ensures
        completes(v, m, n, max_len),
        forall|w: Seq<u32>| #[trigger] completes(w, m, n, max_len) ==> !lex_less(w, v),
{
    let k = m.len() as int;
    assert forall|i: int| 0 <= i < k implies v[i] == m[i] by {
        assert(m.push(x)[i] == m[i]);
    }
    assert(v[k] == m.push(x)[k]);
    assert forall|w: Seq<u32>| #[trigger] completes(w, m, n, max_len) implies !lex_less(w, v) by {
        if lex_less(w, v) {
            let i = choose|i: int| 0 <= i < w.len() && i < v.len() && w[i] < v[i] && forall|j: int| 0 <= j < i ==> w[j] == v[j];
            if i < k {
                assert(w[i] == m[i]);
            } else if i == k {
                assert(w[k] >= x);
            } else {
                assert(w[k] == v[k]);
                assert forall|t: int| 0 <= t < m.push(x).len() implies w[t] == m.push(x)[t] by {
                    if t < k {
                        assert(m.push(x)[t] == m[t]);
                    }
                }
                assert(completes(w, m.push(x), n, max_len));
            }
        }
    }
}

} // verus!
