use vstd::prelude::*;
use crate::positions::{seq_sum, lemma_sum_remove, lemma_sum_take_push, lemma_sum_push};
use crate::ruler::{is_golomb, is_ruler, mirror, span, strictly_increasing, distinct_spans};

verus! {

/// `f` lists, ascending, values that satisfy `p`, and every value satisfying `p`
/// that is at most an entry of `f` appears at or before that entry.
pub open spec fn lists_smallest(f: Seq<int>, p: spec_fn(int) -> bool) -> bool {
    &&& forall|i: int, j: int| 0 <= i < j < f.len() ==> f[i] < f[j]
    &&& forall|i: int| 0 <= i < f.len() ==> #[trigger] p(f[i])
    &&& forall|v: int, j: int| 0 <= j < f.len() && #[trigger] p(v) && v <= #[trigger] f[j] ==> f.take(j + 1).contains(v)
}

proof fn lemma_max_index(s: Seq<int>) -> (i: int)
    requires
        s.len() > 0,
    ensures
        0 <= i < s.len(),
        forall|j: int| 0 <= j < s.len() ==> s[j] <= s[i],
    decreases s.len(),
{
    if s.len() == 1 {
        0
    } else {
        let d = s.drop_last();
        let i = lemma_max_index(d);
        assert(forall|j: int| 0 <= j < d.len() ==> d[j] == s[j]);
        if s.last() >= s[i] {
            s.len() - 1
        } else {
            i
        }
    }
}

/// The `k` smallest values satisfying `p` sum to no more than any `k` different values
/// satisfying `p`.
pub proof fn lemma_smallest_sum(f: Seq<int>, p: spec_fn(int) -> bool, s: Seq<int>)
    requires
        lists_smallest(f, p),
        s.len() <= f.len(),
        s.no_duplicates(),
        forall|i: int| 0 <= i < s.len() ==> #[trigger] p(s[i]),
    ensures
        seq_sum(f.take(s.len() as int)) <= seq_sum(s),
    decreases s.len(),
{
    let k = s.len() as int;
    if k == 0 {
        assert(f.take(0) =~= Seq::<int>::empty());
        return;
    }
    let i = lemma_max_index(s);
    let s2 = s.remove(i);
    assert forall|a: int| 0 <= a < s2.len() implies #[trigger] p(s2[a]) by {
        if a < i {
            assert(s2[a] == s[a]);
        } else {
            assert(s2[a] == s[a + 1]);
        }
    }
    assert(s2.no_duplicates()) by {
        assert forall|a: int, b: int| 0 <= a < s2.len() && 0 <= b < s2.len() && a != b implies s2[a] != s2[b] by {
            let oa = if a < i { a } else { a + 1 };
            let ob = if b < i { b } else { b + 1 };
            assert(s2[a] == s[oa] && s2[b] == s[ob]);
        }
    }
    lemma_smallest_sum(f, p, s2);
    lemma_sum_remove(s, i);
    lemma_sum_take_push(f, k - 1);
    if s[i] < f[k - 1] {
        let small = f.take(k - 1);
        assert forall|x: int| s.to_set().contains(x) implies small.to_set().contains(x) by {
            let j = choose|j: int| 0 <= j < s.len() && s[j] == x;
            assert(p(s[j]));
            assert(s[j] <= f[k - 1]);
            assert(f.take(k).contains(x));
            let t = choose|t: int| 0 <= t < k && f.take(k)[t] == x;
            if t == k - 1 {
                assert(s[j] <= s[i]);
            }
            assert(small[t] == x);
        }
        s.unique_seq_to_set();
        small.lemma_cardinality_of_set();
        vstd::set_lib::lemma_len_subset(s.to_set(), small.to_set());
    }
}

/// A list of the smallest members of an ascending list `c` is a prefix of `c`.
pub proof fn lemma_smallest_is_prefix(f: Seq<int>, c: Seq<int>)
    requires
        forall|i: int, j: int| 0 <= i < j < c.len() ==> c[i] < c[j],
        lists_smallest(f, |v: int| c.contains(v)),
    ensures
        f.len() <= c.len(),
        f == c.take(f.len() as int),
{
    if f.len() > 0 {
        lemma_smallest_agree_upto(f, c, f.len() - 1);
    }
    assert(f =~= c.take(f.len() as int));
}

proof fn lemma_smallest_agree_upto(f: Seq<int>, c: Seq<int>, i: int)
    requires
        forall|a: int, b: int| 0 <= a < b < c.len() ==> c[a] < c[b],
        lists_smallest(f, |v: int| c.contains(v)),
        0 <= i < f.len(),
    ensures
        i < c.len(),
        forall|j: int| 0 <= j <= i ==> j < c.len() && f[j] == c[j],
    decreases i,
{
    let p = |v: int| c.contains(v);
    if i > 0 {
        lemma_smallest_agree_upto(f, c, i - 1);
    }
    assert(p(f[i]));
    let t = choose|t: int| 0 <= t < c.len() && c[t] == f[i];
    if t < i {
        assert(f[t] == c[t]);
        assert(f[t] < f[i]);
    }
    if t > i {
        assert(c[i] < c[t]);
        assert(p(c[i]));
        assert(f.take(i + 1).contains(c[i]));
        let j = choose|j: int| 0 <= j < i + 1 && #[trigger] f.take(i + 1)[j] == c[i];
        if j < i {
            assert(f[j] == c[j]);
        }
    }
}

/// The gaps between consecutive marks from mark `k` on.
pub open spec fn gaps_from(w: Seq<u32>, k: int) -> Seq<int> {
    Seq::new((w.len() - 1 - k) as nat, |j: int| w[k + j + 1] - w[k + j])
}

/// The gaps from mark `k` on add up to the distance from mark `k` to the last mark.
pub proof fn lemma_gaps_sum(w: Seq<u32>, k: int)
    requires
        0 <= k < w.len(),
    ensures
        seq_sum(gaps_from(w, k)) == w[w.len() - 1] - w[k],
    decreases w.len() - k,
{
    if k == w.len() - 1 {
        assert(gaps_from(w, k) =~= Seq::<int>::empty());
    } else {
        lemma_gaps_sum(w, k + 1);
        let g = gaps_from(w, k);
        let g1 = gaps_from(w, k + 1);
        assert(g =~= seq![g[0]] + g1);
        lemma_sum_prepend(g[0], g1);
    }
}

/// Summing a list with an element in front.
pub proof fn lemma_sum_prepend(x: int, s: Seq<int>)
    ensures
        seq_sum(seq![x] + s) == x + seq_sum(s),
    decreases s.len(),
{
    if s.len() == 0 {
        assert(seq![x] + s =~= seq![x]);
        assert(seq![x].drop_last() =~= Seq::<int>::empty());
        assert(seq_sum(Seq::<int>::empty()) == 0);
        assert(seq_sum(seq![x]) == seq_sum(seq![x].drop_last()) + x);
    } else {
        lemma_sum_prepend(x, s.drop_last());
        assert((seq![x] + s).drop_last() =~= seq![x] + s.drop_last());
        assert((seq![x] + s).last() == s.last());
    }
}

/// Any stretch of consecutive marks of a Golomb ruler is itself Golomb.
pub proof fn lemma_subrange_golomb(w: Seq<u32>, a: int, b: int)
    requires
        is_golomb(w),
        0 <= a <= b <= w.len(),
    ensures
        is_golomb(w.subrange(a, b)),
{
    let s = w.subrange(a, b);
    assert forall|c: int, d: int, e: int, f: int|
        0 <= c < d < s.len() && 0 <= e < f < s.len() && #[trigger] span(s, c, d) == #[trigger] span(s, e, f)
        implies c == e && d == f by {
        assert(span(s, c, d) == span(w, a + c, a + d));
        assert(span(s, e, f) == span(w, a + e, a + f));
    }
}

/// Reading a ruler from the other end gives a ruler of the same length.
pub proof fn lemma_mirror(w: Seq<u32>, n: nat, max_len: int)
    requires
        is_ruler(w, n, max_len),
    ensures
        is_ruler(mirror(w), n, max_len),
        n >= 2 ==> mirror(w)[n - 1] == w[n - 1],
        n >= 2 ==> mirror(w)[1] - mirror(w)[0] == w[n - 1] - w[n - 2],
        n >= 2 ==> mirror(w)[n - 1] - mirror(w)[n - 2] == w[1] - w[0],
{
    if n == 0 {
        assert(mirror(w) =~= Seq::<u32>::empty());
        return;
    }
    let r = mirror(w);
    let l = w.len() - 1;
    assert forall|i: int| 0 <= i < r.len() implies r[i] == w[l] - w[l - i] by {
        assert(w[l - i] <= w[l]) by {
            if l - i < l {
                assert(w[l - i] < w[l]);
            }
        }
    }
    assert forall|i: int, j: int| 0 <= i < j < r.len() implies r[i] < r[j] by {
        assert(w[l - j] < w[l - i]);
    }
    assert forall|a: int, b: int, c: int, d: int|
        0 <= a < b < r.len() && 0 <= c < d < r.len() && #[trigger] span(r, a, b) == #[trigger] span(r, c, d)
        implies a == c && b == d by {
        assert(span(r, a, b) == span(w, l - b, l - a));
        assert(span(r, c, d) == span(w, l - d, l - c));
    }
}

/// A Golomb ruler with at least three marks has different first and last gaps.
pub proof fn lemma_end_gaps_differ(w: Seq<u32>)
    requires
        is_golomb(w),
        w.len() >= 3,
    ensures
        w[1] - w[0] != w[w.len() - 1] - w[w.len() - 2],
{
    let l = w.len() - 1;
    if w[1] - w[0] == w[l] - w[l - 1] {
        assert(span(w, 0, 1) == span(w, l - 1, l));
    }
}

} // verus!
