use vstd::prelude::*;

verus! {

/// The positions `p` in `[a, b)` with `s[p] == want`, in ascending order.
pub open spec fn positions(s: Seq<bool>, want: bool, a: int, b: int) -> Seq<int>
    decreases b - a,
{
    if b <= a {
        Seq::empty()
    } else {
        let p = positions(s, want, a, b - 1);
        if s[b - 1] == want {
            p.push(b - 1)
        } else {
            p
        }
    }
}

/// The sum of a sequence of integers.
pub open spec fn seq_sum(s: Seq<int>) -> int
    decreases s.len(),
{
    if s.len() == 0 {
        0
    } else {
        seq_sum(s.drop_last()) + s.last()
    }
}

/// Extending the range by one position appends it when it matches.
pub proof fn lemma_positions_step(s: Seq<bool>, want: bool, a: int, b: int)
    requires
        a <= b,
    ensures
        positions(s, want, a, b + 1) == if s[b] == want {
            positions(s, want, a, b).push(b)
        } else {
            positions(s, want, a, b)
        },
{
}

/// A stretch with no matching position adds nothing.
pub proof fn lemma_positions_skip(s: Seq<bool>, want: bool, a: int, c: int, d: int)
    requires
        a <= c <= d,
        forall|p: int| c <= p < d ==> s[p] != want,
    ensures
        positions(s, want, a, d) == positions(s, want, a, c),
    decreases d - c,
{
    if c < d {
        lemma_positions_skip(s, want, a, c, d - 1);
    }
}

/// Exactly the matching positions of the range are listed, ascending, each below `b`.
pub proof fn lemma_positions_members(s: Seq<bool>, want: bool, a: int, b: int)
    ensures
        forall|x: int| positions(s, want, a, b).contains(x) <==> (a <= x < b && s[x] == want),
        forall|i: int, j: int|
            0 <= i < j < positions(s, want, a, b).len() ==> positions(s, want, a, b)[i] < positions(
                s,
                want,
                a,
                b,
            )[j],
        forall|i: int|
            0 <= i < positions(s, want, a, b).len() ==> a <= #[trigger] positions(s, want, a, b)[i] < b,
        positions(s, want, a, b).len() <= if b <= a { 0 } else { b - a },
    decreases b - a,
{
    if b > a {
        lemma_positions_members(s, want, a, b - 1);
        let p = positions(s, want, a, b - 1);
        if s[b - 1] == want {
            let q = p.push(b - 1);
            assert forall|x: int| q.contains(x) <==> (a <= x < b && s[x] == want) by {
                if x == b - 1 {
                    assert(q[p.len() as int] == x);
                } else if q.contains(x) {
                    let i = choose|i: int| 0 <= i < q.len() && #[trigger] q[i] == x;
                    assert(p[i] == x);
                } else if a <= x < b && s[x] == want {
                    assert(p.contains(x));
                    let i = choose|i: int| 0 <= i < p.len() && #[trigger] p[i] == x;
                    assert(q[i] == x);
                }
            }
        }
    }
}

/// A shorter range lists a prefix of a longer one.
pub proof fn lemma_positions_prefix(s: Seq<bool>, want: bool, a: int, c: int, d: int)
    requires
        a <= c <= d,
    ensures
        positions(s, want, a, c).len() <= positions(s, want, a, d).len(),
        forall|i: int|
            0 <= i < positions(s, want, a, c).len() ==> #[trigger] positions(s, want, a, c)[i]
                == positions(s, want, a, d)[i],
    decreases d - c,
{
    if c < d {
        lemma_positions_prefix(s, want, a, c, d - 1);
    }
}

/// Summing one more element.
pub proof fn lemma_sum_push(s: Seq<int>, x: int)
    ensures
        seq_sum(s.push(x)) == seq_sum(s) + x,
{
    assert(s.push(x).drop_last() =~= s);
}

/// Sums of equal prefixes.
pub proof fn lemma_sum_take_push(s: Seq<int>, k: int)
    requires
        0 <= k < s.len(),
    ensures
        seq_sum(s.take(k + 1)) == seq_sum(s.take(k)) + s[k],
{
    assert(s.take(k + 1).drop_last() =~= s.take(k));
}

/// Removing an element takes exactly that element off the sum.
pub proof fn lemma_sum_remove(s: Seq<int>, i: int)
    requires
        0 <= i < s.len(),
    ensures
        seq_sum(s) == seq_sum(s.remove(i)) + s[i],
    decreases s.len(),
{
    if i == s.len() - 1 {
        assert(s.remove(i) =~= s.drop_last());
    } else {
        lemma_sum_remove(s.drop_last(), i);
        assert(s.remove(i).drop_last() =~= s.drop_last().remove(i));
        assert(s.remove(i).last() == s.last());
    }
}

} // verus!
