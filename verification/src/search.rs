use vstd::prelude::*;
use crate::bitmap::{Bitmap, shifted, lemma_view_len};
use std::ops::BitOrAssign;
use crate::ruler::{
    is_golomb, is_distance, lemma_extend, lemma_distance_push, span,
};

verus! {

broadcast use {lemma_view_len, vstd::slice::group_slice_axioms};

/// `v` is one of the marks of `m`.
pub open spec fn is_mark(m: Seq<u32>, v: int) -> bool {
    exists|i: int| 0 <= i < m.len() && m[i] == v
}

/// Search state of the bitmask engines: the marks placed so far and their bitmaps.
#[derive(Clone, Copy)]
pub struct State<const W: usize> {
    /// bit d set: distance d is used.
    pub dist: Bitmap<W>,
    /// bit r set: there is a mark r to the left of the rightmost mark.
    pub ruler: Bitmap<W>,
    /// position of the rightmost mark.
    pub pos: u32,
    /// number of marks placed.
    pub depth: usize,
    /// the first gap, 0 while only one mark is placed.
    pub first_gap: u32,
    /// the marks placed so far.
    pub marks: Ghost<Seq<u32>>,
    /// the largest length the search below this state allows.
    pub bound: Ghost<int>,
}

impl<const W: usize> State<W> {
    /// The bitmaps and counters describe the marks, a Golomb ruler from 0 within `max_len`.
    pub open spec fn inv(self, max_len: int) -> bool {
        let m = self.marks@;
        &&& self.bound@ == max_len
        &&& max_len < 64 * W
        &&& 64 * W <= u32::MAX
        &&& m.len() == self.depth
        &&& self.depth >= 1
        &&& m[0] == 0
        &&& is_golomb(m)
        &&& self.pos == m[m.len() - 1]
        &&& self.pos <= max_len
        &&& self.first_gap == if self.depth >= 2 { m[1] } else { 0 }
        &&& forall|d: int| 0 <= d < 64 * W ==> (#[trigger] self.dist@[d] <==> is_distance(m, d))
        &&& forall|r: int| 0 <= r < 64 * W ==> (#[trigger] self.ruler@[r] <==> (r <= self.pos && is_mark(m, self.pos - r)))
    }
}

/// The state holding the single mark 0.
pub fn initial_state<const W: usize>(Ghost(max_len): Ghost<int>) -> (st: State<W>)
    requires
        0 <= max_len < 64 * W,
        64 * W <= u32::MAX,
    ensures
        st.inv(max_len),
        st.marks@ == seq![0u32],
        st.depth == 1,
        st.pos == 0,
{
    let mut ruler = Bitmap::<W>::zero();
    ruler.set_bit(0);
    let ghost m0 = seq![0u32];
    let st = State { dist: Bitmap::zero(), ruler, pos: 0, depth: 1, first_gap: 0, marks: Ghost(m0), bound: Ghost(max_len) };
    proof {
        let m = seq![0u32];
        assert forall|d: int| 0 <= d < 64 * W implies (#[trigger] st.dist@[d] <==> is_distance(m, d)) by {
            if is_distance(m, d) {
                let (a, b) = choose|a: int, b: int| 0 <= a < b < m.len() && #[trigger] span(m, a, b) == d;
            }
        }
        assert forall|r: int| 0 <= r < 64 * W implies (#[trigger] st.ruler@[r] <==> (r <= st.pos && is_mark(m, st.pos - r))) by {
            if r == 0 {
                assert(m[0] == 0);
            }
        }
    }
    st
}

/// The bits of the ruler shifted by `gap` are the distances from the new mark
/// `pos + gap` to the old marks.
pub proof fn lemma_newbits<const W: usize>(st: State<W>, max_len: int, gap: int, newbits: Seq<bool>)
    requires
        st.inv(max_len),
        1 <= gap,
        st.pos + gap <= max_len,
        newbits == shifted(st.ruler@, gap),
    ensures
        forall|d: int| 0 <= d < 64 * W ==> (#[trigger] newbits[d] <==> exists|i: int|
            0 <= i < st.marks@.len() && st.pos + gap - st.marks@[i] == d),
        (exists|d: int| 0 <= d < 64 * W && #[trigger] newbits[d] && st.dist@[d]) <==> !is_golomb(
            st.marks@.push((st.pos + gap) as u32),
        ),
{
    let m = st.marks@;
    let x = (st.pos + gap) as u32;
    assert forall|d: int| 0 <= d < 64 * W implies (#[trigger] newbits[d] <==> exists|i: int|
        0 <= i < m.len() && x - m[i] == d) by {
        if newbits[d] {
            assert(st.ruler@[d - gap]);
            let i = choose|i: int| 0 <= i < m.len() && m[i] == st.pos - (d - gap);
            assert(x - m[i] == d);
        }
        if exists|i: int| 0 <= i < m.len() && x - m[i] == d {
            let i = choose|i: int| 0 <= i < m.len() && x - m[i] == d;
            assert(m[i] <= m[m.len() - 1]);
            assert(is_mark(m, st.pos - (d - gap)));
            assert(st.ruler@[d - gap]);
        }
    }
    lemma_extend(m, x);
    if exists|d: int| 0 <= d < 64 * W && #[trigger] newbits[d] && st.dist@[d] {
        let d = choose|d: int| 0 <= d < 64 * W && #[trigger] newbits[d] && st.dist@[d];
        let i = choose|i: int| 0 <= i < m.len() && x - m[i] == d;
        assert(is_distance(m, x - m[i]));
    }
    if !is_golomb(m.push(x)) {
        let i = choose|i: int| 0 <= i < m.len() && is_distance(m, x - m[i]);
        let d = x - m[i];
        assert(m[i] <= m[m.len() - 1]);
        assert(newbits[d] && st.dist@[d]);
    }
}

/// The state after placing a mark `gap` beyond the rightmost one; `newbits` holds the
/// distances from the new mark to the old ones, none of them already used.
///
/// A mark one beyond `max_len` is still built, as a last mark that is never kept; the
/// state then holds no invariant beyond its marks, depth and position.
pub fn child<const W: usize>(st: &State<W>, gap: u32, newbits: &Bitmap<W>, Ghost(max_len): Ghost<int>) -> (c: State<W>)
    requires
        st.inv(max_len),
        1 <= gap,
        st.pos + gap <= max_len + 1,
        newbits@ == shifted(st.ruler@, gap as int),
        st.pos + gap <= max_len ==> is_golomb(st.marks@.push((st.pos + gap) as u32)),
    ensures
        st.pos + gap <= max_len ==> c.inv(max_len),
        c.marks@ == st.marks@.push((st.pos + gap) as u32),
        c.depth == st.depth + 1,
        c.pos == st.pos + gap,
        c.first_gap == if st.depth == 1 { gap } else { st.first_gap },
        c.bound == st.bound,
{
    proof {
        if st.pos + gap <= max_len {
            lemma_newbits(*st, max_len, gap as int, newbits@);
        }
        crate::ruler::lemma_increasing_gaps(st.marks@, 0, st.depth - 1);
    }
    let ghost m = st.marks@;
    let ghost x = (st.pos + gap) as u32;
    let mut new_state = *st;
    new_state.dist.bitor_assign(*newbits);
    new_state.ruler = *newbits;
    new_state.ruler.set_bit(0);
    new_state.pos = st.pos + gap;
    new_state.depth = st.depth + 1;
    if st.depth == 1 {
        new_state.first_gap = gap;
    }
    new_state.marks = Ghost(m.push(x));
    proof {
      if st.pos + gap <= max_len {
        let p = m.push(x);
        assert forall|d: int| 0 <= d < 64 * W implies (#[trigger] new_state.dist@[d] <==> is_distance(p, d)) by {
            lemma_distance_push(m, x, d);
        }
        assert forall|r: int| 0 <= r < 64 * W implies (#[trigger] new_state.ruler@[r] <==> (r <= x && is_mark(p, x - r))) by {
            if r == 0 {
                assert(p[m.len() as int] == x);
            } else {
                if newbits@[r] {
                    let i = choose|i: int| 0 <= i < m.len() && x - m[i] == r;
                    assert(p[i] == x - r);
                }
                if r <= x && is_mark(p, x - r) {
                    let i = choose|i: int| 0 <= i < p.len() && p[i] == x - r;
                    assert(i != m.len());
                    assert(m[i] == x - r);
                }
            }
        }
        if st.depth == 1 {
            assert(p[1] == x);
        } else {
            assert(p[1] == m[1]);
        }
      }
    }
    new_state
}

/// The gaps `g` spell out the ruler `w`: `g[i]` is the distance from mark `i` to mark `i + 1`.
pub open spec fn gaps_describe(g: Seq<u32>, w: Seq<u32>) -> bool {
    forall|i: int| 0 <= i < w.len() - 1 ==> #[trigger] g[i] == w[i + 1] - w[i]
}

/// Turn the gaps of a ruler that starts at 0 back into its marks.
pub fn marks_from_gaps(gaps: &[u32], n: usize, Ghost(w): Ghost<Seq<u32>>) -> (marks: Vec<u32>)
    requires
        n >= 1,
        gaps@.len() >= n - 1,
        w.len() == n,
        w[0] == 0,
        gaps_describe(gaps@, w),
    ensures
        marks@ == w,
{
    let mut marks: Vec<u32> = vec![0u32; n];
    marks.set(0, 0);
    let mut i: usize = 0;
    while i < n - 1
        invariant
            n >= 1,
            gaps@.len() >= n - 1,
            w.len() == n,
            gaps_describe(gaps@, w),
            marks@.len() == n,
            i <= n - 1,
            forall|j: int| 0 <= j <= i ==> marks@[j] == w[j],
        decreases n - 1 - i,
    {
        assert(gaps@[i as int] == w[i + 1] - w[i as int]);
        let next = marks[i] + gaps[i];
        marks.set(i + 1, next);
        i += 1;
    }
    assert(marks@ =~= w);
    marks
}

} // verus!
