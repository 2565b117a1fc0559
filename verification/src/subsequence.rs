//! The three spans of a tour around a cut range.
//!
//! A [`Subsequence`] is a pair of cut indices `start <= end` into a tour
//! of length `n`; it stands for the spans `before = tour[0..start]`,
//! `within = tour[start..end]` and `after = tour[end..n]`, which
//! concatenate back to the tour. Ordered crossover is built on it.

use vstd::prelude::*;

verus! {

/// A cut range `[start, end)` into a tour; a non-owning pair of indices.
pub struct Subsequence {
    pub start: usize,
    pub end: usize,
}

/// The three spans of `s` around `[i, j)` concatenate back to `s`.
pub proof fn lemma_partition_concat(s: Seq<usize>, i: int, j: int)
    requires
        0 <= i <= j <= s.len(),
    ensures
        s.subrange(0, i) + s.subrange(i, j) + s.subrange(j, s.len() as int) == s,
{
    assert(s.subrange(0, i) + s.subrange(i, j) + s.subrange(j, s.len() as int) =~= s);
}

/// The elements `v[lo..hi]`, copied out in order.
fn subvec(v: &Vec<usize>, lo: usize, hi: usize) -> (r: Vec<usize>)
    requires
        lo <= hi <= v@.len(),
    ensures
        r@ == v@.subrange(lo as int, hi as int),
{
    let mut r: Vec<usize> = Vec::new();
    let mut k = lo;
    while k < hi
        invariant
            lo <= k <= hi <= v@.len(),
            r@ == v@.subrange(lo as int, k as int),
        decreases hi - k,
    {
        r.push(v[k]);
        k += 1;
        proof {
            assert(v@.subrange(lo as int, k as int) =~= v@.subrange(lo as int, k - 1).push(
                v@[k - 1],
            ));
        }
    }
    r
}

impl Subsequence {
    /// A cut range with the given indices.
    pub fn new(start: usize, end: usize) -> (r: Subsequence)
        requires
            start <= end,
        ensures
            r.start == start,
            r.end == end,
    {
        Subsequence { start, end }
    }

    /// The span of `tour` before the cut range.
    pub fn before(&self, tour: &Vec<usize>) -> (r: Vec<usize>)
        requires
            self.start <= self.end <= tour@.len(),
        ensures
            r@ == tour@.subrange(0, self.start as int),
    {
        subvec(tour, 0, self.start)
    }

    /// The span of `tour` within the cut range.
    pub fn within(&self, tour: &Vec<usize>) -> (r: Vec<usize>)
        requires
            self.start <= self.end <= tour@.len(),
        ensures
            r@ == tour@.subrange(self.start as int, self.end as int),
    {
        subvec(tour, self.start, self.end)
    }

    /// The span of `tour` after the cut range.
    pub fn after(&self, tour: &Vec<usize>) -> (r: Vec<usize>)
        requires
            self.start <= self.end <= tour@.len(),
        ensures
            r@ == tour@.subrange(self.end as int, tour@.len() as int),
    {
        subvec(tour, self.end, tour.len())
    }

    /// Whether the span of `tour` within the cut range holds `x`.
    pub fn within_contains(&self, tour: &Vec<usize>, x: usize) -> (r: bool)
        requires
            self.start <= self.end <= tour@.len(),
        ensures
            r == tour@.subrange(self.start as int, self.end as int).contains(x),
    {
        let w = Ghost(tour@.subrange(self.start as int, self.end as int));
        let mut k = self.start;
        while k < self.end
            invariant
                self.start <= k <= self.end <= tour@.len(),
                w@ == tour@.subrange(self.start as int, self.end as int),
                forall|t: int| self.start <= t < k ==> tour@[t] != x,
            decreases self.end - k,
        {
            if tour[k] == x {
                proof {
                    assert(w@[k - self.start] == x);
                }
                return true;
            }
            k += 1;
        }
        proof {
            assert(forall|t: int| 0 <= t < w@.len() ==> w@[t] == tour@[t + self.start]);
        }
        false
    }
}

} // verus!
