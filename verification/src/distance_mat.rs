//! The distance table and the round-trip length of a tour.

use vstd::prelude::*;

verus! {

/// A square table of pairwise distances between nodes, in whole distance
/// units. A well-formed table is symmetric and has a zero diagonal.
pub struct DistanceMat {
    distances: Vec<Vec<u64>>,
}

/// The mathematical view of a list of rows.
pub open spec fn rows_view(rows: Seq<Vec<u64>>) -> Seq<Seq<u64>> {
    rows.map_values(|row: Vec<u64>| row@)
}

/// Every row of `m` is as long as the list of rows.
pub open spec fn is_square(m: Seq<Seq<u64>>) -> bool {
    forall|r: int| 0 <= r < m.len() ==> (#[trigger] m[r]).len() == m.len()
}

/// The distance from `r` to `c` equals the distance from `c` to `r`.
pub open spec fn is_symmetric(m: Seq<Seq<u64>>) -> bool {
    forall|r: int, c: int|
        0 <= r < m.len() && 0 <= c < m.len() ==> #[trigger] m[r][c] == m[c][r]
}

/// The distance from a node to itself is zero.
pub open spec fn zero_diagonal(m: Seq<Seq<u64>>) -> bool {
    forall|r: int| 0 <= r < m.len() ==> #[trigger] m[r][r] == 0
}

/// A well-formed distance table: square, symmetric, zero diagonal.
pub open spec fn wf_matrix(m: Seq<Seq<u64>>) -> bool {
    is_square(m) && is_symmetric(m) && zero_diagonal(m)
}

/// Every node index in `s` lies below `n`.
pub open spec fn in_range(s: Seq<usize>, n: int) -> bool {
    forall|k: int| 0 <= k < s.len() ==> (#[trigger] s[k]) < n
}

/// The sum of the distances between consecutive elements of `s`.
pub open spec fn path_sum(m: Seq<Seq<u64>>, s: Seq<usize>) -> int
    decreases s.len(),
{
    if s.len() < 2 {
        0
    } else {
        m[s[0] as int][s[1] as int] + path_sum(m, s.drop_first())
    }
}

/// The round-trip length of `s`: the distances between consecutive
/// elements, plus the closing edge from the last element back to the
/// first. A sequence of one element costs the diagonal entry.
pub open spec fn tour_cost(m: Seq<Seq<u64>>, s: Seq<usize>) -> int {
    if s.len() == 0 {
        0
    } else {
        m[s.last() as int][s[0] as int] + path_sum(m, s)
    }
}

/// Scaling every entry of `m` by `k` stays within `u64`; with `k` the
/// tour length, this bounds every tour cost (`lemma_tour_cost_fits`).
pub open spec fn fits(m: Seq<Seq<u64>>, k: nat) -> bool {
    forall|r: int, c: int|
        0 <= r < m.len() && 0 <= c < m.len() ==> k * (#[trigger] m[r][c]) <= u64::MAX
}

pub proof fn lemma_path_sum_nonneg(m: Seq<Seq<u64>>, s: Seq<usize>)
    ensures
        path_sum(m, s) >= 0,
    decreases s.len(),
{
    if s.len() >= 2 {
        lemma_path_sum_nonneg(m, s.drop_first());
    }
}

/// Appending one element to a path adds exactly the edge from the old
/// last element to the new one.
pub proof fn lemma_path_sum_push(m: Seq<Seq<u64>>, s: Seq<usize>, x: usize)
    ensures
        path_sum(m, s.push(x)) == path_sum(m, s) + if s.len() >= 1 {
            m[s.last() as int][x as int] as int
        } else {
            0
        },
    decreases s.len(),
{
    if s.len() == 0 {
        assert(s.push(x).len() == 1);
        assert(path_sum(m, s.push(x)) == 0);
    } else if s.len() == 1 {
        assert(s.push(x).drop_first() =~= seq![x]);
        assert(path_sum(m, seq![x]) == 0);
        assert(path_sum(m, s.push(x)) == m[s[0] as int][x as int] + path_sum(m, seq![x]));
    } else {
        lemma_path_sum_push(m, s.drop_first(), x);
        assert(s.push(x).drop_first() =~= s.drop_first().push(x));
        assert(path_sum(m, s.push(x)) == m[s[0] as int][s[1] as int]
            + path_sum(m, s.drop_first().push(x)));
        assert(s.drop_first().last() == s.last());
    }
}

/// A prefix of a path is no longer than the whole path.
pub proof fn lemma_path_sum_take_le(m: Seq<Seq<u64>>, s: Seq<usize>, t: int)
    requires
        0 <= t <= s.len(),
    ensures
        path_sum(m, s.take(t)) <= path_sum(m, s),
    decreases s.len() - t,
{
    if t == s.len() {
        assert(s.take(t) =~= s);
    } else {
        lemma_path_sum_take_le(m, s, t + 1);
        if t >= 1 {
            assert(s.take(t + 1) =~= s.take(t).push(s[t]));
            lemma_path_sum_push(m, s.take(t), s[t]);
        } else {
            assert(path_sum(m, s.take(0)) == 0);
            assert(path_sum(m, s.take(1)) == 0);
        }
    }
}

impl View for DistanceMat {
    type V = Seq<Seq<u64>>;

    closed spec fn view(&self) -> Seq<Seq<u64>> {
        rows_view(self.distances@)
    }
}

impl DistanceMat {
    /// Build a distance table from existing distances. The table must be
    /// square and symmetric with a zero diagonal.
    pub fn new(distances: Vec<Vec<u64>>) -> (r: DistanceMat)
        requires
            wf_matrix(rows_view(distances@)),
        ensures
            r@ == rows_view(distances@),
    {
        DistanceMat { distances }
    }

    /// The number of nodes in the table, that is, one of its dimensions.
    pub fn n_units(&self) -> (r: usize)
        ensures
            r == self@.len(),
    {
        self.distances.len()
    }

    /// The rows of the table.
    pub fn table(&self) -> (r: &Vec<Vec<u64>>)
        ensures
            rows_view(r@) == self@,
    {
        &self.distances
    }

    /// The round-trip length of `route`: consecutive-pair distances plus
    /// the closing edge from the last node back to the first. The sequence
    /// need not be a permutation; repeated nodes are summed as given.
    #[verifier::loop_isolation(false)]
    pub fn get_distance(&self, route: &Vec<usize>) -> (total: u64)
        requires
            route@.len() >= 1,
            in_range(route@, self@.len() as int),
            is_square(self@),
            tour_cost(self@, route@) <= u64::MAX,
        ensures
            total as int == tour_cost(self@, route@),
    {
        let n = route.len();
        let mut total: u64 = self.distances[route[n - 1]][route[0]];
        let mut t: usize = 1;
        while t < n
            invariant
                1 <= t <= n,
                total as int == self@[route@.last() as int][route@[0] as int]
                    + path_sum(self@, route@.take(t as int)),
            decreases n - t,
        {
            proof {
                assert(route@.take(t + 1) =~= route@.take(t as int).push(route@[t as int]));
                lemma_path_sum_push(self@, route@.take(t as int), route@[t as int]);
                lemma_path_sum_take_le(self@, route@, t + 1);
            }
            total = total + self.distances[route[t - 1]][route[t]];
            t += 1;
        }
        proof {
            assert(route@.take(n as int) =~= route@);
        }
        total
    }
}

/// Reversing a tour does not change its round-trip length over a
/// symmetric table.
pub proof fn lemma_tour_cost_reverse(m: Seq<Seq<u64>>, s: Seq<usize>)
    requires
        is_symmetric(m),
        in_range(s, m.len() as int),
    ensures
        tour_cost(m, s.reverse()) == tour_cost(m, s),
{
    lemma_path_sum_reverse(m, s);
    if s.len() >= 1 {
        assert(s.reverse().last() == s[0]);
        assert(s.reverse()[0] == s.last());
    }
}

proof fn lemma_path_sum_reverse(m: Seq<Seq<u64>>, s: Seq<usize>)
    requires
        is_symmetric(m),
        in_range(s, m.len() as int),
    ensures
        path_sum(m, s.reverse()) == path_sum(m, s),
    decreases s.len(),
{
    if s.len() < 2 {
        assert(s.reverse().len() == s.len());
    } else {
        let d = s.drop_first();
        assert(in_range(d, m.len() as int)) by {
            assert(forall|k: int| 0 <= k < d.len() ==> d[k] == s[k + 1]);
        }
        lemma_path_sum_reverse(m, d);
        assert(s.reverse() =~= d.reverse().push(s[0]));
        lemma_path_sum_push(m, d.reverse(), s[0]);
        assert(d.reverse().last() == d[0]);
        assert(m[s[1] as int][s[0] as int] == m[s[0] as int][s[1] as int]);
    }
}

/// Every entry visited by `s` is at most `b`.
pub open spec fn entries_bounded(m: Seq<Seq<u64>>, b: int) -> bool {
    forall|r: int, c: int|
        0 <= r < m.len() && 0 <= c < m.len() ==> (#[trigger] m[r][c]) <= b
}

proof fn lemma_path_sum_bound(m: Seq<Seq<u64>>, s: Seq<usize>, b: int)
    requires
        in_range(s, m.len() as int),
        entries_bounded(m, b),
        b >= 0,
    ensures
        s.len() >= 1 ==> path_sum(m, s) <= (s.len() - 1) * b,
        s.len() == 0 ==> path_sum(m, s) == 0,
    decreases s.len(),
{
    if s.len() >= 2 {
        let d = s.drop_first();
        assert(in_range(d, m.len() as int)) by {
            assert(forall|k: int| 0 <= k < d.len() ==> d[k] == s[k + 1]);
        }
        lemma_path_sum_bound(m, d, b);
        assert((s.len() - 2) * b + b == (s.len() - 1) * b) by (nonlinear_arith);
    }
}

/// A tour whose scaled entries fit in `u64` has a cost that fits in `u64`.
pub proof fn lemma_tour_cost_fits(m: Seq<Seq<u64>>, s: Seq<usize>)
    requires
        1 <= s.len(),
        in_range(s, m.len() as int),
        fits(m, s.len() as nat),
    ensures
        0 <= tour_cost(m, s) <= u64::MAX,
{
    let k = s.len() as int;
    let b = u64::MAX as int / k;
    assert(entries_bounded(m, b)) by {
        assert forall|r: int, c: int|
            0 <= r < m.len() && 0 <= c < m.len() implies (#[trigger] m[r][c]) <= b by {
            let e = m[r][c] as int;
            assert(k * e <= u64::MAX);
            vstd::arithmetic::div_mod::lemma_div_multiples_vanish(e, k);
            vstd::arithmetic::div_mod::lemma_div_is_ordered(k * e, u64::MAX as int, k);
        }
    }
    vstd::arithmetic::div_mod::lemma_div_pos_is_pos(u64::MAX as int, k);
    lemma_path_sum_bound(m, s, b);
    lemma_path_sum_nonneg(m, s);
    assert(tour_cost(m, s) <= k * b) by {
        assert(m[s.last() as int][s[0] as int] <= b);
        assert((k - 1) * b + b == k * b) by (nonlinear_arith);
    }
    assert(k * (u64::MAX as int / k) <= u64::MAX) by {
        vstd::arithmetic::div_mod::lemma_fundamental_div_mod(u64::MAX as int, k);
        vstd::arithmetic::div_mod::lemma_mod_division_less_than_divisor(u64::MAX as int, k);
    }
}

} // verus!
