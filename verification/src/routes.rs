//! The population and its generational loop.
//!
//! A [`Routes`] value owns a fixed-size collection of candidate tours,
//! the evolutionary configuration and the pseudo-random source. Each
//! generation evaluates every tour against the distance table, selects
//! parents by tournament (with replacement), reproduces them through
//! ordered crossover with the configured probability, mutates the
//! offspring with the configured probability, and replaces the
//! generation; with elitism on, the best tour of the old generation
//! unconditionally survives in place of the weakest offspring, so the
//! best cost of the population never worsens ([`Routes::evolve`]).

use vstd::prelude::*;
use crate::distance_mat::DistanceMat;
use crate::distance_mat::fits;
use crate::distance_mat::is_square;
use crate::distance_mat::lemma_tour_cost_fits;
use crate::distance_mat::tour_cost;
use crate::rng::Rng;
use crate::rng::draw;
use crate::rng::next_state;
use crate::route::Route;
use crate::route::is_permutation;
use crate::route::lemma_swap_preserves_permutation;
use crate::route::ox_child;
use crate::route::swap_spec;

verus! {

/// The tours of a list of routes.
pub open spec fn views_of(rs: Seq<Route>) -> Seq<Seq<usize>> {
    rs.map_values(|r: Route| r@)
}

/// The round-trip cost of each tour, in order.
pub open spec fn costs_spec(vs: Seq<Seq<usize>>, m: Seq<Seq<u64>>) -> Seq<u64> {
    Seq::new(vs.len(), |k: int| tour_cost(m, vs[k]) as u64)
}

/// The first index of the minimum among the first `k` entries.
pub open spec fn min_index_prefix(costs: Seq<u64>, k: int) -> int
    decreases k,
{
    if k <= 1 {
        0
    } else {
        let p = min_index_prefix(costs, k - 1);
        if costs[k - 1] < costs[p] {
            k - 1
        } else {
            p
        }
    }
}

/// The first index of the minimum.
pub open spec fn min_index_spec(costs: Seq<u64>) -> int {
    min_index_prefix(costs, costs.len() as int)
}

/// The first index of the maximum among the first `k` entries.
pub open spec fn max_index_prefix(costs: Seq<u64>, k: int) -> int
    decreases k,
{
    if k <= 1 {
        0
    } else {
        let p = max_index_prefix(costs, k - 1);
        if costs[k - 1] > costs[p] {
            k - 1
        } else {
            p
        }
    }
}

/// The first index of the maximum.
pub open spec fn max_index_spec(costs: Seq<u64>) -> int {
    max_index_prefix(costs, costs.len() as int)
}

/// One tournament: two draws, and the index with the cheaper cost wins;
/// yields the winner and the state after both draws.
pub open spec fn tournament_spec(s: u64, costs: Seq<u64>) -> (int, u64) {
    let a = draw(s, costs.len() as u64) as int;
    let s1 = next_state(s);
    let b = draw(s1, costs.len() as u64) as int;
    let s2 = next_state(s1);
    (
        if costs[a] <= costs[b] {
            a
        } else {
            b
        },
        s2,
    )
}

/// The lowest round-trip cost among the tours of `rs`.
pub open spec fn best_cost(rs: Seq<Seq<usize>>, m: Seq<Seq<u64>>) -> int
    decreases rs.len(),
{
    if rs.len() <= 1 {
        tour_cost(m, rs[0])
    } else {
        let rest = best_cost(rs.drop_first(), m);
        let c = tour_cost(m, rs[0]);
        if c <= rest {
            c
        } else {
            rest
        }
    }
}

/// `best_cost` is the minimum: some tour reaches it, and no tour is
/// cheaper.
pub proof fn lemma_best_cost_is_min(rs: Seq<Seq<usize>>, m: Seq<Seq<u64>>)
    requires
        rs.len() >= 1,
    ensures
        exists|k: int| 0 <= k < rs.len() && tour_cost(m, #[trigger] rs[k]) == best_cost(rs, m),
        forall|k: int| 0 <= k < rs.len() ==> best_cost(rs, m) <= tour_cost(m, #[trigger] rs[k]),
    decreases rs.len(),
{
    if rs.len() == 1 {
        assert(tour_cost(m, rs[0]) == best_cost(rs, m));
    } else {
        let d = rs.drop_first();
        lemma_best_cost_is_min(d, m);
        if tour_cost(m, rs[0]) <= best_cost(d, m) {
            assert(tour_cost(m, rs[0]) == best_cost(rs, m));
        } else {
            let k = choose|k: int| 0 <= k < d.len() && tour_cost(m, #[trigger] d[k]) == best_cost(
                d,
                m,
            );
            assert(rs[k + 1] == d[k]);
            assert(tour_cost(m, rs[k + 1]) == best_cost(rs, m));
        }
        assert forall|k: int| 0 <= k < rs.len() implies best_cost(rs, m) <= tour_cost(
            m,
            #[trigger] rs[k],
        ) by {
            if k >= 1 {
                assert(d[k - 1] == rs[k]);
            }
        }
    }
}

/// The round-trip cost of each route, in order.
#[verifier::loop_isolation(false)]
fn eval_costs(routes: &Vec<Route>, dist: &DistanceMat) -> (costs: Vec<u64>)
    requires
        dist@.len() >= 1,
        is_square(dist@),
        fits(dist@, dist@.len() as nat),
        forall|k: int|
            0 <= k < routes@.len() ==> is_permutation((#[trigger] routes@[k])@, dist@.len() as nat),
    ensures
        costs@.len() == routes@.len(),
        forall|k: int|
            0 <= k < routes@.len() ==> (#[trigger] costs@[k]) as int == tour_cost(
                dist@,
                routes@[k]@,
            ),
        costs@ == costs_spec(views_of(routes@), dist@),
{
    let mut costs: Vec<u64> = Vec::new();
    let mut k: usize = 0;
    while k < routes.len()
        invariant
            k <= routes@.len(),
            costs@.len() == k,
            forall|t: int|
                0 <= t < k ==> (#[trigger] costs@[t]) as int == tour_cost(dist@, routes@[t]@),
        decreases routes@.len() - k,
    {
        proof {
            assert(is_permutation(routes@[k as int]@, dist@.len() as nat));
            lemma_tour_cost_fits(dist@, routes@[k as int]@);
        }
        let c = dist.get_distance(&routes[k].indexes);
        costs.push(c);
        k += 1;
    }
    proof {
        assert(costs@ =~= costs_spec(views_of(routes@), dist@));
    }
    costs
}

/// The index of a smallest entry.
#[verifier::loop_isolation(false)]
fn min_index(costs: &Vec<u64>) -> (idx: usize)
    requires
        costs@.len() >= 1,
    ensures
        idx < costs@.len(),
        forall|k: int| 0 <= k < costs@.len() ==> costs@[idx as int] <= #[trigger] costs@[k],
        idx as int == min_index_spec(costs@),
{
    let mut idx: usize = 0;
    let mut k: usize = 1;
    while k < costs.len()
        invariant
            idx < k <= costs@.len(),
            forall|t: int| 0 <= t < k ==> costs@[idx as int] <= #[trigger] costs@[t],
            idx as int == min_index_prefix(costs@, k as int),
        decreases costs@.len() - k,
    {
        if costs[k] < costs[idx] {
            idx = k;
        }
        k += 1;
    }
    idx
}

/// The index of a largest entry.
#[verifier::loop_isolation(false)]
fn max_index(costs: &Vec<u64>) -> (idx: usize)
    requires
        costs@.len() >= 1,
    ensures
        idx < costs@.len(),
        forall|k: int| 0 <= k < costs@.len() ==> costs@[idx as int] >= #[trigger] costs@[k],
        idx as int == max_index_spec(costs@),
{
    let mut idx: usize = 0;
    let mut k: usize = 1;
    while k < costs.len()
        invariant
            idx < k <= costs@.len(),
            forall|t: int| 0 <= t < k ==> costs@[idx as int] >= #[trigger] costs@[t],
            idx as int == max_index_prefix(costs@, k as int),
        decreases costs@.len() - k,
    {
        if costs[k] > costs[idx] {
            idx = k;
        }
        k += 1;
    }
    idx
}

/// One offspring: two tournaments, a crossover draw and, on success,
/// two cut draws; then a mutation draw and, on success, two position
/// draws. Yields the child and the state after all draws.
#[verifier::opaque]
pub open spec fn offspring_spec(
    s: u64,
    vs: Seq<Seq<usize>>,
    costs: Seq<u64>,
    n: int,
    crossover_rate: u64,
    mutation_rate: u64,
) -> (Seq<usize>, u64) {
    let (pa, s1) = tournament_spec(s, costs);
    let (pb, s2) = tournament_spec(s1, costs);
    let crossed = draw(s2, 100);
    let s3 = next_state(s2);
    let (bred, s4) = if crossed < crossover_rate {
        let c1 = draw(s3, (n + 1) as u64) as int;
        let s3a = next_state(s3);
        let c2 = draw(s3a, (n + 1) as u64) as int;
        let s3b = next_state(s3a);
        (
            if c1 <= c2 {
                ox_child(vs[pa], vs[pb], c1, c2)
            } else {
                ox_child(vs[pa], vs[pb], c2, c1)
            },
            s3b,
        )
    } else {
        (vs[pa], s3)
    };
    let mutated = draw(s4, 100);
    let s5 = next_state(s4);
    if mutated < mutation_rate {
        let a = draw(s5, n as u64) as int;
        let s6 = next_state(s5);
        let b = draw(s6, n as u64) as int;
        let s7 = next_state(s6);
        (swap_spec(bred, a, b), s7)
    } else {
        (bred, s5)
    }
}

/// `count` offspring in the order bred, threading the state through.
pub open spec fn breed_spec(
    s: u64,
    vs: Seq<Seq<usize>>,
    costs: Seq<u64>,
    n: int,
    crossover_rate: u64,
    mutation_rate: u64,
    count: nat,
) -> (Seq<Seq<usize>>, u64)
    decreases count,
{
    if count == 0 {
        (Seq::empty(), s)
    } else {
        let (child, s1) = offspring_spec(s, vs, costs, n, crossover_rate, mutation_rate);
        let (rest, s2) = breed_spec(
            s1,
            vs,
            costs,
            n,
            crossover_rate,
            mutation_rate,
            (count - 1) as nat,
        );
        (seq![child] + rest, s2)
    }
}

/// One full generation over the tours `vs` with state `s`: evaluate,
/// breed a complete new generation, and, with elitism, put the best old
/// tour in place of the worst offspring.
#[verifier::opaque]
pub open spec fn generation_spec(
    vs: Seq<Seq<usize>>,
    s: u64,
    m: Seq<Seq<u64>>,
    n: int,
    crossover_rate: u64,
    mutation_rate: u64,
    elitism: bool,
) -> (Seq<Seq<usize>>, u64) {
    let costs = costs_spec(vs, m);
    let bred = breed_spec(s, vs, costs, n, crossover_rate, mutation_rate, vs.len());
    let children = bred.0;
    if elitism {
        let wi = max_index_spec(costs_spec(children, m));
        let bi = min_index_spec(costs);
        (children.update(wi, vs[bi]), bred.1)
    } else {
        (children, bred.1)
    }
}

/// The population and state after `g` generations from tours `vs` and
/// state `s`.
pub open spec fn evolve_iter_spec(
    vs: Seq<Seq<usize>>,
    s: u64,
    m: Seq<Seq<u64>>,
    n: int,
    crossover_rate: u64,
    mutation_rate: u64,
    elitism: bool,
    g: nat,
) -> (Seq<Seq<usize>>, u64)
    decreases g,
{
    if g == 0 {
        (vs, s)
    } else {
        let stepped = generation_spec(vs, s, m, n, crossover_rate, mutation_rate, elitism);
        evolve_iter_spec(
            stepped.0,
            stepped.1,
            m,
            n,
            crossover_rate,
            mutation_rate,
            elitism,
            (g - 1) as nat,
        )
    }
}

/// Running one more generation is one generation step after the
/// previous iterate.
#[verifier::rlimit(60)]
proof fn lemma_evolve_iter_step(
    vs: Seq<Seq<usize>>,
    s: u64,
    m: Seq<Seq<u64>>,
    n: int,
    crossover_rate: u64,
    mutation_rate: u64,
    elitism: bool,
    g: nat,
)
    ensures
        evolve_iter_spec(vs, s, m, n, crossover_rate, mutation_rate, elitism, (g + 1) as nat)
            == generation_spec(
            evolve_iter_spec(vs, s, m, n, crossover_rate, mutation_rate, elitism, g).0,
            evolve_iter_spec(vs, s, m, n, crossover_rate, mutation_rate, elitism, g).1,
            m,
            n,
            crossover_rate,
            mutation_rate,
            elitism,
        ),
    decreases g,
{
    let stepped = generation_spec(vs, s, m, n, crossover_rate, mutation_rate, elitism);
    assert(evolve_iter_spec(vs, s, m, n, crossover_rate, mutation_rate, elitism, (g + 1) as nat)
        == evolve_iter_spec(stepped.0, stepped.1, m, n, crossover_rate, mutation_rate, elitism, g));
    if g == 0 {
        assert(evolve_iter_spec(stepped.0, stepped.1, m, n, crossover_rate, mutation_rate,
            elitism, 0nat) == (stepped.0, stepped.1));
        assert(evolve_iter_spec(vs, s, m, n, crossover_rate, mutation_rate, elitism, 0nat)
            == (vs, s));
        assert(stepped == (stepped.0, stepped.1));
    } else {
        lemma_evolve_iter_step(
            stepped.0,
            stepped.1,
            m,
            n,
            crossover_rate,
            mutation_rate,
            elitism,
            (g - 1) as nat,
        );
        assert(evolve_iter_spec(vs, s, m, n, crossover_rate, mutation_rate, elitism, g)
            == evolve_iter_spec(stepped.0, stepped.1, m, n, crossover_rate, mutation_rate,
            elitism, (g - 1) as nat));
        assert(stepped == (stepped.0, stepped.1));
    }
}

/// The lowest best cost among the populations that `g` generations from
/// tours `vs` and state `s` pass through, the starting one included.
pub open spec fn best_observed_spec(
    vs: Seq<Seq<usize>>,
    s: u64,
    m: Seq<Seq<u64>>,
    n: int,
    crossover_rate: u64,
    mutation_rate: u64,
    elitism: bool,
    g: nat,
) -> int
    decreases g,
{
    if g == 0 {
        best_cost(vs, m)
    } else {
        let stepped = generation_spec(vs, s, m, n, crossover_rate, mutation_rate, elitism);
        vstd::math::min(
            best_cost(vs, m),
            best_observed_spec(
                stepped.0,
                stepped.1,
                m,
                n,
                crossover_rate,
                mutation_rate,
                elitism,
                (g - 1) as nat,
            ),
        )
    }
}

/// The best cost observed over a run is at most the best cost of the
/// starting population.
proof fn lemma_best_observed_le_start(
    vs: Seq<Seq<usize>>,
    s: u64,
    m: Seq<Seq<u64>>,
    n: int,
    crossover_rate: u64,
    mutation_rate: u64,
    elitism: bool,
    g: nat,
)
    ensures
        best_observed_spec(vs, s, m, n, crossover_rate, mutation_rate, elitism, g) <= best_cost(
            vs,
            m,
        ),
{
}

/// The identity tour over `0..n`, as a sequence.
pub open spec fn identity_seq(n: int) -> Seq<usize> {
    Seq::new(n as nat, |k: int| k as usize)
}

/// The shuffle steps still to do when `k` positions are left: draw a
/// position below `k`, swap it with position `k - 1`, and go on.
pub open spec fn shuffle_steps(t: Seq<usize>, s: u64, k: int) -> (Seq<usize>, u64)
    decreases k,
{
    if k <= 1 {
        (t, s)
    } else {
        let pos = draw(s, k as u64) as int;
        shuffle_steps(swap_spec(t, k - 1, pos), next_state(s), k - 1)
    }
}

/// The shuffled tour over `0..n` that state `s` determines, and the
/// state after the shuffle.
pub open spec fn random_route_spec(s: u64, n: int) -> (Seq<usize>, u64) {
    shuffle_steps(identity_seq(n), s, n)
}

/// `count` shuffled tours in the order built, threading the state.
pub open spec fn init_population_spec(s: u64, n: int, count: nat) -> (Seq<Seq<usize>>, u64)
    decreases count,
{
    if count == 0 {
        (Seq::empty(), s)
    } else {
        let (t, s1) = random_route_spec(s, n);
        let (rest, s2) = init_population_spec(s1, n, (count - 1) as nat);
        (seq![t] + rest, s2)
    }
}

/// Replacing any tour of a population by the cheapest tour of another
/// population leaves the new population at least as cheap as that one.
proof fn lemma_elitism_bound(
    old_views: Seq<Seq<usize>>,
    new_views: Seq<Seq<usize>>,
    m: Seq<Seq<u64>>,
    bi: int,
    wi: int,
)
    requires
        old_views.len() >= 1,
        new_views.len() >= 1,
        0 <= bi < old_views.len(),
        0 <= wi < new_views.len(),
        new_views[wi] == old_views[bi],
        forall|k: int|
            0 <= k < old_views.len() ==> tour_cost(m, old_views[bi]) <= tour_cost(
                m,
                #[trigger] old_views[k],
            ),
    ensures
        best_cost(new_views, m) <= best_cost(old_views, m),
{
    lemma_best_cost_is_min(old_views, m);
    lemma_best_cost_is_min(new_views, m);
    let k0 = choose|k: int|
        0 <= k < old_views.len() && tour_cost(m, #[trigger] old_views[k]) == best_cost(
            old_views,
            m,
        );
    assert(tour_cost(m, old_views[bi]) <= tour_cost(m, old_views[k0]));
    assert(best_cost(new_views, m) <= tour_cost(m, new_views[wi]));
}

/// One generation of offspring: parents chosen by tournament, bred by
/// crossover with probability `crossover_rate` (in percent) and copied
/// through otherwise, then mutated with probability `mutation_rate`.
#[verifier::loop_isolation(false)]
#[verifier::rlimit(60)]
fn breed(
    rng: &mut Rng,
    routes: &Vec<Route>,
    costs: &Vec<u64>,
    n: usize,
    crossover_rate: u64,
    mutation_rate: u64,
) -> (next: Vec<Route>)
    requires
        1 <= n < usize::MAX,
        routes@.len() >= 1,
        costs@.len() == routes@.len(),
        forall|k: int|
            0 <= k < routes@.len() ==> is_permutation((#[trigger] routes@[k])@, n as nat),
    ensures
        next@.len() == routes@.len(),
        forall|k: int| 0 <= k < next@.len() ==> is_permutation((#[trigger] next@[k])@, n as nat),
        views_of(next@) == breed_spec(
            old(rng)@,
            views_of(routes@),
            costs@,
            n as int,
            crossover_rate,
            mutation_rate,
            routes@.len(),
        ).0,
        final(rng)@ == breed_spec(
            old(rng)@,
            views_of(routes@),
            costs@,
            n as int,
            crossover_rate,
            mutation_rate,
            routes@.len(),
        ).1,
{
    let size = routes.len();
    let ghost s0 = rng@;
    let ghost vs = views_of(routes@);
    let mut next: Vec<Route> = Vec::new();
    proof {
        assert(views_of(next@) =~= Seq::<Seq<usize>>::empty());
        assert(views_of(next@) + breed_spec(rng@, vs, costs@, n as int, crossover_rate,
            mutation_rate, size as nat).0 =~= breed_spec(s0, vs, costs@, n as int,
            crossover_rate, mutation_rate, size as nat).0);
    }
    while next.len() < size
        invariant
            next@.len() <= size,
            forall|k: int|
                0 <= k < next@.len() ==> is_permutation((#[trigger] next@[k])@, n as nat),
            breed_spec(s0, vs, costs@, n as int, crossover_rate, mutation_rate, size as nat).0
                == views_of(next@) + breed_spec(rng@, vs, costs@, n as int, crossover_rate,
                mutation_rate, (size - next@.len()) as nat).0,
            breed_spec(s0, vs, costs@, n as int, crossover_rate, mutation_rate, size as nat).1
                == breed_spec(rng@, vs, costs@, n as int, crossover_rate, mutation_rate,
                (size - next@.len()) as nat).1,
        decreases size - next@.len(),
    {
        let ghost s_it = rng@;
        let ghost left = (size - next@.len()) as nat;
        let pa = tournament(rng, costs);
        let pb = tournament(rng, costs);
        let crossed = rng.below(100) as u64;
        let mut child = if crossed < crossover_rate {
            let c1 = rng.below(n + 1);
            let c2 = rng.below(n + 1);
            let (cut_i, cut_j) = if c1 <= c2 {
                (c1, c2)
            } else {
                (c2, c1)
            };
            proof {
                assert(is_permutation(routes@[pa as int]@, n as nat));
                assert(is_permutation(routes@[pb as int]@, n as nat));
            }
            (&routes[pa]).crossover(&routes[pb], cut_i, cut_j)
        } else {
            (&routes[pa]).duplicate()
        };
        let mutated = rng.below(100) as u64;
        if mutated < mutation_rate {
            let a = rng.below(n);
            let b = rng.below(n);
            let next_child = child.mutate(a, b);
            proof {
                lemma_swap_preserves_permutation(child@, a as int, b as int, n as nat);
            }
            child = next_child;
        }
        proof {
            reveal(offspring_spec);
            assert(vs[pa as int] == routes@[pa as int]@);
            assert(vs[pb as int] == routes@[pb as int]@);
            assert(offspring_spec(s_it, vs, costs@, n as int, crossover_rate, mutation_rate)
                == (child@, rng@));
            let stepped = offspring_spec(s_it, vs, costs@, n as int, crossover_rate,
                mutation_rate);
            assert(breed_spec(s_it, vs, costs@, n as int, crossover_rate, mutation_rate, left).0
                == seq![child@] + breed_spec(stepped.1, vs, costs@, n as int, crossover_rate,
                mutation_rate, (left - 1) as nat).0);
        }
        next.push(child);
        proof {
            assert(views_of(next@) =~= views_of(next@.drop_last()) + seq![child@]);
            assert((views_of(next@.drop_last()) + seq![child@]) + breed_spec(rng@, vs, costs@,
                n as int, crossover_rate, mutation_rate, (size - next@.len()) as nat).0
                =~= views_of(next@.drop_last()) + (seq![child@] + breed_spec(rng@, vs, costs@,
                n as int, crossover_rate, mutation_rate, (size - next@.len()) as nat).0));
        }
    }
    proof {
        assert(breed_spec(rng@, vs, costs@, n as int, crossover_rate, mutation_rate, 0nat).0
            =~= Seq::<Seq<usize>>::empty());
        assert(views_of(next@) + Seq::<Seq<usize>>::empty() =~= views_of(next@));
    }
    next
}

/// Tournament selection: draw two indices and keep the cheaper one.
fn tournament(rng: &mut Rng, costs: &Vec<u64>) -> (idx: usize)
    requires
        costs@.len() >= 1,
    ensures
        idx < costs@.len(),
        idx as int == tournament_spec(old(rng)@, costs@).0,
        final(rng)@ == tournament_spec(old(rng)@, costs@).1,
{
    let a = rng.below(costs.len());
    let b = rng.below(costs.len());
    if costs[a] <= costs[b] {
        a
    } else {
        b
    }
}

/// The identity tour `0, 1, ..., n - 1`.
#[verifier::loop_isolation(false)]
fn identity_route(n: usize) -> (r: Route)
    requires
        1 <= n,
    ensures
        is_permutation(r@, n as nat),
        r@ == identity_seq(n as int),
{
    let mut v: Vec<usize> = Vec::new();
    let mut k: usize = 0;
    while k < n
        invariant
            k <= n,
            v@.len() == k,
            forall|t: int| 0 <= t < k ==> #[trigger] v@[t] == t,
        decreases n - k,
    {
        v.push(k);
        k += 1;
    }
    proof {
        assert(v@.no_duplicates());
        assert forall|val: usize| val < n implies v@.contains(val) by {
            assert(v@[val as int] == val);
        }
        crate::route::lemma_is_permutation_from_distinct(v@, n as nat);
        assert(v@ =~= identity_seq(n as int));
    }
    Route::new(v)
}

/// The shuffled tour over `0..n` that the state of `rng` determines.
fn random_route(n: usize, rng: &mut Rng) -> (r: Route)
    requires
        1 <= n,
    ensures
        is_permutation(r@, n as nat),
        r@ == random_route_spec(old(rng)@, n as int).0,
        final(rng)@ == random_route_spec(old(rng)@, n as int).1,
{
    let ghost s0 = rng@;
    let mut rt = identity_route(n);
    let mut k: usize = n;
    while k > 1
        invariant
            1 <= k <= n,
            is_permutation(rt@, n as nat),
            random_route_spec(s0, n as int) == shuffle_steps(rt@, rng@, k as int),
        decreases k,
    {
        let ghost s_it = rng@;
        let pos = rng.below(k);
        let next = rt.mutate(k - 1, pos);
        proof {
            lemma_swap_preserves_permutation(rt@, k - 1, pos as int, n as nat);
            assert(shuffle_steps(rt@, s_it, k as int) == shuffle_steps(
                swap_spec(rt@, k - 1, pos as int),
                next_state(s_it),
                k - 1,
            ));
        }
        rt = next;
        k -= 1;
    }
    rt
}

/// The population: the current generation of candidate tours, the
/// evolutionary configuration, and the pseudo-random source.
pub struct Routes {
    routes: Vec<Route>,
    crossover_rate: u64,
    mutation_rate: u64,
    elitism: bool,
    rng: Rng,
    nr_nodes: usize,
}

impl Routes {
    /// The tours of the current generation.
    pub closed spec fn views(&self) -> Seq<Seq<usize>> {
        views_of(self.routes@)
    }

    /// The state of the pseudo-random source.
    pub closed spec fn rng_state(&self) -> u64 {
        self.rng@
    }

    /// The tour length, which is the distance-table dimension.
    pub closed spec fn nr_nodes_spec(&self) -> usize {
        self.nr_nodes
    }

    /// The fixed number of individuals.
    pub closed spec fn population_size(&self) -> nat {
        self.routes@.len()
    }

    /// Whether the best individual always survives a generation change.
    pub closed spec fn elitism_spec(&self) -> bool {
        self.elitism
    }

    /// The probability, in percent, that a child is bred by crossover.
    pub closed spec fn crossover_rate_spec(&self) -> u64 {
        self.crossover_rate
    }

    /// The probability, in percent, that a child is mutated.
    pub closed spec fn mutation_rate_spec(&self) -> u64 {
        self.mutation_rate
    }

    /// The population invariant: at least one individual, and every
    /// individual a valid permutation of the `nr_nodes` node indices.
    pub closed spec fn wf(&self) -> bool {
        &&& self.routes@.len() >= 1
        &&& 1 <= self.nr_nodes < usize::MAX
        &&& forall|k: int|
            0 <= k < self.routes@.len() ==> is_permutation(
                (#[trigger] self.routes@[k])@,
                self.nr_nodes as nat,
            )
        &&& self.crossover_rate <= 100
        &&& self.mutation_rate <= 100
    }

    /// A population of `population_size` random valid permutations over
    /// the nodes of `dist`, with the given configuration and seed.
    /// The rates are probabilities in percent.
    #[verifier::loop_isolation(false)]
    pub fn new(
        dist: &DistanceMat,
        population_size: usize,
        crossover_rate: u64,
        mutation_rate: u64,
        elitism: bool,
        seed: u64,
    ) -> (r: Routes)
        requires
            population_size >= 1,
            crossover_rate <= 100,
            mutation_rate <= 100,
            1 <= dist@.len() < usize::MAX,
        ensures
            r.wf(),
            r.nr_nodes_spec() == dist@.len(),
            r.population_size() == population_size,
            r.elitism_spec() == elitism,
            r.crossover_rate_spec() == crossover_rate,
            r.mutation_rate_spec() == mutation_rate,
            r.views() == init_population_spec(
                seed,
                dist@.len() as int,
                population_size as nat,
            ).0,
            r.rng_state() == init_population_spec(
                seed,
                dist@.len() as int,
                population_size as nat,
            ).1,
    {
        let n = dist.n_units();
        let mut rng = Rng::new(seed);
        let mut routes: Vec<Route> = Vec::new();
        proof {
            assert(views_of(routes@) =~= Seq::<Seq<usize>>::empty());
            assert(views_of(routes@) + init_population_spec(rng@, n as int,
                population_size as nat).0 =~= init_population_spec(seed, n as int,
                population_size as nat).0);
        }
        while routes.len() < population_size
            invariant
                routes@.len() <= population_size,
                forall|k: int|
                    0 <= k < routes@.len() ==> is_permutation(
                        (#[trigger] routes@[k])@,
                        n as nat,
                    ),
                init_population_spec(seed, n as int, population_size as nat).0 == views_of(
                    routes@,
                ) + init_population_spec(rng@, n as int, (population_size
                    - routes@.len()) as nat).0,
                init_population_spec(seed, n as int, population_size as nat).1
                    == init_population_spec(rng@, n as int, (population_size
                    - routes@.len()) as nat).1,
            decreases population_size - routes@.len(),
        {
            let ghost s_it = rng@;
            let ghost left = (population_size - routes@.len()) as nat;
            let rt = random_route(n, &mut rng);
            proof {
                assert(init_population_spec(s_it, n as int, left).0 == seq![rt@]
                    + init_population_spec(rng@, n as int, (left - 1) as nat).0);
            }
            routes.push(rt);
            proof {
                assert(views_of(routes@) =~= views_of(routes@.drop_last()) + seq![rt@]);
                assert((views_of(routes@.drop_last()) + seq![rt@]) + init_population_spec(rng@,
                    n as int, (population_size - routes@.len()) as nat).0 =~= views_of(
                    routes@.drop_last()) + (seq![rt@] + init_population_spec(rng@, n as int,
                    (population_size - routes@.len()) as nat).0));
            }
        }
        proof {
            assert(init_population_spec(rng@, n as int, 0nat).0 =~= Seq::<Seq<usize>>::empty());
            assert(views_of(routes@) + Seq::<Seq<usize>>::empty() =~= views_of(routes@));
        }
        Routes { routes, crossover_rate, mutation_rate, elitism, rng, nr_nodes: n }
    }

    /// The best tour of the current generation and its cost.
    pub fn best(&self, dist: &DistanceMat) -> (r: (Route, u64))
        requires
            self.wf(),
            is_square(dist@),
            dist@.len() == self.nr_nodes_spec(),
            fits(dist@, self.nr_nodes_spec() as nat),
        ensures
            is_permutation(r.0@, self.nr_nodes_spec() as nat),
            r.1 as int == tour_cost(dist@, r.0@),
            r.1 as int == best_cost(self.views(), dist@),
    {
        let costs = eval_costs(&self.routes, dist);
        let idx = min_index(&costs);
        proof {
            let vs = self.views();
            assert(forall|k: int| 0 <= k < vs.len() ==> #[trigger] vs[k] == self.routes@[k]@);
            lemma_best_cost_is_min(vs, dist@);
            let k0 = choose|k: int|
                0 <= k < vs.len() && tour_cost(dist@, #[trigger] vs[k]) == best_cost(vs, dist@);
            assert(costs@[idx as int] <= costs@[k0]);
            assert(costs@[k0] as int == tour_cost(dist@, vs[k0]));
            assert(best_cost(vs, dist@) <= tour_cost(dist@, vs[idx as int]));
            assert(costs@[idx as int] as int == best_cost(vs, dist@));
        }
        let rt = (&self.routes[idx]).duplicate();
        (rt, costs[idx])
    }

    /// One generation: evaluate, select by tournament, reproduce by
    /// ordered crossover with probability `crossover_rate`, mutate with
    /// probability `mutation_rate`, and replace the generation. With
    /// elitism on, the best individual of the old generation survives in
    /// place of the weakest offspring, and the best cost cannot worsen.
    #[verifier::loop_isolation(false)]
    pub fn evolve(&mut self, dist: &DistanceMat)
        requires
            old(self).wf(),
            is_square(dist@),
            dist@.len() == old(self).nr_nodes_spec(),
            fits(dist@, old(self).nr_nodes_spec() as nat),
        ensures
            final(self).wf(),
            final(self).nr_nodes_spec() == old(self).nr_nodes_spec(),
            final(self).population_size() == old(self).population_size(),
            final(self).elitism_spec() == old(self).elitism_spec(),
            final(self).crossover_rate_spec() == old(self).crossover_rate_spec(),
            final(self).mutation_rate_spec() == old(self).mutation_rate_spec(),
            old(self).elitism_spec() ==> best_cost(final(self).views(), dist@) <= best_cost(
                old(self).views(),
                dist@,
            ),
            final(self).views() == generation_spec(
                old(self).views(),
                old(self).rng_state(),
                dist@,
                old(self).nr_nodes_spec() as int,
                old(self).crossover_rate_spec(),
                old(self).mutation_rate_spec(),
                old(self).elitism_spec(),
            ).0,
            final(self).rng_state() == generation_spec(
                old(self).views(),
                old(self).rng_state(),
                dist@,
                old(self).nr_nodes_spec() as int,
                old(self).crossover_rate_spec(),
                old(self).mutation_rate_spec(),
                old(self).elitism_spec(),
            ).1,
    {
        let n = self.nr_nodes;
        let ghost old_views = self.views();
        let costs = eval_costs(&self.routes, dist);
        let best_idx = min_index(&costs);

        let mut next = breed(
            &mut self.rng,
            &self.routes,
            &costs,
            n,
            self.crossover_rate,
            self.mutation_rate,
        );
        let ghost children = views_of(next@);

        if self.elitism {
            let next_costs = eval_costs(&next, dist);
            let worst_idx = max_index(&next_costs);
            let elite = (&self.routes[best_idx]).duplicate();
            next.set(worst_idx, elite);
            proof {
                let new_views = views_of(next@);
                assert(forall|k: int|
                    0 <= k < old_views.len() ==> #[trigger] old_views[k] == self.routes@[k]@);
                assert(forall|k: int|
                    0 <= k < new_views.len() ==> #[trigger] new_views[k] == next@[k]@);
                assert(new_views =~= children.update(worst_idx as int, old_views[best_idx as int]));
                assert(new_views[worst_idx as int] == old_views[best_idx as int]);
                assert forall|k: int| 0 <= k < old_views.len() implies tour_cost(
                    dist@,
                    old_views[best_idx as int],
                ) <= tour_cost(dist@, #[trigger] old_views[k]) by {
                    assert(costs@[best_idx as int] <= costs@[k]);
                }
                lemma_elitism_bound(
                    old_views,
                    new_views,
                    dist@,
                    best_idx as int,
                    worst_idx as int,
                );
            }
        }
        self.routes = next;
        proof {
            reveal(generation_spec);
            let stepped = generation_spec(
                old(self).views(),
                old(self).rng_state(),
                dist@,
                old(self).nr_nodes_spec() as int,
                old(self).crossover_rate_spec(),
                old(self).mutation_rate_spec(),
                old(self).elitism_spec(),
            );
            if old(self).elitism_spec() {
                assert(self.views() =~= stepped.0);
            } else {
                assert(self.views() == stepped.0);
            }
            assert(self.rng_state() == stepped.1);
        }
    }

    /// Run `generations` generations and yield the best tour observed
    /// across all of them, with its cost. The result never costs more
    /// than the best tour of the starting generation, nor more than the
    /// best of the final one.
    #[verifier::loop_isolation(false)]
    pub fn run(&mut self, dist: &DistanceMat, generations: usize) -> (best: (Route, u64))
        requires
            old(self).wf(),
            is_square(dist@),
            dist@.len() == old(self).nr_nodes_spec(),
            fits(dist@, old(self).nr_nodes_spec() as nat),
        ensures
            final(self).wf(),
            final(self).nr_nodes_spec() == old(self).nr_nodes_spec(),
            final(self).population_size() == old(self).population_size(),
            final(self).elitism_spec() == old(self).elitism_spec(),
            is_permutation(best.0@, old(self).nr_nodes_spec() as nat),
            best.1 as int == tour_cost(dist@, best.0@),
            best.1 as int <= best_cost(old(self).views(), dist@),
            best.1 as int <= best_cost(final(self).views(), dist@),
            final(self).views() == evolve_iter_spec(
                old(self).views(),
                old(self).rng_state(),
                dist@,
                old(self).nr_nodes_spec() as int,
                old(self).crossover_rate_spec(),
                old(self).mutation_rate_spec(),
                old(self).elitism_spec(),
                generations as nat,
            ).0,
            final(self).rng_state() == evolve_iter_spec(
                old(self).views(),
                old(self).rng_state(),
                dist@,
                old(self).nr_nodes_spec() as int,
                old(self).crossover_rate_spec(),
                old(self).mutation_rate_spec(),
                old(self).elitism_spec(),
                generations as nat,
            ).1,
            best.1 as int == best_observed_spec(
                old(self).views(),
                old(self).rng_state(),
                dist@,
                old(self).nr_nodes_spec() as int,
                old(self).crossover_rate_spec(),
                old(self).mutation_rate_spec(),
                old(self).elitism_spec(),
                generations as nat,
            ),
    {
        let ghost v0 = old(self).views();
        let ghost s0 = old(self).rng_state();
        let ghost m = dist@;
        let ghost n0 = old(self).nr_nodes_spec() as int;
        let ghost cr = old(self).crossover_rate_spec();
        let ghost mr = old(self).mutation_rate_spec();
        let ghost el = old(self).elitism_spec();
        let first = self.best(dist);
        let mut best_route = first.0;
        let mut best_fitness = first.1;
        let mut g: usize = 0;
        while g < generations
            invariant
                g <= generations,
                self.wf(),
                self.nr_nodes_spec() == old(self).nr_nodes_spec(),
                self.population_size() == old(self).population_size(),
                self.elitism_spec() == old(self).elitism_spec(),
                self.crossover_rate_spec() == old(self).crossover_rate_spec(),
                self.mutation_rate_spec() == old(self).mutation_rate_spec(),
                is_permutation(best_route@, self.nr_nodes_spec() as nat),
                best_fitness as int == tour_cost(dist@, best_route@),
                best_fitness as int <= best_cost(self.views(), dist@),
                self.views() == evolve_iter_spec(v0, s0, m, n0, cr, mr, el, g as nat).0,
                self.rng_state() == evolve_iter_spec(v0, s0, m, n0, cr, mr, el, g as nat).1,
                vstd::math::min(
                    best_fitness as int,
                    best_observed_spec(self.views(), self.rng_state(), m, n0, cr, mr, el,
                    (generations - g) as nat),
                ) == best_observed_spec(v0, s0, m, n0, cr, mr, el, generations as nat),
            decreases generations - g,
        {
            let ghost views_before = self.views();
            let ghost state_before = self.rng_state();
            let ghost left = (generations - g) as nat;
            self.evolve(dist);
            proof {
                lemma_evolve_iter_step(v0, s0, m, n0, cr, mr, el, g as nat);
                assert(best_observed_spec(views_before, state_before, m, n0, cr, mr, el, left)
                    == vstd::math::min(
                    best_cost(views_before, m),
                    best_observed_spec(self.views(), self.rng_state(), m, n0, cr, mr, el,
                    (left - 1) as nat),
                ));
                lemma_best_observed_le_start(self.views(), self.rng_state(), m, n0, cr, mr, el,
                    (left - 1) as nat);
            }
            let gen_best = self.best(dist);
            if gen_best.1 < best_fitness {
                best_route = gen_best.0;
                best_fitness = gen_best.1;
            }
            g += 1;
        }
        proof {
            assert(best_observed_spec(self.views(), self.rng_state(), m, n0, cr, mr, el, 0nat)
                == best_cost(self.views(), m));
            lemma_best_observed_le_start(v0, s0, m, n0, cr, mr, el, generations as nat);
        }
        (best_route, best_fitness)
    }
}

} // verus!
