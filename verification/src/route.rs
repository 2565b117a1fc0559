//! One candidate tour and its permutation-preserving genetic operators.
//!
//! A [`Route`] owns an ordered list of node indices. Its two operators,
//! ordered crossover ([`Route::crossover`]) and swap mutation
//! ([`Route::mutate`]), both return a tour that is again a valid
//! permutation of `0..n`; the lemmas of this module prove that, along
//! with the boundary identities of the crossover and the self-inverse
//! law of the swap.

use vstd::prelude::*;
use crate::subsequence::Subsequence;

verus! {

/// One candidate tour: an ordered list of node indices.
pub struct Route {
    /// The visited nodes, in visiting order.
    pub indexes: Vec<usize>,
}

impl View for Route {
    type V = Seq<usize>;

    open spec fn view(&self) -> Seq<usize> {
        self.indexes@
    }
}

/// `s` visits each node of `0..n` exactly once.
pub open spec fn is_permutation(s: Seq<usize>, n: nat) -> bool {
    &&& s.len() == n
    &&& forall|k: int| 0 <= k < s.len() ==> (#[trigger] s[k]) < n
    &&& forall|v: usize| v < n ==> s.to_multiset().count(v) == 1
}

/// `s` with the elements at `a` and `b` exchanged.
pub open spec fn swap_spec(s: Seq<usize>, a: int, b: int) -> Seq<usize> {
    s.update(a, s[b]).update(b, s[a])
}

/// A sequence of distinct in-range values that holds every value of
/// `0..n` is a permutation.
pub proof fn lemma_is_permutation_from_distinct(s: Seq<usize>, n: nat)
    requires
        s.len() == n,
        forall|k: int| 0 <= k < s.len() ==> (#[trigger] s[k]) < n,
        s.no_duplicates(),
        forall|v: usize| v < n ==> s.contains(v),
    ensures
        is_permutation(s, n),
{
    s.lemma_multiset_has_no_duplicates();
    assert forall|v: usize| v < n implies s.to_multiset().count(v) == 1 by {
        vstd::seq_lib::to_multiset_contains(s, v);
        assert(s.to_multiset().count(v) > 0);
    }
}

/// Swapping two in-range positions of a permutation yields a permutation.
pub proof fn lemma_swap_preserves_permutation(s: Seq<usize>, a: int, b: int, n: nat)
    requires
        is_permutation(s, n),
        0 <= a < s.len(),
        0 <= b < s.len(),
    ensures
        is_permutation(swap_spec(s, a, b), n),
{
    let r = swap_spec(s, a, b);
    let s1 = s.update(a, s[b]);
    broadcast use vstd::seq_lib::group_to_multiset_ensures;
    broadcast use vstd::multiset::group_multiset_axioms;

    assert(s1.to_multiset() == s.to_multiset().insert(s[b]).remove(s[a]));
    assert(s1[b] == if a == b { s[b] } else { s[b] });
    assert(r.to_multiset() == s1.to_multiset().insert(s[a]).remove(s1[b]));
    assert(s.to_multiset().count(s[a]) > 0);
    assert(s.to_multiset().count(s[b]) > 0);
    assert forall|v: usize| v < n implies r.to_multiset().count(v) == 1 by {
        assert(s.to_multiset().count(v) == 1);
    }
}

/// Swapping a position with itself changes nothing.
pub proof fn lemma_swap_same(s: Seq<usize>, a: int)
    requires
        0 <= a < s.len(),
    ensures
        swap_spec(s, a, a) == s,
{
    assert(swap_spec(s, a, a) =~= s);
}

/// Swapping the same two positions twice restores the original tour.
pub proof fn lemma_swap_involution(s: Seq<usize>, a: int, b: int)
    requires
        0 <= a < s.len(),
        0 <= b < s.len(),
    ensures
        swap_spec(swap_spec(s, a, b), a, b) == s,
{
    assert(swap_spec(swap_spec(s, a, b), a, b) =~= s);
}

/// `s` rotated to start at position `k`.
pub open spec fn rotate_from(s: Seq<usize>, k: int) -> Seq<usize> {
    s.subrange(k, s.len() as int) + s.subrange(0, k)
}

/// Holds of the nodes that the span `p1[i..j]` does not already hold.
pub open spec fn ox_pred(p1: Seq<usize>, i: int, j: int) -> spec_fn(usize) -> bool {
    |x: usize| !p1.subrange(i, j).contains(x)
}

/// Holds of the nodes that the span `p1[i..j]` already holds.
pub open spec fn ox_in_span(p1: Seq<usize>, i: int, j: int) -> spec_fn(usize) -> bool {
    |x: usize| p1.subrange(i, j).contains(x)
}

/// The nodes that ordered crossover takes from the second parent: walk
/// `p2` from the position right after the span, wrapping around, and
/// keep, in the order met, the nodes the span does not already hold.
pub open spec fn ox_collected(p1: Seq<usize>, p2: Seq<usize>, i: int, j: int) -> Seq<usize> {
    rotate_from(p2, j).filter(ox_pred(p1, i, j))
}

/// The child that ordered crossover builds: positions `[i, j)` come from
/// `p1`; the remaining positions, walked from `j` on and wrapping around,
/// are filled with `ox_collected` in order.
pub open spec fn ox_child(p1: Seq<usize>, p2: Seq<usize>, i: int, j: int) -> Seq<usize> {
    Seq::new(
        p1.len(),
        |p: int|
            if i <= p < j {
                p1[p]
            } else if p >= j {
                ox_collected(p1, p2, i, j)[p - j]
            } else {
                ox_collected(p1, p2, i, j)[p + p1.len() - j]
            },
    )
}

/// Filtering after appending one element keeps the element exactly when
/// the predicate accepts it.
proof fn lemma_filter_push<A>(s: Seq<A>, pred: spec_fn(A) -> bool, x: A)
    ensures
        s.push(x).filter(pred) == if pred(x) {
            s.filter(pred).push(x)
        } else {
            s.filter(pred)
        },
{
    reveal(Seq::filter);
    assert(s.push(x).drop_last() =~= s);
    assert(s.push(x).last() == x);
}

/// How often a value occurs after filtering: as often as before if the
/// predicate accepts it, not at all otherwise.
proof fn lemma_filter_count<A>(s: Seq<A>, pred: spec_fn(A) -> bool, v: A)
    ensures
        s.filter(pred).to_multiset().count(v) == if pred(v) {
            s.to_multiset().count(v)
        } else {
            0
        },
    decreases s.len(),
{
    broadcast use vstd::seq_lib::group_to_multiset_ensures;
    broadcast use vstd::multiset::group_multiset_axioms;

    reveal(Seq::filter);
    if s.len() == 0 {
        assert(!s.contains(v));
        assert(!s.filter(pred).contains(v)) by {
            assert(s.filter(pred).len() == 0);
        }
    } else {
        let d = s.drop_last();
        lemma_filter_count(d, pred, v);
        assert(s =~= d.push(s.last()));
        assert(s.to_multiset() == d.push(s.last()).to_multiset());
        lemma_filter_push(d, pred, s.last());
        assert(d.push(s.last()).filter(pred) == s.filter(pred));
    }
}

/// A predicate and its negation split a sequence in two.
proof fn lemma_filter_split_len<A>(s: Seq<A>, p: spec_fn(A) -> bool, q: spec_fn(A) -> bool)
    requires
        forall|x: A| #[trigger] q(x) <==> !p(x),
    ensures
        s.filter(p).len() + s.filter(q).len() == s.len(),
    decreases s.len(),
{
    if s.len() == 0 {
        reveal(Seq::filter);
    } else {
        let d = s.drop_last();
        lemma_filter_split_len(d, p, q);
        assert(s =~= d.push(s.last()));
        lemma_filter_push(d, p, s.last());
        lemma_filter_push(d, q, s.last());
        assert(d.push(s.last()).filter(p) == s.filter(p));
        assert(d.push(s.last()).filter(q) == s.filter(q));
    }
}

/// Filtering with a predicate that accepts every element changes nothing.
proof fn lemma_filter_all_pos<A>(s: Seq<A>, pred: spec_fn(A) -> bool)
    requires
        forall|k: int| 0 <= k < s.len() ==> pred(#[trigger] s[k]),
    ensures
        s.filter(pred) == s,
    decreases s.len(),
{
    reveal(Seq::filter);
    if s.len() > 0 {
        let d = s.drop_last();
        lemma_filter_all_pos(d, pred);
        assert(s =~= d.push(s.last()));
        lemma_filter_push(d, pred, s.last());
        assert(d.push(s.last()).filter(pred) == s.filter(pred));
        assert(s.filter(pred) =~= s);
    }
}

/// Filtering with a predicate that rejects every element leaves nothing.
proof fn lemma_filter_all_neg<A>(s: Seq<A>, pred: spec_fn(A) -> bool)
    requires
        forall|k: int| 0 <= k < s.len() ==> !pred(#[trigger] s[k]),
    ensures
        s.filter(pred) == Seq::<A>::empty(),
    decreases s.len(),
{
    reveal(Seq::filter);
    if s.len() > 0 {
        let d = s.drop_last();
        lemma_filter_all_neg(d, pred);
        assert(s =~= d.push(s.last()));
        lemma_filter_push(d, pred, s.last());
        assert(d.push(s.last()).filter(pred) == s.filter(pred));
    }
}

/// Rotating a tour keeps what it holds, and how often.
proof fn lemma_rotate_multiset(s: Seq<usize>, k: int)
    requires
        0 <= k <= s.len(),
    ensures
        rotate_from(s, k).len() == s.len(),
        rotate_from(s, k).to_multiset() == s.to_multiset(),
{
    let a = s.subrange(0, k);
    let b = s.subrange(k, s.len() as int);
    assert(s =~= a + b);
    vstd::seq_lib::lemma_multiset_commutative(a, b);
    vstd::seq_lib::lemma_multiset_commutative(b, a);
    broadcast use vstd::multiset::group_multiset_axioms;

    assert(a.to_multiset().add(b.to_multiset()) =~= b.to_multiset().add(a.to_multiset()));
}

/// The crossover span of a permutation holds each of its nodes once.
proof fn lemma_span_counts(p1: Seq<usize>, i: int, j: int, n: nat)
    requires
        is_permutation(p1, n),
        0 <= i <= j <= p1.len(),
    ensures
        forall|v: usize|
            #[trigger] p1.subrange(i, j).to_multiset().count(v) == if p1.subrange(i, j).contains(v) {
                1int
            } else {
                0int
            },
{
    broadcast use vstd::seq_lib::group_to_multiset_ensures;
    broadcast use vstd::multiset::group_multiset_axioms;

    let w = p1.subrange(i, j);
    let pre = p1.subrange(0, i);
    let post = p1.subrange(j, p1.len() as int);
    assert(p1 =~= (pre + w) + post);
    vstd::seq_lib::lemma_multiset_commutative(pre + w, post);
    vstd::seq_lib::lemma_multiset_commutative(pre, w);
    assert forall|v: usize|
        #[trigger] w.to_multiset().count(v) == if w.contains(v) {
            1int
        } else {
            0int
        } by {
        if w.contains(v) {
            let k = choose|k: int| 0 <= k < w.len() && w[k] == v;
            assert(p1[i + k] == v);
            assert(v < n);
            assert(p1.to_multiset().count(v) == 1);
            assert(p1.to_multiset().count(v) == pre.to_multiset().count(v)
                + w.to_multiset().count(v) + post.to_multiset().count(v));
            assert(w.to_multiset().count(v) > 0);
        }
    }
}

/// Ordered crossover yields a valid permutation, and collects exactly
/// the number of nodes that the span leaves open.
pub proof fn lemma_ox_preserves_permutation(p1: Seq<usize>, p2: Seq<usize>, i: int, j: int)
    requires
        is_permutation(p1, p1.len()),
        is_permutation(p2, p1.len()),
        0 <= i <= j <= p1.len(),
    ensures
        ox_collected(p1, p2, i, j).len() == p1.len() - (j - i),
        is_permutation(ox_child(p1, p2, i, j), p1.len()),
{
    broadcast use vstd::seq_lib::group_to_multiset_ensures;
    broadcast use vstd::multiset::group_multiset_axioms;

    let n = p1.len() as int;
    let w = p1.subrange(i, j);
    let rot = rotate_from(p2, j);
    let keep = ox_pred(p1, i, j);
    let drop = ox_in_span(p1, i, j);
    let kept = ox_collected(p1, p2, i, j);
    let dropped = rot.filter(drop);

    lemma_rotate_multiset(p2, j);
    assert(rot.len() == n);
    assert(forall|v: usize| v < n ==> rot.to_multiset().count(v) == 1);

    lemma_span_counts(p1, i, j, p1.len());

    // What the span drops from the walk is exactly the span itself.
    assert(dropped.to_multiset() =~= w.to_multiset()) by {
        assert forall|v: usize| #[trigger] dropped.to_multiset().count(v) == w.to_multiset().count(
            v,
        ) by {
            lemma_filter_count(rot, drop, v);
            if w.contains(v) {
                let k = choose|k: int| 0 <= k < w.len() && w[k] == v;
                assert(p1[i + k] == v);
                assert(v < n);
                assert(drop(v));
                assert(rot.to_multiset().count(v) == 1);
            } else {
                assert(!drop(v));
            }
        }
    }
    assert(dropped.len() == w.len()) by {
        vstd::seq_lib::to_multiset_len(dropped);
        vstd::seq_lib::to_multiset_len(w);
    }
    assert(forall|x: usize| #[trigger] keep(x) <==> !drop(x));
    lemma_filter_split_len(rot, drop, keep);
    assert(kept.len() == n - (j - i));

    // Counts of the kept nodes.
    assert forall|v: usize| v < p1.len() implies #[trigger] kept.to_multiset().count(v) == if w
        .contains(v) {
        0int
    } else {
        1int
    } by {
        lemma_filter_count(rot, keep, v);
    }

    // The child is the kept tail, the span, and the kept head, in order.
    let c = ox_child(p1, p2, i, j);
    let tail_len = n - j;
    let head = kept.subrange(tail_len, kept.len() as int);
    let tail = kept.subrange(0, tail_len);
    assert(head.len() == i);
    assert(c =~= (head + w) + tail);
    vstd::seq_lib::lemma_multiset_commutative(head + w, tail);
    vstd::seq_lib::lemma_multiset_commutative(head, w);
    assert(kept =~= tail + head);
    vstd::seq_lib::lemma_multiset_commutative(tail, head);
    assert forall|v: usize| v < p1.len() implies #[trigger] c.to_multiset().count(v) == 1 by {
        assert(c.to_multiset().count(v) == head.to_multiset().count(v) + w.to_multiset().count(v)
            + tail.to_multiset().count(v));
        assert(kept.to_multiset().count(v) == tail.to_multiset().count(v)
            + head.to_multiset().count(v));
    }

    // Every element of the child is in range.
    assert forall|k: int| 0 <= k < c.len() implies (#[trigger] c[k]) < p1.len() by {
        if i <= k < j {
            assert(c[k] == p1[k]);
        } else {
            let x = c[k];
            assert(kept.contains(x)) by {
                if k >= j {
                    assert(kept[k - j] == x);
                } else {
                    assert(kept[k + n - j] == x);
                }
            }
            assert(kept.to_multiset().count(x) > 0);
            lemma_filter_count(rot, keep, x);
            assert(rot.to_multiset().count(x) > 0);
            assert(rot.contains(x));
            let t = choose|t: int| 0 <= t < rot.len() && rot[t] == x;
            assert(x < p1.len()) by {
                if t < n - j {
                    assert(rot[t] == p2[j + t]);
                } else {
                    assert(rot[t] == p2[t - (n - j)]);
                }
            }
        }
    }
}

/// With the span covering the whole tour, the child is the first parent.
pub proof fn lemma_ox_full_span(p1: Seq<usize>, p2: Seq<usize>)
    requires
        is_permutation(p1, p1.len()),
        is_permutation(p2, p1.len()),
    ensures
        ox_child(p1, p2, 0, p1.len() as int) == p1,
{
    broadcast use vstd::seq_lib::group_to_multiset_ensures;

    let n = p1.len() as int;
    let rot = rotate_from(p2, n);
    let keep = ox_pred(p1, 0, n);
    assert(p1.subrange(0, n) =~= p1);
    assert forall|k: int| 0 <= k < rot.len() implies !keep(#[trigger] rot[k]) by {
        lemma_rotate_multiset(p2, n);
        let x = rot[k];
        assert(rot.to_multiset().count(x) > 0);
        assert(p2.to_multiset().count(x) > 0);
        assert(p2.contains(x));
        assert(x < p1.len());
        assert(p1.to_multiset().count(x) == 1);
        assert(p1.contains(x));
    }
    lemma_filter_all_neg(rot, keep);
    assert(ox_child(p1, p2, 0, n) =~= p1);
}

/// With an empty span, the child is the second parent: the walk starts
/// right after the cut, and the fill starts there too, so each node
/// lands back on its own position.
pub proof fn lemma_ox_empty_span(p1: Seq<usize>, p2: Seq<usize>, i: int)
    requires
        is_permutation(p1, p1.len()),
        is_permutation(p2, p1.len()),
        0 <= i <= p1.len(),
    ensures
        ox_child(p1, p2, i, i) == p2,
{
    let n = p1.len() as int;
    let rot = rotate_from(p2, i);
    let keep = ox_pred(p1, i, i);
    assert(p1.subrange(i, i).len() == 0);
    assert forall|k: int| 0 <= k < rot.len() implies keep(#[trigger] rot[k]) by {
        assert(!p1.subrange(i, i).contains(rot[k]));
    }
    lemma_filter_all_pos(rot, keep);
    assert(ox_child(p1, p2, i, i) =~= p2);
}

impl Route {
    /// A route over the given list of node indices.
    pub fn new(indexes: Vec<usize>) -> (r: Route)
        ensures
            r@ == indexes@,
    {
        Route { indexes }
    }

    /// An identical copy of this route.
    pub fn duplicate(&self) -> (r: Route)
        ensures
            r@ == self@,
    {
        let mut v: Vec<usize> = Vec::new();
        let mut k: usize = 0;
        while k < self.indexes.len()
            invariant
                k <= self@.len(),
                v@ == self@.take(k as int),
            decreases self@.len() - k,
        {
            v.push(self.indexes[k]);
            k += 1;
            proof {
                assert(self@.take(k as int) =~= self@.take(k - 1).push(self@[k - 1]));
            }
        }
        proof {
            assert(self@.take(self@.len() as int) =~= self@);
        }
        Route { indexes: v }
    }

    /// Swap mutation: the tour with the elements at `pos_a` and `pos_b`
    /// exchanged. A permutation stays a permutation
    /// (`lemma_swap_preserves_permutation`); swapping a position with
    /// itself is a no-op (`lemma_swap_same`), and repeating a swap
    /// restores the tour (`lemma_swap_involution`).
    pub fn mutate(&self, pos_a: usize, pos_b: usize) -> (r: Route)
        requires
            pos_a < self@.len(),
            pos_b < self@.len(),
        ensures
            r@ == swap_spec(self@, pos_a as int, pos_b as int),
    {
        let mut v = self.duplicate().indexes;
        let va = v[pos_a];
        let vb = v[pos_b];
        v.set(pos_a, vb);
        v.set(pos_b, va);
        Route { indexes: v }
    }

    /// Ordered crossover: the child keeps `self`'s span `[cut_i, cut_j)`
    /// verbatim and fills the remaining positions, walked from `cut_j`
    /// on and wrapping around, with `other`'s remaining nodes in the
    /// order met. The child is always a valid permutation
    /// (`lemma_ox_preserves_permutation`); the boundary cases are the
    /// first parent (`lemma_ox_full_span`) and the second
    /// (`lemma_ox_empty_span`).
    #[verifier::loop_isolation(false)]
    pub fn crossover(&self, other: &Route, cut_i: usize, cut_j: usize) -> (child: Route)
        requires
            is_permutation(self@, self@.len()),
            is_permutation(other@, self@.len()),
            cut_i <= cut_j,
            cut_j <= self@.len(),
        ensures
            child@ == ox_child(self@, other@, cut_i as int, cut_j as int),
            is_permutation(child@, self@.len()),
    {
        let n = self.indexes.len();
        let span = Subsequence::new(cut_i, cut_j);
        let ghost rot = rotate_from(other@, cut_j as int);
        let ghost keep = ox_pred(self@, cut_i as int, cut_j as int);

        let mut collected: Vec<usize> = Vec::new();
        let mut t: usize = 0;
        while t < n
            invariant
                t <= n,
                collected@ == rot.take(t as int).filter(keep),
            decreases n - t,
        {
            let idx = if t < n - cut_j {
                cut_j + t
            } else {
                t - (n - cut_j)
            };
            let x = other.indexes[idx];
            proof {
                assert(rot.len() == n);
                assert(rot[t as int] == other@[idx as int]);
                assert(rot.take(t + 1) =~= rot.take(t as int).push(x));
                lemma_filter_push(rot.take(t as int), keep, x);
            }
            if !span.within_contains(&self.indexes, x) {
                collected.push(x);
            }
            t += 1;
        }
        proof {
            assert(rot.take(n as int) =~= rot);
            lemma_ox_preserves_permutation(self@, other@, cut_i as int, cut_j as int);
        }

        let mut child = self.duplicate().indexes;
        let m = collected.len();
        let mut k: usize = 0;
        while k < m
            invariant
                k <= m,
                child@.len() == n,
                forall|p: int| cut_i <= p < cut_j ==> #[trigger] child@[p] == self@[p],
                forall|t2: int|
                    0 <= t2 < k ==> #[trigger] child@[wrap_pos(n as int, cut_j as int, t2)]
                        == collected@[t2],
            decreases m - k,
        {
            let pos = if k < n - cut_j {
                cut_j + k
            } else {
                k - (n - cut_j)
            };
            proof {
                assert(pos == wrap_pos(n as int, cut_j as int, k as int));
                assert(pos < n);
            }
            child.set(pos, collected[k]);
            k += 1;
        }
        proof {
            let c = ox_child(self@, other@, cut_i as int, cut_j as int);
            assert forall|p: int| 0 <= p < n implies child@[p] == c[p] by {
                if cut_i <= p < cut_j {
                } else if p >= cut_j {
                    assert(wrap_pos(n as int, cut_j as int, p - cut_j) == p);
                    assert(child@[p] == collected@[p - cut_j]);
                } else {
                    assert(wrap_pos(n as int, cut_j as int, p + n - cut_j) == p);
                    assert(child@[p] == collected@[p + n - cut_j]);
                }
            }
            assert(child@ =~= c);
        }
        Route { indexes: child }
    }
}

/// The position that the `t`-th collected node fills: counting from `j`
/// on and wrapping around to the start.
pub open spec fn wrap_pos(n: int, j: int, t: int) -> int {
    if t < n - j {
        j + t
    } else {
        t - (n - j)
    }
}

} // verus!
