//! Sums over lanes are sums: in which order they are taken changes nothing where
//! arithmetic loses nothing.

use crate::amount::Amount;
use crate::lanes::{eight_summed, folded, in_turn, lemma_folded_len, pairs_summed};
use vstd::prelude::*;

verus! {

/// Sums are the same in either order.
#[verifier::opaque]
pub open spec fn sums_commute<A: Amount>() -> bool {
    forall|a: A, b: A| #[trigger] a.plus_spec(b) == b.plus_spec(a)
}

/// Sums of three are the same whichever two are added first.
#[verifier::opaque]
pub open spec fn sums_associate<A: Amount>() -> bool {
    forall|a: A, b: A, c: A| #[trigger]
        a.plus_spec(b).plus_spec(c) == a.plus_spec(b.plus_spec(c))
}

/// Nothing added changes nothing.
#[verifier::opaque]
pub open spec fn zero_is_neutral<A: Amount>() -> bool {
    forall|a: A| #[trigger] a.plus_spec(A::zero_spec()) == a
}

/// What was taken away can be added again.
#[verifier::opaque]
pub open spec fn differences_undo<A: Amount>() -> bool {
    forall|a: A, b: A| #[trigger] a.minus_spec(b).plus_spec(b) == a
}

/// Products are the same in either order.
#[verifier::opaque]
pub open spec fn products_commute<A: Amount>() -> bool {
    forall|a: A, b: A| #[trigger] a.times_spec(b) == b.times_spec(a)
}

/// Products of three are the same whichever two are multiplied first.
#[verifier::opaque]
pub open spec fn products_associate<A: Amount>() -> bool {
    forall|a: A, b: A, c: A| #[trigger]
        a.times_spec(b).times_spec(c) == a.times_spec(b.times_spec(c))
}

/// A factor of a sum is one of each summand.
#[verifier::opaque]
pub open spec fn products_distribute<A: Amount>() -> bool {
    forall|a: A, b: A, c: A| #[trigger]
        a.times_spec(b.plus_spec(c)) == a.times_spec(b).plus_spec(a.times_spec(c))
}

/// A product with something added is no more than that.
#[verifier::opaque]
pub open spec fn fuses_plainly<A: Amount>() -> bool {
    forall|a: A, b: A, c: A| #[trigger]
        a.fused_spec(b, c) == a.times_spec(b).plus_spec(c)
}

/// Arithmetic of a ring: what numbers do that lose nothing to rounding.
pub open spec fn exact<A: Amount>() -> bool {
    &&& sums_commute::<A>()
    &&& sums_associate::<A>()
    &&& zero_is_neutral::<A>()
    &&& differences_undo::<A>()
    &&& products_commute::<A>()
    &&& products_associate::<A>()
    &&& products_distribute::<A>()
    &&& fuses_plainly::<A>()
}

pub proof fn lemma_sum_swaps<A: Amount>(a: A, b: A)
    requires
        exact::<A>(),
    ensures
        a.plus_spec(b) == b.plus_spec(a),
{
    reveal(sums_commute);
}

pub proof fn lemma_sum_regroups<A: Amount>(a: A, b: A, c: A)
    requires
        exact::<A>(),
    ensures
        a.plus_spec(b).plus_spec(c) == a.plus_spec(b.plus_spec(c)),
{
    reveal(sums_associate);
}

pub proof fn lemma_plus_nothing<A: Amount>(a: A)
    requires
        exact::<A>(),
    ensures
        a.plus_spec(A::zero_spec()) == a,
        A::zero_spec().plus_spec(a) == a,
{
    reveal(zero_is_neutral);
    lemma_sum_swaps(A::zero_spec(), a);
}

pub proof fn lemma_difference_undone<A: Amount>(a: A, b: A)
    requires
        exact::<A>(),
    ensures
        a.minus_spec(b).plus_spec(b) == a,
{
    reveal(differences_undo);
}

pub proof fn lemma_product_swaps<A: Amount>(a: A, b: A)
    requires
        exact::<A>(),
    ensures
        a.times_spec(b) == b.times_spec(a),
{
    reveal(products_commute);
}

pub proof fn lemma_product_regroups<A: Amount>(a: A, b: A, c: A)
    requires
        exact::<A>(),
    ensures
        a.times_spec(b).times_spec(c) == a.times_spec(b.times_spec(c)),
{
    reveal(products_associate);
}

pub proof fn lemma_distributes<A: Amount>(a: A, b: A, c: A)
    requires
        exact::<A>(),
    ensures
        a.times_spec(b.plus_spec(c)) == a.times_spec(b).plus_spec(a.times_spec(c)),
{
    reveal(products_distribute);
}

pub proof fn lemma_fuses<A: Amount>(a: A, b: A, c: A)
    requires
        exact::<A>(),
    ensures
        a.fused_spec(b, c) == a.times_spec(b).plus_spec(c),
        a.fused_spec(b, c) == c.plus_spec(a.times_spec(b)),
{
    reveal(fuses_plainly);
    lemma_sum_swaps(a.times_spec(b), c);
}

/// The sum of the leading `n` terms, one after the other.
pub open spec fn plain_sum<A: Amount>(term: spec_fn(int) -> A, n: int) -> A
    decreases n,
{
    if n <= 0 {
        A::zero_spec()
    } else {
        plain_sum(term, n - 1).plus_spec(term(n - 1))
    }
}

/// In a ring a sum can be cancelled.
pub proof fn lemma_cancels<A: Amount>(a: A, b: A, c: A)
    requires
        exact::<A>(),
        a.plus_spec(c) == b.plus_spec(c),
    ensures
        a == b,
{
    let d = A::zero_spec().minus_spec(c);
    lemma_difference_undone(A::zero_spec(), c);
    lemma_sum_swaps(d, c);
    lemma_sum_regroups(a, c, d);
    lemma_sum_regroups(b, c, d);
    lemma_plus_nothing(a);
    lemma_plus_nothing(b);
}

/// In a ring nothing times anything is nothing.
pub proof fn lemma_times_zero<A: Amount>(a: A)
    requires
        exact::<A>(),
    ensures
        a.times_spec(A::zero_spec()) == A::zero_spec(),
        A::zero_spec().times_spec(a) == A::zero_spec(),
{
    let zero = A::zero_spec();
    let p = a.times_spec(zero);
    lemma_plus_nothing(zero);
    lemma_distributes(a, zero, zero);
    lemma_plus_nothing(p);
    lemma_cancels(p, zero, p);
    lemma_product_swaps(a, zero);
}

/// In a ring an amount less itself is nothing.
pub proof fn lemma_minus_itself<A: Amount>(a: A)
    requires
        exact::<A>(),
    ensures
        a.minus_spec(a) == A::zero_spec(),
{
    lemma_difference_undone(a, a);
    lemma_plus_nothing(a);
    lemma_cancels(a.minus_spec(a), A::zero_spec(), a);
}

/// In a ring a difference scales as a whole.
pub proof fn lemma_scaled_difference<A: Amount>(f: A, a: A, b: A)
    requires
        exact::<A>(),
    ensures
        f.times_spec(a.minus_spec(b)) == f.times_spec(a).minus_spec(f.times_spec(b)),
{
    let d = a.minus_spec(b);
    lemma_difference_undone(a, b);
    lemma_distributes(f, d, b);
    lemma_difference_undone(f.times_spec(a), f.times_spec(b));
    lemma_cancels(
        f.times_spec(d),
        f.times_spec(a).minus_spec(f.times_spec(b)),
        f.times_spec(b),
    );
}

proof fn lemma_late<A: Amount>(x: A, y: A, t: A)
    requires
        exact::<A>(),
    ensures
        x.plus_spec(t).plus_spec(y) == x.plus_spec(y).plus_spec(t),
        x.plus_spec(y.plus_spec(t)) == x.plus_spec(y).plus_spec(t),
{
    lemma_sum_regroups(x, y, t);
    lemma_sum_regroups(x, t, y);
    lemma_sum_swaps(t, y);
}

proof fn lemma_lane_grows<A: Amount>(v: Seq<A>, l: int, t: A)
    requires
        exact::<A>(),
        v.len() == 8,
        0 <= l < 8,
    ensures
        eight_summed(v.update(l, v[l].plus_spec(t))) == eight_summed(v).plus_spec(t),
        pairs_summed(v.update(l, v[l].plus_spec(t))) == pairs_summed(v).plus_spec(t),
{
    let (a, b, c, d) = (
        v[0].plus_spec(v[4]),
        v[1].plus_spec(v[5]),
        v[2].plus_spec(v[6]),
        v[3].plus_spec(v[7]),
    );
    lemma_late(v[0], v[4], t);
    lemma_late(v[1], v[5], t);
    lemma_late(v[2], v[6], t);
    lemma_late(v[3], v[7], t);
    lemma_late(a, b, t);
    lemma_late(c, d, t);
    lemma_late(a.plus_spec(b), c.plus_spec(d), t);
    let (e, f, g, h) = (
        v[0].plus_spec(v[1]),
        v[2].plus_spec(v[3]),
        v[4].plus_spec(v[5]),
        v[6].plus_spec(v[7]),
    );
    lemma_late(v[0], v[1], t);
    lemma_late(v[2], v[3], t);
    lemma_late(v[4], v[5], t);
    lemma_late(v[6], v[7], t);
    lemma_late(e, f, t);
    lemma_late(g, h, t);
    lemma_late(e.plus_spec(f), g.plus_spec(h), t);
}

/// A sum spread over eight lanes is the sum of its terms, however the lanes are added
/// up in the end.
pub proof fn law_lanes_hold_the_sum<A: Amount>(
    step: spec_fn(int, A) -> A,
    term: spec_fn(int) -> A,
    n: int,
)
    requires
        exact::<A>(),
        0 <= n,
        forall|i: int, a: A| 0 <= i < n ==> #[trigger] step(i, a) == a.plus_spec(term(i)),
    ensures
        eight_summed(folded(8, in_turn(8), step, n)) == plain_sum(term, n),
        pairs_summed(folded(8, in_turn(8), step, n)) == plain_sum(term, n),
    decreases n,
{
    let zero = A::zero_spec();
    if n > 0 {
        law_lanes_hold_the_sum(step, term, n - 1);
        lemma_folded_len(8, in_turn(8), step, n - 1);
        let before = folded(8, in_turn(8), step, n - 1);
        let l = (n - 1) % 8;
        assert(step(n - 1, before[l]) == before[l].plus_spec(term(n - 1)));
        lemma_lane_grows(before, l, term(n - 1));
    } else {
        lemma_plus_nothing(zero);
    }
}

/// Terms that agree have the same sum.
pub proof fn lemma_same_terms<A: Amount>(f: spec_fn(int) -> A, g: spec_fn(int) -> A, n: int)
    requires
        forall|i: int| 0 <= i < n ==> #[trigger] f(i) == g(i),
    ensures
        plain_sum(f, n) == plain_sum(g, n),
    decreases n,
{
    if n > 0 {
        lemma_same_terms(f, g, n - 1);
        assert(f(n - 1) == g(n - 1));
    }
}

/// A factor that all terms share can be taken out of their sum.
pub proof fn law_sums_scale<A: Amount>(
    f: spec_fn(int) -> A,
    g: spec_fn(int) -> A,
    factor: A,
    n: int,
)
    requires
        exact::<A>(),
        forall|i: int| 0 <= i < n ==> #[trigger] g(i) == factor.times_spec(f(i)),
    ensures
        plain_sum(g, n) == factor.times_spec(plain_sum(f, n)),
    decreases n,
{
    if n > 0 {
        law_sums_scale(f, g, factor, n - 1);
        assert(g(n - 1) == factor.times_spec(f(n - 1)));
        lemma_distributes(factor, plain_sum(f, n - 1), f(n - 1));
    } else {
        lemma_times_zero(factor);
    }
}

} // verus!
