//! What predicting chroma from luma is for: the fit finds the factor that chroma
//! follows luma with, and costs nothing where chroma is predicted.

use crate::adaptive_quant::magnitude_spec;
use crate::amount::{truncated_quotient, Amount, Fixed, FIXED_ONE};
use crate::cfl::{
    bits_step, coded_level, dequantized, dot_step, error_step, loop_bits, loop_error, predictor,
    product_b_step, product_x_step, rounded_away, size_step, square_step, QuantBias,
};
use crate::lanes::{eight_summed, empty_lanes, folded, in_turn, pairs_summed};
use crate::sum_laws::{
    exact, law_lanes_hold_the_sum, law_sums_scale, lemma_cancels, lemma_difference_undone,
    lemma_fuses, lemma_product_regroups, lemma_product_swaps, lemma_scaled_difference,
    lemma_sum_swaps, lemma_times_zero, plain_sum,
};
use vstd::prelude::*;

verus! {

/// The sums of a regression over exact numbers: with luma and chroma in units of the
/// chroma quantizer, the squares of an 84th of luma, what is left of an 84th of luma
/// times the first chroma plane when that is taken away, and an 84th of luma times what
/// luma is more than the third plane.
pub proof fn law_regression_sums_the_products<A: Amount>(
    y: Seq<A>,
    x: Seq<A>,
    b: Seq<A>,
    qm: Seq<A>,
)
    requires
        exact::<A>(),
    ensures
        ({
            let part = A::ratio_spec(1, 84);
            pairs_summed(folded(8, in_turn(8), square_step(y, qm), 64)) == plain_sum(
                |i: int|
                    part.times_spec(y[i].times_spec(qm[i])).times_spec(
                        part.times_spec(y[i].times_spec(qm[i])),
                    ),
                64,
            )
        }),
        ({
            let part = A::ratio_spec(1, 84);
            pairs_summed(folded(8, in_turn(8), product_x_step(y, x, qm), 64)) == plain_sum(
                |i: int|
                    A::zero_spec().minus_spec(
                        part.times_spec(y[i].times_spec(qm[i])),
                    ).times_spec(x[i].times_spec(qm[i])),
                64,
            )
        }),
        ({
            let part = A::ratio_spec(1, 84);
            pairs_summed(folded(8, in_turn(8), product_b_step(y, b, qm), 64)) == plain_sum(
                |i: int|
                    part.times_spec(y[i].times_spec(qm[i])).times_spec(
                        y[i].times_spec(qm[i]).minus_spec(b[i].times_spec(qm[i])),
                    ),
                64,
            )
        }),
{
    let part = A::ratio_spec(1, 84);
    let f = square_step(y, qm);
    let t = |i: int|
        part.times_spec(y[i].times_spec(qm[i])).times_spec(
            part.times_spec(y[i].times_spec(qm[i])),
        );
    assert forall|i: int, a: A| 0 <= i < 64 implies #[trigger] f(i, a) == a.plus_spec(t(i)) by {
        lemma_fuses(predictor(y, qm, i), predictor(y, qm, i), a);
    }
    law_lanes_hold_the_sum(f, t, 64);
    let f = product_x_step(y, x, qm);
    let t = |i: int|
        A::zero_spec().minus_spec(part.times_spec(y[i].times_spec(qm[i]))).times_spec(
            x[i].times_spec(qm[i]),
        );
    assert forall|i: int, a: A| 0 <= i < 64 implies #[trigger] f(i, a) == a.plus_spec(t(i)) by {
        lemma_fuses(
            A::zero_spec().minus_spec(predictor(y, qm, i)),
            x[i].times_spec(qm[i]),
            a,
        );
    }
    law_lanes_hold_the_sum(f, t, 64);
    let f = product_b_step(y, b, qm);
    let t = |i: int|
        part.times_spec(y[i].times_spec(qm[i])).times_spec(
            y[i].times_spec(qm[i]).minus_spec(b[i].times_spec(qm[i])),
        );
    assert forall|i: int, a: A| 0 <= i < 64 implies #[trigger] f(i, a) == a.plus_spec(t(i)) by {
        lemma_fuses(
            predictor(y, qm, i),
            y[i].times_spec(qm[i]).minus_spec(b[i].times_spec(qm[i])),
            a,
        );
    }
    law_lanes_hold_the_sum(f, t, 64);
}

/// Over exact numbers the regression finds the factor: where the first chroma plane is
/// `factor` 84ths of luma and the third is luma less as much, the products are the
/// squares times the factor, taken away and added.
pub proof fn law_regression_finds_the_factor<A: Amount>(
    y: Seq<A>,
    x: Seq<A>,
    b: Seq<A>,
    qm: Seq<A>,
    factor: A,
)
    requires
        exact::<A>(),
        forall|i: int|
            0 <= i < 64 ==> #[trigger] x[i] == factor.times_spec(
                A::ratio_spec(1, 84).times_spec(y[i]),
            ),
        forall|i: int|
            0 <= i < 64 ==> #[trigger] b[i] == y[i].minus_spec(
                factor.times_spec(A::ratio_spec(1, 84).times_spec(y[i])),
            ),
    ensures
        ({
            let square = pairs_summed(folded(8, in_turn(8), square_step(y, qm), 64));
            let product_x = pairs_summed(folded(8, in_turn(8), product_x_step(y, x, qm), 64));
            let product_b = pairs_summed(folded(8, in_turn(8), product_b_step(y, b, qm), 64));
            &&& product_x.plus_spec(factor.times_spec(square)) == A::zero_spec()
            &&& product_b == factor.times_spec(square)
        }),
{
    let part = A::ratio_spec(1, 84);
    let zero = A::zero_spec();
    law_regression_sums_the_products(y, x, b, qm);
    let squares = |i: int|
        part.times_spec(y[i].times_spec(qm[i])).times_spec(
            part.times_spec(y[i].times_spec(qm[i])),
        );
    let minus = zero.minus_spec(factor);
    let g = |i: int|
        zero.minus_spec(part.times_spec(y[i].times_spec(qm[i]))).times_spec(
            x[i].times_spec(qm[i]),
        );
    assert forall|i: int| 0 <= i < 64 implies #[trigger] g(i) == minus.times_spec(squares(i)) by {
        lemma_follows(y[i], qm[i], factor);
        let p = part.times_spec(y[i].times_spec(qm[i]));
        assert(x[i] == factor.times_spec(part.times_spec(y[i])));
        let fp = factor.times_spec(p);
        assert(x[i].times_spec(qm[i]) == fp);
        // (0 - p) * (f * p) == (0 - f) * (p * p)
        lemma_negated_product(p, fp);
        lemma_negated_product(factor, p.times_spec(p));
        lemma_product_swaps(p, fp);
        lemma_product_regroups(factor, p, p);
    }
    law_sums_scale(squares, g, minus, 64);
    let square = plain_sum(squares, 64);
    lemma_negated_product(factor, square);
    lemma_difference_undone(zero, factor.times_spec(square));
    let h = |i: int|
        part.times_spec(y[i].times_spec(qm[i])).times_spec(
            y[i].times_spec(qm[i]).minus_spec(b[i].times_spec(qm[i])),
        );
    assert forall|i: int| 0 <= i < 64 implies #[trigger] h(i) == factor.times_spec(squares(i)) by {
        lemma_follows(y[i], qm[i], factor);
        let p = part.times_spec(y[i].times_spec(qm[i]));
        let m = y[i].times_spec(qm[i]);
        let follows = factor.times_spec(part.times_spec(y[i]));
        assert(b[i] == y[i].minus_spec(follows));
        lemma_product_swaps(b[i], qm[i]);
        lemma_scaled_difference(qm[i], y[i], follows);
        lemma_product_swaps(qm[i], y[i]);
        lemma_product_swaps(qm[i], follows);
        let fp = factor.times_spec(p);
        assert(b[i].times_spec(qm[i]) == m.minus_spec(fp));
        lemma_rest_of_rest(m, fp);
        lemma_product_swaps(p, fp);
        lemma_product_regroups(factor, p, p);
    }
    law_sums_scale(squares, h, factor, 64);
}

proof fn lemma_follows<A: Amount>(y: A, q: A, factor: A)
    requires
        exact::<A>(),
    ensures
        factor.times_spec(A::ratio_spec(1, 84).times_spec(y)).times_spec(q) == factor.times_spec(
            A::ratio_spec(1, 84).times_spec(y.times_spec(q)),
        ),
{
    let part = A::ratio_spec(1, 84);
    lemma_product_regroups(factor, part.times_spec(y), q);
    lemma_product_regroups(part, y, q);
}

proof fn lemma_negated_product<A: Amount>(a: A, b: A)
    requires
        exact::<A>(),
    ensures
        A::zero_spec().minus_spec(a).times_spec(b) == A::zero_spec().minus_spec(a.times_spec(b)),
{
    let zero = A::zero_spec();
    lemma_product_swaps(zero.minus_spec(a), b);
    lemma_scaled_difference(b, zero, a);
    lemma_times_zero(b);
    lemma_product_swaps(b, a);
}

proof fn lemma_rest_of_rest<A: Amount>(m: A, d: A)
    requires
        exact::<A>(),
    ensures
        m.minus_spec(m.minus_spec(d)) == d,
{
    let r = m.minus_spec(d);
    lemma_difference_undone(m, r);
    lemma_difference_undone(m, d);
    lemma_sum_swaps(r, d);
    lemma_cancels(m.minus_spec(r), d, r);
}

/// No lane holds anything.
spec fn all_empty(v: Seq<Fixed>) -> bool {
    v.len() == 8 && forall|l: int| 0 <= l < 8 ==> (#[trigger] v[l]).raw == 0
}

proof fn lemma_nothing_folds_to_nothing(step: spec_fn(int, Fixed) -> Fixed, n: int)
    requires
        0 <= n,
        forall|i: int| 0 <= i < n ==> (#[trigger] step(i, Fixed::zero_spec())).raw == 0,
    ensures
        all_empty(folded(8, in_turn(8), step, n)),
        pairs_summed(folded(8, in_turn(8), step, n)).raw == 0,
        eight_summed(folded(8, in_turn(8), step, n)).raw == 0,
    decreases n,
{
    if n > 0 {
        lemma_nothing_folds_to_nothing(step, n - 1);
        let before = folded(8, in_turn(8), step, n - 1);
        assert(before[(n - 1) % 8] == Fixed::zero_spec());
    } else {
        assert(folded(8, in_turn(8), step, n) =~= empty_lanes::<Fixed>(8));
    }
}

/// Where the third plane is luma itself nothing is left to predict, and where the first
/// plane is empty neither is: the products are nothing.
pub proof fn law_nothing_is_predicted_where_nothing_is_left(
    y: Seq<Fixed>,
    x: Seq<Fixed>,
    b: Seq<Fixed>,
    qm: Seq<Fixed>,
)
    requires
        forall|i: int| 0 <= i < 64 ==> #[trigger] b[i] == y[i],
        forall|i: int| 0 <= i < 64 ==> (#[trigger] x[i]).raw == 0,
    ensures
        pairs_summed(folded(8, in_turn(8), product_b_step(y, b, qm), 64)) == Fixed::zero_spec(),
        pairs_summed(folded(8, in_turn(8), product_x_step(y, x, qm), 64)) == Fixed::zero_spec(),
{
    let f = product_b_step(y, b, qm);
    assert forall|i: int| 0 <= i < 64 implies (#[trigger] f(i, Fixed::zero_spec())).raw == 0 by {
        assert(b[i] == y[i]);
        let p = predictor(y, qm, i).raw as int;
        assert(p * 0 == 0);
    }
    lemma_nothing_folds_to_nothing(f, 64);
    let f = product_x_step(y, x, qm);
    assert forall|i: int| 0 <= i < 64 implies (#[trigger] f(i, Fixed::zero_spec())).raw == 0 by {
        assert(x[i].raw == 0);
        let q = qm[i].raw as int;
        assert(0 * q == 0);
        assert(x[i].times_spec(qm[i]).raw == 0);
        let p = Fixed::zero_spec().minus_spec(predictor(y, qm, i)).raw as int;
        assert(p * 0 == 0);
    }
    lemma_nothing_folds_to_nothing(f, 64);
}

/// Rounding goes to a whole amount no more than a half away, and treats both signs
/// alike.
pub proof fn law_rounding_finds_the_nearest(v: Fixed)
    requires
        -0x4000_0000_0000_0000 <= v.raw <= 0x4000_0000_0000_0000,
    ensures
        rounded_away(v).raw as int % 65536 == 0,
        -32768 <= rounded_away(v).raw - v.raw <= 32768,
        v.raw as int % 65536 == 32768 ==> (if v.raw > 0 {
            rounded_away(v).raw > v.raw
        } else {
            rounded_away(v).raw < v.raw
        }),
        rounded_away(Fixed { raw: (-v.raw) as i64 }).raw == -rounded_away(v).raw,
{
    assert(Fixed::ratio_spec(1, 2).raw == 32768);
    lemma_rounded(v);
    lemma_rounded(Fixed { raw: (-v.raw) as i64 });
}

proof fn lemma_rounded(v: Fixed)
    requires
        -0x4000_0000_0000_0000 <= v.raw <= 0x4000_0000_0000_0000,
    ensures
        v.raw >= 0 ==> rounded_away(v).raw == ((v.raw + 32768) / 65536) * 65536,
        v.raw < 0 ==> rounded_away(v).raw == -(((-v.raw + 32768) / 65536) * 65536),
{
    assert(Fixed::ratio_spec(1, 2).raw == 32768);
    let m = magnitude_spec(v);
    assert(m.plus_spec(Fixed { raw: 32768 }).raw == m.raw + 32768);
}

/// A prediction that hits costs nothing, in error and in bits, whatever the levels are
/// decoded to: where every coefficient is `factor` times what predicts it.
pub proof fn law_perfect_prediction_costs_nothing(
    bias: QuantBias<Fixed>,
    m: Seq<Fixed>,
    s: Seq<Fixed>,
    factor: Fixed,
    thresholds: Seq<Fixed>,
    n: int,
)
    requires
        0 <= n,
        forall|i: int| 0 <= i < n ==> #[trigger] s[i] == factor.times_spec(m[i]),
        forall|i: int| 0 <= i < 63 ==> 0 < (#[trigger] thresholds[i]).raw,
    ensures
        eight_summed(folded(8, in_turn(8), error_step(bias, m, s, factor, thresholds), n))
            == Fixed::zero_spec(),
        eight_summed(folded(8, in_turn(8), bits_step(m, s, factor, thresholds), n))
            == Fixed::zero_spec(),
{
    let f = error_step(bias, m, s, factor, thresholds);
    let g = bits_step(m, s, factor, thresholds);
    let part = Fixed::ratio_spec(3, 20);
    assert forall|i: int| 0 <= i < n implies (#[trigger] f(i, Fixed::zero_spec())).raw == 0 by {
        assert(s[i] == factor.times_spec(m[i]));
        let t = thresholds[i % 63];
        assert(0 < t.raw);
        let residual = s[i].minus_spec(factor.times_spec(m[i]));
        assert(residual.raw == 0);
        assert(coded_level(residual, t).raw == 0);
        assert(dequantized(bias, coded_level(residual, t)).raw == 0);
        assert(part.raw * 0 == 0);
    }
    lemma_nothing_folds_to_nothing(f, n);
    assert forall|i: int| 0 <= i < n implies (#[trigger] g(i, Fixed::zero_spec())).raw == 0 by {
        assert(s[i] == factor.times_spec(m[i]));
        let t = thresholds[i % 63];
        assert(0 < t.raw);
    }
    lemma_nothing_folds_to_nothing(g, n);
}

/// What a coefficient costs does not depend on its sign: with the predictor and the
/// coefficient both turned round, error and bits are the same.
pub proof fn law_prediction_treats_signs_alike(
    bias: QuantBias<Fixed>,
    m: Fixed,
    s: Fixed,
    factor: Fixed,
    threshold: Fixed,
)
    requires
        0 < threshold.raw,
        -0x1000_0000_0000 <= m.raw <= 0x1000_0000_0000,
        -0x1000_0000_0000 <= s.raw <= 0x1000_0000_0000,
        -0x1000_0000 <= factor.raw <= 0x1000_0000,
        -0x1000_0000 <= bias.one.raw <= 0x1000_0000,
        -0x1000_0000 <= bias.many.raw <= 0x1000_0000,
    ensures
        ({
            let back_m = Fixed { raw: (-m.raw) as i64 };
            let back_s = Fixed { raw: (-s.raw) as i64 };
            &&& loop_error(bias, back_m, back_s, factor, threshold) == loop_error(
                bias,
                m,
                s,
                factor,
                threshold,
            )
            &&& loop_bits(back_m, back_s, factor, threshold) == loop_bits(m, s, factor, threshold)
        }),
{
    let back_m = Fixed { raw: (-m.raw) as i64 };
    let back_s = Fixed { raw: (-s.raw) as i64 };
    let (f, a) = (factor.raw as int, m.raw as int);
    assert(f * (-a) == -(f * a)) by (nonlinear_arith);
    assert(-0x1000_0000_0000 * 0x1000_0000 <= f * a <= 0x1000_0000_0000 * 0x1000_0000) by (nonlinear_arith)
        requires
            -0x1000_0000_0000 <= a <= 0x1000_0000_0000,
            -0x1000_0000 <= f <= 0x1000_0000,
    ;
    let p = factor.times_spec(m);
    let back_p = factor.times_spec(back_m);
    assert(back_p.raw == -p.raw);
    let r = s.minus_spec(p);
    let back_r = back_s.minus_spec(back_p);
    assert(back_r.raw == -r.raw);
    law_rounding_finds_the_nearest(r);
    assert(back_r == Fixed { raw: (-r.raw) as i64 });
    assert(magnitude_spec(r) == magnitude_spec(back_r));
    let l = coded_level(r, threshold);
    let back_l = coded_level(back_r, threshold);
    assert(back_l.raw == -l.raw);
    assert(magnitude_spec(l) == magnitude_spec(back_l));
    if l.raw != 0 {
        let many = bias.many.raw * FIXED_ONE;
        assert(truncated_quotient(many, -l.raw) == -truncated_quotient(many, l.raw as int));
        lemma_quotient_small(many, l.raw as int);
    }
    assert(dequantized(bias, back_l).raw == -dequantized(bias, l).raw);
}

proof fn lemma_quotient_small(n: int, d: int)
    requires
        d != 0,
    ensures
        -(if n < 0 {
            -n
        } else {
            n
        }) <= truncated_quotient(n, d) <= (if n < 0 {
            -n
        } else {
            n
        }),
{
    let a = if n < 0 {
        -n
    } else {
        n
    };
    let b = if d < 0 {
        -d
    } else {
        d
    };
    assert(0 <= a / b <= a) by (nonlinear_arith)
        requires
            0 <= a,
            0 < b,
    ;
}

/// Over exact numbers the sums that weigh a factor are the products and the squares of
/// the coefficients, and the sizes of the second list.
pub proof fn law_rdo_sums_are_sums_of_products<A: Amount>(m: Seq<A>, s: Seq<A>, n: int)
    requires
        exact::<A>(),
        0 <= n,
    ensures
        pairs_summed(folded(8, in_turn(8), dot_step(m, s), n)) == plain_sum(
            |i: int| m[i].times_spec(s[i]),
            n,
        ),
        pairs_summed(folded(8, in_turn(8), size_step(s), n)) == plain_sum(
            |i: int|
                if s[i].less_spec(A::zero_spec()) {
                    A::zero_spec().minus_spec(s[i])
                } else {
                    s[i]
                },
            n,
        ),
{
    let f = dot_step(m, s);
    let t = |i: int| m[i].times_spec(s[i]);
    assert forall|i: int, a: A| 0 <= i < n implies #[trigger] f(i, a) == a.plus_spec(t(i)) by {
        lemma_fuses(m[i], s[i], a);
    }
    law_lanes_hold_the_sum(f, t, n);
    let f = size_step(s);
    let t = |i: int|
        if s[i].less_spec(A::zero_spec()) {
            A::zero_spec().minus_spec(s[i])
        } else {
            s[i]
        };
    assert forall|i: int, a: A| 0 <= i < n implies #[trigger] f(i, a) == a.plus_spec(t(i)) by {
    }
    law_lanes_hold_the_sum(f, t, n);
}

} // verus!
