//! How the knobs move with the distance asked for.

use crate::amount::{clamped_spec, Amount, Fixed, FIXED_ONE};
use crate::fast_math::exp2_estimate;
use crate::fixed_laws::{
    lemma_one_is_neutral, lemma_products_grow, lemma_times_grows, lemma_times_keeps_order,
};
use crate::tuning::{
    banded_spec, dampen_spec, fine_bias, gated, knob_spec, lambda_spec, margin_spec, mix_spec,
    peak_alpha_spec, ramp_spec, risk_exponent_spec, window_spec, DistortionModel, AQ_FADE_END,
    AQ_FADE_START, AQ_PEAK, MERGE_MARGIN_FADE_END, MERGE_MARGIN_FADE_START, MERGE_MARGIN_LOWQ3_D,
    MERGE_MARGIN_LOWQ_FRACTION, RD_LAMBDA, RERANK_LAMBDA_D0, RERANK_LAMBDA_D1, RERANK_LAMBDA_HI,
    RERANK_LAMBDA_LO, RERANK_PAIR_GRADIENT_PEAK_ALPHA, RERANK_PAIR_GRADIENT_PEAK_COARSE,
    RERANK_PAIR_GRADIENT_PEAK_COARSE_ALPHA, RERANK_PAIR_GRADIENT_PEAK_FADE,
};
use vstd::prelude::*;

verus! {

/// A distance or a knob of ordinary size.
pub open spec fn ordinary(d: Fixed) -> bool {
    -0x1_0000_0000 <= d.raw <= 0x1_0000_0000
}

proof fn lemma_quotient_bracket(n: int, d: int)
    requires
        0 <= n,
        0 < d,
    ensures
        (n / d) * d <= n < (n / d + 1) * d,
        0 <= n / d,
        n < d * 65536 ==> n / d < 65536,
        n >= d * 65536 ==> n / d >= 65536,
{
    assert((n / d) * d <= n < (n / d + 1) * d && 0 <= n / d) by (nonlinear_arith)
        requires
            0 <= n,
            0 < d,
    ;
    let q = n / d;
    assert(n < d * 65536 ==> q < 65536) by (nonlinear_arith)
        requires
            q * d <= n,
            0 < d,
    ;
    assert(n >= d * 65536 ==> q >= 65536) by (nonlinear_arith)
        requires
            n < (q + 1) * d,
            0 < d,
    ;
}

/// On the way from one distance to another the ramp rises in step with the distance, from
/// nothing before the way begins to one where it ends.
pub proof fn law_ramp_rises_along_the_way(near: Fixed, far: Fixed, start: i64, end: i64)
    requires
        ordinary(near),
        ordinary(far),
        ordinary(knob_spec(start)),
        ordinary(knob_spec(end)),
        knob_spec::<Fixed>(start).raw < knob_spec::<Fixed>(end).raw,
        near.raw <= far.raw,
    ensures
        0 <= ramp_spec(near, start, end).raw <= ramp_spec(far, start, end).raw <= FIXED_ONE,
        near.raw <= knob_spec::<Fixed>(start).raw ==> ramp_spec(near, start, end).raw == 0,
        near.raw >= knob_spec::<Fixed>(end).raw ==> ramp_spec(near, start, end).raw == FIXED_ONE,
        knob_spec::<Fixed>(start).raw <= near.raw < knob_spec::<Fixed>(end).raw ==> ({
            let way = knob_spec::<Fixed>(end).raw - knob_spec::<Fixed>(start).raw;
            let gone = near.raw - knob_spec::<Fixed>(start).raw;
            let part = ramp_spec(near, start, end).raw as int;
            part * way <= gone * 65536 < (part + 1) * way
        }),
{
    lemma_ramp(near, start, end);
    lemma_ramp(far, start, end);
    let s = knob_spec::<Fixed>(start).raw as int;
    let e = knob_spec::<Fixed>(end).raw as int;
    let (a, b) = (near.raw - s, far.raw - s);
    let d = e - s;
    if s <= near.raw {
        assert((a * 65536) / d <= (b * 65536) / d) by (nonlinear_arith)
            requires
                0 <= a <= b,
                0 < d,
        ;
    }
}

proof fn lemma_ramp(v: Fixed, start: i64, end: i64)
    requires
        ordinary(v),
        ordinary(knob_spec(start)),
        ordinary(knob_spec(end)),
        knob_spec::<Fixed>(start).raw < knob_spec::<Fixed>(end).raw,
    ensures
        ({
            let s = knob_spec::<Fixed>(start).raw as int;
            let e = knob_spec::<Fixed>(end).raw as int;
            let r = ramp_spec(v, start, end).raw as int;
            let q = ((v.raw - s) * 65536) / (e - s);
            &&& v.raw <= s ==> r == 0
            &&& s <= v.raw < e ==> r == q && 0 <= q < 65536 && q * (e - s) <= (v.raw - s) * 65536 < (
            q + 1) * (e - s)
            &&& v.raw >= e ==> r == 65536 && q >= 65536
            &&& v.raw == s ==> q == 0
        }),
{
    assert(Fixed::ratio_spec(1, 1).raw == 65536);
    let s = knob_spec::<Fixed>(start);
    let e = knob_spec::<Fixed>(end);
    let n = (v.raw - s.raw) * 65536;
    let d = e.raw - s.raw;
    assert(v.minus_spec(s).raw == v.raw - s.raw);
    assert(e.minus_spec(s).raw == d);
    if v.raw >= s.raw {
        lemma_quotient_bracket(n, d);
        assert(v.raw == s.raw ==> n / d == 0) by (nonlinear_arith)
            requires
                v.raw == s.raw ==> n == 0,
                0 < d,
        ;
        assert(n / d <= n) by (nonlinear_arith)
            requires
                0 <= n,
                0 < d,
        ;
    } else {
        lemma_quotient_bracket(-n, d);
        assert((-n) / d <= -n) by (nonlinear_arith)
            requires
                0 <= -n,
                0 < d,
        ;
    }
}

/// A point on the way between two values lies between them: it is the first where the way
/// begins and the second where it ends.
pub proof fn law_mix_lies_between(t: Fixed, from: Fixed, to: Fixed)
    requires
        0 <= t.raw <= FIXED_ONE,
        ordinary(from),
        ordinary(to),
    ensures
        from.raw <= to.raw ==> from.raw <= mix_spec(t, from, to).raw <= to.raw,
        to.raw <= from.raw ==> to.raw <= mix_spec(t, from, to).raw <= from.raw,
        t.raw == 0 ==> mix_spec(t, from, to) == from,
        t.raw == FIXED_ONE ==> mix_spec(t, from, to) == to,
{
    let (k, d) = (t.raw as int, to.raw - from.raw);
    assert(d >= 0 ==> 0 <= k * d <= 65536 * d) by (nonlinear_arith)
        requires
            0 <= k <= 65536,
    ;
    assert(d <= 0 ==> 65536 * d <= k * d <= 0) by (nonlinear_arith)
        requires
            0 <= k <= 65536,
    ;
    assert(k == 0 ==> k * d == 0) by (nonlinear_arith);
    assert(k == 65536 ==> k * d == 65536 * d) by (nonlinear_arith);
}

/// A mix moves towards its end as the way goes on.
pub proof fn law_mix_moves_towards_its_end(t: Fixed, u: Fixed, from: Fixed, to: Fixed)
    requires
        0 <= t.raw <= u.raw <= FIXED_ONE,
        ordinary(from),
        ordinary(to),
    ensures
        from.raw <= to.raw ==> mix_spec(t, from, to).raw <= mix_spec(u, from, to).raw,
        to.raw <= from.raw ==> mix_spec(u, from, to).raw <= mix_spec(t, from, to).raw,
{
    let (k, l, d) = (t.raw as int, u.raw as int, to.raw - from.raw);
    assert(d >= 0 ==> 0 <= k * d <= l * d <= 65536 * d) by (nonlinear_arith)
        requires
            0 <= k <= l <= 65536,
    ;
    assert(d <= 0 ==> 65536 * d <= l * d <= k * d <= 0) by (nonlinear_arith)
        requires
            0 <= k <= l <= 65536,
    ;
}

/// The finest transforms are favoured the more, the less distance is asked for; from five
/// on they are not favoured at all.
pub proof fn law_fine_transforms_are_favoured_near(base: Fixed, near: Fixed, far: Fixed)
    requires
        ordinary(base),
        0 <= near.raw <= far.raw,
        ordinary(far),
    ensures
        fine_bias(base, near).raw <= fine_bias(base, far).raw,
        far.raw >= 5 * FIXED_ONE ==> fine_bias(base, far) == base.over_spec(
            Fixed::ratio_spec(8, 10),
        ),
        fine_bias(base, far).raw <= base.over_spec(Fixed::ratio_spec(8, 10)).raw,
        near.raw <= 4 * FIXED_ONE ==> fine_bias(base, near).raw < base.over_spec(
            Fixed::ratio_spec(8, 10),
        ).raw,
{
    let five = Fixed::ratio_spec(5, 1);
    assert(five.raw == 327680);
    let fifth = Fixed::ratio_spec(2, 10);
    assert(fifth.raw == 13107);
    let weight = Fixed::ratio_spec(4, 10);
    assert(weight.raw == 26214);
    assert(Fixed::ratio_spec(8, 10).raw == 52428);
    let plain = base.over_spec(Fixed::ratio_spec(8, 10));
    lemma_plain(base);
    let zero = Fixed { raw: 0 };
    if far.raw < five.raw {
        let (a, b) = (
            five.minus_spec(far).times_spec(fifth),
            five.minus_spec(near).times_spec(fifth),
        );
        lemma_times_grows(five.minus_spec(far), five.minus_spec(near), fifth);
        lemma_products_grow(weight, weight, a, b);
        lemma_products_grow(weight.times_spec(a), weight.times_spec(b), a, b);
        lemma_favour(near);
        lemma_favour(far);
    } else if near.raw < five.raw {
        let b = five.minus_spec(near).times_spec(fifth);
        lemma_times_grows(five.minus_spec(near), five.minus_spec(near), fifth);
        lemma_products_grow(weight, weight, b, b);
        lemma_products_grow(weight.times_spec(b), weight.times_spec(b), b, b);
        lemma_favour(near);
    }
}

proof fn lemma_plain(base: Fixed)
    requires
        ordinary(base),
    ensures
        -0x2_0000_0000 <= base.over_spec(Fixed::ratio_spec(8, 10)).raw <= 0x2_0000_0000,
{
    assert(Fixed::ratio_spec(8, 10).raw == 52428);
    let n = base.raw as int;
    if n >= 0 {
        assert((n * 65536) / 52428 <= 0x2_0000_0000);
    } else {
        assert(((-n) * 65536) / 52428 <= 0x2_0000_0000);
    }
}

proof fn lemma_favour(d: Fixed)
    requires
        0 <= d.raw < 327680,
    ensures
        ({
            let t = Fixed::ratio_spec(5, 1).minus_spec(d).times_spec(Fixed::ratio_spec(2, 10));
            let favour = Fixed::ratio_spec(4, 10).times_spec(t).times_spec(t);
            &&& 0 <= favour.raw <= 65536
            &&& d.raw <= 262144 ==> favour.raw > 0
        }),
{
    assert(Fixed::ratio_spec(5, 1).raw == 327680);
    assert(Fixed::ratio_spec(2, 10).raw == 13107);
    assert(Fixed::ratio_spec(4, 10).raw == 26214);
    let t = Fixed::ratio_spec(5, 1).minus_spec(d).times_spec(Fixed::ratio_spec(2, 10));
    assert(0 <= t.raw <= 65536);
    assert(d.raw <= 262144 ==> t.raw >= 13107);
    let n = t.raw as int;
    let w = Fixed::ratio_spec(4, 10).times_spec(t);
    assert(w.raw == (26214 * n) / 65536);
    let m = w.raw as int;
    assert(0 <= m <= 65536 && (n >= 13107 ==> m >= 5242));
    assert(0 <= m * n <= 65536 * 65536) by (nonlinear_arith)
        requires
            0 <= m <= 65536,
            0 <= n <= 65536,
    ;
    assert(n >= 13107 && m >= 5242 ==> m * n >= 13107 * 5242) by (nonlinear_arith);
}

/// How much the finest transforms are favoured: two fifths, times the square of what the
/// distance lacks to five, in fifths.
pub proof fn law_favour_goes_by_the_square(base: Fixed, d: Fixed)
    requires
        ordinary(base),
        0 <= d.raw < 5 * FIXED_ONE,
    ensures
        ({
            let favour = base.over_spec(Fixed::ratio_spec(8, 10)).raw - fine_bias(base, d).raw;
            let lacking = 5 * FIXED_ONE - d.raw;
            2 * lacking * lacking - 125 * 65536 * 16 <= favour * 125 * 65536 <= 2 * lacking
                * lacking
        }),
{
    assert(Fixed::ratio_spec(5, 1).raw == 327680);
    assert(Fixed::ratio_spec(2, 10).raw == 13107);
    assert(Fixed::ratio_spec(4, 10).raw == 26214);
    assert(Fixed::ratio_spec(8, 10).raw == 52428);
    lemma_favour(d);
    let plain = base.over_spec(Fixed::ratio_spec(8, 10));
    lemma_plain(base);
    let t = Fixed::ratio_spec(5, 1).minus_spec(d).times_spec(Fixed::ratio_spec(2, 10));
    let w = Fixed::ratio_spec(4, 10).times_spec(t);
    let l = 327680 - d.raw;
    let (n, m) = (t.raw as int, w.raw as int);
    assert(n == (l * 13107) / 65536);
    assert(m == (26214 * n) / 65536);
    let f = w.times_spec(t).raw as int;
    assert(0 <= m <= 65536 && 0 <= n <= 65536);
    assert(0 <= m * n) by (nonlinear_arith)
        requires
            0 <= m,
            0 <= n,
    ;
    assert(f == (m * n) / 65536);
    assert(5 * n <= l <= 5 * n + 10) by {
        assert(5 * 13107 == 65535);
    }
    assert(5 * m <= 2 * n <= 5 * m + 8);
    assert(f * 65536 <= m * n < f * 65536 + 65536);
    assert(10 * (m * n) <= 4 * (n * n) <= 10 * (m * n) + 16 * n) by (nonlinear_arith)
        requires
            5 * m <= 2 * n <= 5 * m + 8,
            0 <= n,
    ;
    assert(25 * (n * n) <= l * l <= 25 * (n * n) + 100 * n + 100) by (nonlinear_arith)
        requires
            5 * n <= l <= 5 * n + 10,
            0 <= n,
    ;
    assert(2 * l * l == 2 * (l * l)) by (nonlinear_arith);
    assert(plain.raw - fine_bias(base, d).raw == f);
    assert(f * 125 * 65536 <= 2 * (l * l));
    assert(2 * (l * l) - 125 * 65536 * 16 <= f * 125 * 65536);
}

/// The modulation of the quantizers is at its peak up to where it begins to fade, falls
/// with the distance and is gone where the fading ends.
pub proof fn law_modulation_fades(near: Fixed, far: Fixed)
    requires
        0 <= near.raw <= far.raw,
        ordinary(far),
    ensures
        0 <= dampen_spec(far).raw <= dampen_spec(near).raw <= knob_spec::<Fixed>(AQ_PEAK).raw,
        near.raw <= knob_spec::<Fixed>(AQ_FADE_START).raw ==> dampen_spec(near) == knob_spec::<
            Fixed,
        >(AQ_PEAK),
        far.raw >= knob_spec::<Fixed>(AQ_FADE_END).raw ==> dampen_spec(far).raw == 0,
{
    assert(knob_spec::<Fixed>(AQ_FADE_START).raw == 65536);
    assert(knob_spec::<Fixed>(AQ_FADE_END).raw == 114688);
    assert(knob_spec::<Fixed>(AQ_PEAK).raw == 52428);
    assert(Fixed::ratio_spec(1, 1).raw == 65536);
    lemma_dampen(near);
    lemma_dampen(far);
}

proof fn lemma_dampen(d: Fixed)
    requires
        0 <= d.raw,
        ordinary(d),
    ensures
        ({
            let t = ((d.raw - 65536) * 65536) / 49152;
            let r = dampen_spec(d).raw;
            &&& d.raw <= 65536 ==> r == 52428
            &&& 65536 <= d.raw < 114688 ==> r == (52428 * (65536 - t)) / 65536 && 0 <= t < 65536
            &&& d.raw >= 114688 ==> r == 0
        }),
{
    assert(knob_spec::<Fixed>(AQ_FADE_START).raw == 65536);
    assert(knob_spec::<Fixed>(AQ_FADE_END).raw == 114688);
    assert(knob_spec::<Fixed>(AQ_PEAK).raw == 52428);
    assert(Fixed::ratio_spec(1, 1).raw == 65536);
}

/// The risk of merging blocks with uneven quantizers: none where they are even, and the
/// larger the more the largest exceeds the smallest and the larger the area; it is never
/// counted in favour of merging.
pub proof fn law_risk_grows_with_the_spread(
    k: Fixed,
    q_min: Fixed,
    even: Fixed,
    uneven: Fixed,
    area: Fixed,
)
    requires
        0 < k.raw <= 0x10_0000,
        0 < q_min.raw <= even.raw <= uneven.raw <= 0x100_0000,
        0 <= area.raw <= 0x10_0000,
    ensures
        risk_exponent_spec(k, q_min, even, area) is Some,
        risk_exponent_spec(k, q_min, q_min, area) == Some(Fixed::zero_spec()),
        risk_exponent_spec(k, q_min, uneven, area)->0.raw <= risk_exponent_spec(
            k,
            q_min,
            even,
            area,
        )->0.raw <= 0,
{
    assert(Fixed::ratio_spec(1, 1).raw == 65536);
    let (q, a, b) = (q_min.raw as int, even.raw as int, uneven.raw as int);
    assert(65536 <= (a * 65536) / q <= (b * 65536) / q && (q * 65536) / q == 65536 && (b * 65536)
        / q <= 0x100_0000 * 65536) by (nonlinear_arith)
        requires
            0 < q <= a <= b <= 0x100_0000,
    ;
    let down = Fixed::zero_spec().minus_spec(k).times_spec(area);
    let (n, m) = (k.raw as int, area.raw as int);
    assert(-(0x10_0000 * 0x10_0000) <= (-n) * m <= 0) by (nonlinear_arith)
        requires
            0 < n <= 0x10_0000,
            0 <= m <= 0x10_0000,
    ;
    assert(-(0x10_0000 * 0x10_0000) <= down.raw <= 0);
    let (x, y) = (
        even.over_spec(q_min).minus_spec(Fixed::ratio_spec(1, 1)).raw as int,
        uneven.over_spec(q_min).minus_spec(Fixed::ratio_spec(1, 1)).raw as int,
    );
    assert(0 <= x <= y);
    let d = down.raw as int;
    assert(d * y <= d * x <= 0) by (nonlinear_arith)
        requires
            d <= 0,
            0 <= x <= y,
    ;
    assert(d * 0 == 0);
}

/// The acceptance of a merge is only ever held back: what it is multiplied by is a power of
/// two whose exponent is not above nothing, and is nothing where the quantizers are even.
pub proof fn law_uneven_quantizers_hold_merges_back(
    k: Fixed,
    accept: Fixed,
    q_min: Fixed,
    q_max: Fixed,
    area: Fixed,
)
    requires
        0 < k.raw <= 0x10_0000,
        0 < q_min.raw <= q_max.raw <= 0x100_0000,
        0 <= area.raw <= 0x10_0000,
    ensures
        exists|e: Fixed|
            e.raw <= 0 && (q_min == q_max ==> e.raw == 0) && gated(k, accept, q_min, q_max, area)
                == accept.times_spec(#[trigger] exp2_estimate(e)),
{
    law_risk_grows_with_the_spread(k, q_min, q_max, q_max, area);
    let e = risk_exponent_spec(k, q_min, q_max, area)->0;
    assert(gated(k, accept, q_min, q_max, area) == accept.times_spec(exp2_estimate(e)));
}

/// Without anything at risk there is nothing to hold a merge back.
pub proof fn law_no_risk_without_quantizers(k: Fixed, q_min: Fixed, q_max: Fixed, area: Fixed)
    ensures
        risk_exponent_spec(k, q_min, q_max, area) is None <==> q_min.raw <= 0 || k.raw <= 0,
{
}

/// Before the margins fade they are the banded knobs.
pub proof fn law_margins_begin_as_banded(distance: Fixed, knobs: Seq<i64>)
    requires
        ordinary(distance),
        distance.raw <= knob_spec::<Fixed>(MERGE_MARGIN_FADE_START).raw,
        ordinary(banded_spec(knobs, distance)),
    ensures
        margin_spec(distance, knobs) == banded_spec(knobs, distance),
{
    assert(knob_spec::<Fixed>(MERGE_MARGIN_FADE_START).raw == 65536);
    assert(knob_spec::<Fixed>(MERGE_MARGIN_FADE_END).raw == 262144);
    assert(knob_spec::<Fixed>(MERGE_MARGIN_LOWQ3_D).raw == 252313);
    assert(Fixed::ratio_spec(1, 1).raw == 65536);
    lemma_ramp(distance, MERGE_MARGIN_FADE_START, MERGE_MARGIN_FADE_END);
    lemma_one_is_neutral(banded_spec(knobs, distance));
    let one = Fixed { raw: 65536 };
    let rest = one.minus_spec(knob_spec(MERGE_MARGIN_LOWQ_FRACTION));
    assert(Fixed::zero_spec().times_spec(rest).raw == 0);
}

/// A window in the distance is shut before it begins to open and after it has closed, and
/// never open more than fully.
pub proof fn law_windows_open_and_close(distance: Fixed, fade: Seq<i64>)
    requires
        fade.len() == 4,
        ordinary(distance),
        forall|i: int| 0 <= i < 4 ==> ordinary(knob_spec(#[trigger] fade[i])),
        knob_spec::<Fixed>(fade[0]).raw < knob_spec::<Fixed>(fade[1]).raw,
        knob_spec::<Fixed>(fade[2]).raw < knob_spec::<Fixed>(fade[3]).raw,
    ensures
        0 <= window_spec(distance, fade).raw <= FIXED_ONE,
        distance.raw <= knob_spec::<Fixed>(fade[0]).raw ==> window_spec(distance, fade).raw == 0,
        distance.raw >= knob_spec::<Fixed>(fade[3]).raw ==> window_spec(distance, fade).raw == 0,
        knob_spec::<Fixed>(fade[1]).raw <= distance.raw <= knob_spec::<Fixed>(fade[2]).raw
            ==> window_spec(distance, fade).raw == FIXED_ONE,
{
    assert(ordinary(knob_spec(fade[0])));
    assert(ordinary(knob_spec(fade[1])));
    assert(ordinary(knob_spec(fade[2])));
    assert(ordinary(knob_spec(fade[3])));
    assert(Fixed::ratio_spec(1, 1).raw == 65536);
    law_ramp_rises_along_the_way(distance, distance, fade[0], fade[1]);
    law_ramp_rises_along_the_way(distance, distance, fade[2], fade[3]);
    let a = ramp_spec(distance, fade[0], fade[1]);
    let b = Fixed::ratio_spec(1, 1).minus_spec(ramp_spec(distance, fade[2], fade[3]));
    let (x, y) = (a.raw as int, b.raw as int);
    assert(0 <= x * y <= 65536 * 65536 && (x == 0 || y == 0 ==> x * y == 0)) by (nonlinear_arith)
        requires
            0 <= x <= 65536,
            0 <= y <= 65536,
    ;
    lemma_one_is_neutral(a);
}

/// The price of a bit: the same at all distances when coefficients are judged, and rising
/// with the distance when reconstructions are.
pub proof fn law_bits_grow_dearer_with_the_distance(near: Fixed, far: Fixed)
    requires
        near.raw <= far.raw,
        ordinary(near),
        ordinary(far),
    ensures
        lambda_spec(DistortionModel::Coefficient, near) == knob_spec::<Fixed>(RD_LAMBDA),
        0 < lambda_spec(DistortionModel::Reconstruction, near).raw <= lambda_spec(
            DistortionModel::Reconstruction,
            far,
        ).raw,
        near.raw <= knob_spec::<Fixed>(RERANK_LAMBDA_D0).raw ==> lambda_spec(
            DistortionModel::Reconstruction,
            near,
        ) == knob_spec::<Fixed>(RD_LAMBDA).times_spec(knob_spec(RERANK_LAMBDA_LO)),
{
    let lambda = knob_spec::<Fixed>(RD_LAMBDA);
    assert(lambda.raw == 5299);
    let (lo, hi) = (knob_spec::<Fixed>(RERANK_LAMBDA_LO), knob_spec::<Fixed>(RERANK_LAMBDA_HI));
    assert(lo.raw == 16384);
    assert(hi.raw == 655360);
    let (d0, d1) = (knob_spec::<Fixed>(RERANK_LAMBDA_D0), knob_spec::<Fixed>(RERANK_LAMBDA_D1));
    assert(d0.raw == 65536);
    assert(d1.raw == 262144);
    assert(Fixed::ratio_spec(1, 1).raw == 65536);
    let recip = Fixed::ratio_spec(1, 1).over_spec(d1.minus_spec(d0));
    assert(recip.raw == 21845);
    let (a, b) = (
        near.minus_spec(d0).times_spec(recip),
        far.minus_spec(d0).times_spec(recip),
    );
    lemma_times_keeps_order(near.minus_spec(d0), far.minus_spec(d0), recip);
    let (t, u) = (
        clamped_spec(a, Fixed::zero_spec(), Fixed::ratio_spec(1, 1)),
        clamped_spec(b, Fixed::zero_spec(), Fixed::ratio_spec(1, 1)),
    );
    assert(0 <= t.raw <= u.raw <= 65536);
    law_mix_lies_between(t, lo, hi);
    law_mix_lies_between(u, lo, hi);
    law_mix_moves_towards_its_end(t, u, lo, hi);
    lemma_products_grow(lambda, lambda, mix_spec(t, lo, hi), mix_spec(u, lo, hi));
    lemma_products_grow(lambda, lambda, lo, mix_spec(t, lo, hi));
    assert(lambda.times_spec(lo).raw == 1324);
}

/// The peak term of rectangular pairs weighs nothing before it fades in or after it has
/// faded out.
pub proof fn law_peaks_count_within_their_window(distance: Fixed)
    requires
        ordinary(distance),
    ensures
        ({
            let fade = RERANK_PAIR_GRADIENT_PEAK_FADE@;
            &&& distance.raw <= knob_spec::<Fixed>(fade[0]).raw ==> peak_alpha_spec(distance).raw
                == 0
            &&& distance.raw >= knob_spec::<Fixed>(fade[3]).raw ==> peak_alpha_spec(distance).raw
                == 0
            &&& 0 <= peak_alpha_spec(distance).raw <= knob_spec::<Fixed>(
                RERANK_PAIR_GRADIENT_PEAK_ALPHA,
            ).raw
        }),
{
    let fade = RERANK_PAIR_GRADIENT_PEAK_FADE@;
    let coarse = RERANK_PAIR_GRADIENT_PEAK_COARSE@;
    let (f0, f1) = (knob_spec::<Fixed>(fade[0]), knob_spec::<Fixed>(fade[1]));
    let (f2, f3) = (knob_spec::<Fixed>(fade[2]), knob_spec::<Fixed>(fade[3]));
    assert(ordinary(f0) && ordinary(f1) && ordinary(f2) && ordinary(f3));
    assert(f0.raw < f1.raw && f2.raw < f3.raw);
    let (c0, c1) = (knob_spec::<Fixed>(coarse[0]), knob_spec::<Fixed>(coarse[1]));
    assert(ordinary(c0) && ordinary(c1) && c0.raw < c1.raw);
    law_ramp_rises_along_the_way(distance, distance, fade[0], fade[1]);
    law_ramp_rises_along_the_way(distance, distance, fade[2], fade[3]);
    law_ramp_rises_along_the_way(distance, distance, coarse[0], coarse[1]);
    assert(Fixed::ratio_spec(1, 1).raw == 65536);
    let from = knob_spec::<Fixed>(RERANK_PAIR_GRADIENT_PEAK_ALPHA);
    let to = knob_spec::<Fixed>(RERANK_PAIR_GRADIENT_PEAK_COARSE_ALPHA);
    assert(from.raw == 192 * 65536);
    assert(to.raw == 96 * 65536);
    let m = mix_spec(ramp_spec(distance, coarse[0], coarse[1]), from, to);
    law_mix_lies_between(ramp_spec(distance, coarse[0], coarse[1]), from, to);
    let a = ramp_spec(distance, fade[0], fade[1]);
    let b = Fixed::ratio_spec(1, 1).minus_spec(ramp_spec(distance, fade[2], fade[3]));
    let (x, y) = (m.raw as int, a.raw as int);
    assert(0 <= x * y <= x * 65536 && (y == 0 ==> x * y == 0)) by (nonlinear_arith)
        requires
            0 <= x,
            0 <= y <= 65536,
    ;
    let p = m.times_spec(a);
    assert(0 <= p.raw <= m.raw);
    let (u, v) = (p.raw as int, b.raw as int);
    assert(0 <= u * v <= u * 65536 && (v == 0 || u == 0 ==> u * v == 0)) by (nonlinear_arith)
        requires
            0 <= u,
            0 <= v <= 65536,
    ;
}

/// A dearer outcome costs more: the cost grows with the distortion and with the bits, and
/// what needs no bits costs its distortion.
pub proof fn law_costs_grow_with_distortion_and_rate(
    model: DistortionModel,
    distance: Fixed,
    meta: Fixed,
    d: Fixed,
    e: Fixed,
    r: Fixed,
    s: Fixed,
)
    requires
        ordinary(distance),
        d.raw <= e.raw,
        0 <= meta.raw,
        0 <= r.raw <= s.raw,
    ensures
        ({
            let lambda = lambda_spec(model, distance);
            &&& lambda.fused_spec(r.plus_spec(meta), d).raw <= lambda.fused_spec(
                s.plus_spec(meta),
                e,
            ).raw
            &&& r.raw == 0 && meta.raw == 0 ==> lambda.fused_spec(r.plus_spec(meta), d) == d
        }),
{
    law_bits_grow_dearer_with_the_distance(distance, distance);
    assert(knob_spec::<Fixed>(RD_LAMBDA).raw == 5299);
    let lambda = lambda_spec(model, distance);
    let (l, a, b) = (
        lambda.raw as int,
        r.plus_spec(meta).raw as int,
        s.plus_spec(meta).raw as int,
    );
    assert(0 <= l * a <= l * b && (a == 0 ==> l * a == 0)) by (nonlinear_arith)
        requires
            0 <= l,
            0 <= a <= b,
    ;
}

} // verus!
