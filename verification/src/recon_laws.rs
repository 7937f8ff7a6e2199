//! What quantizing keeps: levels are the nearest, errors are what levels miss, and rates
//! count what is coded.

use crate::adaptive_quant::magnitude_spec;
use crate::amount::{Amount, Fixed, FIXED_ONE};
use crate::fixed_laws::{lemma_one_is_neutral, opposite};
use crate::lanes::{eight_summed, empty_lanes, folded, in_turn, lemma_folded_len};
use crate::mosaic::{
    child_rd, fine_rd, hue_is_costly, hue_repair_is_safe, ReconCost, RerankParams,
    FINE_MOSAIC_RATE_CORRECTION_BITS,
};
use crate::recon::{
    ac_level, away_level, coded_count, combined, dc_without_luma, error_at, held16, in_steps,
    is_coded, last_scan, level_at, nearest_level, rate_of, sse_step, without_error, QuantShape,
};
use crate::small_transform::Block;
use crate::strategy::STRATEGY_DCT;
use crate::sub8::{admitted_gain, fine_best, shortlist_of, FineCharge, Sub8Costs};
use crate::sum_laws::{exact, lemma_difference_undone};
use crate::transform::sized;
use crate::tuning::{knob_spec, FINE_RECON_MARGIN};
use crate::xyb::{colour_of, shaped_value, XybScales};
use vstd::prelude::*;

verus! {

/// An amount that a coefficient or a sample takes.
pub open spec fn usual(v: Fixed) -> bool {
    -0x1000_0000_0000 <= v.raw <= 0x1000_0000_0000
}

/// Rounding away finds the nearest whole number, of two as near the one farther from
/// nothing, and treats both signs alike.
pub proof fn law_away_levels_are_nearest(v: Fixed)
    requires
        usual(v),
    ensures
        -32768 <= away_level(v) * 65536 - v.raw <= 32768,
        v.raw > 0 && v.raw as int % 65536 == 32768 ==> away_level(v) * 65536 > v.raw,
        v.raw < 0 && v.raw as int % 65536 == 32768 ==> away_level(v) * 65536 < v.raw,
        away_level(opposite(v)) == -away_level(v),
{
    lemma_away(v);
    lemma_away(opposite(v));
}

proof fn lemma_away(v: Fixed)
    requires
        usual(v),
    ensures
        v.raw >= 0 ==> away_level(v) == (v.raw as int + 32768) / 65536,
        v.raw < 0 ==> away_level(v) == -((-v.raw + 32768) / 65536),
{
    assert(Fixed::ratio_spec(1, 2).raw == 32768);
    assert(Fixed::ratio_spec(1, 1).raw == 65536);
    let t = v.toward_zero_spec();
    if v.raw >= 0 {
        assert(t.raw == (v.raw as int / 65536) * 65536);
    } else {
        assert(t.raw == -(((-v.raw) / 65536) * 65536));
    }
}

/// The level of a coefficient is none below its threshold and the nearest whole number
/// from there on.
pub proof fn law_levels_are_nearest(a: Fixed, threshold: Fixed)
    requires
        usual(a),
    ensures
        magnitude_spec(a).raw < threshold.raw ==> nearest_level(a, threshold).raw == 0,
        threshold.raw <= magnitude_spec(a).raw ==> -32768 <= nearest_level(a, threshold).raw - a.raw
            <= 32768,
        nearest_level(a, threshold).raw as int % 65536 == 0,
{
    let q = a.raw as int / 65536;
    assert((q * 65536) % 65536 == 0);
    assert(((q + 1) * 65536) % 65536 == 0);
}

/// A coefficient that is coded is at least half a step from nothing, and none of the low
/// frequencies is coded.
pub proof fn law_coded_coefficients_are_not_small(
    s: QuantShape,
    coeff: Seq<Fixed>,
    inv: Seq<Fixed>,
    scale: Fixed,
    thr: Seq<Fixed>,
    i: int,
)
    requires
        usual(in_steps(inv, coeff, scale, i)),
        is_coded(s, coeff, inv, scale, thr, i),
    ensures
        !s.is_low(i),
        s.threshold(thr, i).raw <= magnitude_spec(in_steps(inv, coeff, scale, i)).raw,
        32768 <= magnitude_spec(in_steps(inv, coeff, scale, i)).raw,
{
    law_levels_are_nearest(in_steps(inv, coeff, scale, i), s.threshold(thr, i));
}

/// What quantizing loses of a coefficient, in steps again, is what its level misses; the
/// low frequencies lose nothing.
pub proof fn law_errors_are_what_levels_miss(
    s: QuantShape,
    coeff: Seq<Fixed>,
    inv: Seq<Fixed>,
    scale: Fixed,
    thr: Seq<Fixed>,
    i: int,
)
    requires
        usual(in_steps(inv, coeff, scale, i)),
        0 < inv[i].times_spec(scale).raw <= 0x1_0000_0000,
    ensures
        s.is_low(i) ==> error_at(s, coeff, inv, scale, thr, i).raw == 0,
        !s.is_low(i) ==> ({
            let step = inv[i].times_spec(scale).raw as int;
            let missed = in_steps(inv, coeff, scale, i).raw - level_at(
                s,
                coeff,
                inv,
                scale,
                thr,
                i,
            ).raw;
            let e = error_at(s, coeff, inv, scale, thr, i).raw as int;
            -step < e * step - missed * 65536 < step
        }),
{
    let v = in_steps(inv, coeff, scale, i);
    let level = level_at(s, coeff, inv, scale, thr, i);
    law_levels_are_nearest(v, s.threshold(thr, i));
    let missed = v.raw - level.raw;
    let step = inv[i].times_spec(scale).raw as int;
    let m = missed * 65536;
    if missed >= 0 {
        assert(0 <= m - (m / step) * step < step && 0 <= m / step <= m) by (nonlinear_arith)
            requires
                0 <= m,
                0 < step,
        ;
    } else {
        let k = -m;
        assert(0 <= k - (k / step) * step < step && 0 <= k / step <= k) by (nonlinear_arith)
            requires
                0 <= k,
                0 < step,
        ;
        let q = k / step;
        assert((-q) * step == -(q * step)) by (nonlinear_arith);
    }
}

proof fn lemma_lanes_not_negative(step: spec_fn(int, Fixed) -> Fixed, n: int)
    requires
        0 <= n,
        forall|i: int, a: Fixed| 0 <= i < n ==> a.raw <= (#[trigger] step(i, a)).raw,
    ensures
        folded(8, in_turn(8), step, n).len() == 8,
        forall|l: int| 0 <= l < 8 ==> 0 <= (#[trigger] folded(8, in_turn(8), step, n)[l]).raw,
    decreases n,
{
    lemma_folded_len(8, in_turn(8), step, n);
    if n > 0 {
        lemma_lanes_not_negative(step, n - 1);
        let before = folded(8, in_turn(8), step, n - 1);
        let l = (n - 1) % 8;
        assert(before[l].raw <= step(n - 1, before[l]).raw);
    }
}

proof fn lemma_lanes_untouched(step: spec_fn(int, Fixed) -> Fixed, n: int)
    requires
        0 <= n,
        forall|i: int, a: Fixed| 0 <= i < n ==> #[trigger] step(i, a) == a,
    ensures
        folded(8, in_turn(8), step, n) == empty_lanes::<Fixed>(8),
    decreases n,
{
    if n > 0 {
        lemma_lanes_untouched(step, n - 1);
        let none = empty_lanes::<Fixed>(8);
        let l = (n - 1) % 8;
        assert(step(n - 1, none[l]) == none[l]);
        assert(none.update(l, none[l]) =~= none);
    }
}

/// The squared error is never below nothing, and is nothing where every coefficient is a
/// level.
pub proof fn law_squared_error_of_levels_is_nothing(
    s: QuantShape,
    coeff: Seq<Fixed>,
    inv: Seq<Fixed>,
    scale: Fixed,
    thr: Seq<Fixed>,
    n: int,
)
    requires
        0 <= n,
    ensures
        0 <= eight_summed(folded(8, in_turn(8), sse_step(s, coeff, inv, scale, thr), n)).raw,
        (forall|i: int|
            0 <= i < n && !s.is_low(i) ==> #[trigger] level_at(s, coeff, inv, scale, thr, i)
                == in_steps(inv, coeff, scale, i)) ==> eight_summed(
            folded(8, in_turn(8), sse_step(s, coeff, inv, scale, thr), n),
        ).raw == 0,
{
    let f = sse_step(s, coeff, inv, scale, thr);
    assert forall|i: int, a: Fixed| 0 <= i < n implies a.raw <= (#[trigger] f(i, a)).raw by {
        let d = in_steps(inv, coeff, scale, i).minus_spec(
            level_at(s, coeff, inv, scale, thr, i),
        );
        let k = d.raw as int;
        assert(0 <= k * k) by (nonlinear_arith);
        assert(0 <= d.times_spec(d).raw);
    }
    lemma_lanes_not_negative(f, n);
    if forall|i: int|
        0 <= i < n && !s.is_low(i) ==> #[trigger] level_at(s, coeff, inv, scale, thr, i)
            == in_steps(inv, coeff, scale, i) {
        assert forall|i: int, a: Fixed| 0 <= i < n implies #[trigger] f(i, a) == a by {
            let v = in_steps(inv, coeff, scale, i);
            if !s.is_low(i) {
                assert(level_at(s, coeff, inv, scale, thr, i) == v);
            }
            assert(v.minus_spec(v).raw == 0);
        }
        lemma_lanes_untouched(f, n);
    }
}

/// The last coefficient in scan order that is coded: none that is coded comes later, and
/// unless nothing is coded it is that of one that is.
pub proof fn law_last_scan_is_the_last(
    s: QuantShape,
    coeff: Seq<Fixed>,
    inv: Seq<Fixed>,
    scale: Fixed,
    thr: Seq<Fixed>,
    scan: Seq<u32>,
    n: int,
)
    requires
        0 <= n,
    ensures
        forall|i: int|
            0 <= i < n && #[trigger] is_coded(s, coeff, inv, scale, thr, i) ==> scan[i]
                <= last_scan(s, coeff, inv, scale, thr, scan, n),
        last_scan(s, coeff, inv, scale, thr, scan, n) > 0 ==> exists|i: int|
            0 <= i < n && #[trigger] is_coded(s, coeff, inv, scale, thr, i) && scan[i]
                == last_scan(s, coeff, inv, scale, thr, scan, n),
        0 <= coded_count(s, coeff, inv, scale, thr, n) <= n,
        coded_count(s, coeff, inv, scale, thr, n) == 0 ==> forall|i: int|
            0 <= i < n ==> !#[trigger] is_coded(s, coeff, inv, scale, thr, i),
    decreases n,
{
    if n > 0 {
        law_last_scan_is_the_last(s, coeff, inv, scale, thr, scan, n - 1);
        let here = is_coded(s, coeff, inv, scale, thr, n - 1);
    }
}

/// Bits of sizes and of zeros count one for one in the rate of a block, and every coded
/// coefficient counts eight fifths of a bit besides what their number costs.
pub proof fn law_rates_count_every_bit(nonzero: int, bits: Fixed, more: Fixed, zeros: Fixed)
    requires
        0 <= nonzero <= 4096,
        0 <= bits.raw <= 0x1_0000_0000,
        0 <= more.raw <= 0x1_0000_0000,
        0 <= zeros.raw <= 0x1_0000_0000,
        ({
            let count = crate::fast_math::log2p1_estimate(Fixed::ratio_spec(nonzero as i64, 1));
            0 <= count.raw <= 0x1_0000_0000
        }),
    ensures
        rate_of(nonzero, bits.plus_spec(more), zeros).raw == rate_of(nonzero, bits, zeros).raw
            + more.raw,
        rate_of(nonzero, bits, zeros.plus_spec(more)).raw == rate_of(nonzero, bits, zeros).raw
            + more.raw,
        rate_of(nonzero, bits, zeros).raw * 10 >= nonzero * 16 * 65535 + (bits.raw + zeros.raw) * 10
            - 10,
{
    let count = Fixed::ratio_spec(nonzero as i64, 1);
    assert(count.raw == nonzero * 65536);
    assert(Fixed::ratio_spec(8, 5).raw == 104857);
    assert(Fixed::ratio_spec(2, 5).raw == 26214);
    let each = count.times_spec(Fixed::ratio_spec(8, 5));
    assert(each.raw == nonzero * 104857);
    let l = crate::fast_math::log2p1_estimate(count).raw as int;
    let f = Fixed::ratio_spec(2, 5).times_spec(crate::fast_math::log2p1_estimate(count));
    assert(0 <= f.raw <= 0x1_0000_0000);
}

/// Coefficients below their threshold are quantized to nothing, the others to the nearest.
pub proof fn law_quantized_coefficients_are_nearest(
    s: QuantShape,
    coeff: Seq<Fixed>,
    qm: Seq<Fixed>,
    scale: Fixed,
    thr: Seq<Fixed>,
    i: int,
)
    requires
        usual(in_steps(qm, coeff, scale, i)),
    ensures
        ({
            let v = in_steps(qm, coeff, scale, i);
            let level = ac_level(s, coeff, qm, scale, thr, i);
            &&& magnitude_spec(v).raw < s.threshold(thr, i).raw ==> level == 0
            &&& s.threshold(thr, i).raw <= magnitude_spec(v).raw ==> -32768 <= level * 65536 - v.raw
                <= 32768
        }),
{
    law_away_levels_are_nearest(in_steps(qm, coeff, scale, i));
}

/// A chroma mean is coded less what luma predicts: nothing is left where luma predicts all
/// of it, and all of it where luma predicts nothing.
pub proof fn law_chroma_means_lose_what_luma_predicts(v: Fixed, y: i16, scale: Fixed, cfl: Fixed)
    requires
        usual(v.times_spec(scale)),
        -0x1_0000_0000 <= v.raw <= 0x1_0000_0000,
        -0x1_0000_0000 <= scale.raw <= 0x1_0000_0000,
        -0x1_0000_0000 <= cfl.raw <= 0x1_0000_0000,
    ensures
        dc_without_luma(v, y, scale, cfl).raw == v.times_spec(scale).raw - y * cfl.raw,
        v.times_spec(scale).raw == y * cfl.raw ==> away_level(
            dc_without_luma(v, y, scale, cfl),
        ) == 0,
        y == 0 || cfl.raw == 0 ==> dc_without_luma(v, y, scale, cfl) == v.times_spec(scale),
{
    assert(Fixed::ratio_spec(y as i64, 1).raw == y * 65536);
    let (a, b) = (y as int, cfl.raw as int);
    assert((a * 65536) * (-b) == -(a * b * 65536) && -(0x8000 * 0x1_0000_0000) <= a * b <= 0x8000
        * 0x1_0000_0000) by (nonlinear_arith)
        requires
            -0x8000 <= a <= 0x8000,
            -0x1_0000_0000 <= b <= 0x1_0000_0000,
    ;
    assert(a == 0 || b == 0 ==> a * b == 0) by (nonlinear_arith);
    let t = Fixed::ratio_spec(y as i64, 1).times_spec(Fixed::zero_spec().minus_spec(cfl));
    assert(t.raw == -(a * b));
    if v.times_spec(scale).raw == y * cfl.raw {
        lemma_away(Fixed { raw: 0 });
    }
}

/// Taking luma's share out of a chroma error again leaves the error as it was.
pub proof fn law_combined_errors_come_apart(spatial: Seq<Fixed>, luma: Seq<Fixed>, factor: Fixed)
    requires
        luma.len() == spatial.len(),
        -0x1_0000_0000 <= factor.raw <= 0x1_0000_0000,
        forall|i: int|
            0 <= i < spatial.len() ==> -0x1_0000_0000 <= (#[trigger] spatial[i]).raw
                <= 0x1_0000_0000,
        forall|i: int|
            0 <= i < luma.len() ==> -0x1_0000_0000 <= (#[trigger] luma[i]).raw <= 0x1_0000_0000,
    ensures
        combined(combined(spatial, luma, factor), luma, opposite(factor)) == spatial,
        combined(spatial, luma, Fixed::zero_spec()) == spatial,
        combined(Seq::new(luma.len(), |i: int| Fixed::zero_spec()), luma, Fixed { raw: 65536 })
            == luma,
{
    let there = combined(spatial, luma, factor);
    let back = combined(there, luma, opposite(factor));
    assert forall|i: int| 0 <= i < spatial.len() implies back[i] == spatial[i] by {
        let (f, l, e) = (factor.raw as int, luma[i].raw as int, spatial[i].raw as int);
        assert(-0x1_0000_0000 <= luma[i].raw <= 0x1_0000_0000);
        assert(-0x1_0000_0000 <= spatial[i].raw <= 0x1_0000_0000);
        assert((-f) * l == -(f * l) && -(0x1_0000_0000 * 0x1_0000_0000) <= f * l <= 0x1_0000_0000
            * 0x1_0000_0000) by (nonlinear_arith)
            requires
                -0x1_0000_0000 <= f <= 0x1_0000_0000,
                -0x1_0000_0000 <= l <= 0x1_0000_0000,
        ;
    }
    assert(back =~= spatial);
    assert forall|i: int| 0 <= i < spatial.len() implies combined(
        spatial,
        luma,
        Fixed::zero_spec(),
    )[i] == spatial[i] by {
        let l = luma[i].raw as int;
        assert(0 * l == 0);
    }
    assert(combined(spatial, luma, Fixed::zero_spec()) =~= spatial);
    let all = combined(
        Seq::new(luma.len(), |i: int| Fixed::zero_spec()),
        luma,
        Fixed { raw: 65536 },
    );
    assert forall|i: int| 0 <= i < luma.len() implies all[i] == luma[i] by {
        let l = luma[i].raw as int;
        assert(65536 * l == l * 65536);
    }
    assert(all =~= luma);
}

/// A reconstruction and its error make up the original.
pub proof fn law_reconstruction_and_error_make_up_the_original<A: Amount>(
    original: Block<A>,
    error: Block<A>,
    w: int,
    h: int,
    x: int,
    y: int,
)
    requires
        exact::<A>(),
        sized(original, w, h),
        sized(error, w, h),
        0 <= x < w,
        0 <= y < h,
    ensures
        without_error(original, error)[y][x].plus_spec(error[y][x]) == original[y][x],
{
    assert(original[y].len() == w);
    lemma_difference_undone(original[y][x], error[y][x]);
}

/// Means held to their range keep their order and stay as they are within it.
pub proof fn law_means_are_held_to_their_range(n: int, m: int)
    requires
        n <= m,
    ensures
        held16(n) <= held16(m),
        i16::MIN <= n <= i16::MAX ==> held16(n) == n,
{
}

/// Each number of a colour is the nearest to its own sample in steps, luma first.
pub proof fn law_colours_are_nearest(x: Fixed, y: Fixed, b: Fixed, s: XybScales<Fixed>)
    requires
        usual(x.times_spec(s.x)),
        usual(y.times_spec(s.y)),
        usual(b.times_spec(s.b)),
    ensures
        -32768 <= colour_of(x, y, b, s).0 * 65536 - y.times_spec(s.y).raw <= 32768,
        -32768 <= colour_of(x, y, b, s).1 * 65536 - x.times_spec(s.x).raw <= 32768,
        -32768 <= colour_of(x, y, b, s).2 * 65536 - b.times_spec(s.b).raw <= 32768,
{
    law_away_levels_are_nearest(x.times_spec(s.x));
    law_away_levels_are_nearest(y.times_spec(s.y));
    law_away_levels_are_nearest(b.times_spec(s.b));
}

/// A plane of a shaped pixel weighs each of its samples by its own entry of the matrix:
/// with a single entry of one and the others nothing it is the sample of that entry.
pub proof fn law_matrices_pick_their_samples(
    lut: Seq<Fixed>,
    matrix: Seq<Fixed>,
    pixel: (u16, u16, u16),
    row: int,
    k: int,
)
    requires
        0 <= row < 3,
        0 <= k < 3,
        matrix.len() == 9,
        matrix[3 * row + k].raw == FIXED_ONE,
        forall|i: int| 3 * row <= i < 3 * row + 3 && i != 3 * row + k ==> (#[trigger] matrix[i]).raw
            == 0,
    ensures
        shaped_value(lut, matrix, pixel, row) == lut[(if k == 0 {
            pixel.0
        } else if k == 1 {
            pixel.1
        } else {
            pixel.2
        }) as int],
{
    let (a, b, c) = (lut[pixel.0 as int], lut[pixel.1 as int], lut[pixel.2 as int]);
    assert(k != 0 ==> matrix[3 * row].raw == 0);
    assert(k != 1 ==> matrix[3 * row + 1].raw == 0);
    assert(k != 2 ==> matrix[3 * row + 2].raw == 0);
    let (p, q, r) = (matrix[3 * row], matrix[3 * row + 1], matrix[3 * row + 2]);
    lemma_one_or_nothing(a, a);
    lemma_one_or_nothing(b, a.times_spec(p));
    lemma_one_or_nothing(c, b.fused_spec(q, a.times_spec(p)));
}

/// A sample weighed by one is itself, and one weighed by nothing leaves what it is added to.
proof fn lemma_one_or_nothing(v: Fixed, addend: Fixed)
    ensures
        v.times_spec((Fixed { raw: 65536 })) == v,
        v.times_spec((Fixed { raw: 0 })).raw == 0,
        v.fused_spec((Fixed { raw: 0 }), addend) == addend,
        addend.raw == 0 ==> v.fused_spec((Fixed { raw: 65536 }), addend) == v,
{
    lemma_one_is_neutral(v);
    let n = v.raw as int;
    assert(n * 0 == 0);
    if n >= 0 {
        assert((n * 65536) / 65536 == n);
    } else {
        assert(((-n) * 65536) / 65536 == -n);
    }
}

/// A fine transform is admitted only where it saves something after its charge, and what
/// is reported is what it saves; cheaper ones are admitted with it.
pub proof fn law_fine_transforms_save_what_is_reported(
    charge: FineCharge<Fixed>,
    incumbent: u8,
    cost: Fixed,
    fine: Fixed,
    finer: Fixed,
)
    requires
        0 <= charge.lambda.raw <= 0x1_0000_0000,
        0 <= charge.bits.raw <= 0x100_0000,
        0 <= charge.leaf_extra_bits.raw <= 0x100_0000,
        0 <= cost.raw <= 0x1_0000_0000_0000,
        0 <= finer.raw <= fine.raw <= 0x1_0000_0000_0000,
    ensures
        admitted_gain(charge, incumbent, cost, fine) matches Some(g) ==> {
            &&& 0 < g.raw
            &&& fine.raw + g.raw <= cost.raw
            &&& incumbent == STRATEGY_DCT && charge.bits.raw == 0 ==> fine.raw + g.raw == cost.raw
            &&& admitted_gain(charge, incumbent, cost, finer) matches Some(h) && g.raw <= h.raw
        },
        cost.raw <= fine.raw ==> admitted_gain(charge, incumbent, cost, fine) is None,
        admitted_gain(charge, incumbent, cost, fine) is Some ==> admitted_gain(
            charge,
            STRATEGY_DCT,
            cost,
            fine,
        ) is Some,
{
    let extra = if incumbent == STRATEGY_DCT {
        Fixed::zero_spec()
    } else {
        charge.leaf_extra_bits
    };
    let bits = charge.bits.plus_spec(extra);
    let (l, b, p) = (charge.lambda.raw as int, bits.raw as int, charge.bits.raw as int);
    assert(0 <= l * p <= l * b <= 0x1_0000_0000 * 0x200_0000 && (b == 0 ==> l * b == 0))
        by (nonlinear_arith)
        requires
            0 <= l <= 0x1_0000_0000,
            0 <= p <= b <= 0x200_0000,
    ;
    let margin = knob_spec::<Fixed>(FINE_RECON_MARGIN);
    assert(margin.raw == 64225);
    assert(cost.times_spec(margin).raw == (cost.raw * 64225) / 65536);
    assert(cost.times_spec(margin).raw <= cost.raw);
    assert(charge.bits.plus_spec(Fixed::zero_spec()) == charge.bits);
}

/// Of the two finest transforms the shortlist takes the cheaper, and it takes none that is
/// not cheaper than the 8x8 DCT.
pub proof fn law_shortlists_beat_the_plain_transform(
    c: Sub8Costs<Fixed>,
    distance: Fixed,
    bias: Fixed,
)
    ensures
        shortlist_of(c, distance, bias).structural matches Some(p) ==> p.biased_j.raw < c.dct8.raw
            && (p.gain.raw > 0),
        shortlist_of(c, distance, bias).fine matches Some(p) ==> p.biased_j.raw < c.dct8.raw,
        shortlist_of(c, distance, bias).structural is None ==> c.dct8.raw <= shortlist_of(
            c,
            distance,
            bias,
        ).structural_cost.raw,
        fine_best(c, distance).biased.raw <= crate::tuning::fine_bias(
            knob_spec(crate::sub8::IDENTITY_BIAS),
            distance,
        ).times_spec(c.identity).raw,
        fine_best(c, distance).biased.raw <= crate::tuning::fine_bias(
            knob_spec(crate::sub8::DCT2X2_BIAS),
            distance,
        ).times_spec(c.dct2x2).raw,
        fine_best(c, distance).raw == c.identity || fine_best(c, distance).raw == c.dct2x2,
{
}

/// A child of a mosaic that is not an 8x8 DCT is charged for more bits than one that is,
/// and one that is costs what it would outside a mosaic.
pub proof fn law_fine_children_are_charged(p: RerankParams<Fixed>, c: ReconCost<Fixed>, ci: int)
    requires
        0 <= p.fine_lambda.raw <= 0x1_0000_0000,
        0 <= p.meta_r.raw <= 0x1_0000_0000,
        0 <= c.rate.raw <= 0x1_0000_0000,
        0 <= c.distortion.raw <= 0x1_0000_0000_0000,
        ci != 0,
    ensures
        child_rd(p, c, 0) == fine_rd(p, c),
        ({
            let more = child_rd(p, c, ci).raw - child_rd(p, c, 0).raw;
            more == FINE_MOSAIC_RATE_CORRECTION_BITS * p.fine_lambda.raw
        }),
{
    let bits = Fixed::ratio_spec(FINE_MOSAIC_RATE_CORRECTION_BITS, 1);
    assert(bits.raw == 8 * 65536);
    let r = c.rate.plus_spec(p.meta_r);
    assert(r.plus_spec(Fixed::zero_spec()) == r);
    let (l, n) = (p.fine_lambda.raw as int, r.raw as int);
    assert(0 <= l * n <= 0x1_0000_0000 * 0x2_0000_0000 && l * (n + 8 * 65536) == l * n + (8 * l)
        * 65536) by (nonlinear_arith)
        requires
            0 <= l <= 0x1_0000_0000,
            0 <= n <= 0x2_0000_0000,
    ;
}

/// A hue loss is costly from some loss on, and the later the dearer bits are.
pub proof fn law_costly_hues_stay_costly(near: Fixed, far: Fixed, cheap: Fixed, dear: Fixed)
    requires
        near.raw <= far.raw,
        0 <= cheap.raw <= dear.raw <= 0x1_0000_0000_0000,
    ensures
        hue_is_costly(near, dear) ==> hue_is_costly(far, cheap),
        hue_is_costly(near, dear) <==> near.raw > 16 * dear.raw,
{
    assert(Fixed::ratio_spec(16, 1).raw == 16 * 65536);
}

/// A repair of the hue is safe only where it lowers the hue loss and the cost and its seams
/// take back no more than it gains; a better repair of a safe one is safe.
pub proof fn law_hue_repairs_gain(
    reference: Fixed,
    hue: Fixed,
    rd: Fixed,
    incumbent: Fixed,
    seams: Fixed,
    hue2: Fixed,
    rd2: Fixed,
    seams2: Fixed,
)
    requires
        0 <= reference.raw <= 0x1_0000_0000_0000,
        0 <= hue2.raw <= hue.raw <= 0x1_0000_0000_0000,
        0 < incumbent.raw <= 0x1_0000_0000_0000,
        rd2.raw <= rd.raw,
        seams2.raw <= seams.raw,
    ensures
        hue_repair_is_safe(reference, hue, rd, incumbent, seams) ==> {
            &&& hue.raw < reference.raw
            &&& rd.raw < incumbent.raw
            &&& seams.raw <= reference.raw - hue.raw
            &&& hue_repair_is_safe(reference, hue2, rd2, incumbent, seams2)
        },
{
    let (few, most) = (Fixed::ratio_spec(5, 100), Fixed::ratio_spec(95, 100));
    assert(few.raw == 3276);
    assert(most.raw == 62259);
    assert(few.times_spec(reference).raw == (3276 * reference.raw) / 65536);
    assert(most.times_spec(incumbent).raw == (62259 * incumbent.raw) / 65536);
}

} // verus!
