//! Fitted knobs of the transform choice, and how they move with the distance.

use crate::amount::{clamped, clamped_spec, truncated_quotient, Amount, Fixed, FIXED_ONE};
use crate::fast_math::{exp2_estimate, fast_exp2};
use crate::scope::{SearchScope, Speed};
use crate::super_block::MergeTuning;
use vstd::prelude::*;

verus! {

/// Knobs are given in billionths.
pub const BILLION: u64 = 1_000_000_000;

/// Up to this distance only 8x8 DCTs are used.
pub const DCT8_ONLY_MAX_DISTANCE: i64 = 56_713_393;

/// Above this distance the search for squares stops reranking.
pub const FAST_RERANK_MAX_DISTANCE: i64 = 1_709_099_122;

/// The band in which a knob moves from its high-quality to its base value.
pub const MERGE_BAND_D0: i64 = 500_000_000;

pub const MERGE_BAND_D1: i64 = 1_500_000_000;

/// Bits charged once per transform for metadata.
pub const META_R: i64 = 4_000_000_000;

/// The same in the rerank.
pub const RERANK_META_R: i64 = 2_646_573_975;

/// Price of a bit.
pub const RD_LAMBDA: i64 = 80_867_170;

/// Factors on the price of a bit in the rerank, and the band in which it moves
/// from the one to the other.
pub const RERANK_LAMBDA_LO: i64 = 250_000_000;

pub const RERANK_LAMBDA_HI: i64 = 10_000_000_000;

pub const RERANK_LAMBDA_D0: i64 = 1_000_000_000;

pub const RERANK_LAMBDA_D1: i64 = 4_000_000_000;

/// Banded knobs: the high-quality value, then the base value.
pub const RERANK_DOWNGRADE_MARGIN: [i64; 2] = [1_000_000_000, 909_845_441];

pub const BIAS_RECT: [i64; 2] = [1_026_200_700, 915_000_000];

pub const BIAS_16X16: [i64; 2] = [1_205_927_500, 1_050_000_000];

pub const BIAS_32X32: [i64; 2] = [1_205_927_500, 1_060_000_000];

pub const BIAS_RECT32: [i64; 2] = [1_326_520_200, 1_020_000_000];

pub const MERGE_MARGIN_PAIR: [i64; 2] = [36_252_015, 72_000_000];

pub const MERGE_MARGIN_16: [i64; 2] = [192_438_880, 48_000_000];

pub const MERGE_MARGIN_32_RECT: [i64; 2] = [161_916_720, 290_000_000];

pub const MERGE_MARGIN_32: [i64; 2] = [329_207_820, 360_000_000];

pub const BIAS_AFV: [i64; 2] = [1_150_000_000, 1_250_000_000];

/// Factors on the costs of the transforms below 8x8.
pub const BIAS_4X4: i64 = 1_330_000_000;

pub const BIAS_4X8: i64 = 1_090_000_000;

/// Fading of the merge margins at low quality.
pub const MERGE_MARGIN_LOWQ_FRACTION: i64 = 820_000_000;

pub const MERGE_MARGIN_LOWQ3_D: i64 = 3_850_000_000;

pub const MERGE_MARGIN_LOWQ3_SCALE: i64 = 1_100_000_000;

pub const MERGE_MARGIN_FADE_START: i64 = 1_000_000_000;

pub const MERGE_MARGIN_FADE_END: i64 = 4_000_000_000;

/// Up to this distance the transforms below 8x8 compete.
pub const SUB8_MAX_DISTANCE: i64 = 1_500_000_000;

pub const AFV_MAX_DISTANCE: i64 = 1_500_000_000;

pub const LEAF_FIRST_MAX_DISTANCE: i64 = 1_500_000_000;

/// Up to this distance the identity and the 2x2 transform compete.
pub const FINE_TRANSFORM_MAX_DISTANCE: i64 = 5_000_000_000;

/// Factor that these must stay below in reconstruction.
pub const FINE_RECON_MARGIN: i64 = 980_000_000;

/// The band of very low quality, and the values that the knobs move to in it.
pub const VLQ_D0: i64 = 4_000_000_000;

pub const VLQ_D1: i64 = 7_500_000_000;

pub const VLQ_MARGIN_PAIR: i64 = -5_000_000;

pub const VLQ_MARGIN_16: i64 = 67_000_000;

pub const VLQ_MARGIN_32_RECT: i64 = 363_000_000;

pub const VLQ_MARGIN_32: i64 = 45_000_000;

pub const VLQ_BIAS_RECT: i64 = 1_073_000_000;

pub const VLQ_BIAS_16X16: i64 = 880_000_000;

pub const VLQ_BIAS_32X32: i64 = 867_000_000;

pub const VLQ_BIAS_RECT32: i64 = 1_180_000_000;

pub const VLQ_RERANK_MARGIN: i64 = 782_000_000;

pub const VLQ_ACCEPT_64: i64 = 973_000_000;

pub const VLQ_ACCEPT_64_RECT: i64 = 736_000_000;

/// Where the 64-pixel transforms are searched, and their factors.
pub const DCT64_MIN_DISTANCE: i64 = 3_000_000_000;

pub const DCT64_WINDOW_LO: i64 = 1_000_000_000;

pub const DCT64_WINDOW_HI: i64 = 2_250_000_000;

pub const BIAS_64X64: i64 = 1_000_000_000;

pub const BIAS_64_RECT: i64 = 1_000_000_000;

pub const ACCEPT_64: i64 = 945_000_000;

pub const ACCEPT_64_RECT: i64 = 642_000_000;

/// Strength of the quantizer field's modulation, and where it fades.
pub const AQ_PEAK: i64 = 800_000_000;

pub const AQ_FADE_START: i64 = 1_000_000_000;

pub const AQ_FADE_END: i64 = 1_750_000_000;

/// How strongly heterogeneous regions hold merges back: log2(e).
pub const MERGE_RISK_K: i64 = 1_442_695_041;

/// Weights of the gradient terms of rectangular pairs, and where they fade.
pub const RERANK_PAIR_GRADIENT_ALPHA: i64 = 8_000_000_000;

pub const RERANK_PAIR_GRADIENT_MIN_DOMINANCE: i64 = 400_000_000;

pub const RERANK_PAIR_GRADIENT_FADE: [i64; 4] = [
    500_000_000,
    800_000_000,
    1_000_000_000,
    1_500_000_000,
];

pub const RERANK_PAIR_GRADIENT_PEAK_FADE: [i64; 4] = [
    1_200_000_000,
    1_800_000_000,
    3_000_000_000,
    3_500_000_000,
];

pub const RERANK_PAIR_GRADIENT_PEAK_COARSE: [i64; 2] = [1_900_000_000, 2_000_000_000];

pub const RERANK_PAIR_GRADIENT_PEAK_ALPHA: i64 = 192_000_000_000;

pub const RERANK_PAIR_GRADIENT_PEAK_COARSE_ALPHA: i64 = 96_000_000_000;

pub const RERANK_PAIR_GRADIENT_PEAK_MIN_DOMINANCE: i64 = 400_000_000;

pub const RERANK_PAIR_GRADIENT_PEAK_MIN_LUMA: i64 = 450_000_000;

pub const RERANK_PAIR_GRADIENT_PEAK_MAX_COARSE_CHROMA: i64 = 10_000_000;

/// Weight of the hue term, and where it fades in.
pub const RERANK_RGB_HUE_ALPHA: i64 = 800_000_000_000;

pub const RERANK_RGB_HUE_START: i64 = 350_000_000;

pub const RERANK_RGB_HUE_SPAN: i64 = 400_000_000;

/// The amount that a number of billionths stands for.
pub open spec fn knob_spec<A: Amount>(n: i64) -> A {
    A::ratio_spec(n, BILLION)
}

/// The amount that a number of billionths stands for.
pub fn knob<A: Amount>(n: i64) -> (r: A)
    ensures
        r == knob_spec::<A>(n),
{
    A::ratio(n, BILLION)
}

/// How far `distance` has come from `start` to `end`, from 0 to 1.
pub open spec fn ramp_spec<A: Amount>(distance: A, start: i64, end: i64) -> A {
    clamped_spec(
        distance.minus_spec(knob_spec(start)).over_spec(
            knob_spec::<A>(end).minus_spec(knob_spec(start)),
        ),
        A::zero_spec(),
        A::ratio_spec(1, 1),
    )
}

/// How far `distance` has come from `start` to `end`, from 0 to 1.
pub fn ramp<A: Amount>(distance: A, start: i64, end: i64) -> (r: A)
    ensures
        r == ramp_spec(distance, start, end),
{
    clamped(
        distance.minus(knob(start)).over(knob::<A>(end).minus(knob(start))),
        A::zero(),
        A::ratio(1, 1),
    )
}

/// A point on the way from `from` to `to`.
pub open spec fn mix_spec<A: Amount>(t: A, from: A, to: A) -> A {
    t.fused_spec(to.minus_spec(from), from)
}

/// A point on the way from `from` to `to`.
pub fn mix<A: Amount>(t: A, from: A, to: A) -> (r: A)
    ensures
        r == mix_spec(t, from, to),
{
    t.fused(to.minus(from), from)
}

/// A banded knob at a distance.
pub open spec fn banded_spec<A: Amount>(knobs: Seq<i64>, distance: A) -> A {
    mix_spec(
        ramp_spec(distance, MERGE_BAND_D0, MERGE_BAND_D1),
        knob_spec(knobs[0]),
        knob_spec(knobs[1]),
    )
}

/// A banded knob at a distance.
pub fn banded<A: Amount>(knobs: &[i64; 2], distance: A) -> (r: A)
    ensures
        r == banded_spec(knobs@, distance),
{
    mix(ramp(distance, MERGE_BAND_D0, MERGE_BAND_D1), knob(knobs[0]), knob(knobs[1]))
}

/// Arithmetic that keeps its place on the line: the strict comparison is an order in
/// which no two amounts are level, differences and quotients by what is positive keep
/// that order, an amount less itself is nothing and over itself is one, and a factor
/// of nothing or of one leaves nothing or the whole.
pub open spec fn keeps_the_line<A: Amount>() -> bool {
    let zero = A::zero_spec();
    let one = A::ratio_spec(1, 1);
    &&& zero.less_spec(one)
    &&& forall|a: A, b: A| #[trigger] a.less_spec(b) ==> !b.less_spec(a)
    &&& forall|a: A, b: A| !(#[trigger] a.less_spec(b)) && !b.less_spec(a) ==> a == b
    &&& forall|a: A, b: A, c: A|
        #![trigger a.less_spec(b), b.less_spec(c)]
        a.less_spec(b) && b.less_spec(c) ==> a.less_spec(c)
    &&& forall|a: A, b: A| #[trigger] a.at_most_spec(b) == !b.less_spec(a)
    &&& forall|a: A| #[trigger] a.minus_spec(a) == zero
    &&& forall|a: A, b: A| a.less_spec(b) ==> zero.less_spec(#[trigger] b.minus_spec(a))
    &&& forall|a: A, b: A, c: A|
        #![trigger a.minus_spec(c), b.minus_spec(c)]
        a.at_most_spec(b) ==> a.minus_spec(c).at_most_spec(b.minus_spec(c))
    &&& forall|c: A| zero.less_spec(c) ==> #[trigger] c.over_spec(c) == one
    &&& forall|c: A| zero.less_spec(c) ==> #[trigger] zero.over_spec(c) == zero
    &&& forall|a: A, b: A, c: A|
        #![trigger a.over_spec(c), b.over_spec(c)]
        zero.less_spec(c) && a.at_most_spec(b) ==> a.over_spec(c).at_most_spec(b.over_spec(c))
    &&& forall|a: A| #[trigger] a.times_spec(zero) == zero
    &&& forall|a: A| #[trigger] a.times_spec(one) == a
    &&& forall|a: A, b: A| #[trigger] zero.fused_spec(a, b) == b
}

/// The fixed-point format keeps its place on the line.
pub proof fn law_fixed_keeps_the_line()
    ensures
        keeps_the_line::<Fixed>(),
{
    let zero = Fixed::zero_spec();
    let one = Fixed::ratio_spec(1, 1);
    assert(one.raw == FIXED_ONE);
    assert forall|c: Fixed| zero.less_spec(c) implies #[trigger] c.over_spec(c) == one by {
        let n = c.raw as int;
        assert((n * FIXED_ONE) / n == FIXED_ONE) by (nonlinear_arith)
            requires
                n > 0,
        ;
        assert(n * FIXED_ONE >= 0);
    }
    assert forall|c: Fixed| zero.less_spec(c) implies #[trigger] zero.over_spec(c) == zero by {
        let n = c.raw as int;
        assert(0int / n == 0) by (nonlinear_arith)
            requires
                n > 0,
        ;
    }
    assert forall|a: Fixed, b: Fixed, c: Fixed|
        #![trigger a.over_spec(c), b.over_spec(c)]
        zero.less_spec(c) && a.at_most_spec(b) implies a.over_spec(c).at_most_spec(
        b.over_spec(c),
    ) by {
        lemma_quotients_keep_order(
            a.raw * FIXED_ONE,
            b.raw * FIXED_ONE,
            c.raw as int,
        );
    }
    assert forall|a: Fixed| #[trigger] a.times_spec(one) == a by {
        assert(truncated_quotient(a.raw * FIXED_ONE, FIXED_ONE as int) == a.raw);
    }
    assert forall|a: Fixed| #[trigger] a.times_spec(zero) == zero by {
        assert(a.raw * zero.raw == 0) by (nonlinear_arith)
            requires
                zero.raw == 0,
        ;
    }
    assert forall|a: Fixed, b: Fixed| #[trigger] zero.fused_spec(a, b) == b by {
        assert(zero.raw * a.raw == 0);
    }
    assert forall|a: Fixed, b: Fixed|
        !(#[trigger] a.less_spec(b)) && !b.less_spec(a) implies a == b by {
        assert(a.raw == b.raw);
    }
}

proof fn lemma_quotients_keep_order(a: int, b: int, c: int)
    requires
        a <= b,
        0 < c,
    ensures
        truncated_quotient(a, c) <= truncated_quotient(b, c),
{
    if 0 <= a {
        assert(a / c <= b / c) by (nonlinear_arith)
            requires
                a <= b,
                0 < c,
        ;
    } else if b < 0 {
        assert((-b) / c <= (-a) / c) by (nonlinear_arith)
            requires
                -b <= -a,
                0 < c,
        ;
    } else {
        assert(0 <= (-a) / c && 0 <= b / c) by (nonlinear_arith)
            requires
                0 <= -a,
                0 <= b,
                0 < c,
        ;
    }
}

proof fn lemma_way_ends<A: Amount>(distance: A, start: A, span: A)
    requires
        keeps_the_line::<A>(),
        A::zero_spec().less_spec(span),
    ensures
        ({
            let t = clamped_spec(
                distance.minus_spec(start).over_spec(span),
                A::zero_spec(),
                A::ratio_spec(1, 1),
            );
            &&& distance.at_most_spec(start) ==> t == A::zero_spec()
            &&& span.at_most_spec(distance.minus_spec(start)) ==> t == A::ratio_spec(1, 1)
        }),
{
    let zero = A::zero_spec();
    let one = A::ratio_spec(1, 1);
    let way = distance.minus_spec(start);
    let t = way.over_spec(span);
    if distance.at_most_spec(start) {
        assert(start.minus_spec(start) == zero);
        assert(way.at_most_spec(zero));
        assert(zero.over_spec(span) == zero);
        assert(t.at_most_spec(zero));
    }
    if span.at_most_spec(way) {
        assert(span.over_spec(span) == one);
        assert(one.at_most_spec(t));
        assert(zero.less_spec(one));
        assert(!t.less_spec(zero)) by {
            if t.less_spec(zero) {
                assert(t.less_spec(one));
            }
        }
    }
}

/// A banded knob holds each end flat outside its band, on every format that keeps its
/// place on the line, tells the ends of the band apart, and comes from the first value
/// to the second by adding their difference: the first value at every distance up to
/// the start of the band, the second from its end on.
pub proof fn law_banded_knobs_are_flat_outside_the_band<A: Amount>(
    knobs: Seq<i64>,
    distance: A,
)
    requires
        keeps_the_line::<A>(),
        knob_spec::<A>(MERGE_BAND_D0).less_spec(knob_spec(MERGE_BAND_D1)),
        A::ratio_spec(1, 1).fused_spec(
            knob_spec::<A>(knobs[1]).minus_spec(knob_spec(knobs[0])),
            knob_spec(knobs[0]),
        ) == knob_spec::<A>(knobs[1]),
    ensures
        distance.at_most_spec(knob_spec(MERGE_BAND_D0)) ==> banded_spec(knobs, distance)
            == knob_spec::<A>(knobs[0]),
        knob_spec::<A>(MERGE_BAND_D1).at_most_spec(distance) ==> banded_spec(knobs, distance)
            == knob_spec::<A>(knobs[1]),
{
    let start = knob_spec::<A>(MERGE_BAND_D0);
    let end = knob_spec::<A>(MERGE_BAND_D1);
    lemma_way_ends(distance, start, end.minus_spec(start));
    if end.at_most_spec(distance) {
        assert(end.minus_spec(start).at_most_spec(distance.minus_spec(start)));
    }
}

/// On the fixed-point format every banded knob holds each end flat outside its band.
pub proof fn law_fixed_banded_knobs_are_flat_outside_the_band(
    knobs: Seq<i64>,
    distance: Fixed,
)
    ensures
        distance.raw <= knob_spec::<Fixed>(MERGE_BAND_D0).raw ==> banded_spec(knobs, distance)
            == knob_spec::<Fixed>(knobs[0]),
        distance.raw >= knob_spec::<Fixed>(MERGE_BAND_D1).raw ==> banded_spec(knobs, distance)
            == knob_spec::<Fixed>(knobs[1]),
{
    let from = knob_spec::<Fixed>(knobs[0]);
    let to = knob_spec::<Fixed>(knobs[1]);
    let change = to.raw - from.raw;
    assert(to.minus_spec(from).raw == change);
    assert(FIXED_ONE * change == change * 65536);
    law_fixed_keeps_the_line();
    law_banded_knobs_are_flat_outside_the_band(knobs, distance);
}

/// Only 8x8 DCTs are used at a distance.
pub open spec fn dct8_only<A: Amount>(distance: A) -> bool {
    distance.at_most_spec(knob_spec(DCT8_ONLY_MAX_DISTANCE))
}

/// Tells whether only 8x8 DCTs are used at a distance.
pub fn use_dct8_only<A: Amount>(distance: A) -> (r: bool)
    ensures
        r == dct8_only(distance),
{
    distance.at_most(knob(DCT8_ONLY_MAX_DISTANCE))
}

/// The bias of the identity and the 2x2 transform, which are favoured at small
/// distances.
pub open spec fn fine_bias<A: Amount>(base: A, distance: A) -> A {
    let five = A::ratio_spec(5, 1);
    let t = five.minus_spec(distance).times_spec(A::ratio_spec(2, 10));
    let favor = if distance.less_spec(five) {
        A::ratio_spec(4, 10).times_spec(t).times_spec(t)
    } else {
        A::zero_spec()
    };
    base.over_spec(A::ratio_spec(8, 10)).minus_spec(favor)
}

/// The bias of the identity and the 2x2 transform.
pub fn fine_transform_bias<A: Amount>(base: A, distance: A) -> (r: A)
    ensures
        r == fine_bias(base, distance),
{
    let five: A = A::ratio(5, 1);
    let t: A = five.minus(distance).times(A::ratio(2, 10));
    let favor: A = if distance.less(five) {
        A::ratio(4, 10).times(t).times(t)
    } else {
        A::zero()
    };
    base.over(A::ratio(8, 10)).minus(favor)
}

/// The margin of a merge at a distance; it fades at low quality.
pub open spec fn margin_spec<A: Amount>(distance: A, knobs: Seq<i64>) -> A {
    let one = A::ratio_spec(1, 1);
    let fade = ramp_spec(distance, MERGE_MARGIN_FADE_START, MERGE_MARGIN_FADE_END);
    let scale = if knob_spec::<A>(MERGE_MARGIN_LOWQ3_D).at_most_spec(distance) {
        knob_spec(MERGE_MARGIN_LOWQ3_SCALE)
    } else {
        one
    };
    banded_spec(knobs, distance).times_spec(
        one.minus_spec(fade.times_spec(one.minus_spec(knob_spec(MERGE_MARGIN_LOWQ_FRACTION)))),
    ).times_spec(scale)
}

/// The margin of a merge at a distance.
pub fn merge_margin<A: Amount>(distance: A, knobs: &[i64; 2]) -> (r: A)
    ensures
        r == margin_spec(distance, knobs@),
{
    let one: A = A::ratio(1, 1);
    let fade: A = ramp(distance, MERGE_MARGIN_FADE_START, MERGE_MARGIN_FADE_END);
    let scale: A = if knob::<A>(MERGE_MARGIN_LOWQ3_D).at_most(distance) {
        knob(MERGE_MARGIN_LOWQ3_SCALE)
    } else {
        one
    };
    banded(knobs, distance).times(
        one.minus(fade.times(one.minus(knob(MERGE_MARGIN_LOWQ_FRACTION)))),
    ).times(scale)
}

/// Strength of the quantizer field's modulation at a distance.
pub open spec fn dampen_spec<A: Amount>(distance: A) -> A {
    if distance.less_spec(knob_spec(AQ_FADE_START)) {
        knob_spec(AQ_PEAK)
    } else {
        let t = distance.minus_spec(knob_spec(AQ_FADE_START)).over_spec(
            knob_spec::<A>(AQ_FADE_END).minus_spec(knob_spec(AQ_FADE_START)),
        );
        clamped_spec(
            knob_spec::<A>(AQ_PEAK).times_spec(A::ratio_spec(1, 1).minus_spec(t)),
            A::zero_spec(),
            A::ratio_spec(1, 1),
        )
    }
}

/// Strength of the quantizer field's modulation at a distance.
pub fn aq_dampen<A: Amount>(distance: A) -> (r: A)
    ensures
        r == dampen_spec(distance),
{
    if distance.less(knob(AQ_FADE_START)) {
        return knob(AQ_PEAK);
    }
    let t: A = distance.minus(knob(AQ_FADE_START)).over(
        knob::<A>(AQ_FADE_END).minus(knob(AQ_FADE_START)),
    );
    clamped(
        knob::<A>(AQ_PEAK).times(A::ratio(1, 1).minus(t)),
        A::zero(),
        A::ratio(1, 1),
    )
}

/// The fraction of the tiled cost that a merge must come in under.
pub open spec fn accept_spec<A: Amount>(distance: A, knobs: Seq<i64>) -> A {
    A::ratio_spec(1, 1).minus_spec(margin_spec(distance, knobs))
}

/// The knobs before the band of very low quality.
pub open spec fn plain_tuning<A: Amount>(distance: A) -> MergeTuning<A> {
    MergeTuning {
        bias_rect: banded_spec(BIAS_RECT@, distance),
        bias_16x16: banded_spec(BIAS_16X16@, distance),
        bias_32x32: banded_spec(BIAS_32X32@, distance),
        bias_rect32: banded_spec(BIAS_RECT32@, distance),
        accept_pair: accept_spec(distance, MERGE_MARGIN_PAIR@),
        accept_16: accept_spec(distance, MERGE_MARGIN_16@),
        accept_32_rect: accept_spec(distance, MERGE_MARGIN_32_RECT@),
        accept_32: accept_spec(distance, MERGE_MARGIN_32@),
        rerank_margin: banded_spec(RERANK_DOWNGRADE_MARGIN@, distance),
        risk_k: if A::zero_spec().less_spec(dampen_spec(distance)) {
            knob_spec(MERGE_RISK_K)
        } else {
            A::zero_spec()
        },
        accept_64: knob_spec(ACCEPT_64),
        accept_64_rect: knob_spec(ACCEPT_64_RECT),
    }
}

/// The knobs at a distance.
pub open spec fn tuning_at<A: Amount>(distance: A) -> MergeTuning<A> {
    let p = plain_tuning(distance);
    let t = ramp_spec(distance, VLQ_D0, VLQ_D1);
    let one = A::ratio_spec(1, 1);
    if A::zero_spec().less_spec(t) {
        MergeTuning {
            bias_rect: mix_spec(t, p.bias_rect, knob_spec(VLQ_BIAS_RECT)),
            bias_16x16: mix_spec(t, p.bias_16x16, knob_spec(VLQ_BIAS_16X16)),
            bias_32x32: mix_spec(t, p.bias_32x32, knob_spec(VLQ_BIAS_32X32)),
            bias_rect32: mix_spec(t, p.bias_rect32, knob_spec(VLQ_BIAS_RECT32)),
            accept_pair: mix_spec(t, p.accept_pair, one.minus_spec(knob_spec(VLQ_MARGIN_PAIR))),
            accept_16: mix_spec(t, p.accept_16, one.minus_spec(knob_spec(VLQ_MARGIN_16))),
            accept_32_rect: mix_spec(
                t,
                p.accept_32_rect,
                one.minus_spec(knob_spec(VLQ_MARGIN_32_RECT)),
            ),
            accept_32: mix_spec(t, p.accept_32, one.minus_spec(knob_spec(VLQ_MARGIN_32))),
            rerank_margin: mix_spec(t, p.rerank_margin, knob_spec(VLQ_RERANK_MARGIN)),
            risk_k: p.risk_k,
            accept_64: mix_spec(t, p.accept_64, knob_spec(VLQ_ACCEPT_64)),
            accept_64_rect: mix_spec(t, p.accept_64_rect, knob_spec(VLQ_ACCEPT_64_RECT)),
        }
    } else {
        p
    }
}

impl<A: Amount> MergeTuning<A> {
    /// The knobs at a distance.
    pub fn new(distance: A) -> (r: Self)
        ensures
            r == tuning_at(distance),
    {
        let one: A = A::ratio(1, 1);
        let p: MergeTuning<A> = MergeTuning {
            bias_rect: banded(&BIAS_RECT, distance),
            bias_16x16: banded(&BIAS_16X16, distance),
            bias_32x32: banded(&BIAS_32X32, distance),
            bias_rect32: banded(&BIAS_RECT32, distance),
            accept_pair: one.minus(merge_margin(distance, &MERGE_MARGIN_PAIR)),
            accept_16: one.minus(merge_margin(distance, &MERGE_MARGIN_16)),
            accept_32_rect: one.minus(merge_margin(distance, &MERGE_MARGIN_32_RECT)),
            accept_32: one.minus(merge_margin(distance, &MERGE_MARGIN_32)),
            rerank_margin: banded(&RERANK_DOWNGRADE_MARGIN, distance),
            risk_k: if A::zero().less(aq_dampen(distance)) {
                knob(MERGE_RISK_K)
            } else {
                A::zero()
            },
            accept_64: knob(ACCEPT_64),
            accept_64_rect: knob(ACCEPT_64_RECT),
        };
        let t: A = ramp(distance, VLQ_D0, VLQ_D1);
        if !A::zero().less(t) {
            return p;
        }
        MergeTuning {
            bias_rect: mix(t, p.bias_rect, knob(VLQ_BIAS_RECT)),
            bias_16x16: mix(t, p.bias_16x16, knob(VLQ_BIAS_16X16)),
            bias_32x32: mix(t, p.bias_32x32, knob(VLQ_BIAS_32X32)),
            bias_rect32: mix(t, p.bias_rect32, knob(VLQ_BIAS_RECT32)),
            accept_pair: mix(t, p.accept_pair, one.minus(knob(VLQ_MARGIN_PAIR))),
            accept_16: mix(t, p.accept_16, one.minus(knob(VLQ_MARGIN_16))),
            accept_32_rect: mix(t, p.accept_32_rect, one.minus(knob(VLQ_MARGIN_32_RECT))),
            accept_32: mix(t, p.accept_32, one.minus(knob(VLQ_MARGIN_32))),
            rerank_margin: mix(t, p.rerank_margin, knob(VLQ_RERANK_MARGIN)),
            risk_k: p.risk_k,
            accept_64: mix(t, p.accept_64, knob(VLQ_ACCEPT_64)),
            accept_64_rect: mix(t, p.accept_64_rect, knob(VLQ_ACCEPT_64_RECT)),
        }
    }
}

/// The exponent of two by which a region's spread of quantizers lowers an
/// acceptance factor; none where it does not.
pub open spec fn risk_exponent_spec<A: Amount>(
    k: A,
    q_min: A,
    q_max: A,
    area_scale: A,
) -> Option<A> {
    if q_min.at_most_spec(A::zero_spec()) || k.at_most_spec(A::zero_spec()) {
        None
    } else {
        let spread = q_max.over_spec(q_min).minus_spec(A::ratio_spec(1, 1));
        Some(A::zero_spec().minus_spec(k).times_spec(area_scale).times_spec(spread))
    }
}

/// An acceptance factor held back on regions of uneven quantizers.
pub open spec fn gated<A: Amount>(k: A, accept: A, q_min: A, q_max: A, area_scale: A) -> A {
    match risk_exponent_spec(k, q_min, q_max, area_scale) {
        Some(e) => accept.times_spec(exp2_estimate(e)),
        None => accept,
    }
}

/// An acceptance factor held back on regions of uneven quantizers.
pub fn risk_gated<A: Amount>(k: A, accept: A, q_min: A, q_max: A, area_scale: A) -> (r: A)
    ensures
        r == gated(k, accept, q_min, q_max, area_scale),
{
    if q_min.at_most(A::zero()) || k.at_most(A::zero()) {
        return accept;
    }
    let spread: A = q_max.over(q_min).minus(A::ratio(1, 1));
    accept.times(fast_exp2(A::zero().minus(k).times(area_scale).times(spread)))
}

/// The 64-pixel transforms are searched.
pub open spec fn dct64_searched<A: Amount>(speed: Speed, distance: A) -> bool {
    speed == Speed::Slow && (knob_spec::<A>(DCT64_MIN_DISTANCE).at_most_spec(distance)
        || knob_spec::<A>(DCT64_WINDOW_LO).at_most_spec(distance) && distance.less_spec(
        knob_spec(DCT64_WINDOW_HI),
    ))
}

/// Tells whether the 64-pixel transforms are searched.
pub fn use_dct64<A: Amount>(speed: Speed, distance: A) -> (r: bool)
    ensures
        r == dct64_searched(speed, distance),
{
    speed == Speed::Slow && (knob::<A>(DCT64_MIN_DISTANCE).at_most(distance) || knob::<A>(
        DCT64_WINDOW_LO,
    ).at_most(distance) && distance.less(knob(DCT64_WINDOW_HI)))
}

/// Merges are reranked in a scope at a distance.
pub open spec fn scope_reranks<A: Amount>(scope: SearchScope, distance: A) -> bool {
    scope == SearchScope::Full || distance.at_most_spec(knob_spec(FAST_RERANK_MAX_DISTANCE))
}

impl SearchScope {
    /// Tells whether merges are reranked at a distance.
    pub fn rerank<A: Amount>(self, distance: A) -> (r: bool)
        ensures
            r == scope_reranks(self, distance),
    {
        self == SearchScope::Full || distance.at_most(knob(FAST_RERANK_MAX_DISTANCE))
    }
}

/// A weight that fades in and out again.
pub open spec fn window_spec<A: Amount>(distance: A, fade: Seq<i64>) -> A {
    ramp_spec(distance, fade[0], fade[1]).times_spec(
        A::ratio_spec(1, 1).minus_spec(ramp_spec(distance, fade[2], fade[3])),
    )
}

/// Scale of the gradient term of rectangular pairs.
pub fn rerank_pair_gradient_scale<A: Amount>(distance: A) -> (r: A)
    ensures
        r == window_spec(distance, RERANK_PAIR_GRADIENT_FADE@),
{
    let fade: [i64; 4] = RERANK_PAIR_GRADIENT_FADE;
    ramp(distance, fade[0], fade[1]).times(A::ratio(1, 1).minus(ramp(distance, fade[2], fade[3])))
}

/// Weight of the gradient term of rectangular pairs.
pub fn rerank_pair_gradient_alpha<A: Amount>(distance: A) -> (r: A)
    ensures
        r == knob_spec::<A>(RERANK_PAIR_GRADIENT_ALPHA).times_spec(
            window_spec(distance, RERANK_PAIR_GRADIENT_FADE@),
        ),
{
    knob::<A>(RERANK_PAIR_GRADIENT_ALPHA).times(rerank_pair_gradient_scale(distance))
}

/// Weight of the peak term of rectangular pairs.
pub open spec fn peak_alpha_spec<A: Amount>(distance: A) -> A {
    let fade = RERANK_PAIR_GRADIENT_PEAK_FADE@;
    let coarse = RERANK_PAIR_GRADIENT_PEAK_COARSE@;
    mix_spec(
        ramp_spec(distance, coarse[0], coarse[1]),
        knob_spec(RERANK_PAIR_GRADIENT_PEAK_ALPHA),
        knob_spec(RERANK_PAIR_GRADIENT_PEAK_COARSE_ALPHA),
    ).times_spec(ramp_spec(distance, fade[0], fade[1])).times_spec(
        A::ratio_spec(1, 1).minus_spec(ramp_spec(distance, fade[2], fade[3])),
    )
}

/// Weight of the peak term of rectangular pairs.
pub fn rerank_pair_gradient_peak_alpha<A: Amount>(distance: A) -> (r: A)
    ensures
        r == peak_alpha_spec(distance),
{
    let fade: [i64; 4] = RERANK_PAIR_GRADIENT_PEAK_FADE;
    let coarse: [i64; 2] = RERANK_PAIR_GRADIENT_PEAK_COARSE;
    mix(
        ramp(distance, coarse[0], coarse[1]),
        knob(RERANK_PAIR_GRADIENT_PEAK_ALPHA),
        knob(RERANK_PAIR_GRADIENT_PEAK_COARSE_ALPHA),
    ).times(ramp(distance, fade[0], fade[1])).times(
        A::ratio(1, 1).minus(ramp(distance, fade[2], fade[3])),
    )
}

/// What a region's gradients look like.
#[derive(Clone, Copy)]
pub struct GradientRegionStats<A> {
    pub dominance: A,
    pub mean: A,
    pub chroma: A,
}

/// Weights of the gradient and the peak term for a transform; nothing but
/// rectangular pairs has them, and only where the gradient dominates.
pub open spec fn pair_alphas<A: Amount>(
    pair: bool,
    distance: A,
    stats: GradientRegionStats<A>,
) -> (A, A) {
    let zero = A::zero_spec();
    if !pair {
        (zero, zero)
    } else {
        let alpha = knob_spec::<A>(RERANK_PAIR_GRADIENT_ALPHA).times_spec(
            window_spec(distance, RERANK_PAIR_GRADIENT_FADE@),
        );
        let coarse_end = knob_spec::<A>(RERANK_PAIR_GRADIENT_PEAK_COARSE@[1]);
        (
            if knob_spec::<A>(RERANK_PAIR_GRADIENT_MIN_DOMINANCE).at_most_spec(stats.dominance) {
                alpha
            } else {
                zero
            },
            if knob_spec::<A>(RERANK_PAIR_GRADIENT_PEAK_MIN_DOMINANCE).at_most_spec(stats.dominance)
                && knob_spec::<A>(RERANK_PAIR_GRADIENT_PEAK_MIN_LUMA).at_most_spec(stats.mean) && (
            distance.less_spec(coarse_end) || stats.chroma.at_most_spec(
                knob_spec(RERANK_PAIR_GRADIENT_PEAK_MAX_COARSE_CHROMA),
            )) {
                peak_alpha_spec(distance)
            } else {
                zero
            },
        )
    }
}

/// Weights of the gradient and the peak term for a transform.
pub fn rerank_pair_gradient_alphas<A: Amount>(
    pair: bool,
    distance: A,
    stats: &GradientRegionStats<A>,
) -> (r: (A, A))
    ensures
        r == pair_alphas(pair, distance, *stats),
{
    let zero: A = A::zero();
    if !pair {
        return (zero, zero);
    }
    let coarse: [i64; 2] = RERANK_PAIR_GRADIENT_PEAK_COARSE;
    let coarse_end: A = knob(coarse[1]);
    let alpha: A = if knob::<A>(RERANK_PAIR_GRADIENT_MIN_DOMINANCE).at_most(stats.dominance) {
        rerank_pair_gradient_alpha(distance)
    } else {
        zero
    };
    let peak: A = if knob::<A>(RERANK_PAIR_GRADIENT_PEAK_MIN_DOMINANCE).at_most(stats.dominance)
        && knob::<A>(RERANK_PAIR_GRADIENT_PEAK_MIN_LUMA).at_most(stats.mean) && (distance.less(
        coarse_end,
    ) || stats.chroma.at_most(knob(RERANK_PAIR_GRADIENT_PEAK_MAX_COARSE_CHROMA))) {
        rerank_pair_gradient_peak_alpha(distance)
    } else {
        zero
    };
    (alpha, peak)
}

/// Weight of the hue term: it fades in and then stays, on frames that call for it.
pub open spec fn hue_alpha<A: Amount>(x_heavy: bool, distance: A) -> A {
    if x_heavy {
        knob_spec::<A>(RERANK_RGB_HUE_ALPHA).times_spec(
            clamped_spec(
                distance.minus_spec(knob_spec(RERANK_RGB_HUE_START)).over_spec(
                    knob_spec(RERANK_RGB_HUE_SPAN),
                ),
                A::zero_spec(),
                A::ratio_spec(1, 1),
            ),
        )
    } else {
        A::zero_spec()
    }
}

/// Weight of the hue term.
pub fn rerank_rgb_hue_alpha<A: Amount>(x_heavy: bool, distance: A) -> (r: A)
    ensures
        r == hue_alpha(x_heavy, distance),
{
    if !x_heavy {
        return A::zero();
    }
    knob::<A>(RERANK_RGB_HUE_ALPHA).times(
        clamped(
            distance.minus(knob(RERANK_RGB_HUE_START)).over(knob(RERANK_RGB_HUE_SPAN)),
            A::zero(),
            A::ratio(1, 1),
        ),
    )
}

/// On frames that call for the hue term its weight is nothing up to a distance of
/// 0.35, and from 0.75 on it is full, however coarse the quantization; on other frames
/// it is nothing. This holds on every format that keeps its place on the line and in
/// which 0.75 lies at least 0.4 above 0.35.
pub proof fn law_hue_weight_stays_full<A: Amount>(distance: A)
    requires
        keeps_the_line::<A>(),
        A::zero_spec().less_spec(knob_spec(RERANK_RGB_HUE_SPAN)),
        knob_spec::<A>(RERANK_RGB_HUE_SPAN).at_most_spec(
            A::ratio_spec(3, 4).minus_spec(knob_spec(RERANK_RGB_HUE_START)),
        ),
    ensures
        hue_alpha(false, distance) == A::zero_spec(),
        distance.at_most_spec(knob_spec(RERANK_RGB_HUE_START)) ==> hue_alpha(true, distance)
            == A::zero_spec(),
        A::ratio_spec(3, 4).at_most_spec(distance) ==> hue_alpha(true, distance) == knob_spec::<A>(
            RERANK_RGB_HUE_ALPHA,
        ),
{
    let start = knob_spec::<A>(RERANK_RGB_HUE_START);
    let span = knob_spec::<A>(RERANK_RGB_HUE_SPAN);
    let full = A::ratio_spec(3, 4);
    lemma_way_ends(distance, start, span);
    if full.at_most_spec(distance) {
        let least = full.minus_spec(start);
        let way = distance.minus_spec(start);
        assert(least.at_most_spec(way));
        assert(span.at_most_spec(way)) by {
            if way.less_spec(span) {
                assert(!span.less_spec(least) ==> span == least);
                assert(way.less_spec(least));
            }
        }
    }
}

/// On the fixed-point format the weight of the hue term is nothing up to a distance of
/// 0.35 and full from 0.75 on, on frames that call for it.
pub proof fn law_fixed_hue_weight_stays_full(distance: Fixed)
    ensures
        hue_alpha(false, distance) == Fixed::zero_spec(),
        distance.raw <= knob_spec::<Fixed>(RERANK_RGB_HUE_START).raw ==> hue_alpha(true, distance)
            == Fixed::zero_spec(),
        distance.raw >= Fixed::ratio_spec(3, 4).raw ==> hue_alpha(true, distance) == knob_spec::<
            Fixed,
        >(RERANK_RGB_HUE_ALPHA),
{
    assert(knob_spec::<Fixed>(RERANK_RGB_HUE_START).raw == 22937);
    assert(knob_spec::<Fixed>(RERANK_RGB_HUE_SPAN).raw == 26214);
    assert(Fixed::ratio_spec(3, 4).raw == 49152);
    law_fixed_keeps_the_line();
    law_hue_weight_stays_full(distance);
}

/// On the fixed-point format the weight of the hue term grows with every step of the
/// distance from 0.35 up to where it is full, on frames that call for it.
pub proof fn law_fixed_hue_weight_grows_on_the_way(near: Fixed, far: Fixed)
    requires
        knob_spec::<Fixed>(RERANK_RGB_HUE_START).raw <= near.raw < far.raw,
        far.raw - knob_spec::<Fixed>(RERANK_RGB_HUE_START).raw <= knob_spec::<Fixed>(
            RERANK_RGB_HUE_SPAN,
        ).raw,
    ensures
        hue_alpha(true, near).less_spec(hue_alpha(true, far)),
{
    let start = knob_spec::<Fixed>(RERANK_RGB_HUE_START);
    let span = knob_spec::<Fixed>(RERANK_RGB_HUE_SPAN);
    let alpha = knob_spec::<Fixed>(RERANK_RGB_HUE_ALPHA);
    assert(start.raw == 22937);
    assert(span.raw == 26214);
    assert(alpha.raw == 52428800);
    assert(Fixed::ratio_spec(1, 1).raw == FIXED_ONE);
    let a = near.raw - 22937;
    let b = far.raw - 22937;
    assert(near.minus_spec(start).raw == a);
    assert(far.minus_spec(start).raw == b);
    assert((a * 65536) / 26214 < (b * 65536) / 26214 <= 65536);
}

/// How distortion was measured.
#[derive(Clone, Copy, Debug, PartialEq, Eq, Structural)]
pub enum DistortionModel {
    Coefficient,
    Reconstruction,
}

/// Price of a bit.
pub open spec fn lambda_spec<A: Amount>(model: DistortionModel, distance: A) -> A {
    let lambda = knob_spec::<A>(RD_LAMBDA);
    match model {
        DistortionModel::Coefficient => lambda,
        DistortionModel::Reconstruction => {
            let recip = A::ratio_spec(1, 1).over_spec(
                knob_spec::<A>(RERANK_LAMBDA_D1).minus_spec(knob_spec(RERANK_LAMBDA_D0)),
            );
            let t = clamped_spec(
                distance.minus_spec(knob_spec(RERANK_LAMBDA_D0)).times_spec(recip),
                A::zero_spec(),
                A::ratio_spec(1, 1),
            );
            lambda.times_spec(
                mix_spec(t, knob_spec(RERANK_LAMBDA_LO), knob_spec(RERANK_LAMBDA_HI)),
            )
        },
    }
}

/// Cost of a distortion and a rate, metadata included.
pub fn rd_cost<A: Amount>(
    model: DistortionModel,
    distance: A,
    meta_r: A,
    distortion: A,
    rate: A,
) -> (r: A)
    ensures
        r == lambda_spec(model, distance).fused_spec(rate.plus_spec(meta_r), distortion),
{
    let lambda: A = knob(RD_LAMBDA);
    let price: A = match model {
        DistortionModel::Coefficient => lambda,
        DistortionModel::Reconstruction => {
            let recip: A = A::ratio(1, 1).over(
                knob::<A>(RERANK_LAMBDA_D1).minus(knob(RERANK_LAMBDA_D0)),
            );
            let t: A = clamped(
                distance.minus(knob(RERANK_LAMBDA_D0)).times(recip),
                A::zero(),
                A::ratio(1, 1),
            );
            lambda.times(mix(t, knob(RERANK_LAMBDA_LO), knob(RERANK_LAMBDA_HI)))
        },
    };
    price.fused(rate.plus(meta_r), distortion)
}

} // verus!
