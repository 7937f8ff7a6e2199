//! What a strategy costs: its coefficients, the table that quantizes them, and the
//! price of distortion and rate over the three planes.

use crate::amount::{Amount, OrderedAmount};
use crate::forward::{
    apply_cfl, coefficients_of, forward_transform, gathered_block, has_transform, predicted_off,
    storage_shape,
};
use crate::opsin::{Image3, Planes};
use crate::small_transform::Block;
use crate::strategy::{
    covered_x, covered_y, STRATEGY_AFV0, STRATEGY_AFV3, STRATEGY_DCT, STRATEGY_DCT16X16,
    STRATEGY_DCT16X32, STRATEGY_DCT2X2, STRATEGY_DCT32X16, STRATEGY_DCT32X32, STRATEGY_DCT32X64,
    STRATEGY_DCT4X4, STRATEGY_DCT4X8, STRATEGY_DCT64X32, STRATEGY_DCT64X64, STRATEGY_DCT8X4,
    STRATEGY_IDENTITY,
};
use crate::transform::{grid, lemma_row_lengths, sized, DctWeights};
use crate::tuning::{knob, knob_spec, lambda_spec, rd_cost, DistortionModel, RD_LAMBDA};
use vstd::prelude::*;

verus! {

/// Tables of quantization steps.
#[derive(Clone, Copy, Debug, PartialEq, Eq, Structural)]
pub enum StepTable {
    Dct8,
    Identity,
    Dct2x2,
    Dct4x4,
    Dct4x8,
    Afv,
    Dct16x16,
    Dct32x32,
    Dct32x16,
    Dct16x8,
    Dct64x64,
    Dct64x32,
}

/// The table of a strategy: the two directions of a rectangle share one.
pub open spec fn table_of(strategy: u8) -> StepTable {
    if strategy == STRATEGY_DCT {
        StepTable::Dct8
    } else if strategy == STRATEGY_IDENTITY {
        StepTable::Identity
    } else if strategy == STRATEGY_DCT2X2 {
        StepTable::Dct2x2
    } else if strategy == STRATEGY_DCT4X4 {
        StepTable::Dct4x4
    } else if strategy == STRATEGY_DCT4X8 || strategy == STRATEGY_DCT8X4 {
        StepTable::Dct4x8
    } else if STRATEGY_AFV0 <= strategy <= STRATEGY_AFV3 {
        StepTable::Afv
    } else if strategy == STRATEGY_DCT16X16 {
        StepTable::Dct16x16
    } else if strategy == STRATEGY_DCT32X32 {
        StepTable::Dct32x32
    } else if strategy == STRATEGY_DCT32X16 || strategy == STRATEGY_DCT16X32 {
        StepTable::Dct32x16
    } else if strategy == STRATEGY_DCT64X64 {
        StepTable::Dct64x64
    } else if strategy == STRATEGY_DCT64X32 || strategy == STRATEGY_DCT32X64 {
        StepTable::Dct64x32
    } else {
        StepTable::Dct16x8
    }
}

/// The table that quantizes the coefficients of a strategy.
pub fn step_table(strategy: u8) -> (r: StepTable)
    ensures
        r == table_of(strategy),
{
    if strategy == STRATEGY_DCT {
        StepTable::Dct8
    } else if strategy == STRATEGY_IDENTITY {
        StepTable::Identity
    } else if strategy == STRATEGY_DCT2X2 {
        StepTable::Dct2x2
    } else if strategy == STRATEGY_DCT4X4 {
        StepTable::Dct4x4
    } else if strategy == STRATEGY_DCT4X8 || strategy == STRATEGY_DCT8X4 {
        StepTable::Dct4x8
    } else if strategy >= STRATEGY_AFV0 && strategy <= STRATEGY_AFV3 {
        StepTable::Afv
    } else if strategy == STRATEGY_DCT16X16 {
        StepTable::Dct16x16
    } else if strategy == STRATEGY_DCT32X32 {
        StepTable::Dct32x32
    } else if strategy == STRATEGY_DCT32X16 || strategy == STRATEGY_DCT16X32 {
        StepTable::Dct32x16
    } else if strategy == STRATEGY_DCT64X64 {
        StepTable::Dct64x64
    } else if strategy == STRATEGY_DCT64X32 || strategy == STRATEGY_DCT32X64 {
        StepTable::Dct64x32
    } else {
        StepTable::Dct16x8
    }
}

/// What the steps of plane `c` are scaled by.
pub fn plane_multiplier<A: Amount>(c: usize, x: A, b: A) -> (r: A)
    requires
        c < 3,
    ensures
        r == (if c == 0 {
            x
        } else if c == 2 {
            b
        } else {
            A::ratio_spec(1, 1)
        }),
{
    if c == 0 {
        x
    } else if c == 2 {
        b
    } else {
        A::ratio(1, 1)
    }
}

/// A block row by row.
pub open spec fn row_by_row<A>(g: Block<A>, w: int, h: int) -> Seq<A> {
    Seq::new((w * h) as nat, |i: int| g[i / w][i % w])
}

fn lay_out<A: Amount>(g: &Vec<Vec<A>>, w: usize, h: usize) -> (r: Vec<A>)
    requires
        0 < w <= 64,
        0 < h <= 64,
        sized(grid(g@), w as int, h as int),
    ensures
        r@ == row_by_row(grid(g@), w as int, h as int),
{
    assert(grid(g@).len() == h);
    proof {
        lemma_row_lengths(g@, w as int);
    }
    let mut out: Vec<A> = Vec::new();
    let mut y: usize = 0;
    while y < h
        invariant
            y <= h,
            0 < w <= 64,
            0 < h <= 64,
            g@.len() == h,
            forall|j: int| 0 <= j < h ==> (#[trigger] g@[j])@.len() == w,
            out@ == row_by_row(grid(g@), w as int, y as int),
        decreases h - y,
    {
        let mut x: usize = 0;
        assert(w * y >= 0) by (nonlinear_arith);
        while x < w
            invariant
                x <= w,
                y < h,
                0 < w <= 64,
                0 < h <= 64,
                g@.len() == h,
                g@[y as int]@.len() == w,
                w * y >= 0,
                out@.len() == w * y + x,
                forall|i: int|
                    0 <= i < out@.len() ==> #[trigger] out@[i] == grid(g@)[i / w as int][i
                        % w as int],
            decreases w - x,
        {
            proof {
                let i = w * y + x;
                assert(w * y == y * w) by (nonlinear_arith);
                vstd::arithmetic::div_mod::lemma_fundamental_div_mod_converse(
                    i,
                    w as int,
                    y as int,
                    x as int,
                );
            }
            out.push(g[y][x]);
            x += 1;
        }
        y += 1;
        assert(w * y == w * (y - 1) + w) by (nonlinear_arith);
        assert(out@ =~= row_by_row(grid(g@), w as int, y as int));
    }
    out
}

/// The coefficients of a strategy in three planes, chroma without its prediction
/// from luma.
pub struct StrategyCoeffs<A> {
    /// Shape in units of eight.
    pub cx: usize,
    pub cy: usize,
    pub x: Vec<A>,
    pub y: Vec<A>,
    pub b: Vec<A>,
}

/// The coefficients of plane `c` row by row, before chroma is predicted.
pub open spec fn plane_coeffs<A: Amount>(
    w: DctWeights<A>,
    strategy: u8,
    v: Planes<A>,
    width: int,
    height: int,
    c: int,
    px: int,
    py: int,
    fine: Block<A>,
) -> Seq<A> {
    let shape = storage_shape(strategy);
    row_by_row(
        coefficients_of(
            w,
            strategy,
            gathered_block(
                v,
                width,
                height,
                c,
                px,
                py,
                8 * covered_x(strategy),
                8 * covered_y(strategy),
            ),
            fine,
        ),
        8 * shape.0,
        8 * shape.1,
    )
}

/// Coefficients of the identity or the 2x2 transform in three planes, where one of
/// them is the strategy.
pub struct FineBlocks<A> {
    pub x: Vec<Vec<A>>,
    pub y: Vec<Vec<A>>,
    pub b: Vec<Vec<A>>,
}

fn plane_coefficients<A: Amount>(
    w: &DctWeights<A>,
    strategy: u8,
    img: &Image3<A>,
    c: usize,
    px: usize,
    py: usize,
    fine: Vec<Vec<A>>,
) -> (r: Vec<A>)
    requires
        has_transform(strategy),
        img.wf(),
        img.width() > 0,
        img.height() > 0,
        c < 3,
        px + 64 <= usize::MAX,
        py + 64 <= usize::MAX,
        strategy == STRATEGY_IDENTITY || strategy == STRATEGY_DCT2X2 ==> sized(
            grid(fine@),
            8,
            8,
        ),
    ensures
        r@ == plane_coeffs(
            *w,
            strategy,
            img@,
            img.width() as int,
            img.height() as int,
            c as int,
            px as int,
            py as int,
            grid(fine@),
        ),
        r@.len() == 64 * storage_shape(strategy).0 * storage_shape(strategy).1,
{
    let (cx, cy): (usize, usize) = crate::forward::coefficient_shape(strategy);
    let g: Vec<Vec<A>> = forward_transform(w, strategy, img, c, px, py, fine);
    assert((8 * cx) * (8 * cy) == 64 * cx * cy) by (nonlinear_arith);
    lay_out(&g, 8 * cx, 8 * cy)
}

/// Transforms three planes under a strategy and takes the prediction from luma off
/// chroma.
pub fn prepare_strategy_coeffs<A: Amount>(
    w: &DctWeights<A>,
    strategy: u8,
    img: &Image3<A>,
    px: usize,
    py: usize,
    fine: FineBlocks<A>,
    factor_x: A,
    factor_b: A,
) -> (r: StrategyCoeffs<A>)
    requires
        has_transform(strategy),
        img.wf(),
        img.width() > 0,
        img.height() > 0,
        px + 64 <= usize::MAX,
        py + 64 <= usize::MAX,
        strategy == STRATEGY_IDENTITY || strategy == STRATEGY_DCT2X2 ==> sized(
            grid(fine.x@),
            8,
            8,
        ) && sized(grid(fine.y@), 8, 8) && sized(grid(fine.b@), 8, 8),
    ensures
        (r.cx as int, r.cy as int) == storage_shape(strategy),
        ({
            let (wd, ht) = (img.width() as int, img.height() as int);
            let x = plane_coeffs(*w, strategy, img@, wd, ht, 0, px as int, py as int, grid(fine.x@));
            let y = plane_coeffs(*w, strategy, img@, wd, ht, 1, px as int, py as int, grid(fine.y@));
            let b = plane_coeffs(*w, strategy, img@, wd, ht, 2, px as int, py as int, grid(fine.b@));
            &&& r.x@ == predicted_off(x, y, factor_x)
            &&& r.y@ == y
            &&& r.b@ == predicted_off(b, y, factor_b)
        }),
{
    let (cx, cy): (usize, usize) = crate::forward::coefficient_shape(strategy);
    let mut x: Vec<A> = plane_coefficients(w, strategy, img, 0, px, py, fine.x);
    let y: Vec<A> = plane_coefficients(w, strategy, img, 1, px, py, fine.y);
    let mut b: Vec<A> = plane_coefficients(w, strategy, img, 2, px, py, fine.b);
    apply_cfl(&mut x, &y, &mut b, factor_x, factor_b);
    StrategyCoeffs { cx, cy, x, y, b }
}

/// Distortion and rate of one plane.
#[derive(Clone, Copy)]
pub struct PlaneCost<A> {
    pub distortion: A,
    pub rate: A,
}

/// Weighted distortion and rate of the leading `n` planes.
pub open spec fn planes_cost<A: Amount>(
    costs: Seq<PlaneCost<A>>,
    weights: Seq<A>,
    n: int,
) -> PlaneCost<A>
    decreases n,
{
    if n <= 0 {
        PlaneCost { distortion: A::zero_spec(), rate: A::zero_spec() }
    } else {
        let before = planes_cost(costs, weights, n - 1);
        PlaneCost {
            distortion: before.distortion.plus_spec(
                weights[n - 1].times_spec(costs[n - 1].distortion),
            ),
            rate: before.rate.plus_spec(costs[n - 1].rate),
        }
    }
}

/// Adds the distortion and rate of three planes up.
pub fn dist_and_rate<A: Amount>(costs: &[PlaneCost<A>; 3], weights: &[A; 3]) -> (r: PlaneCost<A>)
    ensures
        r == planes_cost(costs@, weights@, 3),
{
    let mut distortion: A = A::zero();
    let mut rate: A = A::zero();
    let mut c: usize = 0;
    while c < 3
        invariant
            c <= 3,
            (PlaneCost { distortion, rate }) == planes_cost(costs@, weights@, c as int),
        decreases 3 - c,
    {
        distortion = distortion.plus(weights[c].times(costs[c].distortion));
        rate = rate.plus(costs[c].rate);
        c += 1;
    }
    PlaneCost { distortion, rate }
}

/// The cost of a strategy under a model of distortion, with `meta_r` bits to signal
/// it.
pub fn strategy_cost<A: Amount>(
    model: DistortionModel,
    costs: &[PlaneCost<A>; 3],
    weights: &[A; 3],
    distance: A,
    meta_r: A,
) -> (r: A)
    ensures
        r == lambda_spec(model, distance).fused_spec(
            planes_cost(costs@, weights@, 3).rate.plus_spec(meta_r),
            planes_cost(costs@, weights@, 3).distortion,
        ),
{
    let total: PlaneCost<A> = dist_and_rate(costs, weights);
    rd_cost(model, distance, meta_r, total.distortion, total.rate)
}

/// The cost of one of the largest strategies.
pub fn strategy_cost64<A: Amount>(costs: &[PlaneCost<A>; 3], weights: &[A; 3], meta_r: A) -> (r: A)
    ensures
        r == planes_cost(costs@, weights@, 3).distortion.plus_spec(
            knob_spec::<A>(RD_LAMBDA).times_spec(
                planes_cost(costs@, weights@, 3).rate.plus_spec(meta_r),
            ),
        ),
{
    let total: PlaneCost<A> = dist_and_rate(costs, weights);
    total.distortion.plus(knob::<A>(RD_LAMBDA).times(total.rate.plus(meta_r)))
}

/// What the errors of a reconstruction are charged for their gradients: a weight on
/// their energy, and one on its peak.
#[derive(Clone, Copy)]
pub struct GradientPenalty<A> {
    pub alpha: A,
    pub peak_alpha: A,
    pub energy: A,
    pub peak: A,
}

impl<A: Amount> GradientPenalty<A> {
    /// One of the weights counts.
    pub open spec fn in_force(self) -> bool {
        A::zero_spec().less_spec(self.alpha) || A::zero_spec().less_spec(self.peak_alpha)
    }

    /// A distortion with the penalty.
    pub open spec fn charged(self, distortion: A) -> A {
        let zero = A::zero_spec();
        let raw = if zero.less_spec(self.alpha) {
            self.alpha.fused_spec(self.energy, distortion)
        } else {
            distortion
        };
        if zero.less_spec(self.peak_alpha) {
            self.peak_alpha.fused_spec(self.peak, raw)
        } else {
            raw
        }
    }
}

/// The cost of a strategy by its reconstruction, with `meta_r` bits to signal it.
pub open spec fn recon_cost<A: Amount>(
    total: PlaneCost<A>,
    penalty: GradientPenalty<A>,
    distance: A,
    meta_r: A,
) -> A {
    lambda_spec(DistortionModel::Reconstruction, distance).fused_spec(
        total.rate.plus_spec(meta_r),
        penalty.charged(total.distortion),
    )
}

/// The cost of a strategy by its reconstruction: with the bits to signal it, and
/// without them. A cost that holds a penalty on gradients has no counterpart without
/// the bits, since refinement does not charge that penalty.
pub fn reconstruction_cost_and_base<A: Amount>(
    total: &PlaneCost<A>,
    penalty: &GradientPenalty<A>,
    distance: A,
    meta_r: A,
) -> (r: (A, Option<A>))
    ensures
        r.0 == recon_cost(*total, *penalty, distance, meta_r),
        r.1 == (if penalty.in_force() {
            None
        } else {
            Some(recon_cost(*total, *penalty, distance, A::zero_spec()))
        }),
{
    let zero: A = A::zero();
    let mut distortion: A = total.distortion;
    if zero.less(penalty.alpha) {
        distortion = penalty.alpha.fused(penalty.energy, distortion);
    }
    if zero.less(penalty.peak_alpha) {
        distortion = penalty.peak_alpha.fused(penalty.peak, distortion);
    }
    let model: DistortionModel = DistortionModel::Reconstruction;
    let cost: A = rd_cost(model, distance, meta_r, distortion, total.rate);
    if zero.less(penalty.alpha) || zero.less(penalty.peak_alpha) {
        (cost, None)
    } else {
        (cost, Some(rd_cost(model, distance, zero, distortion, total.rate)))
    }
}

/// A penalty never lowers a cost: against the same reconstruction without weights on
/// its gradients, the cost is at least as high.
pub proof fn law_penalties_never_lower_a_cost<A: OrderedAmount>(
    total: PlaneCost<A>,
    penalty: GradientPenalty<A>,
    distance: A,
    meta_r: A,
)
    requires
        !penalty.energy.less_spec(A::zero_spec()),
        !penalty.peak.less_spec(A::zero_spec()),
    ensures
        ({
            let plain = GradientPenalty {
                alpha: A::zero_spec(),
                peak_alpha: A::zero_spec(),
                ..penalty
            };
            &&& !plain.in_force()
            &&& !recon_cost(total, penalty, distance, meta_r).less_spec(
                recon_cost(total, plain, distance, meta_r),
            )
        }),
{
    let zero = A::zero_spec();
    let d = total.distortion;
    A::less_irreflexive(zero);
    A::less_irreflexive(d);
    let raw = if zero.less_spec(penalty.alpha) {
        penalty.alpha.fused_spec(penalty.energy, d)
    } else {
        d
    };
    if zero.less_spec(penalty.alpha) {
        if penalty.alpha.less_spec(zero) {
            A::less_transitive(zero, penalty.alpha, zero);
        }
        A::fused_adds(penalty.alpha, penalty.energy, d);
    }
    if zero.less_spec(penalty.peak_alpha) {
        if penalty.peak_alpha.less_spec(zero) {
            A::less_transitive(zero, penalty.peak_alpha, zero);
        }
        A::fused_adds(penalty.peak_alpha, penalty.peak, raw);
        let all = penalty.peak_alpha.fused_spec(penalty.peak, raw);
        if all.less_spec(d) {
            A::less_splits(all, raw, d);
        }
    }
    A::fused_monotone(
        lambda_spec(DistortionModel::Reconstruction, distance),
        total.rate.plus_spec(meta_r),
        d,
        penalty.charged(d),
    );
}

} // verus!
