//! Merges win over what they replace, each over the blocks under it, and of several the
//! cheapest is taken.

use crate::acceptance::{least_scaled, most_scaled, scaled_at};
use crate::adaptive_quant::{
    blue_sum, blue_term, dec, gamma_ratio, gamma_sum, hf_modulated, mask_spec, masking_root,
    GAMMA_WEIGHT,
};
use crate::amount::{Amount, Fixed};
use crate::aq_field::{
    block_corner, cell_difference, column_sum, local_difference, pool_weights, quantizer_at,
    raw_weight, scale_at, weight_sum, FieldScale, AC_QUANT, LOG2_E, MATCH_GAMMA_OFFSET,
};
use crate::cost::{planes_cost, PlaneCost};
use crate::fast_math::{exp2_estimate, log2_estimate};
use crate::fixed_laws::{lemma_one_is_neutral, lemma_products_grow};
use crate::leaf_first::{halves_fit, region_choice, PlanView};
use crate::opsin::{edge_sample, held_index, Planes};
use crate::quant_field::Field;
use crate::quant_refine::{best_quant, quant_trials, refinement_steps, RefineScores};
use crate::selection::{SelectionParams, SiteCosts};
use crate::strategy::{
    STRATEGY_DCT16X16, STRATEGY_DCT16X32, STRATEGY_DCT16X8, STRATEGY_DCT32X16, STRATEGY_DCT32X32,
    STRATEGY_DCT8X16,
};
use crate::strategy_map::{fits_in, Placement};
use crate::super_block::{
    beats, choice_placements, leaf_totals, raw_costs, shortlisted, super_choice, MergeTuning,
    SuperBlockCosts,
};
use crate::tuning::{knob_spec, AQ_FADE_END};
use crate::tuning_laws::law_modulation_fades;
use vstd::prelude::*;

verus! {

/// What a merge on a super-block costs by the place it takes: the square, the half of its
/// column or the half of its row.
pub open spec fn own_cost<A: Amount>(p: Placement, bx: int, by: int, c: SuperBlockCosts<A>) -> A {
    if p.strategy == STRATEGY_DCT16X8 {
        c.tall@[p.x - bx]
    } else if p.strategy == STRATEGY_DCT8X16 {
        c.wide@[p.y - by]
    } else {
        c.square
    }
}

/// What the single blocks cost that a merge on a super-block covers.
pub open spec fn replaced_cost<A: Amount>(
    p: Placement,
    bx: int,
    by: int,
    c: SuperBlockCosts<A>,
) -> A {
    let l = c.leaf@;
    if p.strategy == STRATEGY_DCT16X8 {
        l[0]@[p.x - bx].plus_spec(l[1]@[p.x - bx])
    } else if p.strategy == STRATEGY_DCT8X16 {
        l[p.y - by]@[0].plus_spec(l[p.y - by]@[1])
    } else {
        l[0]@[0].plus_spec(l[1]@[0]).plus_spec(l[0]@[1].plus_spec(l[1]@[1]))
    }
}

/// A merge lies on the super-block at `(bx, by)`: the square at its corner, a tall half
/// over one of its columns, a wide half over one of its rows.
pub open spec fn lies_on(p: Placement, bx: int, by: int) -> bool {
    if p.strategy == STRATEGY_DCT16X8 {
        p.y == by && (p.x == bx || p.x == bx + 1)
    } else if p.strategy == STRATEGY_DCT8X16 {
        p.x == bx && (p.y == by || p.y == by + 1)
    } else {
        p.strategy == STRATEGY_DCT16X16 && p.x == bx && p.y == by
    }
}

/// Every merge that is placed on a super-block lies on it, fits the picture and comes in
/// below the accepted part of what the blocks under it cost.
pub proof fn law_merges_win_over_the_blocks_under_them(
    w: int,
    h: int,
    bx: int,
    by: int,
    rectangles: bool,
    raw_propagation: bool,
    t: MergeTuning<Fixed>,
    c: SuperBlockCosts<Fixed>,
    k: int,
)
    requires
        0 <= bx,
        0 <= by,
        bx + 2 <= usize::MAX,
        by + 2 <= usize::MAX,
        0 <= k < choice_placements(
            super_choice(w, h, bx, by, rectangles, raw_propagation, t, c),
            bx,
            by,
        ).len(),
    ensures
        ({
            let p = choice_placements(
                super_choice(w, h, bx, by, rectangles, raw_propagation, t, c),
                bx,
                by,
            )[k];
            let square = p.strategy == STRATEGY_DCT16X16;
            &&& lies_on(p, bx, by)
            &&& fits_in(w, h, p.x as int, p.y as int, p.strategy)
            &&& square || rectangles
            &&& (if square {
                t.bias_16x16
            } else {
                t.bias_rect
            }).times_spec(own_cost(p, bx, by, c)).raw < replaced_cost(p, bx, by, c).times_spec(
                if square {
                    c.accept_16
                } else {
                    t.accept_pair
                },
            ).raw
        }),
{
    let s = super_choice(w, h, bx, by, rectangles, raw_propagation, t, c);
    let all = leaf_totals(c.leaf);
    assert(raw_costs(true, c)[1] == c.tall@[0]);
    assert(raw_costs(true, c)[2] == c.tall@[1]);
    assert(raw_costs(true, c)[3] == c.wide@[0]);
    assert(raw_costs(true, c)[4] == c.wide@[1]);
}

/// What half a super-block costs at best: its merge where that wins over its blocks, and
/// its blocks otherwise.
pub open spec fn half_at_best(
    fits: bool,
    merge: Fixed,
    blocks: Fixed,
    t: MergeTuning<Fixed>,
) -> Fixed {
    let biased = t.bias_rect.times_spec(merge);
    if fits && biased.raw < blocks.times_spec(t.accept_pair).raw {
        biased
    } else {
        blocks
    }
}

/// A super-block is cut the cheapest way: what is charged for it is no more than either way
/// of halving it, and the square is taken only where it is below both.
pub proof fn law_super_blocks_are_cut_cheapest(
    w: int,
    h: int,
    bx: int,
    by: int,
    t: MergeTuning<Fixed>,
    c: SuperBlockCosts<Fixed>,
)
    ensures
        ({
            let r = super_choice(w, h, bx, by, true, false, t, c);
            let l = c.leaf@;
            let tall = half_at_best(
                fits_in(w, h, bx, by, STRATEGY_DCT16X8),
                c.tall@[0],
                l[0]@[0].plus_spec(l[1]@[0]),
                t,
            ).plus_spec(
                half_at_best(
                    fits_in(w, h, bx + 1, by, STRATEGY_DCT16X8),
                    c.tall@[1],
                    l[0]@[1].plus_spec(l[1]@[1]),
                    t,
                ),
            );
            let wide = half_at_best(
                fits_in(w, h, bx, by, STRATEGY_DCT8X16),
                c.wide@[0],
                l[0]@[0].plus_spec(l[0]@[1]),
                t,
            ).plus_spec(
                half_at_best(
                    fits_in(w, h, bx, by + 1, STRATEGY_DCT8X16),
                    c.wide@[1],
                    l[1]@[0].plus_spec(l[1]@[1]),
                    t,
                ),
            );
            &&& r.cost.raw <= tall.raw
            &&& r.cost.raw <= wide.raw
            &&& r.square ==> r.cost.raw < tall.raw && r.cost.raw < wide.raw && r.cost
                == t.bias_16x16.times_spec(c.square)
            &&& !r.square ==> r.cost == (if r.vertical {
                tall
            } else {
                wide
            })
            &&& r.best_rect.raw <= tall.raw && r.best_rect.raw <= wide.raw && (r.best_rect == tall
                || r.best_rect == wide)
        }),
{
    assert(raw_costs(true, c)[1] == c.tall@[0]);
    assert(raw_costs(true, c)[2] == c.tall@[1]);
    assert(raw_costs(true, c)[3] == c.wide@[0]);
    assert(raw_costs(true, c)[4] == c.wide@[1]);
}

/// Every merge on the shortlist of a super-block lies on it, fits, and costs less without
/// its bias than the blocks under it.
pub proof fn law_shortlisted_merges_cost_less(
    w: int,
    h: int,
    bx: int,
    by: int,
    rectangles: bool,
    c: SuperBlockCosts<Fixed>,
    n: int,
    k: int,
)
    requires
        0 <= n <= 5,
        0 <= bx,
        0 <= by,
        bx + 2 <= usize::MAX,
        by + 2 <= usize::MAX,
        0 <= k < shortlisted(w, h, bx, by, raw_costs(rectangles, c), leaf_totals(c.leaf), n).len(),
    ensures
        ({
            let p = shortlisted(w, h, bx, by, raw_costs(rectangles, c), leaf_totals(c.leaf), n)[k];
            &&& lies_on(p, bx, by)
            &&& fits_in(w, h, p.x as int, p.y as int, p.strategy)
            &&& own_cost(p, bx, by, c).raw < replaced_cost(p, bx, by, c).raw
        }),
    decreases n,
{
    let raw = raw_costs(rectangles, c);
    let all = leaf_totals(c.leaf);
    if n > 0 {
        let head = shortlisted(w, h, bx, by, raw, all, n - 1);
        if k < head.len() {
            law_shortlisted_merges_cost_less(w, h, bx, by, rectangles, c, n - 1, k);
        }
    }
}

/// A merge beats what it replaces the more easily the more of that is accepted, and never
/// where nothing is.
pub proof fn law_acceptance_decides(candidate: Fixed, tiled: Fixed, low: Fixed, high: Fixed)
    requires
        0 <= tiled.raw,
        0 <= low.raw <= high.raw,
    ensures
        beats(candidate, tiled, low) ==> beats(candidate, tiled, high),
        0 <= candidate.raw && low.raw == 0 ==> !beats(candidate, tiled, low),
        low.raw == 65536 ==> (beats(candidate, tiled, low) <==> candidate.raw < tiled.raw),
{
    lemma_products_grow(tiled, tiled, low, high);
    lemma_one_is_neutral(tiled);
    let n = tiled.raw as int;
    assert(n * 0 == 0);
}

/// What a merge of a whole region is charged, by its strategy.
pub open spec fn region_charge(
    p: SelectionParams<Fixed>,
    c: SiteCosts<Fixed>,
    strategy: u8,
) -> Fixed {
    if strategy == STRATEGY_DCT32X16 {
        p.tuning.bias_rect32.times_spec(c.raw@[1].plus_spec(c.raw@[2]))
    } else if strategy == STRATEGY_DCT16X32 {
        p.tuning.bias_rect32.times_spec(c.raw@[3].plus_spec(c.raw@[4]))
    } else {
        p.tuning.bias_32x32.times_spec(c.raw@[0])
    }
}

/// The merge of a region is the cheapest of those that fit, and is taken only where it is
/// below what the parts of the region cost and below the accepted part of its leaves.
pub proof fn law_regions_are_merged_cheapest(
    w: int,
    h: int,
    p: SelectionParams<Fixed>,
    c: SiteCosts<Fixed>,
    plans: Seq<PlanView<Fixed>>,
    bx: int,
    by: int,
)
    requires
        p.rectangles,
        !p.policy.raw_propagation,
        plans.len() == 4,
        fits_in(w, h, bx, by, STRATEGY_DCT32X32),
        halves_fit(w, h, bx, by, STRATEGY_DCT32X16),
        halves_fit(w, h, bx, by, STRATEGY_DCT16X32),
    ensures
        ({
            let r = region_choice(w, h, p, c, plans, bx, by);
            let zero = Fixed::zero_spec();
            let parts = zero.plus_spec(plans[0].j).plus_spec(plans[1].j).plus_spec(
                plans[2].j,
            ).plus_spec(plans[3].j);
            &&& r.strategy == STRATEGY_DCT32X32 || r.strategy == STRATEGY_DCT32X16 || r.strategy
                == STRATEGY_DCT16X32
            &&& r.cost.raw <= parts.raw
            &&& !r.merged ==> r.cost == parts
            &&& r.merged ==> r.cost.raw < parts.raw && r.cost == region_charge(p, c, r.strategy)
            &&& forall|s: u8|
                s == STRATEGY_DCT32X32 || s == STRATEGY_DCT32X16 || s == STRATEGY_DCT16X32
                    ==> region_charge(p, c, r.strategy).raw <= (#[trigger] region_charge(p, c, s)).raw
        }),
{
}

/// The quantizers of a super-block, scaled, lie between the least and the most of them.
pub proof fn law_scaled_quantizers_lie_within(
    f: Field,
    bx: int,
    by: int,
    scale: Fixed,
    i: int,
    j: int,
)
    requires
        0 <= i < 2,
        0 <= j < 2,
        0 <= scale.raw,
    ensures
        least_scaled(f, bx, by, scale).raw <= scaled_at(f, bx + i, by + j, scale).raw
            <= most_scaled(f, bx, by, scale).raw,
        exists|k: int, l: int|
            0 <= k < 2 && 0 <= l < 2 && least_scaled(f, bx, by, scale) == #[trigger] scaled_at(
                f,
                bx + k,
                by + l,
                scale,
            ),
{
    let (a, b, c, d) = (
        scaled_at(f, bx + 0, by + 0, scale),
        scaled_at(f, bx + 1, by + 0, scale),
        scaled_at(f, bx + 0, by + 1, scale),
        scaled_at(f, bx + 1, by + 1, scale),
    );
    assert(bx + 0 == bx && by + 0 == by);
}

/// The trials of a quantizer are its neighbours, and what is chosen is one of them or the
/// quantizer itself: it moves by no more than the steps allow, upwards by one at most.
pub proof fn law_quantizers_move_by_steps(
    q: u8,
    steps: usize,
    cached: Option<Fixed>,
    s: RefineScores<Fixed>,
    n: int,
)
    requires
        1 <= steps <= 2,
        0 <= n <= 4,
        q >= 1,
    ensures
        q - steps <= best_quant(q, steps, cached, s, n).q <= q + 1,
        best_quant(q, steps, cached, s, n).q >= 1,
        quant_trials(q, steps).contains(q),
    decreases n,
{
    let trials = quant_trials(q, steps);
    assert(trials[3] == q);
    if n > 0 {
        law_quantizers_move_by_steps(q, steps, cached, s, n - 1);
        assert(n - 1 == 0 || n - 1 == 1 || n - 1 == 2 || n - 1 == 3);
    }
}

/// The farther the distance, the more steps a quantizer may move.
pub proof fn law_refinement_goes_farther_with_the_distance(near: Fixed, far: Fixed)
    requires
        near.raw <= far.raw,
    ensures
        refinement_steps(near) <= refinement_steps(far) <= 2,
        near.raw < Fixed::ratio_spec(3, 2).raw ==> refinement_steps(near) == 0,
        near.raw >= Fixed::ratio_spec(3, 2).raw ==> refinement_steps(near) >= 1,
        near.raw >= Fixed::ratio_spec(2, 1).raw ==> refinement_steps(near) == 2,
{
    assert(Fixed::ratio_spec(3, 2).raw == 98304);
    assert(Fixed::ratio_spec(2, 1).raw == 131072);
}

/// The planes of a block: distortions count by their weights, rates in full, and in no
/// particular plane's favour. With dearer planes a block is dearer.
pub proof fn law_planes_add_up(
    a: Seq<PlaneCost<Fixed>>,
    b: Seq<PlaneCost<Fixed>>,
    weights: Seq<Fixed>,
    n: int,
)
    requires
        0 <= n <= a.len(),
        a.len() == b.len(),
        a.len() == weights.len(),
        forall|i: int| 0 <= i < a.len() ==> 0 <= (#[trigger] weights[i]).raw,
        forall|i: int|
            0 <= i < a.len() ==> 0 <= (#[trigger] a[i]).distortion.raw <= b[i].distortion.raw && 0
                <= a[i].rate.raw <= b[i].rate.raw,
    ensures
        0 <= planes_cost(a, weights, n).distortion.raw <= planes_cost(
            b,
            weights,
            n,
        ).distortion.raw,
        0 <= planes_cost(a, weights, n).rate.raw <= planes_cost(b, weights, n).rate.raw,
    decreases n,
{
    if n > 0 {
        law_planes_add_up(a, b, weights, n - 1);
        let i = n - 1;
        assert(0 <= a[i].distortion.raw <= b[i].distortion.raw);
        assert(0 <= weights[i].raw);
        lemma_products_grow(
            weights[i],
            weights[i],
            a[i].distortion,
            b[i].distortion,
        );
    }
}

/// Three planes of which only one costs anything cost what it costs: its distortion by its
/// own weight, and its rate.
pub proof fn law_each_plane_counts_by_its_weight(
    costs: Seq<PlaneCost<Fixed>>,
    weights: Seq<Fixed>,
    c: int,
)
    requires
        costs.len() == 3,
        weights.len() == 3,
        0 <= c < 3,
        forall|i: int|
            0 <= i < 3 && i != c ==> (#[trigger] costs[i]).distortion.raw == 0 && costs[i].rate.raw
                == 0,
    ensures
        planes_cost(costs, weights, 3).distortion == weights[c].times_spec(costs[c].distortion),
        planes_cost(costs, weights, 3).rate == costs[c].rate,
{
    reveal_with_fuel(planes_cost, 4);
    let (a, b, d) = (weights[0].raw as int, weights[1].raw as int, weights[2].raw as int);
    assert(a * 0 == 0 && b * 0 == 0 && d * 0 == 0);
    assert(c != 0 ==> costs[0].distortion.raw == 0 && costs[0].rate.raw == 0);
    assert(c != 1 ==> costs[1].distortion.raw == 0 && costs[1].rate.raw == 0);
    assert(c != 2 ==> costs[2].distortion.raw == 0 && costs[2].rate.raw == 0);
}

/// A sample that is the mean of its neighbours does not stand out: its difference is the
/// least there is.
pub proof fn law_even_samples_do_not_stand_out(
    v: Planes<Fixed>,
    w: int,
    h: int,
    x: int,
    y: int,
)
    requires
        ({
            let sum = edge_sample(v, w, h, 1, x, y + 1).raw + edge_sample(v, w, h, 1, x, y - 1).raw
                + edge_sample(v, w, h, 1, x - 1, y).raw + edge_sample(v, w, h, 1, x + 1, y).raw;
            let here = edge_sample(v, w, h, 1, x, y).raw;
            &&& sum == 4 * here
            &&& -0x1_0000_0000 <= here <= 0x1_0000_0000
            &&& -0x1_0000_0000 <= edge_sample(v, w, h, 1, x, y + 1).raw <= 0x1_0000_0000
            &&& -0x1_0000_0000 <= edge_sample(v, w, h, 1, x, y - 1).raw <= 0x1_0000_0000
            &&& -0x1_0000_0000 <= edge_sample(v, w, h, 1, x - 1, y).raw <= 0x1_0000_0000
        }),
    ensures
        local_difference(v, w, h, x, y) == masking_root(Fixed::zero_spec()),
{
    let here = edge_sample(v, w, h, 1, x, y);
    let base = Fixed::ratio_spec(1, 4).times_spec(
        edge_sample(v, w, h, 1, x, y + 1).plus_spec(
            edge_sample(v, w, h, 1, x, y - 1),
        ).plus_spec(edge_sample(v, w, h, 1, x - 1, y)).plus_spec(
            edge_sample(v, w, h, 1, x + 1, y),
        ),
    );
    assert(Fixed::ratio_spec(1, 4).raw == 16384);
    assert(Fixed::ratio_spec(1, 5).raw == 13107);
    assert(base == here);
    assert(here.minus_spec(base).raw == 0);
    let slope = gamma_ratio(
        false,
        here.plus_spec(
            dec(MATCH_GAMMA_OFFSET),
        ),
    );
    let n = slope.raw as int;
    assert(n * 0 == 0);
    assert(slope.times_spec(here.minus_spec(base)).raw == 0);
}

/// A cell whose samples all stand out alike has four times their difference.
pub proof fn law_cells_gather_their_differences(
    v: Planes<Fixed>,
    w: int,
    h: int,
    x: int,
    y: int,
    d: Fixed,
)
    requires
        0 <= d.raw <= 0x1_0000_0000,
        forall|i: int, j: int|
            x <= i < x + 4 && y <= j < y + 4 ==> #[trigger] local_difference(v, w, h, i, j) == d,
    ensures
        cell_difference(v, w, h, x, y).raw == 4 * d.raw,
{
    assert(Fixed::ratio_spec(1, 4).raw == 16384);
    assert forall|i: int| x <= i < x + 4 implies (#[trigger] column_sum(v, w, h, i, y)).raw == 4
        * d.raw by {
        assert(local_difference(v, w, h, i, y + 0) == d);
        assert(local_difference(v, w, h, i, y + 1) == d);
        assert(local_difference(v, w, h, i, y + 2) == d);
        assert(local_difference(v, w, h, i, y + 3) == d);
        assert(y + 0 == y);
    }
    assert(column_sum(v, w, h, x, y).raw == 4 * d.raw);
    assert(column_sum(v, w, h, x + 1, y).raw == 4 * d.raw);
    assert(column_sum(v, w, h, x + 2, y).raw == 4 * d.raw);
    assert(column_sum(v, w, h, x + 3, y).raw == 4 * d.raw);
}

/// From a distance of two on the pooling does not change with the distance.
pub proof fn law_pooling_settles(near: Fixed, far: Fixed)
    requires
        Fixed::ratio_spec(2, 1).raw <= near.raw <= far.raw,
    ensures
        pool_weights(near) == pool_weights(far),
{
    assert(raw_weight(near, 0) == raw_weight(far, 0));
    assert(raw_weight(near, 1) == raw_weight(far, 1));
    assert(raw_weight(near, 2) == raw_weight(far, 2));
    assert(raw_weight(near, 3) == raw_weight(far, 3));
    reveal_with_fuel(weight_sum, 5);
    assert(pool_weights(near) =~= pool_weights(far));
}

/// Where the modulation has faded out, quantizers do not depend on what a block shows.
pub proof fn law_faded_quantizers_are_even(
    v: Planes<Fixed>,
    u: Planes<Fixed>,
    w: int,
    h: int,
    px: int,
    py: int,
    a: Fixed,
    b: Fixed,
    distance: Fixed,
    inv_scale: Fixed,
)
    requires
        knob_spec::<Fixed>(AQ_FADE_END).raw <= distance.raw <= 0x1_0000_0000,
    ensures
        quantizer_at(v, w, h, px, py, a, scale_at(distance, inv_scale)) == quantizer_at(
            u,
            w,
            h,
            px,
            py,
            b,
            scale_at(distance, inv_scale),
        ),
{
    law_modulation_fades(distance, distance);
    let s = scale_at(distance, inv_scale);
    let scale = dec::<Fixed>(AC_QUANT).over_spec(distance);
    let n = scale.raw as int;
    assert(n * 0 == 0);
    assert(s.mul.raw == 0);
    lemma_without_modulation(v, w, h, px, py, a, s);
    lemma_without_modulation(u, w, h, px, py, b, s);
}

proof fn lemma_without_modulation(
    v: Planes<Fixed>,
    w: int,
    h: int,
    px: int,
    py: int,
    aq: Fixed,
    s: FieldScale<Fixed>,
)
    requires
        s.mul.raw == 0,
    ensures
        ({
            let b = Fixed::zero_spec().plus_spec(s.add).fused_spec(
                s.inv_scale,
                Fixed::ratio_spec(1, 2),
            ).byte_spec();
            quantizer_at(v, w, h, px, py, aq, s) == if b < 1 {
                1u8
            } else {
                b
            }
        }),
{
    reveal(quantizer_at);
    let (x, y) = (block_corner(px, w), block_corner(py, h));
    let mask = dec::<Fixed>(GAMMA_WEIGHT).fused_spec(
        log2_estimate(gamma_sum(v, w, h, x, y, 64).times_spec(Fixed::ratio_spec(1, 64))),
        mask_spec(aq),
    );
    let fine = hf_modulated(v, w, h, x, y, mask, s.strength);
    let blue = blue_term(blue_sum(v, w, h, x, y, 64)).plus_spec(mask);
    let out = fine.lesser_spec(blue);
    let e = exp2_estimate(out.times_spec(dec(LOG2_E)));
    let m = e.raw as int;
    assert(m * 0 == 0);
    assert(e.times_spec(s.mul) == Fixed::zero_spec());
    let q = e.times_spec(s.mul).plus_spec(s.add);
    let b = q.fused_spec(s.inv_scale, Fixed::ratio_spec(1, 2)).byte_spec();
    assert(quantizer_at(v, w, h, px, py, aq, s) == if b < 1 {
        1u8
    } else {
        b
    });
}

/// Past the edges of a picture the last sample is repeated: a place outside stands for the
/// nearest inside.
pub proof fn law_edges_are_repeated(n: int, len: int, k: int)
    requires
        0 < len,
        0 <= k < len,
    ensures
        0 <= held_index(n, len) < len,
        0 <= n < len ==> held_index(n, len) == n,
        (if n < held_index(n, len) {
            held_index(n, len) - n
        } else {
            n - held_index(n, len)
        }) <= (if n < k {
            k - n
        } else {
            n - k
        }),
{
}

/// The block that stands for one at the edge lies within the picture, at or before it.
pub proof fn law_blocks_are_read_within_the_picture(p: int, len: int)
    requires
        0 <= p,
        0 <= len,
    ensures
        0 <= block_corner(p, len) <= p,
        len >= 8 ==> block_corner(p, len) + 8 <= len,
        p + 8 <= len ==> block_corner(p, len) == p,
{
}

} // verus!
