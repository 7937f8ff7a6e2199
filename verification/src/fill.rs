//! The stages that fill the strategy map and the quantizer field of a group, and
//! what is carried from one to the next.

use crate::amount::Amount;
use crate::cost_map::{grid_shape, with_cost, CostMap, Costs};
use crate::leaf_first::LeafChoice;
use crate::quant_refine::{quant_refinement_steps, refinement_steps};
use crate::rerank::grid_inside;
use crate::rerank_band::{
    downgrade_fits, lemma_firsts, output_fits, DowngradeView, FineMergeRollback, RerankDowngrade, RerankOutput,
    RerankState, RollbackView,
};
use crate::scope::{SearchScope, SelectorPolicy, Speed};
use crate::strategy::{STRATEGY_DCT, STRATEGY_DCT2X2, STRATEGY_IDENTITY};
use crate::strategy_map::{
    fits_in, firsts, in_window, rows_replaced, with_first, AcStrategyImage, Layout, Placement,
};
use crate::tuning::{
    dct64_searched, dct8_only, knob, knob_spec, scope_reranks, use_dct64, use_dct8_only,
    AFV_MAX_DISTANCE, FINE_TRANSFORM_MAX_DISTANCE, LEAF_FIRST_MAX_DISTANCE,
};
use vstd::prelude::*;

verus! {

/// Which stages run.
#[derive(Clone, Copy, Debug, PartialEq, Eq, Structural)]
pub struct StagePlan {
    /// Anything is searched at all; the map is left as 8x8 DCTs otherwise.
    pub search: bool,
    /// Selection starts from the transforms below 8x8.
    pub leaf_first: bool,
    /// The 64-pixel transforms compete.
    pub merge64: bool,
    /// Merges are judged again by reconstruction.
    pub rerank: bool,
    /// The blocks of undone merges may take transforms below 8x8.
    pub sub8: bool,
    /// Shortlisted merges compete again.
    pub upgrade: bool,
    /// Quantizers are refined.
    pub refine: bool,
}

/// The stages that run at a distance.
pub open spec fn stages_at<A: Amount>(
    speed: Speed,
    policy: SelectorPolicy,
    distance: A,
    upgrade_min: A,
) -> StagePlan {
    let search = !(dct8_only(distance) || speed == Speed::Fastest);
    let scope = if speed == Speed::Slow {
        SearchScope::Full
    } else {
        SearchScope::Squares
    };
    let rerank = search && scope_reranks(scope, distance);
    StagePlan {
        search,
        leaf_first: search && policy.leaf_first && distance.at_most_spec(
            knob_spec(LEAF_FIRST_MAX_DISTANCE),
        ),
        merge64: search && dct64_searched(speed, distance),
        rerank,
        sub8: rerank && scope == SearchScope::Full && distance.at_most_spec(
            knob_spec::<A>(AFV_MAX_DISTANCE).greater_spec(knob_spec(FINE_TRANSFORM_MAX_DISTANCE)),
        ),
        upgrade: rerank && policy.merge_upgrade && upgrade_min.at_most_spec(distance),
        refine: search && refinement_steps(distance) != 0,
    }
}

/// Decides which stages run. Merges compete again from distance `upgrade_min` on.
pub fn plan_stages<A: Amount>(
    speed: Speed,
    policy: SelectorPolicy,
    distance: A,
    upgrade_min: A,
) -> (r: StagePlan)
    ensures
        r == stages_at(speed, policy, distance, upgrade_min),
{
    let search: bool = !(use_dct8_only(distance) || speed == Speed::Fastest);
    let scope: SearchScope = SearchScope::for_speed(speed);
    let rerank: bool = search && scope.rerank(distance);
    let last: A = knob::<A>(AFV_MAX_DISTANCE).greater(knob(FINE_TRANSFORM_MAX_DISTANCE));
    StagePlan {
        search,
        leaf_first: search && policy.leaf_first && distance.at_most(knob(LEAF_FIRST_MAX_DISTANCE)),
        merge64: search && use_dct64(speed, distance),
        rerank,
        sub8: rerank && scope.rectangles() && distance.at_most(last),
        upgrade: rerank && policy.merge_upgrade && upgrade_min.at_most(distance),
        refine: search && quant_refinement_steps(distance) != 0,
    }
}

/// What is done next.
#[derive(Clone, Copy, Debug, PartialEq, Eq, Structural)]
pub enum Stage {
    /// Every band selects its strategies.
    Select,
    /// The 64-pixel transforms compete.
    Merge64,
    /// Merges are judged by reconstruction.
    Rerank,
    /// The blocks of undone merges choose again.
    Sub8,
    /// Shortlisted merges compete again.
    Upgrade,
    /// The benefit is summed up and every footprint gets one quantizer.
    Settle,
    /// Quantizers are refined.
    Refine,
    Done,
}

/// Place of a stage in the order.
pub open spec fn stage_rank(s: Stage) -> int {
    match s {
        Stage::Select => 0,
        Stage::Merge64 => 1,
        Stage::Rerank => 2,
        Stage::Sub8 => 3,
        Stage::Upgrade => 4,
        Stage::Settle => 5,
        Stage::Refine => 6,
        Stage::Done => 7,
    }
}

/// A plan calls for a stage.
pub open spec fn planned(p: StagePlan, s: Stage) -> bool {
    match s {
        Stage::Select => p.search,
        Stage::Merge64 => p.merge64,
        Stage::Rerank => p.rerank,
        Stage::Sub8 => p.sub8,
        Stage::Upgrade => p.upgrade,
        Stage::Settle => p.search,
        Stage::Refine => p.refine,
        Stage::Done => true,
    }
}

/// `next` is the first stage of the plan at place `from` or later.
pub open spec fn first_planned(p: StagePlan, from: int, next: Stage) -> bool {
    &&& planned(p, next)
    &&& from <= stage_rank(next)
    &&& forall|s: Stage|
        #![trigger planned(p, s)]
        from <= stage_rank(s) < stage_rank(next) ==> !planned(p, s)
}

/// The stage that a plan begins with.
pub fn first_stage(p: &StagePlan) -> (r: Stage)
    ensures
        first_planned(*p, 0, r),
{
    if p.search {
        Stage::Select
    } else {
        after_stage(p, Stage::Select)
    }
}

/// The stage that follows `s` in a plan.
pub fn after_stage(p: &StagePlan, s: Stage) -> (r: Stage)
    ensures
        s != Stage::Done ==> first_planned(*p, stage_rank(s) + 1, r),
        s == Stage::Done ==> r == Stage::Done,
{
    let n: u8 = match s {
        Stage::Select => 0,
        Stage::Merge64 => 1,
        Stage::Rerank => 2,
        Stage::Sub8 => 3,
        Stage::Upgrade => 4,
        Stage::Settle => 5,
        Stage::Refine => 6,
        Stage::Done => 7,
    };
    if n < 1 && p.merge64 {
        Stage::Merge64
    } else if n < 2 && p.rerank {
        Stage::Rerank
    } else if n < 3 && p.sub8 {
        Stage::Sub8
    } else if n < 4 && p.upgrade {
        Stage::Upgrade
    } else if n < 5 && p.search {
        Stage::Settle
    } else if n < 6 && p.refine {
        Stage::Refine
    } else {
        Stage::Done
    }
}

/// Whatever the plan, the stage that follows is one alone and comes later than
/// the one before it, so every stage runs at most once and the filling ends.
pub proof fn law_stages_run_in_order(p: StagePlan, s: Stage, a: Stage, b: Stage)
    requires
        first_planned(p, stage_rank(s) + 1, a),
        first_planned(p, stage_rank(s) + 1, b),
    ensures
        a == b,
        stage_rank(s) < stage_rank(a) <= stage_rank(Stage::Done),
{
    assert(planned(p, a));
    assert(planned(p, b));
}

/// Nothing but the end follows where nothing is searched, and what reranking
/// leads to needs reranking.
pub proof fn law_stages_depend<A: Amount>(
    speed: Speed,
    policy: SelectorPolicy,
    distance: A,
    upgrade_min: A,
)
    ensures
        ({
            let p = stages_at(speed, policy, distance, upgrade_min);
            &&& !p.search ==> first_planned(p, 0, Stage::Done)
            &&& p.sub8 ==> p.rerank
            &&& p.upgrade ==> p.rerank
            &&& p.merge64 || p.rerank || p.leaf_first || p.refine ==> p.search
        }),
{
}

/// The layout after the rows of the leading `n` bands were taken over.
pub open spec fn gathered(
    v: Layout,
    bands: Seq<(usize, usize)>,
    images: Seq<AcStrategyImage>,
    n: int,
) -> Layout
    decreases n,
{
    if n <= 0 {
        v
    } else {
        rows_replaced(
            gathered(v, bands, images, n - 1),
            images[n - 1]@,
            bands[n - 1].0 as int,
            bands[n - 1].1 as int,
        )
    }
}

/// Puts the rows together that the bands selected, each on an image of its own.
pub fn gather_bands(
    map: &mut AcStrategyImage,
    bands: &Vec<(usize, usize)>,
    images: &Vec<AcStrategyImage>,
)
    requires
        old(map).wf(),
        images@.len() == bands@.len(),
        forall|i: int|
            0 <= i < images@.len() ==> (#[trigger] images@[i]).wf() && images@[i].width()
                == old(map).width() && images@[i].height() == old(map).height(),
        forall|i: int|
            0 <= i < bands@.len() ==> (#[trigger] bands@[i]).0 <= bands@[i].1 <= old(map).height(),
    ensures
        final(map).wf(),
        final(map).width() == old(map).width(),
        final(map).height() == old(map).height(),
        final(map)@ == gathered(old(map)@, bands@, images@, bands@.len() as int),
{
    let ghost v = map@;
    let mut i: usize = 0;
    while i < bands.len()
        invariant
            i <= bands@.len(),
            map.wf(),
            map.width() == old(map).width(),
            map.height() == old(map).height(),
            images@.len() == bands@.len(),
            forall|k: int|
                0 <= k < images@.len() ==> (#[trigger] images@[k]).wf() && images@[k].width()
                    == map.width() && images@[k].height() == map.height(),
            forall|k: int|
                0 <= k < bands@.len() ==> (#[trigger] bands@[k]).0 <= bands@[k].1 <= map.height(),
            map@ == gathered(v, bands@, images@, i as int),
        decreases bands@.len() - i,
    {
        assert(images@[i as int].wf());
        let (y0, y1): (usize, usize) = bands[i];
        assert(bands@[i as int].0 <= y1);
        map.copy_rows_from(&images[i], y0, y1);
        i += 1;
    }
}

/// A gain per block, row by row.
pub type Gains<A> = Seq<Seq<A>>;

/// The gains of a grid of rows.
pub open spec fn gains_view<A>(rows: Seq<Vec<A>>) -> Gains<A> {
    Seq::new(rows.len(), |y: int| rows[y]@)
}

/// The gains of a grid of leaves.
pub open spec fn leaf_gains<A>(leaves: Seq<Vec<LeafChoice<A>>>) -> Gains<A> {
    Seq::new(leaves.len(), |y: int| Seq::new(leaves[y]@.len(), |x: int| leaves[y]@[x].gain))
}

/// The gains of the leading `n` bands, one below the other.
pub open spec fn gains_of_bands<A>(bands: Seq<Vec<Vec<LeafChoice<A>>>>, n: int) -> Gains<A>
    decreases n,
{
    if n <= 0 {
        Seq::empty()
    } else {
        gains_of_bands(bands, n - 1) + leaf_gains(bands[n - 1]@)
    }
}

fn row_gains<A: Copy>(row: &Vec<LeafChoice<A>>) -> (r: Vec<A>)
    ensures
        r@ == Seq::new(row@.len(), |x: int| row@[x].gain),
{
    let mut out: Vec<A> = Vec::new();
    let mut x: usize = 0;
    while x < row.len()
        invariant
            x <= row@.len(),
            out@ == Seq::new(x as nat, |i: int| row@[i].gain),
        decreases row@.len() - x,
    {
        out.push(row[x].gain);
        x += 1;
        assert(out@ =~= Seq::new(x as nat, |i: int| row@[i].gain));
    }
    assert(out@ =~= Seq::new(row@.len(), |i: int| row@[i].gain));
    out
}

/// Gathers the gains of the leaves of all bands, which follow one another from
/// the top row down.
pub fn collect_leaf_gains<A: Copy>(bands: &Vec<Vec<Vec<LeafChoice<A>>>>) -> (r: Vec<Vec<A>>)
    ensures
        gains_view(r@) == gains_of_bands(bands@, bands@.len() as int),
{
    let mut out: Vec<Vec<A>> = Vec::new();
    let mut i: usize = 0;
    assert(gains_view(out@) =~= gains_of_bands(bands@, 0));
    while i < bands.len()
        invariant
            i <= bands@.len(),
            gains_view(out@) == gains_of_bands(bands@, i as int),
        decreases bands@.len() - i,
    {
        let leaves: &Vec<Vec<LeafChoice<A>>> = &bands[i];
        let ghost before = gains_view(out@);
        let ghost all = leaf_gains(leaves@);
        let mut y: usize = 0;
        assert(gains_view(out@) =~= before + all.take(0));
        while y < leaves.len()
            invariant
                y <= leaves@.len(),
                all == leaf_gains(leaves@),
                gains_view(out@) == before + all.take(y as int),
            decreases leaves@.len() - y,
        {
            let ghost prev = out@;
            let row: Vec<A> = row_gains(&leaves[y]);
            assert(row@ == all[y as int]);
            out.push(row);
            y += 1;
            assert(gains_view(out@) =~= gains_view(prev).push(row@));
            assert(all.take(y as int) =~= all.take(y - 1).push(all[y - 1]));
            assert(gains_view(out@) =~= before + all.take(y as int));
        }
        assert(all.take(y as int) =~= all);
        i += 1;
    }
    out
}

/// A band's mosaics hold a downgrade that starts at `(bx, by)`.
pub open spec fn is_mosaic<A>(rollbacks: Seq<RollbackView<A>>, bx: int, by: int) -> bool {
    exists|i: int|
        0 <= i < rollbacks.len() && (#[trigger] rollbacks[i]).at.bx == bx && rollbacks[i].at.by
            == by
}

/// The blocks among the leading `n` grid entries of a downgrade that went back to
/// the 8x8 DCT.
pub open spec fn plain_blocks(d: DowngradeView, n: int) -> Seq<(usize, usize)>
    decreases n,
{
    if n <= 0 {
        Seq::empty()
    } else if grid_inside(d.cx, d.cy, n - 1) && d.grid[n - 1] == STRATEGY_DCT {
        plain_blocks(d, n - 1).push(
            ((d.bx + (n - 1) % 4) as usize, (d.by + (n - 1) / 4) as usize),
        )
    } else {
        plain_blocks(d, n - 1)
    }
}

/// The same of the leading `n` downgrades of a band, mosaics left out.
pub open spec fn plain_blocks_of<A>(s: RerankState<A>, n: int) -> Seq<(usize, usize)>
    decreases n,
{
    if n <= 0 {
        Seq::empty()
    } else {
        let d = s.downgrades[n - 1];
        plain_blocks_of(s, n - 1) + (if is_mosaic(s.rollbacks, d.bx, d.by) {
            Seq::empty()
        } else {
            plain_blocks(d, 16)
        })
    }
}

/// The same of the leading `n` bands.
pub open spec fn sub8_targets<A>(outs: Seq<RerankOutput<A>>, n: int) -> Seq<(usize, usize)>
    decreases n,
{
    if n <= 0 {
        Seq::empty()
    } else {
        sub8_targets(outs, n - 1) + plain_blocks_of(
            outs[n - 1]@,
            outs[n - 1]@.downgrades.len() as int,
        )
    }
}

fn belongs_to_mosaic<A: Copy>(out: &RerankOutput<A>, bx: usize, by: usize) -> (r: bool)
    ensures
        r == is_mosaic(out@.rollbacks, bx as int, by as int),
{
    let mut i: usize = 0;
    while i < out.rollbacks.len()
        invariant
            i <= out.rollbacks@.len(),
            forall|k: int|
                0 <= k < i ==> !((#[trigger] out@.rollbacks[k]).at.bx == bx
                    && out@.rollbacks[k].at.by == by),
        decreases out.rollbacks@.len() - i,
    {
        assert(out@.rollbacks[i as int] == out.rollbacks@[i as int]@);
        if out.rollbacks[i].bx == bx && out.rollbacks[i].by == by {
            return true;
        }
        i += 1;
    }
    false
}

fn push_plain_blocks(
    d: &RerankDowngrade,
    out: &mut Vec<(usize, usize)>,
    Ghost(w): Ghost<int>,
    Ghost(h): Ghost<int>,
)
    requires
        downgrade_fits(d@, w, h),
        w <= usize::MAX,
        h <= usize::MAX,
    ensures
        final(out)@ == old(out)@ + plain_blocks(d@, 16),
{
    let ghost start = out@;
    let mut i: usize = 0;
    assert(out@ =~= start + plain_blocks(d@, 0));
    while i < 16
        invariant
            i <= 16,
            downgrade_fits(d@, w, h),
            w <= usize::MAX,
            h <= usize::MAX,
            out@ == start + plain_blocks(d@, i as int),
        decreases 16 - i,
    {
        assert(d@.grid[i as int] == d.restore[i as int]);
        if i % 4 < d.cov_x && i / 4 < d.cov_y && d.restore[i] == STRATEGY_DCT {
            assert(grid_inside(d@.cx, d@.cy, i as int));
            assert(fits_in(w, h, d@.bx + i % 4, d@.by + i / 4, STRATEGY_DCT));
            out.push((d.bx + i % 4, d.by + i / 4));
        }
        i += 1;
        assert(out@ =~= start + plain_blocks(d@, i as int));
    }
}

/// Lists the blocks of undone merges that went back to the 8x8 DCT, but for those
/// in a mosaic, which may then take transforms below 8x8.
pub fn list_sub8_targets<A: Copy>(outs: &Vec<RerankOutput<A>>, w: usize, h: usize) -> (r: Vec<
    (usize, usize),
>)
    requires
        forall|i: int|
            0 <= i < outs@.len() ==> output_fits((#[trigger] outs@[i])@, w as int, h as int),
    ensures
        r@ == sub8_targets(outs@, outs@.len() as int),
{
    let mut out: Vec<(usize, usize)> = Vec::new();
    let mut i: usize = 0;
    while i < outs.len()
        invariant
            i <= outs@.len(),
            forall|k: int|
                0 <= k < outs@.len() ==> output_fits((#[trigger] outs@[k])@, w as int, h as int),
            out@ == sub8_targets(outs@, i as int),
        decreases outs@.len() - i,
    {
        let band: &RerankOutput<A> = &outs[i];
        assert(output_fits(outs@[i as int]@, w as int, h as int));
        let ghost before = out@;
        let mut j: usize = 0;
        assert(out@ =~= before + plain_blocks_of(band@, 0));
        while j < band.downgrades.len()
            invariant
                j <= band.downgrades@.len(),
                output_fits(band@, w as int, h as int),
                out@ == before + plain_blocks_of(band@, j as int),
            decreases band.downgrades@.len() - j,
        {
            let d: RerankDowngrade = band.downgrades[j];
            assert(band@.downgrades[j as int] == d@);
            if !belongs_to_mosaic(band, d.bx, d.by) {
                push_plain_blocks(&d, &mut out, Ghost(w as int), Ghost(h as int));
            }
            j += 1;
            assert(out@ =~= before + plain_blocks_of(band@, j as int));
        }
        i += 1;
    }
    out
}

/// What the choice of transforms below 8x8 changes.
pub struct Sub8State<A> {
    pub layout: Layout,
    pub costs: Costs<A>,
    pub gains: Gains<A>,
    pub benefit: A,
}

/// A grid of gains with one of them replaced.
pub open spec fn with_gain<A>(g: Gains<A>, x: int, y: int, gain: A) -> Gains<A> {
    g.update(y, g[y].update(x, gain))
}

/// The state after the choices of the leading `n` blocks. The cost known of a
/// block that changes its transform is forgotten.
pub open spec fn after_sub8<A: Amount>(
    s: Sub8State<A>,
    targets: Seq<(usize, usize)>,
    picks: Seq<Option<(u8, A)>>,
    leaf_first: bool,
    n: int,
) -> Sub8State<A>
    decreases n,
{
    if n <= 0 {
        s
    } else {
        let t = after_sub8(s, targets, picks, leaf_first, n - 1);
        let x = targets[n - 1].0 as int;
        let y = targets[n - 1].1 as int;
        match picks[n - 1] {
            Some((strategy, gain)) => Sub8State {
                layout: with_first(t.layout, x, y, strategy),
                costs: with_cost(t.costs, x, y, None),
                gains: if leaf_first {
                    with_gain(t.gains, x, y, gain)
                } else {
                    t.gains
                },
                benefit: t.benefit.plus_spec(gain),
            },
            None => t,
        }
    }
}

/// Lets the listed blocks take what they chose, and returns the benefit with
/// their gains added.
pub fn take_sub8<A: Amount>(
    map: &mut AcStrategyImage,
    costs: &mut CostMap<A>,
    gains: &mut Vec<Vec<A>>,
    leaf_first: bool,
    benefit: A,
    targets: &Vec<(usize, usize)>,
    picks: &Vec<Option<(u8, A)>>,
) -> (r: A)
    requires
        old(map).wf(),
        grid_shape(old(costs)@, old(map).width() as int, old(map).height() as int),
        leaf_first ==> old(gains)@.len() == old(map).height() && forall|y: int|
            0 <= y < old(gains)@.len() ==> (#[trigger] old(gains)@[y])@.len() == old(map).width(),
        picks@.len() == targets@.len(),
        forall|i: int|
            0 <= i < targets@.len() && picks@[i] is Some ==> old(map).fits(
                (#[trigger] targets@[i]).0 as int,
                targets@[i].1 as int,
                (picks@[i]->0).0,
            ),
    ensures
        final(map).wf(),
        final(map).width() == old(map).width(),
        final(map).height() == old(map).height(),
        grid_shape(final(costs)@, old(map).width() as int, old(map).height() as int),
        final(gains)@.len() == old(gains)@.len(),
        ({
            let s = after_sub8(
                Sub8State {
                    layout: old(map)@,
                    costs: old(costs)@,
                    gains: gains_view(old(gains)@),
                    benefit,
                },
                targets@,
                picks@,
                leaf_first,
                targets@.len() as int,
            );
            &&& final(map)@ == s.layout
            &&& final(costs)@ == s.costs
            &&& gains_view(final(gains)@) == s.gains
            &&& r == s.benefit
        }),
{
    let ghost start = Sub8State {
        layout: map@,
        costs: costs@,
        gains: gains_view(gains@),
        benefit,
    };
    let ghost w = map.width() as int;
    let ghost h = map.height() as int;
    let mut total: A = benefit;
    let mut i: usize = 0;
    while i < targets.len()
        invariant
            i <= targets@.len(),
            map.wf(),
            map.width() == w,
            map.height() == h,
            w == old(map).width(),
            h == old(map).height(),
            grid_shape(costs@, w, h),
            gains@.len() == old(gains)@.len(),
            leaf_first ==> gains@.len() == h && forall|y: int|
                0 <= y < gains@.len() ==> (#[trigger] gains@[y])@.len() == w,
            picks@.len() == targets@.len(),
            forall|k: int|
                0 <= k < targets@.len() && picks@[k] is Some ==> fits_in(
                    w,
                    h,
                    (#[trigger] targets@[k]).0 as int,
                    targets@[k].1 as int,
                    (picks@[k]->0).0,
                ),
            map@ == after_sub8(start, targets@, picks@, leaf_first, i as int).layout,
            costs@ == after_sub8(start, targets@, picks@, leaf_first, i as int).costs,
            gains_view(gains@) == after_sub8(start, targets@, picks@, leaf_first, i as int).gains,
            total == after_sub8(start, targets@, picks@, leaf_first, i as int).benefit,
        decreases targets@.len() - i,
    {
        let (x, y): (usize, usize) = targets[i];
        assert(targets@[i as int] == (x, y));
        if let Some((strategy, gain)) = picks[i] {
            assert(picks@[i as int] is Some);
            assert(fits_in(w, h, targets@[i as int].0 as int, y as int, strategy));
            map.set_first(x, y, strategy);
            let ghost m = costs@;
            assert(m[y as int].len() == w);
            costs.set(x, y, None);
            assert forall|j: int| 0 <= j < h implies (#[trigger] costs@[j]).len() == w by {
                assert(m[j].len() == w);
            }
            total = total.plus(gain);
            if leaf_first {
                let ghost g = gains@;
                assert(g[y as int]@.len() == w);
                gains[y][x] = gain;
                assert(gains_view(gains@) =~~= with_gain(gains_view(g), x as int, y as int, gain));
                assert forall|j: int| 0 <= j < gains@.len() implies (#[trigger] gains@[j])@.len()
                    == w by {
                    assert(g[j]@.len() == w);
                }
            }
        }
        i += 1;
    }
    total
}

/// A transform that costs metadata of its own.
pub open spec fn is_fine(strategy: u8) -> bool {
    strategy == STRATEGY_IDENTITY || strategy == STRATEGY_DCT2X2
}

/// `(x, y)` lies in one of the mosaics.
pub open spec fn in_mosaic<A>(rollbacks: Seq<FineMergeRollback<A>>, x: int, y: int) -> bool {
    exists|i: int|
        0 <= i < rollbacks.len() && in_window(
            (#[trigger] rollbacks[i]).bx as int,
            rollbacks[i].by as int,
            rollbacks[i].cov_x as int,
            rollbacks[i].cov_y as int,
            x,
            y,
        )
}

fn lies_in_mosaic<A: Copy>(rollbacks: &Vec<FineMergeRollback<A>>, x: usize, y: usize) -> (r: bool)
    ensures
        r == in_mosaic(rollbacks@, x as int, y as int),
{
    let mut i: usize = 0;
    while i < rollbacks.len()
        invariant
            i <= rollbacks@.len(),
            forall|k: int|
                0 <= k < i ==> !in_window(
                    (#[trigger] rollbacks@[k]).bx as int,
                    rollbacks@[k].by as int,
                    rollbacks@[k].cov_x as int,
                    rollbacks@[k].cov_y as int,
                    x as int,
                    y as int,
                ),
        decreases rollbacks@.len() - i,
    {
        let m: FineMergeRollback<A> = rollbacks[i];
        if x >= m.bx && x - m.bx < m.cov_x && y >= m.by && y - m.by < m.cov_y {
            assert(in_window(
                rollbacks@[i as int].bx as int,
                m.by as int,
                m.cov_x as int,
                m.cov_y as int,
                x as int,
                y as int,
            ));
            return true;
        }
        i += 1;
    }
    false
}

/// Sum of the gains of the fine transforms among the leading `n` first blocks
/// that lie in no mosaic.
pub open spec fn fine_gains<A: Amount>(
    blocks: Seq<Placement>,
    gains: Gains<A>,
    rollbacks: Seq<FineMergeRollback<A>>,
    n: int,
) -> A
    decreases n,
{
    if n <= 0 {
        A::zero_spec()
    } else {
        let b = blocks[n - 1];
        let head = fine_gains(blocks, gains, rollbacks, n - 1);
        if is_fine(b.strategy) && !in_mosaic(rollbacks, b.x as int, b.y as int) {
            head.plus_spec(gains[b.y as int][b.x as int])
        } else {
            head
        }
    }
}

/// The benefit of the fine transforms that are left in the map. Those in a mosaic
/// are accounted for with the mosaic.
pub fn surviving_benefit<A: Amount>(
    map: &AcStrategyImage,
    gains: &Vec<Vec<A>>,
    rollbacks: &Vec<FineMergeRollback<A>>,
) -> (r: A)
    requires
        map.wf(),
        gains@.len() == map.height(),
        forall|y: int| 0 <= y < gains@.len() ==> (#[trigger] gains@[y])@.len() == map.width(),
    ensures
        ({
            let blocks = firsts(map@, map.height() as int);
            r == fine_gains(blocks, gains_view(gains@), rollbacks@, blocks.len() as int)
        }),
{
    let mut total: A = A::zero();
    let blocks: Vec<Placement> = map.first_blocks();
    let mut i: usize = 0;
    proof {
        map.lemma_shape();
        lemma_firsts(map@, map.width() as int, map.height() as int);
    }
    while i < blocks.len()
        invariant
            i <= blocks@.len(),
            forall|k: int|
                0 <= k < blocks@.len() ==> (#[trigger] blocks@[k]).x < map.width() && blocks@[k].y
                    < map.height(),
            gains@.len() == map.height(),
            forall|y: int| 0 <= y < gains@.len() ==> (#[trigger] gains@[y])@.len() == map.width(),
            total == fine_gains(blocks@, gains_view(gains@), rollbacks@, i as int),
        decreases blocks@.len() - i,
    {
        let b: Placement = blocks[i];
        assert(blocks@[i as int].x < map.width());
        if (b.strategy == STRATEGY_IDENTITY || b.strategy == STRATEGY_DCT2X2) && !lies_in_mosaic(
            rollbacks,
            b.x,
            b.y,
        ) {
            assert(gains@[b.y as int]@.len() == map.width());
            total = total.plus(gains[b.y][b.x]);
        }
        i += 1;
    }
    total
}

/// The mosaics of the leading `n` bands.
pub open spec fn all_rollbacks<A>(outs: Seq<RerankOutput<A>>, n: int) -> Seq<FineMergeRollback<A>>
    decreases n,
{
    if n <= 0 {
        Seq::empty()
    } else {
        all_rollbacks(outs, n - 1) + outs[n - 1].rollbacks@
    }
}

/// Gathers the mosaics of all bands, each with the merge that it can go back to.
pub fn collect_rollbacks<A: Copy>(outs: &Vec<RerankOutput<A>>) -> (r: Vec<FineMergeRollback<A>>)
    ensures
        r@ == all_rollbacks(outs@, outs@.len() as int),
{
    let mut out: Vec<FineMergeRollback<A>> = Vec::new();
    let mut i: usize = 0;
    while i < outs.len()
        invariant
            i <= outs@.len(),
            out@ == all_rollbacks(outs@, i as int),
        decreases outs@.len() - i,
    {
        let list: &Vec<FineMergeRollback<A>> = &outs[i].rollbacks;
        let ghost before = out@;
        let mut j: usize = 0;
        assert(out@ =~= before + list@.take(0));
        while j < list.len()
            invariant
                j <= list@.len(),
                out@ == before + list@.take(j as int),
            decreases list@.len() - j,
        {
            out.push(list[j]);
            j += 1;
            assert(list@.take(j as int) =~= list@.take(j - 1).push(list@[j - 1]));
            assert(out@ =~= before + list@.take(j as int));
        }
        assert(list@.take(j as int) =~= list@);
        i += 1;
    }
    out
}

} // verus!
