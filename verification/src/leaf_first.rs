//! Selection from the leaves up.
//!
//! 1. Every block picks its best transform over a single block, its leaf.
//! 2. Each 2x2 super-block plans the best of its four leaves, vertical pairs,
//!    horizontal pairs and the 16x16 transform, merges held against the leaves.
//! 3. Each aligned 4x4 region plans the best of its four super-block plans, the
//!    32x32 transform, two 32x16 and two 16x32 transforms.
//!
//! Plans are values; the map is written once per region after its decision.

use crate::amount::Amount;
use crate::bands::{band_sites, law_sites_do_not_overlap, selection_sites, spread, Site};
use crate::selection::{
    refine_sub8_band, single_block_offers, takes_offer, BandOutput, BandState, Chosen32Cost, Offer,
    SelectionParams, SiteCosts,
};
use crate::strategy::{
    covered_x, covered_y, NO_CHILD_BLOCK, STRATEGY_DCT, STRATEGY_DCT16X16, STRATEGY_DCT16X32,
    STRATEGY_DCT16X8, STRATEGY_DCT32X16, STRATEGY_DCT32X32, STRATEGY_DCT8X16,
};
use crate::strategy_map::{fits_in, with_first, AcStrategyImage, Cell, Layout, Placement};
use crate::super_block::{
    arm_spec, beats, child_grid, decide_super_block, expand_2x2, expanded, grid_nontrivial, kept,
    leaf_totals, merge_beats_dct8, nontrivial, pick, raw_array, raw_costs,
    record_upgrade_candidates, saved_views, shortlisted, sub_grid, sub_grid_spec, super_choice,
    SavedChild, SavedView, SuperBlockCosts, SuperChoice,
};
use crate::tiling::place_all;
use vstd::prelude::*;

verus! {

/// One block's best transform over a single block.
#[derive(Clone, Copy)]
pub struct LeafChoice<A> {
    pub strategy: u8,
    /// Decision cost, which merges above this block compete against.
    pub j: A,
    /// The same cost without the family bias.
    pub raw_j: A,
    /// Credit if this leaf survives to the final map.
    pub gain: A,
}

/// What was planned for a 2x2 super-block. Entry `dy * 2 + dx` of the grid is the
/// strategy of the first block there; blocks that a preceding first block covers
/// are marked.
#[derive(Clone, Copy)]
pub struct SuperPlan<A> {
    pub grid: [u8; 4],
    /// Cost handed to the next level.
    pub j: A,
    /// Sum of the four leaves' decision costs.
    pub leaf_total: A,
    /// The losing arm when the 16x16 transform won, unless it is plain 8x8 DCTs.
    pub child: Option<[u8; 4]>,
}

/// A plan with its grids as sequences.
pub struct PlanView<A> {
    pub grid: Seq<u8>,
    pub j: A,
    pub leaf_total: A,
    pub child: Option<Seq<u8>>,
}

impl<A> View for SuperPlan<A> {
    type V = PlanView<A>;

    open spec fn view(&self) -> PlanView<A> {
        PlanView {
            grid: self.grid@,
            j: self.j,
            leaf_total: self.leaf_total,
            child: match self.child {
                Some(child) => Some(child@),
                None => None,
            },
        }
    }
}

/// The costs of a super-block with those of its leaves filled in.
pub open spec fn with_leaves<A>(
    c: SuperBlockCosts<A>,
    l: [[LeafChoice<A>; 2]; 2],
) -> SuperBlockCosts<A> {
    SuperBlockCosts {
        leaf: [[l@[0]@[0].j, l@[0]@[1].j], [l@[1]@[0].j, l@[1]@[1].j]],
        leaf_raw: [[l@[0]@[0].raw_j, l@[0]@[1].raw_j], [l@[1]@[0].raw_j, l@[1]@[1].raw_j]],
        ..c
    }
}

/// The strategies of the leaves.
pub open spec fn leaf_strategies<A>(l: [[LeafChoice<A>; 2]; 2]) -> Seq<u8> {
    seq![
        l@[0]@[0].strategy,
        l@[0]@[1].strategy,
        l@[1]@[0].strategy,
        l@[1]@[1].strategy,
    ]
}

/// The plan of the super-block at `(bx, by)`.
pub open spec fn super_plan<A: Amount>(
    w: int,
    h: int,
    p: SelectionParams<A>,
    c: SuperBlockCosts<A>,
    l: [[LeafChoice<A>; 2]; 2],
    bx: int,
    by: int,
) -> PlanView<A> {
    let full = with_leaves(c, l);
    let choice = super_choice(w, h, bx, by, p.rectangles, p.policy.raw_propagation, p.tuning, full);
    let arm = arm_spec(choice, leaf_strategies(l));
    PlanView {
        grid: if choice.square {
            seq![STRATEGY_DCT16X16, NO_CHILD_BLOCK, NO_CHILD_BLOCK, NO_CHILD_BLOCK]
        } else {
            arm
        },
        j: pick(choice.square || p.policy.raw_propagation, choice.cost, choice.best_rect),
        leaf_total: leaf_totals(full.leaf)[0],
        child: if choice.square && nontrivial(arm) {
            Some(arm)
        } else {
            None
        },
    }
}

/// The merges of a super-block that are shortlisted, if any are to be.
pub open spec fn plan_shortlist<A: Amount>(
    w: int,
    h: int,
    p: SelectionParams<A>,
    c: SuperBlockCosts<A>,
    l: [[LeafChoice<A>; 2]; 2],
    bx: int,
    by: int,
) -> Seq<Placement> {
    if p.policy.merge_upgrade {
        let full = with_leaves(c, l);
        shortlisted(w, h, bx, by, raw_costs(p.rectangles, full), leaf_totals(full.leaf), 5)
    } else {
        Seq::empty()
    }
}

/// Plans one super-block without touching the map.
pub fn plan_super_block<A: Amount>(
    map: &AcStrategyImage,
    p: &SelectionParams<A>,
    c: &SuperBlockCosts<A>,
    l: &[[LeafChoice<A>; 2]; 2],
    bx: usize,
    by: usize,
    upgrades: &mut Vec<Placement>,
) -> (r: SuperPlan<A>)
    requires
        bx < usize::MAX,
        by < usize::MAX,
    ensures
        r@ == super_plan(
            map.width() as int,
            map.height() as int,
            *p,
            *c,
            *l,
            bx as int,
            by as int,
        ),
        final(upgrades)@ == old(upgrades)@ + plan_shortlist(
            map.width() as int,
            map.height() as int,
            *p,
            *c,
            *l,
            bx as int,
            by as int,
        ),
{
    let full: SuperBlockCosts<A> = SuperBlockCosts {
        leaf: [[l[0][0].j, l[0][1].j], [l[1][0].j, l[1][1].j]],
        leaf_raw: [[l[0][0].raw_j, l[0][1].raw_j], [l[1][0].raw_j, l[1][1].raw_j]],
        tall: c.tall,
        wide: c.wide,
        square: c.square,
        accept_16: c.accept_16,
    };
    let choice: SuperChoice<A> = decide_super_block(
        map,
        bx,
        by,
        p.rectangles,
        p.policy.raw_propagation,
        &p.tuning,
        &full,
    );
    let totals: [A; 5] = crate::super_block::sums(full.leaf);
    if p.policy.merge_upgrade {
        record_upgrade_candidates(upgrades, map, bx, by, raw_array(p.rectangles, &full), totals);
    } else {
        assert(old(upgrades)@ + Seq::<Placement>::empty() =~= old(upgrades)@);
    }
    let leaves: [u8; 4] = [l[0][0].strategy, l[0][1].strategy, l[1][0].strategy, l[1][1].strategy];
    assert(leaves@ =~= leaf_strategies(*l));
    let arm: [u8; 4] = crate::super_block::arm_grid(&choice, leaves);
    if choice.square {
        let grid: [u8; 4] = [STRATEGY_DCT16X16, NO_CHILD_BLOCK, NO_CHILD_BLOCK, NO_CHILD_BLOCK];
        assert(grid@ =~= seq![STRATEGY_DCT16X16, NO_CHILD_BLOCK, NO_CHILD_BLOCK, NO_CHILD_BLOCK]);
        SuperPlan {
            grid,
            j: choice.cost,
            leaf_total: totals[0],
            child: if grid_nontrivial(&arm) {
                Some(arm)
            } else {
                None
            },
        }
    } else {
        SuperPlan {
            grid: arm,
            j: if p.policy.raw_propagation {
                choice.cost
            } else {
                choice.best_rect
            },
            leaf_total: totals[0],
            child: None,
        }
    }
}

/// The pairs among the leading `n` entries of a plan's grid, in order.
pub open spec fn pairs_of(grid: Seq<u8>, bx: int, by: int, n: int) -> Seq<Placement>
    decreases n,
{
    if n <= 0 {
        Seq::empty()
    } else {
        let head = pairs_of(grid, bx, by, n - 1);
        let s = grid[n - 1];
        if s == STRATEGY_DCT16X8 || s == STRATEGY_DCT8X16 {
            head.push(
                Placement {
                    x: (bx + (n - 1) % 2) as usize,
                    y: (by + (n - 1) / 2) as usize,
                    strategy: s,
                },
            )
        } else {
            head
        }
    }
}

/// The merges that committing a plan puts down. The leaves are in the map
/// already.
pub open spec fn plan_placements(grid: Seq<u8>, bx: int, by: int) -> Seq<Placement> {
    if grid[0] == STRATEGY_DCT16X16 {
        seq![Placement { x: bx as usize, y: by as usize, strategy: STRATEGY_DCT16X16 }]
    } else {
        pairs_of(grid, bx, by, 4)
    }
}

/// What committing a plan saves.
pub open spec fn plan_saved<A>(plan: PlanView<A>, bx: int, by: int) -> Seq<SavedView> {
    if plan.grid[0] == STRATEGY_DCT16X16 && plan.child is Some {
        seq![SavedView { bx, by, grid: child_grid(plan.child->0) }]
    } else {
        Seq::empty()
    }
}

/// Every merge of a plan lies within `w x h` blocks.
pub open spec fn plan_fits(grid: Seq<u8>, w: int, h: int, bx: int, by: int) -> bool {
    &&& grid[0] == STRATEGY_DCT16X16 ==> fits_in(w, h, bx, by, STRATEGY_DCT16X16)
    &&& grid[0] != STRATEGY_DCT16X16 ==> forall|i: int|
        0 <= i < 4 && (#[trigger] grid[i] == STRATEGY_DCT16X8 || grid[i] == STRATEGY_DCT8X16)
            ==> fits_in(w, h, bx + i % 2, by + i / 2, grid[i])
}

/// Writes a plan into the map. The leaves were committed beforehand, so only
/// merges are put down.
pub fn commit_super_block<A: Amount>(
    map: &mut AcStrategyImage,
    saved: &mut Vec<SavedChild>,
    bx: usize,
    by: usize,
    plan: &SuperPlan<A>,
)
    requires
        old(map).wf(),
        bx < usize::MAX,
        by < usize::MAX,
        plan_fits(
            plan.grid@,
            old(map).width() as int,
            old(map).height() as int,
            bx as int,
            by as int,
        ),
    ensures
        final(map).wf(),
        final(map).width() == old(map).width(),
        final(map).height() == old(map).height(),
        final(map)@ == place_all(old(map)@, plan_placements(plan.grid@, bx as int, by as int)),
        saved_views(final(saved)@) == saved_views(old(saved)@) + plan_saved(
            plan@,
            bx as int,
            by as int,
        ),
{
    if plan.grid[0] == STRATEGY_DCT16X16 {
        proof {
            let p = Placement { x: bx, y: by, strategy: STRATEGY_DCT16X16 };
            reveal_with_fuel(place_all, 2);
            assert(seq![p].drop_last() =~= Seq::<Placement>::empty());
        }
        map.set_first(bx, by, STRATEGY_DCT16X16);
        if let Some(child) = plan.child {
            let mut grid: [u8; 16] = [NO_CHILD_BLOCK; 16];
            assert(grid@ =~= Seq::new(16, |i: int| NO_CHILD_BLOCK));
            expand_2x2(child, 0, 0, &mut grid);
            saved.push(SavedChild { bx, by, grid });
            assert(saved@.drop_last() =~= old(saved)@);
        }
        proof {
            crate::super_block::lemma_saved_views(old(saved)@, saved@);
        }
        return;
    }
    let mut i: usize = 0;
    while i < 4
        invariant
            i <= 4,
            bx < usize::MAX,
            by < usize::MAX,
            plan.grid@[0] != STRATEGY_DCT16X16,
            plan_fits(
                plan.grid@,
                old(map).width() as int,
                old(map).height() as int,
                bx as int,
                by as int,
            ),
            map.wf(),
            map.width() == old(map).width(),
            map.height() == old(map).height(),
            map@ == place_all(old(map)@, pairs_of(plan.grid@, bx as int, by as int, i as int)),
        decreases 4 - i,
    {
        let s: u8 = plan.grid[i];
        if s == STRATEGY_DCT16X8 || s == STRATEGY_DCT8X16 {
            let ghost head = pairs_of(plan.grid@, bx as int, by as int, i as int);
            let ghost p = Placement {
                x: (bx + i % 2) as usize,
                y: (by + i / 2) as usize,
                strategy: s,
            };
            assert(plan.grid@[i as int] == s);
            map.set_first(bx + i % 2, by + i / 2, s);
            assert(head.push(p).drop_last() =~= head);
        }
        i += 1;
    }
    proof {
        crate::super_block::lemma_saved_views(old(saved)@, saved@);
    }
}

/// The decision on a 4x4 region: the merge that wins, if one does, and the cost
/// of what was chosen.
#[derive(Clone, Copy)]
pub struct RegionChoice<A> {
    pub merged: bool,
    pub strategy: u8,
    pub cost: A,
}

/// Sum of four amounts, from nothing on.
pub open spec fn sum4<A: Amount>(a: A, b: A, c: A, d: A) -> A {
    A::zero_spec().plus_spec(a).plus_spec(b).plus_spec(c).plus_spec(d)
}

/// Two halves of a 4x4 region fit the group.
pub open spec fn halves_fit(w: int, h: int, bx: int, by: int, s: u8) -> bool {
    if s == STRATEGY_DCT32X16 {
        fits_in(w, h, bx, by, s) && fits_in(w, h, bx + 2, by, s)
    } else {
        fits_in(w, h, bx, by, s) && fits_in(w, h, bx, by + 2, s)
    }
}

/// The decision on the 4x4 region at `(bx, by)`, given the plans of its
/// super-blocks. The best merge must beat the plans outright and the leaves by
/// its margin.
pub open spec fn region_choice<A: Amount>(
    w: int,
    h: int,
    p: SelectionParams<A>,
    c: SiteCosts<A>,
    plans: Seq<PlanView<A>>,
    bx: int,
    by: int,
) -> RegionChoice<A> {
    let inf = A::infinite_spec();
    let sub_total = sum4(plans[0].j, plans[1].j, plans[2].j, plans[3].j);
    let leaf_total = sum4(
        plans[0].leaf_total,
        plans[1].leaf_total,
        plans[2].leaf_total,
        plans[3].leaf_total,
    );
    let tall_raw = pick(p.rectangles, c.raw@[1], inf).plus_spec(pick(p.rectangles, c.raw@[2], inf));
    let wide_raw = pick(p.rectangles, c.raw@[3], inf).plus_spec(pick(p.rectangles, c.raw@[4], inf));
    let square = pick(
        fits_in(w, h, bx, by, STRATEGY_DCT32X32),
        p.tuning.bias_32x32.times_spec(c.raw@[0]),
        inf,
    );
    let tall = pick(
        halves_fit(w, h, bx, by, STRATEGY_DCT32X16),
        p.tuning.bias_rect32.times_spec(tall_raw),
        inf,
    );
    let wide = pick(
        halves_fit(w, h, bx, by, STRATEGY_DCT16X32),
        p.tuning.bias_rect32.times_spec(wide_raw),
        inf,
    );
    let (best, best_raw, strategy, accept) = if square.at_most_spec(tall) && square.at_most_spec(
        wide,
    ) {
        (square, c.raw@[0], STRATEGY_DCT32X32, c.accept@[0])
    } else if tall.at_most_spec(wide) {
        (tall, tall_raw, STRATEGY_DCT32X16, c.accept@[1])
    } else {
        (wide, wide_raw, STRATEGY_DCT16X32, c.accept@[3])
    };
    let merged = best.less_spec(sub_total) && beats(best, leaf_total, accept);
    RegionChoice {
        merged,
        strategy,
        cost: if !merged {
            sub_total
        } else {
            pick(p.policy.raw_propagation, best_raw, best)
        },
    }
}

fn decide_region<A: Amount>(
    map: &AcStrategyImage,
    p: &SelectionParams<A>,
    c: &SiteCosts<A>,
    plans: &[SuperPlan<A>; 4],
    bx: usize,
    by: usize,
) -> (r: RegionChoice<A>)
    requires
        bx <= usize::MAX - 2,
        by <= usize::MAX - 2,
    ensures
        r == region_choice(
            map.width() as int,
            map.height() as int,
            *p,
            *c,
            seq![plans@[0]@, plans@[1]@, plans@[2]@, plans@[3]@],
            bx as int,
            by as int,
        ),
{
    let inf: A = A::infinite();
    let sub_total: A = A::zero().plus(plans[0].j).plus(plans[1].j).plus(plans[2].j).plus(
        plans[3].j,
    );
    let leaf_total: A = A::zero().plus(plans[0].leaf_total).plus(plans[1].leaf_total).plus(
        plans[2].leaf_total,
    ).plus(plans[3].leaf_total);
    let tall_raw: A = if p.rectangles {
        c.raw[1].plus(c.raw[2])
    } else {
        inf.plus(inf)
    };
    let wide_raw: A = if p.rectangles {
        c.raw[3].plus(c.raw[4])
    } else {
        inf.plus(inf)
    };
    let square: A = if map.can_place_strategy(bx, by, STRATEGY_DCT32X32) {
        p.tuning.bias_32x32.times(c.raw[0])
    } else {
        inf
    };
    let tall: A = if map.can_place_strategy(bx, by, STRATEGY_DCT32X16) && map.can_place_strategy(
        bx + 2,
        by,
        STRATEGY_DCT32X16,
    ) {
        p.tuning.bias_rect32.times(tall_raw)
    } else {
        inf
    };
    let wide: A = if map.can_place_strategy(bx, by, STRATEGY_DCT16X32) && map.can_place_strategy(
        bx,
        by + 2,
        STRATEGY_DCT16X32,
    ) {
        p.tuning.bias_rect32.times(wide_raw)
    } else {
        inf
    };
    let (best, best_raw, strategy, accept): (A, A, u8, A) = if square.at_most(tall)
        && square.at_most(wide) {
        (square, c.raw[0], STRATEGY_DCT32X32, c.accept[0])
    } else if tall.at_most(wide) {
        (tall, tall_raw, STRATEGY_DCT32X16, c.accept[1])
    } else {
        (wide, wide_raw, STRATEGY_DCT16X32, c.accept[3])
    };
    let merged: bool = best.less(sub_total) && merge_beats_dct8(best, leaf_total, accept);
    let cost: A = if !merged {
        sub_total
    } else if p.policy.raw_propagation {
        best_raw
    } else {
        best
    };
    RegionChoice { merged, strategy, cost }
}

/// The planned layout of a 4x4 region.
pub open spec fn region_grid<A>(plans: Seq<PlanView<A>>) -> Seq<u8> {
    let g0 = expanded(Seq::new(16, |i: int| NO_CHILD_BLOCK), plans[0].grid, 0, 0);
    let g1 = expanded(g0, plans[1].grid, 1, 0);
    let g2 = expanded(g1, plans[2].grid, 0, 1);
    expanded(g2, plans[3].grid, 1, 1)
}

/// Columns and rows of a merge over a 4x4 region.
pub open spec fn merge_span(strategy: u8) -> (int, int) {
    if strategy == STRATEGY_DCT32X32 {
        (4, 4)
    } else if strategy == STRATEGY_DCT32X16 {
        (2, 4)
    } else {
        (4, 2)
    }
}

/// The layout under one part of a merge, saved unless it is plain 8x8 DCTs.
pub open spec fn saved_part(grid: Seq<u8>, strategy: u8, ox: int, oy: int, bx: int, by: int) -> Seq<
    SavedView,
> {
    let part = sub_grid_spec(grid, ox, oy, merge_span(strategy).0, merge_span(strategy).1);
    kept(nontrivial(part), bx + ox, by + oy, part)
}

/// What a merge over a 4x4 region saves: one layout for the square, one for each
/// half otherwise.
pub open spec fn saved_parts(grid: Seq<u8>, strategy: u8, bx: int, by: int) -> Seq<SavedView> {
    let first = saved_part(grid, strategy, 0, 0, bx, by);
    if strategy == STRATEGY_DCT32X32 {
        first
    } else {
        first + saved_part(
            grid,
            strategy,
            4 - merge_span(strategy).0,
            4 - merge_span(strategy).1,
            bx,
            by,
        )
    }
}

/// The layout after a merge over the 4x4 region at `(bx, by)`.
pub open spec fn merged_layout(v: Layout, strategy: u8, bx: int, by: int) -> Layout {
    if strategy == STRATEGY_DCT32X32 {
        with_first(v, bx, by, STRATEGY_DCT32X32)
    } else if strategy == STRATEGY_DCT32X16 {
        with_first(with_first(v, bx, by, STRATEGY_DCT32X16), bx + 2, by, STRATEGY_DCT32X16)
    } else {
        with_first(with_first(v, bx, by, STRATEGY_DCT16X32), bx, by + 2, STRATEGY_DCT16X32)
    }
}

/// The leaves of the super-block at `(bx, by)`. Row `y0` of the map has the first
/// row of leaves.
pub open spec fn leaves_at<A>(leaves: Seq<Vec<LeafChoice<A>>>, y0: int, bx: int, by: int) -> [[
    LeafChoice<A>;
    2
]; 2] {
    [
        [leaves[by - y0]@[bx], leaves[by - y0]@[bx + 1]],
        [leaves[by + 1 - y0]@[bx], leaves[by + 1 - y0]@[bx + 1]],
    ]
}

/// The state after committing a super-block's plan.
pub open spec fn committed<A>(s: BandState<A>, plan: PlanView<A>, bx: int, by: int) -> BandState<A> {
    BandState {
        layout: place_all(s.layout, plan_placements(plan.grid, bx, by)),
        saved: s.saved + plan_saved(plan, bx, by),
        ..s
    }
}

/// The state after planning and committing the super-block at `(bx, by)`.
pub open spec fn leaf_super_step<A: Amount>(
    w: int,
    h: int,
    p: SelectionParams<A>,
    c: SuperBlockCosts<A>,
    l: [[LeafChoice<A>; 2]; 2],
    bx: int,
    by: int,
    s: BandState<A>,
) -> BandState<A> {
    let t = BandState { upgrades: s.upgrades + plan_shortlist(w, h, p, c, l, bx, by), ..s };
    committed(t, super_plan(w, h, p, c, l, bx, by), bx, by)
}

/// The plans of the four super-blocks of the region at `(bx, by)`.
pub open spec fn region_plans<A: Amount>(
    w: int,
    h: int,
    p: SelectionParams<A>,
    c: SiteCosts<A>,
    leaves: Seq<Vec<LeafChoice<A>>>,
    y0: int,
    bx: int,
    by: int,
) -> Seq<PlanView<A>> {
    seq![
        super_plan(w, h, p, c.supers@[0]@[0], leaves_at(leaves, y0, bx, by), bx, by),
        super_plan(w, h, p, c.supers@[0]@[1], leaves_at(leaves, y0, bx + 2, by), bx + 2, by),
        super_plan(w, h, p, c.supers@[1]@[0], leaves_at(leaves, y0, bx, by + 2), bx, by + 2),
        super_plan(
            w,
            h,
            p,
            c.supers@[1]@[1],
            leaves_at(leaves, y0, bx + 2, by + 2),
            bx + 2,
            by + 2,
        ),
    ]
}

/// The merges that the four super-blocks of a region shortlist.
pub open spec fn region_shortlist<A: Amount>(
    w: int,
    h: int,
    p: SelectionParams<A>,
    c: SiteCosts<A>,
    leaves: Seq<Vec<LeafChoice<A>>>,
    y0: int,
    bx: int,
    by: int,
) -> Seq<Placement> {
    plan_shortlist(w, h, p, c.supers@[0]@[0], leaves_at(leaves, y0, bx, by), bx, by)
        + plan_shortlist(w, h, p, c.supers@[0]@[1], leaves_at(leaves, y0, bx + 2, by), bx + 2, by)
        + plan_shortlist(w, h, p, c.supers@[1]@[0], leaves_at(leaves, y0, bx, by + 2), bx, by + 2)
        + plan_shortlist(
        w,
        h,
        p,
        c.supers@[1]@[1],
        leaves_at(leaves, y0, bx + 2, by + 2),
        bx + 2,
        by + 2,
    )
}

/// The state after deciding on the 4x4 region at `(bx, by)`. A merge drops what
/// the region shortlisted and saves the layout it covers; otherwise the four
/// plans are committed.
pub open spec fn leaf_region_step<A: Amount>(
    w: int,
    h: int,
    p: SelectionParams<A>,
    c: SiteCosts<A>,
    leaves: Seq<Vec<LeafChoice<A>>>,
    y0: int,
    bx: int,
    by: int,
    s: BandState<A>,
) -> BandState<A> {
    let plans = region_plans(w, h, p, c, leaves, y0, bx, by);
    let choice = region_choice(w, h, p, c, plans, bx, by);
    let done = if choice.merged {
        BandState {
            layout: merged_layout(s.layout, choice.strategy, bx, by),
            saved: s.saved + saved_parts(region_grid(plans), choice.strategy, bx, by),
            ..s
        }
    } else {
        let t = BandState {
            upgrades: s.upgrades + region_shortlist(w, h, p, c, leaves, y0, bx, by),
            ..s
        };
        committed(
            committed(
                committed(committed(t, plans[0], bx, by), plans[1], bx + 2, by),
                plans[2],
                bx,
                by + 2,
            ),
            plans[3],
            bx + 2,
            by + 2,
        )
    };
    BandState {
        chosen32: done.chosen32.push(
            Chosen32Cost { bx: bx as usize, by: by as usize, cost: choice.cost },
        ),
        ..done
    }
}

/// Every leaf is a transform over a single block.
pub open spec fn single_block_leaves<A>(leaves: Seq<Vec<LeafChoice<A>>>) -> bool {
    forall|j: int, x: int|
        0 <= j < leaves.len() && 0 <= x < leaves[j]@.len() ==> covered_x(
            (#[trigger] leaves[j]@[x]).strategy,
        ) == 1 && covered_y(leaves[j]@[x].strategy) == 1
}

proof fn lemma_plan_fits<A: Amount>(
    w: int,
    h: int,
    p: SelectionParams<A>,
    c: SuperBlockCosts<A>,
    l: [[LeafChoice<A>; 2]; 2],
    bx: int,
    by: int,
)
    requires
        forall|i: int|
            0 <= i < 4 ==> covered_x(#[trigger] leaf_strategies(l)[i]) == 1 && covered_y(
                leaf_strategies(l)[i],
            ) == 1,
    ensures
        plan_fits(super_plan(w, h, p, c, l, bx, by).grid, w, h, bx, by),
{
    let ls = leaf_strategies(l);
    assert(covered_x(ls[0]) == 1 && covered_x(ls[1]) == 1 && covered_x(ls[2]) == 1 && covered_x(
        ls[3],
    ) == 1);
    let grid = super_plan(w, h, p, c, l, bx, by).grid;
    if grid[0] != STRATEGY_DCT16X16 {
        assert forall|i: int|
            0 <= i < 4 && (#[trigger] grid[i] == STRATEGY_DCT16X8 || grid[i]
                == STRATEGY_DCT8X16) implies fits_in(w, h, bx + i % 2, by + i / 2, grid[i]) by {
            assert(i == 0 || i == 1 || i == 2 || i == 3);
            assert(covered_y(ls[i]) == 1);
        }
    }
}

fn gather_leaves<A: Amount>(
    leaves: &Vec<Vec<LeafChoice<A>>>,
    y0: usize,
    bx: usize,
    by: usize,
) -> (r: [[LeafChoice<A>; 2]; 2])
    requires
        y0 <= by,
        by + 2 <= y0 + leaves@.len(),
        by < usize::MAX,
        forall|j: int| 0 <= j < leaves@.len() ==> bx + 2 <= (#[trigger] leaves@[j])@.len(),
        bx < usize::MAX,
    ensures
        r == leaves_at(leaves@, y0 as int, bx as int, by as int),
{
    let top: &Vec<LeafChoice<A>> = &leaves[by - y0];
    let bottom: &Vec<LeafChoice<A>> = &leaves[by + 1 - y0];
    [[top[bx], top[bx + 1]], [bottom[bx], bottom[bx + 1]]]
}

/// A band's leaves: one row per block row, one leaf per block.
pub open spec fn leaves_shape<A>(leaves: Seq<Vec<LeafChoice<A>>>, w: int, rows: int) -> bool {
    leaves.len() == rows && forall|j: int|
        0 <= j < rows ==> (#[trigger] leaves[j])@.len() == w
}

fn plan_one<A: Amount>(
    map: &AcStrategyImage,
    p: &SelectionParams<A>,
    c: &SuperBlockCosts<A>,
    leaves: &Vec<Vec<LeafChoice<A>>>,
    y0: usize,
    bx: usize,
    by: usize,
    upgrades: &mut Vec<Placement>,
) -> (r: SuperPlan<A>)
    requires
        leaves_shape(leaves@, map.width() as int, leaves@.len() as int),
        single_block_leaves(leaves@),
        y0 <= by,
        by + 2 <= y0 + leaves@.len(),
        bx + 2 <= map.width(),
        by < usize::MAX,
    ensures
        r@ == super_plan(
            map.width() as int,
            map.height() as int,
            *p,
            *c,
            leaves_at(leaves@, y0 as int, bx as int, by as int),
            bx as int,
            by as int,
        ),
        plan_fits(
            r.grid@,
            map.width() as int,
            map.height() as int,
            bx as int,
            by as int,
        ),
        final(upgrades)@ == old(upgrades)@ + plan_shortlist(
            map.width() as int,
            map.height() as int,
            *p,
            *c,
            leaves_at(leaves@, y0 as int, bx as int, by as int),
            bx as int,
            by as int,
        ),
{
    let l: [[LeafChoice<A>; 2]; 2] = gather_leaves(leaves, y0, bx, by);
    proof {
        let top = leaves@[by - y0]@;
        let bottom = leaves@[by + 1 - y0]@;
        assert(covered_x(top[bx as int].strategy) == 1);
        assert(covered_x(top[bx + 1].strategy) == 1);
        assert(covered_x(bottom[bx as int].strategy) == 1);
        assert(covered_x(bottom[bx + 1].strategy) == 1);
        let ls = leaf_strategies(l);
        assert forall|i: int| 0 <= i < 4 implies covered_x(#[trigger] ls[i]) == 1 && covered_y(
            ls[i],
        ) == 1 by {
            assert(i == 0 || i == 1 || i == 2 || i == 3);
        }
        lemma_plan_fits(
            map.width() as int,
            map.height() as int,
            *p,
            *c,
            l,
            bx as int,
            by as int,
        );
    }
    plan_super_block(map, p, c, &l, bx, by, upgrades)
}

fn commit_merge<A: Amount>(
    map: &mut AcStrategyImage,
    saved: &mut Vec<SavedChild>,
    plans: &[SuperPlan<A>; 4],
    strategy: u8,
    bx: usize,
    by: usize,
)
    requires
        old(map).wf(),
        bx + 4 <= old(map).width(),
        by + 4 <= old(map).height(),
        strategy == STRATEGY_DCT32X32 || strategy == STRATEGY_DCT32X16 || strategy
            == STRATEGY_DCT16X32,
    ensures
        final(map).wf(),
        final(map).width() == old(map).width(),
        final(map).height() == old(map).height(),
        final(map)@ == merged_layout(old(map)@, strategy, bx as int, by as int),
        saved_views(final(saved)@) == saved_views(old(saved)@) + saved_parts(
            region_grid(seq![plans@[0]@, plans@[1]@, plans@[2]@, plans@[3]@]),
            strategy,
            bx as int,
            by as int,
        ),
{
    let mut grid: [u8; 16] = [NO_CHILD_BLOCK; 16];
    assert(grid@ =~= Seq::new(16, |i: int| NO_CHILD_BLOCK));
    expand_2x2(plans[0].grid, 0, 0, &mut grid);
    expand_2x2(plans[1].grid, 1, 0, &mut grid);
    expand_2x2(plans[2].grid, 0, 1, &mut grid);
    expand_2x2(plans[3].grid, 1, 1, &mut grid);
    let (cov_x, cov_y): (usize, usize) = if strategy == STRATEGY_DCT32X32 {
        (4, 4)
    } else if strategy == STRATEGY_DCT32X16 {
        (2, 4)
    } else {
        (4, 2)
    };
    let ghost start = saved@;
    save_part(saved, &grid, strategy, 0, 0, cov_x, cov_y, bx, by);
    if strategy != STRATEGY_DCT32X32 {
        save_part(saved, &grid, strategy, 4 - cov_x, 4 - cov_y, cov_x, cov_y, bx, by);
        assert(saved_views(saved@) =~= saved_views(start) + saved_parts(
            grid@,
            strategy,
            bx as int,
            by as int,
        ));
    }
    if strategy == STRATEGY_DCT32X32 {
        map.set_first(bx, by, STRATEGY_DCT32X32);
    } else if strategy == STRATEGY_DCT32X16 {
        map.set_first(bx, by, STRATEGY_DCT32X16);
        map.set_first(bx + 2, by, STRATEGY_DCT32X16);
    } else {
        map.set_first(bx, by, STRATEGY_DCT16X32);
        map.set_first(bx, by + 2, STRATEGY_DCT16X32);
    }
}

fn save_part(
    saved: &mut Vec<SavedChild>,
    grid: &[u8; 16],
    strategy: u8,
    ox: usize,
    oy: usize,
    cov_x: usize,
    cov_y: usize,
    bx: usize,
    by: usize,
)
    requires
        merge_span(strategy) == (cov_x as int, cov_y as int),
        ox + cov_x <= 4,
        oy + cov_y <= 4,
        bx + 4 <= usize::MAX,
        by + 4 <= usize::MAX,
    ensures
        saved_views(final(saved)@) == saved_views(old(saved)@) + saved_part(
            grid@,
            strategy,
            ox as int,
            oy as int,
            bx as int,
            by as int,
        ),
{
    let part: [u8; 16] = sub_grid(grid, ox, oy, cov_x, cov_y);
    if grid_nontrivial(&part) {
        saved.push(SavedChild { bx: bx + ox, by: by + oy, grid: part });
        assert(saved@.drop_last() =~= old(saved)@);
    }
    proof {
        crate::super_block::lemma_saved_views(old(saved)@, saved@);
    }
}

fn leaf_super<A: Amount>(
    map: &mut AcStrategyImage,
    p: &SelectionParams<A>,
    c: &SuperBlockCosts<A>,
    leaves: &Vec<Vec<LeafChoice<A>>>,
    y0: usize,
    bx: usize,
    by: usize,
    out: &mut BandOutput<A>,
)
    requires
        old(map).wf(),
        leaves_shape(leaves@, old(map).width() as int, leaves@.len() as int),
        single_block_leaves(leaves@),
        y0 <= by,
        by + 2 <= y0 + leaves@.len(),
        bx + 2 <= old(map).width(),
        by + 2 <= old(map).height(),
    ensures
        final(map).wf(),
        final(map).width() == old(map).width(),
        final(map).height() == old(map).height(),
        final(out).with(*final(map)) == leaf_super_step(
            old(map).width() as int,
            old(map).height() as int,
            *p,
            *c,
            leaves_at(leaves@, y0 as int, bx as int, by as int),
            bx as int,
            by as int,
            old(out).with(*old(map)),
        ),
{
    let plan: SuperPlan<A> = plan_one(
        map,
        p,
        c,
        leaves,
        y0,
        bx,
        by,
        &mut out.upgrade_candidates,
    );
    commit_super_block(map, &mut out.saved_children, bx, by, &plan);
}

fn leaf_region<A: Amount>(
    map: &mut AcStrategyImage,
    p: &SelectionParams<A>,
    c: &SiteCosts<A>,
    leaves: &Vec<Vec<LeafChoice<A>>>,
    y0: usize,
    bx: usize,
    by: usize,
    out: &mut BandOutput<A>,
)
    requires
        old(map).wf(),
        leaves_shape(leaves@, old(map).width() as int, leaves@.len() as int),
        single_block_leaves(leaves@),
        y0 <= by,
        by + 4 <= y0 + leaves@.len(),
        bx + 4 <= old(map).width(),
        by + 4 <= old(map).height(),
    ensures
        final(map).wf(),
        final(map).width() == old(map).width(),
        final(map).height() == old(map).height(),
        final(out).with(*final(map)) == leaf_region_step(
            old(map).width() as int,
            old(map).height() as int,
            *p,
            *c,
            leaves@,
            y0 as int,
            bx as int,
            by as int,
            old(out).with(*old(map)),
        ),
{
    let ghost w = map.width() as int;
    let ghost h = map.height() as int;
    let ghost before = out.with(*map);
    let mark: usize = out.upgrade_candidates.len();
    let a: SuperPlan<A> = plan_one(
        map,
        p,
        &c.supers[0][0],
        leaves,
        y0,
        bx,
        by,
        &mut out.upgrade_candidates,
    );
    let b: SuperPlan<A> = plan_one(
        map,
        p,
        &c.supers[0][1],
        leaves,
        y0,
        bx + 2,
        by,
        &mut out.upgrade_candidates,
    );
    let d: SuperPlan<A> = plan_one(
        map,
        p,
        &c.supers[1][0],
        leaves,
        y0,
        bx,
        by + 2,
        &mut out.upgrade_candidates,
    );
    let e: SuperPlan<A> = plan_one(
        map,
        p,
        &c.supers[1][1],
        leaves,
        y0,
        bx + 2,
        by + 2,
        &mut out.upgrade_candidates,
    );
    let plans: [SuperPlan<A>; 4] = [a, b, d, e];
    let ghost views = region_plans(w, h, *p, *c, leaves@, y0 as int, bx as int, by as int);
    proof {
        assert(seq![plans@[0]@, plans@[1]@, plans@[2]@, plans@[3]@] =~= views);
        assert(out.upgrade_candidates@ =~= before.upgrades + region_shortlist(
            w,
            h,
            *p,
            *c,
            leaves@,
            y0 as int,
            bx as int,
            by as int,
        ));
    }
    let choice: RegionChoice<A> = decide_region(map, p, c, &plans, bx, by);
    if choice.merged {
        out.upgrade_candidates.truncate(mark);
        assert(out.upgrade_candidates@ =~= before.upgrades);
        commit_merge(map, &mut out.saved_children, &plans, choice.strategy, bx, by);
    } else {
        commit_super_block(map, &mut out.saved_children, bx, by, &a);
        commit_super_block(map, &mut out.saved_children, bx + 2, by, &b);
        commit_super_block(map, &mut out.saved_children, bx, by + 2, &d);
        commit_super_block(map, &mut out.saved_children, bx + 2, by + 2, &e);
    }
    out.chosen32.push(Chosen32Cost { bx, by, cost: choice.cost });
}

/// What the best single-block alternative to the 8x8 DCT would bring a block.
#[derive(Clone, Copy)]
pub struct Sub8Pick<A> {
    pub strategy: u8,
    pub biased_j: A,
    pub raw_j: A,
    pub gain: A,
}

/// The leaf of a block: its alternative where it has one, the 8x8 DCT otherwise.
pub open spec fn leaf_of<A: Amount>(dct8: A, pick: Option<Sub8Pick<A>>) -> LeafChoice<A> {
    match pick {
        Some(p) => LeafChoice {
            strategy: p.strategy,
            j: p.biased_j,
            raw_j: p.raw_j,
            gain: p.gain,
        },
        None => LeafChoice { strategy: STRATEGY_DCT, j: dct8, raw_j: dct8, gain: A::zero_spec() },
    }
}

/// The leaf of a block with the given 8x8 DCT cost and alternative.
pub fn choose_leaf<A: Amount>(dct8: A, pick: Option<Sub8Pick<A>>) -> (r: LeafChoice<A>)
    ensures
        r == leaf_of(dct8, pick),
{
    match pick {
        Some(p) => LeafChoice {
            strategy: p.strategy,
            j: p.biased_j,
            raw_j: p.raw_j,
            gain: p.gain,
        },
        None => LeafChoice { strategy: STRATEGY_DCT, j: dct8, raw_j: dct8, gain: A::zero() },
    }
}

/// The layout with every leaf other than the 8x8 DCT written into it. Row `y0`
/// has the first row of leaves.
pub open spec fn leaves_layout<A>(v: Layout, leaves: Seq<Vec<LeafChoice<A>>>, y0: int) -> Layout {
    Seq::new(
        v.len(),
        |y: int|
            Seq::new(
                v[y].len(),
                |x: int|
                    if y0 <= y < y0 + leaves.len() && leaves[y - y0]@[x].strategy != STRATEGY_DCT {
                        Cell { strategy: leaves[y - y0]@[x].strategy, first: true }
                    } else {
                        v[y][x]
                    },
            ),
    )
}

/// The layout with every offer taken that `takes_offer` allows.
pub open spec fn refined_layout<A>(v: Layout, offers: Seq<Vec<Offer<A>>>, y0: int) -> Layout {
    Seq::new(
        v.len(),
        |y: int|
            Seq::new(
                v[y].len(),
                |x: int|
                    if y0 <= y < y0 + offers.len() && takes_offer(v, offers, y0, x, y) {
                        Cell { strategy: (offers[y - y0]@[x]->0).0, first: true }
                    } else {
                        v[y][x]
                    },
            ),
    )
}

fn commit_leaves<A: Amount>(
    map: &mut AcStrategyImage,
    y0: usize,
    leaves: &Vec<Vec<LeafChoice<A>>>,
)
    requires
        old(map).wf(),
        y0 + leaves@.len() <= old(map).height(),
        leaves_shape(leaves@, old(map).width() as int, leaves@.len() as int),
        single_block_leaves(leaves@),
    ensures
        final(map).wf(),
        final(map).width() == old(map).width(),
        final(map).height() == old(map).height(),
        final(map)@ == leaves_layout(old(map)@, leaves@, y0 as int),
{
    let ghost v = map@;
    let ghost w = map.width() as int;
    proof {
        map.lemma_shape();
    }
    let mut j: usize = 0;
    while j < leaves.len()
        invariant
            j <= leaves@.len(),
            y0 + leaves@.len() <= map.height(),
            map.wf(),
            map.width() == w,
            w == old(map).width(),
            map.height() == old(map).height(),
            v == old(map)@,
            leaves_shape(leaves@, w, leaves@.len() as int),
            single_block_leaves(leaves@),
            forall|a: int, b: int|
                map.inside(a, b) ==> #[trigger] map@[b][a] == (if y0 <= b < y0 + j
                    && leaves@[b - y0]@[a].strategy != STRATEGY_DCT {
                    Cell { strategy: leaves@[b - y0]@[a].strategy, first: true }
                } else {
                    v[b][a]
                }),
        decreases leaves@.len() - j,
    {
        let mut x: usize = 0;
        while x < map.xsize()
            invariant
                x <= w,
                j < leaves@.len(),
                y0 + leaves@.len() <= map.height(),
                map.wf(),
                map.width() == w,
                w == old(map).width(),
                map.height() == old(map).height(),
                v == old(map)@,
                leaves_shape(leaves@, w, leaves@.len() as int),
                single_block_leaves(leaves@),
                forall|a: int, b: int|
                    map.inside(a, b) ==> #[trigger] map@[b][a] == (if (y0 <= b < y0 + j || b == y0
                        + j && a < x) && leaves@[b - y0]@[a].strategy != STRATEGY_DCT {
                        Cell { strategy: leaves@[b - y0]@[a].strategy, first: true }
                    } else {
                        v[b][a]
                    }),
            decreases w - x,
        {
            let row: &Vec<LeafChoice<A>> = &leaves[j];
            let s: u8 = row[x].strategy;
            assert(covered_x(leaves@[j as int]@[x as int].strategy) == 1);
            if s != STRATEGY_DCT {
                let ghost prev = map@;
                proof {
                    map.lemma_shape();
                }
                map.set_first(x, y0 + j, s);
                proof {
                    assert forall|a: int, b: int| map.inside(a, b) implies #[trigger] map@[b][a]
                        == (if a == x && b == y0 + j {
                        Cell { strategy: s, first: true }
                    } else {
                        prev[b][a]
                    }) by {
                        assert(map@[b] == with_first(prev, x as int, y0 + j, s)[b]);
                    }
                }
            }
            x += 1;
        }
        j += 1;
    }
    proof {
        map.lemma_shape();
        assert forall|b: int| 0 <= b < map@.len() implies #[trigger] map@[b] == leaves_layout(
            v,
            leaves@,
            y0 as int,
        )[b] by {
            assert forall|a: int| 0 <= a < map@[b].len() implies map@[b][a] == leaves_layout(
                v,
                leaves@,
                y0 as int,
            )[b][a] by {
                assert(map.inside(a, b));
            }
            assert(map@[b] =~= leaves_layout(v, leaves@, y0 as int)[b]);
        }
        assert(map@ =~= leaves_layout(v, leaves@, y0 as int));
    }
}

/// The state after the leading `n` sites.
pub open spec fn after_leaf_sites<A: Amount>(
    w: int,
    h: int,
    p: SelectionParams<A>,
    sites: Seq<Site>,
    costs: Seq<SiteCosts<A>>,
    leaves: Seq<Vec<LeafChoice<A>>>,
    y0: int,
    s: BandState<A>,
    n: int,
) -> BandState<A>
    decreases n,
{
    if n <= 0 {
        s
    } else {
        let t = after_leaf_sites(w, h, p, sites, costs, leaves, y0, s, n - 1);
        let bx = sites[n - 1].bx as int;
        let by = sites[n - 1].by as int;
        if sites[n - 1].quad {
            leaf_region_step(w, h, p, costs[n - 1], leaves, y0, bx, by, t)
        } else {
            leaf_super_step(
                w,
                h,
                p,
                costs[n - 1].supers@[0]@[0],
                leaves_at(leaves, y0, bx, by),
                bx,
                by,
                t,
            )
        }
    }
}

/// The state after leaf-first selection of rows `[y0, y1)`, before anything
/// refines the blocks left as 8x8 DCTs.
pub open spec fn after_leaf_first<A: Amount>(
    w: int,
    h: int,
    p: SelectionParams<A>,
    y0: int,
    y1: int,
    costs: Seq<SiteCosts<A>>,
    leaves: Seq<Vec<LeafChoice<A>>>,
    s: BandState<A>,
) -> BandState<A> {
    after_leaf_sites(
        w,
        h,
        p,
        band_sites(w, h, y0, y1),
        costs,
        leaves,
        y0,
        BandState { layout: leaves_layout(s.layout, leaves, y0), ..s },
        costs.len() as int,
    )
}

/// Selects the strategies of block rows `[y0, y1)` from the leaves up.
///
/// The leaves are written first; merges overwrite the blocks they cover. Edge
/// tests use the size of the whole group.
pub fn select_band_leaf_first<A: Amount>(
    map: &mut AcStrategyImage,
    band: (usize, usize),
    p: &SelectionParams<A>,
    costs: &[SiteCosts<A>],
    leaves: &Vec<Vec<LeafChoice<A>>>,
    out: &mut BandOutput<A>,
)
    requires
        old(map).wf(),
        band.0 <= band.1 <= old(map).height(),
        band.0 % 4 == 0,
        band.1 % 4 == 0 || band.1 == old(map).height(),
        leaves_shape(leaves@, old(map).width() as int, band.1 - band.0),
        single_block_leaves(leaves@),
        costs@.len() == band_sites(
            old(map).width() as int,
            old(map).height() as int,
            band.0 as int,
            band.1 as int,
        ).len(),
    ensures
        final(map).wf(),
        final(map).width() == old(map).width(),
        final(map).height() == old(map).height(),
        final(out).with(*final(map)) == after_leaf_first(
            old(map).width() as int,
            old(map).height() as int,
            *p,
            band.0 as int,
            band.1 as int,
            costs@,
            leaves@,
            old(out).with(*old(map)),
        ),
{
    let ghost w = map.width() as int;
    let ghost h = map.height() as int;
    let ghost start = BandState {
        layout: leaves_layout(map@, leaves@, band.0 as int),
        ..out.with(*map)
    };
    commit_leaves(map, band.0, leaves);
    let sites: Vec<Site> = selection_sites(map.xsize(), map.ysize(), band.0, band.1);
    proof {
        law_sites_do_not_overlap(w, h, band.0 as int, band.1 as int);
        assert(out.with(*map) == start);
    }
    let mut i: usize = 0;
    while i < sites.len()
        invariant
            i <= sites@.len(),
            costs@.len() == sites@.len(),
            sites@ == band_sites(w, h, band.0 as int, band.1 as int),
            spread(sites@, 0, w, band.0 as int, band.1 as int),
            band.0 <= band.1 <= h,
            leaves_shape(leaves@, w, band.1 - band.0),
            single_block_leaves(leaves@),
            map.wf(),
            map.width() == w,
            map.height() == h,
            w == old(map).width(),
            h == old(map).height(),
            out.with(*map) == after_leaf_sites(
                w,
                h,
                *p,
                sites@,
                costs@,
                leaves@,
                band.0 as int,
                start,
                i as int,
            ),
        decreases sites@.len() - i,
    {
        let site: Site = sites[i];
        assert(sites@[i as int].by + sites@[i as int].side() <= band.1);
        if site.quad {
            leaf_region(map, p, &costs[i], leaves, band.0, site.bx, site.by, out);
        } else {
            leaf_super(map, p, &costs[i].supers[0][0], leaves, band.0, site.bx, site.by, out);
        }
        i += 1;
    }
}

/// The gain kept for the block at `(x, y)` after refinement: that of the offer it
/// took, or that of its leaf.
pub open spec fn refined_gain<A>(
    v: Layout,
    offers: Seq<Vec<Offer<A>>>,
    leaves: Seq<Vec<LeafChoice<A>>>,
    y0: int,
    x: int,
    y: int,
) -> A {
    if takes_offer(v, offers, y0, x, y) {
        (offers[y - y0]@[x]->0).1
    } else {
        leaves[y - y0]@[x].gain
    }
}

/// Lets every block of rows `[y0, y1)` that is still an 8x8 DCT take its offer,
/// whose gain then stands for that of the block's leaf.
pub fn refine_leaves<A: Amount>(
    map: &mut AcStrategyImage,
    y0: usize,
    y1: usize,
    offers: &Vec<Vec<Offer<A>>>,
    leaves: &mut Vec<Vec<LeafChoice<A>>>,
)
    requires
        old(map).wf(),
        y0 <= y1 <= old(map).height(),
        offers@.len() == y1 - y0,
        forall|j: int| 0 <= j < offers@.len() ==> (#[trigger] offers@[j])@.len() == old(map).width(),
        single_block_offers(offers@),
        leaves_shape(old(leaves)@, old(map).width() as int, y1 - y0),
    ensures
        final(map).wf(),
        final(map).width() == old(map).width(),
        final(map).height() == old(map).height(),
        final(map)@ == refined_layout(old(map)@, offers@, y0 as int),
        leaves_shape(final(leaves)@, old(map).width() as int, y1 - y0),
        forall|j: int, x: int|
            0 <= j < y1 - y0 && 0 <= x < old(map).width() ==> #[trigger] final(leaves)@[j]@[x] == (
            LeafChoice {
                gain: refined_gain(old(map)@, offers@, old(leaves)@, y0 as int, x, y0 + j),
                ..old(leaves)@[j]@[x]
            }),
{
    let ghost v = map@;
    let ghost w = map.width() as int;
    proof {
        map.lemma_shape();
    }
    let mut j: usize = 0;
    while j < y1 - y0
        invariant
            j <= y1 - y0,
            y0 <= y1 <= map.height(),
            *map == *old(map),
            v == map@,
            map.wf(),
            map.width() == w,
            offers@.len() == y1 - y0,
            forall|k: int| 0 <= k < offers@.len() ==> (#[trigger] offers@[k])@.len() == w,
            leaves_shape(old(leaves)@, w, y1 - y0),
            leaves_shape(leaves@, w, y1 - y0),
            forall|k: int, x: int|
                0 <= k < y1 - y0 && 0 <= x < w ==> #[trigger] leaves@[k]@[x] == (if k < j {
                    LeafChoice {
                        gain: refined_gain(v, offers@, old(leaves)@, y0 as int, x, y0 + k),
                        ..old(leaves)@[k]@[x]
                    }
                } else {
                    old(leaves)@[k]@[x]
                }),
        decreases y1 - y0 - j,
    {
        let row: &Vec<Offer<A>> = &offers[j];
        let mut x: usize = 0;
        while x < map.xsize()
            invariant
                x <= w,
                j < y1 - y0,
                y0 <= y1 <= map.height(),
                *map == *old(map),
                v == map@,
                map.wf(),
                map.width() == w,
                offers@.len() == y1 - y0,
                row@ == offers@[j as int]@,
                row@.len() == w,
                leaves_shape(old(leaves)@, w, y1 - y0),
                leaves_shape(leaves@, w, y1 - y0),
                forall|k: int, a: int|
                    0 <= k < y1 - y0 && 0 <= a < w ==> #[trigger] leaves@[k]@[a] == (if k < j || k
                        == j && a < x {
                        LeafChoice {
                            gain: refined_gain(v, offers@, old(leaves)@, y0 as int, a, y0 + k),
                            ..old(leaves)@[k]@[a]
                        }
                    } else {
                        old(leaves)@[k]@[a]
                    }),
            decreases w - x,
        {
            let ghost prev = leaves@;
            assert(map.inside(x as int, y0 + j));
            assert(prev[j as int]@[x as int] == old(leaves)@[j as int]@[x as int]);
            if map.raw_strategy(x, y0 + j) == STRATEGY_DCT {
                if let Some((_, gain)) = row[x] {
                    let kept: LeafChoice<A> = leaves[j][x];
                    leaves[j][x] = LeafChoice { gain, ..kept };
                }
            }
            proof {
                assert forall|k: int, a: int| 0 <= k < y1 - y0 && 0 <= a < w && !(k == j && a
                    == x) implies #[trigger] leaves@[k]@[a] == prev[k]@[a] by {
                    if k != j {
                        assert(leaves@[k] == prev[k]);
                    }
                }
                assert forall|k: int| 0 <= k < y1 - y0 implies (#[trigger] leaves@[k])@.len()
                    == w by {
                    if k != j {
                        assert(leaves@[k] == prev[k]);
                    }
                }
            }
            x += 1;
        }
        j += 1;
    }
    let _ = refine_sub8_band(map, y0, y1, offers);
    proof {
        map.lemma_shape();
        let want = refined_layout(v, offers@, y0 as int);
        assert forall|b: int| 0 <= b < map@.len() implies #[trigger] map@[b] == want[b] by {
            assert forall|a: int| 0 <= a < map@[b].len() implies map@[b][a] == want[b][a] by {
                assert(map.inside(a, b));
            }
            assert(map@[b] =~= want[b]);
        }
        assert(map@ =~= want);
    }
}

} // verus!
