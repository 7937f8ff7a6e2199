//! Filling the strategy map and the quantizer field of a group, stage by stage.
//!
//! What the cost model says is handed in where a stage needs it; everything that is
//! decided on it, and what one stage leaves to the next, is held here.

use crate::amount::Amount;
use crate::bands::band_sites;
use crate::cost_map::{grid_shape, CostMap, Costs};
use crate::fill::{
    after_stage, after_sub8, collect_leaf_gains, collect_rollbacks, all_rollbacks, fine_gains,
    first_planned, first_stage, gains_of_bands, gains_view, leaf_gains, list_sub8_targets,
    plan_stages, planned, stage_rank, stages_at, sub8_targets, surviving_benefit, take_sub8, Stage,
    StagePlan, Sub8State,
};
use crate::fill_laws::{
    law_sub8_choices_keep_tiling, lemma_leaf_first_lists, lemma_selected_windows,
    lemma_selection_lists, single_at,
};
use crate::filling_laws::{
    all_aligned, law_downgrades_begin_apart, law_leaf_first_shortlists_aligned_merges,
    law_restored_blocks_are_single, law_selection_shortlists_aligned_merges,
};
use crate::leaf_first::{
    after_leaf_first, leaves_layout, leaves_shape, refine_leaves, refined_gain, refined_layout,
    select_band_leaf_first, single_block_leaves, LeafChoice,
};
use crate::leaf_first_laws::law_leaf_first_keeps_tiling;
use crate::mosaic::RerankParams;
use crate::pass64::{
    after64, assemble_chosen32, merge_64, region_costs, regions_along, regions_inside, sites64,
    with_bands, with_regions, Costs64,
};
use crate::pass64_laws::{in_quarters, law_merge_64_keeps_tiling};
use crate::quant_field::{adjust_quant_field, adjusted, field_shape, QuantField};
use crate::quant_refine::{
    after_refinements, find_quant_refinements, refine_quant_field, refined_sites, refinement_steps,
    refinements_of, QuantRefinement, RefineScores,
};
use crate::rerank::SiteScores;
use crate::rerank_band::{
    after_bands, after_downgrades, after_rerank, band_scores_complete, costs_of_bands,
    find_rerank_downgrades, merges_of, output_fits, rerank_large_transforms, site_region,
    FineMergeRollback, RerankOutput,
};
use crate::rerank_laws::{
    costs_proper, law_downgrades_keep_tiling, law_rerank_output_fits, law_rerank_replaces_merges,
    replaces_merge,
};
use crate::scope::{SelectorPolicy, Speed};
use crate::selection::{
    after_sites, refine_sub8_band, rows_gain, select_band, single_block_offers, BandOutput,
    BandState, Offer, SelectionParams, SiteCosts,
};
use crate::selection_laws::law_selection_keeps_tiling;
use crate::strategy::{covered_x, covered_y, STRATEGY_DCT};
use crate::strategy_map::{firsts, AcStrategyImage, Cell, Layout, Placement};
use crate::super_block::{saved_views, MergeTuning};
use crate::tiling::{
    in_bounds, law_one_block_strategies_are_single, law_single_blocks_tile, single_blocks, tiled,
};
use crate::upgrade::{
    accepted, after_upgrades, costs_after_upgrades, find_merge_upgrades, keys_of,
    rerank_upgrade_merges, shortlistable, upgradables, upgrade_site, upgrades_of, MergeUpgrade,
    UpgradeScores,
};
use crate::upgrade_laws::{
    aligned_site, law_chosen_upgrades_stand_apart, law_upgrades_keep_tiling, site_closed,
    upgrades_apart,
};
use vstd::prelude::*;

verus! {

/// A group whose map and field are being filled.
pub struct Filling<A> {
    pub plan: StagePlan,
    /// What is done next.
    pub stage: Stage,
    pub distance: A,
    pub map: AcStrategyImage,
    pub field: QuantField,
    /// What selection produced, once it ran.
    pub selected: Vec<BandOutput<A>>,
    /// The gain kept for every block, where selection starts from the leaves.
    pub gains: Vec<Vec<A>>,
    pub benefit: A,
    /// What reranking produced, once it ran.
    pub reranked: Vec<RerankOutput<A>>,
    /// The costs at the current quantizers that are known.
    pub costs: CostMap<A>,
}

/// The windows that 64-pixel transforms may take are made of closed quarters.
pub open spec fn windows_in_quarters<A: Amount>(v: Layout, w: int, h: int, grid: Costs<A>) -> bool {
    forall|i: int|
        0 <= i < sites64(grid, w, h / 8).len() ==> in_quarters(
            v,
            w,
            h,
            (#[trigger] sites64(grid, w, h / 8)[i]).0 as int,
            sites64(grid, w, h / 8)[i].1 as int,
        )
}

/// The listed blocks are single blocks of the layout.
pub open spec fn targets_single(v: Layout, w: int, h: int, targets: Seq<(usize, usize)>) -> bool {
    forall|i: int|
        0 <= i < targets.len() ==> in_bounds(
            w,
            h,
            (#[trigger] targets[i]).0 as int,
            targets[i].1 as int,
        ) && single_at(v, targets[i].0 as int, targets[i].1 as int)
}

impl<A: Amount> Filling<A> {
    pub open spec fn w(&self) -> int {
        self.map.width() as int
    }

    pub open spec fn h(&self) -> int {
        self.map.height() as int
    }

    /// The layout, which tiles the group at every stage.
    pub open spec fn layout(&self) -> Layout {
        self.map@
    }

    /// The state that selection starts from.
    pub open spec fn start(&self) -> BandState<A> {
        BandState {
            layout: self.map@,
            chosen32: Seq::empty(),
            saved: Seq::empty(),
            upgrades: Seq::empty(),
        }
    }

    /// Everything that the stages rely on: the map tiles the group, the field and
    /// the known costs have its size, and what the next stage needs is there.
    pub open spec fn wf(&self) -> bool {
        &&& self.map.wf()
        &&& self.w() + 4 <= usize::MAX
        &&& self.h() + 4 <= usize::MAX
        &&& tiled(self.map@, self.w(), self.h())
        &&& field_shape(self.field@, self.w(), self.h())
        &&& grid_shape(self.costs@, self.w(), self.h())
        &&& planned(self.plan, self.stage)
        &&& self.plan.sub8 ==> self.plan.rerank
        &&& self.plan.upgrade ==> self.plan.rerank
        &&& self.plan.rerank || self.plan.merge64 ==> self.plan.search
        &&& self.plan.refine ==> refinement_steps(self.distance) != 0
        &&& self.stage == Stage::Select ==> single_blocks(
            self.map@,
            self.w(),
            self.h(),
            0,
            0,
            self.w(),
            self.h(),
        )
        &&& stage_rank(self.stage) >= 1 && self.plan.search ==> self.after_selection()
        &&& self.stage == Stage::Merge64 ==> windows_in_quarters(
            self.map@,
            self.w(),
            self.h(),
            region_costs(self.w(), self.h(), self.selected@),
        )
        &&& stage_rank(self.stage) >= 3 && self.plan.rerank ==> self.after_reranking()
        &&& self.stage == Stage::Sub8 ==> targets_single(
            self.map@,
            self.w(),
            self.h(),
            sub8_targets(self.reranked@, 1),
        )
        &&& stage_rank(self.stage) < 3 || !self.plan.rerank ==> self.reranked@.len() == 0
    }

    /// What selection left behind.
    pub open spec fn after_selection(&self) -> bool {
        &&& self.selected@.len() == 1
        &&& regions_inside(self.selected@[0].chosen32@, self.w(), self.h())
        &&& all_aligned(self.selected@[0].upgrade_candidates@)
        &&& self.plan.leaf_first ==> self.gains@.len() == self.h() && forall|y: int|
            0 <= y < self.gains@.len() ==> (#[trigger] self.gains@[y])@.len() == self.w()
    }

    /// What reranking left behind.
    pub open spec fn after_reranking(&self) -> bool {
        &&& self.reranked@.len() == 1
        &&& output_fits(self.reranked@[0]@, self.w(), self.h())
    }

    /// The stage moved on, and the size and the plan are what they were.
    pub open spec fn moved_on(&self, was: &Self) -> bool {
        &&& first_planned(self.plan, stage_rank(was.stage) + 1, self.stage)
        &&& self.plan == was.plan
        &&& self.distance == was.distance
        &&& self.w() == was.w()
        &&& self.h() == was.h()
    }

    /// Begins with a map of 8x8 DCTs. Merges compete again from distance
    /// `upgrade_min` on.
    pub fn new(
        xsize: usize,
        ysize: usize,
        field: QuantField,
        speed: Speed,
        policy: SelectorPolicy,
        distance: A,
        upgrade_min: A,
    ) -> (r: Self)
        requires
            xsize <= usize::MAX - 4,
            ysize <= usize::MAX - 4,
            field_shape(field@, xsize as int, ysize as int),
        ensures
            r.wf(),
            r.plan == stages_at(speed, policy, distance, upgrade_min),
            first_planned(r.plan, 0, r.stage),
            r.distance == distance,
            r.w() == xsize,
            r.h() == ysize,
            r.field == field,
            r.benefit == A::zero_spec(),
            forall|x: int, y: int|
                in_bounds(r.w(), r.h(), x, y) ==> #[trigger] r.map@[y][x] == (Cell {
                    strategy: STRATEGY_DCT,
                    first: true,
                }),
    {
        let plan: StagePlan = plan_stages(speed, policy, distance, upgrade_min);
        let map: AcStrategyImage = AcStrategyImage::new(xsize, ysize);
        proof {
            let w = xsize as int;
            let h = ysize as int;
            map.lemma_shape();
            assert forall|x: int, y: int| in_bounds(w, h, x, y) implies #[trigger] map@[y][x] == (
            Cell { strategy: STRATEGY_DCT, first: true }) by {
                assert(map.inside(x, y));
            }
            law_single_blocks_tile(map@, w, h);
            assert forall|x: int, y: int| crate::strategy_map::in_window(0, 0, w, h, x, y) implies (
            #[trigger] map@[y][x]).first && covered_x(map@[y][x].strategy) == 1 && covered_y(
                map@[y][x].strategy,
            ) == 1 by {
                assert(in_bounds(w, h, x, y));
            }
            law_one_block_strategies_are_single(map@, w, h, 0, 0, w, h);
        }
        let stage: Stage = first_stage(&plan);
        assert(planned(plan, stage));
        assert(planned(plan, Stage::Select) == plan.search);
        Filling {
            plan,
            stage,
            distance,
            map,
            field,
            selected: Vec::new(),
            gains: Vec::new(),
            benefit: A::zero(),
            reranked: Vec::new(),
            costs: CostMap::new(xsize, ysize),
        }
    }

    /// Selects the strategies of the group from 8x8 DCTs up; blocks that are left
    /// as 8x8 DCTs take their offers, whose gains are the benefit.
    pub fn select(
        &mut self,
        p: &SelectionParams<A>,
        costs: &Vec<SiteCosts<A>>,
        offers: &Vec<Vec<Offer<A>>>,
    )
        requires
            old(self).wf(),
            old(self).stage == Stage::Select,
            !old(self).plan.leaf_first,
            costs@.len() == band_sites(old(self).w(), old(self).h(), 0, old(self).h()).len(),
            offers@.len() == old(self).h(),
            forall|j: int| 0 <= j < offers@.len() ==> (#[trigger] offers@[j])@.len() == old(self).w(),
            single_block_offers(offers@),
        ensures
            final(self).wf(),
            final(self).moved_on(old(self)),
            final(self).field == old(self).field,
            ({
                let done = after_sites(
                    old(self).w(),
                    old(self).h(),
                    *p,
                    band_sites(old(self).w(), old(self).h(), 0, old(self).h()),
                    costs@,
                    old(self).start(),
                    costs@.len() as int,
                );
                let out = final(self).selected@[0];
                &&& final(self).map@ == refined_layout(done.layout, offers@, 0)
                &&& out.chosen32@ == done.chosen32
                &&& saved_views(out.saved_children@) == done.saved
                &&& out.upgrade_candidates@ == done.upgrades
                &&& final(self).benefit == rows_gain(
                    done.layout,
                    offers@,
                    old(self).w(),
                    0,
                    old(self).h(),
                )
            }),
    {
        let ghost w = self.w();
        let ghost h = self.h();
        let ghost sites = band_sites(w, h, 0, h);
        let ghost start = self.start();
        let ysize: usize = self.map.ysize();
        let mut out: BandOutput<A> = BandOutput::new();
        proof {
            assert(saved_views(out.saved_children@) =~= start.saved);
            assert(out.chosen32@ =~= start.chosen32);
            assert(out.upgrade_candidates@ =~= start.upgrades);
            assert(out.with(self.map) == start);
        }
        select_band(&mut self.map, (0, ysize), p, costs.as_slice(), &mut out);
        let ghost done = after_sites(w, h, *p, sites, costs@, start, costs@.len() as int);
        proof {
            assert(out.with(self.map) == done);
            law_selection_keeps_tiling(w, h, 0, h, *p, costs@, start);
            lemma_selection_lists(w, h, *p, sites, costs@, start, sites.len() as int);
            lemma_selected_windows(w, h, sites, done, offers@);
            law_selection_shortlists_aligned_merges(w, h, *p, costs@, start);
            self.map.lemma_shape();
        }
        let gain: A = refine_sub8_band(&mut self.map, 0, ysize, offers);
        proof {
            self.map.lemma_shape();
            let u = refined_layout(done.layout, offers@, 0);
            assert forall|y: int| 0 <= y < h implies #[trigger] self.map@[y] == u[y] by {
                assert(done.layout[y].len() == w);
                assert forall|x: int| 0 <= x < w implies self.map@[y][x] == u[y][x] by {
                    assert(self.map.inside(x, y));
                }
                assert(self.map@[y] =~= u[y]);
            }
            assert(self.map@ =~= u);
        }
        self.benefit = gain;
        let mut selected: Vec<BandOutput<A>> = Vec::new();
        selected.push(out);
        self.selected = selected;
        proof {
            lemma_region_costs_of_one(w, h, self.selected@);
        }
        self.stage = after_stage(&self.plan, self.stage);
        assert(planned(self.plan, self.stage));
        assert(planned(self.plan, Stage::Rerank) == self.plan.rerank);
    }

    /// Selects the strategies of the group from its leaves up; blocks that are left
    /// as 8x8 DCTs take their offers. The gain of every block is kept until it is
    /// known which blocks survive.
    pub fn select_leaf_first(
        &mut self,
        p: &SelectionParams<A>,
        costs: &Vec<SiteCosts<A>>,
        leaves: Vec<Vec<LeafChoice<A>>>,
        offers: &Vec<Vec<Offer<A>>>,
    )
        requires
            old(self).wf(),
            old(self).stage == Stage::Select,
            old(self).plan.leaf_first,
            costs@.len() == band_sites(old(self).w(), old(self).h(), 0, old(self).h()).len(),
            leaves_shape(leaves@, old(self).w(), old(self).h()),
            single_block_leaves(leaves@),
            offers@.len() == old(self).h(),
            forall|j: int| 0 <= j < offers@.len() ==> (#[trigger] offers@[j])@.len() == old(self).w(),
            single_block_offers(offers@),
        ensures
            final(self).wf(),
            final(self).moved_on(old(self)),
            final(self).field == old(self).field,
            final(self).benefit == A::zero_spec(),
            ({
                let done = after_leaf_first(
                    old(self).w(),
                    old(self).h(),
                    *p,
                    0,
                    old(self).h(),
                    costs@,
                    leaves@,
                    old(self).start(),
                );
                let out = final(self).selected@[0];
                &&& final(self).map@ == refined_layout(done.layout, offers@, 0)
                &&& out.chosen32@ == done.chosen32
                &&& saved_views(out.saved_children@) == done.saved
                &&& out.upgrade_candidates@ == done.upgrades
                &&& forall|x: int, y: int|
                    in_bounds(old(self).w(), old(self).h(), x, y) ==> #[trigger] gains_view(
                        final(self).gains@,
                    )[y][x] == refined_gain(done.layout, offers@, leaves@, 0, x, y)
            }),
    {
        let ghost w = self.w();
        let ghost h = self.h();
        let ghost sites = band_sites(w, h, 0, h);
        let ghost start = self.start();
        let ysize: usize = self.map.ysize();
        let mut out: BandOutput<A> = BandOutput::new();
        proof {
            assert(saved_views(out.saved_children@) =~= start.saved);
            assert(out.chosen32@ =~= start.chosen32);
            assert(out.upgrade_candidates@ =~= start.upgrades);
            assert(out.with(self.map) == start);
        }
        select_band_leaf_first(
            &mut self.map,
            (0, ysize),
            p,
            costs.as_slice(),
            &leaves,
            &mut out,
        );
        let ghost done = after_leaf_first(w, h, *p, 0, h, costs@, leaves@, start);
        let ghost ready = BandState { layout: leaves_layout(start.layout, leaves@, 0), ..start };
        proof {
            assert(out.with(self.map) == done);
            law_leaf_first_keeps_tiling(w, h, *p, 0, h, costs@, leaves@, start);
            lemma_leaf_first_lists(
                w,
                h,
                *p,
                sites,
                costs@,
                leaves@,
                0,
                ready,
                sites.len() as int,
            );
            lemma_selected_windows(w, h, sites, done, offers@);
            law_leaf_first_shortlists_aligned_merges(w, h, *p, costs@, leaves@, ready);
        }
        let mut kept: Vec<Vec<LeafChoice<A>>> = leaves;
        refine_leaves(&mut self.map, 0, ysize, offers, &mut kept);
        let ghost refined = kept@;
        let mut all: Vec<Vec<Vec<LeafChoice<A>>>> = Vec::new();
        all.push(kept);
        let gains: Vec<Vec<A>> = collect_leaf_gains(&all);
        proof {
            reveal_with_fuel(gains_of_bands, 2);
            let g = leaf_gains(refined);
            assert(gains_view(gains@) =~= g);
            assert forall|y: int| 0 <= y < gains@.len() implies (#[trigger] gains@[y])@.len() == w by {
                assert(gains_view(gains@)[y] == g[y]);
                assert(refined[y]@.len() == w);
            }
            assert forall|x: int, y: int| in_bounds(w, h, x, y) implies #[trigger] gains_view(
                gains@,
            )[y][x] == refined_gain(done.layout, offers@, leaves@, 0, x, y) by {
                assert(refined[y]@.len() == w);
                assert(g[y][x] == refined[y]@[x].gain);
            }
        }
        self.gains = gains;
        self.benefit = A::zero();
        let mut selected: Vec<BandOutput<A>> = Vec::new();
        selected.push(out);
        self.selected = selected;
        proof {
            lemma_region_costs_of_one(w, h, self.selected@);
        }
        self.stage = after_stage(&self.plan, self.stage);
        assert(planned(self.plan, self.stage));
        assert(planned(self.plan, Stage::Rerank) == self.plan.rerank);
    }

    /// Lets the 64-pixel transforms take the windows that they win. `scores` holds
    /// their costs, in the order of the windows whose four regions are known.
    pub fn merge64(&mut self, t: &MergeTuning<A>, scores: &Vec<Costs64<A>>)
        requires
            old(self).wf(),
            old(self).stage == Stage::Merge64,
            scores@.len() == sites64(
                region_costs(old(self).w(), old(self).h(), old(self).selected@),
                old(self).w(),
                old(self).h() / 8,
            ).len(),
        ensures
            final(self).wf(),
            final(self).moved_on(old(self)),
            final(self).field == old(self).field,
            final(self).selected == old(self).selected,
            final(self).gains == old(self).gains,
            final(self).benefit == old(self).benefit,
            ({
                let grid = region_costs(old(self).w(), old(self).h(), old(self).selected@);
                final(self).map@ == after64(
                    old(self).map@,
                    sites64(grid, old(self).w(), old(self).h() / 8),
                    grid,
                    *t,
                    scores@,
                    scores@.len() as int,
                )
            }),
    {
        let ghost w = self.w();
        let ghost h = self.h();
        proof {
            assert(planned(self.plan, self.stage));
        }
        let grid: CostMap<A> = assemble_chosen32(self.map.xsize(), self.map.ysize(), &self.selected);
        proof {
            law_merge_64_keeps_tiling(self.map@, w, h, grid@, *t, scores@);
        }
        merge_64(&mut self.map, &grid, t, scores);
        self.stage = after_stage(&self.plan, self.stage);
        assert(planned(self.plan, self.stage));
        assert(planned(self.plan, Stage::Rerank) == self.plan.rerank);
    }

    /// Judges the merges by reconstruction and undoes those that lose. `scores`
    /// holds what reconstruction says of each, from the top row down.
    pub fn rerank(&mut self, p: &RerankParams<A>, scores: &Vec<SiteScores<A>>)
        requires
            old(self).wf(),
            old(self).stage == Stage::Rerank,
            band_scores_complete(
                old(self).map,
                *p,
                old(self).selected@[0].saved_children@,
                merges_of(old(self).map@, 0, old(self).h()),
                scores@,
            ),
            forall|i: int|
                0 <= i < scores@.len() ==> costs_proper(
                    site_region(
                        old(self).map,
                        *p,
                        old(self).selected@[0].saved_children@,
                        #[trigger] merges_of(old(self).map@, 0, old(self).h())[i],
                    ),
                    scores@[i],
                ),
        ensures
            final(self).wf(),
            final(self).moved_on(old(self)),
            final(self).field == old(self).field,
            final(self).selected == old(self).selected,
            final(self).gains == old(self).gains,
            final(self).benefit == old(self).benefit,
            ({
                let out = after_rerank(
                    old(self).map,
                    *p,
                    old(self).selected@[0].saved_children@,
                    merges_of(old(self).map@, 0, old(self).h()),
                    scores@,
                    scores@.len() as int,
                );
                &&& final(self).reranked@[0]@ == out
                &&& final(self).map@ == after_downgrades(
                    old(self).map@,
                    out.downgrades,
                    out.downgrades.len() as int,
                )
                &&& final(self).costs@ == costs_of_bands(
                    crate::cost_map::unknown(old(self).w(), old(self).h()),
                    final(self).reranked@,
                    1,
                )
            }),
    {
        let ghost w = self.w();
        let ghost h = self.h();
        let ghost v = self.map@;
        let ghost before = self.map;
        proof {
            assert(planned(self.plan, self.stage));
        }
        let ysize: usize = self.map.ysize();
        let ghost saved = self.selected@[0].saved_children@;
        let out: RerankOutput<A> = find_rerank_downgrades(
            &self.map,
            (0, ysize),
            p,
            &self.selected[0].saved_children,
            scores,
        );
        proof {
            law_rerank_output_fits(before, *p, saved, 0, h, scores@, scores@.len() as int);
            law_rerank_replaces_merges(before, *p, saved, 0, h, scores@, scores@.len() as int);
            law_downgrades_begin_apart(before, *p, saved, 0, h, scores@);
        }
        let ghost state = out@;
        let mut outs: Vec<RerankOutput<A>> = Vec::new();
        outs.push(out);
        proof {
            assert(outs@[0]@ == state);
            assert forall|i: int, k: int|
                0 <= i < outs@.len() && 0 <= k < outs@[i]@.downgrades.len() implies replaces_merge(
                v,
                w,
                h,
                #[trigger] outs@[i]@.downgrades[k],
            ) by {
                assert(replaces_merge(v, w, h, state.downgrades[k]));
            }
            law_downgrades_keep_tiling(v, w, h, outs@);
            reveal_with_fuel(after_bands, 2);
            reveal_with_fuel(sub8_targets, 2);
            let n = state.downgrades.len() as int;
            let targets = sub8_targets(outs@, 1);
            assert(targets =~= crate::fill::plain_blocks_of(state, n));
            assert forall|i: int| 0 <= i < targets.len() implies in_bounds(
                w,
                h,
                (#[trigger] targets[i]).0 as int,
                targets[i].1 as int,
            ) && single_at(
                after_downgrades(v, state.downgrades, n),
                targets[i].0 as int,
                targets[i].1 as int,
            ) by {
                law_restored_blocks_are_single(v, w, h, state, n, i);
            }
        }
        let costs: CostMap<A> = rerank_large_transforms(&mut self.map, &outs);
        self.costs = costs;
        self.reranked = outs;
        self.stage = after_stage(&self.plan, self.stage);
        assert(planned(self.plan, self.stage));
        assert(planned(self.plan, Stage::Rerank) == self.plan.rerank);
    }

    /// Lets the blocks of undone merges take the transforms below 8x8 that they
    /// chose, in the order that they are listed in.
    pub fn sub8(&mut self, picks: &Vec<Option<(u8, A)>>)
        requires
            old(self).wf(),
            old(self).stage == Stage::Sub8,
            picks@.len() == sub8_targets(old(self).reranked@, 1).len(),
            forall|i: int|
                0 <= i < picks@.len() && (#[trigger] picks@[i]) is Some ==> covered_x(
                    (picks@[i]->0).0,
                ) == 1 && covered_y((picks@[i]->0).0) == 1,
        ensures
            final(self).wf(),
            final(self).moved_on(old(self)),
            final(self).field == old(self).field,
            final(self).selected == old(self).selected,
            final(self).reranked == old(self).reranked,
            ({
                let after = after_sub8(
                    Sub8State {
                        layout: old(self).map@,
                        costs: old(self).costs@,
                        gains: gains_view(old(self).gains@),
                        benefit: old(self).benefit,
                    },
                    sub8_targets(old(self).reranked@, 1),
                    picks@,
                    old(self).plan.leaf_first,
                    picks@.len() as int,
                );
                &&& final(self).map@ == after.layout
                &&& final(self).costs@ == after.costs
                &&& gains_view(final(self).gains@) == after.gains
                &&& final(self).benefit == after.benefit
            }),
    {
        let ghost w = self.w();
        let ghost h = self.h();
        proof {
            assert(planned(self.plan, self.stage));
        }
        let targets: Vec<(usize, usize)> = list_sub8_targets(
            &self.reranked,
            self.map.xsize(),
            self.map.ysize(),
        );
        let ghost was = Sub8State {
            layout: self.map@,
            costs: self.costs@,
            gains: gains_view(self.gains@),
            benefit: self.benefit,
        };
        proof {
            law_sub8_choices_keep_tiling(
                was,
                w,
                h,
                targets@,
                picks@,
                self.plan.leaf_first,
                targets@.len() as int,
            );
            assert forall|i: int| 0 <= i < targets@.len() && picks@[i] is Some implies self.map.fits(
                (#[trigger] targets@[i]).0 as int,
                targets@[i].1 as int,
                (picks@[i]->0).0,
            ) by {
                assert(in_bounds(w, h, targets@[i].0 as int, targets@[i].1 as int));
                assert(covered_x((picks@[i]->0).0) == 1);
            }
        }
        self.benefit = take_sub8(
            &mut self.map,
            &mut self.costs,
            &mut self.gains,
            self.plan.leaf_first,
            self.benefit,
            &targets,
            picks,
        );
        proof {
            if self.plan.leaf_first {
                lemma_gains_shaped(
                    was,
                    targets@,
                    picks@,
                    w,
                    h,
                    targets@.len() as int,
                );
                assert forall|y: int| 0 <= y < self.gains@.len() implies (
                #[trigger] self.gains@[y])@.len() == w by {
                    assert(gains_view(self.gains@)[y].len() == w);
                }
            }
        }
        self.stage = after_stage(&self.plan, self.stage);
        assert(planned(self.plan, self.stage));
        assert(planned(self.plan, Stage::Rerank) == self.plan.rerank);
    }

    /// Lets shortlisted merges compete again with what is left on their blocks.
    /// `scores` holds what reconstruction says of those that may be put down.
    pub fn upgrade(&mut self, scores: &Vec<UpgradeScores<A>>, margin: A)
        requires
            old(self).wf(),
            old(self).stage == Stage::Upgrade,
            scores@.len() == old(self).upgrade_sites().len(),
        ensures
            final(self).wf(),
            final(self).moved_on(old(self)),
            final(self).field == old(self).field,
            final(self).selected == old(self).selected,
            final(self).reranked == old(self).reranked,
            final(self).gains == old(self).gains,
            final(self).benefit == old(self).benefit,
            ({
                let acc = accepted(
                    old(self).upgrade_sites(),
                    scores@,
                    margin,
                    scores@.len() as int,
                );
                let ups = upgrades_of(acc, keys_of(acc, acc.len() as int).len() as int);
                &&& final(self).map@ == after_upgrades(old(self).map@, ups, ups.len() as int)
                &&& final(self).costs@ == costs_after_upgrades(
                    old(self).costs@,
                    ups,
                    ups.len() as int,
                )
            }),
    {
        let ghost w = self.w();
        let ghost h = self.h();
        let ghost shortlist = self.selected@[0].upgrade_candidates@;
        let ghost rollbacks = self.reranked@[0].rollbacks@;
        proof {
            assert(planned(self.plan, self.stage));
            assert forall|i: int| 0 <= i < shortlist.len() implies shortlistable(
                #[trigger] shortlist[i],
            ) by {
                assert(aligned_site(shortlist[i]));
            }
            law_chosen_upgrades_stand_apart(
                self.map@,
                w,
                h,
                rollbacks,
                0,
                h,
                shortlist,
                scores@,
                margin,
            );
        }
        let ysize: usize = self.map.ysize();
        let ups: Vec<MergeUpgrade<A>> = find_merge_upgrades(
            &self.map,
            (0, ysize),
            &self.reranked[0].rollbacks,
            &self.selected[0].upgrade_candidates,
            scores,
            margin,
        );
        proof {
            assert forall|i: int| 0 <= i < ups@.len() implies self.map.fits(
                (#[trigger] ups@[i]).bx as int,
                ups@[i].by as int,
                ups@[i].strategy,
            ) by {
                assert(site_closed(self.map@, w, h, upgrade_site(ups@[i])));
            }
            assert(upgrades_apart(ups@));
            law_upgrades_keep_tiling(self.map@, w, h, ups@, ups@.len() as int);
        }
        rerank_upgrade_merges(&mut self.map, &mut self.costs, &ups);
        self.stage = after_stage(&self.plan, self.stage);
        assert(planned(self.plan, self.stage));
    }

    /// The shortlisted merges that may be put down.
    pub open spec fn upgrade_sites(&self) -> Seq<Placement> {
        upgradables(
            self.map@,
            self.w(),
            self.h(),
            self.reranked@[0].rollbacks@,
            0,
            self.h(),
            self.selected@[0].upgrade_candidates@,
            self.selected@[0].upgrade_candidates@.len() as int,
        )
    }

    /// Sums the benefit up and gives every transform one quantizer. From leaves up
    /// the benefit is that of the fine transforms which survived.
    pub fn settle(&mut self)
        requires
            old(self).wf(),
            old(self).stage == Stage::Settle,
        ensures
            final(self).wf(),
            final(self).moved_on(old(self)),
            final(self).map == old(self).map,
            final(self).selected == old(self).selected,
            final(self).reranked == old(self).reranked,
            final(self).costs == old(self).costs,
            final(self).gains == old(self).gains,
            ({
                let blocks = firsts(old(self).map@, old(self).h());
                &&& final(self).field@ == adjusted(
                    old(self).field@,
                    blocks,
                    old(self).distance,
                    blocks.len() as int,
                )
                &&& final(self).benefit == if old(self).plan.leaf_first {
                    fine_gains(
                        blocks,
                        gains_view(old(self).gains@),
                        all_rollbacks(old(self).reranked@, old(self).reranked@.len() as int),
                        blocks.len() as int,
                    )
                } else {
                    old(self).benefit
                }
            }),
    {
        proof {
            assert(planned(self.plan, self.stage));
        }
        if self.plan.leaf_first {
            let rollbacks: Vec<FineMergeRollback<A>> = collect_rollbacks(&self.reranked);
            self.benefit = surviving_benefit(&self.map, &self.gains, &rollbacks);
        }
        adjust_quant_field(&self.map, self.distance, &mut self.field);
        self.stage = after_stage(&self.plan, self.stage);
        assert(planned(self.plan, self.stage));
    }

    /// Moves quantizers a step where that is cheaper. `scores` holds what
    /// reconstruction says of the blocks that may move, from the top row down.
    pub fn refine(&mut self, scores: &Vec<RefineScores<A>>)
        requires
            old(self).wf(),
            old(self).stage == Stage::Refine,
            scores@.len() == refined_sites(
                old(self).map@,
                old(self).field@,
                0,
                old(self).h(),
            ).len(),
        ensures
            final(self).wf(),
            final(self).moved_on(old(self)),
            final(self).map == old(self).map,
            final(self).reranked == old(self).reranked,
            final(self).benefit == old(self).benefit,
            ({
                let known = if old(self).plan.rerank {
                    Some(old(self).costs@)
                } else {
                    None
                };
                let rs = refinements_of(
                    old(self).field@,
                    refinement_steps(old(self).distance),
                    known,
                    refined_sites(old(self).map@, old(self).field@, 0, old(self).h()),
                    scores@,
                    scores@.len() as int,
                );
                final(self).field@ == after_refinements(old(self).field@, rs, rs.len() as int)
            }),
    {
        proof {
            assert(planned(self.plan, self.stage));
        }
        let ysize: usize = self.map.ysize();
        let known: Option<&CostMap<A>> = if self.plan.rerank {
            Some(&self.costs)
        } else {
            None
        };
        let rs: Vec<QuantRefinement> = find_quant_refinements(
            &self.map,
            &self.field,
            self.distance,
            known,
            (0, ysize),
            scores,
        );
        refine_quant_field(&mut self.field, &rs, self.map.xsize(), ysize);
        self.stage = after_stage(&self.plan, self.stage);
        assert(planned(self.plan, self.stage));
    }

    /// The mosaics of the map, each with the merge that it can go back to.
    pub fn rollbacks(&self) -> (r: Vec<FineMergeRollback<A>>)
        ensures
            r@ == all_rollbacks(self.reranked@, self.reranked@.len() as int),
    {
        collect_rollbacks(&self.reranked)
    }
}

/// The grid of region costs of one band is that of its list.
proof fn lemma_region_costs_of_one<A>(w: int, h: int, outs: Seq<BandOutput<A>>)
    requires
        outs.len() == 1,
    ensures
        region_costs(w, h, outs) == with_regions(
            crate::cost_map::unknown::<A>(regions_along(w), regions_along(h)),
            outs[0].chosen32@,
            outs[0].chosen32@.len() as int,
        ),
{
    reveal_with_fuel(with_bands, 2);
}

proof fn lemma_gains_shaped<A: Amount>(
    s: Sub8State<A>,
    targets: Seq<(usize, usize)>,
    picks: Seq<Option<(u8, A)>>,
    w: int,
    h: int,
    n: int,
)
    requires
        s.gains.len() == h,
        forall|y: int| 0 <= y < h ==> (#[trigger] s.gains[y]).len() == w,
        0 <= n <= targets.len(),
        forall|i: int|
            0 <= i < targets.len() ==> in_bounds(
                w,
                h,
                (#[trigger] targets[i]).0 as int,
                targets[i].1 as int,
            ),
    ensures
        after_sub8(s, targets, picks, true, n).gains.len() == h,
        forall|y: int|
            0 <= y < h ==> (#[trigger] after_sub8(s, targets, picks, true, n).gains[y]).len() == w,
    decreases n,
{
    if n > 0 {
        lemma_gains_shaped(s, targets, picks, w, h, n - 1);
        assert(in_bounds(w, h, targets[n - 1].0 as int, targets[n - 1].1 as int));
    }
}

} // verus!
