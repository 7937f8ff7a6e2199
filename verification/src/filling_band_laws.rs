//! Filling a group in bands fills it as one band does.

use crate::amount::Amount;
use crate::band_laws::{
    handed, law_refining_does_not_depend_on_the_bands, put_down, put_out, refined_by_bands,
};
use crate::bands::{band_sites, contiguous, lemma_bands_within};
use crate::cost_map::{unknown, Costs};
use crate::fill::{
    after_sub8, all_rollbacks, gains_of_bands, gathered, leaf_gains, plain_blocks_of, sub8_targets,
    Gains, StagePlan, Sub8State,
};
use crate::filling_laws::all_aligned;
use crate::leaf_first::{
    after_leaf_first, leaves_shape, refined_gain, refined_layout, LeafChoice,
};
use crate::leaf_first_laws::law_leaf_first_keeps_tiling;
use crate::mosaic::RerankParams;
use crate::pass64::{
    after64, choice64, placements64, quads_at, region_costs, regions_along, sites64, with_regions,
    Costs64,
};
use crate::quant_field::Field;
use crate::quant_refine::{
    after_refinements, refined_sites, refinement_steps, refinements_of, RefineScores,
};
use crate::rerank::SiteScores;
use crate::rerank_band::{
    after_bands, after_downgrades, after_notes, after_rerank, costs_of_bands, lemma_merges_of,
    merges_of, FineMergeRollback, RerankOutput, RollbackView,
};
use crate::row_laws::{
    ends_in_rows, law_leaf_first_stays_in_its_rows, law_selection_stays_in_its_rows, lists_between,
};
use crate::selection::{
    after_sites, single_block_offers, takes_offer, BandOutput, BandState, Offer, SelectionParams,
    SiteCosts,
};
use crate::selection_band_laws::{
    bands_provided, law_leaf_first_does_not_depend_on_the_bands,
    law_selecting_does_not_depend_on_the_bands, leaf_outputs,
};
use crate::selection_laws::{
    after_band, law_selection_keeps_tiling, lemma_bands_ordered, own_outputs,
};
use crate::stage_band_laws::{
    all_regions, law_regions_are_noted_as_one, law_reranking_by_own_saved_layouts,
    law_sub8_blocks_are_listed_as_one, law_upgrading_by_own_shortlists, lemma_rerank_stands_in_rows,
    listed_in_rows, outputs_in_rows, reranked_by_bands, saved_in_rows, stands_in_rows,
    upgraded_by_bands,
};
use crate::strategy::{covered_y, is_dct64_family};
use crate::strategy_map::{rows_replaced, AcStrategyImage, Layout, Placement};
use crate::super_block::{saved_views, MergeTuning, SavedChild};
use crate::tiling::{in_bounds, place_all, shaped, single_blocks, tiled};
use crate::upgrade::{
    after_upgrades, costs_after_upgrades, upgradables, MergeUpgrade, UpgradeScores,
};
use crate::upgrade_laws::aligned_site;
use vstd::prelude::*;

verus! {

/// Selection in bands: what every band was handed and what it produced.
pub struct BandSelection<A> {
    pub leaf_first: bool,
    pub bands: Seq<(usize, usize)>,
    /// The map that every band began with.
    pub start: AcStrategyImage,
    pub params: SelectionParams<A>,
    pub costs: Seq<Seq<SiteCosts<A>>>,
    pub leaves: Seq<Seq<Vec<LeafChoice<A>>>>,
    pub offers: Seq<Seq<Vec<Offer<A>>>>,
    pub outs: Seq<BandOutput<A>>,
    /// The map of every band, after its blocks took their offers.
    pub images: Seq<AcStrategyImage>,
    /// The leaves of every band, with the gains of the offers that were taken.
    pub kept: Seq<Vec<Vec<LeafChoice<A>>>>,
}

impl<A: Amount> BandSelection<A> {
    pub open spec fn w(self) -> int {
        self.start.width() as int
    }

    pub open spec fn h(self) -> int {
        self.start.height() as int
    }

    pub open spec fn count(self) -> int {
        self.bands.len() as int
    }

    /// The state that selection starts from.
    pub open spec fn begun(self) -> BandState<A> {
        BandState {
            layout: self.start@,
            chosen32: Seq::empty(),
            saved: Seq::empty(),
            upgrades: Seq::empty(),
        }
    }

    /// What band `i` selects on its own.
    pub open spec fn own(self, i: int) -> BandState<A> {
        if self.leaf_first {
            after_leaf_first(
                self.w(),
                self.h(),
                self.params,
                self.bands[i].0 as int,
                self.bands[i].1 as int,
                self.costs[i],
                self.leaves[i],
                self.begun(),
            )
        } else {
            after_band(
                self.w(),
                self.h(),
                self.params,
                self.bands[i],
                self.costs[i],
                self.begun(),
            )
        }
    }

    /// What one band over all the rows selects.
    pub open spec fn whole(self) -> BandState<A> {
        let costs = handed(self.costs, self.count());
        if self.leaf_first {
            after_leaf_first(
                self.w(),
                self.h(),
                self.params,
                0,
                self.h(),
                costs,
                handed(self.leaves, self.count()),
                self.begun(),
            )
        } else {
            after_sites(
                self.w(),
                self.h(),
                self.params,
                band_sites(self.w(), self.h(), 0, self.h()),
                costs,
                self.begun(),
                costs.len() as int,
            )
        }
    }

    /// The bands cut up a map of single blocks, and every one has costs, leaves and
    /// offers for its rows.
    pub open spec fn valid(self) -> bool {
        &&& self.start.wf()
        &&& self.w() + 4 <= usize::MAX
        &&& self.h() + 4 <= usize::MAX
        &&& tiled(self.start@, self.w(), self.h())
        &&& single_blocks(self.start@, self.w(), self.h(), 0, 0, self.w(), self.h())
        &&& self.count() > 0
        &&& contiguous(self.bands, self.h())
        &&& forall|i: int|
            #![trigger self.bands[i]]
            0 <= i < self.count() ==> self.costs[i].len() == band_sites(
                self.w(),
                self.h(),
                self.bands[i].0 as int,
                self.bands[i].1 as int,
            ).len()
        &&& self.leaf_first ==> bands_provided(
            self.w(),
            self.h(),
            self.bands,
            self.costs,
            self.leaves,
        )
        &&& forall|i: int|
            #![trigger self.offers[i]]
            0 <= i < self.count() ==> {
                &&& self.offers[i].len() == self.bands[i].1 - self.bands[i].0
                &&& single_block_offers(self.offers[i])
                &&& forall|j: int|
                    0 <= j < self.offers[i].len() ==> (#[trigger] self.offers[i][j])@.len()
                        == self.w()
            }
    }

    /// Every band produced what it selects on its own.
    pub open spec fn ran(self) -> bool {
        &&& self.outs.len() == self.count()
        &&& self.images.len() == self.count()
        &&& forall|i: int|
            #![trigger self.outs[i]]
            0 <= i < self.count() ==> {
                &&& self.outs[i].chosen32@ == self.own(i).chosen32
                &&& saved_views(self.outs[i].saved_children@) == self.own(i).saved
                &&& self.outs[i].upgrade_candidates@ == self.own(i).upgrades
                &&& self.images[i]@ == refined_layout(
                    self.own(i).layout,
                    self.offers[i],
                    self.bands[i].0 as int,
                )
            }
    }

    /// The layouts that the bands saved.
    pub open spec fn saved(self) -> Seq<Seq<SavedChild>> {
        Seq::new(self.outs.len(), |i: int| self.outs[i].saved_children@)
    }

    /// The merges that the bands shortlisted.
    pub open spec fn shortlists(self) -> Seq<Seq<Placement>> {
        Seq::new(self.outs.len(), |i: int| self.outs[i].upgrade_candidates@)
    }

    /// What the leading `n` bands select, put together.
    pub open spec fn together(self, n: int) -> BandState<A>
        decreases n,
    {
        if n <= 0 {
            self.begun()
        } else {
            let head = self.together(n - 1);
            let own = self.own(n - 1);
            BandState {
                layout: rows_replaced(
                    head.layout,
                    own.layout,
                    self.bands[n - 1].0 as int,
                    self.bands[n - 1].1 as int,
                ),
                chosen32: head.chosen32 + own.chosen32,
                saved: head.saved + own.saved,
                upgrades: head.upgrades + own.upgrades,
            }
        }
    }
}

proof fn lemma_together<A: Amount>(r: BandSelection<A>, n: int)
    requires
        0 <= n <= r.count(),
    ensures
        r.leaf_first ==> r.together(n) == leaf_outputs(
            r.w(),
            r.h(),
            r.params,
            r.bands,
            r.costs,
            r.leaves,
            r.begun(),
            n,
        ),
        !r.leaf_first ==> r.together(n) == own_outputs(
            r.w(),
            r.h(),
            r.params,
            r.bands,
            r.costs,
            r.begun(),
            n,
        ),
    decreases n,
{
    if n > 0 {
        lemma_together(r, n - 1);
    }
}

proof fn lemma_whole_is_together<A: Amount>(r: BandSelection<A>)
    requires
        r.valid(),
    ensures
        r.whole() == r.together(r.count()),
{
    let n = r.count();
    lemma_together(r, n);
    assert(r.bands[n - 1].1 == r.h());
    r.start.lemma_shape();
    if r.leaf_first {
        law_leaf_first_does_not_depend_on_the_bands(
            r.w(),
            r.h(),
            r.params,
            r.bands,
            r.costs,
            r.leaves,
            r.begun(),
            n,
        );
    } else {
        lemma_bands_within(r.bands, r.h(), 0);
        assert(r.bands[0].0 < r.bands[0].1);
        law_selecting_does_not_depend_on_the_bands(
            r.w(),
            r.h(),
            r.params,
            r.bands,
            r.costs,
            r.begun(),
            n,
        );
    }
}

proof fn lemma_band_begins<A: Amount>(r: BandSelection<A>, i: int)
    requires
        r.valid(),
        0 <= i < r.count(),
    ensures
        r.bands[i].0 < r.bands[i].1 <= r.h(),
        r.bands[i].0 % 4 == 0,
        r.bands[i].1 % 4 == 0 || r.bands[i].1 == r.h(),
{
    lemma_bands_within(r.bands, r.h(), i);
    if i > 0 {
        assert(r.bands[i].0 == r.bands[i - 1].1);
    }
}

proof fn lemma_own_stays<A: Amount>(r: BandSelection<A>, i: int)
    requires
        r.valid(),
        0 <= i < r.count(),
    ensures
        lists_between(r.own(i), r.bands[i].0 as int, r.bands[i].1 as int),
        all_aligned(r.own(i).upgrades),
        ends_in_rows(r.own(i).layout, r.w(), r.bands[i].0 as int, r.bands[i].1 as int),
{
    lemma_band_begins(r, i);
    let y0 = r.bands[i].0 as int;
    let y1 = r.bands[i].1 as int;
    if r.leaf_first {
        law_leaf_first_stays_in_its_rows(
            r.w(),
            r.h(),
            r.params,
            y0,
            y1,
            r.costs[i],
            r.leaves[i],
            r.begun(),
        );
    } else {
        law_selection_stays_in_its_rows(
            r.w(),
            r.h(),
            r.params,
            y0,
            y1,
            r.costs[i],
            r.begun(),
        );
    }
}

proof fn lemma_lists_together<A: Amount>(r: BandSelection<A>, n: int)
    requires
        r.ran(),
        0 <= n <= r.count(),
    ensures
        all_regions(r.outs, n) == r.together(n).chosen32,
        saved_views(handed(r.saved(), n)) == r.together(n).saved,
        handed(r.shortlists(), n) == r.together(n).upgrades,
    decreases n,
{
    if n > 0 {
        lemma_lists_together(r, n - 1);
        assert(r.outs[n - 1].chosen32@ == r.own(n - 1).chosen32);
        let a = handed(r.saved(), n - 1);
        let b = r.saved()[n - 1];
        assert(saved_views(a + b) =~= saved_views(a) + saved_views(b));
    } else {
        assert(saved_views(handed(r.saved(), 0)) =~= r.together(0).saved);
        assert(handed(r.shortlists(), 0) =~= r.together(0).upgrades);
        assert(all_regions(r.outs, 0) =~= r.together(0).chosen32);
    }
}

proof fn lemma_offers_above<A: Amount>(r: BandSelection<A>, n: int)
    requires
        r.valid(),
        0 < n <= r.count(),
    ensures
        handed(r.offers, n).len() == r.bands[n - 1].1,
    decreases n,
{
    assert(r.offers[n - 1].len() == r.bands[n - 1].1 - r.bands[n - 1].0);
    if n > 1 {
        lemma_offers_above(r, n - 1);
        assert(r.bands[n - 1].0 == r.bands[n - 2].1);
    } else {
        reveal_with_fuel(handed, 2);
    }
}

proof fn lemma_gathered<A: Amount>(r: BandSelection<A>, n: int)
    requires
        r.valid(),
        r.ran(),
        0 <= n <= r.count(),
    ensures
        r.together(n).layout.len() == r.h(),
        gathered(r.start@, r.bands, r.images, n) == refined_layout(
            r.together(n).layout,
            handed(r.offers, n),
            0,
        ),
    decreases n,
{
    let v = r.together(n).layout;
    let offers = handed(r.offers, n);
    let got = gathered(r.start@, r.bands, r.images, n);
    let want = refined_layout(v, offers, 0);
    r.start.lemma_shape();
    if n > 0 {
        lemma_gathered(r, n - 1);
        lemma_band_begins(r, n - 1);
        lemma_offers_above(r, n);
        let head = r.together(n - 1).layout;
        let before = handed(r.offers, n - 1);
        let own = r.own(n - 1).layout;
        let mine = r.offers[n - 1];
        let c = r.bands[n - 1].0 as int;
        let y1 = r.bands[n - 1].1 as int;
        assert(mine.len() == y1 - c);
        assert(before.len() == c);
        assert(r.outs[n - 1].chosen32@ == r.own(n - 1).chosen32);
        let image = refined_layout(own, mine, c);
        let above = refined_layout(head, before, 0);
        assert(r.images[n - 1]@ == image);
        lemma_own_rows(r, n - 1);
        assert forall|j: int| 0 <= j < r.h() implies #[trigger] got[j] == want[j] by {
            if c <= j < y1 {
                assert(v[j] == own[j]);
                assert(offers[j] == mine[j - c]);
                assert(image[j] =~= want[j]);
            } else {
                assert(v[j] == head[j]);
                if j < c {
                    assert(offers[j] == before[j]);
                }
                assert(above[j] =~= want[j]);
            }
        }
    } else {
        assert forall|j: int| 0 <= j < r.h() implies #[trigger] got[j] == want[j] by {
            assert(got[j] =~= want[j]);
        }
    }
    assert(got =~= want);
}

proof fn lemma_own_rows<A: Amount>(r: BandSelection<A>, i: int)
    requires
        r.valid(),
        0 <= i < r.count(),
    ensures
        shaped(r.own(i).layout, r.w(), r.h()),
{
    lemma_band_begins(r, i);
    let y0 = r.bands[i].0 as int;
    let y1 = r.bands[i].1 as int;
    assert(single_blocks(r.start@, r.w(), r.h(), 0, y0, r.w(), y1 - y0));
    if r.leaf_first {
        law_leaf_first_keeps_tiling(
            r.w(),
            r.h(),
            r.params,
            y0,
            y1,
            r.costs[i],
            r.leaves[i],
            r.begun(),
        );
    } else {
        law_selection_keeps_tiling(
            r.w(),
            r.h(),
            y0,
            y1,
            r.params,
            r.costs[i],
            r.begun(),
        );
    }
}

proof fn lemma_handed_row<S>(
    bands: Seq<(usize, usize)>,
    per: Seq<Seq<S>>,
    end: int,
    n: int,
    k: int,
    y: int,
)
    requires
        contiguous(bands, end),
        forall|i: int|
            0 <= i < bands.len() ==> (#[trigger] per[i]).len() == bands[i].1 - bands[i].0,
        0 <= k < n <= bands.len(),
        bands[k].0 <= y < bands[k].1,
    ensures
        handed(per, n).len() == bands[n - 1].1,
        handed(per, n)[y] == per[k][y - bands[k].0],
    decreases n,
{
    let head = handed(per, n - 1);
    let own = per[n - 1];
    lemma_handed_length(bands, per, end, n);
    if k < n - 1 {
        lemma_handed_row(bands, per, end, n - 1, k, y);
        lemma_bands_ordered(bands, end, k, n - 1);
        assert(bands[n - 1].0 == bands[n - 2].1);
        assert((head + own)[y] == head[y]);
    } else {
        if n > 1 {
            lemma_handed_length(bands, per, end, n - 1);
            assert(bands[n - 1].0 == bands[n - 2].1);
        }
        assert((head + own)[y] == own[y - head.len()]);
    }
}

proof fn lemma_handed_length<S>(bands: Seq<(usize, usize)>, per: Seq<Seq<S>>, end: int, n: int)
    requires
        contiguous(bands, end),
        forall|i: int|
            0 <= i < bands.len() ==> (#[trigger] per[i]).len() == bands[i].1 - bands[i].0,
        0 < n <= bands.len(),
    ensures
        handed(per, n).len() == bands[n - 1].1,
    decreases n,
{
    assert(per[n - 1].len() == bands[n - 1].1 - bands[n - 1].0);
    if n > 1 {
        lemma_handed_length(bands, per, end, n - 1);
        assert(bands[n - 1].0 == bands[n - 2].1);
    } else {
        reveal_with_fuel(handed, 2);
    }
}

proof fn lemma_together_row<A: Amount>(r: BandSelection<A>, n: int, k: int, y: int)
    requires
        r.valid(),
        0 <= k < n <= r.count(),
        r.bands[k].0 <= y < r.bands[k].1,
    ensures
        r.together(n).layout.len() == r.h(),
        r.together(n).layout[y] == r.own(k).layout[y],
    decreases n,
{
    lemma_band_begins(r, k);
    lemma_together_height(r, n);
    lemma_together_height(r, n - 1);
    if k < n - 1 {
        lemma_together_row(r, n - 1, k, y);
        lemma_bands_ordered(r.bands, r.h(), k, n - 1);
    }
}

proof fn lemma_together_height<A: Amount>(r: BandSelection<A>, n: int)
    requires
        r.valid(),
        0 <= n,
    ensures
        r.together(n).layout.len() == r.h(),
    decreases n,
{
    r.start.lemma_shape();
    if n > 0 {
        lemma_together_height(r, n - 1);
    }
}

/// The layout that the bands select, after blocks took their offers.
spec fn offered<A: Amount>(r: BandSelection<A>) -> Layout {
    refined_layout(r.whole().layout, handed(r.offers, r.count()), 0)
}

proof fn lemma_offered_ends<A: Amount>(r: BandSelection<A>, k: int)
    requires
        r.valid(),
        0 <= k < r.count(),
    ensures
        ends_in_rows(offered(r), r.w(), r.bands[k].0 as int, r.bands[k].1 as int),
{
    let n = r.count();
    let v = r.whole().layout;
    let u = offered(r);
    let y0 = r.bands[k].0 as int;
    let y1 = r.bands[k].1 as int;
    let all = handed(r.offers, n);
    lemma_whole_is_together(r);
    lemma_own_stays(r, k);
    lemma_own_rows(r, k);
    lemma_band_begins(r, k);
    assert forall|x: int, y: int|
        0 <= x < r.w() && y0 <= y < y1 && (#[trigger] u[y][x]).first implies y + covered_y(
        u[y][x].strategy,
    ) <= y1 by {
        lemma_together_row(r, n, k, y);
        lemma_handed_row(r.bands, r.offers, r.h(), n, k, y);
        let own = r.own(k).layout;
        assert(v[y] == own[y]);
        assert(own[y].len() == r.w());
        if takes_offer(v, all, 0, x, y) {
            assert(r.offers[k][y - y0]@[x] is Some);
        } else {
            assert(u[y][x] == own[y][x]);
        }
    }
}

/// The second layout differs from the first by 64-pixel transforms alone.
spec fn only_64_added(v: Layout, u: Layout) -> bool {
    &&& u.len() == v.len()
    &&& forall|y: int| 0 <= y < v.len() ==> (#[trigger] u[y]).len() == v[y].len()
    &&& forall|y: int, x: int|
        0 <= y < v.len() && 0 <= x < v[y].len() ==> (#[trigger] u[y][x]) == v[y][x]
            || is_dct64_family(u[y][x].strategy)
}

proof fn lemma_placing_64(v: Layout, ps: Seq<Placement>)
    requires
        forall|i: int| 0 <= i < ps.len() ==> is_dct64_family((#[trigger] ps[i]).strategy),
    ensures
        only_64_added(v, place_all(v, ps)),
    decreases ps.len(),
{
    if ps.len() > 0 {
        let head = ps.drop_last();
        assert forall|i: int| 0 <= i < head.len() implies is_dct64_family(
            (#[trigger] head[i]).strategy,
        ) by {
            assert(head[i] == ps[i]);
        }
        lemma_placing_64(v, head);
        let t = place_all(v, head);
        let u = place_all(v, ps);
        assert(is_dct64_family(ps[ps.len() - 1].strategy));
        assert forall|y: int| 0 <= y < v.len() implies (#[trigger] u[y]).len() == v[y].len() by {
            assert(t[y].len() == v[y].len());
        }
        assert forall|y: int, x: int| 0 <= y < v.len() && 0 <= x < v[y].len() implies (
        #[trigger] u[y][x]) == v[y][x] || is_dct64_family(u[y][x].strategy) by {
            assert(t[y].len() == v[y].len());
            assert(t[y][x] == v[y][x] || is_dct64_family(t[y][x].strategy));
        }
    }
}

proof fn lemma_after64_adds<A: Amount>(
    v: Layout,
    sites: Seq<(usize, usize)>,
    grid: Costs<A>,
    t: MergeTuning<A>,
    scores: Seq<Costs64<A>>,
    n: int,
)
    ensures
        only_64_added(v, after64(v, sites, grid, t, scores, n)),
    decreases n,
{
    if n > 0 {
        lemma_after64_adds(v, sites, grid, t, scores, n - 1);
        let mid = after64(v, sites, grid, t, scores, n - 1);
        let u = after64(v, sites, grid, t, scores, n);
        let bx = sites[n - 1].0 as int;
        let by = sites[n - 1].1 as int;
        let ps = placements64(choice64(quads_at(grid, bx, by), scores[n - 1], t), bx, by);
        lemma_placing_64(mid, ps);
        assert forall|y: int| 0 <= y < v.len() implies (#[trigger] u[y]).len() == v[y].len() by {
            assert(mid[y].len() == v[y].len());
        }
        assert forall|y: int, x: int| 0 <= y < v.len() && 0 <= x < v[y].len() implies (
        #[trigger] u[y][x]) == v[y][x] || is_dct64_family(u[y][x].strategy) by {
            assert(mid[y].len() == v[y].len());
            assert(mid[y][x] == v[y][x] || is_dct64_family(mid[y][x].strategy));
        }
    }
}

/// A filling in bands, stage by stage: what every stage was handed and what came of
/// it. Stages that are not cut into bands go by what the bands left them.
pub struct BandFilling<A> {
    pub plan: StagePlan,
    pub distance: A,
    pub selection: BandSelection<A>,
    /// The map after selection, and the gain kept for every block.
    pub selected: AcStrategyImage,
    pub gains: Gains<A>,
    pub benefit: A,
    /// The map after the 64-pixel transforms competed.
    pub tuning64: MergeTuning<A>,
    pub scores64: Seq<Costs64<A>>,
    pub merged: AcStrategyImage,
    /// The map after reranking, and the costs that it noted.
    pub params: RerankParams<A>,
    pub rerank_scores: Seq<Seq<SiteScores<A>>>,
    pub reranked: Seq<RerankOutput<A>>,
    pub undone: Layout,
    pub noted: Costs<A>,
    /// What stands after undone merges took transforms below 8x8.
    pub picks: Seq<Option<(u8, A)>>,
    pub swapped: Sub8State<A>,
    /// The map after shortlisted merges competed again, and the costs then known.
    pub margin: A,
    pub upgrade_scores: Seq<Seq<UpgradeScores<A>>>,
    pub upgrades: Seq<Seq<MergeUpgrade<A>>>,
    pub upgraded: AcStrategyImage,
    pub known: Costs<A>,
    /// The field before and after quantizers were refined.
    pub field: Field,
    pub refine_scores: Seq<Seq<RefineScores<A>>>,
    pub refined: Field,
}

impl<A: Amount> BandFilling<A> {
    pub open spec fn w(self) -> int {
        self.selection.w()
    }

    pub open spec fn h(self) -> int {
        self.selection.h()
    }

    pub open spec fn bands(self) -> Seq<(usize, usize)> {
        self.selection.bands
    }

    pub open spec fn count(self) -> int {
        self.selection.count()
    }

    /// The maps have the size of the group, the map that is reranked tiles it, and
    /// there are scores for everything that is scored.
    pub open spec fn valid(self) -> bool {
        &&& self.selection.valid()
        &&& self.selection.leaf_first == self.plan.leaf_first
        &&& self.plan.sub8 || self.plan.upgrade ==> self.plan.rerank
        &&& self.merged.wf()
        &&& self.merged.width() == self.w()
        &&& self.merged.height() == self.h()
        &&& tiled(self.merged@, self.w(), self.h())
        &&& self.upgraded.wf()
        &&& self.upgraded.height() == self.h()
        &&& self.plan.refine ==> self.refine_scores.len() == self.count() && forall|i: int|
            0 <= i < self.count() ==> (#[trigger] self.refine_scores[i]).len() == refined_sites(
                self.upgraded@,
                self.field,
                self.bands()[i].0 as int,
                self.bands()[i].1 as int,
            ).len()
    }

    /// The state that transforms below 8x8 are taken in.
    pub open spec fn before_sub8(self) -> Sub8State<A> {
        Sub8State {
            layout: self.undone,
            costs: self.noted,
            gains: self.gains,
            benefit: self.benefit,
        }
    }

    /// The costs that refining goes by.
    pub open spec fn costs_to_refine(self) -> Option<Costs<A>> {
        if self.plan.rerank {
            Some(self.known)
        } else {
            None
        }
    }

    /// The gains of the leaves are those that the bands kept.
    pub open spec fn gains_kept(self) -> bool {
        let r = self.selection;
        &&& r.kept.len() == r.count()
        &&& self.gains == gains_of_bands(r.kept, r.count())
        &&& forall|i: int|
            #![trigger r.kept[i]]
            0 <= i < r.count() ==> {
                &&& leaves_shape(r.kept[i]@, r.w(), r.bands[i].1 - r.bands[i].0)
                &&& forall|j: int, x: int|
                    0 <= j < r.kept[i]@.len() && 0 <= x < r.w() ==> (
                    #[trigger] r.kept[i]@[j]@[x]).gain == refined_gain(
                        r.own(i).layout,
                        r.offers[i],
                        r.leaves[i],
                        r.bands[i].0 as int,
                        x,
                        r.bands[i].0 + j,
                    )
            }
    }

    /// Every stage did what its bands do, each on its own rows and lists.
    pub open spec fn ran_in_bands(self) -> bool {
        let r = self.selection;
        let n = self.count();
        let grid = region_costs(self.w(), self.h(), r.outs);
        &&& r.ran()
        &&& self.selected@ == gathered(r.start@, r.bands, r.images, n)
        &&& self.plan.leaf_first ==> self.gains_kept()
        &&& self.merged@ == if self.plan.merge64 {
            after64(
                self.selected@,
                sites64(grid, self.w(), self.h() / 8),
                grid,
                self.tuning64,
                self.scores64,
                self.scores64.len() as int,
            )
        } else {
            self.selected@
        }
        &&& if self.plan.rerank {
            &&& reranked_by_bands(
                self.merged,
                self.params,
                r.bands,
                r.saved(),
                self.rerank_scores,
                self.reranked,
            )
            &&& self.undone == after_bands(self.merged@, self.reranked, n)
            &&& self.noted == costs_of_bands(unknown(self.w(), self.h()), self.reranked, n)
        } else {
            self.undone == self.merged@ && self.noted == unknown::<A>(self.w(), self.h())
        }
        &&& self.swapped == if self.plan.sub8 {
            after_sub8(
                self.before_sub8(),
                sub8_targets(self.reranked, n),
                self.picks,
                self.plan.leaf_first,
                self.picks.len() as int,
            )
        } else {
            self.before_sub8()
        }
        &&& if self.plan.upgrade {
            let ups = handed(self.upgrades, n);
            &&& upgraded_by_bands(
                self.swapped.layout,
                self.w(),
                self.h(),
                r.bands,
                self.reranked,
                r.shortlists(),
                self.upgrade_scores,
                self.margin,
                self.upgrades,
            )
            &&& self.upgraded@ == after_upgrades(self.swapped.layout, ups, ups.len() as int)
            &&& self.known == costs_after_upgrades(self.swapped.costs, ups, ups.len() as int)
        } else {
            self.upgraded@ == self.swapped.layout && self.known == self.swapped.costs
        }
        &&& self.refined == if self.plan.refine {
            let rs = refined_by_bands(
                self.upgraded@,
                self.field,
                refinement_steps(self.distance),
                self.costs_to_refine(),
                r.bands,
                self.refine_scores,
                n,
            );
            after_refinements(self.field, rs, rs.len() as int)
        } else {
            self.field
        }
    }

    /// Every stage did what one band over all the rows does, with the lists of the
    /// bands handed to it one after the other: what the methods of `Filling` ensure.
    pub open spec fn ran_as_one(self) -> bool {
        let r = self.selection;
        let n = self.count();
        let done = r.whole();
        let offers = handed(r.offers, n);
        let grid = with_regions(
            unknown(regions_along(self.w()), regions_along(self.h())),
            done.chosen32,
            done.chosen32.len() as int,
        );
        let saved = handed(r.saved(), n);
        let scores = handed(self.rerank_scores, n);
        let one = after_rerank(
            self.merged,
            self.params,
            saved,
            merges_of(self.merged@, 0, self.h()),
            scores,
            scores.len() as int,
        );
        let rollbacks = all_rollbacks(self.reranked, n);
        &&& saved_views(saved) == done.saved
        &&& self.selected@ == refined_layout(done.layout, offers, 0)
        &&& self.plan.leaf_first ==> forall|x: int, y: int|
            in_bounds(self.w(), self.h(), x, y) ==> #[trigger] self.gains[y][x] == refined_gain(
                done.layout,
                offers,
                handed(r.leaves, n),
                0,
                x,
                y,
            )
        &&& self.merged@ == if self.plan.merge64 {
            after64(
                self.selected@,
                sites64(grid, self.w(), self.h() / 8),
                grid,
                self.tuning64,
                self.scores64,
                self.scores64.len() as int,
            )
        } else {
            self.selected@
        }
        &&& if self.plan.rerank {
            &&& scores.len() == merges_of(self.merged@, 0, self.h()).len()
            &&& self.undone == after_downgrades(
                self.merged@,
                one.downgrades,
                one.downgrades.len() as int,
            )
            &&& self.noted == after_notes(
                unknown(self.w(), self.h()),
                one.costs,
                one.costs.len() as int,
            )
            &&& rollback_views(rollbacks) == one.rollbacks
        } else {
            self.undone == self.merged@ && self.noted == unknown::<A>(self.w(), self.h())
        }
        &&& self.swapped == if self.plan.sub8 {
            after_sub8(
                self.before_sub8(),
                plain_blocks_of(one, one.downgrades.len() as int),
                self.picks,
                self.plan.leaf_first,
                self.picks.len() as int,
            )
        } else {
            self.before_sub8()
        }
        &&& if self.plan.upgrade {
            let sites = upgradables(
                self.swapped.layout,
                self.w(),
                self.h(),
                rollbacks,
                0,
                self.h(),
                done.upgrades,
                done.upgrades.len() as int,
            );
            let ups = put_down(sites, handed(self.upgrade_scores, n), self.margin);
            &&& handed(self.upgrade_scores, n).len() == sites.len()
            &&& self.upgraded@ == after_upgrades(self.swapped.layout, ups, ups.len() as int)
            &&& self.known == costs_after_upgrades(self.swapped.costs, ups, ups.len() as int)
        } else {
            self.upgraded@ == self.swapped.layout && self.known == self.swapped.costs
        }
        &&& self.refined == if self.plan.refine {
            let sites = refined_sites(self.upgraded@, self.field, 0, self.h());
            let all = handed(self.refine_scores, n);
            let rs = refinements_of(
                self.field,
                refinement_steps(self.distance),
                self.costs_to_refine(),
                sites,
                all,
                all.len() as int,
            );
            after_refinements(self.field, rs, rs.len() as int)
        } else {
            self.field
        }
    }
}

/// Rollbacks as plain values.
pub open spec fn rollback_views<A>(list: Seq<FineMergeRollback<A>>) -> Seq<RollbackView<A>> {
    list.map_values(|r: FineMergeRollback<A>| r@)
}

proof fn lemma_rollbacks_put_out<A>(outs: Seq<RerankOutput<A>>, n: int)
    requires
        0 <= n <= outs.len(),
    ensures
        rollback_views(all_rollbacks(outs, n)) == put_out(outs, n).rollbacks,
    decreases n,
{
    if n > 0 {
        lemma_rollbacks_put_out(outs, n - 1);
        let a = all_rollbacks(outs, n - 1);
        let b = outs[n - 1].rollbacks@;
        assert(rollback_views(a + b) =~= rollback_views(a) + rollback_views(b));
        assert(rollback_views(b) =~= outs[n - 1]@.rollbacks);
    } else {
        assert(rollback_views(all_rollbacks(outs, 0)) =~= put_out(outs, 0).rollbacks);
    }
}

proof fn lemma_selected_alike<A: Amount>(f: BandFilling<A>)
    requires
        f.valid(),
        f.ran_in_bands(),
    ensures
        f.selected@ == offered(f.selection),
        saved_views(handed(f.selection.saved(), f.count())) == f.selection.whole().saved,
        handed(f.selection.shortlists(), f.count()) == f.selection.whole().upgrades,
        region_costs(f.w(), f.h(), f.selection.outs) == with_regions(
            unknown(regions_along(f.w()), regions_along(f.h())),
            f.selection.whole().chosen32,
            f.selection.whole().chosen32.len() as int,
        ),
        saved_in_rows(f.bands(), f.selection.saved()),
        listed_in_rows(f.bands(), f.selection.shortlists()),
{
    let r = f.selection;
    let n = r.count();
    lemma_whole_is_together(r);
    lemma_lists_together(r, n);
    lemma_gathered(r, n);
    law_regions_are_noted_as_one(
        unknown::<A>(regions_along(f.w()), regions_along(f.h())),
        r.outs,
        n,
    );
    assert forall|i: int, k: int| 0 <= i < n && 0 <= k < r.saved()[i].len() implies r.bands[i].0
        <= (#[trigger] r.saved()[i][k]).by < r.bands[i].1 by {
        lemma_own_stays(r, i);
        assert(r.outs[i].chosen32@ == r.own(i).chosen32);
        assert(saved_views(r.saved()[i])[k] == r.saved()[i][k]@);
        assert(r.own(i).saved[k].by == r.saved()[i][k].by);
    }
    assert forall|i: int, k: int|
        0 <= i < n && 0 <= k < r.shortlists()[i].len() implies r.bands[i].0 <= (
    #[trigger] r.shortlists()[i][k]).y < r.bands[i].1 && aligned_site(r.shortlists()[i][k]) by {
        lemma_own_stays(r, i);
        assert(r.outs[i].chosen32@ == r.own(i).chosen32);
        assert(r.own(i).upgrades[k] == r.shortlists()[i][k]);
    }
}

proof fn lemma_merges_end_in_rows<A: Amount>(f: BandFilling<A>, k: int)
    requires
        f.valid(),
        f.ran_in_bands(),
        0 <= k < f.count(),
    ensures
        forall|i: int|
            0 <= i < merges_of(f.merged@, f.bands()[k].0 as int, f.bands()[k].1 as int).len() ==> ({
                let s = #[trigger] merges_of(
                    f.merged@,
                    f.bands()[k].0 as int,
                    f.bands()[k].1 as int,
                )[i];
                f.bands()[k].0 <= s.y < f.bands()[k].1 && s.y + covered_y(s.strategy)
                    <= f.bands()[k].1
            }),
{
    let r = f.selection;
    let y0 = r.bands[k].0 as int;
    let y1 = r.bands[k].1 as int;
    let sites = merges_of(f.merged@, y0, y1);
    lemma_selected_alike(f);
    lemma_offered_ends(r, k);
    lemma_merges_of(f.merged@, f.w(), f.h(), y0, y1);
    let v = f.selected@;
    let grid = region_costs(f.w(), f.h(), r.outs);
    if f.plan.merge64 {
        lemma_after64_adds(
            v,
            sites64(grid, f.w(), f.h() / 8),
            grid,
            f.tuning64,
            f.scores64,
            f.scores64.len() as int,
        );
    }
    assert forall|i: int| 0 <= i < sites.len() implies ({
        let s = #[trigger] sites[i];
        y0 <= s.y < y1 && s.y + covered_y(s.strategy) <= y1
    }) by {
        let s = sites[i];
        let x = s.x as int;
        let y = s.y as int;
        assert(f.merged@[y].len() == f.w());
        assert(f.merged@[y][x] == v[y][x]);
        assert(v[y][x].first);
    }
}

proof fn lemma_reranked_in_rows<A: Amount>(f: BandFilling<A>)
    requires
        f.valid(),
        f.ran_in_bands(),
        f.plan.rerank,
    ensures
        outputs_in_rows(f.bands(), f.reranked),
{
    let r = f.selection;
    assert forall|i: int| 0 <= i < f.reranked.len() implies stands_in_rows(
        (#[trigger] f.reranked[i])@,
        r.bands[i].0 as int,
        r.bands[i].1 as int,
    ) by {
        let y0 = r.bands[i].0 as int;
        let y1 = r.bands[i].1 as int;
        let sites = merges_of(f.merged@, y0, y1);
        lemma_merges_end_in_rows(f, i);
        assert forall|j: int| 0 <= j < sites.len() implies y0 <= (#[trigger] sites[j]).y < y1
            && sites[j].y + covered_y(sites[j].strategy) <= y1 by {
            let s = merges_of(f.merged@, f.bands()[i].0 as int, f.bands()[i].1 as int)[j];
            assert(s == sites[j]);
        }
        lemma_rerank_stands_in_rows(
            f.merged,
            f.params,
            r.saved()[i],
            sites,
            f.rerank_scores[i],
            sites.len() as int,
            y0,
            y1,
        );
    }
}

proof fn lemma_band_of_row(bands: Seq<(usize, usize)>, end: int, n: int, y: int) -> (k: int)
    requires
        contiguous(bands, end),
        0 < n <= bands.len(),
        0 <= y < bands[n - 1].1,
    ensures
        0 <= k < n,
        bands[k].0 <= y < bands[k].1,
    decreases n,
{
    if y >= bands[n - 1].0 {
        n - 1
    } else {
        assert(n > 1);
        assert(bands[n - 1].0 == bands[n - 2].1);
        lemma_band_of_row(bands, end, n - 1, y)
    }
}

proof fn lemma_gains_handed<A>(kept: Seq<Vec<Vec<LeafChoice<A>>>>, n: int)
    requires
        0 <= n <= kept.len(),
    ensures
        gains_of_bands(kept, n) == handed(
            Seq::new(kept.len(), |i: int| leaf_gains(kept[i]@)),
            n,
        ),
    decreases n,
{
    if n > 0 {
        lemma_gains_handed(kept, n - 1);
    }
}

proof fn lemma_gains_alike<A: Amount>(f: BandFilling<A>, x: int, y: int)
    requires
        f.valid(),
        f.ran_in_bands(),
        f.plan.leaf_first,
        in_bounds(f.w(), f.h(), x, y),
    ensures
        f.gains[y][x] == refined_gain(
            f.selection.whole().layout,
            handed(f.selection.offers, f.count()),
            handed(f.selection.leaves, f.count()),
            0,
            x,
            y,
        ),
{
    let r = f.selection;
    let n = r.count();
    assert(r.bands[n - 1].1 == r.h());
    let k = lemma_band_of_row(r.bands, r.h(), n, y);
    let y0 = r.bands[k].0 as int;
    let per = Seq::new(r.kept.len(), |i: int| leaf_gains(r.kept[i]@));
    assert forall|i: int| 0 <= i < r.bands.len() implies (#[trigger] per[i]).len()
        == r.bands[i].1 - r.bands[i].0 by {
        assert(leaves_shape(r.kept[i]@, r.w(), r.bands[i].1 - r.bands[i].0));
    }
    assert forall|i: int| 0 <= i < r.bands.len() implies (#[trigger] r.leaves[i]).len()
        == r.bands[i].1 - r.bands[i].0 by {
        assert(r.bands[i].0 < r.bands[i].1);
    }
    lemma_gains_handed(r.kept, n);
    lemma_handed_row(r.bands, per, r.h(), n, k, y);
    lemma_handed_row(r.bands, r.offers, r.h(), n, k, y);
    lemma_handed_row(r.bands, r.leaves, r.h(), n, k, y);
    lemma_whole_is_together(r);
    lemma_together_row(r, n, k, y);
    assert(leaves_shape(r.kept[k]@, r.w(), r.bands[k].1 - r.bands[k].0));
    assert(r.kept[k]@[y - y0]@.len() == r.w());
    assert(f.gains[y] == leaf_gains(r.kept[k]@)[y - y0]);
    assert(f.gains[y][x] == r.kept[k]@[y - y0]@[x].gain);
}

/// However many bands share the work, and with each of them going by its own rows,
/// scores, saved layouts, shortlist and mosaics, the map, the costs, the gains and
/// the quantizer field after every stage are those of one band over all the rows
/// that is handed the scores of all bands.
pub proof fn law_filling_does_not_depend_on_the_bands<A: Amount>(f: BandFilling<A>)
    requires
        f.valid(),
        f.ran_in_bands(),
    ensures
        f.ran_as_one(),
{
    let r = f.selection;
    let n = r.count();
    lemma_selected_alike(f);
    assert(r.bands[n - 1].1 == r.h());
    if f.plan.leaf_first {
        assert forall|x: int, y: int|
            in_bounds(f.w(), f.h(), x, y) implies #[trigger] f.gains[y][x] == refined_gain(
            r.whole().layout,
            handed(r.offers, n),
            handed(r.leaves, n),
            0,
            x,
            y,
        ) by {
            lemma_gains_alike(f, x, y);
        }
    }
    if f.plan.rerank {
        law_reranking_by_own_saved_layouts(
            f.merged,
            f.params,
            r.bands,
            r.saved(),
            f.rerank_scores,
            f.reranked,
            unknown::<A>(f.w(), f.h()),
        );
        lemma_rollbacks_put_out(f.reranked, n);
        lemma_reranked_in_rows(f);
    }
    if f.plan.sub8 {
        law_sub8_blocks_are_listed_as_one(r.bands, f.reranked, r.h(), n);
    }
    if f.plan.upgrade {
        law_upgrading_by_own_shortlists(
            f.swapped.layout,
            f.w(),
            f.h(),
            r.bands,
            f.reranked,
            r.shortlists(),
            f.upgrade_scores,
            f.margin,
            f.upgrades,
            n,
        );
    }
    if f.plan.refine {
        law_refining_does_not_depend_on_the_bands(
            f.upgraded,
            f.field,
            refinement_steps(f.distance),
            f.costs_to_refine(),
            r.bands,
            f.refine_scores,
            n,
        );
    }
}

} // verus!
