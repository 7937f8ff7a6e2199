//! Reranking of the merges of a band, and what it does to the map.

use crate::amount::Amount;
use crate::cost_map::{grid_shape, unknown, with_cost, CostMap, Costs};
use crate::mosaic::{mosaic_benefit, RerankParams};
use crate::rerank::{
    decide_site, grid_inside, grid_view, incumbents, kept_costs, region_of, restored,
    scores_complete, verdict, CachedQuantCost, Region, SiteOutcome, SiteScores,
};
use crate::strategy::{
    covered_blocks_x_of, covered_blocks_y_of, covered_x, covered_y, in_dct64_family,
    is_dct64_family, NO_CHILD_BLOCK,
};
use crate::strategy_map::{firsts, firsts_in_row, fits_in, AcStrategyImage, Layout, Placement};
use crate::super_block::SavedChild;
use crate::tiling::{in_bounds, place_all, tiled};
use vstd::prelude::*;

verus! {

/// A merge is reranked with the band `[y0, y1)`: it covers more than one block,
/// and none of the 64-pixel transforms is meant.
pub open spec fn reranked(s: Placement, y0: int, y1: int) -> bool {
    &&& y0 <= s.y < y1
    &&& !is_dct64_family(s.strategy)
    &&& covered_x(s.strategy) > 1 || covered_y(s.strategy) > 1
}

/// The reranked merges among the leading `n` of a list.
pub open spec fn merges_in(all: Seq<Placement>, y0: int, y1: int, n: int) -> Seq<Placement>
    decreases n,
{
    if n <= 0 {
        Seq::empty()
    } else if reranked(all[n - 1], y0, y1) {
        merges_in(all, y0, y1, n - 1).push(all[n - 1])
    } else {
        merges_in(all, y0, y1, n - 1)
    }
}

/// The merges of a layout that a band reranks, in row-major order.
pub open spec fn merges_of(v: Layout, y0: int, y1: int) -> Seq<Placement> {
    let all = firsts(v, v.len() as int);
    merges_in(all, y0, y1, all.len() as int)
}

/// Lists the merges that the band `[y0, y1)` reranks.
pub fn rerank_sites(map: &AcStrategyImage, y0: usize, y1: usize) -> (r: Vec<Placement>)
    requires
        map.wf(),
    ensures
        r@ == merges_of(map@, y0 as int, y1 as int),
{
    proof {
        map.lemma_shape();
    }
    let all: Vec<Placement> = map.first_blocks();
    let mut out: Vec<Placement> = Vec::new();
    let mut i: usize = 0;
    while i < all.len()
        invariant
            i <= all@.len(),
            out@ == merges_in(all@, y0 as int, y1 as int, i as int),
        decreases all@.len() - i,
    {
        let s: Placement = all[i];
        if y0 <= s.y && s.y < y1 && !in_dct64_family(s.strategy) && (covered_blocks_x_of(s.strategy)
            > 1 || covered_blocks_y_of(s.strategy) > 1) {
            out.push(s);
        }
        i += 1;
    }
    out
}

/// The layout saved last, among the leading `n`, for a merge at `(bx, by)`.
pub open spec fn saved_among(saved: Seq<SavedChild>, n: int, bx: int, by: int) -> Option<Seq<u8>>
    decreases n,
{
    if n <= 0 {
        None
    } else if saved[n - 1].bx == bx && saved[n - 1].by == by {
        Some(saved[n - 1].grid@)
    } else {
        saved_among(saved, n - 1, bx, by)
    }
}

/// Finds the child layout saved for the merge at `(bx, by)`; the last one counts.
pub fn find_saved(saved: &Vec<SavedChild>, bx: usize, by: usize) -> (r: Option<[u8; 16]>)
    ensures
        grid_view(r) == saved_among(saved@, saved@.len() as int, bx as int, by as int),
{
    let mut i: usize = saved.len();
    while i > 0
        invariant
            i <= saved@.len(),
            saved_among(saved@, saved@.len() as int, bx as int, by as int) == saved_among(
                saved@,
                i as int,
                bx as int,
                by as int,
            ),
        decreases i,
    {
        let s: SavedChild = saved[i - 1];
        if s.bx == bx && s.by == by {
            return Some(s.grid);
        }
        i -= 1;
    }
    None
}

/// A merge that is undone, and the layout that replaces it.
#[derive(Clone, Copy, Debug)]
pub struct RerankDowngrade {
    pub bx: usize,
    pub by: usize,
    pub cov_x: usize,
    pub cov_y: usize,
    pub restore: [u8; 16],
}

/// A downgrade as plain values.
#[verifier::ext_equal]
pub struct DowngradeView {
    pub bx: int,
    pub by: int,
    pub cx: int,
    pub cy: int,
    pub grid: Seq<u8>,
}

impl View for RerankDowngrade {
    type V = DowngradeView;

    open spec fn view(&self) -> DowngradeView {
        DowngradeView {
            bx: self.bx as int,
            by: self.by as int,
            cx: self.cov_x as int,
            cy: self.cov_y as int,
            grid: self.restore@,
        }
    }
}

/// A mosaic that can be put back to the merge it replaced.
#[derive(Clone, Copy)]
pub struct FineMergeRollback<A> {
    pub bx: usize,
    pub by: usize,
    pub cov_x: usize,
    pub cov_y: usize,
    pub strategy: u8,
    pub fine_grid: [u8; 16],
    pub benefit: A,
}

/// A rollback as plain values.
#[verifier::ext_equal]
pub struct RollbackView<A> {
    pub at: DowngradeView,
    pub strategy: u8,
    pub benefit: A,
}

impl<A> View for FineMergeRollback<A> {
    type V = RollbackView<A>;

    open spec fn view(&self) -> RollbackView<A> {
        RollbackView {
            at: DowngradeView {
                bx: self.bx as int,
                by: self.by as int,
                cx: self.cov_x as int,
                cy: self.cov_y as int,
                grid: self.fine_grid@,
            },
            strategy: self.strategy,
            benefit: self.benefit,
        }
    }
}

/// What reranking a band produces.
pub struct RerankOutput<A> {
    pub costs: Vec<CachedQuantCost<A>>,
    pub downgrades: Vec<RerankDowngrade>,
    pub rollbacks: Vec<FineMergeRollback<A>>,
}

/// The same as plain values.
#[verifier::ext_equal]
pub struct RerankState<A> {
    pub costs: Seq<CachedQuantCost<A>>,
    pub downgrades: Seq<DowngradeView>,
    pub rollbacks: Seq<RollbackView<A>>,
}

impl<A> View for RerankOutput<A> {
    type V = RerankState<A>;

    open spec fn view(&self) -> RerankState<A> {
        RerankState {
            costs: self.costs@,
            downgrades: self.downgrades@.map_values(|d: RerankDowngrade| d@),
            rollbacks: self.rollbacks@.map_values(|r: FineMergeRollback<A>| r@),
        }
    }
}

/// The region of a reranked merge.
pub open spec fn site_region<A>(
    map: AcStrategyImage,
    p: RerankParams<A>,
    saved: Seq<SavedChild>,
    site: Placement,
) -> Region {
    region_of(
        map,
        site,
        saved_among(saved, saved.len() as int, site.x as int, site.y as int),
        p.rectangles,
    )
}

/// The downgrade of a merge.
pub open spec fn site_downgrade<A: Amount>(
    map: AcStrategyImage,
    p: RerankParams<A>,
    saved: Seq<SavedChild>,
    site: Placement,
    s: SiteScores<A>,
) -> DowngradeView {
    let g = site_region(map, p, saved, site);
    DowngradeView {
        bx: g.bx,
        by: g.by,
        cx: g.cx,
        cy: g.cy,
        grid: restored(p, g, s, verdict(p, g, site.strategy, s)),
    }
}

/// What the leading `n` merges of a band lead to.
pub open spec fn after_rerank<A: Amount>(
    map: AcStrategyImage,
    p: RerankParams<A>,
    saved: Seq<SavedChild>,
    sites: Seq<Placement>,
    scores: Seq<SiteScores<A>>,
    n: int,
) -> RerankState<A>
    decreases n,
{
    if n <= 0 {
        RerankState { costs: Seq::empty(), downgrades: Seq::empty(), rollbacks: Seq::empty() }
    } else {
        let head = after_rerank(map, p, saved, sites, scores, n - 1);
        let site = sites[n - 1];
        let s = scores[n - 1];
        let g = site_region(map, p, saved, site);
        let v = verdict(p, g, site.strategy, s);
        let down = site_downgrade(map, p, saved, site, s);
        RerankState {
            costs: head.costs + kept_costs(p, g, s, v),
            downgrades: if v is Keep {
                head.downgrades
            } else {
                head.downgrades.push(down)
            },
            rollbacks: if v is Mosaic {
                head.rollbacks.push(
                    RollbackView {
                        at: down,
                        strategy: site.strategy,
                        benefit: mosaic_benefit(p, s.fine@, s.fine_seams@, incumbents(p, g, s)),
                    },
                )
            } else {
                head.rollbacks
            },
        }
    }
}

/// The scores of every merge of a band are complete.
pub open spec fn band_scores_complete<A: Amount>(
    map: AcStrategyImage,
    p: RerankParams<A>,
    saved: Seq<SavedChild>,
    sites: Seq<Placement>,
    scores: Seq<SiteScores<A>>,
) -> bool {
    scores.len() == sites.len() && forall|i: int|
        0 <= i < sites.len() ==> scores_complete(
            p,
            site_region(map, p, saved, #[trigger] sites[i]),
            sites[i].strategy,
            scores[i],
        )
}

pub(crate) proof fn lemma_row_firsts(v: Layout, y: int, n: int)
    requires
        0 <= n <= usize::MAX,
        0 <= y <= usize::MAX,
    ensures
        forall|i: int|
            0 <= i < firsts_in_row(v, y, n).len() ==> ({
                let s = #[trigger] firsts_in_row(v, y, n)[i];
                &&& s.x < n
                &&& s.y == y
                &&& v[y][s.x as int].first
                &&& v[y][s.x as int].strategy == s.strategy
            }),
    decreases n,
{
    if n > 0 {
        lemma_row_firsts(v, y, n - 1);
        let head = firsts_in_row(v, y, n - 1);
        let all = firsts_in_row(v, y, n);
        assert forall|i: int| 0 <= i < all.len() implies ({
            let s = #[trigger] all[i];
            &&& s.x < n
            &&& s.y == y
            &&& v[y][s.x as int].first
            &&& v[y][s.x as int].strategy == s.strategy
        }) by {
            if i < head.len() {
                assert(all[i] == head[i]);
            }
        }
    }
}

/// Every listed first block is one.
pub proof fn lemma_firsts(v: Layout, w: int, n: int)
    requires
        0 <= n <= v.len() <= usize::MAX,
        0 <= w <= usize::MAX,
        forall|j: int| 0 <= j < v.len() ==> (#[trigger] v[j]).len() == w,
    ensures
        forall|i: int|
            0 <= i < firsts(v, n).len() ==> ({
                let s = #[trigger] firsts(v, n)[i];
                &&& s.x < w
                &&& s.y < n
                &&& v[s.y as int][s.x as int].first
                &&& v[s.y as int][s.x as int].strategy == s.strategy
            }),
    decreases n,
{
    if n > 0 {
        lemma_firsts(v, w, n - 1);
        lemma_row_firsts(v, n - 1, w);
        let head = firsts(v, n - 1);
        let row = firsts_in_row(v, n - 1, w);
        let all = firsts(v, n);
        assert(v[n - 1].len() == w);
        assert forall|i: int| 0 <= i < all.len() implies ({
            let s = #[trigger] all[i];
            &&& s.x < w
            &&& s.y < n
            &&& v[s.y as int][s.x as int].first
            &&& v[s.y as int][s.x as int].strategy == s.strategy
        }) by {
            if i < head.len() {
                assert(all[i] == head[i]);
            } else {
                assert(all[i] == row[i - head.len()]);
            }
        }
    }
}

proof fn lemma_merges_in(all: Seq<Placement>, y0: int, y1: int, n: int)
    requires
        0 <= n <= all.len(),
    ensures
        forall|i: int|
            0 <= i < merges_in(all, y0, y1, n).len() ==> reranked(
                #[trigger] merges_in(all, y0, y1, n)[i],
                y0,
                y1,
            ) && all.contains(merges_in(all, y0, y1, n)[i]),
    decreases n,
{
    if n > 0 {
        lemma_merges_in(all, y0, y1, n - 1);
        let head = merges_in(all, y0, y1, n - 1);
        let now = merges_in(all, y0, y1, n);
        assert forall|i: int| 0 <= i < now.len() implies reranked(#[trigger] now[i], y0, y1)
            && all.contains(now[i]) by {
            if i < head.len() {
                assert(now[i] == head[i]);
            } else {
                assert(now[i] == all[n - 1]);
            }
        }
    }
}

/// The merges of a tiling are first blocks of it whose footprints lie within it.
pub proof fn lemma_merges_of(v: Layout, w: int, h: int, y0: int, y1: int)
    requires
        tiled(v, w, h),
        w <= usize::MAX,
        h <= usize::MAX,
        0 <= w,
        0 <= h,
    ensures
        forall|i: int|
            0 <= i < merges_of(v, y0, y1).len() ==> ({
                let s = #[trigger] merges_of(v, y0, y1)[i];
                &&& reranked(s, y0, y1)
                &&& fits_in(w, h, s.x as int, s.y as int, s.strategy)
                &&& v[s.y as int][s.x as int].first
                &&& v[s.y as int][s.x as int].strategy == s.strategy
            }),
{
    let all = firsts(v, h);
    lemma_firsts(v, w, h);
    lemma_merges_in(all, y0, y1, all.len() as int);
    let ms = merges_of(v, y0, y1);
    assert forall|i: int| 0 <= i < ms.len() implies ({
        let s = #[trigger] ms[i];
        &&& reranked(s, y0, y1)
        &&& fits_in(w, h, s.x as int, s.y as int, s.strategy)
        &&& v[s.y as int][s.x as int].first
        &&& v[s.y as int][s.x as int].strategy == s.strategy
    }) by {
        assert(all.contains(ms[i]));
        let j = choose|j: int| 0 <= j < all.len() && all[j] == ms[i];
        assert(all[j].x < w);
        assert(in_bounds(w, h, ms[i].x as int, ms[i].y as int));
    }
}

/// Decides on every merge of the band `[y0, y1)`. `scores` holds what
/// reconstruction says of each, in the order of `rerank_sites`.
pub fn find_rerank_downgrades<A: Amount>(
    map: &AcStrategyImage,
    band: (usize, usize),
    p: &RerankParams<A>,
    saved: &Vec<SavedChild>,
    scores: &Vec<SiteScores<A>>,
) -> (r: RerankOutput<A>)
    requires
        map.wf(),
        tiled(map@, map.width() as int, map.height() as int),
        band_scores_complete(
            *map,
            *p,
            saved@,
            merges_of(map@, band.0 as int, band.1 as int),
            scores@,
        ),
    ensures
        r@ == after_rerank(
            *map,
            *p,
            saved@,
            merges_of(map@, band.0 as int, band.1 as int),
            scores@,
            scores@.len() as int,
        ),
{
    let sites: Vec<Placement> = rerank_sites(map, band.0, band.1);
    proof {
        lemma_merges_of(
            map@,
            map.width() as int,
            map.height() as int,
            band.0 as int,
            band.1 as int,
        );
    }
    let mut out: RerankOutput<A> = RerankOutput {
        costs: Vec::new(),
        downgrades: Vec::new(),
        rollbacks: Vec::new(),
    };
    assert(out@ =~= after_rerank(*map, *p, saved@, sites@, scores@, 0));
    let mut i: usize = 0;
    while i < sites.len()
        invariant
            i <= sites@.len(),
            map.wf(),
            sites@ == merges_of(map@, band.0 as int, band.1 as int),
            band_scores_complete(*map, *p, saved@, sites@, scores@),
            forall|k: int|
                0 <= k < sites@.len() ==> ({
                    let s = #[trigger] sites@[k];
                    &&& reranked(s, band.0 as int, band.1 as int)
                    &&& fits_in(
                        map.width() as int,
                        map.height() as int,
                        s.x as int,
                        s.y as int,
                        s.strategy,
                    )
                }),
            out@ == after_rerank(*map, *p, saved@, sites@, scores@, i as int),
        decreases sites@.len() - i,
    {
        let site: Placement = sites[i];
        let ghost before = out@;
        assert(reranked(sites@[i as int], band.0 as int, band.1 as int));
        let kept: Option<[u8; 16]> = find_saved(saved, site.x, site.y);
        let mut found: SiteOutcome<A> = decide_site(map, p, site, &kept, &scores[i]);
        let ghost costs = found.costs@;
        out.costs.append(&mut found.costs);
        if let Some(restore) = found.restore {
            let cov_x: usize = covered_blocks_x_of(site.strategy);
            let cov_y: usize = covered_blocks_y_of(site.strategy);
            let ghost downs = out.downgrades@;
            out.downgrades.push(
                RerankDowngrade { bx: site.x, by: site.y, cov_x, cov_y, restore },
            );
            proof {
                assert(out.downgrades@.map_values(|d: RerankDowngrade| d@) =~= downs.map_values(
                    |d: RerankDowngrade| d@,
                ).push(out.downgrades@.last()@));
            }
            if let Some(benefit) = found.benefit {
                let ghost rolls = out.rollbacks@;
                out.rollbacks.push(
                    FineMergeRollback {
                        bx: site.x,
                        by: site.y,
                        cov_x,
                        cov_y,
                        strategy: site.strategy,
                        fine_grid: restore,
                        benefit,
                    },
                );
                proof {
                    assert(out.rollbacks@.map_values(|d: FineMergeRollback<A>| d@)
                        =~= rolls.map_values(|d: FineMergeRollback<A>| d@).push(
                        out.rollbacks@.last()@,
                    ));
                }
            }
        }
        i += 1;
        assert(out@ =~= after_rerank(*map, *p, saved@, sites@, scores@, i as int));
    }
    out
}

/// The transforms that a downgrade puts down at the leading `n` grid entries.
pub open spec fn restore_placements(d: DowngradeView, n: int) -> Seq<Placement>
    decreases n,
{
    if n <= 0 {
        Seq::empty()
    } else if grid_inside(d.cx, d.cy, n - 1) && d.grid[n - 1] != NO_CHILD_BLOCK {
        restore_placements(d, n - 1).push(
            Placement {
                x: (d.bx + (n - 1) % 4) as usize,
                y: (d.by + (n - 1) / 4) as usize,
                strategy: d.grid[n - 1],
            },
        )
    } else {
        restore_placements(d, n - 1)
    }
}

/// The layout after the leading `n` downgrades.
pub open spec fn after_downgrades(v: Layout, ds: Seq<DowngradeView>, n: int) -> Layout
    decreases n,
{
    if n <= 0 {
        v
    } else {
        place_all(after_downgrades(v, ds, n - 1), restore_placements(ds[n - 1], 16))
    }
}

/// Everything that a downgrade puts down lies within `w x h` blocks.
pub open spec fn downgrade_fits(d: DowngradeView, w: int, h: int) -> bool {
    &&& 0 <= d.bx
    &&& 0 <= d.by
    &&& d.grid.len() == 16
    &&& forall|i: int|
        0 <= i < 16 && grid_inside(d.cx, d.cy, i) && #[trigger] d.grid[i] != NO_CHILD_BLOCK
            ==> fits_in(w, h, d.bx + i % 4, d.by + i / 4, d.grid[i])
}

/// The grid of costs after the leading `n` entries were noted.
pub open spec fn after_notes<A>(m: Costs<A>, cached: Seq<CachedQuantCost<A>>, n: int) -> Costs<A>
    decreases n,
{
    if n <= 0 {
        m
    } else {
        let c = cached[n - 1];
        with_cost(after_notes(m, cached, n - 1), c.bx as int, c.by as int, c.cost)
    }
}

/// What a band's rerank produced lies within `w x h` blocks.
pub open spec fn output_fits<A>(s: RerankState<A>, w: int, h: int) -> bool {
    &&& forall|i: int|
        0 <= i < s.costs.len() ==> (#[trigger] s.costs[i]).bx < w && s.costs[i].by < h
    &&& forall|i: int|
        0 <= i < s.downgrades.len() ==> downgrade_fits(#[trigger] s.downgrades[i], w, h)
}

fn apply_downgrade(map: &mut AcStrategyImage, d: &RerankDowngrade)
    requires
        old(map).wf(),
        downgrade_fits(d@, old(map).width() as int, old(map).height() as int),
    ensures
        final(map).wf(),
        final(map).width() == old(map).width(),
        final(map).height() == old(map).height(),
        final(map)@ == place_all(old(map)@, restore_placements(d@, 16)),
{
    let ghost v = map@;
    let mut i: usize = 0;
    while i < 16
        invariant
            i <= 16,
            map.wf(),
            map.width() == old(map).width(),
            map.height() == old(map).height(),
            downgrade_fits(d@, map.width() as int, map.height() as int),
            map@ == place_all(v, restore_placements(d@, i as int)),
        decreases 16 - i,
    {
        let s: u8 = d.restore[i];
        assert(d@.grid[i as int] == s);
        if i % 4 < d.cov_x && i / 4 < d.cov_y && s != NO_CHILD_BLOCK {
            assert(grid_inside(d@.cx, d@.cy, i as int));
            map.set_first(d.bx + i % 4, d.by + i / 4, s);
            proof {
                let now = restore_placements(d@, i + 1);
                assert(now.drop_last() =~= restore_placements(d@, i as int));
            }
        }
        i += 1;
    }
}

/// The layout after the downgrades of the leading `n` bands.
pub open spec fn after_bands<A>(v: Layout, outs: Seq<RerankOutput<A>>, n: int) -> Layout
    decreases n,
{
    if n <= 0 {
        v
    } else {
        after_downgrades(
            after_bands(v, outs, n - 1),
            outs[n - 1]@.downgrades,
            outs[n - 1]@.downgrades.len() as int,
        )
    }
}

/// The grid of costs after those of the leading `n` bands were noted.
pub open spec fn costs_of_bands<A>(m: Costs<A>, outs: Seq<RerankOutput<A>>, n: int) -> Costs<A>
    decreases n,
{
    if n <= 0 {
        m
    } else {
        after_notes(
            costs_of_bands(m, outs, n - 1),
            outs[n - 1]@.costs,
            outs[n - 1]@.costs.len() as int,
        )
    }
}

proof fn lemma_with_cost_shape<A>(m: Costs<A>, w: int, h: int, x: int, y: int, c: Option<A>)
    requires
        grid_shape(m, w, h),
        0 <= x < w,
        0 <= y < h,
    ensures
        grid_shape(with_cost(m, x, y, c), w, h),
{
    assert forall|j: int| 0 <= j < h implies (#[trigger] with_cost(m, x, y, c)[j]).len() == w by {
        assert(m[j].len() == w);
    }
}

fn note_costs<A: Amount>(
    costs: &mut CostMap<A>,
    cached: &Vec<CachedQuantCost<A>>,
    Ghost(w): Ghost<int>,
    Ghost(h): Ghost<int>,
)
    requires
        grid_shape(old(costs)@, w, h),
        forall|i: int|
            0 <= i < cached@.len() ==> (#[trigger] cached@[i]).bx < w && cached@[i].by < h,
    ensures
        grid_shape(final(costs)@, w, h),
        final(costs)@ == after_notes(old(costs)@, cached@, cached@.len() as int),
{
    let ghost start = costs@;
    let mut i: usize = 0;
    while i < cached.len()
        invariant
            i <= cached@.len(),
            grid_shape(costs@, w, h),
            forall|k: int|
                0 <= k < cached@.len() ==> (#[trigger] cached@[k]).bx < w && cached@[k].by < h,
            costs@ == after_notes(start, cached@, i as int),
        decreases cached@.len() - i,
    {
        let c: CachedQuantCost<A> = cached[i];
        assert(cached@[i as int].bx < w);
        assert(costs@[c.by as int].len() == w);
        proof {
            lemma_with_cost_shape(costs@, w, h, c.bx as int, c.by as int, c.cost);
        }
        costs.set(c.bx, c.by, c.cost);
        i += 1;
    }
}

/// Puts the outcome of reranking every band into effect: the downgrades go into
/// the map, and the costs that were found are all that is known afterwards.
pub fn rerank_large_transforms<A: Amount>(
    map: &mut AcStrategyImage,
    outs: &Vec<RerankOutput<A>>,
) -> (costs: CostMap<A>)
    requires
        old(map).wf(),
        forall|i: int|
            0 <= i < outs@.len() ==> output_fits(
                (#[trigger] outs@[i])@,
                old(map).width() as int,
                old(map).height() as int,
            ),
    ensures
        final(map).wf(),
        final(map).width() == old(map).width(),
        final(map).height() == old(map).height(),
        final(map)@ == after_bands(old(map)@, outs@, outs@.len() as int),
        grid_shape(costs@, old(map).width() as int, old(map).height() as int),
        costs@ == costs_of_bands(
            unknown::<A>(old(map).width() as int, old(map).height() as int),
            outs@,
            outs@.len() as int,
        ),
{
    let ghost v = map@;
    let ghost w = map.width() as int;
    let ghost h = map.height() as int;
    let mut costs: CostMap<A> = CostMap::new(map.xsize(), map.ysize());
    let ghost start = costs@;
    let mut i: usize = 0;
    while i < outs.len()
        invariant
            i <= outs@.len(),
            map.wf(),
            map.width() == w,
            map.height() == h,
            w == old(map).width(),
            h == old(map).height(),
            forall|k: int| 0 <= k < outs@.len() ==> output_fits((#[trigger] outs@[k])@, w, h),
            grid_shape(costs@, w, h),
            start == unknown::<A>(w, h),
            costs@ == costs_of_bands(start, outs@, i as int),
            map@ == after_bands(v, outs@, i as int),
        decreases outs@.len() - i,
    {
        let out: &RerankOutput<A> = &outs[i];
        assert(output_fits(outs@[i as int]@, w, h));
        proof {
            assert forall|k: int| 0 <= k < out.costs@.len() implies (#[trigger] out.costs@[k]).bx
                < w && out.costs@[k].by < h by {
                assert(out@.costs[k] == out.costs@[k]);
            }
        }
        note_costs(&mut costs, &out.costs, Ghost(w), Ghost(h));
        let ghost before = map@;
        let ghost ds = out@.downgrades;
        let mut j: usize = 0;
        while j < out.downgrades.len()
            invariant
                j <= out.downgrades@.len(),
                map.wf(),
                map.width() == w,
                map.height() == h,
                ds == out@.downgrades,
                forall|k: int| 0 <= k < ds.len() ==> downgrade_fits(#[trigger] ds[k], w, h),
                map@ == after_downgrades(before, ds, j as int),
            decreases out.downgrades@.len() - j,
        {
            assert(ds[j as int] == out.downgrades@[j as int]@);
            apply_downgrade(map, &out.downgrades[j]);
            j += 1;
        }
        i += 1;
    }
    costs
}

} // verus!
