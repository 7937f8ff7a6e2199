//! Second thoughts on committed merges, in the reconstruction domain.
//!
//! Every merge is held against its best subdivision and, where it is a
//! rectangular pair, against a mosaic of small transforms.

use crate::amount::Amount;
use crate::mosaic::{
    coarse_mosaic_hue_is_costly, digit, fine_rd, hue_is_costly, mosaic_benefit, search_mosaic,
    selection_of, winning_mosaic, MosaicChoice, MosaicIncumbents, ReconCost, RerankParams, Seam,
    FINE_MOSAIC_CANDIDATES, FINE_MOSAIC_MAX_DISTANCE,
};
use crate::partition::{
    best_plan, best_reconstruction_plan, lemma_best_plan_named, level_spec, marks_named,
    PartitionTile, PlanValue, ReconstructionPlan,
};
use crate::strategy::{
    covered_blocks_x_of, covered_blocks_y_of, covered_x, covered_y, is_dct64_family, NO_CHILD_BLOCK,
    STRATEGY_DCT, STRATEGY_DCT16X16, STRATEGY_DCT16X32, STRATEGY_DCT16X8, STRATEGY_DCT32X16,
    STRATEGY_DCT8X16,
};
use crate::strategy_map::{fits_in, AcStrategyImage, Placement};
use vstd::prelude::*;

verus! {

/// A transform that may take part in the subdivision of a merge, in blocks from
/// the merge's corner.
#[derive(Clone, Copy, Debug, PartialEq, Eq, Structural)]
pub struct TileCandidate {
    pub x: usize,
    pub y: usize,
    pub width: usize,
    pub height: usize,
    pub strategy: u8,
}

/// The transforms tried at every block of a merge: the leaf saved there, and the
/// merged ones.
pub open spec fn tried(leaf: u8) -> Seq<u8> {
    seq![
        leaf,
        STRATEGY_DCT16X8,
        STRATEGY_DCT8X16,
        STRATEGY_DCT16X16,
        STRATEGY_DCT32X16,
        STRATEGY_DCT16X32,
    ]
}

/// A merge under rerank: its corner, its size in blocks, the size of the group,
/// the child layout saved for it, and whether rectangles are searched.
pub struct Region {
    pub w: int,
    pub h: int,
    pub bx: int,
    pub by: int,
    pub cx: int,
    pub cy: int,
    pub saved: Option<Seq<u8>>,
    pub rectangles: bool,
}

/// The saved strategy at an offset.
pub open spec fn saved_leaf(g: Region, ix: int, iy: int) -> u8 {
    match g.saved {
        Some(grid) => grid[iy * 4 + ix],
        None => NO_CHILD_BLOCK,
    }
}

/// Number `k` of the transforms tried at `(ix, iy)` is a candidate: it is an
/// aligned proper part of the region that fits the group. Of the saved layout
/// only leaves over one block are taken.
pub open spec fn admitted(g: Region, ix: int, iy: int, k: int) -> bool {
    let s = tried(saved_leaf(g, ix, iy))[k];
    let cx = covered_x(s);
    let cy = covered_y(s);
    &&& s != NO_CHILD_BLOCK
    &&& s != STRATEGY_DCT
    &&& k == 0 ==> cx == 1 && cy == 1
    &&& ix + cx <= g.cx
    &&& iy + cy <= g.cy
    &&& ix % cx == 0
    &&& iy % cy == 0
    &&& !(cx == g.cx && cy == g.cy)
    &&& g.rectangles || cx == cy
    &&& fits_in(g.w, g.h, g.bx + ix, g.by + iy, s)
}

/// Number `k` of the transforms tried at `(ix, iy)`.
pub open spec fn candidate_at(g: Region, ix: int, iy: int, k: int) -> TileCandidate {
    let s = tried(saved_leaf(g, ix, iy))[k];
    TileCandidate {
        x: ix as usize,
        y: iy as usize,
        width: covered_x(s) as usize,
        height: covered_y(s) as usize,
        strategy: s,
    }
}

/// The candidates among the leading `n` transforms tried at `(ix, iy)`.
pub open spec fn block_candidates(g: Region, ix: int, iy: int, n: int) -> Seq<TileCandidate>
    decreases n,
{
    if n <= 0 {
        Seq::empty()
    } else if admitted(g, ix, iy, n - 1) {
        block_candidates(g, ix, iy, n - 1).push(candidate_at(g, ix, iy, n - 1))
    } else {
        block_candidates(g, ix, iy, n - 1)
    }
}

/// The candidates at the leading `n` blocks of row `iy`.
pub open spec fn row_candidates(g: Region, iy: int, n: int) -> Seq<TileCandidate>
    decreases n,
{
    if n <= 0 {
        Seq::empty()
    } else {
        row_candidates(g, iy, n - 1) + block_candidates(g, n - 1, iy, 6)
    }
}

/// The candidates at the leading `n` rows.
pub open spec fn merged_candidates(g: Region, n: int) -> Seq<TileCandidate>
    decreases n,
{
    if n <= 0 {
        Seq::empty()
    } else {
        merged_candidates(g, n - 1) + row_candidates(g, n - 1, g.cx)
    }
}

/// An 8x8 DCT at an offset.
pub open spec fn plain_tile(ix: int, iy: int) -> TileCandidate {
    TileCandidate {
        x: ix as usize,
        y: iy as usize,
        width: 1,
        height: 1,
        strategy: STRATEGY_DCT,
    }
}

/// 8x8 DCTs at the leading `n` rows of a region, `cx` in each.
pub open spec fn plain_tiles(cx: int, n: int) -> Seq<TileCandidate>
    decreases n,
{
    if n <= 0 {
        Seq::empty()
    } else {
        plain_tiles(cx, n - 1) + Seq::new(cx as nat, |i: int| plain_tile(i, n - 1))
    }
}

/// All candidates of a region: an 8x8 DCT per block, then the others.
pub open spec fn candidates(g: Region) -> Seq<TileCandidate> {
    plain_tiles(g.cx, g.cy) + merged_candidates(g, g.cy)
}

/// The region of a merge.
pub open spec fn region_of(
    map: AcStrategyImage,
    site: Placement,
    saved: Option<Seq<u8>>,
    rectangles: bool,
) -> Region {
    Region {
        w: map.width() as int,
        h: map.height() as int,
        bx: site.x as int,
        by: site.y as int,
        cx: covered_x(site.strategy),
        cy: covered_y(site.strategy),
        saved,
        rectangles,
    }
}

/// A saved grid as plain values.
pub open spec fn grid_view(saved: Option<[u8; 16]>) -> Option<Seq<u8>> {
    match saved {
        Some(grid) => Some(grid@),
        None => None,
    }
}

pub(crate) proof fn lemma_block_candidates_len(g: Region, ix: int, iy: int, n: int)
    requires
        0 <= n,
    ensures
        block_candidates(g, ix, iy, n).len() <= n,
    decreases n,
{
    if n > 0 {
        lemma_block_candidates_len(g, ix, iy, n - 1);
    }
}

fn push_block(
    out: &mut Vec<TileCandidate>,
    map: &AcStrategyImage,
    site: Placement,
    saved: &Option<[u8; 16]>,
    rectangles: bool,
    cx: usize,
    cy: usize,
    ix: usize,
    iy: usize,
)
    requires
        cx == covered_x(site.strategy),
        cy == covered_y(site.strategy),
        ix < cx <= 4,
        iy < cy <= 4,
        site.x + cx <= usize::MAX,
        site.y + cy <= usize::MAX,
    ensures
        final(out)@ == old(out)@ + block_candidates(
            region_of(*map, site, grid_view(*saved), rectangles),
            ix as int,
            iy as int,
            6,
        ),
{
    let ghost g = region_of(*map, site, grid_view(*saved), rectangles);
    let leaf: u8 = match saved {
        Some(grid) => grid[iy * 4 + ix],
        None => NO_CHILD_BLOCK,
    };
    let order: [u8; 6] = [
        leaf,
        STRATEGY_DCT16X8,
        STRATEGY_DCT8X16,
        STRATEGY_DCT16X16,
        STRATEGY_DCT32X16,
        STRATEGY_DCT16X32,
    ];
    assert(order@ =~= tried(saved_leaf(g, ix as int, iy as int)));
    let mut k: usize = 0;
    while k < 6
        invariant
            k <= 6,
            ix < cx <= 4,
            iy < cy <= 4,
            site.x + cx <= usize::MAX,
            site.y + cy <= usize::MAX,
            g == region_of(*map, site, grid_view(*saved), rectangles),
            g.cx == cx,
            g.cy == cy,
            order@ == tried(saved_leaf(g, ix as int, iy as int)),
            out@ == old(out)@ + block_candidates(g, ix as int, iy as int, k as int),
        decreases 6 - k,
    {
        let s: u8 = order[k];
        let ccx: usize = covered_blocks_x_of(s);
        let ccy: usize = covered_blocks_y_of(s);
        let named: bool = s != NO_CHILD_BLOCK && s != STRATEGY_DCT;
        let leaf_sized: bool = ccx == 1 && ccy == 1;
        let inside: bool = ix + ccx <= cx && iy + ccy <= cy;
        let aligned: bool = ix % ccx == 0 && iy % ccy == 0;
        let proper: bool = !(ccx == cx && ccy == cy);
        let shaped: bool = rectangles || ccx == ccy;
        if named && (k > 0 || leaf_sized) && inside && aligned && proper && shaped
            && map.can_place_strategy(site.x + ix, site.y + iy, s) {
            assert(admitted(g, ix as int, iy as int, k as int));
            let ghost before = out@;
            out.push(TileCandidate { x: ix, y: iy, width: ccx, height: ccy, strategy: s });
            proof {
                assert(out@ =~= old(out)@ + block_candidates(g, ix as int, iy as int, k + 1));
            }
        } else {
            assert(!admitted(g, ix as int, iy as int, k as int));
        }
        k += 1;
    }
}

/// Lists the transforms that may take part in the subdivision of a merge.
pub fn list_candidates(
    map: &AcStrategyImage,
    site: Placement,
    saved: &Option<[u8; 16]>,
    rectangles: bool,
) -> (r: Vec<TileCandidate>)
    requires
        covered_x(site.strategy) <= 4,
        covered_y(site.strategy) <= 4,
        site.x + covered_x(site.strategy) <= usize::MAX,
        site.y + covered_y(site.strategy) <= usize::MAX,
    ensures
        r@ == candidates(region_of(*map, site, grid_view(*saved), rectangles)),
        r@.len() <= 112,
{
    let ghost g = region_of(*map, site, grid_view(*saved), rectangles);
    let cx: usize = covered_blocks_x_of(site.strategy);
    let cy: usize = covered_blocks_y_of(site.strategy);
    let mut out: Vec<TileCandidate> = Vec::new();
    let mut iy: usize = 0;
    while iy < cy
        invariant
            iy <= cy <= 4,
            cx <= 4,
            out@ == plain_tiles(cx as int, iy as int),
            out@.len() <= iy * 4,
        decreases cy - iy,
    {
        let ghost before = out@;
        let mut ix: usize = 0;
        while ix < cx
            invariant
                ix <= cx <= 4,
                iy < cy <= 4,
                before == plain_tiles(cx as int, iy as int),
                before.len() <= iy * 4,
                out@ == before + Seq::new(ix as nat, |i: int| plain_tile(i, iy as int)),
            decreases cx - ix,
        {
            out.push(TileCandidate { x: ix, y: iy, width: 1, height: 1, strategy: STRATEGY_DCT });
            ix += 1;
            assert(out@ =~= before + Seq::new(ix as nat, |i: int| plain_tile(i, iy as int)));
        }
        iy += 1;
    }
    let ghost head = out@;
    iy = 0;
    assert(out@ =~= head + merged_candidates(g, 0));
    while iy < cy
        invariant
            iy <= cy <= 4,
            cx <= 4,
            cx == covered_x(site.strategy),
            cy == covered_y(site.strategy),
            site.x + cx <= usize::MAX,
            site.y + cy <= usize::MAX,
            g == region_of(*map, site, grid_view(*saved), rectangles),
            head.len() <= 16,
            out@ == head + merged_candidates(g, iy as int),
            out@.len() <= 16 + iy * 24,
        decreases cy - iy,
    {
        let ghost before = out@;
        let mut ix: usize = 0;
        assert(out@ =~= before + row_candidates(g, iy as int, 0));
        while ix < cx
            invariant
                ix <= cx <= 4,
                iy < cy <= 4,
                cx == covered_x(site.strategy),
                cy == covered_y(site.strategy),
                site.x + cx <= usize::MAX,
                site.y + cy <= usize::MAX,
                g == region_of(*map, site, grid_view(*saved), rectangles),
                before == head + merged_candidates(g, iy as int),
                before.len() <= 16 + iy * 24,
                out@ == before + row_candidates(g, iy as int, ix as int),
                out@.len() <= 16 + iy * 24 + ix * 6,
            decreases cx - ix,
        {
            let ghost done = out@;
            push_block(&mut out, map, site, saved, rectangles, cx, cy, ix, iy);
            proof {
                lemma_block_candidates_len(g, ix as int, iy as int, 6);
                assert(out@ =~= before + row_candidates(g, iy as int, ix + 1));
            }
            ix += 1;
        }
        proof {
            assert(out@ =~= head + merged_candidates(g, iy + 1));
        }
        iy += 1;
    }
    out
}

/// What reconstruction says of a merge and its alternatives.
pub struct SiteScores<A> {
    /// The merge itself, and its seams.
    pub big: ReconCost<A>,
    pub seam: Seam<A>,
    /// One entry per candidate.
    pub tiles: Vec<ReconCost<A>>,
    /// One entry per block and mosaic candidate, where a mosaic is searched.
    pub fine: Vec<[ReconCost<A>; 3]>,
    /// One entry per mosaic assignment, where a mosaic is searched.
    pub fine_seams: Vec<Seam<A>>,
}

/// A mosaic is searched for a merge: it is a rectangular pair at the slow speed,
/// the distance or the hue loss calls for it, and there are seams to mend.
pub open spec fn mosaic_searched<A: Amount>(
    p: RerankParams<A>,
    strategy: u8,
    big: ReconCost<A>,
    seam: Seam<A>,
) -> bool {
    let near = p.distance.at_most_spec(A::ratio_spec(FINE_MOSAIC_MAX_DISTANCE, 1));
    &&& p.slow
    &&& near || p.coarse_chromatic
    &&& strategy == STRATEGY_DCT16X8 || strategy == STRATEGY_DCT8X16
    &&& near || hue_is_costly(big.hue_distortion, p.fine_lambda)
    &&& A::zero_spec().less_spec(seam.energy)
    &&& A::zero_spec().less_spec(seam.peak)
}

/// Tells whether a mosaic is searched for a merge.
pub fn searches_mosaic<A: Amount>(
    p: &RerankParams<A>,
    strategy: u8,
    big: &ReconCost<A>,
    seam: &Seam<A>,
) -> (r: bool)
    ensures
        r == mosaic_searched(*p, strategy, *big, *seam),
{
    let near: bool = p.distance.at_most(A::ratio(FINE_MOSAIC_MAX_DISTANCE, 1));
    p.slow && (near || p.coarse_chromatic) && (strategy == STRATEGY_DCT16X8 || strategy
        == STRATEGY_DCT8X16) && (near || coarse_mosaic_hue_is_costly(
        big.hue_distortion,
        p.fine_lambda,
    )) && A::zero().less(seam.energy) && A::zero().less(seam.peak)
}

/// The candidates with their decision costs.
pub open spec fn priced<A: Amount>(
    cands: Seq<TileCandidate>,
    costs: Seq<ReconCost<A>>,
) -> Seq<PartitionTile<A>> {
    Seq::new(
        cands.len(),
        |i: int|
            PartitionTile {
                x: cands[i].x,
                y: cands[i].y,
                width: cands[i].width,
                height: cands[i].height,
                cost: costs[i].cost,
            },
    )
}

/// The candidates with their costs at the price of the mosaic comparison.
pub open spec fn fine_priced<A: Amount>(
    p: RerankParams<A>,
    cands: Seq<TileCandidate>,
    costs: Seq<ReconCost<A>>,
) -> Seq<PartitionTile<A>> {
    Seq::new(
        cands.len(),
        |i: int|
            PartitionTile {
                x: cands[i].x,
                y: cands[i].y,
                width: cands[i].width,
                height: cands[i].height,
                cost: fine_rd(p, costs[i]),
            },
    )
}

/// Sum of the decision costs of the leading `n` candidates.
pub open spec fn plain_cost<A: Amount>(costs: Seq<ReconCost<A>>, n: int) -> A
    decreases n,
{
    if n <= 0 {
        A::zero_spec()
    } else {
        plain_cost(costs, n - 1).plus_spec(costs[n - 1].cost)
    }
}

/// The best subdivision of a merge.
pub open spec fn subdivision<A: Amount>(g: Region, tiles: Seq<PartitionTile<A>>) -> PlanValue<A> {
    best_plan(tiles, level_spec(g.cx), level_spec(g.cy), 0, 0)
}

/// What becomes of a merge.
pub enum Verdict {
    Keep,
    /// An 8x8 DCT per block.
    Plain,
    /// The best subdivision.
    Child,
    /// A mosaic, by its assignment.
    Mosaic(int),
}

/// Number of blocks of a region.
pub open spec fn block_count(g: Region) -> int {
    plain_tiles(g.cx, g.cy).len() as int
}

/// What a mosaic is held against.
pub open spec fn incumbents<A: Amount>(
    p: RerankParams<A>,
    g: Region,
    s: SiteScores<A>,
) -> MosaicIncumbents<A> {
    MosaicIncumbents {
        big: s.big,
        seam: s.seam,
        child: subdivision(g, fine_priced(p, candidates(g), s.tiles@)).cost,
    }
}

/// The verdict on a merge. A mosaic goes first; otherwise the cheaper of the best
/// subdivision and plain tiling must beat the merge by the margin.
pub open spec fn verdict<A: Amount>(
    p: RerankParams<A>,
    g: Region,
    strategy: u8,
    s: SiteScores<A>,
) -> Verdict {
    let plan = subdivision(g, priced(candidates(g), s.tiles@));
    let plain = plain_cost(s.tiles@, block_count(g));
    let child_wins = plan.cost.less_spec(plain);
    let alternative = if child_wins {
        plan.cost
    } else {
        plain
    };
    let mosaic = if mosaic_searched(p, strategy, s.big, s.seam) {
        winning_mosaic(p, s.fine@, s.fine_seams@, incumbents(p, g, s))
    } else {
        None
    };
    match mosaic {
        Some(code) => Verdict::Mosaic(code),
        None => if !alternative.less_spec(s.big.cost.times_spec(p.margin)) {
            Verdict::Keep
        } else if child_wins {
            Verdict::Child
        } else {
            Verdict::Plain
        },
    }
}

/// Number of the block at an offset, row by row.
pub open spec fn block_index(cx: int, ix: int, iy: int) -> int {
    if cx == 1 {
        iy
    } else if cx == 2 {
        iy * 2 + ix
    } else {
        iy * 4 + ix
    }
}

/// The offset of grid entry `i` lies in a region of `cx x cy` blocks.
pub open spec fn grid_inside(cx: int, cy: int, i: int) -> bool {
    i % 4 < cx && i / 4 < cy
}

/// The layout that replaces a merge, as a 4x4 grid of first blocks.
pub open spec fn restored<A: Amount>(
    p: RerankParams<A>,
    g: Region,
    s: SiteScores<A>,
    v: Verdict,
) -> Seq<u8> {
    match v {
        Verdict::Mosaic(code) => Seq::new(
            16,
            |i: int|
                if grid_inside(g.cx, g.cy, i) {
                    FINE_MOSAIC_CANDIDATES@[selection_of(code, s.fine@.len() as int)[block_index(
                        g.cx,
                        i % 4,
                        i / 4,
                    )] as int]
                } else {
                    STRATEGY_DCT
                },
        ),
        Verdict::Child => {
            let marks = subdivision(g, priced(candidates(g), s.tiles@)).tiles;
            Seq::new(
                16,
                |i: int|
                    if marks[i] != NO_CHILD_BLOCK {
                        candidates(g)[marks[i] as int].strategy
                    } else {
                        NO_CHILD_BLOCK
                    },
            )
        },
        _ => Seq::new(
            16,
            |i: int|
                if grid_inside(g.cx, g.cy, i) {
                    STRATEGY_DCT
                } else {
                    NO_CHILD_BLOCK
                },
        ),
    }
}

/// The cost of a first block, kept for the refinement of the quantizer; none where
/// what is known of it does not compare.
#[derive(Clone, Copy)]
pub struct CachedQuantCost<A> {
    pub bx: usize,
    pub by: usize,
    pub cost: Option<A>,
}

/// The costs of a subdivision's first blocks among the leading `n` grid entries.
pub open spec fn marked_costs<A>(
    g: Region,
    marks: Seq<u8>,
    costs: Seq<ReconCost<A>>,
    n: int,
) -> Seq<CachedQuantCost<A>>
    decreases n,
{
    if n <= 0 {
        Seq::empty()
    } else if marks[n - 1] != NO_CHILD_BLOCK {
        marked_costs(g, marks, costs, n - 1).push(
            CachedQuantCost {
                bx: (g.bx + (n - 1) % 4) as usize,
                by: (g.by + (n - 1) / 4) as usize,
                cost: costs[marks[n - 1] as int].base,
            },
        )
    } else {
        marked_costs(g, marks, costs, n - 1)
    }
}

/// The costs of the first blocks after the verdict.
pub open spec fn kept_costs<A: Amount>(
    p: RerankParams<A>,
    g: Region,
    s: SiteScores<A>,
    v: Verdict,
) -> Seq<CachedQuantCost<A>> {
    let cands = candidates(g);
    match v {
        Verdict::Keep => seq![
            CachedQuantCost { bx: g.bx as usize, by: g.by as usize, cost: s.big.base },
        ],
        Verdict::Plain => Seq::new(
            block_count(g) as nat,
            |k: int|
                CachedQuantCost {
                    bx: (g.bx + cands[k].x) as usize,
                    by: (g.by + cands[k].y) as usize,
                    cost: s.tiles@[k].base,
                },
        ),
        Verdict::Child => marked_costs(
            g,
            subdivision(g, priced(cands, s.tiles@)).tiles,
            s.tiles@,
            16,
        ),
        Verdict::Mosaic(code) => Seq::new(
            block_count(g) as nat,
            |k: int|
                CachedQuantCost {
                    bx: (g.bx + cands[k].x) as usize,
                    by: (g.by + cands[k].y) as usize,
                    cost: s.fine@[k]@[selection_of(code, s.fine@.len() as int)[k] as int].base,
                },
        ),
    }
}

/// The scores of a merge are complete.
pub open spec fn scores_complete<A: Amount>(
    p: RerankParams<A>,
    g: Region,
    strategy: u8,
    s: SiteScores<A>,
) -> bool {
    &&& s.tiles@.len() == candidates(g).len()
    &&& mosaic_searched(p, strategy, s.big, s.seam) ==> s.fine@.len() == block_count(g)
        && s.fine_seams@.len() == crate::mosaic::assignments(block_count(g))
}

/// What was decided on a merge.
pub struct SiteOutcome<A> {
    /// The layout to put down instead, if any.
    pub restore: Option<[u8; 16]>,
    /// The gain of a mosaic, where one was chosen.
    pub benefit: Option<A>,
    /// The costs of the first blocks that result.
    pub costs: Vec<CachedQuantCost<A>>,
}

/// The 8x8 DCTs of a region are numbered row by row.
pub(crate) proof fn lemma_plain_tiles(cx: int, n: int)
    requires
        cx == 1 || cx == 2 || cx == 4,
        0 <= n <= 4,
    ensures
        plain_tiles(cx, n).len() == block_index(cx, 0, n),
        forall|ix: int, iy: int|
            0 <= ix < cx && 0 <= iy < n ==> #[trigger] plain_tiles(cx, n)[block_index(cx, ix, iy)]
                == plain_tile(ix, iy),
        forall|k: int|
            0 <= k < plain_tiles(cx, n).len() ==> (#[trigger] plain_tiles(cx, n)[k]).x < cx
                && plain_tiles(cx, n)[k].y < n,
    decreases n,
{
    if n > 0 {
        lemma_plain_tiles(cx, n - 1);
        let head = plain_tiles(cx, n - 1);
        let all = plain_tiles(cx, n);
        assert forall|ix: int, iy: int| 0 <= ix < cx && 0 <= iy < n implies #[trigger] all[block_index(
            cx,
            ix,
            iy,
        )] == plain_tile(ix, iy) by {
            if iy < n - 1 {
                assert(head[block_index(cx, ix, iy)] == plain_tile(ix, iy));
                assert(block_index(cx, ix, iy) < head.len());
            }
        }
        assert forall|k: int| 0 <= k < all.len() implies (#[trigger] all[k]).x < cx && all[k].y
            < n by {
            if k < head.len() {
                assert(all[k] == head[k]);
            }
        }
    }
}

fn price_tiles<A: Amount>(
    p: &RerankParams<A>,
    cands: &Vec<TileCandidate>,
    costs: &Vec<ReconCost<A>>,
    fine: bool,
) -> (r: Vec<PartitionTile<A>>)
    requires
        costs@.len() == cands@.len(),
    ensures
        fine ==> r@ == fine_priced(*p, cands@, costs@),
        !fine ==> r@ == priced(cands@, costs@),
{
    let mut out: Vec<PartitionTile<A>> = Vec::new();
    let mut i: usize = 0;
    while i < cands.len()
        invariant
            i <= cands@.len(),
            costs@.len() == cands@.len(),
            out@.len() == i,
            forall|k: int|
                0 <= k < i ==> #[trigger] out@[k] == (if fine {
                    fine_priced(*p, cands@, costs@)[k]
                } else {
                    priced(cands@, costs@)[k]
                }),
        decreases cands@.len() - i,
    {
        let c: TileCandidate = cands[i];
        let cost: A = if fine {
            p.fine_lambda.fused(costs[i].rate.plus(p.meta_r), costs[i].distortion)
        } else {
            costs[i].cost
        };
        out.push(PartitionTile { x: c.x, y: c.y, width: c.width, height: c.height, cost });
        i += 1;
    }
    proof {
        if fine {
            assert(out@ =~= fine_priced(*p, cands@, costs@));
        } else {
            assert(out@ =~= priced(cands@, costs@));
        }
    }
    out
}

fn sum_plain<A: Amount>(costs: &Vec<ReconCost<A>>, n: usize) -> (r: A)
    requires
        n <= costs@.len(),
    ensures
        r == plain_cost(costs@, n as int),
{
    let mut sum: A = A::zero();
    let mut k: usize = 0;
    while k < n
        invariant
            k <= n <= costs@.len(),
            sum == plain_cost(costs@, k as int),
        decreases n - k,
    {
        sum = sum.plus(costs[k].cost);
        k += 1;
    }
    sum
}

fn index_of_block(cx: usize, ix: usize, iy: usize) -> (r: usize)
    requires
        ix < 4,
        iy < 4,
    ensures
        r == block_index(cx as int, ix as int, iy as int),
{
    if cx == 1 {
        iy
    } else if cx == 2 {
        iy * 2 + ix
    } else {
        iy * 4 + ix
    }
}

fn plain_outcome<A: Amount>(
    p: &RerankParams<A>,
    cx: usize,
    cy: usize,
    site: Placement,
    cands: &Vec<TileCandidate>,
    s: &SiteScores<A>,
    n: usize,
    Ghost(g): Ghost<Region>,
) -> (r: SiteOutcome<A>)
    requires
        cands@ == candidates(g),
        g.cx == cx,
        g.cy == cy,
        cx == 1 || cx == 2 || cx == 4,
        cy == 1 || cy == 2 || cy == 4,
        g.bx == site.x,
        g.by == site.y,
        site.x + cx <= usize::MAX,
        site.y + cy <= usize::MAX,
        n == block_count(g),
        s.tiles@.len() == cands@.len(),
    ensures
        r.restore is Some,
        r.restore->0@ == restored(*p, g, *s, Verdict::Plain),
        r.benefit is None,
        r.costs@ == kept_costs(*p, g, *s, Verdict::Plain),
{
    let mut grid: [u8; 16] = [NO_CHILD_BLOCK; 16];
    let mut i: usize = 0;
    while i < 16
        invariant
            i <= 16,
            cx == g.cx,
            cy == g.cy,
            forall|k: int|
                0 <= k < 16 ==> #[trigger] grid@[k] == (if k < i && grid_inside(g.cx, g.cy, k) {
                    STRATEGY_DCT
                } else {
                    NO_CHILD_BLOCK
                }),
        decreases 16 - i,
    {
        if i % 4 < cx && i / 4 < cy {
            grid[i] = STRATEGY_DCT;
        }
        i += 1;
    }
    assert(grid@ =~= restored(*p, g, *s, Verdict::Plain));
    proof {
        lemma_plain_tiles(g.cx, g.cy);
    }
    let mut costs: Vec<CachedQuantCost<A>> = Vec::new();
    let ghost want = kept_costs(*p, g, *s, Verdict::Plain);
    let mut k: usize = 0;
    while k < n
        invariant
            k <= n,
            n == block_count(g),
            n <= cands@.len(),
            s.tiles@.len() == cands@.len(),
            cands@ == candidates(g),
            g.bx == site.x,
            g.by == site.y,
            g.cx == cx,
            g.cy == cy,
            site.x + cx <= usize::MAX,
            site.y + cy <= usize::MAX,
            forall|j: int|
                0 <= j < n ==> (#[trigger] cands@[j]).x < cx && cands@[j].y < cy,
            want == kept_costs(*p, g, *s, Verdict::Plain),
            costs@.len() == k,
            forall|j: int| 0 <= j < k ==> #[trigger] costs@[j] == want[j],
        decreases n - k,
    {
        let c: TileCandidate = cands[k];
        assert(cands@[k as int].x < cx);
        costs.push(
            CachedQuantCost { bx: site.x + c.x, by: site.y + c.y, cost: s.tiles[k].base },
        );
        k += 1;
    }
    assert(costs@ =~= want);
    SiteOutcome { restore: Some(grid), benefit: None, costs }
}

fn mosaic_outcome<A: Amount>(
    p: &RerankParams<A>,
    cx: usize,
    cy: usize,
    site: Placement,
    cands: &Vec<TileCandidate>,
    s: &SiteScores<A>,
    n: usize,
    choice: MosaicChoice<A>,
    Ghost(g): Ghost<Region>,
    Ghost(code): Ghost<int>,
) -> (r: SiteOutcome<A>)
    requires
        cands@ == candidates(g),
        g.cx == cx,
        g.cy == cy,
        cx == 1 && cy == 2 || cx == 2 && cy == 1,
        g.bx == site.x,
        g.by == site.y,
        site.x + cx <= usize::MAX,
        site.y + cy <= usize::MAX,
        n == block_count(g),
        s.fine@.len() == n,
        0 <= code,
        choice.sel@ == selection_of(code, n as int),
    ensures
        r.restore is Some,
        r.restore->0@ == restored(*p, g, *s, Verdict::Mosaic(code)),
        r.benefit == Some(choice.benefit),
        r.costs@ == kept_costs(*p, g, *s, Verdict::Mosaic(code)),
{
    proof {
        lemma_plain_tiles(g.cx, g.cy);
        crate::mosaic::lemma_digits(code, 0);
        crate::mosaic::lemma_digits(code, 1);
    }
    let mut grid: [u8; 16] = [STRATEGY_DCT; 16];
    let ghost want = restored(*p, g, *s, Verdict::Mosaic(code));
    let mut i: usize = 0;
    while i < 16
        invariant
            i <= 16,
            cx == g.cx,
            cy == g.cy,
            cx == 1 && cy == 2 || cx == 2 && cy == 1,
            n == 2,
            s.fine@.len() == n,
            choice.sel@ == selection_of(code, n as int),
            0 <= digit(code, 0) < 3,
            0 <= digit(code, 1) < 3,
            want == restored(*p, g, *s, Verdict::Mosaic(code)),
            forall|k: int|
                0 <= k < 16 ==> #[trigger] grid@[k] == (if k < i {
                    want[k]
                } else {
                    STRATEGY_DCT
                }),
        decreases 16 - i,
    {
        if i % 4 < cx && i / 4 < cy {
            let at: usize = index_of_block(cx, i % 4, i / 4);
            let ci: usize = choice.sel[at] as usize;
            assert(ci < 3);
            grid[i] = FINE_MOSAIC_CANDIDATES[ci];
        }
        i += 1;
    }
    assert(grid@ =~= want);
    let mut costs: Vec<CachedQuantCost<A>> = Vec::new();
    let ghost wanted = kept_costs(*p, g, *s, Verdict::Mosaic(code));
    let mut k: usize = 0;
    while k < n
        invariant
            k <= n,
            n == 2,
            n == block_count(g),
            n <= cands@.len(),
            s.fine@.len() == n,
            cands@ == candidates(g),
            g.bx == site.x,
            g.by == site.y,
            g.cx == cx,
            g.cy == cy,
            site.x + cx <= usize::MAX,
            site.y + cy <= usize::MAX,
            choice.sel@ == selection_of(code, n as int),
            0 <= digit(code, 0) < 3,
            0 <= digit(code, 1) < 3,
            forall|j: int|
                0 <= j < n ==> (#[trigger] cands@[j]).x < cx && cands@[j].y < cy,
            wanted == kept_costs(*p, g, *s, Verdict::Mosaic(code)),
            costs@.len() == k,
            forall|j: int| 0 <= j < k ==> #[trigger] costs@[j] == wanted[j],
        decreases n - k,
    {
        let c: TileCandidate = cands[k];
        assert(cands@[k as int].x < cx);
        let ci: usize = choice.sel[k] as usize;
        let row: [ReconCost<A>; 3] = s.fine[k];
        costs.push(CachedQuantCost { bx: site.x + c.x, by: site.y + c.y, cost: row[ci].base });
        k += 1;
    }
    assert(costs@ =~= wanted);
    SiteOutcome { restore: Some(grid), benefit: Some(choice.benefit), costs }
}

fn child_outcome<A: Amount>(
    p: &RerankParams<A>,
    site: Placement,
    cands: &Vec<TileCandidate>,
    s: &SiteScores<A>,
    plan: &ReconstructionPlan<A>,
    Ghost(g): Ghost<Region>,
) -> (r: SiteOutcome<A>)
    requires
        cands@ == candidates(g),
        cands@.len() <= 255,
        g.bx == site.x,
        g.by == site.y,
        g.cx == 1 || g.cx == 2 || g.cx == 4,
        g.cy == 1 || g.cy == 2 || g.cy == 4,
        site.x + g.cx <= usize::MAX,
        site.y + g.cy <= usize::MAX,
        s.tiles@.len() == cands@.len(),
        plan@ == subdivision(g, priced(candidates(g), s.tiles@)),
    ensures
        r.restore is Some,
        r.restore->0@ == restored(*p, g, *s, Verdict::Child),
        r.benefit is None,
        r.costs@ == kept_costs(*p, g, *s, Verdict::Child),
{
    let ghost marks = plan.tiles@;
    proof {
        lemma_best_plan_named(
            priced(candidates(g), s.tiles@),
            level_spec(g.cx),
            level_spec(g.cy),
            0,
            0,
        );
    }
    let mut grid: [u8; 16] = [NO_CHILD_BLOCK; 16];
    let mut costs: Vec<CachedQuantCost<A>> = Vec::new();
    let ghost want = restored(*p, g, *s, Verdict::Child);
    let mut i: usize = 0;
    while i < 16
        invariant
            i <= 16,
            marks == plan.tiles@,
            marks == subdivision(g, priced(candidates(g), s.tiles@)).tiles,
            marks_named(priced(candidates(g), s.tiles@), marks, 0, 0, g.cx, g.cy),
            cands@ == candidates(g),
            s.tiles@.len() == cands@.len(),
            g.bx == site.x,
            g.by == site.y,
            site.x + g.cx <= usize::MAX,
            site.y + g.cy <= usize::MAX,
            want == restored(*p, g, *s, Verdict::Child),
            forall|k: int|
                0 <= k < 16 ==> #[trigger] grid@[k] == (if k < i {
                    want[k]
                } else {
                    NO_CHILD_BLOCK
                }),
            costs@ == marked_costs(g, marks, s.tiles@, i as int),
        decreases 16 - i,
    {
        let tile: u8 = plan.tiles[i];
        assert(marks[i as int] == tile);
        if tile != NO_CHILD_BLOCK {
            grid[i] = cands[tile as usize].strategy;
            costs.push(
                CachedQuantCost {
                    bx: site.x + i % 4,
                    by: site.y + i / 4,
                    cost: s.tiles[tile as usize].base,
                },
            );
        }
        i += 1;
    }
    assert(grid@ =~= want);
    SiteOutcome { restore: Some(grid), benefit: None, costs }
}

/// What a verdict leads to.
pub open spec fn outcome_is<A: Amount>(
    r: SiteOutcome<A>,
    p: RerankParams<A>,
    g: Region,
    s: SiteScores<A>,
    v: Verdict,
) -> bool {
    &&& r.costs@ == kept_costs(p, g, s, v)
    &&& r.restore is None <==> v is Keep
    &&& r.restore is Some ==> r.restore->0@ == restored(p, g, s, v)
    &&& r.benefit == (if v is Mosaic {
        Some(mosaic_benefit(p, s.fine@, s.fine_seams@, incumbents(p, g, s)))
    } else {
        None
    })
}

/// Decides whether a merge stays or what replaces it.
pub fn decide_site<A: Amount>(
    map: &AcStrategyImage,
    p: &RerankParams<A>,
    site: Placement,
    saved: &Option<[u8; 16]>,
    s: &SiteScores<A>,
) -> (r: SiteOutcome<A>)
    requires
        map.fits(site.x as int, site.y as int, site.strategy),
        !is_dct64_family(site.strategy),
        scores_complete(
            *p,
            region_of(*map, site, grid_view(*saved), p.rectangles),
            site.strategy,
            *s,
        ),
    ensures
        ({
            let g = region_of(*map, site, grid_view(*saved), p.rectangles);
            outcome_is(r, *p, g, *s, verdict(*p, g, site.strategy, *s))
        }),
{
    let ghost g = region_of(*map, site, grid_view(*saved), p.rectangles);
    let cx: usize = covered_blocks_x_of(site.strategy);
    let cy: usize = covered_blocks_y_of(site.strategy);
    let cands: Vec<TileCandidate> = list_candidates(map, site, saved, p.rectangles);
    proof {
        lemma_plain_tiles(cx as int, cy as int);
    }
    let n: usize = if cx == 1 {
        cy
    } else if cx == 2 {
        cy * 2
    } else {
        cy * 4
    };
    let tiles: Vec<PartitionTile<A>> = price_tiles(p, &cands, &s.tiles, false);
    let plan: ReconstructionPlan<A> = best_reconstruction_plan(tiles.as_slice(), cx, cy);
    let plain: A = sum_plain(&s.tiles, n);
    let child_wins: bool = plan.cost.less(plain);
    let alternative: A = if child_wins {
        plan.cost
    } else {
        plain
    };
    let ghost v = verdict(*p, g, site.strategy, *s);
    if searches_mosaic(p, site.strategy, &s.big, &s.seam) {
        let fine_tiles: Vec<PartitionTile<A>> = price_tiles(p, &cands, &s.tiles, true);
        let fine_plan: ReconstructionPlan<A> = best_reconstruction_plan(
            fine_tiles.as_slice(),
            cx,
            cy,
        );
        let m: MosaicIncumbents<A> = MosaicIncumbents {
            big: s.big,
            seam: s.seam,
            child: fine_plan.cost,
        };
        let won: Option<MosaicChoice<A>> = search_mosaic(p, &s.fine, &s.fine_seams, &m);
        if let Some(choice) = won {
            let ghost code = winning_mosaic(*p, s.fine@, s.fine_seams@, m)->0;
            proof {
                crate::mosaic::lemma_winning_code(*p, s.fine@, s.fine_seams@, m);
            }
            return mosaic_outcome(p, cx, cy, site, &cands, s, n, choice, Ghost(g), Ghost(code));
        }
    }
    if !alternative.less(s.big.cost.times(p.margin)) {
        let mut costs: Vec<CachedQuantCost<A>> = Vec::new();
        costs.push(CachedQuantCost { bx: site.x, by: site.y, cost: s.big.base });
        assert(costs@ =~= kept_costs(*p, g, *s, Verdict::Keep));
        SiteOutcome { restore: None, benefit: None, costs }
    } else if child_wins {
        child_outcome(p, site, &cands, s, &plan, Ghost(g))
    } else {
        plain_outcome(p, cx, cy, site, &cands, s, n, Ghost(g))
    }
}

} // verus!
