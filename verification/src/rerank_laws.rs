//! Reranking replaces merges of a tiling by tilings of their footprints.

use crate::amount::Amount;
use crate::mosaic::{
    lemma_digits, lemma_winning_code, selection_of, ReconCost, RerankParams,
    FINE_MOSAIC_CANDIDATES,
};
use crate::partition::{
    columns_proper, exact_cover, has_mark, law_best_plan_covers_exactly, lemma_best_plan_named,
    level_spec, marked, singles_offered,
};
use crate::rerank::{
    block_candidates, block_index, candidates, grid_inside, incumbents, kept_costs,
    lemma_block_candidates_len, lemma_plain_tiles, marked_costs, merged_candidates, plain_tiles,
    priced, restored, row_candidates, scores_complete, subdivision, verdict, Region, SiteScores,
    TileCandidate, Verdict,
};
use crate::rerank_band::{
    after_bands, after_downgrades, after_rerank, band_scores_complete, downgrade_fits,
    lemma_merges_of, merges_of, output_fits, reranked, restore_placements, site_downgrade,
    site_region, DowngradeView, RerankOutput,
};
use crate::strategy::{covered_x, covered_y, is_dct64_family, NO_CHILD_BLOCK};
use crate::strategy_map::{fits_in, in_footprint, in_window, AcStrategyImage, Layout, Placement};
use crate::super_block::SavedChild;
use crate::tiling::{
    apart, closed_window, covers, disjoint, in_bounds, in_union, law_cover_of_closed_window,
    place_all, placeable, tiled,
};
use vstd::prelude::*;

verus! {

/// Entry `i` of a downgrade's grid is a first block whose footprint holds the
/// block `(a, b)`.
pub open spec fn entry_holds(d: DowngradeView, i: int, a: int, b: int) -> bool {
    &&& 0 <= i < 16
    &&& grid_inside(d.cx, d.cy, i)
    &&& d.grid[i] != NO_CHILD_BLOCK
    &&& in_window(
        d.bx + i % 4,
        d.by + i / 4,
        covered_x(d.grid[i]),
        covered_y(d.grid[i]),
        a,
        b,
    )
}

/// Some entry's footprint holds the block `(a, b)`.
pub open spec fn entry_over(d: DowngradeView, a: int, b: int) -> bool {
    exists|i: int| #[trigger] entry_holds(d, i, a, b)
}

/// The entries of a downgrade's grid cover every block of its window exactly once
/// and none outside it.
pub open spec fn grid_covers(d: DowngradeView) -> bool {
    &&& d.grid.len() == 16
    &&& forall|a: int, b: int| #[trigger]
        entry_over(d, a, b) == in_window(d.bx, d.by, d.cx, d.cy, a, b)
    &&& forall|i: int, j: int, a: int, b: int| #[trigger]
        entry_holds(d, i, a, b) && #[trigger] entry_holds(d, j, a, b) ==> i == j
}

/// The placement of entry `i`.
pub open spec fn entry_placement(d: DowngradeView, i: int) -> Placement {
    Placement {
        x: (d.bx + i % 4) as usize,
        y: (d.by + i / 4) as usize,
        strategy: d.grid[i],
    }
}

/// A placement comes from one of the leading `n` entries.
pub open spec fn from_entry(d: DowngradeView, n: int, p: Placement) -> bool {
    exists|i: int|
        0 <= i < n && grid_inside(d.cx, d.cy, i) && d.grid[i] != NO_CHILD_BLOCK
            && #[trigger] entry_placement(d, i) == p
}

pub(crate) proof fn lemma_restore_placements(d: DowngradeView, w: int, h: int, n: int)
    requires
        grid_covers(d),
        downgrade_fits(d, w, h),
        w <= usize::MAX,
        h <= usize::MAX,
        0 <= n <= 16,
    ensures
        disjoint(restore_placements(d, n)),
        forall|k: int|
            0 <= k < restore_placements(d, n).len() ==> from_entry(
                d,
                n,
                #[trigger] restore_placements(d, n)[k],
            ),
        forall|i: int|
            0 <= i < n && grid_inside(d.cx, d.cy, i) && d.grid[i] != NO_CHILD_BLOCK
                ==> restore_placements(d, n).contains(#[trigger] entry_placement(d, i)),
    decreases n,
{
    if n > 0 {
        lemma_restore_placements(d, w, h, n - 1);
        let head = restore_placements(d, n - 1);
        let now = restore_placements(d, n);
        assert forall|k: int| 0 <= k < now.len() implies from_entry(d, n, #[trigger] now[k]) by {
            if k < head.len() {
                assert(from_entry(d, n - 1, head[k]));
                let i = choose|i: int|
                    0 <= i < n - 1 && grid_inside(d.cx, d.cy, i) && d.grid[i] != NO_CHILD_BLOCK
                        && #[trigger] entry_placement(d, i) == head[k];
                assert(entry_placement(d, i) == now[k]);
            } else {
                assert(entry_placement(d, n - 1) == now[k]);
            }
        }
        assert forall|i: int|
            0 <= i < n && grid_inside(d.cx, d.cy, i) && d.grid[i]
                != NO_CHILD_BLOCK implies now.contains(#[trigger] entry_placement(d, i)) by {
            if i < n - 1 {
                let k = choose|k: int| 0 <= k < head.len() && head[k] == entry_placement(d, i);
                assert(now[k] == entry_placement(d, i));
            } else {
                assert(now[now.len() - 1] == entry_placement(d, i));
            }
        }
        if now.len() > head.len() {
            assert forall|k: int, l: int, x: int, y: int|
                0 <= k < l < now.len() && #[trigger] in_footprint(now[k], x, y) implies !(
            #[trigger] in_footprint(now[l], x, y)) by {
                if l == now.len() - 1 && in_footprint(now[l], x, y) {
                    assert(from_entry(d, n - 1, head[k]));
                    let i = choose|i: int|
                        0 <= i < n - 1 && grid_inside(d.cx, d.cy, i) && d.grid[i]
                            != NO_CHILD_BLOCK && #[trigger] entry_placement(d, i) == head[k];
                    assert(fits_in(w, h, d.bx + i % 4, d.by + i / 4, d.grid[i]));
                    assert(fits_in(
                        w,
                        h,
                        d.bx + (n - 1) % 4,
                        d.by + (n - 1) / 4,
                        d.grid[n - 1],
                    ));
                    assert(entry_holds(d, i, x, y));
                    assert(entry_holds(d, n - 1, x, y));
                } else if l < now.len() - 1 {
                    assert(in_footprint(head[k], x, y));
                    assert(now[l] == head[l]);
                }
            }
        }
    }
}

/// A downgrade replaces exactly the footprint of a first block of the layout.
pub open spec fn replaces_merge(v: Layout, w: int, h: int, d: DowngradeView) -> bool {
    &&& in_bounds(w, h, d.bx, d.by)
    &&& v[d.by][d.bx].first
    &&& covered_x(v[d.by][d.bx].strategy) == d.cx
    &&& covered_y(v[d.by][d.bx].strategy) == d.cy
    &&& downgrade_fits(d, w, h)
    &&& grid_covers(d)
}

pub(crate) proof fn lemma_restore_union(d: DowngradeView, w: int, h: int)
    requires
        grid_covers(d),
        downgrade_fits(d, w, h),
        w <= usize::MAX,
        h <= usize::MAX,
    ensures
        disjoint(restore_placements(d, 16)),
        forall|i: int|
            0 <= i < restore_placements(d, 16).len() ==> placeable(
                #[trigger] restore_placements(d, 16)[i],
                w,
                h,
            ),
        forall|x: int, y: int| #[trigger]
            in_union(restore_placements(d, 16), x, y) == in_window(d.bx, d.by, d.cx, d.cy, x, y),
{
    lemma_restore_placements(d, w, h, 16);
    let ps = restore_placements(d, 16);
    assert forall|k: int| 0 <= k < ps.len() implies placeable(#[trigger] ps[k], w, h) by {
        assert(from_entry(d, 16, ps[k]));
        let i = choose|i: int|
            0 <= i < 16 && grid_inside(d.cx, d.cy, i) && d.grid[i] != NO_CHILD_BLOCK
                && #[trigger] entry_placement(d, i) == ps[k];
        assert(fits_in(w, h, d.bx + i % 4, d.by + i / 4, d.grid[i]));
    }
    assert forall|x: int, y: int| #[trigger] in_union(ps, x, y) == in_window(
        d.bx,
        d.by,
        d.cx,
        d.cy,
        x,
        y,
    ) by {
        assert(entry_over(d, x, y) == in_window(d.bx, d.by, d.cx, d.cy, x, y));
        if in_union(ps, x, y) {
            let k = choose|k: int| 0 <= k < ps.len() && #[trigger] in_footprint(ps[k], x, y);
            assert(from_entry(d, 16, ps[k]));
            let i = choose|i: int|
                0 <= i < 16 && grid_inside(d.cx, d.cy, i) && d.grid[i] != NO_CHILD_BLOCK
                    && #[trigger] entry_placement(d, i) == ps[k];
            assert(fits_in(w, h, d.bx + i % 4, d.by + i / 4, d.grid[i]));
            assert(entry_holds(d, i, x, y));
        }
        if entry_over(d, x, y) {
            let i = choose|i: int| #[trigger] entry_holds(d, i, x, y);
            assert(fits_in(w, h, d.bx + i % 4, d.by + i / 4, d.grid[i]));
            assert(ps.contains(entry_placement(d, i)));
            let k = choose|k: int| 0 <= k < ps.len() && ps[k] == entry_placement(d, i);
            assert(in_footprint(ps[k], x, y));
        }
    }
}

/// The footprint of the first block at `(fx, fy)` of `v` is a closed window of
/// `u`.
pub open spec fn footprint_closed(v: Layout, u: Layout, w: int, h: int, fx: int, fy: int) -> bool {
    closed_window(
        u,
        w,
        h,
        fx,
        fy,
        covered_x(v[fy][fx].strategy),
        covered_y(v[fy][fx].strategy),
    )
}

/// The footprints of the first blocks of `v` are closed windows of `u`.
pub open spec fn footprints_closed(v: Layout, u: Layout, w: int, h: int) -> bool {
    forall|fx: int, fy: int|
        in_bounds(w, h, fx, fy) && v[fy][fx].first ==> #[trigger] footprint_closed(
            v,
            u,
            w,
            h,
            fx,
            fy,
        )
}

pub(crate) proof fn lemma_own_footprints_closed(v: Layout, w: int, h: int)
    requires
        tiled(v, w, h),
    ensures
        footprints_closed(v, v, w, h),
{
    assert forall|fx: int, fy: int|
        in_bounds(w, h, fx, fy) && v[fy][fx].first implies #[trigger] footprint_closed(
        v,
        v,
        w,
        h,
        fx,
        fy,
    ) by {
        let cx = covered_x(v[fy][fx].strategy);
        let cy = covered_y(v[fy][fx].strategy);
        assert forall|gx: int, gy: int, x: int, y: int, a: int, b: int|
            in_bounds(w, h, gx, gy) && #[trigger] covers(v, gx, gy, x, y) && #[trigger] covers(
                v,
                gx,
                gy,
                a,
                b,
            ) && in_window(fx, fy, cx, cy, x, y) implies in_window(fx, fy, cx, cy, a, b) by {
            assert(covers(v, fx, fy, x, y));
            assert(gx == fx && gy == fy);
        }
    }
}

/// Footprints of different first blocks of a tiling have nothing in common.
pub(crate) proof fn lemma_footprints_apart(v: Layout, w: int, h: int, fx: int, fy: int, gx: int, gy: int)
    requires
        tiled(v, w, h),
        in_bounds(w, h, fx, fy),
        in_bounds(w, h, gx, gy),
        v[fy][fx].first,
        v[gy][gx].first,
        fx != gx || fy != gy,
    ensures
        apart(
            fx,
            fy,
            covered_x(v[fy][fx].strategy),
            covered_y(v[fy][fx].strategy),
            gx,
            gy,
            covered_x(v[gy][gx].strategy),
            covered_y(v[gy][gx].strategy),
        ),
{
    let x = if fx < gx {
        gx
    } else {
        fx
    };
    let y = if fy < gy {
        gy
    } else {
        fy
    };
    if covers(v, fx, fy, x, y) {
        assert(!covers(v, gx, gy, x, y));
    }
}

/// Strategies that cover exactly the footprint of a first block of `v`, put down
/// in `u`, keep the tiling and the footprints of `v` closed.
pub(crate) proof fn lemma_one_replacement(
    v: Layout,
    u: Layout,
    w: int,
    h: int,
    bx: int,
    by: int,
    ps: Seq<Placement>,
)
    requires
        tiled(v, w, h),
        tiled(u, w, h),
        footprints_closed(v, u, w, h),
        in_bounds(w, h, bx, by),
        v[by][bx].first,
        disjoint(ps),
        forall|i: int| 0 <= i < ps.len() ==> placeable(#[trigger] ps[i], w, h),
        forall|x: int, y: int| #[trigger]
            in_union(ps, x, y) == in_window(
                bx,
                by,
                covered_x(v[by][bx].strategy),
                covered_y(v[by][bx].strategy),
                x,
                y,
            ),
    ensures
        tiled(place_all(u, ps), w, h),
        footprints_closed(v, place_all(u, ps), w, h),
{
    let after = place_all(u, ps);
    let cx = covered_x(v[by][bx].strategy);
    let cy = covered_y(v[by][bx].strategy);
    assert(footprint_closed(v, u, w, h, bx, by));
    law_cover_of_closed_window(u, w, h, bx, by, cx, cy, ps);
    assert forall|fx: int, fy: int|
        in_bounds(w, h, fx, fy) && v[fy][fx].first implies #[trigger] footprint_closed(
        v,
        after,
        w,
        h,
        fx,
        fy,
    ) by {
        assert(footprint_closed(v, u, w, h, fx, fy));
        if fx != bx || fy != by {
            lemma_footprints_apart(v, w, h, fx, fy, bx, by);
        }
    }
}

proof fn lemma_one_downgrade(v: Layout, u: Layout, w: int, h: int, d: DowngradeView)
    requires
        tiled(v, w, h),
        tiled(u, w, h),
        footprints_closed(v, u, w, h),
        replaces_merge(v, w, h, d),
        w <= usize::MAX,
        h <= usize::MAX,
    ensures
        tiled(place_all(u, restore_placements(d, 16)), w, h),
        footprints_closed(v, place_all(u, restore_placements(d, 16)), w, h),
{
    lemma_restore_union(d, w, h);
    lemma_one_replacement(v, u, w, h, d.bx, d.by, restore_placements(d, 16));
}

proof fn lemma_downgrades(
    v: Layout,
    u: Layout,
    w: int,
    h: int,
    ds: Seq<DowngradeView>,
    n: int,
)
    requires
        tiled(v, w, h),
        tiled(u, w, h),
        footprints_closed(v, u, w, h),
        w <= usize::MAX,
        h <= usize::MAX,
        0 <= n <= ds.len(),
        forall|k: int| 0 <= k < ds.len() ==> replaces_merge(v, w, h, #[trigger] ds[k]),
    ensures
        tiled(after_downgrades(u, ds, n), w, h),
        footprints_closed(v, after_downgrades(u, ds, n), w, h),
    decreases n,
{
    if n > 0 {
        lemma_downgrades(v, u, w, h, ds, n - 1);
        assert(replaces_merge(v, w, h, ds[n - 1]));
        lemma_one_downgrade(v, after_downgrades(u, ds, n - 1), w, h, ds[n - 1]);
    }
}

proof fn lemma_bands_of_downgrades<A>(
    v: Layout,
    w: int,
    h: int,
    outs: Seq<RerankOutput<A>>,
    n: int,
)
    requires
        tiled(v, w, h),
        w <= usize::MAX,
        h <= usize::MAX,
        0 <= n <= outs.len(),
        forall|i: int, k: int|
            0 <= i < outs.len() && 0 <= k < outs[i]@.downgrades.len() ==> replaces_merge(
                v,
                w,
                h,
                #[trigger] outs[i]@.downgrades[k],
            ),
    ensures
        tiled(after_bands(v, outs, n), w, h),
        footprints_closed(v, after_bands(v, outs, n), w, h),
    decreases n,
{
    if n > 0 {
        lemma_bands_of_downgrades(v, w, h, outs, n - 1);
        let ds = outs[n - 1]@.downgrades;
        assert forall|k: int| 0 <= k < ds.len() implies replaces_merge(
            v,
            w,
            h,
            #[trigger] ds[k],
        ) by {
            assert(replaces_merge(v, w, h, outs[n - 1]@.downgrades[k]));
        }
        lemma_downgrades(v, after_bands(v, outs, n - 1), w, h, ds, ds.len() as int);
    } else {
        lemma_own_footprints_closed(v, w, h);
    }
}

/// Replacing merges of a tiling by tilings of their footprints, band after band,
/// leaves a tiling.
pub proof fn law_downgrades_keep_tiling<A>(v: Layout, w: int, h: int, outs: Seq<RerankOutput<A>>)
    requires
        tiled(v, w, h),
        w <= usize::MAX,
        h <= usize::MAX,
        forall|i: int, k: int|
            0 <= i < outs.len() && 0 <= k < outs[i]@.downgrades.len() ==> replaces_merge(
                v,
                w,
                h,
                #[trigger] outs[i]@.downgrades[k],
            ),
    ensures
        tiled(after_bands(v, outs, outs.len() as int), w, h),
{
    lemma_bands_of_downgrades(v, w, h, outs, outs.len() as int);
}

/// A candidate names a strategy and has its size.
pub open spec fn sized(c: TileCandidate) -> bool {
    &&& c.strategy != NO_CHILD_BLOCK
    &&& c.width == covered_x(c.strategy)
    &&& c.height == covered_y(c.strategy)
}

proof fn lemma_block_sized(g: Region, ix: int, iy: int, n: int)
    ensures
        forall|k: int|
            0 <= k < block_candidates(g, ix, iy, n).len() ==> sized(
                #[trigger] block_candidates(g, ix, iy, n)[k],
            ),
    decreases n,
{
    if n > 0 {
        lemma_block_sized(g, ix, iy, n - 1);
        let head = block_candidates(g, ix, iy, n - 1);
        let now = block_candidates(g, ix, iy, n);
        assert forall|k: int| 0 <= k < now.len() implies sized(#[trigger] now[k]) by {
            if k < head.len() {
                assert(now[k] == head[k]);
            }
        }
    }
}

proof fn lemma_row_sized(g: Region, iy: int, n: int)
    ensures
        forall|k: int|
            0 <= k < row_candidates(g, iy, n).len() ==> sized(
                #[trigger] row_candidates(g, iy, n)[k],
            ),
    decreases n,
{
    if n > 0 {
        lemma_row_sized(g, iy, n - 1);
        lemma_block_sized(g, n - 1, iy, 6);
        let head = row_candidates(g, iy, n - 1);
        let last = block_candidates(g, n - 1, iy, 6);
        let now = row_candidates(g, iy, n);
        assert forall|k: int| 0 <= k < now.len() implies sized(#[trigger] now[k]) by {
            if k < head.len() {
                assert(now[k] == head[k]);
            } else {
                assert(now[k] == last[k - head.len()]);
            }
        }
    }
}

proof fn lemma_merged_sized(g: Region, n: int)
    ensures
        forall|k: int|
            0 <= k < merged_candidates(g, n).len() ==> sized(#[trigger] merged_candidates(g, n)[k]),
    decreases n,
{
    if n > 0 {
        lemma_merged_sized(g, n - 1);
        lemma_row_sized(g, n - 1, g.cx);
        let head = merged_candidates(g, n - 1);
        let last = row_candidates(g, n - 1, g.cx);
        let now = merged_candidates(g, n);
        assert forall|k: int| 0 <= k < now.len() implies sized(#[trigger] now[k]) by {
            if k < head.len() {
                assert(now[k] == head[k]);
            } else {
                assert(now[k] == last[k - head.len()]);
            }
        }
    }
}

proof fn lemma_plain_sized(cx: int, n: int)
    ensures
        forall|k: int|
            0 <= k < plain_tiles(cx, n).len() ==> sized(#[trigger] plain_tiles(cx, n)[k]),
    decreases n,
{
    if n > 0 {
        lemma_plain_sized(cx, n - 1);
        let head = plain_tiles(cx, n - 1);
        let now = plain_tiles(cx, n);
        assert forall|k: int| 0 <= k < now.len() implies sized(#[trigger] now[k]) by {
            if k < head.len() {
                assert(now[k] == head[k]);
            }
        }
    }
}

/// Every candidate of a region names a strategy and has its size.
pub proof fn lemma_candidates_sized(g: Region)
    ensures
        forall|k: int| 0 <= k < candidates(g).len() ==> sized(#[trigger] candidates(g)[k]),
{
    lemma_plain_sized(g.cx, g.cy);
    lemma_merged_sized(g, g.cy);
    let head = plain_tiles(g.cx, g.cy);
    let tail = merged_candidates(g, g.cy);
    assert forall|k: int| 0 <= k < candidates(g).len() implies sized(
        #[trigger] candidates(g)[k],
    ) by {
        if k < head.len() {
            assert(candidates(g)[k] == head[k]);
        } else {
            assert(candidates(g)[k] == tail[k - head.len()]);
        }
    }
}

/// The region of a merge: its sides are powers of two up to four blocks, and it
/// lies in the group.
pub open spec fn region_wf(g: Region) -> bool {
    &&& g.cx == 1 || g.cx == 2 || g.cx == 4
    &&& g.cy == 1 || g.cy == 2 || g.cy == 4
    &&& 0 <= g.bx
    &&& g.bx + g.cx <= g.w <= usize::MAX
    &&& 0 <= g.by
    &&& g.by + g.cy <= g.h <= usize::MAX
}

/// Costs that reranking can work with: every 8x8 DCT has a proper cost, and sums
/// over the columns of the best subdivision stay proper.
pub open spec fn costs_proper<A: Amount>(g: Region, s: SiteScores<A>) -> bool {
    let tiles = priced(candidates(g), s.tiles@);
    singles_offered(tiles, 0, 0, g.cx, g.cy) && columns_proper(tiles, 0, 0, g.cx, g.cy)
}

/// The downgrade that a verdict leads to.
pub open spec fn region_downgrade<A: Amount>(
    p: RerankParams<A>,
    g: Region,
    s: SiteScores<A>,
    v: Verdict,
) -> DowngradeView {
    DowngradeView { bx: g.bx, by: g.by, cx: g.cx, cy: g.cy, grid: restored(p, g, s, v) }
}

/// A grid of single blocks covers its window.
proof fn lemma_single_grid_covers(d: DowngradeView)
    requires
        d.grid.len() == 16,
        d.cx == 1 || d.cx == 2 || d.cx == 4,
        d.cy == 1 || d.cy == 2 || d.cy == 4,
        forall|i: int|
            0 <= i < 16 && grid_inside(d.cx, d.cy, i) ==> #[trigger] d.grid[i] != NO_CHILD_BLOCK
                && covered_x(d.grid[i]) == 1 && covered_y(d.grid[i]) == 1,
    ensures
        grid_covers(d),
{
    assert forall|a: int, b: int| #[trigger] entry_over(d, a, b) == in_window(
        d.bx,
        d.by,
        d.cx,
        d.cy,
        a,
        b,
    ) by {
        if in_window(d.bx, d.by, d.cx, d.cy, a, b) {
            let i = (b - d.by) * 4 + (a - d.bx);
            assert(d.grid[i] != NO_CHILD_BLOCK);
            assert(entry_holds(d, i, a, b));
        }
        if entry_over(d, a, b) {
            let i = choose|i: int| #[trigger] entry_holds(d, i, a, b);
            assert(covered_x(d.grid[i]) == 1);
        }
    }
    assert forall|i: int, j: int, a: int, b: int| #[trigger]
        entry_holds(d, i, a, b) && #[trigger] entry_holds(d, j, a, b) implies i == j by {
        assert(covered_x(d.grid[i]) == 1 && covered_x(d.grid[j]) == 1);
    }
}

proof fn lemma_mosaic_entries(code: int, n: int, k: int)
    requires
        0 <= code,
        0 <= k < n <= 4,
    ensures
        ({
            let s = FINE_MOSAIC_CANDIDATES@[selection_of(code, n)[k] as int];
            s != NO_CHILD_BLOCK && covered_x(s) == 1 && covered_y(s) == 1
        }),
{
    lemma_digits(code, k);
    let c = selection_of(code, n)[k] as int;
    assert(c == 0 || c == 1 || c == 2);
}

/// What replaces a merge lies in the group.
pub proof fn law_replacement_fits<A: Amount>(
    p: RerankParams<A>,
    g: Region,
    strategy: u8,
    s: SiteScores<A>,
)
    requires
        region_wf(g),
        covered_x(strategy) == g.cx,
        covered_y(strategy) == g.cy,
        scores_complete(p, g, strategy, s),
        candidates(g).len() <= 255,
    ensures
        downgrade_fits(region_downgrade(p, g, s, verdict(p, g, strategy, s)), g.w, g.h),
{
    let v = verdict(p, g, strategy, s);
    let d = region_downgrade(p, g, s, v);
    lemma_plain_tiles(g.cx, g.cy);
    if v is Mosaic {
        lemma_winning_code(p, s.fine@, s.fine_seams@, incumbents(p, g, s));
        let code = v->Mosaic_0;
        assert forall|i: int|
            0 <= i < 16 && grid_inside(d.cx, d.cy, i) && #[trigger] d.grid[i]
                != NO_CHILD_BLOCK implies fits_in(
            g.w,
            g.h,
            d.bx + i % 4,
            d.by + i / 4,
            d.grid[i],
        ) by {
            lemma_mosaic_entries(code, s.fine@.len() as int, block_index(g.cx, i % 4, i / 4));
        }
    } else if v is Child {
        let tiles = priced(candidates(g), s.tiles@);
        lemma_best_plan_named(tiles, level_spec(g.cx), level_spec(g.cy), 0, 0);
        lemma_candidates_sized(g);
        let marks = subdivision(g, tiles).tiles;
        assert forall|i: int|
            0 <= i < 16 && grid_inside(d.cx, d.cy, i) && #[trigger] d.grid[i]
                != NO_CHILD_BLOCK implies fits_in(
            g.w,
            g.h,
            d.bx + i % 4,
            d.by + i / 4,
            d.grid[i],
        ) by {
            assert(marks[i] != NO_CHILD_BLOCK);
            let c = candidates(g)[marks[i] as int];
            assert(sized(c));
            assert(tiles[marks[i] as int].width == c.width);
        }
    }
}

/// What replaces a merge covers every block of its footprint exactly once.
pub proof fn law_replacement_covers<A: Amount>(
    p: RerankParams<A>,
    g: Region,
    strategy: u8,
    s: SiteScores<A>,
)
    requires
        region_wf(g),
        covered_x(strategy) == g.cx,
        covered_y(strategy) == g.cy,
        scores_complete(p, g, strategy, s),
        candidates(g).len() <= 255,
        costs_proper(g, s),
    ensures
        grid_covers(region_downgrade(p, g, s, verdict(p, g, strategy, s))),
{
    let v = verdict(p, g, strategy, s);
    let d = region_downgrade(p, g, s, v);
    lemma_plain_tiles(g.cx, g.cy);
    if v is Mosaic {
        lemma_winning_code(p, s.fine@, s.fine_seams@, incumbents(p, g, s));
        let code = v->Mosaic_0;
        assert forall|i: int|
            0 <= i < 16 && grid_inside(d.cx, d.cy, i) implies #[trigger] d.grid[i]
            != NO_CHILD_BLOCK && covered_x(d.grid[i]) == 1 && covered_y(d.grid[i]) == 1 by {
            lemma_mosaic_entries(code, s.fine@.len() as int, block_index(g.cx, i % 4, i / 4));
        }
        lemma_single_grid_covers(d);
    } else if v is Child {
        lemma_child_covers(p, g, s);
    } else {
        lemma_single_grid_covers(d);
    }
}

proof fn lemma_child_covers<A: Amount>(p: RerankParams<A>, g: Region, s: SiteScores<A>)
    requires
        region_wf(g),
        s.tiles@.len() == candidates(g).len(),
        candidates(g).len() <= 255,
        costs_proper(g, s),
    ensures
        grid_covers(region_downgrade(p, g, s, Verdict::Child)),
{
    let d = region_downgrade(p, g, s, Verdict::Child);
    let tiles = priced(candidates(g), s.tiles@);
    let marks = subdivision(g, tiles).tiles;
    law_best_plan_covers_exactly(tiles, level_spec(g.cx), level_spec(g.cy), 0, 0);
    lemma_best_plan_named(tiles, level_spec(g.cx), level_spec(g.cy), 0, 0);
    lemma_candidates_sized(g);
    assert(exact_cover(tiles, marks, 0, 0, g.cx, g.cy));
    assert forall|i: int, a: int, b: int| #[trigger] entry_holds(d, i, a, b) implies marked(
        tiles,
        marks,
        i,
        a - g.bx,
        b - g.by,
    ) by {
        assert(marks[i] != NO_CHILD_BLOCK);
        assert(sized(candidates(g)[marks[i] as int]));
    }
    assert forall|a: int, b: int| #[trigger] entry_over(d, a, b) == in_window(
        d.bx,
        d.by,
        d.cx,
        d.cy,
        a,
        b,
    ) by {
        if in_window(d.bx, d.by, d.cx, d.cy, a, b) {
            assert(has_mark(tiles, marks, a - g.bx, b - g.by));
            let i = choose|i: int| #[trigger] marked(tiles, marks, i, a - g.bx, b - g.by);
            assert(marks[i] != NO_CHILD_BLOCK);
            let c = candidates(g)[marks[i] as int];
            assert(sized(c));
            assert(entry_holds(d, i, a, b));
        }
        if entry_over(d, a, b) {
            let i = choose|i: int| #[trigger] entry_holds(d, i, a, b);
            assert(marked(tiles, marks, i, a - g.bx, b - g.by));
        }
    }
    assert forall|i: int, j: int, a: int, b: int| #[trigger]
        entry_holds(d, i, a, b) && #[trigger] entry_holds(d, j, a, b) implies i == j by {
        assert(marked(tiles, marks, i, a - g.bx, b - g.by));
        assert(marked(tiles, marks, j, a - g.bx, b - g.by));
    }
}

/// The costs kept for a merge lie in its footprint.
proof fn lemma_kept_costs_inside<A: Amount>(
    p: RerankParams<A>,
    g: Region,
    strategy: u8,
    s: SiteScores<A>,
)
    requires
        region_wf(g),
        s.tiles@.len() == candidates(g).len(),
        candidates(g).len() <= 255,
    ensures
        ({
            let costs = kept_costs(p, g, s, verdict(p, g, strategy, s));
            forall|k: int|
                0 <= k < costs.len() ==> (#[trigger] costs[k]).bx < g.w && costs[k].by < g.h
        }),
{
    let v = verdict(p, g, strategy, s);
    let costs = kept_costs(p, g, s, v);
    lemma_plain_tiles(g.cx, g.cy);
    let plain = plain_tiles(g.cx, g.cy);
    assert forall|k: int| 0 <= k < plain.len() implies (#[trigger] candidates(g)[k]).x < g.cx
        && candidates(g)[k].y < g.cy by {
        assert(candidates(g)[k] == plain[k]);
    }
    if v is Child {
        let tiles = priced(candidates(g), s.tiles@);
        lemma_best_plan_named(tiles, level_spec(g.cx), level_spec(g.cy), 0, 0);
        lemma_marked_costs_inside(g, subdivision(g, tiles).tiles, s.tiles@, 16);
    } else if v !is Keep {
        assert forall|k: int| 0 <= k < costs.len() implies (#[trigger] costs[k]).bx < g.w
            && costs[k].by < g.h by {
            assert(candidates(g)[k].x < g.cx);
        }
    }
}

proof fn lemma_marked_costs_inside<A>(
    g: Region,
    marks: Seq<u8>,
    costs: Seq<ReconCost<A>>,
    n: int,
)
    requires
        region_wf(g),
        0 <= n <= 16,
        forall|i: int|
            0 <= i < 16 && #[trigger] marks[i] != NO_CHILD_BLOCK ==> in_window(
                0,
                0,
                g.cx,
                g.cy,
                i % 4,
                i / 4,
            ),
    ensures
        forall|k: int|
            0 <= k < marked_costs(g, marks, costs, n).len() ==> (#[trigger] marked_costs(
                g,
                marks,
                costs,
                n,
            )[k]).bx < g.w && marked_costs(g, marks, costs, n)[k].by < g.h,
    decreases n,
{
    if n > 0 {
        lemma_marked_costs_inside(g, marks, costs, n - 1);
        let head = marked_costs(g, marks, costs, n - 1);
        let now = marked_costs(g, marks, costs, n);
        assert forall|k: int| 0 <= k < now.len() implies (#[trigger] now[k]).bx < g.w && now[k].by
            < g.h by {
            if k < head.len() {
                assert(now[k] == head[k]);
            } else {
                assert(marks[n - 1] != NO_CHILD_BLOCK);
            }
        }
    }
}

/// The number of candidates is small.
proof fn lemma_candidates_few(g: Region)
    requires
        region_wf(g),
    ensures
        candidates(g).len() <= 112,
{
    lemma_plain_tiles(g.cx, g.cy);
    lemma_merged_len(g, g.cy);
}

proof fn lemma_merged_len(g: Region, n: int)
    requires
        region_wf(g),
        0 <= n,
    ensures
        merged_candidates(g, n).len() <= 24 * n,
    decreases n,
{
    if n > 0 {
        lemma_merged_len(g, n - 1);
        lemma_row_len(g, n - 1, g.cx);
    }
}

proof fn lemma_row_len(g: Region, iy: int, n: int)
    requires
        0 <= n,
    ensures
        row_candidates(g, iy, n).len() <= 6 * n,
    decreases n,
{
    if n > 0 {
        lemma_row_len(g, iy, n - 1);
        lemma_block_candidates_len(g, n - 1, iy, 6);
    }
}

/// A merge of a tiling that a band reranks is a region, and what the band decides
/// on it fits.
proof fn lemma_site_region<A: Amount>(
    map: AcStrategyImage,
    p: RerankParams<A>,
    saved: Seq<SavedChild>,
    site: Placement,
)
    requires
        map.wf(),
        fits_in(
            map.width() as int,
            map.height() as int,
            site.x as int,
            site.y as int,
            site.strategy,
        ),
        !is_dct64_family(site.strategy),
    ensures
        region_wf(site_region(map, p, saved, site)),
{
}

/// What reranking a band of a tiling produces lies within the map.
pub proof fn law_rerank_output_fits<A: Amount>(
    map: AcStrategyImage,
    p: RerankParams<A>,
    saved: Seq<SavedChild>,
    y0: int,
    y1: int,
    scores: Seq<SiteScores<A>>,
    n: int,
)
    requires
        map.wf(),
        tiled(map@, map.width() as int, map.height() as int),
        band_scores_complete(map, p, saved, merges_of(map@, y0, y1), scores),
        0 <= n <= scores.len(),
    ensures
        output_fits(
            after_rerank(map, p, saved, merges_of(map@, y0, y1), scores, n),
            map.width() as int,
            map.height() as int,
        ),
    decreases n,
{
    if n > 0 {
        let w = map.width() as int;
        let h = map.height() as int;
        law_rerank_output_fits(map, p, saved, y0, y1, scores, n - 1);
        lemma_merges_of(map@, w, h, y0, y1);
        let sites = merges_of(map@, y0, y1);
        let site = sites[n - 1];
        let s = scores[n - 1];
        let g = site_region(map, p, saved, site);
        assert(reranked(sites[n - 1], y0, y1));
        lemma_site_region(map, p, saved, site);
        lemma_candidates_few(g);
        assert(scores_complete(p, g, site.strategy, s));
        law_replacement_fits(p, g, site.strategy, s);
        lemma_kept_costs_inside(p, g, site.strategy, s);
        let head = after_rerank(map, p, saved, sites, scores, n - 1);
        let now = after_rerank(map, p, saved, sites, scores, n);
        let costs = kept_costs(p, g, s, verdict(p, g, site.strategy, s));
        assert forall|i: int| 0 <= i < now.costs.len() implies (#[trigger] now.costs[i]).bx < w
            && now.costs[i].by < h by {
            if i < head.costs.len() {
                assert(now.costs[i] == head.costs[i]);
            } else {
                assert(now.costs[i] == costs[i - head.costs.len()]);
            }
        }
        assert forall|i: int| 0 <= i < now.downgrades.len() implies downgrade_fits(
            #[trigger] now.downgrades[i],
            w,
            h,
        ) by {
            if i < head.downgrades.len() {
                assert(now.downgrades[i] == head.downgrades[i]);
            }
        }
    }
}

/// Every downgrade that reranking a band of a tiling produces replaces exactly
/// the footprint of a first block.
pub proof fn law_rerank_replaces_merges<A: Amount>(
    map: AcStrategyImage,
    p: RerankParams<A>,
    saved: Seq<SavedChild>,
    y0: int,
    y1: int,
    scores: Seq<SiteScores<A>>,
    n: int,
)
    requires
        map.wf(),
        tiled(map@, map.width() as int, map.height() as int),
        band_scores_complete(map, p, saved, merges_of(map@, y0, y1), scores),
        forall|i: int|
            0 <= i < scores.len() ==> costs_proper(
                site_region(map, p, saved, #[trigger] merges_of(map@, y0, y1)[i]),
                scores[i],
            ),
        0 <= n <= scores.len(),
    ensures
        ({
            let out = after_rerank(map, p, saved, merges_of(map@, y0, y1), scores, n);
            forall|k: int|
                0 <= k < out.downgrades.len() ==> replaces_merge(
                    map@,
                    map.width() as int,
                    map.height() as int,
                    #[trigger] out.downgrades[k],
                )
        }),
    decreases n,
{
    if n > 0 {
        let w = map.width() as int;
        let h = map.height() as int;
        law_rerank_replaces_merges(map, p, saved, y0, y1, scores, n - 1);
        lemma_merges_of(map@, w, h, y0, y1);
        let sites = merges_of(map@, y0, y1);
        let site = sites[n - 1];
        let s = scores[n - 1];
        let g = site_region(map, p, saved, site);
        assert(reranked(sites[n - 1], y0, y1));
        lemma_site_region(map, p, saved, site);
        lemma_candidates_few(g);
        assert(scores_complete(p, g, site.strategy, s));
        assert(costs_proper(site_region(map, p, saved, sites[n - 1]), scores[n - 1]));
        law_replacement_fits(p, g, site.strategy, s);
        law_replacement_covers(p, g, site.strategy, s);
        let head = after_rerank(map, p, saved, sites, scores, n - 1);
        let now = after_rerank(map, p, saved, sites, scores, n);
        assert forall|k: int| 0 <= k < now.downgrades.len() implies replaces_merge(
            map@,
            w,
            h,
            #[trigger] now.downgrades[k],
        ) by {
            if k < head.downgrades.len() {
                assert(now.downgrades[k] == head.downgrades[k]);
            } else {
                assert(now.downgrades[k] == site_downgrade(map, p, saved, site, s));
            }
        }
    }
}

} // verus!
