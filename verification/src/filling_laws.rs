//! What the stages of filling a group hand on to one another.

use crate::amount::Amount;
use crate::bands::{band_sites, is_four_row, next_row, row_sites, Site};
use crate::fill::{plain_blocks, plain_blocks_of};
use crate::fill_laws::single_at;
use crate::leaf_first::{
    after_leaf_sites, leaf_region_step, leaves_at, plan_shortlist, region_shortlist, LeafChoice,
};
use crate::mosaic::RerankParams;
use crate::rerank::{grid_inside, SiteScores};
use crate::rerank_band::{
    after_downgrades, after_rerank, lemma_firsts, lemma_row_firsts, merges_in, merges_of, restore_placements,
    site_downgrade, DowngradeView, RerankState,
};
use crate::rerank_laws::{
    entry_placement, lemma_footprints_apart, lemma_restore_placements, lemma_restore_union,
    replaces_merge,
};
use crate::selection::{
    after_sites, commit32, region_step, super_step, BandState, SelectionParams, SiteCosts,
};
use crate::strategy::STRATEGY_DCT;
use crate::strategy_map::{
    firsts, firsts_in_row, fits_in, in_footprint, in_window, AcStrategyImage, Layout, Placement,
};
use crate::super_block::{merge16_sites_spec, shortlisted, SavedChild, SuperBlockCosts};
use crate::tiling::{in_bounds, in_union, lemma_place_all_at, place_all, shaped, tiled};
use crate::upgrade_laws::aligned_site;
use vstd::prelude::*;

verus! {

/// Every site begins at an even block.
pub open spec fn sites_even(sites: Seq<Site>) -> bool {
    forall|i: int|
        0 <= i < sites.len() ==> (#[trigger] sites[i]).bx % 2 == 0 && sites[i].by % 2 == 0
            && sites[i].bx + 3 <= usize::MAX && sites[i].by + 3 <= usize::MAX
}

proof fn lemma_row_even(w: int, h: int, by: int, bx: int)
    requires
        0 <= bx,
        bx % 2 == 0,
        0 <= by,
        by % 2 == 0,
        by + 4 <= usize::MAX,
        w + 4 <= usize::MAX,
    ensures
        sites_even(row_sites(w, h, by, bx)),
    decreases
            (if bx < w {
                w - bx
            } else {
                0
            }),
{
    let all = row_sites(w, h, by, bx);
    if bx + 1 < w {
        let (k, next) = if is_four_row(h, by) && bx % 4 == 0 && bx + 4 <= w {
            (1int, bx + 4)
        } else if is_four_row(h, by) {
            (2int, bx + 2)
        } else {
            (1int, bx + 2)
        };
        let rest = row_sites(w, h, by, next);
        lemma_row_even(w, h, by, next);
        assert forall|i: int| 0 <= i < all.len() implies (#[trigger] all[i]).bx % 2 == 0
            && all[i].by % 2 == 0 && all[i].bx + 3 <= usize::MAX && all[i].by + 3 <= usize::MAX by {
            if i >= k {
                assert(all[i] == rest[i - k]);
            }
        }
    }
}

/// The sites of a group begin at even blocks.
pub(crate) proof fn lemma_sites_even(w: int, h: int, by: int, y_end: int)
    requires
        0 <= by,
        by % 2 == 0,
        w + 4 <= usize::MAX,
        h + 4 <= usize::MAX,
    ensures
        sites_even(band_sites(w, h, by, y_end)),
    decreases
            (if by < y_end {
                y_end - by
            } else {
                0
            }),
{
    if by + 1 < h && by < y_end {
        let next = next_row(h, by);
        let row = row_sites(w, h, by, 0);
        let rest = band_sites(w, h, next, y_end);
        let all = band_sites(w, h, by, y_end);
        lemma_row_even(w, h, by, 0);
        lemma_sites_even(w, h, next, y_end);
        assert forall|i: int| 0 <= i < all.len() implies (#[trigger] all[i]).bx % 2 == 0
            && all[i].by % 2 == 0 && all[i].bx + 3 <= usize::MAX && all[i].by + 3 <= usize::MAX by {
            if i < row.len() {
                assert(all[i] == row[i]);
            } else {
                assert(all[i] == rest[i - row.len()]);
            }
        }
    }
}

/// Every merge of a list belongs to an aligned super-block.
pub open spec fn all_aligned(list: Seq<Placement>) -> bool {
    forall|i: int| 0 <= i < list.len() ==> aligned_site(#[trigger] list[i])
}

proof fn lemma_aligned_sum(a: Seq<Placement>, b: Seq<Placement>)
    requires
        all_aligned(a),
        all_aligned(b),
    ensures
        all_aligned(a + b),
{
    assert forall|i: int| 0 <= i < (a + b).len() implies aligned_site(#[trigger] (a + b)[i]) by {
        if i < a.len() {
            assert((a + b)[i] == a[i]);
        } else {
            assert((a + b)[i] == b[i - a.len()]);
        }
    }
}

proof fn lemma_shortlist_aligned<A: Amount>(
    w: int,
    h: int,
    bx: int,
    by: int,
    raw: Seq<A>,
    incumbent: Seq<A>,
    n: int,
)
    requires
        0 <= bx < usize::MAX,
        0 <= by < usize::MAX,
        bx % 2 == 0,
        by % 2 == 0,
        n <= 5,
    ensures
        all_aligned(shortlisted(w, h, bx, by, raw, incumbent, n)),
    decreases n,
{
    if n > 0 {
        lemma_shortlist_aligned(w, h, bx, by, raw, incumbent, n - 1);
        let p = merge16_sites_spec(bx, by)[n - 1];
        assert(aligned_site(p));
        let head = shortlisted(w, h, bx, by, raw, incumbent, n - 1);
        let now = shortlisted(w, h, bx, by, raw, incumbent, n);
        assert forall|i: int| 0 <= i < now.len() implies aligned_site(#[trigger] now[i]) by {
            if i < head.len() {
                assert(now[i] == head[i]);
            }
        }
    }
}

proof fn lemma_super_aligned<A: Amount>(
    w: int,
    h: int,
    p: SelectionParams<A>,
    c: SuperBlockCosts<A>,
    bx: int,
    by: int,
    s: BandState<A>,
)
    requires
        0 <= bx < usize::MAX,
        0 <= by < usize::MAX,
        bx % 2 == 0,
        by % 2 == 0,
        all_aligned(s.upgrades),
    ensures
        all_aligned(super_step(w, h, p, c, bx, by, s).upgrades),
{
    let more = if p.policy.merge_upgrade {
        shortlisted(
            w,
            h,
            bx,
            by,
            crate::super_block::raw_costs(p.rectangles, c),
            crate::super_block::leaf_totals(c.leaf),
            5,
        )
    } else {
        Seq::empty()
    };
    lemma_shortlist_aligned(
        w,
        h,
        bx,
        by,
        crate::super_block::raw_costs(p.rectangles, c),
        crate::super_block::leaf_totals(c.leaf),
        5,
    );
    lemma_aligned_sum(s.upgrades, more);
}

proof fn lemma_commit_keeps_upgrades<A>(s: BandState<A>, bx: int, by: int, mask: u8, n: int)
    ensures
        commit32(s, bx, by, mask, n).upgrades == s.upgrades,
    decreases n,
{
    if n > 0 {
        lemma_commit_keeps_upgrades(s, bx, by, mask, n - 1);
    }
}

pub(crate) proof fn lemma_selection_aligned<A: Amount>(
    w: int,
    h: int,
    p: SelectionParams<A>,
    sites: Seq<Site>,
    costs: Seq<SiteCosts<A>>,
    s: BandState<A>,
    n: int,
)
    requires
        sites_even(sites),
        0 <= n <= sites.len(),
        all_aligned(s.upgrades),
    ensures
        all_aligned(after_sites(w, h, p, sites, costs, s, n).upgrades),
    decreases n,
{
    if n > 0 {
        lemma_selection_aligned(w, h, p, sites, costs, s, n - 1);
        let t = after_sites(w, h, p, sites, costs, s, n - 1);
        let bx = sites[n - 1].bx as int;
        let by = sites[n - 1].by as int;
        let c = costs[n - 1];
        assert(bx % 2 == 0);
        if sites[n - 1].quad {
            let s0 = super_step(w, h, p, c.supers@[0]@[0], bx, by, t);
            let s1 = super_step(w, h, p, c.supers@[0]@[1], bx + 2, by, s0);
            let s2 = super_step(w, h, p, c.supers@[1]@[0], bx, by + 2, s1);
            let s3 = super_step(w, h, p, c.supers@[1]@[1], bx + 2, by + 2, s2);
            lemma_super_aligned(w, h, p, c.supers@[0]@[0], bx, by, t);
            lemma_super_aligned(w, h, p, c.supers@[0]@[1], bx + 2, by, s0);
            lemma_super_aligned(w, h, p, c.supers@[1]@[0], bx, by + 2, s1);
            lemma_super_aligned(w, h, p, c.supers@[1]@[1], bx + 2, by + 2, s2);
            assert forall|mask: u8| (#[trigger] commit32(s3, bx, by, mask, 5)).upgrades
                == s3.upgrades by {
                lemma_commit_keeps_upgrades(s3, bx, by, mask, 5);
            }
            assert(region_step(w, h, p, c, bx, by, t).upgrades == s3.upgrades);
        } else {
            lemma_super_aligned(w, h, p, c.supers@[0]@[0], bx, by, t);
        }
    }
}

proof fn lemma_plan_aligned<A: Amount>(
    w: int,
    h: int,
    p: SelectionParams<A>,
    c: SuperBlockCosts<A>,
    l: [[LeafChoice<A>; 2]; 2],
    bx: int,
    by: int,
)
    requires
        0 <= bx < usize::MAX,
        0 <= by < usize::MAX,
        bx % 2 == 0,
        by % 2 == 0,
    ensures
        all_aligned(plan_shortlist(w, h, p, c, l, bx, by)),
{
    let full = crate::leaf_first::with_leaves(c, l);
    lemma_shortlist_aligned(
        w,
        h,
        bx,
        by,
        crate::super_block::raw_costs(p.rectangles, full),
        crate::super_block::leaf_totals(full.leaf),
        5,
    );
}

pub(crate) proof fn lemma_leaf_first_aligned<A: Amount>(
    w: int,
    h: int,
    p: SelectionParams<A>,
    sites: Seq<Site>,
    costs: Seq<SiteCosts<A>>,
    leaves: Seq<Vec<LeafChoice<A>>>,
    y0: int,
    s: BandState<A>,
    n: int,
)
    requires
        sites_even(sites),
        0 <= n <= sites.len(),
        all_aligned(s.upgrades),
    ensures
        all_aligned(after_leaf_sites(w, h, p, sites, costs, leaves, y0, s, n).upgrades),
    decreases n,
{
    if n > 0 {
        lemma_leaf_first_aligned(w, h, p, sites, costs, leaves, y0, s, n - 1);
        let t = after_leaf_sites(w, h, p, sites, costs, leaves, y0, s, n - 1);
        let bx = sites[n - 1].bx as int;
        let by = sites[n - 1].by as int;
        let c = costs[n - 1];
        assert(bx % 2 == 0);
        let a = plan_shortlist(w, h, p, c.supers@[0]@[0], leaves_at(leaves, y0, bx, by), bx, by);
        lemma_plan_aligned(w, h, p, c.supers@[0]@[0], leaves_at(leaves, y0, bx, by), bx, by);
        if sites[n - 1].quad {
            let l1 = leaves_at(leaves, y0, bx + 2, by);
            let l2 = leaves_at(leaves, y0, bx, by + 2);
            let l3 = leaves_at(leaves, y0, bx + 2, by + 2);
            let b = plan_shortlist(w, h, p, c.supers@[0]@[1], l1, bx + 2, by);
            let d = plan_shortlist(w, h, p, c.supers@[1]@[0], l2, bx, by + 2);
            let e = plan_shortlist(w, h, p, c.supers@[1]@[1], l3, bx + 2, by + 2);
            lemma_plan_aligned(w, h, p, c.supers@[0]@[1], l1, bx + 2, by);
            lemma_plan_aligned(w, h, p, c.supers@[1]@[0], l2, bx, by + 2);
            lemma_plan_aligned(w, h, p, c.supers@[1]@[1], l3, bx + 2, by + 2);
            lemma_aligned_sum(a, b);
            lemma_aligned_sum(a + b, d);
            lemma_aligned_sum(a + b + d, e);
            let more = region_shortlist(w, h, p, c, leaves, y0, bx, by);
            assert(more == a + b + d + e);
            lemma_aligned_sum(t.upgrades, more);
            let after = leaf_region_step(w, h, p, c, leaves, y0, bx, by, t);
            assert(after.upgrades == t.upgrades || after.upgrades == t.upgrades + more);
        } else {
            lemma_aligned_sum(t.upgrades, a);
        }
    }
}

/// The merges that selection over a whole group shortlists belong to aligned
/// super-blocks.
pub proof fn law_selection_shortlists_aligned_merges<A: Amount>(
    w: int,
    h: int,
    p: SelectionParams<A>,
    costs: Seq<SiteCosts<A>>,
    s: BandState<A>,
)
    requires
        w + 4 <= usize::MAX,
        h + 4 <= usize::MAX,
        s.upgrades.len() == 0,
    ensures
        all_aligned(
            after_sites(
                w,
                h,
                p,
                band_sites(w, h, 0, h),
                costs,
                s,
                band_sites(w, h, 0, h).len() as int,
            ).upgrades,
        ),
{
    lemma_sites_even(w, h, 0, h);
    let sites = band_sites(w, h, 0, h);
    lemma_selection_aligned(w, h, p, sites, costs, s, sites.len() as int);
}

/// The same where selection starts from the leaves.
pub proof fn law_leaf_first_shortlists_aligned_merges<A: Amount>(
    w: int,
    h: int,
    p: SelectionParams<A>,
    costs: Seq<SiteCosts<A>>,
    leaves: Seq<Vec<LeafChoice<A>>>,
    s: BandState<A>,
)
    requires
        w + 4 <= usize::MAX,
        h + 4 <= usize::MAX,
        s.upgrades.len() == 0,
        costs.len() == band_sites(w, h, 0, h).len(),
    ensures
        all_aligned(
            after_leaf_sites(
                w,
                h,
                p,
                band_sites(w, h, 0, h),
                costs,
                leaves,
                0,
                s,
                costs.len() as int,
            ).upgrades,
        ),
{
    lemma_sites_even(w, h, 0, h);
    let sites = band_sites(w, h, 0, h);
    lemma_leaf_first_aligned(w, h, p, sites, costs, leaves, 0, s, costs.len() as int);
}

/// One block lies before another, row by row.
pub open spec fn before(ax: int, ay: int, bx: int, by: int) -> bool {
    ay < by || ay == by && ax < bx
}

/// Placements from the top row down, each row from the left.
pub open spec fn in_order(list: Seq<Placement>) -> bool {
    forall|i: int, j: int|
        0 <= i < j < list.len() ==> before(
            (#[trigger] list[i]).x as int,
            list[i].y as int,
            (#[trigger] list[j]).x as int,
            list[j].y as int,
        )
}

proof fn lemma_row_in_order(v: Layout, y: int, n: int)
    requires
        0 <= n <= usize::MAX,
        0 <= y <= usize::MAX,
    ensures
        in_order(firsts_in_row(v, y, n)),
    decreases n,
{
    if n > 0 {
        lemma_row_in_order(v, y, n - 1);
        lemma_row_firsts(v, y, n - 1);
        let head = firsts_in_row(v, y, n - 1);
        let all = firsts_in_row(v, y, n);
        assert forall|i: int, j: int| 0 <= i < j < all.len() implies before(
            (#[trigger] all[i]).x as int,
            all[i].y as int,
            (#[trigger] all[j]).x as int,
            all[j].y as int,
        ) by {
            assert(all[i] == head[i]);
            if j < head.len() {
                assert(all[j] == head[j]);
            } else {
                assert(head[i].x < n - 1 && head[i].y == y);
            }
        }
    }
}

pub(crate) proof fn lemma_firsts_in_order(v: Layout, w: int, n: int)
    requires
        0 <= n <= v.len() <= usize::MAX,
        0 <= w <= usize::MAX,
        forall|j: int| 0 <= j < v.len() ==> (#[trigger] v[j]).len() == w,
    ensures
        in_order(firsts(v, n)),
    decreases n,
{
    if n > 0 {
        lemma_firsts_in_order(v, w, n - 1);
        lemma_firsts(v, w, n - 1);
        lemma_row_in_order(v, n - 1, w);
        lemma_row_firsts(v, n - 1, w);
        assert(v[n - 1].len() == w);
        let head = firsts(v, n - 1);
        let row = firsts_in_row(v, n - 1, w);
        let all = firsts(v, n);
        assert forall|i: int, j: int| 0 <= i < j < all.len() implies before(
            (#[trigger] all[i]).x as int,
            all[i].y as int,
            (#[trigger] all[j]).x as int,
            all[j].y as int,
        ) by {
            if j < head.len() {
                assert(all[i] == head[i] && all[j] == head[j]);
            } else if i >= head.len() {
                assert(all[i] == row[i - head.len()] && all[j] == row[j - head.len()]);
            } else {
                assert(all[i] == head[i] && all[j] == row[j - head.len()]);
                assert(head[i].y < n - 1);
                assert(row[j - head.len()].y == n - 1);
            }
        }
    }
}

proof fn lemma_merges_in_order(all: Seq<Placement>, y0: int, y1: int, n: int)
    requires
        in_order(all),
        0 <= n <= all.len(),
    ensures
        in_order(merges_in(all, y0, y1, n)),
        forall|i: int|
            0 <= i < merges_in(all, y0, y1, n).len() ==> exists|k: int|
                0 <= k < n && #[trigger] all[k] == #[trigger] merges_in(all, y0, y1, n)[i],
    decreases n,
{
    if n > 0 {
        lemma_merges_in_order(all, y0, y1, n - 1);
        let head = merges_in(all, y0, y1, n - 1);
        let now = merges_in(all, y0, y1, n);
        assert forall|i: int| 0 <= i < now.len() implies exists|k: int|
            0 <= k < n && #[trigger] all[k] == #[trigger] now[i] by {
            if i < head.len() {
                assert(now[i] == head[i]);
                let k = choose|k: int| 0 <= k < n - 1 && #[trigger] all[k] == head[i];
                assert(all[k] == now[i]);
            } else {
                assert(all[n - 1] == now[i]);
            }
        }
        assert forall|i: int, j: int| 0 <= i < j < now.len() implies before(
            (#[trigger] now[i]).x as int,
            now[i].y as int,
            (#[trigger] now[j]).x as int,
            now[j].y as int,
        ) by {
            assert(now[i] == head[i]);
            if j < head.len() {
                assert(now[j] == head[j]);
            } else {
                let k = choose|k: int| 0 <= k < n - 1 && #[trigger] all[k] == head[i];
                assert(all[k] == now[i] && all[n - 1] == now[j]);
            }
        }
    }
}

/// No two downgrades begin at one block.
pub open spec fn downgrades_apart(ds: Seq<DowngradeView>) -> bool {
    forall|i: int, j: int|
        0 <= i < j < ds.len() ==> before(
            (#[trigger] ds[i]).bx,
            ds[i].by,
            (#[trigger] ds[j]).bx,
            ds[j].by,
        )
}

proof fn lemma_downgrades_in_order<A: Amount>(
    map: AcStrategyImage,
    p: RerankParams<A>,
    saved: Seq<SavedChild>,
    sites: Seq<Placement>,
    scores: Seq<SiteScores<A>>,
    n: int,
)
    requires
        in_order(sites),
        0 <= n <= sites.len(),
    ensures
        ({
            let ds = after_rerank(map, p, saved, sites, scores, n).downgrades;
            &&& downgrades_apart(ds)
            &&& forall|k: int|
                0 <= k < ds.len() ==> exists|i: int|
                    0 <= i < n && (#[trigger] sites[i]).x == (#[trigger] ds[k]).bx && sites[i].y
                        == ds[k].by
        }),
    decreases n,
{
    if n > 0 {
        lemma_downgrades_in_order(map, p, saved, sites, scores, n - 1);
        let head = after_rerank(map, p, saved, sites, scores, n - 1).downgrades;
        let now = after_rerank(map, p, saved, sites, scores, n).downgrades;
        let last = site_downgrade(map, p, saved, sites[n - 1], scores[n - 1]);
        assert(last.bx == sites[n - 1].x && last.by == sites[n - 1].y);
        assert forall|k: int| 0 <= k < now.len() implies exists|i: int|
            0 <= i < n && (#[trigger] sites[i]).x == (#[trigger] now[k]).bx && sites[i].y
                == now[k].by by {
            if k < head.len() {
                assert(now[k] == head[k]);
                let i = choose|i: int|
                    0 <= i < n - 1 && (#[trigger] sites[i]).x == head[k].bx && sites[i].y
                        == head[k].by;
                assert(sites[i].x == now[k].bx);
            } else {
                assert(sites[n - 1].x == now[k].bx);
            }
        }
        assert forall|k: int, l: int| 0 <= k < l < now.len() implies before(
            (#[trigger] now[k]).bx,
            now[k].by,
            (#[trigger] now[l]).bx,
            now[l].by,
        ) by {
            assert(now[k] == head[k]);
            if l < head.len() {
                assert(now[l] == head[l]);
            } else {
                let i = choose|i: int|
                    0 <= i < n - 1 && (#[trigger] sites[i]).x == head[k].bx && sites[i].y
                        == head[k].by;
                assert(before(
                    sites[i].x as int,
                    sites[i].y as int,
                    sites[n - 1].x as int,
                    sites[n - 1].y as int,
                ));
            }
        }
    }
}

/// The downgrades that reranking a tiling leads to begin at different blocks.
pub proof fn law_downgrades_begin_apart<A: Amount>(
    map: AcStrategyImage,
    p: RerankParams<A>,
    saved: Seq<SavedChild>,
    y0: int,
    y1: int,
    scores: Seq<SiteScores<A>>,
)
    requires
        map.wf(),
        scores.len() == merges_of(map@, y0, y1).len(),
    ensures
        downgrades_apart(
            after_rerank(
                map,
                p,
                saved,
                merges_of(map@, y0, y1),
                scores,
                scores.len() as int,
            ).downgrades,
        ),
{
    map.lemma_shape();
    let all = firsts(map@, map@.len() as int);
    lemma_firsts_in_order(map@, map.width() as int, map@.len() as int);
    lemma_merges_in_order(all, y0, y1, all.len() as int);
    lemma_downgrades_in_order(map, p, saved, merges_of(map@, y0, y1), scores, scores.len() as int);
}

/// Every block that the leading `n` downgrades put back to the 8x8 DCT is one.
proof fn lemma_restored_blocks(
    v: Layout,
    w: int,
    h: int,
    ds: Seq<DowngradeView>,
    n: int,
    k: int,
    i: int,
)
    requires
        tiled(v, w, h),
        0 <= w <= usize::MAX,
        0 <= h <= usize::MAX,
        0 <= k < n <= ds.len(),
        downgrades_apart(ds),
        forall|j: int| 0 <= j < ds.len() ==> replaces_merge(v, w, h, #[trigger] ds[j]),
        0 <= i < 16,
        grid_inside(ds[k].cx, ds[k].cy, i),
        ds[k].grid[i] == STRATEGY_DCT,
    ensures
        shaped(after_downgrades(v, ds, n), w, h),
        in_bounds(w, h, ds[k].bx + i % 4, ds[k].by + i / 4),
        single_at(after_downgrades(v, ds, n), ds[k].bx + i % 4, ds[k].by + i / 4),
    decreases n,
{
    let d = ds[n - 1];
    assert(replaces_merge(v, w, h, ds[n - 1]));
    assert(replaces_merge(v, w, h, ds[k]));
    let u = after_downgrades(v, ds, n - 1);
    let x = ds[k].bx + i % 4;
    let y = ds[k].by + i / 4;
    assert(fits_in(w, h, x, y, ds[k].grid[i]));
    lemma_downgrades_shaped(v, w, h, ds, n - 1);
    let ps = restore_placements(d, 16);
    lemma_restore_placements(d, w, h, 16);
    lemma_restore_union(d, w, h);
    lemma_place_all_at(u, w, h, ps);
    if k == n - 1 {
        assert(ps.contains(entry_placement(d, i)));
        let q = choose|q: int| 0 <= q < ps.len() && ps[q] == entry_placement(d, i);
        assert(in_footprint(ps[q], x, y));
    } else {
        lemma_restored_blocks(v, w, h, ds, n - 1, k, i);
        assert(before(ds[k].bx, ds[k].by, ds[n - 1].bx, ds[n - 1].by));
        lemma_footprints_apart(v, w, h, ds[k].bx, ds[k].by, d.bx, d.by);
        assert(!in_window(d.bx, d.by, d.cx, d.cy, x, y));
        assert(!in_union(ps, x, y));
        assert(place_all(u, ps)[y][x] == u[y][x]);
    }
}

proof fn lemma_downgrades_shaped(v: Layout, w: int, h: int, ds: Seq<DowngradeView>, n: int)
    requires
        tiled(v, w, h),
        0 <= w <= usize::MAX,
        0 <= h <= usize::MAX,
        0 <= n <= ds.len(),
        forall|j: int| 0 <= j < ds.len() ==> replaces_merge(v, w, h, #[trigger] ds[j]),
    ensures
        shaped(after_downgrades(v, ds, n), w, h),
    decreases n,
{
    if n > 0 {
        lemma_downgrades_shaped(v, w, h, ds, n - 1);
        assert(replaces_merge(v, w, h, ds[n - 1]));
        lemma_restore_union(ds[n - 1], w, h);
        lemma_place_all_at(
            after_downgrades(v, ds, n - 1),
            w,
            h,
            restore_placements(ds[n - 1], 16),
        );
    }
}

/// A listed block comes from an entry of a downgrade.
spec fn comes_from(d: DowngradeView, n: int, t: (usize, usize)) -> bool {
    exists|i: int|
        0 <= i < n && #[trigger] grid_inside(d.cx, d.cy, i) && d.grid[i] == STRATEGY_DCT && t
            == ((d.bx + i % 4) as usize, (d.by + i / 4) as usize)
}

proof fn lemma_plain_blocks(d: DowngradeView, n: int)
    requires
        0 <= n <= 16,
    ensures
        forall|k: int|
            0 <= k < plain_blocks(d, n).len() ==> comes_from(d, n, #[trigger] plain_blocks(d, n)[k]),
    decreases n,
{
    if n > 0 {
        lemma_plain_blocks(d, n - 1);
        let head = plain_blocks(d, n - 1);
        let now = plain_blocks(d, n);
        assert forall|k: int| 0 <= k < now.len() implies comes_from(d, n, #[trigger] now[k]) by {
            if k < head.len() {
                assert(now[k] == head[k]);
                assert(comes_from(d, n - 1, head[k]));
                let i = choose|i: int|
                    0 <= i < n - 1 && #[trigger] grid_inside(d.cx, d.cy, i) && d.grid[i]
                        == STRATEGY_DCT && head[k] == ((d.bx + i % 4) as usize, (d.by + i
                        / 4) as usize);
                assert(grid_inside(d.cx, d.cy, i));
            } else {
                assert(grid_inside(d.cx, d.cy, n - 1));
            }
        }
    }
}

/// The blocks that reranking put back to the 8x8 DCT are single blocks of the map
/// that it leaves.
pub proof fn law_restored_blocks_are_single<A>(
    v: Layout,
    w: int,
    h: int,
    s: RerankState<A>,
    n: int,
    j: int,
)
    requires
        tiled(v, w, h),
        0 <= w <= usize::MAX,
        0 <= h <= usize::MAX,
        downgrades_apart(s.downgrades),
        forall|k: int|
            0 <= k < s.downgrades.len() ==> replaces_merge(v, w, h, #[trigger] s.downgrades[k]),
        0 <= n <= s.downgrades.len(),
        0 <= j < plain_blocks_of(s, n).len(),
    ensures
        ({
            let u = after_downgrades(v, s.downgrades, s.downgrades.len() as int);
            let t = plain_blocks_of(s, n)[j];
            in_bounds(w, h, t.0 as int, t.1 as int) && single_at(u, t.0 as int, t.1 as int)
        }),
    decreases n,
{
    if n > 0 {
        let head = plain_blocks_of(s, n - 1);
        if j < head.len() {
            law_restored_blocks_are_single(v, w, h, s, n - 1, j);
            assert(plain_blocks_of(s, n)[j] == head[j]);
        } else {
            let d = s.downgrades[n - 1];
            let list = plain_blocks(d, 16);
            lemma_plain_blocks(d, 16);
            let t = list[j - head.len()];
            assert(plain_blocks_of(s, n)[j] == t);
            assert(comes_from(d, 16, list[j - head.len()]));
            let i = choose|i: int|
                0 <= i < 16 && #[trigger] grid_inside(d.cx, d.cy, i) && d.grid[i] == STRATEGY_DCT
                    && t == ((d.bx + i % 4) as usize, (d.by + i / 4) as usize);
            assert(replaces_merge(v, w, h, s.downgrades[n - 1]));
            lemma_restored_blocks(
                v,
                w,
                h,
                s.downgrades,
                s.downgrades.len() as int,
                n - 1,
                i,
            );
        }
    }
}

} // verus!
