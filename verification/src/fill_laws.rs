//! What holds across the stages that fill a strategy map.

use crate::amount::Amount;
use crate::bands::{band_sites, is_four_row, lemma_sites_inside, next_row, row_sites, Site};
use crate::cost_map::{grid_shape, unknown, Costs};
use crate::fill::{after_sub8, Sub8State};
use crate::leaf_first::{
    after_leaf_first, after_leaf_sites, leaves_layout, leaves_shape, refined_layout,
    single_block_leaves, LeafChoice,
};
use crate::leaf_first_laws::{
    law_leaf_first_keeps_tiling, law_refinement_keeps_tiling, law_single_block_swaps_keep_tiling,
    same_shape,
};
use crate::pass64::{
    after64, law_windows_are_aligned_and_apart, quads_known, regions_along, regions_inside, sites64,
    with_regions, Costs64,
};
use crate::pass64_laws::{in_quarters, law_merge_64_keeps_tiling};
use crate::selection::{
    after_sites, commit32, single_block_offers, super_step, BandState, Chosen32Cost, Offer,
    SelectionParams, SiteCosts,
};
use crate::selection_laws::{closed_until, law_selection_keeps_tiling};
use crate::strategy::{covered_x, covered_y};
use crate::strategy_map::{with_first, Layout};
use crate::super_block::MergeTuning;
use crate::tiling::{closed_window, in_bounds, single_blocks, tiled};
use vstd::prelude::*;

verus! {

/// The block at `(x, y)` is a transform of one block.
pub open spec fn single_at(v: Layout, x: int, y: int) -> bool {
    v[y][x].first && covered_x(v[y][x].strategy) == 1 && covered_y(v[y][x].strategy) == 1
}

proof fn lemma_swap(v: Layout, w: int, h: int, x: int, y: int, strategy: u8)
    requires
        tiled(v, w, h),
        in_bounds(w, h, x, y),
        single_at(v, x, y),
        covered_x(strategy) == 1,
        covered_y(strategy) == 1,
    ensures
        tiled(with_first(v, x, y, strategy), w, h),
        forall|a: int, b: int|
            in_bounds(w, h, a, b) && #[trigger] single_at(v, a, b) ==> single_at(
                with_first(v, x, y, strategy),
                a,
                b,
            ),
{
    let u = with_first(v, x, y, strategy);
    assert(same_shape(v, u, w, h)) by {
        assert forall|j: int| 0 <= j < h implies (#[trigger] u[j]).len() == w by {
            assert(v[j].len() == w);
        }
        assert forall|a: int, b: int| in_bounds(w, h, a, b) implies ({
            let p = #[trigger] u[b][a];
            let q = v[b][a];
            ||| p == q
            ||| p.first && q.first && covered_x(p.strategy) == 1 && covered_y(p.strategy) == 1
                && covered_x(q.strategy) == 1 && covered_y(q.strategy) == 1
        }) by {
            assert(v[b].len() == w);
        }
    }
    law_single_block_swaps_keep_tiling(v, u, w, h);
    assert forall|a: int, b: int|
        in_bounds(w, h, a, b) && #[trigger] single_at(v, a, b) implies single_at(u, a, b) by {
        assert(v[b].len() == w);
    }
}

/// Blocks of one-block transforms that take other such transforms keep the map a
/// tiling.
pub proof fn law_sub8_choices_keep_tiling<A: Amount>(
    s: Sub8State<A>,
    w: int,
    h: int,
    targets: Seq<(usize, usize)>,
    picks: Seq<Option<(u8, A)>>,
    leaf_first: bool,
    n: int,
)
    requires
        tiled(s.layout, w, h),
        0 <= n <= targets.len(),
        picks.len() == targets.len(),
        forall|i: int|
            0 <= i < targets.len() ==> in_bounds(
                w,
                h,
                (#[trigger] targets[i]).0 as int,
                targets[i].1 as int,
            ) && single_at(s.layout, targets[i].0 as int, targets[i].1 as int),
        forall|i: int|
            0 <= i < picks.len() && (#[trigger] picks[i]) is Some ==> covered_x((picks[i]->0).0)
                == 1 && covered_y((picks[i]->0).0) == 1,
    ensures
        tiled(after_sub8(s, targets, picks, leaf_first, n).layout, w, h),
        forall|a: int, b: int|
            in_bounds(w, h, a, b) && #[trigger] single_at(s.layout, a, b) ==> single_at(
                after_sub8(s, targets, picks, leaf_first, n).layout,
                a,
                b,
            ),
    decreases n,
{
    if n > 0 {
        law_sub8_choices_keep_tiling(s, w, h, targets, picks, leaf_first, n - 1);
        let t = after_sub8(s, targets, picks, leaf_first, n - 1);
        let x = targets[n - 1].0 as int;
        let y = targets[n - 1].1 as int;
        assert(single_at(s.layout, x, y));
        if picks[n - 1] is Some {
            lemma_swap(t.layout, w, h, x, y, (picks[n - 1]->0).0);
        }
    }
}

/// Every noted region is one of the leading `n` sites.
pub open spec fn regions_listed<A>(list: Seq<Chosen32Cost<A>>, sites: Seq<Site>, n: int) -> bool {
    forall|i: int| 0 <= i < list.len() ==> region_listed(#[trigger] list[i], sites, n)
}

/// A cost was noted for one of the leading `n` sites.
pub open spec fn region_listed<A>(c: Chosen32Cost<A>, sites: Seq<Site>, n: int) -> bool {
    exists|j: int| 0 <= j < n && #[trigger] is_region_of(sites[j], c)
}

/// A site is the region that a cost was noted for.
pub open spec fn is_region_of<A>(site: Site, c: Chosen32Cost<A>) -> bool {
    site.quad && site.bx == c.bx && site.by == c.by
}

/// The 4x4 regions among the sites start at multiples of four.
pub open spec fn regions_aligned(sites: Seq<Site>) -> bool {
    forall|i: int|
        0 <= i < sites.len() && (#[trigger] sites[i]).quad ==> sites[i].bx % 4 == 0 && sites[i].by
            % 4 == 0
}

proof fn lemma_row_aligned(w: int, h: int, by: int, bx: int)
    requires
        0 <= bx <= usize::MAX,
        0 <= by <= usize::MAX,
        w <= usize::MAX,
        h <= usize::MAX,
    ensures
        regions_aligned(row_sites(w, h, by, bx)),
    decreases
            (if bx < w {
                w - bx
            } else {
                0
            }),
{
    let all = row_sites(w, h, by, bx);
    if bx + 1 < w {
        let (k, next) = if is_four_row(h, by) && bx % 4 == 0 && bx + 4 <= w {
            (1int, bx + 4)
        } else if is_four_row(h, by) {
            (2int, bx + 2)
        } else {
            (1int, bx + 2)
        };
        let rest = row_sites(w, h, by, next);
        if next + 1 < w {
            lemma_row_aligned(w, h, by, next);
        }
        assert forall|i: int| 0 <= i < all.len() && (#[trigger] all[i]).quad implies all[i].bx % 4
            == 0 && all[i].by % 4 == 0 by {
            if i >= k {
                assert(all[i] == rest[i - k]);
            }
        }
    }
}

proof fn lemma_sites_aligned(w: int, h: int, by: int, y_end: int)
    requires
        0 <= w <= usize::MAX,
        0 <= by <= usize::MAX,
        h <= usize::MAX,
    ensures
        regions_aligned(band_sites(w, h, by, y_end)),
    decreases
            (if by < y_end {
                y_end - by
            } else {
                0
            }),
{
    if by + 1 < h && by < y_end {
        let next = next_row(h, by);
        let row = row_sites(w, h, by, 0);
        let rest = band_sites(w, h, next, y_end);
        let all = band_sites(w, h, by, y_end);
        lemma_row_aligned(w, h, by, 0);
        if next + 1 < h {
            lemma_sites_aligned(w, h, next, y_end);
        }
        assert forall|i: int| 0 <= i < all.len() && (#[trigger] all[i]).quad implies all[i].bx % 4
            == 0 && all[i].by % 4 == 0 by {
            if i < row.len() {
                assert(all[i] == row[i]);
            } else {
                assert(all[i] == rest[i - row.len()]);
            }
        }
    }
}

/// What is known of a cell was noted for it.
proof fn lemma_known_cell<A>(
    m: Costs<A>,
    w: int,
    h: int,
    list: Seq<Chosen32Cost<A>>,
    n: int,
    x: int,
    y: int,
)
    requires
        0 <= n <= list.len(),
        grid_shape(m, regions_along(w), regions_along(h)),
        regions_inside(list, w, h),
        0 <= y < regions_along(h),
        0 <= x < regions_along(w),
        m[y][x] is None,
    ensures
        grid_shape(with_regions(m, list, n), regions_along(w), regions_along(h)),
        with_regions(m, list, n)[y][x] is Some ==> exists|i: int|
            0 <= i < n && (#[trigger] list[i]).bx as int / 4 == x && list[i].by as int / 4 == y,
    decreases n,
{
    if n > 0 {
        lemma_known_cell(m, w, h, list, n - 1, x, y);
        let prev = with_regions(m, list, n - 1);
        let now = with_regions(m, list, n);
        assert(list[n - 1].bx < w && list[n - 1].by < h);
        assert forall|j: int| 0 <= j < regions_along(h) implies (#[trigger] now[j]).len()
            == regions_along(w) by {
            assert(prev[j].len() == regions_along(w));
        }
        if now[y][x] is Some && prev[y][x] is None {
            assert(list[n - 1].bx as int / 4 == x && list[n - 1].by as int / 4 == y);
        }
    }
}

proof fn lemma_known_is_closed<A: Amount>(
    v: Layout,
    w: int,
    h: int,
    sites: Seq<Site>,
    list: Seq<Chosen32Cost<A>>,
    x: int,
    y: int,
)
    requires
        closed_until(v, w, h, sites, sites.len() as int),
        regions_aligned(sites),
        regions_listed(list, sites, sites.len() as int),
        regions_inside(list, w, h),
        0 <= x < regions_along(w),
        0 <= y < regions_along(h),
        with_regions(
            unknown::<A>(regions_along(w), regions_along(h)),
            list,
            list.len() as int,
        )[y][x] is Some,
    ensures
        closed_window(v, w, h, 4 * x, 4 * y, 4, 4),
{
    let m = unknown::<A>(regions_along(w), regions_along(h));
    lemma_known_cell(m, w, h, list, list.len() as int, x, y);
    let i = choose|i: int|
        0 <= i < list.len() && (#[trigger] list[i]).bx as int / 4 == x && list[i].by as int / 4
            == y;
    let c = list[i];
    assert(region_listed(c, sites, sites.len() as int));
    let j = choose|j: int| 0 <= j < sites.len() && #[trigger] is_region_of(sites[j], c);
    assert(sites[j].quad);
    assert(4 * x == sites[j].bx && 4 * y == sites[j].by);
}

/// Where the noted regions are sites that no transform crosses, the windows that
/// 64-pixel transforms may take are made of closed quarters.
pub proof fn law_decided_windows_are_in_quarters<A: Amount>(
    v: Layout,
    w: int,
    h: int,
    sites: Seq<Site>,
    list: Seq<Chosen32Cost<A>>,
)
    requires
        0 <= w <= usize::MAX,
        0 <= h <= usize::MAX,
        closed_until(v, w, h, sites, sites.len() as int),
        regions_aligned(sites),
        regions_listed(list, sites, sites.len() as int),
        regions_inside(list, w, h),
    ensures
        ({
            let grid = with_regions(
                unknown::<A>(regions_along(w), regions_along(h)),
                list,
                list.len() as int,
            );
            forall|i: int|
                0 <= i < sites64(grid, w, h / 8).len() ==> in_quarters(
                    v,
                    w,
                    h,
                    (#[trigger] sites64(grid, w, h / 8)[i]).0 as int,
                    sites64(grid, w, h / 8)[i].1 as int,
                )
        }),
{
    let grid = with_regions(
        unknown::<A>(regions_along(w), regions_along(h)),
        list,
        list.len() as int,
    );
    let windows = sites64(grid, w, h / 8);
    law_windows_are_aligned_and_apart(grid, w, h, h / 8);
    assert forall|i: int| 0 <= i < windows.len() implies in_quarters(
        v,
        w,
        h,
        (#[trigger] windows[i]).0 as int,
        windows[i].1 as int,
    ) by {
        let x = windows[i].0 as int / 4;
        let y = windows[i].1 as int / 4;
        assert(quads_known(grid, windows[i].0 as int / 8, windows[i].1 as int / 8));
        assert(2 * (windows[i].0 as int / 8) == x && 2 * (windows[i].1 as int / 8) == y);
        lemma_known_is_closed(v, w, h, sites, list, x, y);
        lemma_known_is_closed(v, w, h, sites, list, x + 1, y);
        lemma_known_is_closed(v, w, h, sites, list, x, y + 1);
        lemma_known_is_closed(v, w, h, sites, list, x + 1, y + 1);
        assert(4 * x == windows[i].0 && 4 * y == windows[i].1);
    }
}

proof fn lemma_commit_keeps_chosen<A>(s: BandState<A>, bx: int, by: int, mask: u8, n: int)
    ensures
        commit32(s, bx, by, mask, n).chosen32 == s.chosen32,
    decreases n,
{
    if n > 0 {
        lemma_commit_keeps_chosen(s, bx, by, mask, n - 1);
    }
}

proof fn lemma_listed_push<A>(
    list: Seq<Chosen32Cost<A>>,
    after: Seq<Chosen32Cost<A>>,
    sites: Seq<Site>,
    n: int,
)
    requires
        0 < n <= sites.len(),
        regions_listed(list, sites, n - 1),
        after == list || (after.len() == list.len() + 1 && after.drop_last() == list
            && is_region_of(sites[n - 1], after.last())),
    ensures
        regions_listed(after, sites, n),
{
    assert forall|i: int| 0 <= i < after.len() implies region_listed(
        #[trigger] after[i],
        sites,
        n,
    ) by {
        if i < list.len() {
            assert(after[i] == list[i]) by {
                if after != list {
                    assert(after.drop_last()[i] == list[i]);
                }
            }
            assert(region_listed(list[i], sites, n - 1));
            let j = choose|j: int| 0 <= j < n - 1 && #[trigger] is_region_of(sites[j], list[i]);
            assert(is_region_of(sites[j], after[i]));
        } else {
            assert(is_region_of(sites[n - 1], after[i]));
        }
    }
}

pub(crate) proof fn lemma_selection_lists<A: Amount>(
    w: int,
    h: int,
    p: SelectionParams<A>,
    sites: Seq<Site>,
    costs: Seq<SiteCosts<A>>,
    s: BandState<A>,
    n: int,
)
    requires
        s.chosen32.len() == 0,
        0 <= n <= sites.len(),
    ensures
        regions_listed(after_sites(w, h, p, sites, costs, s, n).chosen32, sites, n),
    decreases n,
{
    if n > 0 {
        lemma_selection_lists(w, h, p, sites, costs, s, n - 1);
        let t = after_sites(w, h, p, sites, costs, s, n - 1);
        let after = after_sites(w, h, p, sites, costs, s, n);
        let bx = sites[n - 1].bx as int;
        let by = sites[n - 1].by as int;
        let c = costs[n - 1];
        if sites[n - 1].quad {
            let s0 = super_step(w, h, p, c.supers@[0]@[0], bx, by, t);
            let s1 = super_step(w, h, p, c.supers@[0]@[1], bx + 2, by, s0);
            let s2 = super_step(w, h, p, c.supers@[1]@[0], bx, by + 2, s1);
            let s3 = super_step(w, h, p, c.supers@[1]@[1], bx + 2, by + 2, s2);
            assert forall|mask: u8| (#[trigger] commit32(s3, bx, by, mask, 5)).chosen32
                == t.chosen32 by {
                lemma_commit_keeps_chosen(s3, bx, by, mask, 5);
            }
            assert(after.chosen32.drop_last() =~= t.chosen32);
        }
        lemma_listed_push(t.chosen32, after.chosen32, sites, n);
    }
}

pub(crate) proof fn lemma_leaf_first_lists<A: Amount>(
    w: int,
    h: int,
    p: SelectionParams<A>,
    sites: Seq<Site>,
    costs: Seq<SiteCosts<A>>,
    leaves: Seq<Vec<LeafChoice<A>>>,
    y0: int,
    s: BandState<A>,
    n: int,
)
    requires
        s.chosen32.len() == 0,
        0 <= n <= sites.len(),
    ensures
        regions_listed(
            after_leaf_sites(w, h, p, sites, costs, leaves, y0, s, n).chosen32,
            sites,
            n,
        ),
    decreases n,
{
    if n > 0 {
        lemma_leaf_first_lists(w, h, p, sites, costs, leaves, y0, s, n - 1);
        let t = after_leaf_sites(w, h, p, sites, costs, leaves, y0, s, n - 1);
        let after = after_leaf_sites(w, h, p, sites, costs, leaves, y0, s, n);
        if sites[n - 1].quad {
            assert(after.chosen32.drop_last() =~= t.chosen32);
        }
        lemma_listed_push(t.chosen32, after.chosen32, sites, n);
    }
}

/// A map of single blocks on which selection runs, whose blocks then take their
/// offers and whose windows the 64-pixel transforms then take, is a tiling.
pub proof fn law_selected_and_merged_maps_are_tilings<A: Amount>(
    w: int,
    h: int,
    p: SelectionParams<A>,
    costs: Seq<SiteCosts<A>>,
    s: BandState<A>,
    offers: Seq<Vec<Offer<A>>>,
    t: MergeTuning<A>,
    scores: Seq<Costs64<A>>,
)
    requires
        0 <= w <= usize::MAX,
        0 <= h <= usize::MAX,
        tiled(s.layout, w, h),
        single_blocks(s.layout, w, h, 0, 0, w, h),
        s.chosen32.len() == 0,
        offers.len() == h,
        forall|j: int| 0 <= j < offers.len() ==> (#[trigger] offers[j])@.len() == w,
        single_block_offers(offers),
    ensures
        ({
            let sites = band_sites(w, h, 0, h);
            let done = after_sites(w, h, p, sites, costs, s, sites.len() as int);
            let grid = with_regions(
                unknown::<A>(regions_along(w), regions_along(h)),
                done.chosen32,
                done.chosen32.len() as int,
            );
            let windows = sites64(grid, w, h / 8);
            tiled(
                after64(
                    refined_layout(done.layout, offers, 0),
                    windows,
                    grid,
                    t,
                    scores,
                    windows.len() as int,
                ),
                w,
                h,
            )
        }),
{
    let sites = band_sites(w, h, 0, h);
    let done = after_sites(w, h, p, sites, costs, s, sites.len() as int);
    law_selection_keeps_tiling(w, h, 0, h, p, costs, s);
    lemma_selection_lists(w, h, p, sites, costs, s, sites.len() as int);
    lemma_selected_then_64(w, h, sites, done, offers, t, scores);
}

/// The same where selection starts from the leaves.
pub proof fn law_leaf_first_and_merged_maps_are_tilings<A: Amount>(
    w: int,
    h: int,
    p: SelectionParams<A>,
    costs: Seq<SiteCosts<A>>,
    leaves: Seq<Vec<LeafChoice<A>>>,
    s: BandState<A>,
    offers: Seq<Vec<Offer<A>>>,
    t: MergeTuning<A>,
    scores: Seq<Costs64<A>>,
)
    requires
        0 <= w <= usize::MAX,
        0 <= h <= usize::MAX,
        tiled(s.layout, w, h),
        single_blocks(s.layout, w, h, 0, 0, w, h),
        s.chosen32.len() == 0,
        leaves_shape(leaves, w, h),
        single_block_leaves(leaves),
        costs.len() == band_sites(w, h, 0, h).len(),
        offers.len() == h,
        forall|j: int| 0 <= j < offers.len() ==> (#[trigger] offers[j])@.len() == w,
        single_block_offers(offers),
    ensures
        ({
            let done = after_leaf_first(w, h, p, 0, h, costs, leaves, s);
            let grid = with_regions(
                unknown::<A>(regions_along(w), regions_along(h)),
                done.chosen32,
                done.chosen32.len() as int,
            );
            let windows = sites64(grid, w, h / 8);
            tiled(
                after64(
                    refined_layout(done.layout, offers, 0),
                    windows,
                    grid,
                    t,
                    scores,
                    windows.len() as int,
                ),
                w,
                h,
            )
        }),
{
    let sites = band_sites(w, h, 0, h);
    let done = after_leaf_first(w, h, p, 0, h, costs, leaves, s);
    law_leaf_first_keeps_tiling(w, h, p, 0, h, costs, leaves, s);
    lemma_leaf_first_lists(
        w,
        h,
        p,
        sites,
        costs,
        leaves,
        0,
        BandState { layout: leaves_layout(s.layout, leaves, 0), ..s },
        sites.len() as int,
    );
    lemma_selected_then_64(w, h, sites, done, offers, t, scores);
}

/// Selection and refinement of a whole group leave a tiling, in which the windows
/// that 64-pixel transforms may take are made of closed quarters.
pub(crate) proof fn lemma_selected_windows<A: Amount>(
    w: int,
    h: int,
    sites: Seq<Site>,
    done: BandState<A>,
    offers: Seq<Vec<Offer<A>>>,
)
    requires
        0 <= w <= usize::MAX,
        0 <= h <= usize::MAX,
        sites == band_sites(w, h, 0, h),
        tiled(done.layout, w, h),
        closed_until(done.layout, w, h, sites, sites.len() as int),
        regions_listed(done.chosen32, sites, sites.len() as int),
        offers.len() == h,
        forall|j: int| 0 <= j < offers.len() ==> (#[trigger] offers[j])@.len() == w,
        single_block_offers(offers),
    ensures
        ({
            let grid = with_regions(
                unknown::<A>(regions_along(w), regions_along(h)),
                done.chosen32,
                done.chosen32.len() as int,
            );
            let u = refined_layout(done.layout, offers, 0);
            &&& tiled(u, w, h)
            &&& regions_inside(done.chosen32, w, h)
            &&& forall|i: int|
                0 <= i < sites64(grid, w, h / 8).len() ==> in_quarters(
                    u,
                    w,
                    h,
                    (#[trigger] sites64(grid, w, h / 8)[i]).0 as int,
                    sites64(grid, w, h / 8)[i].1 as int,
                )
        }),
{
    let u = refined_layout(done.layout, offers, 0);
    lemma_sites_aligned(w, h, 0, h);
    law_refinement_keeps_tiling(done.layout, w, h, offers, 0);
    assert(closed_until(u, w, h, sites, sites.len() as int));
    lemma_sites_inside(w, h, 0, h);
    assert forall|i: int| 0 <= i < done.chosen32.len() implies (#[trigger] done.chosen32[i]).bx < w
        && done.chosen32[i].by < h by {
        let c = done.chosen32[i];
        assert(region_listed(c, sites, sites.len() as int));
        let j = choose|j: int| 0 <= j < sites.len() && #[trigger] is_region_of(sites[j], c);
        assert(sites[j].bx + sites[j].side() <= w);
    }
    law_decided_windows_are_in_quarters(u, w, h, sites, done.chosen32);
}

proof fn lemma_selected_then_64<A: Amount>(
    w: int,
    h: int,
    sites: Seq<Site>,
    done: BandState<A>,
    offers: Seq<Vec<Offer<A>>>,
    t: MergeTuning<A>,
    scores: Seq<Costs64<A>>,
)
    requires
        0 <= w <= usize::MAX,
        0 <= h <= usize::MAX,
        sites == band_sites(w, h, 0, h),
        tiled(done.layout, w, h),
        closed_until(done.layout, w, h, sites, sites.len() as int),
        regions_listed(done.chosen32, sites, sites.len() as int),
        offers.len() == h,
        forall|j: int| 0 <= j < offers.len() ==> (#[trigger] offers[j])@.len() == w,
        single_block_offers(offers),
    ensures
        ({
            let grid = with_regions(
                unknown::<A>(regions_along(w), regions_along(h)),
                done.chosen32,
                done.chosen32.len() as int,
            );
            let windows = sites64(grid, w, h / 8);
            tiled(
                after64(
                    refined_layout(done.layout, offers, 0),
                    windows,
                    grid,
                    t,
                    scores,
                    windows.len() as int,
                ),
                w,
                h,
            )
        }),
{
    let grid = with_regions(
        unknown::<A>(regions_along(w), regions_along(h)),
        done.chosen32,
        done.chosen32.len() as int,
    );
    let u = refined_layout(done.layout, offers, 0);
    lemma_selected_windows(w, h, sites, done, offers);
    law_merge_64_keeps_tiling(u, w, h, grid, t, scores);
}

} // verus!
