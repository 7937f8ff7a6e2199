//! Leaf-first selection turns a layout of single blocks into a tiling.

use crate::amount::Amount;
use crate::bands::{band_sites, law_sites_do_not_overlap, spread, Site};
use crate::leaf_first::{
    after_leaf_first, after_leaf_sites, committed, leaf_region_step, leaf_strategies,
    leaf_super_step, leaves_at, leaves_layout, leaves_shape, merged_layout, pairs_of,
    plan_placements, refined_layout, region_choice, region_plans, region_shortlist,
    single_block_leaves, super_plan, with_leaves, LeafChoice,
};
use crate::selection::{
    single_block_offers, super_step, takes_offer, BandState, Offer, SelectionParams, SiteCosts,
};
use crate::selection_laws::{
    closed_until, lemma_keeps_chain, lemma_keeps_self, lemma_one_merge, lemma_singles_kept, lemma_singles_part,
    lemma_sites_apart, lemma_super_windows, lemma_two_merges, law_super_step_tiles, untouched_from,
};
use crate::strategy::{covered_x, covered_y};
use crate::strategy_map::{in_window, Layout};
use crate::super_block::{
    choice_placements, merge32_sites_spec, super_choice, SuperBlockCosts,
};
use crate::tiling::{
    closed_window, covered, covers, in_bounds, keeps_windows, lemma_closed_union, shaped,
    single_blocks, tiled,
};
use vstd::prelude::*;

verus! {

/// The four leaves of a super-block are transforms over a single block.
pub open spec fn single_leaves<A>(l: [[LeafChoice<A>; 2]; 2]) -> bool {
    forall|i: int|
        0 <= i < 4 ==> covered_x(#[trigger] leaf_strategies(l)[i]) == 1 && covered_y(
            leaf_strategies(l)[i],
        ) == 1
}

pub(crate) proof fn lemma_leaves_at_single<A>(
    leaves: Seq<Vec<LeafChoice<A>>>,
    w: int,
    y0: int,
    bx: int,
    by: int,
)
    requires
        leaves_shape(leaves, w, leaves.len() as int),
        single_block_leaves(leaves),
        y0 <= by,
        by + 2 <= y0 + leaves.len(),
        0 <= bx,
        bx + 2 <= w,
    ensures
        single_leaves(leaves_at(leaves, y0, bx, by)),
{
    let l = leaves_at(leaves, y0, bx, by);
    let ls = leaf_strategies(l);
    assert forall|i: int| 0 <= i < 4 implies covered_x(#[trigger] ls[i]) == 1 && covered_y(ls[i])
        == 1 by {
        let top = leaves[by - y0]@;
        let bottom = leaves[by + 1 - y0]@;
        assert(covered_x(top[bx].strategy) == 1 && covered_x(top[bx + 1].strategy) == 1);
        assert(covered_x(bottom[bx].strategy) == 1 && covered_x(bottom[bx + 1].strategy) == 1);
        assert(i == 0 || i == 1 || i == 2 || i == 3);
    }
}

/// A super-block's plan puts down the merges that deciding on the super-block
/// with the leaves' costs would.
pub proof fn law_plan_places_the_chosen_merges<A: Amount>(
    w: int,
    h: int,
    p: SelectionParams<A>,
    c: SuperBlockCosts<A>,
    l: [[LeafChoice<A>; 2]; 2],
    bx: int,
    by: int,
)
    requires
        single_leaves(l),
        0 <= bx < usize::MAX,
        0 <= by < usize::MAX,
    ensures
        plan_placements(super_plan(w, h, p, c, l, bx, by).grid, bx, by) == choice_placements(
            super_choice(
                w,
                h,
                bx,
                by,
                p.rectangles,
                p.policy.raw_propagation,
                p.tuning,
                with_leaves(c, l),
            ),
            bx,
            by,
        ),
{
    let full = with_leaves(c, l);
    let choice = super_choice(w, h, bx, by, p.rectangles, p.policy.raw_propagation, p.tuning, full);
    let grid = super_plan(w, h, p, c, l, bx, by).grid;
    let ls = leaf_strategies(l);
    assert(covered_x(ls[0]) == 1 && covered_y(ls[0]) == 1);
    assert(covered_x(ls[1]) == 1 && covered_y(ls[1]) == 1);
    assert(covered_x(ls[2]) == 1 && covered_y(ls[2]) == 1);
    assert(covered_x(ls[3]) == 1 && covered_y(ls[3]) == 1);
    reveal_with_fuel(pairs_of, 5);
    assert(plan_placements(grid, bx, by) =~= choice_placements(choice, bx, by));
}

/// Planning and committing a super-block of single blocks changes the layout as
/// deciding on it with the leaves' costs does.
pub proof fn law_leaf_super_step_layout<A: Amount>(
    w: int,
    h: int,
    p: SelectionParams<A>,
    c: SuperBlockCosts<A>,
    l: [[LeafChoice<A>; 2]; 2],
    bx: int,
    by: int,
    s: BandState<A>,
)
    requires
        single_leaves(l),
        0 <= bx < usize::MAX,
        0 <= by < usize::MAX,
    ensures
        leaf_super_step(w, h, p, c, l, bx, by, s).layout == super_step(
            w,
            h,
            p,
            with_leaves(c, l),
            bx,
            by,
            s,
        ).layout,
{
    law_plan_places_the_chosen_merges(w, h, p, c, l, bx, by);
}

proof fn lemma_committed_tiles<A: Amount>(
    w: int,
    h: int,
    p: SelectionParams<A>,
    c: SuperBlockCosts<A>,
    l: [[LeafChoice<A>; 2]; 2],
    bx: int,
    by: int,
    s: BandState<A>,
)
    requires
        single_leaves(l),
        tiled(s.layout, w, h),
        single_blocks(s.layout, w, h, bx, by, 2, 2),
        0 <= bx,
        bx + 2 <= w <= usize::MAX,
        0 <= by,
        by + 2 <= h <= usize::MAX,
    ensures
        ({
            let after = committed(s, super_plan(w, h, p, c, l, bx, by), bx, by);
            &&& tiled(after.layout, w, h)
            &&& closed_window(after.layout, w, h, bx, by, 2, 2)
            &&& keeps_windows(s.layout, after.layout, w, h, bx, by, 2, 2)
        }),
{
    law_plan_places_the_chosen_merges(w, h, p, c, l, bx, by);
    law_super_step_tiles(w, h, p, with_leaves(c, l), bx, by, s);
}

/// Deciding on a 4x4 region of single blocks from its leaves keeps the tiling and
/// leaves the region closed.
pub proof fn law_leaf_region_step_tiles<A: Amount>(
    w: int,
    h: int,
    p: SelectionParams<A>,
    c: SiteCosts<A>,
    leaves: Seq<Vec<LeafChoice<A>>>,
    y0: int,
    bx: int,
    by: int,
    s: BandState<A>,
)
    requires
        leaves_shape(leaves, w, leaves.len() as int),
        single_block_leaves(leaves),
        0 <= y0 <= by,
        by + 4 <= y0 + leaves.len(),
        tiled(s.layout, w, h),
        single_blocks(s.layout, w, h, bx, by, 4, 4),
        0 <= bx,
        bx + 4 <= w <= usize::MAX,
        by + 4 <= h <= usize::MAX,
    ensures
        ({
            let after = leaf_region_step(w, h, p, c, leaves, y0, bx, by, s);
            &&& tiled(after.layout, w, h)
            &&& closed_window(after.layout, w, h, bx, by, 4, 4)
            &&& keeps_windows(s.layout, after.layout, w, h, bx, by, 4, 4)
        }),
{
    let v = s.layout;
    let plans = region_plans(w, h, p, c, leaves, y0, bx, by);
    let choice = region_choice(w, h, p, c, plans, bx, by);
    lemma_singles_part(v, w, h, bx, by, 4, 4, bx, by, 2, 2);
    lemma_singles_part(v, w, h, bx, by, 4, 4, bx + 2, by, 2, 2);
    lemma_singles_part(v, w, h, bx, by, 4, 4, bx, by + 2, 2, 2);
    lemma_singles_part(v, w, h, bx, by, 4, 4, bx + 2, by + 2, 2, 2);
    lemma_keeps_self(v, w, h, bx, by, 4, 4);
    if choice.merged {
        lemma_super_windows(v, w, h, bx, by);
        lemma_super_windows(v, w, h, bx + 2, by);
        lemma_super_windows(v, w, h, bx, by + 2);
        lemma_super_windows(v, w, h, bx + 2, by + 2);
        lemma_closed_union(v, w, h, bx, by, 2, 2, 2, 0);
        lemma_closed_union(v, w, h, bx, by + 2, 2, 2, 2, 0);
        lemma_closed_union(v, w, h, bx, by, 2, 2, 0, 2);
        lemma_closed_union(v, w, h, bx + 2, by, 2, 2, 0, 2);
        lemma_closed_union(v, w, h, bx, by, 4, 2, 0, 2);
        let sites = merge32_sites_spec(bx, by);
        if choice.strategy == sites[0].strategy {
            lemma_one_merge(v, w, h, bx, by, sites[0]);
        } else if choice.strategy == sites[1].strategy {
            lemma_two_merges(v, w, h, bx, by, sites[1], sites[2]);
        } else {
            lemma_two_merges(v, w, h, bx, by, sites[3], sites[4]);
        }
        assert(leaf_region_step(w, h, p, c, leaves, y0, bx, by, s).layout == merged_layout(
            v,
            choice.strategy,
            bx,
            by,
        ));
    } else {
        lemma_leaves_at_single(leaves, w, y0, bx, by);
        lemma_leaves_at_single(leaves, w, y0, bx + 2, by);
        lemma_leaves_at_single(leaves, w, y0, bx, by + 2);
        lemma_leaves_at_single(leaves, w, y0, bx + 2, by + 2);
        let t = BandState {
            upgrades: s.upgrades + region_shortlist(w, h, p, c, leaves, y0, bx, by),
            ..s
        };
        let s0 = committed(t, plans[0], bx, by);
        let s1 = committed(s0, plans[1], bx + 2, by);
        let s2 = committed(s1, plans[2], bx, by + 2);
        let s3 = committed(s2, plans[3], bx + 2, by + 2);
        lemma_committed_tiles(
            w,
            h,
            p,
            c.supers@[0]@[0],
            leaves_at(leaves, y0, bx, by),
            bx,
            by,
            t,
        );
        lemma_keeps_chain(v, v, s0.layout, w, h, bx, by, 4, 4, bx, by, 2, 2);
        lemma_singles_kept(v, s0.layout, w, h, bx, by, 2, 2, bx + 2, by, 2, 2);
        lemma_singles_kept(v, s0.layout, w, h, bx, by, 2, 2, bx, by + 2, 2, 2);
        lemma_singles_kept(v, s0.layout, w, h, bx, by, 2, 2, bx + 2, by + 2, 2, 2);
        lemma_committed_tiles(
            w,
            h,
            p,
            c.supers@[0]@[1],
            leaves_at(leaves, y0, bx + 2, by),
            bx + 2,
            by,
            s0,
        );
        lemma_keeps_chain(v, s0.layout, s1.layout, w, h, bx, by, 4, 4, bx + 2, by, 2, 2);
        lemma_singles_kept(s0.layout, s1.layout, w, h, bx + 2, by, 2, 2, bx, by + 2, 2, 2);
        lemma_singles_kept(s0.layout, s1.layout, w, h, bx + 2, by, 2, 2, bx + 2, by + 2, 2, 2);
        lemma_committed_tiles(
            w,
            h,
            p,
            c.supers@[1]@[0],
            leaves_at(leaves, y0, bx, by + 2),
            bx,
            by + 2,
            s1,
        );
        lemma_keeps_chain(v, s1.layout, s2.layout, w, h, bx, by, 4, 4, bx, by + 2, 2, 2);
        lemma_singles_kept(s1.layout, s2.layout, w, h, bx, by + 2, 2, 2, bx + 2, by + 2, 2, 2);
        lemma_committed_tiles(
            w,
            h,
            p,
            c.supers@[1]@[1],
            leaves_at(leaves, y0, bx + 2, by + 2),
            bx + 2,
            by + 2,
            s2,
        );
        lemma_keeps_chain(v, s2.layout, s3.layout, w, h, bx, by, 4, 4, bx + 2, by + 2, 2, 2);
        assert(closed_window(s1.layout, w, h, bx, by, 2, 2));
        assert(closed_window(s2.layout, w, h, bx, by, 2, 2));
        assert(closed_window(s2.layout, w, h, bx + 2, by, 2, 2));
        assert(closed_window(s3.layout, w, h, bx, by, 2, 2));
        assert(closed_window(s3.layout, w, h, bx + 2, by, 2, 2));
        assert(closed_window(s3.layout, w, h, bx, by + 2, 2, 2));
        lemma_closed_union(s3.layout, w, h, bx, by, 2, 2, 2, 0);
        lemma_closed_union(s3.layout, w, h, bx, by + 2, 2, 2, 2, 0);
        lemma_closed_union(s3.layout, w, h, bx, by, 4, 2, 0, 2);
        assert(leaf_region_step(w, h, p, c, leaves, y0, bx, by, s).layout == s3.layout);
    }
}

/// A single block of a tiling is a first block of a transform over one block.
pub(crate) proof fn lemma_single_block(v: Layout, w: int, h: int, x: int, y: int)
    requires
        tiled(v, w, h),
        in_bounds(w, h, x, y),
        closed_window(v, w, h, x, y, 1, 1),
    ensures
        v[y][x].first,
        covered_x(v[y][x].strategy) == 1,
        covered_y(v[y][x].strategy) == 1,
{
    assert(covered(v, w, h, x, y));
    let (fx, fy) = choose|fx: int, fy: int|
        in_bounds(w, h, fx, fy) && #[trigger] covers(v, fx, fy, x, y);
    assert(covers(v, fx, fy, fx, fy));
    assert(in_window(x, y, 1, 1, x, y));
    assert(in_window(x, y, 1, 1, fx, fy));
    let cx = covered_x(v[fy][fx].strategy);
    let cy = covered_y(v[fy][fx].strategy);
    assert(covers(v, fx, fy, fx + cx - 1, fy + cy - 1));
    assert(in_window(x, y, 1, 1, fx + cx - 1, fy + cy - 1));
}

/// Two layouts of one size with the same first blocks and footprints, in which
/// only single blocks differ.
pub open spec fn same_shape(v: Layout, u: Layout, w: int, h: int) -> bool {
    &&& shaped(u, w, h)
    &&& forall|x: int, y: int|
        in_bounds(w, h, x, y) ==> ({
            let a = #[trigger] u[y][x];
            let b = v[y][x];
            ||| a == b
            ||| a.first && b.first && covered_x(a.strategy) == 1 && covered_y(a.strategy) == 1
                && covered_x(b.strategy) == 1 && covered_y(b.strategy) == 1
        })
}

/// Swapping single blocks for single blocks keeps the tiling and every closed
/// window.
pub proof fn law_single_block_swaps_keep_tiling(v: Layout, u: Layout, w: int, h: int)
    requires
        tiled(v, w, h),
        same_shape(v, u, w, h),
    ensures
        tiled(u, w, h),
        forall|x: int, y: int, a: int, b: int|
            closed_window(v, w, h, x, y, a, b) ==> #[trigger] closed_window(u, w, h, x, y, a, b),
{
    assert forall|fx: int, fy: int, x: int, y: int| in_bounds(w, h, fx, fy) implies #[trigger] covers(
        u,
        fx,
        fy,
        x,
        y,
    ) == covers(v, fx, fy, x, y) by {
        assert(u[fy][fx].first == v[fy][fx].first);
    }
    assert forall|x: int, y: int| in_bounds(w, h, x, y) implies #[trigger] covered(
        u,
        w,
        h,
        x,
        y,
    ) by {
        assert(covered(v, w, h, x, y));
        let (fx, fy) = choose|fx: int, fy: int|
            in_bounds(w, h, fx, fy) && #[trigger] covers(v, fx, fy, x, y);
        assert(covers(u, fx, fy, x, y));
    }
    assert forall|fx: int, fy: int, x: int, y: int|
        in_bounds(w, h, fx, fy) && in_bounds(w, h, x, y) && #[trigger] covers(
            u,
            fx,
            fy,
            x,
            y,
        ) implies u[y][x].strategy == u[fy][fx].strategy by {
        assert(covers(v, fx, fy, x, y));
        if u[fy][fx] == v[fy][fx] {
            if u[y][x] != v[y][x] {
                assert(covers(v, x, y, x, y));
                assert(fx == x && fy == y);
            }
        }
    }
    assert forall|fx: int, fy: int, gx: int, gy: int, x: int, y: int|
        in_bounds(w, h, fx, fy) && in_bounds(w, h, gx, gy) && #[trigger] covers(
            u,
            fx,
            fy,
            x,
            y,
        ) && #[trigger] covers(u, gx, gy, x, y) implies fx == gx && fy == gy by {
        assert(covers(v, fx, fy, x, y) && covers(v, gx, gy, x, y));
    }
    assert forall|fx: int, fy: int|
        in_bounds(w, h, fx, fy) && (#[trigger] u[fy][fx]).first implies fx + covered_x(
        u[fy][fx].strategy,
    ) <= w && fy + covered_y(u[fy][fx].strategy) <= h by {
        assert(v[fy][fx].first);
    }
    assert forall|x: int, y: int, a: int, b: int|
        closed_window(v, w, h, x, y, a, b) implies #[trigger] closed_window(
        u,
        w,
        h,
        x,
        y,
        a,
        b,
    ) by {
        assert forall|fx: int, fy: int, p: int, q: int, r: int, s: int|
            in_bounds(w, h, fx, fy) && #[trigger] covers(u, fx, fy, p, q) && #[trigger] covers(
                u,
                fx,
                fy,
                r,
                s,
            ) && in_window(x, y, a, b, p, q) implies in_window(x, y, a, b, r, s) by {
            assert(covers(v, fx, fy, p, q) && covers(v, fx, fy, r, s));
        }
    }
}

/// Writing the leaves over single blocks keeps the tiling, and the blocks stay
/// single.
pub proof fn law_leaves_keep_tiling<A>(
    v: Layout,
    w: int,
    h: int,
    leaves: Seq<Vec<LeafChoice<A>>>,
    y0: int,
)
    requires
        tiled(v, w, h),
        0 <= y0,
        y0 + leaves.len() <= h,
        leaves_shape(leaves, w, leaves.len() as int),
        single_block_leaves(leaves),
        single_blocks(v, w, h, 0, y0, w, leaves.len() as int),
    ensures
        tiled(leaves_layout(v, leaves, y0), w, h),
        single_blocks(leaves_layout(v, leaves, y0), w, h, 0, y0, w, leaves.len() as int),
{
    let u = leaves_layout(v, leaves, y0);
    assert forall|x: int, y: int| in_bounds(w, h, x, y) implies ({
        let a = #[trigger] u[y][x];
        let b = v[y][x];
        ||| a == b
        ||| a.first && b.first && covered_x(a.strategy) == 1 && covered_y(a.strategy) == 1
            && covered_x(b.strategy) == 1 && covered_y(b.strategy) == 1
    }) by {
        assert(v[y].len() == w);
        if u[y][x] != v[y][x] {
            assert(in_window(0, y0, w, leaves.len() as int, x, y));
            assert(closed_window(v, w, h, x, y, 1, 1));
            lemma_single_block(v, w, h, x, y);
            assert(covered_x(leaves[y - y0]@[x].strategy) == 1);
        }
    }
    law_single_block_swaps_keep_tiling(v, u, w, h);
    assert forall|x: int, y: int|
        in_window(0, y0, w, leaves.len() as int, x, y) implies #[trigger] closed_window(
        u,
        w,
        h,
        x,
        y,
        1,
        1,
    ) by {
        assert(closed_window(v, w, h, x, y, 1, 1));
    }
}

/// Taking offers keeps the tiling where no larger transform is taken for an 8x8
/// DCT.
pub proof fn law_refinement_keeps_tiling<A>(
    v: Layout,
    w: int,
    h: int,
    offers: Seq<Vec<Offer<A>>>,
    y0: int,
)
    requires
        tiled(v, w, h),
        0 <= y0,
        y0 + offers.len() <= h,
        forall|j: int| 0 <= j < offers.len() ==> (#[trigger] offers[j])@.len() == w,
        single_block_offers(offers),
    ensures
        tiled(refined_layout(v, offers, y0), w, h),
        forall|x: int, y: int, a: int, b: int|
            closed_window(v, w, h, x, y, a, b) ==> #[trigger] closed_window(
                refined_layout(v, offers, y0),
                w,
                h,
                x,
                y,
                a,
                b,
            ),
{
    let u = refined_layout(v, offers, y0);
    assert forall|x: int, y: int| in_bounds(w, h, x, y) implies ({
        let a = #[trigger] u[y][x];
        let b = v[y][x];
        ||| a == b
        ||| a.first && b.first && covered_x(a.strategy) == 1 && covered_y(a.strategy) == 1
            && covered_x(b.strategy) == 1 && covered_y(b.strategy) == 1
    }) by {
        assert(v[y].len() == w);
        if u[y][x] != v[y][x] {
            assert(takes_offer(v, offers, y0, x, y));
            assert(offers[y - y0]@[x] is Some);
            assert(covered(v, w, h, x, y));
            let (fx, fy) = choose|fx: int, fy: int|
                in_bounds(w, h, fx, fy) && #[trigger] covers(v, fx, fy, x, y);
            assert(v[y][x].strategy == v[fy][fx].strategy);
        }
    }
    law_single_block_swaps_keep_tiling(v, u, w, h);
}

proof fn lemma_after_leaf_sites_tiled<A: Amount>(
    w: int,
    h: int,
    p: SelectionParams<A>,
    sites: Seq<Site>,
    costs: Seq<SiteCosts<A>>,
    leaves: Seq<Vec<LeafChoice<A>>>,
    y0: int,
    s: BandState<A>,
    n: int,
)
    requires
        tiled(s.layout, w, h),
        w <= usize::MAX,
        h <= usize::MAX,
        0 <= y0,
        y0 + leaves.len() <= h,
        leaves_shape(leaves, w, leaves.len() as int),
        single_block_leaves(leaves),
        spread(sites, 0, w, y0, y0 + leaves.len()),
        untouched_from(s.layout, w, h, sites, 0),
        0 <= n <= sites.len(),
    ensures
        tiled(after_leaf_sites(w, h, p, sites, costs, leaves, y0, s, n).layout, w, h),
        untouched_from(
            after_leaf_sites(w, h, p, sites, costs, leaves, y0, s, n).layout,
            w,
            h,
            sites,
            n,
        ),
        closed_until(
            after_leaf_sites(w, h, p, sites, costs, leaves, y0, s, n).layout,
            w,
            h,
            sites,
            n,
        ),
    decreases n,
{
    if n > 0 {
        lemma_after_leaf_sites_tiled(w, h, p, sites, costs, leaves, y0, s, n - 1);
        let t = after_leaf_sites(w, h, p, sites, costs, leaves, y0, s, n - 1);
        let site = sites[n - 1];
        let bx = site.bx as int;
        let by = site.by as int;
        let after = after_leaf_sites(w, h, p, sites, costs, leaves, y0, s, n);
        assert(site.bx + site.side() <= w && site.by + site.side() <= y0 + leaves.len());
        assert(single_blocks(t.layout, w, h, bx, by, site.side(), site.side()));
        if site.quad {
            law_leaf_region_step_tiles(w, h, p, costs[n - 1], leaves, y0, bx, by, t);
        } else {
            let c = costs[n - 1].supers@[0]@[0];
            let l = leaves_at(leaves, y0, bx, by);
            lemma_leaves_at_single(leaves, w, y0, bx, by);
            law_leaf_super_step_layout(w, h, p, c, l, bx, by, t);
            law_super_step_tiles(w, h, p, with_leaves(c, l), bx, by, t);
        }
        assert forall|i: int| n <= i < sites.len() implies single_blocks(
            after.layout,
            w,
            h,
            (#[trigger] sites[i]).bx as int,
            sites[i].by as int,
            sites[i].side(),
            sites[i].side(),
        ) by {
            assert forall|x: int, y: int| site.holds(x, y) implies !#[trigger] sites[i].holds(
                x,
                y,
            ) by {
                assert(sites[n - 1].holds(x, y));
            }
            lemma_sites_apart(site, sites[i]);
            lemma_singles_kept(
                t.layout,
                after.layout,
                w,
                h,
                bx,
                by,
                site.side(),
                site.side(),
                sites[i].bx as int,
                sites[i].by as int,
                sites[i].side(),
                sites[i].side(),
            );
        }
        assert forall|i: int| 0 <= i < n implies closed_window(
            after.layout,
            w,
            h,
            (#[trigger] sites[i]).bx as int,
            sites[i].by as int,
            sites[i].side(),
            sites[i].side(),
        ) by {
            if i < n - 1 {
                let other = sites[i];
                assert forall|x: int, y: int| site.holds(x, y) implies !#[trigger] other.holds(
                    x,
                    y,
                ) by {
                    assert(sites[n - 1].holds(x, y));
                    assert(sites[i].holds(x, y) ==> !sites[n - 1].holds(x, y));
                }
                lemma_sites_apart(site, other);
                assert(closed_window(
                    t.layout,
                    w,
                    h,
                    other.bx as int,
                    other.by as int,
                    other.side(),
                    other.side(),
                ));
            }
        }
    }
}

/// Leaf-first selection over a band of single blocks in a tiling leaves a tiling,
/// in which no transform crosses the border of a site.
pub proof fn law_leaf_first_keeps_tiling<A: Amount>(
    w: int,
    h: int,
    p: SelectionParams<A>,
    y0: int,
    y1: int,
    costs: Seq<SiteCosts<A>>,
    leaves: Seq<Vec<LeafChoice<A>>>,
    s: BandState<A>,
)
    requires
        0 <= w <= usize::MAX,
        0 <= y0 <= y1 <= h <= usize::MAX,
        y0 % 4 == 0,
        y1 % 4 == 0 || y1 == h,
        leaves_shape(leaves, w, y1 - y0),
        single_block_leaves(leaves),
        costs.len() == band_sites(w, h, y0, y1).len(),
        tiled(s.layout, w, h),
        single_blocks(s.layout, w, h, 0, y0, w, y1 - y0),
    ensures
        tiled(after_leaf_first(w, h, p, y0, y1, costs, leaves, s).layout, w, h),
        closed_until(
            after_leaf_first(w, h, p, y0, y1, costs, leaves, s).layout,
            w,
            h,
            band_sites(w, h, y0, y1),
            band_sites(w, h, y0, y1).len() as int,
        ),
{
    let sites = band_sites(w, h, y0, y1);
    let start = BandState { layout: leaves_layout(s.layout, leaves, y0), ..s };
    law_sites_do_not_overlap(w, h, y0, y1);
    law_leaves_keep_tiling(s.layout, w, h, leaves, y0);
    assert forall|i: int| 0 <= i < sites.len() implies single_blocks(
        start.layout,
        w,
        h,
        (#[trigger] sites[i]).bx as int,
        sites[i].by as int,
        sites[i].side(),
        sites[i].side(),
    ) by {
        lemma_singles_part(
            start.layout,
            w,
            h,
            0,
            y0,
            w,
            y1 - y0,
            sites[i].bx as int,
            sites[i].by as int,
            sites[i].side(),
            sites[i].side(),
        );
    }
    lemma_after_leaf_sites_tiled(
        w,
        h,
        p,
        sites,
        costs,
        leaves,
        y0,
        start,
        sites.len() as int,
    );
}

} // verus!
