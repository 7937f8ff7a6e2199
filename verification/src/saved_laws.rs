//! Where the child layouts that leaf-first selection saves belong.

use crate::amount::Amount;
use crate::bands::{band_sites, law_sites_do_not_overlap, spread, Site};
use crate::leaf_first::{
    after_leaf_first, after_leaf_sites, committed, leaf_region_step, leaves_at, leaves_layout,
    leaves_shape, plan_placements, plan_saved, region_choice, region_grid, region_plans,
    region_shortlist, saved_part, single_block_leaves, super_plan, LeafChoice,
};
use crate::leaf_first_laws::{
    law_plan_places_the_chosen_merges, lemma_leaves_at_single, single_leaves,
};
use crate::selection::{BandState, SelectionParams, SiteCosts};
use crate::strategy::{
    covered_x, covered_y, NO_CHILD_BLOCK, STRATEGY_DCT16X16, STRATEGY_DCT16X32, STRATEGY_DCT32X16,
    STRATEGY_DCT32X32,
};
use crate::strategy_map::{in_window, with_first, Layout};
use crate::super_block::{SavedView, SuperBlockCosts};
use crate::tiling::{place_all, shaped};
use vstd::prelude::*;

verus! {

/// A saved layout lies at the first block of a transform over several blocks and
/// describes blocks of that transform's footprint alone.
pub open spec fn describes_its_transform(v: Layout, e: SavedView) -> bool {
    let cell = v[e.by][e.bx];
    &&& 0 <= e.by < v.len()
    &&& 0 <= e.bx < v[e.by].len()
    &&& cell.first
    &&& covered_x(cell.strategy) * covered_y(cell.strategy) > 1
    &&& e.grid.len() == 16
    &&& forall|i: int|
        0 <= i < 16 && #[trigger] e.grid[i] != NO_CHILD_BLOCK ==> i % 4 < covered_x(cell.strategy)
            && i / 4 < covered_y(cell.strategy)
}

/// Nothing outside the window changed.
pub open spec fn same_outside(v: Layout, u: Layout, bx: int, by: int, w: int, h: int) -> bool {
    &&& u.len() == v.len()
    &&& forall|y: int| 0 <= y < v.len() ==> (#[trigger] u[y]).len() == v[y].len()
    &&& forall|y: int, x: int|
        0 <= y < v.len() && 0 <= x < v[y].len() && !in_window(bx, by, w, h, x, y)
            ==> #[trigger] u[y][x] == v[y][x]
}

proof fn lemma_same_outside_chain(
    a: Layout,
    b: Layout,
    c: Layout,
    bx: int,
    by: int,
    w: int,
    h: int,
    x: int,
    y: int,
    ww: int,
    hh: int,
)
    requires
        same_outside(a, b, bx, by, w, h),
        same_outside(b, c, x, y, ww, hh),
        bx <= x,
        by <= y,
        x + ww <= bx + w,
        y + hh <= by + h,
    ensures
        same_outside(a, c, bx, by, w, h),
{
    assert forall|j: int| 0 <= j < a.len() implies (#[trigger] c[j]).len() == a[j].len() by {
        assert(b[j].len() == a[j].len());
    }
    assert forall|j: int, i: int|
        0 <= j < a.len() && 0 <= i < a[j].len() && !in_window(
            bx,
            by,
            w,
            h,
            i,
            j,
        ) implies #[trigger] c[j][i] == a[j][i] by {
        assert(b[j].len() == a[j].len());
        assert(b[j][i] == a[j][i]);
        assert(!in_window(x, y, ww, hh, i, j));
        assert(c[j][i] == b[j][i]);
    }
}

/// A saved layout outside the changed window stays described.
proof fn lemma_still_described(
    v: Layout,
    u: Layout,
    bx: int,
    by: int,
    w: int,
    h: int,
    e: SavedView,
)
    requires
        same_outside(v, u, bx, by, w, h),
        describes_its_transform(v, e),
        !in_window(bx, by, w, h, e.bx, e.by),
    ensures
        describes_its_transform(u, e),
{
    assert(u[e.by].len() == v[e.by].len());
    assert(u[e.by][e.bx] == v[e.by][e.bx]);
}

/// Committing a plan changes its super-block alone, and what it saves describes
/// the transform put down there.
proof fn lemma_committed_saves<A: Amount>(
    w: int,
    h: int,
    p: SelectionParams<A>,
    c: SuperBlockCosts<A>,
    l: [[LeafChoice<A>; 2]; 2],
    bx: int,
    by: int,
    s: BandState<A>,
)
    requires
        single_leaves(l),
        shaped(s.layout, w, h),
        0 <= bx,
        bx + 2 <= w <= usize::MAX,
        0 <= by,
        by + 2 <= h <= usize::MAX,
    ensures
        ({
            let plan = super_plan(w, h, p, c, l, bx, by);
            let after = committed(s, plan, bx, by);
            let new = plan_saved(plan, bx, by);
            &&& shaped(after.layout, w, h)
            &&& same_outside(s.layout, after.layout, bx, by, 2, 2)
            &&& after.saved == s.saved + new
            &&& forall|k: int|
                0 <= k < new.len() ==> describes_its_transform(after.layout, #[trigger] new[k])
                    && new[k].bx == bx && new[k].by == by
        }),
{
    law_plan_places_the_chosen_merges(w, h, p, c, l, bx, by);
    let plan = super_plan(w, h, p, c, l, bx, by);
    let placed = plan_placements(plan.grid, bx, by);
    let after = committed(s, plan, bx, by);
    reveal_with_fuel(place_all, 3);
    let v = s.layout;
    if placed.len() == 0 {
    } else if placed.len() == 1 {
        assert(placed.drop_last() =~= Seq::empty());
        let q = placed[0];
        assert(after.layout == with_first(v, q.x as int, q.y as int, q.strategy));
    } else {
        assert(placed.len() == 2);
        assert(placed.drop_last().drop_last() =~= Seq::empty());
        let q = placed[0];
        let r = placed[1];
        assert(placed.drop_last() =~= seq![q]);
        let u = with_first(v, q.x as int, q.y as int, q.strategy);
        assert(after.layout == with_first(u, r.x as int, r.y as int, r.strategy));
    }
    assert(after.layout.len() == h);
    assert forall|y: int| 0 <= y < h implies (#[trigger] after.layout[y]).len() == w by {
        assert(v[y].len() == w);
    }
    assert(same_outside(v, after.layout, bx, by, 2, 2));
    let new = plan_saved(plan, bx, by);
    if new.len() > 0 {
        assert(plan.grid[0] == STRATEGY_DCT16X16);
        assert(after.layout == with_first(v, bx, by, STRATEGY_DCT16X16));
        assert(v[by].len() == w);
        assert(after.layout[by][bx].strategy == STRATEGY_DCT16X16);
        assert(after.layout[by][bx].first);
        let e = new[0];
        assert forall|i: int| 0 <= i < 16 && #[trigger] e.grid[i] != NO_CHILD_BLOCK implies i % 4
            < covered_x(STRATEGY_DCT16X16) && i / 4 < covered_y(STRATEGY_DCT16X16) by {
            assert(i / 4 / 2 == 0 && i % 4 / 2 == 0);
        }
        assert(describes_its_transform(after.layout, e));
    }
}

/// A part of a region's grid describes the transform put down over the part.
proof fn lemma_part_described(
    u: Layout,
    grid: Seq<u8>,
    strategy: u8,
    ox: int,
    oy: int,
    bx: int,
    by: int,
)
    requires
        strategy == STRATEGY_DCT32X32 || strategy == STRATEGY_DCT32X16 || strategy
            == STRATEGY_DCT16X32,
        0 <= by + oy < u.len(),
        0 <= bx + ox < u[by + oy].len(),
        u[by + oy][bx + ox].first,
        u[by + oy][bx + ox].strategy == strategy,
    ensures
        forall|k: int|
            0 <= k < saved_part(grid, strategy, ox, oy, bx, by).len() ==> {
                let e = #[trigger] saved_part(grid, strategy, ox, oy, bx, by)[k];
                describes_its_transform(u, e) && e.bx == bx + ox && e.by == by + oy
            },
        saved_part(grid, strategy, ox, oy, bx, by).len() <= 1,
{
    let part = saved_part(grid, strategy, ox, oy, bx, by);
    if part.len() > 0 {
        let e = part[0];
        assert forall|i: int| 0 <= i < 16 && #[trigger] e.grid[i] != NO_CHILD_BLOCK implies i % 4
            < covered_x(strategy) && i / 4 < covered_y(strategy) by {}
        assert(describes_its_transform(u, e));
    }
}

/// Every entry of `saved` from `from` on describes its transform and lies in the
/// window.
pub open spec fn described_from(
    v: Layout,
    saved: Seq<SavedView>,
    from: int,
    bx: int,
    by: int,
    side: int,
) -> bool {
    forall|k: int|
        from <= k < saved.len() ==> describes_its_transform(v, #[trigger] saved[k]) && in_window(
            bx,
            by,
            side,
            side,
            saved[k].bx,
            saved[k].by,
        )
}

/// One super-block of a region committed after others.
proof fn lemma_next_super<A: Amount>(
    w: int,
    h: int,
    p: SelectionParams<A>,
    c: SuperBlockCosts<A>,
    l: [[LeafChoice<A>; 2]; 2],
    bx: int,
    by: int,
    x: int,
    y: int,
    v: Layout,
    from: int,
    s: BandState<A>,
)
    requires
        single_leaves(l),
        shaped(s.layout, w, h),
        0 <= bx <= x,
        x + 2 <= bx + 4 <= w <= usize::MAX,
        0 <= by <= y,
        y + 2 <= by + 4 <= h <= usize::MAX,
        same_outside(v, s.layout, bx, by, 4, 4),
        0 <= from <= s.saved.len(),
        described_from(s.layout, s.saved, from, bx, by, 4),
        forall|k: int|
            from <= k < s.saved.len() ==> !in_window(
                x,
                y,
                2,
                2,
                (#[trigger] s.saved[k]).bx,
                s.saved[k].by,
            ),
    ensures
        ({
            let after = committed(s, super_plan(w, h, p, c, l, x, y), x, y);
            &&& shaped(after.layout, w, h)
            &&& same_outside(v, after.layout, bx, by, 4, 4)
            &&& after.saved.len() >= s.saved.len()
            &&& after.saved.subrange(0, s.saved.len() as int) == s.saved
            &&& described_from(after.layout, after.saved, from, bx, by, 4)
            &&& forall|k: int|
                s.saved.len() <= k < after.saved.len() ==> (#[trigger] after.saved[k]).bx == x
                    && after.saved[k].by == y
        }),
{
    let plan = super_plan(w, h, p, c, l, x, y);
    let after = committed(s, plan, x, y);
    let new = plan_saved(plan, x, y);
    lemma_committed_saves(w, h, p, c, l, x, y, s);
    lemma_same_outside_chain(v, s.layout, after.layout, bx, by, 4, 4, x, y, 2, 2);
    assert(after.saved.subrange(0, s.saved.len() as int) =~= s.saved);
    assert forall|k: int| from <= k < after.saved.len() implies describes_its_transform(
        after.layout,
        #[trigger] after.saved[k],
    ) && in_window(bx, by, 4, 4, after.saved[k].bx, after.saved[k].by) by {
        if k < s.saved.len() {
            assert(after.saved[k] == s.saved[k]);
            lemma_still_described(s.layout, after.layout, x, y, 2, 2, s.saved[k]);
        } else {
            assert(after.saved[k] == new[k - s.saved.len()]);
        }
    }
    assert forall|k: int| s.saved.len() <= k < after.saved.len() implies (
    #[trigger] after.saved[k]).bx == x && after.saved[k].by == y by {
        assert(after.saved[k] == new[k - s.saved.len()]);
    }
}

pub(crate) proof fn lemma_region_saves<A: Amount>(
    w: int,
    h: int,
    p: SelectionParams<A>,
    c: SiteCosts<A>,
    leaves: Seq<Vec<LeafChoice<A>>>,
    y0: int,
    bx: int,
    by: int,
    s: BandState<A>,
)
    requires
        leaves_shape(leaves, w, leaves.len() as int),
        single_block_leaves(leaves),
        0 <= y0 <= by,
        by + 4 <= y0 + leaves.len(),
        shaped(s.layout, w, h),
        0 <= bx,
        bx + 4 <= w <= usize::MAX,
        by + 4 <= h <= usize::MAX,
    ensures
        ({
            let after = leaf_region_step(w, h, p, c, leaves, y0, bx, by, s);
            &&& shaped(after.layout, w, h)
            &&& same_outside(s.layout, after.layout, bx, by, 4, 4)
            &&& after.saved.len() >= s.saved.len()
            &&& after.saved.subrange(0, s.saved.len() as int) == s.saved
            &&& described_from(after.layout, after.saved, s.saved.len() as int, bx, by, 4)
        }),
{
    let plans = region_plans(w, h, p, c, leaves, y0, bx, by);
    let choice = region_choice(w, h, p, c, plans, bx, by);
    let after = leaf_region_step(w, h, p, c, leaves, y0, bx, by, s);
    let from = s.saved.len() as int;
    let v = s.layout;
    if choice.merged {
        let grid = region_grid(plans);
        let u = after.layout;
        assert(u.len() == h);
        assert forall|y: int| 0 <= y < h implies (#[trigger] u[y]).len() == w by {
            assert(v[y].len() == w);
        }
        assert(v[by].len() == w && v[by + 2].len() == w);
        assert(u[by].len() == w && u[by + 2].len() == w);
        assert(same_outside(v, u, bx, by, 4, 4));
        let first = saved_part(grid, choice.strategy, 0, 0, bx, by);
        assert(u[by][bx].first && u[by][bx].strategy == choice.strategy);
        lemma_part_described(u, grid, choice.strategy, 0, 0, bx, by);
        if choice.strategy == STRATEGY_DCT32X32 {
            assert(after.saved =~= s.saved + first);
        } else if choice.strategy == STRATEGY_DCT32X16 {
            let second = saved_part(grid, choice.strategy, 2, 0, bx, by);
            assert(u[by][bx + 2].first && u[by][bx + 2].strategy == choice.strategy);
            lemma_part_described(u, grid, choice.strategy, 2, 0, bx, by);
            assert(after.saved =~= s.saved + first + second);
        } else {
            assert(choice.strategy == STRATEGY_DCT16X32);
            let second = saved_part(grid, choice.strategy, 0, 2, bx, by);
            assert(u[by + 2][bx].first && u[by + 2][bx].strategy == choice.strategy);
            lemma_part_described(u, grid, choice.strategy, 0, 2, bx, by);
            assert(after.saved =~= s.saved + first + second);
        }
        assert(after.saved.subrange(0, from) =~= s.saved);
    } else {
        lemma_leaves_at_single(leaves, w, y0, bx, by);
        lemma_leaves_at_single(leaves, w, y0, bx + 2, by);
        lemma_leaves_at_single(leaves, w, y0, bx, by + 2);
        lemma_leaves_at_single(leaves, w, y0, bx + 2, by + 2);
        let t = BandState {
            upgrades: s.upgrades + region_shortlist(w, h, p, c, leaves, y0, bx, by),
            ..s
        };
        let l0 = leaves_at(leaves, y0, bx, by);
        let l1 = leaves_at(leaves, y0, bx + 2, by);
        let l2 = leaves_at(leaves, y0, bx, by + 2);
        let l3 = leaves_at(leaves, y0, bx + 2, by + 2);
        let s0 = committed(t, plans[0], bx, by);
        let s1 = committed(s0, plans[1], bx + 2, by);
        let s2 = committed(s1, plans[2], bx, by + 2);
        let s3 = committed(s2, plans[3], bx + 2, by + 2);
        lemma_next_super(w, h, p, c.supers@[0]@[0], l0, bx, by, bx, by, v, from, t);
        lemma_next_super(w, h, p, c.supers@[0]@[1], l1, bx, by, bx + 2, by, v, from, s0);
        assert forall|k: int| from <= k < s1.saved.len() implies (#[trigger] s1.saved[k]).by
            == by by {
            if k < s0.saved.len() {
                assert(s1.saved.subrange(0, s0.saved.len() as int)[k] == s0.saved[k]);
            }
        }
        lemma_next_super(w, h, p, c.supers@[1]@[0], l2, bx, by, bx, by + 2, v, from, s1);
        assert forall|k: int| from <= k < s2.saved.len() implies (#[trigger] s2.saved[k]).by == by
            || s2.saved[k].bx == bx by {
            if k < s1.saved.len() {
                assert(s2.saved.subrange(0, s1.saved.len() as int)[k] == s1.saved[k]);
            }
        }
        lemma_next_super(w, h, p, c.supers@[1]@[1], l3, bx, by, bx + 2, by + 2, v, from, s2);
        assert(after.layout == s3.layout && after.saved == s3.saved);
        assert(s3.saved.subrange(0, from) =~= s.saved) by {
            assert forall|k: int| 0 <= k < from implies s3.saved[k] == s.saved[k] by {
                assert(s3.saved.subrange(0, s2.saved.len() as int)[k] == s2.saved[k]);
                assert(s2.saved.subrange(0, s1.saved.len() as int)[k] == s1.saved[k]);
                assert(s1.saved.subrange(0, s0.saved.len() as int)[k] == s0.saved[k]);
                assert(s0.saved.subrange(0, t.saved.len() as int)[k] == t.saved[k]);
            }
        }
    }
}

/// Every entry describes its transform and lies in one of the leading `n` sites.
spec fn described_in_sites(v: Layout, saved: Seq<SavedView>, sites: Seq<Site>, n: int) -> bool {
    forall|k: int|
        0 <= k < saved.len() ==> describes_its_transform(v, #[trigger] saved[k]) && exists|i: int|
            0 <= i < n && (#[trigger] sites[i]).holds(saved[k].bx, saved[k].by)
}

proof fn lemma_sites_save<A: Amount>(
    w: int,
    h: int,
    p: SelectionParams<A>,
    sites: Seq<Site>,
    costs: Seq<SiteCosts<A>>,
    leaves: Seq<Vec<LeafChoice<A>>>,
    y0: int,
    s: BandState<A>,
    n: int,
)
    requires
        0 <= w <= usize::MAX,
        0 <= h <= usize::MAX,
        0 <= y0,
        y0 + leaves.len() <= h,
        leaves_shape(leaves, w, leaves.len() as int),
        single_block_leaves(leaves),
        spread(sites, 0, w, y0, y0 + leaves.len()),
        0 <= n <= sites.len(),
        shaped(s.layout, w, h),
        s.saved.len() == 0,
    ensures
        shaped(after_leaf_sites(w, h, p, sites, costs, leaves, y0, s, n).layout, w, h),
        described_in_sites(
            after_leaf_sites(w, h, p, sites, costs, leaves, y0, s, n).layout,
            after_leaf_sites(w, h, p, sites, costs, leaves, y0, s, n).saved,
            sites,
            n,
        ),
    decreases n,
{
    if n > 0 {
        lemma_sites_save(w, h, p, sites, costs, leaves, y0, s, n - 1);
        let t = after_leaf_sites(w, h, p, sites, costs, leaves, y0, s, n - 1);
        let after = after_leaf_sites(w, h, p, sites, costs, leaves, y0, s, n);
        let site = sites[n - 1];
        let bx = site.bx as int;
        let by = site.by as int;
        let side = site.side();
        let from = t.saved.len() as int;
        if site.quad {
            lemma_region_saves(w, h, p, costs[n - 1], leaves, y0, bx, by, t);
        } else {
            let c = costs[n - 1].supers@[0]@[0];
            let l = leaves_at(leaves, y0, bx, by);
            lemma_leaves_at_single(leaves, w, y0, bx, by);
            let plan = super_plan(w, h, p, c, l, bx, by);
            let ready = BandState { upgrades: after.upgrades, ..t };
            lemma_committed_saves(w, h, p, c, l, bx, by, ready);
            assert(after.layout == committed(ready, plan, bx, by).layout);
            assert(after.saved == t.saved + plan_saved(plan, bx, by));
            assert(after.saved.subrange(0, from) =~= t.saved);
            assert forall|k: int| from <= k < after.saved.len() implies describes_its_transform(
                after.layout,
                #[trigger] after.saved[k],
            ) && in_window(bx, by, 2, 2, after.saved[k].bx, after.saved[k].by) by {
                assert(after.saved[k] == plan_saved(plan, bx, by)[k - from]);
            }
        }
        assert(same_outside(t.layout, after.layout, bx, by, side, side));
        assert(described_from(after.layout, after.saved, from, bx, by, side));
        assert forall|k: int| 0 <= k < after.saved.len() implies describes_its_transform(
            after.layout,
            #[trigger] after.saved[k],
        ) && exists|i: int|
            0 <= i < n && (#[trigger] sites[i]).holds(after.saved[k].bx, after.saved[k].by) by {
            let e = after.saved[k];
            if k < from {
                assert(after.saved.subrange(0, from)[k] == t.saved[k]);
                assert(e == t.saved[k]);
                let i = choose|i: int|
                    0 <= i < n - 1 && (#[trigger] sites[i]).holds(e.bx, e.by);
                assert(sites[i].holds(e.bx, e.by));
                assert(!sites[n - 1].holds(e.bx, e.by));
                lemma_still_described(t.layout, after.layout, bx, by, side, side, e);
            } else {
                assert(sites[n - 1].holds(e.bx, e.by));
            }
        }
    }
}

/// Every child layout that leaf-first selection saves lies at the first block of
/// a transform that was put down over several blocks, and describes blocks of
/// that transform's footprint alone.
pub proof fn law_saved_children_describe_their_transforms<A: Amount>(
    w: int,
    h: int,
    p: SelectionParams<A>,
    y0: int,
    y1: int,
    costs: Seq<SiteCosts<A>>,
    leaves: Seq<Vec<LeafChoice<A>>>,
    s: BandState<A>,
    k: int,
)
    requires
        0 <= w <= usize::MAX,
        0 <= y0 <= y1 <= h <= usize::MAX,
        y0 % 4 == 0,
        y1 % 4 == 0 || y1 == h,
        leaves_shape(leaves, w, y1 - y0),
        single_block_leaves(leaves),
        costs.len() == band_sites(w, h, y0, y1).len(),
        shaped(s.layout, w, h),
        s.saved.len() == 0,
        0 <= k < after_leaf_first(w, h, p, y0, y1, costs, leaves, s).saved.len(),
    ensures
        describes_its_transform(
            after_leaf_first(w, h, p, y0, y1, costs, leaves, s).layout,
            after_leaf_first(w, h, p, y0, y1, costs, leaves, s).saved[k],
        ),
{
    let sites = band_sites(w, h, y0, y1);
    law_sites_do_not_overlap(w, h, y0, y1);
    let start = BandState { layout: leaves_layout(s.layout, leaves, y0), ..s };
    assert(shaped(start.layout, w, h)) by {
        assert forall|y: int| 0 <= y < h implies (#[trigger] start.layout[y]).len() == w by {
            assert(s.layout[y].len() == w);
        }
    }
    lemma_sites_save(w, h, p, sites, costs, leaves, y0, start, costs.len() as int);
}

} // verus!
