//! The child layouts that are found for the merges of a map do not depend on whether
//! selection started from the leaves.

use crate::amount::OrderedAmount;
use crate::bands::{band_sites, law_sites_do_not_overlap, spread, Site};
use crate::leaf_first::{
    after_leaf_first, after_leaf_sites, leaf_region_step, leaf_strategies, leaf_super_step,
    leaves_at, leaves_shape, merge_span, plan_saved, region_choice, region_grid, region_plans,
    saved_part, saved_parts, single_block_leaves, super_plan, LeafChoice, PlanView,
};
use crate::merge::chosen;
use crate::saved_laws::{lemma_region_saves, same_outside};
use crate::scope_laws::{
    law_super_blocks_of_plain_leaves_agree, lemma_plain_leaves_change_nothing,
    lemma_region_layouts, lemma_super_step_outside, mask_of,
    plain_leaves, priced_from_leaves, region_decided_alike, region_mask, site_priced_from_leaves,
};
use crate::selection::{
    after_sites, commit32, region_step, super_step, BandState, SelectionParams, SiteCosts,
};
use crate::strategy::{
    covered_x, covered_y, NO_CHILD_BLOCK, STRATEGY_DCT, STRATEGY_DCT16X16, STRATEGY_DCT16X32, STRATEGY_DCT32X16,
    STRATEGY_DCT32X32,
};
use crate::strategy_map::{in_window, with_first, Cell, Layout};
use crate::super_block::{
    captured, choice_placements, kept, merge32_sites_spec, nontrivial, stands_out, sub_grid_spec,
    super_choice, window_stands_out, SavedView, SuperBlockCosts,
};
use crate::tiling::{place_all, shaped};
use vstd::prelude::*;

verus! {

/// The layout saved last, among the leading `n`, for the block `(x, y)`.
pub open spec fn found_among(saved: Seq<SavedView>, n: int, x: int, y: int) -> Option<Seq<u8>>
    decreases n,
{
    if n <= 0 {
        None
    } else if saved[n - 1].bx == x && saved[n - 1].by == y {
        Some(saved[n - 1].grid)
    } else {
        found_among(saved, n - 1, x, y)
    }
}

/// The layout found for the block `(x, y)`.
pub open spec fn found_at(saved: Seq<SavedView>, x: int, y: int) -> Option<Seq<u8>> {
    found_among(saved, saved.len() as int, x, y)
}

proof fn lemma_found_prefix(a: Seq<SavedView>, b: Seq<SavedView>, n: int, x: int, y: int)
    requires
        0 <= n <= a.len(),
    ensures
        found_among(a + b, n, x, y) == found_among(a, n, x, y),
    decreases n,
{
    if n > 0 {
        lemma_found_prefix(a, b, n - 1, x, y);
        assert((a + b)[n - 1] == a[n - 1]);
    }
}

proof fn lemma_found_suffix(a: Seq<SavedView>, b: Seq<SavedView>, n: int, x: int, y: int)
    requires
        0 <= n <= b.len(),
    ensures
        found_among(a + b, a.len() + n, x, y) == (if found_among(b, n, x, y) is Some {
            found_among(b, n, x, y)
        } else {
            found_at(a, x, y)
        }),
    decreases n,
{
    if n > 0 {
        lemma_found_suffix(a, b, n - 1, x, y);
        assert((a + b)[a.len() + n - 1] == b[n - 1]);
    } else {
        lemma_found_prefix(a, b, a.len() as int, x, y);
    }
}

/// What was saved later counts.
proof fn lemma_found_joined(a: Seq<SavedView>, b: Seq<SavedView>, x: int, y: int)
    ensures
        found_at(a + b, x, y) == (if found_at(b, x, y) is Some {
            found_at(b, x, y)
        } else {
            found_at(a, x, y)
        }),
{
    lemma_found_suffix(a, b, b.len() as int, x, y);
}

proof fn lemma_found_nowhere(saved: Seq<SavedView>, n: int, x: int, y: int)
    requires
        0 <= n <= saved.len(),
        forall|k: int| 0 <= k < n ==> (#[trigger] saved[k]).bx != x || saved[k].by != y,
    ensures
        found_among(saved, n, x, y) is None,
    decreases n,
{
    if n > 0 {
        lemma_found_nowhere(saved, n - 1, x, y);
    }
}

/// The blocks of a window are 8x8 DCTs.
pub open spec fn untouched(v: Layout, bx: int, by: int, w: int, h: int) -> bool {
    forall|x: int, y: int|
        in_window(bx, by, w, h, x, y) ==> #[trigger] v[y][x] == (Cell {
            strategy: STRATEGY_DCT,
            first: true,
        })
}

/// What a block of a layout looks like in a grid.
spec fn mark(v: Layout, x: int, y: int) -> u8 {
    if v[y][x].first {
        v[y][x].strategy
    } else {
        NO_CHILD_BLOCK
    }
}

/// A block of a layout looks like an entry of a grid, and no first block like none.
spec fn marked(v: Layout, x: int, y: int, entry: u8) -> bool {
    mark(v, x, y) == entry && (v[y][x].first ==> v[y][x].strategy != NO_CHILD_BLOCK)
}

proof fn lemma_plain_leaves<A>(
    leaves: Seq<Vec<LeafChoice<A>>>,
    w: int,
    y0: int,
    bx: int,
    by: int,
)
    requires
        leaves_shape(leaves, w, leaves.len() as int),
        plain_leaves(leaves),
        y0 <= by,
        by + 2 <= y0 + leaves.len(),
        0 <= bx,
        bx + 2 <= w,
    ensures
        forall|i: int|
            0 <= i < 4 ==> #[trigger] leaf_strategies(leaves_at(leaves, y0, bx, by))[i]
                == STRATEGY_DCT,
{
    let top = leaves[by - y0]@;
    let bottom = leaves[by + 1 - y0]@;
    assert(top[bx].strategy == STRATEGY_DCT && top[bx + 1].strategy == STRATEGY_DCT);
    assert(bottom[bx].strategy == STRATEGY_DCT && bottom[bx + 1].strategy == STRATEGY_DCT);
    let ls = leaf_strategies(leaves_at(leaves, y0, bx, by));
    assert forall|i: int| 0 <= i < 4 implies #[trigger] ls[i] == STRATEGY_DCT by {
        assert(i == 0 || i == 1 || i == 2 || i == 3);
    }
}

/// On untouched blocks the decision on a super-block leaves what its plan says, and
/// saves what the plan saves.
proof fn lemma_super_marks<A: OrderedAmount>(
    w: int,
    h: int,
    p: SelectionParams<A>,
    c: SuperBlockCosts<A>,
    leaves: Seq<Vec<LeafChoice<A>>>,
    y0: int,
    bx: int,
    by: int,
    s: BandState<A>,
)
    requires
        leaves_shape(leaves, w, leaves.len() as int),
        plain_leaves(leaves),
        priced_from_leaves(c, leaves, y0, bx, by),
        y0 <= by,
        by + 2 <= y0 + leaves.len(),
        0 <= bx,
        0 <= by,
        bx + 2 <= w <= usize::MAX,
        by + 2 <= h <= usize::MAX,
        shaped(s.layout, w, h),
        untouched(s.layout, bx, by, 2, 2),
    ensures
        ({
            let plan = super_plan(w, h, p, c, leaves_at(leaves, y0, bx, by), bx, by);
            let after = super_state(w, h, p, c, bx, by, s);
            &&& shaped(after.layout, w, h)
            &&& same_outside(s.layout, after.layout, bx, by, 2, 2)
            &&& super_marked(after.layout, bx, by, plan.grid)
            &&& after.saved == s.saved + plan_saved(plan, bx, by)
        }),
{
    reveal(super_state);
    let l = leaves_at(leaves, y0, bx, by);
    lemma_plain_leaves(leaves, w, y0, bx, by);
    law_super_blocks_of_plain_leaves_agree(w, h, p, c, l, bx, by, s);
    lemma_super_step_outside(w, h, p, c, bx, by, s);
    let choice = super_choice(w, h, bx, by, p.rectangles, p.policy.raw_propagation, p.tuning, c);
    let placed = choice_placements(choice, bx, by);
    let v = s.layout;
    let after = super_step(w, h, p, c, bx, by, s);
    let plan = super_plan(w, h, p, c, l, bx, by);
    let ls = leaf_strategies(l);
    assert(ls[0] == STRATEGY_DCT && ls[1] == STRATEGY_DCT && ls[2] == STRATEGY_DCT && ls[3]
        == STRATEGY_DCT);
    assert(v[by].len() == w && v[by + 1].len() == w);
    assert(in_window(bx, by, 2, 2, bx, by) && in_window(bx, by, 2, 2, bx + 1, by) && in_window(
        bx,
        by,
        2,
        2,
        bx,
        by + 1,
    ) && in_window(bx, by, 2, 2, bx + 1, by + 1));
    assert(v[by][bx].first && v[by][bx + 1].first && v[by + 1][bx].first && v[by + 1][bx
        + 1].first);
    reveal_with_fuel(place_all, 3);
    if placed.len() == 0 {
        assert(after.layout == v);
    } else if placed.len() == 1 {
        assert(placed.drop_last() =~= Seq::empty());
        let q = placed[0];
        assert(after.layout == with_first(v, q.x as int, q.y as int, q.strategy));
    } else {
        let q = placed[0];
        let r = placed[1];
        assert(placed.drop_last() =~= seq![q]);
        assert(placed.drop_last().drop_last() =~= Seq::empty());
        let u = with_first(v, q.x as int, q.y as int, q.strategy);
        assert(after.layout == with_first(u, r.x as int, r.y as int, r.strategy));
    }
    assert(shaped(after.layout, w, h)) by {
        assert forall|y: int| 0 <= y < h implies (#[trigger] after.layout[y]).len() == w by {
            assert(v[y].len() == w);
        }
    }
}

/// The blocks of a 4x4 window look like a grid.
spec fn window_marked(v: Layout, bx: int, by: int, grid: Seq<u8>) -> bool {
    forall|i: int|
        0 <= i < 16 ==> marked(v, bx + i % 4, by + i / 4, #[trigger] grid[i])
}

/// What the four plans of a region save.
spec fn plans_saved<A: OrderedAmount>(
    w: int,
    h: int,
    p: SelectionParams<A>,
    c: SiteCosts<A>,
    leaves: Seq<Vec<LeafChoice<A>>>,
    y0: int,
    bx: int,
    by: int,
) -> Seq<SavedView> {
    let plans = region_plans(w, h, p, c, leaves, y0, bx, by);
    plan_saved(plans[0], bx, by) + plan_saved(plans[1], bx + 2, by) + plan_saved(
        plans[2],
        bx,
        by + 2,
    ) + plan_saved(plans[3], bx + 2, by + 2)
}

/// The state after the four super-blocks of a region.
spec fn four_supers<A: OrderedAmount>(
    w: int,
    h: int,
    p: SelectionParams<A>,
    c: SiteCosts<A>,
    bx: int,
    by: int,
    t: BandState<A>,
) -> BandState<A> {
    let s0 = super_state(w, h, p, c.supers@[0]@[0], bx, by, t);
    let s1 = super_state(w, h, p, c.supers@[0]@[1], bx + 2, by, s0);
    let s2 = super_state(w, h, p, c.supers@[1]@[0], bx, by + 2, s1);
    super_state(w, h, p, c.supers@[1]@[1], bx + 2, by + 2, s2)
}

proof fn lemma_untouched_after(
    v: Layout,
    u: Layout,
    w: int,
    h: int,
    bx: int,
    by: int,
    x: int,
    y: int,
)
    requires
        shaped(v, w, h),
        same_outside(v, u, bx, by, 2, 2),
        untouched(v, x, y, 2, 2),
        0 <= x,
        x + 2 <= w,
        0 <= y,
        y + 2 <= h,
        bx + 2 <= x || x + 2 <= bx || by + 2 <= y || y + 2 <= by,
    ensures
        untouched(u, x, y, 2, 2),
{
    assert forall|a: int, b: int| in_window(x, y, 2, 2, a, b) implies #[trigger] u[b][a] == (Cell {
        strategy: STRATEGY_DCT,
        first: true,
    }) by {
        assert(v[b].len() == w);
        assert(!in_window(bx, by, 2, 2, a, b));
        assert(v[b][a] == u[b][a]);
    }
}

proof fn lemma_marked_after(
    v: Layout,
    u: Layout,
    w: int,
    h: int,
    bx: int,
    by: int,
    x: int,
    y: int,
    entry: u8,
)
    requires
        shaped(v, w, h),
        same_outside(v, u, bx, by, 2, 2),
        marked(v, x, y, entry),
        0 <= x < w,
        0 <= y < h,
        !in_window(bx, by, 2, 2, x, y),
    ensures
        marked(u, x, y, entry),
{
    assert(v[y].len() == w);
    assert(v[y][x] == u[y][x]);
}

/// A whole super-block keeps its marks.
proof fn lemma_super_marked_after(
    v: Layout,
    u: Layout,
    w: int,
    h: int,
    bx: int,
    by: int,
    x: int,
    y: int,
    g: Seq<u8>,
)
    requires
        shaped(v, w, h),
        same_outside(v, u, bx, by, 2, 2),
        super_marked(v, x, y, g),
        0 <= x,
        x + 2 <= w,
        0 <= y,
        y + 2 <= h,
        bx + 2 <= x || x + 2 <= bx || by + 2 <= y || y + 2 <= by,
    ensures
        super_marked(u, x, y, g),
{
    lemma_marked_after(v, u, w, h, bx, by, x, y, g[0]);
    lemma_marked_after(v, u, w, h, bx, by, x + 1, y, g[1]);
    lemma_marked_after(v, u, w, h, bx, by, x, y + 1, g[2]);
    lemma_marked_after(v, u, w, h, bx, by, x + 1, y + 1, g[3]);
}

/// The blocks of a super-block look like a 2x2 grid.
spec fn super_marked(v: Layout, x: int, y: int, g: Seq<u8>) -> bool {
    &&& marked(v, x, y, g[0])
    &&& marked(v, x + 1, y, g[1])
    &&& marked(v, x, y + 1, g[2])
    &&& marked(v, x + 1, y + 1, g[3])
}

proof fn lemma_grid_marked<A>(v: Layout, bx: int, by: int, plans: Seq<PlanView<A>>)
    requires
        super_marked(v, bx, by, plans[0].grid),
        super_marked(v, bx + 2, by, plans[1].grid),
        super_marked(v, bx, by + 2, plans[2].grid),
        super_marked(v, bx + 2, by + 2, plans[3].grid),
    ensures
        window_marked(v, bx, by, region_grid(plans)),
{
    let grid = region_grid(plans);
    assert forall|i: int| 0 <= i < 16 implies marked(
        v,
        bx + i % 4,
        by + i / 4,
        #[trigger] grid[i],
    ) by {
        assert(i == 0 || i == 1 || i == 2 || i == 3 || i == 4 || i == 5 || i == 6 || i == 7 || i
            == 8 || i == 9 || i == 10 || i == 11 || i == 12 || i == 13 || i == 14 || i == 15);
    }
}

/// The state after a super-block, known by what its lemma says of it.
#[verifier::opaque]
spec fn super_state<A: OrderedAmount>(
    w: int,
    h: int,
    p: SelectionParams<A>,
    c: SuperBlockCosts<A>,
    bx: int,
    by: int,
    s: BandState<A>,
) -> BandState<A> {
    super_step(w, h, p, c, bx, by, s)
}

proof fn lemma_region_marks<A: OrderedAmount>(
    w: int,
    h: int,
    p: SelectionParams<A>,
    c: SiteCosts<A>,
    leaves: Seq<Vec<LeafChoice<A>>>,
    y0: int,
    site: Site,
    t: BandState<A>,
)
    requires
        leaves_shape(leaves, w, leaves.len() as int),
        plain_leaves(leaves),
        site_priced_from_leaves(c, leaves, y0, site),
        site.quad,
        y0 <= site.by,
        site.by + 4 <= y0 + leaves.len(),
        site.bx + 4 <= w <= usize::MAX,
        site.by + 4 <= h <= usize::MAX,
        shaped(t.layout, w, h),
        untouched(t.layout, site.bx as int, site.by as int, 4, 4),
    ensures
        ({
            let bx = site.bx as int;
            let by = site.by as int;
            let after = four_supers(w, h, p, c, bx, by, t);
            &&& shaped(after.layout, w, h)
            &&& window_marked(
                after.layout,
                bx,
                by,
                region_grid(region_plans(w, h, p, c, leaves, y0, bx, by)),
            )
            &&& after.saved == t.saved + plans_saved(w, h, p, c, leaves, y0, bx, by)
        }),
{
    let bx = site.bx as int;
    let by = site.by as int;
    let c0 = c.supers@[0]@[0];
    let c1 = c.supers@[0]@[1];
    let c2 = c.supers@[1]@[0];
    let c3 = c.supers@[1]@[1];
    let plans = region_plans(w, h, p, c, leaves, y0, bx, by);
    let s0 = super_state(w, h, p, c0, bx, by, t);
    let s1 = super_state(w, h, p, c1, bx + 2, by, s0);
    let s2 = super_state(w, h, p, c2, bx, by + 2, s1);
    let s3 = super_state(w, h, p, c3, bx + 2, by + 2, s2);
    assert(untouched(t.layout, bx, by, 2, 2));
    assert(untouched(t.layout, bx + 2, by, 2, 2));
    assert(untouched(t.layout, bx, by + 2, 2, 2));
    assert(untouched(t.layout, bx + 2, by + 2, 2, 2));
    lemma_super_marks(w, h, p, c0, leaves, y0, bx, by, t);
    lemma_untouched_after(t.layout, s0.layout, w, h, bx, by, bx + 2, by);
    lemma_untouched_after(t.layout, s0.layout, w, h, bx, by, bx, by + 2);
    lemma_untouched_after(t.layout, s0.layout, w, h, bx, by, bx + 2, by + 2);
    lemma_super_marks(w, h, p, c1, leaves, y0, bx + 2, by, s0);
    lemma_untouched_after(s0.layout, s1.layout, w, h, bx + 2, by, bx, by + 2);
    lemma_untouched_after(s0.layout, s1.layout, w, h, bx + 2, by, bx + 2, by + 2);
    lemma_super_marked_after(s0.layout, s1.layout, w, h, bx + 2, by, bx, by, plans[0].grid);
    lemma_super_marks(w, h, p, c2, leaves, y0, bx, by + 2, s1);
    lemma_untouched_after(s1.layout, s2.layout, w, h, bx, by + 2, bx + 2, by + 2);
    lemma_super_marked_after(s1.layout, s2.layout, w, h, bx, by + 2, bx, by, plans[0].grid);
    lemma_super_marked_after(s1.layout, s2.layout, w, h, bx, by + 2, bx + 2, by, plans[1].grid);
    lemma_super_marks(w, h, p, c3, leaves, y0, bx + 2, by + 2, s2);
    lemma_super_marked_after(s2.layout, s3.layout, w, h, bx + 2, by + 2, bx, by, plans[0].grid);
    lemma_super_marked_after(
        s2.layout,
        s3.layout,
        w,
        h,
        bx + 2,
        by + 2,
        bx + 2,
        by,
        plans[1].grid,
    );
    lemma_super_marked_after(
        s2.layout,
        s3.layout,
        w,
        h,
        bx + 2,
        by + 2,
        bx,
        by + 2,
        plans[2].grid,
    );
    lemma_grid_marked(s3.layout, bx, by, plans);
    assert(s3.saved =~= t.saved + plans_saved(w, h, p, c, leaves, y0, bx, by));
}

/// The blocks of a part of a 4x4 window look like that part of a grid.
spec fn part_marked(
    v: Layout,
    bx: int,
    by: int,
    grid: Seq<u8>,
    ox: int,
    oy: int,
    cx: int,
    cy: int,
) -> bool {
    forall|i: int|
        0 <= i < 16 && ox <= i % 4 < ox + cx && oy <= i / 4 < oy + cy ==> marked(
            v,
            bx + i % 4,
            by + i / 4,
            #[trigger] grid[i],
        )
}

/// A window inside a marked 4x4 window: what is captured of it is a part of the grid,
/// and it stands out where the part is more than 8x8 DCTs.
proof fn lemma_part_captured(
    v: Layout,
    bx: int,
    by: int,
    grid: Seq<u8>,
    ox: int,
    oy: int,
    cx: int,
    cy: int,
)
    requires
        part_marked(v, bx, by, grid, ox, oy, cx, cy),
        grid.len() == 16,
        0 <= ox,
        0 <= oy,
        0 <= cx,
        0 <= cy,
        ox + cx <= 4,
        oy + cy <= 4,
    ensures
        captured(v, bx + ox, by + oy, cx, cy) == sub_grid_spec(grid, ox, oy, cx, cy),
        window_stands_out(v, bx + ox, by + oy, cx, cy) == nontrivial(
            sub_grid_spec(grid, ox, oy, cx, cy),
        ),
{
    let part = sub_grid_spec(grid, ox, oy, cx, cy);
    let got = captured(v, bx + ox, by + oy, cx, cy);
    assert forall|i: int| 0 <= i < 16 implies got[i] == #[trigger] part[i] && (stands_out(
        v,
        bx + ox,
        by + oy,
        cx,
        cy,
        i,
    ) == (part[i] != NO_CHILD_BLOCK && part[i] != STRATEGY_DCT)) by {
        if i % 4 < cx && i / 4 < cy {
            let k = (oy + i / 4) * 4 + ox + i % 4;
            assert(0 <= k < 16 && k % 4 == ox + i % 4 && k / 4 == oy + i / 4);
            assert(marked(v, bx + k % 4, by + k / 4, grid[k]));
        }
    }
    assert(got =~= part);
    if nontrivial(part) {
        let i = choose|i: int|
            0 <= i < part.len() && #[trigger] part[i] != NO_CHILD_BLOCK && part[i] != STRATEGY_DCT;
        assert(stands_out(v, bx + ox, by + oy, cx, cy, i));
    }
    if window_stands_out(v, bx + ox, by + oy, cx, cy) {
        let i = choose|i: int|
            0 <= i < 16 && #[trigger] stands_out(v, bx + ox, by + oy, cx, cy, i);
        assert(part[i] != NO_CHILD_BLOCK && part[i] != STRATEGY_DCT);
    }
}

proof fn lemma_found_kept(keep: bool, bx: int, by: int, grid: Seq<u8>, x: int, y: int)
    ensures
        found_at(kept(keep, bx, by, grid), x, y) == (if keep && bx == x && by == y {
            Some(grid)
        } else {
            None
        }),
{
    reveal_with_fuel(found_among, 3);
}

proof fn lemma_found_plan<A>(plan: PlanView<A>, bx: int, by: int, x: int, y: int)
    ensures
        found_at(plan_saved(plan, bx, by), x, y) is Some ==> bx == x && by == y && plan.grid[0]
            == STRATEGY_DCT16X16,
{
    reveal_with_fuel(found_among, 3);
}

/// A part of a grid that begins with a square is more than 8x8 DCTs.
proof fn lemma_square_stands_out(grid: Seq<u8>, ox: int, oy: int, cx: int, cy: int)
    requires
        grid[oy * 4 + ox] == STRATEGY_DCT16X16,
        0 < cx,
        0 < cy,
    ensures
        nontrivial(sub_grid_spec(grid, ox, oy, cx, cy)),
{
    let part = sub_grid_spec(grid, ox, oy, cx, cy);
    assert(part[0] == STRATEGY_DCT16X16);
}

/// Where the merges of a region save nothing for the block that they begin with, its
/// super-block saved nothing there either.
proof fn lemma_plans_found<A: OrderedAmount>(
    w: int,
    h: int,
    p: SelectionParams<A>,
    c: SiteCosts<A>,
    leaves: Seq<Vec<LeafChoice<A>>>,
    y0: int,
    bx: int,
    by: int,
    ox: int,
    oy: int,
)
    requires
        ox == 0 || ox == 2,
        oy == 0 || oy == 2,
    ensures
        ({
            let plans = region_plans(w, h, p, c, leaves, y0, bx, by);
            found_at(plans_saved(w, h, p, c, leaves, y0, bx, by), bx + ox, by + oy) is Some
                ==> region_grid(plans)[oy * 4 + ox] == STRATEGY_DCT16X16
        }),
{
    let plans = region_plans(w, h, p, c, leaves, y0, bx, by);
    let x = bx + ox;
    let y = by + oy;
    let a = plan_saved(plans[0], bx, by);
    let b = plan_saved(plans[1], bx + 2, by);
    let d = plan_saved(plans[2], bx, by + 2);
    let e = plan_saved(plans[3], bx + 2, by + 2);
    lemma_found_joined(a + b + d, e, x, y);
    lemma_found_joined(a + b, d, x, y);
    lemma_found_joined(a, b, x, y);
    lemma_found_plan(plans[0], bx, by, x, y);
    lemma_found_plan(plans[1], bx + 2, by, x, y);
    lemma_found_plan(plans[2], bx, by + 2, x, y);
    lemma_found_plan(plans[3], bx + 2, by + 2, x, y);
}

/// What a region adds to the saved layouts when it starts from the leaves.
spec fn leaf_added<A: OrderedAmount>(
    w: int,
    h: int,
    p: SelectionParams<A>,
    c: SiteCosts<A>,
    leaves: Seq<Vec<LeafChoice<A>>>,
    y0: int,
    bx: int,
    by: int,
) -> Seq<SavedView> {
    let plans = region_plans(w, h, p, c, leaves, y0, bx, by);
    let choice = region_choice(w, h, p, c, plans, bx, by);
    if choice.merged {
        saved_parts(region_grid(plans), choice.strategy, bx, by)
    } else {
        plans_saved(w, h, p, c, leaves, y0, bx, by)
    }
}

/// What it adds otherwise: the super-blocks' own layouts stay in front.
spec fn plain_added<A: OrderedAmount>(
    w: int,
    h: int,
    p: SelectionParams<A>,
    c: SiteCosts<A>,
    leaves: Seq<Vec<LeafChoice<A>>>,
    y0: int,
    bx: int,
    by: int,
) -> Seq<SavedView> {
    let plans = region_plans(w, h, p, c, leaves, y0, bx, by);
    let choice = region_choice(w, h, p, c, plans, bx, by);
    plans_saved(w, h, p, c, leaves, y0, bx, by) + (if choice.merged {
        saved_parts(region_grid(plans), choice.strategy, bx, by)
    } else {
        Seq::empty()
    })
}

/// Committing merges that were decided on saves the parts of the grid under them.
proof fn lemma_commit_saves<A: OrderedAmount>(
    s: BandState<A>,
    w: int,
    h: int,
    bx: int,
    by: int,
    grid: Seq<u8>,
    strategy: u8,
    mask: u8,
)
    requires
        shaped(s.layout, w, h),
        window_marked(s.layout, bx, by, grid),
        grid.len() == 16,
        0 <= bx,
        0 <= by,
        bx + 4 <= w <= usize::MAX,
        by + 4 <= h <= usize::MAX,
        mask == 1 && strategy == STRATEGY_DCT32X32 || mask == 6 && strategy == STRATEGY_DCT32X16
            || mask == 24 && strategy == STRATEGY_DCT16X32,
    ensures
        commit32(s, bx, by, mask, 5).saved == s.saved + saved_parts(grid, strategy, bx, by),
        ({
            let v = commit32(s, bx, by, mask, 5).layout;
            forall|x: int, y: int|
                in_window(bx, by, 4, 4, x, y) && (#[trigger] v[y][x]).first ==> (x == bx && y == by)
                    || (mask == 6 && x == bx + 2 && y == by) || (mask == 24 && x == bx && y == by
                    + 2)
        }),
{
    reveal_with_fuel(commit32, 6);
    let sites = merge32_sites_spec(bx, by);
    assert(sites[0].x == bx && sites[1].x == bx && sites[2].x == bx + 2 && sites[3].x == bx
        && sites[4].x == bx);
    assert(sites[0].y == by && sites[1].y == by && sites[2].y == by && sites[3].y == by
        && sites[4].y == by + 2);
    assert(chosen(1, 0) && !chosen(1, 1) && !chosen(1, 2) && !chosen(1, 3) && !chosen(1, 4));
    assert(!chosen(6, 0) && chosen(6, 1) && chosen(6, 2) && !chosen(6, 3) && !chosen(6, 4));
    assert(!chosen(24, 0) && !chosen(24, 1) && !chosen(24, 2) && chosen(24, 3) && chosen(24, 4));
    let v = s.layout;
    assert forall|y: int| by <= y < by + 4 implies (#[trigger] v[y]).len() == w by {}
    if mask == 1 {
        lemma_part_captured(v, bx, by, grid, 0, 0, 4, 4);
        let done = commit32(s, bx, by, mask, 5);
        assert(done.saved =~= s.saved + saved_part(grid, strategy, 0, 0, bx, by));
    } else if mask == 6 {
        lemma_part_captured(v, bx, by, grid, 0, 0, 2, 4);
        let u = with_first(v, bx, by, STRATEGY_DCT32X16);
        assert(part_marked(u, bx, by, grid, 2, 0, 2, 4)) by {
            assert forall|i: int|
                0 <= i < 16 && 2 <= i % 4 < 4 && 0 <= i / 4 < 4 implies marked(
                u,
                bx + i % 4,
                by + i / 4,
                #[trigger] grid[i],
            ) by {
                assert(v[by + i / 4].len() == w);
                assert(u[by + i / 4][bx + i % 4] == v[by + i / 4][bx + i % 4]);
                assert(marked(v, bx + i % 4, by + i / 4, grid[i]));
            }
        }
        lemma_part_captured(u, bx, by, grid, 2, 0, 2, 4);
        let done = commit32(s, bx, by, mask, 5);
        assert(done.saved =~= s.saved + (saved_part(grid, strategy, 0, 0, bx, by) + saved_part(
            grid,
            strategy,
            2,
            0,
            bx,
            by,
        )));
    } else {
        lemma_part_captured(v, bx, by, grid, 0, 0, 4, 2);
        let u = with_first(v, bx, by, STRATEGY_DCT16X32);
        assert(part_marked(u, bx, by, grid, 0, 2, 4, 2)) by {
            assert forall|i: int|
                0 <= i < 16 && 0 <= i % 4 < 4 && 2 <= i / 4 < 4 implies marked(
                u,
                bx + i % 4,
                by + i / 4,
                #[trigger] grid[i],
            ) by {
                assert(v[by + i / 4].len() == w);
                assert(u[by + i / 4][bx + i % 4] == v[by + i / 4][bx + i % 4]);
                assert(marked(v, bx + i % 4, by + i / 4, grid[i]));
            }
        }
        lemma_part_captured(u, bx, by, grid, 0, 2, 4, 2);
        let done = commit32(s, bx, by, mask, 5);
        assert(done.saved =~= s.saved + (saved_part(grid, strategy, 0, 0, bx, by) + saved_part(
            grid,
            strategy,
            0,
            2,
            bx,
            by,
        )));
    }
}

proof fn lemma_parts_lie_in_window(grid: Seq<u8>, strategy: u8, bx: int, by: int)
    requires
        strategy == STRATEGY_DCT32X32 || strategy == STRATEGY_DCT32X16 || strategy
            == STRATEGY_DCT16X32,
    ensures
        forall|k: int|
            0 <= k < saved_parts(grid, strategy, bx, by).len() ==> in_window(
                bx,
                by,
                4,
                4,
                (#[trigger] saved_parts(grid, strategy, bx, by)[k]).bx,
                saved_parts(grid, strategy, bx, by)[k].by,
            ),
{
}

proof fn lemma_plans_lie_in_window<A: OrderedAmount>(
    w: int,
    h: int,
    p: SelectionParams<A>,
    c: SiteCosts<A>,
    leaves: Seq<Vec<LeafChoice<A>>>,
    y0: int,
    bx: int,
    by: int,
)
    ensures
        forall|k: int|
            0 <= k < plans_saved(w, h, p, c, leaves, y0, bx, by).len() ==> in_window(
                bx,
                by,
                4,
                4,
                (#[trigger] plans_saved(w, h, p, c, leaves, y0, bx, by)[k]).bx,
                plans_saved(w, h, p, c, leaves, y0, bx, by)[k].by,
            ),
{
}

/// At the block that a merge over a region begins with, both ways find the same.
proof fn lemma_parts_found<A: OrderedAmount>(
    w: int,
    h: int,
    p: SelectionParams<A>,
    c: SiteCosts<A>,
    leaves: Seq<Vec<LeafChoice<A>>>,
    y0: int,
    bx: int,
    by: int,
    strategy: u8,
    ox: int,
    oy: int,
)
    requires
        ox == 0 && oy == 0 && (strategy == STRATEGY_DCT32X32 || strategy == STRATEGY_DCT32X16
            || strategy == STRATEGY_DCT16X32) || ox == 2 && oy == 0 && strategy
            == STRATEGY_DCT32X16 || ox == 0 && oy == 2 && strategy == STRATEGY_DCT16X32,
    ensures
        ({
            let grid = region_grid(region_plans(w, h, p, c, leaves, y0, bx, by));
            let parts = saved_parts(grid, strategy, bx, by);
            let all = plans_saved(w, h, p, c, leaves, y0, bx, by) + parts;
            found_at(all, bx + ox, by + oy) == found_at(parts, bx + ox, by + oy)
        }),
{
    let grid = region_grid(region_plans(w, h, p, c, leaves, y0, bx, by));
    let plain = plans_saved(w, h, p, c, leaves, y0, bx, by);
    let parts = saved_parts(grid, strategy, bx, by);
    let x = bx + ox;
    let y = by + oy;
    lemma_found_joined(plain, parts, x, y);
    lemma_plans_found(w, h, p, c, leaves, y0, bx, by, ox, oy);
    if found_at(plain, x, y) is Some {
        let (cx, cy) = merge_span(strategy);
        lemma_square_stands_out(grid, ox, oy, cx, cy);
        let first = saved_part(grid, strategy, 0, 0, bx, by);
        let g0 = sub_grid_spec(grid, 0, 0, cx, cy);
        lemma_found_kept(nontrivial(g0), bx, by, g0, x, y);
        if strategy != STRATEGY_DCT32X32 {
            let second = saved_part(grid, strategy, 4 - cx, 4 - cy, bx, by);
            let g1 = sub_grid_spec(grid, 4 - cx, 4 - cy, cx, cy);
            lemma_found_kept(nontrivial(g1), bx + 4 - cx, by + 4 - cy, g1, x, y);
            lemma_found_joined(first, second, x, y);
        }
        assert(found_at(parts, x, y) is Some);
    }
}

#[verifier::spinoff_prover]
#[verifier::rlimit(60)]
proof fn lemma_region_added<A: OrderedAmount>(
    w: int,
    h: int,
    p: SelectionParams<A>,
    c: SiteCosts<A>,
    leaves: Seq<Vec<LeafChoice<A>>>,
    y0: int,
    site: Site,
    s: BandState<A>,
    t: BandState<A>,
)
    requires
        leaves_shape(leaves, w, leaves.len() as int),
        plain_leaves(leaves),
        site_priced_from_leaves(c, leaves, y0, site),
        region_decided_alike(w, h, p, c, leaves, y0, site),
        site.quad,
        y0 <= site.by,
        site.by + 4 <= y0 + leaves.len(),
        site.bx + 4 <= w <= usize::MAX,
        site.by + 4 <= h <= usize::MAX,
        shaped(t.layout, w, h),
        untouched(t.layout, site.bx as int, site.by as int, 4, 4),
    ensures
        ({
            let bx = site.bx as int;
            let by = site.by as int;
            let a = leaf_added(w, h, p, c, leaves, y0, bx, by);
            let b = plain_added(w, h, p, c, leaves, y0, bx, by);
            let after = region_step(w, h, p, c, bx, by, t);
            &&& leaf_region_step(w, h, p, c, leaves, y0, bx, by, s).saved == s.saved + a
            &&& after.saved == t.saved + b
            &&& forall|k: int|
                0 <= k < a.len() ==> in_window(bx, by, 4, 4, (#[trigger] a[k]).bx, a[k].by)
            &&& forall|k: int|
                0 <= k < b.len() ==> in_window(bx, by, 4, 4, (#[trigger] b[k]).bx, b[k].by)
            &&& forall|x: int, y: int|
                in_window(bx, by, 4, 4, x, y) && (#[trigger] after.layout[y][x]).first ==> found_at(
                    a,
                    x,
                    y,
                ) == found_at(b, x, y)
        }),
{
    let bx = site.bx as int;
    let by = site.by as int;
    let plans = region_plans(w, h, p, c, leaves, y0, bx, by);
    let choice = region_choice(w, h, p, c, plans, bx, by);
    let grid = region_grid(plans);
    let mask = region_mask(w, h, p, c, bx, by);
    let plain = plans_saved(w, h, p, c, leaves, y0, bx, by);
    let a = leaf_added(w, h, p, c, leaves, y0, bx, by);
    let b = plain_added(w, h, p, c, leaves, y0, bx, by);
    let s3 = four_supers(w, h, p, c, bx, by, t);
    let after = region_step(w, h, p, c, bx, by, t);
    lemma_region_marks(w, h, p, c, leaves, y0, site, t);
    lemma_plans_lie_in_window(w, h, p, c, leaves, y0, bx, by);
    assert(mask_of(choice) == mask);
    assert(after.saved == commit32(s3, bx, by, mask, 5).saved && after.layout == commit32(
        s3,
        bx,
        by,
        mask,
        5,
    ).layout) by {
        reveal(super_state);
    }
    if choice.merged {
        lemma_commit_saves(s3, w, h, bx, by, grid, choice.strategy, mask);
        lemma_parts_lie_in_window(grid, choice.strategy, bx, by);
        assert(after.saved =~= t.saved + b);
        assert forall|x: int, y: int|
            in_window(bx, by, 4, 4, x, y) && (#[trigger] after.layout[y][x]).first implies found_at(
            a,
            x,
            y,
        ) == found_at(b, x, y) by {
            lemma_parts_found(
                w,
                h,
                p,
                c,
                leaves,
                y0,
                bx,
                by,
                choice.strategy,
                x - bx,
                y - by,
            );
        }
    } else {
        assert(!chosen(0, 0) && !chosen(0, 1) && !chosen(0, 2) && !chosen(0, 3) && !chosen(0, 4));
        reveal_with_fuel(commit32, 6);
        assert(b =~= plain);
        assert(after.saved =~= t.saved + b);
        assert(leaf_region_step(w, h, p, c, leaves, y0, bx, by, s).saved =~= s.saved + plain);
    }
}

/// One of the leading `n` sites holds the block `(x, y)`.
spec fn visited(sites: Seq<Site>, n: int, x: int, y: int) -> bool {
    exists|i: int| 0 <= i < n && (#[trigger] sites[i]).holds(x, y)
}

/// What lies outside a window is found as before.
proof fn lemma_found_outside(
    saved: Seq<SavedView>,
    new: Seq<SavedView>,
    bx: int,
    by: int,
    side: int,
    x: int,
    y: int,
)
    requires
        forall|k: int|
            0 <= k < new.len() ==> in_window(bx, by, side, side, (#[trigger] new[k]).bx, new[k].by),
        !in_window(bx, by, side, side, x, y),
    ensures
        found_at(saved + new, x, y) == found_at(saved, x, y),
{
    lemma_found_joined(saved, new, x, y);
    lemma_found_nowhere(new, new.len() as int, x, y);
}

/// Both ways find the same for every first block, and for every block that no site has
/// held yet.
spec fn found_alike<A>(
    a: BandState<A>,
    b: BandState<A>,
    sites: Seq<Site>,
    n: int,
    w: int,
    h: int,
) -> bool {
    forall|x: int, y: int|
        !visited(sites, n, x, y) || in_window(0, 0, w, h, x, y) && b.layout[y][x].first
            ==> found_at(a.saved, x, y) == #[trigger] found_at(b.saved, x, y)
}

/// The blocks of a band's rows that no site has held yet are untouched.
spec fn rest_untouched(v: Layout, sites: Seq<Site>, n: int, w: int, y0: int, rows: int) -> bool {
    forall|x: int, y: int|
        in_window(0, y0, w, rows, x, y) && !visited(sites, n, x, y) ==> #[trigger] v[y][x] == (
        Cell { strategy: STRATEGY_DCT, first: true })
}

/// One site later, both ways still find the same.
proof fn lemma_next_site<A>(
    a: BandState<A>,
    b: BandState<A>,
    after_a: BandState<A>,
    after_b: BandState<A>,
    new_a: Seq<SavedView>,
    new_b: Seq<SavedView>,
    sites: Seq<Site>,
    n: int,
    w: int,
    h: int,
    y0: int,
    rows: int,
)
    requires
        0 <= n < sites.len(),
        0 <= y0,
        y0 + rows <= h,
        spread(sites, 0, w, y0, y0 + rows),
        shaped(b.layout, w, h),
        found_alike(a, b, sites, n, w, h),
        rest_untouched(b.layout, sites, n, w, y0, rows),
        after_a.saved == a.saved + new_a,
        after_b.saved == b.saved + new_b,
        same_outside(
            b.layout,
            after_b.layout,
            sites[n].bx as int,
            sites[n].by as int,
            sites[n].side(),
            sites[n].side(),
        ),
        forall|k: int|
            0 <= k < new_a.len() ==> sites[n].holds((#[trigger] new_a[k]).bx, new_a[k].by),
        forall|k: int|
            0 <= k < new_b.len() ==> sites[n].holds((#[trigger] new_b[k]).bx, new_b[k].by),
        forall|x: int, y: int|
            sites[n].holds(x, y) && (#[trigger] after_b.layout[y][x]).first ==> found_at(
                new_a,
                x,
                y,
            ) == found_at(new_b, x, y),
    ensures
        found_alike(after_a, after_b, sites, n + 1, w, h),
        rest_untouched(after_b.layout, sites, n + 1, w, y0, rows),
{
    let site = sites[n];
    let bx = site.bx as int;
    let by = site.by as int;
    let side = site.side();
    assert forall|x: int, y: int|
        !visited(sites, n + 1, x, y) || in_window(0, 0, w, h, x, y)
            && after_b.layout[y][x].first implies found_at(after_a.saved, x, y)
        == #[trigger] found_at(after_b.saved, x, y) by {
        if site.holds(x, y) {
            assert(visited(sites, n + 1, x, y));
            assert(!visited(sites, n, x, y)) by {
                if visited(sites, n, x, y) {
                    let i = choose|i: int| 0 <= i < n && (#[trigger] sites[i]).holds(x, y);
                    assert(!sites[n].holds(x, y));
                }
            }
            assert(found_at(a.saved, x, y) == found_at(b.saved, x, y));
            lemma_found_joined(a.saved, new_a, x, y);
            lemma_found_joined(b.saved, new_b, x, y);
        } else {
            lemma_found_outside(a.saved, new_a, bx, by, side, x, y);
            lemma_found_outside(b.saved, new_b, bx, by, side, x, y);
            if !visited(sites, n + 1, x, y) {
                assert(!visited(sites, n, x, y));
            } else {
                assert(b.layout[y].len() == w);
                assert(after_b.layout[y][x] == b.layout[y][x]);
            }
            assert(found_at(a.saved, x, y) == found_at(b.saved, x, y));
        }
    }
    assert forall|x: int, y: int|
        in_window(0, y0, w, rows, x, y) && !visited(
            sites,
            n + 1,
            x,
            y,
        ) implies #[trigger] after_b.layout[y][x] == (Cell { strategy: STRATEGY_DCT, first: true }) by {
        assert(!visited(sites, n, x, y));
        assert(!site.holds(x, y));
        assert(b.layout[y].len() == w);
        assert(b.layout[y][x] == after_b.layout[y][x]);
    }
}

/// The site that comes next is untouched.
proof fn lemma_site_untouched(
    v: Layout,
    sites: Seq<Site>,
    n: int,
    w: int,
    y0: int,
    rows: int,
)
    requires
        0 <= n < sites.len(),
        spread(sites, 0, w, y0, y0 + rows),
        rest_untouched(v, sites, n, w, y0, rows),
    ensures
        untouched(
            v,
            sites[n].bx as int,
            sites[n].by as int,
            sites[n].side(),
            sites[n].side(),
        ),
{
    let site = sites[n];
    let side = site.side();
    assert forall|x: int, y: int|
        in_window(site.bx as int, site.by as int, side, side, x, y) implies #[trigger] v[y][x] == (
    Cell { strategy: STRATEGY_DCT, first: true }) by {
        assert(site.holds(x, y));
        assert(!visited(sites, n, x, y)) by {
            if visited(sites, n, x, y) {
                let i = choose|i: int| 0 <= i < n && (#[trigger] sites[i]).holds(x, y);
                assert(!sites[n].holds(x, y));
            }
        }
        assert(in_window(0, y0, w, rows, x, y));
    }
}

/// A 4x4 region as the next site.
proof fn lemma_region_next<A: OrderedAmount>(
    w: int,
    h: int,
    p: SelectionParams<A>,
    c: SiteCosts<A>,
    leaves: Seq<Vec<LeafChoice<A>>>,
    y0: int,
    sites: Seq<Site>,
    n: int,
    a: BandState<A>,
    b: BandState<A>,
)
    requires
        0 <= w <= usize::MAX,
        0 <= h <= usize::MAX,
        0 <= y0,
        y0 + leaves.len() <= h,
        leaves_shape(leaves, w, leaves.len() as int),
        plain_leaves(leaves),
        spread(sites, 0, w, y0, y0 + leaves.len()),
        0 <= n < sites.len(),
        sites[n].quad,
        site_priced_from_leaves(c, leaves, y0, sites[n]),
        region_decided_alike(w, h, p, c, leaves, y0, sites[n]),
        a.layout == b.layout,
        shaped(b.layout, w, h),
        found_alike(a, b, sites, n, w, h),
        rest_untouched(b.layout, sites, n, w, y0, leaves.len() as int),
    ensures
        ({
            let bx = sites[n].bx as int;
            let by = sites[n].by as int;
            let after_a = leaf_region_step(w, h, p, c, leaves, y0, bx, by, a);
            let after_b = region_step(w, h, p, c, bx, by, b);
            &&& after_a.layout == after_b.layout
            &&& shaped(after_b.layout, w, h)
            &&& found_alike(after_a, after_b, sites, n + 1, w, h)
            &&& rest_untouched(after_b.layout, sites, n + 1, w, y0, leaves.len() as int)
        }),
{
    let rows = leaves.len() as int;
    let site = sites[n];
    let bx = site.bx as int;
    let by = site.by as int;
    let after_a = leaf_region_step(w, h, p, c, leaves, y0, bx, by, a);
    let after_b = region_step(w, h, p, c, bx, by, b);
    lemma_site_untouched(b.layout, sites, n, w, y0, rows);
    lemma_single_leaves(leaves);
    lemma_region_added(w, h, p, c, leaves, y0, site, a, b);
    lemma_region_layouts(w, h, p, c, leaves, y0, site, a, b);
    lemma_region_saves(w, h, p, c, leaves, y0, bx, by, a);
    let new_a = leaf_added(w, h, p, c, leaves, y0, bx, by);
    let new_b = plain_added(w, h, p, c, leaves, y0, bx, by);
    assert forall|x: int, y: int|
        site.holds(x, y) && (#[trigger] after_b.layout[y][x]).first implies found_at(new_a, x, y)
        == found_at(new_b, x, y) by {
        assert(in_window(bx, by, 4, 4, x, y));
    }
    lemma_next_site(a, b, after_a, after_b, new_a, new_b, sites, n, w, h, y0, rows);
}

/// A super-block as the next site.
proof fn lemma_super_next<A: OrderedAmount>(
    w: int,
    h: int,
    p: SelectionParams<A>,
    c: SuperBlockCosts<A>,
    leaves: Seq<Vec<LeafChoice<A>>>,
    y0: int,
    sites: Seq<Site>,
    n: int,
    a: BandState<A>,
    b: BandState<A>,
)
    requires
        0 <= w <= usize::MAX,
        0 <= h <= usize::MAX,
        0 <= y0,
        y0 + leaves.len() <= h,
        leaves_shape(leaves, w, leaves.len() as int),
        plain_leaves(leaves),
        spread(sites, 0, w, y0, y0 + leaves.len()),
        0 <= n < sites.len(),
        !sites[n].quad,
        priced_from_leaves(c, leaves, y0, sites[n].bx as int, sites[n].by as int),
        a.layout == b.layout,
        shaped(b.layout, w, h),
        found_alike(a, b, sites, n, w, h),
        rest_untouched(b.layout, sites, n, w, y0, leaves.len() as int),
    ensures
        ({
            let bx = sites[n].bx as int;
            let by = sites[n].by as int;
            let after_a = leaf_super_step(w, h, p, c, leaves_at(leaves, y0, bx, by), bx, by, a);
            let after_b = super_step(w, h, p, c, bx, by, b);
            &&& after_a.layout == after_b.layout
            &&& shaped(after_b.layout, w, h)
            &&& found_alike(after_a, after_b, sites, n + 1, w, h)
            &&& rest_untouched(after_b.layout, sites, n + 1, w, y0, leaves.len() as int)
        }),
{
    let rows = leaves.len() as int;
    let site = sites[n];
    let bx = site.bx as int;
    let by = site.by as int;
    let l = leaves_at(leaves, y0, bx, by);
    let after_a = leaf_super_step(w, h, p, c, l, bx, by, a);
    let after_b = super_step(w, h, p, c, bx, by, b);
    let new = plan_saved(super_plan(w, h, p, c, l, bx, by), bx, by);
    lemma_site_untouched(b.layout, sites, n, w, y0, rows);
    lemma_plain_leaves(leaves, w, y0, bx, by);
    law_super_blocks_of_plain_leaves_agree(w, h, p, c, l, bx, by, a);
    lemma_super_marks(w, h, p, c, leaves, y0, bx, by, b);
    reveal(super_state);
    assert(after_a.saved == a.saved + new);
    lemma_next_site(a, b, after_a, after_b, new, new, sites, n, w, h, y0, rows);
}

proof fn lemma_sites_found<A: OrderedAmount>(
    w: int,
    h: int,
    p: SelectionParams<A>,
    sites: Seq<Site>,
    costs: Seq<SiteCosts<A>>,
    leaves: Seq<Vec<LeafChoice<A>>>,
    y0: int,
    s: BandState<A>,
    n: int,
)
    requires
        0 <= w <= usize::MAX,
        0 <= h <= usize::MAX,
        0 <= y0,
        y0 + leaves.len() <= h,
        leaves_shape(leaves, w, leaves.len() as int),
        plain_leaves(leaves),
        spread(sites, 0, w, y0, y0 + leaves.len()),
        0 <= n <= sites.len(),
        shaped(s.layout, w, h),
        untouched(s.layout, 0, y0, w, leaves.len() as int),
        forall|i: int|
            0 <= i < sites.len() ==> {
                &&& site_priced_from_leaves(costs[i], leaves, y0, #[trigger] sites[i])
                &&& region_decided_alike(w, h, p, costs[i], leaves, y0, sites[i])
            },
    ensures
        ({
            let a = after_leaf_sites(w, h, p, sites, costs, leaves, y0, s, n);
            let b = after_sites(w, h, p, sites, costs, s, n);
            &&& a.layout == b.layout
            &&& shaped(b.layout, w, h)
            &&& found_alike(a, b, sites, n, w, h)
            &&& rest_untouched(b.layout, sites, n, w, y0, leaves.len() as int)
        }),
    decreases n,
{
    if n > 0 {
        lemma_sites_found(w, h, p, sites, costs, leaves, y0, s, n - 1);
        let a = after_leaf_sites(w, h, p, sites, costs, leaves, y0, s, n - 1);
        let b = after_sites(w, h, p, sites, costs, s, n - 1);
        assert(site_priced_from_leaves(costs[n - 1], leaves, y0, sites[n - 1]));
        if sites[n - 1].quad {
            lemma_region_next(w, h, p, costs[n - 1], leaves, y0, sites, n - 1, a, b);
        } else {
            let c = costs[n - 1].supers@[0]@[0];
            lemma_super_next(w, h, p, c, leaves, y0, sites, n - 1, a, b);
        }
    }
}

proof fn lemma_single_leaves<A>(leaves: Seq<Vec<LeafChoice<A>>>)
    requires
        plain_leaves(leaves),
    ensures
        single_block_leaves(leaves),
{
    assert forall|j: int, x: int|
        0 <= j < leaves.len() && 0 <= x < leaves[j]@.len() implies covered_x(
        (#[trigger] leaves[j]@[x]).strategy,
    ) == 1 && covered_y(leaves[j]@[x].strategy) == 1 by {}
}

/// From 8x8 DCT leaves on a map of 8x8 DCTs, where both take the same merges over
/// every 4x4 region, leaf-first selection and selection save the same layout for every
/// block that a transform of the resulting map begins with, or both save none. (What
/// selection saved for super-blocks that a larger merge covers is never asked for.)
pub proof fn law_saved_layouts_agree_where_regions_do<A: OrderedAmount>(
    w: int,
    h: int,
    p: SelectionParams<A>,
    y0: int,
    y1: int,
    costs: Seq<SiteCosts<A>>,
    leaves: Seq<Vec<LeafChoice<A>>>,
    s: BandState<A>,
    x: int,
    y: int,
)
    requires
        0 <= w <= usize::MAX,
        0 <= y0 <= y1 <= h <= usize::MAX,
        y0 % 4 == 0,
        y1 % 4 == 0 || y1 == h,
        leaves_shape(leaves, w, y1 - y0),
        plain_leaves(leaves),
        shaped(s.layout, w, h),
        untouched(s.layout, 0, y0, w, y1 - y0),
        costs.len() == band_sites(w, h, y0, y1).len(),
        forall|i: int|
            0 <= i < costs.len() ==> site_priced_from_leaves(
                #[trigger] costs[i],
                leaves,
                y0,
                band_sites(w, h, y0, y1)[i],
            ) && region_decided_alike(
                w,
                h,
                p,
                costs[i],
                leaves,
                y0,
                band_sites(w, h, y0, y1)[i],
            ),
        0 <= x < w,
        0 <= y < h,
        after_leaf_first(w, h, p, y0, y1, costs, leaves, s).layout[y][x].first,
    ensures
        found_at(after_leaf_first(w, h, p, y0, y1, costs, leaves, s).saved, x, y) == found_at(
            after_sites(
                w,
                h,
                p,
                band_sites(w, h, y0, y1),
                costs,
                s,
                costs.len() as int,
            ).saved,
            x,
            y,
        ),
{
    let sites = band_sites(w, h, y0, y1);
    law_sites_do_not_overlap(w, h, y0, y1);
    lemma_plain_leaves_change_nothing(s.layout, w, h, leaves, y0);
    assert forall|i: int| 0 <= i < sites.len() implies site_priced_from_leaves(
        costs[i],
        leaves,
        y0,
        #[trigger] sites[i],
    ) && region_decided_alike(w, h, p, costs[i], leaves, y0, sites[i]) by {
        assert(site_priced_from_leaves(costs[i], leaves, y0, band_sites(w, h, y0, y1)[i]));
    }
    lemma_sites_found(w, h, p, sites, costs, leaves, y0, s, costs.len() as int);
    let b = after_sites(w, h, p, sites, costs, s, costs.len() as int);
    assert(in_window(0, 0, w, h, x, y));
    assert(b.layout[y][x].first);
}

} // verus!
