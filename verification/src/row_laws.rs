//! What a band decides stays in its rows.

use crate::amount::Amount;
use crate::bands::{band_sites, law_sites_do_not_overlap, spread, Site};
use crate::filling_laws::{
    all_aligned, lemma_leaf_first_aligned, lemma_selection_aligned, lemma_sites_even,
};
use crate::leaf_first::{
    after_leaf_first, after_leaf_sites, committed, leaf_region_step, leaf_super_step, leaves_at,
    leaves_layout, leaves_shape, merge_span, plan_shortlist, region_choice, region_grid,
    region_plans, region_shortlist, saved_part, saved_parts, single_block_leaves, super_plan,
    with_leaves, LeafChoice, PlanView,
};
use crate::leaf_first_laws::{law_leaf_first_keeps_tiling, lemma_single_block};
use crate::selection::{
    after_sites, commit32, super_step, BandState, SelectionParams, SiteCosts,
};
use crate::selection_band_laws::{lemma_leaf_sites_outside, lemma_leaves_layout_shaped};
use crate::selection_laws::{law_selection_keeps_tiling, lemma_after_sites_other_rows};
use crate::strategy::{covered_y, STRATEGY_DCT32X32};
use crate::strategy_map::{Layout, Placement};
use crate::super_block::{
    leaf_totals, merge16_sites_spec, raw_costs, shortlisted, SavedView, SuperBlockCosts,
};
use crate::tiling::{covers, in_bounds, single_blocks, tiled};
use vstd::prelude::*;

verus! {

/// The layouts stand in rows `[r0, r1)`.
pub open spec fn saved_between(saved: Seq<SavedView>, r0: int, r1: int) -> bool {
    forall|i: int| 0 <= i < saved.len() ==> r0 <= (#[trigger] saved[i]).by < r1
}

/// The merges begin in rows `[r0, r1)`.
pub open spec fn listed_between(list: Seq<Placement>, r0: int, r1: int) -> bool {
    forall|i: int| 0 <= i < list.len() ==> r0 <= (#[trigger] list[i]).y < r1
}

proof fn lemma_saved_sum(a: Seq<SavedView>, b: Seq<SavedView>, r0: int, r1: int)
    requires
        saved_between(a, r0, r1),
        saved_between(b, r0, r1),
    ensures
        saved_between(a + b, r0, r1),
{
    assert forall|i: int| 0 <= i < (a + b).len() implies r0 <= (#[trigger] (a + b)[i]).by < r1 by {
        if i < a.len() {
            assert((a + b)[i] == a[i]);
        } else {
            assert((a + b)[i] == b[i - a.len()]);
        }
    }
}

proof fn lemma_listed_sum(a: Seq<Placement>, b: Seq<Placement>, r0: int, r1: int)
    requires
        listed_between(a, r0, r1),
        listed_between(b, r0, r1),
    ensures
        listed_between(a + b, r0, r1),
{
    assert forall|i: int| 0 <= i < (a + b).len() implies r0 <= (#[trigger] (a + b)[i]).y < r1 by {
        if i < a.len() {
            assert((a + b)[i] == a[i]);
        } else {
            assert((a + b)[i] == b[i - a.len()]);
        }
    }
}

proof fn lemma_shortlisted_between<A: Amount>(
    w: int,
    h: int,
    bx: int,
    by: int,
    raw: Seq<A>,
    incumbent: Seq<A>,
    n: int,
    r0: int,
    r1: int,
)
    requires
        0 <= r0 <= by,
        by + 2 <= r1 <= usize::MAX,
        n <= 5,
    ensures
        listed_between(shortlisted(w, h, bx, by, raw, incumbent, n), r0, r1),
    decreases n,
{
    if n > 0 {
        lemma_shortlisted_between(w, h, bx, by, raw, incumbent, n - 1, r0, r1);
        let p = merge16_sites_spec(bx, by)[n - 1];
        assert(p.y == by || p.y == by + 1);
        let head = shortlisted(w, h, bx, by, raw, incumbent, n - 1);
        let now = shortlisted(w, h, bx, by, raw, incumbent, n);
        assert forall|i: int| 0 <= i < now.len() implies r0 <= (#[trigger] now[i]).y < r1 by {
            if i < head.len() {
                assert(now[i] == head[i]);
            }
        }
    }
}

/// Everything that was saved and shortlisted so far stands in rows `[r0, r1)`.
pub open spec fn lists_between<A>(s: BandState<A>, r0: int, r1: int) -> bool {
    saved_between(s.saved, r0, r1) && listed_between(s.upgrades, r0, r1)
}

proof fn lemma_super_between<A: Amount>(
    w: int,
    h: int,
    p: SelectionParams<A>,
    c: SuperBlockCosts<A>,
    bx: int,
    by: int,
    s: BandState<A>,
    r0: int,
    r1: int,
)
    requires
        lists_between(s, r0, r1),
        0 <= r0 <= by,
        by + 2 <= r1 <= usize::MAX,
    ensures
        lists_between(super_step(w, h, p, c, bx, by, s), r0, r1),
{
    let after = super_step(w, h, p, c, bx, by, s);
    let more = shortlisted(w, h, bx, by, raw_costs(p.rectangles, c), leaf_totals(c.leaf), 5);
    lemma_shortlisted_between(
        w,
        h,
        bx,
        by,
        raw_costs(p.rectangles, c),
        leaf_totals(c.leaf),
        5,
        r0,
        r1,
    );
    lemma_listed_sum(s.upgrades, more, r0, r1);
    lemma_listed_sum(s.upgrades, Seq::empty(), r0, r1);
    assert forall|i: int| 0 <= i < after.saved.len() implies r0 <= (#[trigger] after.saved[i]).by
        < r1 by {
        if i < s.saved.len() {
            assert(after.saved[i] == s.saved[i]);
        }
    }
}

proof fn lemma_commit_between<A>(
    s: BandState<A>,
    bx: int,
    by: int,
    mask: u8,
    n: int,
    r0: int,
    r1: int,
)
    requires
        lists_between(s, r0, r1),
        0 <= r0 <= by,
        by + 4 <= r1 <= usize::MAX,
        n <= 5,
    ensures
        lists_between(commit32(s, bx, by, mask, n), r0, r1),
    decreases n,
{
    if n > 0 {
        lemma_commit_between(s, bx, by, mask, n - 1, r0, r1);
        let t = commit32(s, bx, by, mask, n - 1);
        let after = commit32(s, bx, by, mask, n);
        assert forall|i: int| 0 <= i < after.saved.len() implies r0 <= (
        #[trigger] after.saved[i]).by < r1 by {
            if i < t.saved.len() {
                assert(after.saved[i] == t.saved[i]);
            }
        }
    }
}

proof fn lemma_sites_between<A: Amount>(
    w: int,
    h: int,
    p: SelectionParams<A>,
    sites: Seq<Site>,
    costs: Seq<SiteCosts<A>>,
    s: BandState<A>,
    n: int,
    r0: int,
    r1: int,
)
    requires
        lists_between(s, r0, r1),
        0 <= r0 <= r1 <= usize::MAX,
        spread(sites, 0, w, r0, r1),
        0 <= n <= sites.len(),
    ensures
        lists_between(after_sites(w, h, p, sites, costs, s, n), r0, r1),
    decreases n,
{
    if n > 0 {
        lemma_sites_between(w, h, p, sites, costs, s, n - 1, r0, r1);
        let t = after_sites(w, h, p, sites, costs, s, n - 1);
        let site = sites[n - 1];
        let bx = site.bx as int;
        let by = site.by as int;
        let c = costs[n - 1];
        assert(r0 <= by && by + site.side() <= r1);
        if site.quad {
            let s0 = super_step(w, h, p, c.supers@[0]@[0], bx, by, t);
            let s1 = super_step(w, h, p, c.supers@[0]@[1], bx + 2, by, s0);
            let s2 = super_step(w, h, p, c.supers@[1]@[0], bx, by + 2, s1);
            let s3 = super_step(w, h, p, c.supers@[1]@[1], bx + 2, by + 2, s2);
            lemma_super_between(w, h, p, c.supers@[0]@[0], bx, by, t, r0, r1);
            lemma_super_between(w, h, p, c.supers@[0]@[1], bx + 2, by, s0, r0, r1);
            lemma_super_between(w, h, p, c.supers@[1]@[0], bx, by + 2, s1, r0, r1);
            lemma_super_between(w, h, p, c.supers@[1]@[1], bx + 2, by + 2, s2, r0, r1);
            assert forall|mask: u8|
                lists_between(#[trigger] commit32(s3, bx, by, mask, 5), r0, r1) by {
                lemma_commit_between(s3, bx, by, mask, 5, r0, r1);
            }
        } else {
            lemma_super_between(w, h, p, c.supers@[0]@[0], bx, by, t, r0, r1);
        }
    }
}

proof fn lemma_committed_between<A>(
    s: BandState<A>,
    plan: PlanView<A>,
    bx: int,
    by: int,
    r0: int,
    r1: int,
)
    requires
        lists_between(s, r0, r1),
        r0 <= by < r1,
    ensures
        lists_between(committed(s, plan, bx, by), r0, r1),
{
    let after = committed(s, plan, bx, by);
    assert forall|i: int| 0 <= i < after.saved.len() implies r0 <= (#[trigger] after.saved[i]).by
        < r1 by {
        if i < s.saved.len() {
            assert(after.saved[i] == s.saved[i]);
        }
    }
}

proof fn lemma_plan_between<A: Amount>(
    w: int,
    h: int,
    p: SelectionParams<A>,
    c: SuperBlockCosts<A>,
    l: [[LeafChoice<A>; 2]; 2],
    bx: int,
    by: int,
    r0: int,
    r1: int,
)
    requires
        0 <= r0 <= by,
        by + 2 <= r1 <= usize::MAX,
    ensures
        listed_between(plan_shortlist(w, h, p, c, l, bx, by), r0, r1),
{
    let full = with_leaves(c, l);
    lemma_shortlisted_between(
        w,
        h,
        bx,
        by,
        raw_costs(p.rectangles, full),
        leaf_totals(full.leaf),
        5,
        r0,
        r1,
    );
}

proof fn lemma_parts_between(
    grid: Seq<u8>,
    strategy: u8,
    bx: int,
    by: int,
    r0: int,
    r1: int,
)
    requires
        r0 <= by,
        by + 4 <= r1,
    ensures
        saved_between(saved_parts(grid, strategy, bx, by), r0, r1),
{
    let first = saved_part(grid, strategy, 0, 0, bx, by);
    if strategy != STRATEGY_DCT32X32 {
        let (cx, cy) = merge_span(strategy);
        let second = saved_part(grid, strategy, 4 - cx, 4 - cy, bx, by);
        lemma_saved_sum(first, second, r0, r1);
    }
}

proof fn lemma_leaf_region_between<A: Amount>(
    w: int,
    h: int,
    p: SelectionParams<A>,
    c: SiteCosts<A>,
    leaves: Seq<Vec<LeafChoice<A>>>,
    y0: int,
    bx: int,
    by: int,
    s: BandState<A>,
    r0: int,
    r1: int,
)
    requires
        lists_between(s, r0, r1),
        0 <= r0 <= by,
        by + 4 <= r1 <= usize::MAX,
    ensures
        lists_between(leaf_region_step(w, h, p, c, leaves, y0, bx, by, s), r0, r1),
{
    let plans = region_plans(w, h, p, c, leaves, y0, bx, by);
    let choice = region_choice(w, h, p, c, plans, bx, by);
    if choice.merged {
        lemma_parts_between(region_grid(plans), choice.strategy, bx, by, r0, r1);
        lemma_saved_sum(
            s.saved,
            saved_parts(region_grid(plans), choice.strategy, bx, by),
            r0,
            r1,
        );
    } else {
        let l0 = leaves_at(leaves, y0, bx, by);
        let l1 = leaves_at(leaves, y0, bx + 2, by);
        let l2 = leaves_at(leaves, y0, bx, by + 2);
        let l3 = leaves_at(leaves, y0, bx + 2, by + 2);
        let a = plan_shortlist(w, h, p, c.supers@[0]@[0], l0, bx, by);
        let b = plan_shortlist(w, h, p, c.supers@[0]@[1], l1, bx + 2, by);
        let d = plan_shortlist(w, h, p, c.supers@[1]@[0], l2, bx, by + 2);
        let e = plan_shortlist(w, h, p, c.supers@[1]@[1], l3, bx + 2, by + 2);
        lemma_plan_between(w, h, p, c.supers@[0]@[0], l0, bx, by, r0, r1);
        lemma_plan_between(w, h, p, c.supers@[0]@[1], l1, bx + 2, by, r0, r1);
        lemma_plan_between(w, h, p, c.supers@[1]@[0], l2, bx, by + 2, r0, r1);
        lemma_plan_between(w, h, p, c.supers@[1]@[1], l3, bx + 2, by + 2, r0, r1);
        lemma_listed_sum(a, b, r0, r1);
        lemma_listed_sum(a + b, d, r0, r1);
        lemma_listed_sum(a + b + d, e, r0, r1);
        let more = region_shortlist(w, h, p, c, leaves, y0, bx, by);
        lemma_listed_sum(s.upgrades, more, r0, r1);
        let t = BandState { upgrades: s.upgrades + more, ..s };
        let t0 = committed(t, plans[0], bx, by);
        let t1 = committed(t0, plans[1], bx + 2, by);
        let t2 = committed(t1, plans[2], bx, by + 2);
        lemma_committed_between(t, plans[0], bx, by, r0, r1);
        lemma_committed_between(t0, plans[1], bx + 2, by, r0, r1);
        lemma_committed_between(t1, plans[2], bx, by + 2, r0, r1);
        lemma_committed_between(t2, plans[3], bx + 2, by + 2, r0, r1);
    }
}

proof fn lemma_leaf_sites_between<A: Amount>(
    w: int,
    h: int,
    p: SelectionParams<A>,
    sites: Seq<Site>,
    costs: Seq<SiteCosts<A>>,
    leaves: Seq<Vec<LeafChoice<A>>>,
    y0: int,
    s: BandState<A>,
    n: int,
    r0: int,
    r1: int,
)
    requires
        lists_between(s, r0, r1),
        0 <= r0 <= r1 <= usize::MAX,
        spread(sites, 0, w, r0, r1),
        0 <= n <= sites.len(),
    ensures
        lists_between(after_leaf_sites(w, h, p, sites, costs, leaves, y0, s, n), r0, r1),
    decreases n,
{
    if n > 0 {
        lemma_leaf_sites_between(w, h, p, sites, costs, leaves, y0, s, n - 1, r0, r1);
        let t = after_leaf_sites(w, h, p, sites, costs, leaves, y0, s, n - 1);
        let site = sites[n - 1];
        let bx = site.bx as int;
        let by = site.by as int;
        assert(r0 <= by && by + site.side() <= r1);
        if site.quad {
            lemma_leaf_region_between(
                w,
                h,
                p,
                costs[n - 1],
                leaves,
                y0,
                bx,
                by,
                t,
                r0,
                r1,
            );
        } else {
            let c = costs[n - 1].supers@[0]@[0];
            let l = leaves_at(leaves, y0, bx, by);
            let more = plan_shortlist(w, h, p, c, l, bx, by);
            lemma_plan_between(w, h, p, c, l, bx, by, r0, r1);
            lemma_listed_sum(t.upgrades, more, r0, r1);
            let u = BandState { upgrades: t.upgrades + more, ..t };
            lemma_committed_between(u, super_plan(w, h, p, c, l, bx, by), bx, by, r0, r1);
            assert(leaf_super_step(w, h, p, c, l, bx, by, t) == committed(
                u,
                super_plan(w, h, p, c, l, bx, by),
                bx,
                by,
            ));
        }
    }
}

/// No transform that begins in rows `[r0, r1)` reaches below them.
pub open spec fn ends_in_rows(v: Layout, w: int, r0: int, r1: int) -> bool {
    forall|x: int, y: int|
        0 <= x < w && r0 <= y < r1 && (#[trigger] v[y][x]).first ==> y + covered_y(
            v[y][x].strategy,
        ) <= r1
}

proof fn lemma_ends_in_rows(v: Layout, s: Layout, w: int, h: int, r0: int, r1: int)
    requires
        tiled(v, w, h),
        tiled(s, w, h),
        single_blocks(s, w, h, 0, 0, w, h),
        0 <= r0 <= r1 <= h,
        forall|j: int| r1 <= j < h ==> #[trigger] v[j] == s[j],
    ensures
        ends_in_rows(v, w, r0, r1),
{
    assert forall|x: int, y: int|
        0 <= x < w && r0 <= y < r1 && (#[trigger] v[y][x]).first implies y + covered_y(
        v[y][x].strategy,
    ) <= r1 by {
        assert(in_bounds(w, h, x, y));
        if y + covered_y(v[y][x].strategy) > r1 {
            assert(r1 < h);
            assert(v[r1] == s[r1]);
            lemma_single_block(s, w, h, x, r1);
            assert(covers(v, x, y, x, r1));
            assert(covers(v, x, r1, x, r1));
        }
    }
}

/// What a band selects stays in its rows: what it saves and shortlists stands there,
/// shortlisted merges are aligned, and no transform reaches below the band.
pub proof fn law_selection_stays_in_its_rows<A: Amount>(
    w: int,
    h: int,
    p: SelectionParams<A>,
    y0: int,
    y1: int,
    costs: Seq<SiteCosts<A>>,
    s: BandState<A>,
)
    requires
        0 <= w,
        w + 4 <= usize::MAX,
        0 <= y0 <= y1 <= h,
        h + 4 <= usize::MAX,
        y0 % 4 == 0,
        y1 % 4 == 0 || y1 == h,
        tiled(s.layout, w, h),
        single_blocks(s.layout, w, h, 0, 0, w, h),
        s.saved.len() == 0,
        s.upgrades.len() == 0,
    ensures
        ({
            let sites = band_sites(w, h, y0, y1);
            let own = after_sites(w, h, p, sites, costs, s, sites.len() as int);
            &&& lists_between(own, y0, y1)
            &&& all_aligned(own.upgrades)
            &&& ends_in_rows(own.layout, w, y0, y1)
        }),
{
    let sites = band_sites(w, h, y0, y1);
    let n = sites.len() as int;
    let own = after_sites(w, h, p, sites, costs, s, n);
    law_sites_do_not_overlap(w, h, y0, y1);
    lemma_sites_between(w, h, p, sites, costs, s, n, y0, y1);
    lemma_sites_even(w, h, y0, y1);
    lemma_selection_aligned(w, h, p, sites, costs, s, n);
    assert(single_blocks(s.layout, w, h, 0, y0, w, y1 - y0));
    law_selection_keeps_tiling(w, h, y0, y1, p, costs, s);
    lemma_after_sites_other_rows(w, h, p, sites, costs, s, n, y0, y1, y1, h);
    lemma_ends_in_rows(own.layout, s.layout, w, h, y0, y1);
}

/// The same of a band that selects from its leaves up.
pub proof fn law_leaf_first_stays_in_its_rows<A: Amount>(
    w: int,
    h: int,
    p: SelectionParams<A>,
    y0: int,
    y1: int,
    costs: Seq<SiteCosts<A>>,
    leaves: Seq<Vec<LeafChoice<A>>>,
    s: BandState<A>,
)
    requires
        0 <= w,
        w + 4 <= usize::MAX,
        0 <= y0 <= y1 <= h,
        h + 4 <= usize::MAX,
        y0 % 4 == 0,
        y1 % 4 == 0 || y1 == h,
        costs.len() == band_sites(w, h, y0, y1).len(),
        leaves_shape(leaves, w, y1 - y0),
        single_block_leaves(leaves),
        tiled(s.layout, w, h),
        single_blocks(s.layout, w, h, 0, 0, w, h),
        s.saved.len() == 0,
        s.upgrades.len() == 0,
    ensures
        ({
            let own = after_leaf_first(w, h, p, y0, y1, costs, leaves, s);
            &&& lists_between(own, y0, y1)
            &&& all_aligned(own.upgrades)
            &&& ends_in_rows(own.layout, w, y0, y1)
        }),
{
    let sites = band_sites(w, h, y0, y1);
    let n = sites.len() as int;
    let own = after_leaf_first(w, h, p, y0, y1, costs, leaves, s);
    let start = BandState { layout: leaves_layout(s.layout, leaves, y0), ..s };
    law_sites_do_not_overlap(w, h, y0, y1);
    lemma_leaf_sites_between(w, h, p, sites, costs, leaves, y0, start, n, y0, y1);
    lemma_sites_even(w, h, y0, y1);
    lemma_leaf_first_aligned(w, h, p, sites, costs, leaves, y0, start, n);
    assert(single_blocks(s.layout, w, h, 0, y0, w, y1 - y0));
    law_leaf_first_keeps_tiling(w, h, p, y0, y1, costs, leaves, s);
    lemma_leaves_layout_shaped(s.layout, w, h, leaves, y0);
    lemma_leaf_sites_outside(w, h, p, sites, costs, leaves, y0, start, y0, y1, n);
    assert forall|j: int| y1 <= j < h implies #[trigger] own.layout[j] == s.layout[j] by {
        assert(own.layout[j] == start.layout[j]);
        assert(start.layout[j] == s.layout[j]);
    }
    lemma_ends_in_rows(own.layout, s.layout, w, h, y0, y1);
}

} // verus!
