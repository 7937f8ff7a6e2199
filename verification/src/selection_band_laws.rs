//! Selection does not depend on how rows are cut into bands.

use crate::amount::Amount;
use crate::band_laws::handed;
use crate::bands::{
    band_sites, contiguous, law_sites_do_not_overlap, lemma_band_sites_split, lemma_bands_within,
    spread, Site,
};
use crate::leaf_first::{
    after_leaf_first, after_leaf_sites, committed, leaf_region_step, leaf_super_step, leaves_at,
    leaves_layout, leaves_shape, merged_layout, plan_placements, plan_shortlist, region_choice,
    region_plans, region_shortlist, single_block_leaves, super_plan, with_leaves, LeafChoice,
    PlanView,
};
use crate::leaf_first_laws::{law_leaf_super_step_layout, lemma_leaves_at_single};
use crate::saved_laws::lemma_region_saves;
use crate::scope_laws::lemma_super_step_outside;
use crate::selection::{after_sites, BandState, SelectionParams, SiteCosts};
use crate::selection_laws::{
    after_bands, law_bands_cut_the_list_of_sites,
    law_selection_does_not_depend_on_the_number_of_bands, lemma_place_all_rows,
    lemma_with_first_rows, own_outputs, rows_agree, runs_alongside,
};
use crate::strategy::{
    covered_x, covered_y, STRATEGY_DCT16X32, STRATEGY_DCT32X16, STRATEGY_DCT32X32,
};
use crate::strategy_map::{rows_replaced, with_first, Layout};
use crate::super_block::SuperBlockCosts;
use crate::tiling::shaped;
use vstd::prelude::*;

verus! {

/// Rows `[r0, r1)` of the map have the same leaves in both lists, of which the
/// first begins at row `ya` and the second at row `yb`.
pub open spec fn leaves_alike<A>(
    a: Seq<Vec<LeafChoice<A>>>,
    ya: int,
    b: Seq<Vec<LeafChoice<A>>>,
    yb: int,
    r0: int,
    r1: int,
) -> bool {
    forall|y: int| r0 <= y < r1 ==> #[trigger] a[y - ya] == b[y - yb]
}

proof fn lemma_leaves_at_alike<A>(
    a: Seq<Vec<LeafChoice<A>>>,
    ya: int,
    b: Seq<Vec<LeafChoice<A>>>,
    yb: int,
    r0: int,
    r1: int,
    bx: int,
    by: int,
)
    requires
        leaves_alike(a, ya, b, yb, r0, r1),
        r0 <= by,
        by + 2 <= r1,
    ensures
        leaves_at(a, ya, bx, by) == leaves_at(b, yb, bx, by),
{
    assert(a[by - ya] == b[by - yb]);
    assert(a[by + 1 - ya] == b[by + 1 - yb]);
}

proof fn lemma_committed_alongside<A>(
    base: BandState<A>,
    whole: BandState<A>,
    own: BandState<A>,
    plan: PlanView<A>,
    bx: int,
    by: int,
    r0: int,
    r1: int,
)
    requires
        runs_alongside(base, whole, own, r0, r1),
    ensures
        runs_alongside(base, committed(whole, plan, bx, by), committed(own, plan, bx, by), r0, r1),
{
    lemma_place_all_rows(whole.layout, own.layout, r0, r1, plan_placements(plan.grid, bx, by));
    assert(committed(whole, plan, bx, by).saved =~= base.saved + committed(
        own,
        plan,
        bx,
        by,
    ).saved);
}

proof fn lemma_leaf_super_alongside<A: Amount>(
    w: int,
    h: int,
    p: SelectionParams<A>,
    c: SuperBlockCosts<A>,
    l: [[LeafChoice<A>; 2]; 2],
    bx: int,
    by: int,
    base: BandState<A>,
    whole: BandState<A>,
    own: BandState<A>,
    r0: int,
    r1: int,
)
    requires
        runs_alongside(base, whole, own, r0, r1),
    ensures
        runs_alongside(
            base,
            leaf_super_step(w, h, p, c, l, bx, by, whole),
            leaf_super_step(w, h, p, c, l, bx, by, own),
            r0,
            r1,
        ),
{
    let more = plan_shortlist(w, h, p, c, l, bx, by);
    let a = BandState { upgrades: whole.upgrades + more, ..whole };
    let b = BandState { upgrades: own.upgrades + more, ..own };
    assert(a.upgrades =~= base.upgrades + b.upgrades);
    lemma_committed_alongside(
        base,
        a,
        b,
        super_plan(w, h, p, c, l, bx, by),
        bx,
        by,
        r0,
        r1,
    );
}

proof fn lemma_merged_rows(a: Layout, b: Layout, strategy: u8, bx: int, by: int, r0: int, r1: int)
    requires
        rows_agree(a, b, r0, r1),
    ensures
        rows_agree(merged_layout(a, strategy, bx, by), merged_layout(b, strategy, bx, by), r0, r1),
{
    if strategy == STRATEGY_DCT32X32 {
        lemma_with_first_rows(a, b, r0, r1, bx, by, STRATEGY_DCT32X32);
    } else {
        let (s, dx, dy) = if strategy == STRATEGY_DCT32X16 {
            (STRATEGY_DCT32X16, 2int, 0int)
        } else {
            (STRATEGY_DCT16X32, 0int, 2int)
        };
        lemma_with_first_rows(a, b, r0, r1, bx, by, s);
        lemma_with_first_rows(
            with_first(a, bx, by, s),
            with_first(b, bx, by, s),
            r0,
            r1,
            bx + dx,
            by + dy,
            s,
        );
    }
}

proof fn lemma_leaf_region_alongside<A: Amount>(
    w: int,
    h: int,
    p: SelectionParams<A>,
    c: SiteCosts<A>,
    la: Seq<Vec<LeafChoice<A>>>,
    ya: int,
    lb: Seq<Vec<LeafChoice<A>>>,
    yb: int,
    bx: int,
    by: int,
    base: BandState<A>,
    whole: BandState<A>,
    own: BandState<A>,
    r0: int,
    r1: int,
)
    requires
        runs_alongside(base, whole, own, r0, r1),
        leaves_alike(la, ya, lb, yb, r0, r1),
        r0 <= by,
        by + 4 <= r1,
    ensures
        runs_alongside(
            base,
            leaf_region_step(w, h, p, c, la, ya, bx, by, whole),
            leaf_region_step(w, h, p, c, lb, yb, bx, by, own),
            r0,
            r1,
        ),
{
    lemma_leaves_at_alike(la, ya, lb, yb, r0, r1, bx, by);
    lemma_leaves_at_alike(la, ya, lb, yb, r0, r1, bx + 2, by);
    lemma_leaves_at_alike(la, ya, lb, yb, r0, r1, bx, by + 2);
    lemma_leaves_at_alike(la, ya, lb, yb, r0, r1, bx + 2, by + 2);
    let plans = region_plans(w, h, p, c, la, ya, bx, by);
    assert(plans == region_plans(w, h, p, c, lb, yb, bx, by));
    let choice = region_choice(w, h, p, c, plans, bx, by);
    let more = region_shortlist(w, h, p, c, la, ya, bx, by);
    assert(more == region_shortlist(w, h, p, c, lb, yb, bx, by));
    let after = leaf_region_step(w, h, p, c, la, ya, bx, by, whole);
    let alone = leaf_region_step(w, h, p, c, lb, yb, bx, by, own);
    if choice.merged {
        lemma_merged_rows(whole.layout, own.layout, choice.strategy, bx, by, r0, r1);
        assert(after.saved =~= base.saved + alone.saved);
    } else {
        let a = BandState { upgrades: whole.upgrades + more, ..whole };
        let b = BandState { upgrades: own.upgrades + more, ..own };
        assert(a.upgrades =~= base.upgrades + b.upgrades);
        let a0 = committed(a, plans[0], bx, by);
        let b0 = committed(b, plans[0], bx, by);
        let a1 = committed(a0, plans[1], bx + 2, by);
        let b1 = committed(b0, plans[1], bx + 2, by);
        let a2 = committed(a1, plans[2], bx, by + 2);
        let b2 = committed(b1, plans[2], bx, by + 2);
        lemma_committed_alongside(base, a, b, plans[0], bx, by, r0, r1);
        lemma_committed_alongside(base, a0, b0, plans[1], bx + 2, by, r0, r1);
        lemma_committed_alongside(base, a1, b1, plans[2], bx, by + 2, r0, r1);
        lemma_committed_alongside(base, a2, b2, plans[3], bx + 2, by + 2, r0, r1);
    }
    assert(after.chosen32 =~= base.chosen32 + alone.chosen32);
}

proof fn lemma_leaf_sites_alongside<A: Amount>(
    w: int,
    h: int,
    p: SelectionParams<A>,
    sites: Seq<Site>,
    costs: Seq<SiteCosts<A>>,
    la: Seq<Vec<LeafChoice<A>>>,
    ya: int,
    lb: Seq<Vec<LeafChoice<A>>>,
    yb: int,
    base: BandState<A>,
    whole: BandState<A>,
    own: BandState<A>,
    r0: int,
    r1: int,
    n: int,
)
    requires
        runs_alongside(base, whole, own, r0, r1),
        leaves_alike(la, ya, lb, yb, r0, r1),
        spread(sites, 0, w, r0, r1),
        0 <= n <= sites.len(),
    ensures
        runs_alongside(
            base,
            after_leaf_sites(w, h, p, sites, costs, la, ya, whole, n),
            after_leaf_sites(w, h, p, sites, costs, lb, yb, own, n),
            r0,
            r1,
        ),
    decreases n,
{
    if n > 0 {
        lemma_leaf_sites_alongside(
            w,
            h,
            p,
            sites,
            costs,
            la,
            ya,
            lb,
            yb,
            base,
            whole,
            own,
            r0,
            r1,
            n - 1,
        );
        let a = after_leaf_sites(w, h, p, sites, costs, la, ya, whole, n - 1);
        let b = after_leaf_sites(w, h, p, sites, costs, lb, yb, own, n - 1);
        let site = sites[n - 1];
        let bx = site.bx as int;
        let by = site.by as int;
        assert(r0 <= by && by + site.side() <= r1);
        if site.quad {
            lemma_leaf_region_alongside(
                w,
                h,
                p,
                costs[n - 1],
                la,
                ya,
                lb,
                yb,
                bx,
                by,
                base,
                a,
                b,
                r0,
                r1,
            );
        } else {
            lemma_leaves_at_alike(la, ya, lb, yb, r0, r1, bx, by);
            lemma_leaf_super_alongside(
                w,
                h,
                p,
                costs[n - 1].supers@[0]@[0],
                leaves_at(la, ya, bx, by),
                bx,
                by,
                base,
                a,
                b,
                r0,
                r1,
            );
        }
    }
}

/// Both layouts have the given size and agree outside rows `[r0, r1)`.
pub open spec fn kept_outside(v: Layout, u: Layout, w: int, h: int, r0: int, r1: int) -> bool {
    &&& shaped(v, w, h)
    &&& shaped(u, w, h)
    &&& forall|j: int| 0 <= j < h && !(r0 <= j < r1) ==> #[trigger] u[j] == v[j]
}

pub(crate) proof fn lemma_leaf_sites_outside<A: Amount>(
    w: int,
    h: int,
    p: SelectionParams<A>,
    sites: Seq<Site>,
    costs: Seq<SiteCosts<A>>,
    leaves: Seq<Vec<LeafChoice<A>>>,
    y0: int,
    s: BandState<A>,
    r0: int,
    r1: int,
    n: int,
)
    requires
        0 <= w <= usize::MAX,
        0 <= h <= usize::MAX,
        shaped(s.layout, w, h),
        leaves_shape(leaves, w, leaves.len() as int),
        single_block_leaves(leaves),
        0 <= y0 <= r0,
        r1 <= h,
        r1 <= y0 + leaves.len(),
        spread(sites, 0, w, r0, r1),
        0 <= n <= sites.len(),
    ensures
        kept_outside(
            s.layout,
            after_leaf_sites(w, h, p, sites, costs, leaves, y0, s, n).layout,
            w,
            h,
            r0,
            r1,
        ),
    decreases n,
{
    if n > 0 {
        lemma_leaf_sites_outside(w, h, p, sites, costs, leaves, y0, s, r0, r1, n - 1);
        let t = after_leaf_sites(w, h, p, sites, costs, leaves, y0, s, n - 1);
        let u = after_leaf_sites(w, h, p, sites, costs, leaves, y0, s, n);
        let site = sites[n - 1];
        let bx = site.bx as int;
        let by = site.by as int;
        assert(r0 <= by && by + site.side() <= r1 && bx + site.side() <= w);
        if site.quad {
            lemma_region_saves(w, h, p, costs[n - 1], leaves, y0, bx, by, t);
        } else {
            let c = costs[n - 1].supers@[0]@[0];
            let l = leaves_at(leaves, y0, bx, by);
            lemma_leaves_at_single(leaves, w, y0, bx, by);
            law_leaf_super_step_layout(w, h, p, c, l, bx, by, t);
            lemma_super_step_outside(w, h, p, with_leaves(c, l), bx, by, t);
        }
        assert forall|j: int| 0 <= j < h && !(r0 <= j < r1) implies #[trigger] u.layout[j]
            == s.layout[j] by {
            assert(t.layout[j] == s.layout[j]);
            assert(u.layout[j].len() == t.layout[j].len());
            assert(u.layout[j] =~= t.layout[j]);
        }
        assert forall|j: int| 0 <= j < h implies (#[trigger] u.layout[j]).len() == w by {
            assert(t.layout[j].len() == w);
        }
    }
}

proof fn lemma_leaf_sites_cut<A: Amount>(
    w: int,
    h: int,
    p: SelectionParams<A>,
    a: Seq<Site>,
    b: Seq<Site>,
    ca: Seq<SiteCosts<A>>,
    cb: Seq<SiteCosts<A>>,
    leaves: Seq<Vec<LeafChoice<A>>>,
    y0: int,
    s: BandState<A>,
    n: int,
)
    requires
        a.len() == ca.len(),
        b.len() == cb.len(),
        0 <= n <= a.len() + b.len(),
    ensures
        after_leaf_sites(w, h, p, a + b, ca + cb, leaves, y0, s, n) == (if n <= a.len() {
            after_leaf_sites(w, h, p, a, ca, leaves, y0, s, n)
        } else {
            after_leaf_sites(
                w,
                h,
                p,
                b,
                cb,
                leaves,
                y0,
                after_leaf_sites(w, h, p, a, ca, leaves, y0, s, a.len() as int),
                n - a.len(),
            )
        }),
    decreases n,
{
    if n > 0 {
        lemma_leaf_sites_cut(w, h, p, a, b, ca, cb, leaves, y0, s, n - 1);
        if n <= a.len() {
            assert((a + b)[n - 1] == a[n - 1]);
            assert((ca + cb)[n - 1] == ca[n - 1]);
        } else {
            assert((a + b)[n - 1] == b[n - 1 - a.len()]);
            assert((ca + cb)[n - 1] == cb[n - 1 - ca.len()]);
            let mid = after_leaf_sites(w, h, p, a, ca, leaves, y0, s, a.len() as int);
            assert(after_leaf_sites(w, h, p, b, cb, leaves, y0, mid, 0) == mid);
        }
    }
}

/// What the leading `n` bands produce from their leaves up, each on its own.
pub open spec fn leaf_outputs<A: Amount>(
    w: int,
    h: int,
    p: SelectionParams<A>,
    bands: Seq<(usize, usize)>,
    costs: Seq<Seq<SiteCosts<A>>>,
    leaves: Seq<Seq<Vec<LeafChoice<A>>>>,
    s: BandState<A>,
    n: int,
) -> BandState<A>
    decreases n,
{
    if n <= 0 {
        s
    } else {
        let head = leaf_outputs(w, h, p, bands, costs, leaves, s, n - 1);
        let y0 = bands[n - 1].0 as int;
        let y1 = bands[n - 1].1 as int;
        let own = after_leaf_first(w, h, p, y0, y1, costs[n - 1], leaves[n - 1], s);
        BandState {
            layout: rows_replaced(head.layout, own.layout, y0, y1),
            chosen32: head.chosen32 + own.chosen32,
            saved: head.saved + own.saved,
            upgrades: head.upgrades + own.upgrades,
        }
    }
}

/// Each band has costs for its sites and single-block leaves for its blocks.
pub open spec fn bands_provided<A: Amount>(
    w: int,
    h: int,
    bands: Seq<(usize, usize)>,
    costs: Seq<Seq<SiteCosts<A>>>,
    leaves: Seq<Seq<Vec<LeafChoice<A>>>>,
) -> bool {
    forall|i: int|
        #![trigger bands[i]]
        0 <= i < bands.len() ==> {
            &&& costs[i].len() == band_sites(w, h, bands[i].0 as int, bands[i].1 as int).len()
            &&& leaves_shape(leaves[i], w, bands[i].1 - bands[i].0)
            &&& single_block_leaves(leaves[i])
        }
}

proof fn lemma_handed_leaves<A: Amount>(
    w: int,
    h: int,
    bands: Seq<(usize, usize)>,
    costs: Seq<Seq<SiteCosts<A>>>,
    leaves: Seq<Seq<Vec<LeafChoice<A>>>>,
    n: int,
)
    requires
        contiguous(bands, h),
        bands_provided(w, h, bands, costs, leaves),
        0 < n <= bands.len(),
    ensures
        leaves_shape(handed(leaves, n), w, bands[n - 1].1 as int),
        single_block_leaves(handed(leaves, n)),
    decreases n,
{
    let all = handed(leaves, n);
    let own = leaves[n - 1];
    assert(leaves_shape(own, w, bands[n - 1].1 - bands[n - 1].0));
    if n > 1 {
        lemma_handed_leaves(w, h, bands, costs, leaves, n - 1);
        let head = handed(leaves, n - 1);
        assert(bands[n - 1].0 == bands[n - 2].1);
        assert forall|j: int| 0 <= j < all.len() implies (#[trigger] all[j])@.len() == w by {
            if j < head.len() {
                assert(all[j] == head[j]);
            } else {
                assert(all[j] == own[j - head.len()]);
            }
        }
        assert forall|j: int, x: int|
            0 <= j < all.len() && 0 <= x < all[j]@.len() implies covered_x(
            (#[trigger] all[j]@[x]).strategy,
        ) == 1 && covered_y(all[j]@[x].strategy) == 1 by {
            if j < head.len() {
                assert(all[j]@[x] == head[j]@[x]);
            } else {
                assert(all[j]@[x] == own[j - head.len()]@[x]);
            }
        }
    } else {
        reveal_with_fuel(handed, 2);
        assert(all =~= own);
        assert(bands[0].0 == 0);
    }
}

pub(crate) proof fn lemma_leaves_layout_shaped<A>(
    v: Layout,
    w: int,
    h: int,
    leaves: Seq<Vec<LeafChoice<A>>>,
    y0: int,
)
    requires
        shaped(v, w, h),
    ensures
        kept_outside(v, leaves_layout(v, leaves, y0), w, h, y0, y0 + leaves.len()),
{
    let u = leaves_layout(v, leaves, y0);
    assert forall|j: int| 0 <= j < h && !(y0 <= j < y0 + leaves.len()) implies #[trigger] u[j]
        == v[j] by {
        assert(u[j] =~= v[j]);
    }
    assert forall|j: int| 0 <= j < h implies (#[trigger] u[j]).len() == w by {
        assert(v[j].len() == w);
    }
}

/// One more band: what it produces on its own, put below what the rows above it
/// give at once, is what all these rows give at once.
proof fn lemma_one_more_band<A: Amount>(
    w: int,
    h: int,
    p: SelectionParams<A>,
    c: int,
    y1: int,
    ca: Seq<SiteCosts<A>>,
    cb: Seq<SiteCosts<A>>,
    la: Seq<Vec<LeafChoice<A>>>,
    lb: Seq<Vec<LeafChoice<A>>>,
    s: BandState<A>,
)
    requires
        0 <= w <= usize::MAX,
        0 <= c <= y1 <= h <= usize::MAX,
        c % 4 == 0,
        y1 % 4 == 0 || y1 == h,
        shaped(s.layout, w, h),
        s.chosen32.len() == 0,
        s.saved.len() == 0,
        s.upgrades.len() == 0,
        ca.len() == band_sites(w, h, 0, c).len(),
        cb.len() == band_sites(w, h, c, y1).len(),
        leaves_shape(la, w, c),
        leaves_shape(lb, w, y1 - c),
        leaves_shape(la + lb, w, y1),
        single_block_leaves(la),
        single_block_leaves(lb),
        single_block_leaves(la + lb),
    ensures
        ({
            let head = after_leaf_first(w, h, p, 0, c, ca, la, s);
            let own = after_leaf_first(w, h, p, c, y1, cb, lb, s);
            let all = after_leaf_first(w, h, p, 0, y1, ca + cb, la + lb, s);
            &&& all.layout == rows_replaced(head.layout, own.layout, c, y1)
            &&& all.chosen32 == head.chosen32 + own.chosen32
            &&& all.saved == head.saved + own.saved
            &&& all.upgrades == head.upgrades + own.upgrades
            &&& head.layout.len() == h
        }),
{
    let lab = la + lb;
    let a = band_sites(w, h, 0, c);
    let b = band_sites(w, h, c, y1);
    let na = a.len() as int;
    let nb = b.len() as int;
    lemma_band_sites_split(w, h, 0, c, y1);
    law_sites_do_not_overlap(w, h, 0, c);
    law_sites_do_not_overlap(w, h, c, y1);
    let sa = BandState { layout: leaves_layout(s.layout, la, 0), ..s };
    let sb = BandState { layout: leaves_layout(s.layout, lb, c), ..s };
    let sab = BandState { layout: leaves_layout(s.layout, lab, 0), ..s };
    lemma_leaves_layout_shaped(s.layout, w, h, la, 0);
    lemma_leaves_layout_shaped(s.layout, w, h, lb, c);
    lemma_leaves_layout_shaped(s.layout, w, h, lab, 0);
    let mid = after_leaf_sites(w, h, p, a, ca, lab, 0, sab, na);
    let head = after_leaf_sites(w, h, p, a, ca, la, 0, sa, na);
    let own = after_leaf_sites(w, h, p, b, cb, lb, c, sb, nb);
    let all = after_leaf_sites(w, h, p, b, cb, lab, 0, mid, nb);
    assert(after_leaf_sites(w, h, p, a + b, ca + cb, lab, 0, sab, na + nb) == all) by {
        lemma_leaf_sites_cut(w, h, p, a, b, ca, cb, lab, 0, sab, na + nb);
    }
    assert(leaves_alike(lab, 0, la, 0, 0, c)) by {
        assert forall|y: int| 0 <= y < c implies #[trigger] lab[y - 0] == la[y - 0] by {}
    }
    assert(leaves_alike(lab, 0, lb, c, c, y1)) by {
        assert forall|y: int| c <= y < y1 implies #[trigger] lab[y - 0] == lb[y - c] by {}
    }
    assert(rows_agree(sab.layout, sa.layout, 0, c)) by {
        assert forall|j: int| 0 <= j < h && 0 <= j < c implies #[trigger] sab.layout[j]
            == sa.layout[j] by {
            assert(lab[j] == la[j]);
            assert(sab.layout[j] =~= sa.layout[j]);
        }
    }
    assert(runs_alongside(s, sab, sa, 0, c)) by {
        assert(sab.chosen32 =~= s.chosen32 + sa.chosen32);
        assert(sab.saved =~= s.saved + sa.saved);
        assert(sab.upgrades =~= s.upgrades + sa.upgrades);
    }
    lemma_leaf_sites_alongside(w, h, p, a, ca, lab, 0, la, 0, s, sab, sa, 0, c, na);
    assert(mid.chosen32 =~= head.chosen32);
    assert(mid.saved =~= head.saved);
    assert(mid.upgrades =~= head.upgrades);
    lemma_leaf_sites_outside(w, h, p, a, ca, lab, 0, sab, 0, c, na);
    lemma_leaf_sites_outside(w, h, p, a, ca, la, 0, sa, 0, c, na);
    assert(rows_agree(mid.layout, sb.layout, c, y1)) by {
        assert forall|j: int| 0 <= j < h && c <= j < y1 implies #[trigger] mid.layout[j]
            == sb.layout[j] by {
            assert(mid.layout[j] == sab.layout[j]);
            assert(lab[j] == lb[j - c]);
            assert(sab.layout[j] =~= sb.layout[j]);
        }
    }
    assert(runs_alongside(mid, mid, sb, c, y1)) by {
        assert(mid.chosen32 =~= mid.chosen32 + sb.chosen32);
        assert(mid.saved =~= mid.saved + sb.saved);
        assert(mid.upgrades =~= mid.upgrades + sb.upgrades);
    }
    lemma_leaf_sites_alongside(w, h, p, b, cb, lab, 0, lb, c, mid, mid, sb, c, y1, nb);
    lemma_leaf_sites_outside(w, h, p, b, cb, lab, 0, mid, c, y1, nb);
    let put = rows_replaced(head.layout, own.layout, c, y1);
    assert forall|j: int| 0 <= j < h implies #[trigger] all.layout[j] == put[j] by {
        if c <= j < y1 {
            assert(all.layout[j] == own.layout[j]);
        } else {
            assert(all.layout[j] == mid.layout[j]);
            if j < c {
                assert(mid.layout[j] == head.layout[j]);
            } else {
                assert(mid.layout[j] == sab.layout[j]);
                assert(sab.layout[j] == s.layout[j]);
                assert(head.layout[j] == sa.layout[j]);
                assert(sa.layout[j] == s.layout[j]);
            }
        }
    }
    assert(all.layout =~= put);
}

/// Bands that each select from their leaves up on a copy of the starting layout,
/// with their rows and outputs put together in order, give what selecting all
/// these rows at once gives.
pub proof fn law_leaf_first_does_not_depend_on_the_bands<A: Amount>(
    w: int,
    h: int,
    p: SelectionParams<A>,
    bands: Seq<(usize, usize)>,
    costs: Seq<Seq<SiteCosts<A>>>,
    leaves: Seq<Seq<Vec<LeafChoice<A>>>>,
    s: BandState<A>,
    n: int,
)
    requires
        0 <= w <= usize::MAX,
        0 <= h <= usize::MAX,
        contiguous(bands, h),
        bands_provided(w, h, bands, costs, leaves),
        shaped(s.layout, w, h),
        s.chosen32.len() == 0,
        s.saved.len() == 0,
        s.upgrades.len() == 0,
        0 < n <= bands.len(),
    ensures
        handed(costs, n).len() == band_sites(w, h, 0, bands[n - 1].1 as int).len(),
        leaves_shape(handed(leaves, n), w, bands[n - 1].1 as int),
        single_block_leaves(handed(leaves, n)),
        after_leaf_first(
            w,
            h,
            p,
            0,
            bands[n - 1].1 as int,
            handed(costs, n),
            handed(leaves, n),
            s,
        ) == leaf_outputs(w, h, p, bands, costs, leaves, s, n),
    decreases n,
{
    let c = bands[n - 1].0 as int;
    let y1 = bands[n - 1].1 as int;
    lemma_bands_within(bands, h, n - 1);
    assert(y1 % 4 == 0 || y1 == h);
    lemma_handed_leaves(w, h, bands, costs, leaves, n);
    let head = leaf_outputs(w, h, p, bands, costs, leaves, s, n - 1);
    let all = after_leaf_first(w, h, p, 0, y1, handed(costs, n), handed(leaves, n), s);
    let put = leaf_outputs(w, h, p, bands, costs, leaves, s, n);
    if n > 1 {
        law_leaf_first_does_not_depend_on_the_bands(w, h, p, bands, costs, leaves, s, n - 1);
        assert(bands[n - 2].1 == c);
        assert(c % 4 == 0);
        lemma_band_sites_split(w, h, 0, c, y1);
        lemma_one_more_band(
            w,
            h,
            p,
            c,
            y1,
            handed(costs, n - 1),
            costs[n - 1],
            handed(leaves, n - 1),
            leaves[n - 1],
            s,
        );
    } else {
        assert(c == 0);
        reveal_with_fuel(handed, 2);
        assert(handed(costs, 1) =~= costs[0]);
        assert(handed(leaves, 1) =~= leaves[0]);
        lemma_one_band(w, h, p, y1, costs[0], leaves[0], s);
        assert(head == s);
    }
    assert(all.chosen32 =~= put.chosen32);
    assert(all.saved =~= put.saved);
    assert(all.upgrades =~= put.upgrades);
    assert(all.layout =~= put.layout);
}

proof fn lemma_one_band<A: Amount>(
    w: int,
    h: int,
    p: SelectionParams<A>,
    y1: int,
    costs: Seq<SiteCosts<A>>,
    leaves: Seq<Vec<LeafChoice<A>>>,
    s: BandState<A>,
)
    requires
        0 <= w <= usize::MAX,
        0 <= y1 <= h <= usize::MAX,
        y1 % 4 == 0 || y1 == h,
        shaped(s.layout, w, h),
        costs.len() == band_sites(w, h, 0, y1).len(),
        leaves_shape(leaves, w, y1),
        single_block_leaves(leaves),
    ensures
        ({
            let own = after_leaf_first(w, h, p, 0, y1, costs, leaves, s);
            own.layout == rows_replaced(s.layout, own.layout, 0, y1)
        }),
{
    let sites = band_sites(w, h, 0, y1);
    let start = BandState { layout: leaves_layout(s.layout, leaves, 0), ..s };
    let own = after_leaf_first(w, h, p, 0, y1, costs, leaves, s);
    law_sites_do_not_overlap(w, h, 0, y1);
    lemma_leaves_layout_shaped(s.layout, w, h, leaves, 0);
    lemma_leaf_sites_outside(
        w,
        h,
        p,
        sites,
        costs,
        leaves,
        0,
        start,
        0,
        y1,
        sites.len() as int,
    );
    let put = rows_replaced(s.layout, own.layout, 0, y1);
    assert forall|j: int| 0 <= j < h implies #[trigger] own.layout[j] == put[j] by {
        if j >= y1 {
            assert(own.layout[j] == start.layout[j]);
            assert(start.layout[j] == s.layout[j]);
        }
    }
    assert(own.layout =~= put);
}

proof fn lemma_bands_at_once<A: Amount>(
    w: int,
    h: int,
    p: SelectionParams<A>,
    bands: Seq<(usize, usize)>,
    costs: Seq<Seq<SiteCosts<A>>>,
    s: BandState<A>,
    n: int,
)
    requires
        contiguous(bands, h),
        forall|i: int|
            #![trigger bands[i]]
            0 <= i < bands.len() ==> costs[i].len() == band_sites(
                w,
                h,
                bands[i].0 as int,
                bands[i].1 as int,
            ).len(),
        0 < n <= bands.len(),
    ensures
        handed(costs, n).len() == band_sites(w, h, 0, bands[n - 1].1 as int).len(),
        after_sites(
            w,
            h,
            p,
            band_sites(w, h, 0, bands[n - 1].1 as int),
            handed(costs, n),
            s,
            handed(costs, n).len() as int,
        ) == after_bands(w, h, p, bands, costs, s, n),
    decreases n,
{
    let c = bands[n - 1].0 as int;
    let y1 = bands[n - 1].1 as int;
    let b = band_sites(w, h, c, y1);
    lemma_bands_within(bands, h, n - 1);
    if n > 1 {
        lemma_bands_at_once(w, h, p, bands, costs, s, n - 1);
        assert(bands[n - 2].1 == c);
        let a = band_sites(w, h, 0, c);
        lemma_band_sites_split(w, h, 0, c, y1);
        law_bands_cut_the_list_of_sites(
            w,
            h,
            p,
            a,
            b,
            handed(costs, n - 1),
            costs[n - 1],
            s,
            (a.len() + b.len()) as int,
        );
        if b.len() == 0 {
            assert(after_bands(w, h, p, bands, costs, s, n) == after_bands(
                w,
                h,
                p,
                bands,
                costs,
                s,
                n - 1,
            ));
        }
    } else {
        reveal_with_fuel(handed, 2);
        reveal_with_fuel(after_bands, 2);
        assert(handed(costs, 1) =~= costs[0]);
    }
}

/// Bands that each select on a copy of the starting layout, with their rows and
/// outputs put together in order, give what selecting all these rows at once
/// gives.
pub proof fn law_selecting_does_not_depend_on_the_bands<A: Amount>(
    w: int,
    h: int,
    p: SelectionParams<A>,
    bands: Seq<(usize, usize)>,
    costs: Seq<Seq<SiteCosts<A>>>,
    s: BandState<A>,
    n: int,
)
    requires
        0 <= w <= usize::MAX,
        0 < h <= usize::MAX,
        contiguous(bands, h),
        forall|i: int|
            #![trigger bands[i]]
            0 <= i < bands.len() ==> costs[i].len() == band_sites(
                w,
                h,
                bands[i].0 as int,
                bands[i].1 as int,
            ).len(),
        s.layout.len() == h,
        s.chosen32.len() == 0,
        s.saved.len() == 0,
        s.upgrades.len() == 0,
        0 < n <= bands.len(),
    ensures
        handed(costs, n).len() == band_sites(w, h, 0, bands[n - 1].1 as int).len(),
        after_sites(
            w,
            h,
            p,
            band_sites(w, h, 0, bands[n - 1].1 as int),
            handed(costs, n),
            s,
            handed(costs, n).len() as int,
        ) == own_outputs(w, h, p, bands, costs, s, n),
{
    lemma_bands_at_once(w, h, p, bands, costs, s, n);
    law_selection_does_not_depend_on_the_number_of_bands(w, h, p, bands, costs, s, n);
}

} // verus!
