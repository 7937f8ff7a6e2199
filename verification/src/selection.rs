//! Selection of strategies over a band of block rows.

use crate::amount::Amount;
use crate::bands::{band_sites, lemma_sites_inside, selection_sites, Site};
use crate::merge::{
    best_partition, choose_merge_partition, chosen, has_merge, partition_cost, partition_cost_spec,
};
use crate::scope::SelectorPolicy;
use crate::strategy::{
    covered_blocks_x_of, covered_blocks_y_of, covered_x, covered_y, STRATEGY_DCT,
};
use crate::strategy_map::{fits_in, with_first, AcStrategyImage, Cell, Layout, Placement};
use crate::super_block::{
    arm_spec, capture_children, captured, child_grid, choice_placements, kept, leaf_totals,
    merge32_sites, merge32_sites_spec, nontrivial, pick, raw_costs, saved_views,
    select_super_block, shortlisted, super_choice, window_stands_out, MergeTuning, SavedChild,
    SavedView, SuperBlockCost, SuperBlockCosts,
};
use crate::tiling::place_all;
use vstd::prelude::*;

verus! {

/// What the cost model says of one site. A super-block uses `supers[0][0]`
/// alone; a 4x4 region uses the costs of its four super-blocks, `[sy][sx]`, and
/// those of the merges over the whole region.
#[derive(Clone, Copy)]
pub struct SiteCosts<A> {
    pub supers: [[SuperBlockCosts<A>; 2]; 2],
    /// Costs of the 32x32 transform, of the left and the right 32x16 transform,
    /// and of the top and the bottom 16x32 transform.
    pub raw: [A; 5],
    /// Acceptance factors of the same on this region.
    pub accept: [A; 5],
}

/// Cost of the layout chosen for a 4x4 region.
#[derive(Clone, Copy)]
pub struct Chosen32Cost<A> {
    pub bx: usize,
    pub by: usize,
    pub cost: A,
}

/// What selection has produced so far: the layout, the cost of every 4x4 region,
/// the saved child layouts and the shortlisted merges.
pub struct BandState<A> {
    pub layout: Layout,
    pub chosen32: Seq<Chosen32Cost<A>>,
    pub saved: Seq<SavedView>,
    pub upgrades: Seq<Placement>,
}

/// What selection is run with.
pub struct SelectionParams<A> {
    pub rectangles: bool,
    /// The switches in force at the encode's distance.
    pub policy: SelectorPolicy,
    pub tuning: MergeTuning<A>,
}

/// The state after deciding on the super-block at `(bx, by)`.
pub open spec fn super_step<A: Amount>(
    w: int,
    h: int,
    p: SelectionParams<A>,
    c: SuperBlockCosts<A>,
    bx: int,
    by: int,
    s: BandState<A>,
) -> BandState<A> {
    let choice = super_choice(w, h, bx, by, p.rectangles, p.policy.raw_propagation, p.tuning, c);
    let arm = arm_spec(choice, seq![STRATEGY_DCT, STRATEGY_DCT, STRATEGY_DCT, STRATEGY_DCT]);
    BandState {
        layout: place_all(s.layout, choice_placements(choice, bx, by)),
        chosen32: s.chosen32,
        saved: s.saved + kept(choice.square && nontrivial(arm), bx, by, child_grid(arm)),
        upgrades: s.upgrades + (if p.policy.merge_upgrade {
            shortlisted(w, h, bx, by, raw_costs(p.rectangles, c), leaf_totals(c.leaf), 5)
        } else {
            Seq::empty()
        }),
    }
}

/// Cost that the decision on the super-block at `(bx, by)` hands on.
pub open spec fn super_cost<A: Amount>(
    w: int,
    h: int,
    p: SelectionParams<A>,
    c: SuperBlockCosts<A>,
    bx: int,
    by: int,
) -> A {
    super_choice(w, h, bx, by, p.rectangles, p.policy.raw_propagation, p.tuning, c).cost
}

/// Cost of merge `k` over a 4x4 region before any bias; halves are out of the
/// question where rectangles are.
pub open spec fn raw32<A: Amount>(rectangles: bool, c: SiteCosts<A>, k: int) -> A {
    pick(rectangles || k == 0, c.raw@[k], A::infinite_spec())
}

/// Decision cost of merge `k` over the 4x4 region at `(bx, by)`.
pub open spec fn cost32<A: Amount>(
    w: int,
    h: int,
    p: SelectionParams<A>,
    c: SiteCosts<A>,
    bx: int,
    by: int,
    k: int,
) -> A {
    let site = merge32_sites_spec(bx, by)[k];
    if !fits_in(w, h, site.x as int, site.y as int, site.strategy) {
        A::infinite_spec()
    } else if k == 0 {
        p.tuning.bias_32x32.times_spec(c.raw@[0])
    } else {
        p.tuning.bias_rect32.times_spec(raw32(p.rectangles, c, k))
    }
}

/// The state after the leading `n` merges of a region were committed, where the
/// mask holds them; the layout that each covers is saved first.
pub open spec fn commit32<A>(s: BandState<A>, bx: int, by: int, mask: u8, n: int) -> BandState<A>
    decreases n,
{
    if n <= 0 {
        s
    } else {
        let t = commit32(s, bx, by, mask, n - 1);
        let site = merge32_sites_spec(bx, by)[n - 1];
        let cx = covered_x(site.strategy);
        let cy = covered_y(site.strategy);
        let x = site.x as int;
        let y = site.y as int;
        if chosen(mask, n - 1) {
            BandState {
                layout: with_first(t.layout, x, y, site.strategy),
                saved: t.saved + kept(
                    window_stands_out(t.layout, x, y, cx, cy),
                    x,
                    y,
                    captured(t.layout, x, y, cx, cy),
                ),
                ..t
            }
        } else {
            t
        }
    }
}

/// The state after deciding on the 4x4 region at `(bx, by)`: the four
/// super-blocks first, then the merges over them.
pub open spec fn region_step<A: Amount>(
    w: int,
    h: int,
    p: SelectionParams<A>,
    c: SiteCosts<A>,
    bx: int,
    by: int,
    s: BandState<A>,
) -> BandState<A> {
    let s0 = super_step(w, h, p, c.supers@[0]@[0], bx, by, s);
    let s1 = super_step(w, h, p, c.supers@[0]@[1], bx + 2, by, s0);
    let s2 = super_step(w, h, p, c.supers@[1]@[0], bx, by + 2, s1);
    let s3 = super_step(w, h, p, c.supers@[1]@[1], bx + 2, by + 2, s2);
    let children = [
        [
            super_cost(w, h, p, c.supers@[0]@[0], bx, by),
            super_cost(w, h, p, c.supers@[0]@[1], bx + 2, by),
        ],
        [
            super_cost(w, h, p, c.supers@[1]@[0], bx, by + 2),
            super_cost(w, h, p, c.supers@[1]@[1], bx + 2, by + 2),
        ],
    ];
    let baseline = [
        [leaf_totals(c.supers@[0]@[0].leaf)[0], leaf_totals(c.supers@[0]@[1].leaf)[0]],
        [leaf_totals(c.supers@[1]@[0].leaf)[0], leaf_totals(c.supers@[1]@[1].leaf)[0]],
    ];
    let costs = [
        cost32(w, h, p, c, bx, by, 0),
        cost32(w, h, p, c, bx, by, 1),
        cost32(w, h, p, c, bx, by, 2),
        cost32(w, h, p, c, bx, by, 3),
        cost32(w, h, p, c, bx, by, 4),
    ];
    let raw = [
        raw32(p.rectangles, c, 0),
        raw32(p.rectangles, c, 1),
        raw32(p.rectangles, c, 2),
        raw32(p.rectangles, c, 3),
        raw32(p.rectangles, c, 4),
    ];
    let mask = best_partition(children, baseline, costs, c.accept, 8);
    let done = commit32(s3, bx, by, mask, 5);
    BandState {
        chosen32: done.chosen32.push(
            Chosen32Cost {
                bx: bx as usize,
                by: by as usize,
                cost: partition_cost_spec(
                    children,
                    pick(p.policy.raw_propagation, raw, costs),
                    mask,
                ),
            },
        ),
        ..done
    }
}

/// The state after the leading `n` sites.
pub open spec fn after_sites<A: Amount>(
    w: int,
    h: int,
    p: SelectionParams<A>,
    sites: Seq<Site>,
    costs: Seq<SiteCosts<A>>,
    s: BandState<A>,
    n: int,
) -> BandState<A>
    decreases n,
{
    if n <= 0 {
        s
    } else {
        let t = after_sites(w, h, p, sites, costs, s, n - 1);
        let site = sites[n - 1];
        if site.quad {
            region_step(w, h, p, costs[n - 1], site.bx as int, site.by as int, t)
        } else {
            super_step(
                w,
                h,
                p,
                costs[n - 1].supers@[0]@[0],
                site.bx as int,
                site.by as int,
                t,
            )
        }
    }
}

/// The outputs of selection over a band.
pub struct BandOutput<A> {
    pub chosen32: Vec<Chosen32Cost<A>>,
    pub saved_children: Vec<SavedChild>,
    pub upgrade_candidates: Vec<Placement>,
}

impl<A: Amount> BandOutput<A> {
    /// The state that a map and these outputs stand for.
    pub open spec fn with(&self, map: AcStrategyImage) -> BandState<A> {
        BandState {
            layout: map@,
            chosen32: self.chosen32@,
            saved: saved_views(self.saved_children@),
            upgrades: self.upgrade_candidates@,
        }
    }

    pub fn new() -> (r: Self)
        ensures
            r.chosen32@.len() == 0,
            r.saved_children@.len() == 0,
            r.upgrade_candidates@.len() == 0,
    {
        BandOutput {
            chosen32: Vec::new(),
            saved_children: Vec::new(),
            upgrade_candidates: Vec::new(),
        }
    }
}

fn select_one<A: Amount>(
    map: &mut AcStrategyImage,
    p: &SelectionParams<A>,
    c: &SuperBlockCosts<A>,
    bx: usize,
    by: usize,
    out: &mut BandOutput<A>,
) -> (r: SuperBlockCost<A>)
    requires
        old(map).wf(),
        bx < usize::MAX,
        by < usize::MAX,
    ensures
        final(map).wf(),
        final(map).width() == old(map).width(),
        final(map).height() == old(map).height(),
        final(out).with(*final(map)) == super_step(
            old(map).width() as int,
            old(map).height() as int,
            *p,
            *c,
            bx as int,
            by as int,
            old(out).with(*old(map)),
        ),
        r.chosen == super_cost(
            old(map).width() as int,
            old(map).height() as int,
            *p,
            *c,
            bx as int,
            by as int,
        ),
        r.dct8 == leaf_totals(c.leaf)[0],
{
    select_super_block(
        map,
        bx,
        by,
        p.rectangles,
        &p.policy,
        &p.tuning,
        c,
        &mut out.saved_children,
        &mut out.upgrade_candidates,
    )
}

fn costs32<A: Amount>(
    map: &AcStrategyImage,
    p: &SelectionParams<A>,
    c: &SiteCosts<A>,
    bx: usize,
    by: usize,
) -> (r: ([A; 5], [A; 5]))
    requires
        bx <= usize::MAX - 2,
        by <= usize::MAX - 2,
    ensures
        forall|k: int|
            0 <= k < 5 ==> #[trigger] r.0@[k] == raw32(p.rectangles, *c, k),
        forall|k: int|
            0 <= k < 5 ==> #[trigger] r.1@[k] == cost32(
                map.width() as int,
                map.height() as int,
                *p,
                *c,
                bx as int,
                by as int,
                k,
            ),
{
    let sites: [Placement; 5] = merge32_sites(bx, by);
    let mut raw: [A; 5] = c.raw;
    let mut costs: [A; 5] = c.raw;
    let mut k: usize = 0;
    while k < 5
        invariant
            k <= 5,
            sites@ == merge32_sites_spec(bx as int, by as int),
            forall|i: int| 0 <= i < k ==> #[trigger] raw@[i] == raw32(p.rectangles, *c, i),
            forall|i: int|
                0 <= i < k ==> #[trigger] costs@[i] == cost32(
                    map.width() as int,
                    map.height() as int,
                    *p,
                    *c,
                    bx as int,
                    by as int,
                    i,
                ),
        decreases 5 - k,
    {
        let site: Placement = sites[k];
        raw[k] = if p.rectangles || k == 0 {
            c.raw[k]
        } else {
            A::infinite()
        };
        costs[k] = if !map.can_place_strategy(site.x, site.y, site.strategy) {
            A::infinite()
        } else if k == 0 {
            p.tuning.bias_32x32.times(c.raw[0])
        } else {
            p.tuning.bias_rect32.times(raw[k])
        };
        k += 1;
    }
    (raw, costs)
}

fn commit_region<A: Amount>(
    map: &mut AcStrategyImage,
    bx: usize,
    by: usize,
    mask: u8,
    out: &mut BandOutput<A>,
)
    requires
        old(map).wf(),
        bx + 4 <= old(map).width(),
        by + 4 <= old(map).height(),
    ensures
        final(map).wf(),
        final(map).width() == old(map).width(),
        final(map).height() == old(map).height(),
        final(out).with(*final(map)) == commit32(
            old(out).with(*old(map)),
            bx as int,
            by as int,
            mask,
            5,
        ),
{
    let sites: [Placement; 5] = merge32_sites(bx, by);
    let mut k: usize = 0;
    while k < 5
        invariant
            k <= 5,
            sites@ == merge32_sites_spec(bx as int, by as int),
            map.wf(),
            map.width() == old(map).width(),
            map.height() == old(map).height(),
            bx + 4 <= map.width(),
            by + 4 <= map.height(),
            out.with(*map) == commit32(
                old(out).with(*old(map)),
                bx as int,
                by as int,
                mask,
                k as int,
            ),
        decreases 5 - k,
    {
        if has_merge(mask, k) {
            let site: Placement = sites[k];
            let cx: usize = covered_blocks_x_of(site.strategy);
            let cy: usize = covered_blocks_y_of(site.strategy);
            capture_children(map, &mut out.saved_children, site.x, site.y, cx, cy);
            map.set_first(site.x, site.y, site.strategy);
        }
        k += 1;
    }
}

/// Decides on the 4x4 region at `(bx, by)`: on its four super-blocks, and then
/// on the merges over them.
pub fn select_region<A: Amount>(
    map: &mut AcStrategyImage,
    p: &SelectionParams<A>,
    c: &SiteCosts<A>,
    bx: usize,
    by: usize,
    out: &mut BandOutput<A>,
)
    requires
        old(map).wf(),
        bx + 4 <= old(map).width(),
        by + 4 <= old(map).height(),
    ensures
        final(map).wf(),
        final(map).width() == old(map).width(),
        final(map).height() == old(map).height(),
        final(out).with(*final(map)) == region_step(
            old(map).width() as int,
            old(map).height() as int,
            *p,
            *c,
            bx as int,
            by as int,
            old(out).with(*old(map)),
        ),
{
    let ghost w = map.width() as int;
    let ghost h = map.height() as int;
    let a: SuperBlockCost<A> = select_one(map, p, &c.supers[0][0], bx, by, out);
    let b: SuperBlockCost<A> = select_one(map, p, &c.supers[0][1], bx + 2, by, out);
    let d: SuperBlockCost<A> = select_one(map, p, &c.supers[1][0], bx, by + 2, out);
    let e: SuperBlockCost<A> = select_one(map, p, &c.supers[1][1], bx + 2, by + 2, out);
    let children: [[A; 2]; 2] = [[a.chosen, b.chosen], [d.chosen, e.chosen]];
    let baseline: [[A; 2]; 2] = [[a.dct8, b.dct8], [d.dct8, e.dct8]];
    let (raw, costs): ([A; 5], [A; 5]) = costs32(map, p, c, bx, by);
    proof {
        assert(raw =~= [
            raw32(p.rectangles, *c, 0),
            raw32(p.rectangles, *c, 1),
            raw32(p.rectangles, *c, 2),
            raw32(p.rectangles, *c, 3),
            raw32(p.rectangles, *c, 4),
        ]);
        assert(costs =~= [
            cost32(w, h, *p, *c, bx as int, by as int, 0),
            cost32(w, h, *p, *c, bx as int, by as int, 1),
            cost32(w, h, *p, *c, bx as int, by as int, 2),
            cost32(w, h, *p, *c, bx as int, by as int, 3),
            cost32(w, h, *p, *c, bx as int, by as int, 4),
        ]);
    }
    let mask: u8 = choose_merge_partition(children, baseline, costs, c.accept);
    commit_region(map, bx, by, mask, out);
    let cost: A = partition_cost(
        children,
        if p.policy.raw_propagation {
            raw
        } else {
            costs
        },
        mask,
    );
    out.chosen32.push(Chosen32Cost { bx, by, cost });
}

/// Selects the strategies of block rows `[y_begin, y_end)`.
///
/// The sites are visited in order; `costs` holds what the cost model says of
/// each. Edge tests use the size of the whole group, so bands whose boundaries
/// are multiples of four together decide what a single band would.
pub fn select_band<A: Amount>(
    map: &mut AcStrategyImage,
    band: (usize, usize),
    p: &SelectionParams<A>,
    costs: &[SiteCosts<A>],
    out: &mut BandOutput<A>,
)
    requires
        old(map).wf(),
        costs@.len() == band_sites(
            old(map).width() as int,
            old(map).height() as int,
            band.0 as int,
            band.1 as int,
        ).len(),
    ensures
        final(map).wf(),
        final(map).width() == old(map).width(),
        final(map).height() == old(map).height(),
        final(out).with(*final(map)) == after_sites(
            old(map).width() as int,
            old(map).height() as int,
            *p,
            band_sites(
                old(map).width() as int,
                old(map).height() as int,
                band.0 as int,
                band.1 as int,
            ),
            costs@,
            old(out).with(*old(map)),
            costs@.len() as int,
        ),
{
    let ghost w = map.width() as int;
    let ghost h = map.height() as int;
    let sites: Vec<Site> = selection_sites(map.xsize(), map.ysize(), band.0, band.1);
    proof {
        lemma_sites_inside(w, h, band.0 as int, band.1 as int);
    }
    let mut i: usize = 0;
    while i < sites.len()
        invariant
            i <= sites@.len(),
            costs@.len() == sites@.len(),
            sites@ == band_sites(w, h, band.0 as int, band.1 as int),
            forall|k: int|
                0 <= k < sites@.len() ==> ({
                    let s = #[trigger] sites@[k];
                    s.bx + s.side() <= w && s.by + s.side() <= h
                }),
            map.wf(),
            map.width() == w,
            map.height() == h,
            w == old(map).width(),
            h == old(map).height(),
            out.with(*map) == after_sites(
                w,
                h,
                *p,
                sites@,
                costs@,
                old(out).with(*old(map)),
                i as int,
            ),
        decreases sites@.len() - i,
    {
        let site: Site = sites[i];
        assert(sites@[i as int].bx + sites@[i as int].side() <= w);
        if site.quad {
            select_region(map, p, &costs[i], site.bx, site.by, out);
        } else {
            let _ = select_one(map, p, &costs[i].supers[0][0], site.bx, site.by, out);
        }
        i += 1;
    }
}

/// What the transforms below 8x8 offer a block: the best candidate and its gain.
pub type Offer<A> = Option<(u8, A)>;

/// The block at `(x, y)` takes its offer: it is still an 8x8 DCT, and there is
/// one. Row `y0` of the layout has the first row of offers.
pub open spec fn takes_offer<A>(v: Layout, offers: Seq<Vec<Offer<A>>>, y0: int, x: int, y: int) -> bool {
    v[y][x].strategy == STRATEGY_DCT && offers[y - y0]@[x] is Some
}

/// Gain so far, with that of the leading `n` blocks of row `y` added.
pub open spec fn row_gain<A: Amount>(
    v: Layout,
    offers: Seq<Vec<Offer<A>>>,
    y0: int,
    y: int,
    n: int,
    before: A,
) -> A
    decreases n,
{
    if n <= 0 {
        before
    } else {
        let head = row_gain(v, offers, y0, y, n - 1, before);
        if takes_offer(v, offers, y0, n - 1, y) {
            head.plus_spec((offers[y - y0]@[n - 1]->0).1)
        } else {
            head
        }
    }
}

/// Gain of the block rows `[y0, y)`, in row-major order.
pub open spec fn rows_gain<A: Amount>(
    v: Layout,
    offers: Seq<Vec<Offer<A>>>,
    w: int,
    y0: int,
    y: int,
) -> A
    decreases y - y0,
{
    if y <= y0 {
        A::zero_spec()
    } else {
        row_gain(v, offers, y0, y - 1, w, rows_gain(v, offers, w, y0, y - 1))
    }
}

/// Every offer is a transform over a single block.
pub open spec fn single_block_offers<A>(offers: Seq<Vec<Offer<A>>>) -> bool {
    forall|j: int, x: int|
        0 <= j < offers.len() && 0 <= x < offers[j]@.len() && (#[trigger] offers[j]@[x]) is Some
            ==> covered_x((offers[j]@[x]->0).0) == 1 && covered_y((offers[j]@[x]->0).0) == 1
}

/// Lets every block of rows `[y0, y1)` that is still an 8x8 DCT take its offer,
/// and returns the gain of those that did.
pub fn refine_sub8_band<A: Amount>(
    map: &mut AcStrategyImage,
    y0: usize,
    y1: usize,
    offers: &Vec<Vec<Offer<A>>>,
) -> (r: A)
    requires
        old(map).wf(),
        y0 <= y1 <= old(map).height(),
        offers@.len() == y1 - y0,
        forall|j: int| 0 <= j < offers@.len() ==> (#[trigger] offers@[j])@.len() == old(map).width(),
        single_block_offers(offers@),
    ensures
        final(map).wf(),
        final(map).width() == old(map).width(),
        final(map).height() == old(map).height(),
        forall|x: int, y: int|
            old(map).inside(x, y) ==> #[trigger] final(map)@[y][x] == (if y0 <= y < y1
                && takes_offer(old(map)@, offers@, y0 as int, x, y) {
                Cell { strategy: (offers@[y - y0]@[x]->0).0, first: true }
            } else {
                old(map)@[y][x]
            }),
        r == rows_gain(old(map)@, offers@, old(map).width() as int, y0 as int, y1 as int),
{
    let ghost v = map@;
    let ghost w = map.width() as int;
    proof {
        map.lemma_shape();
    }
    let mut benefit: A = A::zero();
    let mut y: usize = y0;
    while y < y1
        invariant
            y0 <= y <= y1 <= map.height(),
            map.wf(),
            map.width() == w,
            w == old(map).width(),
            map.height() == old(map).height(),
            v == old(map)@,
            offers@.len() == y1 - y0,
            forall|j: int| 0 <= j < offers@.len() ==> (#[trigger] offers@[j])@.len() == w,
            single_block_offers(offers@),
            benefit == rows_gain(v, offers@, w, y0 as int, y as int),
            forall|a: int, b: int|
                map.inside(a, b) ==> #[trigger] map@[b][a] == (if y0 <= b < y && takes_offer(
                    v,
                    offers@,
                    y0 as int,
                    a,
                    b,
                ) {
                    Cell { strategy: (offers@[b - y0]@[a]->0).0, first: true }
                } else {
                    v[b][a]
                }),
        decreases y1 - y,
    {
        let ghost before = benefit;
        let mut x: usize = 0;
        while x < map.xsize()
            invariant
                x <= w,
                y0 <= y < y1 <= map.height(),
                map.wf(),
                map.width() == w,
                w == old(map).width(),
                map.height() == old(map).height(),
                v == old(map)@,
                offers@.len() == y1 - y0,
                forall|j: int| 0 <= j < offers@.len() ==> (#[trigger] offers@[j])@.len() == w,
                single_block_offers(offers@),
                before == rows_gain(v, offers@, w, y0 as int, y as int),
                benefit == row_gain(v, offers@, y0 as int, y as int, x as int, before),
                forall|a: int, b: int|
                    map.inside(a, b) ==> #[trigger] map@[b][a] == (if (y0 <= b < y || b == y && a
                        < x) && takes_offer(v, offers@, y0 as int, a, b) {
                        Cell { strategy: (offers@[b - y0]@[a]->0).0, first: true }
                    } else {
                        v[b][a]
                    }),
            decreases w - x,
        {
            assert(map.inside(x as int, y as int));
            assert(map@[y as int][x as int] == v[y as int][x as int]);
            if map.raw_strategy(x, y) == STRATEGY_DCT {
                let row: &Vec<Offer<A>> = &offers[y - y0];
                if let Some((cand, gain)) = row[x] {
                    let ghost prev = map@;
                    proof {
                        map.lemma_shape();
                        assert(offers@[y - y0]@[x as int] is Some);
                    }
                    map.set_first(x, y, cand);
                    proof {
                        assert forall|a: int, b: int| map.inside(a, b) implies #[trigger] map@[b][a]
                            == (if a == x && b == y {
                            Cell { strategy: cand, first: true }
                        } else {
                            prev[b][a]
                        }) by {
                            assert(map@[b] == with_first(prev, x as int, y as int, cand)[b]);
                        }
                    }
                    benefit = benefit.plus(gain);
                }
            }
            x += 1;
        }
        y += 1;
    }
    benefit
}

} // verus!
