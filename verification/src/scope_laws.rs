//! What selection does where rectangles are out of the question, and where selection
//! that starts from the leaves does the same.

use crate::amount::{Amount, OrderedAmount};
use crate::bands::{band_sites, law_sites_do_not_overlap, Site};
use crate::leaf_first::{
    after_leaf_first, after_leaf_sites, leaf_region_step, leaf_strategies, leaf_super_step,
    leaves_at, leaves_layout, leaves_shape, merged_layout, plan_saved, region_choice, region_plans,
    single_block_leaves, super_plan, with_leaves, LeafChoice, RegionChoice,
};
use crate::leaf_first_laws::{
    law_plan_places_the_chosen_merges, lemma_leaves_at_single, single_leaves,
};
use crate::merge::{
    best_partition, chosen, limit_sum, masked_sum, partition_cost_spec, region_totals,
    MERGE_PARTITIONS,
};
use crate::selection::{
    after_sites, commit32, cost32, raw32, region_step, super_cost, super_step, BandState,
    Chosen32Cost, SelectionParams, SiteCosts,
};
use crate::strategy::{
    covered_x, covered_y, STRATEGY_DCT, STRATEGY_DCT16X16, STRATEGY_DCT16X32, STRATEGY_DCT32X16,
    STRATEGY_DCT32X32,
};
use crate::strategy_map::{in_window, with_first, Layout};
use crate::super_block::{
    arm_cost, arm_spec, beats, child_grid, choice_placements, half_cost, kept, leaf_totals,
    merge16_sites_spec,
    merge32_sites_spec, nontrivial, pick, super_choice, SuperBlockCosts,
};
use crate::tiling::{place_all, shaped};
use vstd::prelude::*;

verus! {

/// Every block belongs to a transform that is as wide as it is tall.
pub open spec fn squares_only(v: Layout) -> bool {
    forall|y: int, x: int|
        0 <= y < v.len() && 0 <= x < v[y].len() ==> covered_x((#[trigger] v[y][x]).strategy)
            == covered_y(v[y][x].strategy)
}

proof fn lemma_square_placed(v: Layout, x: int, y: int, strategy: u8)
    requires
        squares_only(v),
        covered_x(strategy) == covered_y(strategy),
    ensures
        squares_only(with_first(v, x, y, strategy)),
{
    let u = with_first(v, x, y, strategy);
    assert forall|j: int, i: int| 0 <= j < u.len() && 0 <= i < u[j].len() implies covered_x(
        (#[trigger] u[j][i]).strategy,
    ) == covered_y(u[j][i].strategy) by {
        assert(covered_x(v[j][i].strategy) == covered_y(v[j][i].strategy));
    }
}

/// Without rectangles no half of a super-block is chosen.
proof fn lemma_no_half_wins<A: OrderedAmount>(
    w: int,
    h: int,
    p: SelectionParams<A>,
    c: SuperBlockCosts<A>,
    bx: int,
    by: int,
)
    requires
        !p.rectangles,
    ensures
        ({
            let r = super_choice(
                w,
                h,
                bx,
                by,
                p.rectangles,
                p.policy.raw_propagation,
                p.tuning,
                c,
            );
            !r.use_left && !r.use_right && !r.use_top && !r.use_bottom
        }),
{
    let leaf = leaf_totals(c.leaf);
    A::infinite_is_largest(leaf[1].times_spec(p.tuning.accept_pair));
    A::infinite_is_largest(leaf[2].times_spec(p.tuning.accept_pair));
    A::infinite_is_largest(leaf[3].times_spec(p.tuning.accept_pair));
    A::infinite_is_largest(leaf[4].times_spec(p.tuning.accept_pair));
}

proof fn lemma_super_step_squares<A: OrderedAmount>(
    w: int,
    h: int,
    p: SelectionParams<A>,
    c: SuperBlockCosts<A>,
    bx: int,
    by: int,
    s: BandState<A>,
)
    requires
        !p.rectangles,
        squares_only(s.layout),
    ensures
        squares_only(super_step(w, h, p, c, bx, by, s).layout),
{
    lemma_no_half_wins(w, h, p, c, bx, by);
    let choice = super_choice(w, h, bx, by, p.rectangles, p.policy.raw_propagation, p.tuning, c);
    let placed = choice_placements(choice, bx, by);
    reveal_with_fuel(place_all, 2);
    if choice.square {
        let site = merge16_sites_spec(bx, by)[0];
        assert(placed =~= seq![site]);
        assert(placed.drop_last() =~= Seq::empty());
        lemma_square_placed(s.layout, site.x as int, site.y as int, site.strategy);
    } else {
        assert(placed =~= Seq::empty());
    }
}

/// Without rectangles every half of a 4x4 region costs the infinite amount.
proof fn lemma_halves_infinite<A: OrderedAmount>(
    w: int,
    h: int,
    p: SelectionParams<A>,
    c: SiteCosts<A>,
    bx: int,
    by: int,
    k: int,
)
    requires
        !p.rectangles,
        A::zero_spec().less_spec(p.tuning.bias_rect32),
        1 <= k < 5,
    ensures
        cost32(w, h, p, c, bx, by, k) == A::infinite_spec(),
{
    A::infinite_scaled(p.tuning.bias_rect32);
}

proof fn lemma_halves_sum_infinite<A: OrderedAmount>(mask: u8, merges: Seq<A>)
    requires
        mask == 2 || mask == 4 || mask == 6 || mask == 8 || mask == 16 || mask == 24,
        forall|k: int| 1 <= k < 5 ==> #[trigger] merges[k] == A::infinite_spec(),
    ensures
        masked_sum(mask, merges, 5) == A::infinite_spec(),
{
    let inf = A::infinite_spec();
    A::zero_plus(inf);
    A::infinite_twice();
    assert(merges[1] == inf && merges[2] == inf && merges[3] == inf && merges[4] == inf);
    assert(!chosen(mask, 0));
    assert(masked_sum(mask, merges, 0) == A::zero_spec());
    assert(masked_sum(mask, merges, 1) == A::zero_spec());
    let s2 = masked_sum(mask, merges, 2);
    assert(s2 == if mask == 2 || mask == 6 {
        inf
    } else {
        A::zero_spec()
    });
    let s3 = masked_sum(mask, merges, 3);
    assert(s3 == if mask == 2 || mask == 4 || mask == 6 {
        inf
    } else {
        A::zero_spec()
    });
    let s4 = masked_sum(mask, merges, 4);
    assert(s4 == if mask == 16 {
        A::zero_spec()
    } else {
        inf
    });
}

/// Where every half costs the infinite amount, the square is merged or nothing is.
proof fn lemma_square_or_nothing<A: OrderedAmount>(
    children: [[A; 2]; 2],
    baseline: [[A; 2]; 2],
    merges: [A; 5],
    accept: [A; 5],
    n: int,
)
    requires
        1 <= n <= 8,
        forall|k: int| 1 <= k < 5 ==> #[trigger] merges@[k] == A::infinite_spec(),
    ensures
        best_partition(children, baseline, merges, accept, n) == if n > 1 {
            best_partition(children, baseline, merges, accept, 2)
        } else {
            0
        },
    decreases n,
{
    if n > 2 {
        lemma_square_or_nothing(children, baseline, merges, accept, n - 1);
        let m = MERGE_PARTITIONS@;
        assert(m[0] == 0 && m[1] == 1 && m[2] == 2 && m[3] == 4 && m[4] == 6 && m[5] == 8 && m[6]
            == 16 && m[7] == 24);
        let mask = m[n - 1];
        lemma_halves_sum_infinite(mask, merges@);
        A::infinite_is_largest(masked_sum(mask, region_totals(children), 5));
    }
}

/// What is merged over a 4x4 region without rectangles: the 32x32 transform,
/// where it beats the chosen super-blocks outright and the leaves by its margin.
pub open spec fn square32_wins<A: Amount>(
    w: int,
    h: int,
    p: SelectionParams<A>,
    c: SiteCosts<A>,
    bx: int,
    by: int,
    children: [[A; 2]; 2],
    baseline: [[A; 2]; 2],
) -> bool {
    let cost = cost32(w, h, p, c, bx, by, 0);
    cost.less_spec(region_totals(children)[0]) && beats(
        cost,
        region_totals(baseline)[0],
        c.accept@[0],
    )
}

/// The costs of the four super-blocks of a region as chosen, and as leaves.
pub open spec fn chosen_costs<A: Amount>(
    w: int,
    h: int,
    p: SelectionParams<A>,
    c: SiteCosts<A>,
    bx: int,
    by: int,
) -> [[A; 2]; 2] {
    [
        [
            super_cost(w, h, p, c.supers@[0]@[0], bx, by),
            super_cost(w, h, p, c.supers@[0]@[1], bx + 2, by),
        ],
        [
            super_cost(w, h, p, c.supers@[1]@[0], bx, by + 2),
            super_cost(w, h, p, c.supers@[1]@[1], bx + 2, by + 2),
        ],
    ]
}

/// The costs of the four super-blocks of a region, left as leaves.
pub open spec fn leaf_costs<A: Amount>(c: SiteCosts<A>) -> [[A; 2]; 2] {
    [
        [leaf_totals(c.supers@[0]@[0].leaf)[0], leaf_totals(c.supers@[0]@[1].leaf)[0]],
        [leaf_totals(c.supers@[1]@[0].leaf)[0], leaf_totals(c.supers@[1]@[1].leaf)[0]],
    ]
}

/// The state after deciding on the four super-blocks of a region.
pub open spec fn after_supers<A: Amount>(
    w: int,
    h: int,
    p: SelectionParams<A>,
    c: SiteCosts<A>,
    bx: int,
    by: int,
    s: BandState<A>,
) -> BandState<A> {
    let s0 = super_step(w, h, p, c.supers@[0]@[0], bx, by, s);
    let s1 = super_step(w, h, p, c.supers@[0]@[1], bx + 2, by, s0);
    let s2 = super_step(w, h, p, c.supers@[1]@[0], bx, by + 2, s1);
    super_step(w, h, p, c.supers@[1]@[1], bx + 2, by + 2, s2)
}

/// Without rectangles a 4x4 region becomes the 32x32 transform where that wins,
/// and is left to its super-blocks otherwise.
pub proof fn law_region_without_rectangles<A: OrderedAmount>(
    w: int,
    h: int,
    p: SelectionParams<A>,
    c: SiteCosts<A>,
    bx: int,
    by: int,
    s: BandState<A>,
)
    requires
        !p.rectangles,
        A::zero_spec().less_spec(p.tuning.bias_rect32),
        0 <= bx <= usize::MAX,
        0 <= by <= usize::MAX,
    ensures
        ({
            let after = region_step(w, h, p, c, bx, by, s);
            let below = after_supers(w, h, p, c, bx, by, s);
            let children = chosen_costs(w, h, p, c, bx, by);
            let wins = square32_wins(w, h, p, c, bx, by, children, leaf_costs(c));
            &&& after.layout == if wins {
                with_first(below.layout, bx, by, STRATEGY_DCT32X32)
            } else {
                below.layout
            }
            &&& after.chosen32 == below.chosen32.push(
                Chosen32Cost {
                    bx: bx as usize,
                    by: by as usize,
                    cost: if wins {
                        pick(
                            p.policy.raw_propagation,
                            c.raw@[0],
                            cost32(w, h, p, c, bx, by, 0),
                        )
                    } else {
                        region_totals(children)[0]
                    },
                },
            )
        }),
{
    let children = chosen_costs(w, h, p, c, bx, by);
    let baseline = leaf_costs(c);
    let costs = [
        cost32(w, h, p, c, bx, by, 0),
        cost32(w, h, p, c, bx, by, 1),
        cost32(w, h, p, c, bx, by, 2),
        cost32(w, h, p, c, bx, by, 3),
        cost32(w, h, p, c, bx, by, 4),
    ];
    assert forall|k: int| 1 <= k < 5 implies #[trigger] costs@[k] == A::infinite_spec() by {
        lemma_halves_infinite(w, h, p, c, bx, by, k);
    }
    lemma_square_or_nothing(children, baseline, costs, c.accept, 8);
    let mask = best_partition(children, baseline, costs, c.accept, 8);
    assert(MERGE_PARTITIONS@[1] == 1);
    reveal_with_fuel(best_partition, 3);
    reveal_with_fuel(masked_sum, 6);
    reveal_with_fuel(limit_sum, 6);
    let one = MERGE_PARTITIONS@[1];
    A::zero_plus(costs@[0]);
    A::zero_plus(region_totals(children)[0]);
    A::zero_plus(region_totals(baseline)[0].times_spec(c.accept@[0]));
    assert(masked_sum(one, costs@, 5) == costs@[0]);
    assert(masked_sum(one, region_totals(children), 5) == region_totals(children)[0]);
    assert(limit_sum(one, region_totals(baseline), c.accept@, 5) == region_totals(
        baseline,
    )[0].times_spec(c.accept@[0]));
    assert(partition_cost_spec(children, costs, 0) == region_totals(children)[0]);
    assert(partition_cost_spec(children, costs, one) == costs@[0]);
    assert(mask == if square32_wins(w, h, p, c, bx, by, children, baseline) {
        1u8
    } else {
        0
    });
    reveal_with_fuel(commit32, 6);
    let site = merge32_sites_spec(bx, by)[0];
    assert(site.x == bx && site.y == by && site.strategy == STRATEGY_DCT32X32);
}

proof fn lemma_region_step_squares<A: OrderedAmount>(
    w: int,
    h: int,
    p: SelectionParams<A>,
    c: SiteCosts<A>,
    bx: int,
    by: int,
    s: BandState<A>,
)
    requires
        !p.rectangles,
        A::zero_spec().less_spec(p.tuning.bias_rect32),
        0 <= bx <= usize::MAX,
        0 <= by <= usize::MAX,
        squares_only(s.layout),
    ensures
        squares_only(region_step(w, h, p, c, bx, by, s).layout),
{
    let s0 = super_step(w, h, p, c.supers@[0]@[0], bx, by, s);
    let s1 = super_step(w, h, p, c.supers@[0]@[1], bx + 2, by, s0);
    let s2 = super_step(w, h, p, c.supers@[1]@[0], bx, by + 2, s1);
    lemma_super_step_squares(w, h, p, c.supers@[0]@[0], bx, by, s);
    lemma_super_step_squares(w, h, p, c.supers@[0]@[1], bx + 2, by, s0);
    lemma_super_step_squares(w, h, p, c.supers@[1]@[0], bx, by + 2, s1);
    lemma_super_step_squares(w, h, p, c.supers@[1]@[1], bx + 2, by + 2, s2);
    law_region_without_rectangles(w, h, p, c, bx, by, s);
    lemma_square_placed(after_supers(w, h, p, c, bx, by, s).layout, bx, by, STRATEGY_DCT32X32);
}

/// Selection without rectangles puts down squares and no other merge: a layout
/// of squares stays one.
pub proof fn law_without_rectangles_only_squares<A: OrderedAmount>(
    w: int,
    h: int,
    p: SelectionParams<A>,
    sites: Seq<Site>,
    costs: Seq<SiteCosts<A>>,
    s: BandState<A>,
    n: int,
)
    requires
        !p.rectangles,
        A::zero_spec().less_spec(p.tuning.bias_rect32),
        squares_only(s.layout),
    ensures
        squares_only(after_sites(w, h, p, sites, costs, s, n).layout),
    decreases n,
{
    if n > 0 {
        law_without_rectangles_only_squares(w, h, p, sites, costs, s, n - 1);
        let t = after_sites(w, h, p, sites, costs, s, n - 1);
        let bx = sites[n - 1].bx as int;
        let by = sites[n - 1].by as int;
        if sites[n - 1].quad {
            lemma_region_step_squares(w, h, p, costs[n - 1], bx, by, t);
        } else {
            lemma_super_step_squares(w, h, p, costs[n - 1].supers@[0]@[0], bx, by, t);
        }
    }
}

/// Every leaf is an 8x8 DCT.
pub open spec fn plain_leaves<A>(leaves: Seq<Vec<LeafChoice<A>>>) -> bool {
    forall|j: int, x: int|
        0 <= j < leaves.len() && 0 <= x < leaves[j]@.len() ==> (#[trigger] leaves[j]@[x]).strategy
            == STRATEGY_DCT
}

/// The super-block at `(bx, by)` is priced with the costs of its leaves.
pub open spec fn priced_from_leaves<A>(
    c: SuperBlockCosts<A>,
    leaves: Seq<Vec<LeafChoice<A>>>,
    y0: int,
    bx: int,
    by: int,
) -> bool {
    with_leaves(c, leaves_at(leaves, y0, bx, by)) == c
}

/// Every super-block of a site is priced with the costs of its leaves.
pub open spec fn site_priced_from_leaves<A>(
    c: SiteCosts<A>,
    leaves: Seq<Vec<LeafChoice<A>>>,
    y0: int,
    site: Site,
) -> bool {
    let bx = site.bx as int;
    let by = site.by as int;
    &&& priced_from_leaves(c.supers@[0]@[0], leaves, y0, bx, by)
    &&& site.quad ==> {
        &&& priced_from_leaves(c.supers@[0]@[1], leaves, y0, bx + 2, by)
        &&& priced_from_leaves(c.supers@[1]@[0], leaves, y0, bx, by + 2)
        &&& priced_from_leaves(c.supers@[1]@[1], leaves, y0, bx + 2, by + 2)
    }
}

/// With rectangles or without, planning and committing a super-block of 8x8 DCT
/// leaves does what deciding on the super-block does: the layout, the saved layout
/// and the shortlist are the same.
pub proof fn law_super_blocks_of_plain_leaves_agree<A: Amount>(
    w: int,
    h: int,
    p: SelectionParams<A>,
    c: SuperBlockCosts<A>,
    l: [[LeafChoice<A>; 2]; 2],
    bx: int,
    by: int,
    s: BandState<A>,
)
    requires
        with_leaves(c, l) == c,
        forall|i: int| 0 <= i < 4 ==> #[trigger] leaf_strategies(l)[i] == STRATEGY_DCT,
        0 <= bx < usize::MAX,
        0 <= by < usize::MAX,
    ensures
        leaf_super_step(w, h, p, c, l, bx, by, s) == super_step(w, h, p, c, bx, by, s),
{
    let ls = leaf_strategies(l);
    assert(ls =~= seq![STRATEGY_DCT, STRATEGY_DCT, STRATEGY_DCT, STRATEGY_DCT]) by {
        assert(ls[0] == STRATEGY_DCT && ls[1] == STRATEGY_DCT && ls[2] == STRATEGY_DCT && ls[3]
            == STRATEGY_DCT);
    }
    law_plan_places_the_chosen_merges(w, h, p, c, l, bx, by);
    let plan = super_plan(w, h, p, c, l, bx, by);
    let choice = super_choice(w, h, bx, by, p.rectangles, p.policy.raw_propagation, p.tuning, c);
    let arm = arm_spec(choice, ls);
    assert(plan.grid[0] == STRATEGY_DCT16X16 <==> choice.square);
    assert(plan_saved(plan, bx, by) =~= kept(
        choice.square && nontrivial(arm),
        bx,
        by,
        child_grid(arm),
    ));
    let a = leaf_super_step(w, h, p, c, l, bx, by, s);
    let b = super_step(w, h, p, c, bx, by, s);
    assert(a.saved =~= b.saved);
    assert(a.upgrades =~= b.upgrades);
}

/// A plan costs what the decision on the super-block hands on.
proof fn lemma_plan_costs_the_choice<A: OrderedAmount>(
    w: int,
    h: int,
    p: SelectionParams<A>,
    c: SuperBlockCosts<A>,
    leaves: Seq<Vec<LeafChoice<A>>>,
    y0: int,
    bx: int,
    by: int,
)
    requires
        priced_from_leaves(c, leaves, y0, bx, by),
    ensures
        ({
            let plan = super_plan(w, h, p, c, leaves_at(leaves, y0, bx, by), bx, by);
            plan.j == super_cost(w, h, p, c, bx, by) && plan.leaf_total == leaf_totals(c.leaf)[0]
        }),
{
    let choice = super_choice(w, h, bx, by, p.rectangles, p.policy.raw_propagation, p.tuning, c);
    if !choice.square && !p.policy.raw_propagation {
        lemma_best_rect_is_the_lesser(w, h, p, c, bx, by);
    }
}

proof fn lemma_best_rect_is_the_lesser<A: OrderedAmount>(
    w: int,
    h: int,
    p: SelectionParams<A>,
    c: SuperBlockCosts<A>,
    bx: int,
    by: int,
)
    requires
        !p.policy.raw_propagation,
    ensures
        ({
            let choice = super_choice(w, h, bx, by, p.rectangles, false, p.tuning, c);
            !choice.square ==> choice.best_rect == choice.cost
        }),
{
    let leaf = leaf_totals(c.leaf);
    let choice = super_choice(w, h, bx, by, p.rectangles, false, p.tuning, c);
    let tall = arm_cost(
        choice.use_left,
        half_cost(p.rectangles, p.tuning, c, 1),
        leaf[1],
        choice.use_right,
        half_cost(p.rectangles, p.tuning, c, 2),
        leaf[2],
    );
    let wide = arm_cost(
        choice.use_top,
        half_cost(p.rectangles, p.tuning, c, 3),
        leaf[3],
        choice.use_bottom,
        half_cost(p.rectangles, p.tuning, c, 4),
        leaf[4],
    );
    A::lesser_picks(tall, wide);
}

/// A super-block step leaves what lies outside the super-block alone.
pub(crate) proof fn lemma_super_step_outside<A: Amount>(
    w: int,
    h: int,
    p: SelectionParams<A>,
    c: SuperBlockCosts<A>,
    bx: int,
    by: int,
    s: BandState<A>,
)
    requires
        0 <= bx < usize::MAX,
        0 <= by < usize::MAX,
    ensures
        ({
            let after = super_step(w, h, p, c, bx, by, s);
            &&& after.chosen32 == s.chosen32
            &&& after.layout.len() == s.layout.len()
            &&& forall|y: int|
                0 <= y < s.layout.len() ==> (#[trigger] after.layout[y]).len()
                    == s.layout[y].len()
            &&& forall|y: int, x: int|
                0 <= y < s.layout.len() && 0 <= x < s.layout[y].len() && !in_window(
                    bx,
                    by,
                    2,
                    2,
                    x,
                    y,
                ) ==> #[trigger] after.layout[y][x] == s.layout[y][x]
        }),
{
    let choice = super_choice(w, h, bx, by, p.rectangles, p.policy.raw_propagation, p.tuning, c);
    let placed = choice_placements(choice, bx, by);
    reveal_with_fuel(place_all, 3);
    if placed.len() == 1 {
        assert(placed.drop_last() =~= Seq::empty());
    } else if placed.len() == 2 {
        assert(placed.drop_last().drop_last() =~= Seq::empty());
        assert(placed.drop_last().last() == placed[0]);
    }
}

proof fn lemma_region_agrees<A: OrderedAmount>(
    w: int,
    h: int,
    p: SelectionParams<A>,
    c: SiteCosts<A>,
    leaves: Seq<Vec<LeafChoice<A>>>,
    y0: int,
    site: Site,
    s: BandState<A>,
    t: BandState<A>,
)
    requires
        !p.rectangles,
        A::zero_spec().less_spec(p.tuning.bias_rect32),
        leaves_shape(leaves, w, leaves.len() as int),
        plain_leaves(leaves),
        site_priced_from_leaves(c, leaves, y0, site),
        site.quad,
        y0 <= site.by,
        site.by + 4 <= y0 + leaves.len(),
        site.bx + 4 <= w <= usize::MAX,
        site.by + 4 <= h <= usize::MAX,
        s.layout == t.layout,
        s.chosen32 == t.chosen32,
    ensures
        leaf_region_step(
            w,
            h,
            p,
            c,
            leaves,
            y0,
            site.bx as int,
            site.by as int,
            s,
        ).layout == region_step(w, h, p, c, site.bx as int, site.by as int, t).layout,
        leaf_region_step(
            w,
            h,
            p,
            c,
            leaves,
            y0,
            site.bx as int,
            site.by as int,
            s,
        ).chosen32 == region_step(w, h, p, c, site.bx as int, site.by as int, t).chosen32,
{
    let bx = site.bx as int;
    let by = site.by as int;
    let c0 = c.supers@[0]@[0];
    let c1 = c.supers@[0]@[1];
    let c2 = c.supers@[1]@[0];
    let c3 = c.supers@[1]@[1];
    lemma_plan_costs_the_choice(w, h, p, c0, leaves, y0, bx, by);
    lemma_plan_costs_the_choice(w, h, p, c1, leaves, y0, bx + 2, by);
    lemma_plan_costs_the_choice(w, h, p, c2, leaves, y0, bx, by + 2);
    lemma_plan_costs_the_choice(w, h, p, c3, leaves, y0, bx + 2, by + 2);
    let plans = region_plans(w, h, p, c, leaves, y0, bx, by);
    let choice = region_choice(w, h, p, c, plans, bx, by);
    let children = chosen_costs(w, h, p, c, bx, by);
    let inf = A::infinite_spec();
    A::infinite_twice();
    A::infinite_scaled(p.tuning.bias_rect32);
    let square = cost32(w, h, p, c, bx, by, 0);
    A::infinite_is_largest(square);
    A::at_most_denies_less(square, inf);
    assert(choice.strategy == STRATEGY_DCT32X32);
    assert(choice.merged == square32_wins(w, h, p, c, bx, by, children, leaf_costs(c)));
    law_region_without_rectangles(w, h, p, c, bx, by, t);
    let s0 = super_step(w, h, p, c0, bx, by, t);
    let s1 = super_step(w, h, p, c1, bx + 2, by, s0);
    let s2 = super_step(w, h, p, c2, bx, by + 2, s1);
    let s3 = super_step(w, h, p, c3, bx + 2, by + 2, s2);
    lemma_super_step_outside(w, h, p, c0, bx, by, t);
    lemma_super_step_outside(w, h, p, c1, bx + 2, by, s0);
    lemma_super_step_outside(w, h, p, c2, bx, by + 2, s1);
    lemma_super_step_outside(w, h, p, c3, bx + 2, by + 2, s2);
    if choice.merged {
        let a = with_first(t.layout, bx, by, STRATEGY_DCT32X32);
        let b = with_first(s3.layout, bx, by, STRATEGY_DCT32X32);
        assert forall|y: int| 0 <= y < a.len() implies #[trigger] a[y] == b[y] by {
            assert(s0.layout[y].len() == t.layout[y].len());
            assert(s1.layout[y].len() == t.layout[y].len());
            assert(s2.layout[y].len() == t.layout[y].len());
            assert(s3.layout[y].len() == t.layout[y].len());
            assert forall|x: int| 0 <= x < a[y].len() implies #[trigger] a[y][x] == b[y][x] by {
                if !in_window(bx, by, 4, 4, x, y) {
                    assert(s0.layout[y][x] == t.layout[y][x]);
                    assert(s1.layout[y][x] == t.layout[y][x]);
                    assert(s2.layout[y][x] == t.layout[y][x]);
                    assert(s3.layout[y][x] == t.layout[y][x]);
                }
            }
            assert(a[y] =~= b[y]);
        }
        assert(a =~= b);
    } else {
        lemma_plain_leaves_at(leaves, w, y0, bx, by);
        lemma_plain_leaves_at(leaves, w, y0, bx + 2, by);
        lemma_plain_leaves_at(leaves, w, y0, bx, by + 2);
        lemma_plain_leaves_at(leaves, w, y0, bx + 2, by + 2);
        law_plan_places_the_chosen_merges(w, h, p, c0, leaves_at(leaves, y0, bx, by), bx, by);
        law_plan_places_the_chosen_merges(
            w,
            h,
            p,
            c1,
            leaves_at(leaves, y0, bx + 2, by),
            bx + 2,
            by,
        );
        law_plan_places_the_chosen_merges(
            w,
            h,
            p,
            c2,
            leaves_at(leaves, y0, bx, by + 2),
            bx,
            by + 2,
        );
        law_plan_places_the_chosen_merges(
            w,
            h,
            p,
            c3,
            leaves_at(leaves, y0, bx + 2, by + 2),
            bx + 2,
            by + 2,
        );
    }
}

proof fn lemma_plain_leaves_at<A>(
    leaves: Seq<Vec<LeafChoice<A>>>,
    w: int,
    y0: int,
    bx: int,
    by: int,
)
    requires
        leaves_shape(leaves, w, leaves.len() as int),
        plain_leaves(leaves),
        y0 <= by,
        by + 2 <= y0 + leaves.len(),
        0 <= bx,
        bx + 2 <= w,
    ensures
        single_leaves(leaves_at(leaves, y0, bx, by)),
{
    assert(single_block_leaves(leaves)) by {
        assert forall|j: int, x: int| 0 <= j < leaves.len() && 0 <= x < leaves[j]@.len() implies
            covered_x((#[trigger] leaves[j]@[x]).strategy) == 1 && covered_y(
            leaves[j]@[x].strategy,
        ) == 1 by {}
    }
    lemma_leaves_at_single(leaves, w, y0, bx, by);
}

proof fn lemma_sites_agree<A: OrderedAmount>(
    w: int,
    h: int,
    p: SelectionParams<A>,
    sites: Seq<Site>,
    costs: Seq<SiteCosts<A>>,
    leaves: Seq<Vec<LeafChoice<A>>>,
    y0: int,
    s: BandState<A>,
    n: int,
)
    requires
        !p.rectangles,
        A::zero_spec().less_spec(p.tuning.bias_rect32),
        leaves_shape(leaves, w, leaves.len() as int),
        plain_leaves(leaves),
        w <= usize::MAX,
        h <= usize::MAX,
        0 <= n <= sites.len(),
        forall|i: int|
            0 <= i < sites.len() ==> {
                &&& y0 <= (#[trigger] sites[i]).by
                &&& sites[i].by + sites[i].side() <= y0 + leaves.len()
                &&& sites[i].bx + sites[i].side() <= w
                &&& sites[i].by + sites[i].side() <= h
                &&& site_priced_from_leaves(costs[i], leaves, y0, sites[i])
            },
    ensures
        after_leaf_sites(w, h, p, sites, costs, leaves, y0, s, n).layout == after_sites(
            w,
            h,
            p,
            sites,
            costs,
            s,
            n,
        ).layout,
        after_leaf_sites(w, h, p, sites, costs, leaves, y0, s, n).chosen32 == after_sites(
            w,
            h,
            p,
            sites,
            costs,
            s,
            n,
        ).chosen32,
    decreases n,
{
    if n > 0 {
        lemma_sites_agree(w, h, p, sites, costs, leaves, y0, s, n - 1);
        let a = after_leaf_sites(w, h, p, sites, costs, leaves, y0, s, n - 1);
        let b = after_sites(w, h, p, sites, costs, s, n - 1);
        let site = sites[n - 1];
        assert(site_priced_from_leaves(costs[n - 1], leaves, y0, site));
        if site.quad {
            lemma_region_agrees(w, h, p, costs[n - 1], leaves, y0, site, a, b);
        } else {
            let bx = site.bx as int;
            let by = site.by as int;
            let c = costs[n - 1].supers@[0]@[0];
            lemma_plain_leaves_at(leaves, w, y0, bx, by);
            law_plan_places_the_chosen_merges(
                w,
                h,
                p,
                c,
                leaves_at(leaves, y0, bx, by),
                bx,
                by,
            );
        }
    }
}

/// Without rectangles, leaf-first selection from 8x8 DCT leaves makes the layout
/// and hands on the costs that selection over the same band does.
pub proof fn law_leaf_first_agrees_without_rectangles<A: OrderedAmount>(
    w: int,
    h: int,
    p: SelectionParams<A>,
    y0: int,
    y1: int,
    costs: Seq<SiteCosts<A>>,
    leaves: Seq<Vec<LeafChoice<A>>>,
    s: BandState<A>,
)
    requires
        !p.rectangles,
        A::zero_spec().less_spec(p.tuning.bias_rect32),
        0 <= w <= usize::MAX,
        0 <= y0 <= y1 <= h <= usize::MAX,
        y0 % 4 == 0,
        y1 % 4 == 0 || y1 == h,
        leaves_shape(leaves, w, y1 - y0),
        plain_leaves(leaves),
        shaped(s.layout, w, h),
        costs.len() == band_sites(w, h, y0, y1).len(),
        forall|i: int|
            0 <= i < costs.len() ==> site_priced_from_leaves(
                #[trigger] costs[i],
                leaves,
                y0,
                band_sites(w, h, y0, y1)[i],
            ),
    ensures
        after_leaf_first(w, h, p, y0, y1, costs, leaves, s).layout == after_sites(
            w,
            h,
            p,
            band_sites(w, h, y0, y1),
            costs,
            s,
            costs.len() as int,
        ).layout,
        after_leaf_first(w, h, p, y0, y1, costs, leaves, s).chosen32 == after_sites(
            w,
            h,
            p,
            band_sites(w, h, y0, y1),
            costs,
            s,
            costs.len() as int,
        ).chosen32,
{
    let sites = band_sites(w, h, y0, y1);
    law_sites_do_not_overlap(w, h, y0, y1);
    lemma_plain_leaves_change_nothing(s.layout, w, h, leaves, y0);
    assert forall|i: int| 0 <= i < sites.len() implies site_priced_from_leaves(
        costs[i],
        leaves,
        y0,
        #[trigger] sites[i],
    ) by {
        assert(site_priced_from_leaves(costs[i], leaves, y0, band_sites(w, h, y0, y1)[i]));
    }
    lemma_sites_agree(w, h, p, sites, costs, leaves, y0, s, costs.len() as int);
}

/// The set of merges that a leaf-first decision on a 4x4 region stands for.
pub open spec fn mask_of<A>(choice: RegionChoice<A>) -> u8 {
    if !choice.merged {
        0
    } else if choice.strategy == STRATEGY_DCT32X32 {
        1
    } else if choice.strategy == STRATEGY_DCT32X16 {
        6
    } else {
        24
    }
}

/// The set of merges that selection takes over the 4x4 region at `(bx, by)`.
pub open spec fn region_mask<A: Amount>(
    w: int,
    h: int,
    p: SelectionParams<A>,
    c: SiteCosts<A>,
    bx: int,
    by: int,
) -> u8 {
    best_partition(
        chosen_costs(w, h, p, c, bx, by),
        leaf_costs(c),
        [
            cost32(w, h, p, c, bx, by, 0),
            cost32(w, h, p, c, bx, by, 1),
            cost32(w, h, p, c, bx, by, 2),
            cost32(w, h, p, c, bx, by, 3),
            cost32(w, h, p, c, bx, by, 4),
        ],
        c.accept,
        8,
    )
}

/// Leaf-first selection and selection take the same merges over a 4x4 region.
pub open spec fn region_decided_alike<A: Amount>(
    w: int,
    h: int,
    p: SelectionParams<A>,
    c: SiteCosts<A>,
    leaves: Seq<Vec<LeafChoice<A>>>,
    y0: int,
    site: Site,
) -> bool {
    let bx = site.bx as int;
    let by = site.by as int;
    site.quad ==> mask_of(
        region_choice(w, h, p, c, region_plans(w, h, p, c, leaves, y0, bx, by), bx, by),
    ) == region_mask(w, h, p, c, bx, by)
}

/// Layouts that agree outside a 4x4 window agree once merges cover it.
proof fn lemma_covered_alike(a: Layout, b: Layout, bx: int, by: int, strategy: u8)
    requires
        strategy == STRATEGY_DCT32X32 || strategy == STRATEGY_DCT32X16 || strategy
            == STRATEGY_DCT16X32,
        a.len() == b.len(),
        forall|y: int| 0 <= y < a.len() ==> (#[trigger] a[y]).len() == b[y].len(),
        forall|y: int, x: int|
            0 <= y < a.len() && 0 <= x < a[y].len() && !in_window(bx, by, 4, 4, x, y)
                ==> #[trigger] a[y][x] == b[y][x],
    ensures
        merged_layout(a, strategy, bx, by) == merged_layout(b, strategy, bx, by),
{
    let u = merged_layout(a, strategy, bx, by);
    let v = merged_layout(b, strategy, bx, by);
    assert forall|y: int| 0 <= y < u.len() implies #[trigger] u[y] == v[y] by {
        assert(a[y].len() == b[y].len());
        assert forall|x: int| 0 <= x < u[y].len() implies #[trigger] u[y][x] == v[y][x] by {
            if !in_window(bx, by, 4, 4, x, y) {
                assert(a[y][x] == b[y][x]);
            }
        }
        assert(u[y] =~= v[y]);
    }
    assert(u =~= v);
}

pub(crate) proof fn lemma_region_layouts<A: Amount>(
    w: int,
    h: int,
    p: SelectionParams<A>,
    c: SiteCosts<A>,
    leaves: Seq<Vec<LeafChoice<A>>>,
    y0: int,
    site: Site,
    s: BandState<A>,
    t: BandState<A>,
)
    requires
        leaves_shape(leaves, w, leaves.len() as int),
        plain_leaves(leaves),
        site_priced_from_leaves(c, leaves, y0, site),
        region_decided_alike(w, h, p, c, leaves, y0, site),
        site.quad,
        y0 <= site.by,
        site.by + 4 <= y0 + leaves.len(),
        site.bx + 4 <= w <= usize::MAX,
        site.by + 4 <= h <= usize::MAX,
        s.layout == t.layout,
    ensures
        leaf_region_step(
            w,
            h,
            p,
            c,
            leaves,
            y0,
            site.bx as int,
            site.by as int,
            s,
        ).layout == region_step(w, h, p, c, site.bx as int, site.by as int, t).layout,
{
    let bx = site.bx as int;
    let by = site.by as int;
    let c0 = c.supers@[0]@[0];
    let c1 = c.supers@[0]@[1];
    let c2 = c.supers@[1]@[0];
    let c3 = c.supers@[1]@[1];
    let choice = region_choice(
        w,
        h,
        p,
        c,
        region_plans(w, h, p, c, leaves, y0, bx, by),
        bx,
        by,
    );
    let mask = region_mask(w, h, p, c, bx, by);
    let s0 = super_step(w, h, p, c0, bx, by, t);
    let s1 = super_step(w, h, p, c1, bx + 2, by, s0);
    let s2 = super_step(w, h, p, c2, bx, by + 2, s1);
    let s3 = super_step(w, h, p, c3, bx + 2, by + 2, s2);
    assert(region_step(w, h, p, c, bx, by, t).layout == commit32(s3, bx, by, mask, 5).layout);
    reveal_with_fuel(commit32, 6);
    lemma_super_step_outside(w, h, p, c0, bx, by, t);
    lemma_super_step_outside(w, h, p, c1, bx + 2, by, s0);
    lemma_super_step_outside(w, h, p, c2, bx, by + 2, s1);
    lemma_super_step_outside(w, h, p, c3, bx + 2, by + 2, s2);
    if choice.merged {
        assert forall|y: int| 0 <= y < t.layout.len() implies (#[trigger] t.layout[y]).len()
            == s3.layout[y].len() by {
            assert(s0.layout[y].len() == t.layout[y].len());
            assert(s1.layout[y].len() == t.layout[y].len());
            assert(s2.layout[y].len() == t.layout[y].len());
        }
        assert forall|y: int, x: int|
            0 <= y < t.layout.len() && 0 <= x < t.layout[y].len() && !in_window(
                bx,
                by,
                4,
                4,
                x,
                y,
            ) implies #[trigger] t.layout[y][x] == s3.layout[y][x] by {
            assert(s0.layout[y].len() == t.layout[y].len());
            assert(s1.layout[y].len() == t.layout[y].len());
            assert(s2.layout[y].len() == t.layout[y].len());
            assert(s0.layout[y][x] == t.layout[y][x]);
            assert(s1.layout[y][x] == t.layout[y][x]);
            assert(s2.layout[y][x] == t.layout[y][x]);
        }
        lemma_covered_alike(t.layout, s3.layout, bx, by, choice.strategy);
        let sites = merge32_sites_spec(bx, by);
        assert(sites[0].x == bx && sites[1].x == bx && sites[2].x == bx + 2 && sites[3].x == bx
            && sites[4].x == bx);
        assert(sites[0].y == by && sites[1].y == by && sites[2].y == by && sites[3].y == by
            && sites[4].y == by + 2);
        assert(commit32(s3, bx, by, mask, 5).layout == merged_layout(
            s3.layout,
            choice.strategy,
            bx,
            by,
        ));
    } else {
        assert(commit32(s3, bx, by, mask, 5).layout == s3.layout);
        lemma_plain_leaves_at(leaves, w, y0, bx, by);
        lemma_plain_leaves_at(leaves, w, y0, bx + 2, by);
        lemma_plain_leaves_at(leaves, w, y0, bx, by + 2);
        lemma_plain_leaves_at(leaves, w, y0, bx + 2, by + 2);
        let l0 = leaves_at(leaves, y0, bx, by);
        let l1 = leaves_at(leaves, y0, bx + 2, by);
        let l2 = leaves_at(leaves, y0, bx, by + 2);
        let l3 = leaves_at(leaves, y0, bx + 2, by + 2);
        law_plan_places_the_chosen_merges(w, h, p, c0, l0, bx, by);
        law_plan_places_the_chosen_merges(w, h, p, c1, l1, bx + 2, by);
        law_plan_places_the_chosen_merges(w, h, p, c2, l2, bx, by + 2);
        law_plan_places_the_chosen_merges(w, h, p, c3, l3, bx + 2, by + 2);
    }
}

/// Two halves over a 4x4 region cost the same whether their bias is applied to both
/// or to their sum. Where costs are handed on without biases it makes no difference.
pub open spec fn region_priced_alike<A: Amount>(
    w: int,
    h: int,
    p: SelectionParams<A>,
    c: SiteCosts<A>,
    site: Site,
) -> bool {
    let bias = p.tuning.bias_rect32;
    let mask = region_mask(w, h, p, c, site.bx as int, site.by as int);
    let raw = |k: int| raw32(p.rectangles, c, k);
    ||| !site.quad
    ||| p.policy.raw_propagation
    ||| mask != 6 && mask != 24
    ||| mask == 6 && bias.times_spec(raw(1).plus_spec(raw(2))) == bias.times_spec(
        raw(1),
    ).plus_spec(bias.times_spec(raw(2)))
    ||| mask == 24 && bias.times_spec(raw(3).plus_spec(raw(4))) == bias.times_spec(
        raw(3),
    ).plus_spec(bias.times_spec(raw(4)))
}

proof fn lemma_region_costs<A: OrderedAmount>(
    w: int,
    h: int,
    p: SelectionParams<A>,
    c: SiteCosts<A>,
    leaves: Seq<Vec<LeafChoice<A>>>,
    y0: int,
    site: Site,
    s: BandState<A>,
    t: BandState<A>,
)
    requires
        site_priced_from_leaves(c, leaves, y0, site),
        region_decided_alike(w, h, p, c, leaves, y0, site),
        region_priced_alike(w, h, p, c, site),
        site.quad,
        site.bx + 4 <= w <= usize::MAX,
        site.by + 4 <= h <= usize::MAX,
        s.chosen32 == t.chosen32,
    ensures
        leaf_region_step(
            w,
            h,
            p,
            c,
            leaves,
            y0,
            site.bx as int,
            site.by as int,
            s,
        ).chosen32 == region_step(w, h, p, c, site.bx as int, site.by as int, t).chosen32,
{
    let bx = site.bx as int;
    let by = site.by as int;
    let c0 = c.supers@[0]@[0];
    let c1 = c.supers@[0]@[1];
    let c2 = c.supers@[1]@[0];
    let c3 = c.supers@[1]@[1];
    lemma_plan_costs_the_choice(w, h, p, c0, leaves, y0, bx, by);
    lemma_plan_costs_the_choice(w, h, p, c1, leaves, y0, bx + 2, by);
    lemma_plan_costs_the_choice(w, h, p, c2, leaves, y0, bx, by + 2);
    lemma_plan_costs_the_choice(w, h, p, c3, leaves, y0, bx + 2, by + 2);
    let plans = region_plans(w, h, p, c, leaves, y0, bx, by);
    let choice = region_choice(w, h, p, c, plans, bx, by);
    let mask = region_mask(w, h, p, c, bx, by);
    let children = chosen_costs(w, h, p, c, bx, by);
    let costs = [
        cost32(w, h, p, c, bx, by, 0),
        cost32(w, h, p, c, bx, by, 1),
        cost32(w, h, p, c, bx, by, 2),
        cost32(w, h, p, c, bx, by, 3),
        cost32(w, h, p, c, bx, by, 4),
    ];
    let raw = [
        raw32(p.rectangles, c, 0),
        raw32(p.rectangles, c, 1),
        raw32(p.rectangles, c, 2),
        raw32(p.rectangles, c, 3),
        raw32(p.rectangles, c, 4),
    ];
    let merges = pick(p.policy.raw_propagation, raw, costs);
    assert(choice.cost == partition_cost_spec(children, merges, mask)) by {
        A::zero_plus(merges@[1]);
        A::zero_plus(merges@[3]);
        A::zero_plus(children@[0]@[0]);
        assert(mask == 0 || mask == 1 || mask == 6 || mask == 24);
        assert(!chosen(0, 0) && !chosen(0, 1) && !chosen(0, 2) && !chosen(0, 3) && !chosen(0, 4));
        assert(chosen(1, 0));
        assert(!chosen(6, 0) && chosen(6, 1) && chosen(6, 2) && !chosen(6, 3) && !chosen(6, 4));
        assert(!chosen(24, 0) && !chosen(24, 1) && !chosen(24, 2) && chosen(24, 3) && chosen(
            24,
            4,
        ));
        let sites = merge32_sites_spec(bx, by);
        assert(sites[0].x == bx && sites[1].x == bx && sites[2].x == bx + 2 && sites[3].x == bx
            && sites[4].x == bx);
        assert(sites[0].y == by && sites[1].y == by && sites[2].y == by && sites[3].y == by
            && sites[4].y == by + 2);
    }
    let s0 = super_step(w, h, p, c0, bx, by, t);
    let s1 = super_step(w, h, p, c1, bx + 2, by, s0);
    let s2 = super_step(w, h, p, c2, bx, by + 2, s1);
    let s3 = super_step(w, h, p, c3, bx + 2, by + 2, s2);
    assert(s3.chosen32 == t.chosen32);
    lemma_commit_keeps_costs(s3, bx, by, mask, 5);
}

proof fn lemma_commit_keeps_costs<A>(s: BandState<A>, bx: int, by: int, mask: u8, n: int)
    ensures
        commit32(s, bx, by, mask, n).chosen32 == s.chosen32,
    decreases n,
{
    if n > 0 {
        lemma_commit_keeps_costs(s, bx, by, mask, n - 1);
    }
}

proof fn lemma_sites_decided_alike<A: OrderedAmount>(
    w: int,
    h: int,
    p: SelectionParams<A>,
    sites: Seq<Site>,
    costs: Seq<SiteCosts<A>>,
    leaves: Seq<Vec<LeafChoice<A>>>,
    y0: int,
    s: BandState<A>,
    n: int,
)
    requires
        leaves_shape(leaves, w, leaves.len() as int),
        plain_leaves(leaves),
        w <= usize::MAX,
        h <= usize::MAX,
        0 <= n <= sites.len(),
        forall|i: int|
            0 <= i < sites.len() ==> {
                &&& y0 <= (#[trigger] sites[i]).by
                &&& sites[i].by + sites[i].side() <= y0 + leaves.len()
                &&& sites[i].bx + sites[i].side() <= w
                &&& sites[i].by + sites[i].side() <= h
                &&& site_priced_from_leaves(costs[i], leaves, y0, sites[i])
                &&& region_decided_alike(w, h, p, costs[i], leaves, y0, sites[i])
            },
    ensures
        after_leaf_sites(w, h, p, sites, costs, leaves, y0, s, n).layout == after_sites(
            w,
            h,
            p,
            sites,
            costs,
            s,
            n,
        ).layout,
        (forall|i: int|
            0 <= i < n ==> region_priced_alike(w, h, p, costs[i], #[trigger] sites[i]))
            ==> after_leaf_sites(w, h, p, sites, costs, leaves, y0, s, n).chosen32 == after_sites(
            w,
            h,
            p,
            sites,
            costs,
            s,
            n,
        ).chosen32,
    decreases n,
{
    if n > 0 {
        lemma_sites_decided_alike(w, h, p, sites, costs, leaves, y0, s, n - 1);
        let a = after_leaf_sites(w, h, p, sites, costs, leaves, y0, s, n - 1);
        let b = after_sites(w, h, p, sites, costs, s, n - 1);
        let site = sites[n - 1];
        assert(site_priced_from_leaves(costs[n - 1], leaves, y0, site));
        if site.quad {
            lemma_region_layouts(w, h, p, costs[n - 1], leaves, y0, site, a, b);
            if forall|i: int|
                0 <= i < n ==> region_priced_alike(w, h, p, costs[i], #[trigger] sites[i]) {
                assert(region_priced_alike(w, h, p, costs[n - 1], sites[n - 1]));
                lemma_region_costs(w, h, p, costs[n - 1], leaves, y0, site, a, b);
            }
        } else {
            let bx = site.bx as int;
            let by = site.by as int;
            lemma_plain_leaves_at(leaves, w, y0, bx, by);
            law_plan_places_the_chosen_merges(
                w,
                h,
                p,
                costs[n - 1].supers@[0]@[0],
                leaves_at(leaves, y0, bx, by),
                bx,
                by,
            );
        }
    }
}

/// With rectangles too, leaf-first selection from 8x8 DCT leaves makes the layout
/// that selection over the same band does, where both take the same merges over
/// every 4x4 region. They may differ there: selection also takes a single half of a
/// region, and judges every set of merges before it compares them. The costs that
/// both hand on are the same as well, where a bias on a sum is one on its terms.
pub proof fn law_leaf_first_agrees_where_regions_do<A: OrderedAmount>(
    w: int,
    h: int,
    p: SelectionParams<A>,
    y0: int,
    y1: int,
    costs: Seq<SiteCosts<A>>,
    leaves: Seq<Vec<LeafChoice<A>>>,
    s: BandState<A>,
)
    requires
        0 <= w <= usize::MAX,
        0 <= y0 <= y1 <= h <= usize::MAX,
        y0 % 4 == 0,
        y1 % 4 == 0 || y1 == h,
        leaves_shape(leaves, w, y1 - y0),
        plain_leaves(leaves),
        shaped(s.layout, w, h),
        costs.len() == band_sites(w, h, y0, y1).len(),
        forall|i: int|
            0 <= i < costs.len() ==> site_priced_from_leaves(
                #[trigger] costs[i],
                leaves,
                y0,
                band_sites(w, h, y0, y1)[i],
            ) && region_decided_alike(
                w,
                h,
                p,
                costs[i],
                leaves,
                y0,
                band_sites(w, h, y0, y1)[i],
            ),
    ensures
        after_leaf_first(w, h, p, y0, y1, costs, leaves, s).layout == after_sites(
            w,
            h,
            p,
            band_sites(w, h, y0, y1),
            costs,
            s,
            costs.len() as int,
        ).layout,
        (forall|i: int|
            0 <= i < costs.len() ==> region_priced_alike(
                w,
                h,
                p,
                #[trigger] costs[i],
                band_sites(w, h, y0, y1)[i],
            )) ==> after_leaf_first(w, h, p, y0, y1, costs, leaves, s).chosen32 == after_sites(
            w,
            h,
            p,
            band_sites(w, h, y0, y1),
            costs,
            s,
            costs.len() as int,
        ).chosen32,
{
    let sites = band_sites(w, h, y0, y1);
    law_sites_do_not_overlap(w, h, y0, y1);
    lemma_plain_leaves_change_nothing(s.layout, w, h, leaves, y0);
    assert forall|i: int| 0 <= i < sites.len() implies site_priced_from_leaves(
        costs[i],
        leaves,
        y0,
        #[trigger] sites[i],
    ) && region_decided_alike(w, h, p, costs[i], leaves, y0, sites[i]) by {
        assert(site_priced_from_leaves(costs[i], leaves, y0, band_sites(w, h, y0, y1)[i]));
    }
    lemma_sites_decided_alike(w, h, p, sites, costs, leaves, y0, s, costs.len() as int);
    if forall|i: int|
        0 <= i < costs.len() ==> region_priced_alike(w, h, p, #[trigger] costs[i], sites[i]) {
        assert forall|i: int| 0 <= i < costs.len() implies region_priced_alike(
            w,
            h,
            p,
            costs[i],
            #[trigger] sites[i],
        ) by {
            assert(region_priced_alike(w, h, p, costs[i], band_sites(w, h, y0, y1)[i]));
        }
    }
}

/// Writing 8x8 DCT leaves into a layout changes nothing.
pub(crate) proof fn lemma_plain_leaves_change_nothing<A>(
    v: Layout,
    w: int,
    h: int,
    leaves: Seq<Vec<LeafChoice<A>>>,
    y0: int,
)
    requires
        shaped(v, w, h),
        0 <= y0,
        y0 + leaves.len() <= h,
        leaves_shape(leaves, w, leaves.len() as int),
        plain_leaves(leaves),
    ensures
        leaves_layout(v, leaves, y0) == v,
{
    let u = leaves_layout(v, leaves, y0);
    assert forall|y: int| 0 <= y < u.len() implies #[trigger] u[y] == v[y] by {
        assert(v[y].len() == w);
        assert forall|x: int| 0 <= x < u[y].len() implies #[trigger] u[y][x] == v[y][x] by {
            if y0 <= y < y0 + leaves.len() {
                assert(leaves[y - y0]@[x].strategy == STRATEGY_DCT);
            }
        }
        assert(u[y] =~= v[y]);
    }
    assert(u =~= v);
}

} // verus!
