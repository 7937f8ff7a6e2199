//! The 64-pixel transforms keep a tiling a tiling.

use crate::amount::{Amount, OrderedAmount};
use crate::cost_map::Costs;
use crate::pass64::{
    after64, choice64, half_score, law_windows_are_aligned_and_apart, placed, placements64,
    quads_at, sites64, Choice64, Costs64,
};
use crate::strategy::{STRATEGY_DCT32X64, STRATEGY_DCT64X32, STRATEGY_DCT64X64};
use crate::strategy_map::{with_first, Layout, Placement};
use crate::super_block::MergeTuning;
use crate::tiling::{
    apart, closed_window, encloses, keeps_windows, law_merge_on_closed_window, place_all, tiled,
};
use crate::tuning::{knob_spec, BIAS_64X64, BIAS_64_RECT};
use vstd::prelude::*;

verus! {

/// No transform crosses the middle lines or the border of the 8x8 window at
/// `(x, y)`.
pub open spec fn in_quarters(v: Layout, w: int, h: int, x: int, y: int) -> bool {
    &&& closed_window(v, w, h, x, y, 4, 4)
    &&& closed_window(v, w, h, x + 4, y, 4, 4)
    &&& closed_window(v, w, h, x, y + 4, 4, 4)
    &&& closed_window(v, w, h, x + 4, y + 4, 4, 4)
}

/// What a window of 8x8 blocks is made of when its halves are closed.
proof fn lemma_halves_closed(v: Layout, w: int, h: int, x: int, y: int)
    requires
        in_quarters(v, w, h, x, y),
    ensures
        closed_window(v, w, h, x, y, 4, 8),
        closed_window(v, w, h, x + 4, y, 4, 8),
        closed_window(v, w, h, x, y, 8, 4),
        closed_window(v, w, h, x, y + 4, 8, 4),
        closed_window(v, w, h, x, y, 8, 8),
{
}

/// A merge onto a closed window inside another one.
proof fn lemma_inner_merge(
    v: Layout,
    w: int,
    h: int,
    p: Placement,
    x: int,
    y: int,
    cx: int,
    cy: int,
)
    requires
        tiled(v, w, h),
        p.x == x,
        p.y == y,
        crate::strategy::covered_x(p.strategy) == cx,
        crate::strategy::covered_y(p.strategy) == cy,
        x + cx <= w <= usize::MAX,
        y + cy <= h <= usize::MAX,
        closed_window(v, w, h, x, y, cx, cy),
    ensures
        tiled(with_first(v, x, y, p.strategy), w, h),
        keeps_windows(v, with_first(v, x, y, p.strategy), w, h, x, y, cx, cy),
{
    law_merge_on_closed_window(v, w, h, p);
}

proof fn lemma_placed(
    v: Layout,
    w: int,
    h: int,
    take: bool,
    x: int,
    y: int,
    strategy: u8,
    cx: int,
    cy: int,
)
    requires
        tiled(v, w, h),
        crate::strategy::covered_x(strategy) == cx,
        crate::strategy::covered_y(strategy) == cy,
        0 <= x,
        0 <= y,
        x + cx <= w <= usize::MAX,
        y + cy <= h <= usize::MAX,
        closed_window(v, w, h, x, y, cx, cy),
    ensures
        tiled(place_all(v, placed(take, x, y, strategy)), w, h),
        keeps_windows(v, place_all(v, placed(take, x, y, strategy)), w, h, x, y, cx, cy),
{
    reveal_with_fuel(place_all, 2);
    if take {
        let p = Placement { x: x as usize, y: y as usize, strategy };
        lemma_inner_merge(v, w, h, p, x, y, cx, cy);
        assert(placed(take, x, y, strategy).drop_last() =~= Seq::empty());
    }
}

proof fn lemma_two_halves(
    v: Layout,
    w: int,
    h: int,
    x: int,
    y: int,
    tall: bool,
    first: bool,
    second: bool,
)
    requires
        tiled(v, w, h),
        0 <= x,
        0 <= y,
        x + 8 <= w <= usize::MAX,
        y + 8 <= h <= usize::MAX,
        in_quarters(v, w, h, x, y),
    ensures
        ({
            let choice = if tall {
                Choice64::Tall(first, second)
            } else {
                Choice64::Wide(first, second)
            };
            let after = place_all(v, placements64(choice, x, y));
            &&& tiled(after, w, h)
            &&& keeps_windows(v, after, w, h, x, y, 8, 8)
        }),
{
    let (s, cx, cy, x1, y1) = if tall {
        (STRATEGY_DCT64X32, 4int, 8int, x + 4, y)
    } else {
        (STRATEGY_DCT32X64, 8int, 4int, x, y + 4)
    };
    let a = placed(first, x, y, s);
    let b = placed(second, x1, y1, s);
    lemma_halves_closed(v, w, h, x, y);
    lemma_placed(v, w, h, first, x, y, s, cx, cy);
    let mid = place_all(v, a);
    assert(apart(x1, y1, cx, cy, x, y, cx, cy));
    assert(closed_window(mid, w, h, x1, y1, cx, cy));
    lemma_placed(mid, w, h, second, x1, y1, s, cx, cy);
    let after = place_all(mid, b);
    assert(place_all(v, a + b) == after) by {
        reveal_with_fuel(place_all, 3);
        if second {
            assert((a + b).drop_last() =~= a);
            assert(b.drop_last() =~= Seq::empty());
        } else {
            assert(a + b =~= a);
        }
    }
    assert forall|p: int, q: int, c: int, d: int|
        closed_window(v, w, h, p, q, c, d) && (apart(p, q, c, d, x, y, 8, 8) || encloses(
            p,
            q,
            c,
            d,
            x,
            y,
            8,
            8,
        )) implies #[trigger] closed_window(after, w, h, p, q, c, d) by {
        assert(closed_window(mid, w, h, p, q, c, d));
    }
}

/// A decision on an 8x8 window of closed quarters keeps the tiling, and every
/// closed window around it or apart from it.
pub proof fn law_decision_on_quarters_keeps_tiling(
    v: Layout,
    w: int,
    h: int,
    x: int,
    y: int,
    choice: Choice64,
)
    requires
        tiled(v, w, h),
        0 <= x,
        0 <= y,
        x + 8 <= w <= usize::MAX,
        y + 8 <= h <= usize::MAX,
        in_quarters(v, w, h, x, y),
    ensures
        tiled(place_all(v, placements64(choice, x, y)), w, h),
        keeps_windows(v, place_all(v, placements64(choice, x, y)), w, h, x, y, 8, 8),
{
    match choice {
        Choice64::Keep => {
            reveal_with_fuel(place_all, 1);
        },
        Choice64::Square => {
            lemma_halves_closed(v, w, h, x, y);
            lemma_placed(v, w, h, true, x, y, STRATEGY_DCT64X64, 8, 8);
        },
        Choice64::Tall(a, b) => {
            lemma_two_halves(v, w, h, x, y, true, a, b);
        },
        Choice64::Wide(a, b) => {
            lemma_two_halves(v, w, h, x, y, false, a, b);
        },
    }
}

proof fn lemma_after64<A: Amount>(
    v: Layout,
    w: int,
    h: int,
    grid: Costs<A>,
    t: MergeTuning<A>,
    scores: Seq<Costs64<A>>,
    n: int,
)
    requires
        tiled(v, w, h),
        0 <= w <= usize::MAX,
        0 <= h <= usize::MAX,
        0 <= n <= sites64(grid, w, h / 8).len(),
        forall|i: int|
            0 <= i < sites64(grid, w, h / 8).len() ==> in_quarters(
                v,
                w,
                h,
                (#[trigger] sites64(grid, w, h / 8)[i]).0 as int,
                sites64(grid, w, h / 8)[i].1 as int,
            ),
    ensures
        tiled(after64(v, sites64(grid, w, h / 8), grid, t, scores, n), w, h),
        forall|i: int|
            n <= i < sites64(grid, w, h / 8).len() ==> in_quarters(
                after64(v, sites64(grid, w, h / 8), grid, t, scores, n),
                w,
                h,
                (#[trigger] sites64(grid, w, h / 8)[i]).0 as int,
                sites64(grid, w, h / 8)[i].1 as int,
            ),
    decreases n,
{
    if n > 0 {
        lemma_after64(v, w, h, grid, t, scores, n - 1);
        law_windows_are_aligned_and_apart(grid, w, h, h / 8);
        let sites = sites64(grid, w, h / 8);
        let before = after64(v, sites, grid, t, scores, n - 1);
        let after = after64(v, sites, grid, t, scores, n);
        let x = sites[n - 1].0 as int;
        let y = sites[n - 1].1 as int;
        let choice = choice64(quads_at(grid, x, y), scores[n - 1], t);
        law_decision_on_quarters_keeps_tiling(before, w, h, x, y, choice);
        assert forall|i: int| n <= i < sites.len() implies in_quarters(
            after,
            w,
            h,
            (#[trigger] sites[i]).0 as int,
            sites[i].1 as int,
        ) by {
            let p = sites[i].0 as int;
            let q = sites[i].1 as int;
            assert(sites[n - 1].1 < q || sites[n - 1].1 == q && sites[n - 1].0 < p);
            assert(in_quarters(before, w, h, p, q));
            assert(closed_window(before, w, h, p, q, 4, 4));
            assert(apart(p, q, 4, 4, x, y, 8, 8));
            assert(apart(p + 4, q, 4, 4, x, y, 8, 8));
            assert(apart(p, q + 4, 4, 4, x, y, 8, 8));
            assert(apart(p + 4, q + 4, 4, 4, x, y, 8, 8));
        }
    }
}

/// Merging into 64-pixel transforms keeps the tiling where no transform crosses
/// the border of a 4x4 region that was decided on.
pub proof fn law_merge_64_keeps_tiling<A: Amount>(
    v: Layout,
    w: int,
    h: int,
    grid: Costs<A>,
    t: MergeTuning<A>,
    scores: Seq<Costs64<A>>,
)
    requires
        tiled(v, w, h),
        0 <= w <= usize::MAX,
        0 <= h <= usize::MAX,
        forall|i: int|
            0 <= i < sites64(grid, w, h / 8).len() ==> in_quarters(
                v,
                w,
                h,
                (#[trigger] sites64(grid, w, h / 8)[i]).0 as int,
                sites64(grid, w, h / 8)[i].1 as int,
            ),
    ensures
        tiled(
            after64(
                v,
                sites64(grid, w, h / 8),
                grid,
                t,
                scores,
                sites64(grid, w, h / 8).len() as int,
            ),
            w,
            h,
        ),
{
    lemma_after64(v, w, h, grid, t, scores, sites64(grid, w, h / 8).len() as int);
}

/// A 64-pixel transform comes in below what it replaces: `p` lies on the window at
/// `(bx, by)`, and the biased cost of its own half, or of the square, is below the
/// accepted part of what the layouts of exactly the 4x4 regions under its footprint cost.
pub open spec fn wins_its_footprint<A: Amount>(
    p: Placement,
    bx: int,
    by: int,
    grid: Costs<A>,
    c: Costs64<A>,
    t: MergeTuning<A>,
) -> bool {
    let i = p.x as int / 4;
    let j = p.y as int / 4;
    let bias = knob_spec::<A>(BIAS_64_RECT);
    if p.strategy == STRATEGY_DCT64X32 {
        &&& p.y == by
        &&& p.x == bx || p.x == bx + 4
        &&& bias.times_spec(c.tall@[(p.x - bx) / 4]).less_spec(
            (grid[j][i]->0).plus_spec(grid[j + 1][i]->0).times_spec(t.accept_64_rect),
        )
    } else if p.strategy == STRATEGY_DCT32X64 {
        &&& p.x == bx
        &&& p.y == by || p.y == by + 4
        &&& bias.times_spec(c.wide@[(p.y - by) / 4]).less_spec(
            (grid[j][i]->0).plus_spec(grid[j][i + 1]->0).times_spec(t.accept_64_rect),
        )
    } else {
        &&& p.strategy == STRATEGY_DCT64X64
        &&& p.x == bx
        &&& p.y == by
        &&& knob_spec::<A>(BIAS_64X64).times_spec(c.square).over_spec(t.accept_64).less_spec(
            A::zero_spec().plus_spec(grid[j][i]->0).plus_spec(grid[j][i + 1]->0).plus_spec(
                grid[j + 1][i]->0,
            ).plus_spec(grid[j + 1][i + 1]->0),
        )
    }
}

/// No 64-pixel transform is put over regions that it does not beat: every placement of
/// the decision on a window comes in below what it replaces.
pub proof fn law_64_pixel_placements_win<A: Amount>(
    grid: Costs<A>,
    c: Costs64<A>,
    t: MergeTuning<A>,
    bx: int,
    by: int,
    k: int,
)
    requires
        0 <= bx,
        0 <= by,
        bx % 8 == 0,
        by % 8 == 0,
        bx + 8 <= usize::MAX,
        by + 8 <= usize::MAX,
        0 <= k < placements64(choice64(quads_at(grid, bx, by), c, t), bx, by).len(),
    ensures
        wins_its_footprint(
            placements64(choice64(quads_at(grid, bx, by), c, t), bx, by)[k],
            bx,
            by,
            grid,
            c,
            t,
        ),
{
    let q = quads_at(grid, bx, by);
    let i = bx / 4;
    let j = by / 4;
    assert(q@[0]@ =~= seq![grid[j][i]->0, grid[j][i + 1]->0]);
    assert(q@[1]@ =~= seq![grid[j + 1][i]->0, grid[j + 1][i + 1]->0]);
    assert((bx + 4) / 4 == i + 1);
    assert((by + 4) / 4 == j + 1);
}

/// The decision on a window is the cheapest of the four that are compared: leaving the
/// regions, the square, and the tall and the wide arm, each of whose halves is charged
/// its own cost where that beats the regions under it and theirs otherwise.
pub proof fn law_64_pixel_decision_is_cheapest<A: OrderedAmount>(
    q: [[A; 2]; 2],
    c: Costs64<A>,
    t: MergeTuning<A>,
)
    ensures
        ({
            let bias = knob_spec::<A>(BIAS_64_RECT);
            let half = |cost: A, under: A|
                if bias.times_spec(cost).less_spec(under.times_spec(t.accept_64_rect)) {
                    bias.times_spec(cost).over_spec(t.accept_64_rect)
                } else {
                    under
                };
            let (a, b) = (q@[0]@[0], q@[0]@[1]);
            let (d, e) = (q@[1]@[0], q@[1]@[1]);
            let keep = A::zero_spec().plus_spec(a).plus_spec(b).plus_spec(d).plus_spec(e);
            let square = knob_spec::<A>(BIAS_64X64).times_spec(c.square).over_spec(t.accept_64);
            let tall = half(c.tall@[0], a.plus_spec(d)).plus_spec(half(c.tall@[1], b.plus_spec(e)));
            let wide = half(c.wide@[0], a.plus_spec(b)).plus_spec(half(c.wide@[1], d.plus_spec(e)));
            let chosen = match choice64(q, c, t) {
                Choice64::Keep => keep,
                Choice64::Square => square,
                Choice64::Tall(..) => tall,
                Choice64::Wide(..) => wide,
            };
            &&& !keep.less_spec(chosen)
            &&& !square.less_spec(chosen)
            &&& !tall.less_spec(chosen)
            &&& !wide.less_spec(chosen)
        }),
{
    let keep = crate::pass64::quad_total(q);
    let square = knob_spec::<A>(BIAS_64X64).times_spec(c.square).over_spec(t.accept_64);
    let tall = half_score(q, c, t, 0).plus_spec(half_score(q, c, t, 1));
    let wide = half_score(q, c, t, 2).plus_spec(half_score(q, c, t, 3));
    lemma_order_of_four(keep, square, tall, wide);
}

proof fn lemma_order_of_four<A: OrderedAmount>(a: A, b: A, c: A, d: A)
    ensures
        forall|x: A, y: A|
            #![trigger x.at_most_spec(y)]
            among(x, a, b, c, d) && among(y, a, b, c, d) ==> x.at_most_spec(y) == !y.less_spec(x),
        forall|x: A| among(x, a, b, c, d) ==> !(#[trigger] x.less_spec(x)),
        forall|x: A, y: A, z: A|
            #![trigger x.less_spec(y), y.less_spec(z)]
            among(x, a, b, c, d) && among(y, a, b, c, d) && among(z, a, b, c, d) && x.less_spec(y)
                && y.less_spec(z) ==> x.less_spec(z),
{
    assert forall|x: A, y: A|
        #![trigger x.at_most_spec(y)]
        among(x, a, b, c, d) && among(y, a, b, c, d) implies x.at_most_spec(y) == !y.less_spec(
        x,
    ) by {
        A::at_most_denies_less(x, y);
    }
    assert forall|x: A| among(x, a, b, c, d) implies !(#[trigger] x.less_spec(x)) by {
        A::less_irreflexive(x);
    }
    assert forall|x: A, y: A, z: A|
        #![trigger x.less_spec(y), y.less_spec(z)]
        among(x, a, b, c, d) && among(y, a, b, c, d) && among(z, a, b, c, d) && x.less_spec(y)
            && y.less_spec(z) implies x.less_spec(z) by {
        A::less_transitive(x, y, z);
    }
}

spec fn among<A>(x: A, a: A, b: A, c: A, d: A) -> bool {
    x == a || x == b || x == c || x == d
}

/// A strategy of 64 pixels.
pub open spec fn is_64(strategy: u8) -> bool {
    strategy == STRATEGY_DCT64X32 || strategy == STRATEGY_DCT32X64 || strategy == STRATEGY_DCT64X64
}

proof fn lemma_place_all_firsts(v: Layout, ps: Seq<Placement>, x: int, y: int)
    requires
        0 <= y < v.len(),
        0 <= x < v[y].len(),
        place_all(v, ps)[y][x].first,
    ensures
        place_all(v, ps).len() == v.len(),
        place_all(v, ps)[y].len() == v[y].len(),
        place_all(v, ps)[y][x] == v[y][x] || exists|k: int|
            0 <= k < ps.len() && (#[trigger] ps[k]).x == x && ps[k].y == y && ps[k].strategy
                == place_all(v, ps)[y][x].strategy,
    decreases ps.len(),
{
    lemma_place_all_shape(v, ps, y);
    if ps.len() > 0 {
        let head = ps.drop_last();
        lemma_place_all_shape(v, head, y);
        let p = ps.last();
        if place_all(v, ps)[y][x] != place_all(v, head)[y][x] {
            assert(ps[ps.len() - 1] == p);
        } else {
            lemma_place_all_firsts(v, head, x, y);
            if place_all(v, head)[y][x] != v[y][x] {
                let k = choose|k: int|
                    0 <= k < head.len() && (#[trigger] head[k]).x == x && head[k].y == y
                        && head[k].strategy == place_all(v, head)[y][x].strategy;
                assert(ps[k] == head[k]);
            }
        }
    }
}

proof fn lemma_place_all_shape(v: Layout, ps: Seq<Placement>, y: int)
    requires
        0 <= y < v.len(),
    ensures
        place_all(v, ps).len() == v.len(),
        place_all(v, ps)[y].len() == v[y].len(),
    decreases ps.len(),
{
    if ps.len() > 0 {
        lemma_place_all_shape(v, ps.drop_last(), y);
    }
}

/// Wherever a 64-pixel transform begins in a map after the merges and did not before,
/// it comes in below the layouts of the regions under its footprint, at the costs of
/// the window that it lies on.
pub proof fn law_merged_64_pixel_transforms_win<A: Amount>(
    v: Layout,
    w: int,
    h: int,
    grid: Costs<A>,
    t: MergeTuning<A>,
    scores: Seq<Costs64<A>>,
    n: int,
    x: int,
    y: int,
)
    requires
        0 <= w < usize::MAX,
        0 <= h < usize::MAX,
        v.len() == h,
        0 <= n <= sites64(grid, w, h / 8).len(),
        0 <= y < h,
        0 <= x < v[y].len() <= w,
        ({
            let after = after64(v, sites64(grid, w, h / 8), grid, t, scores, n);
            after[y][x].first && after[y][x] != v[y][x]
        }),
    ensures
        ({
            let sites = sites64(grid, w, h / 8);
            let after = after64(v, sites, grid, t, scores, n);
            let p = Placement { x: x as usize, y: y as usize, strategy: after[y][x].strategy };
            &&& is_64(p.strategy)
            &&& exists|k: int|
                0 <= k < n && wins_its_footprint(
                    p,
                    (#[trigger] sites[k]).0 as int,
                    sites[k].1 as int,
                    grid,
                    scores[k],
                    t,
                )
        }),
    decreases n,
{
    let sites = sites64(grid, w, h / 8);
    let after = after64(v, sites, grid, t, scores, n);
    if n > 0 {
        let before = after64(v, sites, grid, t, scores, n - 1);
        let (bx, by) = (sites[n - 1].0 as int, sites[n - 1].1 as int);
        let ps = placements64(choice64(quads_at(grid, bx, by), scores[n - 1], t), bx, by);
        law_windows_are_aligned_and_apart(grid, w, h, h / 8);
        assert(bx % 8 == 0 && by % 8 == 0 && bx + 8 <= w && by + 8 <= h);
        lemma_after64_shape(v, sites, grid, t, scores, n - 1, y);
        lemma_place_all_firsts(before, ps, x, y);
        if after[y][x] == before[y][x] {
            law_merged_64_pixel_transforms_win(v, w, h, grid, t, scores, n - 1, x, y);
        } else {
            let k = choose|k: int|
                0 <= k < ps.len() && (#[trigger] ps[k]).x == x && ps[k].y == y && ps[k].strategy
                    == after[y][x].strategy;
            law_64_pixel_placements_win(grid, scores[n - 1], t, bx, by, k);
            let p = Placement { x: x as usize, y: y as usize, strategy: after[y][x].strategy };
            assert(ps[k] == p);
            assert(sites[n - 1] == sites[n - 1]);
        }
    }
}

proof fn lemma_after64_shape<A: Amount>(
    v: Layout,
    sites: Seq<(usize, usize)>,
    grid: Costs<A>,
    t: MergeTuning<A>,
    scores: Seq<Costs64<A>>,
    n: int,
    y: int,
)
    requires
        0 <= y < v.len(),
    ensures
        after64(v, sites, grid, t, scores, n).len() == v.len(),
        after64(v, sites, grid, t, scores, n)[y].len() == v[y].len(),
    decreases n,
{
    if n > 0 {
        let (bx, by) = (sites[n - 1].0 as int, sites[n - 1].1 as int);
        lemma_after64_shape(v, sites, grid, t, scores, n - 1, y);
        lemma_place_all_shape(
            after64(v, sites, grid, t, scores, n - 1),
            placements64(choice64(quads_at(grid, bx, by), scores[n - 1], t), bx, by),
            y,
        );
    }
}

} // verus!
