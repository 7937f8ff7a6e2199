//! Merges over 8x8 blocks: the 64-pixel transforms.

use crate::amount::Amount;
use crate::cost_map::{grid_shape, unknown, with_cost, CostMap, Costs};
use crate::selection::{BandOutput, Chosen32Cost};
use crate::strategy::{STRATEGY_DCT32X64, STRATEGY_DCT64X32, STRATEGY_DCT64X64};
use crate::strategy_map::{AcStrategyImage, Layout, Placement};
use crate::super_block::{beats, merge_beats_dct8, pick, MergeTuning};
use crate::tiling::place_all;
use crate::tuning::{knob, knob_spec, BIAS_64X64, BIAS_64_RECT};
use vstd::prelude::*;

verus! {

/// Number of 4x4 regions along `n` blocks, the last one possibly cut off.
pub open spec fn regions_along(n: int) -> int {
    (n + 3) / 4
}

/// Number of 4x4 regions along `n` blocks, the last one possibly cut off.
fn count_regions(n: usize) -> (r: usize)
    ensures
        r == regions_along(n as int),
{
    if n % 4 == 0 {
        n / 4
    } else {
        n / 4 + 1
    }
}

/// The grid after the costs of the leading `n` regions were noted.
pub open spec fn with_regions<A>(m: Costs<A>, list: Seq<Chosen32Cost<A>>, n: int) -> Costs<A>
    decreases n,
{
    if n <= 0 {
        m
    } else {
        let c = list[n - 1];
        with_cost(with_regions(m, list, n - 1), c.bx as int / 4, c.by as int / 4, Some(c.cost))
    }
}

/// The grid after the costs of the leading `n` bands were noted.
pub open spec fn with_bands<A>(m: Costs<A>, outs: Seq<BandOutput<A>>, n: int) -> Costs<A>
    decreases n,
{
    if n <= 0 {
        m
    } else {
        with_regions(
            with_bands(m, outs, n - 1),
            outs[n - 1].chosen32@,
            outs[n - 1].chosen32@.len() as int,
        )
    }
}

/// The costs of the layouts chosen for the 4x4 regions of a `w x h` group.
pub open spec fn region_costs<A>(w: int, h: int, outs: Seq<BandOutput<A>>) -> Costs<A> {
    with_bands(unknown(regions_along(w), regions_along(h)), outs, outs.len() as int)
}

/// Every noted region begins inside a `w x h` group.
pub open spec fn regions_inside<A>(list: Seq<Chosen32Cost<A>>, w: int, h: int) -> bool {
    forall|i: int| 0 <= i < list.len() ==> (#[trigger] list[i]).bx < w && list[i].by < h
}

/// Gathers the costs of the 4x4 regions from all bands.
pub fn assemble_chosen32<A: Amount>(w: usize, h: usize, outs: &Vec<BandOutput<A>>) -> (r: CostMap<
    A,
>)
    requires
        forall|i: int|
            0 <= i < outs@.len() ==> regions_inside(
                (#[trigger] outs@[i]).chosen32@,
                w as int,
                h as int,
            ),
    ensures
        grid_shape(r@, regions_along(w as int), regions_along(h as int)),
        r@ == region_costs(w as int, h as int, outs@),
{
    let qx: usize = count_regions(w);
    let qy: usize = count_regions(h);
    let mut grid: CostMap<A> = CostMap::new(qx, qy);
    let ghost start = grid@;
    let mut i: usize = 0;
    while i < outs.len()
        invariant
            i <= outs@.len(),
            qx == regions_along(w as int),
            qy == regions_along(h as int),
            forall|k: int|
                0 <= k < outs@.len() ==> regions_inside(
                    (#[trigger] outs@[k]).chosen32@,
                    w as int,
                    h as int,
                ),
            grid_shape(grid@, qx as int, qy as int),
            grid@ == with_bands(start, outs@, i as int),
        decreases outs@.len() - i,
    {
        let list: &Vec<Chosen32Cost<A>> = &outs[i].chosen32;
        let ghost before = grid@;
        let mut j: usize = 0;
        assert(regions_inside(outs@[i as int].chosen32@, w as int, h as int));
        while j < list.len()
            invariant
                j <= list@.len(),
                qx == regions_along(w as int),
                qy == regions_along(h as int),
                regions_inside(list@, w as int, h as int),
                grid_shape(grid@, qx as int, qy as int),
                grid@ == with_regions(before, list@, j as int),
            decreases list@.len() - j,
        {
            let c: Chosen32Cost<A> = list[j];
            assert(list@[j as int].bx < w);
            assert(grid@[c.by as int / 4].len() == qx);
            grid.set(c.bx / 4, c.by / 4, Some(c.cost));
            j += 1;
            proof {
                let m = with_regions(before, list@, j - 1);
                assert forall|y: int| 0 <= y < qy implies (#[trigger] grid@[y]).len() == qx by {
                    assert(m[y].len() == qx);
                }
            }
        }
        i += 1;
    }
    grid
}

/// The four regions under the 8x8 window at `(8k, 8j)` have finite costs.
pub open spec fn quads_known<A: Amount>(grid: Costs<A>, k: int, j: int) -> bool {
    &&& grid[2 * j][2 * k] matches Some(c) && c.finite_spec()
    &&& grid[2 * j][2 * k + 1] matches Some(c) && c.finite_spec()
    &&& grid[2 * j + 1][2 * k] matches Some(c) && c.finite_spec()
    &&& grid[2 * j + 1][2 * k + 1] matches Some(c) && c.finite_spec()
}

/// The windows among the leading `n` of row `j` that are decided on.
pub open spec fn row_sites64<A: Amount>(grid: Costs<A>, j: int, n: int) -> Seq<(usize, usize)>
    decreases n,
{
    if n <= 0 {
        Seq::empty()
    } else if quads_known(grid, n - 1, j) {
        row_sites64(grid, j, n - 1).push(((8 * (n - 1)) as usize, (8 * j) as usize))
    } else {
        row_sites64(grid, j, n - 1)
    }
}

/// The windows of the leading `rows` rows that are decided on.
pub open spec fn sites64<A: Amount>(grid: Costs<A>, w: int, rows: int) -> Seq<(usize, usize)>
    decreases rows,
{
    if rows <= 0 {
        Seq::empty()
    } else {
        sites64(grid, w, rows - 1) + row_sites64(grid, rows - 1, w / 8)
    }
}

fn quad_is_known<A: Amount>(grid: &CostMap<A>, x: usize, y: usize) -> (r: bool)
    requires
        y < grid@.len(),
        x < grid@[y as int].len(),
    ensures
        r == (grid@[y as int][x as int] matches Some(c) && c.finite_spec()),
{
    match grid.get(x, y) {
        Some(c) => c.finite(),
        None => false,
    }
}

/// Lists the aligned 8x8 windows of a `w x h` group that 64-pixel transforms may
/// take: those inside the group whose four 4x4 regions were decided on.
pub fn list_sites64<A: Amount>(w: usize, h: usize, grid: &CostMap<A>) -> (r: Vec<(usize, usize)>)
    requires
        grid_shape(grid@, regions_along(w as int), regions_along(h as int)),
    ensures
        r@ == sites64(grid@, w as int, h as int / 8),
{
    let mut out: Vec<(usize, usize)> = Vec::new();
    let mut j: usize = 0;
    while j < h / 8
        invariant
            j <= h / 8,
            grid_shape(grid@, regions_along(w as int), regions_along(h as int)),
            out@ == sites64(grid@, w as int, j as int),
        decreases h / 8 - j,
    {
        let ghost before = out@;
        let mut k: usize = 0;
        while k < w / 8
            invariant
                k <= w / 8,
                j < h / 8,
                grid_shape(grid@, regions_along(w as int), regions_along(h as int)),
                out@ == before + row_sites64(grid@, j as int, k as int),
            decreases w / 8 - k,
        {
            let ghost prev = out@;
            assert(grid@[2 * j].len() == regions_along(w as int));
            assert(grid@[2 * j + 1].len() == regions_along(w as int));
            if quad_is_known(grid, 2 * k, 2 * j) && quad_is_known(grid, 2 * k + 1, 2 * j)
                && quad_is_known(grid, 2 * k, 2 * j + 1) && quad_is_known(
                grid,
                2 * k + 1,
                2 * j + 1,
            ) {
                out.push((8 * k, 8 * j));
            }
            k += 1;
            assert(out@ =~= before + row_sites64(grid@, j as int, k as int));
        }
        j += 1;
    }
    out
}

/// Coefficient costs of the 64-pixel transforms over an 8x8 window.
#[derive(Clone, Copy)]
pub struct Costs64<A> {
    pub square: A,
    /// The left and the right 64x32 transform.
    pub tall: [A; 2],
    /// The top and the bottom 32x64 transform.
    pub wide: [A; 2],
}

/// What is put down on an 8x8 window.
#[derive(Clone, Copy, Debug, PartialEq, Eq, Structural)]
pub enum Choice64 {
    Keep,
    Square,
    /// The left and the right half, each if its flag is set.
    Tall(bool, bool),
    /// The top and the bottom half, each if its flag is set.
    Wide(bool, bool),
}

/// Costs of the regions under a window: left, right, top, bottom half.
pub open spec fn half_totals<A: Amount>(q: [[A; 2]; 2]) -> Seq<A> {
    seq![
        q@[0]@[0].plus_spec(q@[1]@[0]),
        q@[0]@[1].plus_spec(q@[1]@[1]),
        q@[0]@[0].plus_spec(q@[0]@[1]),
        q@[1]@[0].plus_spec(q@[1]@[1]),
    ]
}

/// Cost of all four regions under a window.
pub open spec fn quad_total<A: Amount>(q: [[A; 2]; 2]) -> A {
    A::zero_spec().plus_spec(q@[0]@[0]).plus_spec(q@[0]@[1]).plus_spec(q@[1]@[0]).plus_spec(
        q@[1]@[1],
    )
}

/// Decision cost of half `k`, in the order of `half_totals`.
pub open spec fn half_cost<A: Amount>(c: Costs64<A>, k: int) -> A {
    knob_spec::<A>(BIAS_64_RECT).times_spec(
        if k < 2 {
            c.tall@[k]
        } else {
            c.wide@[k - 2]
        },
    )
}

/// Half `k` beats the regions under it.
pub open spec fn half_wins<A: Amount>(
    q: [[A; 2]; 2],
    c: Costs64<A>,
    t: MergeTuning<A>,
    k: int,
) -> bool {
    beats(half_cost(c, k), half_totals(q)[k], t.accept_64_rect)
}

/// What half `k` contributes to the score of its arm: its cost without the
/// acceptance margin where it wins, and what lies under it otherwise.
pub open spec fn half_score<A: Amount>(
    q: [[A; 2]; 2],
    c: Costs64<A>,
    t: MergeTuning<A>,
    k: int,
) -> A {
    pick(
        half_wins(q, c, t, k),
        half_cost(c, k).over_spec(t.accept_64_rect),
        half_totals(q)[k],
    )
}

/// The decision on an 8x8 window: the square, the tall arm or the wide arm, where
/// it beats what is there, the square before the tall arm and that before the wide
/// one on a tie.
pub open spec fn choice64<A: Amount>(
    q: [[A; 2]; 2],
    c: Costs64<A>,
    t: MergeTuning<A>,
) -> Choice64 {
    let base = quad_total(q);
    let tall = half_score(q, c, t, 0).plus_spec(half_score(q, c, t, 1));
    let wide = half_score(q, c, t, 2).plus_spec(half_score(q, c, t, 3));
    let square = knob_spec::<A>(BIAS_64X64).times_spec(c.square).over_spec(t.accept_64);
    if square.less_spec(base) && square.at_most_spec(tall) && square.at_most_spec(wide) {
        Choice64::Square
    } else if tall.less_spec(base) && tall.at_most_spec(wide) {
        Choice64::Tall(half_wins(q, c, t, 0), half_wins(q, c, t, 1))
    } else if wide.less_spec(base) {
        Choice64::Wide(half_wins(q, c, t, 2), half_wins(q, c, t, 3))
    } else {
        Choice64::Keep
    }
}

/// Decides which 64-pixel transforms take an 8x8 window. `q` holds the costs of
/// the layouts chosen for its 4x4 regions, `[row][column]`.
pub fn choose_64<A: Amount>(q: [[A; 2]; 2], c: &Costs64<A>, t: &MergeTuning<A>) -> (r: Choice64)
    ensures
        r == choice64(q, *c, *t),
{
    let accept: A = t.accept_64_rect;
    let bias: A = knob(BIAS_64_RECT);
    let costs: [A; 4] = [
        bias.times(c.tall[0]),
        bias.times(c.tall[1]),
        bias.times(c.wide[0]),
        bias.times(c.wide[1]),
    ];
    let totals: [A; 4] = [
        q[0][0].plus(q[1][0]),
        q[0][1].plus(q[1][1]),
        q[0][0].plus(q[0][1]),
        q[1][0].plus(q[1][1]),
    ];
    let uses: [bool; 4] = [
        merge_beats_dct8(costs[0], totals[0], accept),
        merge_beats_dct8(costs[1], totals[1], accept),
        merge_beats_dct8(costs[2], totals[2], accept),
        merge_beats_dct8(costs[3], totals[3], accept),
    ];
    let s0: A = if uses[0] {
        costs[0].over(accept)
    } else {
        totals[0]
    };
    let s1: A = if uses[1] {
        costs[1].over(accept)
    } else {
        totals[1]
    };
    let s2: A = if uses[2] {
        costs[2].over(accept)
    } else {
        totals[2]
    };
    let s3: A = if uses[3] {
        costs[3].over(accept)
    } else {
        totals[3]
    };
    let base: A = A::zero().plus(q[0][0]).plus(q[0][1]).plus(q[1][0]).plus(q[1][1]);
    let tall: A = s0.plus(s1);
    let wide: A = s2.plus(s3);
    let square: A = knob::<A>(BIAS_64X64).times(c.square).over(t.accept_64);
    if square.less(base) && square.at_most(tall) && square.at_most(wide) {
        Choice64::Square
    } else if tall.less(base) && tall.at_most(wide) {
        Choice64::Tall(uses[0], uses[1])
    } else if wide.less(base) {
        Choice64::Wide(uses[2], uses[3])
    } else {
        Choice64::Keep
    }
}

/// One placement, where `take`.
pub open spec fn placed(take: bool, x: int, y: int, strategy: u8) -> Seq<Placement> {
    if take {
        seq![Placement { x: x as usize, y: y as usize, strategy }]
    } else {
        Seq::empty()
    }
}

/// What a decision puts down on the window at `(bx, by)`.
pub open spec fn placements64(choice: Choice64, bx: int, by: int) -> Seq<Placement> {
    match choice {
        Choice64::Keep => Seq::empty(),
        Choice64::Square => placed(true, bx, by, STRATEGY_DCT64X64),
        Choice64::Tall(a, b) => placed(a, bx, by, STRATEGY_DCT64X32) + placed(
            b,
            bx + 4,
            by,
            STRATEGY_DCT64X32,
        ),
        Choice64::Wide(a, b) => placed(a, bx, by, STRATEGY_DCT32X64) + placed(
            b,
            bx,
            by + 4,
            STRATEGY_DCT32X64,
        ),
    }
}

/// The costs of the regions under the window at `(bx, by)`.
pub open spec fn quads_at<A>(grid: Costs<A>, bx: int, by: int) -> [[A; 2]; 2] {
    [
        [grid[by / 4][bx / 4]->0, grid[by / 4][bx / 4 + 1]->0],
        [grid[by / 4 + 1][bx / 4]->0, grid[by / 4 + 1][bx / 4 + 1]->0],
    ]
}

/// The layout after the decisions on the leading `n` windows.
pub open spec fn after64<A: Amount>(
    v: Layout,
    sites: Seq<(usize, usize)>,
    grid: Costs<A>,
    t: MergeTuning<A>,
    scores: Seq<Costs64<A>>,
    n: int,
) -> Layout
    decreases n,
{
    if n <= 0 {
        v
    } else {
        let bx = sites[n - 1].0 as int;
        let by = sites[n - 1].1 as int;
        place_all(
            after64(v, sites, grid, t, scores, n - 1),
            placements64(choice64(quads_at(grid, bx, by), scores[n - 1], t), bx, by),
        )
    }
}

proof fn lemma_row_sites64<A: Amount>(grid: Costs<A>, j: int, n: int, w: int, h: int)
    requires
        0 <= n <= w / 8,
        0 <= j < h / 8,
        w <= usize::MAX,
        h <= usize::MAX,
    ensures
        forall|i: int|
            0 <= i < row_sites64(grid, j, n).len() ==> ({
                let s = #[trigger] row_sites64(grid, j, n)[i];
                &&& s.0 < 8 * n
                &&& s.0 % 8 == 0
                &&& s.1 == 8 * j
                &&& quads_known(grid, s.0 as int / 8, s.1 as int / 8)
            }),
        forall|i: int, k: int|
            0 <= i < k < row_sites64(grid, j, n).len() ==> (#[trigger] row_sites64(
                grid,
                j,
                n,
            )[i]).0 < (#[trigger] row_sites64(grid, j, n)[k]).0,
    decreases n,
{
    if n > 0 {
        lemma_row_sites64(grid, j, n - 1, w, h);
        let head = row_sites64(grid, j, n - 1);
        let all = row_sites64(grid, j, n);
        assert forall|i: int| 0 <= i < all.len() implies ({
            let s = #[trigger] all[i];
            &&& s.0 < 8 * n
            &&& s.0 % 8 == 0
            &&& s.1 == 8 * j
            &&& quads_known(grid, s.0 as int / 8, s.1 as int / 8)
        }) by {
            if i < head.len() {
                assert(all[i] == head[i]);
            }
        }
        assert forall|i: int, k: int| 0 <= i < k < all.len() implies (#[trigger] all[i]).0 < (
        #[trigger] all[k]).0 by {
            assert(all[i] == head[i]);
            if k < head.len() {
                assert(all[k] == head[k]);
            }
        }
    }
}

/// The windows lie inside the group, on multiples of eight, in reading order, and
/// the costs of their regions are known.
pub proof fn law_windows_are_aligned_and_apart<A: Amount>(
    grid: Costs<A>,
    w: int,
    h: int,
    rows: int,
)
    requires
        0 <= w <= usize::MAX,
        0 <= h <= usize::MAX,
        0 <= rows <= h / 8,
    ensures
        forall|i: int|
            0 <= i < sites64(grid, w, rows).len() ==> ({
                let s = #[trigger] sites64(grid, w, rows)[i];
                &&& s.0 % 8 == 0
                &&& s.1 % 8 == 0
                &&& s.0 + 8 <= w
                &&& s.1 + 8 <= 8 * rows
                &&& quads_known(grid, s.0 as int / 8, s.1 as int / 8)
            }),
        forall|i: int, k: int|
            0 <= i < k < sites64(grid, w, rows).len() ==> ({
                let a = #[trigger] sites64(grid, w, rows)[i];
                let b = #[trigger] sites64(grid, w, rows)[k];
                a.1 < b.1 || a.1 == b.1 && a.0 < b.0
            }),
    decreases rows,
{
    if rows > 0 {
        law_windows_are_aligned_and_apart(grid, w, h, rows - 1);
        lemma_row_sites64(grid, rows - 1, w / 8, w, h);
        let head = sites64(grid, w, rows - 1);
        let row = row_sites64(grid, rows - 1, w / 8);
        let all = sites64(grid, w, rows);
        assert forall|i: int| 0 <= i < all.len() implies ({
            let s = #[trigger] all[i];
            &&& s.0 % 8 == 0
            &&& s.1 % 8 == 0
            &&& s.0 + 8 <= w
            &&& s.1 + 8 <= 8 * rows
            &&& quads_known(grid, s.0 as int / 8, s.1 as int / 8)
        }) by {
            if i < head.len() {
                assert(all[i] == head[i]);
            } else {
                assert(all[i] == row[i - head.len()]);
            }
        }
        assert forall|i: int, k: int| 0 <= i < k < all.len() implies ({
            let a = #[trigger] all[i];
            let b = #[trigger] all[k];
            a.1 < b.1 || a.1 == b.1 && a.0 < b.0
        }) by {
            if i < head.len() {
                assert(all[i] == head[i]);
            } else {
                assert(all[i] == row[i - head.len()]);
            }
            if k < head.len() {
                assert(all[k] == head[k]);
            } else {
                assert(all[k] == row[k - head.len()]);
            }
        }
    }
}

fn put_down(map: &mut AcStrategyImage, take: bool, x: usize, y: usize, strategy: u8)
    requires
        old(map).wf(),
        old(map).fits(x as int, y as int, strategy),
    ensures
        final(map).wf(),
        final(map).width() == old(map).width(),
        final(map).height() == old(map).height(),
        final(map)@ == place_all(old(map)@, placed(take, x as int, y as int, strategy)),
{
    let ghost v = map@;
    proof {
        reveal_with_fuel(place_all, 2);
        let ps = placed(take, x as int, y as int, strategy);
        assert(take ==> ps.drop_last() =~= Seq::empty());
    }
    if take {
        map.set_first(x, y, strategy);
    }
}

proof fn lemma_place_two(v: Layout, a: Seq<Placement>, b: Seq<Placement>)
    ensures
        place_all(v, a + b) == place_all(place_all(v, a), b),
    decreases b.len(),
{
    if b.len() == 0 {
        assert(a + b =~= a);
    } else {
        lemma_place_two(v, a, b.drop_last());
        assert((a + b).drop_last() =~= a + b.drop_last());
    }
}

/// Lets the 64-pixel transforms take the windows that they win. `scores` holds
/// their costs on each window, in the order of `list_sites64`.
pub fn merge_64<A: Amount>(
    map: &mut AcStrategyImage,
    grid: &CostMap<A>,
    t: &MergeTuning<A>,
    scores: &Vec<Costs64<A>>,
)
    requires
        old(map).wf(),
        grid_shape(
            grid@,
            regions_along(old(map).width() as int),
            regions_along(old(map).height() as int),
        ),
        scores@.len() == sites64(
            grid@,
            old(map).width() as int,
            old(map).height() as int / 8,
        ).len(),
    ensures
        final(map).wf(),
        final(map).width() == old(map).width(),
        final(map).height() == old(map).height(),
        final(map)@ == after64(
            old(map)@,
            sites64(grid@, old(map).width() as int, old(map).height() as int / 8),
            grid@,
            *t,
            scores@,
            scores@.len() as int,
        ),
{
    let ghost v = map@;
    let ghost w = map.width() as int;
    let ghost h = map.height() as int;
    let sites: Vec<(usize, usize)> = list_sites64(map.xsize(), map.ysize(), grid);
    proof {
        law_windows_are_aligned_and_apart(grid@, w, h, h / 8);
    }
    let mut i: usize = 0;
    while i < sites.len()
        invariant
            i <= sites@.len(),
            sites@ == sites64(grid@, w, h / 8),
            scores@.len() == sites@.len(),
            grid_shape(grid@, regions_along(w), regions_along(h)),
            map.wf(),
            map.width() == w,
            map.height() == h,
            w == old(map).width(),
            h == old(map).height(),
            forall|k: int|
                0 <= k < sites@.len() ==> ({
                    let s = #[trigger] sites@[k];
                    &&& s.0 % 8 == 0
                    &&& s.1 % 8 == 0
                    &&& s.0 + 8 <= w
                    &&& s.1 + 8 <= h
                    &&& quads_known(grid@, s.0 as int / 8, s.1 as int / 8)
                }),
            map@ == after64(v, sites@, grid@, *t, scores@, i as int),
        decreases sites@.len() - i,
    {
        let (bx, by): (usize, usize) = sites[i];
        assert(sites@[i as int].0 % 8 == 0);
        let (qx, qy): (usize, usize) = (bx / 4, by / 4);
        assert(quads_known(grid@, bx as int / 8, by as int / 8));
        assert(2 * (bx as int / 8) == qx && 2 * (by as int / 8) == qy);
        assert(grid@[qy as int].len() == regions_along(w));
        assert(grid@[qy + 1].len() == regions_along(w));
        let ghost before = map@;
        if let (Some(a), Some(b), Some(c), Some(d)) = (
            grid.get(qx, qy),
            grid.get(qx + 1, qy),
            grid.get(qx, qy + 1),
            grid.get(qx + 1, qy + 1),
        ) {
            let q: [[A; 2]; 2] = [[a, b], [c, d]];
            assert(choice64(q, scores@[i as int], *t) == choice64(
                quads_at(grid@, bx as int, by as int),
                scores@[i as int],
                *t,
            ));
            let choice: Choice64 = choose_64(q, &scores[i], t);
            match choice {
                Choice64::Keep => {},
                Choice64::Square => {
                    put_down(map, true, bx, by, STRATEGY_DCT64X64);
                },
                Choice64::Tall(left, right) => {
                    put_down(map, left, bx, by, STRATEGY_DCT64X32);
                    put_down(map, right, bx + 4, by, STRATEGY_DCT64X32);
                    proof {
                        lemma_place_two(
                            before,
                            placed(left, bx as int, by as int, STRATEGY_DCT64X32),
                            placed(right, bx + 4, by as int, STRATEGY_DCT64X32),
                        );
                    }
                },
                Choice64::Wide(top, bottom) => {
                    put_down(map, top, bx, by, STRATEGY_DCT32X64);
                    put_down(map, bottom, bx, by + 4, STRATEGY_DCT32X64);
                    proof {
                        lemma_place_two(
                            before,
                            placed(top, bx as int, by as int, STRATEGY_DCT32X64),
                            placed(bottom, bx as int, by + 4, STRATEGY_DCT32X64),
                        );
                    }
                },
            }
            assert(map@ == place_all(before, placements64(choice, bx as int, by as int)));
        }
        i += 1;
    }
}

} // verus!
