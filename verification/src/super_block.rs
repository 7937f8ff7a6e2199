//! Decisions on one 2x2 super-block.

use crate::amount::Amount;
use crate::scope::SelectorPolicy;
use crate::strategy::{
    NO_CHILD_BLOCK, STRATEGY_DCT, STRATEGY_DCT16X16, STRATEGY_DCT16X32, STRATEGY_DCT16X8,
    STRATEGY_DCT32X16, STRATEGY_DCT32X32, STRATEGY_DCT8X16,
};
use crate::strategy_map::{fits_in, AcStrategyImage, Layout, Placement};
use crate::tiling::place_all;
use vstd::prelude::*;

verus! {

/// Factors of the merge decisions, resolved at the encode's distance.
#[derive(Clone, Copy)]
pub struct MergeTuning<A> {
    /// Factors on the cost of each transform size.
    pub bias_rect: A,
    pub bias_16x16: A,
    pub bias_32x32: A,
    pub bias_rect32: A,
    /// Fraction of the tiled cost that a merge must come in under.
    pub accept_pair: A,
    pub accept_16: A,
    pub accept_32_rect: A,
    pub accept_32: A,
    /// Fraction of a merge's reconstruction cost that a subdivision must come in
    /// under to replace it.
    pub rerank_margin: A,
    /// How strongly heterogeneous regions are held back.
    pub risk_k: A,
    /// Acceptance factors of the 64-pixel family.
    pub accept_64: A,
    pub accept_64_rect: A,
}

/// What the cost model says of one super-block. Cell `[dy][dx]` of the leaves is
/// the block at offset `(dx, dy)`.
#[derive(Clone, Copy)]
pub struct SuperBlockCosts<A> {
    /// Decision costs of the four blocks as they are.
    pub leaf: [[A; 2]; 2],
    /// The same without family biases.
    pub leaf_raw: [[A; 2]; 2],
    /// The left and the right 16x8 transform.
    pub tall: [A; 2],
    /// The top and the bottom 8x16 transform.
    pub wide: [A; 2],
    /// The 16x16 transform.
    pub square: A,
    /// Acceptance factor of the 16x16 transform on this super-block.
    pub accept_16: A,
}

/// What was decided on a super-block.
#[derive(Clone, Copy)]
pub struct SuperChoice<A> {
    /// The 16x16 transform wins.
    pub square: bool,
    /// The vertical pairs are the better rectangular arm.
    pub vertical: bool,
    pub use_left: bool,
    pub use_right: bool,
    pub use_top: bool,
    pub use_bottom: bool,
    /// Cost handed to the next level.
    pub cost: A,
    /// Cost of the better rectangular arm.
    pub best_rect: A,
}

/// The candidate beats the tiled cost by the acceptance margin.
pub open spec fn beats<A: Amount>(candidate: A, tiled: A, accept: A) -> bool {
    candidate.less_spec(tiled.times_spec(accept))
}

/// Whether the candidate beats the tiled cost by the acceptance margin.
pub fn merge_beats_dct8<A: Amount>(candidate_cost: A, dct8_cost: A, accept: A) -> (r: bool)
    ensures
        r == beats(candidate_cost, dct8_cost, accept),
{
    candidate_cost.less(dct8_cost.times(accept))
}

/// `if take { yes } else { no }`.
pub open spec fn pick<A>(take: bool, yes: A, no: A) -> A {
    if take {
        yes
    } else {
        no
    }
}

/// Costs of the leaves under the square and the four halves.
pub open spec fn leaf_totals<A: Amount>(l: [[A; 2]; 2]) -> Seq<A> {
    let left = l@[0]@[0].plus_spec(l@[1]@[0]);
    let right = l@[0]@[1].plus_spec(l@[1]@[1]);
    seq![
        left.plus_spec(right),
        left,
        right,
        l@[0]@[0].plus_spec(l@[0]@[1]),
        l@[1]@[0].plus_spec(l@[1]@[1]),
    ]
}

/// Costs of the square and the halves without biases; halves are out of the
/// question where rectangles are.
pub open spec fn raw_costs<A: Amount>(rectangles: bool, c: SuperBlockCosts<A>) -> Seq<A> {
    seq![
        c.square,
        pick(rectangles, c.tall@[0], A::infinite_spec()),
        pick(rectangles, c.tall@[1], A::infinite_spec()),
        pick(rectangles, c.wide@[0], A::infinite_spec()),
        pick(rectangles, c.wide@[1], A::infinite_spec()),
    ]
}

/// Decision cost of half `k`.
pub open spec fn half_cost<A: Amount>(
    rectangles: bool,
    t: MergeTuning<A>,
    c: SuperBlockCosts<A>,
    k: int,
) -> A {
    pick(rectangles, t.bias_rect.times_spec(raw_costs(true, c)[k]), A::infinite_spec())
}

/// Half `k` fits the group and beats the leaves it replaces.
pub open spec fn half_wins<A: Amount>(
    fits: bool,
    rectangles: bool,
    t: MergeTuning<A>,
    c: SuperBlockCosts<A>,
    k: int,
) -> bool {
    fits && beats(half_cost(rectangles, t, c, k), leaf_totals(c.leaf)[k], t.accept_pair)
}

/// Cost of an arm of two halves, each merged or left alone.
pub open spec fn arm_cost<A: Amount>(use_a: bool, a: A, leaf_a: A, use_b: bool, b: A, leaf_b: A) -> A {
    pick(use_a, a, leaf_a).plus_spec(pick(use_b, b, leaf_b))
}

/// The decision on the super-block at `(bx, by)`.
///
/// Each pair must beat the two leaves it replaces by the pair margin; the better
/// of the two rectangular arms is kept unless the 16x16 transform beats it
/// outright and the leaves by its own margin.
pub open spec fn super_choice<A: Amount>(
    w: int,
    h: int,
    bx: int,
    by: int,
    rectangles: bool,
    raw_propagation: bool,
    t: MergeTuning<A>,
    c: SuperBlockCosts<A>,
) -> SuperChoice<A> {
    let leaf = leaf_totals(c.leaf);
    let leaf_raw = leaf_totals(c.leaf_raw);
    let raw = raw_costs(rectangles, c);
    let use_left = half_wins(fits_in(w, h, bx, by, STRATEGY_DCT16X8), rectangles, t, c, 1);
    let use_right = half_wins(fits_in(w, h, bx + 1, by, STRATEGY_DCT16X8), rectangles, t, c, 2);
    let use_top = half_wins(fits_in(w, h, bx, by, STRATEGY_DCT8X16), rectangles, t, c, 3);
    let use_bottom = half_wins(fits_in(w, h, bx, by + 1, STRATEGY_DCT8X16), rectangles, t, c, 4);
    let tall = arm_cost(
        use_left,
        half_cost(rectangles, t, c, 1),
        leaf[1],
        use_right,
        half_cost(rectangles, t, c, 2),
        leaf[2],
    );
    let wide = arm_cost(
        use_top,
        half_cost(rectangles, t, c, 3),
        leaf[3],
        use_bottom,
        half_cost(rectangles, t, c, 4),
        leaf[4],
    );
    let tall_raw = arm_cost(use_left, raw[1], leaf_raw[1], use_right, raw[2], leaf_raw[2]);
    let wide_raw = arm_cost(use_top, raw[3], leaf_raw[3], use_bottom, raw[4], leaf_raw[4]);
    let square_cost = t.bias_16x16.times_spec(c.square);
    let best_rect = tall.lesser_spec(wide);
    let vertical = tall.at_most_spec(wide);
    let square = fits_in(w, h, bx, by, STRATEGY_DCT16X16) && square_cost.less_spec(best_rect) && beats(
        square_cost,
        leaf[0],
        c.accept_16,
    );
    SuperChoice {
        square,
        vertical,
        use_left,
        use_right,
        use_top,
        use_bottom,
        cost: if square {
            pick(raw_propagation, c.square, square_cost)
        } else if vertical {
            pick(raw_propagation, tall_raw, tall)
        } else {
            pick(raw_propagation, wide_raw, wide)
        },
        best_rect,
    }
}

pub(crate) fn sums<A: Amount>(l: [[A; 2]; 2]) -> (r: [A; 5])
    ensures
        r@ == leaf_totals(l),
{
    let left: A = l[0][0].plus(l[1][0]);
    let right: A = l[0][1].plus(l[1][1]);
    let r: [A; 5] = [
        left.plus(right),
        left,
        right,
        l[0][0].plus(l[0][1]),
        l[1][0].plus(l[1][1]),
    ];
    assert(r@ =~= leaf_totals(l));
    r
}

fn arm<A: Amount>(use_a: bool, a: A, leaf_a: A, use_b: bool, b: A, leaf_b: A) -> (r: A)
    ensures
        r == arm_cost(use_a, a, leaf_a, use_b, b, leaf_b),
{
    let first: A = if use_a {
        a
    } else {
        leaf_a
    };
    let second: A = if use_b {
        b
    } else {
        leaf_b
    };
    first.plus(second)
}

pub(crate) fn raw_array<A: Amount>(rectangles: bool, c: &SuperBlockCosts<A>) -> (r: [A; 5])
    ensures
        r@ == raw_costs(rectangles, *c),
{
    let r: [A; 5] = if rectangles {
        [c.square, c.tall[0], c.tall[1], c.wide[0], c.wide[1]]
    } else {
        let inf: A = A::infinite();
        [c.square, inf, inf, inf, inf]
    };
    assert(r@ =~= raw_costs(rectangles, *c));
    r
}

fn biased_half<A: Amount>(
    rectangles: bool,
    t: &MergeTuning<A>,
    c: &SuperBlockCosts<A>,
    k: usize,
) -> (r: A)
    requires
        1 <= k < 5,
    ensures
        r == half_cost(rectangles, *t, *c, k as int),
{
    if rectangles {
        let raw: [A; 5] = raw_array(true, c);
        t.bias_rect.times(raw[k])
    } else {
        A::infinite()
    }
}

/// Decides on the super-block at `(bx, by)` without touching the map.
pub fn decide_super_block<A: Amount>(
    map: &AcStrategyImage,
    bx: usize,
    by: usize,
    rectangles: bool,
    raw_propagation: bool,
    t: &MergeTuning<A>,
    c: &SuperBlockCosts<A>,
) -> (r: SuperChoice<A>)
    requires
        bx < usize::MAX,
        by < usize::MAX,
    ensures
        r == super_choice(
            map.width() as int,
            map.height() as int,
            bx as int,
            by as int,
            rectangles,
            raw_propagation,
            *t,
            *c,
        ),
{
    let leaf: [A; 5] = sums(c.leaf);
    let leaf_raw: [A; 5] = sums(c.leaf_raw);
    let raw: [A; 5] = raw_array(rectangles, c);
    let v_left: A = biased_half(rectangles, t, c, 1);
    let v_right: A = biased_half(rectangles, t, c, 2);
    let h_top: A = biased_half(rectangles, t, c, 3);
    let h_bottom: A = biased_half(rectangles, t, c, 4);
    let use_left: bool = map.can_place_strategy(bx, by, STRATEGY_DCT16X8) && merge_beats_dct8(
        v_left,
        leaf[1],
        t.accept_pair,
    );
    let use_right: bool = map.can_place_strategy(bx + 1, by, STRATEGY_DCT16X8) && merge_beats_dct8(
        v_right,
        leaf[2],
        t.accept_pair,
    );
    let use_top: bool = map.can_place_strategy(bx, by, STRATEGY_DCT8X16) && merge_beats_dct8(
        h_top,
        leaf[3],
        t.accept_pair,
    );
    let use_bottom: bool = map.can_place_strategy(bx, by + 1, STRATEGY_DCT8X16) && merge_beats_dct8(
        h_bottom,
        leaf[4],
        t.accept_pair,
    );
    let tall: A = arm(use_left, v_left, leaf[1], use_right, v_right, leaf[2]);
    let wide: A = arm(use_top, h_top, leaf[3], use_bottom, h_bottom, leaf[4]);
    let tall_raw: A = arm(use_left, raw[1], leaf_raw[1], use_right, raw[2], leaf_raw[2]);
    let wide_raw: A = arm(use_top, raw[3], leaf_raw[3], use_bottom, raw[4], leaf_raw[4]);
    let vertical: bool = tall.at_most(wide);
    let square_cost: A = t.bias_16x16.times(c.square);
    let best_rect: A = tall.lesser(wide);
    let square: bool = map.can_place_strategy(bx, by, STRATEGY_DCT16X16) && square_cost.less(
        best_rect,
    ) && merge_beats_dct8(square_cost, leaf[0], c.accept_16);
    let cost: A = if square {
        if raw_propagation {
            c.square
        } else {
            square_cost
        }
    } else if vertical {
        if raw_propagation {
            tall_raw
        } else {
            tall
        }
    } else {
        if raw_propagation {
            wide_raw
        } else {
            wide
        }
    };
    SuperChoice {
        square,
        vertical,
        use_left,
        use_right,
        use_top,
        use_bottom,
        cost,
        best_rect,
    }
}

/// The rectangular arm as strategies at the offsets `dy * 2 + dx`; blocks that a
/// preceding first block covers are marked.
pub open spec fn arm_spec<A>(r: SuperChoice<A>, leaves: Seq<u8>) -> Seq<u8> {
    if r.vertical {
        seq![
            pick(r.use_left, STRATEGY_DCT16X8, leaves[0]),
            pick(r.use_right, STRATEGY_DCT16X8, leaves[1]),
            pick(r.use_left, NO_CHILD_BLOCK, leaves[2]),
            pick(r.use_right, NO_CHILD_BLOCK, leaves[3]),
        ]
    } else {
        seq![
            pick(r.use_top, STRATEGY_DCT8X16, leaves[0]),
            pick(r.use_top, NO_CHILD_BLOCK, leaves[1]),
            pick(r.use_bottom, STRATEGY_DCT8X16, leaves[2]),
            pick(r.use_bottom, NO_CHILD_BLOCK, leaves[3]),
        ]
    }
}

pub(crate) fn arm_grid<A: Amount>(r: &SuperChoice<A>, leaves: [u8; 4]) -> (g: [u8; 4])
    ensures
        g@ == arm_spec(*r, leaves@),
{
    let (use_a, use_b): (bool, bool) = if r.vertical {
        (r.use_left, r.use_right)
    } else {
        (r.use_top, r.use_bottom)
    };
    let mut g: [u8; 4] = leaves;
    if r.vertical {
        if use_a {
            g[0] = STRATEGY_DCT16X8;
            g[2] = NO_CHILD_BLOCK;
        }
        if use_b {
            g[1] = STRATEGY_DCT16X8;
            g[3] = NO_CHILD_BLOCK;
        }
    } else {
        if use_a {
            g[0] = STRATEGY_DCT8X16;
            g[1] = NO_CHILD_BLOCK;
        }
        if use_b {
            g[2] = STRATEGY_DCT8X16;
            g[3] = NO_CHILD_BLOCK;
        }
    }
    assert(g@ =~= arm_spec(*r, leaves@));
    g
}

/// Some block of the grid is a first block of another strategy than the 8x8 DCT.
pub open spec fn nontrivial(grid: Seq<u8>) -> bool {
    exists|i: int|
        0 <= i < grid.len() && #[trigger] grid[i] != NO_CHILD_BLOCK && grid[i] != STRATEGY_DCT
}

/// Whether a grid holds more than 8x8 DCT blocks.
pub fn grid_nontrivial(grid: &[u8]) -> (r: bool)
    ensures
        r == nontrivial(grid@),
{
    let mut i: usize = 0;
    while i < grid.len()
        invariant
            i <= grid@.len(),
            forall|j: int|
                0 <= j < i ==> #[trigger] grid@[j] == NO_CHILD_BLOCK || grid@[j] == STRATEGY_DCT,
        decreases grid@.len() - i,
    {
        if grid[i] != NO_CHILD_BLOCK && grid[i] != STRATEGY_DCT {
            return true;
        }
        i += 1;
    }
    false
}

/// A 4x4 grid with the 2x2 grid of super-block `(sx, sy)` written into it.
pub open spec fn expanded(into: Seq<u8>, grid: Seq<u8>, sx: int, sy: int) -> Seq<u8> {
    Seq::new(
        16,
        |i: int|
            if i / 4 / 2 == sy && i % 4 / 2 == sx {
                grid[(i / 4 % 2) * 2 + i % 4 % 2]
            } else {
                into[i]
            },
    )
}

/// Writes the 2x2 grid of super-block `(sx, sy)` into a 4x4 grid.
pub fn expand_2x2(grid: [u8; 4], sx: usize, sy: usize, into: &mut [u8; 16])
    requires
        sx < 2,
        sy < 2,
    ensures
        final(into)@ == expanded(old(into)@, grid@, sx as int, sy as int),
{
    into[(sy * 2) * 4 + sx * 2] = grid[0];
    into[(sy * 2) * 4 + sx * 2 + 1] = grid[1];
    into[(sy * 2 + 1) * 4 + sx * 2] = grid[2];
    into[(sy * 2 + 1) * 4 + sx * 2 + 1] = grid[3];
    assert(into@ =~= expanded(old(into)@, grid@, sx as int, sy as int));
}

/// The `cov_x x cov_y` window of a 4x4 grid at `(ox, oy)`, moved to the origin;
/// the rest is marked as covered.
pub open spec fn sub_grid_spec(grid: Seq<u8>, ox: int, oy: int, cov_x: int, cov_y: int) -> Seq<u8> {
    Seq::new(
        16,
        |i: int|
            if i % 4 < cov_x && i / 4 < cov_y {
                grid[(oy + i / 4) * 4 + ox + i % 4]
            } else {
                NO_CHILD_BLOCK
            },
    )
}

/// The `cov_x x cov_y` window of a 4x4 grid at offset `(ox, oy)`, re-based so
/// that its own origin is index 0.
pub fn sub_grid(grid: &[u8; 16], ox: usize, oy: usize, cov_x: usize, cov_y: usize) -> (r: [u8; 16])
    requires
        ox + cov_x <= 4,
        oy + cov_y <= 4,
    ensures
        r@ == sub_grid_spec(grid@, ox as int, oy as int, cov_x as int, cov_y as int),
{
    let mut out: [u8; 16] = [NO_CHILD_BLOCK; 16];
    let mut iy: usize = 0;
    while iy < cov_y
        invariant
            iy <= cov_y,
            ox + cov_x <= 4,
            oy + cov_y <= 4,
            forall|i: int|
                0 <= i < 16 ==> #[trigger] out@[i] == (if i % 4 < cov_x && i / 4 < iy {
                    grid@[(oy + i / 4) * 4 + ox + i % 4]
                } else {
                    NO_CHILD_BLOCK
                }),
        decreases cov_y - iy,
    {
        let mut ix: usize = 0;
        while ix < cov_x
            invariant
                ix <= cov_x,
                iy < cov_y,
                ox + cov_x <= 4,
                oy + cov_y <= 4,
                forall|i: int|
                    0 <= i < 16 ==> #[trigger] out@[i] == (if i % 4 < cov_x && i / 4 < iy || i / 4
                        == iy && i % 4 < ix {
                        grid@[(oy + i / 4) * 4 + ox + i % 4]
                    } else {
                        NO_CHILD_BLOCK
                    }),
            decreases cov_x - ix,
        {
            out[iy * 4 + ix] = grid[(oy + iy) * 4 + ox + ix];
            ix += 1;
        }
        iy += 1;
    }
    assert(out@ =~= sub_grid_spec(grid@, ox as int, oy as int, cov_x as int, cov_y as int));
    out
}

/// The child layout of a merge, kept so that the merge can be undone: entry
/// `iy * 4 + ix` of the grid is the strategy of the first block at that offset.
#[derive(Clone, Copy, Debug)]
pub struct SavedChild {
    pub bx: usize,
    pub by: usize,
    pub grid: [u8; 16],
}

/// A saved child layout as plain values.
pub struct SavedView {
    pub bx: int,
    pub by: int,
    pub grid: Seq<u8>,
}

impl View for SavedChild {
    type V = SavedView;

    open spec fn view(&self) -> SavedView {
        SavedView { bx: self.bx as int, by: self.by as int, grid: self.grid@ }
    }
}

/// Saved child layouts as plain values.
pub open spec fn saved_views(saved: Seq<SavedChild>) -> Seq<SavedView> {
    saved.map_values(|s: SavedChild| s@)
}

/// The square and the four halves of the super-block at `(bx, by)`.
pub open spec fn merge16_sites_spec(bx: int, by: int) -> Seq<Placement> {
    seq![
        Placement { x: bx as usize, y: by as usize, strategy: STRATEGY_DCT16X16 },
        Placement { x: bx as usize, y: by as usize, strategy: STRATEGY_DCT16X8 },
        Placement { x: (bx + 1) as usize, y: by as usize, strategy: STRATEGY_DCT16X8 },
        Placement { x: bx as usize, y: by as usize, strategy: STRATEGY_DCT8X16 },
        Placement { x: bx as usize, y: (by + 1) as usize, strategy: STRATEGY_DCT8X16 },
    ]
}

/// The square and the four halves of the 4x4 region at `(bx, by)`.
pub open spec fn merge32_sites_spec(bx: int, by: int) -> Seq<Placement> {
    seq![
        Placement { x: bx as usize, y: by as usize, strategy: STRATEGY_DCT32X32 },
        Placement { x: bx as usize, y: by as usize, strategy: STRATEGY_DCT32X16 },
        Placement { x: (bx + 2) as usize, y: by as usize, strategy: STRATEGY_DCT32X16 },
        Placement { x: bx as usize, y: by as usize, strategy: STRATEGY_DCT16X32 },
        Placement { x: bx as usize, y: (by + 2) as usize, strategy: STRATEGY_DCT16X32 },
    ]
}

/// The square and the four halves of the 4x4 region at `(bx, by)`.
pub fn merge32_sites(bx: usize, by: usize) -> (r: [Placement; 5])
    requires
        bx <= usize::MAX - 2,
        by <= usize::MAX - 2,
    ensures
        r@ == merge32_sites_spec(bx as int, by as int),
{
    let r: [Placement; 5] = [
        Placement { x: bx, y: by, strategy: STRATEGY_DCT32X32 },
        Placement { x: bx, y: by, strategy: STRATEGY_DCT32X16 },
        Placement { x: bx + 2, y: by, strategy: STRATEGY_DCT32X16 },
        Placement { x: bx, y: by, strategy: STRATEGY_DCT16X32 },
        Placement { x: bx, y: by + 2, strategy: STRATEGY_DCT16X32 },
    ];
    assert(r@ =~= merge32_sites_spec(bx as int, by as int));
    r
}

/// The merges among the leading `n` that fit the group and undercut the leaves
/// they replace before any bias.
pub open spec fn shortlisted<A: Amount>(
    w: int,
    h: int,
    bx: int,
    by: int,
    raw: Seq<A>,
    incumbent: Seq<A>,
    n: int,
) -> Seq<Placement>
    decreases n,
{
    if n <= 0 {
        Seq::empty()
    } else {
        let head = shortlisted(w, h, bx, by, raw, incumbent, n - 1);
        let p = merge16_sites_spec(bx, by)[n - 1];
        if raw[n - 1].less_spec(incumbent[n - 1]) && fits_in(w, h, p.x as int, p.y as int, p.strategy) {
            head.push(p)
        } else {
            head
        }
    }
}

/// Shortlists every merge of a super-block whose unbiased cost undercuts the
/// leaves, the committed one too: a later downgrade may expose any of them again.
pub fn record_upgrade_candidates<A: Amount>(
    upgrades: &mut Vec<Placement>,
    map: &AcStrategyImage,
    bx: usize,
    by: usize,
    raw: [A; 5],
    incumbent: [A; 5],
)
    requires
        bx < usize::MAX,
        by < usize::MAX,
    ensures
        final(upgrades)@ == old(upgrades)@ + shortlisted(
            map.width() as int,
            map.height() as int,
            bx as int,
            by as int,
            raw@,
            incumbent@,
            5,
        ),
{
    let sites: [Placement; 5] = [
        Placement { x: bx, y: by, strategy: STRATEGY_DCT16X16 },
        Placement { x: bx, y: by, strategy: STRATEGY_DCT16X8 },
        Placement { x: bx + 1, y: by, strategy: STRATEGY_DCT16X8 },
        Placement { x: bx, y: by, strategy: STRATEGY_DCT8X16 },
        Placement { x: bx, y: by + 1, strategy: STRATEGY_DCT8X16 },
    ];
    assert(sites@ =~= merge16_sites_spec(bx as int, by as int));
    let mut k: usize = 0;
    while k < 5
        invariant
            k <= 5,
            sites@ == merge16_sites_spec(bx as int, by as int),
            upgrades@ == old(upgrades)@ + shortlisted(
                map.width() as int,
                map.height() as int,
                bx as int,
                by as int,
                raw@,
                incumbent@,
                k as int,
            ),
        decreases 5 - k,
    {
        let p: Placement = sites[k];
        let ghost head = shortlisted(
            map.width() as int,
            map.height() as int,
            bx as int,
            by as int,
            raw@,
            incumbent@,
            k as int,
        );
        if raw[k].less(incumbent[k]) && map.can_place_strategy(p.x, p.y, p.strategy) {
            upgrades.push(p);
            assert((old(upgrades)@ + head).push(p) =~= old(upgrades)@ + head.push(p));
        }
        k += 1;
    }
}

/// The first blocks of a window of the map, as a child grid.
pub open spec fn captured(v: Layout, bx: int, by: int, cov_x: int, cov_y: int) -> Seq<u8> {
    Seq::new(
        16,
        |i: int|
            if i % 4 < cov_x && i / 4 < cov_y && v[by + i / 4][bx + i % 4].first {
                v[by + i / 4][bx + i % 4].strategy
            } else {
                NO_CHILD_BLOCK
            },
    )
}

/// The block at entry `i` of a window is the first block of another strategy
/// than the 8x8 DCT.
pub open spec fn stands_out(
    v: Layout,
    bx: int,
    by: int,
    cov_x: int,
    cov_y: int,
    i: int,
) -> bool {
    let cell = v[by + i / 4][bx + i % 4];
    i % 4 < cov_x && i / 4 < cov_y && cell.first && cell.strategy != STRATEGY_DCT
}

/// A window holds more than 8x8 DCT blocks.
pub open spec fn window_stands_out(v: Layout, bx: int, by: int, cov_x: int, cov_y: int) -> bool {
    exists|i: int| 0 <= i < 16 && #[trigger] stands_out(v, bx, by, cov_x, cov_y, i)
}

/// An entry for a child layout, if it is to be kept.
pub open spec fn kept(keep: bool, bx: int, by: int, grid: Seq<u8>) -> Seq<SavedView> {
    if keep {
        seq![SavedView { bx, by, grid }]
    } else {
        Seq::empty()
    }
}

pub proof fn lemma_saved_views(before: Seq<SavedChild>, after: Seq<SavedChild>)
    requires
        after == before || (after.len() == before.len() + 1 && after.drop_last() == before),
    ensures
        after == before ==> saved_views(after) == saved_views(before) + Seq::<SavedView>::empty(),
        after != before ==> saved_views(after) == saved_views(before) + seq![after.last()@],
{
    if after == before {
        assert(saved_views(before) + Seq::<SavedView>::empty() =~= saved_views(before));
    } else {
        assert(saved_views(after) =~= saved_views(before) + seq![after.last()@]) by {
            assert forall|i: int| 0 <= i < before.len() implies after[i] == before[i] by {
                assert(after.drop_last()[i] == after[i]);
            }
        }
    }
}

/// Saves the layout of a window before a merge covers it, unless all it holds
/// are 8x8 DCT blocks.
pub fn capture_children(
    map: &AcStrategyImage,
    saved: &mut Vec<SavedChild>,
    bx: usize,
    by: usize,
    cov_x: usize,
    cov_y: usize,
)
    requires
        map.wf(),
        cov_x <= 4,
        cov_y <= 4,
        bx + cov_x <= map.width(),
        by + cov_y <= map.height(),
    ensures
        saved_views(final(saved)@) == saved_views(old(saved)@) + kept(
            window_stands_out(map@, bx as int, by as int, cov_x as int, cov_y as int),
            bx as int,
            by as int,
            captured(map@, bx as int, by as int, cov_x as int, cov_y as int),
        ),
{
    let mut grid: [u8; 16] = [NO_CHILD_BLOCK; 16];
    let mut found: bool = false;
    let mut iy: usize = 0;
    while iy < cov_y
        invariant
            iy <= cov_y <= 4,
            cov_x <= 4,
            map.wf(),
            bx + cov_x <= map.width(),
            by + cov_y <= map.height(),
            found == exists|i: int|
                0 <= i < 4 * iy && #[trigger] stands_out(
                    map@,
                    bx as int,
                    by as int,
                    cov_x as int,
                    cov_y as int,
                    i,
                ),
            forall|i: int|
                0 <= i < 16 ==> #[trigger] grid@[i] == (if i < 4 * iy {
                    captured(map@, bx as int, by as int, cov_x as int, cov_y as int)[i]
                } else {
                    NO_CHILD_BLOCK
                }),
        decreases cov_y - iy,
    {
        let mut ix: usize = 0;
        while ix < cov_x
            invariant
                ix <= cov_x <= 4,
                iy < cov_y <= 4,
                map.wf(),
                bx + cov_x <= map.width(),
                by + cov_y <= map.height(),
                found == exists|i: int|
                    0 <= i < 4 * iy + ix && #[trigger] stands_out(
                        map@,
                        bx as int,
                        by as int,
                        cov_x as int,
                        cov_y as int,
                        i,
                    ),
                forall|i: int|
                    0 <= i < 16 ==> #[trigger] grid@[i] == (if i < 4 * iy + ix {
                        captured(map@, bx as int, by as int, cov_x as int, cov_y as int)[i]
                    } else {
                        NO_CHILD_BLOCK
                    }),
            decreases cov_x - ix,
        {
            let ghost at = iy * 4 + ix;
            assert(at / 4 == iy && at % 4 == ix);
            assert(stands_out(map@, bx as int, by as int, cov_x as int, cov_y as int, at)
                == (map@[by + iy][bx + ix].first && map@[by + iy][bx + ix].strategy
                != STRATEGY_DCT));
            if map.is_first_block(bx + ix, by + iy) {
                let s: u8 = map.raw_strategy(bx + ix, by + iy);
                grid[iy * 4 + ix] = s;
                if s != STRATEGY_DCT {
                    found = true;
                }
            }
            ix += 1;
        }
        proof {
            assert forall|i: int| 4 * iy + cov_x <= i < 4 * iy + 4 implies !stands_out(
                map@,
                bx as int,
                by as int,
                cov_x as int,
                cov_y as int,
                i,
            ) && captured(map@, bx as int, by as int, cov_x as int, cov_y as int)[i]
                == NO_CHILD_BLOCK by {
                assert(i % 4 >= cov_x);
            }
        }
        iy += 1;
    }
    proof {
        assert forall|i: int| 4 * cov_y <= i < 16 implies !stands_out(
            map@,
            bx as int,
            by as int,
            cov_x as int,
            cov_y as int,
            i,
        ) && captured(map@, bx as int, by as int, cov_x as int, cov_y as int)[i]
            == NO_CHILD_BLOCK by {
            assert(i / 4 >= cov_y);
        }
        assert(grid@ =~= captured(map@, bx as int, by as int, cov_x as int, cov_y as int));
    }
    if found {
        saved.push(SavedChild { bx, by, grid });
        assert(saved@.drop_last() =~= old(saved)@);
    }
    proof {
        lemma_saved_views(old(saved)@, saved@);
    }
}

/// Costs of a super-block: as committed, and of its leaves alone.
#[derive(Clone, Copy)]
pub struct SuperBlockCost<A> {
    pub chosen: A,
    pub dct8: A,
}

/// The merges that a decision puts down.
pub open spec fn choice_placements<A>(r: SuperChoice<A>, bx: int, by: int) -> Seq<Placement> {
    let sites = merge16_sites_spec(bx, by);
    if r.square {
        seq![sites[0]]
    } else {
        let a = if r.vertical {
            1int
        } else {
            3
        };
        let use_a = pick(r.vertical, r.use_left, r.use_top);
        let use_b = pick(r.vertical, r.use_right, r.use_bottom);
        if use_a && use_b {
            seq![sites[a], sites[a + 1]]
        } else if use_a {
            seq![sites[a]]
        } else if use_b {
            seq![sites[a + 1]]
        } else {
            Seq::empty()
        }
    }
}

/// The 4x4 child grid of a super-block whose 16x16 transform won over an arm.
pub open spec fn child_grid(arm: Seq<u8>) -> Seq<u8> {
    expanded(Seq::new(16, |i: int| NO_CHILD_BLOCK), arm, 0, 0)
}

/// Decides on the super-block at `(bx, by)`, whose blocks are 8x8 DCTs, and
/// commits the merges it chooses. When the 16x16 transform wins over a layout
/// with pairs, that layout is saved.
pub fn select_super_block<A: Amount>(
    map: &mut AcStrategyImage,
    bx: usize,
    by: usize,
    rectangles: bool,
    policy: &SelectorPolicy,
    t: &MergeTuning<A>,
    c: &SuperBlockCosts<A>,
    saved: &mut Vec<SavedChild>,
    upgrades: &mut Vec<Placement>,
) -> (r: SuperBlockCost<A>)
    requires
        old(map).wf(),
        bx < usize::MAX,
        by < usize::MAX,
    ensures
        final(map).wf(),
        final(map).width() == old(map).width(),
        final(map).height() == old(map).height(),
        ({
            let choice = super_choice(
                old(map).width() as int,
                old(map).height() as int,
                bx as int,
                by as int,
                rectangles,
                policy.raw_propagation,
                *t,
                *c,
            );
            let arm = arm_spec(choice, seq![STRATEGY_DCT, STRATEGY_DCT, STRATEGY_DCT, STRATEGY_DCT]);
            &&& r.chosen == choice.cost
            &&& r.dct8 == leaf_totals(c.leaf)[0]
            &&& final(map)@ == place_all(old(map)@, choice_placements(choice, bx as int, by as int))
            &&& saved_views(final(saved)@) == saved_views(old(saved)@) + kept(
                choice.square && nontrivial(arm),
                bx as int,
                by as int,
                child_grid(arm),
            )
            &&& final(upgrades)@ == old(upgrades)@ + (if policy.merge_upgrade {
                shortlisted(
                    old(map).width() as int,
                    old(map).height() as int,
                    bx as int,
                    by as int,
                    raw_costs(rectangles, *c),
                    leaf_totals(c.leaf),
                    5,
                )
            } else {
                Seq::empty()
            })
        }),
{
    let choice: SuperChoice<A> = decide_super_block(
        map,
        bx,
        by,
        rectangles,
        policy.raw_propagation,
        t,
        c,
    );
    let leaf: [A; 5] = sums(c.leaf);
    if policy.merge_upgrade {
        record_upgrade_candidates(upgrades, map, bx, by, raw_array(rectangles, c), leaf);
    } else {
        assert(old(upgrades)@ + Seq::<Placement>::empty() =~= old(upgrades)@);
    }
    let ghost before = map@;
    let ghost placements = choice_placements(choice, bx as int, by as int);
    proof {
        reveal_with_fuel(place_all, 3);
        assert(seq![placements[0], placements[1]].drop_last() =~= seq![placements[0]]);
        assert(seq![placements[0]].drop_last() =~= Seq::<Placement>::empty());
        if placements.len() == 2 {
            assert(placements =~= seq![placements[0], placements[1]]);
        }
    }
    if choice.square {
        let leaves: [u8; 4] = [STRATEGY_DCT; 4];
        assert(leaves@ =~= seq![STRATEGY_DCT, STRATEGY_DCT, STRATEGY_DCT, STRATEGY_DCT]);
        let arm: [u8; 4] = arm_grid(&choice, leaves);
        if grid_nontrivial(&arm) {
            let mut grid: [u8; 16] = [NO_CHILD_BLOCK; 16];
            assert(grid@ =~= Seq::new(16, |i: int| NO_CHILD_BLOCK));
            expand_2x2(arm, 0, 0, &mut grid);
            saved.push(SavedChild { bx, by, grid });
            assert(saved@.drop_last() =~= old(saved)@);
        }
        map.set_first(bx, by, STRATEGY_DCT16X16);
    } else if choice.vertical {
        if choice.use_left {
            map.set_first(bx, by, STRATEGY_DCT16X8);
        }
        if choice.use_right {
            map.set_first(bx + 1, by, STRATEGY_DCT16X8);
        }
    } else {
        if choice.use_top {
            map.set_first(bx, by, STRATEGY_DCT8X16);
        }
        if choice.use_bottom {
            map.set_first(bx, by + 1, STRATEGY_DCT8X16);
        }
    }
    proof {
        lemma_saved_views(old(saved)@, saved@);
    }
    SuperBlockCost { chosen: choice.cost, dct8: leaf[0] }
}

} // verus!
