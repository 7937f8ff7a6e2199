//! Cheapest subdivision of an aligned region into transforms.

use crate::amount::{Amount, OrderedAmount};
use crate::strategy::NO_CHILD_BLOCK;
use crate::strategy_map::in_window;
use crate::tiling::encloses;
use vstd::prelude::*;

verus! {

/// A candidate transform inside a region, in blocks from the region's corner.
#[derive(Clone, Copy)]
pub struct PartitionTile<A> {
    pub x: usize,
    pub y: usize,
    pub width: usize,
    pub height: usize,
    pub cost: A,
}

impl<A> PartitionTile<A> {
    /// The candidate is the one window.
    pub open spec fn at(self, x: int, y: int, w: int, h: int) -> bool {
        self.x == x && self.y == y && self.width == w && self.height == h
    }

    /// The candidate covers the block `(a, b)`.
    pub open spec fn holds(self, a: int, b: int) -> bool {
        in_window(self.x as int, self.y as int, self.width as int, self.height as int, a, b)
    }
}

/// A subdivision and its cost.
#[derive(Clone, Copy)]
pub struct ReconstructionPlan<A> {
    pub cost: A,
    /// Candidate index at each first block, in the enclosing 4x4 grid.
    pub tiles: [u8; 16],
}

/// What a plan stands for.
#[verifier::ext_equal]
pub struct PlanValue<A> {
    pub cost: A,
    pub tiles: Seq<u8>,
}

impl<A> View for ReconstructionPlan<A> {
    type V = PlanValue<A>;

    open spec fn view(&self) -> PlanValue<A> {
        PlanValue { cost: self.cost, tiles: self.tiles@ }
    }
}

/// Number of blocks along the side of level `l`.
pub open spec fn side_of(l: nat) -> int {
    if l == 0 {
        1
    } else if l == 1 {
        2
    } else {
        4
    }
}

/// The plan that covers nothing.
pub open spec fn no_plan<A: Amount>() -> PlanValue<A> {
    PlanValue { cost: A::infinite_spec(), tiles: Seq::new(16, |i: int| NO_CHILD_BLOCK) }
}

/// Two plans side by side.
pub open spec fn joined<A: Amount>(a: PlanValue<A>, b: PlanValue<A>) -> PlanValue<A> {
    PlanValue {
        cost: a.cost.plus_spec(b.cost),
        tiles: Seq::new(
            16,
            |i: int|
                if b.tiles[i] != NO_CHILD_BLOCK {
                    b.tiles[i]
                } else {
                    a.tiles[i]
                },
        ),
    }
}

/// The plan that is candidate `i` alone.
pub open spec fn tile_plan<A>(i: int, x: int, y: int, cost: A) -> PlanValue<A> {
    PlanValue {
        cost,
        tiles: Seq::new(
            16,
            |k: int|
                if k == y * 4 + x {
                    i as u8
                } else {
                    NO_CHILD_BLOCK
                },
        ),
    }
}

/// The best of a plan and of the leading `n` candidates for the same window; a
/// later one must be cheaper.
pub open spec fn with_tiles<A: Amount>(
    tiles: Seq<PartitionTile<A>>,
    n: int,
    x: int,
    y: int,
    w: int,
    h: int,
    start: PlanValue<A>,
) -> PlanValue<A>
    decreases n,
{
    if n <= 0 {
        start
    } else {
        let head = with_tiles(tiles, n - 1, x, y, w, h, start);
        let tile = tiles[n - 1];
        if tile.at(x, y, w, h) && tile.cost.less_spec(head.cost) {
            tile_plan(n - 1, x, y, tile.cost)
        } else {
            head
        }
    }
}

/// The best plan for the window of levels `lx` and `ly` at `(x, y)`: two halves
/// side by side, two halves one above the other, or one candidate, the first of
/// equals.
pub open spec fn best_plan<A: Amount>(
    tiles: Seq<PartitionTile<A>>,
    lx: nat,
    ly: nat,
    x: int,
    y: int,
) -> PlanValue<A>
    decreases lx + ly,
{
    let beside = if lx > 0 {
        joined(
            best_plan(tiles, (lx - 1) as nat, ly, x, y),
            best_plan(tiles, (lx - 1) as nat, ly, x + side_of((lx - 1) as nat), y),
        )
    } else {
        no_plan()
    };
    let split = if ly > 0 {
        let above = joined(
            best_plan(tiles, lx, (ly - 1) as nat, x, y),
            best_plan(tiles, lx, (ly - 1) as nat, x, y + side_of((ly - 1) as nat)),
        );
        if above.cost.less_spec(beside.cost) {
            above
        } else {
            beside
        }
    } else {
        beside
    };
    with_tiles(tiles, tiles.len() as int, x, y, side_of(lx), side_of(ly), split)
}

fn empty_plan<A: Amount>() -> (r: ReconstructionPlan<A>)
    ensures
        r@ == no_plan::<A>(),
{
    let r: ReconstructionPlan<A> = ReconstructionPlan {
        cost: A::infinite(),
        tiles: [NO_CHILD_BLOCK; 16],
    };
    assert(r@ =~= no_plan::<A>());
    r
}

fn join<A: Amount>(a: &ReconstructionPlan<A>, b: &ReconstructionPlan<A>) -> (r: ReconstructionPlan<
    A,
>)
    ensures
        r@ == joined(a@, b@),
{
    let mut tiles: [u8; 16] = a.tiles;
    let mut i: usize = 0;
    while i < 16
        invariant
            i <= 16,
            forall|k: int|
                0 <= k < 16 ==> #[trigger] tiles@[k] == (if k < i && b.tiles@[k] != NO_CHILD_BLOCK {
                    b.tiles@[k]
                } else {
                    a.tiles@[k]
                }),
        decreases 16 - i,
    {
        if b.tiles[i] != NO_CHILD_BLOCK {
            tiles[i] = b.tiles[i];
        }
        i += 1;
    }
    let r: ReconstructionPlan<A> = ReconstructionPlan { cost: a.cost.plus(b.cost), tiles };
    assert(r@ =~= joined(a@, b@));
    r
}

fn try_tiles<A: Amount>(
    tiles: &[PartitionTile<A>],
    x: usize,
    y: usize,
    w: usize,
    h: usize,
    start: ReconstructionPlan<A>,
) -> (r: ReconstructionPlan<A>)
    requires
        tiles@.len() <= 255,
        x < 4,
        y < 4,
    ensures
        r@ == with_tiles(
            tiles@,
            tiles@.len() as int,
            x as int,
            y as int,
            w as int,
            h as int,
            start@,
        ),
{
    let mut best: ReconstructionPlan<A> = start;
    let mut i: usize = 0;
    while i < tiles.len()
        invariant
            i <= tiles@.len() <= 255,
            x < 4,
            y < 4,
            best@ == with_tiles(tiles@, i as int, x as int, y as int, w as int, h as int, start@),
        decreases tiles@.len() - i,
    {
        let tile: PartitionTile<A> = tiles[i];
        if tile.x == x && tile.y == y && tile.width == w && tile.height == h && tile.cost.less(
            best.cost,
        ) {
            let mut marks: [u8; 16] = [NO_CHILD_BLOCK; 16];
            marks[y * 4 + x] = i as u8;
            best = ReconstructionPlan { cost: tile.cost, tiles: marks };
            assert(best@ =~= tile_plan(i as int, x as int, y as int, tile.cost));
        }
        i += 1;
    }
    best
}

/// Place of a window's plan in the table.
spec fn slot(lx: int, ly: int, x: int, y: int) -> int {
    (ly * 3 + lx) * 16 + y * 4 + x
}

/// The table holds the best plan of every window of levels `lx` and `ly`.
spec fn level_done<A: Amount>(
    table: Seq<ReconstructionPlan<A>>,
    tiles: Seq<PartitionTile<A>>,
    lx: int,
    ly: int,
    width: int,
    height: int,
) -> bool {
    forall|x: int, y: int|
        0 <= x < width && 0 <= y < height && x % side_of(lx as nat) == 0 && y % side_of(ly as nat)
            == 0 ==> (#[trigger] table[slot(lx, ly, x, y)])@ == best_plan(
            tiles,
            lx as nat,
            ly as nat,
            x,
            y,
        )
}

fn level_side(l: usize) -> (r: usize)
    requires
        l <= 2,
    ensures
        r == side_of(l as nat),
{
    if l == 0 {
        1
    } else if l == 1 {
        2
    } else {
        4
    }
}

fn plan_window<A: Amount>(
    table: &Vec<ReconstructionPlan<A>>,
    tiles: &[PartitionTile<A>],
    lx: usize,
    ly: usize,
    width: usize,
    height: usize,
    x: usize,
    y: usize,
) -> (r: ReconstructionPlan<A>)
    requires
        tiles@.len() <= 255,
        table@.len() == 144,
        lx <= 2,
        ly <= 2,
        width <= 4,
        height <= 4,
        x + side_of(lx as nat) <= width,
        y + side_of(ly as nat) <= height,
        x % (side_of(lx as nat) as usize) == 0,
        y % (side_of(ly as nat) as usize) == 0,
        lx > 0 ==> level_done(table@, tiles@, lx - 1, ly as int, width as int, height as int),
        ly > 0 ==> level_done(table@, tiles@, lx as int, ly - 1, width as int, height as int),
    ensures
        r@ == best_plan(tiles@, lx as nat, ly as nat, x as int, y as int),
{
    let mut best: ReconstructionPlan<A> = empty_plan();
    if lx > 0 {
        let half: usize = level_side(lx - 1);
        proof {
            assert(table@[slot(lx - 1, ly as int, x as int, y as int)]@ == best_plan(
                tiles@,
                (lx - 1) as nat,
                ly as nat,
                x as int,
                y as int,
            ));
            assert(table@[slot(lx - 1, ly as int, x + half, y as int)]@ == best_plan(
                tiles@,
                (lx - 1) as nat,
                ly as nat,
                x + half,
                y as int,
            ));
        }
        best = join(
            &table[(ly * 3 + lx - 1) * 16 + y * 4 + x],
            &table[(ly * 3 + lx - 1) * 16 + y * 4 + x + half],
        );
    }
    if ly > 0 {
        let half: usize = level_side(ly - 1);
        proof {
            assert(table@[slot(lx as int, ly - 1, x as int, y as int)]@ == best_plan(
                tiles@,
                lx as nat,
                (ly - 1) as nat,
                x as int,
                y as int,
            ));
            assert(table@[slot(lx as int, ly - 1, x as int, y + half)]@ == best_plan(
                tiles@,
                lx as nat,
                (ly - 1) as nat,
                x as int,
                y + half,
            ));
        }
        let above: ReconstructionPlan<A> = join(
            &table[((ly - 1) * 3 + lx) * 16 + y * 4 + x],
            &table[((ly - 1) * 3 + lx) * 16 + (y + half) * 4 + x],
        );
        if above.cost.less(best.cost) {
            best = above;
        }
    }
    try_tiles(tiles, x, y, level_side(lx), level_side(ly), best)
}

fn fill_level<A: Amount>(
    table: &mut Vec<ReconstructionPlan<A>>,
    tiles: &[PartitionTile<A>],
    lx: usize,
    ly: usize,
    width: usize,
    height: usize,
)
    requires
        tiles@.len() <= 255,
        old(table)@.len() == 144,
        lx <= 2,
        ly <= 2,
        width == 1 || width == 2 || width == 4,
        height == 1 || height == 2 || height == 4,
        side_of(lx as nat) <= width,
        side_of(ly as nat) <= height,
        lx > 0 ==> level_done(old(table)@, tiles@, lx - 1, ly as int, width as int, height as int),
        ly > 0 ==> level_done(old(table)@, tiles@, lx as int, ly - 1, width as int, height as int),
    ensures
        final(table)@.len() == 144,
        level_done(final(table)@, tiles@, lx as int, ly as int, width as int, height as int),
        forall|a: int, b: int|
            0 <= a <= 2 && 0 <= b <= 2 && (a != lx || b != ly) && #[trigger] level_done(
                old(table)@,
                tiles@,
                a,
                b,
                width as int,
                height as int,
            ) ==> level_done(final(table)@, tiles@, a, b, width as int, height as int),
{
    let w: usize = level_side(lx);
    let h: usize = level_side(ly);
    let mut y: usize = 0;
    while y < height
        invariant
            tiles@.len() <= 255,
            table@.len() == 144,
            lx <= 2,
            ly <= 2,
            w == side_of(lx as nat),
            h == side_of(ly as nat),
            width == 1 || width == 2 || width == 4,
            height == 1 || height == 2 || height == 4,
            w <= width,
            h <= height,
            y % h == 0,
            y <= height,
            forall|a: int, b: int, p: int, q: int|
                0 <= a <= 2 && 0 <= b <= 2 && (a != lx || b != ly) && 0 <= p < 4 && 0 <= q < 4
                    ==> #[trigger] table@[slot(a, b, p, q)] == old(table)@[slot(a, b, p, q)],
            forall|p: int, q: int|
                0 <= p < width && 0 <= q < y && p % (w as int) == 0 && q % (h as int) == 0
                    ==> (#[trigger] table@[slot(lx as int, ly as int, p, q)])@ == best_plan(
                    tiles@,
                    lx as nat,
                    ly as nat,
                    p,
                    q,
                ),
            lx > 0 ==> level_done(
                old(table)@,
                tiles@,
                lx - 1,
                ly as int,
                width as int,
                height as int,
            ),
            ly > 0 ==> level_done(
                old(table)@,
                tiles@,
                lx as int,
                ly - 1,
                width as int,
                height as int,
            ),
        decreases height - y,
    {
        let mut x: usize = 0;
        while x < width
            invariant
                tiles@.len() <= 255,
                table@.len() == 144,
                lx <= 2,
                ly <= 2,
                w == side_of(lx as nat),
                h == side_of(ly as nat),
                width == 1 || width == 2 || width == 4,
                height == 1 || height == 2 || height == 4,
                w <= width,
                h <= height,
                y % h == 0,
                y < height,
                x % w == 0,
                x <= width,
                forall|a: int, b: int, p: int, q: int|
                    0 <= a <= 2 && 0 <= b <= 2 && (a != lx || b != ly) && 0 <= p < 4 && 0 <= q < 4
                        ==> #[trigger] table@[slot(a, b, p, q)] == old(table)@[slot(a, b, p, q)],
                forall|p: int, q: int|
                    0 <= p < width && 0 <= q < height && (q < y || q == y && p < x) && p % (
                    w as int) == 0 && q % (h as int) == 0 ==> (#[trigger] table@[slot(
                        lx as int,
                        ly as int,
                        p,
                        q,
                    )])@ == best_plan(tiles@, lx as nat, ly as nat, p, q),
                lx > 0 ==> level_done(
                    old(table)@,
                    tiles@,
                    lx - 1,
                    ly as int,
                    width as int,
                    height as int,
                ),
                ly > 0 ==> level_done(
                    old(table)@,
                    tiles@,
                    lx as int,
                    ly - 1,
                    width as int,
                    height as int,
                ),
            decreases width - x,
        {
            assert(x + w <= width && y + h <= height);
            let best: ReconstructionPlan<A> = plan_window(table, tiles, lx, ly, width, height, x, y);
            let at: usize = (ly * 3 + lx) * 16 + y * 4 + x;
            assert(at == slot(lx as int, ly as int, x as int, y as int));
            let ghost before = table@;
            table.set(at, best);
            proof {
                assert forall|p: int, q: int|
                    0 <= p < width && 0 <= q < height && (q < y || q == y && p < x + w) && p % (
                    w as int) == 0 && q % (h as int) == 0 implies (#[trigger] table@[slot(
                    lx as int,
                    ly as int,
                    p,
                    q,
                )])@ == best_plan(tiles@, lx as nat, ly as nat, p, q) by {
                    if q == y && p >= x {
                        assert(p == x);
                    } else {
                        assert(before[slot(lx as int, ly as int, p, q)] == table@[slot(
                            lx as int,
                            ly as int,
                            p,
                            q,
                        )]);
                    }
                }
            }
            x += w;
        }
        proof {
            assert forall|p: int, q: int|
                0 <= p < width && 0 <= q < y + h && p % (w as int) == 0 && q % (h as int)
                    == 0 implies (#[trigger] table@[slot(lx as int, ly as int, p, q)])@
                == best_plan(tiles@, lx as nat, ly as nat, p, q) by {
                if q > y {
                    assert(q % (h as int) != 0);
                }
                assert(q < height);
            }
        }
        y += h;
    }
}

fn level_of(side: usize) -> (r: usize)
    requires
        side == 1 || side == 2 || side == 4,
    ensures
        r <= 2,
        side == side_of(r as nat),
{
    if side == 1 {
        0
    } else if side == 2 {
        1
    } else {
        2
    }
}

/// Level of a side of one, two or four blocks.
pub open spec fn level_spec(side: int) -> nat {
    if side == 1 {
        0
    } else if side == 2 {
        1
    } else {
        2
    }
}

/// Minimum-cost tiling of an aligned region, using both horizontal and vertical
/// subdivisions at every level.
pub fn best_reconstruction_plan<A: Amount>(
    tiles: &[PartitionTile<A>],
    width: usize,
    height: usize,
) -> (r: ReconstructionPlan<A>)
    requires
        tiles@.len() <= 255,
        width == 1 || width == 2 || width == 4,
        height == 1 || height == 2 || height == 4,
    ensures
        r@ == best_plan(tiles@, level_spec(width as int), level_spec(height as int), 0, 0),
{
    let empty: ReconstructionPlan<A> = empty_plan();
    let mut table: Vec<ReconstructionPlan<A>> = Vec::new();
    let mut k: usize = 0;
    while k < 144
        invariant
            k <= 144,
            table@.len() == k,
        decreases 144 - k,
    {
        table.push(empty);
        k += 1;
    }
    let top_x: usize = level_of(width);
    let top_y: usize = level_of(height);
    let mut ly: usize = 0;
    while ly <= top_y
        invariant
            tiles@.len() <= 255,
            table@.len() == 144,
            top_x <= 2,
            top_y <= 2,
            width == 1 || width == 2 || width == 4,
            height == 1 || height == 2 || height == 4,
            width == side_of(top_x as nat),
            height == side_of(top_y as nat),
            ly <= top_y + 1,
            forall|a: int, b: int|
                0 <= a <= top_x && 0 <= b < ly ==> #[trigger] level_done(
                    table@,
                    tiles@,
                    a,
                    b,
                    width as int,
                    height as int,
                ),
        decreases top_y + 1 - ly,
    {
        let mut lx: usize = 0;
        while lx <= top_x
            invariant
                tiles@.len() <= 255,
                table@.len() == 144,
                top_x <= 2,
                top_y <= 2,
                width == 1 || width == 2 || width == 4,
                height == 1 || height == 2 || height == 4,
                width == side_of(top_x as nat),
                height == side_of(top_y as nat),
                ly <= top_y,
                lx <= top_x + 1,
                forall|a: int, b: int|
                    0 <= a <= top_x && 0 <= b && (b < ly || b == ly && a < lx)
                        ==> #[trigger] level_done(
                        table@,
                        tiles@,
                        a,
                        b,
                        width as int,
                        height as int,
                    ),
            decreases top_x + 1 - lx,
        {
            let ghost before = table@;
            proof {
                if lx > 0 {
                    assert(level_done(
                        before,
                        tiles@,
                        lx - 1,
                        ly as int,
                        width as int,
                        height as int,
                    ));
                }
                if ly > 0 {
                    assert(level_done(
                        before,
                        tiles@,
                        lx as int,
                        ly - 1,
                        width as int,
                        height as int,
                    ));
                }
            }
            fill_level(&mut table, tiles, lx, ly, width, height);
            proof {
                assert forall|a: int, b: int|
                    0 <= a <= top_x && 0 <= b && (b < ly || b == ly && a < lx
                        + 1) implies #[trigger] level_done(
                    table@,
                    tiles@,
                    a,
                    b,
                    width as int,
                    height as int,
                ) by {
                    if a != lx || b != ly {
                        assert(level_done(before, tiles@, a, b, width as int, height as int));
                    }
                }
            }
            lx += 1;
        }
        ly += 1;
    }
    proof {
        assert(level_done(
            table@,
            tiles@,
            top_x as int,
            top_y as int,
            width as int,
            height as int,
        ));
        assert(table@[slot(top_x as int, top_y as int, 0, 0)]@ == best_plan(
            tiles@,
            top_x as nat,
            top_y as nat,
            0,
            0,
        ));
    }
    table[(top_y * 3 + top_x) * 16]
}

/// The candidate marked at place `i` covers the block `(a, b)`.
pub open spec fn marked<A>(
    tiles: Seq<PartitionTile<A>>,
    marks: Seq<u8>,
    i: int,
    a: int,
    b: int,
) -> bool {
    0 <= i < 16 && marks[i] != NO_CHILD_BLOCK && tiles[marks[i] as int].holds(a, b)
}

/// Some marked candidate covers the block `(a, b)`.
pub open spec fn has_mark<A>(tiles: Seq<PartitionTile<A>>, marks: Seq<u8>, a: int, b: int) -> bool {
    exists|i: int| #[trigger] marked(tiles, marks, i, a, b)
}

/// The marks name candidates that start where they stand and cover every block
/// of the window exactly once and none outside it.
pub open spec fn exact_cover<A>(
    tiles: Seq<PartitionTile<A>>,
    marks: Seq<u8>,
    x: int,
    y: int,
    w: int,
    h: int,
) -> bool {
    &&& marks.len() == 16
    &&& forall|i: int|
        0 <= i < 16 && #[trigger] marks[i] != NO_CHILD_BLOCK ==> ({
            let tile = tiles[marks[i] as int];
            &&& marks[i] < tiles.len()
            &&& tile.x == i % 4
            &&& tile.y == i / 4
            &&& tile.width > 0
            &&& tile.height > 0
            &&& encloses(
                x,
                y,
                w,
                h,
                tile.x as int,
                tile.y as int,
                tile.width as int,
                tile.height as int,
            )
        })
    &&& forall|a: int, b: int|
        in_window(x, y, w, h, a, b) ==> #[trigger] has_mark(tiles, marks, a, b)
    &&& forall|i: int, j: int, a: int, b: int|
        #[trigger] marked(tiles, marks, i, a, b) && #[trigger] marked(tiles, marks, j, a, b) ==> i
            == j
}

/// A candidate over the block `(a, b)` alone with a proper cost.
pub open spec fn has_single<A: Amount>(tiles: Seq<PartitionTile<A>>, a: int, b: int) -> bool {
    exists|i: int|
        0 <= i < tiles.len() && (#[trigger] tiles[i]).at(a, b, 1, 1) && tiles[i].cost.less_spec(
            A::infinite_spec(),
        )
}

/// Every block of the window has a candidate of its own with a proper cost.
pub open spec fn singles_offered<A: Amount>(
    tiles: Seq<PartitionTile<A>>,
    x: int,
    y: int,
    w: int,
    h: int,
) -> bool {
    forall|a: int, b: int| in_window(x, y, w, h, a, b) ==> #[trigger] has_single(tiles, a, b)
}

proof fn lemma_tile_cover<A: Amount>(
    tiles: Seq<PartitionTile<A>>,
    i: int,
    x: int,
    y: int,
    w: int,
    h: int,
    cost: A,
)
    requires
        0 <= i < tiles.len() <= 255,
        tiles[i].at(x, y, w, h),
        0 <= x < 4,
        0 <= y < 4,
        w > 0,
        h > 0,
    ensures
        exact_cover(tiles, tile_plan(i, x, y, cost).tiles, x, y, w, h),
{
    let marks = tile_plan(i, x, y, cost).tiles;
    let at = y * 4 + x;
    assert(marks[at] == i as u8);
    assert forall|a: int, b: int| in_window(x, y, w, h, a, b) implies #[trigger] has_mark(
        tiles,
        marks,
        a,
        b,
    ) by {
        assert(marked(tiles, marks, at, a, b));
    }
}

/// The best of a plan and the candidates is the plan, where it is the cheapest,
/// or one of the candidates for the window.
proof fn lemma_with_tiles_shape<A: Amount>(
    tiles: Seq<PartitionTile<A>>,
    n: int,
    x: int,
    y: int,
    w: int,
    h: int,
    start: PlanValue<A>,
) -> (i: int)
    requires
        0 <= n <= tiles.len(),
    ensures
        -1 <= i < n,
        i < 0 ==> with_tiles(tiles, n, x, y, w, h, start) == start,
        i < 0 ==> forall|k: int|
            0 <= k < n && (#[trigger] tiles[k]).at(x, y, w, h) ==> !tiles[k].cost.less_spec(
                start.cost,
            ),
        i >= 0 ==> tiles[i].at(x, y, w, h) && with_tiles(tiles, n, x, y, w, h, start) == tile_plan(
            i,
            x,
            y,
            tiles[i].cost,
        ),
    decreases n,
{
    if n <= 0 {
        -1
    } else {
        let i = lemma_with_tiles_shape(tiles, n - 1, x, y, w, h, start);
        let head = with_tiles(tiles, n - 1, x, y, w, h, start);
        if tiles[n - 1].at(x, y, w, h) && tiles[n - 1].cost.less_spec(head.cost) {
            n - 1
        } else {
            i
        }
    }
}

/// Covers of two windows that share no block make a cover of both.
proof fn lemma_joined_cover<A: Amount>(
    tiles: Seq<PartitionTile<A>>,
    p: PlanValue<A>,
    q: PlanValue<A>,
    x: int,
    y: int,
    w: int,
    h: int,
    dx: int,
    dy: int,
)
    requires
        exact_cover(tiles, p.tiles, x, y, w, h),
        exact_cover(tiles, q.tiles, x + dx, y + dy, w, h),
        dx == w && dy == 0 || dx == 0 && dy == h,
        w > 0,
        h > 0,
    ensures
        exact_cover(tiles, joined(p, q).tiles, x, y, w + dx, h + dy),
{
    let marks = joined(p, q).tiles;
    assert forall|i: int| 0 <= i < 16 && p.tiles[i] != NO_CHILD_BLOCK implies q.tiles[i]
        == NO_CHILD_BLOCK by {
        if q.tiles[i] != NO_CHILD_BLOCK {
            assert(tiles[p.tiles[i] as int].x == i % 4);
            assert(tiles[q.tiles[i] as int].x == i % 4);
        }
    }
    assert forall|i: int, a: int, b: int| #[trigger] marked(tiles, marks, i, a, b) implies marked(
        tiles,
        p.tiles,
        i,
        a,
        b,
    ) && in_window(x, y, w, h, a, b) || marked(tiles, q.tiles, i, a, b) && in_window(
        x + dx,
        y + dy,
        w,
        h,
        a,
        b,
    ) by {
        if q.tiles[i] != NO_CHILD_BLOCK {
            assert(marks[i] == q.tiles[i]);
        } else {
            assert(marks[i] == p.tiles[i]);
        }
    }
    assert forall|i: int| 0 <= i < 16 && #[trigger] marks[i] != NO_CHILD_BLOCK implies ({
        let tile = tiles[marks[i] as int];
        &&& marks[i] < tiles.len()
        &&& tile.x == i % 4
        &&& tile.y == i / 4
        &&& tile.width > 0
        &&& tile.height > 0
        &&& encloses(
            x,
            y,
            w + dx,
            h + dy,
            tile.x as int,
            tile.y as int,
            tile.width as int,
            tile.height as int,
        )
    }) by {
        if q.tiles[i] != NO_CHILD_BLOCK {
            assert(marks[i] == q.tiles[i]);
        } else {
            assert(marks[i] == p.tiles[i]);
        }
    }
    assert forall|a: int, b: int| in_window(x, y, w + dx, h + dy, a, b) implies #[trigger] has_mark(
        tiles,
        marks,
        a,
        b,
    ) by {
        if in_window(x, y, w, h, a, b) {
            assert(has_mark(tiles, p.tiles, a, b));
            let i = choose|i: int| #[trigger] marked(tiles, p.tiles, i, a, b);
            assert(marked(tiles, marks, i, a, b));
        } else {
            assert(in_window(x + dx, y + dy, w, h, a, b));
            assert(has_mark(tiles, q.tiles, a, b));
            let i = choose|i: int| #[trigger] marked(tiles, q.tiles, i, a, b);
            assert(marked(tiles, marks, i, a, b));
        }
    }
}

/// The best plans of the halves of a column, one above the other.
pub open spec fn stacked<A: Amount>(
    tiles: Seq<PartitionTile<A>>,
    l: nat,
    x: int,
    y: int,
) -> PlanValue<A> {
    joined(
        best_plan(tiles, 0, (l - 1) as nat, x, y),
        best_plan(tiles, 0, (l - 1) as nat, x, y + side_of((l - 1) as nat)),
    )
}

/// Putting the plans of a column's halves together keeps the cost below the
/// infinite amount, wherever the column lies in the window.
pub open spec fn columns_proper<A: Amount>(
    tiles: Seq<PartitionTile<A>>,
    x: int,
    y: int,
    w: int,
    h: int,
) -> bool {
    forall|l: nat, a: int, b: int|
        1 <= l <= 2 && encloses(x, y, w, h, a, b, 1, side_of(l)) ==> (#[trigger] stacked(
            tiles,
            l,
            a,
            b,
        )).cost.less_spec(A::infinite_spec())
}

proof fn lemma_columns_part<A: Amount>(
    tiles: Seq<PartitionTile<A>>,
    x: int,
    y: int,
    w: int,
    h: int,
    a: int,
    b: int,
    c: int,
    d: int,
)
    requires
        columns_proper(tiles, x, y, w, h),
        encloses(x, y, w, h, a, b, c, d),
    ensures
        columns_proper(tiles, a, b, c, d),
{
}

/// Where every block has a candidate of its own, the best plan of an aligned
/// window covers each of its blocks exactly once.
pub proof fn law_best_plan_covers_exactly<A: Amount>(
    tiles: Seq<PartitionTile<A>>,
    lx: nat,
    ly: nat,
    x: int,
    y: int,
)
    requires
        tiles.len() <= 255,
        lx <= 2,
        ly <= 2,
        0 <= x,
        x + side_of(lx) <= 4,
        0 <= y,
        y + side_of(ly) <= 4,
        singles_offered(tiles, x, y, side_of(lx), side_of(ly)),
        columns_proper(tiles, x, y, side_of(lx), side_of(ly)),
    ensures
        exact_cover(
            tiles,
            best_plan(tiles, lx, ly, x, y).tiles,
            x,
            y,
            side_of(lx),
            side_of(ly),
        ),
    decreases lx + ly,
{
    let w = side_of(lx);
    let h = side_of(ly);
    let beside: PlanValue<A> = if lx > 0 {
        joined(
            best_plan(tiles, (lx - 1) as nat, ly, x, y),
            best_plan(tiles, (lx - 1) as nat, ly, x + side_of((lx - 1) as nat), y),
        )
    } else {
        no_plan()
    };
    if lx > 0 {
        let half = side_of((lx - 1) as nat);
        assert(singles_offered(tiles, x, y, half, h));
        assert(singles_offered(tiles, x + half, y, half, h));
        lemma_columns_part(tiles, x, y, w, h, x, y, half, h);
        lemma_columns_part(tiles, x, y, w, h, x + half, y, half, h);
        law_best_plan_covers_exactly(tiles, (lx - 1) as nat, ly, x, y);
        law_best_plan_covers_exactly(tiles, (lx - 1) as nat, ly, x + half, y);
        lemma_joined_cover(
            tiles,
            best_plan(tiles, (lx - 1) as nat, ly, x, y),
            best_plan(tiles, (lx - 1) as nat, ly, x + half, y),
            x,
            y,
            half,
            h,
            half,
            0,
        );
    }
    let split: PlanValue<A> = if ly > 0 {
        let half = side_of((ly - 1) as nat);
        let above = joined(
            best_plan(tiles, lx, (ly - 1) as nat, x, y),
            best_plan(tiles, lx, (ly - 1) as nat, x, y + half),
        );
        if above.cost.less_spec(beside.cost) {
            above
        } else {
            beside
        }
    } else {
        beside
    };
    if ly > 0 {
        let half = side_of((ly - 1) as nat);
        assert(singles_offered(tiles, x, y, w, half));
        assert(singles_offered(tiles, x, y + half, w, half));
        lemma_columns_part(tiles, x, y, w, h, x, y, w, half);
        lemma_columns_part(tiles, x, y, w, h, x, y + half, w, half);
        law_best_plan_covers_exactly(tiles, lx, (ly - 1) as nat, x, y);
        law_best_plan_covers_exactly(tiles, lx, (ly - 1) as nat, x, y + half);
        lemma_joined_cover(
            tiles,
            best_plan(tiles, lx, (ly - 1) as nat, x, y),
            best_plan(tiles, lx, (ly - 1) as nat, x, y + half),
            x,
            y,
            w,
            half,
            0,
            half,
        );
    }
    let i = lemma_with_tiles_shape(tiles, tiles.len() as int, x, y, w, h, split);
    if i >= 0 {
        lemma_tile_cover(tiles, i, x, y, w, h, tiles[i].cost);
    } else if lx == 0 && ly == 0 {
        assert(in_window(x, y, w, h, x, y));
        assert(has_single(tiles, x, y));
        assert(false);
    } else if lx == 0 {
        assert(stacked(tiles, ly, x, y).cost.less_spec(A::infinite_spec()));
    }
}

/// A way to subdivide an aligned window: one candidate, or two halves side by
/// side or one above the other.
pub enum Subdivision {
    Whole(int),
    Beside(Box<Subdivision>, Box<Subdivision>),
    Above(Box<Subdivision>, Box<Subdivision>),
}

/// Cost of a subdivision: that of its candidates, summed as the halves are put
/// together.
pub open spec fn subdivision_cost<A: Amount>(tiles: Seq<PartitionTile<A>>, s: Subdivision) -> A
    decreases s,
{
    match s {
        Subdivision::Whole(i) => tiles[i].cost,
        Subdivision::Beside(p, q) => subdivision_cost(tiles, *p).plus_spec(
            subdivision_cost(tiles, *q),
        ),
        Subdivision::Above(p, q) => subdivision_cost(tiles, *p).plus_spec(
            subdivision_cost(tiles, *q),
        ),
    }
}

/// A subdivision is one of the window of levels `lx` and `ly` at `(x, y)`.
pub open spec fn subdivides<A>(
    tiles: Seq<PartitionTile<A>>,
    s: Subdivision,
    lx: nat,
    ly: nat,
    x: int,
    y: int,
) -> bool
    decreases s,
{
    match s {
        Subdivision::Whole(i) => 0 <= i < tiles.len() && tiles[i].at(
            x,
            y,
            side_of(lx),
            side_of(ly),
        ),
        Subdivision::Beside(p, q) => lx > 0 && subdivides(tiles, *p, (lx - 1) as nat, ly, x, y)
            && subdivides(tiles, *q, (lx - 1) as nat, ly, x + side_of((lx - 1) as nat), y),
        Subdivision::Above(p, q) => ly > 0 && subdivides(tiles, *p, lx, (ly - 1) as nat, x, y)
            && subdivides(tiles, *q, lx, (ly - 1) as nat, x, y + side_of((ly - 1) as nat)),
    }
}

/// Adding candidates to the choice never makes it dearer, and no candidate for
/// the window is cheaper than the choice.
proof fn lemma_with_tiles_cheapest<A: OrderedAmount>(
    tiles: Seq<PartitionTile<A>>,
    n: int,
    x: int,
    y: int,
    w: int,
    h: int,
    start: PlanValue<A>,
)
    requires
        0 <= n <= tiles.len(),
    ensures
        !start.cost.less_spec(with_tiles(tiles, n, x, y, w, h, start).cost),
        forall|i: int|
            0 <= i < n && (#[trigger] tiles[i]).at(x, y, w, h) ==> !tiles[i].cost.less_spec(
                with_tiles(tiles, n, x, y, w, h, start).cost,
            ),
    decreases n,
{
    A::less_irreflexive(start.cost);
    if n > 0 {
        lemma_with_tiles_cheapest(tiles, n - 1, x, y, w, h, start);
        let head = with_tiles(tiles, n - 1, x, y, w, h, start);
        let now = with_tiles(tiles, n, x, y, w, h, start);
        let tile = tiles[n - 1];
        if tile.at(x, y, w, h) && tile.cost.less_spec(head.cost) {
            A::less_irreflexive(tile.cost);
            if start.cost.less_spec(now.cost) {
                A::less_transitive(start.cost, now.cost, head.cost);
            }
            assert forall|i: int|
                0 <= i < n && (#[trigger] tiles[i]).at(x, y, w, h) implies !tiles[i].cost.less_spec(
                now.cost,
            ) by {
                if i < n - 1 && tiles[i].cost.less_spec(now.cost) {
                    A::less_transitive(tiles[i].cost, now.cost, head.cost);
                }
            }
        }
    }
}

proof fn lemma_no_dearer<A: OrderedAmount>(a: A, b: A, c: A)
    requires
        !a.less_spec(b),
        !b.less_spec(c),
    ensures
        !a.less_spec(c),
{
    if a.less_spec(c) {
        A::less_splits(a, b, c);
    }
}

/// No subdivision of a window is cheaper than its best plan.
pub proof fn law_no_subdivision_is_cheaper<A: OrderedAmount>(
    tiles: Seq<PartitionTile<A>>,
    s: Subdivision,
    lx: nat,
    ly: nat,
    x: int,
    y: int,
)
    requires
        subdivides(tiles, s, lx, ly, x, y),
    ensures
        !subdivision_cost(tiles, s).less_spec(best_plan(tiles, lx, ly, x, y).cost),
    decreases s,
{
    let w = side_of(lx);
    let h = side_of(ly);
    let beside: PlanValue<A> = if lx > 0 {
        joined(
            best_plan(tiles, (lx - 1) as nat, ly, x, y),
            best_plan(tiles, (lx - 1) as nat, ly, x + side_of((lx - 1) as nat), y),
        )
    } else {
        no_plan()
    };
    let above: PlanValue<A> = joined(
        best_plan(tiles, lx, (ly - 1) as nat, x, y),
        best_plan(tiles, lx, (ly - 1) as nat, x, y + side_of((ly - 1) as nat)),
    );
    let split: PlanValue<A> = if ly > 0 && above.cost.less_spec(beside.cost) {
        above
    } else {
        beside
    };
    let best = best_plan(tiles, lx, ly, x, y);
    assert(best == with_tiles(tiles, tiles.len() as int, x, y, w, h, split));
    lemma_with_tiles_cheapest(tiles, tiles.len() as int, x, y, w, h, split);
    A::less_irreflexive(beside.cost);
    A::less_irreflexive(above.cost);
    let cost = subdivision_cost(tiles, s);
    match s {
        Subdivision::Whole(i) => {
            assert(tiles[i].at(x, y, w, h));
        },
        Subdivision::Beside(p, q) => {
            let half = side_of((lx - 1) as nat);
            law_no_subdivision_is_cheaper(tiles, *p, (lx - 1) as nat, ly, x, y);
            law_no_subdivision_is_cheaper(tiles, *q, (lx - 1) as nat, ly, x + half, y);
            A::plus_monotone(
                best_plan(tiles, (lx - 1) as nat, ly, x, y).cost,
                best_plan(tiles, (lx - 1) as nat, ly, x + half, y).cost,
                subdivision_cost(tiles, *p),
                subdivision_cost(tiles, *q),
            );
            assert(!beside.cost.less_spec(split.cost)) by {
                if beside.cost.less_spec(split.cost) {
                    A::less_transitive(beside.cost, split.cost, beside.cost);
                }
            }
            lemma_no_dearer(cost, beside.cost, split.cost);
            lemma_no_dearer(cost, split.cost, best.cost);
        },
        Subdivision::Above(p, q) => {
            let half = side_of((ly - 1) as nat);
            law_no_subdivision_is_cheaper(tiles, *p, lx, (ly - 1) as nat, x, y);
            law_no_subdivision_is_cheaper(tiles, *q, lx, (ly - 1) as nat, x, y + half);
            A::plus_monotone(
                best_plan(tiles, lx, (ly - 1) as nat, x, y).cost,
                best_plan(tiles, lx, (ly - 1) as nat, x, y + half).cost,
                subdivision_cost(tiles, *p),
                subdivision_cost(tiles, *q),
            );
            assert(!above.cost.less_spec(split.cost));
            lemma_no_dearer(cost, above.cost, split.cost);
            lemma_no_dearer(cost, split.cost, best.cost);
        },
    }
}

/// The marks that a subdivision leaves in the grid.
pub open spec fn subdivision_plan<A: Amount>(
    tiles: Seq<PartitionTile<A>>,
    s: Subdivision,
) -> PlanValue<A>
    decreases s,
{
    match s {
        Subdivision::Whole(i) => tile_plan(
            i,
            tiles[i].x as int,
            tiles[i].y as int,
            tiles[i].cost,
        ),
        Subdivision::Beside(p, q) => joined(
            subdivision_plan(tiles, *p),
            subdivision_plan(tiles, *q),
        ),
        Subdivision::Above(p, q) => joined(subdivision_plan(tiles, *p), subdivision_plan(tiles, *q)),
    }
}

proof fn lemma_best_subdivision<A: Amount>(
    tiles: Seq<PartitionTile<A>>,
    lx: nat,
    ly: nat,
    x: int,
    y: int,
) -> (s: Subdivision)
    requires
        tiles.len() <= 255,
        lx <= 2,
        ly <= 2,
        singles_offered(tiles, x, y, side_of(lx), side_of(ly)),
        columns_proper(tiles, x, y, side_of(lx), side_of(ly)),
    ensures
        subdivides(tiles, s, lx, ly, x, y),
        subdivision_plan(tiles, s) == best_plan(tiles, lx, ly, x, y),
        subdivision_cost(tiles, s) == best_plan(tiles, lx, ly, x, y).cost,
    decreases lx + ly,
{
    let w = side_of(lx);
    let h = side_of(ly);
    let beside: PlanValue<A> = if lx > 0 {
        joined(
            best_plan(tiles, (lx - 1) as nat, ly, x, y),
            best_plan(tiles, (lx - 1) as nat, ly, x + side_of((lx - 1) as nat), y),
        )
    } else {
        no_plan()
    };
    let above: PlanValue<A> = joined(
        best_plan(tiles, lx, (ly - 1) as nat, x, y),
        best_plan(tiles, lx, (ly - 1) as nat, x, y + side_of((ly - 1) as nat)),
    );
    let split: PlanValue<A> = if ly > 0 && above.cost.less_spec(beside.cost) {
        above
    } else {
        beside
    };
    assert(best_plan(tiles, lx, ly, x, y) == with_tiles(
        tiles,
        tiles.len() as int,
        x,
        y,
        w,
        h,
        split,
    ));
    let i = lemma_with_tiles_shape(tiles, tiles.len() as int, x, y, w, h, split);
    if i >= 0 {
        Subdivision::Whole(i)
    } else if ly > 0 && above.cost.less_spec(beside.cost) {
        let half = side_of((ly - 1) as nat);
        lemma_columns_part(tiles, x, y, w, h, x, y, w, half);
        lemma_columns_part(tiles, x, y, w, h, x, y + half, w, half);
        assert(singles_offered(tiles, x, y, w, half));
        assert(singles_offered(tiles, x, y + half, w, half));
        let p = lemma_best_subdivision(tiles, lx, (ly - 1) as nat, x, y);
        let q = lemma_best_subdivision(tiles, lx, (ly - 1) as nat, x, y + half);
        Subdivision::Above(Box::new(p), Box::new(q))
    } else {
        if lx == 0 {
            if ly > 0 {
                assert(stacked(tiles, ly, x, y).cost.less_spec(A::infinite_spec()));
            } else {
                assert(in_window(x, y, w, h, x, y));
                assert(has_single(tiles, x, y));
            }
        }
        let half = side_of((lx - 1) as nat);
        lemma_columns_part(tiles, x, y, w, h, x, y, half, h);
        lemma_columns_part(tiles, x, y, w, h, x + half, y, half, h);
        assert(singles_offered(tiles, x, y, half, h));
        assert(singles_offered(tiles, x + half, y, half, h));
        let p = lemma_best_subdivision(tiles, (lx - 1) as nat, ly, x, y);
        let q = lemma_best_subdivision(tiles, (lx - 1) as nat, ly, x + half, y);
        Subdivision::Beside(Box::new(p), Box::new(q))
    }
}

/// The best plan of a window is one of its subdivisions: it has that
/// subdivision's cost and marks.
pub proof fn law_best_plan_is_a_subdivision<A: Amount>(
    tiles: Seq<PartitionTile<A>>,
    lx: nat,
    ly: nat,
    x: int,
    y: int,
)
    requires
        tiles.len() <= 255,
        lx <= 2,
        ly <= 2,
        singles_offered(tiles, x, y, side_of(lx), side_of(ly)),
        columns_proper(tiles, x, y, side_of(lx), side_of(ly)),
    ensures
        exists|s: Subdivision| #[trigger]
            subdivides(tiles, s, lx, ly, x, y) && subdivision_plan(tiles, s) == best_plan(
                tiles,
                lx,
                ly,
                x,
                y,
            ) && subdivision_cost(tiles, s) == best_plan(tiles, lx, ly, x, y).cost,
{
    let s = lemma_best_subdivision(tiles, lx, ly, x, y);
    assert(subdivides(tiles, s, lx, ly, x, y));
}

/// Every mark of a plan names a candidate that starts where the mark stands and
/// lies in the window.
pub open spec fn marks_named<A>(
    tiles: Seq<PartitionTile<A>>,
    marks: Seq<u8>,
    x: int,
    y: int,
    w: int,
    h: int,
) -> bool {
    marks.len() == 16 && forall|i: int|
        0 <= i < 16 && #[trigger] marks[i] != NO_CHILD_BLOCK ==> ({
            let tile = tiles[marks[i] as int];
            &&& marks[i] < tiles.len()
            &&& in_window(x, y, w, h, i % 4, i / 4)
            &&& tile.x == i % 4
            &&& tile.y == i / 4
            &&& tile.x + tile.width <= x + w
            &&& tile.y + tile.height <= y + h
        })
}

/// The marks of the best plan name candidates and stand in its window.
pub proof fn lemma_best_plan_named<A: Amount>(
    tiles: Seq<PartitionTile<A>>,
    lx: nat,
    ly: nat,
    x: int,
    y: int,
)
    requires
        tiles.len() <= 255,
        lx <= 2,
        ly <= 2,
        0 <= x,
        x + side_of(lx) <= 4,
        0 <= y,
        y + side_of(ly) <= 4,
    ensures
        marks_named(
            tiles,
            best_plan(tiles, lx, ly, x, y).tiles,
            x,
            y,
            side_of(lx),
            side_of(ly),
        ),
    decreases lx + ly,
{
    let n = tiles.len() as int;
    let w = side_of(lx);
    let h = side_of(ly);
    let beside: PlanValue<A> = if lx > 0 {
        joined(
            best_plan(tiles, (lx - 1) as nat, ly, x, y),
            best_plan(tiles, (lx - 1) as nat, ly, x + side_of((lx - 1) as nat), y),
        )
    } else {
        no_plan()
    };
    if lx > 0 {
        lemma_best_plan_named(tiles, (lx - 1) as nat, ly, x, y);
        lemma_best_plan_named(tiles, (lx - 1) as nat, ly, x + side_of((lx - 1) as nat), y);
    }
    assert(marks_named(tiles, beside.tiles, x, y, w, h));
    let above: PlanValue<A> = joined(
        best_plan(tiles, lx, (ly - 1) as nat, x, y),
        best_plan(tiles, lx, (ly - 1) as nat, x, y + side_of((ly - 1) as nat)),
    );
    if ly > 0 {
        lemma_best_plan_named(tiles, lx, (ly - 1) as nat, x, y);
        lemma_best_plan_named(tiles, lx, (ly - 1) as nat, x, y + side_of((ly - 1) as nat));
        assert(marks_named(tiles, above.tiles, x, y, w, h));
    }
    let split: PlanValue<A> = if ly > 0 && above.cost.less_spec(beside.cost) {
        above
    } else {
        beside
    };
    let i = lemma_with_tiles_shape(tiles, n, x, y, w, h, split);
}

} // verus!
