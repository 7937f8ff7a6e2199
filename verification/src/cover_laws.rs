//! The cheapest subdivision is cheapest among all exact covers: whatever aligned
//! candidates cover a window exactly once can be put together from halves.

use crate::amount::OrderedAmount;
use crate::partition::{
    best_plan, law_no_subdivision_is_cheaper, side_of, subdivides, subdivision_cost, PartitionTile,
    Subdivision,
};
use crate::strategy_map::in_window;
use vstd::prelude::*;

verus! {

/// A candidate with sides of one, two or four blocks that starts at a multiple of them.
pub open spec fn aligned<A>(t: PartitionTile<A>) -> bool {
    &&& t.width == 1 || t.width == 2 || t.width == 4
    &&& t.height == 1 || t.height == 2 || t.height == 4
    &&& t.x as int % t.width as int == 0
    &&& t.y as int % t.height as int == 0
}

/// A candidate lies in a window.
pub open spec fn lies_in<A>(t: PartitionTile<A>, x: int, y: int, w: int, h: int) -> bool {
    x <= t.x && t.x + t.width <= x + w && y <= t.y && t.y + t.height <= y + h
}

/// One of the chosen candidates holds the block `(a, b)`.
pub open spec fn held_by_one<A>(
    tiles: Seq<PartitionTile<A>>,
    chosen: Set<int>,
    a: int,
    b: int,
) -> bool {
    exists|i: int| #[trigger] chosen.contains(i) && tiles[i].holds(a, b)
}

/// The chosen candidates are aligned and cover every block of the window exactly once.
pub open spec fn covers_exactly<A>(
    tiles: Seq<PartitionTile<A>>,
    chosen: Set<int>,
    x: int,
    y: int,
    w: int,
    h: int,
) -> bool {
    &&& forall|i: int| #[trigger]
        chosen.contains(i) ==> 0 <= i < tiles.len() && aligned(tiles[i]) && lies_in(
            tiles[i],
            x,
            y,
            w,
            h,
        )
    &&& forall|a: int, b: int|
        in_window(x, y, w, h, a, b) ==> #[trigger] held_by_one(tiles, chosen, a, b)
    &&& forall|i: int, j: int, a: int, b: int|
        #![trigger chosen.contains(i), chosen.contains(j), in_window(x, y, w, h, a, b)]
        chosen.contains(i) && chosen.contains(j) && in_window(x, y, w, h, a, b)
            && tiles[i].holds(a, b) && tiles[j].holds(a, b) ==> i == j
}

/// The candidates of a subdivision.
pub open spec fn parts_of(s: Subdivision) -> Set<int>
    decreases s,
{
    match s {
        Subdivision::Whole(i) => set![i],
        Subdivision::Beside(p, q) => parts_of(*p) + parts_of(*q),
        Subdivision::Above(p, q) => parts_of(*p) + parts_of(*q),
    }
}

/// The chosen candidates that start left of a column.
spec fn left_of<A>(tiles: Seq<PartitionTile<A>>, chosen: Set<int>, at: int) -> Set<int> {
    Set::new(|i: int| chosen.contains(i) && tiles[i].x < at)
}

/// The chosen candidates that do not.
spec fn right_of<A>(tiles: Seq<PartitionTile<A>>, chosen: Set<int>, at: int) -> Set<int> {
    Set::new(|i: int| chosen.contains(i) && tiles[i].x >= at)
}

/// The chosen candidates that start above a row.
spec fn top_of<A>(tiles: Seq<PartitionTile<A>>, chosen: Set<int>, at: int) -> Set<int> {
    Set::new(|i: int| chosen.contains(i) && tiles[i].y < at)
}

/// The chosen candidates that do not.
spec fn bottom_of<A>(tiles: Seq<PartitionTile<A>>, chosen: Set<int>, at: int) -> Set<int> {
    Set::new(|i: int| chosen.contains(i) && tiles[i].y >= at)
}

/// Something aligned that starts in the first half of an aligned side, and is shorter
/// than the side, ends there too.
proof fn lemma_no_straddling(at: int, side: int, from: int, half: int)
    requires
        half == 1 || half == 2,
        side == 1 || side == 2 || side == 4,
        side != 2 * half,
        half == 2 ==> from % 4 == 0,
        side == 2 ==> at % 2 == 0,
        from <= at < from + half,
        at + side <= from + 2 * half,
    ensures
        at + side <= from + half,
{
}

/// A cover none of whose candidates is as wide as the window falls into halves side
/// by side.
proof fn lemma_halves_beside<A>(
    tiles: Seq<PartitionTile<A>>,
    chosen: Set<int>,
    x: int,
    y: int,
    half: int,
    h: int,
)
    requires
        half == 1 || half == 2,
        0 <= x,
        x % (2 * half) == 0,
        covers_exactly(tiles, chosen, x, y, 2 * half, h),
        forall|i: int| #[trigger] chosen.contains(i) ==> tiles[i].width != 2 * half,
    ensures
        covers_exactly(tiles, left_of(tiles, chosen, x + half), x, y, half, h),
        covers_exactly(tiles, right_of(tiles, chosen, x + half), x + half, y, half, h),
        left_of(tiles, chosen, x + half) + right_of(tiles, chosen, x + half) =~= chosen,
{
    let w = 2 * half;
    let left = left_of(tiles, chosen, x + half);
    let right = right_of(tiles, chosen, x + half);
    assert forall|i: int| #[trigger] chosen.contains(i) implies (if tiles[i].x < x + half {
        tiles[i].x + tiles[i].width <= x + half
    } else {
        true
    }) by {
        assert(aligned(tiles[i]) && lies_in(tiles[i], x, y, w, h));
        if tiles[i].x < x + half {
            assert(tiles[i].width == 2 ==> tiles[i].x as int % 2 == 0);
            assert(half == 2 ==> x % 4 == 0);
            lemma_no_straddling(tiles[i].x as int, tiles[i].width as int, x, half);
        }
    }
    assert forall|a: int, b: int|
        in_window(x, y, half, h, a, b) implies #[trigger] held_by_one(tiles, left, a, b) by {
        assert(in_window(x, y, w, h, a, b));
        assert(held_by_one(tiles, chosen, a, b));
        let i = choose|i: int| #[trigger] chosen.contains(i) && tiles[i].holds(a, b);
        assert(left.contains(i));
    }
    assert forall|a: int, b: int|
        in_window(x + half, y, half, h, a, b) implies #[trigger] held_by_one(
        tiles,
        right,
        a,
        b,
    ) by {
        assert(in_window(x, y, w, h, a, b));
        assert(held_by_one(tiles, chosen, a, b));
        let i = choose|i: int| #[trigger] chosen.contains(i) && tiles[i].holds(a, b);
        assert(right.contains(i));
    }
    assert forall|i: int, j: int, a: int, b: int|
        #![trigger left.contains(i), left.contains(j), in_window(x, y, half, h, a, b)]
        left.contains(i) && left.contains(j) && in_window(x, y, half, h, a, b) && tiles[i].holds(
            a,
            b,
        ) && tiles[j].holds(a, b) implies i == j by {
        assert(in_window(x, y, w, h, a, b));
        assert(chosen.contains(i) && chosen.contains(j));
    }
    assert forall|i: int, j: int, a: int, b: int|
        #![trigger right.contains(i), right.contains(j), in_window(x + half, y, half, h, a, b)]
        right.contains(i) && right.contains(j) && in_window(x + half, y, half, h, a, b)
            && tiles[i].holds(a, b) && tiles[j].holds(a, b) implies i == j by {
        assert(in_window(x, y, w, h, a, b));
        assert(chosen.contains(i) && chosen.contains(j));
    }
    assert forall|i: int| #[trigger] left.contains(i) implies 0 <= i < tiles.len() && aligned(
        tiles[i],
    ) && lies_in(tiles[i], x, y, half, h) by {
        assert(chosen.contains(i));
    }
    assert forall|i: int| #[trigger] right.contains(i) implies 0 <= i < tiles.len() && aligned(
        tiles[i],
    ) && lies_in(tiles[i], x + half, y, half, h) by {
        assert(chosen.contains(i));
    }
}

/// A cover none of whose candidates is as tall as the window falls into halves one
/// above the other.
proof fn lemma_halves_above<A>(
    tiles: Seq<PartitionTile<A>>,
    chosen: Set<int>,
    x: int,
    y: int,
    w: int,
    half: int,
)
    requires
        half == 1 || half == 2,
        0 <= y,
        y % (2 * half) == 0,
        covers_exactly(tiles, chosen, x, y, w, 2 * half),
        forall|i: int| #[trigger] chosen.contains(i) ==> tiles[i].height != 2 * half,
    ensures
        covers_exactly(tiles, top_of(tiles, chosen, y + half), x, y, w, half),
        covers_exactly(tiles, bottom_of(tiles, chosen, y + half), x, y + half, w, half),
        top_of(tiles, chosen, y + half) + bottom_of(tiles, chosen, y + half) =~= chosen,
{
    let h = 2 * half;
    let top = top_of(tiles, chosen, y + half);
    let bottom = bottom_of(tiles, chosen, y + half);
    assert forall|i: int| #[trigger] chosen.contains(i) implies (if tiles[i].y < y + half {
        tiles[i].y + tiles[i].height <= y + half
    } else {
        true
    }) by {
        assert(aligned(tiles[i]) && lies_in(tiles[i], x, y, w, h));
        if tiles[i].y < y + half {
            assert(tiles[i].height == 2 ==> tiles[i].y as int % 2 == 0);
            assert(half == 2 ==> y % 4 == 0);
            lemma_no_straddling(tiles[i].y as int, tiles[i].height as int, y, half);
        }
    }
    assert forall|a: int, b: int|
        in_window(x, y, w, half, a, b) implies #[trigger] held_by_one(tiles, top, a, b) by {
        assert(in_window(x, y, w, h, a, b));
        assert(held_by_one(tiles, chosen, a, b));
        let i = choose|i: int| #[trigger] chosen.contains(i) && tiles[i].holds(a, b);
        assert(top.contains(i));
    }
    assert forall|a: int, b: int|
        in_window(x, y + half, w, half, a, b) implies #[trigger] held_by_one(
        tiles,
        bottom,
        a,
        b,
    ) by {
        assert(in_window(x, y, w, h, a, b));
        assert(held_by_one(tiles, chosen, a, b));
        let i = choose|i: int| #[trigger] chosen.contains(i) && tiles[i].holds(a, b);
        assert(bottom.contains(i));
    }
    assert forall|i: int, j: int, a: int, b: int|
        #![trigger top.contains(i), top.contains(j), in_window(x, y, w, half, a, b)]
        top.contains(i) && top.contains(j) && in_window(x, y, w, half, a, b) && tiles[i].holds(
            a,
            b,
        ) && tiles[j].holds(a, b) implies i == j by {
        assert(in_window(x, y, w, h, a, b));
        assert(chosen.contains(i) && chosen.contains(j));
    }
    assert forall|i: int, j: int, a: int, b: int|
        #![trigger bottom.contains(i), bottom.contains(j), in_window(x, y + half, w, half, a, b)]
        bottom.contains(i) && bottom.contains(j) && in_window(x, y + half, w, half, a, b)
            && tiles[i].holds(a, b) && tiles[j].holds(a, b) implies i == j by {
        assert(in_window(x, y, w, h, a, b));
        assert(chosen.contains(i) && chosen.contains(j));
    }
    assert forall|i: int| #[trigger] top.contains(i) implies 0 <= i < tiles.len() && aligned(
        tiles[i],
    ) && lies_in(tiles[i], x, y, w, half) by {
        assert(chosen.contains(i));
    }
    assert forall|i: int| #[trigger] bottom.contains(i) implies 0 <= i < tiles.len() && aligned(
        tiles[i],
    ) && lies_in(tiles[i], x, y + half, w, half) by {
        assert(chosen.contains(i));
    }
}

/// A cover that holds a candidate of the window's own size holds nothing else.
proof fn lemma_whole_cover<A>(
    tiles: Seq<PartitionTile<A>>,
    chosen: Set<int>,
    x: int,
    y: int,
    w: int,
    h: int,
    i: int,
)
    requires
        covers_exactly(tiles, chosen, x, y, w, h),
        chosen.contains(i),
        tiles[i].at(x, y, w, h),
    ensures
        chosen =~= set![i],
{
    assert forall|j: int| chosen.contains(j) implies j == i by {
        assert(aligned(tiles[j]) && lies_in(tiles[j], x, y, w, h));
        let a = tiles[j].x as int;
        let b = tiles[j].y as int;
        assert(in_window(x, y, w, h, a, b));
        assert(tiles[i].holds(a, b) && tiles[j].holds(a, b));
    }
}

/// The subdivision that an exact cover of a window is.
proof fn lemma_cover_subdivides<A>(
    tiles: Seq<PartitionTile<A>>,
    chosen: Set<int>,
    lx: nat,
    ly: nat,
    x: int,
    y: int,
) -> (s: Subdivision)
    requires
        lx <= 2,
        ly <= 2,
        0 <= x,
        0 <= y,
        x % side_of(lx) == 0,
        y % side_of(ly) == 0,
        covers_exactly(tiles, chosen, x, y, side_of(lx), side_of(ly)),
    ensures
        subdivides(tiles, s, lx, ly, x, y),
        parts_of(s) == chosen,
    decreases lx + ly,
{
    let w = side_of(lx);
    let h = side_of(ly);
    if exists|i: int| #[trigger] chosen.contains(i) && tiles[i].at(x, y, w, h) {
        let i = choose|i: int| #[trigger] chosen.contains(i) && tiles[i].at(x, y, w, h);
        lemma_whole_cover(tiles, chosen, x, y, w, h, i);
        let s = Subdivision::Whole(i);
        assert(parts_of(s) =~= chosen);
        s
    } else if lx > 0 && (forall|i: int| #[trigger] chosen.contains(i) ==> tiles[i].width != w) {
        let half = side_of((lx - 1) as nat);
        let left = left_of(tiles, chosen, x + half);
        let right = right_of(tiles, chosen, x + half);
        lemma_halves_beside(tiles, chosen, x, y, half, h);
        let p = lemma_cover_subdivides(tiles, left, (lx - 1) as nat, ly, x, y);
        let q = lemma_cover_subdivides(tiles, right, (lx - 1) as nat, ly, x + half, y);
        let s = Subdivision::Beside(Box::new(p), Box::new(q));
        assert(parts_of(s) =~= chosen);
        s
    } else {
        // Some candidate is as wide as the window; one as tall would cross it.
        let i = if lx > 0 {
            choose|i: int| #[trigger] chosen.contains(i) && tiles[i].width == w
        } else {
            assert(in_window(x, y, w, h, x, y));
            assert(held_by_one(tiles, chosen, x, y));
            choose|i: int| #[trigger] chosen.contains(i) && tiles[i].holds(x, y)
        };
        assert(chosen.contains(i));
        assert(aligned(tiles[i]) && lies_in(tiles[i], x, y, w, h));
        assert(tiles[i].width == w && tiles[i].x == x);
        assert forall|j: int| #[trigger] chosen.contains(j) implies tiles[j].height != h by {
            assert(aligned(tiles[j]) && lies_in(tiles[j], x, y, w, h));
            if tiles[j].height == h {
                let a = tiles[j].x as int;
                let b = tiles[i].y as int;
                assert(in_window(x, y, w, h, a, b));
                assert(tiles[i].holds(a, b) && tiles[j].holds(a, b));
                assert(i == j);
                assert(tiles[i].at(x, y, w, h));
            }
        }
        assert(ly > 0) by {
            if ly == 0 {
                assert(tiles[i].height != h);
            }
        }
        let half = side_of((ly - 1) as nat);
        let top = top_of(tiles, chosen, y + half);
        let bottom = bottom_of(tiles, chosen, y + half);
        lemma_halves_above(tiles, chosen, x, y, w, half);
        let p = lemma_cover_subdivides(tiles, top, lx, (ly - 1) as nat, x, y);
        let q = lemma_cover_subdivides(tiles, bottom, lx, (ly - 1) as nat, x, y + half);
        let s = Subdivision::Above(Box::new(p), Box::new(q));
        assert(parts_of(s) =~= chosen);
        s
    }
}

/// Every exact cover of an aligned window by aligned candidates is put together from
/// halves, and none costs less than the best plan of the window.
pub proof fn law_no_exact_cover_is_cheaper<A: OrderedAmount>(
    tiles: Seq<PartitionTile<A>>,
    chosen: Set<int>,
    lx: nat,
    ly: nat,
    x: int,
    y: int,
)
    requires
        lx <= 2,
        ly <= 2,
        0 <= x,
        0 <= y,
        x % side_of(lx) == 0,
        y % side_of(ly) == 0,
        covers_exactly(tiles, chosen, x, y, side_of(lx), side_of(ly)),
    ensures
        exists|s: Subdivision| #[trigger]
            subdivides(tiles, s, lx, ly, x, y) && parts_of(s) == chosen && !subdivision_cost(
                tiles,
                s,
            ).less_spec(best_plan(tiles, lx, ly, x, y).cost),
{
    let s = lemma_cover_subdivides(tiles, chosen, lx, ly, x, y);
    law_no_subdivision_is_cheaper(tiles, s, lx, ly, x, y);
}

} // verus!
