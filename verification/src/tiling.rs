//! When a strategy map is a tiling, and what keeps it one.

use crate::strategy::{covered_x, covered_y, STRATEGY_DCT};
use crate::strategy_map::{in_footprint, in_window, with_first, Cell, Layout, Placement};
use vstd::prelude::*;

verus! {

/// `(x, y)` is a block of a `w x h` layout.
pub open spec fn in_bounds(w: int, h: int, x: int, y: int) -> bool {
    0 <= x < w && 0 <= y < h
}

/// A layout is `w` blocks wide and `h` blocks tall.
pub open spec fn shaped(v: Layout, w: int, h: int) -> bool {
    &&& v.len() == h
    &&& forall|j: int| 0 <= j < h ==> (#[trigger] v[j]).len() == w
}

/// `(fx, fy)` is a first block whose footprint holds `(x, y)`.
pub open spec fn covers(v: Layout, fx: int, fy: int, x: int, y: int) -> bool {
    v[fy][fx].first && in_window(
        fx,
        fy,
        covered_x(v[fy][fx].strategy),
        covered_y(v[fy][fx].strategy),
        x,
        y,
    )
}

/// Some first block's footprint holds `(x, y)`.
pub open spec fn covered(v: Layout, w: int, h: int, x: int, y: int) -> bool {
    exists|fx: int, fy: int| in_bounds(w, h, fx, fy) && #[trigger] covers(v, fx, fy, x, y)
}

/// Every block belongs to the footprint of exactly one first block, carries
/// that block's strategy, and no footprint leaves the layout.
pub open spec fn tiled(v: Layout, w: int, h: int) -> bool {
    &&& shaped(v, w, h)
    &&& forall|fx: int, fy: int|
        in_bounds(w, h, fx, fy) && (#[trigger] v[fy][fx]).first ==> fx + covered_x(
            v[fy][fx].strategy,
        ) <= w && fy + covered_y(v[fy][fx].strategy) <= h
    &&& forall|x: int, y: int| in_bounds(w, h, x, y) ==> #[trigger] covered(v, w, h, x, y)
    &&& forall|fx: int, fy: int, gx: int, gy: int, x: int, y: int|
        in_bounds(w, h, fx, fy) && in_bounds(w, h, gx, gy) && #[trigger] covers(v, fx, fy, x, y)
            && #[trigger] covers(v, gx, gy, x, y) ==> fx == gx && fy == gy
    &&& forall|fx: int, fy: int, x: int, y: int|
        in_bounds(w, h, fx, fy) && in_bounds(w, h, x, y) && #[trigger] covers(v, fx, fy, x, y)
            ==> v[y][x].strategy == v[fy][fx].strategy
}

/// A layout after a sequence of placements.
pub open spec fn place_all(v: Layout, placements: Seq<Placement>) -> Layout
    decreases placements.len(),
{
    if placements.len() == 0 {
        v
    } else {
        let p = placements.last();
        with_first(place_all(v, placements.drop_last()), p.x as int, p.y as int, p.strategy)
    }
}

/// The footprint of a placement lies within a `w x h` layout.
pub open spec fn placeable(p: Placement, w: int, h: int) -> bool {
    p.x + covered_x(p.strategy) <= w && p.y + covered_y(p.strategy) <= h
}

/// No block lies in two footprints.
pub open spec fn disjoint(placements: Seq<Placement>) -> bool {
    forall|i: int, j: int, x: int, y: int|
        0 <= i < j < placements.len() && #[trigger] in_footprint(placements[i], x, y)
            ==> !#[trigger] in_footprint(placements[j], x, y)
}

/// `(x, y)` lies in one of the footprints.
pub open spec fn in_union(placements: Seq<Placement>, x: int, y: int) -> bool {
    exists|i: int| 0 <= i < placements.len() && #[trigger] in_footprint(placements[i], x, y)
}

/// Every first block that touches one of the footprints lies wholly in their
/// union.
pub open spec fn swallowed(v: Layout, w: int, h: int, placements: Seq<Placement>) -> bool {
    forall|fx: int, fy: int, x: int, y: int, a: int, b: int|
        in_bounds(w, h, fx, fy) && #[trigger] covers(v, fx, fy, x, y) && #[trigger] covers(
            v,
            fx,
            fy,
            a,
            b,
        ) && in_union(placements, x, y) ==> in_union(placements, a, b)
}

/// Disjoint placements rewrite exactly the blocks of their footprints, each
/// with its own strategy and first block.
pub proof fn lemma_place_all_at(v: Layout, w: int, h: int, placements: Seq<Placement>)
    requires
        shaped(v, w, h),
        disjoint(placements),
    ensures
        shaped(place_all(v, placements), w, h),
        forall|i: int, x: int, y: int|
            0 <= i < placements.len() && in_bounds(w, h, x, y) && #[trigger] in_footprint(
                placements[i],
                x,
                y,
            ) ==> place_all(v, placements)[y][x] == (Cell {
                strategy: placements[i].strategy,
                first: x == placements[i].x && y == placements[i].y,
            }),
        forall|x: int, y: int|
            in_bounds(w, h, x, y) && !in_union(placements, x, y) ==> #[trigger] place_all(
                v,
                placements,
            )[y][x] == v[y][x],
    decreases placements.len(),
{
    if placements.len() > 0 {
        let head = placements.drop_last();
        let p = placements.last();
        assert(disjoint(head)) by {
            assert forall|i: int, j: int, x: int, y: int|
                0 <= i < j < head.len() && #[trigger] in_footprint(
                    head[i],
                    x,
                    y,
                ) implies !#[trigger] in_footprint(head[j], x, y) by {
                assert(in_footprint(placements[i], x, y));
                assert(head[j] == placements[j]);
            }
        }
        lemma_place_all_at(v, w, h, head);
        let before = place_all(v, head);
        let after = place_all(v, placements);
        assert forall|i: int, x: int, y: int|
            0 <= i < placements.len() && in_bounds(w, h, x, y) && #[trigger] in_footprint(
                placements[i],
                x,
                y,
            ) implies after[y][x] == (Cell {
            strategy: placements[i].strategy,
            first: x == placements[i].x && y == placements[i].y,
        }) by {
            if i < placements.len() - 1 {
                assert(head[i] == placements[i]);
                assert(in_footprint(head[i], x, y));
                assert(!in_footprint(placements[placements.len() - 1], x, y));
            }
        }
        assert forall|x: int, y: int|
            in_bounds(w, h, x, y) && !in_union(placements, x, y) implies #[trigger] after[y][x]
            == v[y][x] by {
            assert(!in_footprint(placements[placements.len() - 1], x, y));
            if in_union(head, x, y) {
                let i = choose|i: int| 0 <= i < head.len() && #[trigger] in_footprint(head[i], x, y);
                assert(in_footprint(placements[i], x, y));
            }
            assert(before[y][x] == v[y][x]);
        }
    }
}

/// Where a first block of the result comes from: the number of the placement
/// that put it down, or `None` for a first block that was there before and
/// whose whole footprint the placements leave alone.
proof fn lemma_origin(
    v: Layout,
    w: int,
    h: int,
    placements: Seq<Placement>,
    fx: int,
    fy: int,
    x: int,
    y: int,
) -> (r: Option<int>)
    requires
        shaped(v, w, h),
        disjoint(placements),
        swallowed(v, w, h, placements),
        in_bounds(w, h, fx, fy),
        covers(place_all(v, placements), fx, fy, x, y),
    ensures
        match r {
            Some(i) => 0 <= i < placements.len() && placements[i].x == fx && placements[i].y == fy
                && place_all(v, placements)[fy][fx].strategy == placements[i].strategy
                && in_footprint(placements[i], x, y),
            None => covers(v, fx, fy, x, y) && !in_union(placements, x, y) && place_all(
                v,
                placements,
            )[fy][fx] == v[fy][fx],
        },
{
    lemma_place_all_at(v, w, h, placements);
    let after = place_all(v, placements);
    if in_union(placements, fx, fy) {
        let i = choose|i: int|
            0 <= i < placements.len() && #[trigger] in_footprint(placements[i], fx, fy);
        Some(i)
    } else {
        assert(after[fy][fx] == v[fy][fx]);
        assert(covers(v, fx, fy, x, y));
        assert(covers(v, fx, fy, fx, fy));
        None
    }
}

proof fn lemma_result_covered(
    v: Layout,
    w: int,
    h: int,
    placements: Seq<Placement>,
    x: int,
    y: int,
) -> (r: (int, int))
    requires
        shaped(v, w, h),
        disjoint(placements),
        swallowed(v, w, h, placements),
        forall|i: int| 0 <= i < placements.len() ==> placeable(#[trigger] placements[i], w, h),
        in_bounds(w, h, x, y),
        covered(v, w, h, x, y),
    ensures
        in_bounds(w, h, r.0, r.1),
        covers(place_all(v, placements), r.0, r.1, x, y),
{
    lemma_place_all_at(v, w, h, placements);
    let after = place_all(v, placements);
    if in_union(placements, x, y) {
        let i = choose|i: int|
            0 <= i < placements.len() && #[trigger] in_footprint(placements[i], x, y);
        let p = placements[i];
        assert(placeable(p, w, h));
        assert(in_footprint(placements[i], p.x as int, p.y as int));
        (p.x as int, p.y as int)
    } else {
        let (fx, fy) = choose|fx: int, fy: int|
            in_bounds(w, h, fx, fy) && #[trigger] covers(v, fx, fy, x, y);
        assert(covers(v, fx, fy, fx, fy));
        assert(!in_union(placements, fx, fy));
        assert(after[fy][fx] == v[fy][fx]);
        (fx, fy)
    }
}

proof fn lemma_result_unique(
    v: Layout,
    w: int,
    h: int,
    placements: Seq<Placement>,
    fx: int,
    fy: int,
    gx: int,
    gy: int,
    x: int,
    y: int,
)
    requires
        shaped(v, w, h),
        disjoint(placements),
        swallowed(v, w, h, placements),
        in_bounds(w, h, fx, fy),
        in_bounds(w, h, gx, gy),
        covers(place_all(v, placements), fx, fy, x, y),
        covers(place_all(v, placements), gx, gy, x, y),
        covers(v, fx, fy, x, y) && covers(v, gx, gy, x, y) ==> fx == gx && fy == gy,
    ensures
        fx == gx && fy == gy,
{
    let f = lemma_origin(v, w, h, placements, fx, fy, x, y);
    let g = lemma_origin(v, w, h, placements, gx, gy, x, y);
    if f is Some && g is Some {
        let i = f->0;
        let j = g->0;
        if i < j {
            assert(in_footprint(placements[i], x, y) && in_footprint(placements[j], x, y));
        } else if j < i {
            assert(in_footprint(placements[j], x, y) && in_footprint(placements[i], x, y));
        }
    } else if f is Some {
        assert(in_footprint(placements[f->0], x, y));
        assert(in_union(placements, x, y));
    } else if g is Some {
        assert(in_footprint(placements[g->0], x, y));
        assert(in_union(placements, x, y));
    }
}

proof fn lemma_result_carried(
    v: Layout,
    w: int,
    h: int,
    placements: Seq<Placement>,
    fx: int,
    fy: int,
    x: int,
    y: int,
)
    requires
        shaped(v, w, h),
        disjoint(placements),
        swallowed(v, w, h, placements),
        in_bounds(w, h, fx, fy),
        in_bounds(w, h, x, y),
        covers(place_all(v, placements), fx, fy, x, y),
        covers(v, fx, fy, x, y) ==> v[y][x].strategy == v[fy][fx].strategy,
    ensures
        place_all(v, placements)[y][x].strategy == place_all(v, placements)[fy][fx].strategy,
{
    lemma_place_all_at(v, w, h, placements);
    let f = lemma_origin(v, w, h, placements, fx, fy, x, y);
    if f is Some {
        assert(in_footprint(placements[f->0], x, y));
    }
}

proof fn lemma_result_fits(
    v: Layout,
    w: int,
    h: int,
    placements: Seq<Placement>,
    fx: int,
    fy: int,
)
    requires
        shaped(v, w, h),
        disjoint(placements),
        swallowed(v, w, h, placements),
        forall|i: int| 0 <= i < placements.len() ==> placeable(#[trigger] placements[i], w, h),
        in_bounds(w, h, fx, fy),
        place_all(v, placements)[fy][fx].first,
        v[fy][fx].first ==> fx + covered_x(v[fy][fx].strategy) <= w && fy + covered_y(
            v[fy][fx].strategy,
        ) <= h,
    ensures
        fx + covered_x(place_all(v, placements)[fy][fx].strategy) <= w,
        fy + covered_y(place_all(v, placements)[fy][fx].strategy) <= h,
{
    assert(covers(place_all(v, placements), fx, fy, fx, fy));
    let f = lemma_origin(v, w, h, placements, fx, fy, fx, fy);
    if f is Some {
        assert(placeable(placements[f->0], w, h));
    }
}

/// Placements that do not overlap, fit the layout and swallow every first block
/// they touch turn a tiling into a tiling.
pub proof fn law_placements_keep_tiling(v: Layout, w: int, h: int, placements: Seq<Placement>)
    requires
        tiled(v, w, h),
        disjoint(placements),
        forall|i: int| 0 <= i < placements.len() ==> placeable(#[trigger] placements[i], w, h),
        swallowed(v, w, h, placements),
    ensures
        tiled(place_all(v, placements), w, h),
{
    let after = place_all(v, placements);
    assert(shaped(after, w, h)) by {
        lemma_place_all_at(v, w, h, placements);
    }
    assert forall|fx: int, fy: int|
        in_bounds(w, h, fx, fy) && (#[trigger] after[fy][fx]).first implies fx + covered_x(
        after[fy][fx].strategy,
    ) <= w && fy + covered_y(after[fy][fx].strategy) <= h by {
        assert(v[fy][fx].first ==> fx + covered_x(v[fy][fx].strategy) <= w);
        lemma_result_fits(v, w, h, placements, fx, fy);
    }
    assert forall|x: int, y: int| in_bounds(w, h, x, y) implies #[trigger] covered(
        after,
        w,
        h,
        x,
        y,
    ) by {
        assert(covered(v, w, h, x, y));
        let (fx, fy) = lemma_result_covered(v, w, h, placements, x, y);
        assert(covers(after, fx, fy, x, y));
    }
    assert forall|fx: int, fy: int, gx: int, gy: int, x: int, y: int|
        in_bounds(w, h, fx, fy) && in_bounds(w, h, gx, gy) && #[trigger] covers(
            after,
            fx,
            fy,
            x,
            y,
        ) && #[trigger] covers(after, gx, gy, x, y) implies fx == gx && fy == gy by {
        lemma_result_unique(v, w, h, placements, fx, fy, gx, gy, x, y);
    }
    assert forall|fx: int, fy: int, x: int, y: int|
        in_bounds(w, h, fx, fy) && in_bounds(w, h, x, y) && #[trigger] covers(
            after,
            fx,
            fy,
            x,
            y,
        ) implies after[y][x].strategy == after[fy][fx].strategy by {
        lemma_result_carried(v, w, h, placements, fx, fy, x, y);
    }
}

/// A layout of 8x8 blocks is a tiling.
pub proof fn law_single_blocks_tile(v: Layout, w: int, h: int)
    requires
        shaped(v, w, h),
        forall|x: int, y: int|
            in_bounds(w, h, x, y) ==> #[trigger] v[y][x] == (Cell {
                strategy: STRATEGY_DCT,
                first: true,
            }),
    ensures
        tiled(v, w, h),
{
    assert forall|x: int, y: int| in_bounds(w, h, x, y) implies #[trigger] covered(
        v,
        w,
        h,
        x,
        y,
    ) by {
        assert(covers(v, x, y, x, y));
    }
}

/// Every first block that touches the `cw x ch` window at `(bx, by)` lies wholly
/// in it.
pub open spec fn closed_window(
    v: Layout,
    w: int,
    h: int,
    bx: int,
    by: int,
    cw: int,
    ch: int,
) -> bool {
    forall|fx: int, fy: int, x: int, y: int, a: int, b: int|
        in_bounds(w, h, fx, fy) && #[trigger] covers(v, fx, fy, x, y) && #[trigger] covers(
            v,
            fx,
            fy,
            a,
            b,
        ) && in_window(bx, by, cw, ch, x, y) ==> in_window(bx, by, cw, ch, a, b)
}

/// Two windows have no block in common.
pub open spec fn apart(
    ax: int,
    ay: int,
    aw: int,
    ah: int,
    bx: int,
    by: int,
    bw: int,
    bh: int,
) -> bool {
    ax + aw <= bx || bx + bw <= ax || ay + ah <= by || by + bh <= ay
}

/// The second window lies in the first.
pub open spec fn encloses(
    ax: int,
    ay: int,
    aw: int,
    ah: int,
    bx: int,
    by: int,
    bw: int,
    bh: int,
) -> bool {
    ax <= bx && bx + bw <= ax + aw && ay <= by && by + bh <= ay + ah
}

/// A change within the window at `(bx, by)` leaves every closed window closed
/// that encloses it or has nothing in common with it.
pub open spec fn keeps_windows(
    v: Layout,
    after: Layout,
    w: int,
    h: int,
    bx: int,
    by: int,
    cw: int,
    ch: int,
) -> bool {
    forall|x: int, y: int, a: int, b: int|
        closed_window(v, w, h, x, y, a, b) && (apart(x, y, a, b, bx, by, cw, ch) || encloses(
            x,
            y,
            a,
            b,
            bx,
            by,
            cw,
            ch,
        )) ==> #[trigger] closed_window(after, w, h, x, y, a, b)
}

/// A strategy put down on exactly a closed window keeps the tiling, closes the
/// window, and leaves the windows around it and apart from it closed.
pub proof fn law_merge_on_closed_window(v: Layout, w: int, h: int, p: Placement)
    requires
        tiled(v, w, h),
        placeable(p, w, h),
        closed_window(
            v,
            w,
            h,
            p.x as int,
            p.y as int,
            covered_x(p.strategy),
            covered_y(p.strategy),
        ),
    ensures
        ({
            let after = with_first(v, p.x as int, p.y as int, p.strategy);
            let cx = covered_x(p.strategy);
            let cy = covered_y(p.strategy);
            &&& tiled(after, w, h)
            &&& closed_window(after, w, h, p.x as int, p.y as int, cx, cy)
            &&& keeps_windows(v, after, w, h, p.x as int, p.y as int, cx, cy)
        }),
{
    let ps = seq![p];
    let after = with_first(v, p.x as int, p.y as int, p.strategy);
    let cx = covered_x(p.strategy);
    let cy = covered_y(p.strategy);
    reveal_with_fuel(place_all, 2);
    assert(ps.drop_last() =~= Seq::<Placement>::empty());
    assert(place_all(v, ps) == after);
    assert forall|x: int, y: int| in_union(ps, x, y) == #[trigger] in_window(
        p.x as int,
        p.y as int,
        cx,
        cy,
        x,
        y,
    ) by {
        if in_window(p.x as int, p.y as int, cx, cy, x, y) {
            assert(in_footprint(ps[0], x, y));
        }
    }
    assert(disjoint(ps));
    assert(swallowed(v, w, h, ps)) by {
        assert forall|fx: int, fy: int, x: int, y: int, a: int, b: int|
            in_bounds(w, h, fx, fy) && #[trigger] covers(v, fx, fy, x, y) && #[trigger] covers(
                v,
                fx,
                fy,
                a,
                b,
            ) && in_union(ps, x, y) implies in_union(ps, a, b) by {
            assert(in_window(p.x as int, p.y as int, cx, cy, x, y));
            assert(in_window(p.x as int, p.y as int, cx, cy, a, b));
        }
    }
    law_placements_keep_tiling(v, w, h, ps);
    assert forall|wx: int, wy: int, ww: int, wh: int|
        (closed_window(v, w, h, wx, wy, ww, wh) && (apart(
            wx,
            wy,
            ww,
            wh,
            p.x as int,
            p.y as int,
            cx,
            cy,
        ) || encloses(wx, wy, ww, wh, p.x as int, p.y as int, cx, cy))) || (wx == p.x && wy == p.y
            && ww == cx && wh == cy) implies #[trigger] closed_window(
        after,
        w,
        h,
        wx,
        wy,
        ww,
        wh,
    ) by {
        assert forall|fx: int, fy: int, x: int, y: int, a: int, b: int|
            in_bounds(w, h, fx, fy) && #[trigger] covers(after, fx, fy, x, y) && #[trigger] covers(
                after,
                fx,
                fy,
                a,
                b,
            ) && in_window(wx, wy, ww, wh, x, y) implies in_window(wx, wy, ww, wh, a, b) by {
            let f = lemma_origin(v, w, h, ps, fx, fy, x, y);
            let g = lemma_origin(v, w, h, ps, fx, fy, a, b);
            if f is Some {
                assert(in_window(p.x as int, p.y as int, cx, cy, a, b));
            } else {
                assert(covers(v, fx, fy, x, y) && covers(v, fx, fy, a, b));
            }
        }
    }
}

/// Strategies that cover exactly a closed window, put down in its place, keep the
/// tiling, leave the window closed, and those around it and apart from it too.
pub proof fn law_cover_of_closed_window(
    v: Layout,
    w: int,
    h: int,
    bx: int,
    by: int,
    cx: int,
    cy: int,
    ps: Seq<Placement>,
)
    requires
        tiled(v, w, h),
        closed_window(v, w, h, bx, by, cx, cy),
        disjoint(ps),
        forall|i: int| 0 <= i < ps.len() ==> placeable(#[trigger] ps[i], w, h),
        forall|x: int, y: int| #[trigger] in_union(ps, x, y) == in_window(bx, by, cx, cy, x, y),
    ensures
        ({
            let after = place_all(v, ps);
            &&& tiled(after, w, h)
            &&& closed_window(after, w, h, bx, by, cx, cy)
            &&& keeps_windows(v, after, w, h, bx, by, cx, cy)
        }),
{
    let after = place_all(v, ps);
    assert(swallowed(v, w, h, ps)) by {
        assert forall|fx: int, fy: int, x: int, y: int, a: int, b: int|
            in_bounds(w, h, fx, fy) && #[trigger] covers(v, fx, fy, x, y) && #[trigger] covers(
                v,
                fx,
                fy,
                a,
                b,
            ) && in_union(ps, x, y) implies in_union(ps, a, b) by {
            assert(in_window(bx, by, cx, cy, x, y));
            assert(in_window(bx, by, cx, cy, a, b));
        }
    }
    law_placements_keep_tiling(v, w, h, ps);
    assert forall|wx: int, wy: int, ww: int, wh: int|
        (closed_window(v, w, h, wx, wy, ww, wh) && (apart(wx, wy, ww, wh, bx, by, cx, cy)
            || encloses(wx, wy, ww, wh, bx, by, cx, cy))) || (wx == bx && wy == by && ww == cx && wh
            == cy) implies #[trigger] closed_window(after, w, h, wx, wy, ww, wh) by {
        assert forall|fx: int, fy: int, x: int, y: int, a: int, b: int|
            in_bounds(w, h, fx, fy) && #[trigger] covers(after, fx, fy, x, y) && #[trigger] covers(
                after,
                fx,
                fy,
                a,
                b,
            ) && in_window(wx, wy, ww, wh, x, y) implies in_window(wx, wy, ww, wh, a, b) by {
            let f = lemma_origin(v, w, h, ps, fx, fy, x, y);
            let g = lemma_origin(v, w, h, ps, fx, fy, a, b);
            if f is Some {
                assert(in_footprint(ps[f->0], a, b));
                assert(in_union(ps, x, y));
                assert(in_union(ps, a, b));
            } else {
                assert(covers(v, fx, fy, x, y) && covers(v, fx, fy, a, b));
            }
        }
    }
}

/// Closed windows that are put together are closed.
pub proof fn lemma_closed_union(
    v: Layout,
    w: int,
    h: int,
    bx: int,
    by: int,
    cw: int,
    ch: int,
    dx: int,
    dy: int,
)
    requires
        dx == 0 && dy == ch || dx == cw && dy == 0,
        cw > 0,
        ch > 0,
        closed_window(v, w, h, bx, by, cw, ch),
        closed_window(v, w, h, bx + dx, by + dy, cw, ch),
    ensures
        closed_window(v, w, h, bx, by, cw + dx, ch + dy),
{
    assert forall|fx: int, fy: int, x: int, y: int, a: int, b: int|
        in_bounds(w, h, fx, fy) && #[trigger] covers(v, fx, fy, x, y) && #[trigger] covers(
            v,
            fx,
            fy,
            a,
            b,
        ) && in_window(bx, by, cw + dx, ch + dy, x, y) implies in_window(
        bx,
        by,
        cw + dx,
        ch + dy,
        a,
        b,
    ) by {
        if in_window(bx, by, cw, ch, x, y) {
            assert(in_window(bx, by, cw, ch, a, b));
        } else {
            assert(in_window(bx + dx, by + dy, cw, ch, x, y));
            assert(in_window(bx + dx, by + dy, cw, ch, a, b));
        }
    }
}

/// Every block of a window is a first block that covers nothing else.
pub open spec fn single_blocks(
    v: Layout,
    w: int,
    h: int,
    bx: int,
    by: int,
    cw: int,
    ch: int,
) -> bool {
    forall|x: int, y: int|
        in_window(bx, by, cw, ch, x, y) ==> #[trigger] closed_window(v, w, h, x, y, 1, 1)
}

/// In a tiling, first blocks of strategies over one block are single.
pub proof fn law_one_block_strategies_are_single(
    v: Layout,
    w: int,
    h: int,
    bx: int,
    by: int,
    cw: int,
    ch: int,
)
    requires
        tiled(v, w, h),
        0 <= bx,
        0 <= by,
        bx + cw <= w,
        by + ch <= h,
        forall|x: int, y: int|
            in_window(bx, by, cw, ch, x, y) ==> (#[trigger] v[y][x]).first && covered_x(
                v[y][x].strategy,
            ) == 1 && covered_y(v[y][x].strategy) == 1,
    ensures
        single_blocks(v, w, h, bx, by, cw, ch),
{
    assert forall|x: int, y: int| in_window(bx, by, cw, ch, x, y) implies #[trigger] closed_window(
        v,
        w,
        h,
        x,
        y,
        1,
        1,
    ) by {
        assert(v[y][x].first);
        assert(covers(v, x, y, x, y));
        assert forall|fx: int, fy: int, p: int, q: int, a: int, b: int|
            in_bounds(w, h, fx, fy) && #[trigger] covers(v, fx, fy, p, q) && #[trigger] covers(
                v,
                fx,
                fy,
                a,
                b,
            ) && in_window(x, y, 1, 1, p, q) implies in_window(x, y, 1, 1, a, b) by {
            assert(p == x && q == y);
            assert(in_bounds(w, h, x, y));
            assert(fx == x && fy == y);
        }
    }
}

} // verus!
