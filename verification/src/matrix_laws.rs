//! Changing the strategies of blocks for the sake of tables keeps the tilings.

use crate::amount::Amount;
use crate::matrix::{best_of, RegionView};
use crate::matrix_sites::{
    after_regions, all_tiled, divides, fill_row, fill_rows, layouts_of, lemma_best_of_listed,
    lemma_step, region_in, regions_in,
};
use crate::rerank_laws::{
    footprints_closed, lemma_one_replacement, lemma_own_footprints_closed,
};
use crate::strategy::{covered_x, covered_y};
use crate::strategy_map::{in_footprint, in_window, with_first, AcStrategyImage, Layout, Placement};
use crate::tiling::{disjoint, in_union, place_all, placeable, tiled};
use vstd::prelude::*;

verus! {

proof fn lemma_place_all_append(v: Layout, a: Seq<Placement>, b: Seq<Placement>)
    ensures
        place_all(v, a + b) == place_all(place_all(v, a), b),
    decreases b.len(),
{
    if b.len() == 0 {
        assert(a + b =~= a);
    } else {
        lemma_place_all_append(v, a, b.drop_last());
        assert((a + b).drop_last() =~= a + b.drop_last());
        assert((a + b).last() == b.last());
    }
}

/// Strategies that cover exactly a window.
pub open spec fn covers_window(
    ps: Seq<Placement>,
    w: int,
    h: int,
    bx: int,
    by: int,
    cx: int,
    cy: int,
) -> bool {
    &&& disjoint(ps)
    &&& forall|i: int| 0 <= i < ps.len() ==> placeable(#[trigger] ps[i], w, h)
    &&& forall|x: int, y: int| #[trigger]
        in_union(ps, x, y) == in_window(bx, by, cx, cy, x, y)
}

proof fn lemma_covers_append(
    a: Seq<Placement>,
    b: Seq<Placement>,
    w: int,
    h: int,
    bx: int,
    by: int,
    cx: int,
    cy: int,
    dx: int,
    dy: int,
)
    requires
        0 <= cx,
        0 <= cy,
        dx == 0 && dy >= 0 || dy == 0 && dx >= 0,
        covers_window(a, w, h, bx, by, cx, cy),
        dy == 0 ==> covers_window(b, w, h, bx + cx, by, dx, cy),
        dy > 0 ==> covers_window(b, w, h, bx, by + cy, cx, dy),
    ensures
        covers_window(a + b, w, h, bx, by, cx + dx, cy + dy),
{
    let c = a + b;
    assert forall|i: int| 0 <= i < c.len() implies placeable(#[trigger] c[i], w, h) by {
        if i < a.len() {
            assert(c[i] == a[i]);
        } else {
            assert(c[i] == b[i - a.len()]);
        }
    }
    assert forall|x: int, y: int| #[trigger] in_union(c, x, y) == (in_union(a, x, y) || in_union(
        b,
        x,
        y,
    )) by {
        if in_union(a, x, y) {
            let i = choose|i: int| 0 <= i < a.len() && #[trigger] in_footprint(a[i], x, y);
            assert(in_footprint(c[i], x, y));
        }
        if in_union(b, x, y) {
            let i = choose|i: int| 0 <= i < b.len() && #[trigger] in_footprint(b[i], x, y);
            assert(in_footprint(c[i + a.len()], x, y));
        }
        if in_union(c, x, y) {
            let i = choose|i: int| 0 <= i < c.len() && #[trigger] in_footprint(c[i], x, y);
            if i < a.len() {
                assert(in_footprint(a[i], x, y));
            } else {
                assert(in_footprint(b[i - a.len()], x, y));
            }
        }
    }
    assert forall|i: int, j: int, x: int, y: int|
        0 <= i < j < c.len() && #[trigger] in_footprint(c[i], x, y) implies !#[trigger] in_footprint(
        c[j],
        x,
        y,
    ) by {
        if j < a.len() {
            assert(in_footprint(a[i], x, y) && c[j] == a[j]);
        } else if i >= a.len() {
            assert(in_footprint(b[i - a.len()], x, y) && c[j] == b[j - a.len()]);
        } else if in_footprint(c[j], x, y) {
            assert(in_footprint(a[i], x, y));
            assert(in_footprint(b[j - a.len()], x, y));
            assert(in_union(a, x, y) && in_union(b, x, y));
        }
    }
}

/// One strategy repeated along a row.
spec fn row_placements(x: int, end: int, y: int, s: u8) -> Seq<Placement>
    decreases
            (if x < end {
                end - x
            } else {
                0
            }),
{
    if x < end {
        seq![Placement { x: x as usize, y: y as usize, strategy: s }] + row_placements(
            x + covered_x(s),
            end,
            y,
            s,
        )
    } else {
        Seq::empty()
    }
}

proof fn lemma_fill_row(v: Layout, w: int, h: int, x: int, end: int, y: int, s: u8)
    requires
        0 <= x <= end <= w <= usize::MAX,
        0 <= y,
        y + covered_y(s) <= h <= usize::MAX,
        (end - x) % covered_x(s) == 0,
    ensures
        fill_row(v, x, end, y, s) == place_all(v, row_placements(x, end, y, s)),
        covers_window(row_placements(x, end, y, s), w, h, x, y, end - x, covered_y(s)),
    decreases end - x,
{
    let ps = row_placements(x, end, y, s);
    let cx = covered_x(s);
    let cy = covered_y(s);
    if x < end {
        lemma_step(end - x, cx);
        let p = Placement { x: x as usize, y: y as usize, strategy: s };
        let one = seq![p];
        let rest = row_placements(x + cx, end, y, s);
        lemma_fill_row(with_first(v, x, y, s), w, h, x + cx, end, y, s);
        lemma_place_all_append(v, one, rest);
        reveal_with_fuel(place_all, 2);
        assert(one.drop_last() =~= Seq::<Placement>::empty());
        assert(place_all(v, one) == with_first(v, x, y, s));
        assert(covers_window(one, w, h, x, y, cx, cy)) by {
            assert forall|a: int, b: int| #[trigger] in_union(one, a, b) == in_window(
                x,
                y,
                cx,
                cy,
                a,
                b,
            ) by {
                if in_window(x, y, cx, cy, a, b) {
                    assert(in_footprint(one[0], a, b));
                }
            }
        }
        lemma_covers_append(one, rest, w, h, x, y, cx, cy, end - x - cx, 0);
    } else {
        assert(ps =~= Seq::<Placement>::empty());
        reveal_with_fuel(place_all, 1);
    }
}

/// One strategy repeated over a window.
spec fn window_placements(x: int, x_end: int, y: int, y_end: int, s: u8) -> Seq<Placement>
    decreases
            (if y < y_end {
                y_end - y
            } else {
                0
            }),
{
    if y < y_end {
        row_placements(x, x_end, y, s) + window_placements(x, x_end, y + covered_y(s), y_end, s)
    } else {
        Seq::empty()
    }
}

proof fn lemma_fill_rows(
    v: Layout,
    w: int,
    h: int,
    x: int,
    x_end: int,
    y: int,
    y_end: int,
    s: u8,
)
    requires
        0 <= x <= x_end <= w <= usize::MAX,
        0 <= y <= y_end <= h <= usize::MAX,
        (x_end - x) % covered_x(s) == 0,
        (y_end - y) % covered_y(s) == 0,
    ensures
        fill_rows(v, x, x_end, y, y_end, s) == place_all(
            v,
            window_placements(x, x_end, y, y_end, s),
        ),
        covers_window(
            window_placements(x, x_end, y, y_end, s),
            w,
            h,
            x,
            y,
            x_end - x,
            y_end - y,
        ),
    decreases y_end - y,
{
    let cy = covered_y(s);
    if y < y_end {
        lemma_step(y_end - y, cy);
        let row = row_placements(x, x_end, y, s);
        let rest = window_placements(x, x_end, y + cy, y_end, s);
        lemma_fill_row(v, w, h, x, x_end, y, s);
        lemma_fill_rows(place_all(v, row), w, h, x, x_end, y + cy, y_end, s);
        lemma_place_all_append(v, row, rest);
        if y + cy < y_end {
            lemma_covers_append(row, rest, w, h, x, y, x_end - x, cy, 0, y_end - y - cy);
        } else {
            assert(rest =~= Seq::<Placement>::empty());
            assert(row + rest =~= row);
        }
    } else {
        assert(window_placements(x, x_end, y, y_end, s) =~= Seq::<Placement>::empty());
    }
}

/// Every layout is a tiling in which the footprints of the maps' first blocks are
/// closed windows.
spec fn layouts_follow(maps: Seq<AcStrategyImage>, layouts: Seq<Layout>) -> bool {
    layouts.len() == maps.len() && forall|i: int|
        0 <= i < maps.len() ==> tiled(
            #[trigger] layouts[i],
            maps[i].width() as int,
            maps[i].height() as int,
        ) && footprints_closed(
            maps[i]@,
            layouts[i],
            maps[i].width() as int,
            maps[i].height() as int,
        )
}

proof fn lemma_after_regions<A: Amount>(
    maps: Seq<AcStrategyImage>,
    regions: Seq<RegionView<A>>,
    allowed: u16,
    n: int,
)
    requires
        all_tiled(maps),
        regions_in(maps, regions),
        0 <= n <= regions.len(),
    ensures
        layouts_follow(maps, after_regions(layouts_of(maps), regions, allowed, n)),
    decreases n,
{
    if n > 0 {
        lemma_after_regions(maps, regions, allowed, n - 1);
        let head = after_regions(layouts_of(maps), regions, allowed, n - 1);
        let now = after_regions(layouts_of(maps), regions, allowed, n);
        let r = regions[n - 1];
        assert(region_in(maps, r));
        lemma_best_of_listed(r.alternatives, allowed, r.alternatives.len() as int);
        let best = best_of(r.alternatives, allowed, r.alternatives.len() as int);
        if best is Some {
            let s = best->0.strategy;
            let k = choose|k: int| 0 <= k < r.alternatives.len() && r.alternatives[k] == best->0;
            assert(divides(r.alternatives[k].strategy, r.width, r.height));
            let m = maps[r.dc];
            let w = m.width() as int;
            let h = m.height() as int;
            let u = head[r.dc];
            assert(tiled(head[r.dc], w, h));
            lemma_fill_rows(u, w, h, r.bx, r.bx + r.width, r.by, r.by + r.height, s);
            lemma_one_replacement(
                m@,
                u,
                w,
                h,
                r.bx,
                r.by,
                window_placements(r.bx, r.bx + r.width, r.by, r.by + r.height, s),
            );
            assert forall|i: int| 0 <= i < maps.len() implies tiled(
                #[trigger] now[i],
                maps[i].width() as int,
                maps[i].height() as int,
            ) && footprints_closed(
                maps[i]@,
                now[i],
                maps[i].width() as int,
                maps[i].height() as int,
            ) by {
                if i != r.dc {
                    assert(now[i] == head[i]);
                }
            }
        }
    } else {
        assert forall|i: int| 0 <= i < maps.len() implies tiled(
            #[trigger] layouts_of(maps)[i],
            maps[i].width() as int,
            maps[i].height() as int,
        ) && footprints_closed(
            maps[i]@,
            layouts_of(maps)[i],
            maps[i].width() as int,
            maps[i].height() as int,
        ) by {
            assert(layouts_of(maps)[i] == maps[i]@);
            lemma_own_footprints_closed(
                maps[i]@,
                maps[i].width() as int,
                maps[i].height() as int,
            );
        }
    }
}

/// However regions of the maps change for the sake of the tables, every map stays
/// a tiling.
pub proof fn law_table_changes_keep_tilings<A: Amount>(
    maps: Seq<AcStrategyImage>,
    regions: Seq<RegionView<A>>,
    allowed: u16,
    i: int,
)
    requires
        all_tiled(maps),
        regions_in(maps, regions),
        0 <= i < maps.len(),
    ensures
        tiled(
            after_regions(layouts_of(maps), regions, allowed, regions.len() as int)[i],
            maps[i].width() as int,
            maps[i].height() as int,
        ),
{
    lemma_after_regions(maps, regions, allowed, regions.len() as int);
    let now = after_regions(layouts_of(maps), regions, allowed, regions.len() as int);
    assert(tiled(now[i], maps[i].width() as int, maps[i].height() as int));
}

} // verus!
