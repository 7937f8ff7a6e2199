//! Selection turns a layout of single blocks into a tiling.

use crate::amount::Amount;
use crate::bands::{
    band_sites, contiguous, law_sites_do_not_overlap, lemma_bands_within, lemma_sites_inside, spread,
    Site,
};
use crate::merge::{best_partition, lemma_best_partition_listed, MERGE_PARTITIONS};
use crate::selection::{
    after_sites, commit32, cost32, region_step, super_cost, super_step, BandState, SelectionParams,
    SiteCosts,
};
use crate::strategy::{covered_x, covered_y};
use crate::strategy_map::{in_window, rows_replaced, with_first, Layout, Placement};
use crate::super_block::{
    captured, choice_placements, leaf_totals, merge16_sites_spec, merge32_sites_spec, stands_out,
    super_choice, window_stands_out, SuperBlockCosts,
};
use crate::tiling::{
    apart, closed_window, encloses, keeps_windows, law_merge_on_closed_window, lemma_closed_union,
    place_all, placeable, single_blocks, tiled,
};
use vstd::prelude::*;

verus! {

proof fn lemma_pair_closed(v: Layout, w: int, h: int, x: int, y: int, dx: int, dy: int)
    requires
        dx == 1 && dy == 0 || dx == 0 && dy == 1,
        closed_window(v, w, h, x, y, 1, 1),
        closed_window(v, w, h, x + dx, y + dy, 1, 1),
    ensures
        closed_window(v, w, h, x, y, 1 + dx, 1 + dy),
{
    lemma_closed_union(v, w, h, x, y, 1, 1, dx, dy);
}

/// The square and the halves of a super-block of single blocks are closed
/// windows.
pub(crate) proof fn lemma_super_windows(v: Layout, w: int, h: int, bx: int, by: int)
    requires
        single_blocks(v, w, h, bx, by, 2, 2),
    ensures
        closed_window(v, w, h, bx, by, 2, 2),
        closed_window(v, w, h, bx, by, 1, 2),
        closed_window(v, w, h, bx + 1, by, 1, 2),
        closed_window(v, w, h, bx, by, 2, 1),
        closed_window(v, w, h, bx, by + 1, 2, 1),
{
    assert(in_window(bx, by, 2, 2, bx, by) && in_window(bx, by, 2, 2, bx + 1, by) && in_window(
        bx,
        by,
        2,
        2,
        bx,
        by + 1,
    ) && in_window(bx, by, 2, 2, bx + 1, by + 1));
    lemma_pair_closed(v, w, h, bx, by, 0, 1);
    lemma_pair_closed(v, w, h, bx + 1, by, 0, 1);
    lemma_pair_closed(v, w, h, bx, by, 1, 0);
    lemma_pair_closed(v, w, h, bx, by + 1, 1, 0);
    lemma_closed_union(v, w, h, bx, by, 1, 2, 1, 0);
}

/// Keeping windows chains, and holds of a larger window too.
pub(crate) proof fn lemma_keeps_chain(
    a: Layout,
    b: Layout,
    c: Layout,
    w: int,
    h: int,
    bx: int,
    by: int,
    cw: int,
    ch: int,
    ix: int,
    iy: int,
    iw: int,
    ih: int,
)
    requires
        keeps_windows(a, b, w, h, bx, by, cw, ch),
        keeps_windows(b, c, w, h, ix, iy, iw, ih),
        encloses(bx, by, cw, ch, ix, iy, iw, ih),
    ensures
        keeps_windows(a, c, w, h, bx, by, cw, ch),
{
    assert forall|x: int, y: int, p: int, q: int|
        closed_window(a, w, h, x, y, p, q) && (apart(x, y, p, q, bx, by, cw, ch) || encloses(
            x,
            y,
            p,
            q,
            bx,
            by,
            cw,
            ch,
        )) implies #[trigger] closed_window(c, w, h, x, y, p, q) by {
        assert(closed_window(b, w, h, x, y, p, q));
    }
}

pub(crate) proof fn lemma_keeps_self(a: Layout, w: int, h: int, bx: int, by: int, cw: int, ch: int)
    ensures
        keeps_windows(a, a, w, h, bx, by, cw, ch),
{
}

/// Deciding on a super-block of single blocks keeps the tiling and leaves the
/// super-block closed.
pub proof fn law_super_step_tiles<A: Amount>(
    w: int,
    h: int,
    p: SelectionParams<A>,
    c: SuperBlockCosts<A>,
    bx: int,
    by: int,
    s: BandState<A>,
)
    requires
        tiled(s.layout, w, h),
        single_blocks(s.layout, w, h, bx, by, 2, 2),
        0 <= bx,
        bx + 2 <= w <= usize::MAX,
        0 <= by,
        by + 2 <= h <= usize::MAX,
    ensures
        ({
            let after = super_step(w, h, p, c, bx, by, s);
            &&& tiled(after.layout, w, h)
            &&& closed_window(after.layout, w, h, bx, by, 2, 2)
            &&& keeps_windows(s.layout, after.layout, w, h, bx, by, 2, 2)
        }),
{
    let choice = super_choice(w, h, bx, by, p.rectangles, p.policy.raw_propagation, p.tuning, c);
    let ps = choice_placements(choice, bx, by);
    let sites = merge16_sites_spec(bx, by);
    let v = s.layout;
    lemma_super_windows(v, w, h, bx, by);
    lemma_keeps_self(v, w, h, bx, by, 2, 2);
    reveal_with_fuel(place_all, 3);
    if ps.len() >= 1 {
        let one = with_first(v, ps[0].x as int, ps[0].y as int, ps[0].strategy);
        assert(placeable(ps[0], w, h));
        law_merge_on_closed_window(v, w, h, ps[0]);
        lemma_keeps_chain(
            v,
            v,
            one,
            w,
            h,
            bx,
            by,
            2,
            2,
            ps[0].x as int,
            ps[0].y as int,
            covered_x(ps[0].strategy),
            covered_y(ps[0].strategy),
        );
        assert(closed_window(one, w, h, bx, by, 2, 2));
        if ps.len() == 1 {
            assert(ps =~= seq![ps[0]]);
            assert(ps.drop_last() =~= Seq::<Placement>::empty());
            assert(place_all(v, ps) == one);
        } else {
            assert(ps.len() == 2);
            assert(ps.drop_last() =~= seq![ps[0]]);
            assert(seq![ps[0]].drop_last() =~= Seq::<Placement>::empty());
            assert(place_all(v, seq![ps[0]]) == one);
            let two = with_first(one, ps[1].x as int, ps[1].y as int, ps[1].strategy);
            assert(place_all(v, ps) == two);
            assert(placeable(ps[1], w, h));
            assert(closed_window(
                one,
                w,
                h,
                ps[1].x as int,
                ps[1].y as int,
                covered_x(ps[1].strategy),
                covered_y(ps[1].strategy),
            ));
            law_merge_on_closed_window(one, w, h, ps[1]);
            lemma_keeps_chain(
                v,
                one,
                two,
                w,
                h,
                bx,
                by,
                2,
                2,
                ps[1].x as int,
                ps[1].y as int,
                covered_x(ps[1].strategy),
                covered_y(ps[1].strategy),
            );
        }
    } else {
        assert(ps =~= Seq::<Placement>::empty());
    }
}

/// Committing a set of merges that do not overlap over four closed super-blocks
/// keeps the tiling and leaves the region closed.
proof fn lemma_commit32_tiles<A>(
    w: int,
    h: int,
    bx: int,
    by: int,
    mask: u8,
    s: BandState<A>,
)
    requires
        tiled(s.layout, w, h),
        closed_window(s.layout, w, h, bx, by, 2, 2),
        closed_window(s.layout, w, h, bx + 2, by, 2, 2),
        closed_window(s.layout, w, h, bx, by + 2, 2, 2),
        closed_window(s.layout, w, h, bx + 2, by + 2, 2, 2),
        MERGE_PARTITIONS@.contains(mask),
        0 <= bx,
        bx + 4 <= w <= usize::MAX,
        0 <= by,
        by + 4 <= h <= usize::MAX,
    ensures
        ({
            let after = commit32(s, bx, by, mask, 5);
            &&& tiled(after.layout, w, h)
            &&& closed_window(after.layout, w, h, bx, by, 4, 4)
            &&& keeps_windows(s.layout, after.layout, w, h, bx, by, 4, 4)
        }),
{
    let v = s.layout;
    lemma_closed_union(v, w, h, bx, by, 2, 2, 2, 0);
    lemma_closed_union(v, w, h, bx, by + 2, 2, 2, 2, 0);
    lemma_closed_union(v, w, h, bx, by, 2, 2, 0, 2);
    lemma_closed_union(v, w, h, bx + 2, by, 2, 2, 0, 2);
    lemma_closed_union(v, w, h, bx, by, 4, 2, 0, 2);
    lemma_keeps_self(v, w, h, bx, by, 4, 4);
    let sites = merge32_sites_spec(bx, by);
    assert(mask == 0 || mask == 1 || mask == 2 || mask == 4 || mask == 6 || mask == 8 || mask == 16
        || mask == 24) by {
        let m = MERGE_PARTITIONS@;
        let i = choose|i: int| 0 <= i < m.len() && m[i] == mask;
        assert(m[0] == 0 && m[1] == 1 && m[2] == 2 && m[3] == 4 && m[4] == 6 && m[5] == 8 && m[6]
            == 16 && m[7] == 24);
    }
    reveal_with_fuel(commit32, 6);
    if mask == 1 {
        lemma_one_merge(v, w, h, bx, by, sites[0]);
    } else if mask == 2 {
        lemma_one_merge(v, w, h, bx, by, sites[1]);
    } else if mask == 4 {
        lemma_one_merge(v, w, h, bx, by, sites[2]);
    } else if mask == 8 {
        lemma_one_merge(v, w, h, bx, by, sites[3]);
    } else if mask == 16 {
        lemma_one_merge(v, w, h, bx, by, sites[4]);
    } else if mask == 6 {
        lemma_two_merges(v, w, h, bx, by, sites[1], sites[2]);
    } else if mask == 24 {
        lemma_two_merges(v, w, h, bx, by, sites[3], sites[4]);
    }
}

pub(crate) proof fn lemma_one_merge(v: Layout, w: int, h: int, bx: int, by: int, p: Placement)
    requires
        tiled(v, w, h),
        placeable(p, w, h),
        closed_window(v, w, h, bx, by, 4, 4),
        closed_window(
            v,
            w,
            h,
            p.x as int,
            p.y as int,
            covered_x(p.strategy),
            covered_y(p.strategy),
        ),
        encloses(bx, by, 4, 4, p.x as int, p.y as int, covered_x(p.strategy), covered_y(p.strategy)),
    ensures
        ({
            let one = with_first(v, p.x as int, p.y as int, p.strategy);
            &&& tiled(one, w, h)
            &&& closed_window(one, w, h, bx, by, 4, 4)
            &&& keeps_windows(v, one, w, h, bx, by, 4, 4)
            &&& keeps_windows(
                v,
                one,
                w,
                h,
                p.x as int,
                p.y as int,
                covered_x(p.strategy),
                covered_y(p.strategy),
            )
        }),
{
    let one = with_first(v, p.x as int, p.y as int, p.strategy);
    law_merge_on_closed_window(v, w, h, p);
    lemma_keeps_self(v, w, h, bx, by, 4, 4);
    lemma_keeps_chain(
        v,
        v,
        one,
        w,
        h,
        bx,
        by,
        4,
        4,
        p.x as int,
        p.y as int,
        covered_x(p.strategy),
        covered_y(p.strategy),
    );
}

pub(crate) proof fn lemma_two_merges(
    v: Layout,
    w: int,
    h: int,
    bx: int,
    by: int,
    p: Placement,
    q: Placement,
)
    requires
        tiled(v, w, h),
        placeable(p, w, h),
        placeable(q, w, h),
        closed_window(v, w, h, bx, by, 4, 4),
        closed_window(
            v,
            w,
            h,
            p.x as int,
            p.y as int,
            covered_x(p.strategy),
            covered_y(p.strategy),
        ),
        closed_window(
            v,
            w,
            h,
            q.x as int,
            q.y as int,
            covered_x(q.strategy),
            covered_y(q.strategy),
        ),
        encloses(bx, by, 4, 4, p.x as int, p.y as int, covered_x(p.strategy), covered_y(p.strategy)),
        encloses(bx, by, 4, 4, q.x as int, q.y as int, covered_x(q.strategy), covered_y(q.strategy)),
        apart(
            q.x as int,
            q.y as int,
            covered_x(q.strategy),
            covered_y(q.strategy),
            p.x as int,
            p.y as int,
            covered_x(p.strategy),
            covered_y(p.strategy),
        ),
    ensures
        ({
            let one = with_first(v, p.x as int, p.y as int, p.strategy);
            let two = with_first(one, q.x as int, q.y as int, q.strategy);
            &&& tiled(two, w, h)
            &&& closed_window(two, w, h, bx, by, 4, 4)
            &&& keeps_windows(v, two, w, h, bx, by, 4, 4)
        }),
{
    let one = with_first(v, p.x as int, p.y as int, p.strategy);
    let two = with_first(one, q.x as int, q.y as int, q.strategy);
    lemma_one_merge(v, w, h, bx, by, p);
    assert(closed_window(
        one,
        w,
        h,
        q.x as int,
        q.y as int,
        covered_x(q.strategy),
        covered_y(q.strategy),
    ));
    lemma_one_merge(one, w, h, bx, by, q);
    lemma_keeps_chain(v, one, two, w, h, bx, by, 4, 4, bx, by, 4, 4);
}

pub(crate) proof fn lemma_singles_kept(
    a: Layout,
    b: Layout,
    w: int,
    h: int,
    bx: int,
    by: int,
    cw: int,
    ch: int,
    x0: int,
    y0: int,
    sw: int,
    sh: int,
)
    requires
        keeps_windows(a, b, w, h, bx, by, cw, ch),
        single_blocks(a, w, h, x0, y0, sw, sh),
        apart(x0, y0, sw, sh, bx, by, cw, ch),
    ensures
        single_blocks(b, w, h, x0, y0, sw, sh),
{
    assert forall|x: int, y: int| in_window(x0, y0, sw, sh, x, y) implies #[trigger] closed_window(
        b,
        w,
        h,
        x,
        y,
        1,
        1,
    ) by {
        assert(closed_window(a, w, h, x, y, 1, 1));
    }
}

pub(crate) proof fn lemma_singles_part(
    v: Layout,
    w: int,
    h: int,
    bx: int,
    by: int,
    cw: int,
    ch: int,
    x0: int,
    y0: int,
    sw: int,
    sh: int,
)
    requires
        single_blocks(v, w, h, bx, by, cw, ch),
        encloses(bx, by, cw, ch, x0, y0, sw, sh),
    ensures
        single_blocks(v, w, h, x0, y0, sw, sh),
{
    assert forall|x: int, y: int| in_window(x0, y0, sw, sh, x, y) implies #[trigger] closed_window(
        v,
        w,
        h,
        x,
        y,
        1,
        1,
    ) by {
        assert(in_window(bx, by, cw, ch, x, y));
    }
}

/// Deciding on a 4x4 region of single blocks keeps the tiling and leaves the
/// region closed.
pub proof fn law_region_step_tiles<A: Amount>(
    w: int,
    h: int,
    p: SelectionParams<A>,
    c: SiteCosts<A>,
    bx: int,
    by: int,
    s: BandState<A>,
)
    requires
        tiled(s.layout, w, h),
        single_blocks(s.layout, w, h, bx, by, 4, 4),
        0 <= bx,
        bx + 4 <= w <= usize::MAX,
        0 <= by,
        by + 4 <= h <= usize::MAX,
    ensures
        ({
            let after = region_step(w, h, p, c, bx, by, s);
            &&& tiled(after.layout, w, h)
            &&& closed_window(after.layout, w, h, bx, by, 4, 4)
            &&& keeps_windows(s.layout, after.layout, w, h, bx, by, 4, 4)
        }),
{
    let v = s.layout;
    let s0 = super_step(w, h, p, c.supers@[0]@[0], bx, by, s);
    let s1 = super_step(w, h, p, c.supers@[0]@[1], bx + 2, by, s0);
    let s2 = super_step(w, h, p, c.supers@[1]@[0], bx, by + 2, s1);
    let s3 = super_step(w, h, p, c.supers@[1]@[1], bx + 2, by + 2, s2);
    lemma_singles_part(v, w, h, bx, by, 4, 4, bx, by, 2, 2);
    lemma_singles_part(v, w, h, bx, by, 4, 4, bx + 2, by, 2, 2);
    lemma_singles_part(v, w, h, bx, by, 4, 4, bx, by + 2, 2, 2);
    lemma_singles_part(v, w, h, bx, by, 4, 4, bx + 2, by + 2, 2, 2);
    lemma_keeps_self(v, w, h, bx, by, 4, 4);
    law_super_step_tiles(w, h, p, c.supers@[0]@[0], bx, by, s);
    lemma_keeps_chain(v, v, s0.layout, w, h, bx, by, 4, 4, bx, by, 2, 2);
    lemma_singles_kept(v, s0.layout, w, h, bx, by, 2, 2, bx + 2, by, 2, 2);
    lemma_singles_kept(v, s0.layout, w, h, bx, by, 2, 2, bx, by + 2, 2, 2);
    lemma_singles_kept(v, s0.layout, w, h, bx, by, 2, 2, bx + 2, by + 2, 2, 2);
    law_super_step_tiles(w, h, p, c.supers@[0]@[1], bx + 2, by, s0);
    lemma_keeps_chain(v, s0.layout, s1.layout, w, h, bx, by, 4, 4, bx + 2, by, 2, 2);
    lemma_singles_kept(s0.layout, s1.layout, w, h, bx + 2, by, 2, 2, bx, by + 2, 2, 2);
    lemma_singles_kept(s0.layout, s1.layout, w, h, bx + 2, by, 2, 2, bx + 2, by + 2, 2, 2);
    law_super_step_tiles(w, h, p, c.supers@[1]@[0], bx, by + 2, s1);
    lemma_keeps_chain(v, s1.layout, s2.layout, w, h, bx, by, 4, 4, bx, by + 2, 2, 2);
    lemma_singles_kept(s1.layout, s2.layout, w, h, bx, by + 2, 2, 2, bx + 2, by + 2, 2, 2);
    law_super_step_tiles(w, h, p, c.supers@[1]@[1], bx + 2, by + 2, s2);
    lemma_keeps_chain(v, s2.layout, s3.layout, w, h, bx, by, 4, 4, bx + 2, by + 2, 2, 2);
    assert(closed_window(s1.layout, w, h, bx, by, 2, 2));
    assert(closed_window(s2.layout, w, h, bx, by, 2, 2));
    assert(closed_window(s2.layout, w, h, bx + 2, by, 2, 2));
    assert(closed_window(s3.layout, w, h, bx, by, 2, 2));
    assert(closed_window(s3.layout, w, h, bx + 2, by, 2, 2));
    assert(closed_window(s3.layout, w, h, bx, by + 2, 2, 2));
    let children = [
        [
            super_cost(w, h, p, c.supers@[0]@[0], bx, by),
            super_cost(w, h, p, c.supers@[0]@[1], bx + 2, by),
        ],
        [
            super_cost(w, h, p, c.supers@[1]@[0], bx, by + 2),
            super_cost(w, h, p, c.supers@[1]@[1], bx + 2, by + 2),
        ],
    ];
    let baseline = [
        [leaf_totals(c.supers@[0]@[0].leaf)[0], leaf_totals(c.supers@[0]@[1].leaf)[0]],
        [leaf_totals(c.supers@[1]@[0].leaf)[0], leaf_totals(c.supers@[1]@[1].leaf)[0]],
    ];
    let costs = [
        cost32(w, h, p, c, bx, by, 0),
        cost32(w, h, p, c, bx, by, 1),
        cost32(w, h, p, c, bx, by, 2),
        cost32(w, h, p, c, bx, by, 3),
        cost32(w, h, p, c, bx, by, 4),
    ];
    let mask = best_partition(children, baseline, costs, c.accept, 8);
    lemma_best_partition_listed(children, baseline, costs, c.accept, 8);
    lemma_commit32_tiles(w, h, bx, by, mask, s3);
    let done = commit32(s3, bx, by, mask, 5);
    lemma_keeps_chain(v, s3.layout, done.layout, w, h, bx, by, 4, 4, bx, by, 4, 4);
    assert(region_step(w, h, p, c, bx, by, s).layout == done.layout);
}

/// The sites from number `n` on hold single blocks only.
pub open spec fn untouched_from(v: Layout, w: int, h: int, sites: Seq<Site>, n: int) -> bool {
    forall|i: int|
        n <= i < sites.len() ==> single_blocks(
            v,
            w,
            h,
            (#[trigger] sites[i]).bx as int,
            sites[i].by as int,
            sites[i].side(),
            sites[i].side(),
        )
}

pub(crate) proof fn lemma_sites_apart(a: Site, b: Site)
    requires
        forall|x: int, y: int| a.holds(x, y) ==> !#[trigger] b.holds(x, y),
    ensures
        apart(
            b.bx as int,
            b.by as int,
            b.side(),
            b.side(),
            a.bx as int,
            a.by as int,
            a.side(),
            a.side(),
        ),
{
    let x = if a.bx < b.bx {
        b.bx as int
    } else {
        a.bx as int
    };
    let y = if a.by < b.by {
        b.by as int
    } else {
        a.by as int
    };
    assert(a.holds(x, y) ==> !b.holds(x, y));
}

/// The windows of the leading `n` sites are closed.
pub open spec fn closed_until(v: Layout, w: int, h: int, sites: Seq<Site>, n: int) -> bool {
    forall|i: int|
        0 <= i < n ==> closed_window(
            v,
            w,
            h,
            (#[trigger] sites[i]).bx as int,
            sites[i].by as int,
            sites[i].side(),
            sites[i].side(),
        )
}

proof fn lemma_after_sites_tiled<A: Amount>(
    w: int,
    h: int,
    p: SelectionParams<A>,
    sites: Seq<Site>,
    costs: Seq<SiteCosts<A>>,
    s: BandState<A>,
    n: int,
)
    requires
        tiled(s.layout, w, h),
        w <= usize::MAX,
        h <= usize::MAX,
        spread(sites, 0, w, 0, h),
        untouched_from(s.layout, w, h, sites, 0),
        0 <= n <= sites.len(),
    ensures
        tiled(after_sites(w, h, p, sites, costs, s, n).layout, w, h),
        untouched_from(after_sites(w, h, p, sites, costs, s, n).layout, w, h, sites, n),
        closed_until(after_sites(w, h, p, sites, costs, s, n).layout, w, h, sites, n),
    decreases n,
{
    if n > 0 {
        lemma_after_sites_tiled(w, h, p, sites, costs, s, n - 1);
        let t = after_sites(w, h, p, sites, costs, s, n - 1);
        let site = sites[n - 1];
        let after = after_sites(w, h, p, sites, costs, s, n);
        assert(site.bx + site.side() <= w && site.by + site.side() <= h);
        assert(single_blocks(
            t.layout,
            w,
            h,
            site.bx as int,
            site.by as int,
            site.side(),
            site.side(),
        ));
        if site.quad {
            law_region_step_tiles(w, h, p, costs[n - 1], site.bx as int, site.by as int, t);
        } else {
            law_super_step_tiles(
                w,
                h,
                p,
                costs[n - 1].supers@[0]@[0],
                site.bx as int,
                site.by as int,
                t,
            );
        }
        assert forall|i: int| n <= i < sites.len() implies single_blocks(
            after.layout,
            w,
            h,
            (#[trigger] sites[i]).bx as int,
            sites[i].by as int,
            sites[i].side(),
            sites[i].side(),
        ) by {
            assert forall|x: int, y: int| site.holds(x, y) implies !#[trigger] sites[i].holds(
                x,
                y,
            ) by {
                assert(sites[n - 1].holds(x, y));
            }
            lemma_sites_apart(site, sites[i]);
            lemma_singles_kept(
                t.layout,
                after.layout,
                w,
                h,
                site.bx as int,
                site.by as int,
                site.side(),
                site.side(),
                sites[i].bx as int,
                sites[i].by as int,
                sites[i].side(),
                sites[i].side(),
            );
        }
        assert forall|i: int| 0 <= i < n implies closed_window(
            after.layout,
            w,
            h,
            (#[trigger] sites[i]).bx as int,
            sites[i].by as int,
            sites[i].side(),
            sites[i].side(),
        ) by {
            if i < n - 1 {
                let other = sites[i];
                assert forall|x: int, y: int| site.holds(x, y) implies !#[trigger] other.holds(
                    x,
                    y,
                ) by {
                    assert(sites[n - 1].holds(x, y));
                    assert(sites[i].holds(x, y) ==> !sites[n - 1].holds(x, y));
                }
                lemma_sites_apart(site, other);
                assert(closed_window(
                    t.layout,
                    w,
                    h,
                    other.bx as int,
                    other.by as int,
                    other.side(),
                    other.side(),
                ));
            }
        }
    }
}

/// Selection over a band of single blocks in a tiling leaves a tiling, in which no
/// transform crosses the border of a site.
pub proof fn law_selection_keeps_tiling<A: Amount>(
    w: int,
    h: int,
    y0: int,
    y1: int,
    p: SelectionParams<A>,
    costs: Seq<SiteCosts<A>>,
    s: BandState<A>,
)
    requires
        0 <= w <= usize::MAX,
        0 <= y0 <= y1 <= h <= usize::MAX,
        y0 % 4 == 0,
        y1 % 4 == 0 || y1 == h,
        tiled(s.layout, w, h),
        single_blocks(s.layout, w, h, 0, y0, w, y1 - y0),
    ensures
        tiled(
            after_sites(
                w,
                h,
                p,
                band_sites(w, h, y0, y1),
                costs,
                s,
                band_sites(w, h, y0, y1).len() as int,
            ).layout,
            w,
            h,
        ),
        closed_until(
            after_sites(
                w,
                h,
                p,
                band_sites(w, h, y0, y1),
                costs,
                s,
                band_sites(w, h, y0, y1).len() as int,
            ).layout,
            w,
            h,
            band_sites(w, h, y0, y1),
            band_sites(w, h, y0, y1).len() as int,
        ),
{
    let sites = band_sites(w, h, y0, y1);
    law_sites_do_not_overlap(w, h, y0, y1);
    lemma_sites_inside(w, h, y0, y1);
    assert(spread(sites, 0, w, 0, h)) by {
        assert forall|i: int| 0 <= i < sites.len() implies 0 <= (#[trigger] sites[i]).bx
            && sites[i].bx + sites[i].side() <= w && 0 <= sites[i].by && sites[i].by
            + sites[i].side() <= h by {}
    }
    assert forall|i: int| 0 <= i < sites.len() implies single_blocks(
        s.layout,
        w,
        h,
        (#[trigger] sites[i]).bx as int,
        sites[i].by as int,
        sites[i].side(),
        sites[i].side(),
    ) by {
        lemma_singles_part(
            s.layout,
            w,
            h,
            0,
            y0,
            w,
            y1 - y0,
            sites[i].bx as int,
            sites[i].by as int,
            sites[i].side(),
            sites[i].side(),
        );
    }
    lemma_after_sites_tiled(w, h, p, sites, costs, s, sites.len() as int);
}

/// Two layouts of one size hold the same blocks in rows `[y0, y1)`.
pub open spec fn rows_agree(a: Layout, b: Layout, y0: int, y1: int) -> bool {
    &&& a.len() == b.len()
    &&& forall|j: int| 0 <= j < a.len() && y0 <= j < y1 ==> #[trigger] a[j] == b[j]
}

pub(crate) proof fn lemma_with_first_rows(a: Layout, b: Layout, y0: int, y1: int, x: int, y: int, s: u8)
    requires
        rows_agree(a, b, y0, y1),
    ensures
        rows_agree(with_first(a, x, y, s), with_first(b, x, y, s), y0, y1),
{
    let c = with_first(a, x, y, s);
    let d = with_first(b, x, y, s);
    assert forall|j: int| 0 <= j < c.len() && y0 <= j < y1 implies #[trigger] c[j] == d[j] by {
        assert(a[j] == b[j]);
        assert(c[j] =~= d[j]);
    }
}

proof fn lemma_with_first_other_rows(a: Layout, y0: int, y1: int, x: int, y: int, s: u8)
    requires
        y + covered_y(s) <= y0 || y1 <= y,
    ensures
        rows_agree(with_first(a, x, y, s), a, y0, y1),
{
    let c = with_first(a, x, y, s);
    assert forall|j: int| 0 <= j < c.len() && y0 <= j < y1 implies #[trigger] c[j] == a[j] by {
        assert(c[j] =~= a[j]);
    }
}

pub(crate) proof fn lemma_place_all_rows(a: Layout, b: Layout, y0: int, y1: int, ps: Seq<Placement>)
    requires
        rows_agree(a, b, y0, y1),
    ensures
        rows_agree(place_all(a, ps), place_all(b, ps), y0, y1),
    decreases ps.len(),
{
    if ps.len() > 0 {
        lemma_place_all_rows(a, b, y0, y1, ps.drop_last());
        let p = ps.last();
        lemma_with_first_rows(
            place_all(a, ps.drop_last()),
            place_all(b, ps.drop_last()),
            y0,
            y1,
            p.x as int,
            p.y as int,
            p.strategy,
        );
    }
}

proof fn lemma_place_all_other_rows(a: Layout, y0: int, y1: int, ps: Seq<Placement>)
    requires
        forall|i: int|
            0 <= i < ps.len() ==> (#[trigger] ps[i]).y + covered_y(ps[i].strategy) <= y0 || y1
                <= ps[i].y,
    ensures
        rows_agree(place_all(a, ps), a, y0, y1),
    decreases ps.len(),
{
    if ps.len() > 0 {
        let head = ps.drop_last();
        assert forall|i: int| 0 <= i < head.len() implies (#[trigger] head[i]).y + covered_y(
            head[i].strategy,
        ) <= y0 || y1 <= head[i].y by {
            assert(head[i] == ps[i]);
        }
        lemma_place_all_other_rows(a, y0, y1, head);
        let p = ps.last();
        assert(ps[ps.len() - 1] == p);
        lemma_with_first_other_rows(
            place_all(a, head),
            y0,
            y1,
            p.x as int,
            p.y as int,
            p.strategy,
        );
    }
}

/// A band that runs on its own produces, behind what was there before it, what
/// the same band produces as part of a longer run.
pub open spec fn runs_alongside<A>(
    base: BandState<A>,
    whole: BandState<A>,
    own: BandState<A>,
    y0: int,
    y1: int,
) -> bool {
    &&& rows_agree(whole.layout, own.layout, y0, y1)
    &&& whole.chosen32 == base.chosen32 + own.chosen32
    &&& whole.saved == base.saved + own.saved
    &&& whole.upgrades == base.upgrades + own.upgrades
}

proof fn lemma_super_alongside<A: Amount>(
    w: int,
    h: int,
    p: SelectionParams<A>,
    c: SuperBlockCosts<A>,
    bx: int,
    by: int,
    base: BandState<A>,
    whole: BandState<A>,
    own: BandState<A>,
    y0: int,
    y1: int,
)
    requires
        runs_alongside(base, whole, own, y0, y1),
    ensures
        runs_alongside(
            base,
            super_step(w, h, p, c, bx, by, whole),
            super_step(w, h, p, c, bx, by, own),
            y0,
            y1,
        ),
{
    let choice = super_choice(w, h, bx, by, p.rectangles, p.policy.raw_propagation, p.tuning, c);
    lemma_place_all_rows(whole.layout, own.layout, y0, y1, choice_placements(choice, bx, by));
    let a = super_step(w, h, p, c, bx, by, whole);
    let b = super_step(w, h, p, c, bx, by, own);
    assert(a.saved =~= base.saved + b.saved);
    assert(a.upgrades =~= base.upgrades + b.upgrades);
}

proof fn lemma_captured_rows(a: Layout, b: Layout, y0: int, y1: int, x: int, y: int, cx: int, cy: int)
    requires
        rows_agree(a, b, y0, y1),
        y0 <= y,
        y + cy <= y1,
        0 <= y,
        y + cy <= a.len(),
    ensures
        captured(a, x, y, cx, cy) == captured(b, x, y, cx, cy),
        window_stands_out(a, x, y, cx, cy) == window_stands_out(b, x, y, cx, cy),
{
    assert forall|i: int| 0 <= i < 16 && i / 4 < cy implies #[trigger] a[y + i / 4] == b[y + i
        / 4] by {}
    assert(captured(a, x, y, cx, cy) =~= captured(b, x, y, cx, cy));
    assert forall|i: int| 0 <= i < 16 implies #[trigger] stands_out(a, x, y, cx, cy, i)
        == stands_out(b, x, y, cx, cy, i) by {
        if i / 4 < cy {
            assert(a[y + i / 4] == b[y + i / 4]);
        }
    }
    if window_stands_out(a, x, y, cx, cy) {
        let i = choose|i: int| 0 <= i < 16 && #[trigger] stands_out(a, x, y, cx, cy, i);
        assert(stands_out(b, x, y, cx, cy, i));
    }
    if window_stands_out(b, x, y, cx, cy) {
        let i = choose|i: int| 0 <= i < 16 && #[trigger] stands_out(b, x, y, cx, cy, i);
        assert(stands_out(a, x, y, cx, cy, i));
    }
}

proof fn lemma_commit_alongside<A>(
    bx: int,
    by: int,
    mask: u8,
    n: int,
    base: BandState<A>,
    whole: BandState<A>,
    own: BandState<A>,
    y0: int,
    y1: int,
)
    requires
        runs_alongside(base, whole, own, y0, y1),
        0 <= n <= 5,
        0 <= bx,
        bx + 4 <= usize::MAX,
        0 <= by,
        by + 4 <= usize::MAX,
        y0 <= by,
        by + 4 <= y1,
        by + 4 <= whole.layout.len(),
    ensures
        runs_alongside(
            base,
            commit32(whole, bx, by, mask, n),
            commit32(own, bx, by, mask, n),
            y0,
            y1,
        ),
        commit32(whole, bx, by, mask, n).layout.len() == whole.layout.len(),
    decreases n,
{
    if n > 0 {
        lemma_commit_alongside(bx, by, mask, n - 1, base, whole, own, y0, y1);
        let a = commit32(whole, bx, by, mask, n - 1);
        let b = commit32(own, bx, by, mask, n - 1);
        let site = merge32_sites_spec(bx, by)[n - 1];
        let x = site.x as int;
        let y = site.y as int;
        let cx = covered_x(site.strategy);
        let cy = covered_y(site.strategy);
        lemma_with_first_rows(a.layout, b.layout, y0, y1, x, y, site.strategy);
        lemma_captured_rows(a.layout, b.layout, y0, y1, x, y, cx, cy);
        let c = commit32(whole, bx, by, mask, n);
        let d = commit32(own, bx, by, mask, n);
        assert(c.saved =~= base.saved + d.saved);
    }
}

proof fn lemma_super_len<A: Amount>(
    w: int,
    h: int,
    p: SelectionParams<A>,
    c: SuperBlockCosts<A>,
    bx: int,
    by: int,
    s: BandState<A>,
)
    ensures
        super_step(w, h, p, c, bx, by, s).layout.len() == s.layout.len(),
{
    let choice = super_choice(w, h, bx, by, p.rectangles, p.policy.raw_propagation, p.tuning, c);
    lemma_place_all_len(s.layout, choice_placements(choice, bx, by));
}

proof fn lemma_place_all_len(v: Layout, ps: Seq<Placement>)
    ensures
        place_all(v, ps).len() == v.len(),
    decreases ps.len(),
{
    if ps.len() > 0 {
        lemma_place_all_len(v, ps.drop_last());
    }
}

proof fn lemma_region_alongside<A: Amount>(
    w: int,
    h: int,
    p: SelectionParams<A>,
    c: SiteCosts<A>,
    bx: int,
    by: int,
    base: BandState<A>,
    whole: BandState<A>,
    own: BandState<A>,
    y0: int,
    y1: int,
)
    requires
        runs_alongside(base, whole, own, y0, y1),
        0 <= bx,
        bx + 4 <= usize::MAX,
        0 <= by,
        by + 4 <= usize::MAX,
        y0 <= by,
        by + 4 <= y1,
        by + 4 <= whole.layout.len(),
    ensures
        runs_alongside(
            base,
            region_step(w, h, p, c, bx, by, whole),
            region_step(w, h, p, c, bx, by, own),
            y0,
            y1,
        ),
        region_step(w, h, p, c, bx, by, whole).layout.len() == whole.layout.len(),
{
    let c00 = c.supers@[0]@[0];
    let c01 = c.supers@[0]@[1];
    let c10 = c.supers@[1]@[0];
    let c11 = c.supers@[1]@[1];
    let a0 = super_step(w, h, p, c00, bx, by, whole);
    let b0 = super_step(w, h, p, c00, bx, by, own);
    let a1 = super_step(w, h, p, c01, bx + 2, by, a0);
    let b1 = super_step(w, h, p, c01, bx + 2, by, b0);
    let a2 = super_step(w, h, p, c10, bx, by + 2, a1);
    let b2 = super_step(w, h, p, c10, bx, by + 2, b1);
    let a3 = super_step(w, h, p, c11, bx + 2, by + 2, a2);
    let b3 = super_step(w, h, p, c11, bx + 2, by + 2, b2);
    lemma_super_alongside(w, h, p, c00, bx, by, base, whole, own, y0, y1);
    lemma_super_alongside(w, h, p, c01, bx + 2, by, base, a0, b0, y0, y1);
    lemma_super_alongside(w, h, p, c10, bx, by + 2, base, a1, b1, y0, y1);
    lemma_super_alongside(w, h, p, c11, bx + 2, by + 2, base, a2, b2, y0, y1);
    lemma_super_len(w, h, p, c00, bx, by, whole);
    lemma_super_len(w, h, p, c01, bx + 2, by, a0);
    lemma_super_len(w, h, p, c10, bx, by + 2, a1);
    lemma_super_len(w, h, p, c11, bx + 2, by + 2, a2);
    let children = [
        [super_cost(w, h, p, c00, bx, by), super_cost(w, h, p, c01, bx + 2, by)],
        [super_cost(w, h, p, c10, bx, by + 2), super_cost(w, h, p, c11, bx + 2, by + 2)],
    ];
    let baseline = [
        [leaf_totals(c00.leaf)[0], leaf_totals(c01.leaf)[0]],
        [leaf_totals(c10.leaf)[0], leaf_totals(c11.leaf)[0]],
    ];
    let costs = [
        cost32(w, h, p, c, bx, by, 0),
        cost32(w, h, p, c, bx, by, 1),
        cost32(w, h, p, c, bx, by, 2),
        cost32(w, h, p, c, bx, by, 3),
        cost32(w, h, p, c, bx, by, 4),
    ];
    let mask = best_partition(children, baseline, costs, c.accept, 8);
    lemma_commit_alongside(bx, by, mask, 5, base, a3, b3, y0, y1);
    let a = region_step(w, h, p, c, bx, by, whole);
    let b = region_step(w, h, p, c, bx, by, own);
    assert(a.chosen32 =~= base.chosen32 + b.chosen32);
}

/// A band's sites decide the same however the run came to the band: alone on its
/// own rows, or behind other bands.
pub proof fn law_band_runs_the_same_on_its_own<A: Amount>(
    w: int,
    h: int,
    p: SelectionParams<A>,
    sites: Seq<Site>,
    costs: Seq<SiteCosts<A>>,
    base: BandState<A>,
    own: BandState<A>,
    y0: int,
    y1: int,
    n: int,
)
    requires
        w <= usize::MAX,
        h <= usize::MAX,
        spread(sites, 0, w, y0, y1),
        0 <= y0 <= y1 <= h,
        base.layout.len() == h,
        rows_agree(base.layout, own.layout, y0, y1),
        own.chosen32.len() == 0,
        own.saved.len() == 0,
        own.upgrades.len() == 0,
        0 <= n <= sites.len(),
    ensures
        runs_alongside(
            base,
            after_sites(w, h, p, sites, costs, base, n),
            after_sites(w, h, p, sites, costs, own, n),
            y0,
            y1,
        ),
        after_sites(w, h, p, sites, costs, base, n).layout.len() == h,
    decreases n,
{
    if n > 0 {
        law_band_runs_the_same_on_its_own(w, h, p, sites, costs, base, own, y0, y1, n - 1);
        let a = after_sites(w, h, p, sites, costs, base, n - 1);
        let b = after_sites(w, h, p, sites, costs, own, n - 1);
        let site = sites[n - 1];
        assert(site.by + site.side() <= y1 && site.bx + site.side() <= w);
        if site.quad {
            lemma_region_alongside(
                w,
                h,
                p,
                costs[n - 1],
                site.bx as int,
                site.by as int,
                base,
                a,
                b,
                y0,
                y1,
            );
        } else {
            let c = costs[n - 1].supers@[0]@[0];
            lemma_super_alongside(
                w,
                h,
                p,
                c,
                site.bx as int,
                site.by as int,
                base,
                a,
                b,
                y0,
                y1,
            );
            lemma_super_len(w, h, p, c, site.bx as int, site.by as int, a);
        }
    } else {
        assert(base.chosen32 + own.chosen32 =~= base.chosen32);
        assert(base.saved + own.saved =~= base.saved);
        assert(base.upgrades + own.upgrades =~= base.upgrades);
    }
}

proof fn lemma_super_other_rows<A: Amount>(
    w: int,
    h: int,
    p: SelectionParams<A>,
    c: SuperBlockCosts<A>,
    bx: int,
    by: int,
    s: BandState<A>,
    y0: int,
    y1: int,
)
    requires
        0 <= bx,
        bx + 2 <= usize::MAX,
        0 <= by,
        by + 2 <= usize::MAX,
        by + 2 <= y0 || y1 <= by,
    ensures
        rows_agree(super_step(w, h, p, c, bx, by, s).layout, s.layout, y0, y1),
{
    let choice = super_choice(w, h, bx, by, p.rectangles, p.policy.raw_propagation, p.tuning, c);
    lemma_place_all_other_rows(s.layout, y0, y1, choice_placements(choice, bx, by));
}

proof fn lemma_commit_other_rows<A>(
    bx: int,
    by: int,
    mask: u8,
    n: int,
    s: BandState<A>,
    y0: int,
    y1: int,
)
    requires
        0 <= n <= 5,
        0 <= bx,
        bx + 4 <= usize::MAX,
        0 <= by,
        by + 4 <= usize::MAX,
        by + 4 <= y0 || y1 <= by,
    ensures
        rows_agree(commit32(s, bx, by, mask, n).layout, s.layout, y0, y1),
    decreases n,
{
    if n > 0 {
        lemma_commit_other_rows(bx, by, mask, n - 1, s, y0, y1);
        let t = commit32(s, bx, by, mask, n - 1);
        let site = merge32_sites_spec(bx, by)[n - 1];
        lemma_with_first_other_rows(
            t.layout,
            y0,
            y1,
            site.x as int,
            site.y as int,
            site.strategy,
        );
    }
}

proof fn lemma_region_other_rows<A: Amount>(
    w: int,
    h: int,
    p: SelectionParams<A>,
    c: SiteCosts<A>,
    bx: int,
    by: int,
    s: BandState<A>,
    y0: int,
    y1: int,
)
    requires
        0 <= bx,
        bx + 4 <= usize::MAX,
        0 <= by,
        by + 4 <= usize::MAX,
        by + 4 <= y0 || y1 <= by,
    ensures
        rows_agree(region_step(w, h, p, c, bx, by, s).layout, s.layout, y0, y1),
{
    let s0 = super_step(w, h, p, c.supers@[0]@[0], bx, by, s);
    let s1 = super_step(w, h, p, c.supers@[0]@[1], bx + 2, by, s0);
    let s2 = super_step(w, h, p, c.supers@[1]@[0], bx, by + 2, s1);
    let s3 = super_step(w, h, p, c.supers@[1]@[1], bx + 2, by + 2, s2);
    lemma_super_other_rows(w, h, p, c.supers@[0]@[0], bx, by, s, y0, y1);
    lemma_super_other_rows(w, h, p, c.supers@[0]@[1], bx + 2, by, s0, y0, y1);
    lemma_super_other_rows(w, h, p, c.supers@[1]@[0], bx, by + 2, s1, y0, y1);
    lemma_super_other_rows(w, h, p, c.supers@[1]@[1], bx + 2, by + 2, s2, y0, y1);
    let children = [
        [
            super_cost(w, h, p, c.supers@[0]@[0], bx, by),
            super_cost(w, h, p, c.supers@[0]@[1], bx + 2, by),
        ],
        [
            super_cost(w, h, p, c.supers@[1]@[0], bx, by + 2),
            super_cost(w, h, p, c.supers@[1]@[1], bx + 2, by + 2),
        ],
    ];
    let baseline = [
        [leaf_totals(c.supers@[0]@[0].leaf)[0], leaf_totals(c.supers@[0]@[1].leaf)[0]],
        [leaf_totals(c.supers@[1]@[0].leaf)[0], leaf_totals(c.supers@[1]@[1].leaf)[0]],
    ];
    let costs = [
        cost32(w, h, p, c, bx, by, 0),
        cost32(w, h, p, c, bx, by, 1),
        cost32(w, h, p, c, bx, by, 2),
        cost32(w, h, p, c, bx, by, 3),
        cost32(w, h, p, c, bx, by, 4),
    ];
    let mask = best_partition(children, baseline, costs, c.accept, 8);
    lemma_commit_other_rows(bx, by, mask, 5, s3, y0, y1);
    assert(region_step(w, h, p, c, bx, by, s).layout == commit32(s3, bx, by, mask, 5).layout);
}

pub(crate) proof fn lemma_after_sites_other_rows<A: Amount>(
    w: int,
    h: int,
    p: SelectionParams<A>,
    sites: Seq<Site>,
    costs: Seq<SiteCosts<A>>,
    s: BandState<A>,
    n: int,
    c: int,
    d: int,
    y0: int,
    y1: int,
)
    requires
        w <= usize::MAX,
        0 <= c <= d <= usize::MAX,
        spread(sites, 0, w, c, d),
        d <= y0 || y1 <= c,
        0 <= n <= sites.len(),
    ensures
        rows_agree(after_sites(w, h, p, sites, costs, s, n).layout, s.layout, y0, y1),
    decreases n,
{
    if n > 0 {
        lemma_after_sites_other_rows(w, h, p, sites, costs, s, n - 1, c, d, y0, y1);
        let t = after_sites(w, h, p, sites, costs, s, n - 1);
        let site = sites[n - 1];
        assert(c <= site.by && site.by + site.side() <= d && site.bx + site.side() <= w);
        if site.quad {
            lemma_region_other_rows(
                w,
                h,
                p,
                costs[n - 1],
                site.bx as int,
                site.by as int,
                t,
                y0,
                y1,
            );
        } else {
            lemma_super_other_rows(
                w,
                h,
                p,
                costs[n - 1].supers@[0]@[0],
                site.bx as int,
                site.by as int,
                t,
                y0,
                y1,
            );
        }
    }
}

/// The state after one band.
pub open spec fn after_band<A: Amount>(
    w: int,
    h: int,
    p: SelectionParams<A>,
    band: (usize, usize),
    costs: Seq<SiteCosts<A>>,
    s: BandState<A>,
) -> BandState<A> {
    let sites = band_sites(w, h, band.0 as int, band.1 as int);
    after_sites(w, h, p, sites, costs, s, sites.len() as int)
}

/// The state after the leading `n` bands, each behind the one before.
pub open spec fn after_bands<A: Amount>(
    w: int,
    h: int,
    p: SelectionParams<A>,
    bands: Seq<(usize, usize)>,
    costs: Seq<Seq<SiteCosts<A>>>,
    s: BandState<A>,
    n: int,
) -> BandState<A>
    decreases n,
{
    if n <= 0 {
        s
    } else {
        after_band(
            w,
            h,
            p,
            bands[n - 1],
            costs[n - 1],
            after_bands(w, h, p, bands, costs, s, n - 1),
        )
    }
}

proof fn lemma_band_facts(w: int, h: int, bands: Seq<(usize, usize)>, i: int)
    requires
        0 <= w <= usize::MAX,
        0 < h <= usize::MAX,
        contiguous(bands, h),
        0 <= i < bands.len(),
    ensures
        bands[i].0 < bands[i].1 <= h,
        spread(
            band_sites(w, h, bands[i].0 as int, bands[i].1 as int),
            0,
            w,
            bands[i].0 as int,
            bands[i].1 as int,
        ),
{
    lemma_bands_within(bands, h, i);
    if i > 0 {
        assert(bands[i].0 == bands[i - 1].1);
        assert(bands[i - 1].1 % 4 == 0);
    }
    law_sites_do_not_overlap(w, h, bands[i].0 as int, bands[i].1 as int);
}

pub(crate) proof fn lemma_bands_ordered(bands: Seq<(usize, usize)>, end: int, i: int, j: int)
    requires
        contiguous(bands, end),
        0 <= i < j < bands.len(),
    ensures
        bands[i].1 <= bands[j].0,
    decreases j - i,
{
    if j > i + 1 {
        lemma_bands_ordered(bands, end, i, j - 1);
        assert(bands[j].0 == bands[j - 1].1);
    } else {
        assert(bands[j].0 == bands[i].1);
    }
}

proof fn lemma_after_bands_other_rows<A: Amount>(
    w: int,
    h: int,
    p: SelectionParams<A>,
    bands: Seq<(usize, usize)>,
    costs: Seq<Seq<SiteCosts<A>>>,
    s: BandState<A>,
    n: int,
    k: int,
)
    requires
        0 <= w <= usize::MAX,
        0 < h <= usize::MAX,
        contiguous(bands, h),
        0 <= n <= k < bands.len(),
    ensures
        rows_agree(
            after_bands(w, h, p, bands, costs, s, n).layout,
            s.layout,
            bands[k].0 as int,
            bands[k].1 as int,
        ),
    decreases n,
{
    if n > 0 {
        lemma_after_bands_other_rows(w, h, p, bands, costs, s, n - 1, k);
        lemma_band_facts(w, h, bands, n - 1);
        lemma_bands_ordered(bands, h, n - 1, k);
        let t = after_bands(w, h, p, bands, costs, s, n - 1);
        let sites = band_sites(w, h, bands[n - 1].0 as int, bands[n - 1].1 as int);
        lemma_after_sites_other_rows(
            w,
            h,
            p,
            sites,
            costs[n - 1],
            t,
            sites.len() as int,
            bands[n - 1].0 as int,
            bands[n - 1].1 as int,
            bands[k].0 as int,
            bands[k].1 as int,
        );
    }
}

/// What the leading `n` bands produce on their own, one behind the other.
pub open spec fn own_outputs<A: Amount>(
    w: int,
    h: int,
    p: SelectionParams<A>,
    bands: Seq<(usize, usize)>,
    costs: Seq<Seq<SiteCosts<A>>>,
    s: BandState<A>,
    n: int,
) -> BandState<A>
    decreases n,
{
    if n <= 0 {
        s
    } else {
        let head = own_outputs(w, h, p, bands, costs, s, n - 1);
        let own = after_band(w, h, p, bands[n - 1], costs[n - 1], s);
        BandState {
            layout: rows_replaced(
                head.layout,
                own.layout,
                bands[n - 1].0 as int,
                bands[n - 1].1 as int,
            ),
            chosen32: head.chosen32 + own.chosen32,
            saved: head.saved + own.saved,
            upgrades: head.upgrades + own.upgrades,
        }
    }
}

/// Bands that each run on a copy of the starting layout, with their rows and
/// outputs put together in order, give what the bands give one behind the other.
pub proof fn law_selection_does_not_depend_on_the_number_of_bands<A: Amount>(
    w: int,
    h: int,
    p: SelectionParams<A>,
    bands: Seq<(usize, usize)>,
    costs: Seq<Seq<SiteCosts<A>>>,
    s: BandState<A>,
    n: int,
)
    requires
        0 <= w <= usize::MAX,
        0 < h <= usize::MAX,
        contiguous(bands, h),
        0 <= n <= bands.len(),
        s.layout.len() == h,
        s.chosen32.len() == 0,
        s.saved.len() == 0,
        s.upgrades.len() == 0,
    ensures
        ({
            let serial = after_bands(w, h, p, bands, costs, s, n);
            let parallel = own_outputs(w, h, p, bands, costs, s, n);
            &&& serial.layout.len() == h
            &&& serial.layout == parallel.layout
            &&& serial.chosen32 == parallel.chosen32
            &&& serial.saved == parallel.saved
            &&& serial.upgrades == parallel.upgrades
        }),
    decreases n,
{
    if n > 0 {
        law_selection_does_not_depend_on_the_number_of_bands(w, h, p, bands, costs, s, n - 1);
        let k = n - 1;
        let y0 = bands[k].0 as int;
        let y1 = bands[k].1 as int;
        let sites = band_sites(w, h, y0, y1);
        let base = after_bands(w, h, p, bands, costs, s, k);
        let whole = after_band(w, h, p, bands[k], costs[k], base);
        let own = after_band(w, h, p, bands[k], costs[k], s);
        let parallel = own_outputs(w, h, p, bands, costs, s, n);
        lemma_band_facts(w, h, bands, k);
        lemma_after_bands_other_rows(w, h, p, bands, costs, s, k, k);
        law_band_runs_the_same_on_its_own(
            w,
            h,
            p,
            sites,
            costs[k],
            base,
            s,
            y0,
            y1,
            sites.len() as int,
        );
        lemma_after_sites_other_rows(
            w,
            h,
            p,
            sites,
            costs[k],
            base,
            sites.len() as int,
            y0,
            y1,
            0,
            y0,
        );
        lemma_after_sites_other_rows(
            w,
            h,
            p,
            sites,
            costs[k],
            base,
            sites.len() as int,
            y0,
            y1,
            y1,
            h,
        );
        assert forall|j: int| 0 <= j < h implies #[trigger] whole.layout[j] == parallel.layout[j] by {
            if y0 <= j < y1 {
                assert(whole.layout[j] == own.layout[j]);
            } else if j < y0 {
                assert(whole.layout[j] == base.layout[j]);
            } else {
                assert(whole.layout[j] == base.layout[j]);
            }
        }
        assert(whole.layout =~= parallel.layout);
    }
}

/// Running the bands one behind the other is running the sites of the whole
/// group: bands only cut the list of sites.
pub proof fn law_bands_cut_the_list_of_sites<A: Amount>(
    w: int,
    h: int,
    p: SelectionParams<A>,
    a: Seq<Site>,
    b: Seq<Site>,
    ca: Seq<SiteCosts<A>>,
    cb: Seq<SiteCosts<A>>,
    s: BandState<A>,
    n: int,
)
    requires
        a.len() == ca.len(),
        b.len() == cb.len(),
        0 <= n <= a.len() + b.len(),
    ensures
        after_sites(w, h, p, a + b, ca + cb, s, n) == (if n <= a.len() {
            after_sites(w, h, p, a, ca, s, n)
        } else {
            after_sites(
                w,
                h,
                p,
                b,
                cb,
                after_sites(w, h, p, a, ca, s, a.len() as int),
                n - a.len(),
            )
        }),
    decreases n,
{
    if n > 0 {
        law_bands_cut_the_list_of_sites(w, h, p, a, b, ca, cb, s, n - 1);
        if n <= a.len() {
            assert((a + b)[n - 1] == a[n - 1]);
            assert((ca + cb)[n - 1] == ca[n - 1]);
        } else {
            assert((a + b)[n - 1] == b[n - 1 - a.len()]);
            assert((ca + cb)[n - 1] == cb[n - 1 - a.len()]);
            let t = after_sites(w, h, p, a, ca, s, a.len() as int);
            assert(after_sites(w, h, p, b, cb, t, 0) == t);
        }
    }
}

} // verus!
