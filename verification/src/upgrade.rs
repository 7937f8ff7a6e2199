//! Merges that reconstruction finds better than the committed layout.

use crate::amount::Amount;
use crate::cost_map::{forgotten, grid_shape, with_cost, CostMap, Costs};
use crate::merge::{best_packing, choose_upgrade_partition, chosen, has_merge};
use crate::mosaic::ReconCost;
use crate::rerank_band::FineMergeRollback;
use crate::strategy::{
    covered_blocks_x_of, covered_blocks_y_of, covered_x, covered_y, STRATEGY_DCT16X16,
    STRATEGY_DCT16X8, STRATEGY_DCT8X16,
};
use crate::strategy_map::{fits_in, with_first, AcStrategyImage, Layout, Placement};
use vstd::prelude::*;

verus! {

/// Blocks covered by the first blocks among the leading `n` of row `y` of the
/// window that starts in column `bx`.
pub open spec fn row_area(v: Layout, bx: int, y: int, n: int) -> int
    decreases n,
{
    if n <= 0 {
        0
    } else {
        let c = v[y][bx + n - 1];
        row_area(v, bx, y, n - 1) + (if c.first {
            covered_x(c.strategy) * covered_y(c.strategy)
        } else {
            0
        })
    }
}

/// Blocks covered by the first blocks of the leading `n` rows of a window.
pub open spec fn window_area(v: Layout, bx: int, by: int, cx: int, n: int) -> int
    decreases n,
{
    if n <= 0 {
        0
    } else {
        window_area(v, bx, by, cx, n - 1) + row_area(v, bx, by + n - 1, cx)
    }
}

/// The first block at `(x, y)`, if it is one, lies entirely inside the window.
pub open spec fn stays_inside(
    v: Layout,
    bx: int,
    by: int,
    cx: int,
    cy: int,
    x: int,
    y: int,
) -> bool {
    v[y][x].first ==> x + covered_x(v[y][x].strategy) <= bx + cx && y + covered_y(v[y][x].strategy)
        <= by + cy
}

/// The first blocks of the window lie entirely inside it and cover as many blocks
/// as it has.
pub open spec fn self_contained(v: Layout, bx: int, by: int, cx: int, cy: int) -> bool {
    &&& forall|x: int, y: int|
        bx <= x < bx + cx && by <= y < by + cy ==> #[trigger] stays_inside(
            v,
            bx,
            by,
            cx,
            cy,
            x,
            y,
        )
    &&& window_area(v, bx, by, cx, cy) == cx * cy
}

fn area_of(s: u8) -> (r: usize)
    ensures
        r == covered_x(s) * covered_y(s),
        1 <= r <= 64,
{
    let cx: usize = covered_blocks_x_of(s);
    let cy: usize = covered_blocks_y_of(s);
    assert(1 <= cx * cy <= 64) by (nonlinear_arith)
        requires
            1 <= cx <= 8,
            1 <= cy <= 8,
    ;
    cx * cy
}

proof fn lemma_row_area_grows(v: Layout, bx: int, y: int, n: int, m: int)
    requires
        0 <= n <= m,
    ensures
        0 <= row_area(v, bx, y, n) <= row_area(v, bx, y, m),
    decreases m,
{
    if n < m {
        lemma_row_area_grows(v, bx, y, n, m - 1);
        let s = v[y][bx + m - 1].strategy;
        assert(covered_x(s) * covered_y(s) >= 0) by (nonlinear_arith)
            requires
                covered_x(s) >= 0,
                covered_y(s) >= 0,
        ;
    } else if m > 0 {
        lemma_row_area_grows(v, bx, y, n - 1, m - 1);
        let s = v[y][bx + m - 1].strategy;
        assert(covered_x(s) * covered_y(s) >= 0) by (nonlinear_arith)
            requires
                covered_x(s) >= 0,
                covered_y(s) >= 0,
        ;
    }
}

proof fn lemma_window_area_grows(v: Layout, bx: int, by: int, cx: int, n: int, m: int)
    requires
        0 <= cx,
        0 <= n <= m,
    ensures
        0 <= window_area(v, bx, by, cx, n) <= window_area(v, bx, by, cx, m),
    decreases m,
{
    if n < m {
        lemma_window_area_grows(v, bx, by, cx, n, m - 1);
        lemma_row_area_grows(v, bx, by + m - 1, 0, cx);
    } else if m > 0 {
        lemma_window_area_grows(v, bx, by, cx, n - 1, m - 1);
        lemma_row_area_grows(v, bx, by + m - 1, 0, cx);
    }
}

/// Tells whether the `cov_x x cov_y` footprint at `(bx, by)` is tiled exactly by
/// first blocks lying entirely inside it.
pub fn footprint_is_self_contained(
    map: &AcStrategyImage,
    bx: usize,
    by: usize,
    cov_x: usize,
    cov_y: usize,
) -> (r: bool)
    requires
        map.wf(),
        bx + cov_x <= map.width(),
        by + cov_y <= map.height(),
        cov_x * cov_y <= usize::MAX,
    ensures
        r == self_contained(map@, bx as int, by as int, cov_x as int, cov_y as int),
{
    let ghost v = map@;
    let whole: usize = cov_x * cov_y;
    let mut area: usize = 0;
    let mut j: usize = 0;
    while j < cov_y
        invariant
            j <= cov_y,
            map.wf(),
            v == map@,
            bx + cov_x <= map.width(),
            by + cov_y <= map.height(),
            whole == cov_x * cov_y,
            area == window_area(v, bx as int, by as int, cov_x as int, j as int),
            area <= whole,
            forall|x: int, y: int|
                bx <= x < bx + cov_x && by <= y < by + j ==> #[trigger] stays_inside(
                    v,
                    bx as int,
                    by as int,
                    cov_x as int,
                    cov_y as int,
                    x,
                    y,
                ),
        decreases cov_y - j,
    {
        let ghost before = area;
        let mut i: usize = 0;
        while i < cov_x
            invariant
                i <= cov_x,
                j < cov_y,
                map.wf(),
                v == map@,
                bx + cov_x <= map.width(),
                by + cov_y <= map.height(),
                whole == cov_x * cov_y,
                before == window_area(v, bx as int, by as int, cov_x as int, j as int),
                area == before + row_area(v, bx as int, by + j, i as int),
                area <= whole,
                forall|x: int, y: int|
                    bx <= x < bx + cov_x && by <= y < by + cov_y && (y < by + j || y == by + j && x
                        < bx + i) ==> #[trigger] stays_inside(
                        v,
                        bx as int,
                        by as int,
                        cov_x as int,
                        cov_y as int,
                        x,
                        y,
                    ),
            decreases cov_x - i,
        {
            assert(map.inside(bx + i, by + j));
            if map.is_first_block(bx + i, by + j) {
                let s: u8 = map.raw_strategy(bx + i, by + j);
                let cx: usize = covered_blocks_x_of(s);
                let cy: usize = covered_blocks_y_of(s);
                if cx > cov_x - i || cy > cov_y - j {
                    assert(!stays_inside(
                        v,
                        bx as int,
                        by as int,
                        cov_x as int,
                        cov_y as int,
                        bx + i,
                        by + j,
                    ));
                    return false;
                }
                let own: usize = area_of(s);
                if own > whole - area {
                    proof {
                        lemma_row_area_grows(v, bx as int, by + j, i + 1, cov_x as int);
                        lemma_window_area_grows(
                            v,
                            bx as int,
                            by as int,
                            cov_x as int,
                            j + 1,
                            cov_y as int,
                        );
                    }
                    return false;
                }
                area += own;
            }
            i += 1;
        }
        j += 1;
    }
    area == whole
}

/// A rollback's footprint has a block in common with the window.
pub open spec fn touches<A>(r: FineMergeRollback<A>, bx: int, by: int, cx: int, cy: int) -> bool {
    bx < r.bx + r.cov_x && r.bx < bx + cx && by < r.by + r.cov_y && r.by < by + cy
}

/// Some rollback's footprint has a block in common with the window.
pub open spec fn touches_mosaic<A>(
    rollbacks: Seq<FineMergeRollback<A>>,
    bx: int,
    by: int,
    cx: int,
    cy: int,
) -> bool {
    exists|i: int| 0 <= i < rollbacks.len() && touches(#[trigger] rollbacks[i], bx, by, cx, cy)
}

fn on_mosaic<A: Copy>(
    rollbacks: &Vec<FineMergeRollback<A>>,
    bx: usize,
    by: usize,
    cx: usize,
    cy: usize,
) -> (r: bool)
    requires
        bx + cx <= usize::MAX,
        by + cy <= usize::MAX,
    ensures
        r == touches_mosaic(rollbacks@, bx as int, by as int, cx as int, cy as int),
{
    let mut i: usize = 0;
    while i < rollbacks.len()
        invariant
            i <= rollbacks@.len(),
            bx + cx <= usize::MAX,
            by + cy <= usize::MAX,
            forall|k: int|
                0 <= k < i ==> !touches(
                    #[trigger] rollbacks@[k],
                    bx as int,
                    by as int,
                    cx as int,
                    cy as int,
                ),
        decreases rollbacks@.len() - i,
    {
        let r: FineMergeRollback<A> = rollbacks[i];
        let left: bool = bx < r.bx || bx - r.bx < r.cov_x;
        let above: bool = by < r.by || by - r.by < r.cov_y;
        if left && r.bx < bx + cx && above && r.by < by + cy {
            assert(touches(rollbacks@[i as int], bx as int, by as int, cx as int, cy as int));
            return true;
        }
        i += 1;
    }
    false
}

/// A shortlisted merge may be put down on the layout: it lies in the band, is not
/// there already, touches no mosaic, and its footprint is self-contained.
pub open spec fn upgradable<A>(
    v: Layout,
    w: int,
    h: int,
    rollbacks: Seq<FineMergeRollback<A>>,
    y0: int,
    y1: int,
    c: Placement,
) -> bool {
    let bx = c.x as int;
    let by = c.y as int;
    let cx = covered_x(c.strategy);
    let cy = covered_y(c.strategy);
    &&& y0 <= by < y1
    &&& fits_in(w, h, bx, by, c.strategy)
    &&& !touches_mosaic(rollbacks, bx, by, cx, cy)
    &&& !(v[by][bx].first && v[by][bx].strategy == c.strategy)
    &&& self_contained(v, bx, by, cx, cy)
}

/// The merges among the leading `n` shortlisted that may be put down.
pub open spec fn upgradables<A>(
    v: Layout,
    w: int,
    h: int,
    rollbacks: Seq<FineMergeRollback<A>>,
    y0: int,
    y1: int,
    all: Seq<Placement>,
    n: int,
) -> Seq<Placement>
    decreases n,
{
    if n <= 0 {
        Seq::empty()
    } else if upgradable(v, w, h, rollbacks, y0, y1, all[n - 1]) {
        upgradables(v, w, h, rollbacks, y0, y1, all, n - 1).push(all[n - 1])
    } else {
        upgradables(v, w, h, rollbacks, y0, y1, all, n - 1)
    }
}

/// Lists the shortlisted merges of the band `[y0, y1)` that may be put down.
pub fn upgrade_sites<A: Copy>(
    map: &AcStrategyImage,
    band: (usize, usize),
    rollbacks: &Vec<FineMergeRollback<A>>,
    shortlist: &Vec<Placement>,
) -> (r: Vec<Placement>)
    requires
        map.wf(),
    ensures
        r@ == upgradables(
            map@,
            map.width() as int,
            map.height() as int,
            rollbacks@,
            band.0 as int,
            band.1 as int,
            shortlist@,
            shortlist@.len() as int,
        ),
{
    let mut out: Vec<Placement> = Vec::new();
    let mut i: usize = 0;
    while i < shortlist.len()
        invariant
            i <= shortlist@.len(),
            map.wf(),
            out@ == upgradables(
                map@,
                map.width() as int,
                map.height() as int,
                rollbacks@,
                band.0 as int,
                band.1 as int,
                shortlist@,
                i as int,
            ),
        decreases shortlist@.len() - i,
    {
        let c: Placement = shortlist[i];
        if band.0 <= c.y && c.y < band.1 && map.can_place_strategy(c.x, c.y, c.strategy) {
            let cx: usize = covered_blocks_x_of(c.strategy);
            let cy: usize = covered_blocks_y_of(c.strategy);
            assert(map.inside(c.x as int, c.y as int));
            assert(cx * cy <= 64) by (nonlinear_arith)
                requires
                    cx <= 8,
                    cy <= 8,
            ;
            if !on_mosaic(rollbacks, c.x, c.y, cx, cy) && !(map.is_first_block(c.x, c.y)
                && map.raw_strategy(c.x, c.y) == c.strategy) && footprint_is_self_contained(
                map,
                c.x,
                c.y,
                cx,
                cy,
            ) {
                out.push(c);
            }
        }
        i += 1;
    }
    out
}

/// The first blocks among the leading `n` of row `y` of a window.
pub open spec fn row_blocks(v: Layout, bx: int, y: int, n: int) -> Seq<Placement>
    decreases n,
{
    if n <= 0 {
        Seq::empty()
    } else if v[y][bx + n - 1].first {
        row_blocks(v, bx, y, n - 1).push(
            Placement {
                x: (bx + n - 1) as usize,
                y: y as usize,
                strategy: v[y][bx + n - 1].strategy,
            },
        )
    } else {
        row_blocks(v, bx, y, n - 1)
    }
}

/// The first blocks of the leading `n` rows of a window, in row-major order.
pub open spec fn window_blocks(v: Layout, bx: int, by: int, cx: int, n: int) -> Seq<Placement>
    decreases n,
{
    if n <= 0 {
        Seq::empty()
    } else {
        window_blocks(v, bx, by, cx, n - 1) + row_blocks(v, bx, by + n - 1, cx)
    }
}

/// Lists the first blocks of the footprint of a merge, in row-major order.
pub fn footprint_blocks(map: &AcStrategyImage, site: Placement) -> (r: Vec<Placement>)
    requires
        map.wf(),
        map.fits(site.x as int, site.y as int, site.strategy),
    ensures
        r@ == window_blocks(
            map@,
            site.x as int,
            site.y as int,
            covered_x(site.strategy),
            covered_y(site.strategy),
        ),
{
    let ghost v = map@;
    let cx: usize = covered_blocks_x_of(site.strategy);
    let cy: usize = covered_blocks_y_of(site.strategy);
    let mut out: Vec<Placement> = Vec::new();
    let mut j: usize = 0;
    while j < cy
        invariant
            j <= cy,
            map.wf(),
            v == map@,
            site.x + cx <= map.width(),
            site.y + cy <= map.height(),
            out@ == window_blocks(v, site.x as int, site.y as int, cx as int, j as int),
        decreases cy - j,
    {
        let ghost before = out@;
        let mut i: usize = 0;
        assert(out@ =~= before + row_blocks(v, site.x as int, site.y + j, 0));
        while i < cx
            invariant
                i <= cx,
                j < cy,
                map.wf(),
                v == map@,
                site.x + cx <= map.width(),
                site.y + cy <= map.height(),
                out@ == before + row_blocks(v, site.x as int, site.y + j, i as int),
            decreases cx - i,
        {
            assert(map.inside(site.x + i, site.y + j));
            if map.is_first_block(site.x + i, site.y + j) {
                let strategy: u8 = map.raw_strategy(site.x + i, site.y + j);
                out.push(Placement { x: site.x + i, y: site.y + j, strategy });
            }
            i += 1;
            assert(out@ =~= before + row_blocks(v, site.x as int, site.y + j, i as int));
        }
        j += 1;
    }
    out
}

/// What reconstruction says of a shortlisted merge and of the layout under it.
pub struct UpgradeScores<A> {
    pub big: ReconCost<A>,
    /// Decision cost of every first block of the footprint.
    pub layout: Vec<A>,
}

/// Sum of the leading `n` costs.
pub open spec fn layout_cost<A: Amount>(costs: Seq<A>, n: int) -> A
    decreases n,
{
    if n <= 0 {
        A::zero_spec()
    } else {
        layout_cost(costs, n - 1).plus_spec(costs[n - 1])
    }
}

/// What a merge gains on the layout under it, its own cost charged at the margin.
pub open spec fn upgrade_gain<A: Amount>(s: UpgradeScores<A>, margin: A) -> A {
    layout_cost(s.layout@, s.layout@.len() as int).minus_spec(s.big.cost.over_spec(margin))
}

/// A merge that gains.
#[derive(Clone, Copy)]
pub struct Accepted<A> {
    pub site: Placement,
    pub base: Option<A>,
    pub gain: A,
}

/// The merges among the leading `n` that gain.
pub open spec fn accepted<A: Amount>(
    sites: Seq<Placement>,
    scores: Seq<UpgradeScores<A>>,
    margin: A,
    n: int,
) -> Seq<Accepted<A>>
    decreases n,
{
    if n <= 0 {
        Seq::empty()
    } else {
        let head = accepted(sites, scores, margin, n - 1);
        let gain = upgrade_gain(scores[n - 1], margin);
        if A::zero_spec().less_spec(gain) {
            head.push(Accepted { site: sites[n - 1], base: scores[n - 1].big.base, gain })
        } else {
            head
        }
    }
}

/// A merge over an aligned super-block or one of its halves.
pub open spec fn shortlistable(c: Placement) -> bool {
    c.strategy == STRATEGY_DCT16X16 || c.strategy == STRATEGY_DCT16X8 || c.strategy
        == STRATEGY_DCT8X16
}

/// Place of a merge among the five of its super-block.
pub open spec fn slot_of(c: Placement) -> int {
    if c.strategy == STRATEGY_DCT16X16 {
        0
    } else if c.strategy == STRATEGY_DCT16X8 {
        1 + c.x as int % 2
    } else {
        3 + c.y as int % 2
    }
}

/// The super-block of a merge, row first.
pub open spec fn key_of(c: Placement) -> (int, int) {
    (c.y as int / 2, c.x as int / 2)
}

/// The merge accepted last, among the leading `n`, for a place of a super-block.
pub open spec fn slot_winner<A>(
    acc: Seq<Accepted<A>>,
    n: int,
    key: (int, int),
    k: int,
) -> Option<Accepted<A>>
    decreases n,
{
    if n <= 0 {
        None
    } else if key_of(acc[n - 1].site) == key && slot_of(acc[n - 1].site) == k {
        Some(acc[n - 1])
    } else {
        slot_winner(acc, n - 1, key, k)
    }
}

/// One super-block lies before another, row by row.
pub open spec fn key_less(a: (int, int), b: (int, int)) -> bool {
    a.0 < b.0 || a.0 == b.0 && a.1 < b.1
}

/// Super-blocks in strictly increasing order.
pub open spec fn keys_sorted(keys: Seq<(int, int)>) -> bool {
    forall|i: int, j: int|
        0 <= i < j < keys.len() ==> key_less(#[trigger] keys[i], #[trigger] keys[j])
}

/// Where a super-block belongs among the leading `n` of an ordered list.
pub open spec fn insert_pos(keys: Seq<(int, int)>, key: (int, int), n: int) -> int
    decreases n,
{
    if n <= 0 || key_less(keys[n - 1], key) {
        n
    } else {
        insert_pos(keys, key, n - 1)
    }
}

/// An ordered list of super-blocks with one added, unless it is there.
pub open spec fn with_key(keys: Seq<(int, int)>, key: (int, int)) -> Seq<(int, int)> {
    let at = insert_pos(keys, key, keys.len() as int);
    if at < keys.len() && keys[at] == key {
        keys
    } else {
        keys.insert(at, key)
    }
}

/// The super-blocks of the leading `n` accepted merges, in order.
pub open spec fn keys_of<A>(acc: Seq<Accepted<A>>, n: int) -> Seq<(int, int)>
    decreases n,
{
    if n <= 0 {
        Seq::empty()
    } else {
        with_key(keys_of(acc, n - 1), key_of(acc[n - 1].site))
    }
}

proof fn lemma_insert_pos(keys: Seq<(int, int)>, key: (int, int), n: int)
    requires
        keys_sorted(keys),
        0 <= n <= keys.len(),
        forall|j: int| n <= j < keys.len() ==> !key_less(#[trigger] keys[j], key),
    ensures
        ({
            let at = insert_pos(keys, key, n);
            &&& 0 <= at <= n
            &&& forall|j: int| 0 <= j < at ==> key_less(#[trigger] keys[j], key)
            &&& forall|j: int| at <= j < keys.len() ==> !key_less(#[trigger] keys[j], key)
        }),
    decreases n,
{
    if n > 0 && !key_less(keys[n - 1], key) {
        lemma_insert_pos(keys, key, n - 1);
    } else if n > 0 {
        assert forall|j: int| 0 <= j < n implies key_less(#[trigger] keys[j], key) by {
            if j < n - 1 {
                assert(key_less(keys[j], keys[n - 1]));
            }
        }
    }
}

proof fn lemma_with_key(keys: Seq<(int, int)>, key: (int, int))
    requires
        keys_sorted(keys),
    ensures
        keys_sorted(with_key(keys, key)),
        with_key(keys, key).contains(key),
        forall|x: (int, int)|
            keys.contains(x) ==> #[trigger] with_key(keys, key).contains(x),
        keys.contains(key) ==> with_key(keys, key) == keys,
{
    lemma_insert_pos(keys, key, keys.len() as int);
    let at = insert_pos(keys, key, keys.len() as int);
    let now = with_key(keys, key);
    if at < keys.len() && keys[at] == key {
        assert(now[at] == key);
    } else {
        assert(now[at] == key);
        assert forall|x: (int, int)| keys.contains(x) implies #[trigger] now.contains(x) by {
            let i = choose|i: int| 0 <= i < keys.len() && keys[i] == x;
            if i < at {
                assert(now[i] == x);
            } else {
                assert(now[i + 1] == x);
            }
        }
        if keys.contains(key) {
            let i = choose|i: int| 0 <= i < keys.len() && keys[i] == key;
            assert(!key_less(keys[i], key));
            assert(i >= at);
            assert(key_less(keys[at], keys[i]) || at == i);
        }
        assert forall|i: int, j: int| 0 <= i < j < now.len() implies key_less(
            #[trigger] now[i],
            #[trigger] now[j],
        ) by {
            if j < at {
                assert(key_less(keys[i], keys[j]));
            } else if i > at {
                assert(key_less(keys[i - 1], keys[j - 1]));
            } else if i == at {
                assert(!key_less(keys[j - 1], key));
                if j - 1 > at {
                    assert(key_less(keys[at], keys[j - 1]));
                }
            } else if j > at {
                assert(key_less(keys[i], keys[j - 1]));
            }
        }
    }
}

pub(crate) proof fn lemma_keys_of<A>(acc: Seq<Accepted<A>>, n: int)
    requires
        0 <= n <= acc.len(),
    ensures
        keys_sorted(keys_of(acc, n)),
        forall|key: (int, int), k: int|
            #[trigger] slot_winner(acc, n, key, k) is Some ==> keys_of(acc, n).contains(key),
    decreases n,
{
    if n > 0 {
        lemma_keys_of(acc, n - 1);
        lemma_with_key(keys_of(acc, n - 1), key_of(acc[n - 1].site));
        assert forall|key: (int, int), k: int| #[trigger]
            slot_winner(acc, n, key, k) is Some implies keys_of(acc, n).contains(key) by {
            if !(key_of(acc[n - 1].site) == key && slot_of(acc[n - 1].site) == k) {
                assert(slot_winner(acc, n - 1, key, k) is Some);
                assert(keys_of(acc, n - 1).contains(key));
            }
        }
    }
}

/// The gain at a place; nothing there is never worth taking.
pub open spec fn slot_gain<A: Amount>(slot: Option<Accepted<A>>) -> A {
    match slot {
        Some(a) => a.gain,
        None => A::zero_spec().minus_spec(A::infinite_spec()),
    }
}

/// The merges of a super-block that are put down together.
pub open spec fn group_mask<A: Amount>(acc: Seq<Accepted<A>>, key: (int, int)) -> u8 {
    let n = acc.len() as int;
    best_packing(
        [
            slot_gain(slot_winner(acc, n, key, 0)),
            slot_gain(slot_winner(acc, n, key, 1)),
            slot_gain(slot_winner(acc, n, key, 2)),
            slot_gain(slot_winner(acc, n, key, 3)),
            slot_gain(slot_winner(acc, n, key, 4)),
        ],
        8,
    ).0
}

/// A merge to put down.
#[derive(Clone, Copy)]
pub struct MergeUpgrade<A> {
    pub bx: usize,
    pub by: usize,
    pub strategy: u8,
    pub base: Option<A>,
}

/// The merges at the leading `n` places of a super-block that are put down.
pub open spec fn group_upgrades<A: Amount>(
    acc: Seq<Accepted<A>>,
    key: (int, int),
    n: int,
) -> Seq<MergeUpgrade<A>>
    decreases n,
{
    if n <= 0 {
        Seq::empty()
    } else {
        let head = group_upgrades(acc, key, n - 1);
        let slot = slot_winner(acc, acc.len() as int, key, n - 1);
        if chosen(group_mask(acc, key), n - 1) && slot is Some {
            head.push(
                MergeUpgrade {
                    bx: slot->0.site.x,
                    by: slot->0.site.y,
                    strategy: slot->0.site.strategy,
                    base: slot->0.base,
                },
            )
        } else {
            head
        }
    }
}

/// The merges of the leading `n` super-blocks that are put down.
pub open spec fn upgrades_of<A: Amount>(acc: Seq<Accepted<A>>, n: int) -> Seq<MergeUpgrade<A>>
    decreases n,
{
    if n <= 0 {
        Seq::empty()
    } else {
        upgrades_of(acc, n - 1) + group_upgrades(acc, keys_of(acc, acc.len() as int)[n - 1], 5)
    }
}

struct Group<A> {
    gy: usize,
    gx: usize,
    slots: [Option<Accepted<A>>; 5],
}

/// Groups stand for the ordered super-blocks of the leading `n` accepted merges.
spec fn groups_hold<A>(groups: Seq<Group<A>>, acc: Seq<Accepted<A>>, n: int) -> bool {
    let keys = keys_of(acc, n);
    &&& groups.len() == keys.len()
    &&& forall|i: int|
        0 <= i < groups.len() ==> (#[trigger] groups[i]).gy == keys[i].0 && groups[i].gx
            == keys[i].1
    &&& forall|i: int, k: int|
        0 <= i < groups.len() && 0 <= k < 5 ==> #[trigger] groups[i].slots@[k] == slot_winner(
            acc,
            n,
            keys[i],
            k,
        )
}

fn slot_index(c: Placement) -> (r: usize)
    ensures
        r == slot_of(c),
        r < 5,
{
    if c.strategy == STRATEGY_DCT16X16 {
        0
    } else if c.strategy == STRATEGY_DCT16X8 {
        1 + c.x % 2
    } else {
        3 + c.y % 2
    }
}

fn add_to_group<A: Amount>(
    groups: &mut Vec<Group<A>>,
    a: Accepted<A>,
    Ghost(acc): Ghost<Seq<Accepted<A>>>,
    Ghost(n): Ghost<int>,
)
    requires
        0 <= n < acc.len(),
        acc[n] == a,
        groups_hold(old(groups)@, acc, n),
    ensures
        groups_hold(final(groups)@, acc, n + 1),
{
    let ghost before = groups@;
    let ghost keys = keys_of(acc, n);
    let gy: usize = a.site.y / 2;
    let gx: usize = a.site.x / 2;
    let ghost key = key_of(a.site);
    let k: usize = slot_index(a.site);
    proof {
        lemma_keys_of(acc, n);
        lemma_insert_pos(keys, key, keys.len() as int);
        lemma_with_key(keys, key);
    }
    let mut i: usize = groups.len();
    let mut search: bool = i > 0;
    while search
        invariant
            i <= groups@.len(),
            groups@ == before,
            groups_hold(before, acc, n),
            keys == keys_of(acc, n),
            key == (gy as int, gx as int),
            search ==> i > 0,
            insert_pos(keys, key, keys.len() as int) == insert_pos(keys, key, i as int),
            !search ==> insert_pos(keys, key, i as int) == i,
        decreases
            i + (if search {
                1int
            } else {
                0
            }),
    {
        let g: &Group<A> = &groups[i - 1];
        let before_it: bool = g.gy < gy || g.gy == gy && g.gx < gx;
        assert(groups@[i - 1].gy == keys[i - 1].0);
        if before_it {
            search = false;
        } else {
            i -= 1;
            search = i > 0;
        }
    }
    let ghost at = insert_pos(keys, key, keys.len() as int);
    assert(at == i);
    let found: bool = i < groups.len() && groups[i].gy == gy && groups[i].gx == gx;
    let ghost now_keys = keys_of(acc, n + 1);
    if found {
        assert(groups@[i as int].gy == keys[i as int].0);
        groups[i].slots[k] = Some(a);
        proof {
            assert(now_keys == keys);
            assert forall|j: int, m: int|
                0 <= j < groups@.len() && 0 <= m < 5 implies #[trigger] groups@[j].slots@[m]
                == slot_winner(acc, n + 1, now_keys[j], m) by {
                assert(before[j].slots@[m] == slot_winner(acc, n, keys[j], m));
                if j != i {
                    assert(groups@[j] == before[j]);
                    if j < i {
                        assert(key_less(keys[j], keys[i as int]));
                    } else {
                        assert(key_less(keys[i as int], keys[j]));
                    }
                }
            }
        }
    } else {
        let mut slots: [Option<Accepted<A>>; 5] = [None; 5];
        slots[k] = Some(a);
        groups.insert(i, Group { gy, gx, slots });
        proof {
            if i < keys.len() {
                assert(before[i as int].gy == keys[i as int].0);
            }
            assert(now_keys == keys.insert(i as int, key));
            assert(!keys.contains(key)) by {
                if keys.contains(key) {
                    assert(with_key(keys, key) == keys);
                    assert(now_keys.len() == keys.len() + 1);
                }
            }
            assert forall|j: int|
                0 <= j < groups@.len() implies (#[trigger] groups@[j]).gy == now_keys[j].0
                && groups@[j].gx == now_keys[j].1 by {
                if j < i {
                    assert(groups@[j] == before[j]);
                } else if j > i {
                    assert(groups@[j] == before[j - 1]);
                }
            }
            assert forall|j: int, m: int|
                0 <= j < groups@.len() && 0 <= m < 5 implies #[trigger] groups@[j].slots@[m]
                == slot_winner(acc, n + 1, now_keys[j], m) by {
                if j < i {
                    assert(groups@[j] == before[j]);
                    assert(before[j].slots@[m] == slot_winner(acc, n, keys[j], m));
                    assert(key_less(keys[j], key));
                } else if j > i {
                    assert(groups@[j] == before[j - 1]);
                    assert(before[j - 1].slots@[m] == slot_winner(acc, n, keys[j - 1], m));
                    assert(keys.contains(keys[j - 1]));
                } else {
                    assert(slot_winner(acc, n, key, m) is None);
                }
            }
        }
    }
}

/// Chooses the merges of a band that are put down: of every super-block the
/// compatible set with the largest total gain.
///
/// `scores` holds what reconstruction says of each merge, in the order of
/// `upgrade_sites`.
pub fn find_merge_upgrades<A: Amount>(
    map: &AcStrategyImage,
    band: (usize, usize),
    rollbacks: &Vec<FineMergeRollback<A>>,
    shortlist: &Vec<Placement>,
    scores: &Vec<UpgradeScores<A>>,
    margin: A,
) -> (r: Vec<MergeUpgrade<A>>)
    requires
        map.wf(),
        forall|i: int| 0 <= i < shortlist@.len() ==> shortlistable(#[trigger] shortlist@[i]),
        scores@.len() == upgradables(
            map@,
            map.width() as int,
            map.height() as int,
            rollbacks@,
            band.0 as int,
            band.1 as int,
            shortlist@,
            shortlist@.len() as int,
        ).len(),
    ensures
        ({
            let sites = upgradables(
                map@,
                map.width() as int,
                map.height() as int,
                rollbacks@,
                band.0 as int,
                band.1 as int,
                shortlist@,
                shortlist@.len() as int,
            );
            let acc = accepted(sites, scores@, margin, scores@.len() as int);
            r@ == upgrades_of(acc, keys_of(acc, acc.len() as int).len() as int)
        }),
{
    let sites: Vec<Placement> = upgrade_sites(map, band, rollbacks, shortlist);
    let mut acc: Vec<Accepted<A>> = Vec::new();
    let mut i: usize = 0;
    while i < sites.len()
        invariant
            i <= sites@.len(),
            scores@.len() == sites@.len(),
            acc@ == accepted(sites@, scores@, margin, i as int),
        decreases sites@.len() - i,
    {
        let s: &UpgradeScores<A> = &scores[i];
        let mut sum: A = A::zero();
        let mut j: usize = 0;
        while j < s.layout.len()
            invariant
                j <= s.layout@.len(),
                sum == layout_cost(s.layout@, j as int),
            decreases s.layout@.len() - j,
        {
            sum = sum.plus(s.layout[j]);
            j += 1;
        }
        let gain: A = sum.minus(s.big.cost.over(margin));
        if A::zero().less(gain) {
            acc.push(Accepted { site: sites[i], base: s.big.base, gain });
        }
        i += 1;
    }
    let mut groups: Vec<Group<A>> = Vec::new();
    i = 0;
    while i < acc.len()
        invariant
            i <= acc@.len(),
            groups_hold(groups@, acc@, i as int),
        decreases acc@.len() - i,
    {
        add_to_group(&mut groups, acc[i], Ghost(acc@), Ghost(i as int));
        i += 1;
    }
    let ghost keys = keys_of(acc@, acc@.len() as int);
    let mut out: Vec<MergeUpgrade<A>> = Vec::new();
    i = 0;
    while i < groups.len()
        invariant
            i <= groups@.len(),
            groups_hold(groups@, acc@, acc@.len() as int),
            keys == keys_of(acc@, acc@.len() as int),
            out@ == upgrades_of(acc@, i as int),
        decreases groups@.len() - i,
    {
        let slots: [Option<Accepted<A>>; 5] = groups[i].slots;
        let ghost key = keys[i as int];
        let ghost before = out@;
        let none: A = A::zero().minus(A::infinite());
        let mut gains: [A; 5] = [none; 5];
        let mut k: usize = 0;
        while k < 5
            invariant
                k <= 5,
                i < groups@.len(),
                slots == groups@[i as int].slots,
                key == keys[i as int],
                keys == keys_of(acc@, acc@.len() as int),
                groups_hold(groups@, acc@, acc@.len() as int),
                none == A::zero_spec().minus_spec(A::infinite_spec()),
                forall|m: int|
                    0 <= m < 5 ==> #[trigger] gains@[m] == (if m < k {
                        slot_gain(slot_winner(acc@, acc@.len() as int, key, m))
                    } else {
                        none
                    }),
            decreases 5 - k,
        {
            assert(groups@[i as int].slots@[k as int] == slot_winner(
                acc@,
                acc@.len() as int,
                key,
                k as int,
            ));
            if let Some(a) = slots[k] {
                gains[k] = a.gain;
            }
            k += 1;
        }
        let ghost n = acc@.len() as int;
        assert(gains =~= [
            slot_gain(slot_winner(acc@, n, key, 0)),
            slot_gain(slot_winner(acc@, n, key, 1)),
            slot_gain(slot_winner(acc@, n, key, 2)),
            slot_gain(slot_winner(acc@, n, key, 3)),
            slot_gain(slot_winner(acc@, n, key, 4)),
        ]);
        let mask: u8 = choose_upgrade_partition(gains);
        k = 0;
        assert(out@ =~= before + group_upgrades(acc@, key, 0));
        while k < 5
            invariant
                k <= 5,
                i < groups@.len(),
                slots == groups@[i as int].slots,
                key == keys[i as int],
                keys == keys_of(acc@, acc@.len() as int),
                groups_hold(groups@, acc@, acc@.len() as int),
                mask == group_mask(acc@, key),
                out@ == before + group_upgrades(acc@, key, k as int),
            decreases 5 - k,
        {
            assert(groups@[i as int].slots@[k as int] == slot_winner(
                acc@,
                acc@.len() as int,
                key,
                k as int,
            ));
            if has_merge(mask, k) {
                if let Some(a) = slots[k] {
                    out.push(
                        MergeUpgrade {
                            bx: a.site.x,
                            by: a.site.y,
                            strategy: a.site.strategy,
                            base: a.base,
                        },
                    );
                }
            }
            k += 1;
            assert(out@ =~= before + group_upgrades(acc@, key, k as int));
        }
        i += 1;
    }
    out
}

/// The placement of a merge.
pub open spec fn upgrade_site<A>(u: MergeUpgrade<A>) -> Placement {
    Placement { x: u.bx, y: u.by, strategy: u.strategy }
}

/// The layout after the leading `n` merges.
pub open spec fn after_upgrades<A>(v: Layout, ups: Seq<MergeUpgrade<A>>, n: int) -> Layout
    decreases n,
{
    if n <= 0 {
        v
    } else {
        with_first(
            after_upgrades(v, ups, n - 1),
            ups[n - 1].bx as int,
            ups[n - 1].by as int,
            ups[n - 1].strategy,
        )
    }
}

/// The grid of costs after the leading `n` merges: a merge's footprint is
/// forgotten but for its first block.
pub open spec fn costs_after_upgrades<A>(
    m: Costs<A>,
    ups: Seq<MergeUpgrade<A>>,
    n: int,
) -> Costs<A>
    decreases n,
{
    if n <= 0 {
        m
    } else {
        let u = ups[n - 1];
        with_cost(
            forgotten(
                costs_after_upgrades(m, ups, n - 1),
                u.bx as int,
                u.by as int,
                covered_x(u.strategy),
                covered_y(u.strategy),
            ),
            u.bx as int,
            u.by as int,
            u.base,
        )
    }
}

/// Puts merges down.
pub fn rerank_upgrade_merges<A: Amount>(
    map: &mut AcStrategyImage,
    costs: &mut CostMap<A>,
    ups: &Vec<MergeUpgrade<A>>,
)
    requires
        old(map).wf(),
        grid_shape(old(costs)@, old(map).width() as int, old(map).height() as int),
        forall|i: int|
            0 <= i < ups@.len() ==> old(map).fits(
                (#[trigger] ups@[i]).bx as int,
                ups@[i].by as int,
                ups@[i].strategy,
            ),
    ensures
        final(map).wf(),
        final(map).width() == old(map).width(),
        final(map).height() == old(map).height(),
        final(map)@ == after_upgrades(old(map)@, ups@, ups@.len() as int),
        grid_shape(final(costs)@, old(map).width() as int, old(map).height() as int),
        final(costs)@ == costs_after_upgrades(old(costs)@, ups@, ups@.len() as int),
{
    let ghost v = map@;
    let ghost m = costs@;
    let ghost w = map.width() as int;
    let ghost h = map.height() as int;
    let mut i: usize = 0;
    while i < ups.len()
        invariant
            i <= ups@.len(),
            map.wf(),
            map.width() == w,
            map.height() == h,
            w == old(map).width(),
            h == old(map).height(),
            forall|k: int|
                0 <= k < ups@.len() ==> fits_in(
                    w,
                    h,
                    (#[trigger] ups@[k]).bx as int,
                    ups@[k].by as int,
                    ups@[k].strategy,
                ),
            map@ == after_upgrades(v, ups@, i as int),
            grid_shape(costs@, w, h),
            costs@ == costs_after_upgrades(m, ups@, i as int),
        decreases ups@.len() - i,
    {
        let u: MergeUpgrade<A> = ups[i];
        assert(fits_in(w, h, ups@[i as int].bx as int, u.by as int, u.strategy));
        let cx: usize = covered_blocks_x_of(u.strategy);
        let cy: usize = covered_blocks_y_of(u.strategy);
        costs.forget(u.bx, u.by, cx, cy);
        assert(costs@[u.by as int].len() == w);
        costs.set(u.bx, u.by, u.base);
        map.set_first(u.bx, u.by, u.strategy);
        i += 1;
        proof {
            let before = costs_after_upgrades(m, ups@, i - 1);
            assert forall|y: int| 0 <= y < h implies (#[trigger] costs@[y]).len() == w by {
                assert(before[y].len() == w);
            }
        }
    }
}

} // verus!
