//! Upgrades put merges down on closed windows that have nothing in common.

use crate::amount::Amount;
use crate::merge::{best_packing, chosen, MERGE_PARTITIONS};
use crate::rerank_band::FineMergeRollback;
use crate::strategy::{covered_x, covered_y, STRATEGY_DCT16X8, STRATEGY_DCT8X16};
use crate::strategy_map::{fits_in, in_window, Layout, Placement};
use crate::tiling::{
    apart, closed_window, covered, covers, in_bounds, law_merge_on_closed_window, tiled,
};
use crate::upgrade::{
    accepted, after_upgrades, group_mask, group_upgrades, key_less, key_of, keys_of, row_area,
    self_contained, shortlistable, slot_of, slot_winner, stays_inside, upgradables, upgrade_site,
    upgrades_of, window_area, Accepted, MergeUpgrade, UpgradeScores,
};
use vstd::prelude::*;
use vstd::set_lib::{lemma_set_disjoint_lens, lemma_subset_equality};

verus! {

/// The blocks of a window.
pub open spec fn rect(x: int, y: int, cx: int, cy: int) -> Set<(int, int)> {
    Set::new(|p: (int, int)| in_window(x, y, cx, cy, p.0, p.1))
}

proof fn lemma_rect_row(x: int, y: int, cx: int)
    requires
        0 <= cx,
    ensures
        rect(x, y, cx, 1).finite(),
        rect(x, y, cx, 1).len() == cx,
    decreases cx,
{
    if cx == 0 {
        assert(rect(x, y, 0, 1) =~= Set::empty());
    } else {
        lemma_rect_row(x, y, cx - 1);
        let p = (x + cx - 1, y);
        assert(rect(x, y, cx, 1) =~= rect(x, y, cx - 1, 1).insert(p));
        assert(!rect(x, y, cx - 1, 1).contains(p));
    }
}

proof fn lemma_rect(x: int, y: int, cx: int, cy: int)
    requires
        0 <= cx,
        0 <= cy,
    ensures
        rect(x, y, cx, cy).finite(),
        rect(x, y, cx, cy).len() == cx * cy,
    decreases cy,
{
    if cy == 0 {
        assert(rect(x, y, cx, 0) =~= Set::empty());
        assert(cx * 0 == 0) by (nonlinear_arith);
    } else {
        lemma_rect(x, y, cx, cy - 1);
        lemma_rect_row(x, y + cy - 1, cx);
        let head = rect(x, y, cx, cy - 1);
        let row = rect(x, y + cy - 1, cx, 1);
        assert(rect(x, y, cx, cy) =~= head + row);
        assert(head.disjoint(row));
        lemma_set_disjoint_lens(head, row);
        assert(cx * (cy - 1) + cx == cx * cy) by (nonlinear_arith);
    }
}

/// The footprint of a first block.
spec fn block_rect(v: Layout, x: int, y: int) -> Set<(int, int)> {
    rect(x, y, covered_x(v[y][x].strategy), covered_y(v[y][x].strategy))
}

/// The blocks covered by the first blocks of the leading `n` rows of a window and
/// of the leading `m` blocks of the next.
spec fn scan_set(v: Layout, bx: int, by: int, cx: int, n: int, m: int) -> Set<(int, int)>
    decreases n, m,
{
    if m > 0 {
        let head = scan_set(v, bx, by, cx, n, m - 1);
        if v[by + n][bx + m - 1].first {
            head + block_rect(v, bx + m - 1, by + n)
        } else {
            head
        }
    } else if n > 0 {
        scan_set(v, bx, by, cx, n - 1, cx)
    } else {
        Set::empty()
    }
}

/// A first block among those covers the block `p`.
spec fn scanned(v: Layout, bx: int, by: int, cx: int, n: int, m: int, p: (int, int)) -> bool {
    exists|x: int, y: int|
        in_window(bx, by, cx, n + 1, x, y) && (y < by + n || x < bx + m) && #[trigger] covers(
            v,
            x,
            y,
            p.0,
            p.1,
        )
}

proof fn lemma_scan(v: Layout, w: int, h: int, bx: int, by: int, cx: int, n: int, m: int)
    requires
        tiled(v, w, h),
        0 <= bx,
        0 <= by,
        0 <= n,
        0 <= m <= cx,
        bx + cx <= w,
        by + n <= h,
        m > 0 ==> by + n < h,
    ensures
        scan_set(v, bx, by, cx, n, m).finite(),
        scan_set(v, bx, by, cx, n, m).len() == window_area(v, bx, by, cx, n) + row_area(
            v,
            bx,
            by + n,
            m,
        ),
        forall|p: (int, int)|
            #[trigger] scan_set(v, bx, by, cx, n, m).contains(p) ==> scanned(
                v,
                bx,
                by,
                cx,
                n,
                m,
                p,
            ),
    decreases n, m,
{
    let now = scan_set(v, bx, by, cx, n, m);
    if m > 0 {
        lemma_scan(v, w, h, bx, by, cx, n, m - 1);
        let head = scan_set(v, bx, by, cx, n, m - 1);
        let x = bx + m - 1;
        let y = by + n;
        assert forall|p: (int, int)| #[trigger] head.contains(p) implies scanned(
            v,
            bx,
            by,
            cx,
            n,
            m,
            p,
        ) by {
            assert(scanned(v, bx, by, cx, n, m - 1, p));
            let (a, b) = choose|a: int, b: int|
                in_window(bx, by, cx, n + 1, a, b) && (b < by + n || a < bx + m - 1)
                    && #[trigger] covers(v, a, b, p.0, p.1);
            assert(covers(v, a, b, p.0, p.1));
        }
        if v[y][x].first {
            let own = block_rect(v, x, y);
            lemma_rect(x, y, covered_x(v[y][x].strategy), covered_y(v[y][x].strategy));
            assert forall|p: (int, int)| #[trigger] own.contains(p) implies covers(
                v,
                x,
                y,
                p.0,
                p.1,
            ) by {}
            assert(head.disjoint(own)) by {
                assert forall|p: (int, int)| head.contains(p) implies !own.contains(p) by {
                    if own.contains(p) {
                        assert(scanned(v, bx, by, cx, n, m - 1, p));
                        let (a, b) = choose|a: int, b: int|
                            in_window(bx, by, cx, n + 1, a, b) && (b < by + n || a < bx + m - 1)
                                && #[trigger] covers(v, a, b, p.0, p.1);
                        assert(covers(v, x, y, p.0, p.1));
                        assert(in_bounds(w, h, a, b) && in_bounds(w, h, x, y));
                        assert(a == x && b == y);
                    }
                }
            }
            lemma_set_disjoint_lens(head, own);
            assert forall|p: (int, int)| #[trigger] now.contains(p) implies scanned(
                v,
                bx,
                by,
                cx,
                n,
                m,
                p,
            ) by {
                if own.contains(p) {
                    assert(covers(v, x, y, p.0, p.1));
                } else {
                    assert(head.contains(p));
                }
            }
        }
    } else if n > 0 {
        lemma_scan(v, w, h, bx, by, cx, n - 1, cx);
        assert forall|p: (int, int)| #[trigger] now.contains(p) implies scanned(
            v,
            bx,
            by,
            cx,
            n,
            m,
            p,
        ) by {
            assert(scan_set(v, bx, by, cx, n - 1, cx).contains(p));
            assert(scanned(v, bx, by, cx, n - 1, cx, p));
            let (a, b) = choose|a: int, b: int|
                in_window(bx, by, cx, n, a, b) && (b < by + n - 1 || a < bx + cx)
                    && #[trigger] covers(v, a, b, p.0, p.1);
            assert(covers(v, a, b, p.0, p.1));
        }
    }
}

/// In a tiling, a self-contained footprint is a closed window: a merge may
/// replace it.
pub proof fn law_self_contained_windows_are_closed(
    v: Layout,
    w: int,
    h: int,
    bx: int,
    by: int,
    cx: int,
    cy: int,
)
    requires
        tiled(v, w, h),
        0 <= bx,
        0 <= by,
        0 <= cx,
        0 <= cy,
        bx + cx <= w,
        by + cy <= h,
        self_contained(v, bx, by, cx, cy),
    ensures
        closed_window(v, w, h, bx, by, cx, cy),
{
    lemma_scan(v, w, h, bx, by, cx, cy, 0);
    lemma_rect(bx, by, cx, cy);
    let all = scan_set(v, bx, by, cx, cy, 0);
    let window = rect(bx, by, cx, cy);
    assert forall|p: (int, int)| all.contains(p) implies window.contains(p) by {
        assert(scanned(v, bx, by, cx, cy, 0, p));
        let (a, b) = choose|a: int, b: int|
            in_window(bx, by, cx, cy + 1, a, b) && (b < by + cy || a < bx) && #[trigger] covers(
                v,
                a,
                b,
                p.0,
                p.1,
            );
        assert(stays_inside(v, bx, by, cx, cy, a, b));
    }
    lemma_subset_equality(all, window);
    assert forall|fx: int, fy: int, x: int, y: int, a: int, b: int|
        in_bounds(w, h, fx, fy) && #[trigger] covers(v, fx, fy, x, y) && #[trigger] covers(
            v,
            fx,
            fy,
            a,
            b,
        ) && in_window(bx, by, cx, cy, x, y) implies in_window(bx, by, cx, cy, a, b) by {
        let p = (x, y);
        assert(window.contains(p));
        assert(all.contains(p));
        assert(scanned(v, bx, by, cx, cy, 0, p));
        let (gx, gy) = choose|gx: int, gy: int|
            in_window(bx, by, cx, cy + 1, gx, gy) && (gy < by + cy || gx < bx)
                && #[trigger] covers(v, gx, gy, x, y);
        assert(in_bounds(w, h, gx, gy));
        assert(gx == fx && gy == fy);
        assert(stays_inside(v, bx, by, cx, cy, gx, gy));
    }
}

proof fn lemma_scan_holds(
    v: Layout,
    bx: int,
    by: int,
    cx: int,
    n: int,
    m: int,
    f: (int, int),
    p: (int, int),
)
    requires
        0 <= n,
        0 <= m <= cx,
        in_window(bx, by, cx, n + 1, f.0, f.1),
        f.1 < by + n || f.0 < bx + m,
        covers(v, f.0, f.1, p.0, p.1),
    ensures
        scan_set(v, bx, by, cx, n, m).contains(p),
    decreases n, m,
{
    if m > 0 {
        if f.1 == by + n && f.0 == bx + m - 1 {
            assert(block_rect(v, f.0, f.1).contains(p));
        } else {
            lemma_scan_holds(v, bx, by, cx, n, m - 1, f, p);
        }
    } else {
        lemma_scan_holds(v, bx, by, cx, n - 1, cx, f, p);
    }
}

/// In a tiling, a footprint into which no block reaches and out of which none sticks
/// is found self-contained.
pub proof fn law_closed_windows_are_self_contained(
    v: Layout,
    w: int,
    h: int,
    bx: int,
    by: int,
    cx: int,
    cy: int,
)
    requires
        tiled(v, w, h),
        0 <= bx,
        0 <= by,
        0 <= cx,
        0 <= cy,
        bx + cx <= w,
        by + cy <= h,
        closed_window(v, w, h, bx, by, cx, cy),
    ensures
        self_contained(v, bx, by, cx, cy),
{
    assert forall|x: int, y: int|
        bx <= x < bx + cx && by <= y < by + cy implies #[trigger] stays_inside(
        v,
        bx,
        by,
        cx,
        cy,
        x,
        y,
    ) by {
        if v[y][x].first {
            let fx = x + covered_x(v[y][x].strategy) - 1;
            let fy = y + covered_y(v[y][x].strategy) - 1;
            assert(in_bounds(w, h, x, y));
            assert(covers(v, x, y, x, y));
            assert(covers(v, x, y, fx, fy));
            assert(in_window(bx, by, cx, cy, fx, fy));
        }
    }
    lemma_scan(v, w, h, bx, by, cx, cy, 0);
    lemma_rect(bx, by, cx, cy);
    let all = scan_set(v, bx, by, cx, cy, 0);
    let window = rect(bx, by, cx, cy);
    assert forall|p: (int, int)| all.contains(p) implies window.contains(p) by {
        assert(scanned(v, bx, by, cx, cy, 0, p));
        let (a, b) = choose|a: int, b: int|
            in_window(bx, by, cx, cy + 1, a, b) && (b < by + cy || a < bx) && #[trigger] covers(
                v,
                a,
                b,
                p.0,
                p.1,
            );
        assert(stays_inside(v, bx, by, cx, cy, a, b));
    }
    assert forall|p: (int, int)| window.contains(p) implies all.contains(p) by {
        assert(in_bounds(w, h, p.0, p.1));
        assert(covered(v, w, h, p.0, p.1));
        let (fx, fy) = choose|fx: int, fy: int|
            in_bounds(w, h, fx, fy) && #[trigger] covers(v, fx, fy, p.0, p.1);
        assert(covers(v, fx, fy, fx, fy));
        assert(in_window(bx, by, cx, cy, fx, fy));
        lemma_scan_holds(v, bx, by, cx, cy, 0, (fx, fy), p);
    }
    assert(all =~= window);
}

/// The footprints of two placements have nothing in common.
pub open spec fn sites_apart(p: Placement, q: Placement) -> bool {
    apart(
        p.x as int,
        p.y as int,
        covered_x(p.strategy),
        covered_y(p.strategy),
        q.x as int,
        q.y as int,
        covered_x(q.strategy),
        covered_y(q.strategy),
    )
}

/// The footprint of a placement is a closed window that lies in the layout.
pub open spec fn site_closed(v: Layout, w: int, h: int, p: Placement) -> bool {
    &&& fits_in(w, h, p.x as int, p.y as int, p.strategy)
    &&& closed_window(
        v,
        w,
        h,
        p.x as int,
        p.y as int,
        covered_x(p.strategy),
        covered_y(p.strategy),
    )
}

/// Merges put down on closed windows that have nothing in common keep the tiling.
pub proof fn law_upgrades_keep_tiling<A>(
    v: Layout,
    w: int,
    h: int,
    ups: Seq<MergeUpgrade<A>>,
    n: int,
)
    requires
        tiled(v, w, h),
        0 <= n <= ups.len(),
        forall|i: int|
            0 <= i < ups.len() ==> site_closed(v, w, h, upgrade_site(#[trigger] ups[i])),
        forall|i: int, j: int|
            0 <= i < j < ups.len() ==> sites_apart(
                upgrade_site(#[trigger] ups[j]),
                upgrade_site(#[trigger] ups[i]),
            ),
    ensures
        tiled(after_upgrades(v, ups, n), w, h),
        forall|i: int|
            n <= i < ups.len() ==> site_closed(
                after_upgrades(v, ups, n),
                w,
                h,
                upgrade_site(#[trigger] ups[i]),
            ),
    decreases n,
{
    if n > 0 {
        law_upgrades_keep_tiling(v, w, h, ups, n - 1);
        let before = after_upgrades(v, ups, n - 1);
        let after = after_upgrades(v, ups, n);
        let p = upgrade_site(ups[n - 1]);
        assert(site_closed(before, w, h, p));
        law_merge_on_closed_window(before, w, h, p);
        assert forall|i: int| n <= i < ups.len() implies site_closed(
            after,
            w,
            h,
            upgrade_site(#[trigger] ups[i]),
        ) by {
            assert(site_closed(before, w, h, upgrade_site(ups[i])));
            assert(sites_apart(upgrade_site(ups[i]), upgrade_site(ups[n - 1])));
        }
    }
}

/// A merge of an aligned super-block or of one of its halves.
pub open spec fn aligned_site(c: Placement) -> bool {
    &&& shortlistable(c)
    &&& c.strategy == STRATEGY_DCT16X8 || c.x % 2 == 0
    &&& c.strategy == STRATEGY_DCT8X16 || c.y % 2 == 0
}

/// A merge that an upgrade may put down on the layout.
pub open spec fn proper_site(v: Layout, w: int, h: int, c: Placement) -> bool {
    &&& aligned_site(c)
    &&& fits_in(w, h, c.x as int, c.y as int, c.strategy)
    &&& self_contained(v, c.x as int, c.y as int, covered_x(c.strategy), covered_y(c.strategy))
}

proof fn lemma_upgradables<A>(
    v: Layout,
    w: int,
    h: int,
    rollbacks: Seq<FineMergeRollback<A>>,
    y0: int,
    y1: int,
    all: Seq<Placement>,
    n: int,
)
    requires
        0 <= n <= all.len(),
        forall|i: int| 0 <= i < all.len() ==> aligned_site(#[trigger] all[i]),
    ensures
        ({
            let sites = upgradables(v, w, h, rollbacks, y0, y1, all, n);
            forall|i: int|
                0 <= i < sites.len() ==> proper_site(v, w, h, #[trigger] sites[i]) && y0
                    <= sites[i].y < y1
        }),
    decreases n,
{
    if n > 0 {
        lemma_upgradables(v, w, h, rollbacks, y0, y1, all, n - 1);
        let head = upgradables(v, w, h, rollbacks, y0, y1, all, n - 1);
        let sites = upgradables(v, w, h, rollbacks, y0, y1, all, n);
        assert forall|i: int| 0 <= i < sites.len() implies proper_site(
            v,
            w,
            h,
            #[trigger] sites[i],
        ) && y0 <= sites[i].y < y1 by {
            if i < head.len() {
                assert(sites[i] == head[i]);
            } else {
                assert(sites[i] == all[n - 1]);
            }
        }
    }
}

/// The sites of all accepted merges are proper and lie in the rows `[y0, y1)`.
spec fn all_proper<A>(v: Layout, w: int, h: int, y0: int, y1: int, acc: Seq<Accepted<A>>) -> bool {
    forall|i: int|
        0 <= i < acc.len() ==> proper_site(v, w, h, (#[trigger] acc[i]).site) && y0 <= acc[i].site.y
            < y1
}

proof fn lemma_accepted<A: Amount>(
    v: Layout,
    w: int,
    h: int,
    y0: int,
    y1: int,
    sites: Seq<Placement>,
    scores: Seq<UpgradeScores<A>>,
    margin: A,
    n: int,
)
    requires
        0 <= n <= sites.len(),
        forall|i: int|
            0 <= i < sites.len() ==> proper_site(v, w, h, #[trigger] sites[i]) && y0 <= sites[i].y
                < y1,
    ensures
        all_proper(v, w, h, y0, y1, accepted(sites, scores, margin, n)),
    decreases n,
{
    if n > 0 {
        lemma_accepted(v, w, h, y0, y1, sites, scores, margin, n - 1);
        let head = accepted(sites, scores, margin, n - 1);
        let now = accepted(sites, scores, margin, n);
        assert forall|i: int| 0 <= i < now.len() implies proper_site(
            v,
            w,
            h,
            (#[trigger] now[i]).site,
        ) && y0 <= now[i].site.y < y1 by {
            if i < head.len() {
                assert(now[i] == head[i]);
            } else {
                assert(now[i].site == sites[n - 1]);
            }
        }
    }
}

proof fn lemma_slot_winner<A>(acc: Seq<Accepted<A>>, n: int, key: (int, int), k: int)
    requires
        0 <= n <= acc.len(),
    ensures
        slot_winner(acc, n, key, k) is Some ==> ({
            let a = slot_winner(acc, n, key, k)->0;
            key_of(a.site) == key && slot_of(a.site) == k && acc.contains(a)
        }),
    decreases n,
{
    if n > 0 {
        lemma_slot_winner(acc, n - 1, key, k);
    }
}

proof fn lemma_packing_listed<A: Amount>(gains: [A; 5], n: int)
    requires
        n <= 8,
    ensures
        MERGE_PARTITIONS@.contains(best_packing(gains, n).0),
    decreases n,
{
    if n <= 1 {
        assert(MERGE_PARTITIONS@[0] == 0);
    } else {
        lemma_packing_listed(gains, n - 1);
        assert(MERGE_PARTITIONS@[n - 1] == MERGE_PARTITIONS@[n - 1]);
    }
}

/// Only the halves of one direction go together.
proof fn lemma_chosen_pairs(mask: u8, k: int, l: int)
    requires
        MERGE_PARTITIONS@.contains(mask),
        0 <= k < l < 5,
        chosen(mask, k),
        chosen(mask, l),
    ensures
        k == 1 && l == 2 || k == 3 && l == 4,
{
    let m = MERGE_PARTITIONS@;
    let i = choose|i: int| 0 <= i < m.len() && m[i] == mask;
    assert(m[0] == 0 && m[1] == 1 && m[2] == 2 && m[3] == 4 && m[4] == 6 && m[5] == 8 && m[6] == 16
        && m[7] == 24);
    assert(k == 0 || k == 1 || k == 2 || k == 3);
    assert(l == 1 || l == 2 || l == 3 || l == 4);
}

/// An upgrade of a group: a proper merge of the super-block at one of the chosen
/// places below `n`.
spec fn group_member<A>(
    v: Layout,
    w: int,
    h: int,
    y0: int,
    y1: int,
    mask: u8,
    key: (int, int),
    n: int,
    u: MergeUpgrade<A>,
) -> bool {
    let c = upgrade_site(u);
    &&& proper_site(v, w, h, c)
    &&& y0 <= c.y < y1
    &&& key_of(c) == key
    &&& slot_of(c) < n
    &&& chosen(mask, slot_of(c))
}

/// No two upgrades have a block in common.
pub open spec fn upgrades_apart<A>(ups: Seq<MergeUpgrade<A>>) -> bool {
    forall|i: int, j: int|
        0 <= i < j < ups.len() ==> sites_apart(
            upgrade_site(#[trigger] ups[j]),
            upgrade_site(#[trigger] ups[i]),
        )
}

proof fn lemma_group_upgrades<A: Amount>(
    v: Layout,
    w: int,
    h: int,
    y0: int,
    y1: int,
    acc: Seq<Accepted<A>>,
    key: (int, int),
    n: int,
)
    requires
        all_proper(v, w, h, y0, y1, acc),
        0 <= n <= 5,
    ensures
        upgrades_apart(group_upgrades(acc, key, n)),
        forall|i: int|
            0 <= i < group_upgrades(acc, key, n).len() ==> group_member(
                v,
                w,
                h,
                y0,
                y1,
                group_mask(acc, key),
                key,
                n,
                #[trigger] group_upgrades(acc, key, n)[i],
            ),
    decreases n,
{
    if n > 0 {
        lemma_group_upgrades(v, w, h, y0, y1, acc, key, n - 1);
        let mask = group_mask(acc, key);
        let head = group_upgrades(acc, key, n - 1);
        let now = group_upgrades(acc, key, n);
        let len = acc.len() as int;
        lemma_slot_winner(acc, len, key, n - 1);
        lemma_packing_listed(
            [
                crate::upgrade::slot_gain(slot_winner(acc, len, key, 0)),
                crate::upgrade::slot_gain(slot_winner(acc, len, key, 1)),
                crate::upgrade::slot_gain(slot_winner(acc, len, key, 2)),
                crate::upgrade::slot_gain(slot_winner(acc, len, key, 3)),
                crate::upgrade::slot_gain(slot_winner(acc, len, key, 4)),
            ],
            8,
        );
        if now.len() > head.len() {
            let a = slot_winner(acc, len, key, n - 1)->0;
            let at = choose|at: int| 0 <= at < acc.len() && acc[at] == a;
            assert(proper_site(v, w, h, acc[at].site));
            assert(upgrade_site(now.last()) == a.site);
        }
        assert forall|i: int| 0 <= i < now.len() implies group_member(
            v,
            w,
            h,
            y0,
            y1,
            mask,
            key,
            n,
            #[trigger] now[i],
        ) by {
            if i < head.len() {
                assert(now[i] == head[i]);
                assert(group_member(v, w, h, y0, y1, mask, key, n - 1, head[i]));
            }
        }
        assert forall|i: int, j: int| 0 <= i < j < now.len() implies sites_apart(
            upgrade_site(#[trigger] now[j]),
            upgrade_site(#[trigger] now[i]),
        ) by {
            if j < head.len() {
                assert(now[i] == head[i] && now[j] == head[j]);
            } else {
                assert(group_member(v, w, h, y0, y1, mask, key, n - 1, head[i]));
                assert(group_member(v, w, h, y0, y1, mask, key, n, now[j]));
                assert(now[i] == head[i]);
                let c = upgrade_site(now[i]);
                let d = upgrade_site(now[j]);
                lemma_chosen_pairs(mask, slot_of(c), slot_of(d));
            }
        }
    }
}

/// The super-block of an upgrade is one of the leading `n`.
spec fn keyed<A>(keys: Seq<(int, int)>, n: int, u: MergeUpgrade<A>) -> bool {
    exists|g: int| 0 <= g < n && #[trigger] keys[g] == key_of(upgrade_site(u))
}

/// Merges of different super-blocks have nothing in common.
proof fn lemma_keys_apart(c: Placement, d: Placement)
    requires
        aligned_site(c),
        aligned_site(d),
        key_of(c) != key_of(d),
    ensures
        sites_apart(c, d),
{
}

proof fn lemma_upgrades_of<A: Amount>(
    v: Layout,
    w: int,
    h: int,
    y0: int,
    y1: int,
    acc: Seq<Accepted<A>>,
    n: int,
)
    requires
        all_proper(v, w, h, y0, y1, acc),
        0 <= n <= keys_of(acc, acc.len() as int).len(),
    ensures
        upgrades_apart(upgrades_of(acc, n)),
        forall|i: int|
            0 <= i < upgrades_of(acc, n).len() ==> keyed(
                keys_of(acc, acc.len() as int),
                n,
                #[trigger] upgrades_of(acc, n)[i],
            ) && proper_site(v, w, h, upgrade_site(upgrades_of(acc, n)[i])) && y0
                <= upgrades_of(acc, n)[i].by < y1,
    decreases n,
{
    if n > 0 {
        lemma_upgrades_of(v, w, h, y0, y1, acc, n - 1);
        let keys = keys_of(acc, acc.len() as int);
        crate::upgrade::lemma_keys_of(acc, acc.len() as int);
        let key = keys[n - 1];
        lemma_group_upgrades(v, w, h, y0, y1, acc, key, 5);
        let head = upgrades_of(acc, n - 1);
        let group = group_upgrades(acc, key, 5);
        let now = upgrades_of(acc, n);
        let mask = group_mask(acc, key);
        assert forall|i: int| 0 <= i < now.len() implies keyed(keys, n, #[trigger] now[i])
            && proper_site(v, w, h, upgrade_site(now[i])) && y0 <= now[i].by < y1 by {
            if i < head.len() {
                assert(now[i] == head[i]);
                let g = choose|g: int|
                    0 <= g < n - 1 && #[trigger] keys[g] == key_of(upgrade_site(head[i]));
                assert(keys[g] == key_of(upgrade_site(now[i])));
            } else {
                assert(now[i] == group[i - head.len()]);
                assert(group_member(v, w, h, y0, y1, mask, key, 5, group[i - head.len()]));
                assert(keys[n - 1] == key_of(upgrade_site(now[i])));
            }
        }
        assert forall|i: int, j: int| 0 <= i < j < now.len() implies sites_apart(
            upgrade_site(#[trigger] now[j]),
            upgrade_site(#[trigger] now[i]),
        ) by {
            if j < head.len() {
                assert(now[i] == head[i] && now[j] == head[j]);
            } else if i >= head.len() {
                assert(now[i] == group[i - head.len()] && now[j] == group[j - head.len()]);
            } else {
                assert(now[i] == head[i]);
                assert(now[j] == group[j - head.len()]);
                assert(group_member(v, w, h, y0, y1, mask, key, 5, group[j - head.len()]));
                assert(keyed(keys, n - 1, head[i]));
                let g = choose|g: int|
                    0 <= g < n - 1 && #[trigger] keys[g] == key_of(upgrade_site(head[i]));
                assert(key_less(keys[g], keys[n - 1]));
                lemma_keys_apart(upgrade_site(now[j]), upgrade_site(now[i]));
            }
        }
    }
}

/// The upgrades chosen for a band of a tiling stand on closed windows of it that
/// have nothing in common, and start in the band's rows.
pub proof fn law_chosen_upgrades_stand_apart<A: Amount>(
    v: Layout,
    w: int,
    h: int,
    rollbacks: Seq<FineMergeRollback<A>>,
    y0: int,
    y1: int,
    shortlist: Seq<Placement>,
    scores: Seq<UpgradeScores<A>>,
    margin: A,
)
    requires
        tiled(v, w, h),
        forall|i: int| 0 <= i < shortlist.len() ==> aligned_site(#[trigger] shortlist[i]),
        scores.len() == upgradables(
            v,
            w,
            h,
            rollbacks,
            y0,
            y1,
            shortlist,
            shortlist.len() as int,
        ).len(),
    ensures
        ({
            let sites = upgradables(
                v,
                w,
                h,
                rollbacks,
                y0,
                y1,
                shortlist,
                shortlist.len() as int,
            );
            let acc = accepted(sites, scores, margin, scores.len() as int);
            let ups = upgrades_of(acc, keys_of(acc, acc.len() as int).len() as int);
            &&& upgrades_apart(ups)
            &&& forall|i: int|
                0 <= i < ups.len() ==> site_closed(v, w, h, upgrade_site(#[trigger] ups[i]))
                    && aligned_site(upgrade_site(ups[i])) && y0 <= ups[i].by < y1
        }),
{
    let sites = upgradables(v, w, h, rollbacks, y0, y1, shortlist, shortlist.len() as int);
    let acc = accepted(sites, scores, margin, scores.len() as int);
    let ups = upgrades_of(acc, keys_of(acc, acc.len() as int).len() as int);
    lemma_upgradables(v, w, h, rollbacks, y0, y1, shortlist, shortlist.len() as int);
    lemma_accepted(v, w, h, y0, y1, sites, scores, margin, scores.len() as int);
    lemma_upgrades_of(v, w, h, y0, y1, acc, keys_of(acc, acc.len() as int).len() as int);
    assert forall|i: int| 0 <= i < ups.len() implies site_closed(
        v,
        w,
        h,
        upgrade_site(#[trigger] ups[i]),
    ) && aligned_site(upgrade_site(ups[i])) && y0 <= ups[i].by < y1 by {
        let c = upgrade_site(ups[i]);
        assert(proper_site(v, w, h, c));
        law_self_contained_windows_are_closed(
            v,
            w,
            h,
            c.x as int,
            c.y as int,
            covered_x(c.strategy),
            covered_y(c.strategy),
        );
    }
}

/// Upgrades of two bands, the one above the other, have nothing in common.
pub proof fn law_upgrades_of_bands_apart(c: Placement, d: Placement, cut: int)
    requires
        aligned_site(c),
        aligned_site(d),
        cut % 2 == 0,
        c.y < cut <= d.y,
    ensures
        sites_apart(c, d),
        sites_apart(d, c),
{
}

} // verus!
