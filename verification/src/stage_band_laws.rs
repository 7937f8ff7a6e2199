//! Stages whose bands each go by their own lists come to what one band over all the
//! rows does.

use crate::amount::Amount;
use crate::band_laws::{
    handed, joined, law_bands_take_effect_as_one, law_reranking_does_not_depend_on_the_bands,
    law_saved_layouts_are_found_in_their_band, law_upgrading_does_not_depend_on_the_bands, produced,
    put_down, put_out,
};
use crate::bands::{contiguous, lemma_bands_within};
use crate::cost_map::Costs;
use crate::fill::{all_rollbacks, is_mosaic, plain_blocks, plain_blocks_of, sub8_targets};
use crate::mosaic::RerankParams;
use crate::pass64::{with_bands, with_regions};
use crate::rerank::SiteScores;
use crate::rerank_band::{
    after_bands, after_downgrades, after_notes, after_rerank, costs_of_bands, lemma_merges_of,
    merges_of, saved_among, FineMergeRollback, RerankOutput, RerankState,
};
use crate::selection::{BandOutput, Chosen32Cost};
use crate::selection_laws::lemma_bands_ordered;
use crate::strategy::{covered_x, covered_y};
use crate::strategy_map::{fits_in, AcStrategyImage, Layout, Placement};
use crate::super_block::SavedChild;
use crate::tiling::tiled;
use crate::upgrade::{
    touches, touches_mosaic, upgradable, upgradables, MergeUpgrade, UpgradeScores,
};
use crate::upgrade_laws::aligned_site;
use vstd::prelude::*;

verus! {

/// Every band saved layouts of its own rows.
pub open spec fn saved_in_rows(bands: Seq<(usize, usize)>, saved: Seq<Seq<SavedChild>>) -> bool {
    forall|i: int, k: int|
        0 <= i < bands.len() && 0 <= k < saved[i].len() ==> bands[i].0 <= (
        #[trigger] saved[i][k]).by < bands[i].1
}

proof fn lemma_handed_saved_above(
    bands: Seq<(usize, usize)>,
    saved: Seq<Seq<SavedChild>>,
    end: int,
    n: int,
)
    requires
        contiguous(bands, end),
        saved_in_rows(bands, saved),
        0 < n <= bands.len(),
    ensures
        forall|i: int|
            0 <= i < handed(saved, n).len() ==> (#[trigger] handed(saved, n)[i]).by < bands[n
                - 1].1,
    decreases n,
{
    let all = handed(saved, n);
    let head = handed(saved, n - 1);
    if n > 1 {
        lemma_handed_saved_above(bands, saved, end, n - 1);
        assert(bands[n - 1].0 == bands[n - 2].1);
    }
    assert forall|i: int| 0 <= i < all.len() implies (#[trigger] all[i]).by < bands[n - 1].1 by {
        if i < head.len() {
            assert(all[i] == head[i]);
            assert(bands[n - 1].0 < bands[n - 1].1);
        } else {
            assert(all[i] == saved[n - 1][i - head.len()]);
        }
    }
}

proof fn lemma_found_in_band(
    bands: Seq<(usize, usize)>,
    saved: Seq<Seq<SavedChild>>,
    end: int,
    n: int,
    k: int,
    bx: int,
    by: int,
)
    requires
        contiguous(bands, end),
        saved_in_rows(bands, saved),
        0 <= k < n <= bands.len(),
        bands[k].0 <= by < bands[k].1,
    ensures
        saved_among(handed(saved, n), handed(saved, n).len() as int, bx, by) == saved_among(
            saved[k],
            saved[k].len() as int,
            bx,
            by,
        ),
    decreases n,
{
    let none = Seq::<SavedChild>::empty();
    let head = handed(saved, n - 1);
    let last = saved[n - 1];
    if k == n - 1 {
        assert forall|i: int| 0 <= i < head.len() implies (#[trigger] head[i]).by != by by {
            lemma_handed_saved_above(bands, saved, end, n - 1);
            assert(bands[n - 1].0 == bands[n - 2].1);
        }
        law_saved_layouts_are_found_in_their_band(head, last, none, 0, bx, by);
        assert(head + last + none =~= handed(saved, n));
    } else {
        lemma_found_in_band(bands, saved, end, n - 1, k, bx, by);
        lemma_bands_ordered(bands, end, k, n - 1);
        assert forall|i: int| 0 <= i < last.len() implies (#[trigger] last[i]).by != by by {
            assert(bands[n - 1].0 <= saved[n - 1][i].by);
        }
        law_saved_layouts_are_found_in_their_band(none, head, last, last.len() as int, bx, by);
        assert(none + head + last =~= handed(saved, n));
    }
}

proof fn lemma_rerank_with_same_saved<A: Amount>(
    map: AcStrategyImage,
    p: RerankParams<A>,
    a: Seq<SavedChild>,
    b: Seq<SavedChild>,
    sites: Seq<Placement>,
    scores: Seq<SiteScores<A>>,
    n: int,
)
    requires
        0 <= n <= sites.len(),
        forall|i: int|
            0 <= i < sites.len() ==> saved_among(
                a,
                a.len() as int,
                (#[trigger] sites[i]).x as int,
                sites[i].y as int,
            ) == saved_among(b, b.len() as int, sites[i].x as int, sites[i].y as int),
    ensures
        after_rerank(map, p, a, sites, scores, n) == after_rerank(map, p, b, sites, scores, n),
    decreases n,
{
    if n > 0 {
        lemma_rerank_with_same_saved(map, p, a, b, sites, scores, n - 1);
        assert(sites[n - 1] == sites[n - 1]);
    }
}

/// Each band reranked its merges by the layouts that it saved itself.
pub open spec fn reranked_by_bands<A: Amount>(
    map: AcStrategyImage,
    p: RerankParams<A>,
    bands: Seq<(usize, usize)>,
    saved: Seq<Seq<SavedChild>>,
    scores: Seq<Seq<SiteScores<A>>>,
    outs: Seq<RerankOutput<A>>,
) -> bool {
    &&& scores.len() == bands.len()
    &&& outs.len() == bands.len()
    &&& forall|i: int|
        #![trigger outs[i]]
        0 <= i < bands.len() ==> {
            let sites = merges_of(map@, bands[i].0 as int, bands[i].1 as int);
            &&& scores[i].len() == sites.len()
            &&& outs[i]@ == after_rerank(map, p, saved[i], sites, scores[i], sites.len() as int)
        }
}

proof fn lemma_put_out_is_produced<A: Amount>(
    map: AcStrategyImage,
    p: RerankParams<A>,
    bands: Seq<(usize, usize)>,
    saved: Seq<Seq<SavedChild>>,
    scores: Seq<Seq<SiteScores<A>>>,
    outs: Seq<RerankOutput<A>>,
    n: int,
)
    requires
        map.wf(),
        tiled(map@, map.width() as int, map.height() as int),
        contiguous(bands, map.height() as int),
        saved_in_rows(bands, saved),
        reranked_by_bands(map, p, bands, saved, scores, outs),
        0 <= n <= bands.len(),
    ensures
        put_out(outs, n) == produced(
            map,
            p,
            handed(saved, bands.len() as int),
            bands,
            scores,
            n,
        ),
    decreases n,
{
    if n > 0 {
        lemma_put_out_is_produced(map, p, bands, saved, scores, outs, n - 1);
        let all = handed(saved, bands.len() as int);
        let y0 = bands[n - 1].0 as int;
        let y1 = bands[n - 1].1 as int;
        let sites = merges_of(map@, y0, y1);
        assert(outs[n - 1]@ == after_rerank(
            map,
            p,
            saved[n - 1],
            sites,
            scores[n - 1],
            sites.len() as int,
        ));
        lemma_merges_of(map@, map.width() as int, map.height() as int, y0, y1);
        assert forall|i: int| 0 <= i < sites.len() implies saved_among(
            saved[n - 1],
            saved[n - 1].len() as int,
            (#[trigger] sites[i]).x as int,
            sites[i].y as int,
        ) == saved_among(all, all.len() as int, sites[i].x as int, sites[i].y as int) by {
            lemma_found_in_band(
                bands,
                saved,
                map.height() as int,
                bands.len() as int,
                n - 1,
                sites[i].x as int,
                sites[i].y as int,
            );
        }
        lemma_rerank_with_same_saved(
            map,
            p,
            saved[n - 1],
            all,
            sites,
            scores[n - 1],
            sites.len() as int,
        );
    }
}

/// Bands that rerank by the layouts that each saved itself change the map, and note
/// the costs, as reranking all the rows by all the saved layouts does.
pub proof fn law_reranking_by_own_saved_layouts<A: Amount>(
    map: AcStrategyImage,
    p: RerankParams<A>,
    bands: Seq<(usize, usize)>,
    saved: Seq<Seq<SavedChild>>,
    scores: Seq<Seq<SiteScores<A>>>,
    outs: Seq<RerankOutput<A>>,
    m: Costs<A>,
)
    requires
        map.wf(),
        tiled(map@, map.width() as int, map.height() as int),
        bands.len() > 0,
        contiguous(bands, map.height() as int),
        saved_in_rows(bands, saved),
        reranked_by_bands(map, p, bands, saved, scores, outs),
    ensures
        ({
            let n = bands.len() as int;
            let sites = merges_of(map@, 0, map.height() as int);
            let one = after_rerank(
                map,
                p,
                handed(saved, n),
                sites,
                handed(scores, n),
                handed(scores, n).len() as int,
            );
            &&& handed(scores, n).len() == sites.len()
            &&& put_out(outs, n) == one
            &&& after_bands(map@, outs, n) == after_downgrades(
                map@,
                one.downgrades,
                one.downgrades.len() as int,
            )
            &&& costs_of_bands(m, outs, n) == after_notes(m, one.costs, one.costs.len() as int)
        }),
{
    let n = bands.len() as int;
    assert forall|i: int| 0 <= i < bands.len() implies (#[trigger] scores[i]).len() == merges_of(
        map@,
        bands[i].0 as int,
        bands[i].1 as int,
    ).len() by {
        assert(outs[i]@ == outs[i]@);
    }
    lemma_put_out_is_produced(map, p, bands, saved, scores, outs, n);
    law_reranking_does_not_depend_on_the_bands(map, p, handed(saved, n), bands, scores, n);
    law_bands_take_effect_as_one(map@, m, outs, n);
}

proof fn lemma_regions_join<A>(
    m: Costs<A>,
    a: Seq<Chosen32Cost<A>>,
    b: Seq<Chosen32Cost<A>>,
    n: int,
)
    requires
        0 <= n <= a.len() + b.len(),
    ensures
        with_regions(m, a + b, n) == (if n <= a.len() {
            with_regions(m, a, n)
        } else {
            with_regions(with_regions(m, a, a.len() as int), b, n - a.len())
        }),
    decreases n,
{
    if n > 0 {
        lemma_regions_join(m, a, b, n - 1);
        if n <= a.len() {
            assert((a + b)[n - 1] == a[n - 1]);
        } else {
            assert((a + b)[n - 1] == b[n - 1 - a.len()]);
            let mid = with_regions(m, a, a.len() as int);
            assert(with_regions(mid, b, 0) == mid);
        }
    }
}

/// The regions that the leading `n` bands priced, one band after the other.
pub open spec fn all_regions<A>(outs: Seq<BandOutput<A>>, n: int) -> Seq<Chosen32Cost<A>>
    decreases n,
{
    if n <= 0 {
        Seq::empty()
    } else {
        all_regions(outs, n - 1) + outs[n - 1].chosen32@
    }
}

/// The costs of regions that bands note are those of their joined list.
pub proof fn law_regions_are_noted_as_one<A>(m: Costs<A>, outs: Seq<BandOutput<A>>, n: int)
    requires
        0 <= n <= outs.len(),
    ensures
        with_bands(m, outs, n) == with_regions(
            m,
            all_regions(outs, n),
            all_regions(outs, n).len() as int,
        ),
    decreases n,
{
    if n > 0 {
        law_regions_are_noted_as_one(m, outs, n - 1);
        let a = all_regions(outs, n - 1);
        let b = outs[n - 1].chosen32@;
        lemma_regions_join(m, a, b, (a.len() + b.len()) as int);
        if b.len() == 0 {
            assert(a + b =~= a);
        }
    }
}

/// What a band undid stands in rows `[y0, y1)`.
pub open spec fn stands_in_rows<A>(s: RerankState<A>, y0: int, y1: int) -> bool {
    &&& forall|i: int|
        0 <= i < s.downgrades.len() ==> y0 <= (#[trigger] s.downgrades[i]).by
            && s.downgrades[i].by < y1
    &&& forall|i: int|
        0 <= i < s.rollbacks.len() ==> y0 <= (#[trigger] s.rollbacks[i]).at.by
            && s.rollbacks[i].at.by < y1 && s.rollbacks[i].at.by + s.rollbacks[i].at.cy <= y1
}

pub(crate) proof fn lemma_rerank_stands_in_rows<A: Amount>(
    map: AcStrategyImage,
    p: RerankParams<A>,
    saved: Seq<SavedChild>,
    sites: Seq<Placement>,
    scores: Seq<SiteScores<A>>,
    n: int,
    y0: int,
    y1: int,
)
    requires
        0 <= n <= sites.len(),
        forall|i: int|
            0 <= i < sites.len() ==> y0 <= (#[trigger] sites[i]).y < y1 && sites[i].y + covered_y(
                sites[i].strategy,
            ) <= y1,
    ensures
        stands_in_rows(after_rerank(map, p, saved, sites, scores, n), y0, y1),
    decreases n,
{
    if n > 0 {
        lemma_rerank_stands_in_rows(map, p, saved, sites, scores, n - 1, y0, y1);
        let site = sites[n - 1];
        assert(y0 <= site.y < y1);
    }
}

proof fn lemma_mosaics_join<A>(
    a: RerankState<A>,
    b: RerankState<A>,
    bx: int,
    by: int,
    c: int,
    y1: int,
)
    requires
        stands_in_rows(a, 0, c),
        stands_in_rows(b, c, y1),
    ensures
        by < c ==> is_mosaic(joined(a, b).rollbacks, bx, by) == is_mosaic(a.rollbacks, bx, by),
        by >= c ==> is_mosaic(joined(a, b).rollbacks, bx, by) == is_mosaic(b.rollbacks, bx, by),
{
    let all = joined(a, b).rollbacks;
    let k = a.rollbacks.len() as int;
    if is_mosaic(all, bx, by) {
        let i = choose|i: int|
            0 <= i < all.len() && (#[trigger] all[i]).at.bx == bx && all[i].at.by == by;
        if i < k {
            assert(all[i] == a.rollbacks[i]);
        } else {
            assert(all[i] == b.rollbacks[i - k]);
        }
    }
    if is_mosaic(a.rollbacks, bx, by) {
        let i = choose|i: int|
            0 <= i < k && (#[trigger] a.rollbacks[i]).at.bx == bx && a.rollbacks[i].at.by == by;
        assert(all[i] == a.rollbacks[i]);
    }
    if is_mosaic(b.rollbacks, bx, by) {
        let i = choose|i: int|
            0 <= i < b.rollbacks.len() && (#[trigger] b.rollbacks[i]).at.bx == bx
                && b.rollbacks[i].at.by == by;
        assert(all[k + i] == b.rollbacks[i]);
    }
}

proof fn lemma_plain_blocks_join<A>(a: RerankState<A>, b: RerankState<A>, c: int, y1: int, n: int)
    requires
        stands_in_rows(a, 0, c),
        stands_in_rows(b, c, y1),
        0 <= n <= a.downgrades.len() + b.downgrades.len(),
    ensures
        plain_blocks_of(joined(a, b), n) == (if n <= a.downgrades.len() {
            plain_blocks_of(a, n)
        } else {
            plain_blocks_of(a, a.downgrades.len() as int) + plain_blocks_of(
                b,
                n - a.downgrades.len(),
            )
        }),
    decreases n,
{
    if n > 0 {
        lemma_plain_blocks_join(a, b, c, y1, n - 1);
        let all = joined(a, b);
        let k = a.downgrades.len() as int;
        let d = all.downgrades[n - 1];
        lemma_mosaics_join(a, b, d.bx, d.by, c, y1);
        if n <= k {
            assert(d == a.downgrades[n - 1]);
        } else {
            assert(d == b.downgrades[n - 1 - k]);
            let first = plain_blocks_of(a, k);
            let before = plain_blocks_of(b, n - 1 - k);
            let more = if is_mosaic(b.rollbacks, d.bx, d.by) {
                Seq::empty()
            } else {
                plain_blocks(d, 16)
            };
            assert(plain_blocks_of(b, 0) =~= Seq::empty());
            assert(first + before + more =~= first + (before + more));
            assert(n - 1 == k ==> first + before =~= first);
        }
    }
}

/// The bands' outputs stand in their rows.
pub open spec fn outputs_in_rows<A>(
    bands: Seq<(usize, usize)>,
    outs: Seq<RerankOutput<A>>,
) -> bool {
    forall|i: int|
        0 <= i < outs.len() ==> stands_in_rows(
            (#[trigger] outs[i])@,
            bands[i].0 as int,
            bands[i].1 as int,
        )
}

proof fn lemma_put_out_in_rows<A>(
    bands: Seq<(usize, usize)>,
    outs: Seq<RerankOutput<A>>,
    end: int,
    n: int,
)
    requires
        contiguous(bands, end),
        outs.len() == bands.len(),
        outputs_in_rows(bands, outs),
        0 < n <= bands.len(),
    ensures
        stands_in_rows(put_out(outs, n), 0, bands[n - 1].1 as int),
    decreases n,
{
    let own = outs[n - 1]@;
    assert(stands_in_rows(own, bands[n - 1].0 as int, bands[n - 1].1 as int));
    let head = put_out(outs, n - 1);
    let all = put_out(outs, n);
    if n > 1 {
        lemma_put_out_in_rows(bands, outs, end, n - 1);
        assert(bands[n - 1].0 == bands[n - 2].1);
        assert(bands[n - 1].0 < bands[n - 1].1);
    }
    let y1 = bands[n - 1].1 as int;
    assert forall|i: int| 0 <= i < all.downgrades.len() implies 0 <= (
    #[trigger] all.downgrades[i]).by && all.downgrades[i].by < y1 by {
        if i < head.downgrades.len() {
            assert(all.downgrades[i] == head.downgrades[i]);
        } else {
            assert(all.downgrades[i] == own.downgrades[i - head.downgrades.len()]);
        }
    }
    assert forall|i: int| 0 <= i < all.rollbacks.len() implies 0 <= (
    #[trigger] all.rollbacks[i]).at.by && all.rollbacks[i].at.by < y1 && all.rollbacks[i].at.by
        + all.rollbacks[i].at.cy <= y1 by {
        if i < head.rollbacks.len() {
            assert(all.rollbacks[i] == head.rollbacks[i]);
        } else {
            assert(all.rollbacks[i] == own.rollbacks[i - head.rollbacks.len()]);
        }
    }
}

/// The blocks that bands list for transforms below 8x8 are those of their joined
/// output, in the same order.
pub proof fn law_sub8_blocks_are_listed_as_one<A>(
    bands: Seq<(usize, usize)>,
    outs: Seq<RerankOutput<A>>,
    end: int,
    n: int,
)
    requires
        contiguous(bands, end),
        outs.len() == bands.len(),
        outputs_in_rows(bands, outs),
        0 <= n <= bands.len(),
    ensures
        sub8_targets(outs, n) == plain_blocks_of(
            put_out(outs, n),
            put_out(outs, n).downgrades.len() as int,
        ),
    decreases n,
{
    if n > 0 {
        law_sub8_blocks_are_listed_as_one(bands, outs, end, n - 1);
        let head = put_out(outs, n - 1);
        let own = outs[n - 1]@;
        let c = bands[n - 1].0 as int;
        let y1 = bands[n - 1].1 as int;
        assert(stands_in_rows(own, c, y1));
        if n > 1 {
            lemma_put_out_in_rows(bands, outs, end, n - 1);
            assert(bands[n - 1].0 == bands[n - 2].1);
        }
        let all = (head.downgrades.len() + own.downgrades.len()) as int;
        lemma_plain_blocks_join(head, own, c, y1, all);
        assert(plain_blocks_of(own, 0) =~= Seq::empty());
        if own.downgrades.len() == 0 {
            let first = plain_blocks_of(head, head.downgrades.len() as int);
            assert(first + plain_blocks_of(own, 0) =~= first);
        }
    }
}

proof fn lemma_touches_join<A>(
    a: Seq<FineMergeRollback<A>>,
    b: Seq<FineMergeRollback<A>>,
    bx: int,
    by: int,
    cx: int,
    cy: int,
)
    ensures
        touches_mosaic(a + b, bx, by, cx, cy) == (touches_mosaic(a, bx, by, cx, cy)
            || touches_mosaic(b, bx, by, cx, cy)),
{
    let all = a + b;
    if touches_mosaic(all, bx, by, cx, cy) {
        let i = choose|i: int|
            0 <= i < all.len() && touches(#[trigger] all[i], bx, by, cx, cy);
        if i < a.len() {
            assert(touches(a[i], bx, by, cx, cy));
        } else {
            assert(touches(b[i - a.len()], bx, by, cx, cy));
        }
    }
    if touches_mosaic(a, bx, by, cx, cy) {
        let i = choose|i: int| 0 <= i < a.len() && touches(#[trigger] a[i], bx, by, cx, cy);
        assert(touches(all[i], bx, by, cx, cy));
    }
    if touches_mosaic(b, bx, by, cx, cy) {
        let i = choose|i: int| 0 <= i < b.len() && touches(#[trigger] b[i], bx, by, cx, cy);
        assert(touches(all[a.len() + i], bx, by, cx, cy));
    }
}

proof fn lemma_rollbacks_in_rows<A>(o: RerankOutput<A>, y0: int, y1: int)
    requires
        stands_in_rows(o@, y0, y1),
    ensures
        forall|i: int|
            0 <= i < o.rollbacks@.len() ==> y0 <= (#[trigger] o.rollbacks@[i]).by
                && o.rollbacks@[i].by + o.rollbacks@[i].cov_y <= y1,
{
    assert forall|i: int| 0 <= i < o.rollbacks@.len() implies y0 <= (
    #[trigger] o.rollbacks@[i]).by && o.rollbacks@[i].by + o.rollbacks@[i].cov_y <= y1 by {
        assert(o@.rollbacks[i] == o.rollbacks@[i]@);
    }
}

proof fn lemma_rollbacks_above<A>(
    bands: Seq<(usize, usize)>,
    outs: Seq<RerankOutput<A>>,
    end: int,
    n: int,
)
    requires
        contiguous(bands, end),
        outs.len() == bands.len(),
        outputs_in_rows(bands, outs),
        0 < n <= bands.len(),
    ensures
        forall|i: int|
            0 <= i < all_rollbacks(outs, n).len() ==> (#[trigger] all_rollbacks(outs, n)[i]).by
                + all_rollbacks(outs, n)[i].cov_y <= bands[n - 1].1,
    decreases n,
{
    let head = all_rollbacks(outs, n - 1);
    let all = all_rollbacks(outs, n);
    let own = outs[n - 1];
    assert(stands_in_rows(own@, bands[n - 1].0 as int, bands[n - 1].1 as int));
    lemma_rollbacks_in_rows(own, bands[n - 1].0 as int, bands[n - 1].1 as int);
    if n > 1 {
        lemma_rollbacks_above(bands, outs, end, n - 1);
        assert(bands[n - 1].0 == bands[n - 2].1);
        assert(bands[n - 1].0 < bands[n - 1].1);
    }
    assert forall|i: int| 0 <= i < all.len() implies (#[trigger] all[i]).by + all[i].cov_y
        <= bands[n - 1].1 by {
        if i < head.len() {
            assert(all[i] == head[i]);
        } else {
            assert(all[i] == own.rollbacks@[i - head.len()]);
        }
    }
}

proof fn lemma_mosaics_of_band<A>(
    bands: Seq<(usize, usize)>,
    outs: Seq<RerankOutput<A>>,
    end: int,
    n: int,
    k: int,
    bx: int,
    by: int,
    cx: int,
    cy: int,
)
    requires
        contiguous(bands, end),
        outs.len() == bands.len(),
        outputs_in_rows(bands, outs),
        0 <= k < n <= bands.len(),
        bands[k].0 <= by,
        by + cy <= bands[k].1,
    ensures
        touches_mosaic(all_rollbacks(outs, n), bx, by, cx, cy) == touches_mosaic(
            outs[k].rollbacks@,
            bx,
            by,
            cx,
            cy,
        ),
    decreases n,
{
    let head = all_rollbacks(outs, n - 1);
    let own = outs[n - 1].rollbacks@;
    lemma_touches_join(head, own, bx, by, cx, cy);
    if k == n - 1 {
        assert forall|i: int| 0 <= i < head.len() implies !touches(
            #[trigger] head[i],
            bx,
            by,
            cx,
            cy,
        ) by {
            lemma_rollbacks_above(bands, outs, end, n - 1);
            assert(bands[n - 1].0 == bands[n - 2].1);
        }
    } else {
        lemma_mosaics_of_band(bands, outs, end, n - 1, k, bx, by, cx, cy);
        lemma_bands_ordered(bands, end, k, n - 1);
        assert(stands_in_rows(outs[n - 1]@, bands[n - 1].0 as int, bands[n - 1].1 as int));
        lemma_rollbacks_in_rows(outs[n - 1], bands[n - 1].0 as int, bands[n - 1].1 as int);
        assert forall|i: int| 0 <= i < own.len() implies !touches(#[trigger] own[i], bx, by, cx, cy)
            by {
            assert(bands[n - 1].0 <= own[i].by);
        }
    }
}

/// Every band shortlisted merges of its own rows.
pub open spec fn listed_in_rows(
    bands: Seq<(usize, usize)>,
    lists: Seq<Seq<Placement>>,
) -> bool {
    forall|i: int, k: int|
        0 <= i < bands.len() && 0 <= k < lists[i].len() ==> bands[i].0 <= (
        #[trigger] lists[i][k]).y < bands[i].1 && aligned_site(lists[i][k])
}

proof fn lemma_upgradables_with_same_mosaics<A>(
    v: Layout,
    w: int,
    h: int,
    ra: Seq<FineMergeRollback<A>>,
    rb: Seq<FineMergeRollback<A>>,
    y0: int,
    y1: int,
    list: Seq<Placement>,
    n: int,
)
    requires
        0 <= n <= list.len(),
        forall|i: int|
            0 <= i < list.len() && fits_in(
                w,
                h,
                (#[trigger] list[i]).x as int,
                list[i].y as int,
                list[i].strategy,
            ) ==> touches_mosaic(
                ra,
                list[i].x as int,
                list[i].y as int,
                covered_x(list[i].strategy),
                covered_y(list[i].strategy),
            ) == touches_mosaic(
                rb,
                list[i].x as int,
                list[i].y as int,
                covered_x(list[i].strategy),
                covered_y(list[i].strategy),
            ),
    ensures
        upgradables(v, w, h, ra, y0, y1, list, n) == upgradables(v, w, h, rb, y0, y1, list, n),
    decreases n,
{
    if n > 0 {
        lemma_upgradables_with_same_mosaics(v, w, h, ra, rb, y0, y1, list, n - 1);
        assert(upgradable(v, w, h, ra, y0, y1, list[n - 1]) == upgradable(
            v,
            w,
            h,
            rb,
            y0,
            y1,
            list[n - 1],
        ));
    }
}

proof fn lemma_handed_lists_above(
    bands: Seq<(usize, usize)>,
    lists: Seq<Seq<Placement>>,
    end: int,
    n: int,
)
    requires
        contiguous(bands, end),
        listed_in_rows(bands, lists),
        0 < n <= bands.len(),
    ensures
        forall|i: int|
            0 <= i < handed(lists, n).len() ==> (#[trigger] handed(lists, n)[i]).y < bands[n - 1].1,
    decreases n,
{
    let all = handed(lists, n);
    let head = handed(lists, n - 1);
    if n > 1 {
        lemma_handed_lists_above(bands, lists, end, n - 1);
        assert(bands[n - 1].0 == bands[n - 2].1);
    }
    assert forall|i: int| 0 <= i < all.len() implies (#[trigger] all[i]).y < bands[n - 1].1 by {
        if i < head.len() {
            assert(all[i] == head[i]);
            assert(bands[n - 1].0 < bands[n - 1].1);
        } else {
            assert(all[i] == lists[n - 1][i - head.len()]);
        }
    }
}

/// Each band put merges of its own shortlist down, going by the mosaics that it made
/// itself.
pub open spec fn upgraded_by_bands<A: Amount>(
    v: Layout,
    w: int,
    h: int,
    bands: Seq<(usize, usize)>,
    outs: Seq<RerankOutput<A>>,
    lists: Seq<Seq<Placement>>,
    scores: Seq<Seq<UpgradeScores<A>>>,
    margin: A,
    ups: Seq<Seq<MergeUpgrade<A>>>,
) -> bool {
    &&& ups.len() == bands.len()
    &&& forall|i: int|
        #![trigger ups[i]]
        0 <= i < bands.len() ==> {
            let sites = upgradables(
                v,
                w,
                h,
                outs[i].rollbacks@,
                bands[i].0 as int,
                bands[i].1 as int,
                lists[i],
                lists[i].len() as int,
            );
            &&& scores[i].len() == sites.len()
            &&& ups[i] == put_down(sites, scores[i], margin)
        }
}

/// Bands that upgrade by their own shortlists and mosaics put down, one after the
/// other, what upgrading all the rows by all shortlists and mosaics does.
pub proof fn law_upgrading_by_own_shortlists<A: Amount>(
    v: Layout,
    w: int,
    h: int,
    bands: Seq<(usize, usize)>,
    outs: Seq<RerankOutput<A>>,
    lists: Seq<Seq<Placement>>,
    scores: Seq<Seq<UpgradeScores<A>>>,
    margin: A,
    ups: Seq<Seq<MergeUpgrade<A>>>,
    n: int,
)
    requires
        contiguous(bands, h),
        outs.len() == bands.len(),
        outputs_in_rows(bands, outs),
        listed_in_rows(bands, lists),
        upgraded_by_bands(v, w, h, bands, outs, lists, scores, margin, ups),
        0 < n <= bands.len(),
    ensures
        ({
            let all = handed(lists, n);
            let sites = upgradables(
                v,
                w,
                h,
                all_rollbacks(outs, bands.len() as int),
                0,
                bands[n - 1].1 as int,
                all,
                all.len() as int,
            );
            &&& handed(scores, n).len() == sites.len()
            &&& handed(ups, n) == put_down(sites, handed(scores, n), margin)
        }),
    decreases n,
{
    let last = bands.len() as int;
    let every = all_rollbacks(outs, last);
    let c = bands[n - 1].0 as int;
    let y1 = bands[n - 1].1 as int;
    let own = lists[n - 1];
    let mine = outs[n - 1].rollbacks@;
    lemma_bands_within(bands, h, n - 1);
    assert(y1 % 4 == 0 || y1 == h);
    assert(ups[n - 1] == ups[n - 1]);
    assert forall|i: int|
        0 <= i < own.len() && fits_in(
            w,
            h,
            (#[trigger] own[i]).x as int,
            own[i].y as int,
            own[i].strategy,
        ) implies touches_mosaic(
        mine,
        own[i].x as int,
        own[i].y as int,
        covered_x(own[i].strategy),
        covered_y(own[i].strategy),
    ) == touches_mosaic(
        every,
        own[i].x as int,
        own[i].y as int,
        covered_x(own[i].strategy),
        covered_y(own[i].strategy),
    ) by {
        assert(lists[n - 1][i] == own[i]);
        assert(own[i].y + covered_y(own[i].strategy) <= y1);
        lemma_mosaics_of_band(
            bands,
            outs,
            h,
            last,
            n - 1,
            own[i].x as int,
            own[i].y as int,
            covered_x(own[i].strategy),
            covered_y(own[i].strategy),
        );
    }
    lemma_upgradables_with_same_mosaics(
        v,
        w,
        h,
        mine,
        every,
        c,
        y1,
        own,
        own.len() as int,
    );
    if n > 1 {
        law_upgrading_by_own_shortlists(
            v,
            w,
            h,
            bands,
            outs,
            lists,
            scores,
            margin,
            ups,
            n - 1,
        );
        assert(bands[n - 2].1 == c);
        assert(c % 4 == 0);
        lemma_handed_lists_above(bands, lists, h, n - 1);
        assert forall|i: int| 0 <= i < own.len() implies (#[trigger] own[i]).y >= c by {
            assert(lists[n - 1][i] == own[i]);
        }
        law_upgrading_does_not_depend_on_the_bands(
            v,
            w,
            h,
            every,
            (0, c, y1),
            (handed(lists, n - 1), own),
            (handed(scores, n - 1), scores[n - 1]),
            margin,
        );
    } else {
        assert(c == 0);
        reveal_with_fuel(handed, 2);
        assert(handed(lists, 1) =~= own);
        assert(handed(scores, 1) =~= scores[0]);
        assert(handed(ups, 1) =~= ups[0]);
    }
}

} // verus!
