//! Bands that rerank, upgrade and refine on their own come to what one band over all
//! their rows does.

use crate::amount::Amount;
use crate::bands::contiguous;
use crate::cost_map::Costs;
use crate::filling_laws::{in_order, lemma_firsts_in_order};
use crate::mosaic::RerankParams;
use crate::quant_field::Field;
use crate::quant_refine::{
    refined_among, refined_site, refined_sites, refinements_of, QuantRefinement, RefineScores,
};
use crate::rerank::{CachedQuantCost, SiteScores};
use crate::rerank_band::{
    after_bands, after_downgrades, after_notes, after_rerank, costs_of_bands, merges_in, merges_of,
    reranked, saved_among, DowngradeView, FineMergeRollback, RerankOutput, RerankState,
};
use crate::strategy_map::{firsts, AcStrategyImage, Layout, Placement};
use crate::super_block::SavedChild;
use crate::upgrade::{
    accepted, group_mask, group_upgrades, insert_pos, key_less, key_of, keys_of, slot_winner,
    upgradables, upgrade_gain, upgrades_of, with_key, Accepted, MergeUpgrade, UpgradeScores,
};
use crate::upgrade_order::{lemma_insert_pos_range, lemma_keys_come_from_merges};
use vstd::prelude::*;

verus! {

/// What the leading `n` bands were handed, one after the other.
pub open spec fn handed<S>(per_band: Seq<Seq<S>>, n: int) -> Seq<S>
    decreases n,
{
    if n <= 0 {
        Seq::empty()
    } else {
        handed(per_band, n - 1) + per_band[n - 1]
    }
}

/// What two bands produced, the upper one first.
pub open spec fn joined<A>(a: RerankState<A>, b: RerankState<A>) -> RerankState<A> {
    RerankState {
        costs: a.costs + b.costs,
        downgrades: a.downgrades + b.downgrades,
        rollbacks: a.rollbacks + b.rollbacks,
    }
}

/// What the leading `n` bands produced.
pub open spec fn produced<A: Amount>(
    map: AcStrategyImage,
    p: RerankParams<A>,
    saved: Seq<SavedChild>,
    bands: Seq<(usize, usize)>,
    scores: Seq<Seq<SiteScores<A>>>,
    n: int,
) -> RerankState<A>
    decreases n,
{
    if n <= 0 {
        RerankState { costs: Seq::empty(), downgrades: Seq::empty(), rollbacks: Seq::empty() }
    } else {
        joined(
            produced(map, p, saved, bands, scores, n - 1),
            after_rerank(
                map,
                p,
                saved,
                merges_of(map@, bands[n - 1].0 as int, bands[n - 1].1 as int),
                scores[n - 1],
                scores[n - 1].len() as int,
            ),
        )
    }
}

proof fn lemma_none_below(all: Seq<Placement>, c: int, y1: int, n: int)
    requires
        in_order(all),
        0 < n <= all.len(),
        all[n - 1].y < c,
    ensures
        merges_in(all, c, y1, n) == Seq::<Placement>::empty(),
    decreases n,
{
    if n > 1 {
        assert(all[n - 2].y <= all[n - 1].y);
        lemma_none_below(all, c, y1, n - 1);
    } else {
        assert(merges_in(all, c, y1, 0) =~= Seq::empty());
    }
}

/// The merges of two bands, one below the other, are those of the one over both.
proof fn lemma_merges_join(all: Seq<Placement>, y0: int, c: int, y1: int, n: int)
    requires
        in_order(all),
        0 <= n <= all.len(),
        y0 <= c <= y1,
    ensures
        merges_in(all, y0, y1, n) == merges_in(all, y0, c, n) + merges_in(all, c, y1, n),
    decreases n,
{
    if n > 0 {
        lemma_merges_join(all, y0, c, y1, n - 1);
        let last = all[n - 1];
        let a = merges_in(all, y0, c, n - 1);
        let b = merges_in(all, c, y1, n - 1);
        if reranked(last, y0, y1) {
            if last.y < c {
                lemma_none_below(all, c, y1, n);
                assert(reranked(last, y0, c));
                assert(b =~= Seq::empty()) by {
                    if n > 1 {
                        assert(all[n - 2].y <= all[n - 1].y);
                        lemma_none_below(all, c, y1, n - 1);
                    }
                }
                assert((a + b).push(last) =~= a.push(last) + Seq::empty());
            } else {
                assert(reranked(last, c, y1));
                assert(!reranked(last, y0, c));
                assert((a + b).push(last) =~= a + b.push(last));
            }
        } else {
            assert(!reranked(last, y0, c) && !reranked(last, c, y1));
        }
    } else {
        assert(merges_in(all, y0, y1, 0) =~= merges_in(all, y0, c, 0) + merges_in(all, c, y1, 0));
    }
}

proof fn lemma_rerank_prefix<A: Amount>(
    map: AcStrategyImage,
    p: RerankParams<A>,
    saved: Seq<SavedChild>,
    a: Seq<Placement>,
    b: Seq<Placement>,
    sa: Seq<SiteScores<A>>,
    sb: Seq<SiteScores<A>>,
    n: int,
)
    requires
        a.len() == sa.len(),
        0 <= n <= a.len(),
    ensures
        after_rerank(map, p, saved, a + b, sa + sb, n) == after_rerank(map, p, saved, a, sa, n),
    decreases n,
{
    if n > 0 {
        lemma_rerank_prefix(map, p, saved, a, b, sa, sb, n - 1);
        assert((a + b)[n - 1] == a[n - 1]);
        assert((sa + sb)[n - 1] == sa[n - 1]);
    }
}

proof fn lemma_rerank_joins<A: Amount>(
    map: AcStrategyImage,
    p: RerankParams<A>,
    saved: Seq<SavedChild>,
    a: Seq<Placement>,
    b: Seq<Placement>,
    sa: Seq<SiteScores<A>>,
    sb: Seq<SiteScores<A>>,
    n: int,
)
    requires
        a.len() == sa.len(),
        b.len() == sb.len(),
        0 <= n <= b.len(),
    ensures
        after_rerank(map, p, saved, a + b, sa + sb, a.len() + n) == joined(
            after_rerank(map, p, saved, a, sa, a.len() as int),
            after_rerank(map, p, saved, b, sb, n),
        ),
    decreases n,
{
    let first = after_rerank(map, p, saved, a, sa, a.len() as int);
    let whole = after_rerank(map, p, saved, a + b, sa + sb, a.len() + n);
    let second = after_rerank(map, p, saved, b, sb, n);
    if n > 0 {
        lemma_rerank_joins(map, p, saved, a, b, sa, sb, n - 1);
        assert((a + b)[a.len() + n - 1] == b[n - 1]);
        assert((sa + sb)[a.len() + n - 1] == sb[n - 1]);
        assert(whole.costs =~= joined(first, second).costs);
        assert(whole.downgrades =~= joined(first, second).downgrades);
        assert(whole.rollbacks =~= joined(first, second).rollbacks);
    } else {
        lemma_rerank_prefix(map, p, saved, a, b, sa, sb, a.len() as int);
        assert(whole.costs =~= joined(first, second).costs);
        assert(whole.downgrades =~= joined(first, second).downgrades);
        assert(whole.rollbacks =~= joined(first, second).rollbacks);
    }
}

/// Reranking band by band produces what reranking all the rows at once does.
pub proof fn law_reranking_does_not_depend_on_the_bands<A: Amount>(
    map: AcStrategyImage,
    p: RerankParams<A>,
    saved: Seq<SavedChild>,
    bands: Seq<(usize, usize)>,
    scores: Seq<Seq<SiteScores<A>>>,
    n: int,
)
    requires
        map.wf(),
        contiguous(bands, map.height() as int),
        scores.len() == bands.len(),
        forall|i: int|
            0 <= i < bands.len() ==> (#[trigger] scores[i]).len() == merges_of(
                map@,
                bands[i].0 as int,
                bands[i].1 as int,
            ).len(),
        0 < n <= bands.len(),
    ensures
        handed(scores, n).len() == merges_of(map@, 0, bands[n - 1].1 as int).len(),
        after_rerank(
            map,
            p,
            saved,
            merges_of(map@, 0, bands[n - 1].1 as int),
            handed(scores, n),
            handed(scores, n).len() as int,
        ) == produced(map, p, saved, bands, scores, n),
    decreases n,
{
    map.lemma_shape();
    let all = firsts(map@, map@.len() as int);
    lemma_firsts_in_order(map@, map.width() as int, map@.len() as int);
    let c = bands[n - 1].0 as int;
    let y1 = bands[n - 1].1 as int;
    let b = merges_of(map@, c, y1);
    let sb = scores[n - 1];
    assert(sb.len() == b.len());
    assert(c <= y1);
    if n > 1 {
        law_reranking_does_not_depend_on_the_bands(map, p, saved, bands, scores, n - 1);
        assert(bands[n - 2].1 == c);
        let a = merges_of(map@, 0, c);
        let sa = handed(scores, n - 1);
        lemma_merges_join(all, 0, c, y1, all.len() as int);
        lemma_rerank_joins(map, p, saved, a, b, sa, sb, b.len() as int);
    } else {
        assert(c == 0);
        reveal_with_fuel(handed, 2);
        reveal_with_fuel(produced, 2);
        assert(handed(scores, 1) =~= sb);
        let own = after_rerank(map, p, saved, b, sb, sb.len() as int);
        let one = produced(map, p, saved, bands, scores, 1);
        assert(one.costs =~= own.costs);
        assert(one.downgrades =~= own.downgrades);
        assert(one.rollbacks =~= own.rollbacks);
    }
}

proof fn lemma_downgrades_join(
    v: Layout,
    a: Seq<DowngradeView>,
    b: Seq<DowngradeView>,
    n: int,
)
    requires
        0 <= n <= b.len(),
    ensures
        after_downgrades(v, a + b, a.len() + n) == after_downgrades(
            after_downgrades(v, a, a.len() as int),
            b,
            n,
        ),
    decreases n,
{
    if n > 0 {
        lemma_downgrades_join(v, a, b, n - 1);
        assert((a + b)[a.len() + n - 1] == b[n - 1]);
    } else {
        lemma_downgrades_prefix(v, a, b, a.len() as int);
    }
}

proof fn lemma_downgrades_prefix(v: Layout, a: Seq<DowngradeView>, b: Seq<DowngradeView>, n: int)
    requires
        0 <= n <= a.len(),
    ensures
        after_downgrades(v, a + b, n) == after_downgrades(v, a, n),
    decreases n,
{
    if n > 0 {
        lemma_downgrades_prefix(v, a, b, n - 1);
        assert((a + b)[n - 1] == a[n - 1]);
    }
}

proof fn lemma_notes_join<A>(
    m: Costs<A>,
    a: Seq<CachedQuantCost<A>>,
    b: Seq<CachedQuantCost<A>>,
    n: int,
)
    requires
        0 <= n <= b.len(),
    ensures
        after_notes(m, a + b, a.len() + n) == after_notes(
            after_notes(m, a, a.len() as int),
            b,
            n,
        ),
    decreases n,
{
    if n > 0 {
        lemma_notes_join(m, a, b, n - 1);
        assert((a + b)[a.len() + n - 1] == b[n - 1]);
    } else {
        lemma_notes_prefix(m, a, b, a.len() as int);
    }
}

proof fn lemma_notes_prefix<A>(
    m: Costs<A>,
    a: Seq<CachedQuantCost<A>>,
    b: Seq<CachedQuantCost<A>>,
    n: int,
)
    requires
        0 <= n <= a.len(),
    ensures
        after_notes(m, a + b, n) == after_notes(m, a, n),
    decreases n,
{
    if n > 0 {
        lemma_notes_prefix(m, a, b, n - 1);
        assert((a + b)[n - 1] == a[n - 1]);
    }
}

/// What the leading `n` bands put out, as one state.
pub open spec fn put_out<A>(outs: Seq<RerankOutput<A>>, n: int) -> RerankState<A>
    decreases n,
{
    if n <= 0 {
        RerankState { costs: Seq::empty(), downgrades: Seq::empty(), rollbacks: Seq::empty() }
    } else {
        joined(put_out(outs, n - 1), outs[n - 1]@)
    }
}

/// The outputs of bands take effect as their union does.
pub proof fn law_bands_take_effect_as_one<A>(
    v: Layout,
    m: Costs<A>,
    outs: Seq<RerankOutput<A>>,
    n: int,
)
    requires
        0 <= n <= outs.len(),
    ensures
        after_bands(v, outs, n) == after_downgrades(
            v,
            put_out(outs, n).downgrades,
            put_out(outs, n).downgrades.len() as int,
        ),
        costs_of_bands(m, outs, n) == after_notes(
            m,
            put_out(outs, n).costs,
            put_out(outs, n).costs.len() as int,
        ),
    decreases n,
{
    if n > 0 {
        law_bands_take_effect_as_one(v, m, outs, n - 1);
        let head = put_out(outs, n - 1);
        let own = outs[n - 1]@;
        lemma_downgrades_join(v, head.downgrades, own.downgrades, own.downgrades.len() as int);
        lemma_notes_join(m, head.costs, own.costs, own.costs.len() as int);
    }
}

proof fn lemma_found_in_prefix(a: Seq<SavedChild>, b: Seq<SavedChild>, n: int, bx: int, by: int)
    requires
        0 <= n <= a.len(),
    ensures
        saved_among(a + b, n, bx, by) == saved_among(a, n, bx, by),
    decreases n,
{
    if n > 0 {
        lemma_found_in_prefix(a, b, n - 1, bx, by);
        assert((a + b)[n - 1] == a[n - 1]);
    }
}

proof fn lemma_not_found(a: Seq<SavedChild>, n: int, bx: int, by: int)
    requires
        0 <= n <= a.len(),
        forall|i: int| 0 <= i < a.len() ==> (#[trigger] a[i]).by != by,
    ensures
        saved_among(a, n, bx, by) is None,
    decreases n,
{
    if n > 0 {
        lemma_not_found(a, n - 1, bx, by);
        assert(a[n - 1].by != by);
    }
}

/// A band finds a saved layout of its rows in its own list, whatever bands above
/// and below it saved.
pub proof fn law_saved_layouts_are_found_in_their_band(
    above: Seq<SavedChild>,
    own: Seq<SavedChild>,
    below: Seq<SavedChild>,
    n: int,
    bx: int,
    by: int,
)
    requires
        forall|i: int| 0 <= i < above.len() ==> (#[trigger] above[i]).by != by,
        forall|i: int| 0 <= i < below.len() ==> (#[trigger] below[i]).by != by,
        0 <= n <= below.len(),
    ensures
        saved_among(above + own + below, above.len() + own.len() + n, bx, by) == saved_among(
            own,
            own.len() as int,
            bx,
            by,
        ),
    decreases n,
{
    let all = above + own + below;
    if n > 0 {
        law_saved_layouts_are_found_in_their_band(above, own, below, n - 1, bx, by);
        assert(all[above.len() + own.len() + n - 1] == below[n - 1]);
    } else {
        lemma_found_in_prefix(above + own, below, (above.len() + own.len()) as int, bx, by);
        lemma_found_behind(above, own, own.len() as int, bx, by);
    }
}

proof fn lemma_found_behind(a: Seq<SavedChild>, b: Seq<SavedChild>, n: int, bx: int, by: int)
    requires
        0 <= n <= b.len(),
        forall|i: int| 0 <= i < a.len() ==> (#[trigger] a[i]).by != by,
    ensures
        saved_among(a + b, a.len() + n, bx, by) == saved_among(b, n, bx, by),
    decreases n,
{
    if n > 0 {
        lemma_found_behind(a, b, n - 1, bx, by);
        assert((a + b)[a.len() + n - 1] == b[n - 1]);
    } else {
        lemma_found_in_prefix(a, b, a.len() as int, bx, by);
        lemma_not_found(a, a.len() as int, bx, by);
    }
}

proof fn lemma_no_refined_below(f: Field, all: Seq<Placement>, c: int, y1: int, n: int)
    requires
        in_order(all),
        0 < n <= all.len(),
        all[n - 1].y < c,
    ensures
        refined_among(f, c, y1, all, n) == Seq::<Placement>::empty(),
    decreases n,
{
    if n > 1 {
        assert(all[n - 2].y <= all[n - 1].y);
        lemma_no_refined_below(f, all, c, y1, n - 1);
    } else {
        assert(refined_among(f, c, y1, all, 0) =~= Seq::empty());
    }
}

proof fn lemma_refined_join(f: Field, all: Seq<Placement>, y0: int, c: int, y1: int, n: int)
    requires
        in_order(all),
        0 <= n <= all.len(),
        y0 <= c <= y1,
    ensures
        refined_among(f, y0, y1, all, n) == refined_among(f, y0, c, all, n) + refined_among(
            f,
            c,
            y1,
            all,
            n,
        ),
    decreases n,
{
    if n > 0 {
        lemma_refined_join(f, all, y0, c, y1, n - 1);
        let last = all[n - 1];
        let a = refined_among(f, y0, c, all, n - 1);
        let b = refined_among(f, c, y1, all, n - 1);
        if refined_site(f, y0, y1, last) {
            if last.y < c {
                lemma_no_refined_below(f, all, c, y1, n);
                assert(b =~= Seq::empty()) by {
                    if n > 1 {
                        assert(all[n - 2].y <= all[n - 1].y);
                        lemma_no_refined_below(f, all, c, y1, n - 1);
                    }
                }
                assert((a + b).push(last) =~= a.push(last) + Seq::empty());
            } else {
                assert((a + b).push(last) =~= a + b.push(last));
            }
        }
    } else {
        assert(refined_among(f, y0, y1, all, 0) =~= refined_among(f, y0, c, all, 0)
            + refined_among(f, c, y1, all, 0));
    }
}

proof fn lemma_refinements_prefix<A: Amount>(
    f: Field,
    steps: usize,
    costs: Option<Costs<A>>,
    a: Seq<Placement>,
    b: Seq<Placement>,
    sa: Seq<RefineScores<A>>,
    sb: Seq<RefineScores<A>>,
    n: int,
)
    requires
        a.len() == sa.len(),
        0 <= n <= a.len(),
    ensures
        refinements_of(f, steps, costs, a + b, sa + sb, n) == refinements_of(
            f,
            steps,
            costs,
            a,
            sa,
            n,
        ),
    decreases n,
{
    if n > 0 {
        lemma_refinements_prefix(f, steps, costs, a, b, sa, sb, n - 1);
        assert((a + b)[n - 1] == a[n - 1]);
        assert((sa + sb)[n - 1] == sa[n - 1]);
    }
}

proof fn lemma_refinements_join<A: Amount>(
    f: Field,
    steps: usize,
    costs: Option<Costs<A>>,
    a: Seq<Placement>,
    b: Seq<Placement>,
    sa: Seq<RefineScores<A>>,
    sb: Seq<RefineScores<A>>,
    n: int,
)
    requires
        a.len() == sa.len(),
        b.len() == sb.len(),
        0 <= n <= b.len(),
    ensures
        refinements_of(f, steps, costs, a + b, sa + sb, a.len() + n) == refinements_of(
            f,
            steps,
            costs,
            a,
            sa,
            a.len() as int,
        ) + refinements_of(f, steps, costs, b, sb, n),
    decreases n,
{
    let first = refinements_of(f, steps, costs, a, sa, a.len() as int);
    let whole = refinements_of(f, steps, costs, a + b, sa + sb, a.len() + n);
    if n > 0 {
        lemma_refinements_join(f, steps, costs, a, b, sa, sb, n - 1);
        assert((a + b)[a.len() + n - 1] == b[n - 1]);
        assert((sa + sb)[a.len() + n - 1] == sb[n - 1]);
    } else {
        lemma_refinements_prefix(f, steps, costs, a, b, sa, sb, a.len() as int);
    }
    assert(whole =~= first + refinements_of(f, steps, costs, b, sb, n));
}

/// The changes of quantizers that the leading `n` bands found.
pub open spec fn refined_by_bands<A: Amount>(
    v: Layout,
    f: Field,
    steps: usize,
    costs: Option<Costs<A>>,
    bands: Seq<(usize, usize)>,
    scores: Seq<Seq<RefineScores<A>>>,
    n: int,
) -> Seq<QuantRefinement>
    decreases n,
{
    if n <= 0 {
        Seq::empty()
    } else {
        refined_by_bands(v, f, steps, costs, bands, scores, n - 1) + refinements_of(
            f,
            steps,
            costs,
            refined_sites(v, f, bands[n - 1].0 as int, bands[n - 1].1 as int),
            scores[n - 1],
            scores[n - 1].len() as int,
        )
    }
}

/// Refining quantizers band by band changes what refining all the rows at once
/// does.
pub proof fn law_refining_does_not_depend_on_the_bands<A: Amount>(
    map: AcStrategyImage,
    f: Field,
    steps: usize,
    costs: Option<Costs<A>>,
    bands: Seq<(usize, usize)>,
    scores: Seq<Seq<RefineScores<A>>>,
    n: int,
)
    requires
        map.wf(),
        contiguous(bands, map.height() as int),
        scores.len() == bands.len(),
        forall|i: int|
            0 <= i < bands.len() ==> (#[trigger] scores[i]).len() == refined_sites(
                map@,
                f,
                bands[i].0 as int,
                bands[i].1 as int,
            ).len(),
        0 < n <= bands.len(),
    ensures
        handed(scores, n).len() == refined_sites(map@, f, 0, bands[n - 1].1 as int).len(),
        refinements_of(
            f,
            steps,
            costs,
            refined_sites(map@, f, 0, bands[n - 1].1 as int),
            handed(scores, n),
            handed(scores, n).len() as int,
        ) == refined_by_bands(map@, f, steps, costs, bands, scores, n),
    decreases n,
{
    map.lemma_shape();
    let all = firsts(map@, map@.len() as int);
    lemma_firsts_in_order(map@, map.width() as int, map@.len() as int);
    let c = bands[n - 1].0 as int;
    let y1 = bands[n - 1].1 as int;
    let b = refined_sites(map@, f, c, y1);
    let sb = scores[n - 1];
    assert(sb.len() == b.len());
    assert(c <= y1);
    if n > 1 {
        law_refining_does_not_depend_on_the_bands(map, f, steps, costs, bands, scores, n - 1);
        assert(bands[n - 2].1 == c);
        let a = refined_sites(map@, f, 0, c);
        let sa = handed(scores, n - 1);
        lemma_refined_join(f, all, 0, c, y1, all.len() as int);
        lemma_refinements_join(f, steps, costs, a, b, sa, sb, b.len() as int);
    } else {
        assert(c == 0);
        reveal_with_fuel(handed, 2);
        reveal_with_fuel(refined_by_bands, 2);
        assert(handed(scores, 1) =~= sb);
        assert(refined_by_bands(map@, f, steps, costs, bands, scores, 1) =~= refinements_of(
            f,
            steps,
            costs,
            b,
            sb,
            sb.len() as int,
        ));
    }
}

/// Every super-block of the first list lies before every one of the second.
pub open spec fn keys_before<A>(a: Seq<Accepted<A>>, b: Seq<Accepted<A>>) -> bool {
    forall|i: int, j: int|
        0 <= i < a.len() && 0 <= j < b.len() ==> key_less(
            key_of((#[trigger] a[i]).site),
            key_of((#[trigger] b[j]).site),
        )
}

proof fn lemma_winner_prefix<A>(
    a: Seq<Accepted<A>>,
    b: Seq<Accepted<A>>,
    n: int,
    key: (int, int),
    k: int,
)
    requires
        0 <= n <= a.len(),
    ensures
        slot_winner(a + b, n, key, k) == slot_winner(a, n, key, k),
    decreases n,
{
    if n > 0 {
        lemma_winner_prefix(a, b, n - 1, key, k);
        assert((a + b)[n - 1] == a[n - 1]);
    }
}

/// Who wins a place of a super-block of the upper band.
proof fn lemma_winner_above<A>(
    a: Seq<Accepted<A>>,
    b: Seq<Accepted<A>>,
    n: int,
    key: (int, int),
    k: int,
)
    requires
        0 <= n <= b.len(),
        forall|j: int| 0 <= j < b.len() ==> key_of((#[trigger] b[j]).site) != key,
    ensures
        slot_winner(a + b, a.len() + n, key, k) == slot_winner(a, a.len() as int, key, k),
    decreases n,
{
    if n > 0 {
        lemma_winner_above(a, b, n - 1, key, k);
        assert((a + b)[a.len() + n - 1] == b[n - 1]);
        assert(key_of(b[n - 1].site) != key);
    } else {
        lemma_winner_prefix(a, b, a.len() as int, key, k);
    }
}

/// Who wins a place of a super-block of the lower band.
proof fn lemma_winner_below<A>(
    a: Seq<Accepted<A>>,
    b: Seq<Accepted<A>>,
    n: int,
    key: (int, int),
    k: int,
)
    requires
        0 <= n <= b.len(),
        forall|i: int| 0 <= i < a.len() ==> key_of((#[trigger] a[i]).site) != key,
    ensures
        slot_winner(a + b, a.len() + n, key, k) == slot_winner(b, n, key, k),
    decreases n,
{
    if n > 0 {
        lemma_winner_below(a, b, n - 1, key, k);
        assert((a + b)[a.len() + n - 1] == b[n - 1]);
    } else {
        lemma_winner_prefix(a, b, a.len() as int, key, k);
        lemma_no_winner(a, a.len() as int, key, k);
    }
}

proof fn lemma_no_winner<A>(a: Seq<Accepted<A>>, n: int, key: (int, int), k: int)
    requires
        0 <= n <= a.len(),
        forall|i: int| 0 <= i < a.len() ==> key_of((#[trigger] a[i]).site) != key,
    ensures
        slot_winner(a, n, key, k) is None,
    decreases n,
{
    if n > 0 {
        lemma_no_winner(a, n - 1, key, k);
        assert(key_of(a[n - 1].site) != key);
    }
}

proof fn lemma_keys_prefix<A>(a: Seq<Accepted<A>>, b: Seq<Accepted<A>>, n: int)
    requires
        0 <= n <= a.len(),
    ensures
        keys_of(a + b, n) == keys_of(a, n),
    decreases n,
{
    if n > 0 {
        lemma_keys_prefix(a, b, n - 1);
        assert((a + b)[n - 1] == a[n - 1]);
    }
}

/// Inserting behind smaller keys leaves those alone.
proof fn lemma_insert_behind(ka: Seq<(int, int)>, kb: Seq<(int, int)>, key: (int, int), n: int)
    requires
        0 <= n <= kb.len(),
        forall|i: int| 0 <= i < ka.len() ==> key_less(#[trigger] ka[i], key),
    ensures
        insert_pos(ka + kb, key, ka.len() + n) == ka.len() + insert_pos(kb, key, n),
    decreases n,
{
    if n > 0 {
        assert((ka + kb)[ka.len() + n - 1] == kb[n - 1]);
        if !key_less(kb[n - 1], key) {
            lemma_insert_behind(ka, kb, key, n - 1);
        }
    } else if ka.len() > 0 {
        assert((ka + kb)[ka.len() - 1] == ka[ka.len() - 1]);
    }
}

/// The super-blocks of two bands, one below the other.
proof fn lemma_keys_join<A>(a: Seq<Accepted<A>>, b: Seq<Accepted<A>>, n: int)
    requires
        keys_before(a, b),
        0 <= n <= b.len(),
    ensures
        keys_of(a + b, a.len() + n) == keys_of(a, a.len() as int) + keys_of(b, n),
    decreases n,
{
    let ka = keys_of(a, a.len() as int);
    if n > 0 {
        lemma_keys_join(a, b, n - 1);
        let kb = keys_of(b, n - 1);
        let key = key_of(b[n - 1].site);
        assert((a + b)[a.len() + n - 1] == b[n - 1]);
        assert forall|i: int| 0 <= i < ka.len() implies key_less(#[trigger] ka[i], key) by {
            assert(ka.contains(ka[i]));
            lemma_keys_come_from_merges(a, a.len() as int, ka[i]);
            let j = choose|j: int| 0 <= j < a.len() && key_of((#[trigger] a[j]).site) == ka[i];
            assert(key_less(key_of(a[j].site), key_of(b[n - 1].site)));
        }
        lemma_insert_behind(ka, kb, key, kb.len() as int);
        lemma_insert_pos_range(kb, key, kb.len() as int);
        let at = insert_pos(kb, key, kb.len() as int);
        if at < kb.len() {
            assert((ka + kb)[ka.len() + at] == kb[at]);
        }
        assert(with_key(ka + kb, key) =~= ka + with_key(kb, key));
    } else {
        lemma_keys_prefix(a, b, a.len() as int);
        assert(keys_of(a + b, a.len() as int) =~= ka + keys_of(b, 0));
    }
}

proof fn lemma_group_same<A: Amount>(
    whole: Seq<Accepted<A>>,
    own: Seq<Accepted<A>>,
    key: (int, int),
    n: int,
)
    requires
        n <= 5,
        forall|k: int|
            0 <= k < 5 ==> #[trigger] slot_winner(whole, whole.len() as int, key, k)
                == slot_winner(own, own.len() as int, key, k),
    ensures
        group_upgrades(whole, key, n) == group_upgrades(own, key, n),
    decreases n,
{
    if n > 0 {
        lemma_group_same(whole, own, key, n - 1);
        assert(slot_winner(whole, whole.len() as int, key, 0) == slot_winner(
            own,
            own.len() as int,
            key,
            0,
        ));
        assert(slot_winner(whole, whole.len() as int, key, 1) == slot_winner(
            own,
            own.len() as int,
            key,
            1,
        ));
        assert(slot_winner(whole, whole.len() as int, key, 2) == slot_winner(
            own,
            own.len() as int,
            key,
            2,
        ));
        assert(slot_winner(whole, whole.len() as int, key, 3) == slot_winner(
            own,
            own.len() as int,
            key,
            3,
        ));
        assert(slot_winner(whole, whole.len() as int, key, 4) == slot_winner(
            own,
            own.len() as int,
            key,
            4,
        ));
        assert(group_mask(whole, key) == group_mask(own, key));
    }
}

proof fn lemma_upgrades_above<A: Amount>(a: Seq<Accepted<A>>, b: Seq<Accepted<A>>, n: int)
    requires
        keys_before(a, b),
        0 <= n <= keys_of(a, a.len() as int).len(),
    ensures
        upgrades_of(a + b, n) == upgrades_of(a, n),
    decreases n,
{
    if n > 0 {
        lemma_upgrades_above(a, b, n - 1);
        let ka = keys_of(a, a.len() as int);
        let key = ka[n - 1];
        lemma_keys_join(a, b, b.len() as int);
        assert(keys_of(a + b, (a + b).len() as int)[n - 1] == key);
        assert(ka.contains(key));
        lemma_keys_come_from_merges(a, a.len() as int, key);
        let i = choose|i: int| 0 <= i < a.len() && key_of((#[trigger] a[i]).site) == key;
        assert forall|j: int| 0 <= j < b.len() implies key_of((#[trigger] b[j]).site) != key by {
            assert(key_less(key_of(a[i].site), key_of(b[j].site)));
        }
        assert forall|k: int| 0 <= k < 5 implies #[trigger] slot_winner(
            a + b,
            (a + b).len() as int,
            key,
            k,
        ) == slot_winner(a, a.len() as int, key, k) by {
            lemma_winner_above(a, b, b.len() as int, key, k);
        }
        lemma_group_same(a + b, a, key, 5);
    }
}

proof fn lemma_upgrades_below<A: Amount>(a: Seq<Accepted<A>>, b: Seq<Accepted<A>>, n: int)
    requires
        keys_before(a, b),
        0 <= n <= keys_of(b, b.len() as int).len(),
    ensures
        upgrades_of(a + b, keys_of(a, a.len() as int).len() + n) == upgrades_of(
            a,
            keys_of(a, a.len() as int).len() as int,
        ) + upgrades_of(b, n),
    decreases n,
{
    let ka = keys_of(a, a.len() as int);
    let kb = keys_of(b, b.len() as int);
    let first = upgrades_of(a, ka.len() as int);
    if n > 0 {
        lemma_upgrades_below(a, b, n - 1);
        let key = kb[n - 1];
        lemma_keys_join(a, b, b.len() as int);
        assert(keys_of(a + b, (a + b).len() as int)[ka.len() + n - 1] == key);
        assert(kb.contains(key));
        lemma_keys_come_from_merges(b, b.len() as int, key);
        let j = choose|j: int| 0 <= j < b.len() && key_of((#[trigger] b[j]).site) == key;
        assert forall|i: int| 0 <= i < a.len() implies key_of((#[trigger] a[i]).site) != key by {
            assert(key_less(key_of(a[i].site), key_of(b[j].site)));
        }
        assert forall|k: int| 0 <= k < 5 implies #[trigger] slot_winner(
            a + b,
            (a + b).len() as int,
            key,
            k,
        ) == slot_winner(b, b.len() as int, key, k) by {
            lemma_winner_below(a, b, b.len() as int, key, k);
        }
        lemma_group_same(a + b, b, key, 5);
        assert(first + upgrades_of(b, n - 1) + group_upgrades(b, key, 5) =~= first + (
        upgrades_of(b, n - 1) + group_upgrades(b, key, 5)));
    } else {
        lemma_upgrades_above(a, b, ka.len() as int);
        assert(first + upgrades_of(b, 0) =~= first);
    }
}

proof fn lemma_upgrades_join<A: Amount>(a: Seq<Accepted<A>>, b: Seq<Accepted<A>>)
    requires
        keys_before(a, b),
    ensures
        upgrades_of(a + b, keys_of(a + b, (a + b).len() as int).len() as int) == upgrades_of(
            a,
            keys_of(a, a.len() as int).len() as int,
        ) + upgrades_of(b, keys_of(b, b.len() as int).len() as int),
{
    lemma_keys_join(a, b, b.len() as int);
    lemma_upgrades_below(a, b, keys_of(b, b.len() as int).len() as int);
}

proof fn lemma_upgradables_of_first<A>(
    v: Layout,
    w: int,
    h: int,
    rollbacks: Seq<FineMergeRollback<A>>,
    rows: (int, int, int),
    a: Seq<Placement>,
    b: Seq<Placement>,
    n: int,
)
    requires
        0 <= n <= a.len(),
        rows.1 <= rows.2,
        forall|i: int| 0 <= i < a.len() ==> (#[trigger] a[i]).y < rows.1,
    ensures
        upgradables(v, w, h, rollbacks, rows.0, rows.2, a + b, n) == upgradables(
            v,
            w,
            h,
            rollbacks,
            rows.0,
            rows.1,
            a,
            n,
        ),
        forall|i: int|
            0 <= i < upgradables(v, w, h, rollbacks, rows.0, rows.1, a, n).len()
                ==> (#[trigger] upgradables(v, w, h, rollbacks, rows.0, rows.1, a, n)[i]).y
                < rows.1,
    decreases n,
{
    if n > 0 {
        lemma_upgradables_of_first(v, w, h, rollbacks, rows, a, b, n - 1);
        assert((a + b)[n - 1] == a[n - 1]);
    }
}

proof fn lemma_upgradables_of_second<A>(
    v: Layout,
    w: int,
    h: int,
    rollbacks: Seq<FineMergeRollback<A>>,
    rows: (int, int, int),
    a: Seq<Placement>,
    b: Seq<Placement>,
    n: int,
)
    requires
        0 <= n <= b.len(),
        rows.0 <= rows.1 <= rows.2,
        forall|i: int| 0 <= i < a.len() ==> (#[trigger] a[i]).y < rows.1,
        forall|i: int| 0 <= i < b.len() ==> (#[trigger] b[i]).y >= rows.1,
    ensures
        upgradables(v, w, h, rollbacks, rows.0, rows.2, a + b, a.len() + n) == upgradables(
            v,
            w,
            h,
            rollbacks,
            rows.0,
            rows.1,
            a,
            a.len() as int,
        ) + upgradables(v, w, h, rollbacks, rows.1, rows.2, b, n),
        forall|i: int|
            0 <= i < upgradables(v, w, h, rollbacks, rows.1, rows.2, b, n).len()
                ==> (#[trigger] upgradables(v, w, h, rollbacks, rows.1, rows.2, b, n)[i]).y
                >= rows.1,
    decreases n,
{
    let first = upgradables(v, w, h, rollbacks, rows.0, rows.1, a, a.len() as int);
    if n > 0 {
        lemma_upgradables_of_second(v, w, h, rollbacks, rows, a, b, n - 1);
        assert((a + b)[a.len() + n - 1] == b[n - 1]);
        let before = upgradables(v, w, h, rollbacks, rows.1, rows.2, b, n - 1);
        assert((first + before).push(b[n - 1]) =~= first + before.push(b[n - 1]));
    } else {
        lemma_upgradables_of_first(v, w, h, rollbacks, rows, a, b, a.len() as int);
        assert(first + Seq::<Placement>::empty() =~= first);
    }
}

proof fn lemma_accepted_join<A: Amount>(
    a: Seq<Placement>,
    b: Seq<Placement>,
    sa: Seq<UpgradeScores<A>>,
    sb: Seq<UpgradeScores<A>>,
    margin: A,
    n: int,
)
    requires
        sa.len() == a.len(),
        sb.len() == b.len(),
        0 <= n <= a.len() + b.len(),
    ensures
        n <= a.len() ==> accepted(a + b, sa + sb, margin, n) == accepted(a, sa, margin, n),
        n >= a.len() ==> accepted(a + b, sa + sb, margin, n) == accepted(
            a,
            sa,
            margin,
            a.len() as int,
        ) + accepted(b, sb, margin, n - a.len()),
    decreases n,
{
    let first = accepted(a, sa, margin, a.len() as int);
    if n > a.len() {
        lemma_accepted_join(a, b, sa, sb, margin, n - 1);
        let k = n - a.len();
        assert((a + b)[n - 1] == b[k - 1]);
        assert((sa + sb)[n - 1] == sb[k - 1]);
        let before = accepted(b, sb, margin, k - 1);
        let last = Accepted {
            site: b[k - 1],
            base: sb[k - 1].big.base,
            gain: upgrade_gain(sb[k - 1], margin),
        };
        assert((first + before).push(last) =~= first + before.push(last));
    } else {
        if n > 0 {
            lemma_accepted_join(a, b, sa, sb, margin, n - 1);
            assert((a + b)[n - 1] == a[n - 1]);
            assert((sa + sb)[n - 1] == sa[n - 1]);
        }
        assert(first + accepted(b, sb, margin, 0) =~= first);
    }
}

proof fn lemma_accepted_sites<A: Amount>(
    sites: Seq<Placement>,
    scores: Seq<UpgradeScores<A>>,
    margin: A,
    n: int,
    i: int,
)
    requires
        0 <= n <= sites.len(),
        0 <= i < accepted(sites, scores, margin, n).len(),
    ensures
        exists|k: int|
            0 <= k < sites.len() && accepted(sites, scores, margin, n)[i].site
                == #[trigger] sites[k],
    decreases n,
{
    if n > 0 {
        let head = accepted(sites, scores, margin, n - 1);
        if i < head.len() {
            lemma_accepted_sites(sites, scores, margin, n - 1, i);
        } else {
            assert(accepted(sites, scores, margin, n)[i].site == sites[n - 1]);
        }
    }
}

/// The merges that a band puts down, out of those that it may and their scores.
pub open spec fn put_down<A: Amount>(
    sites: Seq<Placement>,
    scores: Seq<UpgradeScores<A>>,
    margin: A,
) -> Seq<MergeUpgrade<A>> {
    let acc = accepted(sites, scores, margin, scores.len() as int);
    upgrades_of(acc, keys_of(acc, acc.len() as int).len() as int)
}

/// Two bands, one below the other, may put down what a band over both may, and do
/// put down what it does. `rows` holds where the first begins, where they meet and
/// where the second ends; each band has its own shortlist and scores.
pub proof fn law_upgrading_does_not_depend_on_the_bands<A: Amount>(
    v: Layout,
    w: int,
    h: int,
    rollbacks: Seq<FineMergeRollback<A>>,
    rows: (int, int, int),
    shortlists: (Seq<Placement>, Seq<Placement>),
    scores: (Seq<UpgradeScores<A>>, Seq<UpgradeScores<A>>),
    margin: A,
)
    requires
        rows.0 <= rows.1 <= rows.2,
        rows.1 % 2 == 0,
        forall|i: int| 0 <= i < shortlists.0.len() ==> (#[trigger] shortlists.0[i]).y < rows.1,
        forall|i: int| 0 <= i < shortlists.1.len() ==> (#[trigger] shortlists.1[i]).y >= rows.1,
        scores.0.len() == upgradables(
            v,
            w,
            h,
            rollbacks,
            rows.0,
            rows.1,
            shortlists.0,
            shortlists.0.len() as int,
        ).len(),
        scores.1.len() == upgradables(
            v,
            w,
            h,
            rollbacks,
            rows.1,
            rows.2,
            shortlists.1,
            shortlists.1.len() as int,
        ).len(),
    ensures
        ({
            let both = shortlists.0 + shortlists.1;
            let whole = upgradables(
                v,
                w,
                h,
                rollbacks,
                rows.0,
                rows.2,
                both,
                both.len() as int,
            );
            let first = upgradables(
                v,
                w,
                h,
                rollbacks,
                rows.0,
                rows.1,
                shortlists.0,
                shortlists.0.len() as int,
            );
            let second = upgradables(
                v,
                w,
                h,
                rollbacks,
                rows.1,
                rows.2,
                shortlists.1,
                shortlists.1.len() as int,
            );
            &&& whole == first + second
            &&& put_down(whole, scores.0 + scores.1, margin) == put_down(first, scores.0, margin)
                + put_down(second, scores.1, margin)
        }),
{
    let (la, lb) = shortlists;
    let (sa, sb) = scores;
    let first = upgradables(v, w, h, rollbacks, rows.0, rows.1, la, la.len() as int);
    let second = upgradables(v, w, h, rollbacks, rows.1, rows.2, lb, lb.len() as int);
    lemma_upgradables_of_first(v, w, h, rollbacks, rows, la, lb, la.len() as int);
    lemma_upgradables_of_second(v, w, h, rollbacks, rows, la, lb, lb.len() as int);
    lemma_accepted_join(first, second, sa, sb, margin, (first.len() + second.len()) as int);
    let a = accepted(first, sa, margin, sa.len() as int);
    let b = accepted(second, sb, margin, sb.len() as int);
    assert(keys_before(a, b)) by {
        assert forall|i: int, j: int| 0 <= i < a.len() && 0 <= j < b.len() implies key_less(
            key_of((#[trigger] a[i]).site),
            key_of((#[trigger] b[j]).site),
        ) by {
            lemma_accepted_sites(first, sa, margin, sa.len() as int, i);
            lemma_accepted_sites(second, sb, margin, sb.len() as int, j);
            assert(a[i].site.y < rows.1);
            assert(b[j].site.y >= rows.1);
        }
    }
    lemma_upgrades_join(a, b);
}

} // verus!
