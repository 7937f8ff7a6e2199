//! What plans, verdicts and estimates promise: every step of a plan pays, every verdict is
//! the cheaper outcome, and estimates follow their exponents.

use crate::amount::{Amount, Fixed, FIXED_ONE};
use crate::context_plan::{
    after_merge, after_split, best_split, cheapest_merge, joined, merge_pair, merge_price,
    plan_step, position, shifted, split_gain, GroupCosts, PlanState, Run, CHROMA_MERGE_CANDIDATES,
    MAX_BLOCK_CTXS, PAIRED_CHARGE, SPLIT_CHARGE,
};
use crate::fast_math::{
    exp2_of_parts, exp2_parts, horner, log1p_coefficients, log1p_of_parts, log2_estimate,
    log2_of_parts, log2p1_coefficients, log2p1_of_parts, parts, OCTAVE, ONE_BITS, ROOT_HALF_BITS,
};
use crate::leaf_first::leaf_of;
use crate::mosaic::{RerankParams, FINE_MOSAIC_MAX_DISTANCE};
use crate::rerank::{
    block_count, candidates, mosaic_searched, plain_cost, priced, subdivision, verdict, Region,
    SiteScores, Verdict,
};
use crate::rerank_band::FineMergeRollback;
use crate::strategy::{STRATEGY_DCT16X8, STRATEGY_DCT8X16};
use crate::sub8::{shortlist_of, sub8_choice, FineCharge, Sub8Costs};
use crate::upgrade::touches;
use vstd::prelude::*;

verus! {

/// The split of a plan that is taken gains the most: no other group that can be split gains
/// more, and where none is taken none gains anything.
pub proof fn law_best_split_gains_most(costs: GroupCosts<Fixed>, groups: Seq<Run>, n: int)
    requires
        0 <= n <= groups.len(),
    ensures
        best_split(costs, groups, n) matches Some((gain, i)) ==> {
            &&& 0 <= i < n
            &&& groups[i].is_splittable()
            &&& gain == split_gain(costs, groups[i])
            &&& gain.raw > 0
        },
        forall|j: int|
            0 <= j < n && (#[trigger] groups[j]).is_splittable() ==> split_gain(costs, groups[j]).raw
                <= (match best_split(costs, groups, n) {
                Some((gain, i)) => gain.raw,
                None => 0,
            }),
    decreases n,
{
    if n > 0 {
        law_best_split_gains_most(costs, groups, n - 1);
    }
}

proof fn lemma_position(groups: Seq<Run>, fine: int, n: int)
    requires
        0 <= n <= groups.len(),
    ensures
        position(groups, fine, n) matches Some(i) ==> 0 <= i < n && groups[i].holds(fine),
    decreases n,
{
    if n > 0 {
        lemma_position(groups, fine, n - 1);
    }
}

proof fn lemma_merge_pair(groups: Seq<Run>, used: Seq<bool>, split_pos: int, m: int)
    ensures
        merge_pair(groups, used, split_pos, m) matches Some((pa, pb)) ==> {
            &&& 0 <= pa < groups.len()
            &&& 0 <= pb < groups.len()
            &&& pa != pb
            &&& pa != split_pos
            &&& pb != split_pos
            &&& groups[pa].is_unsplit()
            &&& groups[pb].is_unsplit()
            &&& !used[m]
        },
{
    let a = CHROMA_MERGE_CANDIDATES@[m] as int;
    lemma_position(groups, a * 2, groups.len() as int);
    lemma_position(groups, a * 2 + 2, groups.len() as int);
}

/// The merge that makes room for a split is the cheapest of those there are.
pub proof fn law_cheapest_merge_costs_least(
    costs: GroupCosts<Fixed>,
    groups: Seq<Run>,
    used: Seq<bool>,
    split_pos: int,
    n: int,
)
    requires
        0 <= n,
    ensures
        cheapest_merge(costs, groups, used, split_pos, n) matches Some((price, m, pa, pb)) ==> {
            &&& 0 <= m < n
            &&& merge_pair(groups, used, split_pos, m) == Some((pa, pb))
            &&& price == merge_price(costs, groups[pa], groups[pb])
        },
        forall|m: int|
            0 <= m < n ==> ((#[trigger] merge_pair(groups, used, split_pos, m)) matches Some((a, b))
                ==> (cheapest_merge(costs, groups, used, split_pos, n) matches Some((p, k, c, d)) && p.raw
                <= merge_price(costs, groups[a], groups[b]).raw)),
    decreases n,
{
    if n > 0 {
        law_cheapest_merge_costs_least(costs, groups, used, split_pos, n - 1);
    }
}

/// What all groups cost together.
pub open spec fn cost_of_groups(costs: GroupCosts<Fixed>, groups: Seq<Run>, n: int) -> int
    decreases n,
{
    if n <= 0 {
        0
    } else {
        cost_of_groups(costs, groups, n - 1) + costs.at(groups[n - 1]).raw
    }
}

proof fn lemma_same_groups(costs: GroupCosts<Fixed>, a: Seq<Run>, b: Seq<Run>, n: int)
    requires
        forall|i: int| 0 <= i < n ==> #[trigger] a[i] == b[i],
    ensures
        cost_of_groups(costs, a, n) == cost_of_groups(costs, b, n),
    decreases n,
{
    if n > 0 {
        lemma_same_groups(costs, a, b, n - 1);
    }
}

proof fn lemma_without(costs: GroupCosts<Fixed>, groups: Seq<Run>, i: int, n: int)
    requires
        0 <= i < n <= groups.len(),
    ensures
        cost_of_groups(costs, groups.remove(i), n - 1) == cost_of_groups(costs, groups, n)
            - costs.at(groups[i]).raw,
    decreases n,
{
    let rest = groups.remove(i);
    if n == i + 1 {
        lemma_same_groups(costs, rest, groups, n - 1);
    } else {
        lemma_without(costs, groups, i, n - 1);
        assert(rest[n - 2] == groups[n - 1]);
    }
}

proof fn lemma_with(costs: GroupCosts<Fixed>, groups: Seq<Run>, g: Run)
    ensures
        cost_of_groups(costs, groups.push(g), groups.len() as int + 1) == cost_of_groups(
            costs,
            groups,
            groups.len() as int,
        ) + costs.at(g).raw,
{
    lemma_same_groups(costs, groups.push(g), groups, groups.len() as int);
}

proof fn lemma_split_cost(costs: GroupCosts<Fixed>, groups: Seq<Run>, i: int)
    requires
        0 <= i < groups.len(),
    ensures
        ({
            let g = groups[i];
            let after = after_split(groups, i);
            cost_of_groups(costs, after, after.len() as int) == cost_of_groups(
                costs,
                groups,
                groups.len() as int,
            ) - costs.at(g).raw + costs.at((Run { lo: g.lo, len: 1 })).raw + costs.at(
                (Run { lo: (g.lo + 1) as u8, len: 1 }),
            ).raw
        }),
{
    let g = groups[i];
    let n = groups.len() as int;
    lemma_without(costs, groups, i, n);
    let rest = groups.remove(i);
    lemma_with(costs, rest, Run { lo: g.lo, len: 1 });
    lemma_with(
        costs,
        rest.push(Run { lo: g.lo, len: 1 }),
        Run { lo: (g.lo + 1) as u8, len: 1 },
    );
}

proof fn lemma_merge_cost(costs: GroupCosts<Fixed>, groups: Seq<Run>, pa: int, pb: int, i: int)
    requires
        0 <= pa < groups.len(),
        0 <= pb < groups.len(),
        0 <= i < groups.len(),
        pa != pb,
        i != pa,
        i != pb,
    ensures
        ({
            let after = after_merge(groups, pa, pb);
            let k = shifted(shifted(i, pa), shifted(pb, pa));
            &&& cost_of_groups(costs, after, after.len() as int) == cost_of_groups(
                costs,
                groups,
                groups.len() as int,
            ) - costs.at(groups[pa]).raw - costs.at(groups[pb]).raw + costs.at(
                joined(groups[pa], groups[pb]),
            ).raw
            &&& 0 <= k < after.len()
            &&& after[k] == groups[i]
        }),
{
    let n = groups.len() as int;
    lemma_without(costs, groups, pa, n);
    let one = groups.remove(pa);
    let q = shifted(pb, pa);
    assert(one[q] == groups[pb]);
    lemma_without(costs, one, q, n - 1);
    let two = one.remove(q);
    lemma_with(costs, two, joined(groups[pa], groups[pb]));
    let j = shifted(i, pa);
    assert(one[j] == groups[i]);
    assert(j != q);
    assert(two[shifted(j, q)] == one[j]);
}

/// Costs of runs that are not out of the ordinary.
pub open spec fn ordinary_costs(costs: GroupCosts<Fixed>) -> bool {
    forall|r: Run|
        r.lo < 30 && r.len <= 30 ==> 0 <= (#[trigger] costs.at(r)).raw <= 0x1_0000_0000_0000
}

/// Runs that lie among the thirty fine contexts, no two of them with more than all.
pub open spec fn runs_in_range(groups: Seq<Run>) -> bool {
    &&& forall|i: int|
        0 <= i < groups.len() ==> (#[trigger] groups[i]).len >= 1 && groups[i].lo + groups[i].len
            <= 30
    &&& forall|i: int, j: int|
        0 <= i < groups.len() && 0 <= j < groups.len() && i != j ==> (#[trigger] groups[i]).len + (
        #[trigger] groups[j]).len <= 30
}

/// Every step of a plan pays: it lowers what the groups cost, four times over because a
/// quarter was sampled, by more than it is charged, and what is left of that is what the
/// plan gains.
pub proof fn law_every_step_of_a_plan_pays(costs: GroupCosts<Fixed>, s: PlanState<Fixed>)
    requires
        ordinary_costs(costs),
        runs_in_range(s.groups),
        0 <= s.total_net.raw <= 0x1000_0000_0000_0000,
        s.groups.len() <= MAX_BLOCK_CTXS,
    ensures
        plan_step(costs, s) matches Some(t) ==> {
            let saved = cost_of_groups(costs, s.groups, s.groups.len() as int) - cost_of_groups(
                costs,
                t.groups,
                t.groups.len() as int,
            );
            let charge = if s.groups.len() < MAX_BLOCK_CTXS {
                SPLIT_CHARGE * FIXED_ONE
            } else {
                PAIRED_CHARGE * FIXED_ONE
            };
            &&& t.total_net.raw - s.total_net.raw == 4 * saved - charge
            &&& 4 * saved > charge
            &&& t.any_split
            &&& t.groups.len() <= MAX_BLOCK_CTXS
        },
{
    assert(Fixed::ratio_spec(4, 1).raw == 262144);
    assert(Fixed::ratio_spec(SPLIT_CHARGE, 1).raw == 1040 * 65536);
    assert(Fixed::ratio_spec(PAIRED_CHARGE, 1).raw == 390 * 65536);
    let n = s.groups.len() as int;
    law_best_split_gains_most(costs, s.groups, n);
    match best_split(costs, s.groups, n) {
        None => {},
        Some((sampled, i)) => {
            let g = s.groups[i];
            let (lo, hi) = (Run { lo: g.lo, len: 1 }, Run { lo: (g.lo + 1) as u8, len: 1 });
            assert(g.lo + g.len <= 30);
            assert(0 <= costs.at(g).raw <= 0x1_0000_0000_0000);
            assert(0 <= costs.at(lo).raw <= 0x1_0000_0000_0000);
            assert(0 <= costs.at(hi).raw <= 0x1_0000_0000_0000);
            assert(sampled.raw == costs.at(g).raw - costs.at(lo).raw - costs.at(hi).raw);
            assert(sampled.times_spec(Fixed::ratio_spec(4, 1)).raw == 4 * sampled.raw);
            if n < MAX_BLOCK_CTXS {
                lemma_split_cost(costs, s.groups, i);
            } else {
                law_cheapest_merge_costs_least(costs, s.groups, s.used, i, 4);
                match cheapest_merge(costs, s.groups, s.used, i, 4) {
                    None => {},
                    Some((price, m, pa, pb)) => {
                        lemma_merge_pair(s.groups, s.used, i, m);
                        let (a, b) = (s.groups[pa], s.groups[pb]);
                        assert(a.lo + a.len <= 30 && b.lo + b.len <= 30 && a.len >= 1);
                        assert(a.len + b.len <= 30);
                        assert(0 <= costs.at(a).raw <= 0x1_0000_0000_0000);
                        assert(0 <= costs.at(b).raw <= 0x1_0000_0000_0000);
                        assert(0 <= costs.at(joined(a, b)).raw <= 0x1_0000_0000_0000);
                        let d = costs.at(joined(a, b)).minus_spec(costs.at(a)).minus_spec(
                            costs.at(b),
                        );
                        assert(d.raw == costs.at(joined(a, b)).raw - costs.at(a).raw - costs.at(
                            b,
                        ).raw);
                        assert(d.times_spec(Fixed::ratio_spec(4, 1)).raw == 4 * d.raw);
                        lemma_merge_cost(costs, s.groups, pa, pb, i);
                        let after = after_merge(s.groups, pa, pb);
                        let k = shifted(shifted(i, pa), shifted(pb, pa));
                        lemma_split_cost(costs, after, k);
                    },
                }
            }
        },
    }
}

/// A merge is kept unless something cheaper replaces it: what replaces it comes in below
/// the margin and is the cheaper of the best subdivision and single blocks.
pub proof fn law_verdicts_take_the_cheaper(
    p: RerankParams<Fixed>,
    g: Region,
    strategy: u8,
    s: SiteScores<Fixed>,
)
    ensures
        ({
            let plan = subdivision(g, priced(candidates(g), s.tiles@)).cost.raw;
            let plain = plain_cost(s.tiles@, block_count(g)).raw;
            let bar = s.big.cost.times_spec(p.margin).raw;
            match verdict(p, g, strategy, s) {
                Verdict::Keep => bar <= plan && bar <= plain,
                Verdict::Plain => plain < bar && plain <= plan,
                Verdict::Child => plan < bar && plan < plain,
                Verdict::Mosaic(code) => mosaic_searched(p, strategy, s.big, s.seam),
            }
        }),
{
}

/// A mosaic is searched only for rectangular pairs at the slow speed that have seams, and
/// at a far distance only where hues are at stake.
pub proof fn law_mosaics_are_for_pairs_with_seams(
    p: RerankParams<Fixed>,
    strategy: u8,
    s: SiteScores<Fixed>,
)
    requires
        mosaic_searched(p, strategy, s.big, s.seam),
    ensures
        p.slow,
        strategy == STRATEGY_DCT16X8 || strategy == STRATEGY_DCT8X16,
        s.seam.energy.raw > 0,
        s.seam.peak.raw > 0,
        p.distance.raw > 3 * FIXED_ONE ==> p.coarse_chromatic && s.big.hue_distortion.raw
            > p.fine_lambda.times_spec(Fixed::ratio_spec(16, 1)).raw,
{
    assert(Fixed::ratio_spec(FINE_MOSAIC_MAX_DISTANCE, 1).raw == 3 * 65536);
}

/// Two footprints touch where they have a block in common.
pub proof fn law_touching_footprints_share_a_block(
    r: FineMergeRollback<Fixed>,
    bx: int,
    by: int,
    cx: int,
    cy: int,
)
    requires
        1 <= cx,
        1 <= cy,
        1 <= r.cov_x,
        1 <= r.cov_y,
    ensures
        touches(r, bx, by, cx, cy) <==> exists|x: int, y: int|
            bx <= x < bx + cx && by <= y < by + cy && r.bx <= x < r.bx + r.cov_x && r.by <= y < r.by
                + r.cov_y && #[trigger] block_at(x, y),
{
    if touches(r, bx, by, cx, cy) {
        let x = if bx < r.bx {
            r.bx as int
        } else {
            bx
        };
        let y = if by < r.by {
            r.by as int
        } else {
            by
        };
        assert(block_at(x, y));
    }
}

/// There is a block at every place.
pub open spec fn block_at(x: int, y: int) -> bool {
    true
}

/// A leaf never costs more than the plain 8x8 DCT.
pub proof fn law_leaves_cost_no_more_than_plain_blocks(
    c: Sub8Costs<Fixed>,
    distance: Fixed,
    bias: Fixed,
    charge: FineCharge<Fixed>,
    recon: (Fixed, Fixed),
)
    ensures
        leaf_of(c.dct8, sub8_choice(shortlist_of(c, distance, bias), charge, recon)).j.raw
            <= c.dct8.raw,
{
}

/// A number that is twice another has the same mantissa and an exponent one larger.
pub proof fn law_doubling_raises_the_exponent(bits: u32, low: u32)
    requires
        low <= ONE_BITS,
        bits < 0x7000_0000,
    ensures
        parts((bits + OCTAVE) as u32, low).0 == parts(bits, low).0 + 1,
        parts((bits + OCTAVE) as u32, low).1 == parts(bits, low).1,
{
}

/// The estimate of a logarithm grows by one where the number doubles.
pub proof fn law_doubling_adds_one_to_the_logarithm(a: Fixed, b: Fixed)
    requires
        a.bits_spec() < 0x7000_0000,
        b.bits_spec() == a.bits_spec() + OCTAVE,
        -0x100_0000_0000 <= log2_estimate(a).raw <= 0x100_0000_0000,
        ({
            let (e, m) = parts(a.bits_spec(), ROOT_HALF_BITS);
            let mantissa = Fixed::from_bits_spec(m as u32);
            0 < mantissa.raw <= 0x100_0000
        }),
    ensures
        log2_estimate(b).raw == log2_estimate(a).raw + FIXED_ONE,
{
    law_doubling_raises_the_exponent(a.bits_spec(), ROOT_HALF_BITS);
    let (e, m) = parts(a.bits_spec(), ROOT_HALF_BITS);
    let mantissa = Fixed::from_bits_spec(m as u32);
    lemma_exponent_counts(mantissa, e as i32, (e + 1) as i32);
}

proof fn lemma_exponent_counts(m: Fixed, e: i32, f: i32)
    requires
        0 < m.raw <= 0x100_0000,
        -1000 <= e <= 1000,
        -1000 <= f <= 1000,
    ensures
        log2_of_parts(m, f).raw - log2_of_parts(m, e).raw == (f - e) * 65536,
        -0x200_0000_0000 <= log2_of_parts(m, e).raw <= 0x200_0000_0000,
{
    let one = Fixed::ratio_spec(1, 1);
    assert(one.raw == 65536);
    assert(Fixed::ratio_spec(e as i64, 1).raw == e * 65536);
    assert(Fixed::ratio_spec(f as i64, 1).raw == f * 65536);
    let (top, bottom) = (m.minus_spec(one), m.plus_spec(one));
    let x = top.over_spec(bottom);
    let (p, q) = (top.raw * 65536, bottom.raw as int);
    assert(p >= 0 ==> 0 <= p / q <= 65536) by (nonlinear_arith)
        requires
            p <= q * 65536,
            q > 0,
    ;
    assert(p < 0 ==> 0 <= (-p) / q <= 65536) by (nonlinear_arith)
        requires
            -p <= q * 65536,
            q > 0,
    ;
    assert(-65536 <= x.raw <= 65536);
    let n = x.raw as int;
    assert(0 <= n * n <= 65536 * 65536) by (nonlinear_arith)
        requires
            -65536 <= n <= 65536,
    ;
    let x2 = x.times_spec(x);
    assert(0 <= x2.raw <= 65536);
    let (k0, k1, k2) = (
        Fixed::ratio_spec(4_121_985_850_084_822, 10_000_000_000_000_000),
        Fixed::ratio_spec(5_770_780_163_490_338, 10_000_000_000_000_000),
        Fixed::ratio_spec(9_617_966_939_259_846, 10_000_000_000_000_000),
    );
    assert(k0.raw == 27013 && k1.raw == 37819 && k2.raw == 63032);
    let slope = Fixed::ratio_spec(28_853_900_817_779_268, 10_000_000_000_000_000);
    assert(slope.raw == 189096);
    let first = k0.fused_spec(x2, k1);
    assert(37819 <= first.raw <= 64832);
    let (a, b) = (first.raw as int, x2.raw as int);
    assert(0 <= a * b <= 64832 * 65536) by (nonlinear_arith)
        requires
            0 <= a <= 64832,
            0 <= b <= 65536,
    ;
    let u = first.fused_spec(x2, k2);
    assert(0 <= u.raw <= 200000);
    let c = x2.raw as int;
    assert(-(65536 * 65536) <= c * n <= 65536 * 65536) by (nonlinear_arith)
        requires
            0 <= c <= 65536,
            -65536 <= n <= 65536,
    ;
    let cube = x2.times_spec(x);
    assert(-65536 <= cube.raw <= 65536);
    let (d, v) = (cube.raw as int, u.raw as int);
    assert(-(65536 * 200000) <= d * v <= 65536 * 200000) by (nonlinear_arith)
        requires
            -65536 <= d <= 65536,
            0 <= v <= 200000,
    ;
}

/// The logarithm of one is nothing in either estimate: a number without a mantissa beyond
/// one has its exponent as its logarithm.
pub proof fn law_powers_of_two_have_their_exponents(e: i32)
    requires
        -1000 <= e <= 1000,
    ensures
        log2_of_parts(Fixed::ratio_spec(1, 1), e) == Fixed::ratio_spec(e as i64, 1),
        log2p1_of_parts(Fixed::ratio_spec(1, 1), e) == Fixed::ratio_spec(e as i64, 1),
        log1p_of_parts(Fixed::zero_spec(), Fixed::ratio_spec(1, 1), 0) == Fixed::zero_spec(),
{
    let one = Fixed::ratio_spec(1, 1);
    assert(one.raw == 65536);
    assert(Fixed::ratio_spec(e as i64, 1).raw == e * 65536);
    let zero = Fixed { raw: 0 };
    assert(one.minus_spec(one) == zero);
    assert(zero.over_spec(one.plus_spec(one)) == zero);
    assert(zero.times_spec(zero) == zero);
    let h = horner(log2p1_coefficients::<Fixed>(), zero, 7);
    let n = h.raw as int;
    assert(0 * n == 0);
    assert(zero.times_spec(h).raw == 0);
    let k = horner(log1p_coefficients::<Fixed>(), zero, 7);
    let m = k.raw as int;
    assert(0 * m == 0);
    assert(zero.times_spec(k).raw == 0);
    let slope = Fixed::ratio_spec(28_853_900_817_779_268, 10_000_000_000_000_000);
    let s = slope.raw as int;
    assert(0 * s == 0);
    let u = Fixed::ratio_spec(4_121_985_850_084_822, 10_000_000_000_000_000).fused_spec(
        zero,
        Fixed::ratio_spec(5_770_780_163_490_338, 10_000_000_000_000_000),
    ).fused_spec(zero, Fixed::ratio_spec(9_617_966_939_259_846, 10_000_000_000_000_000));
    let w = u.raw as int;
    assert(0 * w == 0);
    assert(Fixed::ratio_spec(0, 1).raw == 0);
    let ln = Fixed::ratio_spec(6_931_471_805_599_453, 10_000_000_000_000_000);
    let z = ln.raw as int;
    assert(0 * z == 0);
}

/// A power of two whose exponent is one larger has the same entry of the table and twice
/// the scale; without a rest it is the entry times the scale.
pub proof fn law_powers_double(shifted: u32, entry: Fixed, scale: Fixed)
    requires
        shifted < 0x2000,
        usual_power(entry),
    ensures
        exp2_parts((shifted + 64) as u32).0 == exp2_parts(shifted).0,
        exp2_parts((shifted + 64) as u32).1 == exp2_parts(shifted).1 + OCTAVE,
        exp2_of_parts(Fixed::zero_spec(), entry, scale) == entry.times_spec(scale),
{
    let zero = Fixed { raw: 0 };
    let u = Fixed::ratio_spec(2_402_265_069_590_877, 10_000_000_000_000_000).fused_spec(
        zero,
        Fixed::ratio_spec(6_931_471_805_599_497, 10_000_000_000_000_000),
    );
    let n = u.raw as int;
    assert(n * 0 == 0);
    assert(u.times_spec(zero) == zero);
    let m = entry.raw as int;
    assert(0 * m == 0);
    assert(zero.fused_spec(entry, entry) == entry);
}

/// A power of two that is not out of range.
pub open spec fn usual_power(v: Fixed) -> bool {
    0 <= v.raw <= 0x1_0000_0000
}

} // verus!
