//! What the quantizer of a transform has to do with those of the blocks under it.

use crate::amount::{truncated_quotient, Amount, Fixed, FIXED_ONE};
use crate::quant_field::{
    adjusted, aggregate, aggregate_2x2, even_quant, field_shape, law_adjusted_field_is_even, mixer,
    row_max, row_sum, window_max, window_quant, window_sum, Field,
};
use crate::strategy::{covered_x, covered_y};
use crate::strategy_map::{firsts, in_footprint, in_window, Layout};
use crate::tiling::tiled;
use vstd::prelude::*;

verus! {

/// How much of the largest quantizer counts lies between nothing and all of it, is all
/// of it up to a distance of 1.54, nothing from 3.32 on, and does not grow with the
/// distance.
pub proof fn law_mixer_fades_from_largest_to_mean(near: Fixed, far: Fixed)
    requires
        near.raw <= far.raw,
    ensures
        0 <= mixer(far).raw <= mixer(near).raw <= FIXED_ONE,
        near.raw <= Fixed::ratio_spec(154, 100).raw ==> mixer(near).raw == FIXED_ONE,
        far.raw >= Fixed::ratio_spec(332, 100).raw ==> mixer(far).raw == 0,
{
    assert(Fixed::ratio_spec(154138, 100000).raw == 101015);
    assert(Fixed::ratio_spec(56391, 100000).raw == 36956);
    assert(Fixed::ratio_spec(154, 100).raw == 100925);
    assert(Fixed::ratio_spec(332, 100).raw == 217579);
    assert(Fixed::ratio_spec(1, 1).raw == 65536);
    lemma_mixer(near);
    lemma_mixer(far);
    let a = over_start(near);
    let b = over_start(far);
    assert((a * 36956) / 65536 <= (b * 36956) / 65536);
}

/// How far a distance lies beyond the start of the fade.
spec fn over_start(target: Fixed) -> int {
    if target.raw > 101015 {
        if target.raw - 101015 > i64::MAX {
            i64::MAX as int
        } else {
            target.raw - 101015
        }
    } else {
        0
    }
}

proof fn lemma_mixer(target: Fixed)
    ensures
        over_start(target) < i64::MAX,
        mixer(target).raw == (if (over_start(target) * 36956) / 65536 < 65536 {
            65536 - (over_start(target) * 36956) / 65536
        } else {
            0
        }),
{
    assert(Fixed::ratio_spec(154138, 100000).raw == 101015);
    assert(Fixed::ratio_spec(56391, 100000).raw == 36956);
    assert(Fixed::ratio_spec(1, 1).raw == 65536);
    let past = target.minus_spec(Fixed { raw: 101015 }).greater_spec(Fixed { raw: 0 });
    assert(past.raw == over_start(target));
    assert(truncated_quotient(past.raw * 36956, 65536) == (past.raw * 36956) / 65536);
}

/// What a mix of the largest quantizer `m` and the mean, `sum` over `n` blocks, comes to
/// with `k` of 65536 parts of the largest.
spec fn mixed_raw(m: int, sum: int, n: int, k: int) -> int {
    m * k + (((sum * 65536) / n) * (65536 - k)) / 65536
}

proof fn lemma_mean(sum: int, n: int, lo: int, hi: int)
    requires
        0 < n,
        0 <= lo,
        lo * n <= sum <= hi * n,
    ensures
        lo * 65536 <= (sum * 65536) / n <= hi * 65536,
{
    assert(lo * 65536 <= (sum * 65536) / n) by (nonlinear_arith)
        requires
            0 < n,
            lo * n <= sum,
    ;
    assert((sum * 65536) / n <= hi * 65536) by (nonlinear_arith)
        requires
            0 < n,
            sum <= hi * n,
    ;
}

proof fn lemma_mixed_between(m: int, mean: int, lo: int, k: int)
    requires
        0 <= k <= 65536,
        0 <= lo <= m,
        lo * 65536 <= mean <= m * 65536,
    ensures
        lo * 65536 <= m * k + (mean * (65536 - k)) / 65536 <= m * 65536,
{
    let j = 65536 - k;
    assert(lo * 65536 * j <= mean * j <= m * 65536 * j) by (nonlinear_arith)
        requires
            lo * 65536 <= mean <= m * 65536,
            0 <= j,
    ;
    assert(lo * 65536 * j == (lo * j) * 65536) by (nonlinear_arith);
    assert(m * 65536 * j == (m * j) * 65536) by (nonlinear_arith);
    assert(lo * j <= (mean * j) / 65536 <= m * j);
    assert(m * k + m * j == m * 65536) by (nonlinear_arith)
        requires
            j == 65536 - k,
    ;
    assert(lo * k <= m * k) by (nonlinear_arith)
        requires
            lo <= m,
            0 <= k,
    ;
    assert(lo * k + lo * j == lo * 65536) by (nonlinear_arith)
        requires
            j == 65536 - k,
    ;
}

proof fn lemma_aggregate(m: u8, sum: int, n: int, target: Fixed)
    requires
        4 <= n <= 64,
        0 <= sum <= m * n,
    ensures
        ({
            let t = mixed_raw(m as int, sum, n, mixer(target).raw as int) + 32768;
            aggregate(m, sum, n, target) == if t < 65536 {
                1
            } else {
                t / 65536
            }
        }),
        0 <= mixed_raw(m as int, sum, n, mixer(target).raw as int) <= m * 65536,
{
    law_mixer_fades_from_largest_to_mean(target, target);
    let k = mixer(target).raw as int;
    assert(m * n <= 255 * 64) by (nonlinear_arith)
        requires
            m <= 255,
            0 <= n <= 64,
    ;
    let mean = Fixed::ratio_spec(sum as i64, n as u64);
    lemma_mean(sum, n, 0, m as int);
    assert(mean.raw == (sum * 65536) / n);
    let most = Fixed::ratio_spec(m as i64, 1);
    assert(most.raw == m * 65536);
    assert(Fixed::ratio_spec(1, 1).raw == 65536);
    assert(Fixed::ratio_spec(1, 2).raw == 32768);
    assert(Fixed::ratio_spec(255, 1).raw == 255 * 65536);
    let mix = mixer(target);
    let a = most.times_spec(mix);
    assert((m * 65536) * k == (m * k) * 65536) by (nonlinear_arith);
    assert(0 <= m * k <= 255 * 65536) by (nonlinear_arith)
        requires
            0 <= m <= 255,
            0 <= k <= 65536,
    ;
    assert(a.raw == m * k);
    let rest = Fixed::ratio_spec(1, 1).minus_spec(mix);
    assert(rest.raw == 65536 - k);
    let b = mean.times_spec(rest);
    assert(0 <= mean.raw * rest.raw) by (nonlinear_arith)
        requires
            mean.raw >= 0,
            rest.raw >= 0,
    ;
    lemma_mixed_between(m as int, mean.raw as int, 0, k);
    assert(b.raw == (mean.raw * rest.raw) / 65536);
    assert(a.plus_spec(b).raw == mixed_raw(m as int, sum, n, k));
}

/// The quantizer of a transform lies between any bounds on the quantizers of the blocks
/// under it: never below all of them and never above the largest.
pub proof fn law_quantizer_lies_between_those_under_it(
    max_q: u8,
    sum: int,
    covered: int,
    target: Fixed,
    least: u8,
)
    requires
        1 <= covered <= 64,
        1 <= least <= max_q,
        least * covered <= sum <= max_q * covered,
    ensures
        least <= aggregate(max_q, sum, covered, target) <= max_q,
{
    if covered >= 4 {
        law_mixer_fades_from_largest_to_mean(target, target);
        lemma_aggregate(max_q, sum, covered, target);
        lemma_mean(sum, covered, least as int, max_q as int);
        lemma_mixed_between(
            max_q as int,
            (sum * 65536) / covered,
            least as int,
            mixer(target).raw as int,
        );
    }
}

/// Pairs take the larger quantizer at any distance; larger transforms take the largest
/// at distances up to 1.54, the mean to the nearest from 3.32 on, and never a larger one
/// at a greater distance.
pub proof fn law_quantizer_goes_from_largest_to_mean(
    max_q: u8,
    sum: int,
    covered: int,
    near: Fixed,
    far: Fixed,
)
    requires
        1 <= covered <= 64,
        1 <= max_q,
        covered <= sum <= max_q * covered,
        near.raw <= far.raw,
    ensures
        covered < 4 ==> aggregate(max_q, sum, covered, near) == max_q,
        near.raw <= Fixed::ratio_spec(154, 100).raw ==> aggregate(max_q, sum, covered, near)
            == max_q,
        covered >= 4 && far.raw >= Fixed::ratio_spec(332, 100).raw ==> -covered <= 2 * sum - 2
            * covered * aggregate(max_q, sum, covered, far) <= covered,
        aggregate(max_q, sum, covered, far) <= aggregate(max_q, sum, covered, near),
{
    if covered >= 4 {
        law_mixer_fades_from_largest_to_mean(near, far);
        lemma_aggregate(max_q, sum, covered, near);
        lemma_aggregate(max_q, sum, covered, far);
        let (m, n) = (max_q as int, covered);
        let mean = (sum * 65536) / n;
        lemma_mean(sum, n, 1, m);
        let (i, k) = (mixer(far).raw as int, mixer(near).raw as int);
        // More of the largest never lowers the mix.
        let (a, b) = (mean * (65536 - i), mean * (65536 - k));
        assert(a - b == mean * (k - i)) by (nonlinear_arith)
            requires
                a == mean * (65536 - i),
                b == mean * (65536 - k),
        ;
        assert(mean * (k - i) <= (m * (k - i)) * 65536) by (nonlinear_arith)
            requires
                mean <= m * 65536,
                0 <= k - i,
        ;
        assert(a / 65536 <= b / 65536 + m * (k - i));
        assert(m * i + m * (k - i) == m * k) by (nonlinear_arith);
        assert(mixed_raw(m, sum, n, i) <= mixed_raw(m, sum, n, k));
        if near.raw <= Fixed::ratio_spec(154, 100).raw {
            assert(mixed_raw(m, sum, n, 65536) == m * 65536);
        }
        if far.raw >= Fixed::ratio_spec(332, 100).raw {
            assert(mixed_raw(m, sum, n, 0) == mean) by {
                assert(m * 0 == 0);
                assert(mean * 65536 / 65536 == mean);
            }
            let r = aggregate(max_q, sum, n, far) as int;
            assert(r * 65536 <= mean + 32768 < (r + 1) * 65536);
            assert(mean * n <= sum * 65536 < (mean + 1) * n) by (nonlinear_arith)
                requires
                    mean == (sum * 65536) / n,
                    n > 0,
            ;
            assert(2 * sum - 2 * n * r <= n) by (nonlinear_arith)
                requires
                    sum * 65536 < (mean + 1) * n,
                    mean + 1 <= r * 65536 + 32768,
                    n > 0,
            ;
            assert(-n <= 2 * sum - 2 * n * r) by (nonlinear_arith)
                requires
                    mean * n <= sum * 65536,
                    r * 65536 - 32768 <= mean,
                    n > 0,
            ;
        }
    }
}

proof fn lemma_row_bounds(f: Field, bx: int, y: int, start: u8, n: int, lo: u8, hi: u8)
    requires
        0 <= n,
        start <= hi,
        forall|x: int| bx <= x < bx + n ==> lo <= #[trigger] f[y][x] <= hi,
    ensures
        start <= row_max(f, bx, y, start, n) <= hi,
        n > 0 ==> lo <= row_max(f, bx, y, start, n),
        lo * n <= row_sum(f, bx, y, n) <= hi * n,
        row_sum(f, bx, y, n) <= row_max(f, bx, y, start, n) * n,
    decreases n,
{
    if n > 0 {
        lemma_row_bounds(f, bx, y, start, n - 1, lo, hi);
        let q = f[y][bx + n - 1];
        assert(lo <= q <= hi);
        assert(lo * n == lo * (n - 1) + lo) by (nonlinear_arith);
        assert(hi * n == hi * (n - 1) + hi) by (nonlinear_arith);
        let was = row_max(f, bx, y, start, n - 1) as int;
        let now = row_max(f, bx, y, start, n) as int;
        assert(was * (n - 1) <= now * (n - 1)) by (nonlinear_arith)
            requires
                was <= now,
                1 <= n,
        ;
        assert(now * n == now * (n - 1) + now) by (nonlinear_arith);
    }
}

proof fn lemma_window_bounds(
    f: Field,
    bx: int,
    by: int,
    cx: int,
    start: u8,
    n: int,
    lo: u8,
    hi: u8,
)
    requires
        0 < cx,
        0 <= n,
        start <= hi,
        forall|x: int, y: int|
            bx <= x < bx + cx && by <= y < by + n ==> lo <= #[trigger] f[y][x] <= hi,
    ensures
        start <= window_max(f, bx, by, cx, start, n) <= hi,
        n > 0 ==> lo <= window_max(f, bx, by, cx, start, n),
        lo * (cx * n) <= window_sum(f, bx, by, cx, n) <= hi * (cx * n),
        window_sum(f, bx, by, cx, n) <= window_max(f, bx, by, cx, start, n) * (cx * n),
    decreases n,
{
    assert(cx * 0 == 0);
    if n > 0 {
        lemma_window_bounds(f, bx, by, cx, start, n - 1, lo, hi);
        let was = window_max(f, bx, by, cx, start, n - 1);
        lemma_row_bounds(f, bx, by + n - 1, was, cx, lo, hi);
        let now = window_max(f, bx, by, cx, start, n) as int;
        let part = cx * (n - 1);
        assert(cx * n == part + cx) by (nonlinear_arith)
            requires
                part == cx * (n - 1),
        ;
        assert(0 <= part) by (nonlinear_arith)
            requires
                part == cx * (n - 1),
                cx > 0,
                n > 0,
        ;
        assert(lo * (part + cx) == lo * part + lo * cx) by (nonlinear_arith);
        assert(hi * (part + cx) == hi * part + hi * cx) by (nonlinear_arith);
        assert(now * (part + cx) == now * part + now * cx) by (nonlinear_arith);
        assert(was as int * part <= now * part) by (nonlinear_arith)
            requires
                was as int <= now,
                0 <= part,
        ;
    }
}

/// The quantizer that a transform over a window would get lies between any bounds on the
/// quantizers in the window; on an even window it is the one quantizer.
pub proof fn law_window_quantizer_lies_within(
    f: Field,
    bx: int,
    by: int,
    cx: int,
    cy: int,
    target: Fixed,
    lo: u8,
    hi: u8,
)
    requires
        1 <= cx <= 8,
        1 <= cy <= 8,
        1 <= lo <= hi,
        forall|x: int, y: int|
            in_window(bx, by, cx, cy, x, y) ==> lo <= #[trigger] f[y][x] <= hi,
    ensures
        lo <= window_quant(f, bx, by, cx, cy, target) <= hi,
{
    assert forall|x: int, y: int| bx <= x < bx + cx && by <= y < by + cy implies lo
        <= #[trigger] f[y][x] <= hi by {
        assert(in_window(bx, by, cx, cy, x, y));
    }
    lemma_window_bounds(f, bx, by, cx, 1, cy, lo, hi);
    assert(1 <= cx * cy <= 64) by (nonlinear_arith)
        requires
            1 <= cx <= 8,
            1 <= cy <= 8,
    ;
    law_quantizer_lies_between_those_under_it(
        window_max(f, bx, by, cx, 1, cy),
        window_sum(f, bx, by, cx, cy),
        cx * cy,
        target,
        lo,
    );
}

/// Evening the field out over a tiling keeps every block between the bounds of its
/// transform: where all blocks under a transform hold between `lo` and `hi`, so do they
/// afterwards. In particular an even footprint is left as it is, whatever its size.
pub proof fn law_adjusting_stays_within_each_footprint(
    v: Layout,
    w: int,
    h: int,
    f: Field,
    target: Fixed,
    k: int,
    lo: u8,
    hi: u8,
)
    requires
        tiled(v, w, h),
        0 <= w <= usize::MAX,
        0 <= h <= usize::MAX,
        field_shape(f, w, h),
        0 <= k < firsts(v, h).len(),
        1 <= lo <= hi,
        forall|x: int, y: int|
            in_footprint(firsts(v, h)[k], x, y) ==> lo <= #[trigger] f[y][x] <= hi,
    ensures
        forall|x: int, y: int|
            in_footprint(firsts(v, h)[k], x, y) ==> lo <= #[trigger] adjusted(
                f,
                firsts(v, h),
                target,
                firsts(v, h).len() as int,
            )[y][x] <= hi,
{
    let blocks = firsts(v, h);
    let s = blocks[k];
    let (cx, cy) = (covered_x(s.strategy), covered_y(s.strategy));
    law_adjusted_field_is_even(v, w, h, f, target);
    crate::rerank_band::lemma_firsts(v, w, h);
    assert(in_footprint(blocks[k], s.x as int, s.y as int));
    assert(v[s.y as int][s.x as int].first);
    assert forall|x: int, y: int| s.x <= x < s.x + cx && s.y <= y < s.y + cy implies lo
        <= #[trigger] f[y][x] <= hi by {
        assert(in_footprint(blocks[k], x, y));
    }
    lemma_window_bounds(f, s.x as int, s.y as int, cx, 0, cy, lo, hi);
    assert(1 <= cx * cy <= 64) by (nonlinear_arith)
        requires
            1 <= cx <= 8,
            1 <= cy <= 8,
    ;
    law_quantizer_lies_between_those_under_it(
        window_max(f, s.x as int, s.y as int, cx, 0, cy),
        window_sum(f, s.x as int, s.y as int, cx, cy),
        cx * cy,
        target,
        lo,
    );
    assert forall|x: int, y: int| in_footprint(blocks[k], x, y) implies lo <= #[trigger] adjusted(
        f,
        blocks,
        target,
        blocks.len() as int,
    )[y][x] <= hi by {
        assert(adjusted(f, blocks, target, blocks.len() as int)[y][x] == even_quant(
            f,
            s,
            target,
            x,
            y,
        ));
        assert(lo <= f[y][x] <= hi);
    }
}

/// The scaled quantizer of four blocks whose quantizers lie between `lo` and `hi` is that
/// of a quantizer between the same bounds, whatever the scale.
pub proof fn law_scaled_quantizer_lies_within(
    q: [[u8; 2]; 2],
    qac: [[Fixed; 2]; 2],
    scale: Fixed,
    target: Fixed,
    lo: u8,
    hi: u8,
) -> (found: u8)
    requires
        4 <= scale.raw <= 0x100_0000_0000,
        1 <= lo <= hi,
        forall|y: int, x: int|
            0 <= x < 2 && 0 <= y < 2 ==> lo <= #[trigger] q@[y]@[x] <= hi && qac@[y]@[x]
                == scale.times_spec(Fixed::ratio_spec(q@[y]@[x] as i64, 1)),
    ensures
        lo <= found <= hi,
        aggregate_2x2(qac, scale, target) == scale.times_spec(Fixed::ratio_spec(found as i64, 1)),
{
    let s = scale.raw as int;
    let (a, b) = (q@[0]@[0] as int, q@[0]@[1] as int);
    let (c, d) = (q@[1]@[0] as int, q@[1]@[1] as int);
    assert forall|y: int, x: int| 0 <= x < 2 && 0 <= y < 2 implies (#[trigger] qac@[y]@[x]).raw == s
        * q@[y]@[x] by {
        let n = q@[y]@[x] as int;
        assert(s * (n * 65536) == (s * n) * 65536) by (nonlinear_arith);
        assert(0 <= s * n <= 0x100_0000_0000 * 255) by (nonlinear_arith)
            requires
                0 <= s <= 0x100_0000_0000,
                0 <= n <= 255,
        ;
        assert(Fixed::ratio_spec(q@[y]@[x] as i64, 1).raw == n * 65536);
    }
    let ab = if a < b { b } else { a };
    let abc = if ab < c { c } else { ab };
    let m = if abc < d { d } else { abc };
    assert(lo <= a <= m <= hi && lo <= b <= m && lo <= c <= m && lo <= d <= m);
    law_mixer_fades_from_largest_to_mean(target, target);
    let k = mixer(target).raw as int;
    let largest = qac@[0]@[0].greater_spec(qac@[0]@[1]).greater_spec(qac@[1]@[0]).greater_spec(
        qac@[1]@[1],
    );
    lemma_scaled_order(s, a, b);
    lemma_scaled_order(s, ab, c);
    lemma_scaled_order(s, abc, d);
    assert(largest.raw == s * m);
    let sum = s * a + s * b + s * c + s * d;
    assert(s * (a + b + c + d) == sum) by (nonlinear_arith)
        requires
            sum == s * a + s * b + s * c + s * d,
    ;
    let total = a + b + c + d;
    assert(s * lo * 4 <= s * total <= s * m * 4) by (nonlinear_arith)
        requires
            4 * lo <= total <= 4 * m,
            0 <= s,
    ;
    assert(0 <= s * m <= 0x100_0000_0000 * 255) by (nonlinear_arith)
        requires
            0 <= s <= 0x100_0000_0000,
            0 <= m <= 255,
    ;
    let mean = qac@[0]@[0].plus_spec(qac@[0]@[1]).plus_spec(qac@[1]@[0]).plus_spec(
        qac@[1]@[1],
    ).times_spec(Fixed::ratio_spec(1, 4));
    assert(Fixed::ratio_spec(1, 4).raw == 16384);
    assert(Fixed::ratio_spec(1, 1).raw == 65536);
    assert(Fixed::ratio_spec(1, 2).raw == 32768);
    assert(Fixed::ratio_spec(255, 1).raw == 255 * 65536);
    assert(mean.raw == sum / 4);
    let e = sum / 4;
    let i = 65536 - k;
    let (sm, sl) = (s * m, s * lo);
    let part = (sm * k) / 65536;
    let rest = (e * i) / 65536;
    assert(0 <= sm * k <= sm * 65536) by (nonlinear_arith)
        requires
            0 <= sm,
            0 <= k <= 65536,
    ;
    assert(sl * i <= e * i <= sm * i && 0 <= sl * i) by (nonlinear_arith)
        requires
            0 <= sl <= e <= sm,
            0 <= i,
    ;
    assert(sm * k + sm * i == sm * 65536) by (nonlinear_arith)
        requires
            i == 65536 - k,
    ;
    assert(sl * k + sl * i == sl * 65536) by (nonlinear_arith)
        requires
            i == 65536 - k,
    ;
    assert(sl * k <= sm * k) by (nonlinear_arith)
        requires
            sl <= sm,
            0 <= k,
    ;
    let both = part + rest;
    assert(sl - 2 < both <= sm);
    let mixed = largest.times_spec(mixer(target)).plus_spec(
        mean.times_spec(Fixed::ratio_spec(1, 1).minus_spec(mixer(target))),
    );
    assert(largest.times_spec(mixer(target)).raw == part);
    assert(mean.times_spec(Fixed::ratio_spec(1, 1).minus_spec(mixer(target))).raw == rest);
    assert(mixed.raw == both);
    let over = (both * 65536) / s;
    assert(both >= 0) by (nonlinear_arith)
        requires
            sl - 2 < both,
            sl == s * lo,
            s >= 4,
            lo >= 1,
    ;
    assert(over <= m * 65536) by (nonlinear_arith)
        requires
            over == (both * 65536) / s,
            both <= s * m,
            s >= 4,
    ;
    assert(lo * 65536 - 32768 <= over) by (nonlinear_arith)
        requires
            over == (both * 65536) / s,
            s * lo - 1 <= both,
            s >= 4,
    ;
    assert(0 <= over);
    assert(mixed.over_spec(scale).raw == over);
    let found = (if over + 32768 < 65536 {
        1
    } else {
        (over + 32768) / 65536
    }) as u8;
    found
}

proof fn lemma_scaled_order(s: int, a: int, b: int)
    requires
        0 < s,
    ensures
        (s * a < s * b) == (a < b),
{
    assert((s * a < s * b) == (a < b)) by (nonlinear_arith)
        requires
            0 < s,
    ;
}

} // verus!
