//! What the measures of adaptive quantization respond to, and in which direction.

use crate::adaptive_quant::{
    blue_sum, blue_term, dec, gamma_ratio, gamma_sum, hf_modulated, hf_strength, hf_sum,
    magnitude_spec, mask_spec, masking_root, BLUE_LIMIT, BLUE_MAX, BLUE_MUL, BLUE_OFFSET,
    GAMMA_BIAS, HF_LIMIT, HF_MUL, HF_OFFSET, LUMA, MASK_BASE, MASK_MIN, MASK_MUL, MASK_MUL0,
    MASK_OFFSET, SQRT_MUL, SQRT_OFFSET,
};
use crate::amount::{Amount, Fixed, FIXED_ONE};
use crate::fixed_laws::{
    lemma_floor_root, lemma_products_grow, lemma_times_grows, lemma_times_keeps_order, opposite,
};
use crate::opsin::{edge_sample, Planes};
use vstd::prelude::*;

verus! {

proof fn lemma_inverse_falls(a: Fixed, b: Fixed)
    requires
        0 < a.raw <= b.raw,
    ensures
        0 <= (Fixed { raw: 65536 }).over_spec(b).raw <= (Fixed { raw: 65536 }).over_spec(a).raw,
{
    let (n, m) = (a.raw as int, b.raw as int);
    assert(0 <= (65536 * 65536int) / m <= (65536 * 65536int) / n) by (nonlinear_arith)
        requires
            0 < n <= m,
    ;
    assert((65536 * 65536int) / n <= 65536 * 65536) by (nonlinear_arith)
        requires
            0 < n,
    ;
}

proof fn lemma_fused_grows(f: Fixed, a: Fixed, b: Fixed, c: Fixed, d: Fixed)
    requires
        0 <= f.raw,
        0 <= a.raw <= b.raw,
        c.raw <= d.raw,
    ensures
        f.fused_spec(a, c).raw <= f.fused_spec(b, d).raw,
{
    let (x, y, z) = (f.raw as int, a.raw as int, b.raw as int);
    assert(0 <= x * y <= x * z) by (nonlinear_arith)
        requires
            0 <= x,
            0 <= y <= z,
    ;
}

/// The more a block varies, the lower its mask; differences too small to see are masked
/// alike.
pub proof fn law_mask_falls_with_the_difference(v: Fixed, w: Fixed)
    requires
        v.raw <= w.raw,
        i64::MIN < v.raw,
    ensures
        mask_spec(w).raw <= mask_spec(v).raw,
        w.raw <= 0 ==> mask_spec(w) == mask_spec(v),
{
    let one = Fixed { raw: 65536 };
    assert(Fixed::ratio_spec(1, 1) == one);
    let scale = dec::<Fixed>(MASK_MUL0);
    assert(scale.raw == 52469);
    let least = dec::<Fixed>(MASK_MIN);
    assert(least.raw == 65);
    lemma_times_keeps_order(v, w, scale);
    assert(w.raw <= 0 ==> w.times_spec(scale).raw <= 0) by {
        let n = w.raw as int;
        assert(w.raw <= 0 ==> n * 52469 <= 0) by (nonlinear_arith)
            requires
                n == w.raw,
        ;
    }
    let (v1, w1) = (
        v.times_spec(scale).greater_spec(least),
        w.times_spec(scale).greater_spec(least),
    );
    assert(65 <= v1.raw <= w1.raw);
    lemma_products_grow(v1, w1, v1, w1);
    let (o0, o3) = (dec::<Fixed>(MASK_OFFSET@[0]), dec::<Fixed>(MASK_OFFSET@[1]));
    assert(o0.raw == 19830923);
    assert(o3.raw == 243660);
    let quarter = Fixed::ratio_spec(1, 4);
    assert(quarter.raw == 16384);
    let o4 = quarter.times_spec(o3);
    assert(o4.raw == 60915);
    let (v2, w2) = (v1.plus_spec(o0), w1.plus_spec(o0));
    lemma_inverse_falls(v2, w2);
    let (v3, w3) = (v1.times_spec(v1).plus_spec(o3), w1.times_spec(w1).plus_spec(o3));
    lemma_inverse_falls(v3, w3);
    let (v4, w4) = (v1.times_spec(v1).plus_spec(o4), w1.times_spec(w1).plus_spec(o4));
    lemma_inverse_falls(v4, w4);
    let (m0, m1, m2) = (
        dec::<Fixed>(MASK_MUL@[0]),
        dec::<Fixed>(MASK_MUL@[1]),
        dec::<Fixed>(MASK_MUL@[2]),
    );
    assert(m0.raw == 1137073);
    assert(m1.raw == 445272);
    assert(m2.raw == 620683);
    let base = dec::<Fixed>(MASK_BASE);
    lemma_fused_grows(m1, one.over_spec(w3), one.over_spec(v3), base, base);
    let (a, b) = (
        m1.fused_spec(one.over_spec(w3), base),
        m1.fused_spec(one.over_spec(v3), base),
    );
    lemma_fused_grows(m0, one.over_spec(w2), one.over_spec(v2), a, b);
    lemma_fused_grows(
        m2,
        one.over_spec(w4),
        one.over_spec(v4),
        m0.fused_spec(one.over_spec(w2), a),
        m0.fused_spec(one.over_spec(v2), b),
    );
}

/// Masking roots grow with the squared difference, and four of them squared do not exceed
/// the scaled and offset difference.
pub proof fn law_masking_root_grows(v: Fixed, w: Fixed)
    requires
        0 <= v.raw <= w.raw <= 0x1_0000_0000,
    ensures
        0 <= masking_root(v).raw <= masking_root(w).raw,
        ({
            let mul = dec::<Fixed>(SQRT_MUL).times_spec(
                Fixed::ratio_spec(100_000_000, 1),
            ).root_spec();
            let under = v.fused_spec(mul, dec(SQRT_OFFSET));
            let four = 4 * masking_root(v).raw;
            four * four <= under.raw * 65536 < (four + 4) * (four + 4)
        }),
{
    let mul = dec::<Fixed>(SQRT_MUL).times_spec(Fixed::ratio_spec(100_000_000, 1)).root_spec();
    let scale = dec::<Fixed>(SQRT_MUL).times_spec(Fixed::ratio_spec(100_000_000, 1));
    assert(dec::<Fixed>(SQRT_MUL).raw == 13871721);
    assert(Fixed::ratio_spec(100_000_000, 1).raw == 6_553_600_000_000);
    assert(scale.raw == 1_387_172_100_000_000);
    lemma_floor_root(scale.raw * 65536, scale.raw * 65536);
    assert(dec::<Fixed>(SQRT_OFFSET).raw == 1802622);
    let r = mul.raw as int;
    assert(0 <= r < 0x4_0000_0000) by (nonlinear_arith)
        requires
            0 <= r,
            r * r <= 1_387_172_100_000_000 * 65536,
    ;
    let (x, y) = (v.raw as int, w.raw as int);
    assert(0 <= x * r <= y * r <= 0x1_0000_0000 * 0x4_0000_0000) by (nonlinear_arith)
        requires
            0 <= x <= y <= 0x1_0000_0000,
            0 <= r < 0x4_0000_0000,
    ;
    let (a, b) = (v.fused_spec(mul, dec(SQRT_OFFSET)), w.fused_spec(mul, dec(SQRT_OFFSET)));
    assert(0 <= a.raw <= b.raw);
    lemma_floor_root(a.raw * 65536, b.raw * 65536);
    let quarter = Fixed::ratio_spec(1, 4);
    assert(quarter.raw == 16384);
    let root = floor_raw(a);
    let four = 4 * masking_root(v).raw;
    assert(masking_root(v).raw == root / 4);
    assert(masking_root(w).raw == floor_raw(b) / 4);
    assert(four <= root <= four + 3);
    let n = a.raw * 65536;
    assert(four * four <= n < (four + 4) * (four + 4)) by (nonlinear_arith)
        requires
            0 <= four <= root <= four + 3,
            root * root <= n,
            n < (root + 1) * (root + 1),
    ;
}

spec fn floor_raw(a: Fixed) -> int {
    a.root_spec().raw as int
}

/// High frequencies count by half the distance asked for, but never less than a tenth nor
/// more than one; more distance never makes them count less.
pub proof fn law_high_frequencies_count_by_half_the_distance(d: Fixed, e: Fixed)
    requires
        0 <= d.raw <= e.raw,
    ensures
        hf_strength(d).raw <= hf_strength(e).raw,
        Fixed::ratio_spec(1, 10).raw <= hf_strength(d).raw <= FIXED_ONE,
        13108 <= d.raw < 131072 ==> 2 * hf_strength(d).raw <= d.raw <= 2 * hf_strength(d).raw + 1,
{
    assert(Fixed::ratio_spec(1, 10).raw == 6553);
    assert(Fixed::ratio_spec(1, 2).raw == 32768);
    assert(Fixed::ratio_spec(1, 1).raw == 65536);
    let half = Fixed { raw: 32768 };
    let (n, m) = (d.raw as int, e.raw as int);
    lemma_times_grows(d, e, half);
    crate::fixed_laws::lemma_times_swaps(d, half);
    crate::fixed_laws::lemma_times_swaps(e, half);
}

/// How many pairs of neighbours the leading `n` samples of a block begin, across and down.
pub open spec fn pairs_begun(n: int) -> int {
    n - n / 8 + (if n <= 56 {
        n
    } else {
        56
    })
}

proof fn lemma_hf_step(v: Planes<Fixed>, w: int, h: int, x: int, y: int, n: int)
    requires
        0 < n <= 64,
        0 <= hf_sum(v, w, h, x, y, n - 1).raw <= 1_000_000,
    ensures
        ({
            let head = hf_sum(v, w, h, x, y, n - 1).raw;
            let now = hf_sum(v, w, h, x, y, n).raw;
            let dx = (n - 1) % 8;
            let dy = (n - 1) / 8;
            head <= now <= head + (if dx < 7 { 1350int } else { 0 }) + (if dy < 7 { 1350int } else { 0 })
        }),
{
    assert(dec::<Fixed>(HF_LIMIT).raw == 1350);
    let dx = (n - 1) % 8;
    let dy = (n - 1) / 8;
    let p = edge_sample(v, w, h, LUMA as int, x + dx, y + dy);
    assert(p.minus_spec(p).raw == 0);
}

/// The high-frequency sum of a block counts each pair of neighbours, up to a limit: it
/// lies between nothing and as many limits as there are pairs in the block.
pub proof fn law_high_frequencies_are_limited(
    v: Planes<Fixed>,
    w: int,
    h: int,
    x: int,
    y: int,
    n: int,
)
    requires
        0 <= n <= 64,
    ensures
        0 <= hf_sum(v, w, h, x, y, n).raw <= dec::<Fixed>(HF_LIMIT).raw * pairs_begun(n),
        pairs_begun(64) == 112,
    decreases n,
{
    assert(dec::<Fixed>(HF_LIMIT).raw == 1350);
    if n > 0 {
        law_high_frequencies_are_limited(v, w, h, x, y, n - 1);
        lemma_hf_step(v, w, h, x, y, n);
    }
}

/// The samples at `(x, y)` and `(u, z)` are the same.
pub open spec fn same_luma(v: Planes<Fixed>, w: int, h: int, x: int, y: int, u: int, z: int) -> bool {
    edge_sample(v, w, h, LUMA as int, x, y) == edge_sample(v, w, h, LUMA as int, u, z)
}

/// The samples at `(x, y)` and `(u, z)` differ by the limit at least.
pub open spec fn unlike_luma(
    v: Planes<Fixed>,
    w: int,
    h: int,
    x: int,
    y: int,
    u: int,
    z: int,
) -> bool {
    dec::<Fixed>(HF_LIMIT).raw <= magnitude_spec(
        edge_sample(v, w, h, LUMA as int, x, y).minus_spec(
            edge_sample(v, w, h, LUMA as int, u, z),
        ),
    ).raw
}

/// Neighbours in the block at `(x, y)` are the same.
pub open spec fn flat_luma(v: Planes<Fixed>, w: int, h: int, x: int, y: int) -> bool {
    &&& forall|i: int, j: int|
        x <= i < x + 7 && y <= j < y + 8 ==> #[trigger] same_luma(v, w, h, i, j, i + 1, j)
    &&& forall|i: int, j: int|
        x <= i < x + 8 && y <= j < y + 7 ==> #[trigger] same_luma(v, w, h, i, j, i, j + 1)
}

/// Neighbours in the block at `(x, y)` differ by the limit at least.
pub open spec fn busy_luma(v: Planes<Fixed>, w: int, h: int, x: int, y: int) -> bool {
    &&& forall|i: int, j: int|
        x <= i < x + 7 && y <= j < y + 8 ==> #[trigger] unlike_luma(v, w, h, i, j, i + 1, j)
    &&& forall|i: int, j: int|
        x <= i < x + 8 && y <= j < y + 7 ==> #[trigger] unlike_luma(v, w, h, i, j, i, j + 1)
}

/// A flat block has no high frequencies; one whose neighbours all differ by the limit has
/// the limit for each of its pairs.
pub proof fn law_high_frequencies_are_differences(
    v: Planes<Fixed>,
    w: int,
    h: int,
    x: int,
    y: int,
    n: int,
)
    requires
        0 <= n <= 64,
    ensures
        flat_luma(v, w, h, x, y) ==> hf_sum(v, w, h, x, y, n) == Fixed::zero_spec(),
        busy_luma(v, w, h, x, y) ==> hf_sum(v, w, h, x, y, n).raw == dec::<Fixed>(HF_LIMIT).raw
            * pairs_begun(n),
    decreases n,
{
    assert(dec::<Fixed>(HF_LIMIT).raw == 1350);
    if n > 0 {
        law_high_frequencies_are_differences(v, w, h, x, y, n - 1);
        let dx = (n - 1) % 8;
        let dy = (n - 1) / 8;
        let (i, j) = (x + dx, y + dy);
        let p = edge_sample(v, w, h, LUMA as int, i, j);
        assert(p.minus_spec(p).raw == 0);
        if flat_luma(v, w, h, x, y) {
            assert(dx < 7 ==> same_luma(v, w, h, i, j, i + 1, j));
            assert(dy < 7 ==> same_luma(v, w, h, i, j, i, j + 1));
            assert(y + (dy + 1) == j + 1);
        }
        if busy_luma(v, w, h, x, y) {
            assert(dx < 7 ==> unlike_luma(v, w, h, i, j, i + 1, j));
            assert(dy < 7 ==> unlike_luma(v, w, h, i, j, i, j + 1));
            assert(y + (dy + 1) == j + 1);
        }
    }
}

/// High frequencies lower the value of a block, the more the stronger they count; without
/// any it is only offset.
pub proof fn law_high_frequencies_lower_the_value(
    v: Planes<Fixed>,
    w: int,
    h: int,
    x: int,
    y: int,
    out: Fixed,
    strength: Fixed,
)
    requires
        0 <= strength.raw <= FIXED_ONE,
        -0x1_0000_0000 <= out.raw <= 0x1_0000_0000,
    ensures
        hf_modulated(v, w, h, x, y, out, strength).raw <= dec::<Fixed>(HF_OFFSET).raw + out.raw,
        flat_luma(v, w, h, x, y) ==> hf_modulated(v, w, h, x, y, out, strength).raw
            == dec::<Fixed>(HF_OFFSET).raw + out.raw,
{
    law_high_frequencies_are_limited(v, w, h, x, y, 64);
    law_high_frequencies_are_differences(v, w, h, x, y, 64);
    assert(dec::<Fixed>(HF_LIMIT).raw == 1350);
    assert(dec::<Fixed>(HF_OFFSET).raw == 27525);
    assert(dec::<Fixed>(HF_MUL).raw == -24903);
    let s = strength.raw as int;
    assert(-24903 * 65536 <= -24903 * s <= 0) by (nonlinear_arith)
        requires
            0 <= s <= 65536,
    ;
    let f = dec::<Fixed>(HF_MUL).times_spec(strength);
    assert(-24903 <= f.raw <= 0);
    let (a, b) = (hf_sum(v, w, h, x, y, 64).raw as int, f.raw as int);
    assert(-24903 * 151200 <= a * b <= 0 && (a == 0 ==> a * b == 0)) by (nonlinear_arith)
        requires
            0 <= a <= 151200,
            -24903 <= b <= 0,
    ;
}

/// The blue of the leading samples of a block exceeds the rest of them by no more than is
/// counted per sample, and by nothing where no sample is bluer than bright.
pub proof fn law_blue_counts_by_its_excess(
    v: Planes<Fixed>,
    w: int,
    h: int,
    x: int,
    y: int,
    n: int,
)
    requires
        0 <= n <= 64,
    ensures
        0 <= blue_sum(v, w, h, x, y, n).raw <= n * dec::<Fixed>(BLUE_LIMIT).raw,
        (forall|i: int, j: int|
            0 <= i < 8 && 0 <= j < 8 ==> (#[trigger] edge_sample(v, w, h, 2, x + i, y + j)).raw
                <= edge_sample(v, w, h, 1, x + i, y + j).raw < i64::MAX - 0x1_0000) ==> blue_sum(
            v,
            w,
            h,
            x,
            y,
            n,
        ) == Fixed::zero_spec(),
    decreases n,
{
    assert(dec::<Fixed>(BLUE_LIMIT).raw == 686);
    assert(dec::<Fixed>(BLUE_OFFSET).raw == 209);
    if n > 0 {
        law_blue_counts_by_its_excess(v, w, h, x, y, n - 1);
        let dx = (n - 1) % 8;
        let dy = (n - 1) / 8;
        let px = edge_sample(v, w, h, 0, x + dx, y + dy);
        let py = edge_sample(v, w, h, 1, x + dx, y + dy);
        let pb = edge_sample(v, w, h, 2, x + dx, y + dy);
        assert(magnitude_spec(px).raw >= 0);
        let effective = py.plus_spec(dec(BLUE_OFFSET)).plus_spec(magnitude_spec(px));
        if effective.less_spec(pb) {
            assert(pb.minus_spec(effective).raw > 0);
        }
    }
}

/// A sample is bluer than it is bright or coloured, by what counts at most.
pub open spec fn full_blue(v: Planes<Fixed>, w: int, h: int, x: int, y: int) -> bool {
    edge_sample(v, w, h, 1, x, y).plus_spec(dec(BLUE_OFFSET)).plus_spec(
        magnitude_spec(edge_sample(v, w, h, 0, x, y)),
    ).raw + dec::<Fixed>(BLUE_LIMIT).raw <= edge_sample(v, w, h, 2, x, y).raw
}

/// Where every sample is full of blue, every sample counts in full.
pub proof fn law_full_blue_counts_in_full(
    v: Planes<Fixed>,
    w: int,
    h: int,
    x: int,
    y: int,
    n: int,
)
    requires
        0 <= n <= 64,
        forall|i: int, j: int|
            0 <= i < 8 && 0 <= j < 8 ==> #[trigger] full_blue(v, w, h, x + i, y + j),
    ensures
        blue_sum(v, w, h, x, y, n).raw == n * dec::<Fixed>(BLUE_LIMIT).raw,
    decreases n,
{
    assert(dec::<Fixed>(BLUE_LIMIT).raw == 686);
    if n > 0 {
        law_full_blue_counts_in_full(v, w, h, x, y, n - 1);
        let dx = (n - 1) % 8;
        let dy = (n - 1) / 8;
        assert(full_blue(v, w, h, x + dx, y + dy));
    }
}

/// A block that is all blue gains as little as one without any: what it gains is the same
/// from either end, most in the middle, and nothing at both ends.
pub proof fn law_all_blue_gains_nothing(a: Fixed, b: Fixed)
    requires
        0 <= a.raw <= b.raw,
        b.raw <= 32 * dec::<Fixed>(BLUE_LIMIT).raw,
    ensures
        ({
            let other = Fixed { raw: (64 * dec::<Fixed>(BLUE_LIMIT).raw - a.raw) as i64 };
            &&& blue_term(other) == blue_term(a)
            &&& 0 <= blue_term(a).raw <= blue_term(b).raw
            &&& a.raw == 0 ==> blue_term(a).raw == 0
        }),
{
    let limit = dec::<Fixed>(BLUE_LIMIT);
    assert(limit.raw == 686);
    assert(Fixed::ratio_spec(32, 1).raw == 32 * 65536);
    assert(Fixed::ratio_spec(64, 1).raw == 64 * 65536);
    assert(Fixed::ratio_spec(32, 1).times_spec(limit).raw == 32 * 686);
    assert(Fixed::ratio_spec(64, 1).times_spec(limit).raw == 64 * 686);
    assert(dec::<Fixed>(BLUE_MAX).raw == 1013409);
    assert(dec::<Fixed>(BLUE_MAX).times_spec(limit).raw == 10607);
    let mul = dec::<Fixed>(BLUE_MUL);
    assert(mul.raw == 59369);
    let cap = Fixed { raw: 10607 };
    let (x, y) = (
        if a.raw < 10607 {
            a
        } else {
            cap
        },
        if b.raw < 10607 {
            b
        } else {
            cap
        },
    );
    lemma_times_grows(x, y, mul);
    assert(blue_term(a) == x.times_spec(mul));
    assert(blue_term(b) == y.times_spec(mul));
}

/// Below nothing the gamma is as at nothing.
pub proof fn law_gamma_of_darkness_is_one_value(invert: bool, v: Fixed)
    requires
        v.raw <= 0,
    ensures
        gamma_ratio(invert, v) == gamma_ratio(invert, Fixed::zero_spec()),
{
}

/// Red and green count alike in the gamma of a block: with both exchanged, which turns
/// their difference round, it stays as it is.
pub proof fn law_gamma_treats_red_and_green_alike(
    v: Planes<Fixed>,
    u: Planes<Fixed>,
    w: int,
    h: int,
    x: int,
    y: int,
    n: int,
)
    requires
        0 <= n <= 64,
        forall|i: int, j: int|
            0 <= i < 8 && 0 <= j < 8 ==> (#[trigger] edge_sample(v, w, h, 0, x + i, y + j)).raw
                > i64::MIN && edge_sample(u, w, h, 0, x + i, y + j) == opposite(
                edge_sample(v, w, h, 0, x + i, y + j),
            ),
        forall|i: int, j: int|
            0 <= i < 8 && 0 <= j < 8 ==> #[trigger] edge_sample(v, w, h, 1, x + i, y + j)
                == edge_sample(u, w, h, 1, x + i, y + j),
    ensures
        gamma_sum(u, w, h, x, y, n) == gamma_sum(v, w, h, x, y, n),
    decreases n,
{
    if n > 0 {
        law_gamma_treats_red_and_green_alike(v, u, w, h, x, y, n - 1);
        let dx = (n - 1) % 8;
        let dy = (n - 1) / 8;
        let luma = edge_sample(v, w, h, 1, x + dx, y + dy).plus_spec(dec(GAMMA_BIAS));
        let diff = edge_sample(v, w, h, 0, x + dx, y + dy);
        assert(luma.minus_spec(opposite(diff)) == luma.plus_spec(diff));
        assert(luma.plus_spec(opposite(diff)) == luma.minus_spec(diff));
        let (a, b) = (
            gamma_ratio(true, luma.minus_spec(diff)),
            gamma_ratio(true, luma.plus_spec(diff)),
        );
        assert(a.plus_spec(b) == b.plus_spec(a));
    }
}

} // verus!
