//! Means lie among what they are taken over, charts show all of their points, and quality
//! falls with the distance.

use crate::amount::{log_raw, Amount, Fixed, FIXED_LOG10_2, FIXED_ONE};
use crate::cfl::rounded_away;
use crate::cfl_laws::law_rounding_finds_the_nearest;
use crate::entropy_laws::lemma_log_monotone;
use crate::fixed_laws::lemma_times_grows;
use crate::metrics::{bounds_of, box_of, mean_of, summed, ChartPoint};
use crate::series::{blended, raw_jpeg_quality, shade, whole_quality};
use vstd::prelude::*;

verus! {

proof fn lemma_sum_bounds(xs: Seq<Fixed>, n: int, lo: int, hi: int)
    requires
        0 <= n <= xs.len() <= 0x100_0000,
        -0x1_0000_0000 <= lo <= hi <= 0x1_0000_0000,
        forall|i: int| 0 <= i < xs.len() ==> lo <= (#[trigger] xs[i]).raw <= hi,
    ensures
        n * lo <= summed(xs, n).raw <= n * hi,
    decreases n,
{
    assert(-(n * 0x1_0000_0000) <= n * lo && n * hi <= n * 0x1_0000_0000) by (nonlinear_arith)
        requires
            -0x1_0000_0000 <= lo,
            hi <= 0x1_0000_0000,
            0 <= n,
    ;
    if n > 0 {
        lemma_sum_bounds(xs, n - 1, lo, hi);
        assert((n - 1) * lo + lo == n * lo && (n - 1) * hi + hi == n * hi) by (nonlinear_arith);
    }
}

/// A mean lies between the smallest and the largest of what it is taken over; the mean of
/// equal amounts is that amount.
pub proof fn law_mean_lies_within(xs: Seq<Fixed>, lo: int, hi: int)
    requires
        0 < xs.len() <= 0x100_0000,
        -0x1_0000_0000 <= lo <= hi <= 0x1_0000_0000,
        forall|i: int| 0 <= i < xs.len() ==> lo <= (#[trigger] xs[i]).raw <= hi,
    ensures
        lo <= mean_of(xs).raw <= hi,
{
    let n = xs.len() as int;
    lemma_sum_bounds(xs, n, lo, hi);
    let s = summed(xs, n).raw as int;
    assert(-(n * 0x1_0000_0000) <= n * lo && n * hi <= n * 0x1_0000_0000) by (nonlinear_arith)
        requires
            -0x1_0000_0000 <= lo,
            hi <= 0x1_0000_0000,
            0 <= n,
    ;
    assert(Fixed::ratio_spec(n as i64, 1).raw == n * 65536);
    let d = n * 65536;
    let m = s * 65536;
    assert(s >= 0 ==> lo <= m / d <= hi) by (nonlinear_arith)
        requires
            n * lo <= s <= n * hi,
            d == n * 65536,
            m == s * 65536,
            n > 0,
    ;
    assert(s < 0 ==> lo <= -((-m) / d) <= hi) by (nonlinear_arith)
        requires
            n * lo <= s <= n * hi,
            d == n * 65536,
            m == s * 65536,
            n > 0,
    ;
}

/// In which order amounts are listed does not change their sum.
pub proof fn law_sums_do_not_depend_on_the_order(xs: Seq<Fixed>, i: int, n: int)
    requires
        0 <= i,
        i + 1 < n <= xs.len() <= 0x100_0000,
        forall|k: int|
            0 <= k < xs.len() ==> -0x1_0000_0000 <= (#[trigger] xs[k]).raw <= 0x1_0000_0000,
    ensures
        summed(xs.update(i, xs[i + 1]).update(i + 1, xs[i]), n) == summed(xs, n),
    decreases n,
{
    let ys = xs.update(i, xs[i + 1]).update(i + 1, xs[i]);
    if n == i + 2 {
        lemma_sum_bounds(xs, i, -0x1_0000_0000, 0x1_0000_0000);
        lemma_same_head(xs, ys, i);
        reveal_with_fuel(summed, 3);
    } else {
        law_sums_do_not_depend_on_the_order(xs, i, n - 1);
    }
}

proof fn lemma_same_head(xs: Seq<Fixed>, ys: Seq<Fixed>, n: int)
    requires
        forall|k: int| 0 <= k < n ==> #[trigger] xs[k] == ys[k],
    ensures
        summed(xs, n) == summed(ys, n),
    decreases n,
{
    if n > 0 {
        lemma_same_head(xs, ys, n - 1);
    }
}

proof fn lemma_box(points: Seq<ChartPoint<Fixed>>, n: int)
    requires
        0 < n <= points.len(),
    ensures
        forall|i: int|
            0 <= i < n ==> box_of(points, n).xmin.raw <= (#[trigger] points[i]).x.raw <= box_of(
                points,
                n,
            ).xmax.raw && box_of(points, n).ymin.raw <= points[i].y.raw <= box_of(
                points,
                n,
            ).ymax.raw,
        exists|i: int| 0 <= i < n && box_of(points, n).xmin == (#[trigger] points[i]).x,
        exists|i: int| 0 <= i < n && box_of(points, n).xmax == (#[trigger] points[i]).x,
        exists|i: int| 0 <= i < n && box_of(points, n).ymin == (#[trigger] points[i]).y,
        exists|i: int| 0 <= i < n && box_of(points, n).ymax == (#[trigger] points[i]).y,
    decreases n,
{
    if n > 1 {
        lemma_box(points, n - 1);
    }
    let last = points[n - 1];
}

/// A chart shows all of its points: each lies within the bounds, with some room to either
/// side, as far as the scores go.
pub proof fn law_charts_show_their_points(
    points: Seq<ChartPoint<Fixed>>,
    low: Fixed,
    high: Fixed,
    i: int,
)
    requires
        0 <= i < points.len(),
        forall|k: int|
            0 <= k < points.len() ==> -0x1_0000_0000 <= (#[trigger] points[k]).x.raw
                <= 0x1_0000_0000 && -0x1_0000_0000 <= points[k].y.raw <= 0x1_0000_0000,
    ensures
        ({
            let b = bounds_of(points, low, high);
            let p = points[i];
            &&& b.xmin.raw <= p.x.raw <= b.xmax.raw
            &&& low.raw <= p.y.raw ==> b.ymin.raw <= p.y.raw
            &&& p.y.raw <= high.raw ==> p.y.raw <= b.ymax.raw
            &&& low.raw <= b.ymin.raw
            &&& b.ymax.raw <= high.raw
        }),
{
    let n = points.len() as int;
    lemma_box(points, n);
    let b = box_of(points, n);
    assert(Fixed::ratio_spec(1, 1_000_000).raw == 0);
    assert(Fixed::ratio_spec(1, 20).raw == 3276);
    assert(Fixed::ratio_spec(2, 25).raw == 5242);
    assert(b.xmin.raw <= points[i].x.raw <= b.xmax.raw);
    let (dx, dy) = (b.xmax.minus_spec(b.xmin), b.ymax.minus_spec(b.ymin));
    assert(dx.raw >= 0 && dy.raw >= 0);
    lemma_times_grows(Fixed { raw: 0 }, dx, Fixed { raw: 3276 });
    lemma_times_grows(Fixed { raw: 0 }, dy, Fixed { raw: 5242 });
    assert(dx.times_spec(Fixed { raw: 3276 }).raw >= 0);
}

/// A chart without points shows the scores there can be.
pub proof fn law_empty_charts_show_the_scores(
    points: Seq<ChartPoint<Fixed>>,
    low: Fixed,
    high: Fixed,
)
    requires
        points.len() == 0,
    ensures
        ({
            let b = bounds_of(points, low, high);
            b.ymin == low && b.ymax == high && b.xmin.raw < b.xmax.raw
        }),
{
    assert(Fixed::ratio_spec(1, 1).raw == 65536);
}

/// Bits per pixel times the pixels are the bits of the file.
pub proof fn law_rate_times_pixels_is_the_file(bytes: u64, pixels: u64)
    requires
        bytes <= 0x100_0000_0000,
        0 < pixels <= 0x100_0000_0000,
    ensures
        ({
            let rate = Fixed::ratio_spec(bytes as i64, 1).times_spec(
                Fixed::ratio_spec(8, 1),
            ).over_spec(Fixed::ratio_spec(pixels as i64, 1)).raw as int;
            rate * pixels <= 8 * bytes * 65536 < (rate + 1) * pixels
        }),
{
    assert(Fixed::ratio_spec(bytes as i64, 1).raw == bytes * 65536);
    assert(Fixed::ratio_spec(pixels as i64, 1).raw == pixels * 65536);
    assert(Fixed::ratio_spec(8, 1).raw == 524288);
    let top = 8 * bytes * 65536;
    let (n, d) = (top * 65536, pixels * 65536);
    assert(Fixed::ratio_spec(bytes as i64, 1).times_spec(Fixed::ratio_spec(8, 1)).raw == top);
    let q = n / d;
    assert(q * d <= n < (q + 1) * d && q <= n) by (nonlinear_arith)
        requires
            q == n / d,
            0 <= n,
            0 < d,
    ;
    let p = pixels as int;
    assert(q * p <= top < (q + 1) * p) by (nonlinear_arith)
        requires
            q * d <= n < (q + 1) * d,
            d == p * 65536,
            n == top * 65536,
    ;
    assert(q <= top) by (nonlinear_arith)
        requires
            q * p <= top,
            p >= 1,
            0 <= q,
    ;
}

/// Whole qualities follow the exact ones, and lie between one and a hundred.
pub proof fn law_whole_quality_rises(p: Fixed, q: Fixed)
    requires
        -0x4000_0000_0000_0000 <= p.raw <= q.raw <= 0x4000_0000_0000_0000,
    ensures
        1 <= whole_quality(p) <= whole_quality(q) <= 100,
        65536 <= p.raw <= 6553600 ==> -32768 <= whole_quality(p) * 65536 - p.raw <= 32768,
{
    assert(Fixed::ratio_spec(1, 1).raw == 65536);
    assert(Fixed::ratio_spec(100, 1).raw == 6553600);
    law_rounding_finds_the_nearest(p);
    law_rounding_finds_the_nearest(q);
    let (a, b) = (rounded_away(p).raw as int, rounded_away(q).raw as int);
    assert(a <= b) by {
        assert(a % 65536 == 0 && b % 65536 == 0);
        if a > b {
            assert(a >= b + 65536);
            assert(p.raw as int % 65536 == 32768);
            assert(q.raw == p.raw);
        }
    }
    assert(a % 65536 == 0);
}

/// The AV1 quality is the hundred at no distance, falls by ten for each unit of it and
/// ends at one.
pub proof fn law_av1_quality_falls_with_the_distance(near: Fixed, far: Fixed)
    requires
        0 <= near.raw <= far.raw <= 0x1_0000_0000,
    ensures
        ({
            let quality = |d: Fixed|
                whole_quality(
                    Fixed::ratio_spec(100, 1).minus_spec(Fixed::ratio_spec(10, 1).times_spec(d)),
                );
            &&& quality(far) <= quality(near)
            &&& near.raw == 0 ==> quality(near) == 100
            &&& far.raw >= 10 * FIXED_ONE ==> quality(far) == 1
            &&& near.raw as int % 65536 == 0 && near.raw < 10 * FIXED_ONE ==> quality(near) == 100
                - 10 * (near.raw / 65536)
        }),
{
    assert(Fixed::ratio_spec(100, 1).raw == 6553600);
    assert(Fixed::ratio_spec(10, 1).raw == 655360);
    let exact = |d: Fixed|
        Fixed::ratio_spec(100, 1).minus_spec(Fixed::ratio_spec(10, 1).times_spec(d));
    assert(exact(near).raw == 6553600 - 10 * near.raw);
    assert(exact(far).raw == 6553600 - 10 * far.raw);
    law_whole_quality_rises(exact(far), exact(near));
    law_whole_quality_rises(exact(far), exact(far));
    law_whole_quality_rises(exact(near), exact(near));
    if far.raw >= 655360 {
        law_whole_quality_rises(exact(far), Fixed { raw: 65536 });
    }
    if near.raw as int % 65536 == 0 {
        let k = near.raw as int / 65536;
        assert(exact(near).raw == (100 - 10 * k) * 65536);
    }
}

/// Among distances of one kind, the JPEG quality falls with the distance: up to a
/// twentieth it is a hundred, then falls by the logarithm to the tenth, in a straight line
/// from one to the next limit, and by the logarithm again beyond.
pub proof fn law_jpeg_quality_falls_with_the_distance(near: Fixed, far: Fixed)
    requires
        near.raw <= far.raw <= 0x1_0000_0000,
    ensures
        near.raw <= Fixed::ratio_spec(1, 20).raw ==> raw_jpeg_quality(near).raw == 100 * FIXED_ONE,
        Fixed::ratio_spec(1, 20).raw < near.raw && far.raw <= Fixed::ratio_spec(1, 10).raw
            ==> raw_jpeg_quality(far).raw <= raw_jpeg_quality(near).raw <= 100 * FIXED_ONE,
        FIXED_ONE < near.raw && far.raw <= Fixed::ratio_spec(32, 5).raw ==> raw_jpeg_quality(
            far,
        ).raw <= raw_jpeg_quality(near).raw <= 91 * FIXED_ONE,
        Fixed::ratio_spec(32, 5).raw < near.raw ==> raw_jpeg_quality(far).raw <= raw_jpeg_quality(
            near,
        ).raw <= 30 * FIXED_ONE,
{
    assert(Fixed::ratio_spec(100, 1).raw == 6553600);
    assert(Fixed::ratio_spec(1, 20).raw == 3276);
    assert(Fixed::ratio_spec(1, 10).raw == 6553);
    assert(Fixed::ratio_spec(1, 1).raw == 65536);
    assert(Fixed::ratio_spec(32, 5).raw == 419430);
    if 3276 < near.raw && far.raw <= 6553 {
        let (a, b) = ((near.raw * 65536) / 3276, (far.raw * 65536) / 3276);
        assert(65536 <= a <= b <= 131092);
        lemma_log_monotone(a, b);
        lemma_log_monotone(65536, a);
        lemma_log_small(b);
        assert(log_raw(65536) >= 0);
    }
    if 65536 < near.raw && far.raw <= 419430 {
        assert(Fixed::ratio_spec(9, 100).raw == 5898);
        let (x, y) = (near.raw - 6553, far.raw - 6553);
        assert((x * 65536) / 5898 <= (y * 65536) / 5898);
    }
    if 419430 < near.raw {
        assert(Fixed::ratio_spec(156, 25).raw == 408944);
        assert(Fixed::ratio_spec(25, 4).raw == 409600);
        assert(Fixed::ratio_spec(30, 1).raw == 1966080);
        assert(Fixed::ratio_spec(5, 1).raw == 327680);
        assert(Fixed::ratio_spec(5, 2).raw == 163840);
        lemma_log_small(163840);
        let scale = Fixed::ratio_spec(5, 2).ln_spec();
        assert(scale.raw > 0);
        let (u, v) = (
            ((near.raw - 408944) * 409600) / 65536,
            ((far.raw - 408944) * 409600) / 65536,
        );
        assert(65536 <= u <= v <= 0x8_0000_0000);
        lemma_log_monotone(u, v);
        lemma_log_monotone(65536, u);
        lemma_log_small(v);
        let (c, d) = (
            (5 * ((log_raw(u) * 45426) / 65536) * 65536),
            (5 * ((log_raw(v) * 45426) / 65536) * 65536),
        );
        let s = scale.raw as int;
        assert(0 <= c / s <= d / s <= d) by (nonlinear_arith)
            requires
                0 <= c <= d,
                0 < s,
        ;
    }
}

/// Between a tenth and one the JPEG quality rises by the same amount whenever the distance
/// halves: by nine times the decimal logarithm of two. It is ninety at least, and at one.
pub proof fn law_jpeg_quality_rises_as_the_distance_halves(d: Fixed, e: Fixed)
    requires
        e.raw == 2 * d.raw,
        Fixed::ratio_spec(1, 10).raw < d.raw,
        e.raw <= FIXED_ONE,
    ensures
        ({
            let rise = raw_jpeg_quality(d).raw - raw_jpeg_quality(e).raw;
            9 * FIXED_LOG10_2 - 9 <= rise <= 9 * FIXED_LOG10_2 + 9
        }),
        90 * FIXED_ONE <= raw_jpeg_quality(e).raw <= 100 * FIXED_ONE,
        e.raw == FIXED_ONE ==> raw_jpeg_quality(e).raw == 90 * FIXED_ONE,
{
    assert(Fixed::ratio_spec(1, 20).raw == 3276);
    assert(Fixed::ratio_spec(1, 10).raw == 6553);
    assert(Fixed::ratio_spec(1, 1).raw == 65536);
    assert(Fixed::ratio_spec(9, 1).raw == 589824);
    assert(Fixed::ratio_spec(99, 1).raw == 6488064);
    lemma_log_below_one(d.raw as int);
    lemma_log_below_one(e.raw as int);
    assert(log_raw(d.raw as int) == log_raw(e.raw as int) - 65536);
    let (a, b) = (d.log10_spec().raw as int, e.log10_spec().raw as int);
    assert(-1 <= b - a - 19728 <= 1);
}

proof fn lemma_log_below_one(x: int)
    requires
        6553 < x <= 65536,
    ensures
        -262144 <= log_raw(x) <= 0,
        x < 65536 ==> log_raw(x) == log_raw(2 * x) - 65536,
        x == 65536 ==> log_raw(x) == 0,
{
    reveal_with_fuel(log_raw, 6);
}

proof fn lemma_log_small(x: int)
    requires
        65536 <= x,
    ensures
        0 <= log_raw(x) <= x,
        x >= 131072 ==> log_raw(x) >= 65536,
    decreases x,
{
    if x >= 131072 {
        lemma_log_small(x / 2);
    }
}

/// Shades go from the light one to the dark one: the first is light, the last dark, and
/// none is darker than the one after it.
pub proof fn law_shades_darken(k: int, l: int, n: int, light: u8, dark: u8)
    requires
        0 <= k <= l < n <= 1000,
        2 <= n,
        dark <= light,
    ensures
        blended(light, dark, shade::<Fixed>(0, n)) == light,
        blended(light, dark, shade::<Fixed>(n - 1, n)) == dark,
        dark <= blended(light, dark, shade::<Fixed>(l, n)) <= blended(
            light,
            dark,
            shade::<Fixed>(k, n),
        ) <= light,
{
    lemma_shade(0, n);
    lemma_shade(n - 1, n);
    lemma_shade(k, n);
    lemma_shade(l, n);
    let m = n - 1;
    assert((k * 65536) / m <= (l * 65536) / m) by (nonlinear_arith)
        requires
            0 <= k <= l,
            m > 0,
    ;
    lemma_blend(light, dark, shade::<Fixed>(0, n));
    lemma_blend(light, dark, shade::<Fixed>(n - 1, n));
    lemma_blend(light, dark, shade::<Fixed>(k, n));
    lemma_blend(light, dark, shade::<Fixed>(l, n));
    let c = light - dark;
    let (t, u) = (shade::<Fixed>(k, n).raw as int, shade::<Fixed>(l, n).raw as int);
    assert(c * t <= c * u) by (nonlinear_arith)
        requires
            0 <= c,
            t <= u,
    ;
}

proof fn lemma_shade(k: int, n: int)
    requires
        0 <= k < n <= 1000,
        2 <= n,
    ensures
        shade::<Fixed>(k, n).raw == (k * 65536) / (n - 1),
        0 <= shade::<Fixed>(k, n).raw <= 65536,
        k == 0 ==> shade::<Fixed>(k, n).raw == 0,
        k == n - 1 ==> shade::<Fixed>(k, n).raw == 65536,
{
    assert(Fixed::ratio_spec(k as i64, 1).raw == k * 65536);
    assert(Fixed::ratio_spec(n as i64, 1).raw == n * 65536);
    assert(Fixed::ratio_spec(1, 1).raw == 65536);
    let m = n - 1;
    assert((k * 65536 * 65536) / (m * 65536) == (k * 65536) / m && 0 <= (k * 65536) / m <= 65536
        && (k == m ==> (k * 65536) / m == 65536) && (k == 0 ==> (k * 65536) / m == 0))
        by (nonlinear_arith)
        requires
            0 <= k <= m,
            0 < m,
    ;
}

proof fn lemma_blend(light: u8, dark: u8, t: Fixed)
    requires
        dark <= light,
        0 <= t.raw <= 65536,
    ensures
        blended(light, dark, t) == (light * 65536 - (light - dark) * t.raw + 32768) / 65536,
        dark <= blended(light, dark, t) <= light,
        t.raw == 0 ==> blended(light, dark, t) == light,
        t.raw == 65536 ==> blended(light, dark, t) == dark,
{
    let c = light - dark;
    let n = t.raw as int;
    assert(Fixed::ratio_spec(light as i64, 1).raw == light * 65536);
    assert(Fixed::ratio_spec((dark - light) as i64, 1).raw == -(c * 65536));
    assert(Fixed::ratio_spec(1, 2).raw == 32768);
    assert((-(c * 65536)) * n == -(c * n * 65536) && 0 <= c * n <= c * 65536 && (n == 0 ==> c * n
        == 0) && (n == 65536 ==> c * n == c * 65536)) by (nonlinear_arith)
        requires
            0 <= c,
            0 <= n <= 65536,
    ;
    let step = Fixed::ratio_spec((dark - light) as i64, 1).times_spec(t);
    assert(step.raw == -(c * n));
    let v = Fixed::ratio_spec(light as i64, 1).plus_spec(step);
    assert(v.raw == light * 65536 - c * n);
    let up = v.plus_spec(Fixed::ratio_spec(1, 2));
    assert(rounded_away(v).raw == (up.raw as int / 65536) * 65536);
}

} // verus!
