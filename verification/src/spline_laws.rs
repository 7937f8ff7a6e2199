//! What drawing and measuring splines is for: dots are round and fade out, and the
//! distance from a piece of a curve does not depend on how the plane is laid.

use crate::adaptive_quant::magnitude_spec;
use crate::amount::{floor_root, truncated_quotient, Amount, Fixed, FIXED_ONE};
use crate::fixed_laws::{
    lemma_floor_root, lemma_one_is_neutral, lemma_products_grow, lemma_square_of_opposite,
    lemma_times_grows, lemma_times_keeps_order, opposite,
};
use crate::spline::{
    angle, cosine, curvatures, drawn, error_function, frequencies_summed, held_between,
    intensity_at, negated, on_slope, pi_spec, ridge_strength, segment_distance, tiny_spec,
    Derivatives, RidgeLimits, Sample, Segment,
};
use vstd::prelude::*;

verus! {

/// The intensity of a dot depends on nothing but how far the pixel is from it: two pixels
/// with the same sum of the squared distances across and down see the same.
pub proof fn law_dots_are_round(
    s: Sample<Fixed>,
    t: Sample<Fixed>,
    dy: Fixed,
    ey: Fixed,
    x: int,
    z: int,
    amp: Fixed,
)
    requires
        s.inv_sigma == t.inv_sigma,
        ({
            let dx = Fixed::ratio_spec(x as i64, 1).minus_spec(s.x);
            let ex = Fixed::ratio_spec(z as i64, 1).minus_spec(t.x);
            dx.times_spec(dx).plus_spec(dy.times_spec(dy)) == ex.times_spec(ex).plus_spec(
                ey.times_spec(ey),
            )
        }),
    ensures
        intensity_at(s, dy, x, amp) == intensity_at(t, ey, z, amp),
{
}

/// Exchanging the distances across and down leaves the intensity of a dot as it is.
pub proof fn law_dots_are_the_same_across_and_down(
    s: Sample<Fixed>,
    t: Sample<Fixed>,
    dy: Fixed,
    ey: Fixed,
    x: int,
    z: int,
    amp: Fixed,
)
    requires
        s.inv_sigma == t.inv_sigma,
        Fixed::ratio_spec(x as i64, 1).minus_spec(s.x) == ey,
        Fixed::ratio_spec(z as i64, 1).minus_spec(t.x) == dy,
    ensures
        intensity_at(s, dy, x, amp) == intensity_at(t, ey, z, amp),
{
}

/// A dot looks the same to the left and to the right of it, and above and below.
pub proof fn law_dots_have_no_side(
    s: Sample<Fixed>,
    dy: Fixed,
    x: int,
    z: int,
    amp: Fixed,
)
    requires
        dy.raw > i64::MIN,
        0 <= x <= i32::MAX,
        0 <= z <= i32::MAX,
        -0x1_0000_0000_0000 <= s.x.raw <= 0x1_0000_0000_0000,
        65536 * (x + z) == 2 * s.x.raw,
    ensures
        intensity_at(s, opposite(dy), z, amp) == intensity_at(s, dy, x, amp),
{
    let dx = Fixed::ratio_spec(x as i64, 1).minus_spec(s.x);
    let ex = Fixed::ratio_spec(z as i64, 1).minus_spec(s.x);
    assert(Fixed::ratio_spec(x as i64, 1).raw == x * 65536);
    assert(Fixed::ratio_spec(z as i64, 1).raw == z * 65536);
    assert(ex.raw == -dx.raw);
    lemma_square_of_opposite(dx);
    lemma_square_of_opposite(dy);
    assert(ex == opposite(dx));
}

/// How far the chain of the error function has come at `a`.
spec fn chain(a: Fixed) -> Fixed {
    let d1 = a.times_spec(Fixed { raw: 5094 }).plus_spec(Fixed { raw: 13 });
    let d2 = d1.times_spec(a).plus_spec(Fixed { raw: 15212 });
    let d3 = d2.times_spec(a).plus_spec(Fixed { raw: 18207 });
    d3.times_spec(a).plus_spec(Fixed { raw: 65536 })
}

proof fn lemma_constants()
    ensures
        Fixed::ratio_spec(777_394_369, 10_000_000_000).raw == 5094,
        Fixed::ratio_spec(205_260_015, 1_000_000_000_000).raw == 13,
        Fixed::ratio_spec(232_120_216, 1_000_000_000).raw == 15212,
        Fixed::ratio_spec(277_820_801, 1_000_000_000).raw == 18207,
        Fixed::ratio_spec(1, 1).raw == 65536,
        Fixed::ratio_spec(1, 2).raw == 32768,
        Fixed::ratio_spec(35_355_339, 100_000_000).raw == 23170,
{
}

proof fn lemma_chain_grows(a: Fixed, b: Fixed)
    requires
        0 <= a.raw <= b.raw,
    ensures
        65536 <= chain(a).raw <= chain(b).raw,
{
    let c = Fixed { raw: 5094 };
    lemma_times_grows(a, b, c);
    let (a1, b1) = (
        a.times_spec(c).plus_spec(Fixed { raw: 13 }),
        b.times_spec(c).plus_spec(Fixed { raw: 13 }),
    );
    lemma_products_grow(a1, b1, a, b);
    let (a2, b2) = (
        a1.times_spec(a).plus_spec(Fixed { raw: 15212 }),
        b1.times_spec(b).plus_spec(Fixed { raw: 15212 }),
    );
    lemma_products_grow(a2, b2, a, b);
    let (a3, b3) = (
        a2.times_spec(a).plus_spec(Fixed { raw: 18207 }),
        b2.times_spec(b).plus_spec(Fixed { raw: 18207 }),
    );
    lemma_products_grow(a3, b3, a, b);
}

/// What is missing to one in the error function, by its chain.
spec fn missing(d: Fixed) -> Fixed {
    let inv = Fixed { raw: 65536 }.over_spec(d.times_spec(d));
    inv.times_spec(inv)
}

proof fn lemma_missing_falls(c: Fixed, d: Fixed)
    requires
        65536 <= c.raw <= d.raw,
    ensures
        0 <= missing(d).raw <= missing(c).raw <= 65536,
{
    let one = Fixed { raw: 65536 };
    lemma_products_grow(c, d, c, d);
    lemma_products_grow(one, c, one, c);
    lemma_one_is_neutral(one);
    let (x, y) = (c.times_spec(c), d.times_spec(d));
    assert(65536 <= x.raw <= y.raw);
    let (n, m) = (x.raw as int, y.raw as int);
    assert(0 <= (65536 * 65536int) / m <= (65536 * 65536int) / n <= 65536) by (nonlinear_arith)
        requires
            65536 <= n <= m,
    ;
    let (i, j) = (one.over_spec(x), one.over_spec(y));
    assert(0 <= j.raw <= i.raw <= 65536);
    lemma_products_grow(j, i, j, i);
    lemma_products_grow(i, one, i, one);
}

proof fn lemma_erf(x: Fixed)
    requires
        i64::MIN < x.raw,
    ensures
        x.raw >= 0 ==> error_function(x).raw == 65536 - missing(chain(x)).raw,
        x.raw <= 0 ==> error_function(x).raw == missing(chain(opposite(x))).raw - 65536,
        -65536 <= error_function(x).raw <= 65536,
        x.raw == 0 ==> error_function(x).raw == 0,
{
    lemma_constants();
    let a = magnitude_spec(x);
    lemma_chain_grows(a, a);
    lemma_missing_falls(chain(a), chain(a));
    let r = Fixed { raw: 65536 }.minus_spec(missing(chain(a)));
    assert(Fixed::ratio_spec(-1i64, 1).raw == -65536);
    assert(truncated_quotient(r.raw * -65536, 65536) == -r.raw);
    assert(negated(r).raw == -r.raw);
    assert(error_function(x) == if x.raw <= 0 {
        negated(r)
    } else {
        r
    });
    if x.raw == 0 {
        let zero = Fixed { raw: 0 };
        assert(chain(zero).raw == 65536) by {
            assert(zero.times_spec(Fixed { raw: 5094 }).raw == 0);
            let d1 = Fixed { raw: 13 };
            assert(d1.times_spec(zero).raw == 0);
        }
        assert(missing(Fixed { raw: 65536 }).raw == 65536);
        assert(a == zero);
    }
}

/// The error function is nothing at nothing, turns round with its argument, never falls,
/// and stays between minus one and one.
pub proof fn law_error_function_rises_from_minus_one_to_one(x: Fixed, y: Fixed)
    requires
        i64::MIN < x.raw <= y.raw,
    ensures
        error_function(Fixed::zero_spec()) == Fixed::zero_spec(),
        error_function(opposite(x)) == opposite(error_function(x)),
        -FIXED_ONE <= error_function(x).raw <= error_function(y).raw <= FIXED_ONE,
{
    lemma_erf(Fixed::zero_spec());
    lemma_erf(x);
    lemma_erf(y);
    lemma_erf(opposite(x));
    assert(opposite(opposite(x)) == x);
    let zero = Fixed { raw: 0 };
    if x.raw >= 0 {
        lemma_chain_grows(x, y);
        lemma_missing_falls(chain(x), chain(y));
    } else if y.raw <= 0 {
        lemma_chain_grows(opposite(y), opposite(x));
        lemma_missing_falls(chain(opposite(y)), chain(opposite(x)));
    } else {
        lemma_chain_grows(y, y);
        lemma_missing_falls(chain(y), chain(y));
        lemma_chain_grows(opposite(x), opposite(x));
        lemma_missing_falls(chain(opposite(x)), chain(opposite(x)));
    }
}

proof fn lemma_erf_point(a: Fixed, d1: i64, d2: i64, d3: i64, d4: i64, square: i64, inv: i64, r: i64)
    requires
        0 < a.raw <= 131072,
        0 <= d1 <= 1_000_000,
        0 <= d2 <= 1_000_000,
        0 <= d3 <= 1_000_000,
        0 < d4 <= 1_000_000,
        0 < square <= 1_000_000_000,
        0 <= inv <= 65536,
        d1 == a.raw * 5094 / 65536 + 13,
        d2 == d1 * a.raw / 65536 + 15212,
        d3 == d2 * a.raw / 65536 + 18207,
        d4 == d3 * a.raw / 65536 + 65536,
        square == d4 * d4 / 65536,
        inv == 4_294_967_296int / square as int,
        r == 65536 - inv * inv / 65536,
    ensures
        error_function(a).raw == r,
{
    lemma_erf(a);
    let n = a.raw as int;
    assert(0 <= d1 * n && 0 <= d2 * n && 0 <= d3 * n && 0 <= d4 * d4 && 0 <= inv * inv) by (nonlinear_arith)
        requires
            0 <= d1,
            0 <= d2,
            0 <= d3,
            0 <= d4,
            0 <= inv,
            0 <= n,
    ;
    let e1 = a.times_spec(Fixed { raw: 5094 }).plus_spec(Fixed { raw: 13 });
    assert(e1.raw == d1);
    let e2 = e1.times_spec(a).plus_spec(Fixed { raw: 15212 });
    assert(e2.raw == d2);
    let e3 = e2.times_spec(a).plus_spec(Fixed { raw: 18207 });
    assert(e3.raw == d3);
    assert(chain(a).raw == d4);
    assert(chain(a).times_spec(chain(a)).raw == square);
}

/// The error function is about 0.28 at a quarter, 0.52 at a half, 0.84 at one and 0.99 at
/// two, and so lies between those values in between: it reaches at least 0.27, 0.52, 0.84
/// and 0.99 from there on, and at most 0.28, 0.53, 0.85 and 0.995 up to there.
pub proof fn law_error_function_has_its_shape(x: Fixed)
    requires
        0 <= x.raw,
    ensures
        x.raw >= 16384 ==> error_function(x).raw >= Fixed::ratio_spec(27, 100).raw,
        x.raw <= 16384 ==> error_function(x).raw <= Fixed::ratio_spec(28, 100).raw,
        x.raw >= 32768 ==> error_function(x).raw >= Fixed::ratio_spec(52, 100).raw,
        x.raw <= 32768 ==> error_function(x).raw <= Fixed::ratio_spec(53, 100).raw,
        x.raw >= 65536 ==> error_function(x).raw >= Fixed::ratio_spec(84, 100).raw,
        x.raw <= 65536 ==> error_function(x).raw <= Fixed::ratio_spec(85, 100).raw,
        x.raw >= 131072 ==> error_function(x).raw >= Fixed::ratio_spec(99, 100).raw,
        x.raw <= 131072 ==> error_function(x).raw <= Fixed::ratio_spec(995, 1000).raw,
{
    lemma_erf_point(Fixed { raw: 16384 }, 1286, 15533, 22090, 71058, 77045, 55746, 18118);
    lemma_erf_point(Fixed { raw: 32768 }, 2560, 16492, 26453, 78762, 94657, 45374, 34122);
    lemma_erf_point(Fixed { raw: 65536 }, 5107, 20319, 38526, 104062, 165235, 25993, 55227);
    lemma_erf_point(Fixed { raw: 131072 }, 10201, 35614, 89435, 244406, 911472, 4712, 65198);
    lemma_above_or_below(x, Fixed { raw: 16384 });
    lemma_above_or_below(x, Fixed { raw: 32768 });
    lemma_above_or_below(x, Fixed { raw: 65536 });
    lemma_above_or_below(x, Fixed { raw: 131072 });
}

proof fn lemma_above_or_below(x: Fixed, y: Fixed)
    requires
        0 <= x.raw,
        0 <= y.raw,
    ensures
        x.raw <= y.raw ==> error_function(x).raw <= error_function(y).raw,
        x.raw >= y.raw ==> error_function(x).raw >= error_function(y).raw,
{
    if x.raw <= y.raw {
        law_error_function_rises_from_minus_one_to_one(x, y);
    }
    if x.raw >= y.raw {
        law_error_function_rises_from_minus_one_to_one(y, x);
    }
}

/// How far a pixel is from a dot, by what it is off across and down.
pub open spec fn radius(dx: Fixed, dy: Fixed) -> Fixed {
    dx.times_spec(dx).plus_spec(dy.times_spec(dy)).root_spec()
}

/// A distance across or down that occurs in a picture.
pub open spec fn in_picture(d: Fixed) -> bool {
    -0x40_0000_0000 <= d.raw <= 0x40_0000_0000
}

/// The distance of a pixel from a dot: nothing at the dot, no shorter where the pixel is
/// farther off across or down, between the longer side and the sum of both, and that side
/// itself where the other is nothing and the side whole.
pub proof fn law_radius_is_a_distance(dx: Fixed, dy: Fixed, ex: Fixed, ey: Fixed)
    requires
        in_picture(dx),
        in_picture(dy),
        in_picture(ex),
        in_picture(ey),
        magnitude_spec(dx).raw <= magnitude_spec(ex).raw,
        magnitude_spec(dy).raw <= magnitude_spec(ey).raw,
    ensures
        0 <= radius(dx, dy).raw <= radius(ex, ey).raw,
        radius(dx, dy).raw <= magnitude_spec(dx).raw + magnitude_spec(dy).raw,
        dx.raw as int % 65536 == 0 ==> magnitude_spec(dx).raw <= radius(dx, dy).raw,
        dx.raw as int % 65536 == 0 && dy.raw == 0 ==> radius(dx, dy) == magnitude_spec(dx),
{
    lemma_square(dx);
    lemma_square(dy);
    lemma_square(ex);
    lemma_square(ey);
    let (a, b) = (magnitude_spec(dx).raw as int, magnitude_spec(dy).raw as int);
    let (c, d) = (magnitude_spec(ex).raw as int, magnitude_spec(ey).raw as int);
    assert(a * a <= c * c && b * b <= d * d) by (nonlinear_arith)
        requires
            0 <= a <= c,
            0 <= b <= d,
    ;
    let n = dx.times_spec(dx).plus_spec(dy.times_spec(dy)).raw * 65536;
    let m = ex.times_spec(ex).plus_spec(ey.times_spec(ey)).raw * 65536;
    lemma_floor_root(n, m);
    lemma_floor_root(n, n);
    let r = floor_root(n);
    assert(n <= a * a + b * b);
    assert(r <= a + b) by (nonlinear_arith)
        requires
            0 <= r,
            0 <= a,
            0 <= b,
            r * r <= a * a + b * b,
    ;
    if dx.raw as int % 65536 == 0 {
        let k = a / 65536;
        assert(a == k * 65536);
        assert(a * a == (k * a) * 65536) by (nonlinear_arith)
            requires
                a == k * 65536,
        ;
        assert(a * a <= n);
        assert(a <= r) by (nonlinear_arith)
            requires
                0 <= a,
                0 <= r,
                a * a <= n,
                n < (r + 1) * (r + 1),
        ;
    }
}

proof fn lemma_square(d: Fixed)
    requires
        in_picture(d),
    ensures
        d.times_spec(d).raw == (magnitude_spec(d).raw * magnitude_spec(d).raw) / 65536,
        0 <= d.times_spec(d).raw <= 0x1000_0000_0000_0000,
        0 <= magnitude_spec(d).raw <= 0x40_0000_0000,
{
    let n = d.raw as int;
    let a = magnitude_spec(d).raw as int;
    assert(n * n == a * a) by (nonlinear_arith)
        requires
            a == n || a == -n,
    ;
    assert(0 <= a * a <= 0x40_0000_0000 * 0x40_0000_0000) by (nonlinear_arith)
        requires
            0 <= a <= 0x40_0000_0000,
    ;
}

/// What a dot can still show at a distance: what the error function is short of one where
/// the near edge of the pixel lies.
pub open spec fn most_left(r: Fixed, inv_sigma: Fixed) -> Fixed {
    Fixed::ratio_spec(1, 1).minus_spec(
        error_function(
            r.times_spec(Fixed::ratio_spec(1, 2)).minus_spec(
                Fixed::ratio_spec(35_355_339, 100_000_000),
            ).times_spec(inv_sigma),
        ),
    )
}

/// Dots fade out: the intensity at a pixel lies between nothing and what is left at its
/// distance, which does not grow when the pixel is farther off in either direction.
pub proof fn law_dots_fade_with_the_distance(
    s: Sample<Fixed>,
    dy: Fixed,
    ey: Fixed,
    x: int,
    amp: Fixed,
)
    requires
        0 <= x <= i32::MAX,
        in_picture(Fixed::ratio_spec(x as i64, 1).minus_spec(s.x)),
        in_picture(dy),
        in_picture(ey),
        magnitude_spec(dy).raw <= magnitude_spec(ey).raw,
        0 <= s.inv_sigma.raw <= 0x10_0000,
        0 <= amp.raw <= 0x1_0000_0000,
    ensures
        ({
            let dx = Fixed::ratio_spec(x as i64, 1).minus_spec(s.x);
            let near = most_left(radius(dx, dy), s.inv_sigma);
            let far = most_left(radius(dx, ey), s.inv_sigma);
            &&& 0 <= far.raw <= near.raw <= 2 * FIXED_ONE
            &&& 0 <= intensity_at(s, dy, x, amp).raw <= near.times_spec(amp).times_spec(near).raw
            &&& 0 <= intensity_at(s, ey, x, amp).raw <= far.times_spec(amp).times_spec(far).raw
            &&& far.times_spec(amp).times_spec(far).raw <= near.times_spec(amp).times_spec(near).raw
        }),
{
    let dx = Fixed::ratio_spec(x as i64, 1).minus_spec(s.x);
    law_radius_is_a_distance(dx, dy, dx, ey);
    law_radius_is_a_distance(dx, ey, dx, ey);
    lemma_intensity_below(s, dy, x, amp);
    lemma_intensity_below(s, ey, x, amp);
    lemma_constants();
    let (r, q) = (radius(dx, dy), radius(dx, ey));
    let half = Fixed { raw: 32768 };
    lemma_times_grows(r, q, half);
    let reach = Fixed { raw: 23170 };
    let (a, b) = (r.times_spec(half).minus_spec(reach), q.times_spec(half).minus_spec(reach));
    lemma_times_keeps_order(a, b, s.inv_sigma);
    let (u, v) = (a.times_spec(s.inv_sigma), b.times_spec(s.inv_sigma));
    lemma_edge_in_range(r, s.inv_sigma);
    law_error_function_rises_from_minus_one_to_one(u, v);
    let (near, far) = (most_left(r, s.inv_sigma), most_left(q, s.inv_sigma));
    lemma_products_grow(far, near, amp, amp);
    lemma_products_grow(far.times_spec(amp), near.times_spec(amp), far, near);
}

proof fn lemma_edge_in_range(r: Fixed, inv_sigma: Fixed)
    requires
        0 <= r.raw,
        0 <= inv_sigma.raw <= 0x10_0000,
    ensures
        i64::MIN < r.times_spec(Fixed { raw: 32768 }).minus_spec(Fixed { raw: 23170 }).times_spec(
            inv_sigma,
        ).raw,
        i64::MIN < r.times_spec(Fixed { raw: 32768 }).minus_spec(Fixed { raw: 23170 }).raw,
{
    let a = r.times_spec(Fixed { raw: 32768 }).minus_spec(Fixed { raw: 23170 });
    assert(a.raw >= -23170);
    let (n, z) = (a.raw as int, inv_sigma.raw as int);
    assert(n * z >= -23170 * 0x10_0000) by (nonlinear_arith)
        requires
            n >= -23170,
            0 <= z <= 0x10_0000,
    ;
}

proof fn lemma_intensity_below(s: Sample<Fixed>, dy: Fixed, x: int, amp: Fixed)
    requires
        0 <= x <= i32::MAX,
        in_picture(Fixed::ratio_spec(x as i64, 1).minus_spec(s.x)),
        in_picture(dy),
        0 <= s.inv_sigma.raw <= 0x10_0000,
        0 <= amp.raw <= 0x1_0000_0000,
    ensures
        ({
            let dx = Fixed::ratio_spec(x as i64, 1).minus_spec(s.x);
            let left = most_left(radius(dx, dy), s.inv_sigma);
            0 <= intensity_at(s, dy, x, amp).raw <= left.times_spec(amp).times_spec(left).raw
        }),
{
    let dx = Fixed::ratio_spec(x as i64, 1).minus_spec(s.x);
    lemma_constants();
    law_radius_is_a_distance(dx, dy, dx, dy);
    let r = radius(dx, dy);
    let half = r.times_spec(Fixed { raw: 32768 });
    lemma_times_grows(r, r, Fixed { raw: 32768 });
    let reach = Fixed { raw: 23170 };
    let (a, b) = (half.minus_spec(reach), half.plus_spec(reach));
    lemma_edge_in_range(r, s.inv_sigma);
    lemma_times_keeps_order(a, b, s.inv_sigma);
    let (u, v) = (a.times_spec(s.inv_sigma), b.times_spec(s.inv_sigma));
    law_error_function_rises_from_minus_one_to_one(u, v);
    let e = error_function(v).minus_spec(error_function(u));
    let left = most_left(r, s.inv_sigma);
    assert(0 <= e.raw <= left.raw);
    lemma_products_grow(e, left, amp, amp);
    lemma_products_grow(e.times_spec(amp), left.times_spec(amp), e, left);
}

/// In its middle a dot shows twice what the error function is at the edge of the pixel,
/// squared and scaled: as much to either side.
pub proof fn law_dots_show_both_sides_in_their_middle(s: Sample<Fixed>, x: int, amp: Fixed)
    requires
        0 <= x <= i32::MAX,
        s.x.raw == 65536 * x,
        0 <= s.inv_sigma.raw <= 0x10_0000,
    ensures
        ({
            let side = error_function(
                Fixed::ratio_spec(35_355_339, 100_000_000).times_spec(s.inv_sigma),
            );
            let both = side.plus_spec(side);
            &&& side.raw >= 0
            &&& intensity_at(s, Fixed::zero_spec(), x, amp) == both.times_spec(amp).times_spec(both)
        }),
{
    lemma_constants();
    let zero = Fixed { raw: 0 };
    assert(Fixed::ratio_spec(x as i64, 1).raw == x * 65536);
    law_radius_is_a_distance(zero, zero, zero, zero);
    assert(radius(zero, zero) == zero);
    let reach = Fixed { raw: 23170 };
    let near = zero.minus_spec(reach);
    let (n, z) = (23170int, s.inv_sigma.raw as int);
    assert((-n) * z == -(n * z) && 0 <= n * z <= 23170 * 0x10_0000) by (nonlinear_arith)
        requires
            n == 23170,
            0 <= z <= 0x10_0000,
    ;
    let edge = reach.times_spec(s.inv_sigma);
    assert(near.times_spec(s.inv_sigma) == opposite(edge));
    assert(zero.plus_spec(reach) == reach);
    law_error_function_rises_from_minus_one_to_one(zero, edge);
    law_error_function_rises_from_minus_one_to_one(edge, edge);
}

/// A dot that adds nothing to a plane leaves its row as it is.
pub proof fn law_dots_without_colour_leave_the_row(
    row: Seq<Fixed>,
    s: Sample<Fixed>,
    c: int,
    dy: Fixed,
    x0: int,
    amp: Fixed,
)
    requires
        0 <= c < 3,
        s.color@[c].raw == 0,
    ensures
        drawn(row, s, c, dy, x0, amp) == row,
{
    assert forall|x: int| 0 <= x < row.len() implies drawn(row, s, c, dy, x0, amp)[x] == row[x] by {
        let i = intensity_at(s, dy, x0 + x, amp);
        let n = i.raw as int;
        assert(n * 0 == 0);
        assert(i.times_spec(s.color@[c]).raw == 0);
    }
    assert(drawn(row, s, c, dy, x0, amp) =~= row);
}

/// The distance of a point from a segment does not change when the plane is turned over:
/// with both axes exchanged it is the same.
pub proof fn law_segment_distance_has_no_preferred_axis(px: Fixed, py: Fixed, s: Segment<Fixed>)
    ensures
        segment_distance(
            py,
            px,
            (Segment { x: s.y, y: s.x, dx: s.dy, dy: s.dx, len2: s.len2 }),
        ) == segment_distance(px, py, s),
{
}

/// A coordinate of a picture.
pub open spec fn on_canvas(v: Fixed) -> bool {
    -0x100_0000_0000 <= v.raw <= 0x100_0000_0000
}

/// Beyond its ends a segment is as far away as the end: before its start the squared
/// distance is that from the start, behind its end that from the end; and the start is no
/// distance from it.
pub proof fn law_segment_distance_at_the_ends(px: Fixed, py: Fixed, s: Segment<Fixed>)
    requires
        on_canvas(px),
        on_canvas(py),
        on_canvas(s.x),
        on_canvas(s.y),
        on_canvas(s.dx),
        on_canvas(s.dy),
        tiny_spec::<Fixed>().raw < s.len2.raw,
    ensures
        ({
            let along = px.minus_spec(s.x).times_spec(s.dx).plus_spec(
                py.minus_spec(s.y).times_spec(s.dy),
            );
            let apart = |ax: Fixed, ay: Fixed|
                px.minus_spec(ax).times_spec(px.minus_spec(ax)).plus_spec(
                    py.minus_spec(ay).times_spec(py.minus_spec(ay)),
                );
            &&& along.raw <= 0 ==> segment_distance(px, py, s) == apart(s.x, s.y)
            &&& along.raw >= s.len2.raw ==> segment_distance(px, py, s) == apart(
                s.x.plus_spec(s.dx),
                s.y.plus_spec(s.dy),
            )
            &&& px == s.x && py == s.y ==> segment_distance(px, py, s) == Fixed::zero_spec()
        }),
{
    let along = px.minus_spec(s.x).times_spec(s.dx).plus_spec(
        py.minus_spec(s.y).times_spec(s.dy),
    );
    assert(tiny_spec::<Fixed>().raw == 0);
    assert(Fixed::ratio_spec(1, 1).raw == 65536);
    let (n, d) = (along.raw as int, s.len2.raw as int);
    let zero = Fixed { raw: 0 };
    assert(zero.times_spec(s.dx) == zero && zero.times_spec(s.dy) == zero);
    lemma_one_is_neutral(s.dx);
    lemma_one_is_neutral(s.dy);
    if n <= 0 {
        assert((-n * 65536) / d >= 0) by (nonlinear_arith)
            requires
                n <= 0,
                d > 0,
        ;
        if n == 0 {
            assert(0int / d == 0) by (nonlinear_arith)
                requires
                    d > 0,
            ;
        }
        assert(truncated_quotient(n * 65536, d) <= 0);
        assert(held_between(along.over_spec(s.len2), zero, Fixed { raw: 65536 }) == zero);
    }
    if n >= d {
        assert((n * 65536) / d >= 65536) by (nonlinear_arith)
            requires
                n >= d,
                d > 0,
        ;
        assert(held_between(along.over_spec(s.len2), zero, Fixed { raw: 65536 }) == Fixed {
            raw: 65536,
        });
    }
    if px == s.x && py == s.y {
        assert(n == 0);
    }
}

/// A point of no length is measured from: the squared distance is that of the two points.
pub proof fn law_distance_from_a_point(px: Fixed, py: Fixed, s: Segment<Fixed>)
    requires
        s.len2.raw <= 0,
    ensures
        segment_distance(px, py, s) == px.minus_spec(s.x).times_spec(px.minus_spec(s.x)).plus_spec(
            py.minus_spec(s.y).times_spec(py.minus_spec(s.y)),
        ),
{
    assert(tiny_spec::<Fixed>().raw == 0);
    let zero = Fixed { raw: 0 };
    assert(zero.times_spec(s.dx) == zero && zero.times_spec(s.dy) == zero);
}

/// A curvature of a picture.
pub open spec fn gentle(v: Fixed) -> bool {
    -0x1_0000_0000 <= v.raw <= 0x1_0000_0000
}

proof fn lemma_halved_opposite(v: Fixed)
    requires
        -0x4_0000_0000 <= v.raw <= 0x4_0000_0000,
    ensures
        opposite(v).times_spec(Fixed { raw: 32768 }) == opposite(v.times_spec(Fixed { raw: 32768 })),
{
}

/// Turning the picture over its diagonal changes neither the curvatures nor the strength
/// of a ridge nor whether a pixel is on a slope.
pub proof fn law_ridges_have_no_preferred_axis(
    d: Derivatives<Fixed>,
    s: Fixed,
    lim: RidgeLimits<Fixed>,
)
    requires
        gentle(d.hxx),
        gentle(d.hyy),
        gentle(d.hxy),
    ensures
        ({
            let turned = Derivatives { hxx: d.hyy, hyy: d.hxx, hxy: d.hxy, gx: d.gy, gy: d.gx };
            &&& curvatures(turned) == curvatures(d)
            &&& ridge_strength(turned, s, lim) == ridge_strength(d, s, lim)
            &&& on_slope(turned, s) == on_slope(d, s)
        }),
{
    lemma_constants();
    let turned = Derivatives { hxx: d.hyy, hyy: d.hxx, hxy: d.hxy, gx: d.gy, gy: d.gx };
    let half = Fixed { raw: 32768 };
    let diff = d.hxx.minus_spec(d.hyy);
    lemma_halved_opposite(diff);
    assert(d.hyy.minus_spec(d.hxx) == opposite(diff));
    lemma_square_of_opposite(diff.times_spec(half));
    assert(curvatures(turned) == curvatures(d));
}

/// A dark ridge is as strong as a bright one: with the picture turned to its negative the
/// curvatures turn round and the strength stays, unless both are equally strong.
pub proof fn law_dark_and_bright_ridges_are_alike(
    d: Derivatives<Fixed>,
    s: Fixed,
    lim: RidgeLimits<Fixed>,
)
    requires
        gentle(d.hxx),
        gentle(d.hyy),
        gentle(d.hxy),
        magnitude_spec(curvatures(d).0).raw != magnitude_spec(curvatures(d).1).raw,
    ensures
        ({
            let negative = Derivatives {
                hxx: opposite(d.hxx),
                hyy: opposite(d.hyy),
                hxy: opposite(d.hxy),
                gx: d.gx,
                gy: d.gy,
            };
            &&& curvatures(negative).0 == opposite(curvatures(d).0)
            &&& curvatures(negative).1 == opposite(curvatures(d).1)
            &&& ridge_strength(negative, s, lim) == ridge_strength(d, s, lim)
        }),
{
    lemma_constants();
    let negative = Derivatives {
        hxx: opposite(d.hxx),
        hyy: opposite(d.hyy),
        hxy: opposite(d.hxy),
        gx: d.gx,
        gy: d.gy,
    };
    let half = Fixed { raw: 32768 };
    let sum = d.hxx.plus_spec(d.hyy);
    let diff = d.hxx.minus_spec(d.hyy);
    lemma_halved_opposite(sum);
    lemma_halved_opposite(diff);
    assert(negative.hxx.plus_spec(negative.hyy) == opposite(sum));
    assert(negative.hxx.minus_spec(negative.hyy) == opposite(diff));
    lemma_square_of_opposite(diff.times_spec(half));
    lemma_square_of_opposite(d.hxy);
    let e = diff.times_spec(half);
    assert(in_picture(e) && in_picture(d.hxy));
    law_radius_is_a_distance(e, d.hxy, e, d.hxy);
    let spread = e.times_spec(e).plus_spec(d.hxy.times_spec(d.hxy)).root_spec();
    assert(spread == radius(e, d.hxy));
    let mean = sum.times_spec(half);
    let (la, lb) = (mean.plus_spec(spread), mean.minus_spec(spread));
    let back = opposite(mean);
    assert(back.plus_spec(spread) == opposite(lb));
    assert(back.minus_spec(spread) == opposite(la));
}

/// The larger curvature comes first, and the two add up to twice the mean curvature.
pub proof fn law_the_larger_curvature_comes_first(d: Derivatives<Fixed>)
    requires
        gentle(d.hxx),
        gentle(d.hyy),
        gentle(d.hxy),
    ensures
        magnitude_spec(curvatures(d).1).raw <= magnitude_spec(curvatures(d).0).raw,
        -1 <= curvatures(d).0.raw + curvatures(d).1.raw - (d.hxx.raw + d.hyy.raw) <= 1,
{
    lemma_constants();
    let half = Fixed { raw: 32768 };
    let sum = d.hxx.plus_spec(d.hyy);
    let e = d.hxx.minus_spec(d.hyy).times_spec(half);
    assert(in_picture(e) && in_picture(d.hxy));
    law_radius_is_a_distance(e, d.hxy, e, d.hxy);
    let spread = e.times_spec(e).plus_spec(d.hxy.times_spec(d.hxy)).root_spec();
    assert(spread == radius(e, d.hxy));
    let mean = sum.times_spec(half);
    assert(-1 <= 2 * mean.raw - sum.raw <= 1);
}

/// The cosine of an angle up to a quarter turn.
spec fn first_quarter(x: Fixed) -> Fixed {
    let xs = x.times_spec(Fixed::ratio_spec(1, 4));
    let x2 = xs.times_spec(xs);
    let x4 = x2.times_spec(x2);
    let pre = x4.times_spec(Fixed::ratio_spec(6_960_438, 100_000_000)).plus_spec(
        x2.times_spec(Fixed::ratio_spec(-84_087_373i64, 100_000_000)).plus_spec(
            Fixed::ratio_spec(168_179_268, 100_000_000),
        ),
    );
    let s1 = pre.times_spec(pre).minus_spec(
        Fixed::ratio_spec(1_414_213_562_373_095, 1_000_000_000_000_000),
    );
    s1.times_spec(s1).minus_spec(Fixed::ratio_spec(1, 1))
}

proof fn lemma_cosine(x: Fixed)
    requires
        0 <= x.raw < 411774,
    ensures
        ({
            let near = if x.raw <= 205887 {
                x.raw as int
            } else {
                411774 - x.raw
            };
            &&& near < 102943 ==> cosine(x) == first_quarter((Fixed { raw: near as i64 }))
            &&& near >= 102943 ==> cosine(x).raw == -first_quarter(
                (Fixed { raw: (205887 - near) as i64 }),
            ).raw
        }),
{
    lemma_no_turn(x);
    lemma_constants();
    let pi = pi_spec::<Fixed>();
    assert(pi.raw == 205887);
    assert(Fixed::ratio_spec(2, 1).raw == 131072);
    let pi2 = pi.times_spec(Fixed { raw: 131072 });
    assert(pi2.raw == 411774);
    assert(pi.times_spec(Fixed { raw: 32768 }).raw == 102943);
    assert(Fixed { raw: 32768 }.over_spec(pi).raw == 10430);
    let near = if x.raw <= 205887 {
        x.raw as int
    } else {
        411774 - x.raw
    };
    let turns = x.times_spec(Fixed { raw: 10430 });
    let whole = turns.toward_zero_spec();
    let xmod = x.minus_spec(whole.times_spec(pi2));
    assert(xmod == x);
    let x_pi = xmod.lesser_spec(pi2.minus_spec(xmod));
    assert(x_pi.raw == near);
    let xh = Fixed {
        raw: (if near < 102943 {
            near
        } else {
            205887 - near
        }) as i64,
    };
    let s2 = first_quarter(xh);
    assert(cosine(x) == if near < 102943 {
        s2
    } else {
        negated(s2)
    });
    assert(s2.raw >= -65536) by {
        let xs = xh.times_spec(Fixed::ratio_spec(1, 4));
        let x2 = xs.times_spec(xs);
        let x4 = x2.times_spec(x2);
        let pre = x4.times_spec(Fixed::ratio_spec(6_960_438, 100_000_000)).plus_spec(
            x2.times_spec(Fixed::ratio_spec(-84_087_373i64, 100_000_000)).plus_spec(
                Fixed::ratio_spec(168_179_268, 100_000_000),
            ),
        );
        let s1 = pre.times_spec(pre).minus_spec(
            Fixed::ratio_spec(1_414_213_562_373_095, 1_000_000_000_000_000),
        );
        let n = s1.raw as int;
        assert(0 <= n * n) by (nonlinear_arith);
        assert(s1.times_spec(s1).raw >= 0);
    }
    assert(Fixed::ratio_spec(-1i64, 1).raw == -65536);
    assert(negated(s2).raw == -s2.raw);
}

/// The cosine turns round about a quarter turn, and is the same on the way back from a
/// half turn: an angle and what it lacks to a half turn have opposite cosines, one and what
/// it lacks to a whole turn the same.
pub proof fn law_cosine_mirrors_itself(x: Fixed)
    requires
        0 < x.raw,
    ensures
        ({
            let pi = pi_spec::<Fixed>();
            &&& 2 * x.raw < pi.raw - 1 ==> cosine(pi.minus_spec(x)).raw == -cosine(x).raw
            &&& x.raw < 2 * pi.raw ==> cosine(
                (Fixed { raw: (2 * pi.raw - x.raw) as i64 }),
            ) == cosine(x)
        }),
{
    let pi = pi_spec::<Fixed>();
    assert(pi.raw == 205887);
    if x.raw < 411774 {
        let back = Fixed { raw: (411774 - x.raw) as i64 };
        lemma_cosine(x);
        lemma_cosine(back);
        if 2 * x.raw < 205886 {
            lemma_cosine(pi.minus_spec(x));
        }
    }
}

proof fn lemma_no_turn(x: Fixed)
    requires
        0 <= x.raw < 411774,
    ensures
        ({
            let turns = x.times_spec((Fixed { raw: 10430 }));
            let t = turns.toward_zero_spec();
            &&& t.raw == 0
            &&& !turns.less_spec(t)
            &&& t.times_spec((Fixed { raw: 411774 })).raw == 0
        }),
{
    let turns = x.times_spec(Fixed { raw: 10430 });
    assert(0 <= turns.raw < 65536);
}

/// A curve with nothing but its first coefficient is the same at every position.
pub proof fn law_first_coefficient_alone_is_constant(
    dct: Seq<[Fixed; 4]>,
    t: Fixed,
    u: Fixed,
    c: int,
    n: int,
)
    requires
        0 <= c < 4,
        1 <= n <= 32,
        forall|k: int| 1 <= k < n ==> (#[trigger] dct[k])[c].raw == 0,
    ensures
        frequencies_summed(dct, t, c, n) == frequencies_summed(dct, u, c, n),
    decreases n,
{
    let zero = Fixed { raw: 0 };
    if n > 1 {
        law_first_coefficient_alone_is_constant(dct, t, u, c, n - 1);
        assert(dct[n - 1][c] == zero);
        let (a, b) = (cosine(angle(n - 1, t)), cosine(angle(n - 1, u)));
        assert(zero.times_spec(a).raw == 0 && zero.times_spec(b).raw == 0);
    } else {
        let step = pi_spec::<Fixed>().over_spec(Fixed::ratio_spec(32, 1));
        assert(Fixed::ratio_spec(0, 1).raw == 0);
        assert(zero.times_spec(step).raw == 0);
        let (a, b) = (
            t.plus_spec(Fixed::ratio_spec(1, 2)),
            u.plus_spec(Fixed::ratio_spec(1, 2)),
        );
        assert(zero.times_spec(a).raw == 0 && zero.times_spec(b).raw == 0);
        assert(angle(0, t) == zero && angle(0, u) == zero);
        reveal_with_fuel(frequencies_summed, 2);
    }
}

} // verus!
