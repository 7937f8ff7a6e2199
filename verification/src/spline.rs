//! Splines: finding ridges, measuring how far a point is from a curve, and drawing
//! one.

use crate::adaptive_quant::{magnitude, magnitude_spec};
use crate::amount::{Amount, OrderedAmount};
use vstd::prelude::*;

verus! {

/// Second and first derivatives of a smoothed plane at a pixel.
#[derive(Clone, Copy)]
pub struct Derivatives<A> {
    pub hxx: A,
    pub hyy: A,
    pub hxy: A,
    pub gx: A,
    pub gy: A,
}

/// The strongest ridge seen at a pixel so far.
#[derive(Clone, Copy)]
pub struct Ridge<A> {
    pub strength: A,
    /// Direction across the ridge.
    pub nx: A,
    pub ny: A,
    /// The smoothing at which it was seen.
    pub scale: A,
    /// -1 where the curvature across is positive, 1 elsewhere.
    pub polarity: i8,
    /// How far from the pixel the ridge lies.
    pub offset: A,
}

/// What a ridge is held to.
#[derive(Clone, Copy)]
pub struct RidgeLimits<A> {
    /// How much curvature along a ridge counts against it.
    pub along_penalty: A,
    /// Largest distance of a ridge from its pixel.
    pub max_offset: A,
}

/// The opposite of an amount.
pub open spec fn negated<A: Amount>(v: A) -> A {
    v.times_spec(A::ratio_spec(-1i64, 1))
}

fn negate<A: Amount>(v: A) -> (r: A)
    ensures
        r == negated(v),
{
    v.times(A::ratio(-1, 1))
}

/// The two curvatures at a pixel, the larger one first.
pub open spec fn curvatures<A: Amount>(d: Derivatives<A>) -> (A, A) {
    let half = A::ratio_spec(1, 2);
    let mean = d.hxx.plus_spec(d.hyy).times_spec(half);
    let diff = d.hxx.minus_spec(d.hyy).times_spec(half);
    let spread = diff.times_spec(diff).plus_spec(d.hxy.times_spec(d.hxy)).root_spec();
    let la = mean.plus_spec(spread);
    let lb = mean.minus_spec(spread);
    if magnitude_spec(lb).less_spec(magnitude_spec(la)) {
        (la, lb)
    } else {
        (lb, la)
    }
}

/// How strong the ridge at a pixel is.
pub open spec fn ridge_strength<A: Amount>(d: Derivatives<A>, s: A, lim: RidgeLimits<A>) -> A {
    let c = curvatures(d);
    magnitude_spec(c.0).minus_spec(
        magnitude_spec(c.1).times_spec(lim.along_penalty),
    ).greater_spec(A::zero_spec()).times_spec(s.times_spec(s))
}

/// A pixel is on a slope rather than on a ridge.
pub open spec fn on_slope<A: Amount>(d: Derivatives<A>, s: A) -> bool {
    let gradient = d.gx.times_spec(d.gx).plus_spec(d.gy.times_spec(d.gy)).root_spec();
    magnitude_spec(curvatures(d).0).times_spec(s.times_spec(s)).less_spec(
        gradient.times_spec(s),
    )
}

/// The amount below which a length is none.
pub open spec fn tiny_spec<A: Amount>() -> A {
    A::ratio_spec(1, 1_000_000_000_000)
}

/// Direction across the ridge at a pixel.
pub open spec fn across<A: Amount>(d: Derivatives<A>) -> (A, A) {
    let vy = curvatures(d).0.minus_spec(d.hxx);
    let norm = d.hxy.times_spec(d.hxy).plus_spec(vy.times_spec(vy)).root_spec();
    if norm.less_spec(tiny_spec()) {
        (A::ratio_spec(1, 1), A::zero_spec())
    } else {
        (d.hxy.over_spec(norm), vy.over_spec(norm))
    }
}

/// An amount held between two others.
pub open spec fn held_between<A: Amount>(v: A, low: A, high: A) -> A {
    let up = if v.less_spec(low) {
        low
    } else {
        v
    };
    if high.less_spec(up) {
        high
    } else {
        up
    }
}

fn hold_between<A: Amount>(v: A, low: A, high: A) -> (r: A)
    ensures
        r == held_between(v, low, high),
{
    let up: A = if v.less(low) {
        low
    } else {
        v
    };
    if high.less(up) {
        high
    } else {
        up
    }
}

/// How far from its pixel a ridge lies.
pub open spec fn ridge_offset<A: Amount>(d: Derivatives<A>, lim: RidgeLimits<A>) -> A {
    let big = curvatures(d).0;
    let n = across(d);
    let t = negated(d.gx.times_spec(n.0).plus_spec(d.gy.times_spec(n.1))).over_spec(big);
    if magnitude_spec(big).less_spec(tiny_spec()) {
        A::zero_spec()
    } else {
        held_between(t, A::zero_spec().minus_spec(lim.max_offset), lim.max_offset)
    }
}

/// A ridge at a pixel replaces the one seen before where it is stronger and the
/// pixel is not on a slope.
pub open spec fn ridge_after<A: Amount>(
    was: Ridge<A>,
    d: Derivatives<A>,
    s: A,
    lim: RidgeLimits<A>,
) -> Ridge<A> {
    let strength = ridge_strength(d, s, lim);
    if strength.at_most_spec(was.strength) || on_slope(d, s) {
        was
    } else {
        Ridge {
            strength,
            nx: across(d).0,
            ny: across(d).1,
            scale: s,
            polarity: if A::zero_spec().less_spec(curvatures(d).0) {
                -1i8
            } else {
                1
            },
            offset: ridge_offset(d, lim),
        }
    }
}

fn take_ridge<A: Amount>(was: Ridge<A>, d: Derivatives<A>, s: A, lim: &RidgeLimits<A>) -> (r: Ridge<
    A,
>)
    ensures
        r == ridge_after(was, d, s, *lim),
{
    let half: A = A::ratio(1, 2);
    let zero: A = A::zero();
    let tiny: A = A::ratio(1, 1_000_000_000_000);
    let mean: A = d.hxx.plus(d.hyy).times(half);
    let diff: A = d.hxx.minus(d.hyy).times(half);
    let spread: A = diff.times(diff).plus(d.hxy.times(d.hxy)).root();
    let la: A = mean.plus(spread);
    let lb: A = mean.minus(spread);
    let (big, small): (A, A) = if magnitude(lb).less(magnitude(la)) {
        (la, lb)
    } else {
        (lb, la)
    };
    let size: A = magnitude(big);
    let s2: A = s.times(s);
    let strength: A = size.minus(magnitude(small).times(lim.along_penalty)).greater(zero).times(s2);
    if strength.at_most(was.strength) {
        return was;
    }
    let gradient: A = d.gx.times(d.gx).plus(d.gy.times(d.gy)).root();
    if size.times(s2).less(gradient.times(s)) {
        return was;
    }
    let vy: A = big.minus(d.hxx);
    let norm: A = d.hxy.times(d.hxy).plus(vy.times(vy)).root();
    let (nx, ny): (A, A) = if norm.less(tiny) {
        (A::ratio(1, 1), zero)
    } else {
        (d.hxy.over(norm), vy.over(norm))
    };
    let offset: A = if size.less(tiny) {
        zero
    } else {
        hold_between(
            negate(d.gx.times(nx).plus(d.gy.times(ny))).over(big),
            zero.minus(lim.max_offset),
            lim.max_offset,
        )
    };
    let polarity: i8 = if zero.less(big) {
        -1
    } else {
        1
    };
    Ridge { strength, nx, ny, scale: s, polarity, offset }
}

/// Updates the ridges of a row with what is seen at the smoothing `s`.
pub fn spline_ridge_row<A: Amount>(
    s: A,
    derivatives: &[Derivatives<A>],
    row: &mut Vec<Ridge<A>>,
    lim: &RidgeLimits<A>,
)
    requires
        derivatives@.len() == old(row)@.len(),
    ensures
        final(row)@ == Seq::new(
            old(row)@.len(),
            |i: int| ridge_after(old(row)@[i], derivatives@[i], s, *lim),
        ),
{
    let ghost first = row@;
    let mut i: usize = 0;
    while i < derivatives.len()
        invariant
            i <= derivatives@.len(),
            row@.len() == derivatives@.len(),
            first.len() == derivatives@.len(),
            forall|k: int|
                0 <= k < i ==> #[trigger] row@[k] == ridge_after(first[k], derivatives@[k], s, *lim),
            forall|k: int| i <= k < row@.len() ==> #[trigger] row@[k] == first[k],
        decreases derivatives@.len() - i,
    {
        let now: Ridge<A> = take_ridge(row[i], derivatives[i], s, lim);
        row.set(i, now);
        i += 1;
    }
    assert(row@ =~= Seq::new(
        first.len(),
        |k: int| ridge_after(first[k], derivatives@[k], s, *lim),
    ));
}

/// The ratio of a circle's circumference to its diameter.
pub open spec fn pi_spec<A: Amount>() -> A {
    A::ratio_spec(3_141_592_653_589_793, 1_000_000_000_000_000)
}

/// The largest whole amount that is not above `v`.
pub open spec fn floored<A: Amount>(v: A) -> A {
    let t = v.toward_zero_spec();
    if v.less_spec(t) {
        t.minus_spec(A::ratio_spec(1, 1))
    } else {
        t
    }
}

/// The cosine as it is approximated when a spline is decoded.
pub open spec fn cosine<A: Amount>(x: A) -> A {
    let pi = pi_spec::<A>();
    let pi2 = pi.times_spec(A::ratio_spec(2, 1));
    let half_pi = pi.times_spec(A::ratio_spec(1, 2));
    let periods = floored(x.times_spec(A::ratio_spec(1, 2).over_spec(pi)));
    let xmod = x.minus_spec(periods.times_spec(pi2));
    let x_pi = xmod.lesser_spec(pi2.minus_spec(xmod));
    let above = half_pi.at_most_spec(x_pi);
    let xh = if above {
        pi.minus_spec(x_pi)
    } else {
        x_pi
    };
    let xs = xh.times_spec(A::ratio_spec(1, 4));
    let x2 = xs.times_spec(xs);
    let x4 = x2.times_spec(x2);
    let pre = x4.times_spec(A::ratio_spec(6_960_438, 100_000_000)).plus_spec(
        x2.times_spec(A::ratio_spec(-84_087_373i64, 100_000_000)).plus_spec(
            A::ratio_spec(168_179_268, 100_000_000),
        ),
    );
    let s1 = pre.times_spec(pre).minus_spec(
        A::ratio_spec(1_414_213_562_373_095, 1_000_000_000_000_000),
    );
    let s2 = s1.times_spec(s1).minus_spec(A::ratio_spec(1, 1));
    if above {
        negated(s2)
    } else {
        s2
    }
}

/// Approximates the cosine.
pub fn fast_cos<A: Amount>(x: A) -> (r: A)
    ensures
        r == cosine(x),
{
    let pi: A = A::ratio(3_141_592_653_589_793, 1_000_000_000_000_000);
    let pi2: A = pi.times(A::ratio(2, 1));
    let half_pi: A = pi.times(A::ratio(1, 2));
    let turns: A = x.times(A::ratio(1, 2).over(pi));
    let whole: A = turns.toward_zero();
    let periods: A = if turns.less(whole) {
        whole.minus(A::ratio(1, 1))
    } else {
        whole
    };
    let xmod: A = x.minus(periods.times(pi2));
    let x_pi: A = xmod.lesser(pi2.minus(xmod));
    let above: bool = half_pi.at_most(x_pi);
    let xh: A = if above {
        pi.minus(x_pi)
    } else {
        x_pi
    };
    let xs: A = xh.times(A::ratio(1, 4));
    let x2: A = xs.times(xs);
    let x4: A = x2.times(x2);
    let pre: A = x4.times(A::ratio(6_960_438, 100_000_000)).plus(
        x2.times(A::ratio(-84_087_373, 100_000_000)).plus(A::ratio(168_179_268, 100_000_000)),
    );
    let s1: A = pre.times(pre).minus(A::ratio(1_414_213_562_373_095, 1_000_000_000_000_000));
    let s2: A = s1.times(s1).minus(A::ratio(1, 1));
    if above {
        negate(s2)
    } else {
        s2
    }
}

/// The angle of frequency `k` at the position `t`.
pub open spec fn angle<A: Amount>(k: int, t: A) -> A {
    A::ratio_spec(k as i64, 1).times_spec(
        pi_spec::<A>().over_spec(A::ratio_spec(32, 1)),
    ).times_spec(t.plus_spec(A::ratio_spec(1, 2)))
}

/// Sum of the leading `n` frequencies of channel `c` at the position `t`.
pub open spec fn frequencies_summed<A: Amount>(dct: Seq<[A; 4]>, t: A, c: int, n: int) -> A
    decreases n,
{
    if n <= 0 {
        A::zero_spec()
    } else {
        frequencies_summed(dct, t, c, n - 1).plus_spec(
            dct[n - 1][c].times_spec(cosine(angle(n - 1, t))),
        )
    }
}

/// Evaluates four channels of thirty-two frequencies between their nodes.
pub fn continuous_idct<A: Amount>(dct: &[[A; 4]; 32], t: A) -> (r: [A; 4])
    ensures
        forall|c: int| 0 <= c < 4 ==> #[trigger] r@[c] == frequencies_summed(dct@, t, c, 32),
{
    let step: A = A::ratio(3_141_592_653_589_793, 1_000_000_000_000_000).over(A::ratio(32, 1));
    let place: A = t.plus(A::ratio(1, 2));
    let mut sums: [A; 4] = [A::zero(); 4];
    let mut k: usize = 0;
    while k < 32
        invariant
            k <= 32,
            step == pi_spec::<A>().over_spec(A::ratio_spec(32, 1)),
            place == t.plus_spec(A::ratio_spec(1, 2)),
            forall|c: int|
                0 <= c < 4 ==> #[trigger] sums@[c] == frequencies_summed(dct@, t, c, k as int),
        decreases 32 - k,
    {
        let cos: A = fast_cos(A::ratio(k as i64, 1).times(step).times(place));
        let row: [A; 4] = dct[k];
        let ghost was = sums@;
        let mut c: usize = 0;
        while c < 4
            invariant
                c <= 4,
                k < 32,
                row == dct@[k as int],
                cos == cosine(angle(k as int, t)),
                was.len() == 4,
                forall|e: int|
                    0 <= e < 4 ==> #[trigger] was[e] == frequencies_summed(dct@, t, e, k as int),
                forall|e: int|
                    0 <= e < c ==> #[trigger] sums@[e] == frequencies_summed(
                        dct@,
                        t,
                        e,
                        k as int + 1,
                    ),
                forall|e: int| c <= e < 4 ==> #[trigger] sums@[e] == was[e],
            decreases 4 - c,
        {
            assert(sums@[c as int] == was[c as int]);
            sums[c] = sums[c].plus(row[c].times(cos));
            c += 1;
        }
        k += 1;
    }
    sums
}

/// A straight piece of a curve.
#[derive(Clone, Copy)]
pub struct Segment<A> {
    pub x: A,
    pub y: A,
    pub dx: A,
    pub dy: A,
    /// Square of its length.
    pub len2: A,
}

/// Square of the distance of a point from a segment.
pub open spec fn segment_distance<A: Amount>(px: A, py: A, s: Segment<A>) -> A {
    let long = tiny_spec::<A>().less_spec(s.len2);
    let along = px.minus_spec(s.x).times_spec(s.dx).plus_spec(
        py.minus_spec(s.y).times_spec(s.dy),
    );
    let t = if long {
        held_between(along.over_spec(s.len2), A::zero_spec(), A::ratio_spec(1, 1))
    } else {
        A::zero_spec()
    };
    let ex = px.minus_spec(s.x.plus_spec(t.times_spec(s.dx)));
    let ey = py.minus_spec(s.y.plus_spec(t.times_spec(s.dy)));
    ex.times_spec(ex).plus_spec(ey.times_spec(ey))
}

fn distance_to<A: Amount>(px: A, py: A, s: &Segment<A>) -> (r: A)
    ensures
        r == segment_distance(px, py, *s),
{
    let long: bool = A::ratio(1, 1_000_000_000_000).less(s.len2);
    let along: A = px.minus(s.x).times(s.dx).plus(py.minus(s.y).times(s.dy));
    let t: A = if long {
        hold_between(along.over(s.len2), A::zero(), A::ratio(1, 1))
    } else {
        A::zero()
    };
    let ex: A = px.minus(s.x.plus(t.times(s.dx)));
    let ey: A = py.minus(s.y.plus(t.times(s.dy)));
    ex.times(ex).plus(ey.times(ey))
}

/// Square of the distance of a point from the leading `n` segments; one that is
/// undefined does not count.
pub open spec fn nearest_of<A: Amount>(px: A, py: A, segments: Seq<Segment<A>>, n: int) -> A
    decreases n,
{
    if n <= 0 {
        A::infinite_spec()
    } else {
        let best = nearest_of(px, py, segments, n - 1);
        let here = segment_distance(px, py, segments[n - 1]);
        if here.less_spec(best) {
            here
        } else {
            best
        }
    }
}

/// Square of the distance of a point from a curve.
pub fn spline_distance<A: Amount>(px: A, py: A, segments: &[Segment<A>]) -> (r: A)
    ensures
        r == nearest_of(px, py, segments@, segments@.len() as int),
{
    let mut best: A = A::infinite();
    let mut i: usize = 0;
    while i < segments.len()
        invariant
            i <= segments@.len(),
            best == nearest_of(px, py, segments@, i as int),
        decreases segments@.len() - i,
    {
        let here: A = distance_to(px, py, &segments[i]);
        if here.less(best) {
            best = here;
        }
        i += 1;
    }
    best
}

/// No segment of a curve is nearer to a point than the curve, and unless every
/// segment is infinitely far, one of them is as near.
pub proof fn law_distance_is_that_of_the_nearest_segment<A: OrderedAmount>(
    px: A,
    py: A,
    segments: Seq<Segment<A>>,
    n: int,
)
    requires
        0 <= n <= segments.len(),
    ensures
        forall|i: int|
            0 <= i < n ==> !(#[trigger] segment_distance(px, py, segments[i])).less_spec(
                nearest_of(px, py, segments, n),
            ),
        nearest_of(px, py, segments, n) == A::infinite_spec() || exists|i: int|
            0 <= i < n && #[trigger] segment_distance(px, py, segments[i]) == nearest_of(
                px,
                py,
                segments,
                n,
            ),
    decreases n,
{
    if n > 0 {
        law_distance_is_that_of_the_nearest_segment(px, py, segments, n - 1);
        let best = nearest_of(px, py, segments, n - 1);
        let here = segment_distance(px, py, segments[n - 1]);
        A::less_irreflexive(here);
        assert forall|i: int| 0 <= i < n implies !(#[trigger] segment_distance(
            px,
            py,
            segments[i],
        )).less_spec(nearest_of(px, py, segments, n)) by {
            let d = segment_distance(px, py, segments[i]);
            if here.less_spec(best) && i < n - 1 && d.less_spec(here) {
                A::less_transitive(d, here, best);
            }
        }
    }
}

/// The error function as it is approximated when a spline is decoded.
pub open spec fn error_function<A: Amount>(x: A) -> A {
    let one = A::ratio_spec(1, 1);
    let a = magnitude_spec(x);
    let d1 = a.times_spec(A::ratio_spec(777_394_369, 10_000_000_000)).plus_spec(
        A::ratio_spec(205_260_015, 1_000_000_000_000),
    );
    let d2 = d1.times_spec(a).plus_spec(A::ratio_spec(232_120_216, 1_000_000_000));
    let d3 = d2.times_spec(a).plus_spec(A::ratio_spec(277_820_801, 1_000_000_000));
    let d4 = d3.times_spec(a).plus_spec(one);
    let inv = one.over_spec(d4.times_spec(d4));
    let r = one.minus_spec(inv.times_spec(inv));
    if x.at_most_spec(A::zero_spec()) {
        negated(r)
    } else {
        r
    }
}

/// Approximates the error function.
pub fn erf<A: Amount>(x: A) -> (r: A)
    ensures
        r == error_function(x),
{
    let one: A = A::ratio(1, 1);
    let a: A = magnitude(x);
    let d1: A = a.times(A::ratio(777_394_369, 10_000_000_000)).plus(
        A::ratio(205_260_015, 1_000_000_000_000),
    );
    let d2: A = d1.times(a).plus(A::ratio(232_120_216, 1_000_000_000));
    let d3: A = d2.times(a).plus(A::ratio(277_820_801, 1_000_000_000));
    let d4: A = d3.times(a).plus(one);
    let inv: A = one.over(d4.times(d4));
    let r: A = one.minus(inv.times(inv));
    if x.at_most(A::zero()) {
        negate(r)
    } else {
        r
    }
}

/// A dot of a spline.
#[derive(Clone, Copy)]
pub struct Sample<A> {
    pub x: A,
    /// One over its width.
    pub inv_sigma: A,
    /// What it adds to each plane where it is strongest.
    pub color: [A; 3],
}

/// How strongly a dot shows at column `x` of a row that is `dy` away.
pub open spec fn intensity_at<A: Amount>(s: Sample<A>, dy: A, x: int, amp: A) -> A {
    let dx = A::ratio_spec(x as i64, 1).minus_spec(s.x);
    let half = dx.times_spec(dx).plus_spec(dy.times_spec(dy)).root_spec().times_spec(
        A::ratio_spec(1, 2),
    );
    let reach = A::ratio_spec(35_355_339, 100_000_000);
    let e = error_function(half.plus_spec(reach).times_spec(s.inv_sigma)).minus_spec(
        error_function(half.minus_spec(reach).times_spec(s.inv_sigma)),
    );
    e.times_spec(amp).times_spec(e)
}

/// How strongly a dot shows at column `x` of a row.
pub fn intensity<A: Amount>(s: &Sample<A>, dy: A, x: usize, amp: A) -> (r: A)
    requires
        x <= i32::MAX,
    ensures
        r == intensity_at(*s, dy, x as int, amp),
{
    let dx: A = A::ratio(x as i64, 1).minus(s.x);
    let half: A = dx.times(dx).plus(dy.times(dy)).root().times(A::ratio(1, 2));
    let reach: A = A::ratio(35_355_339, 100_000_000);
    let e: A = erf(half.plus(reach).times(s.inv_sigma)).minus(
        erf(half.minus(reach).times(s.inv_sigma)),
    );
    e.times(amp).times(e)
}

/// A row with a dot of one plane drawn on it; the first sample is column `x0`.
pub open spec fn drawn<A: Amount>(
    row: Seq<A>,
    s: Sample<A>,
    c: int,
    dy: A,
    x0: int,
    amp: A,
) -> Seq<A> {
    Seq::new(
        row.len(),
        |x: int| row[x].plus_spec(intensity_at(s, dy, x0 + x, amp).times_spec(s.color@[c])),
    )
}

/// Draws a dot on a row of three planes.
pub fn spline_render_row<A: Amount>(
    s: &Sample<A>,
    dy: A,
    x0: usize,
    rx: &mut Vec<A>,
    ry: &mut Vec<A>,
    rb: &mut Vec<A>,
    amp: A,
)
    requires
        old(rx)@.len() == old(ry)@.len(),
        old(rx)@.len() == old(rb)@.len(),
        x0 + old(rx)@.len() <= i32::MAX,
    ensures
        final(rx)@ == drawn(old(rx)@, *s, 0, dy, x0 as int, amp),
        final(ry)@ == drawn(old(ry)@, *s, 1, dy, x0 as int, amp),
        final(rb)@ == drawn(old(rb)@, *s, 2, dy, x0 as int, amp),
{
    let ghost gx = drawn(rx@, *s, 0, dy, x0 as int, amp);
    let ghost gy = drawn(ry@, *s, 1, dy, x0 as int, amp);
    let ghost gb = drawn(rb@, *s, 2, dy, x0 as int, amp);
    let ghost (ox, oy, ob) = (rx@, ry@, rb@);
    let n: usize = rx.len();
    let mut x: usize = 0;
    while x < n
        invariant
            x <= n,
            x0 + n <= i32::MAX,
            rx@.len() == n,
            ry@.len() == n,
            rb@.len() == n,
            ox.len() == n,
            oy.len() == n,
            ob.len() == n,
            gx == drawn(ox, *s, 0, dy, x0 as int, amp),
            gy == drawn(oy, *s, 1, dy, x0 as int, amp),
            gb == drawn(ob, *s, 2, dy, x0 as int, amp),
            forall|k: int| 0 <= k < x ==> #[trigger] rx@[k] == gx[k],
            forall|k: int| 0 <= k < x ==> #[trigger] ry@[k] == gy[k],
            forall|k: int| 0 <= k < x ==> #[trigger] rb@[k] == gb[k],
            forall|k: int| x <= k < n ==> #[trigger] rx@[k] == ox[k],
            forall|k: int| x <= k < n ==> #[trigger] ry@[k] == oy[k],
            forall|k: int| x <= k < n ==> #[trigger] rb@[k] == ob[k],
        decreases n - x,
    {
        let li: A = intensity(s, dy, x0 + x, amp);
        rx[x] = rx[x].plus(li.times(s.color[0]));
        ry[x] = ry[x].plus(li.times(s.color[1]));
        rb[x] = rb[x].plus(li.times(s.color[2]));
        x += 1;
    }
    assert(rx@ =~= gx);
    assert(ry@ =~= gy);
    assert(rb@ =~= gb);
}

} // verus!
