//! The means of the 8x8 blocks under a large transform, from its lowest
//! coefficients.

use crate::amount::Amount;
use crate::transform::{
    grid, inverse_columns, inverse_pass, sized, transpose, transposed, DctWeights,
};
use vstd::prelude::*;

verus! {

/// Factors that turn the lowest coefficients of a long transform into those of a
/// short one.
pub struct Resample<A> {
    /// From 16 to 2.
    pub to2: [A; 2],
    /// From 32 to 4.
    pub to4: [A; 4],
    /// From 64 to 8.
    pub to8: [A; 8],
}

/// The four samples of four coefficients.
pub open spec fn idct4_spec<A: Amount>(w: DctWeights<A>, v: Seq<A>) -> Seq<A> {
    let zero = A::zero_spec();
    let e0 = v[0].plus_spec(v[2]);
    let e1 = v[0].minus_spec(v[2]);
    let t2 = v[1].times_spec(w.sqrt_2);
    let t3 = v[3].plus_spec(v[1]);
    let o0 = t2.plus_spec(t3);
    let o1 = t2.minus_spec(t3);
    seq![
        o0.fused_spec(w.wc4@[0], e0),
        o1.fused_spec(w.wc4@[1], e1),
        o1.fused_spec(zero.minus_spec(w.wc4@[1]), e1),
        o0.fused_spec(zero.minus_spec(w.wc4@[0]), e0),
    ]
}

/// Turns four coefficients into samples.
pub fn dc_idct4<A: Amount>(w: &DctWeights<A>, v: [A; 4]) -> (r: [A; 4])
    ensures
        r@ == idct4_spec(*w, v@),
{
    let zero: A = A::zero();
    let e0: A = v[0].plus(v[2]);
    let e1: A = v[0].minus(v[2]);
    let t2: A = v[1].times(w.sqrt_2);
    let t3: A = v[3].plus(v[1]);
    let o0: A = t2.plus(t3);
    let o1: A = t2.minus(t3);
    let r: [A; 4] = [
        o0.fused(w.wc4[0], e0),
        o1.fused(w.wc4[1], e1),
        o1.fused(zero.minus(w.wc4[1]), e1),
        o0.fused(zero.minus(w.wc4[0]), e0),
    ];
    assert(r@ =~= idct4_spec(*w, v@));
    r
}

/// The lowest four coefficients of row `a` of a transform 32 wide.
pub open spec fn low4<A: Amount>(s: Resample<A>, row: Seq<A>, factor: A, scale_row: bool) -> Seq<A> {
    Seq::new(
        4,
        |i: int|
            (if scale_row {
                row[i].times_spec(factor)
            } else {
                row[i]
            }).times_spec(s.to4@[i]),
    )
}

fn take_low4<A: Amount>(s: &Resample<A>, row: &Vec<A>, factor: A, scale_row: bool) -> (r: [A; 4])
    requires
        row@.len() >= 4,
    ensures
        r@ == low4(*s, row@, factor, scale_row),
{
    let (a, b, c, d): (A, A, A, A) = if scale_row {
        (
            row[0].times(factor),
            row[1].times(factor),
            row[2].times(factor),
            row[3].times(factor),
        )
    } else {
        (row[0], row[1], row[2], row[3])
    };
    let r: [A; 4] = [
        a.times(s.to4[0]),
        b.times(s.to4[1]),
        c.times(s.to4[2]),
        d.times(s.to4[3]),
    ];
    assert(r@ =~= low4(*s, row@, factor, scale_row));
    r
}

/// The four means along row `a`.
pub open spec fn means_of_row<A: Amount>(
    w: DctWeights<A>,
    s: Resample<A>,
    g: Seq<Seq<A>>,
    a: int,
) -> Seq<A> {
    idct4_spec(w, low4(s, g[a], s.to4@[a], true))
}

/// The 4x4 means under a 32x32 transform.
pub open spec fn dc_32x32_spec<A: Amount>(
    w: DctWeights<A>,
    s: Resample<A>,
    g: Seq<Seq<A>>,
) -> Seq<Seq<A>> {
    Seq::new(
        4,
        |b: int| idct4_spec(w, Seq::new(4, |a: int| means_of_row(w, s, g, a)[b])),
    )
}

/// The means of the sixteen blocks under a 32x32 transform.
pub fn dc_from_dct32x32<A: Amount>(w: &DctWeights<A>, s: &Resample<A>, g: &Vec<Vec<A>>) -> (r: [[A;
    4]; 4])
    requires
        g@.len() >= 4,
        forall|y: int| 0 <= y < 4 ==> (#[trigger] g@[y])@.len() >= 4,
    ensures
        forall|b: int|
            0 <= b < 4 ==> (#[trigger] r@[b])@ == dc_32x32_spec(*w, *s, grid(g@))[b],
{
    assert(g@[0]@.len() >= 4 && g@[1]@.len() >= 4 && g@[2]@.len() >= 4 && g@[3]@.len() >= 4);
    let rows: [[A; 4]; 4] = [
        dc_idct4(w, take_low4(s, &g[0], s.to4[0], true)),
        dc_idct4(w, take_low4(s, &g[1], s.to4[1], true)),
        dc_idct4(w, take_low4(s, &g[2], s.to4[2], true)),
        dc_idct4(w, take_low4(s, &g[3], s.to4[3], true)),
    ];
    let c0: [A; 4] = [rows[0][0], rows[1][0], rows[2][0], rows[3][0]];
    let c1: [A; 4] = [rows[0][1], rows[1][1], rows[2][1], rows[3][1]];
    let c2: [A; 4] = [rows[0][2], rows[1][2], rows[2][2], rows[3][2]];
    let c3: [A; 4] = [rows[0][3], rows[1][3], rows[2][3], rows[3][3]];
    proof {
        let gg = grid(g@);
        assert(c0@ =~= Seq::new(4, |a: int| means_of_row(*w, *s, gg, a)[0]));
        assert(c1@ =~= Seq::new(4, |a: int| means_of_row(*w, *s, gg, a)[1]));
        assert(c2@ =~= Seq::new(4, |a: int| means_of_row(*w, *s, gg, a)[2]));
        assert(c3@ =~= Seq::new(4, |a: int| means_of_row(*w, *s, gg, a)[3]));
    }
    [dc_idct4(w, c0), dc_idct4(w, c1), dc_idct4(w, c2), dc_idct4(w, c3)]
}

/// The two rows of four means under a transform of 32 by 16: sums and
/// differences of the means along the first two rows.
pub open spec fn dc_rect_spec<A: Amount>(
    w: DctWeights<A>,
    s: Resample<A>,
    g: Seq<Seq<A>>,
) -> (Seq<A>, Seq<A>) {
    let a = idct4_spec(w, low4(s, g[0], s.to2@[0], false));
    let b = idct4_spec(w, low4(s, g[1], s.to2@[1], true));
    (
        Seq::new(4, |i: int| a[i].plus_spec(b[i])),
        Seq::new(4, |i: int| a[i].minus_spec(b[i])),
    )
}

fn dc_from_dct_rect<A: Amount>(w: &DctWeights<A>, s: &Resample<A>, g: &Vec<Vec<A>>) -> (r: (
    [A; 4],
    [A; 4],
))
    requires
        g@.len() >= 2,
        g@[0]@.len() >= 4,
        g@[1]@.len() >= 4,
    ensures
        (r.0@, r.1@) == dc_rect_spec(*w, *s, grid(g@)),
{
    let a: [A; 4] = dc_idct4(w, take_low4(s, &g[0], s.to2[0], false));
    let b: [A; 4] = dc_idct4(w, take_low4(s, &g[1], s.to2[1], true));
    let sum: [A; 4] = [a[0].plus(b[0]), a[1].plus(b[1]), a[2].plus(b[2]), a[3].plus(b[3])];
    let diff: [A; 4] = [a[0].minus(b[0]), a[1].minus(b[1]), a[2].minus(b[2]), a[3].minus(b[3])];
    proof {
        let want = dc_rect_spec(*w, *s, grid(g@));
        assert(sum@ =~= want.0);
        assert(diff@ =~= want.1);
    }
    (sum, diff)
}

/// The means of the eight blocks under a transform 16 wide and 32 tall, row by
/// row.
pub fn dc_from_dct32x16<A: Amount>(w: &DctWeights<A>, s: &Resample<A>, g: &Vec<Vec<A>>) -> (r: [A;
    8])
    requires
        g@.len() >= 2,
        g@[0]@.len() >= 4,
        g@[1]@.len() >= 4,
    ensures
        r@ == Seq::new(
            8,
            |i: int|
                if i % 2 == 0 {
                    dc_rect_spec(*w, *s, grid(g@)).0[i / 2]
                } else {
                    dc_rect_spec(*w, *s, grid(g@)).1[i / 2]
                },
        ),
{
    let (a, b): ([A; 4], [A; 4]) = dc_from_dct_rect(w, s, g);
    let r: [A; 8] = [a[0], b[0], a[1], b[1], a[2], b[2], a[3], b[3]];
    assert(r@ =~= Seq::new(
        8,
        |i: int|
            if i % 2 == 0 {
                dc_rect_spec(*w, *s, grid(g@)).0[i / 2]
            } else {
                dc_rect_spec(*w, *s, grid(g@)).1[i / 2]
            },
    ));
    r
}

/// The means of the eight blocks under a transform 32 wide and 16 tall, row by
/// row.
pub fn dc_from_dct16x32<A: Amount>(w: &DctWeights<A>, s: &Resample<A>, g: &Vec<Vec<A>>) -> (r: [A;
    8])
    requires
        g@.len() >= 2,
        g@[0]@.len() >= 4,
        g@[1]@.len() >= 4,
    ensures
        r@ == dc_rect_spec(*w, *s, grid(g@)).0 + dc_rect_spec(*w, *s, grid(g@)).1,
{
    let (a, b): ([A; 4], [A; 4]) = dc_from_dct_rect(w, s, g);
    let r: [A; 8] = [a[0], a[1], a[2], a[3], b[0], b[1], b[2], b[3]];
    assert(r@ =~= a@ + b@);
    r
}

/// The lowest `rows x 8` coefficients of a transform 64 wide, resampled and
/// multiplied by the transform's height.
pub open spec fn low8<A: Amount>(
    s: Resample<A>,
    g: Seq<Seq<A>>,
    rows: int,
    height: i64,
    factors: Seq<A>,
) -> Seq<Seq<A>> {
    Seq::new(
        rows as nat,
        |y: int|
            Seq::new(
                8,
                |x: int|
                    g[y][x].times_spec(s.to8@[x]).times_spec(
                        A::ratio_spec(height, 1).times_spec(factors[y]),
                    ),
            ),
    )
}

fn take_low8<A: Amount>(s: &Resample<A>, g: &Vec<Vec<A>>, height: i64, factors: &[A]) -> (r: Vec<
    Vec<A>,
>)
    requires
        factors@.len() == 4 || factors@.len() == 8,
        g@.len() >= factors@.len(),
        forall|y: int| 0 <= y < factors@.len() ==> (#[trigger] g@[y])@.len() >= 8,
    ensures
        grid(r@) == low8(*s, grid(g@), factors@.len() as int, height, factors@),
        r@.len() == factors@.len(),
        sized(grid(r@), 8, factors@.len() as int),
{
    let ghost want = low8(*s, grid(g@), factors@.len() as int, height, factors@);
    let mut out: Vec<Vec<A>> = Vec::new();
    let mut y: usize = 0;
    while y < factors.len()
        invariant
            y <= factors@.len(),
            g@.len() >= factors@.len(),
            forall|j: int| 0 <= j < factors@.len() ==> (#[trigger] g@[j])@.len() >= 8,
            want == low8(*s, grid(g@), factors@.len() as int, height, factors@),
            out@.len() == y,
            forall|j: int| 0 <= j < y ==> (#[trigger] out@[j])@ == want[j],
        decreases factors@.len() - y,
    {
        let f: A = A::ratio(height, 1).times(factors[y]);
        let mut row: Vec<A> = Vec::new();
        let mut x: usize = 0;
        while x < 8
            invariant
                x <= 8,
                y < factors@.len(),
                g@.len() >= factors@.len(),
                g@[y as int]@.len() >= 8,
                f == A::ratio_spec(height, 1).times_spec(factors@[y as int]),
                row@.len() == x,
                forall|i: int|
                    0 <= i < x ==> #[trigger] row@[i] == g@[y as int]@[i].times_spec(
                        s.to8@[i],
                    ).times_spec(f),
            decreases 8 - x,
        {
            row.push(g[y][x].times(s.to8[x]).times(f));
            x += 1;
        }
        assert(row@ =~= want[y as int]);
        out.push(row);
        y += 1;
    }
    assert(grid(out@) =~= want);
    out
}

/// The 8x8 means under a 64x64 transform.
pub open spec fn dc_64x64_spec<A: Amount>(
    w: DctWeights<A>,
    s: Resample<A>,
    g: Seq<Seq<A>>,
) -> Seq<Seq<A>> {
    transposed(inverse_pass(w, inverse_pass(w, low8(s, g, 8, 64, s.to8@), 8), 8), 8)
}

/// The means of the 64 blocks under a 64x64 transform.
pub fn dc_from_dct64x64<A: Amount>(w: &DctWeights<A>, s: &Resample<A>, g: &Vec<Vec<A>>) -> (r: Vec<
    Vec<A>,
>)
    requires
        g@.len() >= 8,
        forall|y: int| 0 <= y < 8 ==> (#[trigger] g@[y])@.len() >= 8,
    ensures
        grid(r@) == dc_64x64_spec(*w, *s, grid(g@)),
        sized(grid(r@), 8, 8),
{
    let low: Vec<Vec<A>> = take_low8(s, g, 64, s.to8.as_slice());
    let first: Vec<Vec<A>> = inverse_columns(w, &low, 8);
    assert(grid(first@).len() == 8);
    let second: Vec<Vec<A>> = inverse_columns(w, &first, 8);
    assert(grid(second@).len() == 8);
    transpose(&second, 8)
}

/// The 8x4 means under a transform of 64 by 32, in the order of its storage: one
/// row for each of the eight along the long side.
pub open spec fn dc_64x32_spec<A: Amount>(
    w: DctWeights<A>,
    s: Resample<A>,
    g: Seq<Seq<A>>,
) -> Seq<Seq<A>> {
    transposed(inverse_pass(w, inverse_pass(w, low8(s, g, 4, 32, s.to4@), 8), 4), 8)
}

/// The means of the 32 blocks under a transform 32 wide and 64 tall.
pub fn dc_from_dct64x32<A: Amount>(w: &DctWeights<A>, s: &Resample<A>, g: &Vec<Vec<A>>) -> (r: Vec<
    Vec<A>,
>)
    requires
        g@.len() >= 4,
        forall|y: int| 0 <= y < 4 ==> (#[trigger] g@[y])@.len() >= 8,
    ensures
        grid(r@) == dc_64x32_spec(*w, *s, grid(g@)),
        r@.len() == 8,
        sized(grid(r@), 4, 8),
{
    let low: Vec<Vec<A>> = take_low8(s, g, 32, s.to4.as_slice());
    let first: Vec<Vec<A>> = inverse_columns(w, &low, 8);
    assert(grid(first@).len() == 8);
    let second: Vec<Vec<A>> = inverse_columns(w, &first, 4);
    assert(grid(second@).len() == 4);
    let out: Vec<Vec<A>> = transpose(&second, 8);
    assert(grid(out@).len() == 8);
    out
}

/// The means of the 32 blocks under a transform 64 wide and 32 tall.
pub fn dc_from_dct32x64<A: Amount>(w: &DctWeights<A>, s: &Resample<A>, g: &Vec<Vec<A>>) -> (r: Vec<
    Vec<A>,
>)
    requires
        g@.len() >= 4,
        forall|y: int| 0 <= y < 4 ==> (#[trigger] g@[y])@.len() >= 8,
    ensures
        grid(r@) == transposed(dc_64x32_spec(*w, *s, grid(g@)), 4),
        sized(grid(r@), 8, 4),
{
    let tall: Vec<Vec<A>> = dc_from_dct64x32(w, s, g);
    transpose(&tall, 4)
}

} // verus!
