//! Colours: from samples to planes, and from planes to whole numbers.

use crate::amount::Amount;
use crate::modular::{wrapped, wrapping_diff};
use crate::recon::{away_level, round_ties_away_i32};
use vstd::prelude::*;

verus! {

/// Scales of the three planes.
pub struct XybScales<A> {
    pub x: A,
    pub y: A,
    pub b: A,
}

/// The whole numbers of one colour: luma first, and the third plane as it is.
pub open spec fn colour_of<A: Amount>(x: A, y: A, b: A, s: XybScales<A>) -> (i32, i32, i32) {
    (
        away_level(y.times_spec(s.y)),
        away_level(x.times_spec(s.x)),
        away_level(b.times_spec(s.b)),
    )
}

fn quantize_colour<A: Amount>(x: A, y: A, b: A, s: &XybScales<A>) -> (r: (i32, i32, i32))
    ensures
        r == colour_of(x, y, b, *s),
{
    (
        round_ties_away_i32(y.times(s.y)),
        round_ties_away_i32(x.times(s.x)),
        round_ties_away_i32(b.times(s.b)),
    )
}

/// Three planes of whole numbers.
pub struct XybLevels {
    pub y: Vec<i32>,
    pub x: Vec<i32>,
    pub b: Vec<i32>,
}

/// Quantizes three planes; luma is taken off the third one.
pub fn quantize_xyb_channels<A: Amount>(
    x: &[A],
    y: &[A],
    b: &[A],
    s: &XybScales<A>,
) -> (r: XybLevels)
    requires
        x@.len() == y@.len(),
        b@.len() == y@.len(),
    ensures
        r.y@ == Seq::new(y@.len(), |i: int| colour_of(x@[i], y@[i], b@[i], *s).0),
        r.x@ == Seq::new(y@.len(), |i: int| colour_of(x@[i], y@[i], b@[i], *s).1),
        r.b@ == Seq::new(
            y@.len(),
            |i: int|
                {
                    let c = colour_of(x@[i], y@[i], b@[i], *s);
                    wrapped(c.2 - c.0) as i32
                },
        ),
{
    let mut out: XybLevels = XybLevels { y: Vec::new(), x: Vec::new(), b: Vec::new() };
    let mut i: usize = 0;
    while i < y.len()
        invariant
            i <= y@.len(),
            x@.len() == y@.len(),
            b@.len() == y@.len(),
            out.y@.len() == i,
            out.x@.len() == i,
            out.b@.len() == i,
            forall|k: int|
                0 <= k < i ==> #[trigger] out.y@[k] == colour_of(x@[k], y@[k], b@[k], *s).0,
            forall|k: int|
                0 <= k < i ==> #[trigger] out.x@[k] == colour_of(x@[k], y@[k], b@[k], *s).1,
            forall|k: int|
                0 <= k < i ==> #[trigger] out.b@[k] == ({
                    let c = colour_of(x@[k], y@[k], b@[k], *s);
                    wrapped(c.2 - c.0) as i32
                }),
        decreases y@.len() - i,
    {
        let (yq, xq, bq): (i32, i32, i32) = quantize_colour(x[i], y[i], b[i], s);
        out.y.push(yq);
        out.x.push(xq);
        out.b.push(wrapping_diff(bq, yq));
        i += 1;
    }
    assert(out.y@ =~= Seq::new(y@.len(), |k: int| colour_of(x@[k], y@[k], b@[k], *s).0));
    assert(out.x@ =~= Seq::new(y@.len(), |k: int| colour_of(x@[k], y@[k], b@[k], *s).1));
    assert(out.b@ =~= Seq::new(
        y@.len(),
        |k: int|
            {
                let c = colour_of(x@[k], y@[k], b@[k], *s);
                wrapped(c.2 - c.0) as i32
            },
    ));
    out
}

/// Quantizes the colours of a tile, one after another.
pub fn quantize_xyb_tile_colors<A: Amount>(
    x: &[A],
    y: &[A],
    b: &[A],
    s: &XybScales<A>,
) -> (r: Vec<(i32, i32, i32)>)
    requires
        x@.len() == y@.len(),
        b@.len() == y@.len(),
    ensures
        r@ == Seq::new(y@.len(), |i: int| colour_of(x@[i], y@[i], b@[i], *s)),
{
    let mut out: Vec<(i32, i32, i32)> = Vec::new();
    let mut i: usize = 0;
    while i < y.len()
        invariant
            i <= y@.len(),
            x@.len() == y@.len(),
            b@.len() == y@.len(),
            out@.len() == i,
            forall|k: int|
                0 <= k < i ==> #[trigger] out@[k] == colour_of(x@[k], y@[k], b@[k], *s),
        decreases y@.len() - i,
    {
        out.push(quantize_colour(x[i], y[i], b[i], s));
        i += 1;
    }
    assert(out@ =~= Seq::new(y@.len(), |k: int| colour_of(x@[k], y@[k], b@[k], *s)));
    out
}

/// Row `row` of a 3x3 matrix applied to the linear values of a pixel.
pub open spec fn shaped_value<A: Amount>(
    lut: Seq<A>,
    matrix: Seq<A>,
    pixel: (u16, u16, u16),
    row: int,
) -> A {
    lut[pixel.2 as int].fused_spec(
        matrix[3 * row + 2],
        lut[pixel.1 as int].fused_spec(
            matrix[3 * row + 1],
            lut[pixel.0 as int].times_spec(matrix[3 * row]),
        ),
    )
}

/// Turns pixels into three planes: each sample goes through a table, and the three
/// through a matrix.
pub fn color_matrix_shaper<A: Amount>(
    lut: &[A],
    matrix: &[A; 9],
    src: &[(u16, u16, u16)],
) -> (r: (Vec<A>, Vec<A>, Vec<A>))
    requires
        forall|i: int|
            0 <= i < src@.len() ==> (#[trigger] src@[i]).0 < lut@.len() && src@[i].1 < lut@.len()
                && src@[i].2 < lut@.len(),
    ensures
        r.0@ == Seq::new(src@.len(), |i: int| shaped_value(lut@, matrix@, src@[i], 0)),
        r.1@ == Seq::new(src@.len(), |i: int| shaped_value(lut@, matrix@, src@[i], 1)),
        r.2@ == Seq::new(src@.len(), |i: int| shaped_value(lut@, matrix@, src@[i], 2)),
{
    let mut p: Vec<A> = Vec::new();
    let mut q: Vec<A> = Vec::new();
    let mut t: Vec<A> = Vec::new();
    let mut i: usize = 0;
    while i < src.len()
        invariant
            i <= src@.len(),
            forall|k: int|
                0 <= k < src@.len() ==> (#[trigger] src@[k]).0 < lut@.len() && src@[k].1
                    < lut@.len() && src@[k].2 < lut@.len(),
            p@.len() == i,
            q@.len() == i,
            t@.len() == i,
            forall|k: int|
                0 <= k < i ==> #[trigger] p@[k] == shaped_value(lut@, matrix@, src@[k], 0),
            forall|k: int|
                0 <= k < i ==> #[trigger] q@[k] == shaped_value(lut@, matrix@, src@[k], 1),
            forall|k: int|
                0 <= k < i ==> #[trigger] t@[k] == shaped_value(lut@, matrix@, src@[k], 2),
        decreases src@.len() - i,
    {
        assert(src@[i as int].0 < lut@.len());
        let r: A = lut[src[i].0 as usize];
        let g: A = lut[src[i].1 as usize];
        let b: A = lut[src[i].2 as usize];
        p.push(b.fused(matrix[2], g.fused(matrix[1], r.times(matrix[0]))));
        q.push(b.fused(matrix[5], g.fused(matrix[4], r.times(matrix[3]))));
        t.push(b.fused(matrix[8], g.fused(matrix[7], r.times(matrix[6]))));
        i += 1;
    }
    assert(p@ =~= Seq::new(src@.len(), |k: int| shaped_value(lut@, matrix@, src@[k], 0)));
    assert(q@ =~= Seq::new(src@.len(), |k: int| shaped_value(lut@, matrix@, src@[k], 1)));
    assert(t@ =~= Seq::new(src@.len(), |k: int| shaped_value(lut@, matrix@, src@[k], 2)));
    (p, q, t)
}

} // verus!
