//! From samples to coefficients: which transform a strategy stands for, the
//! samples it takes, and how chroma is predicted from luma.

use crate::amount::Amount;
use crate::opsin::{edge_sample, Image3, Planes};
use crate::small_transform::{
    afv_from_pixels, afv_spec, dct4x4, dct4x4_spec, dct4x8, dct4x8_spec, dct8x4, dct8x4_spec,
    Block,
};
use crate::strategy::{
    covered_blocks_x_of, covered_blocks_y_of, covered_x, covered_y, STRATEGY_AFV0, STRATEGY_AFV3,
    STRATEGY_DCT, STRATEGY_DCT16X16, STRATEGY_DCT16X32, STRATEGY_DCT16X8, STRATEGY_DCT2X2,
    STRATEGY_DCT32X16, STRATEGY_DCT32X32, STRATEGY_DCT32X64, STRATEGY_DCT4X4, STRATEGY_DCT4X8,
    STRATEGY_DCT64X32, STRATEGY_DCT64X64, STRATEGY_DCT8X16, STRATEGY_DCT8X4, STRATEGY_IDENTITY,
};
use crate::transform::{forward_block, forward_spec, grid, sized, DctWeights, Storage};
use vstd::prelude::*;

verus! {

/// The transforms of a single block that are not cosine transforms of the whole
/// block.
pub open spec fn is_special(strategy: u8) -> bool {
    ||| strategy == STRATEGY_IDENTITY
    ||| strategy == STRATEGY_DCT2X2
    ||| strategy == STRATEGY_DCT4X4
    ||| strategy == STRATEGY_DCT4X8
    ||| strategy == STRATEGY_DCT8X4
    ||| STRATEGY_AFV0 <= strategy <= STRATEGY_AFV3
}

/// The cosine transforms of a whole footprint.
pub open spec fn is_separable(strategy: u8) -> bool {
    ||| strategy == STRATEGY_DCT
    ||| strategy == STRATEGY_DCT16X8
    ||| strategy == STRATEGY_DCT8X16
    ||| strategy == STRATEGY_DCT16X16
    ||| strategy == STRATEGY_DCT32X16
    ||| strategy == STRATEGY_DCT16X32
    ||| strategy == STRATEGY_DCT32X32
    ||| strategy == STRATEGY_DCT64X32
    ||| strategy == STRATEGY_DCT32X64
    ||| strategy == STRATEGY_DCT64X64
}

/// A strategy has a transform.
pub open spec fn has_transform(strategy: u8) -> bool {
    is_special(strategy) || is_separable(strategy)
}

/// Shape of a strategy's coefficients in units of eight: the longer side is the
/// width.
pub open spec fn storage_shape(strategy: u8) -> (int, int) {
    let cx = covered_x(strategy);
    let cy = covered_y(strategy);
    if cx >= cy {
        (cx, cy)
    } else {
        (cy, cx)
    }
}

/// How a strategy's coefficients lie.
pub open spec fn storage_of(strategy: u8) -> Storage {
    if covered_x(strategy) > covered_y(strategy) {
        Storage::Natural
    } else {
        Storage::Transposed
    }
}

/// Shape of a strategy's coefficients in units of eight.
pub fn coefficient_shape(strategy: u8) -> (r: (usize, usize))
    ensures
        (r.0 as int, r.1 as int) == storage_shape(strategy),
{
    let cx: usize = covered_blocks_x_of(strategy);
    let cy: usize = covered_blocks_y_of(strategy);
    if cx >= cy {
        (cx, cy)
    } else {
        (cy, cx)
    }
}

/// The `w x h` samples of plane `c` at `(px, py)`, edges repeated.
pub open spec fn gathered_block<A>(
    v: Planes<A>,
    xsize: int,
    ysize: int,
    c: int,
    px: int,
    py: int,
    w: int,
    h: int,
) -> Block<A> {
    Seq::new(
        h as nat,
        |y: int|
            Seq::new(w as nat, |x: int| edge_sample(v, xsize, ysize, c, px + x, py + y)),
    )
}

/// Gathers the samples of a footprint, the last column and row repeated past the
/// edges of the image.
pub fn gather_pixels<A: Amount>(
    img: &Image3<A>,
    c: usize,
    px: usize,
    py: usize,
    w: usize,
    h: usize,
) -> (r: Vec<Vec<A>>)
    requires
        img.wf(),
        img.width() > 0,
        img.height() > 0,
        c < 3,
        px + w <= usize::MAX,
        py + h <= usize::MAX,
    ensures
        grid(r@) == gathered_block(
            img@,
            img.width() as int,
            img.height() as int,
            c as int,
            px as int,
            py as int,
            w as int,
            h as int,
        ),
        sized(grid(r@), w as int, h as int),
{
    let ghost want = gathered_block(
        img@,
        img.width() as int,
        img.height() as int,
        c as int,
        px as int,
        py as int,
        w as int,
        h as int,
    );
    let mut out: Vec<Vec<A>> = Vec::new();
    let mut y: usize = 0;
    while y < h
        invariant
            y <= h,
            img.wf(),
            img.width() > 0,
            img.height() > 0,
            c < 3,
            px + w <= usize::MAX,
            py + h <= usize::MAX,
            want == gathered_block(
                img@,
                img.width() as int,
                img.height() as int,
                c as int,
                px as int,
                py as int,
                w as int,
                h as int,
            ),
            out@.len() == y,
            forall|j: int| 0 <= j < y ==> (#[trigger] out@[j])@ == want[j],
        decreases h - y,
    {
        let mut row: Vec<A> = Vec::new();
        let mut x: usize = 0;
        while x < w
            invariant
                x <= w,
                y < h,
                img.wf(),
                img.width() > 0,
                img.height() > 0,
                c < 3,
                px + w <= usize::MAX,
                py + h <= usize::MAX,
                row@.len() == x,
                forall|i: int|
                    0 <= i < x ==> #[trigger] row@[i] == edge_sample(
                        img@,
                        img.width() as int,
                        img.height() as int,
                        c as int,
                        px + i,
                        py + y,
                    ),
            decreases w - x,
        {
            row.push(img.edge(c, px + x, py + y, 0, 0));
            x += 1;
        }
        assert(row@ =~= want[y as int]);
        out.push(row);
        y += 1;
    }
    assert(grid(out@) =~= want);
    out
}

/// The coefficients of a block of samples. The identity and the 2x2 transform are
/// not computed here: `fine` stands for their result.
pub open spec fn coefficients_of<A: Amount>(
    w: DctWeights<A>,
    strategy: u8,
    g: Block<A>,
    fine: Block<A>,
) -> Block<A> {
    if strategy == STRATEGY_IDENTITY || strategy == STRATEGY_DCT2X2 {
        fine
    } else if strategy == STRATEGY_DCT4X4 {
        dct4x4_spec(w, g)
    } else if strategy == STRATEGY_DCT4X8 {
        dct4x8_spec(w, g)
    } else if strategy == STRATEGY_DCT8X4 {
        dct8x4_spec(w, g)
    } else if STRATEGY_AFV0 <= strategy <= STRATEGY_AFV3 {
        afv_spec(w, g, strategy - STRATEGY_AFV0)
    } else {
        forward_spec(
            w,
            g,
            8 * covered_x(strategy),
            8 * covered_y(strategy),
            storage_of(strategy),
        )
    }
}

/// Transforms the footprint of `strategy` at sample `(px, py)` of plane `c`. `fine`
/// holds the coefficients of the identity or the 2x2 transform where that is the
/// strategy.
pub fn forward_transform<A: Amount>(
    w: &DctWeights<A>,
    strategy: u8,
    img: &Image3<A>,
    c: usize,
    px: usize,
    py: usize,
    fine: Vec<Vec<A>>,
) -> (r: Vec<Vec<A>>)
    requires
        has_transform(strategy),
        img.wf(),
        img.width() > 0,
        img.height() > 0,
        c < 3,
        px + 64 <= usize::MAX,
        py + 64 <= usize::MAX,
        strategy == STRATEGY_IDENTITY || strategy == STRATEGY_DCT2X2 ==> sized(
            grid(fine@),
            8,
            8,
        ),
    ensures
        grid(r@) == coefficients_of(
            *w,
            strategy,
            gathered_block(
                img@,
                img.width() as int,
                img.height() as int,
                c as int,
                px as int,
                py as int,
                8 * covered_x(strategy),
                8 * covered_y(strategy),
            ),
            grid(fine@),
        ),
        sized(grid(r@), 8 * storage_shape(strategy).0, 8 * storage_shape(strategy).1),
{
    let cx: usize = covered_blocks_x_of(strategy);
    let cy: usize = covered_blocks_y_of(strategy);
    if strategy == STRATEGY_IDENTITY || strategy == STRATEGY_DCT2X2 {
        return fine;
    }
    let g: Vec<Vec<A>> = gather_pixels(img, c, px, py, 8 * cx, 8 * cy);
    if strategy == STRATEGY_DCT4X4 {
        return dct4x4(w, &g);
    }
    if strategy == STRATEGY_DCT4X8 {
        return dct4x8(w, &g);
    }
    if strategy == STRATEGY_DCT8X4 {
        return dct8x4(w, &g);
    }
    if strategy >= STRATEGY_AFV0 && strategy <= STRATEGY_AFV3 {
        return afv_from_pixels(w, strategy - STRATEGY_AFV0, &g);
    }
    let storage: Storage = if cx > cy {
        Storage::Natural
    } else {
        Storage::Transposed
    };
    forward_block(w, &g, 8 * cx, 8 * cy, storage)
}

/// A plane of coefficients after its prediction from luma was taken off.
pub open spec fn predicted_off<A: Amount>(x: Seq<A>, y: Seq<A>, factor: A) -> Seq<A> {
    let neg = A::zero_spec().minus_spec(factor);
    Seq::new(x.len(), |i: int| neg.fused_spec(y[i], x[i]))
}

/// Takes the prediction from luma off two planes of chroma coefficients.
pub fn apply_cfl<A: Amount>(x: &mut Vec<A>, y: &Vec<A>, b: &mut Vec<A>, factor_x: A, factor_b: A)
    requires
        old(x)@.len() == y@.len(),
        old(b)@.len() == y@.len(),
    ensures
        final(x)@ == predicted_off(old(x)@, y@, factor_x),
        final(b)@ == predicted_off(old(b)@, y@, factor_b),
{
    let neg_x: A = A::zero().minus(factor_x);
    let neg_b: A = A::zero().minus(factor_b);
    let mut i: usize = 0;
    while i < y.len()
        invariant
            i <= y@.len(),
            x@.len() == y@.len(),
            b@.len() == y@.len(),
            old(x)@.len() == y@.len(),
            old(b)@.len() == y@.len(),
            neg_x == A::zero_spec().minus_spec(factor_x),
            neg_b == A::zero_spec().minus_spec(factor_b),
            forall|k: int|
                0 <= k < y@.len() ==> #[trigger] x@[k] == (if k < i {
                    neg_x.fused_spec(y@[k], old(x)@[k])
                } else {
                    old(x)@[k]
                }),
            forall|k: int|
                0 <= k < y@.len() ==> #[trigger] b@[k] == (if k < i {
                    neg_b.fused_spec(y@[k], old(b)@[k])
                } else {
                    old(b)@[k]
                }),
        decreases y@.len() - i,
    {
        let luma: A = y[i];
        x[i] = neg_x.fused(luma, x[i]);
        b[i] = neg_b.fused(luma, b[i]);
        i += 1;
    }
    assert(x@ =~= predicted_off(old(x)@, y@, factor_x));
    assert(b@ =~= predicted_off(old(b)@, y@, factor_b));
}

/// The tile of 8x8 blocks that the block `(bx, by)` lies in, held to the map.
pub open spec fn cmap_tile(bx: int, by: int, w: int, h: int) -> (int, int) {
    (
        if bx / 8 < w - 1 {
            bx / 8
        } else {
            w - 1
        },
        if by / 8 < h - 1 {
            by / 8
        } else {
            h - 1
        },
    )
}

/// The entries of the two colour maps for the block `(bx, by)`: how luma predicts
/// the first and the third plane.
pub fn cmap_factors(
    ytox: &Vec<Vec<i8>>,
    ytob: &Vec<Vec<i8>>,
    w: usize,
    h: usize,
    bx: usize,
    by: usize,
) -> (r: (i8, i8))
    requires
        w > 0,
        h > 0,
        ytox@.len() == h,
        ytob@.len() == h,
        forall|j: int| 0 <= j < h ==> (#[trigger] ytox@[j])@.len() == w,
        forall|j: int| 0 <= j < h ==> (#[trigger] ytob@[j])@.len() == w,
    ensures
        ({
            let t = cmap_tile(bx as int, by as int, w as int, h as int);
            r == (ytox@[t.1]@[t.0], ytob@[t.1]@[t.0])
        }),
{
    let tx: usize = if bx / 8 < w - 1 {
        bx / 8
    } else {
        w - 1
    };
    let ty: usize = if by / 8 < h - 1 {
        by / 8
    } else {
        h - 1
    };
    assert(ytox@[ty as int]@.len() == w);
    assert(ytob@[ty as int]@.len() == w);
    (ytox[ty][tx], ytob[ty][tx])
}

/// Slopes at which chroma follows luma, from what a tile signals: steps of one over
/// 84, from nothing for the first plane and from one for the third.
pub fn cfl_ratios<A: Amount>(ytox: i8, ytob: i8) -> (r: (A, A))
    ensures
        r.0 == A::ratio_spec(ytox as i64, 84),
        r.1 == A::ratio_spec(1, 1).plus_spec(A::ratio_spec(ytob as i64, 84)),
{
    (A::ratio(ytox as i64, 84), A::ratio(1, 1).plus(A::ratio(ytob as i64, 84)))
}

} // verus!
