//! Statistics of planes: how blue, how dark, how colourful, and what symbols cost.

use crate::adaptive_quant::{magnitude, magnitude_spec};
use crate::amount::Amount;
use crate::fast_math::{dirty_log2f, log2_estimate};
use crate::lanes::{
    eight_summed, empty_lanes, folded, four_groups, hsum256, in_turn, lemma_folded_len,
    lemma_row_folded_len, lemma_rows_folded_len, make_lanes, row_folded, rows_folded, sum16, sum32,
    two_groups,
};
use crate::opsin::{Image3, Planes};
use crate::small_transform::Block;
use crate::transform::{grid, lemma_row_lengths, sized};
use vstd::prelude::*;

verus! {

/// When blue counts as risky.
pub struct BlueScale<A> {
    /// Excess over luma and the first plane that does not count.
    pub offset: A,
    /// One over the excess that counts in full.
    pub inv_full: A,
    /// What the difference from luma is scaled by.
    pub luma: A,
}

/// The difference of the third plane from luma at `(x, y)`.
pub open spec fn blue_over_luma<A: Amount>(v: Planes<A>, x: int, y: int) -> A {
    v[2][y][x].minus_spec(v[1][y][x])
}

/// How risky the blue at `(x, y)` is, from zero to one.
pub open spec fn blue_risk<A: Amount>(v: Planes<A>, s: BlueScale<A>, x: int, y: int) -> A {
    blue_over_luma(v, x, y).minus_spec(magnitude_spec(v[0][y][x]).plus_spec(s.offset)).times_spec(
        s.inv_full,
    ).greater_spec(A::zero_spec()).lesser_spec(A::ratio_spec(1, 1))
}

/// Adds the risk of sample `x` of row `y` of the tile at `(x0, y0)`.
pub open spec fn risk_step<A: Amount>(
    v: Planes<A>,
    s: BlueScale<A>,
    x0: int,
    y0: int,
) -> spec_fn(int, int, A) -> A {
    |y: int, x: int, sum: A| sum.plus_spec(blue_risk(v, s, x0 + x, y0 + y))
}

/// The scaled differences of a tile from luma.
pub open spec fn blue_tile<A: Amount>(
    v: Planes<A>,
    s: BlueScale<A>,
    x0: int,
    y0: int,
    w: int,
    h: int,
) -> Block<A> {
    Seq::new(
        h as nat,
        |y: int|
            Seq::new(
                w as nat,
                |x: int| blue_over_luma(v, x0 + x, y0 + y).times_spec(s.luma),
            ),
    )
}

/// Mean risk of the blue in a tile, and its differences from luma.
pub fn fill_blue_tile<A: Amount>(
    img: &Image3<A>,
    s: &BlueScale<A>,
    x0: usize,
    y0: usize,
    w: usize,
    h: usize,
) -> (r: (A, Vec<Vec<A>>))
    requires
        img.wf(),
        1 <= w <= 64,
        1 <= h <= 64,
        x0 + w <= img.width(),
        y0 + h <= img.height(),
    ensures
        r.0 == eight_summed(
            four_groups(
                rows_folded(
                    empty_lanes(32),
                    32,
                    risk_step(img@, *s, x0 as int, y0 as int),
                    w as int,
                    h as int,
                ),
            ),
        ).over_spec(A::ratio_spec((w * h) as i64, 1)),
        grid(r.1@) == blue_tile(img@, *s, x0 as int, y0 as int, w as int, h as int),
{
    let ghost v = img@;
    let ghost f = risk_step(v, *s, x0 as int, y0 as int);
    let ghost none = empty_lanes::<A>(32);
    let ghost want = blue_tile(v, *s, x0 as int, y0 as int, w as int, h as int);
    let zero: A = A::zero();
    let one: A = A::ratio(1, 1);
    let mut sum: Vec<A> = make_lanes(32);
    let mut tile: Vec<Vec<A>> = Vec::new();
    let mut y: usize = 0;
    while y < h
        invariant
            y <= h,
            img.wf(),
            v == img@,
            x0 + w <= img.width(),
            y0 + h <= img.height(),
            zero == A::zero_spec(),
            one == A::ratio_spec(1, 1),
            f == risk_step(v, *s, x0 as int, y0 as int),
            none == empty_lanes::<A>(32),
            want == blue_tile(v, *s, x0 as int, y0 as int, w as int, h as int),
            tile@.len() == y,
            forall|j: int| 0 <= j < y ==> (#[trigger] tile@[j])@ == want[j],
            sum@ == rows_folded(none, 32, f, w as int, y as int),
        decreases h - y,
    {
        let ghost start = sum@;
        proof {
            lemma_rows_folded_len(none, 32, f, w as int, y as int);
        }
        let mut row: Vec<A> = Vec::new();
        let mut x: usize = 0;
        while x < w
            invariant
                x <= w,
                y < h,
                img.wf(),
                v == img@,
                x0 + w <= img.width(),
                y0 + h <= img.height(),
                zero == A::zero_spec(),
                one == A::ratio_spec(1, 1),
                f == risk_step(v, *s, x0 as int, y0 as int),
                start.len() == 32,
                row@.len() == x,
                forall|i: int|
                    0 <= i < x ==> #[trigger] row@[i] == blue_over_luma(
                        v,
                        x0 + i,
                        y0 + y,
                    ).times_spec(s.luma),
                sum@ == row_folded(start, 32, f, y as int, x as int),
            decreases w - x,
        {
            proof {
                lemma_row_folded_len(start, 32, f, y as int, x as int);
            }
            let by: A = img.get(2, x0 + x, y0 + y).minus(img.get(1, x0 + x, y0 + y));
            let size: A = magnitude(img.get(0, x0 + x, y0 + y));
            let risk: A = by.minus(size.plus(s.offset)).times(s.inv_full).greater(zero).lesser(
                one,
            );
            let l: usize = x % 32;
            sum[l] = sum[l].plus(risk);
            row.push(by.times(s.luma));
            x += 1;
        }
        assert(row@ =~= want[y as int]);
        tile.push(row);
        y += 1;
    }
    proof {
        lemma_rows_folded_len(none, 32, f, w as int, h as int);
    }
    assert(grid(tile@) =~= want);
    assert(0 < w * h <= 4096) by (nonlinear_arith)
        requires
            1 <= w <= 64,
            1 <= h <= 64,
    ;
    (sum32(&sum).over(A::ratio((w * h) as i64, 1)), tile)
}

/// Adds sample `x` of row `y`.
pub open spec fn sample_step<A: Amount>(g: Block<A>) -> spec_fn(int, int, A) -> A {
    |y: int, x: int, sum: A| sum.plus_spec(g[y][x])
}

/// Sum of all samples of a plane.
pub open spec fn plane_sum<A: Amount>(g: Block<A>, w: int, h: int) -> A {
    eight_summed(four_groups(rows_folded(empty_lanes(32), 32, sample_step(g), w, h)))
}

/// Adds the size of the Laplacian at `(x + 1, y + 1)`.
pub open spec fn laplacian_step<A: Amount>(g: Block<A>) -> spec_fn(int, int, A) -> A {
    |y: int, x: int, sum: A|
        sum.plus_spec(
            magnitude_spec(
                g[y + 1][x + 1].times_spec(A::ratio_spec(4, 1)).minus_spec(
                    g[y][x + 1].plus_spec(g[y + 2][x + 1]).plus_spec(
                        g[y + 1][x].plus_spec(g[y + 1][x + 2]),
                    ),
                ),
            ),
        )
}

/// Sum of the sizes of the Laplacian inside a plane.
pub open spec fn laplacian_sum_of<A: Amount>(g: Block<A>, w: int, h: int) -> A {
    eight_summed(
        four_groups(rows_folded(empty_lanes(32), 32, laplacian_step(g), w - 2, h - 2)),
    )
}

fn sum_rows<A: Amount>(g: &Vec<Vec<A>>, w: usize, h: usize) -> (r: A)
    requires
        g@.len() == h,
        forall|j: int| 0 <= j < h ==> (#[trigger] g@[j])@.len() == w,
    ensures
        r == plane_sum(grid(g@), w as int, h as int),
{
    let ghost f = sample_step(grid(g@));
    let ghost none = empty_lanes::<A>(32);
    let mut sum: Vec<A> = make_lanes(32);
    let mut y: usize = 0;
    while y < h
        invariant
            y <= h,
            g@.len() == h,
            forall|j: int| 0 <= j < h ==> (#[trigger] g@[j])@.len() == w,
            f == sample_step(grid(g@)),
            none == empty_lanes::<A>(32),
            sum@ == rows_folded(none, 32, f, w as int, y as int),
        decreases h - y,
    {
        let ghost start = sum@;
        proof {
            lemma_rows_folded_len(none, 32, f, w as int, y as int);
        }
        let mut x: usize = 0;
        while x < w
            invariant
                x <= w,
                y < h,
                g@.len() == h,
                g@[y as int]@.len() == w,
                f == sample_step(grid(g@)),
                start.len() == 32,
                sum@ == row_folded(start, 32, f, y as int, x as int),
            decreases w - x,
        {
            proof {
                lemma_row_folded_len(start, 32, f, y as int, x as int);
            }
            let l: usize = x % 32;
            sum[l] = sum[l].plus(g[y][x]);
            x += 1;
        }
        y += 1;
    }
    proof {
        lemma_rows_folded_len(none, 32, f, w as int, h as int);
    }
    sum32(&sum)
}

fn laplacian_abs_sum<A: Amount>(g: &Vec<Vec<A>>, w: usize, h: usize) -> (r: A)
    requires
        3 <= w,
        3 <= h,
        g@.len() == h,
        forall|j: int| 0 <= j < h ==> (#[trigger] g@[j])@.len() == w,
    ensures
        r == laplacian_sum_of(grid(g@), w as int, h as int),
{
    let four: A = A::ratio(4, 1);
    let ghost f = laplacian_step(grid(g@));
    let ghost none = empty_lanes::<A>(32);
    let mut sum: Vec<A> = make_lanes(32);
    let mut y: usize = 0;
    while y < h - 2
        invariant
            y <= h - 2,
            3 <= w,
            3 <= h,
            g@.len() == h,
            forall|j: int| 0 <= j < h ==> (#[trigger] g@[j])@.len() == w,
            four == A::ratio_spec(4, 1),
            f == laplacian_step(grid(g@)),
            none == empty_lanes::<A>(32),
            sum@ == rows_folded(none, 32, f, w - 2, y as int),
        decreases h - 2 - y,
    {
        let ghost start = sum@;
        proof {
            lemma_rows_folded_len(none, 32, f, w - 2, y as int);
        }
        let mut x: usize = 0;
        while x < w - 2
            invariant
                x <= w - 2,
                y < h - 2,
                3 <= w,
                3 <= h,
                g@.len() == h,
                forall|j: int| 0 <= j < h ==> (#[trigger] g@[j])@.len() == w,
                four == A::ratio_spec(4, 1),
                f == laplacian_step(grid(g@)),
                start.len() == 32,
                sum@ == row_folded(start, 32, f, y as int, x as int),
            decreases w - 2 - x,
        {
            proof {
                lemma_row_folded_len(start, 32, f, y as int, x as int);
            }
            assert(g@[y as int]@.len() == w);
            assert(g@[y + 1]@.len() == w);
            assert(g@[y + 2]@.len() == w);
            let around: A = g[y][x + 1].plus(g[y + 2][x + 1]).plus(
                g[y + 1][x].plus(g[y + 1][x + 2]),
            );
            let l: usize = x % 32;
            sum[l] = sum[l].plus(magnitude(g[y + 1][x + 1].times(four).minus(around)));
            x += 1;
        }
        y += 1;
    }
    proof {
        lemma_rows_folded_len(none, 32, f, w - 2, h - 2);
    }
    sum32(&sum)
}

/// A plane at half its size: means of 2x2 samples.
pub open spec fn halved<A: Amount>(g: Block<A>, w: int, h: int) -> Block<A> {
    Seq::new(
        (h / 2) as nat,
        |y: int|
            Seq::new(
                (w / 2) as nat,
                |x: int|
                    g[2 * y][2 * x].plus_spec(g[2 * y][2 * x + 1]).plus_spec(
                        g[2 * y + 1][2 * x].plus_spec(g[2 * y + 1][2 * x + 1]),
                    ).times_spec(A::ratio_spec(1, 4)),
            ),
    )
}

/// Halves a plane: means of 2x2 samples.
pub fn box_downsample_2x<A: Amount>(g: &Vec<Vec<A>>, w: usize, h: usize) -> (r: Vec<Vec<A>>)
    requires
        sized(grid(g@), w as int, h as int),
    ensures
        grid(r@) == halved(grid(g@), w as int, h as int),
        sized(grid(r@), w as int / 2, h as int / 2),
{
    assert(grid(g@).len() == h);
    proof {
        lemma_row_lengths(g@, w as int);
    }
    let quarter: A = A::ratio(1, 4);
    let ghost want = halved(grid(g@), w as int, h as int);
    let mut out: Vec<Vec<A>> = Vec::new();
    let mut y: usize = 0;
    while y < h / 2
        invariant
            y <= h / 2,
            g@.len() == h,
            forall|j: int| 0 <= j < h ==> (#[trigger] g@[j])@.len() == w,
            quarter == A::ratio_spec(1, 4),
            want == halved(grid(g@), w as int, h as int),
            out@.len() == y,
            forall|j: int| 0 <= j < y ==> (#[trigger] out@[j])@ == want[j],
        decreases h / 2 - y,
    {
        let mut row: Vec<A> = Vec::new();
        let mut x: usize = 0;
        assert(g@[2 * y as int]@.len() == w);
        assert(g@[2 * y + 1]@.len() == w);
        while x < w / 2
            invariant
                x <= w / 2,
                y < h / 2,
                g@.len() == h,
                g@[2 * y as int]@.len() == w,
                g@[2 * y + 1]@.len() == w,
                quarter == A::ratio_spec(1, 4),
                want == halved(grid(g@), w as int, h as int),
                row@.len() == x,
                forall|i: int| 0 <= i < x ==> #[trigger] row@[i] == want[y as int][i],
            decreases w / 2 - x,
        {
            let top: A = g[2 * y][2 * x].plus(g[2 * y][2 * x + 1]);
            let bottom: A = g[2 * y + 1][2 * x].plus(g[2 * y + 1][2 * x + 1]);
            row.push(top.plus(bottom).times(quarter));
            x += 1;
        }
        assert(row@ =~= want[y as int]);
        out.push(row);
        y += 1;
    }
    assert(grid(out@) =~= want);
    out
}

/// Mean of a plane, and its structure: the geometric mean of the mean sizes of the
/// Laplacian at full and at half size; none where the plane is too small for that.
pub open spec fn structure_of<A: Amount>(g: Block<A>, w: int, h: int) -> (A, A) {
    let count = A::ratio_spec((w * h) as i64, 1);
    let mean = plane_sum(g, w, h).over_spec(count);
    if h < 6 || w < 6 {
        (mean, A::zero_spec())
    } else {
        let full = laplacian_sum_of(g, w, h).over_spec(
            A::ratio_spec(((h - 2) * (w - 2)) as i64, 1),
        );
        let half = laplacian_sum_of(halved(g, w, h), w / 2, h / 2).over_spec(
            A::ratio_spec(((h / 2 - 2) * (w / 2 - 2)) as i64, 1),
        );
        (mean, full.times_spec(half).root_spec())
    }
}

/// Mean and structure of a dark tile.
pub fn dark_structure_stats<A: Amount>(g: &Vec<Vec<A>>, w: usize, h: usize) -> (r: (A, A))
    requires
        w <= 64,
        h <= 64,
        sized(grid(g@), w as int, h as int),
    ensures
        h == 0 || w == 0 ==> r == (A::zero_spec(), A::zero_spec()),
        h > 0 && w > 0 ==> r == structure_of(grid(g@), w as int, h as int),
{
    if h == 0 || w == 0 {
        return (A::zero(), A::zero());
    }
    assert(grid(g@).len() == h);
    proof {
        lemma_row_lengths(g@, w as int);
        assert(0 < w * h <= 4096 && h * w == w * h) by (nonlinear_arith)
            requires
                1 <= w <= 64,
                1 <= h <= 64,
        ;
    }
    let mean: A = sum_rows(g, w, h).over(A::ratio((w * h) as i64, 1));
    if h < 6 || w < 6 {
        return (mean, A::zero());
    }
    let (hh, ww): (usize, usize) = (h / 2, w / 2);
    assert(0 < (h - 2) * (w - 2) <= 4096) by (nonlinear_arith)
        requires
            3 <= w <= 64,
            3 <= h <= 64,
    ;
    assert(0 < (hh - 2) * (ww - 2) <= 4096) by (nonlinear_arith)
        requires
            3 <= ww <= 64,
            3 <= hh <= 64,
    ;
    let full: A = laplacian_abs_sum(g, w, h).over(A::ratio(((h - 2) * (w - 2)) as i64, 1));
    let small: Vec<Vec<A>> = box_downsample_2x(g, w, h);
    assert(grid(small@).len() == hh);
    proof {
        lemma_row_lengths(small@, ww as int);
    }
    let half: A = laplacian_abs_sum(&small, ww, hh).over(
        A::ratio(((hh - 2) * (ww - 2)) as i64, 1),
    );
    (mean, full.times(half).root())
}

/// Adds the size of the step from sample `x` of every fourth row to the next.
pub open spec fn chroma_x_step<A: Amount>(g: Block<A>) -> spec_fn(int, int, A) -> A {
    |y: int, x: int, sum: A|
        sum.plus_spec(magnitude_spec(g[4 * y][x + 1].minus_spec(g[4 * y][x])))
}

/// Adds the size of the step of the third plane over luma.
pub open spec fn chroma_b_step<A: Amount>(b: Block<A>, l: Block<A>) -> spec_fn(int, int, A) -> A {
    |y: int, x: int, sum: A|
        sum.plus_spec(
            magnitude_spec(
                b[4 * y][x + 1].minus_spec(l[4 * y][x + 1]).minus_spec(
                    b[4 * y][x].minus_spec(l[4 * y][x]),
                ),
            ),
        )
}

/// Sums of the steps along every fourth row.
pub open spec fn fourth_rows<A: Amount>(step: spec_fn(int, int, A) -> A, w: int, h: int) -> A {
    eight_summed(rows_folded(empty_lanes(8), 8, step, w - 1, (h + 3) / 4))
}

/// Steps along every fourth row of three planes: of the first plane, of luma, of
/// the third plane over luma, and of luma again.
pub fn chroma_gradient_sums<A: Amount>(
    xs: &Vec<Vec<A>>,
    ys: &Vec<Vec<A>>,
    bs: &Vec<Vec<A>>,
    w: usize,
    h: usize,
) -> (r: (A, A, A, A))
    requires
        sized(grid(xs@), w as int, h as int),
        sized(grid(ys@), w as int, h as int),
        sized(grid(bs@), w as int, h as int),
        h + 3 <= usize::MAX,
    ensures
        w < 2 ==> r == (A::zero_spec(), A::zero_spec(), A::zero_spec(), A::zero_spec()),
        w >= 2 ==> r.0 == fourth_rows(chroma_x_step(grid(xs@)), w as int, h as int),
        w >= 2 ==> r.1 == fourth_rows(chroma_x_step(grid(ys@)), w as int, h as int),
        w >= 2 ==> r.2 == fourth_rows(
            chroma_b_step(grid(bs@), grid(ys@)),
            w as int,
            h as int,
        ),
        w >= 2 ==> r.3 == fourth_rows(chroma_x_step(grid(ys@)), w as int, h as int),
{
    if w < 2 {
        return (A::zero(), A::zero(), A::zero(), A::zero());
    }
    assert(grid(xs@).len() == h && grid(ys@).len() == h && grid(bs@).len() == h);
    proof {
        lemma_row_lengths(xs@, w as int);
        lemma_row_lengths(ys@, w as int);
        lemma_row_lengths(bs@, w as int);
    }
    let ghost f1 = chroma_x_step(grid(xs@));
    let ghost f2 = chroma_x_step(grid(ys@));
    let ghost f3 = chroma_b_step(grid(bs@), grid(ys@));
    let ghost none = empty_lanes::<A>(8);
    let mut s1: Vec<A> = make_lanes(8);
    let mut s2: Vec<A> = make_lanes(8);
    let mut s3: Vec<A> = make_lanes(8);
    let rows: usize = (h + 3) / 4;
    let mut y: usize = 0;
    while y < rows
        invariant
            y <= rows,
            rows == (h + 3) / 4,
            h + 3 <= usize::MAX,
            2 <= w,
            xs@.len() == h,
            ys@.len() == h,
            bs@.len() == h,
            forall|j: int| 0 <= j < h ==> (#[trigger] xs@[j])@.len() == w,
            forall|j: int| 0 <= j < h ==> (#[trigger] ys@[j])@.len() == w,
            forall|j: int| 0 <= j < h ==> (#[trigger] bs@[j])@.len() == w,
            f1 == chroma_x_step(grid(xs@)),
            f2 == chroma_x_step(grid(ys@)),
            f3 == chroma_b_step(grid(bs@), grid(ys@)),
            none == empty_lanes::<A>(8),
            s1@ == rows_folded(none, 8, f1, w - 1, y as int),
            s2@ == rows_folded(none, 8, f2, w - 1, y as int),
            s3@ == rows_folded(none, 8, f3, w - 1, y as int),
        decreases rows - y,
    {
        let ghost g1 = s1@;
        let ghost g2 = s2@;
        let ghost g3 = s3@;
        proof {
            lemma_rows_folded_len(none, 8, f1, w - 1, y as int);
            lemma_rows_folded_len(none, 8, f2, w - 1, y as int);
            lemma_rows_folded_len(none, 8, f3, w - 1, y as int);
        }
        let r: usize = 4 * y;
        let mut x: usize = 0;
        while x < w - 1
            invariant
                x <= w - 1,
                2 <= w,
                r == 4 * y,
                r < h,
                xs@.len() == h,
                ys@.len() == h,
                bs@.len() == h,
                xs@[r as int]@.len() == w,
                ys@[r as int]@.len() == w,
                bs@[r as int]@.len() == w,
                f1 == chroma_x_step(grid(xs@)),
                f2 == chroma_x_step(grid(ys@)),
                f3 == chroma_b_step(grid(bs@), grid(ys@)),
                g1.len() == 8,
                g2.len() == 8,
                g3.len() == 8,
                s1@ == row_folded(g1, 8, f1, y as int, x as int),
                s2@ == row_folded(g2, 8, f2, y as int, x as int),
                s3@ == row_folded(g3, 8, f3, y as int, x as int),
            decreases w - 1 - x,
        {
            proof {
                lemma_row_folded_len(g1, 8, f1, y as int, x as int);
                lemma_row_folded_len(g2, 8, f2, y as int, x as int);
                lemma_row_folded_len(g3, 8, f3, y as int, x as int);
            }
            let l: usize = x % 8;
            s1[l] = s1[l].plus(magnitude(xs[r][x + 1].minus(xs[r][x])));
            s2[l] = s2[l].plus(magnitude(ys[r][x + 1].minus(ys[r][x])));
            let next: A = bs[r][x + 1].minus(ys[r][x + 1]);
            let here: A = bs[r][x].minus(ys[r][x]);
            s3[l] = s3[l].plus(magnitude(next.minus(here)));
            x += 1;
        }
        y += 1;
    }
    proof {
        lemma_rows_folded_len(none, 8, f1, w - 1, rows as int);
        lemma_rows_folded_len(none, 8, f2, w - 1, rows as int);
        lemma_rows_folded_len(none, 8, f3, w - 1, rows as int);
    }
    let luma: A = hsum256(&s2);
    (hsum256(&s1), luma, hsum256(&s3), luma)
}

/// Adds what all occurrences of symbol `i` cost.
pub open spec fn symbol_step<A: Amount>(counts: Seq<u32>, log_total: A) -> spec_fn(int, A) -> A {
    |i: int, sum: A|
        {
            let n = A::ratio_spec(counts[i] as i64, 1);
            n.fused_spec(
                log_total.minus_spec(log2_estimate(n.greater_spec(A::ratio_spec(1, 1)))),
                sum,
            )
        }
}

/// What a population of symbols costs in bits: never less than nothing.
pub fn counts_bit_cost<A: Amount>(counts: &[u32], total: u32) -> (r: A)
    ensures
        r == eight_summed(
            two_groups(
                folded(
                    16,
                    in_turn(16),
                    symbol_step(counts@, log2_estimate(A::ratio_spec(total as i64, 1))),
                    counts@.len() as int,
                ),
            ),
        ).greater_spec(A::zero_spec()),
{
    let log_total: A = dirty_log2f(A::ratio(total as i64, 1));
    let one: A = A::ratio(1, 1);
    let ghost f = symbol_step(counts@, log_total);
    let mut sum: Vec<A> = make_lanes(16);
    let mut i: usize = 0;
    while i < counts.len()
        invariant
            i <= counts@.len(),
            one == A::ratio_spec(1, 1),
            f == symbol_step(counts@, log_total),
            sum@ == folded(16, in_turn(16), f, i as int),
        decreases counts@.len() - i,
    {
        proof {
            lemma_folded_len(16, in_turn(16), f, i as int);
        }
        let n: A = A::ratio(counts[i] as i64, 1);
        let l: usize = i % 16;
        sum[l] = n.fused(log_total.minus(dirty_log2f(n.greater(one))), sum[l]);
        i += 1;
    }
    proof {
        lemma_folded_len(16, in_turn(16), f, counts@.len() as int);
    }
    sum16(&sum).greater(A::zero())
}

} // verus!
