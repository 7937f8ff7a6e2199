//! Structural similarity of a reconstruction to its original.

use crate::amount::Amount;
use crate::lanes::{eight_summed, folded, hsum256, in_turn, lemma_folded_len, make_lanes};
use crate::small_transform::Block;
use crate::transform::{grid, lemma_row_lengths, sized};
use vstd::prelude::*;

verus! {

/// Sample `i` of the 8x8 window at `(x0, y0)`.
pub open spec fn window_sample<A>(g: Block<A>, x0: int, y0: int, i: int) -> A {
    g[y0 + i / 8][x0 + i % 8]
}

/// Adds sample `i` of a window, less `base`.
pub open spec fn offset_step<A: Amount>(g: Block<A>, x0: int, y0: int, base: A) -> spec_fn(
    int,
    A,
) -> A {
    |i: int, sum: A| sum.plus_spec(window_sample(g, x0, y0, i).minus_spec(base))
}

/// Mean of a window, taken relative to its first sample.
pub open spec fn window_mean<A: Amount>(g: Block<A>, x0: int, y0: int) -> A {
    let base = g[y0][x0];
    base.plus_spec(
        eight_summed(folded(8, in_turn(8), offset_step(g, x0, y0, base), 64)).times_spec(
            A::ratio_spec(1, 64),
        ),
    )
}

/// Adds the product of the deviations of sample `i` of two windows.
pub open spec fn product_step<A: Amount>(
    a: Block<A>,
    mean_a: A,
    b: Block<A>,
    mean_b: A,
    x0: int,
    y0: int,
) -> spec_fn(int, A) -> A {
    |i: int, sum: A|
        window_sample(a, x0, y0, i).minus_spec(mean_a).fused_spec(
            window_sample(b, x0, y0, i).minus_spec(mean_b),
            sum,
        )
}

/// Covariance of two windows.
pub open spec fn covariance_of<A: Amount>(
    a: Block<A>,
    mean_a: A,
    b: Block<A>,
    mean_b: A,
    x0: int,
    y0: int,
) -> A {
    eight_summed(
        folded(8, in_turn(8), product_step(a, mean_a, b, mean_b, x0, y0), 64),
    ).times_spec(A::ratio_spec(1, 64))
}

/// What the similarity of a window lacks, 64 times over.
pub open spec fn window_deficit<A: Amount>(o: Block<A>, r: Block<A>, x0: int, y0: int) -> A {
    let c1 = A::ratio_spec(1, 10000);
    let c2 = A::ratio_spec(9, 10000);
    let one = A::ratio_spec(1, 1);
    let two = A::ratio_spec(2, 1);
    let mo = window_mean(o, x0, y0);
    let mr = window_mean(r, x0, y0);
    let vo = covariance_of(o, mo, o, mo, x0, y0);
    let vr = covariance_of(r, mr, r, mr, x0, y0);
    let cov = covariance_of(o, mo, r, mr, x0, y0);
    let luminance = two.times_spec(mo).times_spec(mr).plus_spec(c1).over_spec(
        mo.times_spec(mo).plus_spec(mr.times_spec(mr)).plus_spec(c1),
    );
    let structure = two.times_spec(cov).plus_spec(c2).over_spec(
        vo.plus_spec(vr).plus_spec(c2),
    );
    one.minus_spec(luminance.times_spec(structure)).times_spec(A::ratio_spec(64, 1))
}

/// The deficits of the leading `n` windows of a row of windows, added to `start`.
pub open spec fn row_deficit<A: Amount>(
    start: A,
    o: Block<A>,
    r: Block<A>,
    wy: int,
    n: int,
) -> A
    decreases n,
{
    if n <= 0 {
        start
    } else {
        row_deficit(start, o, r, wy, n - 1).plus_spec(window_deficit(o, r, 8 * (n - 1), 8 * wy))
    }
}

/// The deficits of the leading `rows` rows of `n` windows.
pub open spec fn deficit_of<A: Amount>(o: Block<A>, r: Block<A>, n: int, rows: int) -> A
    decreases rows,
{
    if rows <= 0 {
        A::zero_spec()
    } else {
        row_deficit(deficit_of(o, r, n, rows - 1), o, r, rows - 1, n)
    }
}

fn mean_at<A: Amount>(g: &Vec<Vec<A>>, x0: usize, y0: usize, w: usize, h: usize) -> (r: A)
    requires
        g@.len() == h,
        forall|j: int| 0 <= j < h ==> (#[trigger] g@[j])@.len() == w,
        x0 + 8 <= w,
        y0 + 8 <= h,
    ensures
        r == window_mean(grid(g@), x0 as int, y0 as int),
{
    assert(g@[y0 as int]@.len() == w);
    let base: A = g[y0][x0];
    let ghost f = offset_step(grid(g@), x0 as int, y0 as int, base);
    let mut sum: Vec<A> = make_lanes(8);
    let mut i: usize = 0;
    while i < 64
        invariant
            i <= 64,
            g@.len() == h,
            forall|j: int| 0 <= j < h ==> (#[trigger] g@[j])@.len() == w,
            x0 + 8 <= w,
            y0 + 8 <= h,
            f == offset_step(grid(g@), x0 as int, y0 as int, base),
            sum@ == folded(8, in_turn(8), f, i as int),
        decreases 64 - i,
    {
        proof {
            lemma_folded_len(8, in_turn(8), f, i as int);
        }
        assert(g@[y0 + i / 8]@.len() == w);
        let l: usize = i % 8;
        sum[l] = sum[l].plus(g[y0 + i / 8][x0 + i % 8].minus(base));
        i += 1;
    }
    proof {
        lemma_folded_len(8, in_turn(8), f, 64);
    }
    base.plus(hsum256(&sum).times(A::ratio(1, 64)))
}

fn covariance_at<A: Amount>(
    a: &Vec<Vec<A>>,
    mean_a: A,
    b: &Vec<Vec<A>>,
    mean_b: A,
    x0: usize,
    y0: usize,
    w: usize,
    h: usize,
) -> (r: A)
    requires
        a@.len() == h,
        b@.len() == h,
        forall|j: int| 0 <= j < h ==> (#[trigger] a@[j])@.len() == w,
        forall|j: int| 0 <= j < h ==> (#[trigger] b@[j])@.len() == w,
        x0 + 8 <= w,
        y0 + 8 <= h,
    ensures
        r == covariance_of(grid(a@), mean_a, grid(b@), mean_b, x0 as int, y0 as int),
{
    let ghost f = product_step(grid(a@), mean_a, grid(b@), mean_b, x0 as int, y0 as int);
    let mut sum: Vec<A> = make_lanes(8);
    let mut i: usize = 0;
    while i < 64
        invariant
            i <= 64,
            a@.len() == h,
            b@.len() == h,
            forall|j: int| 0 <= j < h ==> (#[trigger] a@[j])@.len() == w,
            forall|j: int| 0 <= j < h ==> (#[trigger] b@[j])@.len() == w,
            x0 + 8 <= w,
            y0 + 8 <= h,
            f == product_step(grid(a@), mean_a, grid(b@), mean_b, x0 as int, y0 as int),
            sum@ == folded(8, in_turn(8), f, i as int),
        decreases 64 - i,
    {
        proof {
            lemma_folded_len(8, in_turn(8), f, i as int);
        }
        let (y, x): (usize, usize) = (y0 + i / 8, x0 + i % 8);
        assert(a@[y as int]@.len() == w);
        assert(b@[y as int]@.len() == w);
        let l: usize = i % 8;
        sum[l] = a[y][x].minus(mean_a).fused(b[y][x].minus(mean_b), sum[l]);
        i += 1;
    }
    proof {
        lemma_folded_len(8, in_turn(8), f, 64);
    }
    hsum256(&sum).times(A::ratio(1, 64))
}

fn deficit_at<A: Amount>(
    o: &Vec<Vec<A>>,
    r: &Vec<Vec<A>>,
    x0: usize,
    y0: usize,
    w: usize,
    h: usize,
) -> (d: A)
    requires
        o@.len() == h,
        r@.len() == h,
        forall|j: int| 0 <= j < h ==> (#[trigger] o@[j])@.len() == w,
        forall|j: int| 0 <= j < h ==> (#[trigger] r@[j])@.len() == w,
        x0 + 8 <= w,
        y0 + 8 <= h,
    ensures
        d == window_deficit(grid(o@), grid(r@), x0 as int, y0 as int),
{
    let c1: A = A::ratio(1, 10000);
    let c2: A = A::ratio(9, 10000);
    let two: A = A::ratio(2, 1);
    let mo: A = mean_at(o, x0, y0, w, h);
    let mr: A = mean_at(r, x0, y0, w, h);
    let vo: A = covariance_at(o, mo, o, mo, x0, y0, w, h);
    let vr: A = covariance_at(r, mr, r, mr, x0, y0, w, h);
    let cov: A = covariance_at(o, mo, r, mr, x0, y0, w, h);
    let luminance: A = two.times(mo).times(mr).plus(c1).over(
        mo.times(mo).plus(mr.times(mr)).plus(c1),
    );
    let structure: A = two.times(cov).plus(c2).over(vo.plus(vr).plus(c2));
    A::ratio(1, 1).minus(luminance.times(structure)).times(A::ratio(64, 1))
}

/// What the similarity of two planes lacks, over all of their 8x8 windows.
pub fn ssim_deficit<A: Amount>(o: &Vec<Vec<A>>, r: &Vec<Vec<A>>, w: usize, h: usize) -> (d: A)
    requires
        sized(grid(o@), w as int, h as int),
        sized(grid(r@), w as int, h as int),
    ensures
        d == deficit_of(grid(o@), grid(r@), w as int / 8, h as int / 8),
{
    assert(grid(o@).len() == h && grid(r@).len() == h);
    proof {
        lemma_row_lengths(o@, w as int);
        lemma_row_lengths(r@, w as int);
    }
    let mut total: A = A::zero();
    let mut wy: usize = 0;
    while wy < h / 8
        invariant
            wy <= h / 8,
            o@.len() == h,
            r@.len() == h,
            forall|j: int| 0 <= j < h ==> (#[trigger] o@[j])@.len() == w,
            forall|j: int| 0 <= j < h ==> (#[trigger] r@[j])@.len() == w,
            total == deficit_of(grid(o@), grid(r@), w as int / 8, wy as int),
        decreases h / 8 - wy,
    {
        let ghost start = total;
        let mut wx: usize = 0;
        while wx < w / 8
            invariant
                wx <= w / 8,
                wy < h / 8,
                o@.len() == h,
                r@.len() == h,
                forall|j: int| 0 <= j < h ==> (#[trigger] o@[j])@.len() == w,
                forall|j: int| 0 <= j < h ==> (#[trigger] r@[j])@.len() == w,
                total == row_deficit(start, grid(o@), grid(r@), wy as int, wx as int),
            decreases w / 8 - wx,
        {
            total = total.plus(deficit_at(o, r, 8 * wx, 8 * wy, w, h));
            wx += 1;
        }
        wy += 1;
    }
    total
}

} // verus!
