//! What a region looks like: how much of it is a smooth gradient, and how visible
//! the seams between its blocks are.

use crate::adaptive_quant::{magnitude, magnitude_spec};
use crate::amount::{clamped, clamped_spec, Amount};
use crate::opsin::{edge_sample, Image3, Planes};
use crate::small_transform::Block;
use crate::strategy::{STRATEGY_DCT16X8, STRATEGY_DCT8X16};
use crate::transform::{grid, lemma_row_lengths, sized};
use crate::tuning::{
    knob, knob_spec, pair_alphas, rerank_pair_gradient_alphas, GradientRegionStats,
    RERANK_PAIR_GRADIENT_PEAK_COARSE,
};
use vstd::prelude::*;

verus! {

/// Sum of the leading `n` of the 4x4 luma samples at `(x, y)`.
pub open spec fn cell_sum<A: Amount>(v: Planes<A>, w: int, h: int, x: int, y: int, n: int) -> A
    decreases n,
{
    if n <= 0 {
        A::zero_spec()
    } else {
        cell_sum(v, w, h, x, y, n - 1).plus_spec(
            edge_sample(v, w, h, 1, x + (n - 1) % 4, y + (n - 1) / 4),
        )
    }
}

/// Sum of the squares of the same.
pub open spec fn cell_squares<A: Amount>(v: Planes<A>, w: int, h: int, x: int, y: int, n: int) -> A
    decreases n,
{
    if n <= 0 {
        A::zero_spec()
    } else {
        let s = edge_sample(v, w, h, 1, x + (n - 1) % 4, y + (n - 1) / 4);
        s.fused_spec(s, cell_squares(v, w, h, x, y, n - 1))
    }
}

/// Chroma of the leading `n` of the 4x4 samples at `(x, y)`, added to `start`.
pub open spec fn cell_chroma<A: Amount>(
    start: A,
    v: Planes<A>,
    w: int,
    h: int,
    x: int,
    y: int,
    n: int,
) -> A
    decreases n,
{
    if n <= 0 {
        start
    } else {
        let sx = x + (n - 1) % 4;
        let sy = y + (n - 1) / 4;
        cell_chroma(start, v, w, h, x, y, n - 1).plus_spec(
            magnitude_spec(edge_sample(v, w, h, 0, sx, sy)).plus_spec(
                magnitude_spec(
                    edge_sample(v, w, h, 2, sx, sy).minus_spec(edge_sample(v, w, h, 1, sx, sy)),
                ),
            ),
        )
    }
}

/// Mean of the 4x4 luma samples at `(x, y)`.
pub open spec fn cell_mean<A: Amount>(v: Planes<A>, w: int, h: int, x: int, y: int) -> A {
    cell_sum(v, w, h, x, y, 16).times_spec(A::ratio_spec(1, 16))
}

/// Variance of the same.
pub open spec fn cell_variance<A: Amount>(v: Planes<A>, w: int, h: int, x: int, y: int) -> A {
    let m = cell_mean(v, w, h, x, y);
    cell_squares(v, w, h, x, y, 16).times_spec(A::ratio_spec(1, 16)).minus_spec(
        m.times_spec(m),
    ).greater_spec(A::zero_spec())
}

/// A region of samples: where it begins and how many cells of 4x4 samples wide it
/// is.
pub struct CellGrid {
    pub px: usize,
    pub py: usize,
    pub cells_x: usize,
    pub cells_y: usize,
}

impl CellGrid {
    /// The region is not empty and lies in range.
    pub open spec fn wf(&self) -> bool {
        &&& 1 <= self.cells_x <= 16
        &&& 1 <= self.cells_y <= 16
        &&& self.px + 64 <= usize::MAX
        &&& self.py + 64 <= usize::MAX
    }

    pub open spec fn count(&self) -> int {
        self.cells_x * self.cells_y
    }

    /// Left column of cell `k`.
    pub open spec fn x(&self, k: int) -> int {
        self.px + 4 * (k % (self.cells_x as int))
    }

    /// Top row of cell `k`.
    pub open spec fn y(&self, k: int) -> int {
        self.py + 4 * (k / (self.cells_x as int))
    }
}

/// The means of the cells.
pub open spec fn means_of<A: Amount>(v: Planes<A>, w: int, h: int, g: CellGrid) -> Seq<A> {
    Seq::new(g.count() as nat, |k: int| cell_mean(v, w, h, g.x(k), g.y(k)))
}

/// The variances within the leading `n` cells.
pub open spec fn within_of<A: Amount>(v: Planes<A>, w: int, h: int, g: CellGrid, n: int) -> A
    decreases n,
{
    if n <= 0 {
        A::zero_spec()
    } else {
        within_of(v, w, h, g, n - 1).plus_spec(cell_variance(v, w, h, g.x(n - 1), g.y(n - 1)))
    }
}

/// The chroma of the leading `n` cells.
pub open spec fn chroma_of<A: Amount>(v: Planes<A>, w: int, h: int, g: CellGrid, n: int) -> A
    decreases n,
{
    if n <= 0 {
        A::zero_spec()
    } else {
        cell_chroma(chroma_of(v, w, h, g, n - 1), v, w, h, g.x(n - 1), g.y(n - 1), 16)
    }
}

/// The sum of the leading `n` values.
pub open spec fn sum_of<A: Amount>(s: Seq<A>, n: int) -> A
    decreases n,
{
    if n <= 0 {
        A::zero_spec()
    } else {
        sum_of(s, n - 1).plus_spec(s[n - 1])
    }
}

/// The sum of the squared deviations of the leading `n` values.
pub open spec fn deviations<A: Amount>(s: Seq<A>, mean: A, n: int) -> A
    decreases n,
{
    if n <= 0 {
        A::zero_spec()
    } else {
        let d = s[n - 1].minus_spec(mean);
        deviations(s, mean, n - 1).plus_spec(d.times_spec(d))
    }
}

/// What the sums over a region amount to: the share of the variance between the
/// cells in all of it, the mean, and the chroma per sample.
pub open spec fn finished<A: Amount>(
    means: Seq<A>,
    within_sum: A,
    chroma_sum: A,
    pixels: int,
    eps: A,
) -> GradientRegionStats<A> {
    let n = A::ratio_spec(means.len() as i64, 1);
    let within = within_sum.over_spec(n);
    let grand = sum_of(means, means.len() as int).over_spec(n);
    let lf = deviations(means, grand, means.len() as int).over_spec(n);
    GradientRegionStats {
        dominance: lf.over_spec(lf.plus_spec(within).plus_spec(eps)),
        mean: grand,
        chroma: chroma_sum.over_spec(A::ratio_spec(pixels as i64, 1)),
    }
}

/// Turns the sums over a region into statistics.
pub fn finish_gradient_region_stats<A: Amount>(
    means: &Vec<A>,
    within_sum: A,
    chroma_sum: A,
    pixels: usize,
    eps: A,
) -> (r: GradientRegionStats<A>)
    requires
        means@.len() <= 256,
        pixels <= 4096,
    ensures
        r == finished(means@, within_sum, chroma_sum, pixels as int, eps),
{
    let n: A = A::ratio(means.len() as i64, 1);
    let within: A = within_sum.over(n);
    let mut sum: A = A::zero();
    let mut i: usize = 0;
    while i < means.len()
        invariant
            i <= means@.len(),
            sum == sum_of(means@, i as int),
        decreases means@.len() - i,
    {
        sum = sum.plus(means[i]);
        i += 1;
    }
    let grand: A = sum.over(n);
    let mut spread: A = A::zero();
    let mut i: usize = 0;
    while i < means.len()
        invariant
            i <= means@.len(),
            spread == deviations(means@, grand, i as int),
        decreases means@.len() - i,
    {
        let d: A = means[i].minus(grand);
        spread = spread.plus(d.times(d));
        i += 1;
    }
    let lf: A = spread.over(n);
    GradientRegionStats {
        dominance: lf.over(lf.plus(within).plus(eps)),
        mean: grand,
        chroma: chroma_sum.over(A::ratio(pixels as i64, 1)),
    }
}

fn scan_cell<A: Amount>(img: &Image3<A>, x: usize, y: usize) -> (r: (A, A))
    requires
        img.wf(),
        img.width() > 0,
        img.height() > 0,
        x + 4 <= usize::MAX,
        y + 4 <= usize::MAX,
    ensures
        r.0 == cell_sum(
            img@,
            img.width() as int,
            img.height() as int,
            x as int,
            y as int,
            16,
        ),
        r.1 == cell_squares(
            img@,
            img.width() as int,
            img.height() as int,
            x as int,
            y as int,
            16,
        ),
{
    let mut s: A = A::zero();
    let mut s2: A = A::zero();
    let mut i: usize = 0;
    while i < 16
        invariant
            i <= 16,
            img.wf(),
            img.width() > 0,
            img.height() > 0,
            x + 4 <= usize::MAX,
            y + 4 <= usize::MAX,
            s == cell_sum(
                img@,
                img.width() as int,
                img.height() as int,
                x as int,
                y as int,
                i as int,
            ),
            s2 == cell_squares(
                img@,
                img.width() as int,
                img.height() as int,
                x as int,
                y as int,
                i as int,
            ),
        decreases 16 - i,
    {
        let v: A = img.edge(1, x + i % 4, y + i / 4, 0, 0);
        s = s.plus(v);
        s2 = v.fused(v, s2);
        i += 1;
    }
    (s, s2)
}

fn scan_chroma<A: Amount>(img: &Image3<A>, start: A, x: usize, y: usize) -> (r: A)
    requires
        img.wf(),
        img.width() > 0,
        img.height() > 0,
        x + 4 <= usize::MAX,
        y + 4 <= usize::MAX,
    ensures
        r == cell_chroma(
            start,
            img@,
            img.width() as int,
            img.height() as int,
            x as int,
            y as int,
            16,
        ),
{
    let mut sum: A = start;
    let mut i: usize = 0;
    while i < 16
        invariant
            i <= 16,
            img.wf(),
            img.width() > 0,
            img.height() > 0,
            x + 4 <= usize::MAX,
            y + 4 <= usize::MAX,
            sum == cell_chroma(
                start,
                img@,
                img.width() as int,
                img.height() as int,
                x as int,
                y as int,
                i as int,
            ),
        decreases 16 - i,
    {
        let (sx, sy): (usize, usize) = (x + i % 4, y + i / 4);
        let v: A = img.edge(1, sx, sy, 0, 0);
        let a: A = magnitude(img.edge(0, sx, sy, 0, 0));
        let b: A = magnitude(img.edge(2, sx, sy, 0, 0).minus(v));
        sum = sum.plus(a.plus(b));
        i += 1;
    }
    sum
}

fn scan_region<A: Amount>(img: &Image3<A>, g: &CellGrid, with_chroma: bool, eps: A) -> (r:
    GradientRegionStats<A>)
    requires
        img.wf(),
        img.width() > 0,
        img.height() > 0,
        g.wf(),
    ensures
        r == finished(
            means_of(img@, img.width() as int, img.height() as int, *g),
            within_of(img@, img.width() as int, img.height() as int, *g, g.count()),
            if with_chroma {
                chroma_of(img@, img.width() as int, img.height() as int, *g, g.count())
            } else {
                A::zero_spec()
            },
            16 * g.count(),
            eps,
        ),
{
    let ghost v = img@;
    let ghost w = img.width() as int;
    let ghost h = img.height() as int;
    assert(1 <= g.cells_x * g.cells_y <= 256) by (nonlinear_arith)
        requires
            1 <= g.cells_x <= 16,
            1 <= g.cells_y <= 16,
    ;
    let n: usize = g.cells_x * g.cells_y;
    let mut means: Vec<A> = Vec::new();
    let mut within: A = A::zero();
    let mut chroma: A = A::zero();
    let mut k: usize = 0;
    while k < n
        invariant
            k <= n,
            n == g.count(),
            n <= 256,
            img.wf(),
            img.width() > 0,
            img.height() > 0,
            v == img@,
            w == img.width(),
            h == img.height(),
            g.wf(),
            means@.len() == k,
            forall|i: int| 0 <= i < k ==> #[trigger] means@[i] == means_of(v, w, h, *g)[i],
            within == within_of(v, w, h, *g, k as int),
            with_chroma ==> chroma == chroma_of(v, w, h, *g, k as int),
            !with_chroma ==> chroma == A::zero_spec(),
        decreases n - k,
    {
        let (cx, cy): (usize, usize) = (k % g.cells_x, k / g.cells_x);
        assert(cy < 16) by (nonlinear_arith)
            requires
                cy == k as int / g.cells_x as int,
                k < g.cells_x * g.cells_y,
                1 <= g.cells_x <= 16,
                1 <= g.cells_y <= 16,
        ;
        let (x, y): (usize, usize) = (g.px + 4 * cx, g.py + 4 * cy);
        let (s, s2): (A, A) = scan_cell(img, x, y);
        let m: A = s.times(A::ratio(1, 16));
        means.push(m);
        within = within.plus(
            s2.times(A::ratio(1, 16)).minus(m.times(m)).greater(A::zero()),
        );
        if with_chroma {
            chroma = scan_chroma(img, chroma, x, y);
        }
        k += 1;
    }
    assert(means@ =~= means_of(v, w, h, *g));
    finish_gradient_region_stats(&means, within, chroma, 16 * n, eps)
}

/// Statistics of a region's luma.
pub fn gradient_region_stats<A: Amount>(img: &Image3<A>, g: &CellGrid, eps: A) -> (r:
    GradientRegionStats<A>)
    requires
        img.wf(),
        img.width() > 0,
        img.height() > 0,
        g.wf(),
    ensures
        r == finished(
            means_of(img@, img.width() as int, img.height() as int, *g),
            within_of(img@, img.width() as int, img.height() as int, *g, g.count()),
            A::zero_spec(),
            16 * g.count(),
            eps,
        ),
{
    scan_region(img, g, false, eps)
}

/// Statistics of a region's luma and chroma.
pub fn gradient_region_stats_with_chroma<A: Amount>(img: &Image3<A>, g: &CellGrid, eps: A) -> (r:
    GradientRegionStats<A>)
    requires
        img.wf(),
        img.width() > 0,
        img.height() > 0,
        g.wf(),
    ensures
        r == finished(
            means_of(img@, img.width() as int, img.height() as int, *g),
            within_of(img@, img.width() as int, img.height() as int, *g, g.count()),
            chroma_of(img@, img.width() as int, img.height() as int, *g, g.count()),
            16 * g.count(),
            eps,
        ),
{
    scan_region(img, g, true, eps)
}

/// The cells of a rectangular pair of blocks at sample `(px, py)`.
pub open spec fn pair_grid(strategy: u8, px: usize, py: usize) -> CellGrid {
    if strategy == STRATEGY_DCT16X8 {
        CellGrid { px, py, cells_x: 2, cells_y: 4 }
    } else {
        CellGrid { px, py, cells_x: 4, cells_y: 2 }
    }
}

/// The statistics that weigh the gradients of a region: chroma counts from the
/// distance on where peaks are weighed coarsely.
pub open spec fn weighed_stats<A: Amount>(
    v: Planes<A>,
    w: int,
    h: int,
    g: CellGrid,
    distance: A,
) -> GradientRegionStats<A> {
    let fine = distance.less_spec(knob_spec(RERANK_PAIR_GRADIENT_PEAK_COARSE@[1]));
    finished(
        means_of(v, w, h, g),
        within_of(v, w, h, g, g.count()),
        if fine {
            A::zero_spec()
        } else {
            chroma_of(v, w, h, g, g.count())
        },
        16 * g.count(),
        A::ratio_spec(1, 100_000),
    )
}

/// Weights of the gradient and the peak term for a transform at sample `(px, py)`:
/// only rectangular pairs of blocks have any.
pub open spec fn alphas_at<A: Amount>(
    v: Planes<A>,
    w: int,
    h: int,
    strategy: u8,
    px: usize,
    py: usize,
    distance: A,
) -> (A, A) {
    pair_alphas(
        strategy == STRATEGY_DCT16X8 || strategy == STRATEGY_DCT8X16,
        distance,
        weighed_stats(v, w, h, pair_grid(strategy, px, py), distance),
    )
}

/// Finds the weights of the gradient and the peak term that reranking applies to a
/// transform at sample `(px, py)`.
pub fn find_pair_alphas<A: Amount>(
    img: &Image3<A>,
    strategy: u8,
    px: usize,
    py: usize,
    distance: A,
) -> (r: (A, A))
    requires
        img.wf(),
        img.width() > 0,
        img.height() > 0,
        px + 64 <= usize::MAX,
        py + 64 <= usize::MAX,
    ensures
        r == alphas_at(
            img@,
            img.width() as int,
            img.height() as int,
            strategy,
            px,
            py,
            distance,
        ),
{
    let g: CellGrid = if strategy == STRATEGY_DCT16X8 {
        CellGrid { px, py, cells_x: 2, cells_y: 4 }
    } else if strategy == STRATEGY_DCT8X16 {
        CellGrid { px, py, cells_x: 4, cells_y: 2 }
    } else {
        return (A::zero(), A::zero());
    };
    let coarse: [i64; 2] = RERANK_PAIR_GRADIENT_PEAK_COARSE;
    let eps: A = A::ratio(1, 100_000);
    let stats: GradientRegionStats<A> = if distance.less(knob(coarse[1])) {
        gradient_region_stats(img, &g, eps)
    } else {
        gradient_region_stats_with_chroma(img, &g, eps)
    };
    rerank_pair_gradient_alphas(true, distance, &stats)
}

/// How much the error jumps at a seam beyond half of what the source does there
/// and beyond `floor`.
pub open spec fn seam_excess<A: Amount>(a: A, b: A, source_a: A, source_b: A, floor: A) -> A {
    magnitude_spec(b.minus_spec(a)).minus_spec(
        A::ratio_spec(1, 2).times_spec(magnitude_spec(source_b.minus_spec(source_a))),
    ).minus_spec(floor).greater_spec(A::zero_spec())
}

fn excess_at<A: Amount>(a: A, b: A, source_a: A, source_b: A, floor: A) -> (r: A)
    ensures
        r == seam_excess(a, b, source_a, source_b, floor),
{
    magnitude(b.minus(a)).minus(
        A::ratio(1, 2).times(magnitude(source_b.minus(source_a))),
    ).minus(floor).greater(A::zero())
}

/// Sums over the seams of one plane.
#[derive(Clone, Copy)]
pub struct SeamSums<A> {
    pub channel: A,
    pub peak: A,
}

/// The sums with one more sample at a seam.
pub open spec fn with_excess<A: Amount>(s: SeamSums<A>, excess: A, weight: A) -> SeamSums<A> {
    SeamSums {
        channel: excess.fused_spec(excess, s.channel),
        peak: s.peak.greater_spec(weight.times_spec(excess).times_spec(excess)),
    }
}

/// A plane of errors over the samples at `(px, py)` of plane `c` of an image.
pub struct SeamView<A> {
    pub v: Planes<A>,
    pub w: int,
    pub h: int,
    pub c: int,
    pub px: int,
    pub py: int,
    pub error: Block<A>,
    pub floor: A,
    pub weight: A,
}

/// The leading `n` samples along the seam left of column `x`.
pub open spec fn upright_seam<A: Amount>(s: SeamSums<A>, e: SeamView<A>, x: int, n: int) -> SeamSums<
    A,
>
    decreases n,
{
    if n <= 0 {
        s
    } else {
        let y = n - 1;
        with_excess(
            upright_seam(s, e, x, n - 1),
            seam_excess(
                e.error[y][x - 1],
                e.error[y][x],
                edge_sample(e.v, e.w, e.h, e.c, e.px + x - 1, e.py + y),
                edge_sample(e.v, e.w, e.h, e.c, e.px + x, e.py + y),
                e.floor,
            ),
            e.weight,
        )
    }
}

/// The leading `n` upright seams, eight columns apart.
pub open spec fn upright_seams<A: Amount>(
    s: SeamSums<A>,
    e: SeamView<A>,
    height: int,
    n: int,
) -> SeamSums<A>
    decreases n,
{
    if n <= 0 {
        s
    } else {
        upright_seam(upright_seams(s, e, height, n - 1), e, 8 * n, height)
    }
}

/// The leading `n` samples along the seam above row `y`.
pub open spec fn level_seam<A: Amount>(s: SeamSums<A>, e: SeamView<A>, y: int, n: int) -> SeamSums<A>
    decreases n,
{
    if n <= 0 {
        s
    } else {
        let x = n - 1;
        with_excess(
            level_seam(s, e, y, n - 1),
            seam_excess(
                e.error[y - 1][x],
                e.error[y][x],
                edge_sample(e.v, e.w, e.h, e.c, e.px + x, e.py + y - 1),
                edge_sample(e.v, e.w, e.h, e.c, e.px + x, e.py + y),
                e.floor,
            ),
            e.weight,
        )
    }
}

/// The leading `n` level seams, eight rows apart.
pub open spec fn level_seams<A: Amount>(
    s: SeamSums<A>,
    e: SeamView<A>,
    width: int,
    n: int,
) -> SeamSums<A>
    decreases n,
{
    if n <= 0 {
        s
    } else {
        level_seam(level_seams(s, e, width, n - 1), e, 8 * n, width)
    }
}

/// Number of seams across `n` samples.
pub open spec fn seams_across(n: int) -> int {
    if n <= 0 {
        0
    } else {
        (n - 1) / 8
    }
}

/// The seams of a plane: upright ones first.
pub open spec fn plane_seams<A: Amount>(
    peak: A,
    e: SeamView<A>,
    width: int,
    height: int,
) -> SeamSums<A> {
    level_seams(
        upright_seams(
            SeamSums { channel: A::zero_spec(), peak },
            e,
            height,
            seams_across(width),
        ),
        e,
        width,
        seams_across(height),
    )
}

/// Jump that is never visible at a distance.
pub open spec fn seam_floor<A: Amount>(distance: A) -> A {
    let mix = clamped_spec(
        distance.minus_spec(A::ratio_spec(19, 10)).over_spec(A::ratio_spec(1, 10)),
        A::zero_spec(),
        A::ratio_spec(1, 1),
    );
    distance.times_spec(
        mix.fused_spec(
            A::ratio_spec(45, 10000).minus_spec(A::ratio_spec(15, 10000)),
            A::ratio_spec(15, 10000),
        ),
    )
}

/// What the leading `n` planes add up to: weighted energy and largest peak.
pub open spec fn planes_seams<A: Amount>(
    v: Planes<A>,
    w: int,
    h: int,
    px: int,
    py: int,
    errors: Seq<Block<A>>,
    weights: Seq<A>,
    width: int,
    height: int,
    distance: A,
    n: int,
) -> (A, A)
    decreases n,
{
    if n <= 0 {
        (A::zero_spec(), A::zero_spec())
    } else {
        let head = planes_seams(
            v,
            w,
            h,
            px,
            py,
            errors,
            weights,
            width,
            height,
            distance,
            n - 1,
        );
        let s = plane_seams(
            head.1,
            SeamView {
                v,
                w,
                h,
                c: n - 1,
                px,
                py,
                error: errors[n - 1],
                floor: seam_floor(distance),
                weight: weights[n - 1],
            },
            width,
            height,
        );
        (head.0.plus_spec(weights[n - 1].times_spec(s.channel)), s.peak)
    }
}

fn scan_seams<A: Amount>(
    img: &Image3<A>,
    c: usize,
    px: usize,
    py: usize,
    error: &Vec<Vec<A>>,
    width: usize,
    height: usize,
    floor: A,
    weight: A,
    peak: A,
) -> (r: SeamSums<A>)
    requires
        img.wf(),
        img.width() > 0,
        img.height() > 0,
        c < 3,
        width <= 64,
        height <= 64,
        px + 64 <= usize::MAX,
        py + 64 <= usize::MAX,
        sized(grid(error@), width as int, height as int),
    ensures
        r == plane_seams(
            peak,
            SeamView {
                v: img@,
                w: img.width() as int,
                h: img.height() as int,
                c: c as int,
                px: px as int,
                py: py as int,
                error: grid(error@),
                floor,
                weight,
            },
            width as int,
            height as int,
        ),
{
    let ghost e = SeamView {
        v: img@,
        w: img.width() as int,
        h: img.height() as int,
        c: c as int,
        px: px as int,
        py: py as int,
        error: grid(error@),
        floor,
        weight,
    };
    assert(grid(error@).len() == height);
    proof {
        lemma_row_lengths(error@, width as int);
    }
    let ghost first = SeamSums { channel: A::zero_spec(), peak };
    let mut s: SeamSums<A> = SeamSums { channel: A::zero(), peak };
    let uprights: usize = if width == 0 {
        0
    } else {
        (width - 1) / 8
    };
    let mut k: usize = 0;
    while k < uprights
        invariant
            k <= uprights,
            uprights == seams_across(width as int),
            img.wf(),
            img.width() > 0,
            img.height() > 0,
            c < 3,
            width <= 64,
            height <= 64,
            px + 64 <= usize::MAX,
            py + 64 <= usize::MAX,
            error@.len() == height,
            forall|j: int| 0 <= j < height ==> (#[trigger] error@[j])@.len() == width,
            e == (SeamView {
                v: img@,
                w: img.width() as int,
                h: img.height() as int,
                c: c as int,
                px: px as int,
                py: py as int,
                error: grid(error@),
                floor,
                weight,
            }),
            s == upright_seams(first, e, height as int, k as int),
        decreases uprights - k,
    {
        let x: usize = 8 * (k + 1);
        let ghost start = s;
        let mut y: usize = 0;
        while y < height
            invariant
                y <= height,
                8 <= x < width,
                img.wf(),
                img.width() > 0,
                img.height() > 0,
                c < 3,
                width <= 64,
                height <= 64,
                px + 64 <= usize::MAX,
                py + 64 <= usize::MAX,
                error@.len() == height,
                forall|j: int| 0 <= j < height ==> (#[trigger] error@[j])@.len() == width,
                e == (SeamView {
                    v: img@,
                    w: img.width() as int,
                    h: img.height() as int,
                    c: c as int,
                    px: px as int,
                    py: py as int,
                    error: grid(error@),
                    floor,
                    weight,
                }),
                s == upright_seam(start, e, x as int, y as int),
            decreases height - y,
        {
            assert(error@[y as int]@.len() == width);
            let x_excess: A = excess_at(
                error[y][x - 1],
                error[y][x],
                img.edge(c, px + x, py + y, 1, 0),
                img.edge(c, px + x, py + y, 0, 0),
                floor,
            );
            s = SeamSums {
                channel: x_excess.fused(x_excess, s.channel),
                peak: s.peak.greater(weight.times(x_excess).times(x_excess)),
            };
            y += 1;
        }
        k += 1;
    }
    let ghost mid = s;
    let levels: usize = if height == 0 {
        0
    } else {
        (height - 1) / 8
    };
    let mut k: usize = 0;
    while k < levels
        invariant
            k <= levels,
            levels == seams_across(height as int),
            img.wf(),
            img.width() > 0,
            img.height() > 0,
            c < 3,
            width <= 64,
            height <= 64,
            px + 64 <= usize::MAX,
            py + 64 <= usize::MAX,
            error@.len() == height,
            forall|j: int| 0 <= j < height ==> (#[trigger] error@[j])@.len() == width,
            e == (SeamView {
                v: img@,
                w: img.width() as int,
                h: img.height() as int,
                c: c as int,
                px: px as int,
                py: py as int,
                error: grid(error@),
                floor,
                weight,
            }),
            s == level_seams(mid, e, width as int, k as int),
        decreases levels - k,
    {
        let y: usize = 8 * (k + 1);
        let ghost start = s;
        let mut x: usize = 0;
        while x < width
            invariant
                x <= width,
                8 <= y < height,
                img.wf(),
                img.width() > 0,
                img.height() > 0,
                c < 3,
                width <= 64,
                height <= 64,
                px + 64 <= usize::MAX,
                py + 64 <= usize::MAX,
                error@.len() == height,
                forall|j: int| 0 <= j < height ==> (#[trigger] error@[j])@.len() == width,
                e == (SeamView {
                    v: img@,
                    w: img.width() as int,
                    h: img.height() as int,
                    c: c as int,
                    px: px as int,
                    py: py as int,
                    error: grid(error@),
                    floor,
                    weight,
                }),
                s == level_seam(start, e, y as int, x as int),
            decreases width - x,
        {
            assert(error@[y as int]@.len() == width);
            assert(error@[y - 1]@.len() == width);
            let y_excess: A = excess_at(
                error[y - 1][x],
                error[y][x],
                img.edge(c, px + x, py + y, 0, 1),
                img.edge(c, px + x, py + y, 0, 0),
                floor,
            );
            s = SeamSums {
                channel: y_excess.fused(y_excess, s.channel),
                peak: s.peak.greater(weight.times(y_excess).times(y_excess)),
            };
            x += 1;
        }
        k += 1;
    }
    s
}

/// The errors of the three planes as plain values.
pub open spec fn error_planes<A>(errors: Seq<Vec<Vec<A>>>) -> Seq<Block<A>> {
    Seq::new(errors.len(), |c: int| grid(errors[c]@))
}

/// Energy and largest peak of the seams between the 8x8 blocks of a footprint:
/// how much its errors jump there beyond what the source hides.
pub fn block_boundary_error_stats<A: Amount>(
    img: &Image3<A>,
    errors: &Vec<Vec<Vec<A>>>,
    weights: &[A; 3],
    px: usize,
    py: usize,
    width: usize,
    height: usize,
    distance: A,
) -> (r: (A, A))
    requires
        img.wf(),
        img.width() > 0,
        img.height() > 0,
        width <= 64,
        height <= 64,
        px + 64 <= usize::MAX,
        py + 64 <= usize::MAX,
        errors@.len() == 3,
        forall|c: int|
            0 <= c < 3 ==> sized(grid((#[trigger] errors@[c])@), width as int, height as int),
    ensures
        r == planes_seams(
            img@,
            img.width() as int,
            img.height() as int,
            px as int,
            py as int,
            error_planes(errors@),
            weights@,
            width as int,
            height as int,
            distance,
            3,
        ),
{
    let mix: A = clamped(
        distance.minus(A::ratio(19, 10)).over(A::ratio(1, 10)),
        A::zero(),
        A::ratio(1, 1),
    );
    let floor: A = distance.times(
        mix.fused(A::ratio(45, 10000).minus(A::ratio(15, 10000)), A::ratio(15, 10000)),
    );
    let mut energy: A = A::zero();
    let mut peak: A = A::zero();
    let mut c: usize = 0;
    while c < 3
        invariant
            c <= 3,
            img.wf(),
            img.width() > 0,
            img.height() > 0,
            width <= 64,
            height <= 64,
            px + 64 <= usize::MAX,
            py + 64 <= usize::MAX,
            errors@.len() == 3,
            forall|k: int|
                0 <= k < 3 ==> sized(
                    grid((#[trigger] errors@[k])@),
                    width as int,
                    height as int,
                ),
            floor == seam_floor(distance),
            (energy, peak) == planes_seams(
                img@,
                img.width() as int,
                img.height() as int,
                px as int,
                py as int,
                error_planes(errors@),
                weights@,
                width as int,
                height as int,
                distance,
                c as int,
            ),
        decreases 3 - c,
    {
        assert(sized(grid(errors@[c as int]@), width as int, height as int));
        let weight: A = weights[c];
        let s: SeamSums<A> = scan_seams(
            img,
            c,
            px,
            py,
            &errors[c],
            width,
            height,
            floor,
            weight,
            peak,
        );
        energy = energy.plus(weight.times(s.channel));
        peak = s.peak;
        c += 1;
    }
    (energy, peak)
}

/// Plane `c` of a grid of children `cxb` wide, each of eight by eight samples.
pub open spec fn assembled<A>(
    children: Seq<Seq<Block<A>>>,
    c: int,
    cxb: int,
    cyb: int,
) -> Block<A> {
    Seq::new(
        (8 * cyb) as nat,
        |y: int|
            Seq::new(
                (8 * cxb) as nat,
                |x: int| children[(y / 8) * cxb + x / 8][c][y % 8][x % 8],
            ),
    )
}

/// The three planes of a grid of children.
pub open spec fn assembled_planes<A>(children: Seq<Seq<Block<A>>>, cxb: int, cyb: int) -> Seq<
    Block<A>,
> {
    Seq::new(3, |c: int| assembled(children, c, cxb, cyb))
}

/// The planes of every child.
pub open spec fn child_planes<A>(children: Seq<Vec<Vec<Vec<A>>>>) -> Seq<Seq<Block<A>>> {
    Seq::new(children.len(), |k: int| error_planes(children[k]@))
}

fn assemble<A: Amount>(children: &Vec<Vec<Vec<Vec<A>>>>, c: usize, cxb: usize, cyb: usize) -> (r:
    Vec<Vec<A>>)
    requires
        c < 3,
        1 <= cxb <= 2,
        1 <= cyb <= 2,
        children@.len() == cxb * cyb,
        forall|k: int| 0 <= k < children@.len() ==> (#[trigger] children@[k])@.len() == 3,
        forall|k: int, p: int|
            0 <= k < children@.len() && 0 <= p < 3 ==> sized(
                grid((#[trigger] children@[k]@[p])@),
                8,
                8,
            ),
    ensures
        grid(r@) == assembled(child_planes(children@), c as int, cxb as int, cyb as int),
        sized(grid(r@), 8 * cxb as int, 8 * cyb as int),
{
    let ghost want = assembled(child_planes(children@), c as int, cxb as int, cyb as int);
    let mut out: Vec<Vec<A>> = Vec::new();
    let mut y: usize = 0;
    while y < 8 * cyb
        invariant
            y <= 8 * cyb,
            c < 3,
            1 <= cxb <= 2,
            1 <= cyb <= 2,
            children@.len() == cxb * cyb,
            forall|k: int| 0 <= k < children@.len() ==> (#[trigger] children@[k])@.len() == 3,
            forall|k: int, p: int|
                0 <= k < children@.len() && 0 <= p < 3 ==> sized(
                    grid((#[trigger] children@[k]@[p])@),
                    8,
                    8,
                ),
            want == assembled(child_planes(children@), c as int, cxb as int, cyb as int),
            out@.len() == y,
            forall|j: int| 0 <= j < y ==> (#[trigger] out@[j])@ == want[j],
        decreases 8 * cyb - y,
    {
        let mut row: Vec<A> = Vec::new();
        let mut x: usize = 0;
        while x < 8 * cxb
            invariant
                x <= 8 * cxb,
                y < 8 * cyb,
                c < 3,
                1 <= cxb <= 2,
                1 <= cyb <= 2,
                children@.len() == cxb * cyb,
                forall|k: int| 0 <= k < children@.len() ==> (#[trigger] children@[k])@.len() == 3,
                forall|k: int, p: int|
                    0 <= k < children@.len() && 0 <= p < 3 ==> sized(
                        grid((#[trigger] children@[k]@[p])@),
                        8,
                        8,
                    ),
                want == assembled(child_planes(children@), c as int, cxb as int, cyb as int),
                row@.len() == x,
                forall|i: int| 0 <= i < x ==> #[trigger] row@[i] == want[y as int][i],
            decreases 8 * cxb - x,
        {
            let (ky, kx): (usize, usize) = (y / 8, x / 8);
            assert(ky * cxb + kx < cxb * cyb) by (nonlinear_arith)
                requires
                    ky < cyb,
                    kx < cxb,
                    cyb <= 2,
                    cxb <= 2,
            ;
            assert(0 <= ky * cxb <= 2) by (nonlinear_arith)
                requires
                    ky <= 1,
                    cxb <= 2,
            ;
            let k: usize = ky * cxb + kx;
            assert(children@[k as int]@.len() == 3);
            let plane: &Vec<Vec<A>> = &children[k][c];
            assert(sized(grid(children@[k as int]@[c as int]@), 8, 8));
            assert(grid(plane@).len() == 8);
            proof {
                lemma_row_lengths(plane@, 8);
            }
            let v: A = plane[y % 8][x % 8];
            assert(child_planes(children@)[k as int][c as int] == grid(plane@));
            row.push(v);
            x += 1;
        }
        assert(row@ =~= want[y as int]);
        out.push(row);
        y += 1;
    }
    assert(grid(out@) =~= want);
    out
}

/// Seams of a mosaic: those of the errors of its children put together.
pub fn mosaic_seam_stats<A: Amount>(
    img: &Image3<A>,
    children: &Vec<Vec<Vec<Vec<A>>>>,
    weights: &[A; 3],
    px: usize,
    py: usize,
    cxb: usize,
    cyb: usize,
    distance: A,
) -> (r: (A, A))
    requires
        img.wf(),
        img.width() > 0,
        img.height() > 0,
        1 <= cxb <= 2,
        1 <= cyb <= 2,
        px + 64 <= usize::MAX,
        py + 64 <= usize::MAX,
        children@.len() == cxb * cyb,
        forall|k: int| 0 <= k < children@.len() ==> (#[trigger] children@[k])@.len() == 3,
        forall|k: int, p: int|
            0 <= k < children@.len() && 0 <= p < 3 ==> sized(
                grid((#[trigger] children@[k]@[p])@),
                8,
                8,
            ),
    ensures
        r == planes_seams(
            img@,
            img.width() as int,
            img.height() as int,
            px as int,
            py as int,
            assembled_planes(child_planes(children@), cxb as int, cyb as int),
            weights@,
            8 * cxb as int,
            8 * cyb as int,
            distance,
            3,
        ),
{
    let mut errors: Vec<Vec<Vec<A>>> = Vec::new();
    errors.push(assemble(children, 0, cxb, cyb));
    errors.push(assemble(children, 1, cxb, cyb));
    errors.push(assemble(children, 2, cxb, cyb));
    assert(error_planes(errors@) =~= assembled_planes(
        child_planes(children@),
        cxb as int,
        cyb as int,
    ));
    block_boundary_error_stats(img, &errors, weights, px, py, 8 * cxb, 8 * cyb, distance)
}

} // verus!
