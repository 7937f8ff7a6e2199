//! Structure of a block of eight by eight samples: how it varies, in which
//! direction, and how well its neighbours predict it.

use crate::amount::Amount;
use crate::lanes::{
    eight_summed, empty_lanes, four_groups, hsum256, lanes_hold, lemma_row_spread_len,
    lemma_rows_spread_len, make_lanes, row_spread, rows_spread, sum16, sum32, two_groups,
};
use crate::plane_stats::{box_downsample_2x, halved, sample_step};
use crate::small_transform::Block;
use crate::transform::{
    forward_block, forward_spec, grid, lemma_row_lengths, scale_all, scaled, sized, DctWeights,
    Storage,
};
use vstd::prelude::*;

verus! {

/// Rows go to `m` groups of eight lanes in turn, and samples to the lane of their
/// column.
pub open spec fn row_groups(m: int) -> spec_fn(int, int) -> int {
    |y: int, x: int| (y % m) * 8 + x
}

/// Adds the product of two samples.
pub open spec fn product_step<A: Amount>(p: Block<A>, q: Block<A>) -> spec_fn(int, int, A) -> A {
    |y: int, x: int, sum: A| p[y][x].fused_spec(q[y][x], sum)
}

proof fn lemma_groups_hold(m: int, w: int, rows: int)
    requires
        1 <= m,
        w <= 8,
    ensures
        lanes_hold(row_groups(m), 8 * m, w, rows),
{
    assert forall|y: int, x: int| 0 <= y < rows && 0 <= x < w implies 0 <= #[trigger] row_groups(
        m,
    )(y, x) < 8 * m by {
        assert(0 <= y % m < m) by (nonlinear_arith)
            requires
                1 <= m,
        ;
    }
}

/// Adds the products of two blocks of samples to groups of lanes.
fn add_products<A: Amount>(
    sum: &mut Vec<A>,
    p: &Vec<Vec<A>>,
    q: &Vec<Vec<A>>,
    m: usize,
    w: usize,
    h: usize,
)
    requires
        1 <= m <= 4,
        w <= 8,
        old(sum)@.len() == 8 * m,
        sized(grid(p@), w as int, h as int),
        sized(grid(q@), w as int, h as int),
    ensures
        final(sum)@ == rows_spread(
            old(sum)@,
            row_groups(m as int),
            product_step(grid(p@), grid(q@)),
            w as int,
            h as int,
        ),
        final(sum)@.len() == 8 * m,
{
    let ghost first = sum@;
    let ghost lane = row_groups(m as int);
    let ghost f = product_step(grid(p@), grid(q@));
    assert(grid(p@).len() == h && grid(q@).len() == h);
    proof {
        lemma_row_lengths(p@, w as int);
        lemma_row_lengths(q@, w as int);
        lemma_groups_hold(m as int, w as int, h as int);
    }
    let mut y: usize = 0;
    while y < h
        invariant
            y <= h,
            1 <= m <= 4,
            w <= 8,
            p@.len() == h,
            q@.len() == h,
            forall|j: int| 0 <= j < h ==> (#[trigger] p@[j])@.len() == w,
            forall|j: int| 0 <= j < h ==> (#[trigger] q@[j])@.len() == w,
            first.len() == 8 * m,
            lane == row_groups(m as int),
            f == product_step(grid(p@), grid(q@)),
            lanes_hold(lane, 8 * m, w as int, h as int),
            sum@ == rows_spread(first, lane, f, w as int, y as int),
        decreases h - y,
    {
        let ghost start = sum@;
        proof {
            lemma_rows_spread_len(first, lane, f, w as int, y as int, h as int);
        }
        let mut x: usize = 0;
        while x < w
            invariant
                x <= w,
                y < h,
                1 <= m <= 4,
                w <= 8,
                p@.len() == h,
                q@.len() == h,
                p@[y as int]@.len() == w,
                q@[y as int]@.len() == w,
                start.len() == 8 * m,
                lane == row_groups(m as int),
                f == product_step(grid(p@), grid(q@)),
                lanes_hold(lane, 8 * m, w as int, h as int),
                sum@ == row_spread(start, lane, f, y as int, x as int),
            decreases w - x,
        {
            proof {
                lemma_row_spread_len(start, lane, f, y as int, x as int, w as int, h as int);
                assert(0 <= lane(y as int, x as int) < 8 * m);
            }
            let l: usize = (y % m) * 8 + x;
            sum[l] = p[y][x].fused(q[y][x], sum[l]);
            x += 1;
        }
        y += 1;
    }
    proof {
        lemma_rows_spread_len(first, lane, f, w as int, h as int, h as int);
    }
}

/// Mean of a block, and its variance.
pub open spec fn moments_of<A: Amount>(g: Block<A>) -> (A, A) {
    let part = A::ratio_spec(1, 64);
    let mean = eight_summed(
        four_groups(rows_spread(empty_lanes(32), row_groups(4), sample_step(g), 8, 8)),
    ).times_spec(part);
    let off = centered(g, mean);
    (
        mean,
        eight_summed(
            four_groups(rows_spread(empty_lanes(32), row_groups(4), product_step(off, off), 8, 8)),
        ).times_spec(part),
    )
}

/// A block less an amount.
pub open spec fn centered<A: Amount>(g: Block<A>, mean: A) -> Block<A> {
    Seq::new(g.len(), |y: int| Seq::new(g[y].len(), |x: int| g[y][x].minus_spec(mean)))
}

/// Mean and variance of a block.
pub fn moments<A: Amount>(g: &Vec<Vec<A>>) -> (r: (A, A))
    requires
        sized(grid(g@), 8, 8),
    ensures
        r == moments_of(grid(g@)),
{
    assert(grid(g@).len() == 8);
    let part: A = A::ratio(1, 64);
    let ghost none = empty_lanes::<A>(32);
    let ghost f = sample_step(grid(g@));
    let ghost lane = row_groups(4);
    proof {
        lemma_row_lengths(g@, 8);
        lemma_groups_hold(4, 8, 8);
    }
    let mut sum: Vec<A> = make_lanes(32);
    let mut y: usize = 0;
    while y < 8
        invariant
            y <= 8,
            g@.len() == 8,
            forall|j: int| 0 <= j < 8 ==> (#[trigger] g@[j])@.len() == 8,
            none == empty_lanes::<A>(32),
            f == sample_step(grid(g@)),
            lane == row_groups(4),
            lanes_hold(lane, 32, 8, 8),
            sum@ == rows_spread(none, lane, f, 8, y as int),
        decreases 8 - y,
    {
        let ghost start = sum@;
        proof {
            lemma_rows_spread_len(none, lane, f, 8, y as int, 8);
        }
        let mut x: usize = 0;
        while x < 8
            invariant
                x <= 8,
                y < 8,
                g@.len() == 8,
                g@[y as int]@.len() == 8,
                start.len() == 32,
                f == sample_step(grid(g@)),
                lane == row_groups(4),
                lanes_hold(lane, 32, 8, 8),
                sum@ == row_spread(start, lane, f, y as int, x as int),
            decreases 8 - x,
        {
            proof {
                lemma_row_spread_len(start, lane, f, y as int, x as int, 8, 8);
                assert(0 <= lane(y as int, x as int) < 32);
            }
            let l: usize = (y % 4) * 8 + x;
            sum[l] = sum[l].plus(g[y][x]);
            x += 1;
        }
        y += 1;
    }
    proof {
        lemma_rows_spread_len(none, lane, f, 8, 8, 8);
    }
    let mean: A = sum32(&sum).times(part);
    let ghost want = centered(grid(g@), mean);
    let mut off: Vec<Vec<A>> = Vec::new();
    let mut y: usize = 0;
    while y < 8
        invariant
            y <= 8,
            g@.len() == 8,
            forall|j: int| 0 <= j < 8 ==> (#[trigger] g@[j])@.len() == 8,
            want == centered(grid(g@), mean),
            off@.len() == y,
            forall|j: int| 0 <= j < y ==> (#[trigger] off@[j])@ == want[j],
        decreases 8 - y,
    {
        let mut row: Vec<A> = Vec::new();
        let mut x: usize = 0;
        while x < 8
            invariant
                x <= 8,
                y < 8,
                g@.len() == 8,
                g@[y as int]@.len() == 8,
                row@.len() == x,
                forall|i: int|
                    0 <= i < x ==> #[trigger] row@[i] == g@[y as int]@[i].minus_spec(mean),
            decreases 8 - x,
        {
            row.push(g[y][x].minus(mean));
            x += 1;
        }
        assert(row@ =~= want[y as int]);
        off.push(row);
        y += 1;
    }
    assert(grid(off@) =~= want);
    let mut spread: Vec<A> = make_lanes(32);
    add_products(&mut spread, &off, &off, 4, 8, 8);
    (mean, sum32(&spread).times(part))
}

/// Differences of samples: those at `a` less those at `b`, both given as column
/// and row of the first sample.
pub open spec fn shifted_differences<A: Amount>(
    g: Block<A>,
    a: (int, int),
    b: (int, int),
    w: int,
    h: int,
) -> Block<A> {
    Seq::new(
        h as nat,
        |y: int|
            Seq::new(
                w as nat,
                |x: int| g[y + a.1][x + a.0].minus_spec(g[y + b.1][x + b.0]),
            ),
    )
}

fn shift_differences<A: Amount>(
    g: &Vec<Vec<A>>,
    n: usize,
    a: (usize, usize),
    b: (usize, usize),
    w: usize,
    h: usize,
) -> (r: Vec<Vec<A>>)
    requires
        n <= 8,
        sized(grid(g@), n as int, n as int),
        a.0 + w <= n,
        b.0 + w <= n,
        a.1 + h <= n,
        b.1 + h <= n,
    ensures
        grid(r@) == shifted_differences(
            grid(g@),
            (a.0 as int, a.1 as int),
            (b.0 as int, b.1 as int),
            w as int,
            h as int,
        ),
        sized(grid(r@), w as int, h as int),
{
    assert(grid(g@).len() == n);
    proof {
        lemma_row_lengths(g@, n as int);
    }
    let ghost want = shifted_differences(
        grid(g@),
        (a.0 as int, a.1 as int),
        (b.0 as int, b.1 as int),
        w as int,
        h as int,
    );
    let mut out: Vec<Vec<A>> = Vec::new();
    let mut y: usize = 0;
    while y < h
        invariant
            y <= h,
            g@.len() == n,
            n <= 8,
            forall|j: int| 0 <= j < n ==> (#[trigger] g@[j])@.len() == n,
            a.0 + w <= n,
            b.0 + w <= n,
            a.1 + h <= n,
            b.1 + h <= n,
            want == shifted_differences(
                grid(g@),
                (a.0 as int, a.1 as int),
                (b.0 as int, b.1 as int),
                w as int,
                h as int,
            ),
            out@.len() == y,
            forall|j: int| 0 <= j < y ==> (#[trigger] out@[j])@ == want[j],
        decreases h - y,
    {
        let mut row: Vec<A> = Vec::new();
        let mut x: usize = 0;
        let p: &Vec<A> = &g[y + a.1];
        let q: &Vec<A> = &g[y + b.1];
        while x < w
            invariant
                x <= w,
                n <= 8,
                a.0 + w <= n,
                b.0 + w <= n,
                p@.len() == n,
                q@.len() == n,
                row@.len() == x,
                forall|i: int|
                    0 <= i < x ==> #[trigger] row@[i] == p@[i + a.0].minus_spec(q@[i + b.0]),
            decreases w - x,
        {
            row.push(p[x + a.0].minus(q[x + b.0]));
            x += 1;
        }
        assert(row@ =~= want[y as int]);
        out.push(row);
        y += 1;
    }
    assert(grid(out@) =~= want);
    out
}


/// The entries of the structure tensor: horizontal slopes squared, horizontal times
/// vertical slopes, and vertical slopes squared.
pub open spec fn tensor_of<A: Amount>(g: Block<A>) -> (A, A, A) {
    let half = A::ratio_spec(1, 2);
    let gx = scaled(shifted_differences(g, (2, 1), (0, 1), 6, 6), half);
    let gy = scaled(shifted_differences(g, (1, 2), (1, 0), 6, 6), half);
    (product_sum(gx, gx), product_sum(gx, gy), product_sum(gy, gy))
}

/// Sum of products over six by six samples in two groups of lanes.
pub open spec fn product_sum<A: Amount>(p: Block<A>, q: Block<A>) -> A {
    eight_summed(
        two_groups(rows_spread(empty_lanes(16), row_groups(2), product_step(p, q), 6, 6)),
    )
}

fn sum_products<A: Amount>(p: &Vec<Vec<A>>, q: &Vec<Vec<A>>) -> (r: A)
    requires
        sized(grid(p@), 6, 6),
        sized(grid(q@), 6, 6),
    ensures
        r == product_sum(grid(p@), grid(q@)),
{
    let mut sum: Vec<A> = make_lanes(16);
    add_products(&mut sum, p, q, 2, 6, 6);
    sum16(&sum)
}

/// The structure tensor of a block, without its rim.
pub fn tensor<A: Amount>(g: &Vec<Vec<A>>) -> (r: (A, A, A))
    requires
        sized(grid(g@), 8, 8),
    ensures
        r == tensor_of(grid(g@)),
{
    let half: A = A::ratio(1, 2);
    let gx: Vec<Vec<A>> = scale_all(
        &shift_differences(g, 8, (2, 1), (0, 1), 6, 6),
        half,
    );
    let gy: Vec<Vec<A>> = scale_all(
        &shift_differences(g, 8, (1, 2), (1, 0), 6, 6),
        half,
    );
    (sum_products(&gx, &gx), sum_products(&gx, &gy), sum_products(&gy, &gy))
}

/// Sum of squares over six by six samples.
pub open spec fn error_sum<A: Amount>(e: Block<A>) -> A {
    eight_summed(rows_spread(empty_lanes(8), row_groups(1), product_step(e, e), 6, 6))
}

fn sum_squares<A: Amount>(e: &Vec<Vec<A>>) -> (r: A)
    requires
        sized(grid(e@), 6, 6),
    ensures
        r == error_sum(grid(e@)),
{
    let mut sum: Vec<A> = make_lanes(8);
    add_products(&mut sum, e, e, 1, 6, 6);
    hsum256(&sum)
}

/// What the gradient of the neighbours misses of every sample.
pub open spec fn gradient_misses<A: Amount>(g: Block<A>) -> Block<A> {
    Seq::new(
        6,
        |y: int|
            Seq::new(
                6,
                |x: int|
                    g[y + 1][x + 1].minus_spec(
                        g[y + 1][x].plus_spec(g[y][x + 1]).minus_spec(g[y][x]),
                    ),
            ),
    )
}

fn miss_gradient<A: Amount>(g: &Vec<Vec<A>>) -> (r: Vec<Vec<A>>)
    requires
        sized(grid(g@), 8, 8),
    ensures
        grid(r@) == gradient_misses(grid(g@)),
        sized(grid(r@), 6, 6),
{
    assert(grid(g@).len() == 8);
    proof {
        lemma_row_lengths(g@, 8);
    }
    let ghost want = gradient_misses(grid(g@));
    let mut out: Vec<Vec<A>> = Vec::new();
    let mut y: usize = 0;
    while y < 6
        invariant
            y <= 6,
            g@.len() == 8,
            forall|j: int| 0 <= j < 8 ==> (#[trigger] g@[j])@.len() == 8,
            want == gradient_misses(grid(g@)),
            out@.len() == y,
            forall|j: int| 0 <= j < y ==> (#[trigger] out@[j])@ == want[j],
        decreases 6 - y,
    {
        let mut row: Vec<A> = Vec::new();
        let mut x: usize = 0;
        let top: &Vec<A> = &g[y];
        let here: &Vec<A> = &g[y + 1];
        while x < 6
            invariant
                x <= 6,
                y < 6,
                top@.len() == 8,
                here@.len() == 8,
                top@ == grid(g@)[y as int],
                here@ == grid(g@)[y + 1],
                want == gradient_misses(grid(g@)),
                row@.len() == x,
                forall|i: int| 0 <= i < x ==> #[trigger] row@[i] == want[y as int][i],
            decreases 6 - x,
        {
            row.push(here[x + 1].minus(here[x].plus(top[x + 1]).minus(top[x])));
            x += 1;
        }
        assert(row@ =~= want[y as int]);
        out.push(row);
        y += 1;
    }
    assert(grid(out@) =~= want);
    out
}

/// How far the samples of a block are from what their neighbours predict.
pub struct PredictorErrors<A> {
    pub left: A,
    pub top: A,
    pub top_left: A,
    pub bottom_left: A,
    pub gradient: A,
}

/// The squared misses of each predictor.
pub open spec fn predictor_errors_of<A: Amount>(g: Block<A>) -> PredictorErrors<A> {
    PredictorErrors {
        left: error_sum(shifted_differences(g, (1, 1), (0, 1), 6, 6)),
        top: error_sum(shifted_differences(g, (1, 1), (1, 0), 6, 6)),
        top_left: error_sum(shifted_differences(g, (1, 1), (0, 0), 6, 6)),
        bottom_left: error_sum(shifted_differences(g, (1, 1), (0, 2), 6, 6)),
        gradient: error_sum(gradient_misses(g)),
    }
}

/// The squared misses of the five predictors of a block, without its rim.
pub fn predictor_errors<A: Amount>(g: &Vec<Vec<A>>) -> (r: PredictorErrors<A>)
    requires
        sized(grid(g@), 8, 8),
    ensures
        r == predictor_errors_of(grid(g@)),
{
    PredictorErrors {
        left: sum_squares(&shift_differences(g, 8, (1, 1), (0, 1), 6, 6)),
        top: sum_squares(&shift_differences(g, 8, (1, 1), (1, 0), 6, 6)),
        top_left: sum_squares(&shift_differences(g, 8, (1, 1), (0, 0), 6, 6)),
        bottom_left: sum_squares(&shift_differences(g, 8, (1, 1), (0, 2), 6, 6)),
        gradient: sum_squares(&miss_gradient(g)),
    }
}

/// Squared steps between neighbours, the horizontal ones first.
pub open spec fn gradient_energy_of<A: Amount>(g: Block<A>, n: int) -> A {
    let h = shifted_differences(g, (1, 0), (0, 0), n - 1, n);
    let v = shifted_differences(g, (0, 1), (0, 0), n, n - 1);
    eight_summed(
        four_groups(
            rows_spread(
                rows_spread(empty_lanes(32), row_groups(4), product_step(h, h), n - 1, n),
                row_groups(4),
                product_step(v, v),
                n,
                n - 1,
            ),
        ),
    )
}

/// Squared steps between the neighbours of a square block.
pub fn gradient_energy<A: Amount>(g: &Vec<Vec<A>>, n: usize) -> (r: A)
    requires
        n == 4 || n == 8,
        sized(grid(g@), n as int, n as int),
    ensures
        r == gradient_energy_of(grid(g@), n as int),
{
    let h: Vec<Vec<A>> = shift_differences(g, n, (1, 0), (0, 0), n - 1, n);
    let v: Vec<Vec<A>> = shift_differences(g, n, (0, 1), (0, 0), n, n - 1);
    let mut sum: Vec<A> = make_lanes(32);
    add_products(&mut sum, &h, &h, 4, n - 1, n);
    add_products(&mut sum, &v, &v, 4, n, n - 1);
    sum32(&sum)
}

/// Squares of the entries of a row from `from` to `to`, the first in the first of
/// eight lanes.
pub open spec fn row_energy<A: Amount>(row: Seq<A>, from: int, to: int) -> A {
    if from >= to {
        A::zero_spec()
    } else {
        eight_summed(
            Seq::new(
                8,
                |l: int|
                    if l < to - from {
                        row[from + l].times_spec(row[from + l])
                    } else {
                        A::zero_spec()
                    },
            ),
        )
    }
}

fn energy_sum<A: Amount>(row: &Vec<A>, from: usize, to: usize) -> (r: A)
    requires
        to <= row@.len(),
        from <= to,
        to - from <= 8,
    ensures
        r == row_energy(row@, from as int, to as int),
{
    if from >= to {
        return A::zero();
    }
    let ghost want = Seq::new(
        8,
        |l: int|
            if l < to - from {
                row@[from + l].times_spec(row@[from + l])
            } else {
                A::zero_spec()
            },
    );
    let mut lanes: Vec<A> = Vec::new();
    let mut l: usize = 0;
    while l < 8
        invariant
            l <= 8,
            to <= row@.len(),
            from < to,
            lanes@.len() == l,
            want.len() == 8,
            forall|k: int|
                0 <= k < 8 ==> #[trigger] want[k] == (if k < to - from {
                    row@[from + k].times_spec(row@[from + k])
                } else {
                    A::zero_spec()
                }),
            forall|k: int| 0 <= k < l ==> #[trigger] lanes@[k] == want[k],
        decreases 8 - l,
    {
        if l < to - from {
            lanes.push(row[from + l].times(row[from + l]));
        } else {
            lanes.push(A::zero());
        }
        l += 1;
    }
    assert(lanes@ =~= want);
    hsum256(&lanes)
}

/// Where the middle frequencies of row `y` begin.
pub open spec fn mid_start(y: int) -> int {
    if y < 2 {
        2 - y
    } else {
        0
    }
}

/// Energy of the leading `n` rows in the middle and in the high frequencies.
pub open spec fn spectral_of<A: Amount>(c: Block<A>, n: int) -> (A, A)
    decreases n,
{
    if n <= 0 {
        (A::zero_spec(), A::zero_spec())
    } else {
        let before = spectral_of(c, n - 1);
        let y = n - 1;
        (
            before.0.plus_spec(row_energy(c[y], mid_start(y), 8 - y)),
            before.1.plus_spec(row_energy(c[y], 8 - y, 8)),
        )
    }
}

/// Energy of a block's coefficients in the middle and in the high frequencies.
pub fn spectral_energy<A: Amount>(c: &Vec<Vec<A>>) -> (r: (A, A))
    requires
        sized(grid(c@), 8, 8),
    ensures
        r == spectral_of(grid(c@), 8),
{
    assert(grid(c@).len() == 8);
    proof {
        lemma_row_lengths(c@, 8);
    }
    let mut mid: A = A::zero();
    let mut high: A = A::zero();
    let mut y: usize = 0;
    while y < 8
        invariant
            y <= 8,
            c@.len() == 8,
            forall|j: int| 0 <= j < 8 ==> (#[trigger] c@[j])@.len() == 8,
            (mid, high) == spectral_of(grid(c@), y as int),
        decreases 8 - y,
    {
        let from: usize = if y < 2 {
            2 - y
        } else {
            0
        };
        let row: &Vec<A> = &c[y];
        mid = mid.plus(energy_sum(row, from, 8 - y));
        high = high.plus(energy_sum(row, 8 - y, 8));
        y += 1;
    }
    (mid, high)
}

/// What is measured on a block.
pub struct BlockMeasures<A> {
    pub variance: A,
    pub tensor: (A, A, A),
    pub errors: PredictorErrors<A>,
    /// Squared steps at full size.
    pub energy_1x: A,
    /// Squared steps at half size.
    pub energy_2x: A,
    /// Energy of the middle frequencies.
    pub mid: A,
    /// Energy of the high frequencies.
    pub high: A,
}

/// What is measured on the block `g`.
pub open spec fn measures_of<A: Amount>(w: DctWeights<A>, g: Block<A>) -> BlockMeasures<A> {
    let bands = spectral_of(forward_spec(w, g, 8, 8, Storage::Transposed), 8);
    BlockMeasures {
        variance: moments_of(g).1,
        tensor: tensor_of(g),
        errors: predictor_errors_of(g),
        energy_1x: gradient_energy_of(g, 8),
        energy_2x: gradient_energy_of(halved(g, 8, 8), 4),
        mid: bands.0,
        high: bands.1,
    }
}

/// Measures a block.
pub fn block_measures<A: Amount>(w: &DctWeights<A>, g: &Vec<Vec<A>>) -> (r: BlockMeasures<A>)
    requires
        sized(grid(g@), 8, 8),
    ensures
        r == measures_of(*w, grid(g@)),
{
    let (_mean, variance): (A, A) = moments(g);
    let half: Vec<Vec<A>> = box_downsample_2x(g, 8, 8);
    let coeffs: Vec<Vec<A>> = forward_block(w, g, 8, 8, Storage::Transposed);
    let (mid, high): (A, A) = spectral_energy(&coeffs);
    BlockMeasures {
        variance,
        tensor: tensor(g),
        errors: predictor_errors(g),
        energy_1x: gradient_energy(g, 8),
        energy_2x: gradient_energy(&half, 4),
        mid,
        high,
    }
}

} // verus!
