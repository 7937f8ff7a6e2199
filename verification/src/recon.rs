//! What quantization does to a block, and how different the result looks.

use crate::adaptive_quant::{magnitude, magnitude_spec};
use crate::amount::{Amount, OrderedAmount};
use crate::fast_math::{log2p1, log2p1_estimate};
use crate::forward::{gather_pixels, gathered_block};
use crate::lanes::{
    eight_summed, empty_lanes, folded, hsum256, in_turn, lemma_folded_len, lemma_row_folded_len,
    lemma_rows_folded_len, make_lanes, row_folded, rows_folded,
};
use crate::opsin::Image3;
use crate::small_transform::Block;
use crate::transform::{grid, lemma_row_lengths, sized};
use vstd::prelude::*;

verus! {

/// The coefficients of a block, row by row in one sequence, and how they are
/// quantized.
pub struct QuantShape {
    pub width: usize,
    pub height: usize,
    /// Columns from this one on use the second threshold of their row's pair.
    pub half: usize,
    /// The low frequencies, `cx` wide and `cy` tall, are coded elsewhere.
    pub cx: usize,
    pub cy: usize,
}

impl QuantShape {
    /// The rows are whole groups of eight coefficients.
    pub open spec fn wf(&self) -> bool {
        &&& self.width > 0
        &&& self.width % 8 == 0
        &&& self.width * self.height <= usize::MAX
    }

    /// Number of coefficients.
    pub open spec fn area(&self) -> int {
        self.width * self.height
    }

    /// Column of coefficient `i`.
    pub open spec fn column(&self, i: int) -> int {
        i % (self.width as int)
    }

    /// Row of coefficient `i`.
    pub open spec fn row(&self, i: int) -> int {
        i / (self.width as int)
    }

    /// Coefficient `i` is one of the low frequencies.
    pub open spec fn is_low(&self, i: int) -> bool {
        self.column(i) < self.cx && self.row(i) < self.cy
    }

    /// The threshold of coefficient `i`: pairs for the upper and the lower half.
    pub open spec fn threshold<A>(&self, thr: Seq<A>, i: int) -> A {
        thr[(if self.row(i) >= self.height as int / 2 {
            2int
        } else {
            0
        }) + (if self.column(i) >= self.half {
            1int
        } else {
            0
        })]
    }

    /// Row and column of coefficient `i`.
    fn place(&self, i: usize) -> (r: (usize, usize))
        requires
            self.wf(),
        ensures
            r.0 == self.column(i as int),
            r.1 == self.row(i as int),
    {
        (i % self.width, i / self.width)
    }

    fn threshold_at<A: Copy>(&self, thr: &[A; 4], x: usize, y: usize, Ghost(i): Ghost<int>) -> (r:
        A)
        requires
            x == self.column(i),
            y == self.row(i),
        ensures
            r == self.threshold(thr@, i),
    {
        let k: usize = if y >= self.height / 2 {
            2
        } else {
            0
        };
        let j: usize = if x >= self.half {
            1
        } else {
            0
        };
        thr[k + j]
    }
}

/// The nearest level of a scaled coefficient, zero where it is below `threshold`.
pub open spec fn nearest_level<A: Amount>(a: A, threshold: A) -> A {
    if threshold.at_most_spec(magnitude_spec(a)) {
        a.nearest_spec()
    } else {
        A::zero_spec()
    }
}

fn level_of<A: Amount>(a: A, threshold: A) -> (r: A)
    ensures
        r == nearest_level(a, threshold),
{
    if threshold.at_most(magnitude(a)) {
        a.nearest()
    } else {
        A::zero()
    }
}

/// A coefficient in units of its quantizer.
pub open spec fn in_steps<A: Amount>(inv: Seq<A>, coeff: Seq<A>, scale: A, i: int) -> A {
    inv[i].times_spec(scale).times_spec(coeff[i])
}

/// The level of coefficient `i`.
pub open spec fn level_at<A: Amount>(
    s: QuantShape,
    coeff: Seq<A>,
    inv: Seq<A>,
    scale: A,
    thr: Seq<A>,
    i: int,
) -> A {
    nearest_level(in_steps(inv, coeff, scale, i), s.threshold(thr, i))
}

/// Coefficient `i` is coded here and its level is not zero.
pub open spec fn is_coded<A: Amount>(
    s: QuantShape,
    coeff: Seq<A>,
    inv: Seq<A>,
    scale: A,
    thr: Seq<A>,
    i: int,
) -> bool {
    !s.is_low(i) && A::zero_spec().less_spec(
        magnitude_spec(level_at(s, coeff, inv, scale, thr, i)),
    )
}

/// Adds the squared error of coefficient `i`.
pub open spec fn sse_step<A: Amount>(
    s: QuantShape,
    coeff: Seq<A>,
    inv: Seq<A>,
    scale: A,
    thr: Seq<A>,
) -> spec_fn(int, A) -> A {
    |i: int, sum: A|
        {
            let d = in_steps(inv, coeff, scale, i).minus_spec(
                level_at(s, coeff, inv, scale, thr, i),
            );
            sum.plus_spec(
                if s.is_low(i) {
                    A::zero_spec()
                } else {
                    d.times_spec(d)
                },
            )
        }
}

/// Adds the bits of the size of coefficient `i`.
pub open spec fn magnitude_step<A: Amount>(
    s: QuantShape,
    coeff: Seq<A>,
    inv: Seq<A>,
    scale: A,
    thr: Seq<A>,
) -> spec_fn(int, A) -> A {
    |i: int, sum: A|
        sum.plus_spec(
            if is_coded(s, coeff, inv, scale, thr, i) {
                log2p1_estimate(magnitude_spec(level_at(s, coeff, inv, scale, thr, i)))
            } else {
                A::zero_spec()
            },
        )
}

/// How many of the leading `n` coefficients are coded.
pub open spec fn coded_count<A: Amount>(
    s: QuantShape,
    coeff: Seq<A>,
    inv: Seq<A>,
    scale: A,
    thr: Seq<A>,
    n: int,
) -> int
    decreases n,
{
    if n <= 0 {
        0
    } else {
        coded_count(s, coeff, inv, scale, thr, n - 1) + (if is_coded(
            s,
            coeff,
            inv,
            scale,
            thr,
            n - 1,
        ) {
            1int
        } else {
            0
        })
    }
}

/// Squared error, number of coded coefficients and bits of their sizes.
pub fn sse_and_rate<A: Amount>(
    s: &QuantShape,
    coeff: &[A],
    inv: &[A],
    scale: A,
    thr: &[A; 4],
) -> (r: (A, usize, A))
    requires
        s.wf(),
        coeff@.len() >= s.area(),
        inv@.len() >= s.area(),
    ensures
        r.0 == eight_summed(
            folded(8, in_turn(8), sse_step(*s, coeff@, inv@, scale, thr@), s.area()),
        ),
        r.1 == coded_count(*s, coeff@, inv@, scale, thr@, s.area()),
        r.2 == eight_summed(
            folded(8, in_turn(8), magnitude_step(*s, coeff@, inv@, scale, thr@), s.area()),
        ),
{
    let n: usize = s.width * s.height;
    let zero: A = A::zero();
    let one: A = A::ratio(1, 1);
    let ghost f1 = sse_step(*s, coeff@, inv@, scale, thr@);
    let ghost f2 = magnitude_step(*s, coeff@, inv@, scale, thr@);
    let mut sse: Vec<A> = make_lanes(8);
    let mut bits: Vec<A> = make_lanes(8);
    let mut count: usize = 0;
    let mut i: usize = 0;
    while i < n
        invariant
            i <= n,
            n == s.area(),
            s.wf(),
            coeff@.len() >= n,
            inv@.len() >= n,
            zero == A::zero_spec(),
            one == A::ratio_spec(1, 1),
            f1 == sse_step(*s, coeff@, inv@, scale, thr@),
            f2 == magnitude_step(*s, coeff@, inv@, scale, thr@),
            sse@ == folded(8, in_turn(8), f1, i as int),
            bits@ == folded(8, in_turn(8), f2, i as int),
            count <= i,
            count == coded_count(*s, coeff@, inv@, scale, thr@, i as int),
        decreases n - i,
    {
        proof {
            lemma_folded_len(8, in_turn(8), f1, i as int);
            lemma_folded_len(8, in_turn(8), f2, i as int);
        }
        let (x, y): (usize, usize) = s.place(i);
        let a: A = inv[i].times(scale).times(coeff[i]);
        let q: A = level_of(a, s.threshold_at(thr, x, y, Ghost(i as int)));
        let low: bool = x < s.cx && y < s.cy;
        let d: A = a.minus(q);
        let l: usize = i % 8;
        let term: A = if low {
            zero
        } else {
            d.times(d)
        };
        sse[l] = sse[l].plus(term);
        let size: A = magnitude(q);
        let coded: bool = !low && zero.less(size);
        let rate: A = if coded {
            log2p1(size)
        } else {
            zero
        };
        bits[l] = bits[l].plus(rate);
        if coded {
            count += 1;
        }
        i += 1;
    }
    proof {
        lemma_folded_len(8, in_turn(8), f1, n as int);
        lemma_folded_len(8, in_turn(8), f2, n as int);
    }
    (hsum256(&sse), count, hsum256(&bits))
}

/// What quantizing a block for reconstruction gives.
pub struct ReconQuantized<A> {
    /// Error of every coefficient; none for the low frequencies.
    pub errors: Vec<A>,
    pub nonzero: usize,
    /// Bits of the sizes.
    pub magnitude_bits: A,
    /// Last place in the scan with a coded coefficient.
    pub max_scan: u32,
}

/// The error of coefficient `i`.
pub open spec fn error_at<A: Amount>(
    s: QuantShape,
    coeff: Seq<A>,
    inv: Seq<A>,
    scale: A,
    thr: Seq<A>,
    i: int,
) -> A {
    if s.is_low(i) {
        A::zero_spec()
    } else {
        in_steps(inv, coeff, scale, i).minus_spec(
            level_at(s, coeff, inv, scale, thr, i),
        ).over_spec(inv[i].times_spec(scale))
    }
}

/// The last place in the scan among the leading `n` coefficients with a coded one.
pub open spec fn last_scan<A: Amount>(
    s: QuantShape,
    coeff: Seq<A>,
    inv: Seq<A>,
    scale: A,
    thr: Seq<A>,
    scan: Seq<u32>,
    n: int,
) -> u32
    decreases n,
{
    if n <= 0 {
        0
    } else {
        let head = last_scan(s, coeff, inv, scale, thr, scan, n - 1);
        if is_coded(s, coeff, inv, scale, thr, n - 1) && scan[n - 1] > head {
            scan[n - 1]
        } else {
            head
        }
    }
}

/// Quantizes a block for reconstruction.
pub fn recon_quantize<A: Amount>(
    s: &QuantShape,
    coeff: &[A],
    inv: &[A],
    scale: A,
    thr: &[A; 4],
    scan: &[u32],
) -> (r: ReconQuantized<A>)
    requires
        s.wf(),
        coeff@.len() >= s.area(),
        inv@.len() >= s.area(),
        scan@.len() >= s.area(),
    ensures
        r.errors@ == Seq::new(
            s.area() as nat,
            |i: int| error_at(*s, coeff@, inv@, scale, thr@, i),
        ),
        r.nonzero == coded_count(*s, coeff@, inv@, scale, thr@, s.area()),
        r.magnitude_bits == eight_summed(
            folded(8, in_turn(8), magnitude_step(*s, coeff@, inv@, scale, thr@), s.area()),
        ),
        r.max_scan == last_scan(*s, coeff@, inv@, scale, thr@, scan@, s.area()),
{
    let n: usize = s.width * s.height;
    let zero: A = A::zero();
    let one: A = A::ratio(1, 1);
    let ghost f = magnitude_step(*s, coeff@, inv@, scale, thr@);
    let mut errors: Vec<A> = Vec::new();
    let mut bits: Vec<A> = make_lanes(8);
    let mut count: usize = 0;
    let mut last: u32 = 0;
    let mut i: usize = 0;
    while i < n
        invariant
            i <= n,
            n == s.area(),
            s.wf(),
            coeff@.len() >= n,
            inv@.len() >= n,
            scan@.len() >= n,
            zero == A::zero_spec(),
            one == A::ratio_spec(1, 1),
            f == magnitude_step(*s, coeff@, inv@, scale, thr@),
            errors@.len() == i,
            forall|k: int|
                0 <= k < i ==> #[trigger] errors@[k] == error_at(
                    *s,
                    coeff@,
                    inv@,
                    scale,
                    thr@,
                    k,
                ),
            bits@ == folded(8, in_turn(8), f, i as int),
            count <= i,
            count == coded_count(*s, coeff@, inv@, scale, thr@, i as int),
            last == last_scan(*s, coeff@, inv@, scale, thr@, scan@, i as int),
        decreases n - i,
    {
        proof {
            lemma_folded_len(8, in_turn(8), f, i as int);
        }
        let (x, y): (usize, usize) = s.place(i);
        let step: A = inv[i].times(scale);
        let a: A = step.times(coeff[i]);
        let q: A = level_of(a, s.threshold_at(thr, x, y, Ghost(i as int)));
        let low: bool = x < s.cx && y < s.cy;
        let error: A = if low {
            zero
        } else {
            a.minus(q).over(step)
        };
        errors.push(error);
        let size: A = magnitude(q);
        let coded: bool = !low && zero.less(size);
        let rate: A = if coded {
            log2p1(size)
        } else {
            zero
        };
        let l: usize = i % 8;
        bits[l] = bits[l].plus(rate);
        if coded {
            count += 1;
            if scan[i] > last {
                last = scan[i];
            }
        }
        i += 1;
    }
    proof {
        lemma_folded_len(8, in_turn(8), f, n as int);
    }
    assert(errors@ =~= Seq::new(
        s.area() as nat,
        |k: int| error_at(*s, coeff@, inv@, scale, thr@, k),
    ));
    ReconQuantized { errors, nonzero: count, magnitude_bits: hsum256(&bits), max_scan: last }
}

/// Bits of a quantized block: its coefficients, their sizes, its header, and what
/// the zeros in between cost.
pub open spec fn rate_of<A: Amount>(nonzero: int, magnitude_bits: A, zeros: A) -> A {
    let count = A::ratio_spec(nonzero as i64, 1);
    count.times_spec(A::ratio_spec(8, 5)).plus_spec(magnitude_bits).plus_spec(
        A::ratio_spec(2, 5).times_spec(log2p1_estimate(count)),
    ).plus_spec(zeros)
}

/// Bits of a quantized block. `zeros` is the price of the zeros that are visited.
pub fn recon_rate<A: Amount>(q: &ReconQuantized<A>, zeros: A) -> (r: A)
    requires
        q.nonzero <= 4096,
    ensures
        r == rate_of(q.nonzero as int, q.magnitude_bits, zeros),
{
    let count: A = A::ratio(q.nonzero as i64, 1);
    count.times(A::ratio(8, 5)).plus(q.magnitude_bits).plus(
        A::ratio(2, 5).times(log2p1(count)),
    ).plus(zeros)
}

/// A whole number nearest to an amount, away from zero on a tie.
pub open spec fn away_level<A: Amount>(v: A) -> i32 {
    let t = v.toward_zero_spec();
    let one = A::ratio_spec(1, 1);
    if A::ratio_spec(1, 2).at_most_spec(magnitude_spec(v.minus_spec(t))) {
        t.plus_spec(
            if v.less_spec(A::zero_spec()) {
                A::zero_spec().minus_spec(one)
            } else {
                one
            },
        ).whole_spec()
    } else {
        t.whole_spec()
    }
}

/// Rounds to a whole number, away from zero on a tie.
pub fn round_ties_away_i32<A: Amount>(v: A) -> (r: i32)
    ensures
        r == away_level(v),
{
    let t: A = v.toward_zero();
    let one: A = A::ratio(1, 1);
    if A::ratio(1, 2).at_most(magnitude(v.minus(t))) {
        let unit: A = if v.less(A::zero()) {
            A::zero().minus(one)
        } else {
            one
        };
        t.plus(unit).whole()
    } else {
        t.whole()
    }
}

/// The coded level of coefficient `i`.
pub open spec fn ac_level<A: Amount>(
    s: QuantShape,
    coeff: Seq<A>,
    qm: Seq<A>,
    scale: A,
    thr: Seq<A>,
    i: int,
) -> i32 {
    let v = in_steps(qm, coeff, scale, i);
    if s.threshold(thr, i).at_most_spec(magnitude_spec(v)) {
        away_level(v)
    } else {
        0
    }
}

/// Quantizes the coefficients of a block; those below their threshold become zero.
pub fn quantize_block_ac<A: Amount>(
    s: &QuantShape,
    coeff: &[A],
    qm: &[A],
    scale: A,
    thr: &[A; 4],
) -> (r: Vec<i32>)
    requires
        s.wf(),
        coeff@.len() >= s.area(),
        qm@.len() >= s.area(),
    ensures
        r@ == Seq::new(s.area() as nat, |i: int| ac_level(*s, coeff@, qm@, scale, thr@, i)),
{
    let n: usize = s.width * s.height;
    let mut out: Vec<i32> = Vec::new();
    let mut i: usize = 0;
    while i < n
        invariant
            i <= n,
            n == s.area(),
            s.wf(),
            coeff@.len() >= n,
            qm@.len() >= n,
            out@.len() == i,
            forall|k: int|
                0 <= k < i ==> #[trigger] out@[k] == ac_level(*s, coeff@, qm@, scale, thr@, k),
        decreases n - i,
    {
        let (x, y): (usize, usize) = s.place(i);
        let v: A = qm[i].times(scale).times(coeff[i]);
        let level: i32 = if s.threshold_at(thr, x, y, Ghost(i as int)).at_most(magnitude(v)) {
            round_ties_away_i32(v)
        } else {
            0
        };
        out.push(level);
        i += 1;
    }
    assert(out@ =~= Seq::new(
        s.area() as nat,
        |k: int| ac_level(*s, coeff@, qm@, scale, thr@, k),
    ));
    out
}

/// A whole number held to 16 bits.
pub open spec fn held16(n: int) -> i16 {
    if n > i16::MAX {
        i16::MAX
    } else if n < i16::MIN {
        i16::MIN
    } else {
        n as i16
    }
}

fn hold16(n: i32) -> (r: i16)
    ensures
        r == held16(n as int),
{
    if n > i16::MAX as i32 {
        i16::MAX
    } else if n < i16::MIN as i32 {
        i16::MIN
    } else {
        n as i16
    }
}

/// Quantizes means.
pub fn quantize_dc<A: Amount>(input: &[A], scale: A) -> (r: Vec<i16>)
    ensures
        r@ == Seq::new(
            input@.len(),
            |i: int| held16(away_level(input@[i].times_spec(scale)) as int),
        ),
{
    let mut out: Vec<i16> = Vec::new();
    let mut i: usize = 0;
    while i < input.len()
        invariant
            i <= input@.len(),
            out@.len() == i,
            forall|k: int|
                0 <= k < i ==> #[trigger] out@[k] == held16(
                    away_level(input@[k].times_spec(scale)) as int,
                ),
        decreases input@.len() - i,
    {
        out.push(hold16(round_ties_away_i32(input[i].times(scale))));
        i += 1;
    }
    assert(out@ =~= Seq::new(
        input@.len(),
        |k: int| held16(away_level(input@[k].times_spec(scale)) as int),
    ));
    out
}

/// A chroma mean without its prediction from the quantized luma mean.
pub open spec fn dc_without_luma<A: Amount>(v: A, y: i16, scale: A, cfl: A) -> A {
    v.fused_spec(
        scale,
        A::ratio_spec(y as i64, 1).times_spec(A::zero_spec().minus_spec(cfl)),
    )
}

/// Quantizes chroma means, each less its prediction from luma.
pub fn quantize_dc_cfl<A: Amount>(input: &[A], y: &[i16], scale: A, cfl: A) -> (r: Vec<i16>)
    requires
        y@.len() == input@.len(),
    ensures
        r@ == Seq::new(
            input@.len(),
            |i: int|
                held16(away_level(dc_without_luma(input@[i], y@[i], scale, cfl)) as int),
        ),
{
    let negative: A = A::zero().minus(cfl);
    let mut out: Vec<i16> = Vec::new();
    let mut i: usize = 0;
    while i < input.len()
        invariant
            i <= input@.len(),
            y@.len() == input@.len(),
            negative == A::zero_spec().minus_spec(cfl),
            out@.len() == i,
            forall|k: int|
                0 <= k < i ==> #[trigger] out@[k] == held16(
                    away_level(dc_without_luma(input@[k], y@[k], scale, cfl)) as int,
                ),
        decreases input@.len() - i,
    {
        let correction: A = A::ratio(y[i] as i64, 1).times(negative);
        out.push(hold16(round_ties_away_i32(input[i].fused(scale, correction))));
        i += 1;
    }
    assert(out@ =~= Seq::new(
        input@.len(),
        |k: int| held16(away_level(dc_without_luma(input@[k], y@[k], scale, cfl)) as int),
    ));
    out
}

/// A chroma error with what luma's error adds to it.
pub open spec fn combined<A: Amount>(spatial: Seq<A>, luma: Seq<A>, factor: A) -> Seq<A> {
    Seq::new(spatial.len(), |i: int| factor.fused_spec(luma[i], spatial[i]))
}

/// Adds luma's share to a chroma error.
pub fn combine_error<A: Amount>(spatial: &[A], luma: &[A], factor: A) -> (r: Vec<A>)
    requires
        luma@.len() == spatial@.len(),
    ensures
        r@ == combined(spatial@, luma@, factor),
{
    let mut out: Vec<A> = Vec::new();
    let mut i: usize = 0;
    while i < spatial.len()
        invariant
            i <= spatial@.len(),
            luma@.len() == spatial@.len(),
            out@.len() == i,
            forall|k: int|
                0 <= k < i ==> #[trigger] out@[k] == factor.fused_spec(luma@[k], spatial@[k]),
        decreases spatial@.len() - i,
    {
        out.push(factor.fused(luma[i], spatial[i]));
        i += 1;
    }
    assert(out@ =~= combined(spatial@, luma@, factor));
    out
}

/// Adds the squared difference of sample `(x, y)` and its right neighbour.
pub open spec fn across_step<A: Amount>(g: Block<A>) -> spec_fn(int, int, A) -> A {
    |y: int, x: int, sum: A|
        {
            let d = g[y][x + 1].minus_spec(g[y][x]);
            d.fused_spec(d, sum)
        }
}

/// Adds the squared difference of sample `(x, y)` and the one below it.
pub open spec fn down_step<A: Amount>(g: Block<A>) -> spec_fn(int, int, A) -> A {
    |y: int, x: int, sum: A|
        {
            let d = g[y + 1][x].minus_spec(g[y][x]);
            d.fused_spec(d, sum)
        }
}

/// The squared differences between neighbours of a plane: across first.
pub open spec fn gradient_energy_of<A: Amount>(g: Block<A>, w: int, h: int) -> A {
    eight_summed(
        rows_folded(
            rows_folded(empty_lanes(8), 8, across_step(g), w - 1, h),
            8,
            down_step(g),
            w,
            h - 1,
        ),
    )
}

/// Energy of the differences between neighbouring samples of an error plane.
pub fn error_gradient_energy<A: Amount>(g: &Vec<Vec<A>>, w: usize, h: usize) -> (r: A)
    requires
        g@.len() == h,
        sized(grid(g@), w as int, h as int),
    ensures
        r == (if w == 0 || h == 0 {
            A::zero_spec()
        } else {
            gradient_energy_of(grid(g@), w as int, h as int)
        }),
{
    if w == 0 || h == 0 {
        return A::zero();
    }
    proof {
        lemma_row_lengths(g@, w as int);
    }
    let ghost v = grid(g@);
    let ghost f1 = across_step(v);
    let ghost f2 = down_step(v);
    let ghost none = empty_lanes::<A>(8);
    let mut sum: Vec<A> = make_lanes(8);
    let mut y: usize = 0;
    while y < h
        invariant
            y <= h,
            w > 0,
            g@.len() == h,
            v == grid(g@),
            f1 == across_step(v),
            none == empty_lanes::<A>(8),
            forall|j: int| 0 <= j < h ==> (#[trigger] g@[j])@.len() == w,
            sum@ == rows_folded(none, 8, f1, w - 1, y as int),
        decreases h - y,
    {
        let ghost start = sum@;
        proof {
            lemma_rows_folded_len(none, 8, f1, w - 1, y as int);
        }
        let mut x: usize = 0;
        while x < w - 1
            invariant
                x <= w - 1,
                y < h,
                w > 0,
                g@.len() == h,
                v == grid(g@),
                f1 == across_step(v),
                forall|j: int| 0 <= j < h ==> (#[trigger] g@[j])@.len() == w,
                start.len() == 8,
                sum@ == row_folded(start, 8, f1, y as int, x as int),
            decreases w - 1 - x,
        {
            proof {
                lemma_row_folded_len(start, 8, f1, y as int, x as int);
            }
            assert(g@[y as int]@.len() == w);
            let d: A = g[y][x + 1].minus(g[y][x]);
            let l: usize = x % 8;
            sum[l] = d.fused(d, sum[l]);
            x += 1;
        }
        y += 1;
    }
    let ghost mid = sum@;
    proof {
        lemma_rows_folded_len(none, 8, f1, w - 1, h as int);
    }
    let mut y: usize = 0;
    while y < h - 1
        invariant
            y <= h - 1,
            h > 0,
            g@.len() == h,
            v == grid(g@),
            f2 == down_step(v),
            mid.len() == 8,
            forall|j: int| 0 <= j < h ==> (#[trigger] g@[j])@.len() == w,
            sum@ == rows_folded(mid, 8, f2, w as int, y as int),
        decreases h - 1 - y,
    {
        let ghost start = sum@;
        proof {
            lemma_rows_folded_len(mid, 8, f2, w as int, y as int);
        }
        let mut x: usize = 0;
        while x < w
            invariant
                x <= w,
                y < h - 1,
                g@.len() == h,
                v == grid(g@),
                f2 == down_step(v),
                forall|j: int| 0 <= j < h ==> (#[trigger] g@[j])@.len() == w,
                start.len() == 8,
                sum@ == row_folded(start, 8, f2, y as int, x as int),
            decreases w - x,
        {
            proof {
                lemma_row_folded_len(start, 8, f2, y as int, x as int);
            }
            assert(g@[y as int]@.len() == w);
            assert(g@[y + 1]@.len() == w);
            let d: A = g[y + 1][x].minus(g[y][x]);
            let l: usize = x % 8;
            sum[l] = d.fused(d, sum[l]);
            x += 1;
        }
        y += 1;
    }
    proof {
        lemma_rows_folded_len(mid, 8, f2, w as int, h - 1);
    }
    hsum256(&sum)
}

/// No lane holds less than nothing.
spec fn none_below_zero<A: Amount>(lanes: Seq<A>) -> bool {
    lanes.len() == 8 && forall|l: int|
        0 <= l < 8 ==> !(#[trigger] lanes[l]).less_spec(A::zero_spec())
}

/// No step takes anything away.
spec fn only_adds<A: Amount>(step: spec_fn(int, int, A) -> A) -> bool {
    forall|y: int, x: int, sum: A| !(#[trigger] step(y, x, sum)).less_spec(sum)
}

proof fn lemma_row_stays_above<A: OrderedAmount>(
    start: Seq<A>,
    step: spec_fn(int, int, A) -> A,
    row: int,
    n: int,
)
    requires
        none_below_zero(start),
        only_adds(step),
    ensures
        none_below_zero(row_folded(start, 8, step, row, n)),
    decreases n,
{
    if n > 0 {
        lemma_row_stays_above(start, step, row, n - 1);
        let before = row_folded(start, 8, step, row, n - 1);
        let l = (n - 1) % 8;
        let sum = step(row, n - 1, before[l]);
        if sum.less_spec(A::zero_spec()) {
            A::less_splits(sum, before[l], A::zero_spec());
        }
    }
}

proof fn lemma_rows_stay_above<A: OrderedAmount>(
    start: Seq<A>,
    step: spec_fn(int, int, A) -> A,
    w: int,
    rows: int,
)
    requires
        none_below_zero(start),
        only_adds(step),
    ensures
        none_below_zero(rows_folded(start, 8, step, w, rows)),
    decreases rows,
{
    if rows > 0 {
        lemma_rows_stay_above(start, step, w, rows - 1);
        lemma_row_stays_above(rows_folded(start, 8, step, w, rows - 1), step, rows - 1, w);
    }
}

proof fn lemma_sum_stays_above<A: OrderedAmount>(a: A, b: A)
    requires
        !a.less_spec(A::zero_spec()),
        !b.less_spec(A::zero_spec()),
    ensures
        !a.plus_spec(b).less_spec(A::zero_spec()),
{
    let zero = A::zero_spec();
    A::plus_monotone(zero, zero, a, b);
    A::plus_zero(zero);
}

/// The energy of gradients is never less than nothing.
pub proof fn law_gradient_energy_is_not_below_zero<A: OrderedAmount>(g: Block<A>, w: int, h: int)
    ensures
        !gradient_energy_of(g, w, h).less_spec(A::zero_spec()),
{
    let none = empty_lanes::<A>(8);
    A::less_irreflexive(A::zero_spec());
    assert(none_below_zero(none));
    assert forall|y: int, x: int, sum: A| !(#[trigger] across_step(g)(y, x, sum)).less_spec(
        sum,
    ) by {
        A::square_adds(g[y][x + 1].minus_spec(g[y][x]), sum);
    }
    assert forall|y: int, x: int, sum: A| !(#[trigger] down_step(g)(y, x, sum)).less_spec(sum) by {
        A::square_adds(g[y + 1][x].minus_spec(g[y][x]), sum);
    }
    let across = rows_folded(none, 8, across_step(g), w - 1, h);
    lemma_rows_stay_above(none, across_step(g), w - 1, h);
    lemma_rows_stay_above(across, down_step(g), w, h - 1);
    let v = rows_folded(across, 8, down_step(g), w, h - 1);
    lemma_sum_stays_above(v[0], v[4]);
    lemma_sum_stays_above(v[1], v[5]);
    lemma_sum_stays_above(v[2], v[6]);
    lemma_sum_stays_above(v[3], v[7]);
    let low = v[0].plus_spec(v[4]);
    let high = v[2].plus_spec(v[6]);
    lemma_sum_stays_above(low, v[1].plus_spec(v[5]));
    lemma_sum_stays_above(high, v[3].plus_spec(v[7]));
    lemma_sum_stays_above(
        low.plus_spec(v[1].plus_spec(v[5])),
        high.plus_spec(v[3].plus_spec(v[7])),
    );
}

/// The samples of a footprint less their errors.
pub open spec fn without_error<A: Amount>(original: Block<A>, error: Block<A>) -> Block<A> {
    Seq::new(
        original.len(),
        |y: int|
            Seq::new(
                original[y].len(),
                |x: int| original[y][x].minus_spec(error[y][x]),
            ),
    )
}

/// Gathers the samples of a footprint and what is left of them after the error of
/// quantization.
pub fn prepare_reconstruction<A: Amount>(
    img: &Image3<A>,
    c: usize,
    px: usize,
    py: usize,
    w: usize,
    h: usize,
    error: &Vec<Vec<A>>,
) -> (r: (Vec<Vec<A>>, Vec<Vec<A>>))
    requires
        img.wf(),
        img.width() > 0,
        img.height() > 0,
        c < 3,
        px + w <= usize::MAX,
        py + h <= usize::MAX,
        error@.len() == h,
        sized(grid(error@), w as int, h as int),
    ensures
        grid(r.0@) == gathered_block(
            img@,
            img.width() as int,
            img.height() as int,
            c as int,
            px as int,
            py as int,
            w as int,
            h as int,
        ),
        grid(r.1@) == without_error(grid(r.0@), grid(error@)),
{
    let original: Vec<Vec<A>> = gather_pixels(img, c, px, py, w, h);
    assert(grid(original@).len() == h);
    proof {
        lemma_row_lengths(original@, w as int);
        lemma_row_lengths(error@, w as int);
    }
    let ghost want = without_error(grid(original@), grid(error@));
    let mut out: Vec<Vec<A>> = Vec::new();
    let mut y: usize = 0;
    while y < h
        invariant
            y <= h,
            original@.len() == h,
            error@.len() == h,
            forall|j: int| 0 <= j < h ==> (#[trigger] original@[j])@.len() == w,
            forall|j: int| 0 <= j < h ==> (#[trigger] error@[j])@.len() == w,
            want == without_error(grid(original@), grid(error@)),
            out@.len() == y,
            forall|j: int| 0 <= j < y ==> (#[trigger] out@[j])@ == want[j],
        decreases h - y,
    {
        let mut row: Vec<A> = Vec::new();
        let mut x: usize = 0;
        assert(original@[y as int]@.len() == w);
        assert(error@[y as int]@.len() == w);
        while x < w
            invariant
                x <= w,
                y < h,
                original@.len() == h,
                error@.len() == h,
                original@[y as int]@.len() == w,
                error@[y as int]@.len() == w,
                row@.len() == x,
                forall|i: int|
                    0 <= i < x ==> #[trigger] row@[i] == original@[y as int]@[i].minus_spec(
                        error@[y as int]@[i],
                    ),
            decreases w - x,
        {
            row.push(original[y][x].minus(error[y][x]));
            x += 1;
        }
        assert(row@ =~= want[y as int]);
        out.push(row);
        y += 1;
    }
    assert(grid(out@) =~= want);
    (original, out)
}

} // verus!
