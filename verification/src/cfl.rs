//! How well luma predicts chroma.

use crate::adaptive_quant::{magnitude, magnitude_spec};
use crate::amount::Amount;
use crate::fast_math::{log2p1, log2p1_estimate};
use crate::lanes::{
    eight_summed, folded, hsum256, in_turn, lemma_folded_len, make_lanes, pairs_summed, sum_pairs,
};
use vstd::prelude::*;

verus! {

/// An amount rounded to the nearest whole one, away from zero on a tie.
pub open spec fn rounded_away<A: Amount>(v: A) -> A {
    let up = magnitude_spec(v).plus_spec(A::ratio_spec(1, 2)).toward_zero_spec();
    if v.less_spec(A::zero_spec()) {
        A::zero_spec().minus_spec(up)
    } else {
        up
    }
}

/// Rounds to the nearest whole amount, away from zero on a tie.
pub fn round_ties_away<A: Amount>(v: A) -> (r: A)
    ensures
        r == rounded_away(v),
{
    let up: A = magnitude(v).plus(A::ratio(1, 2)).toward_zero();
    if v.less(A::zero()) {
        A::zero().minus(up)
    } else {
        up
    }
}

/// Where a level is put when it is decoded.
#[derive(Clone, Copy)]
pub struct QuantBias<A> {
    /// Value of a level of one.
    pub one: A,
    /// What a larger level is lowered by, divided by the level.
    pub many: A,
}

/// The decoded value of a level.
pub open spec fn dequantized<A: Amount>(bias: QuantBias<A>, q: A) -> A {
    let size = magnitude_spec(q);
    if !A::zero_spec().less_spec(size) {
        A::zero_spec()
    } else if A::ratio_spec(9, 8).at_most_spec(size) {
        q.minus_spec(bias.many.over_spec(q))
    } else if q.less_spec(A::zero_spec()) {
        A::zero_spec().minus_spec(bias.one)
    } else {
        bias.one
    }
}

/// Decodes a level.
pub fn dequantized_level<A: Amount>(bias: &QuantBias<A>, q: A) -> (r: A)
    ensures
        r == dequantized(*bias, q),
{
    let size: A = magnitude(q);
    if !A::zero().less(size) {
        A::zero()
    } else if A::ratio(9, 8).at_most(size) {
        q.minus(bias.many.over(q))
    } else if q.less(A::zero()) {
        A::zero().minus(bias.one)
    } else {
        bias.one
    }
}

/// What is left of a chroma coefficient, and the level it is coded with.
pub open spec fn coded_level<A: Amount>(residual: A, threshold: A) -> A {
    if threshold.at_most_spec(magnitude_spec(residual)) {
        rounded_away(residual)
    } else {
        A::zero_spec()
    }
}

/// Error of one coefficient in a closed loop: that of the decoded value and a
/// share of what was left.
pub open spec fn loop_error<A: Amount>(
    bias: QuantBias<A>,
    m: A,
    s: A,
    factor: A,
    threshold: A,
) -> A {
    let residual = s.minus_spec(factor.times_spec(m));
    let level = coded_level(residual, threshold);
    magnitude_spec(residual.minus_spec(dequantized(bias, level))).plus_spec(
        A::ratio_spec(3, 20).times_spec(magnitude_spec(residual)),
    )
}

/// Bits of one coefficient: none for a level of zero.
pub open spec fn loop_bits<A: Amount>(m: A, s: A, factor: A, threshold: A) -> A {
    let level = coded_level(s.minus_spec(factor.times_spec(m)), threshold);
    let size = magnitude_spec(level);
    let one = A::ratio_spec(1, 1);
    if A::zero_spec().less_spec(size) {
        one.plus_spec(log2p1_estimate(size))
    } else {
        A::zero_spec()
    }
}

fn closed_loop_cost<A: Amount>(
    bias: &QuantBias<A>,
    m: A,
    s: A,
    factor: A,
    threshold: A,
) -> (r: (A, A))
    ensures
        r.0 == loop_error(*bias, m, s, factor, threshold),
        r.1 == loop_bits(m, s, factor, threshold),
{
    let zero: A = A::zero();
    let one: A = A::ratio(1, 1);
    let residual: A = s.minus(factor.times(m));
    let size: A = magnitude(residual);
    let level: A = if threshold.at_most(size) {
        round_ties_away(residual)
    } else {
        zero
    };
    let error: A = magnitude(residual.minus(dequantized_level(bias, level)));
    let dist: A = error.plus(A::ratio(3, 20).times(size));
    let level_size: A = magnitude(level);
    let bits: A = if zero.less(level_size) {
        one.plus(log2p1(level_size))
    } else {
        zero
    };
    (dist, bits)
}

/// Adds the error of coefficient `i`; the thresholds of a block repeat.
pub open spec fn error_step<A: Amount>(
    bias: QuantBias<A>,
    m: Seq<A>,
    s: Seq<A>,
    factor: A,
    thresholds: Seq<A>,
) -> spec_fn(int, A) -> A {
    |i: int, a: A| a.plus_spec(loop_error(bias, m[i], s[i], factor, thresholds[i % 63]))
}

/// Adds the bits of coefficient `i`.
pub open spec fn bits_step<A: Amount>(
    m: Seq<A>,
    s: Seq<A>,
    factor: A,
    thresholds: Seq<A>,
) -> spec_fn(int, A) -> A {
    |i: int, a: A| a.plus_spec(loop_bits(m[i], s[i], factor, thresholds[i % 63]))
}

/// The shorter of two lengths.
pub open spec fn shorter(a: int, b: int) -> int {
    if a < b {
        a
    } else {
        b
    }
}

/// Distortion and bits of predicting `s` from `m` with `factor`, as the decoder
/// will see it.
pub fn cfl_closed_loop_cost<A: Amount>(
    bias: &QuantBias<A>,
    m: &[A],
    s: &[A],
    factor: A,
    thresholds: &[A; 63],
) -> (r: (A, A))
    ensures
        ({
            let n = shorter(m@.len() as int, s@.len() as int);
            &&& r.0 == A::zero_spec().plus_spec(
                eight_summed(
                    folded(8, in_turn(8), error_step(*bias, m@, s@, factor, thresholds@), n),
                ),
            )
            &&& r.1 == A::zero_spec().plus_spec(
                eight_summed(
                    folded(8, in_turn(8), bits_step(m@, s@, factor, thresholds@), n),
                ),
            )
        }),
{
    let n: usize = if m.len() < s.len() {
        m.len()
    } else {
        s.len()
    };
    let ghost es = error_step(*bias, m@, s@, factor, thresholds@);
    let ghost bs = bits_step(m@, s@, factor, thresholds@);
    let mut errors: Vec<A> = make_lanes(8);
    let mut bits: Vec<A> = make_lanes(8);
    let mut i: usize = 0;
    while i < n
        invariant
            i <= n,
            n <= m@.len(),
            n <= s@.len(),
            es == error_step(*bias, m@, s@, factor, thresholds@),
            bs == bits_step(m@, s@, factor, thresholds@),
            errors@ == folded(8, in_turn(8), es, i as int),
            bits@ == folded(8, in_turn(8), bs, i as int),
        decreases n - i,
    {
        proof {
            lemma_folded_len(8, in_turn(8), es, i as int);
            lemma_folded_len(8, in_turn(8), bs, i as int);
        }
        let (e, b): (A, A) = closed_loop_cost(bias, m[i], s[i], factor, thresholds[i % 63]);
        let l: usize = i % 8;
        errors[l] = errors[l].plus(e);
        bits[l] = bits[l].plus(b);
        i += 1;
    }
    proof {
        lemma_folded_len(8, in_turn(8), es, n as int);
        lemma_folded_len(8, in_turn(8), bs, n as int);
    }
    (A::zero().plus(hsum256(&errors)), A::zero().plus(hsum256(&bits)))
}

/// Sums of a regression: square and product of what predicts the first chroma
/// plane, and the same of the third one.
pub struct Regression<A> {
    pub square_x: A,
    pub product_x: A,
    pub square_b: A,
    pub product_b: A,
}

/// The predictor of coefficient `i`: luma in units of the chroma quantizer.
pub open spec fn predictor<A: Amount>(y: Seq<A>, qm: Seq<A>, i: int) -> A {
    A::ratio_spec(1, 84).times_spec(y[i].times_spec(qm[i]))
}

pub open spec fn square_step<A: Amount>(y: Seq<A>, qm: Seq<A>) -> spec_fn(int, A) -> A {
    |i: int, a: A| predictor(y, qm, i).fused_spec(predictor(y, qm, i), a)
}

/// Takes the product of the predictor with the first chroma plane off.
pub open spec fn product_x_step<A: Amount>(y: Seq<A>, x: Seq<A>, qm: Seq<A>) -> spec_fn(
    int,
    A,
) -> A {
    |i: int, a: A|
        A::zero_spec().minus_spec(predictor(y, qm, i)).fused_spec(x[i].times_spec(qm[i]), a)
}

/// Adds the product of the predictor with what luma leaves of the third plane.
pub open spec fn product_b_step<A: Amount>(y: Seq<A>, b: Seq<A>, qm: Seq<A>) -> spec_fn(
    int,
    A,
) -> A {
    |i: int, a: A|
        predictor(y, qm, i).fused_spec(
            y[i].times_spec(qm[i]).minus_spec(b[i].times_spec(qm[i])),
            a,
        )
}

/// Sums for the regression of a block's chroma on its luma.
pub fn cfl_regression<A: Amount>(
    y: &[A; 64],
    x: &[A; 64],
    b: &[A; 64],
    qm_x: &[A; 64],
    qm_b: &[A; 64],
) -> (r: Regression<A>)
    ensures
        r.square_x == pairs_summed(folded(8, in_turn(8), square_step(y@, qm_x@), 64)),
        r.product_x == pairs_summed(folded(8, in_turn(8), product_x_step(y@, x@, qm_x@), 64)),
        r.square_b == pairs_summed(folded(8, in_turn(8), square_step(y@, qm_b@), 64)),
        r.product_b == pairs_summed(folded(8, in_turn(8), product_b_step(y@, b@, qm_b@), 64)),
{
    let inv: A = A::ratio(1, 84);
    let ghost f1 = square_step(y@, qm_x@);
    let ghost f2 = product_x_step(y@, x@, qm_x@);
    let ghost f3 = square_step(y@, qm_b@);
    let ghost f4 = product_b_step(y@, b@, qm_b@);
    let mut s1: Vec<A> = make_lanes(8);
    let mut s2: Vec<A> = make_lanes(8);
    let mut s3: Vec<A> = make_lanes(8);
    let mut s4: Vec<A> = make_lanes(8);
    let mut i: usize = 0;
    while i < 64
        invariant
            i <= 64,
            inv == A::ratio_spec(1, 84),
            f1 == square_step(y@, qm_x@),
            f2 == product_x_step(y@, x@, qm_x@),
            f3 == square_step(y@, qm_b@),
            f4 == product_b_step(y@, b@, qm_b@),
            s1@ == folded(8, in_turn(8), f1, i as int),
            s2@ == folded(8, in_turn(8), f2, i as int),
            s3@ == folded(8, in_turn(8), f3, i as int),
            s4@ == folded(8, in_turn(8), f4, i as int),
        decreases 64 - i,
    {
        proof {
            lemma_folded_len(8, in_turn(8), f1, i as int);
            lemma_folded_len(8, in_turn(8), f2, i as int);
            lemma_folded_len(8, in_turn(8), f3, i as int);
            lemma_folded_len(8, in_turn(8), f4, i as int);
        }
        let l: usize = i % 8;
        let ax: A = inv.times(y[i].times(qm_x[i]));
        s1[l] = ax.fused(ax, s1[l]);
        s2[l] = A::zero().minus(ax).fused(x[i].times(qm_x[i]), s2[l]);
        let mb: A = y[i].times(qm_b[i]);
        let ab: A = inv.times(mb);
        s3[l] = ab.fused(ab, s3[l]);
        s4[l] = ab.fused(mb.minus(b[i].times(qm_b[i])), s4[l]);
        i += 1;
    }
    proof {
        lemma_folded_len(8, in_turn(8), f1, 64);
        lemma_folded_len(8, in_turn(8), f2, 64);
        lemma_folded_len(8, in_turn(8), f3, 64);
        lemma_folded_len(8, in_turn(8), f4, 64);
    }
    Regression {
        square_x: sum_pairs(&s1),
        product_x: sum_pairs(&s2),
        square_b: sum_pairs(&s3),
        product_b: sum_pairs(&s4),
    }
}

/// The AC coefficients of a block in units of its quantizer.
pub open spec fn quantizer_units<A: Amount>(block: Seq<A>, qm: Seq<A>, q: A) -> Seq<A> {
    Seq::new(63, |i: int| block[i + 1].times_spec(qm[i + 1].times_spec(q)))
}

/// Brings the AC coefficients of a block into units of its quantizer.
pub fn cfl_rdo_block<A: Amount>(block: &[A; 64], qm: &[A; 64], q: A) -> (r: Vec<A>)
    ensures
        r@ == quantizer_units(block@, qm@, q),
{
    let mut out: Vec<A> = Vec::new();
    let mut i: usize = 0;
    while i < 63
        invariant
            i <= 63,
            out@.len() == i,
            forall|k: int|
                0 <= k < i ==> #[trigger] out@[k] == quantizer_units(block@, qm@, q)[k],
        decreases 63 - i,
    {
        out.push(block[i + 1].times(qm[i + 1].times(q)));
        i += 1;
    }
    assert(out@ =~= quantizer_units(block@, qm@, q));
    out
}

/// Sums over two rows of coefficients: products, squares of both, and sizes of
/// the second.
pub struct RdoStats<A> {
    pub dot_ms: A,
    pub dot_mm: A,
    pub dot_ss: A,
    pub sum_abs_s: A,
}

pub open spec fn dot_step<A: Amount>(a: Seq<A>, b: Seq<A>) -> spec_fn(int, A) -> A {
    |i: int, sum: A| a[i].fused_spec(b[i], sum)
}

pub open spec fn size_step<A: Amount>(s: Seq<A>) -> spec_fn(int, A) -> A {
    |i: int, sum: A| sum.plus_spec(magnitude_spec(s[i]))
}

/// Sums that decide how well `m` predicts `s`.
pub fn cfl_rdo_stats<A: Amount>(m: &[A], s: &[A]) -> (r: RdoStats<A>)
    ensures
        ({
            let n = shorter(m@.len() as int, s@.len() as int);
            &&& r.dot_ms == pairs_summed(folded(8, in_turn(8), dot_step(m@, s@), n))
            &&& r.dot_mm == pairs_summed(folded(8, in_turn(8), dot_step(m@, m@), n))
            &&& r.dot_ss == pairs_summed(folded(8, in_turn(8), dot_step(s@, s@), n))
            &&& r.sum_abs_s == pairs_summed(folded(8, in_turn(8), size_step(s@), n))
        }),
{
    let n: usize = if m.len() < s.len() {
        m.len()
    } else {
        s.len()
    };
    let ghost f1 = dot_step(m@, s@);
    let ghost f2 = dot_step(m@, m@);
    let ghost f3 = dot_step(s@, s@);
    let ghost f4 = size_step(s@);
    let mut s1: Vec<A> = make_lanes(8);
    let mut s2: Vec<A> = make_lanes(8);
    let mut s3: Vec<A> = make_lanes(8);
    let mut s4: Vec<A> = make_lanes(8);
    let mut i: usize = 0;
    while i < n
        invariant
            i <= n,
            n <= m@.len(),
            n <= s@.len(),
            f1 == dot_step(m@, s@),
            f2 == dot_step(m@, m@),
            f3 == dot_step(s@, s@),
            f4 == size_step(s@),
            s1@ == folded(8, in_turn(8), f1, i as int),
            s2@ == folded(8, in_turn(8), f2, i as int),
            s3@ == folded(8, in_turn(8), f3, i as int),
            s4@ == folded(8, in_turn(8), f4, i as int),
        decreases n - i,
    {
        proof {
            lemma_folded_len(8, in_turn(8), f1, i as int);
            lemma_folded_len(8, in_turn(8), f2, i as int);
            lemma_folded_len(8, in_turn(8), f3, i as int);
            lemma_folded_len(8, in_turn(8), f4, i as int);
        }
        let l: usize = i % 8;
        s1[l] = m[i].fused(s[i], s1[l]);
        s2[l] = m[i].fused(m[i], s2[l]);
        s3[l] = s[i].fused(s[i], s3[l]);
        s4[l] = s4[l].plus(magnitude(s[i]));
        i += 1;
    }
    proof {
        lemma_folded_len(8, in_turn(8), f1, n as int);
        lemma_folded_len(8, in_turn(8), f2, n as int);
        lemma_folded_len(8, in_turn(8), f3, n as int);
        lemma_folded_len(8, in_turn(8), f4, n as int);
    }
    RdoStats {
        dot_ms: sum_pairs(&s1),
        dot_mm: sum_pairs(&s2),
        dot_ss: sum_pairs(&s3),
        sum_abs_s: sum_pairs(&s4),
    }
}

} // verus!
