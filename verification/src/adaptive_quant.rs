//! The quantizer of every block, from how much its surroundings hide.

use crate::amount::{clamped, clamped_spec, Amount, OrderedAmount};
use crate::fast_math::{dirty_log2f, log2_estimate};
use crate::opsin::{edge_sample, Image3, Planes};
use vstd::prelude::*;

verus! {

/// Denominator of the constants of this module.
pub const SCALE: u64 = 10_000_000_000_000;

/// A constant.
pub open spec fn dec<A: Amount>(n: i64) -> A {
    A::ratio_spec(n, SCALE)
}

fn decimal<A: Amount>(n: i64) -> (r: A)
    ensures
        r == dec::<A>(n),
{
    A::ratio(n, SCALE)
}

/// 226.77216153508914.
pub const GAMMA_MUL: i64 = 2_267_721_615_350_891;

/// 73.377132366608819, whose inverse is a factor of the slope.
pub const GAMMA_MUL2_INVERSE: i64 = 733_771_323_666_088;

/// 18.6580932135.
pub const GAMMA_RET: i64 = 186_580_932_135_000;

/// The natural logarithm of two.
pub const LN_2: i64 = 6_931_471_810_000;

/// 7.7825991679894591.
pub const GAMMA_OFFSET: i64 = 77_825_991_679_895;

/// 0.01.
pub const GAMMA_EPSILON: i64 = 100_000_000_000;

/// The slope of the simple gamma at the cube of `v`, relative to that of the
/// cubic root; its inverse where not `invert`. Negative values count as zero.
pub open spec fn gamma_ratio<A: Amount>(invert: bool, v: A) -> A {
    let eps = dec::<A>(GAMMA_EPSILON);
    let one = A::ratio_spec(1, 1);
    let u = if v.less_spec(A::zero_spec()) {
        A::zero_spec()
    } else {
        v
    };
    let ret_mul = one.over_spec(dec(GAMMA_MUL2_INVERSE)).times_spec(dec(GAMMA_RET)).times_spec(
        dec(LN_2),
    );
    let num_mul = ret_mul.times_spec(A::ratio_spec(3, 1)).times_spec(dec(GAMMA_MUL));
    let offset = dec::<A>(GAMMA_OFFSET).times_spec(dec(LN_2)).plus_spec(eps);
    let den_mul = dec::<A>(LN_2).times_spec(dec(GAMMA_MUL));
    let u2 = u.times_spec(u);
    let num = num_mul.times_spec(u2).plus_spec(eps);
    let den = den_mul.times_spec(u).times_spec(u2).plus_spec(offset);
    if invert {
        num.over_spec(den)
    } else {
        den.over_spec(num)
    }
}

/// Moves quantization from the space of cubic roots to that of the logarithmic
/// gamma: the ratio of the two slopes at `v`.
pub fn ratio_cubic_to_simple_gamma<A: Amount>(invert: bool, v: A) -> (r: A)
    ensures
        r == gamma_ratio(invert, v),
{
    let eps: A = decimal(GAMMA_EPSILON);
    let one: A = A::ratio(1, 1);
    let u: A = if v.less(A::zero()) {
        A::zero()
    } else {
        v
    };
    let ret_mul: A = one.over(decimal(GAMMA_MUL2_INVERSE)).times(decimal(GAMMA_RET)).times(
        decimal(LN_2),
    );
    let num_mul: A = ret_mul.times(A::ratio(3, 1)).times(decimal(GAMMA_MUL));
    let offset: A = decimal::<A>(GAMMA_OFFSET).times(decimal(LN_2)).plus(eps);
    let den_mul: A = decimal::<A>(LN_2).times(decimal(GAMMA_MUL));
    let u2: A = u.times(u);
    let num: A = num_mul.times(u2).plus(eps);
    let den: A = den_mul.times(u).times(u2).plus(offset);
    if invert {
        num.over(den)
    } else {
        den.over(num)
    }
}

/// Offset of the mask.
pub const MASK_BASE: i64 = -7_647_000_000_000;

/// Weights of the three terms of the mask.
pub const MASK_MUL: [i64; 3] = [173_503_656_163_186, 67_943_250_517_376, 94_708_735_624_379];

/// Offsets of the first two terms; that of the third is a quarter of the second.
pub const MASK_OFFSET: [i64; 2] = [3_025_958_781_557_973, 37_179_635_626_141];

/// Scale of the difference that is masked.
pub const MASK_MUL0: i64 = 8_006_176_286_274;

/// Least scaled difference.
pub const MASK_MIN: i64 = 10_000_000_000;

/// The masking transform of an accumulated difference.
pub open spec fn mask_spec<A: Amount>(v: A) -> A {
    let one = A::ratio_spec(1, 1);
    let offset3 = dec::<A>(MASK_OFFSET@[1]);
    let offset4 = A::ratio_spec(1, 4).times_spec(offset3);
    let v1 = v.times_spec(dec(MASK_MUL0)).greater_spec(dec(MASK_MIN));
    let v2 = one.over_spec(v1.plus_spec(dec(MASK_OFFSET@[0])));
    let v3 = one.over_spec(v1.times_spec(v1).plus_spec(offset3));
    let v4 = one.over_spec(v1.times_spec(v1).plus_spec(offset4));
    dec::<A>(MASK_MUL@[2]).fused_spec(
        v4,
        dec::<A>(MASK_MUL@[0]).fused_spec(
            v2,
            dec::<A>(MASK_MUL@[1]).fused_spec(v3, dec(MASK_BASE)),
        ),
    )
}

/// The masking transform of the difference accumulated over a block.
pub fn compute_mask<A: Amount>(v: A) -> (r: A)
    ensures
        r == mask_spec(v),
{
    let one: A = A::ratio(1, 1);
    let muls: [i64; 3] = MASK_MUL;
    let offsets: [i64; 2] = MASK_OFFSET;
    let offset3: A = decimal(offsets[1]);
    let offset4: A = A::ratio(1, 4).times(offset3);
    let v1: A = v.times(decimal(MASK_MUL0)).greater(decimal(MASK_MIN));
    let v2: A = one.over(v1.plus(decimal(offsets[0])));
    let v3: A = one.over(v1.times(v1).plus(offset3));
    let v4: A = one.over(v1.times(v1).plus(offset4));
    decimal::<A>(muls[2]).fused(
        v4,
        decimal::<A>(muls[0]).fused(v2, decimal::<A>(muls[1]).fused(v3, decimal(MASK_BASE))),
    )
}

/// 27.505837037000106.
pub const SQRT_OFFSET: i64 = 275_058_370_370_001;

/// 211.66567973503678, in units of 1e-8.
pub const SQRT_MUL: i64 = 2_116_656_797_350_368;

/// A quarter of the root of a squared difference, scaled and offset.
pub open spec fn masking_root<A: Amount>(v: A) -> A {
    let mul = dec::<A>(SQRT_MUL).times_spec(A::ratio_spec(100_000_000, 1)).root_spec();
    A::ratio_spec(1, 4).times_spec(v.fused_spec(mul, dec(SQRT_OFFSET)).root_spec())
}

/// A quarter of the root of a squared difference, scaled and offset.
pub fn masking_sqrt<A: Amount>(v: A) -> (r: A)
    ensures
        r == masking_root(v),
{
    let mul: A = decimal::<A>(SQRT_MUL).times(A::ratio(100_000_000, 1)).root();
    A::ratio(1, 4).times(v.fused(mul, decimal(SQRT_OFFSET)).root())
}

/// How strongly high frequencies lower the quantizer at a distance.
pub open spec fn hf_strength<A: Amount>(distance: A) -> A {
    clamped_spec(
        A::ratio_spec(1, 2).times_spec(distance),
        A::ratio_spec(1, 10),
        A::ratio_spec(1, 1),
    )
}

/// How strongly high frequencies lower the quantizer: half the distance, between
/// a tenth and one.
pub fn hf_modulation_strength<A: Amount>(distance: A) -> (r: A)
    ensures
        r == hf_strength(distance),
{
    clamped(A::ratio(1, 2).times(distance), A::ratio(1, 10), A::ratio(1, 1))
}

/// The size of an amount.
pub open spec fn magnitude_spec<A: Amount>(d: A) -> A {
    if d.less_spec(A::zero_spec()) {
        A::zero_spec().minus_spec(d)
    } else {
        d
    }
}

/// The size of an amount.
pub fn magnitude<A: Amount>(d: A) -> (r: A)
    ensures
        r == magnitude_spec(d),
{
    if d.less(A::zero()) {
        A::zero().minus(d)
    } else {
        d
    }
}

/// Largest difference between neighbours that counts.
pub const HF_LIMIT: i64 = 206_000_000_000;

/// Weight of the high frequencies.
pub const HF_MUL: i64 = -3_800_000_000_000;

/// Offset of the high-frequency term: a higher one spends more bits.
pub const HF_OFFSET: i64 = 4_200_000_000_000;

/// Plane of the luma samples.
pub const LUMA: usize = 1;

/// The sum of the differences between neighbours over the leading `n` samples of
/// the 8x8 block at `(x, y)`, to the right but in the last column and down but in
/// the last row, where the sample counts as its own neighbour.
pub open spec fn hf_sum<A: Amount>(v: Planes<A>, w: int, h: int, x: int, y: int, n: int) -> A
    decreases n,
{
    if n <= 0 {
        A::zero_spec()
    } else {
        let dx = (n - 1) % 8;
        let dy = (n - 1) / 8;
        let head = hf_sum(v, w, h, x, y, n - 1);
        let p = edge_sample(v, w, h, LUMA as int, x + dx, y + dy);
        let right = edge_sample(v, w, h, LUMA as int, x + dx + 1, y + dy);
        let below = edge_sample(v, w, h, LUMA as int, x + dx, y + (if dy == 7 {
            dy
        } else {
            dy + 1
        }));
        let limit = dec::<A>(HF_LIMIT);
        let across = if dx < 7 {
            head.plus_spec(limit.lesser_spec(magnitude_spec(p.minus_spec(right))))
        } else {
            head
        };
        across.plus_spec(limit.lesser_spec(magnitude_spec(p.minus_spec(below))))
    }
}

/// A block's value after high frequencies lowered it.
pub open spec fn hf_modulated<A: Amount>(
    v: Planes<A>,
    w: int,
    h: int,
    x: int,
    y: int,
    out: A,
    strength: A,
) -> A {
    hf_sum(v, w, h, x, y, 64).fused_spec(
        dec::<A>(HF_MUL).times_spec(strength),
        dec(HF_OFFSET),
    ).plus_spec(out)
}

/// Lowers a block's value by the high frequencies in it.
pub fn hf_modulation<A: Amount>(x: usize, y: usize, img: &Image3<A>, out: A, strength: A) -> (r: A)
    requires
        img.wf(),
        img.width() > 0,
        img.height() > 0,
        x + 8 <= usize::MAX,
        y + 8 <= usize::MAX,
    ensures
        r == hf_modulated(
            img@,
            img.width() as int,
            img.height() as int,
            x as int,
            y as int,
            out,
            strength,
        ),
{
    let limit: A = decimal(HF_LIMIT);
    let mut sum: A = A::zero();
    let mut i: usize = 0;
    while i < 64
        invariant
            i <= 64,
            img.wf(),
            img.width() > 0,
            img.height() > 0,
            x + 8 <= usize::MAX,
            y + 8 <= usize::MAX,
            limit == dec::<A>(HF_LIMIT),
            sum == hf_sum(
                img@,
                img.width() as int,
                img.height() as int,
                x as int,
                y as int,
                i as int,
            ),
        decreases 64 - i,
    {
        let dx: usize = i % 8;
        let dy: usize = i / 8;
        let p: A = img.edge(LUMA, x + dx, y + dy, 0, 0);
        if dx < 7 {
            let right: A = img.edge(LUMA, x + dx + 1, y + dy, 0, 0);
            sum = sum.plus(limit.lesser(magnitude(p.minus(right))));
        }
        let down: usize = if dy == 7 {
            dy
        } else {
            dy + 1
        };
        let below: A = img.edge(LUMA, x + dx, y + down, 0, 0);
        sum = sum.plus(limit.lesser(magnitude(p.minus(below))));
        i += 1;
    }
    sum.fused(decimal::<A>(HF_MUL).times(strength), decimal(HF_OFFSET)).plus(out)
}

/// Largest excess of blue that counts per sample.
pub const BLUE_LIMIT: i64 = 104_740_848_676;

/// Excess of blue over luma that does not count.
pub const BLUE_OFFSET: i64 = 31_994_768_655;

/// Weight of the excess of blue.
pub const BLUE_MUL: i64 = 9_059_080_473_561;

/// Samples of full excess beyond which a block gains no more.
pub const BLUE_MAX: i64 = 154_633_983_416_124;

/// The excess of blue over the leading `n` samples of a block.
pub open spec fn blue_sum<A: Amount>(v: Planes<A>, w: int, h: int, x: int, y: int, n: int) -> A
    decreases n,
{
    if n <= 0 {
        A::zero_spec()
    } else {
        let dx = (n - 1) % 8;
        let dy = (n - 1) / 8;
        let head = blue_sum(v, w, h, x, y, n - 1);
        let px = edge_sample(v, w, h, 0, x + dx, y + dy);
        let py = edge_sample(v, w, h, 1, x + dx, y + dy);
        let pb = edge_sample(v, w, h, 2, x + dx, y + dy);
        let effective = py.plus_spec(dec(BLUE_OFFSET)).plus_spec(magnitude_spec(px));
        if effective.less_spec(pb) {
            head.plus_spec(pb.minus_spec(effective).lesser_spec(dec(BLUE_LIMIT)))
        } else {
            head
        }
    }
}

/// What an excess of blue adds: it counts back down where more than half of the
/// block is blue, and is capped.
pub open spec fn blue_term<A: Amount>(sum: A) -> A {
    let limit = dec::<A>(BLUE_LIMIT);
    let folded = if A::ratio_spec(32, 1).times_spec(limit).at_most_spec(sum) {
        A::ratio_spec(64, 1).times_spec(limit).minus_spec(sum)
    } else {
        sum
    };
    let cap = dec::<A>(BLUE_MAX).times_spec(limit);
    let capped = if cap.at_most_spec(folded) {
        cap
    } else {
        folded
    };
    capped.times_spec(dec(BLUE_MUL))
}

/// Raises a block's value where it holds blue that is not all there is.
pub fn blue_modulation<A: Amount>(x: usize, y: usize, img: &Image3<A>, out: A) -> (r: A)
    requires
        img.wf(),
        img.width() > 0,
        img.height() > 0,
        x + 8 <= usize::MAX,
        y + 8 <= usize::MAX,
    ensures
        r == blue_term(
            blue_sum(
                img@,
                img.width() as int,
                img.height() as int,
                x as int,
                y as int,
                64,
            ),
        ).plus_spec(out),
{
    let limit: A = decimal(BLUE_LIMIT);
    let offset: A = decimal(BLUE_OFFSET);
    let mut sum: A = A::zero();
    let mut i: usize = 0;
    while i < 64
        invariant
            i <= 64,
            img.wf(),
            img.width() > 0,
            img.height() > 0,
            x + 8 <= usize::MAX,
            y + 8 <= usize::MAX,
            limit == dec::<A>(BLUE_LIMIT),
            offset == dec::<A>(BLUE_OFFSET),
            sum == blue_sum(
                img@,
                img.width() as int,
                img.height() as int,
                x as int,
                y as int,
                i as int,
            ),
        decreases 64 - i,
    {
        let px: A = img.edge(0, x + i % 8, y + i / 8, 0, 0);
        let py: A = img.edge(1, x + i % 8, y + i / 8, 0, 0);
        let pb: A = img.edge(2, x + i % 8, y + i / 8, 0, 0);
        let effective: A = py.plus(offset).plus(magnitude(px));
        if effective.less(pb) {
            sum = sum.plus(pb.minus(effective).lesser(limit));
        }
        i += 1;
    }
    if A::ratio(32, 1).times(limit).at_most(sum) {
        sum = A::ratio(64, 1).times(limit).minus(sum);
    }
    let cap: A = decimal::<A>(BLUE_MAX).times(limit);
    if cap.at_most(sum) {
        sum = cap;
    }
    sum.times(decimal(BLUE_MUL)).plus(out)
}

/// Added to luma before its gamma is taken.
pub const GAMMA_BIAS: i64 = 1_600_000_000_000;

/// Weight of the local gamma.
pub const GAMMA_WEIGHT: i64 = 1_005_613_337_193;

/// Half the sum of the slopes at the two colour ends of the leading `n` samples
/// of a block.
pub open spec fn gamma_sum<A: Amount>(v: Planes<A>, w: int, h: int, x: int, y: int, n: int) -> A
    decreases n,
{
    if n <= 0 {
        A::zero_spec()
    } else {
        let dx = (n - 1) % 8;
        let dy = (n - 1) / 8;
        let luma = edge_sample(v, w, h, 1, x + dx, y + dy).plus_spec(dec(GAMMA_BIAS));
        let diff = edge_sample(v, w, h, 0, x + dx, y + dy);
        A::ratio_spec(1, 2).fused_spec(
            gamma_ratio(true, luma.minus_spec(diff)).plus_spec(
                gamma_ratio(true, luma.plus_spec(diff)),
            ),
            gamma_sum(v, w, h, x, y, n - 1),
        )
    }
}

/// Accounts for the local gamma of a block.
pub fn gamma_modulation<A: Amount>(x: usize, y: usize, img: &Image3<A>, out: A) -> (r: A)
    requires
        img.wf(),
        img.width() > 0,
        img.height() > 0,
        x + 8 <= usize::MAX,
        y + 8 <= usize::MAX,
    ensures
        r == dec::<A>(GAMMA_WEIGHT).fused_spec(
            log2_estimate(
                gamma_sum(
                    img@,
                    img.width() as int,
                    img.height() as int,
                    x as int,
                    y as int,
                    64,
                ).times_spec(A::ratio_spec(1, 64)),
            ),
            out,
        ),
{
    let bias: A = decimal(GAMMA_BIAS);
    let half: A = A::ratio(1, 2);
    let mut sum: A = A::zero();
    let mut i: usize = 0;
    while i < 64
        invariant
            i <= 64,
            img.wf(),
            img.width() > 0,
            img.height() > 0,
            x + 8 <= usize::MAX,
            y + 8 <= usize::MAX,
            bias == dec::<A>(GAMMA_BIAS),
            half == A::ratio_spec(1, 2),
            sum == gamma_sum(
                img@,
                img.width() as int,
                img.height() as int,
                x as int,
                y as int,
                i as int,
            ),
        decreases 64 - i,
    {
        let luma: A = img.edge(1, x + i % 8, y + i / 8, 0, 0).plus(bias);
        let diff: A = img.edge(0, x + i % 8, y + i / 8, 0, 0);
        let red: A = ratio_cubic_to_simple_gamma(true, luma.minus(diff));
        let green: A = ratio_cubic_to_simple_gamma(true, luma.plus(diff));
        sum = half.fused(red.plus(green), sum);
        i += 1;
    }
    decimal::<A>(GAMMA_WEIGHT).fused(dirty_log2f(sum.times(A::ratio(1, 64))), out)
}

/// Four values with `v` put in before the first larger one, the last one
/// dropped; unchanged where none is larger.
pub open spec fn min4_with<A: Amount>(m: Seq<A>, v: A) -> Seq<A> {
    if !v.less_spec(m[3]) {
        m
    } else if v.less_spec(m[0]) {
        seq![v, m[0], m[1], m[2]]
    } else if v.less_spec(m[1]) {
        seq![m[0], v, m[1], m[2]]
    } else if v.less_spec(m[2]) {
        seq![m[0], m[1], v, m[2]]
    } else {
        seq![m[0], m[1], m[2], v]
    }
}

/// Puts `v` into its place among four values in order, and drops the largest.
pub fn store_min4<A: Amount>(v: A, mins: &mut [A; 4])
    ensures
        final(mins)@ == min4_with(old(mins)@, v),
{
    let m: [A; 4] = *mins;
    if v.less(m[3]) {
        if v.less(m[0]) {
            *mins = [v, m[0], m[1], m[2]];
        } else if v.less(m[1]) {
            *mins = [m[0], v, m[1], m[2]];
        } else if v.less(m[2]) {
            *mins = [m[0], m[1], v, m[2]];
        } else {
            *mins = [m[0], m[1], m[2], v];
        }
    }
    assert(mins@ =~= min4_with(m@, v));
}

/// Two entries exchanged where they are out of order.
pub open spec fn swapped<A: Amount>(s: Seq<A>, i: int, j: int) -> Seq<A> {
    if s[j].less_spec(s[i]) {
        s.update(i, s[j]).update(j, s[i])
    } else {
        s
    }
}

/// Four values in order.
pub open spec fn sorted4<A: Amount>(s: Seq<A>) -> Seq<A> {
    swapped(swapped(swapped(swapped(swapped(s, 0, 1), 2, 3), 0, 2), 1, 3), 1, 2)
}

fn order<A: Amount>(a: &mut [A; 4], i: usize, j: usize)
    requires
        i < j < 4,
    ensures
        final(a)@ == swapped(old(a)@, i as int, j as int),
{
    let (p, q): (A, A) = (a[i], a[j]);
    if q.less(p) {
        a[i] = q;
        a[j] = p;
    }
}

/// Sorts four values with five comparisons.
pub fn sort4<A: Amount>(a: &mut [A; 4])
    ensures
        final(a)@ == sorted4(old(a)@),
{
    order(a, 0, 1);
    order(a, 2, 3);
    order(a, 0, 2);
    order(a, 1, 3);
    order(a, 1, 2);
}

/// How often `a` stands among the leading `n` entries.
pub open spec fn times_in<A>(s: Seq<A>, a: A, n: int) -> int
    decreases n,
{
    if n <= 0 {
        0
    } else {
        times_in(s, a, n - 1) + (if s[n - 1] == a {
            1int
        } else {
            0
        })
    }
}

/// Four values of which none is smaller than one before it.
pub open spec fn in_order<A: Amount>(s: Seq<A>) -> bool {
    &&& s.len() == 4
    &&& !s[1].less_spec(s[0])
    &&& !s[2].less_spec(s[1])
    &&& !s[3].less_spec(s[2])
}

proof fn lemma_chain<A: OrderedAmount>(a: A, b: A, c: A)
    requires
        !b.less_spec(a),
        !c.less_spec(b),
    ensures
        !c.less_spec(a),
{
    if c.less_spec(a) {
        A::less_splits(c, b, a);
    }
}

proof fn lemma_swapped<A: OrderedAmount>(s: Seq<A>, i: int, j: int)
    requires
        0 <= i < j < s.len(),
    ensures
        swapped(s, i, j).len() == s.len(),
        !swapped(s, i, j)[j].less_spec(swapped(s, i, j)[i]),
{
    A::less_irreflexive(s[i]);
    if s[j].less_spec(s[i]) && s[i].less_spec(s[j]) {
        A::less_transitive(s[i], s[j], s[i]);
    }
}

/// Sorting leaves the values in order, and each as often as before.
pub proof fn law_sort4_sorts<A: OrderedAmount>(s: Seq<A>)
    requires
        s.len() == 4,
    ensures
        in_order(sorted4(s)),
        forall|a: A| #[trigger] times_in(sorted4(s), a, 4) == times_in(s, a, 4),
{
    let s1 = swapped(s, 0, 1);
    let s2 = swapped(s1, 2, 3);
    let s3 = swapped(s2, 0, 2);
    let s4 = swapped(s3, 1, 3);
    let s5 = swapped(s4, 1, 2);
    lemma_swapped(s, 0, 1);
    lemma_swapped(s1, 2, 3);
    lemma_swapped(s2, 0, 2);
    lemma_swapped(s3, 1, 3);
    lemma_swapped(s4, 1, 2);
    lemma_order_of_network(s2);
    reveal_with_fuel(times_in, 5);
    assert forall|a: A| #[trigger] times_in(s5, a, 4) == times_in(s, a, 4) by {}
}

/// After the first two comparisons, the other three put four values in order.
proof fn lemma_order_of_network<A: OrderedAmount>(s: Seq<A>)
    requires
        s.len() == 4,
        !s[1].less_spec(s[0]),
        !s[3].less_spec(s[2]),
    ensures
        in_order(swapped(swapped(swapped(s, 0, 2), 1, 3), 1, 2)),
{
    let s3 = swapped(s, 0, 2);
    let s4 = swapped(s3, 1, 3);
    lemma_swapped(s, 0, 2);
    lemma_swapped(s3, 1, 3);
    lemma_swapped(s4, 1, 2);
    let (a, b, c, d) = (s[0], s[1], s[2], s[3]);
    A::less_irreflexive(a);
    A::less_irreflexive(b);
    A::less_irreflexive(c);
    A::less_irreflexive(d);
    // The smallest of all stands first, the largest last.
    if c.less_spec(a) {
        if a.less_spec(c) {
            A::less_transitive(a, c, a);
        }
        lemma_chain(c, a, b);
    } else {
        lemma_chain(a, c, d);
    }
    if d.less_spec(b) {
        if b.less_spec(d) {
            A::less_transitive(b, d, b);
        }
        lemma_chain(c, d, b);
    } else {
        lemma_chain(a, b, d);
    }
}

/// Where four values are in order, the four kept are in order, the one dropped is
/// smaller than none of them, and no value is lost or made up.
pub proof fn law_store_min4_keeps_the_smallest<A: OrderedAmount>(m: Seq<A>, v: A)
    requires
        in_order(m),
    ensures
        ({
            let kept = min4_with(m, v);
            let dropped = if v.less_spec(m[3]) {
                m[3]
            } else {
                v
            };
            &&& in_order(kept)
            &&& !dropped.less_spec(kept[3])
            &&& forall|a: A|
                #[trigger] times_in(kept, a, 4) + (if dropped == a {
                    1int
                } else {
                    0
                }) == times_in(m, a, 4) + (if v == a {
                    1int
                } else {
                    0
                })
        }),
{
    let kept = min4_with(m, v);
    reveal_with_fuel(times_in, 5);
    A::less_irreflexive(v);
    A::less_irreflexive(m[3]);
    assert forall|i: int| 0 <= i < 4 && v.less_spec(#[trigger] m[i]) implies !m[i].less_spec(v) by {
        if m[i].less_spec(v) {
            A::less_transitive(v, m[i], v);
        }
    }
    if v.less_spec(m[3]) {
        assert(!m[3].less_spec(v));
    }
}

} // verus!
