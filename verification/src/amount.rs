//! Quantities in which rate-distortion decisions are made.
//!
//! The cost model of an encoder may run on any number format. Every decision of
//! this crate is written against [`Amount`], so it runs unchanged on whatever
//! format the model produces, and its contract speaks of the `*_spec` functions
//! of that trait, which name what each operation of the format returns.
//! [`Fixed`] is a saturating binary fixed-point format.

use vstd::prelude::*;

verus! {

/// A cost, a gain, or a factor applied to one.
pub trait Amount: Copy {
    /// The amount of nothing.
    open spec fn zero_spec() -> Self {
        arbitrary()
    }

    /// An amount that no proper candidate exceeds.
    open spec fn infinite_spec() -> Self {
        arbitrary()
    }

    /// The fraction `n / d`, as close as the format comes.
    open spec fn ratio_spec(n: i64, d: u64) -> Self {
        arbitrary()
    }

    /// The sum of two amounts.
    open spec fn plus_spec(self, other: Self) -> Self {
        arbitrary()
    }

    /// The difference of two amounts.
    open spec fn minus_spec(self, other: Self) -> Self {
        arbitrary()
    }

    /// An amount scaled by a factor.
    open spec fn times_spec(self, factor: Self) -> Self {
        arbitrary()
    }

    /// `self * factor + addend`, rounded as the format rounds that in one step.
    open spec fn fused_spec(self, factor: Self, addend: Self) -> Self {
        arbitrary()
    }

    /// An amount divided by a factor.
    open spec fn over_spec(self, factor: Self) -> Self {
        arbitrary()
    }

    /// The smaller of two amounts.
    open spec fn lesser_spec(self, other: Self) -> Self {
        arbitrary()
    }

    /// The larger of two amounts.
    open spec fn greater_spec(self, other: Self) -> Self {
        arbitrary()
    }

    /// Strictly smaller.
    open spec fn less_spec(self, other: Self) -> bool {
        arbitrary()
    }

    /// Smaller or equal.
    open spec fn at_most_spec(self, other: Self) -> bool {
        arbitrary()
    }

    /// Neither infinite nor undefined.
    open spec fn finite_spec(self) -> bool {
        arbitrary()
    }

    /// The square root; zero where there is none.
    open spec fn root_spec(self) -> Self {
        arbitrary()
    }

    /// Two to the power of the amount.
    open spec fn exp2_spec(self) -> Self {
        arbitrary()
    }

    /// The power of two that gives the amount.
    open spec fn log2_spec(self) -> Self {
        arbitrary()
    }

    /// Euler's number to the power of the amount.
    open spec fn exp_spec(self) -> Self {
        arbitrary()
    }

    /// The power of Euler's number that gives the amount.
    open spec fn ln_spec(self) -> Self {
        arbitrary()
    }

    /// The power of ten that gives the amount.
    open spec fn log10_spec(self) -> Self {
        arbitrary()
    }

    /// The integer part, held to the range of a byte.
    open spec fn byte_spec(self) -> u8 {
        arbitrary()
    }

    /// The nearest whole amount, the even one of two that are equally near.
    open spec fn nearest_spec(self) -> Self {
        arbitrary()
    }

    /// The whole amount next to it on the side of zero.
    open spec fn toward_zero_spec(self) -> Self {
        arbitrary()
    }

    /// The integer part, held to the range of 32-bit integers.
    open spec fn whole_spec(self) -> i32 {
        arbitrary()
    }

    /// The bits of the amount in the single precision format, as close as that comes.
    open spec fn bits_spec(self) -> u32 {
        arbitrary()
    }

    /// The amount that bits in the single precision format stand for.
    open spec fn from_bits_spec(bits: u32) -> Self {
        arbitrary()
    }

    fn zero() -> (r: Self)
        ensures
            r == Self::zero_spec(),
    ;

    fn infinite() -> (r: Self)
        ensures
            r == Self::infinite_spec(),
    ;

    fn ratio(n: i64, d: u64) -> (r: Self)
        requires
            d > 0,
        ensures
            r == Self::ratio_spec(n, d),
    ;

    fn plus(self, other: Self) -> (r: Self)
        ensures
            r == self.plus_spec(other),
    ;

    fn minus(self, other: Self) -> (r: Self)
        ensures
            r == self.minus_spec(other),
    ;

    fn times(self, factor: Self) -> (r: Self)
        ensures
            r == self.times_spec(factor),
    ;

    fn fused(self, factor: Self, addend: Self) -> (r: Self)
        ensures
            r == self.fused_spec(factor, addend),
    ;

    fn over(self, factor: Self) -> (r: Self)
        ensures
            r == self.over_spec(factor),
    ;

    fn lesser(self, other: Self) -> (r: Self)
        ensures
            r == self.lesser_spec(other),
    ;

    fn greater(self, other: Self) -> (r: Self)
        ensures
            r == self.greater_spec(other),
    ;

    fn less(self, other: Self) -> (r: bool)
        ensures
            r == self.less_spec(other),
    ;

    fn at_most(self, other: Self) -> (r: bool)
        ensures
            r == self.at_most_spec(other),
    ;

    fn finite(self) -> (r: bool)
        ensures
            r == self.finite_spec(),
    ;

    fn root(self) -> (r: Self)
        ensures
            r == self.root_spec(),
    ;

    fn exp2(self) -> (r: Self)
        ensures
            r == self.exp2_spec(),
    ;

    fn log2(self) -> (r: Self)
        ensures
            r == self.log2_spec(),
    ;

    fn exp(self) -> (r: Self)
        ensures
            r == self.exp_spec(),
    ;

    fn ln(self) -> (r: Self)
        ensures
            r == self.ln_spec(),
    ;

    fn log10(self) -> (r: Self)
        ensures
            r == self.log10_spec(),
    ;

    fn byte(self) -> (r: u8)
        ensures
            r == self.byte_spec(),
    ;

    fn nearest(self) -> (r: Self)
        ensures
            r == self.nearest_spec(),
    ;

    fn toward_zero(self) -> (r: Self)
        ensures
            r == self.toward_zero_spec(),
    ;

    fn whole(self) -> (r: i32)
        ensures
            r == self.whole_spec(),
    ;

    fn bits(self) -> (r: u32)
        ensures
            r == self.bits_spec(),
    ;

    fn from_bits(bits: u32) -> (r: Self)
        ensures
            r == Self::from_bits_spec(bits),
    ;
}

/// A format whose strict comparison is a strict order.
pub trait OrderedAmount: Amount {
    /// Nothing is strictly smaller than itself.
    proof fn less_irreflexive(a: Self)
        ensures
            !a.less_spec(a),
    ;

    /// Strict comparison chains.
    proof fn less_transitive(a: Self, b: Self, c: Self)
        requires
            a.less_spec(b),
            b.less_spec(c),
        ensures
            a.less_spec(c),
    ;

    /// An amount strictly between the ends of a comparison lies strictly above
    /// the one or strictly below the other.
    proof fn less_splits(a: Self, b: Self, c: Self)
        requires
            a.less_spec(c),
        ensures
            a.less_spec(b) || b.less_spec(c),
    ;

    /// Sums do not shrink where neither summand does.
    proof fn plus_monotone(a: Self, b: Self, c: Self, d: Self)
        requires
            !c.less_spec(a),
            !d.less_spec(b),
        ensures
            !c.plus_spec(d).less_spec(a.plus_spec(b)),
    ;

    /// Nothing added changes nothing.
    proof fn plus_zero(a: Self)
        ensures
            a.plus_spec(Self::zero_spec()) == a,
    ;

    /// Nothing with something added is that thing.
    proof fn zero_plus(a: Self)
        ensures
            Self::zero_spec().plus_spec(a) == a,
    ;

    /// Nothing exceeds the infinite amount.
    proof fn infinite_is_largest(a: Self)
        ensures
            !Self::infinite_spec().less_spec(a),
    ;

    /// Twice the infinite amount is the infinite amount.
    proof fn infinite_twice()
        ensures
            Self::infinite_spec().plus_spec(Self::infinite_spec()) == Self::infinite_spec(),
    ;

    /// The infinite amount, scaled by a positive factor, stays infinite.
    proof fn infinite_scaled(factor: Self)
        requires
            Self::zero_spec().less_spec(factor),
        ensures
            factor.times_spec(Self::infinite_spec()) == Self::infinite_spec(),
    ;

    /// The lesser of two amounts is the first where that is at most the second.
    proof fn lesser_picks(a: Self, b: Self)
        ensures
            a.lesser_spec(b) == if a.at_most_spec(b) {
                a
            } else {
                b
            },
    ;

    /// A product with something added does not shrink where what is added does not.
    proof fn fused_monotone(a: Self, b: Self, c: Self, d: Self)
        requires
            !d.less_spec(c),
        ensures
            !a.fused_spec(b, d).less_spec(a.fused_spec(b, c)),
    ;

    /// A product of two amounts that are nothing or more takes nothing away from what
    /// it is added to.
    proof fn fused_adds(a: Self, b: Self, c: Self)
        requires
            !a.less_spec(Self::zero_spec()),
            !b.less_spec(Self::zero_spec()),
        ensures
            !a.fused_spec(b, c).less_spec(c),
    ;

    /// A square takes nothing away from what it is added to.
    proof fn square_adds(a: Self, c: Self)
        ensures
            !a.fused_spec(a, c).less_spec(c),
    ;

    /// The comparison with equality allowed is the converse of the strict one.
    proof fn at_most_denies_less(a: Self, b: Self)
        ensures
            a.at_most_spec(b) == !b.less_spec(a),
    ;
}

/// `value` held to `[lo, hi]`: the nearer end where it lies outside.
pub open spec fn clamped_spec<A: Amount>(value: A, lo: A, hi: A) -> A {
    if value.less_spec(lo) {
        lo
    } else if hi.less_spec(value) {
        hi
    } else {
        value
    }
}

/// `value` held to `[lo, hi]`.
pub fn clamped<A: Amount>(value: A, lo: A, hi: A) -> (r: A)
    ensures
        r == clamped_spec(value, lo, hi),
{
    if value.less(lo) {
        lo
    } else if hi.less(value) {
        hi
    } else {
        value
    }
}

/// The raw value that stands for one.
pub const FIXED_ONE: i64 = 65536;

/// The raw value of the power of two that gives Euler's number.
pub const FIXED_LOG2_E: i64 = 94548;

/// The raw value of the power of Euler's number that gives two.
pub const FIXED_LN_2: i64 = 45426;

/// The raw value of the power of ten that gives two.
pub const FIXED_LOG10_2: i64 = 19728;

/// Binary fixed point with sixteen fraction bits. Results outside the range
/// stick to its ends; the upper end stands for an infinite amount, which a
/// positive factor leaves as it is.
#[derive(Clone, Copy, Debug, PartialEq, Eq, Structural)]
pub struct Fixed {
    pub raw: i64,
}

/// The raw value nearest to `n` within the range of the format.
pub open spec fn held(n: int) -> i64 {
    if n > i64::MAX {
        i64::MAX
    } else if n < i64::MIN {
        i64::MIN
    } else {
        n as i64
    }
}

/// The quotient of `n` and `d`, rounded toward zero.
pub open spec fn truncated_quotient(n: int, d: int) -> int {
    let magnitude = (if n < 0 { -n } else { n }) / (if d < 0 { -d } else { d });
    if (n < 0) == (d < 0) {
        magnitude
    } else {
        -magnitude
    }
}

/// `r` is the largest integer whose square does not exceed `n`.
pub open spec fn is_root(n: int, r: int) -> bool {
    r >= 0 && r * r <= n && n < (r + 1) * (r + 1)
}

/// The largest integer whose square does not exceed `n`, 0 for a negative `n`.
pub open spec fn floor_root(n: int) -> int {
    if n < 0 {
        0
    } else {
        choose|r: int| is_root(n, r)
    }
}

proof fn lemma_root_unique(n: int, r: int)
    requires
        n < 0 && r == 0 || is_root(n, r),
    ensures
        floor_root(n) == r,
{
    if n >= 0 {
        assert(is_root(n, r));
        let s = floor_root(n);
        assert(is_root(n, s));
        assert(r == s) by (nonlinear_arith)
            requires
                r >= 0,
                s >= 0,
                r * r <= n,
                n < (r + 1) * (r + 1),
                s * s <= n,
                n < (s + 1) * (s + 1),
        ;
    }
}

/// Two to a power, both with sixteen fraction bits: exact at whole powers and
/// straight between them. Results beyond the range stick to its ends.
pub open spec fn power_raw(x: int) -> int
    decreases
            (if x >= 65536 {
                x
            } else if x < 0 {
                -x
            } else {
                0
            }),
{
    if x >= 3_080_192 {
        i64::MAX as int
    } else if x < -1_114_112 {
        0
    } else if x >= 65536 {
        held(2 * power_raw(x - 65536)) as int
    } else if x < 0 {
        power_raw(x + 65536) / 2
    } else {
        65536 + x
    }
}

/// The power of two that gives `x`, both with sixteen fraction bits: exact at
/// whole powers and straight between them.
pub open spec fn log_raw(x: int) -> int
    decreases
            (if x >= 131072 {
                x
            } else {
                131072 - x
            }),
    when x > 0
{
    if x >= 131072 {
        65536 + log_raw(x / 2)
    } else if x < 65536 {
        log_raw(x * 2) - 65536
    } else {
        x - 65536
    }
}

/// The bits, in the single precision format, of `m` times two to the power of
/// `e - 150`, cut off behind the mantissa. What is too large is infinite, and what is
/// too small is nothing.
pub open spec fn single_bits(m: int, e: int) -> int
    decreases
            (if m >= 0x100_0000 {
                m
            } else {
                0x100_0000 - m
            }),
    when m > 0
{
    if m >= 0x100_0000 {
        single_bits(m / 2, e + 1)
    } else if m < 0x80_0000 {
        single_bits(m * 2, e - 1)
    } else if e >= 255 {
        0x7f80_0000
    } else if e <= 0 {
        0
    } else {
        e * 0x80_0000 + (m - 0x80_0000)
    }
}

/// `m` times two to the power of `k`, held to the range of the format.
pub open spec fn scaled_raw(m: int, k: int) -> int
    decreases
            (if k < 0 {
                -k
            } else {
                k
            }),
{
    if k > 0 {
        scaled_raw(held(2 * m) as int, k - 1)
    } else if k < 0 {
        scaled_raw(m / 2, k + 1)
    } else {
        m
    }
}

fn single_bits_of(n: u64) -> (r: u32)
    requires
        0 < n,
    ensures
        r == single_bits(n as int, 134),
        r <= 0x7f80_0000,
{
    let mut m: u64 = n;
    let mut e: i128 = 134;
    while m >= 0x100_0000
        invariant
            0 < m,
            134 <= e,
            e - 134 + m <= n,
            single_bits(n as int, 134) == single_bits(m as int, e as int),
        decreases m,
    {
        m = m / 2;
        e += 1;
    }
    while m < 0x80_0000
        invariant
            0 < m < 0x100_0000,
            e + m >= 134,
            e <= 134 + n,
            single_bits(n as int, 134) == single_bits(m as int, e as int),
        decreases 0x100_0000 - m,
    {
        m = m * 2;
        e -= 1;
    }
    if e >= 255 {
        0x7f80_0000
    } else if e <= 0 {
        0
    } else {
        e as u32 * 0x80_0000 + (m as u32 - 0x80_0000)
    }
}

fn hold(n: i128) -> (r: Fixed)
    ensures
        r.raw == held(n as int),
{
    if n > i64::MAX as i128 {
        Fixed { raw: i64::MAX }
    } else if n < i64::MIN as i128 {
        Fixed { raw: i64::MIN }
    } else {
        Fixed { raw: n as i64 }
    }
}

fn quotient(n: i128, d: i128) -> (r: i128)
    requires
        d != 0,
        -0x4000_0000_0000_0000_0000_0000_0000_0000 <= n <= 0x4000_0000_0000_0000_0000_0000_0000_0000,
        -0x4000_0000_0000_0000_0000_0000_0000_0000 <= d <= 0x4000_0000_0000_0000_0000_0000_0000_0000,
    ensures
        r == truncated_quotient(n as int, d as int),
{
    let top: u128 = if n < 0 {
        (-n) as u128
    } else {
        n as u128
    };
    let bottom: u128 = if d < 0 {
        (-d) as u128
    } else {
        d as u128
    };
    let magnitude: u128 = top / bottom;
    assert(magnitude <= top) by (nonlinear_arith)
        requires
            magnitude == top / bottom,
            bottom > 0,
    ;
    if (n < 0) == (d < 0) {
        magnitude as i128
    } else {
        -(magnitude as i128)
    }
}

impl Amount for Fixed {
    open spec fn zero_spec() -> Self {
        Fixed { raw: 0 }
    }

    open spec fn infinite_spec() -> Self {
        Fixed { raw: i64::MAX }
    }

    open spec fn ratio_spec(n: i64, d: u64) -> Self {
        Fixed { raw: held(truncated_quotient(n * FIXED_ONE, d as int)) }
    }

    open spec fn plus_spec(self, other: Self) -> Self {
        Fixed { raw: held(self.raw + other.raw) }
    }

    open spec fn minus_spec(self, other: Self) -> Self {
        Fixed { raw: held(self.raw - other.raw) }
    }

    open spec fn times_spec(self, factor: Self) -> Self {
        if self.raw == i64::MAX && factor.raw > 0 || self.raw > 0 && factor.raw == i64::MAX {
            Self::infinite_spec()
        } else {
            Fixed { raw: held(truncated_quotient(self.raw * factor.raw, FIXED_ONE as int)) }
        }
    }

    open spec fn fused_spec(self, factor: Self, addend: Self) -> Self {
        Fixed {
            raw: held(
                truncated_quotient(self.raw * factor.raw, FIXED_ONE as int) + addend.raw,
            ),
        }
    }

    open spec fn over_spec(self, factor: Self) -> Self {
        if factor.raw == 0 {
            Self::infinite_spec()
        } else {
            Fixed { raw: held(truncated_quotient(self.raw * FIXED_ONE, factor.raw as int)) }
        }
    }

    open spec fn lesser_spec(self, other: Self) -> Self {
        if self.raw < other.raw {
            self
        } else {
            other
        }
    }

    open spec fn greater_spec(self, other: Self) -> Self {
        if self.raw < other.raw {
            other
        } else {
            self
        }
    }

    open spec fn less_spec(self, other: Self) -> bool {
        self.raw < other.raw
    }

    open spec fn at_most_spec(self, other: Self) -> bool {
        self.raw <= other.raw
    }

    open spec fn finite_spec(self) -> bool {
        i64::MIN < self.raw < i64::MAX
    }

    open spec fn root_spec(self) -> Self {
        Fixed { raw: floor_root(self.raw * FIXED_ONE) as i64 }
    }

    open spec fn exp2_spec(self) -> Self {
        Fixed { raw: power_raw(self.raw as int) as i64 }
    }

    open spec fn log2_spec(self) -> Self {
        if self.raw <= 0 {
            Fixed { raw: i64::MIN }
        } else {
            Fixed { raw: log_raw(self.raw as int) as i64 }
        }
    }

    open spec fn exp_spec(self) -> Self {
        self.times_spec(Fixed { raw: FIXED_LOG2_E }).exp2_spec()
    }

    open spec fn ln_spec(self) -> Self {
        if self.raw <= 0 {
            Fixed { raw: i64::MIN }
        } else {
            self.log2_spec().times_spec(Fixed { raw: FIXED_LN_2 })
        }
    }

    open spec fn log10_spec(self) -> Self {
        if self.raw <= 0 {
            Fixed { raw: i64::MIN }
        } else {
            self.log2_spec().times_spec(Fixed { raw: FIXED_LOG10_2 })
        }
    }

    open spec fn byte_spec(self) -> u8 {
        if self.raw < 0 {
            0
        } else if self.raw / FIXED_ONE > 255 {
            255
        } else {
            (self.raw / FIXED_ONE) as u8
        }
    }

    open spec fn nearest_spec(self) -> Self {
        let q = self.raw as int / FIXED_ONE as int;
        let rest = self.raw as int % FIXED_ONE as int;
        let up = 2 * rest > FIXED_ONE || 2 * rest == FIXED_ONE && q % 2 == 1;
        Fixed {
            raw: held(
                (if up {
                    q + 1
                } else {
                    q
                }) * FIXED_ONE,
            ),
        }
    }

    open spec fn toward_zero_spec(self) -> Self {
        Fixed {
            raw: held(truncated_quotient(self.raw as int, FIXED_ONE as int) * FIXED_ONE),
        }
    }

    open spec fn whole_spec(self) -> i32 {
        let q = truncated_quotient(self.raw as int, FIXED_ONE as int);
        if q > i32::MAX {
            i32::MAX
        } else if q < i32::MIN {
            i32::MIN
        } else {
            q as i32
        }
    }

    open spec fn bits_spec(self) -> u32 {
        if self.raw > 0 {
            single_bits(self.raw as int, 134) as u32
        } else if self.raw < 0 {
            (0x8000_0000 + single_bits(-self.raw, 134)) as u32
        } else {
            0
        }
    }

    open spec fn from_bits_spec(bits: u32) -> Self {
        let rest = bits as int % 0x8000_0000;
        let e = rest / 0x80_0000;
        let magnitude = if e == 255 {
            i64::MAX as int
        } else if e == 0 {
            0
        } else {
            scaled_raw(rest % 0x80_0000 + 0x80_0000, e - 134)
        };
        Fixed {
            raw: if bits >= 0x8000_0000 {
                -magnitude
            } else {
                magnitude
            } as i64,
        }
    }

    fn zero() -> (r: Self) {
        Fixed { raw: 0 }
    }

    fn infinite() -> (r: Self) {
        Fixed { raw: i64::MAX }
    }

    fn ratio(n: i64, d: u64) -> (r: Self) {
        proof {
            product_bound(n as int, FIXED_ONE as int);
        }
        hold(quotient(n as i128 * FIXED_ONE as i128, d as i128))
    }

    fn plus(self, other: Self) -> (r: Self) {
        hold(self.raw as i128 + other.raw as i128)
    }

    fn minus(self, other: Self) -> (r: Self) {
        hold(self.raw as i128 - other.raw as i128)
    }

    fn times(self, factor: Self) -> (r: Self) {
        if self.raw == i64::MAX && factor.raw > 0 || self.raw > 0 && factor.raw == i64::MAX {
            return Self::infinite();
        }
        let a: i128 = self.raw as i128;
        let b: i128 = factor.raw as i128;
        proof {
            product_bound(self.raw as int, factor.raw as int);
        }
        hold(quotient(a * b, FIXED_ONE as i128))
    }

    fn fused(self, factor: Self, addend: Self) -> (r: Self) {
        let a: i128 = self.raw as i128;
        let b: i128 = factor.raw as i128;
        proof {
            product_bound(self.raw as int, factor.raw as int);
        }
        let scaled: i128 = quotient(a * b, FIXED_ONE as i128);
        hold(scaled + addend.raw as i128)
    }

    fn over(self, factor: Self) -> (r: Self) {
        if factor.raw == 0 {
            Self::infinite()
        } else {
            proof {
                product_bound(self.raw as int, FIXED_ONE as int);
            }
            hold(quotient(self.raw as i128 * FIXED_ONE as i128, factor.raw as i128))
        }
    }

    fn lesser(self, other: Self) -> (r: Self) {
        if self.raw < other.raw {
            self
        } else {
            other
        }
    }

    fn greater(self, other: Self) -> (r: Self) {
        if self.raw < other.raw {
            other
        } else {
            self
        }
    }

    fn less(self, other: Self) -> (r: bool) {
        self.raw < other.raw
    }

    fn at_most(self, other: Self) -> (r: bool) {
        self.raw <= other.raw
    }

    fn finite(self) -> (r: bool) {
        i64::MIN < self.raw && self.raw < i64::MAX
    }

    fn root(self) -> (r: Self) {
        if self.raw <= 0 {
            proof {
                lemma_root_unique(self.raw * FIXED_ONE, 0);
            }
            return Fixed { raw: 0 };
        }
        let n: u128 = self.raw as u128 * 65536;
        let mut lo: u128 = 0;
        let mut hi: u128 = 0x100_0000_0000;
        assert(lo * lo <= n) by (nonlinear_arith)
            requires
                lo == 0,
        ;
        assert(n < hi * hi) by (nonlinear_arith)
            requires
                hi == 0x100_0000_0000,
                n <= 0x7fff_ffff_ffff_ffff * 65536,
        ;
        while hi - lo > 1
            invariant
                lo < hi <= 0x100_0000_0000,
                lo * lo <= n < hi * hi,
            decreases hi - lo,
        {
            let mid: u128 = lo + (hi - lo) / 2;
            assert(mid * mid <= 0x100_0000_0000 * 0x100_0000_0000) by (nonlinear_arith)
                requires
                    0 <= mid <= 0x100_0000_0000,
            ;
            if mid * mid <= n {
                lo = mid;
            } else {
                hi = mid;
            }
        }
        proof {
            assert(hi == lo + 1);
            lemma_root_unique(self.raw * FIXED_ONE, lo as int);
        }
        Fixed { raw: lo as i64 }
    }

    fn exp2(self) -> (r: Self) {
        if self.raw >= 3_080_192 {
            return Fixed { raw: i64::MAX };
        }
        if self.raw < -1_114_112 {
            return Fixed { raw: 0 };
        }
        let mut x: i64 = self.raw;
        let mut up: u32 = 0;
        let mut down: u32 = 0;
        while x >= FIXED_ONE
            invariant
                -1_114_112 <= x < 3_080_192,
                self.raw == x + up * FIXED_ONE,
                up <= 47,
                x >= 0 || up == 0,
                -1_114_112 <= self.raw < 3_080_192,
            decreases x,
        {
            x -= FIXED_ONE;
            up += 1;
        }
        while x < 0
            invariant
                -1_114_112 <= x < FIXED_ONE,
                self.raw == x + up * FIXED_ONE - down * FIXED_ONE,
                down <= 17,
                up <= 47,
                up > 0 ==> x >= 0 && down == 0,
                -1_114_112 <= self.raw < 3_080_192,
            decreases
                (if x < 0 {
                    -x
                } else {
                    0
                }),
        {
            x += FIXED_ONE;
            down += 1;
        }
        let ghost base = x as int;
        let mut value: i64 = FIXED_ONE + x;
        let ghost mut at = x as int;
        let mut k: u32 = 0;
        while k < up
            invariant
                k <= up <= 47,
                0 <= base < FIXED_ONE,
                at == base + k * FIXED_ONE,
                self.raw == base + up * FIXED_ONE - down * FIXED_ONE,
                up > 0 ==> down == 0,
                -1_114_112 <= self.raw < 3_080_192,
                value == power_raw(at),
                0 <= value,
            decreases up - k,
        {
            assert(at + FIXED_ONE < 3_080_192);
            value = if value > 0x3fff_ffff_ffff_ffff {
                i64::MAX
            } else {
                value * 2
            };
            k += 1;
            proof {
                at = at + FIXED_ONE;
            }
        }
        k = 0;
        while k < down
            invariant
                k <= down <= 17,
                up > 0 ==> down == 0,
                at == base + up * FIXED_ONE - k * FIXED_ONE,
                0 <= base < FIXED_ONE,
                self.raw == base + up * FIXED_ONE - down * FIXED_ONE,
                -1_114_112 <= self.raw < 3_080_192,
                value == power_raw(at),
                0 <= value,
            decreases down - k,
        {
            value = value / 2;
            k += 1;
            proof {
                at = at - FIXED_ONE;
            }
        }
        assert(at == self.raw);
        Fixed { raw: value }
    }

    fn log2(self) -> (r: Self) {
        if self.raw <= 0 {
            return Fixed { raw: i64::MIN };
        }
        let mut x: i64 = self.raw;
        let mut whole: i64 = 0;
        while x >= 131_072
            invariant
                0 < x,
                self.raw > 0,
                0 <= whole,
                whole + x <= self.raw,
                log_raw(self.raw as int) == whole + log_raw(x as int),
            decreases x,
        {
            x = x / 2;
            whole += FIXED_ONE;
        }
        while x < FIXED_ONE
            invariant
                0 < x < 131_072,
                whole + x * FIXED_ONE >= 0,
                whole + x <= self.raw,
                self.raw > 0,
                log_raw(self.raw as int) == whole + log_raw(x as int),
            decreases 131_072 - x,
        {
            x = x * 2;
            whole -= FIXED_ONE;
        }
        Fixed { raw: whole + (x - FIXED_ONE) }
    }

    fn exp(self) -> (r: Self) {
        self.times(Fixed { raw: FIXED_LOG2_E }).exp2()
    }

    fn ln(self) -> (r: Self) {
        if self.raw <= 0 {
            return Fixed { raw: i64::MIN };
        }
        self.log2().times(Fixed { raw: FIXED_LN_2 })
    }

    fn log10(self) -> (r: Self) {
        if self.raw <= 0 {
            return Fixed { raw: i64::MIN };
        }
        self.log2().times(Fixed { raw: FIXED_LOG10_2 })
    }

    fn byte(self) -> (r: u8) {
        if self.raw < 0 {
            0
        } else if self.raw / FIXED_ONE > 255 {
            255
        } else {
            (self.raw / FIXED_ONE) as u8
        }
    }

    fn nearest(self) -> (r: Self) {
        let raw: i128 = self.raw as i128;
        let one: i128 = 65536;
        let t: i128 = quotient(raw, one);
        let q: i128 = if raw < t * one {
            t - 1
        } else {
            t
        };
        let rest: i128 = raw - q * one;
        assert(q == self.raw as int / FIXED_ONE as int && rest == self.raw as int
            % FIXED_ONE as int);
        let odd: bool = q - 2 * half_down(q) == 1;
        if 2 * rest > one || 2 * rest == one && odd {
            hold((q + 1) * one)
        } else {
            hold(q * one)
        }
    }

    fn toward_zero(self) -> (r: Self) {
        hold(quotient(self.raw as i128, 65536) * 65536)
    }

    fn whole(self) -> (r: i32) {
        let q: i128 = quotient(self.raw as i128, 65536);
        if q > i32::MAX as i128 {
            i32::MAX
        } else if q < i32::MIN as i128 {
            i32::MIN
        } else {
            q as i32
        }
    }

    fn bits(self) -> (r: u32) {
        if self.raw > 0 {
            single_bits_of(self.raw as u64)
        } else if self.raw < 0 {
            0x8000_0000 + single_bits_of((-(self.raw as i128)) as u64)
        } else {
            0
        }
    }

    fn from_bits(bits: u32) -> (r: Self) {
        let rest: u32 = bits % 0x8000_0000;
        let e: u32 = rest / 0x80_0000;
        let mut m: i64 = (rest % 0x80_0000 + 0x80_0000) as i64;
        let ghost want = scaled_raw(m as int, e - 134);
        let mut k: i32 = e as i32 - 134;
        while k > 0
            invariant
                0 <= m,
                k <= 121,
                k < 0 ==> k == e - 134,
                want == scaled_raw(m as int, k as int),
            decreases k,
        {
            m = if m > 0x3fff_ffff_ffff_ffff {
                i64::MAX
            } else {
                m * 2
            };
            k -= 1;
        }
        while k < 0
            invariant
                0 <= m,
                k <= 0,
                want == scaled_raw(m as int, k as int),
            decreases -k,
        {
            m = m / 2;
            k += 1;
        }
        let magnitude: i64 = if e == 255 {
            i64::MAX
        } else if e == 0 {
            0
        } else {
            m
        };
        Fixed {
            raw: if bits >= 0x8000_0000 {
                -magnitude
            } else {
                magnitude
            },
        }
    }
}

/// `n / 2`, rounded down.
fn half_down(n: i128) -> (r: i128)
    requires
        -0x1_0000_0000_0000_0000 < n < 0x1_0000_0000_0000_0000,
    ensures
        r == n as int / 2,
{
    if n >= 0 {
        n / 2
    } else {
        -((1 - n) / 2)
    }
}

impl OrderedAmount for Fixed {
    proof fn less_irreflexive(a: Self) {
    }

    proof fn less_transitive(a: Self, b: Self, c: Self) {
    }

    proof fn less_splits(a: Self, b: Self, c: Self) {
    }

    proof fn plus_monotone(a: Self, b: Self, c: Self, d: Self) {
    }

    proof fn plus_zero(a: Self) {
    }

    proof fn zero_plus(a: Self) {
    }

    proof fn infinite_is_largest(a: Self) {
    }

    proof fn infinite_twice() {
    }

    proof fn infinite_scaled(factor: Self) {
    }

    proof fn lesser_picks(a: Self, b: Self) {
    }

    proof fn fused_monotone(a: Self, b: Self, c: Self, d: Self) {
    }

    proof fn fused_adds(a: Self, b: Self, c: Self) {
        assert(a.raw * b.raw >= 0) by (nonlinear_arith)
            requires
                a.raw >= 0,
                b.raw >= 0,
        ;
    }

    proof fn square_adds(a: Self, c: Self) {
        assert(a.raw * a.raw >= 0) by (nonlinear_arith);
    }

    proof fn at_most_denies_less(a: Self, b: Self) {
    }
}

proof fn product_bound(a: int, b: int)
    requires
        i64::MIN <= a <= i64::MAX,
        i64::MIN <= b <= i64::MAX,
    ensures
        -0x4000_0000_0000_0000_0000_0000_0000_0000 <= a * b
            <= 0x4000_0000_0000_0000_0000_0000_0000_0000,
{
    assert(-0x4000_0000_0000_0000_0000_0000_0000_0000 <= a * b
        <= 0x4000_0000_0000_0000_0000_0000_0000_0000) by (nonlinear_arith)
        requires
            -0x8000_0000_0000_0000 <= a <= 0x7fff_ffff_ffff_ffff,
            -0x8000_0000_0000_0000 <= b <= 0x7fff_ffff_ffff_ffff,
    ;
}

} // verus!
