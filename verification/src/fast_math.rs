//! Fast logarithms and powers of two: a number is taken apart by its bits in the
//! single precision format, and a polynomial does the rest.

use crate::amount::Amount;
use vstd::prelude::*;

verus! {

/// One, in the single precision format.
pub const ONE_BITS: u32 = 0x3f80_0000;

/// The root of a half, in the single precision format.
pub const ROOT_HALF_BITS: u32 = 0x3f35_04f3;

/// How far apart the bits of a number and of its double are.
pub const OCTAVE: u32 = 0x0080_0000;

/// The bits of 2^(i/64 - 1/2).
pub const EXP2_TABLE: [u32; 64] = [
    0x3f3504f3, 0x3f36fd92, 0x3f38fbaf, 0x3f3aff5b, 0x3f3d08a4, 0x3f3f179a, 0x3f412c4d, 0x3f4346cd,
    0x3f45672a, 0x3f478d75, 0x3f49b9be, 0x3f4bec15, 0x3f4e248c, 0x3f506334, 0x3f52a81e, 0x3f54f35b,
    0x3f5744fd, 0x3f599d16, 0x3f5bfbb8, 0x3f5e60f5, 0x3f60ccdf, 0x3f633f89, 0x3f65b907, 0x3f68396a,
    0x3f6ac0c7, 0x3f6d4f30, 0x3f6fe4ba, 0x3f728177, 0x3f75257d, 0x3f77d0df, 0x3f7a83b3, 0x3f7d3e0c,
    0x3f800000, 0x3f8164d2, 0x3f82cd87, 0x3f843a29, 0x3f85aac3, 0x3f871f62, 0x3f88980f, 0x3f8a14d5,
    0x3f8b95c2, 0x3f8d1adf, 0x3f8ea43a, 0x3f9031dc, 0x3f91c3d3, 0x3f935a2b, 0x3f94f4f0, 0x3f96942d,
    0x3f9837f0, 0x3f99e046, 0x3f9b8d3a, 0x3f9d3eda, 0x3f9ef532, 0x3fa0b051, 0x3fa27043, 0x3fa43516,
    0x3fa5fed7, 0x3fa7cd94, 0x3fa9a15b, 0x3fab7a3a, 0x3fad583f, 0x3faf3b79, 0x3fb123f6, 0x3fb311c4,
];

/// Bits, taken apart into an exponent and the bits of a mantissa between `low` and
/// its double.
pub open spec fn parts(bits: u32, low: u32) -> (int, int) {
    let shifted = (bits + ONE_BITS - low) % 0x1_0000_0000;
    (shifted / OCTAVE as int - 127, shifted % OCTAVE as int + low)
}

fn take_apart(bits: u32, low: u32) -> (r: (i32, u32))
    requires
        low <= ONE_BITS,
    ensures
        (r.0 as int, r.1 as int) == parts(bits, low),
{
    let shifted: u32 = bits.wrapping_add(ONE_BITS - low);
    ((shifted / OCTAVE) as i32 - 127, shifted % OCTAVE + low)
}

/// The exponent and the mantissa make up the number again, and the mantissa lies
/// between `low` and its double, for every positive number.
pub proof fn law_parts_make_up_the_number(bits: u32, low: u32)
    requires
        low <= ONE_BITS,
        bits < 0x8000_0000,
    ensures
        parts(bits, low).1 + parts(bits, low).0 * OCTAVE == bits,
        low <= parts(bits, low).1 < low + OCTAVE,
{
}

/// The exponent of a number and its mantissa, between the roots of a half and of
/// two.
pub fn log2_parts(bits: u32) -> (r: (i32, u32))
    ensures
        (r.0 as int, r.1 as int) == parts(bits, ROOT_HALF_BITS),
{
    take_apart(bits, ROOT_HALF_BITS)
}

/// The exponent of a number and its mantissa, between one and two.
pub fn exponent_parts(bits: u32) -> (r: (i32, u32))
    ensures
        (r.0 as int, r.1 as int) == parts(bits, ONE_BITS),
{
    take_apart(bits, ONE_BITS)
}

/// An estimate of the binary logarithm of a mantissa times two to an exponent, by an
/// odd polynomial in `(a - 1) / (a + 1)`.
pub open spec fn log2_of_parts<A: Amount>(mantissa: A, exponent: i32) -> A {
    let one = A::ratio_spec(1, 1);
    let x = mantissa.minus_spec(one).over_spec(mantissa.plus_spec(one));
    let x2 = x.times_spec(x);
    let u = A::ratio_spec(4_121_985_850_084_822, 10_000_000_000_000_000).fused_spec(
        x2,
        A::ratio_spec(5_770_780_163_490_338, 10_000_000_000_000_000),
    ).fused_spec(x2, A::ratio_spec(9_617_966_939_259_846, 10_000_000_000_000_000));
    let line = x.fused_spec(
        A::ratio_spec(28_853_900_817_779_268, 10_000_000_000_000_000),
        A::ratio_spec(exponent as i64, 1),
    );
    x2.times_spec(x).fused_spec(u, line)
}

/// An estimate of the binary logarithm of a number.
pub open spec fn log2_estimate<A: Amount>(d: A) -> A {
    let (exponent, mantissa) = parts(d.bits_spec(), ROOT_HALF_BITS);
    log2_of_parts(A::from_bits_spec(mantissa as u32), exponent as i32)
}

/// Estimates the binary logarithm of a number.
pub fn dirty_log2f<A: Amount>(d: A) -> (r: A)
    ensures
        r == log2_estimate(d),
{
    let (exponent, bits) = log2_parts(d.bits());
    let mantissa: A = A::from_bits(bits);
    let one: A = A::ratio(1, 1);
    let x: A = mantissa.minus(one).over(mantissa.plus(one));
    let x2: A = x.times(x);
    let mut u: A = A::ratio(4_121_985_850_084_822, 10_000_000_000_000_000);
    u = u.fused(x2, A::ratio(5_770_780_163_490_338, 10_000_000_000_000_000));
    u = u.fused(x2, A::ratio(9_617_966_939_259_846, 10_000_000_000_000_000));
    let line: A = x.fused(
        A::ratio(28_853_900_817_779_268, 10_000_000_000_000_000),
        A::ratio(exponent as i64, 1),
    );
    x2.times(x).fused(u, line)
}

/// A polynomial whose leading `n` coefficients come with the highest powers.
pub open spec fn horner<A: Amount>(coefficients: Seq<A>, t: A, n: int) -> A
    decreases n,
{
    if n <= 1 {
        coefficients[0]
    } else {
        horner(coefficients, t, n - 1).fused_spec(t, coefficients[n - 1])
    }
}

/// Coefficients of `ln(1 + t) / t`, from the highest power down.
pub open spec fn log1p_coefficients<A: Amount>() -> Seq<A> {
    let unit: u64 = 1_000_000_000_000_000_000;
    seq![
        A::ratio_spec(14_539_075_084_030_628, unit),
        A::ratio_spec(-67_596_912_384_033_200i64, unit),
        A::ratio_spec(150_569_707_155_227_660, unit),
        A::ratio_spec(-235_737_308_859_825_130i64, unit),
        A::ratio_spec(331_258_505_582_809_450, unit),
        A::ratio_spec(-499_883_741_140_365_600i64, unit),
        A::ratio_spec(999_998_927_116_394_000, unit),
    ]
}

/// An estimate of `ln(1 + d)`, where `1 + d` is the mantissa times two to the
/// exponent. A `d` below one stands for itself, so that small ones lose nothing.
pub open spec fn log1p_of_parts<A: Amount>(d: A, mantissa: A, exponent: i32) -> A {
    let t = if exponent == 0 {
        d
    } else {
        mantissa.minus_spec(A::ratio_spec(1, 1))
    };
    A::ratio_spec(exponent as i64, 1).fused_spec(
        A::ratio_spec(6_931_471_805_599_453, 10_000_000_000_000_000),
        t.times_spec(horner(log1p_coefficients(), t, 7)),
    )
}

/// An estimate of `ln(1 + d)`.
pub open spec fn log1p_estimate<A: Amount>(d: A) -> A {
    let (exponent, mantissa) = parts(A::ratio_spec(1, 1).plus_spec(d).bits_spec(), ONE_BITS);
    log1p_of_parts(d, A::from_bits_spec(mantissa as u32), exponent as i32)
}

/// Estimates `ln(1 + d)`.
pub fn dirty_log1pf<A: Amount>(d: A) -> (r: A)
    ensures
        r == log1p_estimate(d),
{
    let (exponent, bits) = exponent_parts(A::ratio(1, 1).plus(d).bits());
    let mantissa: A = A::from_bits(bits);
    let unit: u64 = 1_000_000_000_000_000_000;
    let t: A = if exponent == 0 {
        d
    } else {
        mantissa.minus(A::ratio(1, 1))
    };
    let mut p: A = A::ratio(14_539_075_084_030_628, unit);
    p = p.fused(t, A::ratio(-67_596_912_384_033_200, unit));
    p = p.fused(t, A::ratio(150_569_707_155_227_660, unit));
    p = p.fused(t, A::ratio(-235_737_308_859_825_130, unit));
    p = p.fused(t, A::ratio(331_258_505_582_809_450, unit));
    p = p.fused(t, A::ratio(-499_883_741_140_365_600, unit));
    p = p.fused(t, A::ratio(999_998_927_116_394_000, unit));
    proof {
        reveal_with_fuel(horner, 8);
        assert(p == horner(log1p_coefficients(), t, 7));
    }
    A::ratio(exponent as i64, 1).fused(
        A::ratio(6_931_471_805_599_453, 10_000_000_000_000_000),
        t.times(p),
    )
}

/// Coefficients of `log2(1 + t) / t`, from the highest power down.
pub open spec fn log2p1_coefficients<A: Amount>() -> Seq<A> {
    let unit: u64 = 1_000_000_000_000_000_000;
    seq![
        A::ratio_spec(20_968_416_705_727_577, unit),
        A::ratio_spec(-97_498_938_441_276_550i64, unit),
        A::ratio_spec(217_197_775_840_759_277, unit),
        A::ratio_spec(-340_080_082_416_534_424i64, unit),
        A::ratio_spec(477_900_087_833_404_541, unit),
        A::ratio_spec(-721_179_187_297_821_045i64, unit),
        A::ratio_spec(1_442_693_471_908_569_336, unit),
    ]
}

/// An estimate of `log2(1 + x)`, where `1 + x` is the mantissa times two to the
/// exponent.
pub open spec fn log2p1_of_parts<A: Amount>(mantissa: A, exponent: i32) -> A {
    let t = mantissa.minus_spec(A::ratio_spec(1, 1));
    A::ratio_spec(exponent as i64, 1).plus_spec(
        t.times_spec(horner(log2p1_coefficients(), t, 7)),
    )
}

/// An estimate of `log2(1 + x)`.
pub open spec fn log2p1_estimate<A: Amount>(x: A) -> A {
    let (exponent, mantissa) = parts(x.plus_spec(A::ratio_spec(1, 1)).bits_spec(), ONE_BITS);
    log2p1_of_parts(A::from_bits_spec(mantissa as u32), exponent as i32)
}

/// Estimates `log2(1 + x)`.
pub fn log2p1<A: Amount>(x: A) -> (r: A)
    ensures
        r == log2p1_estimate(x),
{
    let (exponent, bits) = exponent_parts(x.plus(A::ratio(1, 1)).bits());
    let mantissa: A = A::from_bits(bits);
    let unit: u64 = 1_000_000_000_000_000_000;
    let t: A = mantissa.minus(A::ratio(1, 1));
    let mut p: A = A::ratio(20_968_416_705_727_577, unit);
    p = p.fused(t, A::ratio(-97_498_938_441_276_550, unit));
    p = p.fused(t, A::ratio(217_197_775_840_759_277, unit));
    p = p.fused(t, A::ratio(-340_080_082_416_534_424, unit));
    p = p.fused(t, A::ratio(477_900_087_833_404_541, unit));
    p = p.fused(t, A::ratio(-721_179_187_297_821_045, unit));
    p = p.fused(t, A::ratio(1_442_693_471_908_569_336, unit));
    proof {
        reveal_with_fuel(horner, 8);
        assert(p == horner(log2p1_coefficients(), t, 7));
    }
    A::ratio(exponent as i64, 1).plus(t.times(p))
}

/// The bits of the number that holds a power's whole 64ths: those of `d` with 3 * 2^16
/// added, which leaves six bits for the fraction.
pub const EXP2_SHIFT_BITS: u32 = 0x4840_0000;

/// The entry of the table and the bits of the scale that the shifted exponent of a
/// power stands for.
pub open spec fn exp2_parts(shifted: u32) -> (int, int) {
    let i = (shifted + 32) % 0x1_0000_0000;
    (i % 64, ((i / 64 + 127) % 512) * OCTAVE)
}

/// Takes the shifted exponent of a power of two apart: an entry of the table and the
/// bits of a scale.
pub fn fast_exp2_parts(shifted: u32) -> (r: (u32, u32))
    ensures
        (r.0 as int, r.1 as int) == exp2_parts(shifted),
        r.0 < 64,
{
    let i: u32 = shifted.wrapping_add(32);
    let k: u32 = (i / 64 + 127) % 512;
    (i % 64, k * OCTAVE)
}

/// An estimate of a power of two whose exponent lies `rest` past an entry of the
/// table, scaled.
pub open spec fn exp2_of_parts<A: Amount>(rest: A, entry: A, scale: A) -> A {
    let u = A::ratio_spec(2_402_265_069_590_877, 10_000_000_000_000_000).fused_spec(
        rest,
        A::ratio_spec(6_931_471_805_599_497, 10_000_000_000_000_000),
    ).times_spec(rest);
    u.fused_spec(entry, entry).times_spec(scale)
}

/// An estimate of two to the power of a number: its bits, shifted, name an entry of
/// the table and a scale.
pub open spec fn exp2_estimate<A: Amount>(d: A) -> A {
    let shift = A::from_bits_spec(EXP2_SHIFT_BITS);
    let shifted = d.plus_spec(shift).bits_spec();
    let (entry, scale) = exp2_parts(shifted);
    exp2_of_parts(
        d.minus_spec(A::from_bits_spec(shifted).minus_spec(shift)),
        A::from_bits_spec(EXP2_TABLE@[entry]),
        A::from_bits_spec(scale as u32),
    )
}

/// Estimates two to the power of a number.
pub fn fast_exp2<A: Amount>(d: A) -> (r: A)
    ensures
        r == exp2_estimate(d),
{
    let shift: A = A::from_bits(EXP2_SHIFT_BITS);
    let shifted: u32 = d.plus(shift).bits();
    let (at, power) = fast_exp2_parts(shifted);
    let rest: A = d.minus(A::from_bits(shifted).minus(shift));
    let entry: A = A::from_bits(EXP2_TABLE[at as usize]);
    let scale: A = A::from_bits(power);
    let mut u: A = A::ratio(2_402_265_069_590_877, 10_000_000_000_000_000);
    u = u.fused(rest, A::ratio(6_931_471_805_599_497, 10_000_000_000_000_000));
    u = u.times(rest);
    u.fused(entry, entry).times(scale)
}

} // verus!
