use jixel::amount::{Amount, Fixed};
use jixel::fast_math::{
    dirty_log1pf, dirty_log2f, exponent_parts, fast_exp2, log2_parts, log2p1,
};

#[derive(Clone, Copy, Debug, PartialEq)]
struct F32(f32);

impl Amount for F32 {
    fn zero() -> Self {
        F32(0.0)
    }
    fn infinite() -> Self {
        F32(f32::INFINITY)
    }
    fn ratio(n: i64, d: u64) -> Self {
        F32((n as f64 / d as f64) as f32)
    }
    fn plus(self, other: Self) -> Self {
        F32(self.0 + other.0)
    }
    fn minus(self, other: Self) -> Self {
        F32(self.0 - other.0)
    }
    fn times(self, factor: Self) -> Self {
        F32(self.0 * factor.0)
    }
    fn fused(self, factor: Self, addend: Self) -> Self {
        F32(self.0.mul_add(factor.0, addend.0))
    }
    fn over(self, factor: Self) -> Self {
        F32(self.0 / factor.0)
    }
    fn lesser(self, other: Self) -> Self {
        F32(self.0.min(other.0))
    }
    fn greater(self, other: Self) -> Self {
        F32(self.0.max(other.0))
    }
    fn less(self, other: Self) -> bool {
        self.0 < other.0
    }
    fn at_most(self, other: Self) -> bool {
        self.0 <= other.0
    }
    fn finite(self) -> bool {
        self.0.is_finite()
    }
    fn root(self) -> Self {
        F32(self.0.sqrt())
    }
    fn exp2(self) -> Self {
        F32(self.0.exp2())
    }
    fn log2(self) -> Self {
        F32(self.0.log2())
    }
    fn exp(self) -> Self {
        F32(self.0.exp())
    }
    fn ln(self) -> Self {
        F32(self.0.ln())
    }
    fn log10(self) -> Self {
        F32(self.0.log10())
    }
    fn byte(self) -> u8 {
        self.0 as u8
    }
    fn nearest(self) -> Self {
        F32(self.0.round_ties_even())
    }
    fn toward_zero(self) -> Self {
        F32(self.0.trunc())
    }
    fn whole(self) -> i32 {
        self.0 as i32
    }
    fn bits(self) -> u32 {
        self.0.to_bits()
    }
    fn from_bits(bits: u32) -> Self {
        F32(f32::from_bits(bits))
    }
}

fn log2_of(d: f32) -> f32 {
    dirty_log2f(F32(d)).0
}

fn log1p_of(d: f32) -> f32 {
    dirty_log1pf(F32(d)).0
}

fn log2p1_of(x: f32) -> f32 {
    log2p1(F32(x)).0
}

fn exp2_of(d: f32) -> f32 {
    fast_exp2(F32(d)).0
}

#[test]
fn dirty_log2f_matches_log2() {
    for exponent in -20..=20 {
        let x = 2.0f32.powi(exponent);
        assert_eq!(log2_of(x), exponent as f32, "log2({x})");
    }

    let mut max_abs = 0.0f32;
    let mut worst_x = 0.0f32;
    let mut x = 1.0e-6f32;
    while x <= 1.0e6 {
        let error = (log2_of(x) - x.log2()).abs();
        if error > max_abs {
            max_abs = error;
            worst_x = x;
        }
        x *= 1.01;
    }
    assert!(max_abs < 2.0e-6, "max absolute error {max_abs} at x={worst_x}");
}

#[test]
fn dirty_log1pf_matches_ln_1p() {
    assert_eq!(log1p_of(0.0), 0.0);
    let mut max_abs = 0f32;
    let mut max_rel = 0f32; // measured only for d >= 0.1
    let mut x = 1e-5f32;
    while x <= 5.0e6 {
        let got = log1p_of(x);
        let want = x.ln_1p();
        max_abs = max_abs.max((got - want).abs());
        if x >= 0.1 {
            max_rel = max_rel.max((got - want).abs() / want.abs());
        }
        x *= 1.05;
    }
    assert!(max_abs < 1e-5, "max absolute error {max_abs} too large");
    assert!(max_rel < 1e-5, "max relative error {max_rel} too large");
    // A few spot checks against std ln_1p.
    for &v in &[0.5f32, 1.0, 42.0, 256.0, 1.0e6] {
        let rel = (log1p_of(v) - v.ln_1p()).abs() / v.ln_1p();
        assert!(rel < 1e-5, "ln_1p({v}) rel err {rel}");
    }
}

#[test]
fn test_log2p1() {
    for i in 0..5000 {
        let q1 = ((i as f32 / 5000.) + 1.).log2();
        let q2 = log2p1_of(i as f32 / 5000.);
        assert!((q1 - q2).abs() < 1e-5, "q1 {} q2 {}", q1, q2);
    }
}

#[test]
fn fast_exp2_matches_exp2() {
    for exponent in -20..=20 {
        assert_eq!(exp2_of(exponent as f32), 2.0f32.powi(exponent));
    }
    let mut d = -20.0f32;
    while d < 20.0 {
        let rel = (exp2_of(d) / d.exp2() - 1.0).abs();
        assert!(rel < 1e-5, "2^{d} rel err {rel}");
        d += 0.0173;
    }
}

#[test]
fn parts_make_up_the_number() {
    for bits in [0x3f80_0000u32, 0x3f35_04f3, 0x3f35_04f2, 0x4234_5678, 0x0080_0000, 0x7f7f_ffff] {
        for (n, m) in [log2_parts(bits), exponent_parts(bits)] {
            assert_eq!(m as i64 + n as i64 * 0x0080_0000, bits as i64);
        }
    }
    assert_eq!(log2_parts(0x3f35_04f2), (-1, 0x3fb5_04f2));
    assert_eq!(exponent_parts(0x4040_0000), (1, 0x3fc0_0000));
}

#[test]
fn fixed_point_has_single_precision_bits() {
    for v in [0.0f32, 1.0, -1.0, 0.5, 3.25, -1234.5, 196_608.0, 1.0 / 65536.0] {
        let raw = (v * 65536.0) as i64;
        assert_eq!(Fixed { raw }.bits(), v.to_bits(), "{v}");
        assert_eq!(Fixed::from_bits(v.to_bits()), Fixed { raw }, "{v}");
    }
    assert_eq!(Fixed::from_bits(f32::INFINITY.to_bits()), Fixed::infinite());
    assert_eq!(Fixed::from_bits(1), Fixed::zero());
    // The estimates run on it too.
    assert_eq!(fast_exp2(Fixed::zero()), Fixed::ratio(1, 1));
    let three = Fixed::ratio(3, 1);
    assert!((fast_exp2(three).raw - 8 * 65536).abs() < 64);
    assert!((dirty_log2f(Fixed::ratio(8, 1)).raw - three.raw).abs() < 64);
    assert!((log2p1(Fixed::ratio(7, 1)).raw - three.raw).abs() < 64);
}
