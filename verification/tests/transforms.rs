use jixel::amount::Amount;
use jixel::transform::{inverse_block, DctWeights, Storage};

#[derive(Clone, Copy, Debug, PartialEq)]
struct F32(f32);

impl Amount for F32 {
    fn zero() -> Self {
        F32(0.0)
    }
    fn infinite() -> Self {
        F32(f32::INFINITY)
    }
    fn ratio(n: i64, d: u64) -> Self {
        F32((n as f64 / d as f64) as f32)
    }
    fn plus(self, other: Self) -> Self {
        F32(self.0 + other.0)
    }
    fn minus(self, other: Self) -> Self {
        F32(self.0 - other.0)
    }
    fn times(self, factor: Self) -> Self {
        F32(self.0 * factor.0)
    }
    fn fused(self, factor: Self, addend: Self) -> Self {
        F32(self.0.mul_add(factor.0, addend.0))
    }
    fn over(self, factor: Self) -> Self {
        F32(self.0 / factor.0)
    }
    fn lesser(self, other: Self) -> Self {
        F32(self.0.min(other.0))
    }
    fn greater(self, other: Self) -> Self {
        F32(self.0.max(other.0))
    }
    fn less(self, other: Self) -> bool {
        self.0 < other.0
    }
    fn at_most(self, other: Self) -> bool {
        self.0 <= other.0
    }
    fn finite(self) -> bool {
        self.0.is_finite()
    }
    fn root(self) -> Self {
        F32(self.0.sqrt())
    }
    fn exp2(self) -> Self {
        F32(self.0.exp2())
    }
    fn log2(self) -> Self {
        F32(self.0.log2())
    }
    fn exp(self) -> Self {
        F32(self.0.exp())
    }
    fn ln(self) -> Self {
        F32(self.0.ln())
    }
    fn log10(self) -> Self {
        F32(self.0.log10())
    }
    fn byte(self) -> u8 {
        self.0 as u8
    }
    fn nearest(self) -> Self {
        F32(self.0.round_ties_even())
    }
    fn toward_zero(self) -> Self {
        F32(self.0.trunc())
    }
    fn whole(self) -> i32 {
        self.0 as i32
    }
    fn bits(self) -> u32 {
        self.0.to_bits()
    }
    fn from_bits(bits: u32) -> Self {
        F32(f32::from_bits(bits))
    }
}

const ATOL: f32 = 1e-4;

fn assert_close(got: &[f32], scalar: &[f32], label: &str) {
    assert_eq!(got.len(), scalar.len(), "{label}: length mismatch");
    let base_tolerance = if label.starts_with("idct") && label.contains("64") {
        5e-4
    } else {
        ATOL
    };
    let mut max_err: f32 = 0.0;
    let mut max_tolerance: f32 = base_tolerance;
    let mut worst = 0usize;
    for (i, (n, s)) in got.iter().zip(scalar.iter()).enumerate() {
        let e = (n - s).abs();
        if e > max_err {
            max_err = e;
            max_tolerance = base_tolerance + 16.0 * f32::EPSILON * s.abs();
            worst = i;
        }
    }
    assert!(
        max_err < max_tolerance,
        "{label}: max error {max_err:.2e} at index {worst} (got={:.6}, scalar={:.6})",
        got[worst],
        scalar[worst]
    );
}

fn rng_f32(seed: u64) -> f32 {
    // xorshift64
    let mut x = seed.wrapping_add(0x9e3779b97f4a7c15);
    x = (x ^ (x >> 30)).wrapping_mul(0xbf58476d1ce4e5b9);
    x = (x ^ (x >> 27)).wrapping_mul(0x94d049bb133111eb);
    x ^= x >> 31;
    // map to [-1, 1]
    let u = (x >> 41) as f32; // 23-bit mantissa
    u / (1u32 << 23) as f32 * 2.0 - 1.0
}

fn fill(n: usize, seed: u64) -> Vec<f32> {
    (0..n)
        .map(|i| rng_f32(seed.wrapping_add((i as u64).wrapping_mul(6364136223846793005))))
        .collect()
}

fn wc(n: usize, i: usize) -> f32 {
    (0.5 / ((i as f64 + 0.5) * std::f64::consts::PI / n as f64).cos()) as f32
}

fn inv_wc(n: usize, i: usize) -> f32 {
    (2.0 * ((i as f64 + 0.5) * std::f64::consts::PI / n as f64).cos()) as f32
}

fn weights() -> DctWeights<F32> {
    DctWeights {
        wc4: std::array::from_fn(|i| F32(wc(4, i))),
        wc8: std::array::from_fn(|i| F32(wc(8, i))),
        wc16: std::array::from_fn(|i| F32(wc(16, i))),
        wc32: std::array::from_fn(|i| F32(wc(32, i))),
        wc64: std::array::from_fn(|i| F32(wc(64, i))),
        inv_wc4: std::array::from_fn(|i| F32(inv_wc(4, i))),
        inv_wc8: std::array::from_fn(|i| F32(inv_wc(8, i))),
        inv_wc16: std::array::from_fn(|i| F32(inv_wc(16, i))),
        inv_wc32: std::array::from_fn(|i| F32(inv_wc(32, i))),
        inv_wc64: std::array::from_fn(|i| F32(inv_wc(64, i))),
        sqrt_2: F32(std::f32::consts::SQRT_2),
        inv_sqrt_2: F32(std::f32::consts::FRAC_1_SQRT_2),
        half: F32(0.5),
    }
}

/// Scalar inverse of one row of coefficients.
fn scalar_idct(c: &[f32]) -> Vec<f32> {
    let n = c.len();
    if n == 1 {
        return c.to_vec();
    }
    let even: Vec<f32> = c.iter().copied().step_by(2).collect();
    let mut odd: Vec<f32> = c.iter().copied().skip(1).step_by(2).collect();
    for i in (1..n / 2).rev() {
        if i + 1 < n / 2 {
            odd[i] -= odd[i + 1];
        }
    }
    if n > 2 {
        odd[0] = (odd[0] - odd[1]) * std::f32::consts::FRAC_1_SQRT_2;
    }
    let e = scalar_idct(&even);
    let o = scalar_idct(&odd);
    let mut out = vec![0.0; n];
    for i in 0..n / 2 {
        let w = if n > 2 { inv_wc(n, i) } else { 1.0 };
        out[i] = (e[i] + o[i] * w) * 0.5;
        out[n - 1 - i] = (e[i] - o[i] * w) * 0.5;
    }
    out
}

/// Scalar inverse of a block whose coefficient `(v, u)` is given by `at`.
fn scalar_inverse(width: usize, height: usize, at: impl Fn(usize, usize) -> f32) -> Vec<f32> {
    let scale = (width * height) as f32;
    let mut tmp = vec![vec![0.0; width]; height];
    for u in 0..width {
        let column: Vec<f32> = (0..height).map(|v| at(v, u) * scale).collect();
        for (y, value) in scalar_idct(&column).into_iter().enumerate() {
            tmp[y][u] = value;
        }
    }
    tmp.iter().flat_map(|row| scalar_idct(row)).collect()
}

fn assert_inverse_matches_scalar(width: usize, height: usize, storage: Storage, label: &str) {
    let n = width * height;
    let (w, h) = match storage {
        Storage::Natural => (width, height),
        Storage::Transposed => (height, width),
    };
    let mut cases = Vec::with_capacity(35);
    cases.push(vec![0.0f32; n]);
    let mut dc = vec![0.0f32; n];
    dc[0] = 0.75;
    cases.push(dc);
    cases.push(
        (0..n)
            .map(|i| if i.is_multiple_of(2) { 1.0 } else { -1.0 })
            .collect(),
    );
    for seed in 0..32 {
        cases.push(fill(n, 0xa7_c2_0000 + seed));
    }
    let table = weights();
    for (case, input) in cases.iter().enumerate() {
        let stride = w + 3;
        let mut strided = vec![f32::NAN; h * stride];
        for y in 0..h {
            strided[y * stride..y * stride + w].copy_from_slice(&input[y * w..y * w + w]);
        }
        let rows: Vec<Vec<F32>> = (0..h)
            .map(|y| {
                strided[y * stride..y * stride + w]
                    .iter()
                    .map(|&v| F32(v))
                    .collect()
            })
            .collect();
        let got: Vec<f32> = inverse_block(&table, &rows, width, height, storage)
            .iter()
            .flatten()
            .map(|v| v.0)
            .collect();
        let want = scalar_inverse(width, height, |v, u| match storage {
            Storage::Natural => input[v * w + u],
            Storage::Transposed => input[u * w + v],
        });
        assert_close(&got, &want, &format!("{label} case={case}"));
    }
}

#[test]
fn test_idct8x8_avx2_matches_scalar() {
    assert_inverse_matches_scalar(8, 8, Storage::Transposed, "idct8x8");
}

#[test]
fn test_idct8x16_avx2_matches_scalar() {
    assert_inverse_matches_scalar(16, 8, Storage::Natural, "idct8x16");
}

#[test]
fn test_idct16x8_avx2_matches_scalar() {
    assert_inverse_matches_scalar(8, 16, Storage::Transposed, "idct16x8");
}

#[test]
fn test_idct16x16_avx2_matches_scalar() {
    assert_inverse_matches_scalar(16, 16, Storage::Transposed, "idct16x16");
}

#[test]
fn test_idct16x32_avx2_matches_scalar() {
    assert_inverse_matches_scalar(32, 16, Storage::Natural, "idct16x32");
}

#[test]
fn test_idct32x16_avx2_matches_scalar() {
    assert_inverse_matches_scalar(16, 32, Storage::Transposed, "idct32x16");
}

#[test]
fn test_idct32x32_avx2_matches_scalar() {
    assert_inverse_matches_scalar(32, 32, Storage::Transposed, "idct32x32");
}

#[test]
fn test_idct64x64_avx2_matches_scalar() {
    assert_inverse_matches_scalar(64, 64, Storage::Transposed, "idct64x64");
}

#[test]
fn test_idct64x32_avx2_matches_scalar() {
    assert_inverse_matches_scalar(32, 64, Storage::Transposed, "idct64x32");
}

#[test]
fn test_idct32x64_avx2_matches_scalar() {
    assert_inverse_matches_scalar(64, 32, Storage::Natural, "idct32x64");
}
