use jixel::adaptive_quant::hf_modulation_strength;
use jixel::amount::Amount;
use jixel::aq_field::fill_quant_field_scalar;
use jixel::dc::{
    dc_from_dct16x32, dc_from_dct32x16, dc_from_dct32x32, dc_from_dct32x64, dc_from_dct64x32,
    dc_from_dct64x64, Resample,
};
use jixel::forward::{apply_cfl, forward_transform};
use jixel::opsin::Image3;
use jixel::quant_field::QuantField;
use jixel::recon::{quantize_block_ac, sse_and_rate, QuantShape};
use jixel::small_transform::{
    afv_from_pixels, dct4x4, dct4x4_2d, dct4x8, dct4x8_2d, dct8x4, AFV_BASIS_TRANSPOSE,
    BASIS_SCALE,
};
use jixel::ssim::ssim_deficit;
use jixel::strategy::{
    covered_blocks_x_of, covered_blocks_y_of, STRATEGY_DCT, STRATEGY_DCT16X16, STRATEGY_DCT16X8,
    STRATEGY_DCT32X32, STRATEGY_DCT32X64, STRATEGY_DCT64X32, STRATEGY_DCT64X64,
};
use jixel::transform::{forward_block, inverse_block, DctWeights, Storage};

#[derive(Clone, Copy, Debug, PartialEq)]
struct F32(f32);

impl Amount for F32 {
    fn zero() -> Self {
        F32(0.0)
    }
    fn infinite() -> Self {
        F32(f32::INFINITY)
    }
    fn ratio(n: i64, d: u64) -> Self {
        F32((n as f64 / d as f64) as f32)
    }
    fn plus(self, other: Self) -> Self {
        F32(self.0 + other.0)
    }
    fn minus(self, other: Self) -> Self {
        F32(self.0 - other.0)
    }
    fn times(self, factor: Self) -> Self {
        F32(self.0 * factor.0)
    }
    fn fused(self, factor: Self, addend: Self) -> Self {
        F32(self.0.mul_add(factor.0, addend.0))
    }
    fn over(self, factor: Self) -> Self {
        F32(self.0 / factor.0)
    }
    fn lesser(self, other: Self) -> Self {
        F32(self.0.min(other.0))
    }
    fn greater(self, other: Self) -> Self {
        F32(self.0.max(other.0))
    }
    fn less(self, other: Self) -> bool {
        self.0 < other.0
    }
    fn at_most(self, other: Self) -> bool {
        self.0 <= other.0
    }
    fn finite(self) -> bool {
        self.0.is_finite()
    }
    fn root(self) -> Self {
        F32(self.0.sqrt())
    }
    fn exp2(self) -> Self {
        F32(self.0.exp2())
    }
    fn log2(self) -> Self {
        F32(self.0.log2())
    }
    fn exp(self) -> Self {
        F32(self.0.exp())
    }
    fn ln(self) -> Self {
        F32(self.0.ln())
    }
    fn log10(self) -> Self {
        F32(self.0.log10())
    }
    fn byte(self) -> u8 {
        self.0 as u8
    }
    fn nearest(self) -> Self {
        F32(self.0.round_ties_even())
    }
    fn toward_zero(self) -> Self {
        F32(self.0.trunc())
    }
    fn whole(self) -> i32 {
        self.0 as i32
    }
    fn bits(self) -> u32 {
        self.0.to_bits()
    }
    fn from_bits(bits: u32) -> Self {
        F32(f32::from_bits(bits))
    }
}

const ATOL: f32 = 1e-4;

fn assert_close(got: &[f32], want: &[f64], label: &str) {
    assert_eq!(got.len(), want.len(), "{label}: length mismatch");
    for (i, (g, w)) in got.iter().zip(want).enumerate() {
        let error = (*g as f64 - w).abs();
        assert!(
            error < ATOL as f64 + 16.0 * f32::EPSILON as f64 * w.abs(),
            "{label}: error {error:.2e} at index {i} (got={g:.6}, want={w:.6})"
        );
    }
}

fn rng_f32(seed: u64) -> f32 {
    // xorshift64
    let mut x = seed.wrapping_add(0x9e3779b97f4a7c15);
    x = (x ^ (x >> 30)).wrapping_mul(0xbf58476d1ce4e5b9);
    x = (x ^ (x >> 27)).wrapping_mul(0x94d049bb133111eb);
    x ^= x >> 31;
    // map to [-1, 1]
    let u = (x >> 41) as f32; // 23-bit mantissa
    u / (1u32 << 23) as f32 * 2.0 - 1.0
}

fn fill<const N: usize>(seed: u64) -> [f32; N] {
    std::array::from_fn(|i| {
        rng_f32(seed.wrapping_add((i as u64).wrapping_mul(6364136223846793005)))
    })
}

fn wc(n: usize, i: usize) -> f32 {
    (0.5 / ((i as f64 + 0.5) * std::f64::consts::PI / n as f64).cos()) as f32
}

fn inv_wc(n: usize, i: usize) -> f32 {
    (2.0 * ((i as f64 + 0.5) * std::f64::consts::PI / n as f64).cos()) as f32
}

fn weights() -> DctWeights<F32> {
    DctWeights {
        wc4: std::array::from_fn(|i| F32(wc(4, i))),
        wc8: std::array::from_fn(|i| F32(wc(8, i))),
        wc16: std::array::from_fn(|i| F32(wc(16, i))),
        wc32: std::array::from_fn(|i| F32(wc(32, i))),
        wc64: std::array::from_fn(|i| F32(wc(64, i))),
        inv_wc4: std::array::from_fn(|i| F32(inv_wc(4, i))),
        inv_wc8: std::array::from_fn(|i| F32(inv_wc(8, i))),
        inv_wc16: std::array::from_fn(|i| F32(inv_wc(16, i))),
        inv_wc32: std::array::from_fn(|i| F32(inv_wc(32, i))),
        inv_wc64: std::array::from_fn(|i| F32(inv_wc(64, i))),
        sqrt_2: F32(std::f32::consts::SQRT_2),
        inv_sqrt_2: F32(std::f32::consts::FRAC_1_SQRT_2),
        half: F32(0.5),
    }
}

fn rows(flat: &[f32], width: usize) -> Vec<Vec<F32>> {
    flat.chunks_exact(width)
        .map(|row| row.iter().map(|&v| F32(v)).collect())
        .collect()
}

fn flat(rows: &[Vec<F32>]) -> Vec<f32> {
    rows.iter().flatten().map(|v| v.0).collect()
}

/// Sample `n` of basis function `k` of a transform of length `len`.
fn basis(len: usize, k: usize, n: usize) -> f64 {
    if k == 0 {
        1.0
    } else {
        std::f64::consts::SQRT_2
            * ((2 * n + 1) as f64 * k as f64 * std::f64::consts::PI / (2 * len) as f64).cos()
    }
}

/// Coefficient with vertical frequency `v` and horizontal frequency `u`.
fn coefficient(
    width: usize,
    height: usize,
    v: usize,
    u: usize,
    at: impl Fn(usize, usize) -> f64,
) -> f64 {
    let mut sum = 0.0;
    for y in 0..height {
        for x in 0..width {
            sum += at(y, x) * basis(height, v, y) * basis(width, u, x);
        }
    }
    sum / (width * height) as f64
}

fn reference_forward(input: &[f32], width: usize, height: usize, storage: Storage) -> Vec<f64> {
    // Separable: rows first.
    let mut by_row = vec![0.0f64; width * height];
    for y in 0..height {
        for u in 0..width {
            by_row[y * width + u] = (0..width)
                .map(|x| input[y * width + x] as f64 * basis(width, u, x))
                .sum();
        }
    }
    let scale = 1.0 / (width * height) as f64;
    let mut out = vec![0.0f64; width * height];
    for v in 0..height {
        for u in 0..width {
            let value: f64 = (0..height)
                .map(|y| by_row[y * width + u] * basis(height, v, y))
                .sum();
            let index = match storage {
                Storage::Natural => v * width + u,
                Storage::Transposed => u * height + v,
            };
            out[index] = value * scale;
        }
    }
    out
}

fn assert_forward_matches(input: &[f32], width: usize, height: usize, storage: Storage, label: &str) {
    let got = flat(&forward_block(
        &weights(),
        &rows(input, width),
        width,
        height,
        storage,
    ));
    let want = reference_forward(input, width, height, storage);
    assert_close(&got, &want, label);
}

#[test]
fn test_dct16x16_avx2_vs_scalar_random() {
    for seed in 0u64..32 {
        let input: [f32; 256] = fill(seed.wrapping_add(0xf00d));
        assert_forward_matches(
            &input,
            16,
            16,
            Storage::Transposed,
            &format!("dct16x16 seed={seed}"),
        );
    }
}

#[test]
fn test_dct32x32_avx2_vs_scalar_random() {
    for seed in 0u64..16 {
        let input: [f32; 1024] = fill(seed.wrapping_add(0x3232));
        assert_forward_matches(
            &input,
            32,
            32,
            Storage::Transposed,
            &format!("dct32x32 seed={seed}"),
        );
    }
}

#[test]
fn test_dct32x16_avx2_vs_scalar_random() {
    for seed in 0u64..16 {
        let input: [f32; 512] = fill(seed.wrapping_add(0x3216));
        assert_forward_matches(
            &input,
            16,
            32,
            Storage::Transposed,
            &format!("dct32x16 seed={seed}"),
        );
    }
}

#[test]
fn test_dct16x32_avx2_vs_scalar_random() {
    for seed in 0u64..16 {
        let input: [f32; 512] = fill(seed.wrapping_add(0x1632));
        assert_forward_matches(
            &input,
            32,
            16,
            Storage::Natural,
            &format!("dct16x32 seed={seed}"),
        );
    }
}

#[test]
fn test_dct4x4_avx2_vs_scalar_random() {
    for seed in 0u64..32 {
        let input: [f32; 64] = fill(seed.wrapping_add(0x4a4));
        let got = flat(&dct4x4(&weights(), &rows(&input, 8)));
        let mut want = [0.0f64; 64];
        for qy in 0..2 {
            for qx in 0..2 {
                for u in 0..4 {
                    for v in 0..4 {
                        want[(2 * u + qy) * 8 + 2 * v + qx] =
                            coefficient(4, 4, v, u, |y, x| {
                                input[(qy * 4 + y) * 8 + qx * 4 + x] as f64
                            });
                    }
                }
            }
        }
        let (a, b, c, d) = (want[0], want[1], want[8], want[9]);
        want[0] = (a + b + c + d) * 0.25;
        want[1] = (a + b - c - d) * 0.25;
        want[8] = (a - b + c - d) * 0.25;
        want[9] = (a - b - c + d) * 0.25;
        assert_close(&got, &want, &format!("dct4x4 seed={seed}"));
    }
}

#[test]
fn test_dct4x8_avx2_vs_scalar_random() {
    for seed in 0u64..32 {
        let input: [f32; 64] = fill(seed.wrapping_add(0x4a8));
        let got = flat(&dct4x8(&weights(), &rows(&input, 8)));
        let mut want = [0.0f64; 64];
        for half in 0..2 {
            for v in 0..4 {
                for u in 0..8 {
                    want[(2 * v + half) * 8 + u] = coefficient(8, 4, v, u, |y, x| {
                        input[(half * 4 + y) * 8 + x] as f64
                    });
                }
            }
        }
        let (a, b) = (want[0], want[8]);
        want[0] = (a + b) * 0.5;
        want[8] = (a - b) * 0.5;
        assert_close(&got, &want, &format!("dct4x8 seed={seed}"));
    }
}

#[test]
fn test_dct8x4_avx2_vs_scalar_random() {
    for seed in 0u64..32 {
        let input: [f32; 64] = fill(seed.wrapping_add(0x8a4));
        let got = flat(&dct8x4(&weights(), &rows(&input, 8)));
        let mut want = [0.0f64; 64];
        for half in 0..2 {
            for u in 0..4 {
                for v in 0..8 {
                    want[(2 * u + half) * 8 + v] = coefficient(4, 8, v, u, |y, x| {
                        input[y * 8 + half * 4 + x] as f64
                    });
                }
            }
        }
        let (a, b) = (want[0], want[8]);
        want[0] = (a + b) * 0.5;
        want[8] = (a - b) * 0.5;
        assert_close(&got, &want, &format!("dct8x4 seed={seed}"));
    }
}

#[test]
fn test_dct16x16_avx2_dc_only() {
    assert_forward_matches(&[0.5; 256], 16, 16, Storage::Transposed, "dct16x16 dc-only");
}

#[test]
fn test_dct16x16_avx2_zero() {
    assert_forward_matches(&[0.0; 256], 16, 16, Storage::Transposed, "dct16x16 zero");
}

#[test]
fn test_dct16x16_avx2_basis_vectors() {
    for k in 0..256 {
        let mut input = [0.0f32; 256];
        input[k] = 1.0;
        assert_forward_matches(
            &input,
            16,
            16,
            Storage::Transposed,
            &format!("dct16x16 basis[{k}]"),
        );
    }
}

#[test]
fn test_dct16x16_avx2_linearity() {
    let a: [f32; 256] = fill(700);
    let b: [f32; 256] = fill(800);
    let mut sum = [0.0f32; 256];
    for i in 0..256 {
        sum[i] = a[i] + b[i];
    }
    let dct = |input: &[f32]| {
        flat(&forward_block(
            &weights(),
            &rows(input, 16),
            16,
            16,
            Storage::Transposed,
        ))
    };
    let (da, db, dsum) = (dct(&a), dct(&b), dct(&sum));
    let expected: Vec<f64> = (0..256).map(|i| (da[i] + db[i]) as f64).collect();
    assert_close(&dsum, &expected, "dct16x16 linearity");
}

#[test]
fn test_dct16x16_avx2_extreme_values() {
    let mut input = [0.0f32; 256];
    for i in 0..256 {
        input[i] = if i % 2 == 0 { 1.0 } else { -1.0 };
    }
    assert_forward_matches(&input, 16, 16, Storage::Transposed, "dct16x16 alternating +-1");
}

fn resample() -> Resample<F32> {
    Resample {
        to2: [F32(1.0), F32(0.9017642)],
        to4: [F32(1.0), F32(0.9748868), F32(0.9017642), F32(0.7870549)],
        to8: [
            F32(1.0),
            F32(0.9936866),
            F32(0.9748868),
            F32(0.9440181),
            F32(0.9017642),
            F32(0.8490607),
            F32(0.7870549),
            F32(0.7171082),
        ],
    }
}

/// Means along two directions: `rows` frequencies by the row of a coefficient and
/// `columns` by its column. Entry `(p, q)` is at `p * columns + q`.
fn reference_means(
    coeffs: &[f32],
    stride: usize,
    row_scale: &[F32],
    column_scale: &[F32],
) -> Vec<f64> {
    let (n, m) = (row_scale.len(), column_scale.len());
    let mut out = vec![0.0f64; n * m];
    for p in 0..n {
        for q in 0..m {
            let mut sum = 0.0;
            for a in 0..n {
                for i in 0..m {
                    sum += coeffs[a * stride + i] as f64
                        * row_scale[a].0 as f64
                        * column_scale[i].0 as f64
                        * basis(n, a, p)
                        * basis(m, i, q);
                }
            }
            out[p * m + q] = sum;
        }
    }
    out
}

fn turned(v: &[f64], columns: usize) -> Vec<f64> {
    let n = v.len() / columns;
    (0..columns)
        .flat_map(|q| (0..n).map(move |p| (p, q)))
        .map(|(p, q)| v[p * columns + q])
        .collect()
}

#[test]
fn test_dc_from_dct_avx2_matches_scalar() {
    let (w, s) = (weights(), resample());
    for seed in 0u64..32 {
        let coeffs = fill::<1024>(seed.wrapping_add(0xdc32_0032));
        let got: Vec<f32> = dc_from_dct32x32(&w, &s, &rows(&coeffs, 32))
            .iter()
            .flatten()
            .map(|v| v.0)
            .collect();
        let want = turned(&reference_means(&coeffs, 32, &s.to4, &s.to4), 4);
        assert_close(&got, &want, &format!("dc_from_dct32x32 seed={seed}"));

        let half = &coeffs[..512];
        let rect = reference_means(half, 32, &s.to2, &s.to4);
        let got = dc_from_dct32x16(&w, &s, &rows(half, 32)).map(|v| v.0);
        assert_close(&got, &turned(&rect, 4), &format!("dc_from_dct32x16 seed={seed}"));
        let got = dc_from_dct16x32(&w, &s, &rows(half, 32)).map(|v| v.0);
        assert_close(&got, &rect, &format!("dc_from_dct16x32 seed={seed}"));

        let coeffs = fill::<4096>(seed.wrapping_add(0xdc64_0064));
        let got = flat(&dc_from_dct64x64(&w, &s, &rows(&coeffs, 64)));
        let want = turned(&reference_means(&coeffs, 64, &s.to8, &s.to8), 8);
        assert_close(&got, &want, &format!("dc_from_dct64x64 seed={seed}"));

        let half = &coeffs[..2048];
        let rect = reference_means(half, 64, &s.to4, &s.to8);
        let got = flat(&dc_from_dct64x32(&w, &s, &rows(half, 64)));
        assert_close(&got, &turned(&rect, 8), &format!("dc_from_dct64x32 seed={seed}"));
        let got = flat(&dc_from_dct32x64(&w, &s, &rows(half, 64)));
        assert_close(&got, &rect, &format!("dc_from_dct32x64 seed={seed}"));
    }
}

fn plain_sse_and_rate(
    coeff: &[f32],
    inv: &[f32],
    qs: f32,
    shape: &QuantShape,
    thr: &[f32; 4],
) -> (f32, usize, f32) {
    let (mut sse, mut nz, mut mb) = (0.0f32, 0usize, 0.0f32);
    for y in 0..shape.height {
        let yfix = if y >= shape.height / 2 { 2 } else { 0 };
        let (lo, hi) = (thr[yfix], thr[yfix + 1]);
        for x in 0..shape.width {
            if x < shape.cx && y < shape.cy {
                continue;
            }
            let idx = y * shape.width + x;
            let t = if x >= shape.half { hi } else { lo };
            let a = (inv[idx] * qs) * coeff[idx];
            let q = if a.abs() >= t {
                a.round_ties_even()
            } else {
                0.0
            };
            let d = a - q;
            sse += d * d;
            if q != 0.0 {
                nz += 1;
                mb += (1.0 + q.abs()).log2();
            }
        }
    }
    (sse, nz, mb)
}

fn lift(v: &[f32]) -> Vec<F32> {
    v.iter().map(|&v| F32(v)).collect()
}

#[test]
fn test_sse_and_rate_avx2_vs_reference() {
    let mut st: u64 = 0x5e5e_a11d_0f00_d00d;
    let mut rnd = || {
        st = st
            .wrapping_mul(6364136223846793005)
            .wrapping_add(1442695040888963407);
        ((st >> 33) as u32 as f32) / (u32::MAX as f32)
    };
    for &(width, height, half, cx, cy) in &[
        (8usize, 8usize, 4usize, 1usize, 1usize),
        (16, 16, 8, 2, 2),
        (32, 32, 16, 4, 4),
        (16, 8, 8, 2, 1),
        (8, 16, 4, 1, 2),
    ] {
        let shape = QuantShape {
            width,
            height,
            half,
            cx,
            cy,
        };
        for _ in 0..200 {
            let n = width * height;
            let coeff: Vec<f32> = (0..n).map(|_| (rnd() - 0.5) * 200.0).collect();
            let inv: Vec<f32> = (0..n).map(|_| 0.001 + rnd() * 0.5).collect();
            let qs = 0.5 + rnd() * 3.0;
            let thr = [rnd() * 0.6, rnd() * 0.6, rnd() * 0.6, rnd() * 0.6];
            let r = plain_sse_and_rate(&coeff, &inv, qs, &shape, &thr);
            let a = sse_and_rate(&shape, &lift(&coeff), &lift(&inv), F32(qs), &thr.map(F32));
            assert_eq!(a.1, r.1, "nzeros mismatch {width}x{height}");
            let bits = ((a.2 .0 - r.2) / r.2.max(1.0)).abs();
            assert!(bits < 1e-4, "mag_bits mismatch {width}x{height}");
            let rel = if r.0.abs() > 1e-3 {
                ((a.0 .0 - r.0) / r.0).abs()
            } else {
                (a.0 .0 - r.0).abs()
            };
            assert!(rel < 1e-4, "sse rel diff {rel} too large {width}x{height}");
        }
    }
}

#[test]
fn apply_cfl_avx2_matches_scalar() {
    for size in [0, 1, 7, 8, 15, 32, 64, 1024, 4096] {
        let y: Vec<f32> = (0..size)
            .map(|i| ((i * 37 % 101) as f32 - 50.0) * 0.03125)
            .collect();
        let x: Vec<f32> = (0..size).map(|i| i as f32 * 0.015625 - 2.0).collect();
        let b: Vec<f32> = (0..size).map(|i| 3.0 - i as f32 * 0.0078125).collect();
        let mut want_x = x.clone();
        let mut want_b = b.clone();
        let factors: [f32; 3] = [0.3125, 0.0, -0.1875];
        for i in 0..size {
            want_x[i] = (-factors[0]).mul_add(y[i], want_x[i]);
            want_b[i] = (-factors[2]).mul_add(y[i], want_b[i]);
        }
        let (mut x, mut b) = (lift(&x), lift(&b));
        apply_cfl(&mut x, &lift(&y), &mut b, F32(factors[0]), F32(factors[2]));
        assert_eq!(x, lift(&want_x), "X mismatch at size {size}");
        assert_eq!(b, lift(&want_b), "B mismatch at size {size}");
    }
}

#[test]
fn quantize_block_ac_avx2_matches_scalar() {
    // Values straddling every rounding and deadzone boundary, including
    // exact halves where ties-to-even and ties-away disagree.
    let edges: [f32; 20] = [
        0.0, 0.49, 0.5, 0.51, 0.58, 0.75, 0.99, 1.0, 1.01, 1.49, 1.5, 1.51, 1.99, 2.0, 2.5, 3.5,
        -0.5, -0.75, -1.5, -2.5,
    ];
    let mut state = 0x5eed_4321_u64;
    let mut next = || {
        state = state
            .wrapping_mul(6_364_136_223_846_793_005)
            .wrapping_add(1);
        ((state >> 33) as f32 / (1u32 << 31) as f32) - 0.5
    };
    for &(xsize, ysize) in &[
        (1usize, 1usize),
        (1, 2),
        (2, 1),
        (2, 2),
        (2, 4),
        (4, 2),
        (4, 4),
    ] {
        let (width, height) = (xsize * 8, ysize * 8);
        let n = width * height;
        let shape = QuantShape {
            width,
            height,
            half: width / 2,
            cx: xsize,
            cy: ysize,
        };
        for thr in [[0.58f32, 0.62, 0.66, 0.7], [0.5; 4], [0.75, 0.7, 0.65, 0.5]] {
            for &quant in &[1i32, 3, 11] {
                let qm: Vec<f32> = (0..n).map(|i| 0.3 + 0.01 * (i % 17) as f32).collect();
                // Half crafted edge values (scaled so the product lands
                // on the boundary), half random.
                let block: Vec<f32> = (0..n)
                    .map(|i| {
                        if i % 2 == 0 {
                            let e = edges[(i / 2) % edges.len()];
                            e / (qm[i] * quant as f32)
                        } else {
                            next() * 8.0
                        }
                    })
                    .collect();
                let got = quantize_block_ac(
                    &shape,
                    &lift(&block),
                    &lift(&qm),
                    F32(quant as f32),
                    &thr.map(F32),
                );
                for i in 0..n {
                    let (x, y) = (i % width, i / width);
                    let pair = if y >= height / 2 { 2 } else { 0 };
                    let t = thr[pair + usize::from(x >= width / 2)];
                    let v = (qm[i] * quant as f32) * block[i];
                    let want = if v.abs() >= t { v.round() as i32 } else { 0 };
                    assert_eq!(
                        got[i], want,
                        "mismatch at {i} (shape {xsize}x{ysize}, q={quant}), input {}",
                        block[i]
                    );
                }
            }
        }
    }
}

#[test]
fn ssim_avx2_matches_scalar() {
    let mut state = 91u32;
    for (width, height) in [(8, 8), (16, 8), (8, 16), (16, 16), (32, 32)] {
        let n = width * height;
        let mut orig = vec![0.0f32; n];
        let mut recon = vec![0.0f32; n];
        for i in 0..n {
            state = state.wrapping_mul(1_664_525).wrapping_add(1_013_904_223);
            orig[i] = (state >> 8) as f32 / (1u32 << 24) as f32;
            recon[i] = orig[i] + ((i % 13) as f32 - 6.0) * 0.0007;
        }
        let mut scalar = 0.0f64;
        for y0 in (0..height).step_by(8) {
            for x0 in (0..width).step_by(8) {
                let window = |plane: &[f32]| -> Vec<f64> {
                    (0..64)
                        .map(|i| plane[(y0 + i / 8) * width + x0 + i % 8] as f64)
                        .collect()
                };
                let (o, r) = (window(&orig), window(&recon));
                let mean = |v: &[f64]| v.iter().sum::<f64>() / 64.0;
                let (mo, mr) = (mean(&o), mean(&r));
                let cov = |a: &[f64], ma: f64, b: &[f64], mb: f64| {
                    a.iter()
                        .zip(b)
                        .map(|(x, y)| (x - ma) * (y - mb))
                        .sum::<f64>()
                        / 64.0
                };
                let luminance = (2.0 * mo * mr + 1e-4) / (mo * mo + mr * mr + 1e-4);
                let structure = (2.0 * cov(&o, mo, &r, mr) + 9e-4)
                    / (cov(&o, mo, &o, mo) + cov(&r, mr, &r, mr) + 9e-4);
                scalar += (1.0 - luminance * structure) * 64.0;
            }
        }
        let got = ssim_deficit(&rows(&orig, width), &rows(&recon, width), width, height).0;
        let tolerance = 2e-4f64.max(scalar.abs() * 2e-5);
        assert!(
            (got as f64 - scalar).abs() <= tolerance,
            "{width}x{height}: got={got} scalar={scalar}"
        );
    }
}

fn basis_entry(j: usize, i: usize) -> f32 {
    (AFV_BASIS_TRANSPOSE[j][i] as f64 / BASIS_SCALE as f64) as f32
}

fn afv(kind: u8, input: &[f32]) -> Vec<f32> {
    flat(&afv_from_pixels(&weights(), kind, &rows(input, 8)))
}

#[test]
fn selected_methods_match_scalar_and_context() {
    // Every kind against the definition: the corner projected on the basis, the
    // part beside it and the half below it by cosine transforms.
    for kind in 0..4u8 {
        let (corner_x, corner_y) = ((kind & 1) as usize, (kind >> 1) as usize);
        for seed in 0..32u32 {
            let input: [f32; 64] = std::array::from_fn(|i| {
                let bits = (i as u32)
                    .wrapping_mul(747_796_405)
                    .wrapping_add(seed.wrapping_mul(2_891_336_453));
                ((bits >> 9) as f32 / (1u32 << 23) as f32) * 2.0 - 1.0
            });
            let got = afv(kind, &input);
            for i in 1..16 {
                let mut want = 0.0f64;
                for j in 0..16 {
                    let (iy, ix) = (j / 4, j % 4);
                    let y = if corner_y == 1 { 7 - iy } else { iy };
                    let x = if corner_x == 1 { 7 - ix } else { ix };
                    want += input[y * 8 + x] as f64 * basis_entry(j, i) as f64;
                }
                let at = (i / 4) * 2 * 8 + (i % 4) * 2;
                assert!(
                    (got[at] as f64 - want).abs() < 1e-4,
                    "AFV{kind} seed={seed} coeff={i}"
                );
            }
        }
    }
}

#[test]
fn afv_basis_is_orthonormal() {
    for a in 0..16 {
        for b in 0..16 {
            let dot: f32 = (0..16).map(|j| basis_entry(j, a) * basis_entry(j, b)).sum();
            let expected = if a == b { 1.0 } else { 0.0 };
            assert!(
                (dot - expected).abs() < 1e-5,
                "basis columns {a}x{b}: dot {dot}"
            );
        }
    }
}

#[test]
fn flat_block_yields_pure_dc() {
    let input = [0.375f32; 64];
    for kind in 0..4u8 {
        let out = afv(kind, &input);
        assert!(
            (out[0] - 0.375).abs() < 1e-6,
            "kind {kind}: DC {} != mean",
            out[0]
        );
        for (k, &v) in out.iter().enumerate().skip(1) {
            assert!(v.abs() < 1e-5, "kind {kind}: AC[{k}] = {v}");
        }
    }
}

#[test]
fn dc_equals_block_mean() {
    let mut s = 123456789u32;
    let mut rnd = || {
        s = s.wrapping_mul(1664525).wrapping_add(1013904223);
        (s >> 8) as f32 / (1u32 << 24) as f32 - 0.5
    };
    for kind in 0..4u8 {
        let mut input = [0.0f32; 64];
        input.iter_mut().for_each(|v| *v = rnd());
        let mean = input.iter().sum::<f32>() / 64.0;
        let out = afv(kind, &input);
        assert!(
            (out[0] - mean).abs() < 1e-5,
            "kind {kind}: DC {} != mean {mean}",
            out[0]
        );
    }
}

/// Invert a linear operator given as a `forward(input) -> output` closure
/// over `n`-vectors, via Gauss-Jordan elimination in f64.
fn numeric_inverse(n: usize, forward: impl Fn(&[f32]) -> Vec<f32>) -> Vec<f64> {
    let mut aug = vec![0.0f64; n * 2 * n];
    for i in 0..n {
        let mut input = vec![0.0f32; n];
        input[i] = 1.0;
        let output = forward(&input);
        for r in 0..n {
            aug[r * 2 * n + i] = output[r] as f64;
        }
        aug[i * 2 * n + n + i] = 1.0;
    }
    for col in 0..n {
        let pivot = (col..n)
            .max_by(|&a, &b| {
                aug[a * 2 * n + col]
                    .abs()
                    .total_cmp(&aug[b * 2 * n + col].abs())
            })
            .unwrap();
        for k in 0..2 * n {
            aug.swap(col * 2 * n + k, pivot * 2 * n + k);
        }
        let d = aug[col * 2 * n + col];
        assert!(d.abs() > 1e-9, "singular forward operator");
        for k in 0..2 * n {
            aug[col * 2 * n + k] /= d;
        }
        for r in 0..n {
            if r == col {
                continue;
            }
            let f = aug[r * 2 * n + col];
            for k in 0..2 * n {
                aug[r * 2 * n + k] -= f * aug[col * 2 * n + k];
            }
        }
    }
    let mut inv = vec![0.0f64; n * n];
    for r in 0..n {
        inv[r * n..r * n + n].copy_from_slice(&aug[r * 2 * n + n..r * 2 * n + 2 * n]);
    }
    inv
}

fn apply(matrix: &[f64], n: usize, input: &[f32], output: &mut [f32]) {
    for (r, out) in output.iter_mut().enumerate() {
        *out = (0..n)
            .map(|k| matrix[r * n + k] * input[k] as f64)
            .sum::<f64>() as f32;
    }
}

/// What a decoder makes of the coefficients, with the DCT4x4/DCT4x8 sub-inverses
/// obtained by numerically inverting the forward primitives. Round-tripping
/// through this checks the quadrant mirroring, the scatter positions and
/// the DC rewrite against what a conforming decoder will do.
fn afv_to_pixels(kind: u8, coefficients: &[f32], pixels: &mut [f32; 64]) {
    let afv_x = (kind & 1) as usize;
    let afv_y = (kind >> 1) as usize;
    let block00 = coefficients[0];
    let block01 = coefficients[1];
    let block10 = coefficients[8];
    let dcs = [
        (block00 + block10 + block01) * 4.0,
        block00 + block10 - block01,
        block00 - block10,
    ];
    // IAFV from the (even, even) positions.
    let mut coeff = [0.0f32; 16];
    coeff[0] = dcs[0];
    for iy in 0..4 {
        for ix in 0..4 {
            if ix == 0 && iy == 0 {
                continue;
            }
            coeff[iy * 4 + ix] = coefficients[iy * 2 * 8 + ix * 2];
        }
    }
    // Orthonormal basis: pixels[j] = sum_i coeff[i] * basis[j][i].
    let mut quad = [0.0f32; 16];
    for (j, px) in quad.iter_mut().enumerate() {
        *px = (0..16).map(|i| coeff[i] * basis_entry(j, i)).sum::<f32>();
    }
    for iy in 0..4 {
        for ix in 0..4 {
            let sy = if afv_y == 1 { 3 - iy } else { iy };
            let sx = if afv_x == 1 { 3 - ix } else { ix };
            pixels[(iy + afv_y * 4) * 8 + afv_x * 4 + ix] = quad[sy * 4 + sx];
        }
    }
    // IDCT4x4 from the (even, odd) positions.
    let inv4x4 = numeric_inverse(16, |i| flat(&dct4x4_2d(&weights(), &rows(i, 4))));
    let mut block = [0.0f32; 16];
    block[0] = dcs[1];
    for iy in 0..4 {
        for ix in 0..4 {
            if ix == 0 && iy == 0 {
                continue;
            }
            block[iy * 4 + ix] = coefficients[iy * 2 * 8 + ix * 2 + 1];
        }
    }
    let mut quad_pixels = [0.0f32; 16];
    apply(&inv4x4, 16, &block, &mut quad_pixels);
    let qx = if afv_x == 1 { 0 } else { 4 };
    for iy in 0..4 {
        for ix in 0..4 {
            pixels[(afv_y * 4 + iy) * 8 + qx + ix] = quad_pixels[iy * 4 + ix];
        }
    }
    // IDCT4x8 for the other vertical half.
    let inv4x8 = numeric_inverse(32, |i| flat(&dct4x8_2d(&weights(), &rows(i, 8))));
    let mut half = [0.0f32; 32];
    half[0] = dcs[2];
    for iy in 0..4 {
        for ix in 0..8 {
            if ix == 0 && iy == 0 {
                continue;
            }
            half[iy * 8 + ix] = coefficients[(1 + iy * 2) * 8 + ix];
        }
    }
    let mut half_pixels = [0.0f32; 32];
    apply(&inv4x8, 32, &half, &mut half_pixels);
    let hy = if afv_y == 1 { 0 } else { 4 };
    for iy in 0..4 {
        pixels[(hy + iy) * 8..(hy + iy) * 8 + 8].copy_from_slice(&half_pixels[iy * 8..iy * 8 + 8]);
    }
}

#[test]
fn round_trips_through_the_decoder_reference() {
    let mut s = 987654321u32;
    let mut rnd = || {
        s = s.wrapping_mul(1664525).wrapping_add(1013904223);
        (s >> 8) as f32 / (1u32 << 24) as f32 - 0.5
    };
    for kind in 0..4u8 {
        let mut input = [0.0f32; 64];
        input.iter_mut().for_each(|v| *v = rnd());
        let coeffs = afv(kind, &input);
        let mut recon = [f32::NAN; 64];
        afv_to_pixels(kind, &coeffs, &mut recon);
        for k in 0..64 {
            assert!(
                (recon[k] - input[k]).abs() < 1e-4,
                "kind {kind}: pixel {k}: {} vs {}",
                recon[k],
                input[k]
            );
        }
    }
}

#[test]
fn strided_input_matches_flat_input() {
    let mut plain = [0.0f32; 64];
    for (i, value) in plain.iter_mut().enumerate() {
        *value = (i as f32 * 0.29).sin();
    }
    let mut strided = [f32::NAN; 8 * 13];
    for y in 0..8 {
        strided[y * 13..y * 13 + 8].copy_from_slice(&plain[y * 8..y * 8 + 8]);
    }
    for kind in 0..4u8 {
        let expected = afv(kind, &plain);
        let picked: Vec<f32> = strided
            .chunks_exact(13)
            .flat_map(|row| row[..8].to_vec())
            .collect();
        assert_eq!(afv(kind, &picked), expected, "kind {kind}");
    }
}

fn strategy_image(x: &[f32], width: usize) -> Image3<F32> {
    let mut image = Image3::filled(width, x.len() / width, F32(0.0));
    for (i, &v) in x.iter().enumerate() {
        image.set(1, i % width, i / width, F32(v));
    }
    image
}

#[test]
fn reconstruction_round_trips() {
    // The inverse of the forward transform must return the original block.
    for strategy in [
        STRATEGY_DCT,
        STRATEGY_DCT16X8,
        STRATEGY_DCT16X16,
        STRATEGY_DCT32X32,
        STRATEGY_DCT64X64,
        STRATEGY_DCT64X32,
        STRATEGY_DCT32X64,
    ] {
        let (width, height) = (
            8 * covered_blocks_x_of(strategy),
            8 * covered_blocks_y_of(strategy),
        );
        let n = width * height;
        // deterministic pseudo-random input
        let mut x = vec![0.0f32; n];
        let mut s = 12345u32;
        for v in &mut x {
            s = s.wrapping_mul(1664525).wrapping_add(1013904223);
            *v = (s >> 8) as f32 / (1u32 << 24) as f32 - 0.5;
        }
        let c = forward_transform(
            &weights(),
            strategy,
            &strategy_image(&x, width),
            1,
            0,
            0,
            Vec::new(),
        );
        let storage = if width > height {
            Storage::Natural
        } else {
            Storage::Transposed
        };
        let recon = flat(&inverse_block(&weights(), &c, width, height, storage));
        let max_err = (0..n).map(|i| (recon[i] - x[i]).abs()).fold(0.0, f32::max);
        assert!(
            max_err < 1e-3,
            "strategy {strategy}: max reconstruction err {max_err}"
        );
    }
}

#[test]
fn forward_matrix_is_orthogonal() {
    // The rows of the DCT8 matrix must be orthogonal for its scaled transpose
    // to be a valid inverse.
    let n = 64;
    let mut ft = vec![0.0f32; n * n]; // ft[pixel*n + coeff] = F[coeff, pixel]
    for p in 0..n {
        let mut x = vec![0.0f32; n];
        x[p] = 1.0;
        let c = flat(&forward_transform(
            &weights(),
            STRATEGY_DCT,
            &strategy_image(&x, 8),
            1,
            0,
            0,
            Vec::new(),
        ));
        ft[p * n..p * n + n].copy_from_slice(&c);
    }
    let mut max_off = 0.0f32;
    for j in 0..8 {
        for k in 0..8 {
            if j == k {
                continue;
            }
            let dot: f32 = (0..n).map(|p| ft[p * n + j] * ft[p * n + k]).sum();
            max_off = max_off.max(dot.abs());
        }
    }
    println!("max off-diagonal |<f_j,f_k>| = {max_off}");
    assert!(max_off < 1e-4, "DCT8 basis not orthogonal: {max_off}");
}

#[test]
fn hf_modulation_strength_protects_high_quality_detail() {
    let strength = |d: f32| hf_modulation_strength(F32(d)).0;
    assert_eq!(strength(0.1), 0.1);
    assert_eq!(strength(0.3), 0.15);
    assert_eq!(strength(0.5), 0.25);
    assert_eq!(strength(1.0), 0.5);
    assert_eq!(strength(2.0), 1.0);
    assert_eq!(strength(6.0), 1.0);
}

/// A plain statement of the adaptive quantization of a small image.
fn plain_field(sample: &dyn Fn(usize, usize, usize) -> f32, xs: usize, ys: usize, distance: f32) -> Vec<f64> {
    let (bw, bh) = (xs.div_ceil(8), ys.div_ceil(8));
    let at = |c: usize, x: isize, y: isize| {
        let x = x.clamp(0, xs as isize - 1) as usize;
        let y = y.clamp(0, ys as isize - 1) as usize;
        sample(c, x, y) as f64
    };
    let log2 = 0.693147181f64;
    let mul = 226.77216153508914f64;
    let ret_mul = 18.6580932135 * log2 / 73.377132366608819;
    let gamma = |v: f64, invert: bool| {
        let v = v.max(0.0);
        let num = ret_mul * 3.0 * mul * v * v + 1e-2;
        let den = log2 * mul * v * v * v + 7.7825991679894591 * log2 + 1e-2;
        if invert {
            num / den
        } else {
            den / num
        }
    };
    let (pw, ph) = (2 * bw, 2 * bh);
    let mut pre = vec![0.0f64; pw * ph];
    for py in 0..ph {
        for px in 0..pw {
            for i in 0..16 {
                let (x, y) = ((px * 4 + i % 4) as isize, (py * 4 + i / 4) as isize);
                let here = at(1, x, y);
                let around = 0.25
                    * (at(1, x, y + 1) + at(1, x, y - 1) + at(1, x - 1, y) + at(1, x + 1, y));
                let diff = gamma(here + 0.019, false) * (here - around);
                let diff = (diff * diff).min(0.2);
                pre[py * pw + px] += 0.25
                    * 0.25
                    * (diff * (211.66567973503678f64 * 1e8).sqrt() + 27.505837037000106).sqrt();
            }
        }
    }
    let fade = if distance < 2.0 {
        (2.0 - distance as f64) * 0.5
    } else {
        0.0
    };
    let mut k = [
        0.125,
        0.1 - fade * 0.1,
        0.09 - fade * 0.09,
        0.06 - fade * 0.06,
    ];
    let total: f64 = k.iter().sum();
    k.iter_mut().for_each(|w| *w *= 0.29959705784054957 / total);
    let mut map = vec![0.0f64; bw * bh];
    for fy in 0..ph {
        for fx in 0..pw {
            let mut near = Vec::new();
            for dy in -1isize..=1 {
                for dx in -1isize..=1 {
                    let y = (fy as isize + dy).clamp(0, ph as isize - 1) as usize;
                    let x = (fx as isize + dx).clamp(0, pw as isize - 1) as usize;
                    near.push(pre[y * pw + x]);
                }
            }
            near.sort_by(|a, b| a.total_cmp(b));
            map[(fy / 2) * bw + fx / 2] += (0..4).map(|i| k[i] * near[i]).sum::<f64>();
        }
    }
    let scale = 0.8294 / distance as f64;
    let dampen = if distance < 1.0 {
        0.8
    } else {
        (0.8 * (1.0 - (distance as f64 - 1.0) / 0.75)).clamp(0.0, 1.0)
    };
    let strength = (0.5 * distance as f64).clamp(0.1, 1.0);
    (0..bw * bh)
        .map(|b| {
            let x0 = (b % bw * 8).min(xs.saturating_sub(8)) as isize;
            let y0 = (b / bw * 8).min(ys.saturating_sub(8)) as isize;
            let v1 = (map[b] * 0.80061762862741759).max(1e-3);
            let mask = 9.4708735624378946 / (v1 * v1 + 0.25 * 3.7179635626140772)
                + 17.35036561631863 / (v1 + 302.59587815579727)
                + 6.7943250517376494 / (v1 * v1 + 3.7179635626140772)
                - 0.7647;
            let (mut ratio, mut hf, mut blue) = (0.0, 0.0, 0.0);
            let limit = 0.010474084867598155f64;
            for i in 0..64isize {
                let (dx, dy) = (i % 8, i / 8);
                let (x, y) = (x0 + dx, y0 + dy);
                let (px, py, pb) = (at(0, x, y), at(1, x, y), at(2, x, y));
                ratio += 0.5
                    * (gamma(py + 0.16 - px, true) + gamma(py + 0.16 + px, true));
                if dx < 7 {
                    hf += (py - at(1, x + 1, y)).abs().min(0.0206);
                }
                if dy < 7 {
                    hf += (py - at(1, x, y + 1)).abs().min(0.0206);
                }
                let level = py + 0.0031994768654636393 + px.abs();
                if pb > level {
                    blue += (pb - level).min(limit);
                }
            }
            let mask = 0.1005613337192697 * (ratio / 64.0).log2() + mask;
            if blue >= 32.0 * limit {
                blue = 64.0 * limit - blue;
            }
            blue = blue.min(15.463398341612438 * limit);
            let out = (hf * -0.38 * strength + 0.42 + mask).min(blue * 0.90590804735610064 + mask);
            (out * 1.442695041).exp2() * scale * dampen + (1.0 - dampen) * 0.48 * scale
        })
        .collect()
}

#[test]
fn fill_quant_field_matches_scalar_on_small_images() {
    for &(xsize, ysize) in &[
        (27usize, 28usize),
        (1, 1),
        (7, 9),
        (32, 32),
        (33, 33),
        (64, 17),
        (65, 65),
    ] {
        // Deterministic, non-flat content so the modulations
        // actually differ block to block.
        let sample = |c: usize, x: usize, y: usize| {
            let t = (x * 7 + y * 13 + c * 29) as f32;
            (t * 0.017).sin() * 0.4 + c as f32 * 0.05
        };
        let mut opsin = Image3::filled(xsize, ysize, F32(0.0));
        for c in 0..3 {
            for y in 0..ysize {
                for x in 0..xsize {
                    opsin.set(c, x, y, F32(sample(c, x, y)));
                }
            }
        }
        let (bw, bh) = (xsize.div_ceil(8), ysize.div_ceil(8));
        for (distance, inv_scale) in [(1.0f32, 1.0f32), (1.0, 40.0), (0.5, 40.0)] {
            let mut got = QuantField::new(bw, bh, 0);
            fill_quant_field_scalar(
                &opsin,
                &mut got,
                bw,
                bh,
                0,
                0,
                F32(distance),
                F32(inv_scale),
            );
            let want = plain_field(&sample, xsize, ysize, distance);
            for by in 0..bh {
                for bx in 0..bw {
                    let raw =
                        (want[by * bw + bx] * inv_scale as f64 + 0.5).clamp(1.0, 255.0);
                    let q = got.get(bx, by) as f64;
                    assert!(
                        (raw - 1e-3).floor() <= q && q <= (raw + 1e-3).floor(),
                        "{xsize}x{ysize}, block {bx},{by}: {q} for {raw}"
                    );
                }
            }
        }
    }
}
