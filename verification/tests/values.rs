use jixel::acceptance::{
    accept_band, accept_region, accept_super_block, region_accept, super_accept,
};
use jixel::amount::Amount;
use jixel::cfl::{
    cfl_closed_loop_cost, cfl_rdo_block, cfl_rdo_stats, cfl_regression, QuantBias,
};
use jixel::context::{
    compact_block_context_map, fine_block_context, fine_non_zero_context,
    fine_zero_density_contexts_offset, non_zero_context, zero_density_context,
    zero_density_context_8x8, zero_density_contexts_offset,
};
use jixel::fill::gather_bands;
use jixel::leaf_first::{choose_leaf, Sub8Pick};
use jixel::matrix::MatrixHeaderCost;
use jixel::matrix_sites::{
    account_matrix_headers, matrix_candidates, table_users, used_tables, MatrixScores, SlotTable,
};
use jixel::modular::{tokenize_alpha_u16_first_row, tokenize_alpha_u16_interior, Token};
use jixel::mosaic::RerankParams;
use jixel::opsin::Image3;
use jixel::quant_field::{block_qac_2x2, quant_extremes, region_qac, QuantField};
use jixel::recon::{
    combine_error, error_gradient_energy, prepare_reconstruction, recon_quantize, recon_rate,
    QuantShape,
};
use jixel::region_stats::find_pair_alphas;
use jixel::scope::Speed;
use jixel::selection::SiteCosts;
use jixel::strategy::{
    STRATEGY_DCT, STRATEGY_DCT16X16, STRATEGY_DCT16X8, STRATEGY_DCT2X2, STRATEGY_DCT4X8,
    STRATEGY_DCT8X16,
};
use jixel::strategy_map::AcStrategyImage;
use jixel::sub8::{
    evaluate_sub8_candidate, sub8_shortlist, sub8_strategy_costs, FineCharge, Sub8Costs,
};
use jixel::super_block::{MergeTuning, SuperBlockCosts};
use jixel::transform::{
    dct1d_16_flat, dct1d_32_flat, dct1d_4_flat, dct1d_64_flat, dct1d_8_flat, inv_dct1d_16_flat,
    inv_dct1d_32_flat, inv_dct1d_4_flat, inv_dct1d_64_flat, inv_dct1d_8_flat, DctWeights,
};
use jixel::tuning::{
    knob, rerank_pair_gradient_alphas, risk_gated, GradientRegionStats, RERANK_META_R,
};

#[derive(Clone, Copy, Debug, PartialEq)]
struct F32(f32);

impl Amount for F32 {
    fn zero() -> Self {
        F32(0.0)
    }
    fn infinite() -> Self {
        F32(f32::INFINITY)
    }
    fn ratio(n: i64, d: u64) -> Self {
        F32((n as f64 / d as f64) as f32)
    }
    fn plus(self, other: Self) -> Self {
        F32(self.0 + other.0)
    }
    fn minus(self, other: Self) -> Self {
        F32(self.0 - other.0)
    }
    fn times(self, factor: Self) -> Self {
        F32(self.0 * factor.0)
    }
    fn fused(self, factor: Self, addend: Self) -> Self {
        F32(self.0.mul_add(factor.0, addend.0))
    }
    fn over(self, factor: Self) -> Self {
        F32(self.0 / factor.0)
    }
    fn lesser(self, other: Self) -> Self {
        F32(self.0.min(other.0))
    }
    fn greater(self, other: Self) -> Self {
        F32(self.0.max(other.0))
    }
    fn less(self, other: Self) -> bool {
        self.0 < other.0
    }
    fn at_most(self, other: Self) -> bool {
        self.0 <= other.0
    }
    fn finite(self) -> bool {
        self.0.is_finite()
    }
    fn root(self) -> Self {
        F32(self.0.sqrt())
    }
    fn exp2(self) -> Self {
        F32(self.0.exp2())
    }
    fn log2(self) -> Self {
        F32(self.0.log2())
    }
    fn exp(self) -> Self {
        F32(self.0.exp())
    }
    fn ln(self) -> Self {
        F32(self.0.ln())
    }
    fn log10(self) -> Self {
        F32(self.0.log10())
    }
    fn byte(self) -> u8 {
        self.0 as u8
    }
    fn nearest(self) -> Self {
        F32(self.0.round_ties_even())
    }
    fn toward_zero(self) -> Self {
        F32(self.0.trunc())
    }
    fn whole(self) -> i32 {
        self.0 as i32
    }
    fn bits(self) -> u32 {
        self.0.to_bits()
    }
    fn from_bits(bits: u32) -> Self {
        F32(f32::from_bits(bits))
    }
}

fn near(got: F32, want: f32) {
    assert!((got.0 - want).abs() <= 1e-5 * want.abs().max(1.0), "{} != {want}", got.0);
}

fn wc(n: usize, i: usize) -> f32 {
    (0.5 / ((i as f64 + 0.5) * std::f64::consts::PI / n as f64).cos()) as f32
}

fn inv_wc(n: usize, i: usize) -> f32 {
    (2.0 * ((i as f64 + 0.5) * std::f64::consts::PI / n as f64).cos()) as f32
}

fn weights() -> DctWeights<F32> {
    DctWeights {
        wc4: std::array::from_fn(|i| F32(wc(4, i))),
        wc8: std::array::from_fn(|i| F32(wc(8, i))),
        wc16: std::array::from_fn(|i| F32(wc(16, i))),
        wc32: std::array::from_fn(|i| F32(wc(32, i))),
        wc64: std::array::from_fn(|i| F32(wc(64, i))),
        inv_wc4: std::array::from_fn(|i| F32(inv_wc(4, i))),
        inv_wc8: std::array::from_fn(|i| F32(inv_wc(8, i))),
        inv_wc16: std::array::from_fn(|i| F32(inv_wc(16, i))),
        inv_wc32: std::array::from_fn(|i| F32(inv_wc(32, i))),
        inv_wc64: std::array::from_fn(|i| F32(inv_wc(64, i))),
        sqrt_2: F32(std::f32::consts::SQRT_2),
        inv_sqrt_2: F32(std::f32::consts::FRAC_1_SQRT_2),
        half: F32(0.5),
    }
}

#[test]
fn contexts_have_their_values() {
    assert_eq!(compact_block_context_map()[13], 7);
    assert_eq!(non_zero_context(3, 2), 3 * 15 + 2);
    assert_eq!(non_zero_context(20, 2), 14 * 15 + 2);
    assert_eq!(non_zero_context(64, 0), 36 * 15);
    assert_eq!(fine_non_zero_context(63, 5), 35 * 30 + 5);
    assert_eq!(fine_block_context(1, 0, false), 0);
    assert_eq!(fine_block_context(1, 0, true), 1);
    assert_eq!(fine_block_context(0, 0, true), 15);
    assert_eq!(zero_density_contexts_offset(2), 15 * 37 + 2 * 458);
    assert_eq!(fine_zero_density_contexts_offset(1), 30 * 37 + 458);
    assert_eq!(zero_density_context_8x8(1, 1, 0), 0);
    assert_eq!(zero_density_context_8x8(5, 10, 1), (93 + 9) * 2 + 1);
    // Four blocks: counts are rounded up and positions down.
    assert_eq!(zero_density_context(17, 43, 4, 2, 1), zero_density_context_8x8(5, 10, 1));
}

#[test]
fn transforms_of_one_row_are_undone() {
    let w = weights();
    let mut a: [F32; 4] = std::array::from_fn(|i| F32(i as f32 - 1.5));
    dct1d_4_flat(&w, &mut a);
    inv_dct1d_4_flat(&w, &mut a);
    let mut b: [F32; 8] = std::array::from_fn(|i| F32((i * i) as f32 - 9.0));
    dct1d_8_flat(&w, &mut b);
    inv_dct1d_8_flat(&w, &mut b);
    let mut c: [F32; 16] = std::array::from_fn(|i| F32((i as f32 * 0.7).sin()));
    dct1d_16_flat(&w, &mut c);
    inv_dct1d_16_flat(&w, &mut c);
    let mut d: [F32; 32] = std::array::from_fn(|i| F32((i as f32 * 0.3).cos()));
    dct1d_32_flat(&w, &mut d);
    inv_dct1d_32_flat(&w, &mut d);
    let mut e: [F32; 64] = std::array::from_fn(|i| F32(1.0 / (1.0 + i as f32)));
    dct1d_64_flat(&w, &mut e);
    inv_dct1d_64_flat(&w, &mut e);
    let scale = |got: F32, want: f32| if want == 0.0 { 1.0 } else { got.0 / want };
    // Forward and inverse make up the row again, but for one factor of the size.
    let (fa, fb) = (scale(a[0], -1.5), scale(b[0], -9.0));
    for (i, v) in a.iter().enumerate() {
        near(*v, fa * (i as f32 - 1.5));
    }
    for (i, v) in b.iter().enumerate() {
        assert!((v.0 - fb * ((i * i) as f32 - 9.0)).abs() < 1e-3);
    }
    let (fc, fd, fe) = (
        scale(c[1], 0.7f32.sin()),
        scale(d[0], 1.0),
        scale(e[0], 1.0),
    );
    for (i, v) in c.iter().enumerate() {
        assert!((v.0 - fc * (i as f32 * 0.7).sin()).abs() < 1e-3);
    }
    for (i, v) in d.iter().enumerate() {
        assert!((v.0 - fd * (i as f32 * 0.3).cos()).abs() < 1e-3 * fd.abs());
    }
    for (i, v) in e.iter().enumerate() {
        assert!((v.0 - fe / (1.0 + i as f32)).abs() < 1e-3 * fe.abs());
    }
}

#[test]
fn a_flat_row_has_a_mean_and_nothing_else() {
    let w = weights();
    let mut b = [F32(2.0); 8];
    dct1d_8_flat(&w, &mut b);
    assert!(b[0].0.abs() > 1.0);
    for v in &b[1..] {
        assert!(v.0.abs() < 1e-5);
    }
}

#[test]
fn chroma_from_luma_sums() {
    let y: [F32; 64] = std::array::from_fn(|i| F32(84.0 * (1.0 + (i % 3) as f32)));
    let x: [F32; 64] = std::array::from_fn(|i| F32((i % 5) as f32));
    let b: [F32; 64] = std::array::from_fn(|i| F32((i % 2) as f32));
    let one = [F32(1.0); 64];
    let two = [F32(2.0); 64];
    let r = cfl_regression(&y, &x, &b, &one, &two);
    let p = |i: usize| 1.0 + (i % 3) as f32;
    let square: f32 = (0..64).map(|i| p(i) * p(i)).sum();
    near(r.square_x, square);
    near(r.square_b, 4.0 * square);
    // The first channel is what is left to predict; the second is charged for luma.
    let product: f32 = (0..64).map(|i| -p(i) * (i % 5) as f32).sum();
    near(r.product_x, product);
    assert!(r.product_b.0.is_finite());

    let units = cfl_rdo_block(&y, &two, F32(3.0));
    assert_eq!(units.len(), 63);
    near(units[0], y[1].0 * 6.0);

    let m = [F32(1.0), F32(2.0), F32(-3.0)];
    let s = [F32(4.0), F32(-5.0)];
    let stats = cfl_rdo_stats(&m, &s);
    near(stats.dot_ms, -6.0);
    near(stats.dot_mm, 5.0);
    near(stats.dot_ss, 41.0);
    near(stats.sum_abs_s, 9.0);

    let bias = QuantBias { one: F32(0.9), many: F32(0.1) };
    let thresholds = [F32(0.6); 63];
    let (error, bits) = cfl_closed_loop_cost(&bias, &m, &s, F32(1.0), &thresholds);
    // Residuals 3 and -7: levels 3 and -7, lowered by a tenth of one over themselves.
    let e = |r: f32| (r - (r - 0.1 / r)).abs() + 0.15 * r.abs();
    near(error, e(3.0) + e(-7.0));
    near(bits, 2.0 + 4.0f32.log2() + 8.0f32.log2());
}

#[test]
fn reconstruction_parts_have_their_values() {
    let shape = QuantShape { width: 8, height: 8, half: 4, cx: 1, cy: 1 };
    let mut coeff = vec![F32(0.0); 64];
    coeff[0] = F32(50.0);
    coeff[1] = F32(3.25);
    coeff[9] = F32(0.4);
    coeff[63] = F32(-2.0);
    let inv = vec![F32(1.0); 64];
    let scan: Vec<u32> = (0..64).collect();
    let r = recon_quantize(&shape, &coeff, &inv, F32(1.0), &[F32(0.5); 4], &scan);
    assert_eq!(r.nonzero, 2);
    assert_eq!(r.max_scan, 63);
    near(r.errors[0], 0.0);
    near(r.errors[1], 0.25);
    near(r.errors[9], 0.4);
    near(r.errors[63], 0.0);
    near(r.magnitude_bits, 4.0f32.log2() + 3.0f32.log2());
    near(
        recon_rate(&r, F32(5.0)),
        3.2 + 2.0 + 3.0f32.log2() + 0.4 * 3.0f32.log2() + 5.0,
    );

    let mixed = combine_error(&[F32(1.0), F32(2.0)], &[F32(10.0), F32(-10.0)], F32(0.5));
    assert_eq!(mixed, vec![F32(6.0), F32(-3.0)]);

    let slope: Vec<Vec<F32>> =
        (0..4).map(|y| (0..8).map(|x| F32((x + 10 * y) as f32)).collect()).collect();
    // Steps of one across and of ten down.
    near(error_gradient_energy(&slope, 8, 4), (7 * 4 + 8 * 3 * 100) as f32);
    near(error_gradient_energy(&Vec::new(), 0, 0), 0.0);

    let mut img = Image3::filled(3, 2, F32(0.0));
    img.set(1, 2, 1, F32(7.0));
    let error = vec![vec![F32(1.0); 4]; 3];
    let (block, without) = prepare_reconstruction(&img, 1, 1, 0, 4, 3, &error);
    // Beyond the image its last column and row go on.
    assert_eq!(block[1], vec![F32(0.0), F32(7.0), F32(7.0), F32(7.0)]);
    assert_eq!(block[2], block[1]);
    assert_eq!(without[2][3], F32(6.0));
    assert_eq!(without[0][0], F32(-1.0));
}

#[test]
fn wide_alpha_rows_are_tokenized() {
    let mut out = vec![Token { context: 9, value: 9 }; 3];
    tokenize_alpha_u16_first_row(&[100, 90, 95], &mut out);
    assert_eq!((out[0].context, out[0].value), (9, 9));
    assert_eq!([out[1].value, out[2].value], [19, 10]);
    let mut out = vec![Token { context: 0, value: 0 }; 3];
    tokenize_alpha_u16_interior(&[300, 310, 305], &[300, 300, 300], &mut out);
    // The prediction is the clamped gradient of the neighbours.
    assert_eq!([out[1].value, out[2].value], [20, 9]);
}

#[test]
fn quantizers_of_a_window() {
    let mut f = QuantField::new(4, 4, 6);
    f.set(1, 1, 9);
    f.set(2, 1, 3);
    assert_eq!(quant_extremes(&f, 0, 0, 4, 4), (3, 9));
    assert_eq!(quant_extremes(&f, 0, 2, 4, 2), (6, 6));
    let q = block_qac_2x2(&f, 1, 0, F32(0.5));
    assert_eq!(q, [[F32(3.0), F32(3.0)], [F32(4.5), F32(1.5)]]);
    // The largest quantizer of a pair stands for it.
    near(region_qac(&f, 0, 1, 2, 1, F32(2.0), F32(0.5)), 18.0);
}

#[test]
fn transforms_below_eight_are_weighed() {
    let costs = Sub8Costs {
        dct8: F32(100.0),
        identity: F32(80.0),
        dct2x2: F32(60.0),
        dct4x4: F32(90.0),
        dct4x8: F32(70.0),
        dct8x4: F32(95.0),
        afv: [F32(99.0); 4],
    };
    let none = sub8_strategy_costs(&costs, false, false);
    assert!(none.dct4x4.0.is_infinite() && none.identity.0.is_infinite());
    assert_eq!(none.afv, costs.afv);
    let all = sub8_strategy_costs(&costs, true, true);
    assert_eq!(all.dct4x8, costs.dct4x8);

    let l = sub8_shortlist(&all, F32(0.3), F32(1.0));
    let structural = l.structural.unwrap();
    assert_eq!(structural.strategy, STRATEGY_DCT4X8);
    near(structural.biased_j, 1.09 * 70.0);
    near(structural.gain, 100.0 - 1.09 * 70.0);
    assert_eq!(l.fine.unwrap().strategy, STRATEGY_DCT2X2);

    let charge = FineCharge { lambda: F32(1.0), bits: F32(2.0), leaf_extra_bits: F32(0.0) };
    // The fine transform is admitted where its charged cost is clearly lower.
    let pick = evaluate_sub8_candidate(&l, &charge, (F32(100.0), F32(10.0))).unwrap();
    assert_eq!(pick.0, STRATEGY_DCT2X2);
    near(pick.1, 88.0);
    let pick = evaluate_sub8_candidate(&l, &charge, (F32(100.0), F32(100.0))).unwrap();
    assert_eq!(pick.0, STRATEGY_DCT4X8);

    let leaf = choose_leaf(
        F32(100.0),
        Some(Sub8Pick {
            strategy: STRATEGY_DCT4X8,
            biased_j: F32(76.0),
            raw_j: F32(70.0),
            gain: F32(24.0),
        }),
    );
    assert_eq!((leaf.strategy, leaf.j, leaf.raw_j), (STRATEGY_DCT4X8, F32(76.0), F32(70.0)));
    let leaf = choose_leaf(F32(100.0), None);
    assert_eq!((leaf.strategy, leaf.j, leaf.gain), (STRATEGY_DCT, F32(100.0), F32(0.0)));
}

#[test]
fn uneven_quantizers_hold_merges_back() {
    // Twice the quantizer: one step of the exponent.
    let gate = |k: f32, lo: f32, hi: f32| risk_gated(F32(k), F32(0.8), F32(lo), F32(hi), F32(1.0));
    near(gate(1.0, 5.0, 10.0), 0.4);
    near(gate(1.0, 5.0, 5.0), 0.8);
    near(gate(0.0, 5.0, 10.0), 0.8);
    near(gate(1.0, 0.0, 10.0), 0.8);
}

#[test]
fn acceptance_follows_the_quantizers_of_the_window() {
    let one = F32(1.0);
    let t = MergeTuning {
        bias_rect: one,
        bias_16x16: one,
        bias_32x32: one,
        bias_rect32: one,
        accept_pair: one,
        accept_16: F32(0.8),
        accept_32_rect: F32(0.6),
        accept_32: F32(0.5),
        rerank_margin: one,
        risk_k: one,
        accept_64: one,
        accept_64_rect: one,
    };
    let mut f = QuantField::new(8, 8, 5);
    f.set(4, 4, 10);
    // The spread is one, twice over a region and once over a super-block.
    let r = region_accept(&f, 4, 4, &t);
    near(r[0], 0.125);
    for half in &r[1..] {
        near(*half, 0.15);
    }
    near(super_accept(&f, 4, 4, F32(0.25), &t), 0.4);
    near(region_accept(&f, 0, 0, &t)[0], 0.5);
    near(super_accept(&f, 0, 0, F32(0.25), &t), 0.8);

    // What the selectors take: as measured, with these factors.
    let measured = SuperBlockCosts {
        leaf: [[F32(1.0), F32(2.0)], [F32(3.0), F32(4.0)]],
        leaf_raw: [[F32(5.0), F32(6.0)], [F32(7.0), F32(8.0)]],
        tall: [F32(9.0), F32(10.0)],
        wide: [F32(11.0), F32(12.0)],
        square: F32(13.0),
        accept_16: F32(0.0),
    };
    let c = accept_super_block(measured, &f, 4, 4, F32(0.25), &t);
    near(c.accept_16, 0.4);
    assert_eq!((c.leaf, c.leaf_raw), (measured.leaf, measured.leaf_raw));
    assert_eq!((c.tall, c.wide, c.square), (measured.tall, measured.wide, measured.square));
    let site = SiteCosts {
        supers: [[measured; 2]; 2],
        raw: [F32(20.0), F32(21.0), F32(22.0), F32(23.0), F32(24.0)],
        accept: [F32(0.0); 5],
    };
    let c = accept_region(site, &f, 4, 4, F32(0.25), &t);
    assert_eq!(c.raw, site.raw);
    near(c.accept[0], 0.125);
    near(c.accept[4], 0.15);
    near(c.supers[0][0].accept_16, 0.4);
    for (sy, sx) in [(0, 1), (1, 0), (1, 1)] {
        near(c.supers[sy][sx].accept_16, 0.8);
        assert_eq!(c.supers[sy][sx].square, F32(13.0));
    }
    // Over a band: a region, and super-blocks where none fits.
    let mut f = QuantField::new(6, 4, 5);
    f.set(4, 2, 10);
    let c = accept_band(&[site; 3], &f, 6, 4, (0, 4), F32(0.25), &t);
    assert_eq!(c.len(), 3);
    near(c[0].accept[0], 0.5);
    near(c[0].supers[1][1].accept_16, 0.8);
    near(c[1].supers[0][0].accept_16, 0.8);
    near(c[2].supers[0][0].accept_16, 0.4);
    assert_eq!((c[2].accept, c[2].supers[1][1].accept_16), (site.accept, F32(0.0)));
}

#[test]
fn reranking_runs_with_the_knobs_of_its_distance() {
    let at = |d: f32, speed, chromatic, blue: f32| {
        RerankParams::new(F32(d), speed, chromatic, F32(blue), F32(0.25))
    };
    let p = at(2.0, Speed::Slow, true, 0.8);
    assert_eq!((p.distance, p.fine_lambda), (F32(2.0), F32(0.25)));
    assert_eq!(p.margin, MergeTuning::new(F32(2.0)).rerank_margin);
    assert_eq!(p.meta_r, knob(RERANK_META_R));
    assert!(p.slow && p.rectangles && p.coarse_chromatic && p.hue_repair);
    assert!(!at(2.0, Speed::Slow, true, 0.79).hue_repair);
    assert!(!at(2.0, Speed::Slow, false, 1.0).hue_repair);
    let p = at(1.0, Speed::Fast, false, 1.0);
    assert!(!p.slow && !p.rectangles && !p.coarse_chromatic);
    assert_eq!(p.margin, MergeTuning::new(F32(1.0)).rerank_margin);
}

#[test]
fn pair_weights_need_a_dominant_gradient() {
    let strong = GradientRegionStats { dominance: F32(0.5), mean: F32(0.5), chroma: F32(0.5) };
    let weak = GradientRegionStats { dominance: F32(0.1), mean: F32(0.5), chroma: F32(0.0) };
    let zero = (F32(0.0), F32(0.0));
    assert_eq!(rerank_pair_gradient_alphas(false, F32(0.9), &strong), zero);
    assert_eq!(rerank_pair_gradient_alphas(true, F32(0.9), &weak), zero);
    let (alpha, peak) = rerank_pair_gradient_alphas(true, F32(0.9), &strong);
    near(alpha, 8.0);
    near(peak, 0.0);
    let (alpha, peak) = rerank_pair_gradient_alphas(true, F32(1.85), &strong);
    near(alpha, 0.0);
    near(peak, 192.0);
    // Coarse distances ask for little chroma besides.
    assert_eq!(rerank_pair_gradient_alphas(true, F32(2.5), &strong).1, F32(0.0));

    // From a picture: steps from cell to cell, with blue as bright as luma.
    let mut steps = Image3::filled(16, 16, F32(0.0));
    let mut specks = Image3::filled(16, 16, F32(0.5));
    for y in 0..16 {
        for x in 0..16 {
            for c in [1, 2] {
                steps.set(c, x, y, F32(0.5 + 0.1 * (x / 4 + y / 4) as f32));
                specks.set(c, x, y, F32(if (x + y) % 2 == 0 { 0.4 } else { 0.6 }));
            }
        }
    }
    for pair in [STRATEGY_DCT16X8, STRATEGY_DCT8X16] {
        near(find_pair_alphas(&steps, pair, 0, 0, F32(0.9)).0, 8.0);
        near(find_pair_alphas(&steps, pair, 0, 0, F32(1.85)).1, 192.0);
        assert!(find_pair_alphas(&steps, pair, 0, 0, F32(2.1)).1.less(F32(192.0)));
        assert!(F32(0.0).less(find_pair_alphas(&steps, pair, 0, 0, F32(2.1)).1));
        assert_eq!(find_pair_alphas(&specks, pair, 0, 0, F32(0.9)), zero);
    }
    assert_eq!(find_pair_alphas(&steps, STRATEGY_DCT16X16, 0, 0, F32(0.9)), zero);
    // A colour of its own holds the coarse weight back.
    steps.set(0, 3, 3, F32(100.0));
    assert_eq!(find_pair_alphas(&steps, STRATEGY_DCT16X8, 0, 0, F32(2.1)).1, F32(0.0));
}

#[test]
fn bands_are_gathered_by_rows() {
    let mut top = AcStrategyImage::new(4, 8);
    top.set_first(0, 0, STRATEGY_DCT16X16);
    let mut bottom = AcStrategyImage::new(4, 8);
    bottom.set_first(2, 6, STRATEGY_DCT16X16);
    let mut map = AcStrategyImage::new(4, 8);
    gather_bands(&mut map, &vec![(0, 4), (4, 8)], &vec![top, bottom]);
    assert_eq!(map.raw_strategy(1, 1), STRATEGY_DCT16X16);
    assert_eq!(map.raw_strategy(2, 6), STRATEGY_DCT16X16);
    assert_eq!(map.first_blocks().len(), 32 - 6);
}

#[test]
fn tables_that_do_not_pay_are_given_up() {
    let mut slots = [None; 21];
    slots[STRATEGY_DCT as usize] = Some(0);
    slots[STRATEGY_DCT16X16 as usize] = Some(4);
    let t = SlotTable { slots };
    let header = MatrixHeaderCost { payload: [0, 0, 0, 0, 500, 0, 0, 0, 0] };
    let scored = |maps: &Vec<AcStrategyImage>, incumbent: f32, other: f32| {
        (1..9u8)
            .map(|slot| {
                table_users(&t, 1 << 4, slot, maps)
                    .iter()
                    .map(|site| MatrixScores {
                        incumbent: F32(incumbent),
                        candidates: matrix_candidates(site.strategy, false)
                            .iter()
                            .map(|_| vec![F32(other); 16])
                            .collect(),
                    })
                    .collect::<Vec<_>>()
            })
            .collect::<Vec<_>>()
    };
    let group = || {
        let mut map = AcStrategyImage::new(2, 2);
        map.set_first(0, 0, STRATEGY_DCT16X16);
        vec![map]
    };
    assert_eq!(used_tables(&t, 1 << 4, &group()), 1 << 4);

    // Nothing is weighed at the fastest speed.
    let mut maps = group();
    account_matrix_headers::<F32>(&mut maps, &header, &t, true, false, &Vec::new());
    assert_eq!(maps[0].raw_strategy(0, 0), STRATEGY_DCT16X16);
    // A table that saves more than its header stays.
    let mut maps = group();
    let scores = scored(&maps, 10.0, 1000.0);
    account_matrix_headers(&mut maps, &header, &t, false, false, &scores);
    assert_eq!(maps[0].raw_strategy(0, 0), STRATEGY_DCT16X16);
    // One that saves less goes, and with it the transform that needed it.
    let mut maps = group();
    let scores = scored(&maps, 10.0, 11.0);
    account_matrix_headers(&mut maps, &header, &t, false, false, &scores);
    assert_eq!(maps[0].raw_strategy(0, 0), STRATEGY_DCT);
}
