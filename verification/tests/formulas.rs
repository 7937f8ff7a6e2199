use jixel::adaptive_quant::{sort4, store_min4};
use jixel::amount::{Amount, Fixed, FIXED_ONE};
use jixel::cfl::round_ties_away;
use jixel::cost::{
    dist_and_rate, plane_multiplier, prepare_strategy_coeffs, reconstruction_cost_and_base,
    step_table, strategy_cost, strategy_cost64, FineBlocks, GradientPenalty, PlaneCost, StepTable,
};
use jixel::context_plan::{PlanStats, PlanToken};
use jixel::fill::{after_stage, first_stage, plan_stages, Stage};
use jixel::forward::cmap_factors;
use jixel::group_cost::{group_cost, plan_from_stats};
use jixel::modular::{
    alpha_token_u8, grad_pack_interior, tokenize_alpha_u8_first_row, tokenize_alpha_u8_interior,
    Token,
};
use jixel::opsin::Image3;
use jixel::plane_stats::{
    chroma_gradient_sums, counts_bit_cost, dark_structure_stats, fill_blue_tile, BlueScale,
};
use jixel::recon::{error_gradient_energy, quantize_dc, quantize_dc_cfl, round_ties_away_i32};
use jixel::scope::{SelectorPolicy, Speed};
use jixel::spline::{
    continuous_idct, erf, fast_cos, spline_distance, spline_render_row, spline_ridge_row,
    Derivatives, Ridge, RidgeLimits, Sample, Segment,
};
use jixel::strategy::{STRATEGY_DCT, STRATEGY_DCT16X8, STRATEGY_DCT64X64, STRATEGY_DCT8X16};
use jixel::structure::{block_measures, gradient_energy, moments, predictor_errors, tensor};
use jixel::transform::DctWeights;
use jixel::tuning::{knob, DistortionModel, RD_LAMBDA, RERANK_META_R};
use jixel::xyb::{color_matrix_shaper, quantize_xyb_channels, quantize_xyb_tile_colors, XybScales};

#[derive(Clone, Copy, Debug, PartialEq)]
struct F32(f32);

impl Amount for F32 {
    fn zero() -> Self {
        F32(0.0)
    }
    fn infinite() -> Self {
        F32(f32::INFINITY)
    }
    fn ratio(n: i64, d: u64) -> Self {
        F32((n as f64 / d as f64) as f32)
    }
    fn plus(self, other: Self) -> Self {
        F32(self.0 + other.0)
    }
    fn minus(self, other: Self) -> Self {
        F32(self.0 - other.0)
    }
    fn times(self, factor: Self) -> Self {
        F32(self.0 * factor.0)
    }
    fn fused(self, factor: Self, addend: Self) -> Self {
        F32(self.0.mul_add(factor.0, addend.0))
    }
    fn over(self, factor: Self) -> Self {
        F32(self.0 / factor.0)
    }
    fn lesser(self, other: Self) -> Self {
        F32(self.0.min(other.0))
    }
    fn greater(self, other: Self) -> Self {
        F32(self.0.max(other.0))
    }
    fn less(self, other: Self) -> bool {
        self.0 < other.0
    }
    fn at_most(self, other: Self) -> bool {
        self.0 <= other.0
    }
    fn finite(self) -> bool {
        self.0.is_finite()
    }
    fn root(self) -> Self {
        F32(self.0.sqrt())
    }
    fn exp2(self) -> Self {
        F32(self.0.exp2())
    }
    fn log2(self) -> Self {
        F32(self.0.log2())
    }
    fn exp(self) -> Self {
        F32(self.0.exp())
    }
    fn ln(self) -> Self {
        F32(self.0.ln())
    }
    fn log10(self) -> Self {
        F32(self.0.log10())
    }
    fn byte(self) -> u8 {
        self.0 as u8
    }
    fn nearest(self) -> Self {
        F32(self.0.round_ties_even())
    }
    fn toward_zero(self) -> Self {
        F32(self.0.trunc())
    }
    fn whole(self) -> i32 {
        self.0 as i32
    }
    fn bits(self) -> u32 {
        self.0.to_bits()
    }
    fn from_bits(bits: u32) -> Self {
        F32(f32::from_bits(bits))
    }
}

fn lift(v: &[f32]) -> Vec<F32> {
    v.iter().map(|&v| F32(v)).collect()
}

fn grid(w: usize, h: usize, at: impl Fn(usize, usize) -> f32) -> Vec<Vec<F32>> {
    (0..h)
        .map(|y| (0..w).map(|x| F32(at(x, y))).collect())
        .collect()
}

#[test]
fn rounding_goes_away_from_zero_on_ties() {
    for (v, r) in [(0.5, 1), (-0.5, -1), (1.49, 1), (2.5, 3), (-2.5, -3), (0.0, 0)] {
        assert_eq!(round_ties_away(F32(v)), F32(r as f32));
        assert_eq!(round_ties_away_i32(F32(v)), r);
    }
    assert_eq!(quantize_dc(&lift(&[0.5, -1.6, 1e9]), F32(1.0)), [1, -2, 32767]);
    assert_eq!(
        quantize_dc_cfl(&lift(&[3.0]), &[2], F32(1.0), F32(0.5)),
        [2]
    );
}

#[test]
fn fixed_amounts_add_and_compare() {
    let half = Fixed::ratio(1, 2);
    assert_eq!(half.raw * 2, FIXED_ONE);
    assert_eq!(half.plus(half).raw, FIXED_ONE);
    assert!(half.less(Fixed::ratio(3, 4)));
    assert!(!half.less(half) && half.at_most(half));
    assert!(Fixed::ratio(1000, 1).less(Fixed::infinite()));
}

#[test]
fn four_smallest_are_kept_in_order() {
    let mut mins = [4.0, 1.0, 3.0, 2.0].map(F32);
    sort4(&mut mins);
    assert_eq!(mins, [1.0, 2.0, 3.0, 4.0].map(F32));
    store_min4(F32(2.5), &mut mins);
    assert_eq!(mins, [1.0, 2.0, 2.5, 3.0].map(F32));
    store_min4(F32(9.0), &mut mins);
    assert_eq!(mins, [1.0, 2.0, 2.5, 3.0].map(F32));
    store_min4(F32(0.0), &mut mins);
    assert_eq!(mins, [0.0, 1.0, 2.0, 2.5].map(F32));
}

#[test]
fn stages_run_in_their_order() {
    let plan = plan_stages(Speed::Slow, SelectorPolicy::default(), F32(2.0), F32(1.75));
    assert!(plan.search && plan.rerank && plan.upgrade && plan.refine);
    let mut stage = first_stage(&plan);
    assert_eq!(stage, Stage::Select);
    let mut seen = 0;
    while stage != Stage::Done {
        seen += 1;
        assert!(seen <= 7);
        stage = after_stage(&plan, stage);
    }
    let tail = plan_stages(Speed::Slow, SelectorPolicy::default(), F32(0.01), F32(1.75));
    assert!(!tail.search);
}

#[test]
fn residuals_give_back_the_samples() {
    let row = [10u8, 12, 11, 255, 0, 3];
    let north = [9u8, 14, 11, 250, 4, 1];
    let blank = Token { context: 0, value: 0 };
    let mut first = vec![blank; 6];
    tokenize_alpha_u8_first_row(&row, &mut first);
    let mut interior = vec![blank; 6];
    tokenize_alpha_u8_interior(&row, &north, &mut interior);
    let unzigzag = |v: u32| (v >> 1) as i32 ^ -((v & 1) as i32);
    for i in 1..6 {
        assert_eq!(row[i - 1] as i32 + unzigzag(first[i].value), row[i] as i32);
        let (w, n, nw) = (row[i - 1] as i32, north[i] as i32, north[i - 1] as i32);
        let guess = (w + n - nw).clamp(w.min(n), w.max(n));
        assert_eq!(guess + unzigzag(interior[i].value), row[i] as i32);
        assert_eq!(interior[i], alpha_token_u8(row[i], row[i - 1], north[i], north[i - 1]));
    }

    let cur = [5i32, -7, i32::MAX, i32::MIN, 0];
    let prev = [1i32, 2, 3, -4, i32::MIN];
    let mut packed = vec![0u32; 5];
    grad_pack_interior(&cur, &prev, &mut packed, 5);
    for i in 1..5 {
        let (w, n, nw) = (cur[i - 1], prev[i], prev[i - 1]);
        let guess = w.wrapping_add(n).wrapping_sub(nw).clamp(w.min(n), w.max(n));
        assert_eq!(guess.wrapping_add(unzigzag(packed[i])), cur[i]);
    }
}

#[test]
fn colours_become_whole_numbers() {
    let s = XybScales { x: F32(100.0), y: F32(10.0), b: F32(20.0) };
    let (x, y, b) = (lift(&[0.016, -0.01]), lift(&[0.55, 1.0]), lift(&[0.2, -0.5]));
    let planes = quantize_xyb_channels(&x, &y, &b, &s);
    assert_eq!((planes.y, planes.x, planes.b), (vec![6, 10], vec![2, -1], vec![-2, -20]));
    assert_eq!(
        quantize_xyb_tile_colors(&x, &y, &b, &s),
        [(6, 2, 4), (10, -1, -10)]
    );
    let lut = lift(&[0.0, 0.5, 1.0]);
    let matrix = [1.0, 0.0, 0.0, 0.0, 2.0, 0.0, 1.0, 1.0, 1.0].map(F32);
    let (p, q, t) = color_matrix_shaper(&lut, &matrix, &[(2, 1, 0)]);
    assert_eq!((p, q, t), (lift(&[1.0]), lift(&[1.0]), lift(&[1.5])));
}

#[test]
fn planes_are_measured() {
    let mut img = Image3::filled(40, 4, F32(0.0));
    for y in 0..4 {
        for x in 0..40 {
            img.set(2, x, y, F32(if x < 20 { 0.5 } else { 0.0 }));
        }
    }
    let s = BlueScale { offset: F32(0.1), inv_full: F32(2.0), luma: F32(10.0) };
    let (risk, tile) = fill_blue_tile(&img, &s, 0, 0, 40, 4);
    // Half of the samples carry a risk of 0.8.
    assert!((risk.0 - 0.4).abs() < 1e-6);
    assert_eq!((tile[0][0], tile[3][39]), (F32(5.0), F32(0.0)));

    let flat = grid(16, 16, |_, _| 0.25);
    assert_eq!(dark_structure_stats(&flat, 16, 16), (F32(0.25), F32(0.0)));
    let (mean, structure) = dark_structure_stats(&grid(16, 16, |x, y| (x * x + y) as f32), 16, 16);
    assert!((mean.0 - (77.5 + 7.5)).abs() < 1e-3);
    // Second differences of 2 at full size and of 8 at half size.
    assert!((structure.0 - 4.0).abs() < 1e-4);
    assert_eq!(dark_structure_stats(&Vec::new(), 0, 0), (F32(0.0), F32(0.0)));

    let ramp = grid(9, 5, |x, _| x as f32);
    let zero = grid(9, 5, |_, _| 0.0);
    assert_eq!(
        chroma_gradient_sums(&zero, &ramp, &zero, 9, 5),
        (F32(0.0), F32(16.0), F32(16.0), F32(16.0))
    );
    assert_eq!(
        chroma_gradient_sums(&grid(1, 2, |_, _| 3.0), &grid(1, 2, |_, _| 1.0), &grid(1, 2, |_, _| 2.0), 1, 2),
        (F32(0.0), F32(0.0), F32(0.0), F32(0.0))
    );

    let mut counts = [0u32; 64];
    counts[3] = 8;
    counts[40] = 8;
    assert_eq!(counts_bit_cost::<F32>(&counts, 16), F32(16.0));
    assert_eq!(counts_bit_cost::<F32>(&[0; 64], 1), F32(0.0));
}

fn weights() -> DctWeights<F32> {
    let wc = |n: usize, i: usize| {
        F32((0.5 / ((i as f64 + 0.5) * std::f64::consts::PI / n as f64).cos()) as f32)
    };
    let inv = |n: usize, i: usize| {
        F32((2.0 * ((i as f64 + 0.5) * std::f64::consts::PI / n as f64).cos()) as f32)
    };
    DctWeights {
        wc4: std::array::from_fn(|i| wc(4, i)),
        wc8: std::array::from_fn(|i| wc(8, i)),
        wc16: std::array::from_fn(|i| wc(16, i)),
        wc32: std::array::from_fn(|i| wc(32, i)),
        wc64: std::array::from_fn(|i| wc(64, i)),
        inv_wc4: std::array::from_fn(|i| inv(4, i)),
        inv_wc8: std::array::from_fn(|i| inv(8, i)),
        inv_wc16: std::array::from_fn(|i| inv(16, i)),
        inv_wc32: std::array::from_fn(|i| inv(32, i)),
        inv_wc64: std::array::from_fn(|i| inv(64, i)),
        sqrt_2: F32(std::f32::consts::SQRT_2),
        inv_sqrt_2: F32(std::f32::consts::FRAC_1_SQRT_2),
        half: F32(0.5),
    }
}

#[test]
fn blocks_are_measured() {
    let ramp = grid(8, 8, |x, _| x as f32);
    let (mean, variance) = moments(&ramp);
    assert_eq!((mean, variance), (F32(3.5), F32(5.25)));
    let (xx, xy, yy) = tensor(&ramp);
    assert_eq!((xx, xy, yy), (F32(36.0), F32(0.0), F32(0.0)));
    let e = predictor_errors(&ramp);
    assert_eq!(
        (e.left, e.top, e.top_left, e.bottom_left, e.gradient),
        (F32(36.0), F32(0.0), F32(36.0), F32(36.0), F32(0.0))
    );
    assert_eq!(gradient_energy(&ramp, 8), F32(56.0));
    let m = block_measures(&weights(), &ramp);
    assert_eq!((m.variance, m.energy_1x, m.energy_2x), (F32(5.25), F32(56.0), F32(48.0)));
    // All of the ramp's energy is along one direction, below the diagonal.
    assert!(m.mid.0 > 0.0 && m.high.0.abs() < 1e-9);
    let flat = block_measures(&weights(), &grid(8, 8, |_, _| 1.0));
    assert!(flat.mid.0.abs() < 1e-9 && flat.high.0.abs() < 1e-9);
}

#[test]
fn splines_are_approximated_closely() {
    for i in 0..200 {
        let x = i as f32 * 0.1;
        assert!((fast_cos(F32(x)).0 - x.cos()).abs() < 2e-4, "cos({x})");
    }
    for (x, want) in [(0.5, 0.5204999), (1.0, 0.8427008), (2.0, 0.9953223)] {
        assert!((erf(F32(x)).0 - want).abs() < 1e-3);
        assert!((erf(F32(-x)).0 + want).abs() < 1e-3);
    }
    let mut dct = [[F32(0.0); 4]; 32];
    dct[0] = [1.0, 2.0, 3.0, 4.0].map(F32);
    dct[1][0] = F32(1.0);
    let v = continuous_idct(&dct, F32(15.5));
    assert!((v[0].0 - 1.0).abs() < 1e-3 && (v[1].0 - 2.0).abs() < 1e-3);
}

#[test]
fn curves_are_as_near_as_their_nearest_segment() {
    let segment = |x: f32, y: f32, dx: f32, dy: f32| Segment {
        x: F32(x),
        y: F32(y),
        dx: F32(dx),
        dy: F32(dy),
        len2: F32(dx * dx + dy * dy),
    };
    let curve = [segment(0.0, 0.0, 10.0, 0.0), segment(10.0, 0.0, 0.0, 10.0)];
    assert_eq!(spline_distance(F32(5.0), F32(3.0), &curve), F32(9.0));
    assert_eq!(spline_distance(F32(13.0), F32(4.0), &curve), F32(9.0));
    assert_eq!(spline_distance(F32(-3.0), F32(-4.0), &curve), F32(25.0));
    assert_eq!(spline_distance(F32(3.0), F32(4.0), &[segment(0.0, 0.0, 0.0, 0.0)]), F32(25.0));
    assert_eq!(spline_distance(F32(0.0), F32(0.0), &[]), F32(f32::INFINITY));
}

#[test]
fn ridges_replace_weaker_ones() {
    let none = Ridge {
        strength: F32(0.0),
        nx: F32(0.0),
        ny: F32(0.0),
        scale: F32(0.0),
        polarity: 0,
        offset: F32(0.0),
    };
    let lim = RidgeLimits { along_penalty: F32(1.0), max_offset: F32(0.5) };
    let valley = Derivatives {
        hxx: F32(2.0),
        hyy: F32(0.5),
        hxy: F32(0.0),
        gx: F32(0.4),
        gy: F32(0.0),
    };
    let slope = Derivatives { gx: F32(50.0), ..valley };
    let mut row = vec![none, none];
    spline_ridge_row(F32(1.0), &[valley, slope], &mut row, &lim);
    assert_eq!(row[0].strength, F32(1.5));
    assert_eq!((row[0].nx.0.abs(), row[0].ny), (1.0, F32(0.0)));
    assert_eq!((row[0].polarity, row[0].scale), (-1, F32(1.0)));
    assert!((row[0].offset.0.abs() - 0.2).abs() < 1e-6);
    assert_eq!(row[1].strength, F32(0.0));
    // The same again is not stronger, so nothing changes.
    let before = row[0].scale;
    spline_ridge_row(F32(0.5), &[valley, slope], &mut row, &lim);
    assert_eq!(row[0].scale, before);
}

#[test]
fn dots_are_drawn_around_their_place() {
    let dot = Sample { x: F32(3.0), inv_sigma: F32(1.0), color: [1.0, 2.0, 0.0].map(F32) };
    let (mut rx, mut ry, mut rb) = (lift(&[0.0; 7]), lift(&[0.5; 7]), lift(&[0.0; 7]));
    spline_render_row(&dot, F32(0.0), 0, &mut rx, &mut ry, &mut rb, F32(1.0));
    assert!(rx[3].0 > rx[2].0 && rx[2].0 > rx[1].0);
    assert_eq!((rx[2], rb[3]), (rx[4], F32(0.0)));
    assert!((ry[3].0 - 0.5 - 2.0 * rx[3].0).abs() < 1e-6);
}

#[test]
fn groups_cost_the_entropy_of_their_symbols() {
    let mut stats = PlanStats::new();
    let tokens: Vec<PlanToken> = (0..32)
        .map(|i| PlanToken { context: 0, symbol: (i / 4) % 2, extra_bits: 1 })
        .collect();
    stats.add_stream(&tokens);
    // Every fourth token counts: eight of them, half of each symbol.
    assert_eq!(group_cost::<F32>(&stats, &[0]), F32(16.0));
    assert_eq!(group_cost::<F32>(&stats, &[1]), F32(0.0));
    // Raw bits count in whichever slot their token fell: here the second bucket.
    let mut other = PlanStats::new();
    other.add_stream(&[PlanToken { context: 30, symbol: 3, extra_bits: 5 }]);
    assert_eq!(group_cost::<F32>(&other, &[0]), F32(5.0));
    assert_eq!(group_cost::<F32>(&other, &[0, 1]), F32(5.0));
    // Only every fourth token is looked at.
    let far = PlanToken { context: 60_000, symbol: 60_000, extra_bits: 9 };
    other.add_stream(&[PlanToken { context: 30, symbol: 3, extra_bits: 5 }, far, far, far]);
    assert_eq!(group_cost::<F32>(&other, &[0]), F32(10.0));
    let plan = plan_from_stats::<F32>(&PlanStats::new(), 5);
    assert_eq!(plan.num_ac_contexts(), jixel::context_plan::AcCtxPlan::baseline().num_ac_contexts());
}

#[test]
fn costs_weigh_distortion_and_rate() {
    assert_eq!(step_table(STRATEGY_DCT), StepTable::Dct8);
    assert_eq!(step_table(STRATEGY_DCT16X8), StepTable::Dct16x8);
    assert_eq!(step_table(STRATEGY_DCT8X16), StepTable::Dct16x8);
    assert_eq!(step_table(STRATEGY_DCT64X64), StepTable::Dct64x64);
    assert_eq!(plane_multiplier(0, F32(2.0), F32(3.0)), F32(2.0));
    assert_eq!(plane_multiplier(1, F32(2.0), F32(3.0)), F32(1.0));
    assert_eq!(plane_multiplier(2, F32(2.0), F32(3.0)), F32(3.0));
    let costs = [1.0, 2.0, 3.0].map(|d| PlaneCost { distortion: F32(d), rate: F32(10.0) });
    let weights = [1.0, 2.0, 0.5].map(F32);
    let total = dist_and_rate(&costs, &weights);
    assert_eq!((total.distortion, total.rate), (F32(6.5), F32(30.0)));
    let lambda = knob::<F32>(RD_LAMBDA).0;
    let cost = strategy_cost(DistortionModel::Coefficient, &costs, &weights, F32(1.0), F32(4.0));
    assert!((cost.0 - (6.5 + lambda * 34.0)).abs() < 1e-5);
    let large = strategy_cost64(&costs, &weights, F32(4.0));
    assert!((large.0 - cost.0).abs() < 1e-5);
}

#[test]
fn quantizer_cache_excludes_rerank_only_gradient_penalties() {
    let distance = F32(2.5);
    let meta = knob::<F32>(RERANK_META_R);
    let mut saw_penalty = false;
    for (w, h) in [(8usize, 8usize), (8, 16), (16, 8)] {
        let errors: Vec<Vec<F32>> = (0..h)
            .map(|y| (0..w).map(|x| F32(0.2 * ((x * 13 + y * 19) as f32).sin())).collect())
            .collect();
        let energy = error_gradient_energy(&errors, w, h);
        let total = PlaneCost {
            distortion: errors.iter().flatten().fold(F32(0.0), |sum, e| e.fused(*e, sum)),
            rate: F32(40.0),
        };
        let score = |alpha: f32, peak_alpha: f32, metadata: F32| {
            let penalty = GradientPenalty {
                alpha: F32(alpha),
                peak_alpha: F32(peak_alpha),
                energy,
                peak: energy.times(F32(0.5)),
            };
            reconstruction_cost_and_base(&total, &penalty, distance, metadata)
        };
        let (cost, base) = score(0.0, 0.0, meta);
        let fresh = score(0.0, 0.0, F32(0.0));
        assert_eq!(base, Some(fresh.0));
        assert!(cost.0 > fresh.0 .0);
        for (alpha, peak) in [(32.0, 0.0), (0.0, 32.0), (32.0, 32.0)] {
            let (cost2, base2) = score(alpha, peak, meta);
            assert!(cost2.0 >= cost.0);
            saw_penalty |= cost2.0 > cost.0;
            assert!(
                base2.is_none(),
                "penalized incumbent must be rescored under refinement's objective"
            );
        }
    }
    assert!(saw_penalty, "fixture must exercise an actual cost mismatch");
}
