use jixel::acceptance::accept_band;
use jixel::amount::Amount;
use jixel::bands::{fill_selection_bands, selection_sites};
use jixel::cost::{
    prepare_strategy_coeffs, reconstruction_cost_and_base, strategy_cost, FineBlocks,
    GradientPenalty, PlaneCost,
};
use jixel::cost_map::CostMap;
use jixel::fill::{
    collect_leaf_gains, gather_bands, list_sub8_targets, plan_stages, surviving_benefit, take_sub8,
    Stage,
};
use jixel::filling::Filling;
use jixel::forward::gather_pixels;
use jixel::leaf_first::{choose_leaf, refine_leaves, select_band_leaf_first, LeafChoice};
use jixel::matrix::MatrixHeaderCost;
use jixel::matrix_sites::{
    account_matrix_headers, matrix_candidates, table_users, MatrixScores, SlotTable,
};
use jixel::mosaic::{ReconCost, RerankParams, Seam};
use jixel::opsin::Image3;
use jixel::pass64::{assemble_chosen32, list_sites64, merge_64, Costs64};
use jixel::quant_field::{adjust_quant_field, region_qac, QuantField};
use jixel::quant_refine::{
    find_quant_refinements, list_quant_trials, quant_refinement_steps, refine_quant_field,
    refinement_sites, RefineScores,
};
use jixel::recon::{
    combine_error, error_gradient_energy, recon_quantize, recon_rate, sse_and_rate, QuantShape,
};
use jixel::rerank::{list_candidates, SiteScores};
use jixel::rerank_band::{
    find_rerank_downgrades, find_saved, rerank_large_transforms, rerank_sites, FineMergeRollback,
    RerankOutput,
};
use jixel::scope::{SearchScope, SelectorPolicy, Speed};
use jixel::selection::{
    refine_sub8_band, select_band, BandOutput, SelectionParams, SiteCosts,
};
use jixel::strategy::{
    covered_blocks_x_of, covered_blocks_y_of, NO_CHILD_BLOCK, STRATEGY_AFV0, STRATEGY_DCT,
    STRATEGY_DCT16X16, STRATEGY_DCT16X32, STRATEGY_DCT16X8, STRATEGY_DCT2X2, STRATEGY_DCT32X16,
    STRATEGY_DCT32X32, STRATEGY_DCT32X64, STRATEGY_DCT4X4, STRATEGY_DCT4X8, STRATEGY_DCT64X32,
    STRATEGY_DCT64X64, STRATEGY_DCT8X16, STRATEGY_DCT8X4, STRATEGY_IDENTITY,
};
use jixel::strategy_map::{AcStrategyImage, Placement};
use jixel::sub8::{
    evaluate_sub8_candidate, sub8_shortlist, sub8_strategy_costs, FineCharge, Sub8Costs,
};
use jixel::super_block::{MergeTuning, SuperBlockCosts};
use jixel::transform::DctWeights;
use jixel::tuning::{banded, knob, DistortionModel, BIAS_AFV, META_R, SUB8_MAX_DISTANCE};
use jixel::upgrade::{
    find_merge_upgrades, footprint_blocks, rerank_upgrade_merges, upgrade_sites, UpgradeScores,
};
use std::cell::RefCell;
use std::collections::{BTreeMap, HashMap};
use std::rc::Rc;

#[derive(Clone, Copy, Debug, PartialEq)]
struct F32(f32);

impl Amount for F32 {
    fn zero() -> Self {
        F32(0.0)
    }
    fn infinite() -> Self {
        F32(f32::INFINITY)
    }
    fn ratio(n: i64, d: u64) -> Self {
        F32((n as f64 / d as f64) as f32)
    }
    fn plus(self, other: Self) -> Self {
        F32(self.0 + other.0)
    }
    fn minus(self, other: Self) -> Self {
        F32(self.0 - other.0)
    }
    fn times(self, factor: Self) -> Self {
        F32(self.0 * factor.0)
    }
    fn fused(self, factor: Self, addend: Self) -> Self {
        F32(self.0.mul_add(factor.0, addend.0))
    }
    fn over(self, factor: Self) -> Self {
        F32(self.0 / factor.0)
    }
    fn lesser(self, other: Self) -> Self {
        F32(self.0.min(other.0))
    }
    fn greater(self, other: Self) -> Self {
        F32(self.0.max(other.0))
    }
    fn less(self, other: Self) -> bool {
        self.0 < other.0
    }
    fn at_most(self, other: Self) -> bool {
        self.0 <= other.0
    }
    fn finite(self) -> bool {
        self.0.is_finite()
    }
    fn root(self) -> Self {
        F32(self.0.sqrt())
    }
    fn exp2(self) -> Self {
        F32(self.0.exp2())
    }
    fn log2(self) -> Self {
        F32(self.0.log2())
    }
    fn exp(self) -> Self {
        F32(self.0.exp())
    }
    fn ln(self) -> Self {
        F32(self.0.ln())
    }
    fn log10(self) -> Self {
        F32(self.0.log10())
    }
    fn byte(self) -> u8 {
        self.0 as u8
    }
    fn nearest(self) -> Self {
        F32(self.0.round_ties_even())
    }
    fn toward_zero(self) -> Self {
        F32(self.0.trunc())
    }
    fn whole(self) -> i32 {
        self.0 as i32
    }
    fn bits(self) -> u32 {
        self.0.to_bits()
    }
    fn from_bits(bits: u32) -> Self {
        F32(f32::from_bits(bits))
    }
}

fn wc(n: usize, i: usize) -> f32 {
    (0.5 / ((i as f64 + 0.5) * std::f64::consts::PI / n as f64).cos()) as f32
}

fn inv_wc(n: usize, i: usize) -> f32 {
    (2.0 * ((i as f64 + 0.5) * std::f64::consts::PI / n as f64).cos()) as f32
}

fn weights() -> DctWeights<F32> {
    DctWeights {
        wc4: std::array::from_fn(|i| F32(wc(4, i))),
        wc8: std::array::from_fn(|i| F32(wc(8, i))),
        wc16: std::array::from_fn(|i| F32(wc(16, i))),
        wc32: std::array::from_fn(|i| F32(wc(32, i))),
        wc64: std::array::from_fn(|i| F32(wc(64, i))),
        inv_wc4: std::array::from_fn(|i| F32(inv_wc(4, i))),
        inv_wc8: std::array::from_fn(|i| F32(inv_wc(8, i))),
        inv_wc16: std::array::from_fn(|i| F32(inv_wc(16, i))),
        inv_wc32: std::array::from_fn(|i| F32(inv_wc(32, i))),
        inv_wc64: std::array::from_fn(|i| F32(inv_wc(64, i))),
        sqrt_2: F32(std::f32::consts::SQRT_2),
        inv_sqrt_2: F32(std::f32::consts::FRAC_1_SQRT_2),
        half: F32(0.5),
    }
}

fn noise_opsin(w: usize, h: usize, seed: u32) -> Image3<F32> {
    let mut opsin = Image3::filled(w, h, F32(0.0));
    let mut state = seed;
    for c in 0..3 {
        for y in 0..h {
            for x in 0..w {
                state = state.wrapping_mul(1_664_525).wrapping_add(1_013_904_223);
                // Smooth-ish gradient plus noise so merges of every size
                // and sub-8 leaves all get selected somewhere.
                let noise = (state >> 8) as f32 / (1u32 << 24) as f32 - 0.5;
                opsin.set(c, x, y, F32(0.05 * noise * ((y / 7) % 3) as f32 + 0.002 * y as f32));
            }
        }
    }
    opsin
}

/// Quantization steps of the same size for all frequencies.
const FLAT_STEP: f32 = 60.0;

type Planes = Rc<(usize, usize, [Vec<F32>; 3])>;

/// A picture with the costs of its transforms.
struct Model {
    w: DctWeights<F32>,
    img: Image3<F32>,
    coeffs: RefCell<HashMap<(u8, usize, usize), Planes>>,
    totals: RefCell<HashMap<(u8, usize, usize, u32), PlaneCost<F32>>>,
}

impl Model {
    fn new(img: Image3<F32>) -> Self {
        Model { w: weights(), img, coeffs: RefCell::default(), totals: RefCell::default() }
    }

    /// The mean of a block, and how its samples differ from it.
    fn fine(&self, strategy: u8, px: usize, py: usize) -> FineBlocks<F32> {
        let plane = |c: usize| {
            let mut g = gather_pixels(&self.img, c, px, py, 8, 8);
            let mean = g.iter().flatten().map(|v| v.0).sum::<f32>() / 64.0;
            let part = if strategy == STRATEGY_IDENTITY { 0.25 } else { 0.2 };
            for v in g.iter_mut().flatten() {
                v.0 = (v.0 - mean) * part;
            }
            g[0][0].0 = mean;
            g
        };
        FineBlocks { x: plane(0), y: plane(1), b: plane(2) }
    }

    fn planes(&self, strategy: u8, px: usize, py: usize) -> Planes {
        if let Some(p) = self.coeffs.borrow().get(&(strategy, px, py)) {
            return p.clone();
        }
        let fine = self.fine(strategy, px, py);
        let zero = F32(0.0);
        let s = prepare_strategy_coeffs(&self.w, strategy, &self.img, px, py, fine, zero, zero);
        let p = Rc::new((s.cx, s.cy, [s.x, s.y, s.b]));
        self.coeffs.borrow_mut().insert((strategy, px, py), p.clone());
        p
    }

    fn total(&self, strategy: u8, px: usize, py: usize, qac: F32) -> [PlaneCost<F32>; 3] {
        let p = self.planes(strategy, px, py);
        let (cx, cy) = (p.0, p.1);
        let shape = QuantShape { width: 8 * cx, height: 8 * cy, half: 4 * cx, cx, cy };
        let inv = vec![F32(FLAT_STEP); 64 * cx * cy];
        let thr = [F32(0.56), F32(0.62), F32(0.62), F32(0.62)];
        [0, 1, 2].map(|c| {
            let (sse, nonzero, bits) = sse_and_rate(&shape, &p.2[c], &inv, qac, &thr);
            let n = nonzero as f32;
            let rate = n * 1.6 + bits.0 + 0.4 * (1.0 + n).log2();
            PlaneCost { distortion: sse, rate: F32(rate) }
        })
    }

    fn summed(&self, strategy: u8, bx: usize, by: usize, qac: F32) -> PlaneCost<F32> {
        let key = (strategy, bx, by, qac.0.to_bits());
        if let Some(t) = self.totals.borrow().get(&key) {
            return *t;
        }
        let t = self.total(strategy, 8 * bx, 8 * by, qac);
        let all = PlaneCost {
            distortion: F32(t[0].distortion.0 + t[1].distortion.0 + t[2].distortion.0),
            rate: F32(t[0].rate.0 + t[1].rate.0 + t[2].rate.0),
        };
        self.totals.borrow_mut().insert(key, all);
        all
    }
}

/// A group of a picture at a distance.
struct Group<'a> {
    model: &'a Model,
    w: usize,
    h: usize,
    field: QuantField,
    distance: F32,
}

fn quantizers(w: usize, h: usize) -> QuantField {
    let mut field = QuantField::new(w, h, 6);
    for y in 0..h {
        for x in 0..w {
            field.set(x, y, 4 + ((x * 3 + y * 5) % 7) as u8);
        }
    }
    field
}

impl Group<'_> {
    fn qac(&self, strategy: u8, bx: usize, by: usize) -> F32 {
        let (cx, cy) = (covered_blocks_x_of(strategy), covered_blocks_y_of(strategy));
        region_qac(&self.field, bx, by, cx, cy, F32(1.0), self.distance)
    }

    fn plane_costs(&self, all: PlaneCost<F32>) -> [PlaneCost<F32>; 3] {
        let none = PlaneCost { distortion: F32(0.0), rate: F32(0.0) };
        [all, none, none]
    }

    fn cost(&self, strategy: u8, bx: usize, by: usize) -> F32 {
        let all = self.model.summed(strategy, bx, by, self.qac(strategy, bx, by));
        strategy_cost(
            DistortionModel::Coefficient,
            &self.plane_costs(all),
            &[F32(1.0); 3],
            self.distance,
            knob(META_R),
        )
    }

    fn recon_at(&self, strategy: u8, bx: usize, by: usize, qac: F32) -> ReconCost<F32> {
        let all = self.model.summed(strategy, bx, by, qac);
        let none = F32(0.0);
        let penalty = GradientPenalty { alpha: none, peak_alpha: none, energy: none, peak: none };
        let (cost, base) =
            reconstruction_cost_and_base(&all, &penalty, self.distance, knob(META_R));
        ReconCost {
            cost,
            base,
            distortion: all.distortion,
            rate: all.rate,
            hue_distortion: none,
        }
    }

    fn recon(&self, strategy: u8, bx: usize, by: usize) -> ReconCost<F32> {
        self.recon_at(strategy, bx, by, self.qac(strategy, bx, by))
    }

    fn sub8(&self, bx: usize, by: usize) -> Sub8Costs<F32> {
        sub8_strategy_costs(
            &Sub8Costs {
                dct8: self.cost(STRATEGY_DCT, bx, by),
                identity: self.cost(STRATEGY_IDENTITY, bx, by),
                dct2x2: self.cost(STRATEGY_DCT2X2, bx, by),
                dct4x4: self.cost(STRATEGY_DCT4X4, bx, by),
                dct4x8: self.cost(STRATEGY_DCT4X8, bx, by),
                dct8x4: self.cost(STRATEGY_DCT8X4, bx, by),
                afv: [0, 1, 2, 3].map(|k| self.cost(STRATEGY_AFV0 + k, bx, by)),
            },
            true,
            true,
        )
    }

    fn in_sub8_band(&self) -> bool {
        self.distance.at_most(knob(SUB8_MAX_DISTANCE))
    }

    fn leaf(&self, bx: usize, by: usize) -> LeafChoice<F32> {
        let dct8 = self.cost(STRATEGY_DCT, bx, by);
        if !self.in_sub8_band() {
            return choose_leaf(dct8, None);
        }
        let bias = banded(&BIAS_AFV, self.distance);
        choose_leaf(dct8, sub8_shortlist(&self.sub8(bx, by), self.distance, bias).structural)
    }

    /// What a block takes below 8x8 when it is left to itself; the fine transforms
    /// alone where its leaf was chosen before.
    fn offer(&self, bx: usize, by: usize, fine_only: bool) -> Option<(u8, F32)> {
        if !self.in_sub8_band() {
            return None;
        }
        let bias = banded(&BIAS_AFV, self.distance);
        let mut list = sub8_shortlist(&self.sub8(bx, by), self.distance, bias);
        if fine_only {
            list.structural = None;
        }
        let charge = FineCharge {
            lambda: F32(0.0808),
            bits: F32(4.0),
            leaf_extra_bits: F32(4.0),
        };
        let fine = list.fine.as_ref().map_or(STRATEGY_IDENTITY, |f| f.strategy);
        let recon = (self.recon(STRATEGY_DCT, bx, by).cost, self.recon(fine, bx, by).cost);
        evaluate_sub8_candidate(&list, &charge, recon)
    }

    fn super_costs(&self, x: usize, y: usize, leaves: &[Vec<LeafChoice<F32>>]) -> SuperBlockCosts<F32> {
        let leaf = |dx: usize, dy: usize| leaves[y + dy][x + dx];
        SuperBlockCosts {
            leaf: [[leaf(0, 0).j, leaf(1, 0).j], [leaf(0, 1).j, leaf(1, 1).j]],
            leaf_raw: [[leaf(0, 0).raw_j, leaf(1, 0).raw_j], [leaf(0, 1).raw_j, leaf(1, 1).raw_j]],
            tall: [self.cost(STRATEGY_DCT16X8, x, y), self.cost(STRATEGY_DCT16X8, x + 1, y)],
            wide: [self.cost(STRATEGY_DCT8X16, x, y), self.cost(STRATEGY_DCT8X16, x, y + 1)],
            square: self.cost(STRATEGY_DCT16X16, x, y),
            accept_16: F32(0.0),
        }
    }

    fn site_costs(&self, band: (usize, usize), leaves: &[Vec<LeafChoice<F32>>]) -> Vec<SiteCosts<F32>> {
        let measured: Vec<SiteCosts<F32>> = selection_sites(self.w, self.h, band.0, band.1)
            .iter()
            .map(|s| {
                let (x, y) = (s.bx, s.by);
                let first = self.super_costs(x, y, leaves);
                if !s.quad {
                    let none = F32(f32::INFINITY);
                    return SiteCosts { supers: [[first; 2]; 2], raw: [none; 5], accept: [none; 5] };
                }
                SiteCosts {
                    supers: [
                        [first, self.super_costs(x + 2, y, leaves)],
                        [self.super_costs(x, y + 2, leaves), self.super_costs(x + 2, y + 2, leaves)],
                    ],
                    raw: [
                        self.cost(STRATEGY_DCT32X32, x, y),
                        self.cost(STRATEGY_DCT32X16, x, y),
                        self.cost(STRATEGY_DCT32X16, x + 2, y),
                        self.cost(STRATEGY_DCT16X32, x, y),
                        self.cost(STRATEGY_DCT16X32, x, y + 2),
                    ],
                    accept: [F32(0.0); 5],
                }
            })
            .collect();
        let t = MergeTuning::new(self.distance);
        accept_band(&measured, &self.field, self.w, self.h, band, F32(1.0), &t)
    }

    fn dct8_leaves(&self) -> Vec<Vec<LeafChoice<F32>>> {
        (0..self.h)
            .map(|y| {
                (0..self.w).map(|x| choose_leaf(self.cost(STRATEGY_DCT, x, y), None)).collect()
            })
            .collect()
    }

    fn leaves(&self) -> Vec<Vec<LeafChoice<F32>>> {
        (0..self.h).map(|y| (0..self.w).map(|x| self.leaf(x, y)).collect()).collect()
    }

    fn offers(&self, band: (usize, usize), fine_only: bool) -> Vec<Vec<Option<(u8, F32)>>> {
        (band.0..band.1)
            .map(|y| (0..self.w).map(|x| self.offer(x, y, fine_only)).collect())
            .collect()
    }

    fn costs64(&self, x: usize, y: usize) -> Costs64<F32> {
        Costs64 {
            square: self.cost(STRATEGY_DCT64X64, x, y),
            tall: [self.cost(STRATEGY_DCT64X32, x, y), self.cost(STRATEGY_DCT64X32, x + 4, y)],
            wide: [self.cost(STRATEGY_DCT32X64, x, y), self.cost(STRATEGY_DCT32X64, x, y + 4)],
        }
    }

    fn site_scores(
        &self,
        map: &AcStrategyImage,
        site: Placement,
        out: &BandOutput<F32>,
        rectangles: bool,
    ) -> SiteScores<F32> {
        let saved = find_saved(&out.saved_children, site.x, site.y);
        SiteScores {
            big: self.recon(site.strategy, site.x, site.y),
            seam: Seam { energy: F32(0.0), peak: F32(0.0) },
            tiles: list_candidates(map, site, &saved, rectangles)
                .iter()
                .map(|t| self.recon(t.strategy, site.x + t.x, site.y + t.y))
                .collect(),
            fine: Vec::new(),
            fine_seams: Vec::new(),
        }
    }

    fn upgrade_scores(&self, map: &AcStrategyImage, site: Placement) -> UpgradeScores<F32> {
        UpgradeScores {
            big: self.recon(site.strategy, site.x, site.y),
            layout: footprint_blocks(map, site)
                .iter()
                .map(|p| self.recon(p.strategy, p.x, p.y).cost)
                .collect(),
        }
    }

    fn refine_scores(&self, field: &QuantField, site: Placement) -> RefineScores<F32> {
        let at = |q: u8| self.recon_at(site.strategy, site.x, site.y, F32(q as f32)).cost;
        let q = field.get(site.x, site.y);
        RefineScores {
            current: at(q),
            trials: list_quant_trials(q, quant_refinement_steps(self.distance)).map(at),
        }
    }
}

const UPGRADE_MIN: f32 = 2.0;

struct Filled {
    map: AcStrategyImage,
    field: QuantField,
    benefit: f32,
    rollbacks: Vec<FineMergeRollback<F32>>,
}

/// Fills a group with the work cut into bands for `threads` workers.
fn fill(g: &Group, speed: Speed, policy: SelectorPolicy, threads: usize) -> Filled {
    let (w, h, d) = (g.w, g.h, g.distance);
    let plan = plan_stages(speed, policy, d, F32(UPGRADE_MIN));
    let rectangles = SearchScope::for_speed(speed).rectangles();
    let p = SelectionParams { rectangles, policy, tuning: MergeTuning::new(d) };
    let mut bands = Vec::new();
    fill_selection_bands(&mut bands, h, threads);
    let mut map = AcStrategyImage::new(w, h);
    let mut field = QuantField::new(w, h, 1);
    for y in 0..h {
        for x in 0..w {
            field.set(x, y, g.field.get(x, y));
        }
    }
    let mut benefit = F32(0.0);
    let (mut images, mut outs, mut kept) = (Vec::new(), Vec::new(), Vec::new());
    let leaves = if plan.leaf_first { g.leaves() } else { g.dct8_leaves() };
    for &(y0, y1) in &bands {
        let costs = g.site_costs((y0, y1), &leaves);
        let mut image = AcStrategyImage::new(w, h);
        let mut out = BandOutput::new();
        let offers = if rectangles {
            g.offers((y0, y1), plan.leaf_first)
        } else {
            vec![vec![None; w]; y1 - y0]
        };
        if plan.leaf_first {
            let mut mine = leaves[y0..y1].to_vec();
            select_band_leaf_first(&mut image, (y0, y1), &p, &costs, &mine, &mut out);
            refine_leaves(&mut image, y0, y1, &offers, &mut mine);
            kept.push(mine);
        } else {
            select_band(&mut image, (y0, y1), &p, &costs, &mut out);
            let gained = refine_sub8_band(&mut image, y0, y1, &offers);
            benefit = benefit.plus(gained);
        }
        images.push(image);
        outs.push(out);
    }
    gather_bands(&mut map, &bands, &images);
    if plan.merge64 {
        let grid = assemble_chosen32(w, h, &outs);
        let scores = list_sites64(w, h, &grid).iter().map(|&(x, y)| g.costs64(x, y)).collect();
        merge_64(&mut map, &grid, &p.tuning, &scores);
    }
    let mut gains = collect_leaf_gains(&kept);
    let mut reranked: Vec<RerankOutput<F32>> = Vec::new();
    let mut costs = CostMap::new(w, h);
    if plan.rerank {
        let rp = RerankParams::new(d, speed, false, F32(1.0), F32(1.0));
        for (&band, out) in bands.iter().zip(&outs) {
            let scores = rerank_sites(&map, band.0, band.1)
                .iter()
                .map(|&site| g.site_scores(&map, site, out, rp.rectangles))
                .collect();
            reranked.push(find_rerank_downgrades(&map, band, &rp, &out.saved_children, &scores));
        }
        costs = rerank_large_transforms(&mut map, &reranked);
    }
    if plan.sub8 {
        let targets = list_sub8_targets(&reranked, w, h);
        let picks =
            targets.iter().map(|&(x, y)| g.offer(x, y, false)).collect();
        benefit =
            take_sub8(&mut map, &mut costs, &mut gains, plan.leaf_first, benefit, &targets, &picks);
    }
    if plan.upgrade {
        let mut ups = Vec::new();
        for (i, &band) in bands.iter().enumerate() {
            let (rollbacks, shortlist) = (&reranked[i].rollbacks, &outs[i].upgrade_candidates);
            let scores = upgrade_sites(&map, band, rollbacks, shortlist)
                .iter()
                .map(|&site| g.upgrade_scores(&map, site))
                .collect();
            ups.extend(find_merge_upgrades(&map, band, rollbacks, shortlist, &scores, F32(1.0)));
        }
        rerank_upgrade_merges(&mut map, &mut costs, &ups);
    }
    let mut rollbacks = Vec::new();
    for out in reranked {
        rollbacks.extend(out.rollbacks);
    }
    if plan.leaf_first {
        benefit = surviving_benefit(&map, &gains, &rollbacks);
    }
    adjust_quant_field(&map, d, &mut field);
    if plan.refine {
        let known = if plan.rerank { Some(&costs) } else { None };
        let mut moves = Vec::new();
        for &band in &bands {
            let scores = refinement_sites(&map, &field, band.0, band.1)
                .iter()
                .map(|&site| g.refine_scores(&field, site))
                .collect();
            moves.extend(find_quant_refinements(&map, &field, d, known, band, &scores));
        }
        refine_quant_field(&mut field, &moves, w, h);
    }
    Filled { map, field, benefit: benefit.0, rollbacks }
}

fn strategy_cells(map: &AcStrategyImage) -> Vec<(usize, usize, u8)> {
    map.first_blocks().iter().map(|p| (p.x, p.y, p.strategy)).collect()
}

/// Every cell belongs to exactly one in-bounds first block.
fn assert_map_valid(map: &AcStrategyImage) {
    let (bw, bh) = (map.xsize(), map.ysize());
    let mut owner = vec![None; bw * bh];
    for p in map.first_blocks() {
        for iy in 0..covered_blocks_y_of(p.strategy) {
            for ix in 0..covered_blocks_x_of(p.strategy) {
                let cell = &mut owner[(p.y + iy) * bw + p.x + ix];
                assert!(cell.is_none(), "cell ({},{}) covered twice", p.x + ix, p.y + iy);
                *cell = Some((p.x, p.y));
            }
        }
    }
    assert!(owner.iter().all(Option::is_some), "uncovered cell");
}

fn noise_model() -> Model {
    Model::new(noise_opsin(13 * 8, 11 * 8, 0x9e37_79b9))
}

fn noise_group(model: &Model, distance: f32) -> Group<'_> {
    Group { model, w: 13, h: 11, field: quantizers(13, 11), distance: F32(distance) }
}

#[test]
fn fast_scope_selects_squares_and_no_other_merge_shape() {
    let model = Model::new(Image3::filled(32, 32, F32(0.0)));
    let g = Group {
        model: &model,
        w: 4,
        h: 4,
        field: QuantField::new(4, 4, 8),
        distance: F32(3.0),
    };
    let strategies = fill(&g, Speed::Fast, SelectorPolicy::default(), 1).map;
    assert_eq!(strategies.raw_strategy(0, 0), STRATEGY_DCT32X32);
    for (_, _, strat) in strategy_cells(&strategies) {
        assert!(
            matches!(strat, STRATEGY_DCT | STRATEGY_DCT16X16 | STRATEGY_DCT32X32),
            "Fast produced a non-square merge: {strat}"
        );
    }
}

#[test]
fn leaf_first_reproduces_legacy_when_every_leaf_is_dct8() {
    let model = noise_model();
    for scope in [SearchScope::Full, SearchScope::Squares] {
        let g = noise_group(&model, 5.5);
        let (bw, bh) = (13usize, 11usize);
        let p = SelectionParams {
            rectangles: scope.rectangles(),
            policy: SelectorPolicy::default(),
            tuning: MergeTuning::new(g.distance),
        };
        let leaves = g.leaves();
        let costs = g.site_costs((0, bh), &leaves);
        let mut legacy_map = AcStrategyImage::new(bw, bh);
        let mut legacy = BandOutput::new();
        select_band(&mut legacy_map, (0, bh), &p, &costs, &mut legacy);
        let mut leaf_map = AcStrategyImage::new(bw, bh);
        let mut leaf = BandOutput::new();
        select_band_leaf_first(&mut leaf_map, (0, bh), &p, &costs, &leaves, &mut leaf);
        assert_eq!(strategy_cells(&legacy_map), strategy_cells(&leaf_map), "{scope:?}");
        assert!(strategy_cells(&leaf_map).len() < bw * bh, "{scope:?}: something merges");
        let costs = |o: &BandOutput<F32>| {
            o.chosen32.iter().map(|c| (c.bx, c.by, c.cost.0.to_bits())).collect::<Vec<_>>()
        };
        assert_eq!(costs(&legacy), costs(&leaf), "{scope:?}");
        // The saved child that counts is the last one of a selected merge.
        let effective = |o: &BandOutput<F32>, map: &AcStrategyImage| {
            let mut m = BTreeMap::new();
            for c in &o.saved_children {
                m.insert((c.bx, c.by), c.grid);
            }
            m.retain(|&(bx, by), _| {
                map.is_first_block(bx, by) && map.raw_strategy(bx, by) != STRATEGY_DCT
            });
            m
        };
        assert_eq!(effective(&legacy, &legacy_map), effective(&leaf, &leaf_map), "{scope:?}");
        assert!(leaves.iter().flatten().all(|l| l.strategy == STRATEGY_DCT && l.gain.0 == 0.0));
    }
}

#[test]
fn leaf_first_commits_a_valid_map_with_sub8_leaves() {
    let leaf = SelectorPolicy { leaf_first: true, ..SelectorPolicy::default() };
    let model = noise_model();
    for threads in [1usize, 3] {
        let filled = fill(&noise_group(&model, 1.0), Speed::Slow, leaf, threads);
        assert_map_valid(&filled.map);
        let in_mosaic = |bx: usize, by: usize| {
            filled
                .rollbacks
                .iter()
                .any(|r| bx >= r.bx && bx < r.bx + r.cov_x && by >= r.by && by < r.by + r.cov_y)
        };
        let cells = strategy_cells(&filled.map);
        let gated = cells
            .iter()
            .filter(|&&(bx, by, s)| {
                matches!(s, STRATEGY_IDENTITY | STRATEGY_DCT2X2) && !in_mosaic(bx, by)
            })
            .count();
        assert!(filled.benefit.is_finite());
        assert!(gated == 0 || filled.benefit > 0.0, "fine leaves survived without credit");
        assert!(gated > 0 || filled.benefit == 0.0, "credit without fine leaves");
    }
}

#[test]
fn merge_upgrade_keeps_the_map_valid() {
    let model = noise_model();
    for leaf_first in [false, true] {
        let policy =
            SelectorPolicy { leaf_first, merge_upgrade: true, ..SelectorPolicy::default() };
        for distance in [1.5f32, 2.0, 3.0, 6.0] {
            let filled = fill(&noise_group(&model, distance), Speed::Slow, policy, 3);
            assert_map_valid(&filled.map);
        }
    }
}

#[test]
fn selection_is_independent_of_worker_count() {
    let model = noise_model();
    let mut seen = BTreeMap::new();
    for speed in [Speed::Fast, Speed::Slow] {
        for distance in [0.5, 1.5, 2.0, 4.0, 6.0] {
            for raw_propagation in [false, true] {
                let policy = SelectorPolicy { raw_propagation, ..Default::default() };
                let g = noise_group(&model, distance);
                let serial = fill(&g, speed, policy, 1);
                let parallel = fill(&g, speed, policy, 3);
                assert_eq!(
                    strategy_cells(&serial.map),
                    strategy_cells(&parallel.map),
                    "{speed:?} d{distance} raw={raw_propagation}"
                );
                assert_map_valid(&parallel.map);
                for (_, _, s) in strategy_cells(&parallel.map) {
                    *seen.entry(s).or_insert(0usize) += 1;
                }
                for y in 0..11 {
                    for x in 0..13 {
                        assert_eq!(serial.field.get(x, y), parallel.field.get(x, y));
                    }
                }
            }
        }
    }
    assert!(seen.len() > 4 && seen.contains_key(&STRATEGY_DCT16X16), "{seen:?}");
}

#[test]
fn a_group_filled_at_once_is_one_filled_in_bands() {
    let model = noise_model();
    for (speed, distance) in
        [(Speed::Fast, 1.0), (Speed::Slow, 1.0), (Speed::Slow, 2.0), (Speed::Slow, 4.0)]
    {
        let g = noise_group(&model, distance);
        let policy = SelectorPolicy::default();
        let (d, rectangles) = (g.distance, SearchScope::for_speed(speed).rectangles());
        let p = SelectionParams { rectangles, policy, tuning: MergeTuning::new(d) };
        let rp = RerankParams::new(d, speed, false, F32(1.0), F32(1.0));
        let mut f =
            Filling::new(13, 11, quantizers(13, 11), speed, policy, d, F32(UPGRADE_MIN));
        while f.stage != Stage::Done {
            match f.stage {
                Stage::Select => {
                    let leaves = if f.plan.leaf_first { g.leaves() } else { g.dct8_leaves() };
                    let costs = g.site_costs((0, 11), &leaves);
                    let offers = if rectangles {
                        g.offers((0, 11), f.plan.leaf_first)
                    } else {
                        vec![vec![None; 13]; 11]
                    };
                    if f.plan.leaf_first {
                        f.select_leaf_first(&p, &costs, leaves, &offers);
                    } else {
                        f.select(&p, &costs, &offers);
                    }
                }
                Stage::Merge64 => {
                    let grid = assemble_chosen32(13, 11, &f.selected);
                    let sites = list_sites64(13, 11, &grid);
                    f.merge64(&p.tuning, &sites.iter().map(|&(x, y)| g.costs64(x, y)).collect());
                }
                Stage::Rerank => {
                    let scores = rerank_sites(&f.map, 0, 11)
                        .iter()
                        .map(|&s| g.site_scores(&f.map, s, &f.selected[0], rp.rectangles))
                        .collect();
                    f.rerank(&rp, &scores);
                }
                Stage::Sub8 => {
                    let picks = list_sub8_targets(&f.reranked, 13, 11)
                        .iter()
                        .map(|&(x, y)| g.offer(x, y, false))
                        .collect();
                    f.sub8(&picks);
                }
                Stage::Upgrade => {
                    let shortlist = &f.selected[0].upgrade_candidates;
                    let scores = upgrade_sites(&f.map, (0, 11), &f.reranked[0].rollbacks, shortlist)
                        .iter()
                        .map(|&site| g.upgrade_scores(&f.map, site))
                        .collect();
                    f.upgrade(&scores, F32(1.0));
                }
                Stage::Settle => f.settle(),
                Stage::Refine => {
                    let scores = refinement_sites(&f.map, &f.field, 0, 11)
                        .iter()
                        .map(|&site| g.refine_scores(&f.field, site))
                        .collect();
                    f.refine(&scores);
                }
                Stage::Done => {}
            }
        }
        let parallel = fill(&g, speed, policy, 3);
        assert_eq!(strategy_cells(&f.map), strategy_cells(&parallel.map), "{speed:?} d{distance}");
        for y in 0..11 {
            for x in 0..13 {
                assert_eq!(f.field.get(x, y), parallel.field.get(x, y));
            }
        }
    }
}

#[test]
fn merge_upgrade_is_gated_and_knife_edge() {
    let policy = SelectorPolicy::default();
    assert!(policy.merge_upgrade);
    // The stage runs from its least distance on, and only where it is switched on.
    let planned = |policy, distance: f32| {
        plan_stages(Speed::Slow, policy, F32(distance), F32(UPGRADE_MIN)).upgrade
    };
    assert!(!planned(policy, 1.99) && planned(policy, 2.0) && planned(policy, 6.0));
    assert!(!planned(SelectorPolicy { merge_upgrade: false, ..policy }, 3.0));
    // At a margin of one a merge has to cost less than what it replaces.
    let map = AcStrategyImage::new(2, 2);
    let shortlist = vec![Placement { x: 0, y: 0, strategy: STRATEGY_DCT16X16 }];
    let found = |cost: f32, margin: f32| {
        let big = ReconCost {
            cost: F32(cost),
            base: Some(F32(cost)),
            distortion: F32(cost),
            rate: F32(0.0),
            hue_distortion: F32(0.0),
        };
        let scores = vec![UpgradeScores { big, layout: vec![F32(10.0); 4] }];
        find_merge_upgrades(&map, (0, 2), &Vec::new(), &shortlist, &scores, F32(margin)).len()
    };
    assert_eq!((found(39.9, 1.0), found(40.0, 1.0)), (1, 0));
    assert_eq!((found(43.9, 1.1), found(44.1, 1.1)), (1, 0));
    assert_eq!((found(35.9, 0.9), found(39.9, 0.9)), (1, 0));
}

#[test]
fn leaf_first_saved_children_match_their_transform_footprints() {
    for pattern in [0u32, 1, 2] {
        let (bw, bh) = (12usize, 12usize);
        let mut opsin = noise_opsin(bw * 8, bh * 8, 0x1234_abcd);
        // A ramp in one direction, so that wide and tall rectangles win somewhere.
        if pattern != 0 {
            for c in 0..3 {
                for y in 0..bh * 8 {
                    for x in 0..bw * 8 {
                        let t = if pattern == 1 { y } else { x } as f32;
                        let v = 0.2 * opsin.get(c, x, y).0 + 0.02 * (t * 0.35).sin();
                        opsin.set(c, x, y, F32(v));
                    }
                }
            }
        }
        let model = Model::new(opsin);
        let distances: &[f32] = if pattern == 0 { &[1.0, 2.5, 4.0, 6.0] } else { &[2.5, 4.0] };
        for &distance in distances {
            let g = Group {
                model: &model,
                w: bw,
                h: bh,
                field: QuantField::new(bw, bh, 5),
                distance: F32(distance),
            };
            let p = SelectionParams {
                rectangles: true,
                policy: SelectorPolicy { leaf_first: true, ..SelectorPolicy::default() },
                tuning: MergeTuning::new(g.distance),
            };
            let leaves = g.leaves();
            let costs = g.site_costs((0, bh), &leaves);
            let mut map = AcStrategyImage::new(bw, bh);
            let mut band = BandOutput::new();
            select_band_leaf_first(&mut map, (0, bh), &p, &costs, &leaves, &mut band);
            for child in &band.saved_children {
                let (bx, by) = (child.bx, child.by);
                assert!(map.is_first_block(bx, by), "saved child at a covered cell");
                let s = map.raw_strategy(bx, by);
                let (cx, cy) = (covered_blocks_x_of(s), covered_blocks_y_of(s));
                assert!(cx * cy > 1, "saved child under a single block");
                for iy in 0..4 {
                    for ix in 0..4 {
                        let g = child.grid[iy * 4 + ix];
                        assert!(
                            g == NO_CHILD_BLOCK || (ix < cx && iy < cy),
                            "child grid cell ({ix},{iy}) outside a {cx}x{cy} footprint at ({bx},{by})"
                        );
                    }
                }
            }
        }
    }
}

#[test]
fn bundled_sub8_costs_match_independent_evaluation_and_cached_dct8() {
    let mut opsin = Image3::filled(11, 13, F32(0.0));
    let mut state = 0x1234_5678u32;
    for c in 0..3 {
        for y in 0..13 {
            for x in 0..11 {
                state = state.wrapping_mul(1_664_525).wrapping_add(1_013_904_223);
                opsin.set(c, x, y, F32((state >> 8) as f32 / (1u32 << 24) as f32 - 0.5));
            }
        }
    }
    let model = Model::new(opsin);
    let (px, py) = (7usize, 9usize); // exercise right and bottom replication
    let (qac, qm_mult_x, meta_r, distance) = (3.75f32, 1.25f32, F32(0.4), F32(1.5));
    let (factor_x, factor_b) = (F32(0.25), F32(-0.375));
    let shape = QuantShape { width: 8, height: 8, half: 4, cx: 1, cy: 1 };
    let thr = [F32(0.56), F32(0.62), F32(0.62), F32(0.62)];
    let inv = vec![F32(1.0); 64];
    let evaluate = |strategy: u8| {
        let fine = model.fine(strategy, px, py);
        let s = prepare_strategy_coeffs(
            &model.w, strategy, &model.img, px, py, fine, factor_x, factor_b,
        );
        let plane = |c: &[F32], scale: f32| {
            let (sse, nonzero, bits) = sse_and_rate(&shape, c, &inv, F32(scale), &thr);
            let n = nonzero as f32;
            PlaneCost { distortion: sse, rate: F32(n * 1.6 + bits.0 + 0.4 * (1.0 + n).log2()) }
        };
        let costs = [plane(&s.x, qac * qm_mult_x), plane(&s.y, qac), plane(&s.b, qac)];
        strategy_cost(DistortionModel::Coefficient, &costs, &[F32(1.0); 3], distance, meta_r)
    };
    let independent = [
        evaluate(STRATEGY_DCT),
        evaluate(STRATEGY_IDENTITY),
        evaluate(STRATEGY_DCT2X2),
        evaluate(STRATEGY_DCT4X4),
        evaluate(STRATEGY_DCT4X8),
        evaluate(STRATEGY_DCT8X4),
    ];
    for cached in [None, Some(independent[0])] {
        let bundled = sub8_strategy_costs(
            &Sub8Costs {
                dct8: cached.unwrap_or_else(|| evaluate(STRATEGY_DCT)),
                identity: evaluate(STRATEGY_IDENTITY),
                dct2x2: evaluate(STRATEGY_DCT2X2),
                dct4x4: evaluate(STRATEGY_DCT4X4),
                dct4x8: evaluate(STRATEGY_DCT4X8),
                dct8x4: evaluate(STRATEGY_DCT8X4),
                afv: [0, 1, 2, 3].map(|k| evaluate(STRATEGY_AFV0 + k)),
            },
            true,
            true,
        );
        let actual = [
            bundled.dct8,
            bundled.identity,
            bundled.dct2x2,
            bundled.dct4x4,
            bundled.dct4x8,
            bundled.dct8x4,
        ];
        for (a, b) in actual.into_iter().zip(independent) {
            assert_eq!(a.0.to_bits(), b.0.to_bits());
        }
    }
}

#[test]
fn recon_avx2_matches_scalar_for_all_standard_transforms() {
    let mut coeffs = [[0.0f32; 1024]; 3];
    let mut state = 17u32;
    for channel in &mut coeffs {
        for value in channel {
            state = state.wrapping_mul(1_664_525).wrapping_add(1_013_904_223);
            *value = ((state >> 8) as f32 / (1u32 << 24) as f32 - 0.5) * 2.0;
        }
    }
    let steps = [1.0f32, 0.9, 1.1];
    let scales = [7.0f32 * 1.2, 7.0, 7.0];
    let thr = [0.56f32, 0.62, 0.62, 0.62];
    let scan: Vec<u32> = (0..1024).collect();
    for (strategy, cx, cy) in [
        (STRATEGY_DCT, 1usize, 1usize),
        (STRATEGY_DCT8X16, 2, 1),
        (STRATEGY_DCT16X8, 2, 1),
        (STRATEGY_DCT16X16, 2, 2),
        (STRATEGY_DCT16X32, 4, 2),
        (STRATEGY_DCT32X16, 4, 2),
        (STRATEGY_DCT32X32, 4, 4),
    ] {
        let (width, height) = (8 * cx, 8 * cy);
        let n = width * height;
        let shape = QuantShape { width, height, half: width / 2, cx, cy };
        let mut errors: Vec<Vec<F32>> = Vec::new();
        for c in 0..3 {
            let coeff: Vec<F32> = coeffs[c][..n].iter().map(|&v| F32(v)).collect();
            let inv = vec![F32(steps[c]); n];
            let q = recon_quantize(&shape, &coeff, &inv, F32(scales[c]), &thr.map(F32), &scan);
            // The same, coefficient by coefficient.
            let (mut nonzero, mut bits, mut last) = (0usize, 0.0f32, 0u32);
            for i in 0..n {
                let (x, y) = (i % width, i / width);
                let d = steps[c] * scales[c];
                let scaled = d * coeffs[c][i];
                let high = (y >= height / 2) as usize * 2 + (x >= width / 2) as usize;
                let level =
                    if scaled.abs() >= thr[high] { scaled.round_ties_even() } else { 0.0 };
                let low = x < cx && y < cy;
                let error = if low { 0.0 } else { (scaled - level) / d };
                assert!((q.errors[i].0 - error).abs() <= 1e-6, "strategy {strategy} at {i}");
                if !low && level != 0.0 {
                    nonzero += 1;
                    bits += (1.0 + level.abs()).log2();
                    last = last.max(i as u32);
                }
            }
            assert_eq!((q.nonzero, q.max_scan), (nonzero, last));
            let rate = recon_rate(&q, F32(0.0)).0;
            let count = nonzero as f32;
            let want = count * 1.6 + bits + 0.4 * (1.0 + count).log2();
            let rate_tolerance = 2e-4f32.max(want.abs() * 3e-6);
            assert!((rate - want).abs() <= rate_tolerance, "strategy {strategy}: {rate} {want}");
            errors.push(q.errors);
        }
        let mut energy = 0.0f32;
        for (c, factor) in [(0usize, 0.15f32), (2, -0.1)] {
            let combined = combine_error(&errors[c], &errors[1], F32(factor));
            for i in 0..n {
                let want = errors[c][i].0 + factor * errors[1][i].0;
                assert!((combined[i].0 - want).abs() <= 1e-6);
            }
            let grid: Vec<Vec<F32>> = combined.chunks(width).map(|r| r.to_vec()).collect();
            let got = error_gradient_energy(&grid, width, height).0;
            let mut want = 0.0f32;
            for y in 0..height {
                for x in 0..width {
                    if x + 1 < width {
                        want += (grid[y][x + 1].0 - grid[y][x].0).powi(2);
                    }
                    if y + 1 < height {
                        want += (grid[y + 1][x].0 - grid[y][x].0).powi(2);
                    }
                }
            }
            let tolerance = 5e-4f32.max(want.abs() * 3e-5);
            assert!((got - want).abs() <= tolerance, "strategy {strategy}: {got} {want}");
            energy += got;
        }
        assert!(energy > 0.0);
    }
}

#[test]
fn matrix_pruning_covers_multiple_dc_groups_and_preserves_quantizers() {
    let mut slots = [None; 21];
    slots[STRATEGY_DCT as usize] = Some(0);
    slots[STRATEGY_DCT32X16 as usize] = Some(4);
    slots[STRATEGY_DCT16X32 as usize] = Some(4);
    let t = SlotTable { slots };
    let header = MatrixHeaderCost { payload: [0, 0, 0, 0, 388, 0, 0, 0, 0] };
    // Constant planes make the redundant transform families cost metadata but
    // no quality. The second group lies at its real origin.
    let model = Model::new(Image3::filled(2048 + 64, 64, F32(0.0)));
    let origins = [0usize, 2048];
    let lambda = 0.08086717f32;
    let run = || {
        let fields = [QuantField::new(8, 8, 17), QuantField::new(8, 8, 17)];
        let mut maps: Vec<AcStrategyImage> = (0..2).map(|_| AcStrategyImage::new(8, 8)).collect();
        for map in &mut maps {
            map.set_first(0, 0, STRATEGY_DCT32X16);
            map.set_first(4, 0, STRATEGY_DCT16X32);
        }
        let bits = |dc: usize, strategy: u8, x: usize, y: usize| {
            let t = model.total(strategy, origins[dc] + 8 * x, 8 * y, F32(17.0));
            let j = strategy_cost(
                DistortionModel::Coefficient,
                &t,
                &[F32(1.0); 3],
                F32(3.0),
                knob(META_R),
            );
            F32(j.0 / lambda)
        };
        let scores: Vec<Vec<MatrixScores<F32>>> = (1..9u8)
            .map(|slot| {
                table_users(&t, header.custom_mask(), slot, &maps)
                    .iter()
                    .map(|site| {
                        let (w, h) = (
                            covered_blocks_x_of(site.strategy),
                            covered_blocks_y_of(site.strategy),
                        );
                        let tiled = |s: u8| {
                            let (cx, cy) = (covered_blocks_x_of(s), covered_blocks_y_of(s));
                            let mut out = Vec::new();
                            for y in (0..h).step_by(cy) {
                                for x in (0..w).step_by(cx) {
                                    out.push(bits(site.dc, s, site.bx + x, site.by + y));
                                }
                            }
                            out
                        };
                        MatrixScores {
                            incumbent: bits(site.dc, site.strategy, site.bx, site.by),
                            candidates: matrix_candidates(site.strategy, true)
                                .iter()
                                .map(|&s| tiled(s))
                                .collect(),
                        }
                    })
                    .collect()
            })
            .collect();
        account_matrix_headers(&mut maps, &header, &t, false, true, &scores);
        let mut cells = Vec::new();
        for (map, field) in maps.iter().zip(&fields) {
            let mut covered = [0; 64];
            for (x, y, s) in strategy_cells(map) {
                assert!(map.can_place_strategy(x, y, s));
                assert_ne!(t.slot_of(s), Some(4));
                for dy in 0..covered_blocks_y_of(s) {
                    for dx in 0..covered_blocks_x_of(s) {
                        covered[(y + dy) * 8 + x + dx] += 1;
                    }
                }
                cells.push((x, y, s));
            }
            assert_eq!(covered, [1; 64]);
            for y in 0..8 {
                for x in 0..8 {
                    assert_eq!(field.get(x, y), 17);
                }
            }
        }
        cells
    };
    assert_eq!(run(), run());
}
