use jixel::amount::Amount;
use jixel::forward::{cfl_ratios, cmap_factors};
use jixel::matrix::{best_alternative, choose_tables, Alternative, MatrixHeaderCost, MatrixRegion};
use jixel::merge::{choose_merge_partition, choose_upgrade_partition, partition_cost};
use jixel::mosaic::{fine_mosaic_hue_repair_is_safe, ReconCost};
use jixel::opsin::Image3;
use jixel::partition::{best_reconstruction_plan, PartitionTile};
use jixel::quant_field::{aggregate_qac_2x2, aggregate_quant};
use jixel::quant_refine::quant_refinement_steps;
use jixel::region_stats::{
    block_boundary_error_stats, gradient_region_stats, gradient_region_stats_with_chroma,
    mosaic_seam_stats, CellGrid,
};
use jixel::rerank_band::FineMergeRollback;
use jixel::scope::{SearchScope, SelectorPolicy};
use jixel::strategy::{NO_CHILD_BLOCK, STRATEGY_DCT, STRATEGY_DCT16X16};
use jixel::strategy_map::AcStrategyImage;
use jixel::super_block::{merge_beats_dct8, record_upgrade_candidates, MergeTuning};
use jixel::tuning::{
    aq_dampen, banded, knob, merge_margin, rerank_pair_gradient_peak_alpha,
    rerank_pair_gradient_scale, rerank_rgb_hue_alpha, use_dct8_only, AQ_FADE_END, AQ_FADE_START,
    AQ_PEAK, BIAS_16X16, BIAS_4X4, BIAS_4X8, BIAS_AFV, BIAS_RECT32, BILLION,
    DCT8_ONLY_MAX_DISTANCE, FAST_RERANK_MAX_DISTANCE, LEAF_FIRST_MAX_DISTANCE, MERGE_MARGIN_16,
    MERGE_MARGIN_32, MERGE_MARGIN_PAIR, RERANK_DOWNGRADE_MARGIN, RERANK_PAIR_GRADIENT_ALPHA,
    RERANK_PAIR_GRADIENT_FADE, RERANK_PAIR_GRADIENT_MIN_DOMINANCE,
    RERANK_PAIR_GRADIENT_PEAK_ALPHA, RERANK_PAIR_GRADIENT_PEAK_COARSE,
    RERANK_PAIR_GRADIENT_PEAK_COARSE_ALPHA, RERANK_PAIR_GRADIENT_PEAK_FADE, SUB8_MAX_DISTANCE,
};
use jixel::upgrade::{find_merge_upgrades, upgrade_sites, UpgradeScores};

#[derive(Clone, Copy, Debug, PartialEq)]
struct F32(f32);

impl Amount for F32 {
    fn zero() -> Self {
        F32(0.0)
    }
    fn infinite() -> Self {
        F32(f32::INFINITY)
    }
    fn ratio(n: i64, d: u64) -> Self {
        F32((n as f64 / d as f64) as f32)
    }
    fn plus(self, other: Self) -> Self {
        F32(self.0 + other.0)
    }
    fn minus(self, other: Self) -> Self {
        F32(self.0 - other.0)
    }
    fn times(self, factor: Self) -> Self {
        F32(self.0 * factor.0)
    }
    fn fused(self, factor: Self, addend: Self) -> Self {
        F32(self.0.mul_add(factor.0, addend.0))
    }
    fn over(self, factor: Self) -> Self {
        F32(self.0 / factor.0)
    }
    fn lesser(self, other: Self) -> Self {
        F32(self.0.min(other.0))
    }
    fn greater(self, other: Self) -> Self {
        F32(self.0.max(other.0))
    }
    fn less(self, other: Self) -> bool {
        self.0 < other.0
    }
    fn at_most(self, other: Self) -> bool {
        self.0 <= other.0
    }
    fn finite(self) -> bool {
        self.0.is_finite()
    }
    fn root(self) -> Self {
        F32(self.0.sqrt())
    }
    fn exp2(self) -> Self {
        F32(self.0.exp2())
    }
    fn log2(self) -> Self {
        F32(self.0.log2())
    }
    fn exp(self) -> Self {
        F32(self.0.exp())
    }
    fn ln(self) -> Self {
        F32(self.0.ln())
    }
    fn log10(self) -> Self {
        F32(self.0.log10())
    }
    fn byte(self) -> u8 {
        self.0 as u8
    }
    fn nearest(self) -> Self {
        F32(self.0.round_ties_even())
    }
    fn toward_zero(self) -> Self {
        F32(self.0.trunc())
    }
    fn whole(self) -> i32 {
        self.0 as i32
    }
    fn bits(self) -> u32 {
        self.0.to_bits()
    }
    fn from_bits(bits: u32) -> Self {
        F32(f32::from_bits(bits))
    }
}

fn k(n: i64) -> f32 {
    knob::<F32>(n).0
}

fn at(knobs: [i64; 2], distance: f32) -> f32 {
    banded(&knobs, F32(distance)).0
}

fn lift<const N: usize>(v: [f32; N]) -> [F32; N] {
    v.map(F32)
}

fn lift2(v: [[f32; 2]; 2]) -> [[F32; 2]; 2] {
    v.map(lift)
}

#[test]
fn merge_partitions_match_exhaustive_nonoverlapping_subsets() {
    // An independent footprint oracle includes all 32 subsets, rejecting
    // overlaps rather than using the planner's eight-layout table.
    let footprints = [0b1111u8, 0b0101, 0b1010, 0b0011, 0b1100];
    let mut state = 17u32;
    for _ in 0..500 {
        let mut next = || {
            state = state.wrapping_mul(1664525).wrapping_add(1013904223);
            (1 + (state >> 24)) as f32
        };
        let children = [[next(), next()], [next(), next()]];
        let baseline = children.map(|row| row.map(|v| v + next()));
        let merges = [next(), next(), next(), next(), next()];
        let accept = [0.5, 0.6, 0.7, 0.8, 0.9];
        let chosen = choose_merge_partition(
            lift2(children),
            lift2(baseline),
            lift(merges),
            lift(accept),
        );
        let mut optimum: f32 = children.iter().flatten().sum();
        for mask in 1u8..32 {
            let mut occupied = 0;
            let mut cost = 0.0;
            let (mut incumbent, mut limit) = (0.0, 0.0);
            let mut valid = true;
            for k in 0..5 {
                if mask & (1 << k) == 0 {
                    continue;
                }
                let cells = footprints[k];
                let mut child = 0.0;
                let mut base = 0.0;
                for i in 0..4 {
                    if cells & (1 << i) != 0 {
                        child += children[i / 2][i % 2];
                        base += baseline[i / 2][i % 2];
                    }
                }
                valid &= occupied & cells == 0;
                incumbent += child;
                limit += base * accept[k];
                occupied |= cells;
                cost += merges[k];
            }
            valid &= cost < incumbent && cost < limit;
            for i in 0..4 {
                if occupied & (1 << i) == 0 {
                    cost += children[i / 2][i % 2];
                }
            }
            if valid {
                optimum = optimum.min(cost);
            }
        }
        assert_eq!(
            partition_cost(lift2(children), lift(merges), chosen),
            F32(optimum)
        );
    }
}

#[test]
fn rejected_square_does_not_hide_a_single_winning_rectangle() {
    let children = lift2([[25.0; 2]; 2]);
    // The 60-cost square is cheapest but fails its own margin. The left
    // rectangle plus untouched right children costs 65 and passes.
    assert_eq!(
        choose_merge_partition(
            children,
            children,
            lift([60.0, 15.0, 90.0, 80.0, 80.0]),
            lift([0.5, 0.9, 0.9, 0.9, 0.9])
        ),
        2
    );
    assert_eq!(
        partition_cost(children, lift([60.0, 15.0, 90.0, 80.0, 80.0]), 2),
        F32(65.0)
    );
}

#[test]
fn upgrades_compare_both_directions_and_combined_gain() {
    // Square comes first in the shortlist but loses to two verticals.
    assert_eq!(
        choose_upgrade_partition(lift([7.0, 4.0, 4.0, 3.0, 3.0])),
        6
    );
    assert_eq!(
        choose_upgrade_partition(lift([7.0, 4.0, 4.0, 5.0, 5.0])),
        24
    );
    assert_eq!(
        choose_upgrade_partition(lift([11.0, 4.0, 4.0, 5.0, 5.0])),
        1
    );
    assert_eq!(
        choose_upgrade_partition(lift([-1.0, -1.0, 2.0, -1.0, -1.0])),
        4
    );
    assert_eq!(choose_upgrade_partition(lift([f32::NEG_INFINITY; 5])), 0);
    assert_eq!(choose_upgrade_partition(lift([0.0; 5])), 0);
}

#[test]
fn two_rectangles_keep_their_joint_acceptance_margin() {
    let children = lift2([[25.0; 2]; 2]);
    // Right alone fails 50 * 0.7, but both rectangles pass the original
    // joint bound (10 + 40 < 100 * 0.7) and beat left + two leaves.
    assert_eq!(
        choose_merge_partition(
            children,
            children,
            lift([100.0, 10.0, 40.0, 100.0, 100.0]),
            lift([0.7; 5])
        ),
        6
    );
}

fn cover_oracle(
    tiles: &[PartitionTile<F32>],
    masks: &[u16],
    covered: u16,
    full: u16,
    memo: &mut std::collections::HashMap<u16, f32>,
) -> f32 {
    if covered == full {
        return 0.0;
    }
    if let Some(&cost) = memo.get(&covered) {
        return cost;
    }
    let first = 1u16 << (full & !covered).trailing_zeros();
    let mut best = f32::INFINITY;
    for (tile, &mask) in tiles.iter().zip(masks) {
        if mask & first != 0 && mask & covered == 0 {
            best = best.min(tile.cost.0 + cover_oracle(tiles, masks, covered | mask, full, memo));
        }
    }
    memo.insert(covered, best);
    best
}

#[test]
fn reconstruction_planner_matches_every_exact_cover() {
    let mut state = 31u32;
    for (width, height) in [(1, 2), (2, 1), (2, 2), (2, 4), (4, 2), (4, 4)] {
        for _ in 0..12 {
            let mut tiles = Vec::new();
            let mut masks = Vec::new();
            for (w, h) in [(1, 1), (1, 2), (2, 1), (2, 2), (2, 4), (4, 2)] {
                if w > width || h > height {
                    continue;
                }
                for y in (0..height).step_by(h) {
                    for x in (0..width).step_by(w) {
                        state = state.wrapping_mul(1664525).wrapping_add(1013904223);
                        let cost = F32((1 + (state >> 24)) as f32);
                        tiles.push(PartitionTile {
                            x,
                            y,
                            width: w,
                            height: h,
                            cost,
                        });
                        let mut mask = 0u16;
                        for yy in y..y + h {
                            for xx in x..x + w {
                                mask |= 1 << (yy * 4 + xx);
                            }
                        }
                        masks.push(mask);
                    }
                }
            }
            let full = masks.iter().fold(0, |a, b| a | b);
            let expected = cover_oracle(&tiles, &masks, 0, full, &mut Default::default());
            let plan = best_reconstruction_plan(&tiles, width, height);
            assert_eq!(plan.cost, F32(expected), "{width}x{height}");
            let mut covered = 0;
            for &i in &plan.tiles {
                if i == NO_CHILD_BLOCK {
                    continue;
                }
                assert_eq!(covered & masks[i as usize], 0);
                covered |= masks[i as usize];
            }
            assert_eq!(covered, full);
        }
    }
}

#[test]
fn reconstruction_can_keep_one_child_and_split_the_other() {
    let mut tiles = Vec::new();
    for y in 0..2 {
        for x in 0..2 {
            tiles.push(PartitionTile {
                x,
                y,
                width: 1,
                height: 1,
                cost: F32(5.0),
            });
        }
    }
    tiles.push(PartitionTile {
        x: 0,
        y: 0,
        width: 1,
        height: 2,
        cost: F32(3.0),
    });
    tiles.push(PartitionTile {
        x: 1,
        y: 0,
        width: 1,
        height: 2,
        cost: F32(15.0),
    });
    let plan = best_reconstruction_plan(&tiles, 2, 2);
    assert_eq!(plan.cost, F32(13.0));
    assert_eq!(plan.tiles[0], 4);
    assert_eq!(plan.tiles[1], 1);
    assert_eq!(plan.tiles[4], NO_CHILD_BLOCK);
    assert_eq!(plan.tiles[5], 3);
}

#[test]
fn hue_repair_can_pay_for_seams_but_requires_a_clear_rd_win() {
    let accepts = |a: f32, b: f32, c: f32, d: f32, e: f32| {
        fine_mosaic_hue_repair_is_safe(F32(a), F32(b), F32(c), F32(d), F32(e))
    };
    // A 20% hue improvement can pay for a bounded seam regression while
    // preserving the full RD win, including the fine-child rate charge.
    assert!(accepts(10.0, 8.0, 95.0, 100.0, 1.5));
    assert!(!accepts(10.0, 9.6, 95.0, 100.0, 0.0));
    assert!(!accepts(10.0, 8.0, 98.0, 100.0, 0.0));
    assert!(!accepts(10.0, 8.0, 100.1, 100.0, 0.0));
    assert!(!accepts(10.0, 8.0, 95.0, 100.0, 2.1));
    assert!(!accepts(0.0, 0.0, 95.0, 100.0, 0.0));
    assert!(!accepts(f32::NAN, 8.0, 95.0, 100.0, 0.0));
    assert!(!accepts(10.0, f32::NAN, 95.0, 100.0, 0.0));
}

#[test]
fn hue_protection_survives_coarse_quantization_only_for_chroma_structure() {
    let flat = |distance: f32| rerank_rgb_hue_alpha(false, F32(distance)).0;
    for distance in [1.0, 2.0, 3.0, 4.0, 10.0] {
        assert_eq!(flat(distance), 0.0);
    }
    let alpha = |distance: f32| rerank_rgb_hue_alpha(true, F32(distance)).0;
    assert_eq!(alpha(0.35), 0.0);
    assert!(alpha(0.5) > 0.0 && alpha(0.5) < alpha(1.0));
    for distance in [2.0, 2.5, 3.0, 3.25, 4.0, 10.0] {
        assert_eq!(alpha(distance), alpha(1.0));
    }
}

fn block(rows: usize, at: impl Fn(usize) -> Vec<f32>) -> Vec<Vec<F32>> {
    (0..rows)
        .map(|y| at(y).into_iter().map(F32).collect())
        .collect()
}

#[test]
fn mosaic_seam_stats_matches_assembled_boundary_stats() {
    let mut seed = 127u32;
    let mut random = || {
        seed = seed.wrapping_mul(1664525).wrapping_add(1013904223);
        ((seed >> 8) as f32 / (1u32 << 24) as f32 - 0.5) * 0.25
    };
    for weights in [lift([1.0, 1.0, 1.0]), lift([4.0, 1.0, 0.85])] {
        for (width, height) in [(1, 1), (7, 9), (16, 16), (29, 31)] {
            let mut opsin = Image3::filled(width, height, F32(0.0));
            for c in 0..3 {
                for y in 0..height {
                    for x in 0..width {
                        opsin.set(c, x, y, F32(random()));
                    }
                }
            }
            let mut planes = [[[[0.0f32; 64]; 3]; 3]; 4];
            for child in &mut planes {
                for candidate in child {
                    for channel in candidate {
                        for v in channel {
                            *v = random();
                        }
                    }
                }
            }
            for (cxb, cyb) in [(1usize, 1usize), (2, 1), (1, 2), (2, 2)] {
                for (px, py) in [(0, 0), (width - 1, height - 1)] {
                    for distance in [0.0, 0.5, 1.9, 1.95, 2.0, 3.0] {
                        for code in 0..3usize.pow((cxb * cyb) as u32) {
                            let mut rest = code;
                            let selected: Vec<_> = planes[..cxb * cyb]
                                .iter()
                                .map(|child| {
                                    let i = rest % 3;
                                    rest /= 3;
                                    &child[i]
                                })
                                .collect();
                            let mut assembled = [[0.0f32; 1024]; 3];
                            for (k, child) in selected.iter().enumerate() {
                                let (kx, ky) = (k % cxb, k / cxb);
                                for (dest, source) in assembled.iter_mut().zip(child.iter()) {
                                    for (y, row) in source.chunks_exact(8).enumerate() {
                                        let offset = (ky * 8 + y) * cxb * 8 + kx * 8;
                                        dest[offset..offset + 8].copy_from_slice(row);
                                    }
                                }
                            }
                            let errors: Vec<_> = assembled
                                .iter()
                                .map(|plane| {
                                    block(cyb * 8, |y| {
                                        plane[y * cxb * 8..(y + 1) * cxb * 8].to_vec()
                                    })
                                })
                                .collect();
                            let expected = block_boundary_error_stats(
                                &opsin,
                                &errors,
                                &weights,
                                px,
                                py,
                                cxb * 8,
                                cyb * 8,
                                F32(distance),
                            );
                            let children: Vec<Vec<Vec<Vec<F32>>>> = selected
                                .iter()
                                .map(|child| {
                                    child
                                        .iter()
                                        .map(|plane| block(8, |y| plane[y * 8..y * 8 + 8].to_vec()))
                                        .collect()
                                })
                                .collect();
                            let got = mosaic_seam_stats(
                                &opsin,
                                &children,
                                &weights,
                                px,
                                py,
                                cxb,
                                cyb,
                                F32(distance),
                            );
                            assert_eq!(
                                (got.0 .0.to_bits(), got.1 .0.to_bits()),
                                (expected.0 .0.to_bits(), expected.1 .0.to_bits()),
                                "{width}x{height}, origin={px},{py}, grid={cxb}x{cyb}, d={distance}, code={code}"
                            );
                        }
                    }
                }
            }
        }
    }
}

#[test]
fn boundary_error_energy_detects_artificial_block_seams() {
    let mut opsin = Image3::filled(16, 8, F32(0.0));
    let weights = lift([1.0; 3]);
    let smooth: Vec<Vec<Vec<F32>>> = (0..3).map(|_| block(8, |_| vec![0.0; 16])).collect();
    let energy = |opsin: &Image3<F32>, errors: &Vec<Vec<Vec<F32>>>| {
        block_boundary_error_stats(opsin, errors, &weights, 0, 0, 16, 8, F32(1.0))
            .0
             .0
    };
    assert_eq!(energy(&opsin, &smooth), 0.0);

    let mut seam = smooth.clone();
    for y in 0..8 {
        seam[1][y][8..16].fill(F32(0.1));
    }
    let artificial = energy(&opsin, &seam);
    assert!(artificial > 0.0);

    // A matching edge in the source masks the error jump: genuine image
    // structure should not be mistaken for transform blockiness.
    for y in 0..8 {
        for x in 8..16 {
            opsin.set(1, x, y, F32(0.2));
        }
    }
    let source_aligned = energy(&opsin, &seam);
    assert!(source_aligned < artificial);
}

/// Merges are searched at every usable distance; only the near-lossless
/// tail is DCT8-only. The high-quality band is held back by the banded
/// margins below, not by this bound.
#[test]
fn dct8_only_covers_the_near_lossless_tail_only() {
    assert_eq!(k(DCT8_ONLY_MAX_DISTANCE), 0.056_713_393);
    assert!(use_dct8_only(F32(0.01)));
    assert!(use_dct8_only(F32(0.05)));
    assert!(!use_dct8_only(F32(0.06)));
    assert!(!use_dct8_only(F32(0.2)));
    assert!(!use_dct8_only(F32(1.0)));
}

/// A banded knob holds each end flat outside the band and interpolates
/// inside it, so a value fitted in one band cannot move the other.
#[test]
fn banded_knobs_are_flat_outside_the_band() {
    assert_eq!(at(MERGE_MARGIN_16, 0.1), at(MERGE_MARGIN_16, 0.5));
    assert_eq!(at(MERGE_MARGIN_16, 1.5), at(MERGE_MARGIN_16, 6.0));
    let mid = at(MERGE_MARGIN_16, 1.0);
    assert!((mid - 0.5 * (k(MERGE_MARGIN_16[0]) + k(MERGE_MARGIN_16[1]))).abs() < 1e-6);
    // High quality admits merges on much stiffer terms than mid/low.
    assert!(at(MERGE_MARGIN_16, 0.3) > at(MERGE_MARGIN_16, 2.0));
    assert!(at(BIAS_16X16, 0.3) > at(BIAS_16X16, 2.0));
    // The rerank defends merges at mid/low quality, knife-edge at HQ.
    assert_eq!(at(RERANK_DOWNGRADE_MARGIN, 0.3), 1.0);
    assert!(at(RERANK_DOWNGRADE_MARGIN, 3.0) < 1.0);
}

#[test]
fn pair_gradient_weights_are_banded() {
    let scale = |d: f32| rerank_pair_gradient_scale(F32(d)).0;
    let peak = |n: i64| rerank_pair_gradient_peak_alpha(knob::<F32>(n)).0;
    let [in_start, in_end, out_start, out_end] = RERANK_PAIR_GRADIENT_FADE;
    assert!(k(RERANK_PAIR_GRADIENT_ALPHA) > 0.0);
    assert!((0.0..1.0).contains(&k(RERANK_PAIR_GRADIENT_MIN_DOMINANCE)));
    assert_eq!(scale(0.35), 0.0);
    assert_eq!(scale(k(in_start)), 0.0);
    assert_eq!(scale(k(in_end)), 1.0);
    assert_eq!(scale(k(out_start)), 1.0);
    assert_eq!(scale(k(out_end)), 0.0);
    assert_eq!(scale(3.0), 0.0);
    let fade_in_mid = 0.5 * (k(in_start) + k(in_end));
    assert!((scale(fade_in_mid) - 0.5).abs() < 1e-6);
    let fade_out_mid = 0.5 * (k(out_start) + k(out_end));
    assert!((scale(fade_out_mid) - 0.5).abs() < 1e-6);

    let [peak_in_start, peak_in_end, peak_out_start, peak_out_end] =
        RERANK_PAIR_GRADIENT_PEAK_FADE;
    let [coarse_start, coarse_end] = RERANK_PAIR_GRADIENT_PEAK_COARSE;
    assert!(k(RERANK_PAIR_GRADIENT_PEAK_ALPHA) > 0.0);
    assert_eq!(peak(peak_in_start), 0.0);
    assert_eq!(peak(peak_in_end), k(RERANK_PAIR_GRADIENT_PEAK_ALPHA));
    assert_eq!(
        peak(peak_out_start),
        k(RERANK_PAIR_GRADIENT_PEAK_COARSE_ALPHA)
    );
    assert_eq!(peak(coarse_start), k(RERANK_PAIR_GRADIENT_PEAK_ALPHA));
    assert_eq!(peak(coarse_end), k(RERANK_PAIR_GRADIENT_PEAK_COARSE_ALPHA));
    assert_eq!(peak(peak_out_end), 0.0);
}

#[test]
fn quant_refinement_does_not_release_at_coarse_distances() {
    assert_eq!(quant_refinement_steps(F32(1.0)), 0);
    assert_eq!(quant_refinement_steps(F32(1.5)), 1);
    assert_eq!(quant_refinement_steps(F32(1.99)), 1);
    assert_eq!(quant_refinement_steps(F32(2.0)), 2);
    assert_eq!(quant_refinement_steps(F32(3.49)), 2);
    assert_eq!(quant_refinement_steps(F32(3.5)), 2);
    assert_eq!(quant_refinement_steps(F32(5.0)), 2);
    assert_eq!(quant_refinement_steps(F32(25.0)), 2);
}

/// The Fast tier reranks only at high quality, where the coefficient model
/// over-merges; past the cutoff the rerank costs time to lose rate.
#[test]
fn fast_rerank_is_gated_by_distance_but_slow_always_reranks() {
    let limit = k(FAST_RERANK_MAX_DISTANCE);
    assert!(SearchScope::Squares.rerank(F32(limit)));
    assert!(!SearchScope::Squares.rerank(F32(limit + 0.001)));
    assert!(SearchScope::Full.rerank(F32(6.0)));
}

/// The sub-8 biases are a fitted pair, not incidental defaults: both are
/// above 1.0 (making sub-8 harder to select than the raw RD comparison
/// would), and the family is gated off past the mid band.
#[test]
fn sub8_selection_is_fitted_not_neutral() {
    let (b44, b48, limit) = (k(BIAS_4X4), k(BIAS_4X8), k(SUB8_MAX_DISTANCE));
    assert!(b44 > 1.0, "BIAS_4X4 = {b44}");
    assert!(b48 > 1.0, "BIAS_4X8 = {b48}");
    assert!(b44 > b48, "4X4 carries the stiffer bar");
    assert!(
        (0.8..=2.5).contains(&limit),
        "limit {limit} outside the band the corpora agree on"
    );
    // The limit must sit above the DCT8-only floor, or sub-8 would never run.
    assert!(limit > k(DCT8_ONLY_MAX_DISTANCE));
    // AFV carries a stiffer-than-neutral bar in both bands too: at 1.0 it
    // over-selects.
    let [hq, base] = BIAS_AFV;
    assert!(
        k(hq) > 1.0 && k(base) > 1.0,
        "AFV bias reverted to neutral"
    );
}

/// The shipped selector is leaf-first inside the DCT4/AFV band with
/// biased propagation; raw propagation stays an opt-in study switch and
/// the band edge is the sub-8 limit.
#[test]
fn selector_policy_defaults() {
    let p = SelectorPolicy::default();
    assert!(p.leaf_first && !p.raw_propagation && p.merge_upgrade);
    assert_eq!(LEAF_FIRST_MAX_DISTANCE, SUB8_MAX_DISTANCE);
}

#[test]
fn upgrade_shortlist_survives_a_committed_square_and_is_order_independent() {
    let mut map = AcStrategyImage::new(2, 2);
    map.set_first(0, 0, STRATEGY_DCT16X16);
    let mut shortlist = Vec::new();
    record_upgrade_candidates(
        &mut shortlist,
        &map,
        0,
        0,
        lift([1.0; 5]),
        lift([2.0; 5]),
    );
    assert_eq!(shortlist.len(), 5);
    // A downgrade exposes all four cells again.
    let map = AcStrategyImage::new(2, 2);
    let rollbacks: Vec<FineMergeRollback<F32>> = Vec::new();
    let chosen = |shortlist: &Vec<jixel::strategy_map::Placement>| {
        let scores: Vec<UpgradeScores<F32>> = upgrade_sites(&map, (0, 2), &rollbacks, shortlist)
            .iter()
            .map(|site| {
                let cost = F32(1.0 + site.strategy as f32 + (site.x + 2 * site.y) as f32);
                let blocks = if site.strategy == STRATEGY_DCT16X16 { 4 } else { 2 };
                UpgradeScores {
                    big: ReconCost {
                        cost,
                        base: Some(cost),
                        distortion: cost,
                        rate: F32(0.0),
                        hue_distortion: F32(0.0),
                    },
                    layout: vec![F32(9.0); blocks],
                }
            })
            .collect();
        find_merge_upgrades(&map, (0, 2), &rollbacks, shortlist, &scores, F32(1.0))
            .iter()
            .map(|u| (u.bx, u.by, u.strategy, u.base.map(|b| b.0.to_bits())))
            .collect::<Vec<_>>()
    };
    let forward = chosen(&shortlist);
    assert!(!forward.is_empty());
    shortlist.reverse();
    assert_eq!(forward, chosen(&shortlist));
}

#[test]
fn merge_guard_is_stricter_for_large_transforms_and_high_quality() {
    let margin = |d: f32, knobs: [i64; 2]| merge_margin(F32(d), &knobs).0;
    assert!(margin(0.3, MERGE_MARGIN_32) > margin(0.3, MERGE_MARGIN_16));
    assert!(margin(0.3, MERGE_MARGIN_16) > margin(0.3, MERGE_MARGIN_PAIR));
    assert!(margin(0.3, MERGE_MARGIN_16) > margin(4.0, MERGE_MARGIN_16));

    // At high quality the 19% 16x16 margin rejects a 10% estimated win but
    // accepts a clear 25% one. At coarse quality the guard fades.
    let hq = MergeTuning::new(F32(0.3));
    let lowq = MergeTuning::new(F32(4.0));
    assert!(!merge_beats_dct8(F32(90.0), F32(100.0), hq.accept_16));
    assert!(merge_beats_dct8(F32(75.0), F32(100.0), hq.accept_16));
    assert!(merge_beats_dct8(F32(95.0), F32(100.0), lowq.accept_16));

    // The resolved table is exactly what the per-block path used to compute.
    assert_eq!(hq.accept_16, F32(1.0 - margin(0.3, MERGE_MARGIN_16)));
    assert_eq!(hq.bias_rect32, F32(at(BIAS_RECT32, 0.3)));
    assert_eq!(lowq.rerank_margin, F32(at(RERANK_DOWNGRADE_MARGIN, 4.0)));
}

#[test]
fn quant_aggregation_uses_max_for_pairs_and_high_quality() {
    assert_eq!(aggregate_quant(40, 50, 2, F32(1.0)), 40);
    assert_eq!(aggregate_quant(40, 100, 4, F32(1.0)), 40);
}

#[test]
fn quant_aggregation_matches_scaled_candidate_cost() {
    let qac = lift2([[2.5, 5.0], [7.5, 10.0]]);
    let raw = aggregate_quant(40, 100, 4, F32(2.0));
    assert_eq!(
        aggregate_qac_2x2(qac, F32(0.25), F32(2.0)),
        F32(raw as f32 * 0.25)
    );
}

#[test]
fn strategy_cfl_factors_match_signaled_tile_maps() {
    let ytox = vec![vec![42i8]];
    let ytob = vec![vec![-42i8]];
    let (x, b) = cmap_factors(&ytox, &ytob, 1, 1, 0, 0);
    let (fx, fb) = cfl_ratios::<F32>(x, b);
    assert_eq!([fx.0, 0.0, fb.0], [0.5, 0.0, 0.5]);
}

#[test]
fn luma_only_gradient_stats_match_full_stats() {
    let mut opsin = Image3::filled(16, 16, F32(0.0));
    for c in 0..3 {
        for y in 0..16 {
            for x in 0..16 {
                opsin.set(
                    c,
                    x,
                    y,
                    F32(0.01 * x as f32 + 0.02 * y as f32 + 0.1 * c as f32),
                );
            }
        }
    }
    let cells = CellGrid {
        px: 0,
        py: 0,
        cells_x: 4,
        cells_y: 2,
    };
    let luma = gradient_region_stats(&opsin, &cells, F32(1e-5));
    let full = gradient_region_stats_with_chroma(&opsin, &cells, F32(1e-5));
    assert_eq!(luma.dominance, full.dominance);
    assert_eq!(luma.mean, full.mean);
    assert!(full.chroma.0 > 0.0);
}

#[test]
fn dispatched_gradient_stats_match_scalar() {
    let sample = |c: usize, x: usize, y: usize| {
        let hash = (x * 37 + y * 61 + c * 17 + x * y * 3) % 101;
        hash as f32 * 0.007 - 0.2 + c as f32 * 0.03
    };
    let mut opsin = Image3::filled(24, 24, F32(0.0));
    for c in 0..3 {
        for y in 0..24 {
            for x in 0..24 {
                opsin.set(c, x, y, F32(sample(c, x, y)));
            }
        }
    }
    for &(px, py, w, h) in &[(1usize, 2usize, 8usize, 16usize), (3, 4, 16, 8), (20, 21, 8, 16)] {
        let got = gradient_region_stats_with_chroma(
            &opsin,
            &CellGrid {
                px,
                py,
                cells_x: w / 4,
                cells_y: h / 4,
            },
            F32(1e-5),
        );
        let held = |c: usize, x: usize, y: usize| sample(c, x.min(23), y.min(23)) as f64;
        let mut means = Vec::new();
        let (mut within, mut chroma) = (0.0f64, 0.0f64);
        for cy in 0..h / 4 {
            for cx in 0..w / 4 {
                let (mut sum, mut squares) = (0.0, 0.0);
                for i in 0..16 {
                    let (x, y) = (px + cx * 4 + i % 4, py + cy * 4 + i / 4);
                    let v = held(1, x, y);
                    sum += v;
                    squares += v * v;
                    chroma += held(0, x, y).abs() + (held(2, x, y) - v).abs();
                }
                let mean = sum / 16.0;
                within += squares / 16.0 - mean * mean;
                means.push(mean);
            }
        }
        let n = means.len() as f64;
        let mean = means.iter().sum::<f64>() / n;
        let between = means.iter().map(|m| (m - mean) * (m - mean)).sum::<f64>() / n;
        let dominance = between / (between + within / n + 1e-5);
        assert!((got.dominance.0 as f64 - dominance).abs() < 2e-5);
        assert!((got.mean.0 as f64 - mean).abs() < 2e-6);
        assert!((got.chroma.0 as f64 - chroma / (w * h) as f64).abs() < 2e-6);
    }
}

fn region(slot: usize, loss: f32, fallback: u16) -> MatrixRegion<F32> {
    MatrixRegion {
        dc: 0,
        bx: 0,
        by: 0,
        width: 1,
        height: 1,
        alternatives: vec![
            Alternative {
                strategy: STRATEGY_DCT16X16,
                required: 1 << slot,
                loss_bits: F32(0.0),
            },
            Alternative {
                strategy: STRATEGY_DCT,
                required: fallback,
                loss_bits: F32(loss),
            },
        ],
    }
}

#[test]
fn matrix_fee_is_shared_and_scan_order_independent() {
    let header = MatrixHeaderCost {
        payload: [0, 388, 0, 0, 0, 0, 0, 0, 0],
    };
    assert_eq!(choose_tables(&header, 2, 0, &vec![region(1, 200.0, 0)]), 0);
    let mut regions = vec![region(1, 240.0, 0), region(1, 210.0, 0)];
    assert_eq!(choose_tables(&header, 2, 0, &regions), 2);
    regions.reverse();
    assert_eq!(choose_tables(&header, 2, 0, &regions), 2);
}

#[test]
fn table_combinations_include_fallback_activation_and_shared_mode_bits() {
    let header = MatrixHeaderCost {
        payload: [292, 388, 0, 0, 0, 0, 0, 0, 0],
    };
    assert_eq!(choose_tables(&header, 2, 0, &vec![region(1, 95.0, 1)]), 1);
    assert_eq!(choose_tables(&header, 2, 0, &vec![region(1, 97.0, 1)]), 2);
    let header = MatrixHeaderCost {
        payload: [0, 388, 388, 0, 0, 0, 0, 0, 0],
    };
    // Neither table pays the shared 51 bits on its own. Removing both
    // saves it once and wins; a greedy one-family pass misses this.
    let regions = vec![region(1, 400.0, 0), region(2, 400.0, 0)];
    assert_eq!(choose_tables(&header, 6, 0, &regions), 0);
}

#[test]
fn matrix_optimizer_matches_exhaustive_assignments() {
    let header = MatrixHeaderCost {
        payload: [100, 120, 170, 210, 0, 0, 0, 0, 0],
    };
    let mut rng = 13u32;
    for _ in 0..200 {
        let mut regions = Vec::new();
        for slot in 1..4 {
            let mut r = region(slot, 0.0, 1);
            for alternative in &mut r.alternatives[1..] {
                rng = rng.wrapping_mul(1664525).wrapping_add(1013904223);
                alternative.loss_bits = F32((rng % 300) as f32);
            }
            r.alternatives.push(Alternative {
                strategy: STRATEGY_DCT,
                required: 1 << (slot % 3 + 1),
                loss_bits: F32((rng % 150) as f32),
            });
            regions.push(r);
        }
        let allowed = choose_tables(&header, 14, 0, &regions);
        let actual = header.bits(allowed) as f32
            + regions
                .iter()
                .map(|r| {
                    best_alternative(&r.alternatives, allowed)
                        .unwrap()
                        .loss_bits
                        .0
                })
                .sum::<f32>();
        let mut optimum = f32::INFINITY;
        for a in &regions[0].alternatives {
            for b in &regions[1].alternatives {
                for c in &regions[2].alternatives {
                    optimum = optimum.min(
                        header.bits(a.required | b.required | c.required) as f32
                            + a.loss_bits.0
                            + b.loss_bits.0
                            + c.loss_bits.0,
                    );
                }
            }
        }
        assert_eq!(actual, optimum);
    }
}

#[test]
fn aq_dampen_holds_then_fades_to_a_flat_field() {
    let dampen = |d: f32| aq_dampen(F32(d)).0;
    let (peak, start, end) = (k(AQ_PEAK), k(AQ_FADE_START), k(AQ_FADE_END));
    for d in [0.0, 0.1, 0.5, 0.99] {
        assert_eq!(dampen(d), peak, "AQ should be at full strength at d={d}");
    }
    assert_eq!(dampen(start), peak);
    // Fully faded at and beyond the end of the ramp — never negative, and
    // never re-activating at the very coarse distances.
    for d in [end, 2.0, 4.0, 10.0, 25.0] {
        assert_eq!(dampen(d), 0.0, "AQ should be off at d={d}");
    }
    // Monotonically non-increasing and in range across the whole domain.
    let mut prev = f32::INFINITY;
    for i in 0..=200 {
        let d = i as f32 * 0.05;
        let v = dampen(d);
        assert!(v <= prev + 1e-7, "aq_dampen rose at d={d}");
        assert!((0.0..=peak).contains(&v), "aq_dampen out of range at d={d}");
        prev = v;
    }
    // Halfway through the ramp is half strength.
    let mid = 0.5 * (start + end);
    assert!((dampen(mid) - 0.5 * peak).abs() < 1e-6);
    assert_eq!(BILLION, 1_000_000_000);
}
