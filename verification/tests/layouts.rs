use jixel::amount::{Amount, Fixed, FIXED_ONE};
use jixel::bands::selection_sites;
use jixel::fill::{gather_bands, list_sub8_targets, Stage};
use jixel::filling::Filling;
use jixel::leaf_first::{select_band_leaf_first, LeafChoice};
use jixel::mosaic::{ReconCost, RerankParams, Seam};
use jixel::pass64::{assemble_chosen32, list_sites64, Costs64};
use jixel::quant_field::{adjust_quant_field, QuantField};
use jixel::quant_refine::{
    find_quant_refinements, refine_quant_field, refinement_sites, RefineScores,
};
use jixel::recon::error_gradient_energy;
use jixel::rerank::{list_candidates, SiteScores};
use jixel::rerank_band::{
    find_rerank_downgrades, find_saved, rerank_large_transforms, rerank_sites,
};
use jixel::scope::{SelectorPolicy, Speed};
use jixel::selection::{select_band, BandOutput, SelectionParams, SiteCosts};
use jixel::strategy::{
    covered_blocks_x_of, covered_blocks_y_of, NO_CHILD_BLOCK, STRATEGY_DCT, STRATEGY_DCT16X16,
    STRATEGY_DCT32X32, STRATEGY_IDENTITY,
};
use jixel::strategy_map::AcStrategyImage;
use jixel::super_block::{MergeTuning, SuperBlockCosts};
use jixel::tuning::{banded, knob, rerank_rgb_hue_alpha, BIAS_16X16};
use jixel::upgrade::{
    find_merge_upgrades, footprint_blocks, footprint_is_self_contained, rerank_upgrade_merges,
    upgrade_sites, UpgradeScores,
};

const SIDE: usize = 12;

fn whole(n: u64) -> Fixed {
    Fixed { raw: n as i64 * FIXED_ONE }
}

fn next(state: &mut u64) -> u64 {
    *state ^= *state << 13;
    *state ^= *state >> 7;
    *state ^= *state << 17;
    *state >> 33
}

fn tuning() -> MergeTuning<Fixed> {
    let one = whole(1);
    MergeTuning {
        bias_rect: one,
        bias_16x16: one,
        bias_32x32: one,
        bias_rect32: Fixed::ratio(9, 10),
        accept_pair: one,
        accept_16: one,
        accept_32_rect: one,
        accept_32: one,
        rerank_margin: one,
        risk_k: Fixed::zero(),
        accept_64: one,
        accept_64_rect: one,
    }
}

fn params(rectangles: bool) -> SelectionParams<Fixed> {
    SelectionParams { rectangles, policy: SelectorPolicy::default(), tuning: tuning() }
}

struct Scene {
    leaves: Vec<Vec<LeafChoice<Fixed>>>,
    costs: Vec<SiteCosts<Fixed>>,
}

fn super_costs(
    leaves: &[Vec<LeafChoice<Fixed>>],
    x: usize,
    y: usize,
    state: &mut u64,
) -> SuperBlockCosts<Fixed> {
    let (x, y) = (x.min(SIDE - 2), y.min(SIDE - 2));
    let leaf = [
        [leaves[y][x].j, leaves[y][x + 1].j],
        [leaves[y + 1][x].j, leaves[y + 1][x + 1].j],
    ];
    SuperBlockCosts {
        leaf,
        leaf_raw: leaf,
        tall: [whole(60 + next(state) % 100), whole(60 + next(state) % 100)],
        wide: [whole(60 + next(state) % 100), whole(60 + next(state) % 100)],
        square: whole(120 + next(state) % 200),
        accept_16: whole(1),
    }
}

/// Costs of a group in which every size of merge wins somewhere.
fn scene(seed: u64) -> Scene {
    let mut state = seed;
    let leaves: Vec<Vec<LeafChoice<Fixed>>> = (0..SIDE)
        .map(|_| {
            (0..SIDE)
                .map(|_| {
                    let j = whole(30 + next(&mut state) % 60);
                    LeafChoice { strategy: STRATEGY_DCT, j, raw_j: j, gain: Fixed::zero() }
                })
                .collect()
        })
        .collect();
    let costs = selection_sites(SIDE, SIDE, 0, SIDE)
        .iter()
        .map(|site| {
            let (x, y) = (site.bx, site.by);
            SiteCosts {
                supers: [
                    [
                        super_costs(&leaves, x, y, &mut state),
                        super_costs(&leaves, x + 2, y, &mut state),
                    ],
                    [
                        super_costs(&leaves, x, y + 2, &mut state),
                        super_costs(&leaves, x + 2, y + 2, &mut state),
                    ],
                ],
                raw: [
                    whole(600 + next(&mut state) % 400),
                    whole(250 + next(&mut state) % 250),
                    whole(250 + next(&mut state) % 250),
                    whole(250 + next(&mut state) % 250),
                    whole(250 + next(&mut state) % 250),
                ],
                accept: [whole(1); 5],
            }
        })
        .collect();
    Scene { leaves, costs }
}

fn selected(scene: &Scene, rectangles: bool) -> (AcStrategyImage, BandOutput<Fixed>) {
    let mut map = AcStrategyImage::new(SIDE, SIDE);
    let mut out = BandOutput::new();
    select_band(&mut map, (0, SIDE), &params(rectangles), &scene.costs, &mut out);
    (map, out)
}

fn selected_leaf_first(scene: &Scene, rectangles: bool) -> (AcStrategyImage, BandOutput<Fixed>) {
    let mut map = AcStrategyImage::new(SIDE, SIDE);
    let mut out = BandOutput::new();
    select_band_leaf_first(
        &mut map,
        (0, SIDE),
        &params(rectangles),
        &scene.costs,
        &scene.leaves,
        &mut out,
    );
    (map, out)
}

fn tiles(map: &AcStrategyImage) -> bool {
    let mut seen = [[0u8; SIDE]; SIDE];
    for p in map.first_blocks() {
        for row in seen.iter_mut().skip(p.y).take(covered_blocks_y_of(p.strategy)) {
            for cell in row.iter_mut().skip(p.x).take(covered_blocks_x_of(p.strategy)) {
                *cell += 1;
            }
        }
    }
    seen.iter().all(|row| row.iter().all(|&n| n == 1))
}

#[test]
fn without_rectangles_only_squares_are_selected() {
    let mut merged = [0usize; 2];
    for seed in 1..40u64 {
        let scene = scene(seed * 0x9e37_79b9);
        for (map, _) in [selected(&scene, false), selected_leaf_first(&scene, false)] {
            for p in map.first_blocks() {
                assert_eq!(covered_blocks_x_of(p.strategy), covered_blocks_y_of(p.strategy));
                merged[0] += (p.strategy == STRATEGY_DCT16X16) as usize;
                merged[1] += (p.strategy == STRATEGY_DCT32X32) as usize;
            }
        }
    }
    assert!(merged[0] > 0 && merged[1] > 0, "both squares win somewhere");
}

#[test]
fn leaf_first_agrees_without_rectangles() {
    for seed in 1..40u64 {
        let scene = scene(seed * 0x5851_f42d);
        let (a, out_a) = selected(&scene, false);
        let (b, out_b) = selected_leaf_first(&scene, false);
        assert_eq!(a.first_blocks(), b.first_blocks());
        assert_eq!(out_a.chosen32.len(), out_b.chosen32.len());
        for (x, y) in out_a.chosen32.iter().zip(out_b.chosen32.iter()) {
            assert_eq!((x.bx, x.by, x.cost), (y.bx, y.by, y.cost));
        }
    }
}

#[test]
fn saved_children_describe_their_transforms() {
    let mut found = 0;
    for seed in 1..40u64 {
        let scene = scene(seed * 0x2545_f491);
        let (map, out) = selected_leaf_first(&scene, true);
        for child in &out.saved_children {
            assert!(map.is_first_block(child.bx, child.by));
            let s = map.raw_strategy(child.bx, child.by);
            let (cx, cy) = (covered_blocks_x_of(s), covered_blocks_y_of(s));
            assert!(cx * cy > 1);
            for (i, &g) in child.grid.iter().enumerate() {
                assert!(g == NO_CHILD_BLOCK || (i % 4 < cx && i / 4 < cy));
            }
            found += 1;
        }
    }
    assert!(found > 0);
}

#[test]
fn selected_layouts_tile_the_group() {
    for seed in 1..40u64 {
        let scene = scene(seed * 0x1b87_3593);
        for rectangles in [false, true] {
            assert!(tiles(&selected(&scene, rectangles).0));
            assert!(tiles(&selected_leaf_first(&scene, rectangles).0));
        }
    }
}

#[test]
fn bands_select_what_the_whole_group_does() {
    for seed in 1..20u64 {
        let scene = scene(seed * 0x85eb_ca6b);
        let whole_map = selected(&scene, true).0;
        let mut map = AcStrategyImage::new(SIDE, SIDE);
        let mut at = 0;
        for y0 in [0, 4, 8] {
            let n = selection_sites(SIDE, SIDE, y0, y0 + 4).len();
            let mut out = BandOutput::new();
            select_band(
                &mut map,
                (y0, y0 + 4),
                &params(true),
                &scene.costs[at..at + n],
                &mut out,
            );
            at += n;
        }
        assert_eq!(at, scene.costs.len());
        assert_eq!(map.first_blocks(), whole_map.first_blocks());
    }
}

#[test]
fn infinite_amounts_stay_infinite() {
    let inf = Fixed::infinite();
    assert_eq!(Fixed::ratio(1, 2).times(inf), inf);
    assert_eq!(inf.times(Fixed::ratio(1, 2)), inf);
    assert_eq!(inf.plus(inf), inf);
    assert_eq!(Fixed::zero().plus(inf), inf);
    assert!(!inf.less(inf) && !inf.finite());
    assert_eq!(whole(3).times(Fixed::ratio(1, 2)), Fixed::ratio(3, 2));
}

fn recon(cost: u64) -> ReconCost<Fixed> {
    ReconCost {
        cost: whole(cost),
        base: Some(whole(cost)),
        distortion: whole(cost),
        rate: Fixed::zero(),
        hue_distortion: Fixed::zero(),
    }
}

/// Runs a group through its stages with costs that a generator makes up.
fn fill_group(seed: u64, speed: Speed, leaf_first: bool, distance: Fixed) -> (Filling<Fixed>, Vec<Stage>) {
    let scene = scene(seed);
    let mut state = seed ^ 0x00ab_cdef;
    let policy = SelectorPolicy { leaf_first, ..SelectorPolicy::default() };
    let slow = speed == Speed::Slow;
    let mut g = Filling::new(
        SIDE,
        SIDE,
        QuantField::new(SIDE, SIDE, 6),
        speed,
        policy,
        distance,
        Fixed::ratio(5, 2),
    );
    let p = params(slow);
    let mut seen = Vec::new();
    let offers = vec![vec![None; SIDE]; SIDE];
    while g.stage != Stage::Done {
        seen.push(g.stage);
        match g.stage {
            Stage::Select => {
                if g.plan.leaf_first {
                    g.select_leaf_first(&p, &scene.costs, scene.leaves.clone(), &offers);
                } else {
                    g.select(&p, &scene.costs, &offers);
                }
            }
            Stage::Merge64 => {
                let grid = assemble_chosen32(SIDE, SIDE, &g.selected);
                let scores: Vec<Costs64<Fixed>> = list_sites64(SIDE, SIDE, &grid)
                    .iter()
                    .map(|_| Costs64 {
                        square: whole(1000 + next(&mut state) % 3000),
                        tall: [whole(1200), whole(1100)],
                        wide: [whole(1300), whole(1250)],
                    })
                    .collect();
                g.merge64(&p.tuning, &scores);
            }
            Stage::Rerank => {
                let rp = RerankParams {
                    distance,
                    margin: whole(1),
                    meta_r: Fixed::zero(),
                    fine_lambda: whole(1),
                    slow,
                    coarse_chromatic: false,
                    hue_repair: false,
                    rectangles: slow,
                };
                let scores: Vec<SiteScores<Fixed>> = rerank_sites(&g.map, 0, SIDE)
                    .iter()
                    .map(|&site| {
                        let saved = find_saved(&g.selected[0].saved_children, site.x, site.y);
                        let tiles = list_candidates(&g.map, site, &saved, slow)
                            .iter()
                            .map(|_| recon(20 + next(&mut state) % 80))
                            .collect();
                        SiteScores {
                            big: recon(40 + next(&mut state) % 400),
                            seam: Seam { energy: Fixed::zero(), peak: Fixed::zero() },
                            tiles,
                            fine: Vec::new(),
                            fine_seams: Vec::new(),
                        }
                    })
                    .collect();
                g.rerank(&rp, &scores);
            }
            Stage::Sub8 => {
                let picks: Vec<Option<(u8, Fixed)>> = list_sub8_targets(&g.reranked, SIDE, SIDE)
                    .iter()
                    .map(|_| (next(&mut state) % 2 == 0).then_some((STRATEGY_IDENTITY, whole(3))))
                    .collect();
                g.sub8(&picks);
            }
            Stage::Upgrade => {
                let rollbacks = g.rollbacks();
                let shortlist = &g.selected[0].upgrade_candidates;
                let scores: Vec<UpgradeScores<Fixed>> =
                    upgrade_sites(&g.map, (0, SIDE), &rollbacks, shortlist)
                        .iter()
                        .map(|&site| UpgradeScores {
                            big: recon(30 + next(&mut state) % 100),
                            layout: footprint_blocks(&g.map, site)
                                .iter()
                                .map(|_| whole(30))
                                .collect(),
                        })
                        .collect();
                g.upgrade(&scores, whole(1));
            }
            Stage::Settle => g.settle(),
            Stage::Refine => {
                let scores: Vec<RefineScores<Fixed>> = refinement_sites(&g.map, &g.field, 0, SIDE)
                    .iter()
                    .map(|_| RefineScores {
                        current: whole(50),
                        trials: [
                            whole(40 + next(&mut state) % 20),
                            whole(40 + next(&mut state) % 20),
                            whole(40 + next(&mut state) % 20),
                            whole(40 + next(&mut state) % 20),
                        ],
                    })
                    .collect();
                g.refine(&scores);
            }
            Stage::Done => {}
        }
        assert!(tiles(&g.map), "the map tiles the group after {:?}", seen.last());
    }
    (g, seen)
}

#[test]
fn filling_tiles_the_group_at_every_stage() {
    let mut changed = 0;
    for seed in 1..30u64 {
        for (speed, leaf_first) in
            [(Speed::Fast, false), (Speed::Slow, false), (Speed::Slow, true)]
        {
            for distance in [Fixed::ratio(1, 1), whole(2), whole(3), whole(6)] {
                let (g, seen) = fill_group(seed * 0x27d4_eb2f, speed, leaf_first, distance);
                assert_eq!(seen.first(), Some(&Stage::Select));
                assert!(seen.contains(&Stage::Settle));
                assert_eq!(seen.contains(&Stage::Rerank), g.plan.rerank);
                // One quantizer for every transform.
                for p in g.map.first_blocks() {
                    let q = g.field.get(p.x, p.y);
                    for y in p.y..p.y + covered_blocks_y_of(p.strategy) {
                        for x in p.x..p.x + covered_blocks_x_of(p.strategy) {
                            assert_eq!(g.field.get(x, y), q);
                        }
                    }
                    changed += (p.strategy == STRATEGY_IDENTITY) as usize;
                }
            }
        }
    }
    assert!(changed > 0, "some blocks of undone merges chose again");
}

#[test]
fn nothing_is_searched_at_the_fastest_speed() {
    let (g, seen) = fill_group(77, Speed::Fastest, true, whole(2));
    assert!(seen.is_empty());
    assert_eq!(g.benefit, Fixed::zero());
    assert_eq!(g.map.first_blocks().len(), SIDE * SIDE);
}

/// A generator that a place of the group starts.
fn place_state(x: usize, y: usize) -> u64 {
    let mut state = (y * SIDE + x + 1) as u64 * 0x9e37_79b9_7f4a_7c15;
    next(&mut state);
    state
}

const BANDS: [(usize, usize); 3] = [(0, 4), (4, 8), (8, SIDE)];

#[test]
fn bands_rerank_what_the_whole_group_does() {
    let rp = RerankParams {
        distance: whole(2),
        margin: whole(1),
        meta_r: Fixed::zero(),
        fine_lambda: whole(1),
        slow: true,
        coarse_chromatic: false,
        hue_repair: false,
        rectangles: true,
    };
    let mut undone = 0;
    for seed in 1..20u64 {
        let (map, out) = selected_leaf_first(&scene(seed * 0x0c2b_2ae3), true);
        let run = |y0: usize, y1: usize| {
            let scores: Vec<SiteScores<Fixed>> = rerank_sites(&map, y0, y1)
                .iter()
                .map(|&site| {
                    let mut state = place_state(site.x, site.y) ^ seed;
                    let saved = find_saved(&out.saved_children, site.x, site.y);
                    SiteScores {
                        big: recon(40 + next(&mut state) % 400),
                        seam: Seam { energy: Fixed::zero(), peak: Fixed::zero() },
                        tiles: list_candidates(&map, site, &saved, true)
                            .iter()
                            .map(|_| recon(20 + next(&mut state) % 80))
                            .collect(),
                        fine: Vec::new(),
                        fine_seams: Vec::new(),
                    }
                })
                .collect();
            let r = find_rerank_downgrades(&map, (y0, y1), &rp, &out.saved_children, &scores);
            let costs: Vec<(usize, usize, Option<Fixed>)> =
                r.costs.iter().map(|c| (c.bx, c.by, c.cost)).collect();
            let downgrades: Vec<(usize, usize, usize, usize, [u8; 16])> = r
                .downgrades
                .iter()
                .map(|d| (d.bx, d.by, d.cov_x, d.cov_y, d.restore))
                .collect();
            (costs, downgrades)
        };
        let all = run(0, SIDE);
        let mut joined = (Vec::new(), Vec::new());
        for (y0, y1) in BANDS {
            let (costs, downgrades) = run(y0, y1);
            joined.0.extend(costs);
            joined.1.extend(downgrades);
        }
        assert_eq!(joined, all);
        undone += all.1.len();
    }
    assert!(undone > 0, "some merges are undone");
}

#[test]
fn bands_refine_what_the_whole_group_does() {
    let field = QuantField::new(SIDE, SIDE, 6);
    let mut changed = 0;
    for seed in 1..20u64 {
        let (map, _) = selected(&scene(seed * 0x38b3_4ae5), true);
        let run = |y0: usize, y1: usize| {
            let scores: Vec<RefineScores<Fixed>> = refinement_sites(&map, &field, y0, y1)
                .iter()
                .map(|site| {
                    let mut state = place_state(site.x, site.y) ^ seed;
                    RefineScores {
                        current: whole(50),
                        trials: [
                            whole(40 + next(&mut state) % 20),
                            whole(40 + next(&mut state) % 20),
                            whole(40 + next(&mut state) % 20),
                            whole(40 + next(&mut state) % 20),
                        ],
                    }
                })
                .collect();
            find_quant_refinements(&map, &field, whole(2), None, (y0, y1), &scores)
        };
        let all = run(0, SIDE);
        let mut joined = Vec::new();
        for (y0, y1) in BANDS {
            joined.extend(run(y0, y1));
        }
        assert_eq!(joined, all);
        changed += all.len();
    }
    assert!(changed > 0, "some quantizers change");
}

#[test]
fn bands_put_down_what_the_whole_group_does() {
    let mut merged = 0;
    for seed in 1..20u64 {
        let (map, out) = selected(&scene(seed * 0x1656_67b1), true);
        let shortlist = &out.upgrade_candidates;
        let none = Vec::new();
        let run = |y0: usize, y1: usize| {
            let scores: Vec<UpgradeScores<Fixed>> =
                upgrade_sites(&map, (y0, y1), &none, shortlist)
                    .iter()
                    .map(|&site| {
                        let mut state = place_state(site.x, site.y) ^ seed;
                        UpgradeScores {
                            big: recon(30 + next(&mut state) % 100),
                            layout: footprint_blocks(&map, site)
                                .iter()
                                .map(|_| whole(30))
                                .collect(),
                        }
                    })
                    .collect();
            let r = find_merge_upgrades(&map, (y0, y1), &none, shortlist, &scores, whole(1));
            let r: Vec<(usize, usize, u8, Option<Fixed>)> =
                r.iter().map(|u| (u.bx, u.by, u.strategy, u.base)).collect();
            r
        };
        let all = run(0, SIDE);
        let mut joined = Vec::new();
        for (y0, y1) in BANDS {
            joined.extend(run(y0, y1));
        }
        assert_eq!(joined, all);
        merged += all.len();
    }
    assert!(merged > 0, "some merges are put down");
}

#[test]
fn saved_layouts_agree_where_the_layouts_do() {
    let mut found = 0;
    let mut alike = 0;
    for seed in 1..60u64 {
        let scene = scene(seed * 0x4cf5_ad43);
        for rectangles in [false, true] {
            let (a, out_a) = selected(&scene, rectangles);
            let (b, out_b) = selected_leaf_first(&scene, rectangles);
            if a.first_blocks() != b.first_blocks() {
                assert!(rectangles);
                continue;
            }
            alike += 1;
            for p in a.first_blocks() {
                let own = find_saved(&out_a.saved_children, p.x, p.y);
                assert_eq!(own, find_saved(&out_b.saved_children, p.x, p.y));
                found += own.is_some() as usize;
            }
        }
    }
    assert!(alike >= 59 && found > 0);
}

#[test]
fn footprints_of_any_size_are_judged() {
    let mut map = AcStrategyImage::new(SIDE, SIDE);
    assert!(footprint_is_self_contained(&map, 0, 0, SIDE, SIDE));
    map.set_first(9, 9, STRATEGY_DCT16X16);
    assert!(footprint_is_self_contained(&map, 0, 0, SIDE, SIDE));
    assert!(footprint_is_self_contained(&map, 1, 1, 10, 10));
    // The square sticks out on one side, and reaches in from the other.
    assert!(!footprint_is_self_contained(&map, 0, 0, 10, 10));
    assert!(!footprint_is_self_contained(&map, 10, 0, 2, SIDE));
}

/// Fills a group in the given bands, each of which goes by its own lists.
fn fill_in_bands(
    seed: u64,
    leaf_first: bool,
    bands: &[(usize, usize)],
) -> (AcStrategyImage, QuantField, usize) {
    let scene = scene(seed);
    let distance = whole(2);
    let mut map = AcStrategyImage::new(SIDE, SIDE);
    let mut images = Vec::new();
    let mut outs = Vec::new();
    let mut at = 0;
    for &(y0, y1) in bands {
        let n = selection_sites(SIDE, SIDE, y0, y1).len();
        let costs = &scene.costs[at..at + n];
        let mut image = AcStrategyImage::new(SIDE, SIDE);
        let mut out = BandOutput::new();
        if leaf_first {
            let leaves = scene.leaves[y0..y1].to_vec();
            select_band_leaf_first(&mut image, (y0, y1), &params(true), costs, &leaves, &mut out);
        } else {
            select_band(&mut image, (y0, y1), &params(true), costs, &mut out);
        }
        images.push(image);
        outs.push(out);
        at += n;
    }
    gather_bands(&mut map, &bands.to_vec(), &images);
    let rp = RerankParams {
        distance,
        margin: whole(1),
        meta_r: Fixed::zero(),
        fine_lambda: whole(1),
        slow: true,
        coarse_chromatic: false,
        hue_repair: false,
        rectangles: true,
    };
    let mut reranked = Vec::new();
    for (&(y0, y1), out) in bands.iter().zip(&outs) {
        let scores: Vec<SiteScores<Fixed>> = rerank_sites(&map, y0, y1)
            .iter()
            .map(|&site| {
                let mut state = place_state(site.x, site.y) ^ seed;
                let saved = find_saved(&out.saved_children, site.x, site.y);
                SiteScores {
                    big: recon(40 + next(&mut state) % 400),
                    seam: Seam { energy: Fixed::zero(), peak: Fixed::zero() },
                    tiles: list_candidates(&map, site, &saved, true)
                        .iter()
                        .map(|_| recon(20 + next(&mut state) % 80))
                        .collect(),
                    fine: Vec::new(),
                    fine_seams: Vec::new(),
                }
            })
            .collect();
        let saved = &out.saved_children;
        reranked.push(find_rerank_downgrades(&map, (y0, y1), &rp, saved, &scores));
    }
    let targets = list_sub8_targets(&reranked, SIDE, SIDE).len();
    let mut costs = rerank_large_transforms(&mut map, &reranked);
    let mut ups = Vec::new();
    for (i, &(y0, y1)) in bands.iter().enumerate() {
        let (rollbacks, shortlist) = (&reranked[i].rollbacks, &outs[i].upgrade_candidates);
        let scores: Vec<UpgradeScores<Fixed>> = upgrade_sites(&map, (y0, y1), rollbacks, shortlist)
            .iter()
            .map(|&site| {
                let mut state = place_state(site.x, site.y) ^ seed;
                UpgradeScores {
                    big: recon(30 + next(&mut state) % 100),
                    layout: footprint_blocks(&map, site).iter().map(|_| whole(30)).collect(),
                }
            })
            .collect();
        ups.extend(find_merge_upgrades(&map, (y0, y1), rollbacks, shortlist, &scores, whole(1)));
    }
    rerank_upgrade_merges(&mut map, &mut costs, &ups);
    let mut field = QuantField::new(SIDE, SIDE, 6);
    adjust_quant_field(&map, distance, &mut field);
    let mut moves = Vec::new();
    for &(y0, y1) in bands {
        let scores: Vec<RefineScores<Fixed>> = refinement_sites(&map, &field, y0, y1)
            .iter()
            .map(|site| {
                let mut state = place_state(site.x, site.y) ^ seed;
                RefineScores {
                    current: whole(50),
                    trials: [
                        whole(40 + next(&mut state) % 20),
                        whole(40 + next(&mut state) % 20),
                        whole(40 + next(&mut state) % 20),
                        whole(40 + next(&mut state) % 20),
                    ],
                }
            })
            .collect();
        let known = Some(&costs);
        moves.extend(find_quant_refinements(&map, &field, distance, known, (y0, y1), &scores));
    }
    refine_quant_field(&mut field, &moves, SIDE, SIDE);
    (map, field, targets)
}

#[test]
fn filling_in_bands_is_filling_as_one() {
    let mut moved = 0;
    for seed in 1..20u64 {
        for leaf_first in [false, true] {
            let seed = seed * 0x0f1e_2d3d;
            let (one, field_one, targets_one) = fill_in_bands(seed, leaf_first, &[(0, SIDE)]);
            for bands in [&BANDS[..], &[(0, 8), (8, SIDE)][..]] {
                let (map, field, targets) = fill_in_bands(seed, leaf_first, bands);
                assert_eq!(map.first_blocks(), one.first_blocks());
                assert_eq!(targets, targets_one);
                for y in 0..SIDE {
                    for x in 0..SIDE {
                        assert_eq!(field.get(x, y), field_one.get(x, y));
                        moved += (field.get(x, y) != 6) as usize;
                    }
                }
            }
        }
    }
    assert!(moved > 0, "some quantizers move");
}

#[test]
fn weights_keep_to_their_bands_in_fixed_point() {
    let full = whole(800);
    let at = |raw: i64| rerank_rgb_hue_alpha(true, Fixed { raw });
    assert_eq!((at(-5), at(22937), at(49152), at(i64::MAX)), (whole(0), whole(0), full, full));
    let mut last = at(22937);
    for raw in (22938..=49151).step_by(97) {
        let next = at(raw);
        assert!(last.less(next) && next.at_most(full));
        last = next;
    }
    assert_eq!(rerank_rgb_hue_alpha(false, whole(2)), whole(0));
    let [low, high] = BIAS_16X16.map(knob::<Fixed>);
    for (distance, value) in [(-3, low), (0, low), (2, high), (40, high)] {
        let distance = Fixed { raw: distance * FIXED_ONE };
        assert_eq!(banded(&BIAS_16X16, distance), value);
    }
}

#[test]
fn the_energy_of_gradients_is_never_negative() {
    let mut state = 99;
    for (w, h) in [(1, 1), (3, 5), (8, 8), (16, 9)] {
        let g: Vec<Vec<Fixed>> = (0..h)
            .map(|_| (0..w).map(|_| Fixed { raw: next(&mut state) as i64 - (1 << 30) }).collect())
            .collect();
        let energy = error_gradient_energy(&g, w, h);
        assert!(!energy.less(whole(0)));
        assert_eq!(energy == whole(0), w * h == 1);
    }
}

#[test]
fn logarithms_of_other_bases_go_through_those_of_two() {
    assert_eq!(whole(1).ln(), whole(0));
    assert_eq!(whole(1).log10(), whole(0));
    assert_eq!(whole(0).exp(), whole(1));
    assert_eq!(whole(2).ln(), Fixed { raw: 45426 });
    assert_eq!(whole(2).log10(), Fixed { raw: 19728 });
    assert_eq!(Fixed { raw: 45426 }.exp().nearest(), whole(2));
    assert_eq!(whole(0).ln(), Fixed { raw: i64::MIN });
    assert_eq!(whole(0).log10(), Fixed { raw: i64::MIN });
}
