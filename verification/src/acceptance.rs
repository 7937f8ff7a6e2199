//! How far below what it replaces a merge must come in, by how even the quantizers
//! under it are.

use crate::amount::Amount;
use crate::bands::{band_sites, lemma_sites_inside, selection_sites, Site};
use crate::mosaic::RerankParams;
use crate::quant_field::{block_qac_2x2, quant_extremes, window_max, window_min, Field, QuantField};
use crate::scope::{SearchScope, Speed};
use crate::selection::SiteCosts;
use crate::super_block::{MergeTuning, SuperBlockCosts};
use crate::tuning::{gated, knob, knob_spec, risk_gated, tuning_at, RERANK_META_R};
use vstd::prelude::*;

verus! {

/// An acceptance factor of a merge over a 4x4 region, held back by the extremes of the
/// quantizers there.
pub open spec fn region_gated<A: Amount>(f: Field, bx: int, by: int, k: A, accept: A) -> A {
    gated(
        k,
        accept,
        A::ratio_spec(window_min(f, bx, by, 4, 255, 4) as i64, 1),
        A::ratio_spec(window_max(f, bx, by, 4, 0, 4) as i64, 1),
        A::ratio_spec(2, 1),
    )
}

/// The acceptance factors of the merges over the 4x4 region at `(bx, by)`: of the
/// square, and of its four halves.
pub fn region_accept<A: Amount>(
    field: &QuantField,
    bx: usize,
    by: usize,
    t: &MergeTuning<A>,
) -> (r: [A; 5])
    requires
        by + 4 <= field@.len(),
        by + 4 <= usize::MAX,
        bx + 4 <= usize::MAX,
        forall|y: int| 0 <= y < field@.len() ==> bx + 4 <= (#[trigger] field@[y]).len(),
    ensures
        r@[0] == region_gated(field@, bx as int, by as int, t.risk_k, t.accept_32),
        forall|i: int|
            1 <= i < 5 ==> #[trigger] r@[i] == region_gated(
                field@,
                bx as int,
                by as int,
                t.risk_k,
                t.accept_32_rect,
            ),
{
    let (q_min, q_max) = quant_extremes(field, bx, by, 4, 4);
    let least: A = A::ratio(q_min as i64, 1);
    let most: A = A::ratio(q_max as i64, 1);
    let square: A = risk_gated(t.risk_k, t.accept_32, least, most, A::ratio(2, 1));
    let half: A = risk_gated(t.risk_k, t.accept_32_rect, least, most, A::ratio(2, 1));
    [square, half, half, half, half]
}

/// The scaled quantizer of a block.
pub open spec fn scaled_at<A: Amount>(f: Field, x: int, y: int, scale: A) -> A {
    scale.times_spec(A::ratio_spec(f[y][x] as i64, 1))
}

/// The smallest scaled quantizer of the super-block at `(bx, by)`.
pub open spec fn least_scaled<A: Amount>(f: Field, bx: int, by: int, scale: A) -> A {
    A::infinite_spec().lesser_spec(scaled_at(f, bx, by, scale)).lesser_spec(
        scaled_at(f, bx + 1, by, scale),
    ).lesser_spec(scaled_at(f, bx, by + 1, scale)).lesser_spec(
        scaled_at(f, bx + 1, by + 1, scale),
    )
}

/// The largest scaled quantizer of the super-block at `(bx, by)`.
pub open spec fn most_scaled<A: Amount>(f: Field, bx: int, by: int, scale: A) -> A {
    A::zero_spec().greater_spec(scaled_at(f, bx, by, scale)).greater_spec(
        scaled_at(f, bx + 1, by, scale),
    ).greater_spec(scaled_at(f, bx, by + 1, scale)).greater_spec(
        scaled_at(f, bx + 1, by + 1, scale),
    )
}

/// The acceptance factor of the square merge over the super-block at `(bx, by)`.
pub open spec fn super_gated<A: Amount>(
    f: Field,
    bx: int,
    by: int,
    scale: A,
    t: MergeTuning<A>,
) -> A {
    gated(
        t.risk_k,
        t.accept_16,
        least_scaled(f, bx, by, scale),
        most_scaled(f, bx, by, scale),
        A::ratio_spec(1, 1),
    )
}

/// The acceptance factor of the square merge over the super-block at `(bx, by)`.
pub fn super_accept<A: Amount>(
    field: &QuantField,
    bx: usize,
    by: usize,
    scale: A,
    t: &MergeTuning<A>,
) -> (r: A)
    requires
        by + 2 <= field@.len(),
        by < usize::MAX,
        bx < usize::MAX,
        forall|y: int| 0 <= y < field@.len() ==> bx + 2 <= (#[trigger] field@[y]).len(),
    ensures
        r == super_gated(field@, bx as int, by as int, scale, *t),
{
    let qac: [[A; 2]; 2] = block_qac_2x2(field, bx, by, scale);
    proof {
        assert(qac@[0]@[0] == scaled_at(field@, bx as int, by as int, scale));
        assert(qac@[0]@[1] == scaled_at(field@, bx + 1, by as int, scale));
        assert(qac@[1]@[0] == scaled_at(field@, bx as int, by + 1, scale));
        assert(qac@[1]@[1] == scaled_at(field@, bx + 1, by + 1, scale));
    }
    let least: A = A::infinite().lesser(qac[0][0]).lesser(qac[0][1]).lesser(qac[1][0]).lesser(
        qac[1][1],
    );
    let most: A = A::zero().greater(qac[0][0]).greater(qac[0][1]).greater(qac[1][0]).greater(
        qac[1][1],
    );
    risk_gated(t.risk_k, t.accept_16, least, most, A::ratio(1, 1))
}

/// The costs of a super-block as its decision takes them: `measured`, with the square
/// merge accepted as the quantizers under it allow.
pub fn accept_super_block<A: Amount>(
    measured: SuperBlockCosts<A>,
    field: &QuantField,
    bx: usize,
    by: usize,
    scale: A,
    t: &MergeTuning<A>,
) -> (r: SuperBlockCosts<A>)
    requires
        by + 2 <= field@.len(),
        by < usize::MAX,
        bx < usize::MAX,
        forall|y: int| 0 <= y < field@.len() ==> bx + 2 <= (#[trigger] field@[y]).len(),
    ensures
        r.accept_16 == super_gated(field@, bx as int, by as int, scale, *t),
        r == (SuperBlockCosts { accept_16: r.accept_16, ..measured }),
{
    SuperBlockCosts { accept_16: super_accept(field, bx, by, scale, t), ..measured }
}

/// The costs of the 4x4 region at `(bx, by)` as its decision takes them: the merges
/// over it, and over its four super-blocks, accepted as the quantizers under them
/// allow.
pub fn accept_region<A: Amount>(
    measured: SiteCosts<A>,
    field: &QuantField,
    bx: usize,
    by: usize,
    scale: A,
    t: &MergeTuning<A>,
) -> (r: SiteCosts<A>)
    requires
        by + 4 <= field@.len(),
        by + 4 <= usize::MAX,
        bx + 4 <= usize::MAX,
        forall|y: int| 0 <= y < field@.len() ==> bx + 4 <= (#[trigger] field@[y]).len(),
    ensures
        r.raw == measured.raw,
        r.accept@[0] == region_gated(field@, bx as int, by as int, t.risk_k, t.accept_32),
        forall|i: int|
            1 <= i < 5 ==> #[trigger] r.accept@[i] == region_gated(
                field@,
                bx as int,
                by as int,
                t.risk_k,
                t.accept_32_rect,
            ),
        forall|j: int, i: int|
            0 <= j < 2 && 0 <= i < 2 ==> (#[trigger] r.supers@[j]@[i]) == (SuperBlockCosts {
                accept_16: super_gated(field@, bx + 2 * i, by + 2 * j, scale, *t),
                ..measured.supers@[j]@[i]
            }),
{
    let m: [[SuperBlockCosts<A>; 2]; 2] = measured.supers;
    SiteCosts {
        supers: [
            [
                accept_super_block(m[0][0], field, bx, by, scale, t),
                accept_super_block(m[0][1], field, bx + 2, by, scale, t),
            ],
            [
                accept_super_block(m[1][0], field, bx, by + 2, scale, t),
                accept_super_block(m[1][1], field, bx + 2, by + 2, scale, t),
            ],
        ],
        raw: measured.raw,
        accept: region_accept(field, bx, by, t),
    }
}

/// `r` is `m` with the merges at a site accepted as the quantizers under them allow.
pub open spec fn accepted_at<A: Amount>(
    r: SiteCosts<A>,
    m: SiteCosts<A>,
    f: Field,
    site: Site,
    scale: A,
    t: MergeTuning<A>,
) -> bool {
    &&& r.raw == m.raw
    &&& forall|j: int, i: int|
        0 <= j < 2 && 0 <= i < 2 ==> (#[trigger] r.supers@[j]@[i]) == if site.quad || j == 0 && i
            == 0 {
            SuperBlockCosts {
                accept_16: super_gated(f, site.bx + 2 * i, site.by + 2 * j, scale, t),
                ..m.supers@[j]@[i]
            }
        } else {
            m.supers@[j]@[i]
        }
    &&& forall|k: int|
        0 <= k < 5 ==> #[trigger] r.accept@[k] == if !site.quad {
            m.accept@[k]
        } else {
            region_gated(
                f,
                site.bx as int,
                site.by as int,
                t.risk_k,
                if k == 0 {
                    t.accept_32
                } else {
                    t.accept_32_rect
                },
            )
        }
}

/// The costs of the sites of a band as selection takes them: each as it was measured,
/// with its merges accepted as the quantizers under them allow.
pub fn accept_band<A: Amount>(
    measured: &[SiteCosts<A>],
    field: &QuantField,
    xsize: usize,
    ysize: usize,
    band: (usize, usize),
    scale: A,
    t: &MergeTuning<A>,
) -> (r: Vec<SiteCosts<A>>)
    requires
        measured@.len() == band_sites(
            xsize as int,
            ysize as int,
            band.0 as int,
            band.1 as int,
        ).len(),
        field@.len() == ysize,
        forall|y: int| 0 <= y < ysize ==> (#[trigger] field@[y]).len() == xsize,
    ensures
        r@.len() == measured@.len(),
        forall|k: int|
            0 <= k < r@.len() ==> accepted_at(
                #[trigger] r@[k],
                measured@[k],
                field@,
                band_sites(xsize as int, ysize as int, band.0 as int, band.1 as int)[k],
                scale,
                *t,
            ),
{
    let sites: Vec<Site> = selection_sites(xsize, ysize, band.0, band.1);
    proof {
        lemma_sites_inside(xsize as int, ysize as int, band.0 as int, band.1 as int);
    }
    let mut out: Vec<SiteCosts<A>> = Vec::new();
    let mut k: usize = 0;
    while k < sites.len()
        invariant
            k <= sites@.len(),
            sites@ == band_sites(xsize as int, ysize as int, band.0 as int, band.1 as int),
            measured@.len() == sites@.len(),
            field@.len() == ysize,
            forall|y: int| 0 <= y < ysize ==> (#[trigger] field@[y]).len() == xsize,
            forall|i: int|
                0 <= i < sites@.len() ==> (#[trigger] sites@[i]).bx + sites@[i].side() <= xsize
                    && sites@[i].by + sites@[i].side() <= ysize,
            out@.len() == k,
            forall|i: int|
                0 <= i < k ==> accepted_at(
                    #[trigger] out@[i],
                    measured@[i],
                    field@,
                    sites@[i],
                    scale,
                    *t,
                ),
        decreases sites@.len() - k,
    {
        let site: Site = sites[k];
        let m: SiteCosts<A> = measured[k];
        assert(sites@[k as int] == site);
        let next: SiteCosts<A> = if site.quad {
            accept_region(m, field, site.bx, site.by, scale, t)
        } else {
            let first: SuperBlockCosts<A> = accept_super_block(
                m.supers[0][0],
                field,
                site.bx,
                site.by,
                scale,
                t,
            );
            SiteCosts {
                supers: [[first, m.supers[0][1]], [m.supers[1][0], m.supers[1][1]]],
                raw: m.raw,
                accept: m.accept,
            }
        };
        out.push(next);
        k += 1;
    }
    out
}

/// From this blue weight on, hue errors count in the acceptance of mosaics.
pub const HUE_REPAIR_BLUE: i64 = 800_000_000;

/// What reranking at a distance and a speed runs with. `chromatic` says that red
/// against green carries the picture, `blue` is the blue weight of the colour
/// transform, and `fine_lambda` the price of a bit in the comparison of mosaics.
pub open spec fn rerank_params_at<A: Amount>(
    distance: A,
    speed: Speed,
    chromatic: bool,
    blue: A,
    fine_lambda: A,
) -> RerankParams<A> {
    RerankParams {
        distance,
        margin: tuning_at(distance).rerank_margin,
        meta_r: knob_spec(RERANK_META_R),
        fine_lambda,
        slow: speed == Speed::Slow,
        coarse_chromatic: chromatic,
        hue_repair: chromatic && !blue.less_spec(knob_spec(HUE_REPAIR_BLUE)),
        rectangles: speed == Speed::Slow,
    }
}

impl<A: Amount> RerankParams<A> {
    /// What reranking runs with.
    pub fn new(distance: A, speed: Speed, chromatic: bool, blue: A, fine_lambda: A) -> (r: Self)
        ensures
            r == rerank_params_at(distance, speed, chromatic, blue, fine_lambda),
    {
        RerankParams {
            distance,
            margin: MergeTuning::new(distance).rerank_margin,
            meta_r: knob(RERANK_META_R),
            fine_lambda,
            slow: speed == Speed::Slow,
            coarse_chromatic: chromatic,
            hue_repair: chromatic && !blue.less(knob(HUE_REPAIR_BLUE)),
            rectangles: SearchScope::for_speed(speed).rectangles(),
        }
    }
}

} // verus!
