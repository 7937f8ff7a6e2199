//! Mosaics of small transforms in place of a rectangular pair.
//!
//! Every child block of the pair may be an 8x8 DCT, an identity or a 2x2
//! transform. All assignments are scored jointly: the cost of the children plus
//! the energy of the seams between them.

use crate::amount::{Amount, OrderedAmount};
use crate::strategy::{STRATEGY_DCT, STRATEGY_DCT2X2, STRATEGY_IDENTITY};
use vstd::prelude::*;

verus! {

/// The transforms that a child may take.
pub const FINE_MOSAIC_CANDIDATES: [u8; 3] = [STRATEGY_DCT, STRATEGY_IDENTITY, STRATEGY_DCT2X2];

/// Most children that a mosaic covers.
pub const FINE_MOSAIC_MAX_CHILDREN: usize = 4;

/// Weight of the seam energy in the joint score.
pub const FINE_MOSAIC_BOUNDARY_ALPHA: i64 = 32;

/// Part of the merge's seam energy that a mosaic must stay below.
pub const FINE_MOSAIC_BOUNDARY_RATIO: i64 = 1;

/// Part of the merge's seam peak that a mosaic must stay below.
pub const FINE_MOSAIC_PEAK_RATIO: i64 = 1;

/// How decisively a mosaic must beat every incumbent on the joint score.
pub const FINE_MOSAIC_MARGIN: i64 = 1;

/// Extra bits charged per child that is not an 8x8 DCT.
pub const FINE_MOSAIC_RATE_CORRECTION_BITS: i64 = 8;

/// Bits per such child that the seam term may buy of a plain cost deficit.
pub const FINE_MOSAIC_SEAM_SUBSIDY_BITS: i64 = 8;

/// Up to this distance every pair is searched; above it, only costly hues are.
pub const FINE_MOSAIC_MAX_DISTANCE: i64 = 3;

/// The cost of coding a window with one transform, as reconstruction finds it.
#[derive(Clone, Copy)]
pub struct ReconCost<A> {
    /// Decision cost, gradient penalties included.
    pub cost: A,
    /// The same without charge for metadata; none where penalties are in the cost.
    pub base: Option<A>,
    pub distortion: A,
    pub rate: A,
    pub hue_distortion: A,
}

/// Energy of the seams inside a window, and the largest single term of it.
#[derive(Clone, Copy)]
pub struct Seam<A> {
    pub energy: A,
    pub peak: A,
}

/// The hue loss of a pair alone exceeds the extra charge for two children.
pub open spec fn hue_is_costly<A: Amount>(hue_distortion: A, lambda: A) -> bool {
    lambda.times_spec(A::ratio_spec(16, 1)).less_spec(hue_distortion)
}

/// Tells whether a pair's hue loss is worth searching a mosaic for.
pub fn coarse_mosaic_hue_is_costly<A: Amount>(hue_distortion: A, lambda: A) -> (r: bool)
    ensures
        r == hue_is_costly(hue_distortion, lambda),
{
    lambda.times(A::ratio(16, 1)).less(hue_distortion)
}

/// The hue gain is meaningful, pays for the seam regression, and leaves a clear
/// plain win.
pub open spec fn hue_repair_is_safe<A: Amount>(
    reference_hue: A,
    candidate_hue: A,
    candidate_rd: A,
    incumbent_rd: A,
    seam_regression: A,
) -> bool {
    let hue_gain = reference_hue.minus_spec(candidate_hue);
    &&& A::ratio_spec(5, 100).times_spec(reference_hue).less_spec(hue_gain)
    &&& candidate_rd.at_most_spec(A::ratio_spec(95, 100).times_spec(incumbent_rd))
    &&& seam_regression.at_most_spec(hue_gain)
}

/// Tells whether a colour repair may trade some seam quality.
pub fn fine_mosaic_hue_repair_is_safe<A: Amount>(
    reference_hue: A,
    candidate_hue: A,
    candidate_rd: A,
    incumbent_rd: A,
    seam_regression: A,
) -> (r: bool)
    ensures
        r == hue_repair_is_safe(
            reference_hue,
            candidate_hue,
            candidate_rd,
            incumbent_rd,
            seam_regression,
        ),
{
    let hue_gain: A = reference_hue.minus(candidate_hue);
    A::ratio(5, 100).times(reference_hue).less(hue_gain) && candidate_rd.at_most(
        A::ratio(95, 100).times(incumbent_rd),
    ) && seam_regression.at_most(hue_gain)
}

/// What reranking is run with.
#[derive(Clone, Copy)]
pub struct RerankParams<A> {
    pub distance: A,
    /// Factor on the merge's cost that its alternatives must stay below.
    pub margin: A,
    /// Bits of metadata charged per transform.
    pub meta_r: A,
    /// Price of a bit in the mosaic comparison.
    pub fine_lambda: A,
    pub slow: bool,
    pub coarse_chromatic: bool,
    pub hue_repair: bool,
    pub rectangles: bool,
}

/// Cost of a transform at the price that the mosaic comparison uses.
pub open spec fn fine_rd<A: Amount>(p: RerankParams<A>, c: ReconCost<A>) -> A {
    p.fine_lambda.fused_spec(c.rate.plus_spec(p.meta_r), c.distortion)
}

/// The same of a child, with the extra charge where it is not an 8x8 DCT.
pub open spec fn child_rd<A: Amount>(p: RerankParams<A>, c: ReconCost<A>, ci: int) -> A {
    let extra = if ci == 0 {
        A::zero_spec()
    } else {
        A::ratio_spec(FINE_MOSAIC_RATE_CORRECTION_BITS, 1)
    };
    p.fine_lambda.fused_spec(c.rate.plus_spec(p.meta_r).plus_spec(extra), c.distortion)
}

/// Base-three digits of an assignment from child `k` on.
pub open spec fn digits_from(code: int, k: int) -> int
    decreases k,
{
    if k <= 0 {
        code
    } else {
        digits_from(code, k - 1) / 3
    }
}

/// The candidate that an assignment gives child `k`.
pub open spec fn digit(code: int, k: int) -> int {
    digits_from(code, k) % 3
}

/// Number of assignments of `n` children.
pub open spec fn assignments(n: int) -> int
    decreases n,
{
    if n <= 0 {
        1
    } else {
        3 * assignments(n - 1)
    }
}

/// Cost of the leading `n` children of an assignment.
pub open spec fn rd_sum<A: Amount>(
    p: RerankParams<A>,
    fine: Seq<[ReconCost<A>; 3]>,
    code: int,
    n: int,
) -> A
    decreases n,
{
    if n <= 0 {
        A::zero_spec()
    } else {
        rd_sum(p, fine, code, n - 1).plus_spec(
            child_rd(p, fine[n - 1]@[digit(code, n - 1)], digit(code, n - 1)),
        )
    }
}

/// Hue loss of the leading `n` children of an assignment.
pub open spec fn hue_sum<A: Amount>(fine: Seq<[ReconCost<A>; 3]>, code: int, n: int) -> A
    decreases n,
{
    if n <= 0 {
        A::zero_spec()
    } else {
        hue_sum(fine, code, n - 1).plus_spec(fine[n - 1]@[digit(code, n - 1)].hue_distortion)
    }
}

/// How many of the leading `n` children of an assignment are not 8x8 DCTs.
pub open spec fn fine_count(code: int, n: int) -> int
    decreases n,
{
    if n <= 0 {
        0
    } else {
        fine_count(code, n - 1) + (if digit(code, n - 1) != 0 {
            1int
        } else {
            0
        })
    }
}

/// What the search holds assignments against.
pub struct MosaicIncumbents<A> {
    /// Cost of the merge.
    pub big: ReconCost<A>,
    /// Seams of the merge.
    pub seam: Seam<A>,
    /// Cost of the best other subdivision at the search's price.
    pub child: A,
}

/// Cost of the children as 8x8 DCTs.
pub open spec fn tiled_rd<A: Amount>(p: RerankParams<A>, fine: Seq<[ReconCost<A>; 3]>) -> A {
    rd_sum(p, fine, 0, fine.len() as int)
}

/// The hue loss that a repair must improve on.
pub open spec fn hue_reference<A: Amount>(
    p: RerankParams<A>,
    fine: Seq<[ReconCost<A>; 3]>,
    m: MosaicIncumbents<A>,
) -> A {
    if p.hue_repair {
        m.big.hue_distortion.lesser_spec(hue_sum(fine, 0, fine.len() as int))
    } else {
        A::zero_spec()
    }
}

/// The joint score of an assignment.
pub open spec fn joint<A: Amount>(rd: A, seam: Seam<A>) -> A {
    A::ratio_spec(FINE_MOSAIC_BOUNDARY_ALPHA, 1).fused_spec(seam.energy, rd)
}

/// The plain cost of an assignment is within the seam subsidy.
pub open spec fn within_subsidy<A: Amount>(
    p: RerankParams<A>,
    fine: Seq<[ReconCost<A>; 3]>,
    code: int,
) -> bool {
    let cap = p.fine_lambda.times_spec(A::ratio_spec(FINE_MOSAIC_SEAM_SUBSIDY_BITS, 1)).fused_spec(
        A::ratio_spec(fine_count(code, fine.len() as int) as i64, 1),
        tiled_rd(p, fine),
    );
    rd_sum(p, fine, code, fine.len() as int).at_most_spec(cap)
}

/// The seams of an assignment are better than those of the merge.
pub open spec fn improves_seams<A: Amount>(m: MosaicIncumbents<A>, seam: Seam<A>) -> bool {
    &&& seam.energy.less_spec(
        m.seam.energy.times_spec(A::ratio_spec(FINE_MOSAIC_BOUNDARY_RATIO, 1)),
    )
    &&& seam.peak.less_spec(m.seam.peak.times_spec(A::ratio_spec(FINE_MOSAIC_PEAK_RATIO, 1)))
}

/// An assignment repairs the hue well enough to pay for its seams.
pub open spec fn repairs_hue<A: Amount>(
    p: RerankParams<A>,
    fine: Seq<[ReconCost<A>; 3]>,
    m: MosaicIncumbents<A>,
    seam: Seam<A>,
    code: int,
) -> bool {
    let n = fine.len() as int;
    let regression = A::ratio_spec(FINE_MOSAIC_BOUNDARY_ALPHA, 1).times_spec(
        seam.energy.minus_spec(m.seam.energy).greater_spec(A::zero_spec()).plus_spec(
            seam.peak.minus_spec(m.seam.peak).greater_spec(A::zero_spec()),
        ),
    );
    p.hue_repair && hue_repair_is_safe(
        hue_reference(p, fine, m),
        hue_sum(fine, code, n),
        rd_sum(p, fine, code, n),
        tiled_rd(p, fine).lesser_spec(fine_rd(p, m.big)).lesser_spec(m.child),
        regression,
    )
}

/// The best assignment so far, if any qualified, and its joint score.
pub struct MosaicBest<A> {
    pub joint: A,
    pub code: Option<int>,
}

/// The best of the assignments below `n`. Assignment 0, plain tiling, is an
/// incumbent and no candidate.
pub open spec fn best_mosaic<A: Amount>(
    p: RerankParams<A>,
    fine: Seq<[ReconCost<A>; 3]>,
    seams: Seq<Seam<A>>,
    m: MosaicIncumbents<A>,
    n: int,
) -> MosaicBest<A>
    decreases n,
{
    if n <= 1 {
        MosaicBest { joint: A::infinite_spec(), code: None }
    } else {
        let head = best_mosaic(p, fine, seams, m, n - 1);
        let code = n - 1;
        let score = joint(rd_sum(p, fine, code, fine.len() as int), seams[code]);
        if within_subsidy(p, fine, code) && score.less_spec(head.joint) && (improves_seams(
            m,
            seams[code],
        ) || repairs_hue(p, fine, m, seams[code], code)) {
            MosaicBest { joint: score, code: Some(code) }
        } else {
            head
        }
    }
}

/// The joint score of the merge.
pub open spec fn big_joint<A: Amount>(p: RerankParams<A>, m: MosaicIncumbents<A>) -> A {
    joint(fine_rd(p, m.big), m.seam)
}

/// The assignment that replaces the merge, if one does: it must beat plain
/// tiling, the merge, and the best other subdivision.
pub open spec fn winning_mosaic<A: Amount>(
    p: RerankParams<A>,
    fine: Seq<[ReconCost<A>; 3]>,
    seams: Seq<Seam<A>>,
    m: MosaicIncumbents<A>,
) -> Option<int> {
    let best = best_mosaic(p, fine, seams, m, assignments(fine.len() as int));
    let margin = A::ratio_spec(FINE_MOSAIC_MARGIN, 1);
    let tiled = joint(tiled_rd(p, fine), seams[0]);
    if best.code is Some && best.joint.less_spec(tiled.times_spec(margin)) && best.joint.less_spec(
        big_joint(p, m).times_spec(p.margin).times_spec(margin),
    ) && best.joint.less_spec(m.child.times_spec(margin)) {
        best.code
    } else {
        None
    }
}

/// How much the winning assignment gains on the merge.
pub open spec fn mosaic_benefit<A: Amount>(
    p: RerankParams<A>,
    fine: Seq<[ReconCost<A>; 3]>,
    seams: Seq<Seam<A>>,
    m: MosaicIncumbents<A>,
) -> A {
    big_joint(p, m).minus_spec(
        best_mosaic(p, fine, seams, m, assignments(fine.len() as int)).joint,
    )
}

/// A winning assignment.
#[derive(Clone, Copy)]
pub struct MosaicChoice<A> {
    /// Index into the candidates for each child.
    pub sel: [u8; 4],
    pub benefit: A,
}

/// The candidates that an assignment gives the children.
pub open spec fn selection_of(code: int, n: int) -> Seq<u8> {
    Seq::new(
        4,
        |k: int|
            if k < n {
                digit(code, k) as u8
            } else {
                0
            },
    )
}

proof fn lemma_assignments(n: int)
    requires
        0 <= n <= 4,
    ensures
        assignments(n) == (if n == 0 {
            1int
        } else if n == 1 {
            3
        } else if n == 2 {
            9
        } else if n == 3 {
            27
        } else {
            81
        }),
{
    reveal_with_fuel(assignments, 5);
}

proof fn lemma_fine_count(code: int, n: int)
    requires
        0 <= n,
    ensures
        0 <= fine_count(code, n) <= n,
    decreases n,
{
    if n > 0 {
        lemma_fine_count(code, n - 1);
    }
}

pub(crate) proof fn lemma_digits(code: int, k: int)
    requires
        0 <= code,
        0 <= k,
    ensures
        0 <= digits_from(code, k) <= code,
        0 <= digit(code, k) < 3,
    decreases k,
{
    if k > 0 {
        lemma_digits(code, k - 1);
    }
}

fn select_children(code: usize, n: usize) -> (sel: [u8; 4])
    requires
        n <= 4,
    ensures
        sel@ == selection_of(code as int, n as int),
{
    let mut sel: [u8; 4] = [0; 4];
    let mut rest: usize = code;
    let mut k: usize = 0;
    while k < n
        invariant
            k <= n <= 4,
            rest == digits_from(code as int, k as int),
            forall|i: int|
                0 <= i < 4 ==> #[trigger] sel@[i] == (if i < k {
                    digit(code as int, i) as u8
                } else {
                    0
                }),
        decreases n - k,
    {
        proof {
            lemma_digits(code as int, k as int);
        }
        sel[k] = (rest % 3) as u8;
        rest = rest / 3;
        k += 1;
    }
    assert(sel@ =~= selection_of(code as int, n as int));
    sel
}

fn charge<A: Amount>(p: &RerankParams<A>, c: &ReconCost<A>, ci: usize) -> (r: A)
    ensures
        r == child_rd(*p, *c, ci as int),
{
    let extra: A = if ci == 0 {
        A::zero()
    } else {
        A::ratio(FINE_MOSAIC_RATE_CORRECTION_BITS, 1)
    };
    p.fine_lambda.fused(c.rate.plus(p.meta_r).plus(extra), c.distortion)
}

fn sum_children<A: Amount>(
    p: &RerankParams<A>,
    fine: &Vec<[ReconCost<A>; 3]>,
    code: usize,
) -> (r: (A, A, i64))
    requires
        fine@.len() <= 4,
    ensures
        r.0 == rd_sum(*p, fine@, code as int, fine@.len() as int),
        r.1 == hue_sum(fine@, code as int, fine@.len() as int),
        r.2 == fine_count(code as int, fine@.len() as int),
{
    let n: usize = fine.len();
    let sel: [u8; 4] = select_children(code, n);
    let mut rd: A = A::zero();
    let mut hue: A = A::zero();
    let mut count: i64 = 0;
    let mut k: usize = 0;
    while k < n
        invariant
            k <= n <= 4,
            n == fine@.len(),
            sel@ == selection_of(code as int, n as int),
            rd == rd_sum(*p, fine@, code as int, k as int),
            hue == hue_sum(fine@, code as int, k as int),
            count == fine_count(code as int, k as int),
            0 <= count <= k,
        decreases n - k,
    {
        proof {
            lemma_digits(code as int, k as int);
            assert(sel@[k as int] == digit(code as int, k as int) as u8);
        }
        let ci: usize = sel[k] as usize;
        let costs: [ReconCost<A>; 3] = fine[k];
        rd = rd.plus(charge(p, &costs[ci], ci));
        hue = hue.plus(costs[ci].hue_distortion);
        if ci != 0 {
            count += 1;
        }
        k += 1;
    }
    (rd, hue, count)
}

/// Searches all assignments of the children for one that replaces the merge.
///
/// `fine[k][c]` is the cost of child `k` with candidate `c`; `seams[code]` are
/// the seams of an assignment, whose base-three digits are the candidates, child
/// 0 the lowest.
pub fn search_mosaic<A: Amount>(
    p: &RerankParams<A>,
    fine: &Vec<[ReconCost<A>; 3]>,
    seams: &Vec<Seam<A>>,
    m: &MosaicIncumbents<A>,
) -> (r: Option<MosaicChoice<A>>)
    requires
        fine@.len() <= FINE_MOSAIC_MAX_CHILDREN,
        seams@.len() == assignments(fine@.len() as int),
    ensures
        match winning_mosaic(*p, fine@, seams@, *m) {
            None => r is None,
            Some(code) => r is Some && r->0.sel@ == selection_of(code, fine@.len() as int)
                && r->0.benefit == mosaic_benefit(*p, fine@, seams@, *m),
        },
{
    let n: usize = fine.len();
    proof {
        lemma_assignments(n as int);
    }
    let (tiled, tiled_hue, _): (A, A, i64) = sum_children(p, fine, 0);
    let big_rd: A = p.fine_lambda.fused(m.big.rate.plus(p.meta_r), m.big.distortion);
    let alpha: A = A::ratio(FINE_MOSAIC_BOUNDARY_ALPHA, 1);
    let big_score: A = alpha.fused(m.seam.energy, big_rd);
    let reference: A = if p.hue_repair {
        m.big.hue_distortion.lesser(tiled_hue)
    } else {
        A::zero()
    };
    let tiled_score: A = alpha.fused(seams[0].energy, tiled);
    let mut best_score: A = A::infinite();
    let mut best_code: Option<usize> = None;
    let mut code: usize = 1;
    while code < seams.len()
        invariant
            1 <= code <= seams@.len() <= 81,
            n == fine@.len(),
            n <= 4,
            tiled == tiled_rd(*p, fine@),
            big_rd == fine_rd(*p, m.big),
            alpha == A::ratio_spec(FINE_MOSAIC_BOUNDARY_ALPHA, 1),
            reference == hue_reference(*p, fine@, *m),
            ({
                let best = best_mosaic(*p, fine@, seams@, *m, code as int);
                &&& best_score == best.joint
                &&& best_code is Some == best.code is Some
                &&& best_code is Some ==> best_code->0 == best.code->0
            }),
        decreases seams@.len() - code,
    {
        let (rd, hue, count): (A, A, i64) = sum_children(p, fine, code);
        proof {
            lemma_fine_count(code as int, n as int);
        }
        let cap: A = p.fine_lambda.times(A::ratio(FINE_MOSAIC_SEAM_SUBSIDY_BITS, 1)).fused(
            A::ratio(count, 1),
            tiled,
        );
        if rd.at_most(cap) {
            let seam: Seam<A> = seams[code];
            let score: A = alpha.fused(seam.energy, rd);
            if score.less(best_score) {
                let better: bool = seam.energy.less(
                    m.seam.energy.times(A::ratio(FINE_MOSAIC_BOUNDARY_RATIO, 1)),
                ) && seam.peak.less(m.seam.peak.times(A::ratio(FINE_MOSAIC_PEAK_RATIO, 1)));
                let repaired: bool = p.hue_repair && fine_mosaic_hue_repair_is_safe(
                    reference,
                    hue,
                    rd,
                    tiled.lesser(big_rd).lesser(m.child),
                    alpha.times(
                        seam.energy.minus(m.seam.energy).greater(A::zero()).plus(
                            seam.peak.minus(m.seam.peak).greater(A::zero()),
                        ),
                    ),
                );
                if better || repaired {
                    best_score = score;
                    best_code = Some(code);
                }
            }
        }
        code += 1;
    }
    let margin: A = A::ratio(FINE_MOSAIC_MARGIN, 1);
    match best_code {
        Some(c) => if best_score.less(tiled_score.times(margin)) && best_score.less(
            big_score.times(p.margin).times(margin),
        ) && best_score.less(m.child.times(margin)) {
            Some(MosaicChoice { sel: select_children(c, n), benefit: big_score.minus(best_score) })
        } else {
            None
        },
        None => None,
    }
}

proof fn lemma_best_code<A: Amount>(
    p: RerankParams<A>,
    fine: Seq<[ReconCost<A>; 3]>,
    seams: Seq<Seam<A>>,
    m: MosaicIncumbents<A>,
    n: int,
)
    ensures
        best_mosaic(p, fine, seams, m, n).code is Some ==> 1 <= best_mosaic(
            p,
            fine,
            seams,
            m,
            n,
        ).code->0 < n,
    decreases n,
{
    if n > 1 {
        lemma_best_code(p, fine, seams, m, n - 1);
    }
}

pub(crate) proof fn lemma_winning_code<A: Amount>(
    p: RerankParams<A>,
    fine: Seq<[ReconCost<A>; 3]>,
    seams: Seq<Seam<A>>,
    m: MosaicIncumbents<A>,
)
    ensures
        winning_mosaic(p, fine, seams, m) is Some ==> 1 <= winning_mosaic(p, fine, seams, m)->0
            < assignments(fine.len() as int),
{
    lemma_best_code(p, fine, seams, m, assignments(fine.len() as int));
}

/// An assignment may replace the merge: its plain cost is within the subsidy,
/// and it improves the seams or repairs the hue.
pub open spec fn qualifies<A: Amount>(
    p: RerankParams<A>,
    fine: Seq<[ReconCost<A>; 3]>,
    seams: Seq<Seam<A>>,
    m: MosaicIncumbents<A>,
    code: int,
) -> bool {
    within_subsidy(p, fine, code) && (improves_seams(m, seams[code]) || repairs_hue(
        p,
        fine,
        m,
        seams[code],
        code,
    ))
}

/// The best assignment found qualifies, and no other that does scores less.
pub proof fn law_best_mosaic_scores_least<A: OrderedAmount>(
    p: RerankParams<A>,
    fine: Seq<[ReconCost<A>; 3]>,
    seams: Seq<Seam<A>>,
    m: MosaicIncumbents<A>,
    n: int,
)
    ensures
        ({
            let best = best_mosaic(p, fine, seams, m, n);
            &&& best.code is Some ==> 1 <= best.code->0 < n && qualifies(
                p,
                fine,
                seams,
                m,
                best.code->0,
            ) && best.joint == joint(
                rd_sum(p, fine, best.code->0, fine.len() as int),
                seams[best.code->0],
            )
            &&& forall|code: int|
                1 <= code < n && #[trigger] qualifies(p, fine, seams, m, code) ==> !joint(
                    rd_sum(p, fine, code, fine.len() as int),
                    seams[code],
                ).less_spec(best.joint)
        }),
    decreases n,
{
    if n > 1 {
        law_best_mosaic_scores_least(p, fine, seams, m, n - 1);
        let head = best_mosaic(p, fine, seams, m, n - 1);
        let best = best_mosaic(p, fine, seams, m, n);
        let last = joint(rd_sum(p, fine, n - 1, fine.len() as int), seams[n - 1]);
        A::less_irreflexive(last);
        assert forall|code: int|
            1 <= code < n && #[trigger] qualifies(p, fine, seams, m, code) implies !joint(
            rd_sum(p, fine, code, fine.len() as int),
            seams[code],
        ).less_spec(best.joint) by {
            let score = joint(rd_sum(p, fine, code, fine.len() as int), seams[code]);
            if code < n - 1 && score.less_spec(best.joint) && best.joint != head.joint {
                A::less_transitive(score, last, head.joint);
            }
        }
    }
}

} // verus!
