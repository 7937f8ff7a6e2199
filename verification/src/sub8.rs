//! Transforms below 8x8: which of them a block should take, if any.

use crate::amount::{Amount, OrderedAmount};
use crate::leaf_first::Sub8Pick;
use crate::strategy::{
    STRATEGY_AFV0, STRATEGY_AFV1, STRATEGY_AFV2, STRATEGY_AFV3, STRATEGY_DCT, STRATEGY_DCT2X2,
    STRATEGY_DCT4X4, STRATEGY_DCT4X8, STRATEGY_DCT8X4, STRATEGY_IDENTITY,
};
use crate::tuning::{
    fine_bias, fine_transform_bias, knob, knob_spec, BIAS_4X4, BIAS_4X8, FINE_RECON_MARGIN,
};
use vstd::prelude::*;

verus! {

/// Bias of the identity transform before it is favoured.
pub const IDENTITY_BIAS: i64 = 1_042_754_300;

/// Bias of the 2x2 transform before it is favoured.
pub const DCT2X2_BIAS: i64 = 950_000_000;

/// Coefficient costs of a block with the 8x8 DCT and with each transform below
/// it.
#[derive(Clone, Copy)]
pub struct Sub8Costs<A> {
    pub dct8: A,
    pub identity: A,
    pub dct2x2: A,
    pub dct4x4: A,
    pub dct4x8: A,
    pub dct8x4: A,
    pub afv: [A; 4],
}

/// The costs with the families that are out of the question priced out.
pub open spec fn priced_out<A: Amount>(
    c: Sub8Costs<A>,
    with_dct4: bool,
    with_fine: bool,
) -> Sub8Costs<A> {
    let inf = A::infinite_spec();
    Sub8Costs {
        identity: if with_fine {
            c.identity
        } else {
            inf
        },
        dct2x2: if with_fine {
            c.dct2x2
        } else {
            inf
        },
        dct4x4: if with_dct4 {
            c.dct4x4
        } else {
            inf
        },
        dct4x8: if with_dct4 {
            c.dct4x8
        } else {
            inf
        },
        dct8x4: if with_dct4 {
            c.dct8x4
        } else {
            inf
        },
        ..c
    }
}

/// Prices out the families that are out of the question.
pub fn sub8_strategy_costs<A: Amount>(c: &Sub8Costs<A>, with_dct4: bool, with_fine: bool) -> (r:
    Sub8Costs<A>)
    ensures
        r == priced_out(*c, with_dct4, with_fine),
{
    let inf: A = A::infinite();
    let (identity, dct2x2): (A, A) = if with_fine {
        (c.identity, c.dct2x2)
    } else {
        (inf, inf)
    };
    let (dct4x4, dct4x8, dct8x4): (A, A, A) = if with_dct4 {
        (c.dct4x4, c.dct4x8, c.dct8x4)
    } else {
        (inf, inf, inf)
    };
    Sub8Costs { dct8: c.dct8, identity, dct2x2, dct4x4, dct4x8, dct8x4, afv: c.afv }
}

/// A transform with its decision cost and the same without bias.
#[derive(Clone, Copy)]
pub struct Contender<A> {
    pub strategy: u8,
    pub biased: A,
    pub raw: A,
}

/// The challenger where it costs less.
pub open spec fn cheaper<A: Amount>(best: Contender<A>, other: Contender<A>) -> Contender<A> {
    if other.biased.less_spec(best.biased) {
        other
    } else {
        best
    }
}

fn cheaper_of<A: Amount>(best: Contender<A>, other: Contender<A>) -> (r: Contender<A>)
    ensures
        r == cheaper(best, other),
{
    if other.biased.less(best.biased) {
        other
    } else {
        best
    }
}

/// The strategy of corner kind `k`.
pub open spec fn afv_strategy(k: int) -> u8 {
    if k == 0 {
        STRATEGY_AFV0
    } else if k == 1 {
        STRATEGY_AFV1
    } else if k == 2 {
        STRATEGY_AFV2
    } else {
        STRATEGY_AFV3
    }
}

/// A corner transform as a contender.
pub open spec fn afv_contender<A: Amount>(c: Sub8Costs<A>, bias_afv: A, k: int) -> Contender<A> {
    Contender {
        strategy: afv_strategy(k),
        biased: bias_afv.times_spec(c.afv@[k]),
        raw: c.afv@[k],
    }
}

/// The best of the 4x4, 4x8 and 8x4 transforms and the corner transforms.
pub open spec fn structural_best<A: Amount>(c: Sub8Costs<A>, bias_afv: A) -> Contender<A> {
    let b4 = knob_spec::<A>(BIAS_4X4);
    let b8 = knob_spec::<A>(BIAS_4X8);
    let first = Contender {
        strategy: STRATEGY_DCT4X4,
        biased: b4.times_spec(c.dct4x4),
        raw: c.dct4x4,
    };
    let second = cheaper(
        first,
        Contender { strategy: STRATEGY_DCT4X8, biased: b8.times_spec(c.dct4x8), raw: c.dct4x8 },
    );
    let third = cheaper(
        second,
        Contender { strategy: STRATEGY_DCT8X4, biased: b8.times_spec(c.dct8x4), raw: c.dct8x4 },
    );
    cheaper(
        cheaper(
            cheaper(
                cheaper(third, afv_contender(c, bias_afv, 0)),
                afv_contender(c, bias_afv, 1),
            ),
            afv_contender(c, bias_afv, 2),
        ),
        afv_contender(c, bias_afv, 3),
    )
}

/// The better of the identity and the 2x2 transform; the latter on a tie.
pub open spec fn fine_best<A: Amount>(c: Sub8Costs<A>, distance: A) -> Contender<A> {
    let identity = fine_bias(knob_spec(IDENTITY_BIAS), distance).times_spec(c.identity);
    let dct2x2 = fine_bias(knob_spec(DCT2X2_BIAS), distance).times_spec(c.dct2x2);
    if identity.less_spec(dct2x2) {
        Contender { strategy: STRATEGY_IDENTITY, biased: identity, raw: c.identity }
    } else {
        Contender { strategy: STRATEGY_DCT2X2, biased: dct2x2, raw: c.dct2x2 }
    }
}

/// What is left of a block's alternatives after the coefficient comparison.
pub struct Sub8Shortlist<A> {
    /// The best structural transform where it beats the 8x8 DCT.
    pub structural: Option<Sub8Pick<A>>,
    /// Its cost even where it does not.
    pub structural_cost: A,
    /// The best fine transform where it beats the 8x8 DCT; its gain is not known
    /// yet.
    pub fine: Option<Sub8Pick<A>>,
}

/// The shortlist of a block.
pub open spec fn shortlist_of<A: Amount>(
    c: Sub8Costs<A>,
    distance: A,
    bias_afv: A,
) -> Sub8Shortlist<A> {
    let s = structural_best(c, bias_afv);
    let f = fine_best(c, distance);
    Sub8Shortlist {
        structural: if s.biased.less_spec(c.dct8) {
            Some(
                Sub8Pick {
                    strategy: s.strategy,
                    biased_j: s.biased,
                    raw_j: s.raw,
                    gain: c.dct8.minus_spec(s.biased),
                },
            )
        } else {
            None
        },
        structural_cost: s.biased,
        fine: if f.biased.less_spec(c.dct8) {
            Some(
                Sub8Pick {
                    strategy: f.strategy,
                    biased_j: f.biased,
                    raw_j: f.raw,
                    gain: A::zero_spec(),
                },
            )
        } else {
            None
        },
    }
}

/// Shortlists the alternatives of a block by their coefficient costs.
pub fn sub8_shortlist<A: Amount>(c: &Sub8Costs<A>, distance: A, bias_afv: A) -> (r: Sub8Shortlist<
    A,
>)
    ensures
        r == shortlist_of(*c, distance, bias_afv),
{
    let b4: A = knob(BIAS_4X4);
    let b8: A = knob(BIAS_4X8);
    let mut best: Contender<A> = Contender {
        strategy: STRATEGY_DCT4X4,
        biased: b4.times(c.dct4x4),
        raw: c.dct4x4,
    };
    best = cheaper_of(
        best,
        Contender { strategy: STRATEGY_DCT4X8, biased: b8.times(c.dct4x8), raw: c.dct4x8 },
    );
    best = cheaper_of(
        best,
        Contender { strategy: STRATEGY_DCT8X4, biased: b8.times(c.dct8x4), raw: c.dct8x4 },
    );
    best = cheaper_of(
        best,
        Contender { strategy: STRATEGY_AFV0, biased: bias_afv.times(c.afv[0]), raw: c.afv[0] },
    );
    best = cheaper_of(
        best,
        Contender { strategy: STRATEGY_AFV1, biased: bias_afv.times(c.afv[1]), raw: c.afv[1] },
    );
    best = cheaper_of(
        best,
        Contender { strategy: STRATEGY_AFV2, biased: bias_afv.times(c.afv[2]), raw: c.afv[2] },
    );
    best = cheaper_of(
        best,
        Contender { strategy: STRATEGY_AFV3, biased: bias_afv.times(c.afv[3]), raw: c.afv[3] },
    );
    let identity: A = fine_transform_bias(knob(IDENTITY_BIAS), distance).times(c.identity);
    let dct2x2: A = fine_transform_bias(knob(DCT2X2_BIAS), distance).times(c.dct2x2);
    let fine: Contender<A> = if identity.less(dct2x2) {
        Contender { strategy: STRATEGY_IDENTITY, biased: identity, raw: c.identity }
    } else {
        Contender { strategy: STRATEGY_DCT2X2, biased: dct2x2, raw: c.dct2x2 }
    };
    Sub8Shortlist {
        structural: if best.biased.less(c.dct8) {
            Some(
                Sub8Pick {
                    strategy: best.strategy,
                    biased_j: best.biased,
                    raw_j: best.raw,
                    gain: c.dct8.minus(best.biased),
                },
            )
        } else {
            None
        },
        structural_cost: best.biased,
        fine: if fine.biased.less(c.dct8) {
            Some(
                Sub8Pick {
                    strategy: fine.strategy,
                    biased_j: fine.biased,
                    raw_j: fine.raw,
                    gain: A::zero(),
                },
            )
        } else {
            None
        },
    }
}

/// What admitting a fine transform is charged: bits per block, more of them where
/// it replaces anything but the 8x8 DCT, and their price.
#[derive(Clone, Copy)]
pub struct FineCharge<A> {
    pub lambda: A,
    pub bits: A,
    pub leaf_extra_bits: A,
}

/// The gain of a fine transform over the transform in place, by reconstruction
/// costs; none where it does not beat it by the margin after the charge.
pub open spec fn admitted_gain<A: Amount>(
    charge: FineCharge<A>,
    incumbent: u8,
    incumbent_cost: A,
    fine_cost: A,
) -> Option<A> {
    let extra = if incumbent == STRATEGY_DCT {
        A::zero_spec()
    } else {
        charge.leaf_extra_bits
    };
    let charged = charge.lambda.fused_spec(charge.bits.plus_spec(extra), fine_cost);
    if charged.less_spec(incumbent_cost.times_spec(knob_spec(FINE_RECON_MARGIN))) {
        Some(incumbent_cost.minus_spec(charged))
    } else {
        None
    }
}

/// Admits a fine transform by reconstruction costs, or refuses it.
pub fn fine_recon_admit_against<A: Amount>(
    charge: &FineCharge<A>,
    incumbent: u8,
    incumbent_cost: A,
    fine_cost: A,
) -> (r: Option<A>)
    ensures
        r == admitted_gain(*charge, incumbent, incumbent_cost, fine_cost),
{
    let extra: A = if incumbent == STRATEGY_DCT {
        A::zero()
    } else {
        charge.leaf_extra_bits
    };
    let charged: A = charge.lambda.fused(charge.bits.plus(extra), fine_cost);
    if charged.less(incumbent_cost.times(knob(FINE_RECON_MARGIN))) {
        Some(incumbent_cost.minus(charged))
    } else {
        None
    }
}

/// A fine transform is worth reconstructing: it is shortlisted and cheaper than
/// the best structural one.
pub open spec fn fine_tried<A: Amount>(l: Sub8Shortlist<A>) -> bool {
    l.fine is Some && (l.fine->0).biased_j.less_spec(l.structural_cost)
}

/// The transform below 8x8 that a block takes, if any. `recon` holds the
/// reconstruction costs of the 8x8 DCT and of the fine transform, where one is
/// tried.
pub open spec fn sub8_choice<A: Amount>(
    l: Sub8Shortlist<A>,
    charge: FineCharge<A>,
    recon: (A, A),
) -> Option<Sub8Pick<A>> {
    let gain = admitted_gain(charge, STRATEGY_DCT, recon.0, recon.1);
    if fine_tried(l) && gain is Some {
        Some(Sub8Pick { gain: gain->0, ..l.fine->0 })
    } else {
        l.structural
    }
}

/// Decides which transform below 8x8 a block takes, if any.
pub fn evaluate_sub8<A: Amount>(
    l: &Sub8Shortlist<A>,
    charge: &FineCharge<A>,
    recon: (A, A),
) -> (r: Option<Sub8Pick<A>>)
    ensures
        r == sub8_choice(*l, *charge, recon),
{
    if let Some(fine) = l.fine {
        if fine.biased_j.less(l.structural_cost) {
            if let Some(gain) = fine_recon_admit_against(charge, STRATEGY_DCT, recon.0, recon.1) {
                return Some(Sub8Pick { gain, ..fine });
            }
        }
    }
    l.structural
}

/// The strategy and the gain of what a block takes.
pub fn evaluate_sub8_candidate<A: Amount>(
    l: &Sub8Shortlist<A>,
    charge: &FineCharge<A>,
    recon: (A, A),
) -> (r: Option<(u8, A)>)
    ensures
        r == (match sub8_choice(*l, *charge, recon) {
            Some(p) => Some((p.strategy, p.gain)),
            None => None,
        }),
{
    match evaluate_sub8(l, charge, recon) {
        Some(p) => Some((p.strategy, p.gain)),
        None => None,
    }
}

/// No structural transform costs less than the one shortlisted.
pub proof fn law_structural_best_is_cheapest<A: OrderedAmount>(c: Sub8Costs<A>, bias_afv: A, k: int)
    requires
        0 <= k < 4,
    ensures
        ({
            let best = structural_best(c, bias_afv).biased;
            &&& !knob_spec::<A>(BIAS_4X4).times_spec(c.dct4x4).less_spec(best)
            &&& !knob_spec::<A>(BIAS_4X8).times_spec(c.dct4x8).less_spec(best)
            &&& !knob_spec::<A>(BIAS_4X8).times_spec(c.dct8x4).less_spec(best)
            &&& !bias_afv.times_spec(c.afv@[k]).less_spec(best)
        }),
{
    let b4 = knob_spec::<A>(BIAS_4X4);
    let b8 = knob_spec::<A>(BIAS_4X8);
    let c0 = Contender {
        strategy: STRATEGY_DCT4X4,
        biased: b4.times_spec(c.dct4x4),
        raw: c.dct4x4,
    };
    let o1 = Contender {
        strategy: STRATEGY_DCT4X8,
        biased: b8.times_spec(c.dct4x8),
        raw: c.dct4x8,
    };
    let o2 = Contender {
        strategy: STRATEGY_DCT8X4,
        biased: b8.times_spec(c.dct8x4),
        raw: c.dct8x4,
    };
    let c1 = cheaper(c0, o1);
    let c2 = cheaper(c1, o2);
    let c3 = cheaper(c2, afv_contender(c, bias_afv, 0));
    let c4 = cheaper(c3, afv_contender(c, bias_afv, 1));
    let c5 = cheaper(c4, afv_contender(c, bias_afv, 2));
    let c6 = cheaper(c5, afv_contender(c, bias_afv, 3));
    lemma_cheaper(c0, o1);
    lemma_cheaper(c1, o2);
    lemma_cheaper(c2, afv_contender(c, bias_afv, 0));
    lemma_cheaper(c3, afv_contender(c, bias_afv, 1));
    lemma_cheaper(c4, afv_contender(c, bias_afv, 2));
    lemma_cheaper(c5, afv_contender(c, bias_afv, 3));
    lemma_chain(c4.biased, c5.biased, c6.biased);
    lemma_chain(c3.biased, c4.biased, c6.biased);
    lemma_chain(c2.biased, c3.biased, c6.biased);
    lemma_chain(c1.biased, c2.biased, c6.biased);
    lemma_chain(c0.biased, c1.biased, c6.biased);
    lemma_chain(o1.biased, c1.biased, c6.biased);
    lemma_chain(o2.biased, c2.biased, c6.biased);
    lemma_chain(afv_contender(c, bias_afv, 0).biased, c3.biased, c6.biased);
    lemma_chain(afv_contender(c, bias_afv, 1).biased, c4.biased, c6.biased);
    lemma_chain(afv_contender(c, bias_afv, 2).biased, c5.biased, c6.biased);
    assert(k == 0 || k == 1 || k == 2 || k == 3);
}

proof fn lemma_cheaper<A: OrderedAmount>(best: Contender<A>, other: Contender<A>)
    ensures
        !best.biased.less_spec(cheaper(best, other).biased),
        !other.biased.less_spec(cheaper(best, other).biased),
{
    A::less_irreflexive(best.biased);
    A::less_irreflexive(other.biased);
    if best.biased.less_spec(other.biased) && other.biased.less_spec(best.biased) {
        A::less_transitive(best.biased, other.biased, best.biased);
    }
}

proof fn lemma_chain<A: OrderedAmount>(a: A, b: A, c: A)
    requires
        !a.less_spec(b),
        !b.less_spec(c),
    ensures
        !a.less_spec(c),
{
    if a.less_spec(c) {
        A::less_splits(a, b, c);
    }
}

} // verus!
