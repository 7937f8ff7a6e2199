//! Which of five overlapping merges to apply to a square of four regions.
//!
//! The merges are numbered: the whole square, the left and the right half, the
//! top and the bottom half. A set of them is a mask with bit `k` for merge `k`.

use crate::amount::{Amount, OrderedAmount};
use vstd::prelude::*;

verus! {

/// The sets of merges that do not overlap: none, the square, or either or both
/// halves in one direction.
pub const MERGE_PARTITIONS: [u8; 8] = [0, 1, 2, 4, 6, 8, 16, 24];

/// Merge `k` covers the region in column `x` and row `y`.
pub open spec fn merge_covers(k: int, x: int, y: int) -> bool {
    k == 0 || (k == 1 && x == 0) || (k == 2 && x == 1) || (k == 3 && y == 0) || (k == 4 && y == 1)
}

/// Weight of bit `k`.
pub open spec fn bit_weight(k: int) -> int {
    if k == 0 {
        1
    } else if k == 1 {
        2
    } else if k == 2 {
        4
    } else if k == 3 {
        8
    } else {
        16
    }
}

/// Merge `k` belongs to the set.
pub open spec fn chosen(mask: u8, k: int) -> bool {
    (mask as int / bit_weight(k)) % 2 == 1
}

/// Whether merge `k` belongs to the set.
pub fn has_merge(mask: u8, k: usize) -> (r: bool)
    requires
        k < 5,
    ensures
        r == chosen(mask, k as int),
{
    match k {
        0 => mask % 2 == 1,
        1 => mask / 2 % 2 == 1,
        2 => mask / 4 % 2 == 1,
        3 => mask / 8 % 2 == 1,
        _ => mask / 16 % 2 == 1,
    }
}

/// No region is covered by two merges of the set.
pub open spec fn packs(mask: u8) -> bool {
    forall|j: int, k: int, x: int, y: int|
        0 <= j < k < 5 && 0 <= x < 2 && 0 <= y < 2 && chosen(mask, j) && chosen(mask, k)
            ==> !(#[trigger] merge_covers(j, x, y) && #[trigger] merge_covers(k, x, y))
}

/// The partitions are exactly the sets of merges that do not overlap.
pub proof fn law_partitions_are_the_packings(mask: u8)
    requires
        mask < 32,
    ensures
        packs(mask) <==> MERGE_PARTITIONS@.contains(mask),
{
    assert(merge_covers(0, 0, 0) && merge_covers(0, 1, 0) && merge_covers(0, 0, 1)
        && merge_covers(0, 1, 1));
    assert(merge_covers(1, 0, 0) && merge_covers(1, 0, 1));
    assert(merge_covers(2, 1, 0) && merge_covers(2, 1, 1));
    assert(merge_covers(3, 0, 0) && merge_covers(3, 1, 0));
    assert(merge_covers(4, 0, 1) && merge_covers(4, 1, 1));
    let m = MERGE_PARTITIONS@;
    assert(m[0] == 0 && m[1] == 1 && m[2] == 2 && m[3] == 4 && m[4] == 6 && m[5] == 8 && m[6] == 16
        && m[7] == 24);
    if m.contains(mask) {
        assert(!(chosen(mask, 0) && (chosen(mask, 1) || chosen(mask, 2) || chosen(mask, 3)
            || chosen(mask, 4))));
        assert(!((chosen(mask, 1) || chosen(mask, 2)) && (chosen(mask, 3) || chosen(mask, 4))));
    } else {
        assert(mask == 0 || mask == 1 || mask == 2 || mask == 4 || mask == 6 || mask == 8 || mask
            == 16 || mask == 24 || (chosen(mask, 0) && (chosen(mask, 1) || chosen(mask, 2)
            || chosen(mask, 3) || chosen(mask, 4))) || ((chosen(mask, 1) || chosen(mask, 2)) && (
        chosen(mask, 3) || chosen(mask, 4))));
    }
}

/// `total` with `value` added where `take` says so.
pub open spec fn added<A: Amount>(total: A, take: bool, value: A) -> A {
    if take {
        total.plus_spec(value)
    } else {
        total
    }
}

/// Sum of the leading `n` values that belong to the set.
pub open spec fn masked_sum<A: Amount>(mask: u8, values: Seq<A>, n: int) -> A
    decreases n,
{
    if n <= 0 {
        A::zero_spec()
    } else {
        added(masked_sum(mask, values, n - 1), chosen(mask, n - 1), values[n - 1])
    }
}

/// Cost of the halves of a set that does not hold the square, the merges first.
pub open spec fn halves_cost<A: Amount>(merges: Seq<A>, mask: u8) -> A {
    let left = added(A::zero_spec(), chosen(mask, 1), merges[1]);
    let right = added(left, chosen(mask, 2), merges[2]);
    let top = added(right, chosen(mask, 3), merges[3]);
    added(top, chosen(mask, 4), merges[4])
}

/// Cost of a layout: the merges of the set, and the regions that none covers.
pub open spec fn partition_cost_spec<A: Amount>(
    children: [[A; 2]; 2],
    merges: [A; 5],
    mask: u8,
) -> A {
    if chosen(mask, 0) {
        merges@[0]
    } else {
        let c0 = halves_cost(merges@, mask);
        let c1 = added(c0, !chosen(mask, 1) && !chosen(mask, 3), children@[0]@[0]);
        let c2 = added(c1, !chosen(mask, 2) && !chosen(mask, 3), children@[0]@[1]);
        let c3 = added(c2, !chosen(mask, 1) && !chosen(mask, 4), children@[1]@[0]);
        added(c3, !chosen(mask, 2) && !chosen(mask, 4), children@[1]@[1])
    }
}

/// Cost of a layout: the merges of the set, and the regions that none covers.
pub fn partition_cost<A: Amount>(children: [[A; 2]; 2], merges: [A; 5], mask: u8) -> (r: A)
    ensures
        r == partition_cost_spec(children, merges, mask),
{
    if has_merge(mask, 0) {
        return merges[0];
    }
    let mut cost: A = A::zero();
    if has_merge(mask, 1) {
        cost = cost.plus(merges[1]);
    }
    if has_merge(mask, 2) {
        cost = cost.plus(merges[2]);
    }
    if has_merge(mask, 3) {
        cost = cost.plus(merges[3]);
    }
    if has_merge(mask, 4) {
        cost = cost.plus(merges[4]);
    }
    if !has_merge(mask, 1) && !has_merge(mask, 3) {
        cost = cost.plus(children[0][0]);
    }
    if !has_merge(mask, 2) && !has_merge(mask, 3) {
        cost = cost.plus(children[0][1]);
    }
    if !has_merge(mask, 1) && !has_merge(mask, 4) {
        cost = cost.plus(children[1][0]);
    }
    if !has_merge(mask, 2) && !has_merge(mask, 4) {
        cost = cost.plus(children[1][1]);
    }
    cost
}

/// What the regions under each merge cost together.
pub open spec fn region_totals<A: Amount>(c: [[A; 2]; 2]) -> Seq<A> {
    seq![
        A::zero_spec().plus_spec(c@[0]@[0]).plus_spec(c@[0]@[1]).plus_spec(c@[1]@[0]).plus_spec(
            c@[1]@[1],
        ),
        c@[0]@[0].plus_spec(c@[1]@[0]),
        c@[0]@[1].plus_spec(c@[1]@[1]),
        c@[0]@[0].plus_spec(c@[0]@[1]),
        c@[1]@[0].plus_spec(c@[1]@[1]),
    ]
}

fn totals<A: Amount>(c: [[A; 2]; 2]) -> (r: [A; 5])
    ensures
        r@ == region_totals(c),
{
    let r: [A; 5] = [
        A::zero().plus(c[0][0]).plus(c[0][1]).plus(c[1][0]).plus(c[1][1]),
        c[0][0].plus(c[1][0]),
        c[0][1].plus(c[1][1]),
        c[0][0].plus(c[0][1]),
        c[1][0].plus(c[1][1]),
    ];
    assert(r@ =~= region_totals(c));
    r
}

/// Sum over the set of each baseline total scaled by its acceptance factor.
pub open spec fn limit_sum<A: Amount>(mask: u8, baseline: Seq<A>, accept: Seq<A>, n: int) -> A
    decreases n,
{
    if n <= 0 {
        A::zero_spec()
    } else {
        added(
            limit_sum(mask, baseline, accept, n - 1),
            chosen(mask, n - 1),
            baseline[n - 1].times_spec(accept[n - 1]),
        )
    }
}

/// The merges of the set together undercut both the regions they replace and
/// the baseline of those regions by the acceptance margin.
pub open spec fn admissible<A: Amount>(
    children: [[A; 2]; 2],
    baseline: [[A; 2]; 2],
    merges: [A; 5],
    accept: [A; 5],
    mask: u8,
) -> bool {
    let merged = masked_sum(mask, merges@, 5);
    merged.less_spec(masked_sum(mask, region_totals(children), 5)) && merged.less_spec(
        limit_sum(mask, region_totals(baseline), accept@, 5),
    )
}

/// The cheapest admissible layout among the leading `n` partitions, the earliest
/// one of equals; doing nothing is always admissible.
pub open spec fn best_partition<A: Amount>(
    children: [[A; 2]; 2],
    baseline: [[A; 2]; 2],
    merges: [A; 5],
    accept: [A; 5],
    n: int,
) -> u8
    decreases n,
{
    if n <= 1 {
        0
    } else {
        let best = best_partition(children, baseline, merges, accept, n - 1);
        let mask = MERGE_PARTITIONS@[n - 1];
        if admissible(children, baseline, merges, accept, mask) && partition_cost_spec(
            children,
            merges,
            mask,
        ).less_spec(partition_cost_spec(children, merges, best)) {
            mask
        } else {
            best
        }
    }
}

/// Chooses the layout of a square of four regions.
///
/// Each layout is gated before costs are compared, so a rejected cheap square
/// does not hide an admissible half. Two halves share a joint margin; a single
/// half pays the margin only on the regions it replaces.
pub fn choose_merge_partition<A: Amount>(
    children: [[A; 2]; 2],
    baseline: [[A; 2]; 2],
    merges: [A; 5],
    accept: [A; 5],
) -> (r: u8)
    ensures
        r == best_partition(children, baseline, merges, accept, 8),
{
    let child_costs: [A; 5] = totals(children);
    let base_costs: [A; 5] = totals(baseline);
    let mut best: u8 = 0;
    let mut best_cost: A = child_costs[0];
    let mut i: usize = 1;
    while i < 8
        invariant
            1 <= i <= 8,
            child_costs@ == region_totals(children),
            base_costs@ == region_totals(baseline),
            best == best_partition(children, baseline, merges, accept, i as int),
            best_cost == partition_cost_spec(children, merges, best),
        decreases 8 - i,
    {
        let mask: u8 = MERGE_PARTITIONS[i];
        let mut merged: A = A::zero();
        let mut incumbent: A = A::zero();
        let mut limit: A = A::zero();
        let mut k: usize = 0;
        while k < 5
            invariant
                k <= 5,
                child_costs@ == region_totals(children),
                base_costs@ == region_totals(baseline),
                merged == masked_sum(mask, merges@, k as int),
                incumbent == masked_sum(mask, region_totals(children), k as int),
                limit == limit_sum(mask, region_totals(baseline), accept@, k as int),
            decreases 5 - k,
        {
            if has_merge(mask, k) {
                merged = merged.plus(merges[k]);
                incumbent = incumbent.plus(child_costs[k]);
                limit = limit.plus(base_costs[k].times(accept[k]));
            }
            k += 1;
        }
        if merged.less(incumbent) && merged.less(limit) {
            let cost: A = partition_cost(children, merges, mask);
            if cost.less(best_cost) {
                best = mask;
                best_cost = cost;
            }
        }
        i += 1;
    }
    best
}

/// The chosen layout is one of the partitions.
pub proof fn lemma_best_partition_listed<A: Amount>(
    children: [[A; 2]; 2],
    baseline: [[A; 2]; 2],
    merges: [A; 5],
    accept: [A; 5],
    n: int,
)
    requires
        n <= 8,
    ensures
        MERGE_PARTITIONS@.contains(best_partition(children, baseline, merges, accept, n)),
    decreases n,
{
    assert(MERGE_PARTITIONS@[0] == 0);
    if n > 1 {
        lemma_best_partition_listed(children, baseline, merges, accept, n - 1);
        assert(MERGE_PARTITIONS@.contains(MERGE_PARTITIONS@[n - 1]));
    }
}

proof fn lemma_best_partition<A: OrderedAmount>(
    children: [[A; 2]; 2],
    baseline: [[A; 2]; 2],
    merges: [A; 5],
    accept: [A; 5],
    n: int,
)
    requires
        1 <= n <= 8,
    ensures
        ({
            let best = best_partition(children, baseline, merges, accept, n);
            &&& MERGE_PARTITIONS@.contains(best)
            &&& best == 0 || admissible(children, baseline, merges, accept, best)
            &&& forall|i: int|
                0 <= i < n && (i == 0 || admissible(
                    children,
                    baseline,
                    merges,
                    accept,
                    #[trigger] MERGE_PARTITIONS@[i],
                )) ==> !partition_cost_spec(children, merges, MERGE_PARTITIONS@[i]).less_spec(
                    partition_cost_spec(children, merges, best),
                )
        }),
    decreases n,
{
    assert(MERGE_PARTITIONS@[0] == 0);
    let best = best_partition(children, baseline, merges, accept, n);
    if n == 1 {
        A::less_irreflexive(partition_cost_spec(children, merges, 0));
    } else {
        lemma_best_partition(children, baseline, merges, accept, n - 1);
        let prev = best_partition(children, baseline, merges, accept, n - 1);
        assert(MERGE_PARTITIONS@.contains(MERGE_PARTITIONS@[n - 1]));
        assert forall|i: int|
            0 <= i < n && (i == 0 || admissible(
                children,
                baseline,
                merges,
                accept,
                #[trigger] MERGE_PARTITIONS@[i],
            )) implies !partition_cost_spec(children, merges, MERGE_PARTITIONS@[i]).less_spec(
            partition_cost_spec(children, merges, best),
        ) by {
            let m = MERGE_PARTITIONS@[i];
            if i == n - 1 {
                A::less_irreflexive(partition_cost_spec(children, merges, m));
            } else if best != prev && partition_cost_spec(children, merges, m).less_spec(
                partition_cost_spec(children, merges, best),
            ) {
                A::less_transitive(
                    partition_cost_spec(children, merges, m),
                    partition_cost_spec(children, merges, best),
                    partition_cost_spec(children, merges, prev),
                );
            }
        }
    }
}

/// The chosen layout is admissible or leaves the regions alone, and no
/// admissible set of merges that do not overlap costs less.
pub proof fn law_chosen_partition_is_cheapest<A: OrderedAmount>(
    children: [[A; 2]; 2],
    baseline: [[A; 2]; 2],
    merges: [A; 5],
    accept: [A; 5],
    mask: u8,
)
    requires
        mask < 32,
        packs(mask),
        mask == 0 || admissible(children, baseline, merges, accept, mask),
    ensures
        ({
            let best = best_partition(children, baseline, merges, accept, 8);
            &&& packs(best)
            &&& best == 0 || admissible(children, baseline, merges, accept, best)
            &&& !partition_cost_spec(children, merges, mask).less_spec(
                partition_cost_spec(children, merges, best),
            )
        }),
{
    lemma_best_partition(children, baseline, merges, accept, 8);
    law_partitions_are_the_packings(mask);
    let best = best_partition(children, baseline, merges, accept, 8);
    law_partitions_are_the_packings(best);
    let i = choose|i: int| 0 <= i < 8 && MERGE_PARTITIONS@[i] == mask;
    assert(MERGE_PARTITIONS@[i] == mask);
}

/// The largest positive total gain among the leading `n` partitions and the
/// earliest partition that reaches it; no merge where none gains.
pub open spec fn best_packing<A: Amount>(gains: [A; 5], n: int) -> (u8, A)
    decreases n,
{
    if n <= 1 {
        (0, A::zero_spec())
    } else {
        let best = best_packing(gains, n - 1);
        let mask = MERGE_PARTITIONS@[n - 1];
        let gain = masked_sum(mask, gains@, 5);
        if best.1.less_spec(gain) {
            (mask, gain)
        } else {
            best
        }
    }
}

/// Chooses the set of merges with the largest total gain.
pub fn choose_upgrade_partition<A: Amount>(gains: [A; 5]) -> (r: u8)
    ensures
        r == best_packing(gains, 8).0,
{
    let mut best: u8 = 0;
    let mut best_gain: A = A::zero();
    let mut i: usize = 1;
    while i < 8
        invariant
            1 <= i <= 8,
            (best, best_gain) == best_packing(gains, i as int),
        decreases 8 - i,
    {
        let mask: u8 = MERGE_PARTITIONS[i];
        let mut gain: A = A::zero();
        let mut k: usize = 0;
        while k < 5
            invariant
                k <= 5,
                gain == masked_sum(mask, gains@, k as int),
            decreases 5 - k,
        {
            if has_merge(mask, k) {
                gain = gain.plus(gains[k]);
            }
            k += 1;
        }
        if best_gain.less(gain) {
            best = mask;
            best_gain = gain;
        }
        i += 1;
    }
    best
}

proof fn lemma_best_packing<A: OrderedAmount>(gains: [A; 5], n: int)
    requires
        1 <= n <= 8,
    ensures
        MERGE_PARTITIONS@.contains(best_packing(gains, n).0),
        best_packing(gains, n).0 == 0 ==> best_packing(gains, n).1 == A::zero_spec(),
        best_packing(gains, n).0 != 0 ==> best_packing(gains, n).1 == masked_sum(
            best_packing(gains, n).0,
            gains@,
            5,
        ) && A::zero_spec().less_spec(best_packing(gains, n).1),
        forall|i: int|
            1 <= i < n ==> !best_packing(gains, n).1.less_spec(
                masked_sum(#[trigger] MERGE_PARTITIONS@[i], gains@, 5),
            ),
    decreases n,
{
    assert(MERGE_PARTITIONS@[0] == 0);
    if n > 1 {
        lemma_best_packing(gains, n - 1);
        let prev = best_packing(gains, n - 1);
        let best = best_packing(gains, n);
        assert(MERGE_PARTITIONS@.contains(MERGE_PARTITIONS@[n - 1]));
        if prev.0 != 0 && best.0 != prev.0 {
            A::less_transitive(A::zero_spec(), prev.1, best.1);
        }
        assert forall|i: int| 1 <= i < n implies !best.1.less_spec(
            masked_sum(#[trigger] MERGE_PARTITIONS@[i], gains@, 5),
        ) by {
            let g = masked_sum(MERGE_PARTITIONS@[i], gains@, 5);
            if i == n - 1 {
                A::less_irreflexive(g);
            } else if best.1.less_spec(g) && best != prev {
                A::less_transitive(prev.1, best.1, g);
            }
        }
    }
}

/// The chosen upgrades do not overlap, gain more than nothing if there are any,
/// and no other set of merges that do not overlap gains more.
pub proof fn law_chosen_upgrades_gain_most<A: OrderedAmount>(gains: [A; 5], mask: u8)
    requires
        0 < mask < 32,
        packs(mask),
    ensures
        packs(best_packing(gains, 8).0),
        best_packing(gains, 8).0 != 0 ==> A::zero_spec().less_spec(
            masked_sum(best_packing(gains, 8).0, gains@, 5),
        ),
        !best_packing(gains, 8).1.less_spec(masked_sum(mask, gains@, 5)),
        best_packing(gains, 8).1 == (if best_packing(gains, 8).0 == 0 {
            A::zero_spec()
        } else {
            masked_sum(best_packing(gains, 8).0, gains@, 5)
        }),
{
    lemma_best_packing(gains, 8);
    law_partitions_are_the_packings(mask);
    law_partitions_are_the_packings(best_packing(gains, 8).0);
    let i = choose|i: int| 0 <= i < 8 && MERGE_PARTITIONS@[i] == mask;
    assert(MERGE_PARTITIONS@[i] == mask);
    assert(MERGE_PARTITIONS@[0] == 0);
}

} // verus!
