//! Quantization tables that are worth their header bits.
//!
//! A custom table is sent once per frame, whatever the number of blocks that use
//! it. Removing the last user of a table saves its bits, and removing all of them
//! saves the modes too, so tables are chosen together.

use crate::amount::{Amount, OrderedAmount};
use vstd::prelude::*;

verus! {

/// Number of table slots.
pub const NUM_SLOTS: usize = 9;

/// Bits of the modes of all tables, sent unless every table is the default one.
pub const MODE_BITS: u64 = 51;

/// The bit of each slot in a set of slots.
pub const SLOT_BITS: [u16; 9] = [1, 2, 4, 8, 16, 32, 64, 128, 256];

/// Header cost of custom tables: the payload bits of each slot, 0 where the slot
/// has the default table.
pub struct MatrixHeaderCost {
    pub payload: [u32; 9],
}

/// The slots among the leading `n` with custom tables.
pub open spec fn custom_among(payload: Seq<u32>, n: int) -> u16
    decreases n,
{
    if n <= 0 {
        0
    } else if payload[n - 1] != 0 {
        custom_among(payload, n - 1) | SLOT_BITS@[n - 1]
    } else {
        custom_among(payload, n - 1)
    }
}

/// Payload of those of the leading `n` slots that a set holds.
pub open spec fn payload_among(payload: Seq<u32>, mask: u16, n: int) -> int
    decreases n,
{
    if n <= 0 {
        0
    } else if mask & SLOT_BITS@[n - 1] != 0 {
        payload_among(payload, mask, n - 1) + payload[n - 1]
    } else {
        payload_among(payload, mask, n - 1)
    }
}

/// Header bits when exactly the slots of a set have custom tables.
pub open spec fn header_bits(payload: Seq<u32>, mask: u16) -> int {
    if mask == 0 {
        1
    } else {
        1 + MODE_BITS + payload_among(payload, mask, 9)
    }
}

impl MatrixHeaderCost {
    /// The slots with custom tables.
    pub fn custom_mask(&self) -> (r: u16)
        ensures
            r == custom_among(self.payload@, 9),
    {
        let mut mask: u16 = 0;
        let mut k: usize = 0;
        while k < 9
            invariant
                k <= 9,
                mask == custom_among(self.payload@, k as int),
            decreases 9 - k,
        {
            if self.payload[k] != 0 {
                mask = mask | SLOT_BITS[k];
            }
            k += 1;
        }
        mask
    }

    /// Header bits when exactly the slots of a set have custom tables.
    pub fn bits(&self, mask: u16) -> (r: u64)
        ensures
            r == header_bits(self.payload@, mask),
            r <= 40_000_000_000,
    {
        if mask == 0 {
            return 1;
        }
        let mut sum: u64 = 1 + MODE_BITS;
        let mut k: usize = 0;
        while k < 9
            invariant
                k <= 9,
                sum == 1 + MODE_BITS + payload_among(self.payload@, mask, k as int),
                sum <= 52 + k * 0xffff_ffff,
            decreases 9 - k,
        {
            if mask & SLOT_BITS[k] != 0 {
                sum += self.payload[k] as u64;
            }
            k += 1;
        }
        sum
    }
}

/// A way to code a region: the strategy, the tables it needs, and the bits that
/// it loses on the one in place.
#[derive(Clone, Copy)]
pub struct Alternative<A> {
    pub strategy: u8,
    pub required: u16,
    pub loss_bits: A,
}

/// The alternative needs no table outside the set.
pub open spec fn permitted(required: u16, allowed: u16) -> bool {
    required & !allowed == 0
}

/// The cheapest of the leading `n` alternatives that the set permits, the first
/// of equals.
pub open spec fn best_of<A: Amount>(
    alternatives: Seq<Alternative<A>>,
    allowed: u16,
    n: int,
) -> Option<Alternative<A>>
    decreases n,
{
    if n <= 0 {
        None
    } else {
        let head = best_of(alternatives, allowed, n - 1);
        let a = alternatives[n - 1];
        if permitted(a.required, allowed) && (head is None || a.loss_bits.less_spec(
            head->0.loss_bits,
        )) {
            Some(a)
        } else {
            head
        }
    }
}

/// The cheapest alternative that a set of tables permits.
pub fn best_alternative<A: Amount>(alternatives: &Vec<Alternative<A>>, allowed: u16) -> (r: Option<
    Alternative<A>,
>)
    ensures
        r == best_of(alternatives@, allowed, alternatives@.len() as int),
{
    let mut best: Option<Alternative<A>> = None;
    let mut i: usize = 0;
    while i < alternatives.len()
        invariant
            i <= alternatives@.len(),
            best == best_of(alternatives@, allowed, i as int),
        decreases alternatives@.len() - i,
    {
        let a: Alternative<A> = alternatives[i];
        if a.required & !allowed == 0 {
            match best {
                None => {
                    best = Some(a);
                },
                Some(b) => {
                    if a.loss_bits.less(b.loss_bits) {
                        best = Some(a);
                    }
                },
            }
        }
        i += 1;
    }
    best
}

/// A block whose strategy may change.
pub struct MatrixRegion<A> {
    pub dc: usize,
    pub bx: usize,
    pub by: usize,
    pub width: usize,
    pub height: usize,
    pub alternatives: Vec<Alternative<A>>,
}

/// A region as plain values.
#[verifier::ext_equal]
pub struct RegionView<A> {
    pub dc: int,
    pub bx: int,
    pub by: int,
    pub width: int,
    pub height: int,
    pub alternatives: Seq<Alternative<A>>,
}

impl<A> View for MatrixRegion<A> {
    type V = RegionView<A>;

    open spec fn view(&self) -> RegionView<A> {
        RegionView {
            dc: self.dc as int,
            bx: self.bx as int,
            by: self.by as int,
            width: self.width as int,
            height: self.height as int,
            alternatives: self.alternatives@,
        }
    }
}

/// Regions as plain values.
pub open spec fn region_views<A>(regions: Seq<MatrixRegion<A>>) -> Seq<RegionView<A>> {
    regions.map_values(|r: MatrixRegion<A>| r@)
}

/// Loss of a region under a set of tables.
pub open spec fn region_loss<A: Amount>(r: RegionView<A>, allowed: u16) -> A {
    match best_of(r.alternatives, allowed, r.alternatives.len() as int) {
        Some(a) => a.loss_bits,
        None => A::infinite_spec(),
    }
}

/// Header bits of a set of tables as an amount.
pub open spec fn header_cost<A: Amount>(payload: Seq<u32>, allowed: u16) -> A {
    A::ratio_spec(header_bits(payload, allowed) as i64, 1)
}

/// Header bits and losses of the leading `n` regions; summing stops once the
/// total reaches `limit`.
pub open spec fn limited_cost<A: Amount>(
    payload: Seq<u32>,
    regions: Seq<RegionView<A>>,
    allowed: u16,
    limit: A,
    n: int,
) -> A
    decreases n,
{
    if n <= 0 {
        header_cost(payload, allowed)
    } else {
        let head = limited_cost(payload, regions, allowed, limit, n - 1);
        if n > 1 && limit.at_most_spec(head) {
            head
        } else {
            head.plus_spec(region_loss(regions[n - 1], allowed))
        }
    }
}

/// A set of tables may be chosen: it holds custom tables only and all pinned
/// ones.
pub open spec fn choosable(custom: u16, pinned: u16, allowed: u16) -> bool {
    allowed & !custom == 0 && pinned & !allowed == 0
}

/// The best set so far and its cost.
pub struct TableChoice<A> {
    pub mask: u16,
    pub cost: A,
}

/// The best of the sets in use and the choosable ones below `n`.
pub open spec fn best_tables<A: Amount>(
    payload: Seq<u32>,
    used: u16,
    pinned: u16,
    regions: Seq<RegionView<A>>,
    n: int,
) -> TableChoice<A>
    decreases n,
{
    if n <= 0 {
        TableChoice { mask: used, cost: header_cost(payload, used) }
    } else {
        let head = best_tables(payload, used, pinned, regions, n - 1);
        let allowed = (n - 1) as u16;
        let cost = limited_cost(payload, regions, allowed, head.cost, regions.len() as int);
        if choosable(custom_among(payload, 9), pinned, allowed) && cost.less_spec(head.cost) {
            TableChoice { mask: allowed, cost }
        } else {
            head
        }
    }
}

/// Chooses the custom tables to send: those that cost least together with what
/// the regions lose under them.
pub fn choose_tables<A: Amount>(
    header: &MatrixHeaderCost,
    used: u16,
    pinned: u16,
    regions: &Vec<MatrixRegion<A>>,
) -> (r: u16)
    ensures
        r == best_tables(header.payload@, used, pinned, region_views(regions@), 512).mask,
{
    let custom: u16 = header.custom_mask();
    let mut best: u16 = used;
    let mut best_cost: A = A::ratio(header.bits(used) as i64, 1);
    let mut allowed: u16 = 0;
    while allowed < 512
        invariant
            allowed <= 512,
            custom == custom_among(header.payload@, 9),
            best == best_tables(header.payload@, used, pinned, region_views(regions@), allowed as int).mask,
            best_cost == best_tables(header.payload@, used, pinned, region_views(regions@), allowed as int).cost,
        decreases 512 - allowed,
    {
        if allowed & !custom == 0 && pinned & !allowed == 0 {
            let mut cost: A = A::ratio(header.bits(allowed) as i64, 1);
            let mut i: usize = 0;
            let mut open: bool = true;
            while i < regions.len()
                invariant
                    i <= regions@.len(),
                    cost == limited_cost(
                        header.payload@,
                        region_views(regions@),
                        allowed,
                        best_cost,
                        i as int,
                    ),
                    open == !(i > 0 && best_cost.at_most_spec(cost)),
                decreases regions@.len() - i,
            {
                if open {
                    assert(region_views(regions@)[i as int] == regions@[i as int]@);
                    let loss: A = match best_alternative(&regions[i].alternatives, allowed) {
                        Some(a) => a.loss_bits,
                        None => A::infinite(),
                    };
                    cost = cost.plus(loss);
                    open = !best_cost.at_most(cost);
                }
                i += 1;
            }
            if cost.less(best_cost) {
                best_cost = cost;
                best = allowed;
            }
        }
        allowed += 1;
    }
    best
}

/// Header bits and losses of the leading `n` regions.
pub open spec fn full_cost<A: Amount>(
    payload: Seq<u32>,
    regions: Seq<RegionView<A>>,
    allowed: u16,
    n: int,
) -> A
    decreases n,
{
    if n <= 0 {
        header_cost(payload, allowed)
    } else {
        full_cost(payload, regions, allowed, n - 1).plus_spec(
            region_loss(regions[n - 1], allowed),
        )
    }
}

/// No alternative gains.
pub open spec fn losses_only<A: Amount>(regions: Seq<RegionView<A>>) -> bool {
    forall|i: int, allowed: u16|
        0 <= i < regions.len() ==> !(#[trigger] region_loss(regions[i], allowed)).less_spec(
            A::zero_spec(),
        )
}

proof fn lemma_limited_cost<A: OrderedAmount>(
    payload: Seq<u32>,
    regions: Seq<RegionView<A>>,
    allowed: u16,
    limit: A,
    n: int,
)
    requires
        losses_only(regions),
        0 <= n <= regions.len(),
    ensures
        ({
            let limited = limited_cost(payload, regions, allowed, limit, n);
            let full = full_cost(payload, regions, allowed, n);
            limited == full || n > 0 && limit.at_most_spec(limited) && !full.less_spec(limited)
        }),
    decreases n,
{
    if n > 0 {
        lemma_limited_cost(payload, regions, allowed, limit, n - 1);
        let head = limited_cost(payload, regions, allowed, limit, n - 1);
        let full = full_cost(payload, regions, allowed, n - 1);
        let loss = region_loss(regions[n - 1], allowed);
        if n > 1 && limit.at_most_spec(head) {
            A::less_irreflexive(full);
            A::plus_monotone(full, A::zero_spec(), full, loss);
            A::plus_zero(full);
            if full.plus_spec(loss).less_spec(head) {
                A::less_splits(full.plus_spec(loss), full, head);
            }
        } else if full != head {
            assert(n - 1 > 0 && limit.at_most_spec(head));
        }
    }
}

/// No choosable set of tables costs less than the chosen one, and the chosen one
/// is the set in use at its header cost or a choosable set at its full cost.
pub proof fn law_chosen_tables_cost_least<A: OrderedAmount>(
    payload: Seq<u32>,
    used: u16,
    pinned: u16,
    regions: Seq<RegionView<A>>,
    n: int,
)
    requires
        losses_only(regions),
        0 <= n <= 512,
    ensures
        ({
            let best = best_tables(payload, used, pinned, regions, n);
            let custom = custom_among(payload, 9);
            &&& best.mask == used && best.cost == header_cost::<A>(payload, used) || choosable(
                custom,
                pinned,
                best.mask,
            ) && best.cost == full_cost(payload, regions, best.mask, regions.len() as int)
            &&& !header_cost::<A>(payload, used).less_spec(best.cost)
            &&& forall|allowed: u16|
                allowed < n && #[trigger] choosable(custom, pinned, allowed) ==> !full_cost(
                    payload,
                    regions,
                    allowed,
                    regions.len() as int,
                ).less_spec(best.cost)
        }),
    decreases n,
{
    A::less_irreflexive(header_cost::<A>(payload, used));
    if n > 0 {
        law_chosen_tables_cost_least(payload, used, pinned, regions, n - 1);
        let head = best_tables(payload, used, pinned, regions, n - 1);
        let best = best_tables(payload, used, pinned, regions, n);
        let custom = custom_among(payload, 9);
        let last = (n - 1) as u16;
        let len = regions.len() as int;
        let cost = limited_cost(payload, regions, last, head.cost, len);
        let full = full_cost(payload, regions, last, len);
        lemma_limited_cost(payload, regions, last, head.cost, len);
        A::less_irreflexive(cost);
        if cost.less_spec(head.cost) {
            A::at_most_denies_less(head.cost, cost);
            assert(cost == full);
        }
        if choosable(custom, pinned, last) && cost.less_spec(head.cost) {
            if header_cost::<A>(payload, used).less_spec(cost) {
                A::less_transitive(header_cost::<A>(payload, used), cost, head.cost);
            }
        }
        assert forall|allowed: u16|
            allowed < n && #[trigger] choosable(custom, pinned, allowed) implies !full_cost(
            payload,
            regions,
            allowed,
            len,
        ).less_spec(best.cost) by {
            let other = full_cost(payload, regions, allowed, len);
            if allowed < n - 1 {
                if best.cost != head.cost && other.less_spec(best.cost) {
                    A::less_transitive(other, cost, head.cost);
                }
            } else {
                assert(allowed == last);
                if !cost.less_spec(head.cost) && full.less_spec(head.cost) {
                    if cost != full {
                        A::less_splits(full, cost, head.cost);
                    }
                }
            }
        }
    }
}

} // verus!
