//! What groups of contexts cost to code, from the tokens that were sampled.

use crate::amount::Amount;
use crate::context::K_NUM_FINE_BLOCK_CTXS;
use crate::context_plan::{
    is_plan_of, lemma_merged_extra_monotone, merged_count, merged_extra, partitions,
    plan_block_ctx_map, plan_run, plan_start, plan_step, AcCtxPlan, GroupCosts, PlanStats,
    PLAN_NUM_SYMBOLS, PROPOSE_MIN_NET_BITS,
};
use vstd::prelude::*;

verus! {

/// Slots of a context: the buckets of nonzeros and the zero-density contexts.
pub const GROUP_SLOTS: usize = 495;

/// Symbol counts of a group in one slot.
pub open spec fn slot_symbols(stats: PlanStats, members: Seq<u8>, slot: int) -> Seq<int> {
    Seq::new(
        PLAN_NUM_SYMBOLS as nat,
        |symbol: int| merged_count(stats, members, members.len() as int, slot, symbol),
    )
}

/// Sum of the leading `n` counts.
pub open spec fn total_of(counts: Seq<int>, n: int) -> int
    decreases n,
{
    if n <= 0 {
        0
    } else {
        total_of(counts, n - 1) + counts[n - 1]
    }
}

/// Bits of the leading `n` symbols when each is coded by how often it occurs.
pub open spec fn symbol_bits<A: Amount>(counts: Seq<int>, total: int, n: int) -> A
    decreases n,
{
    if n <= 0 {
        A::zero_spec()
    } else {
        let before = symbol_bits::<A>(counts, total, n - 1);
        let c = counts[n - 1];
        if c == 0 {
            before
        } else {
            let times = A::ratio_spec(c as i64, 1);
            before.plus_spec(
                times.times_spec(A::ratio_spec(total as i64, 1).over_spec(times).log2_spec()),
            )
        }
    }
}

/// Cost of a group over the leading `slots` slots: the bits of the symbols of each
/// slot, and its raw bits.
pub open spec fn group_bits<A: Amount>(stats: PlanStats, members: Seq<u8>, slots: int) -> A
    decreases slots,
{
    if slots <= 0 {
        A::zero_spec()
    } else {
        let before = group_bits::<A>(stats, members, slots - 1);
        let counts = slot_symbols(stats, members, slots - 1);
        let total = total_of(counts, PLAN_NUM_SYMBOLS as int);
        let coded = if total == 0 {
            before
        } else {
            before.plus_spec(symbol_bits(counts, total, PLAN_NUM_SYMBOLS as int))
        };
        let raw = merged_extra(stats, members, members.len() as int, slots - 1);
        coded.plus_spec(A::ratio_spec(raw as i64, 1))
    }
}

/// The raw bits of a group are countable in every slot.
pub open spec fn raw_bits_fit(stats: PlanStats, members: Seq<u8>) -> bool {
    forall|slot: int|
        0 <= slot < GROUP_SLOTS ==> #[trigger] merged_extra(
            stats,
            members,
            members.len() as int,
            slot,
        ) <= i64::MAX
}

/// What it costs to code the contexts of a group with one set of histograms.
pub open spec fn group_cost_of<A: Amount>(stats: PlanStats, members: Seq<u8>) -> A {
    group_bits(stats, members, GROUP_SLOTS as int)
}

proof fn lemma_merged_count_bounded(
    stats: PlanStats,
    members: Seq<u8>,
    n: int,
    slot: int,
    symbol: int,
)
    requires
        0 <= n,
    ensures
        0 <= merged_count(stats, members, n, slot, symbol) <= n * 0xffff_ffff,
    decreases n,
{
    if n > 0 {
        lemma_merged_count_bounded(stats, members, n - 1, slot, symbol);
    }
}

/// What it costs to code the contexts of a group with one set of histograms.
pub fn group_cost<A: Amount>(stats: &PlanStats, members: &[u8]) -> (r: A)
    requires
        stats.wf(),
        members@.len() <= K_NUM_FINE_BLOCK_CTXS,
        forall|i: int| 0 <= i < members@.len() ==> #[trigger] members@[i] < K_NUM_FINE_BLOCK_CTXS,
        raw_bits_fit(*stats, members@),
    ensures
        r == group_cost_of::<A>(*stats, members@),
{
    let mut cost: A = A::zero();
    let mut slot: usize = 0;
    while slot < GROUP_SLOTS
        invariant
            slot <= GROUP_SLOTS,
            stats.wf(),
            members@.len() <= K_NUM_FINE_BLOCK_CTXS,
            forall|i: int|
                0 <= i < members@.len() ==> #[trigger] members@[i] < K_NUM_FINE_BLOCK_CTXS,
            raw_bits_fit(*stats, members@),
            cost == group_bits::<A>(*stats, members@, slot as int),
        decreases GROUP_SLOTS - slot,
    {
        let counts: Vec<u64> = stats.slot_counts(members, slot);
        let ghost symbols = slot_symbols(*stats, members@, slot as int);
        proof {
            assert forall|s: int| 0 <= s < 128 implies #[trigger] counts@[s] == symbols[s] && counts@[s]
                <= 128_849_018_850 by {
                lemma_merged_count_bounded(
                    *stats,
                    members@,
                    members@.len() as int,
                    slot as int,
                    s,
                );
            }
        }
        let mut total: u64 = 0;
        let mut s: usize = 0;
        while s < PLAN_NUM_SYMBOLS
            invariant
                s <= 128,
                counts@.len() == 128,
                forall|k: int| 0 <= k < 128 ==> #[trigger] counts@[k] == symbols[k],
                forall|k: int| 0 <= k < 128 ==> #[trigger] counts@[k] <= 128_849_018_850,
                total == total_of(symbols, s as int),
                total <= s * 128_849_018_850,
            decreases 128 - s,
        {
            assert(counts@[s as int] == symbols[s as int]);
            total = total + counts[s];
            s += 1;
        }
        if total != 0 {
            let whole: A = A::ratio(total as i64, 1);
            let mut bits: A = A::zero();
            let mut s: usize = 0;
            while s < PLAN_NUM_SYMBOLS
                invariant
                    s <= 128,
                    counts@.len() == 128,
                    forall|k: int| 0 <= k < 128 ==> #[trigger] counts@[k] == symbols[k],
                    forall|k: int| 0 <= k < 128 ==> #[trigger] counts@[k] <= 128_849_018_850,
                    whole == A::ratio_spec(total as i64, 1),
                    bits == symbol_bits::<A>(symbols, total as int, s as int),
                decreases 128 - s,
            {
                let c: u64 = counts[s];
                assert(counts@[s as int] == symbols[s as int]);
                if c != 0 {
                    let times: A = A::ratio(c as i64, 1);
                    bits = bits.plus(times.times(whole.over(times).log2()));
                }
                s += 1;
            }
            cost = cost.plus(bits);
        }
        let raw: u64 = stats.group_extra_bits(members, slot);
        cost = cost.plus(A::ratio(raw as i64, 1));
        slot += 1;
    }
    cost
}

/// The contexts of a run.
pub open spec fn members_of(lo: int, len: int) -> Seq<u8> {
    Seq::new(len as nat, |i: int| (lo + i) as u8)
}

/// Runs that a plan may ask for: single contexts, and whole base contexts.
pub open spec fn may_be_asked(lo: int, len: int) -> bool {
    lo + len <= 30 && (len == 1 || (lo % 2 == 0 && len % 2 == 0))
}

/// Every run that a plan may ask for has its cost.
pub open spec fn is_priced<A: Amount>(costs: GroupCosts<A>, stats: PlanStats) -> bool {
    &&& costs.wf()
    &&& forall|lo: int, len: int|
        0 <= lo < 30 && 0 <= len <= 30 && may_be_asked(lo, len) ==> #[trigger] costs.rows@[lo]@[len]
            == group_cost_of::<A>(stats, members_of(lo, len))
}

proof fn lemma_run_extra(stats: PlanStats, lo: int, len: int, n: int, slot: int)
    requires
        0 <= lo,
        0 <= n <= len,
        lo + len <= 30,
    ensures
        merged_extra(stats, members_of(lo, len), n, slot) == merged_extra(
            stats,
            members_of(0, 30),
            lo + n,
            slot,
        ) - merged_extra(stats, members_of(0, 30), lo, slot),
    decreases n,
{
    if n > 0 {
        lemma_run_extra(stats, lo, len, n - 1, slot);
        assert(members_of(lo, len)[n - 1] == members_of(0, 30)[lo + n - 1]);
    }
}

proof fn lemma_run_fits(stats: PlanStats, lo: int, len: int)
    requires
        0 <= lo,
        0 <= len,
        lo + len <= 30,
        raw_bits_fit(stats, members_of(0, 30)),
    ensures
        raw_bits_fit(stats, members_of(lo, len)),
{
    assert forall|slot: int| 0 <= slot < GROUP_SLOTS implies #[trigger] merged_extra(
        stats,
        members_of(lo, len),
        members_of(lo, len).len() as int,
        slot,
    ) <= i64::MAX by {
        lemma_run_extra(stats, lo, len, len, slot);
        lemma_merged_extra_monotone(stats, members_of(0, 30), lo + len, 30, slot);
        lemma_merged_extra_monotone(stats, members_of(0, 30), 0, lo, slot);
        assert(merged_extra(stats, members_of(0, 30), members_of(0, 30).len() as int, slot)
            <= i64::MAX);
    }
}

/// Raw bits accrue once for each token: those of two groups together are those of
/// both, in every slot, whatever the grouping.
pub proof fn law_raw_bits_add_up(stats: PlanStats, a: Seq<u8>, b: Seq<u8>, slot: int)
    ensures
        merged_extra(stats, a + b, (a + b).len() as int, slot) == merged_extra(
            stats,
            a,
            a.len() as int,
            slot,
        ) + merged_extra(stats, b, b.len() as int, slot),
{
    lemma_extra_join(stats, a, b, a.len() as int, slot);
    lemma_extra_join(stats, a, b, (a + b).len() as int, slot);
}

proof fn lemma_extra_join(stats: PlanStats, a: Seq<u8>, b: Seq<u8>, n: int, slot: int)
    requires
        0 <= n <= a.len() + b.len(),
    ensures
        n <= a.len() ==> merged_extra(stats, a + b, n, slot) == merged_extra(stats, a, n, slot),
        n >= a.len() ==> merged_extra(stats, a + b, n, slot) == merged_extra(
            stats,
            a,
            a.len() as int,
            slot,
        ) + merged_extra(stats, b, n - a.len(), slot),
    decreases n,
{
    if n > 0 {
        lemma_extra_join(stats, a, b, n - 1, slot);
        if n <= a.len() {
            assert((a + b)[n - 1] == a[n - 1]);
        } else {
            assert((a + b)[n - 1] == b[n - 1 - a.len()]);
        }
    }
}

/// Prices every run of contexts that a plan may ask for.
pub fn price_groups<A: Amount>(stats: &PlanStats) -> (r: GroupCosts<A>)
    requires
        stats.wf(),
        raw_bits_fit(*stats, members_of(0, 30)),
    ensures
        is_priced(r, *stats),
{
    let mut rows: Vec<Vec<A>> = Vec::new();
    let mut lo: usize = 0;
    while lo < 30
        invariant
            lo <= 30,
            stats.wf(),
            raw_bits_fit(*stats, members_of(0, 30)),
            rows@.len() == lo,
            forall|j: int| 0 <= j < lo ==> (#[trigger] rows@[j])@.len() == 31,
            forall|j: int, k: int|
                0 <= j < lo && 0 <= k <= 30 && may_be_asked(j, k) ==> #[trigger] rows@[j]@[k]
                    == group_cost_of::<A>(*stats, members_of(j, k)),
        decreases 30 - lo,
    {
        let mut row: Vec<A> = Vec::new();
        let mut len: usize = 0;
        let mut members: Vec<u8> = Vec::new();
        assert(members@ =~= members_of(lo as int, 0));
        while len <= 30
            invariant
                len <= 31,
                lo < 30,
                stats.wf(),
                raw_bits_fit(*stats, members_of(0, 30)),
                row@.len() == len,
                len <= 30 && lo + len <= 30 ==> members@ == members_of(lo as int, len as int),
                forall|k: int|
                    0 <= k < len && may_be_asked(lo as int, k) ==> #[trigger] row@[k]
                        == group_cost_of::<A>(*stats, members_of(lo as int, k)),
            decreases 31 - len,
        {
            let asked: bool = lo + len <= 30 && (len == 1 || (lo % 2 == 0 && len % 2 == 0));
            if asked {
                proof {
                    lemma_run_fits(*stats, lo as int, len as int);
                }
                row.push(group_cost(stats, members.as_slice()));
            } else {
                row.push(A::zero());
            }
            if lo + len < 30 {
                let ghost was = members@;
                members.push((lo + len) as u8);
                assert(members@ =~= members_of(lo as int, len as int + 1));
            }
            len += 1;
        }
        rows.push(row);
        lo += 1;
    }
    GroupCosts { rows }
}

/// Decides the block context map of an image from the statistics of its tokens.
pub fn plan_from_stats<A: Amount>(stats: &PlanStats, qf_threshold: u32) -> (r: AcCtxPlan)
    requires
        stats.wf(),
        raw_bits_fit(*stats, members_of(0, 30)),
    ensures
        r.wf(),
        exists|costs: GroupCosts<A>| #[trigger]
            is_priced(costs, *stats) && ({
                let end = plan_run(costs, plan_start::<A>(), 5);
                &&& partitions(end.groups)
                &&& plan_step(costs, end) is None
                &&& if end.total_net.less_spec(A::ratio_spec(PROPOSE_MIN_NET_BITS, 1)) {
                    r.is_baseline()
                } else {
                    is_plan_of(r, end, qf_threshold)
                }
            }),
{
    let costs: GroupCosts<A> = price_groups(stats);
    let r: AcCtxPlan = plan_block_ctx_map(&costs, qf_threshold);
    assert(is_priced(costs, *stats));
    r
}

} // verus!
