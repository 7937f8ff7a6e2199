//! Per-image planning of the block context map.
//!
//! Tokens are produced on the fine layout, in which every base block context is
//! split by a quant-field threshold. The plan says which splits are kept and
//! which chroma contexts are merged to stay inside the budget of sixteen ids,
//! and maps the tokens' contexts into the final layout.

use crate::amount::Amount;
use crate::context::{
    non_zero_bucket_spec, K_COMPACT_BLOCK_CONTEXT_MAP, K_NON_ZERO_BUCKETS, K_NUM_BLOCK_CTXS,
    K_NUM_FINE_AC_CONTEXTS, K_NUM_FINE_BLOCK_CTXS, K_NUM_QF_CLASSES, K_ZERO_DENSITY_CONTEXT_COUNT,
};
use vstd::prelude::*;

verus! {

/// The signaled block-context layout of an image.
pub struct AcCtxPlan {
    /// Number of final block contexts.
    pub nbc: u8,
    /// Final block context of every fine one.
    pub fine_to_final: [u8; 30],
    /// Present when at least one kept split needs the threshold signaled.
    pub qf_threshold: Option<u32>,
}

/// Contexts of nonzero counts in the fine layout.
pub const NZ_SPAN: u32 = 1110;

const FINE_CTXS: u32 = 30;

const BUCKETS: u32 = 37;

const DENSITIES: u32 = 458;

/// The final context of fine context `ctx` under a plan of `nbc` block contexts.
pub open spec fn remap_spec(nbc: int, fine_to_final: Seq<u8>, ctx: int) -> int {
    if ctx < NZ_SPAN {
        (ctx / 30) * nbc + fine_to_final[ctx % 30]
    } else {
        nbc * 37 + fine_to_final[(ctx - NZ_SPAN) / 458] * 458 + (ctx - NZ_SPAN) % 458
    }
}

impl AcCtxPlan {
    /// Every fine context has a final one, of which there are at most sixteen.
    pub open spec fn wf(&self) -> bool {
        &&& self.nbc <= 16
        &&& forall|f: int| 0 <= f < 30 ==> #[trigger] self.fine_to_final@[f] < self.nbc
    }

    /// The quant-field classes collapsed and nothing merged.
    pub open spec fn is_baseline(&self) -> bool {
        &&& self.nbc == K_NUM_BLOCK_CTXS
        &&& forall|f: int| 0 <= f < 30 ==> #[trigger] self.fine_to_final@[f] == f / 2
        &&& self.qf_threshold is None
    }

    /// The plan that collapses the quant-field classes and merges nothing.
    pub fn baseline() -> (r: Self)
        ensures
            r.is_baseline(),
            r.wf(),
    {
        let mut fine_to_final: [u8; 30] = [0u8; 30];
        let mut fine: usize = 0;
        while fine < K_NUM_FINE_BLOCK_CTXS
            invariant
                fine <= 30,
                forall|f: int| 0 <= f < fine ==> #[trigger] fine_to_final@[f] == f / 2,
            decreases 30 - fine,
        {
            fine_to_final[fine] = (fine / K_NUM_QF_CLASSES) as u8;
            fine += 1;
        }
        AcCtxPlan { nbc: K_NUM_BLOCK_CTXS as u8, fine_to_final, qf_threshold: None }
    }

    /// Number of contexts that the plan's layout holds.
    pub fn num_ac_contexts(&self) -> (r: usize)
        ensures
            r == self.nbc * (K_NON_ZERO_BUCKETS + K_ZERO_DENSITY_CONTEXT_COUNT),
    {
        self.nbc as usize * (K_NON_ZERO_BUCKETS + K_ZERO_DENSITY_CONTEXT_COUNT)
    }

    /// Maps a fine context into the plan's layout.
    pub fn remap(&self, ctx: u32) -> (r: u32)
        requires
            ctx < K_NUM_FINE_AC_CONTEXTS,
        ensures
            r == remap_spec(self.nbc as int, self.fine_to_final@, ctx as int),
    {
        let nbc: u32 = self.nbc as u32;
        if ctx < NZ_SPAN {
            let bucket: u32 = ctx / FINE_CTXS;
            let fine: u32 = ctx % FINE_CTXS;
            assert(bucket * nbc <= 37 * 255) by (nonlinear_arith)
                requires
                    bucket <= 37,
                    nbc <= 255,
            ;
            bucket * nbc + self.fine_to_final[fine as usize] as u32
        } else {
            let rel: u32 = ctx - NZ_SPAN;
            let fine: u32 = rel / DENSITIES;
            let z: u32 = rel % DENSITIES;
            nbc * BUCKETS + self.fine_to_final[fine as usize] as u32 * DENSITIES + z
        }
    }

    /// Number of quant-field classes that the signaled map distinguishes.
    pub open spec fn classes(&self) -> int {
        if self.qf_threshold is Some {
            2
        } else {
            1
        }
    }

    /// The signaled map entries: channel row outermost, then order, then
    /// quant-field class.
    pub fn ctx_map_entries(&self) -> (r: Vec<u8>)
        ensures
            r@.len() == 39 * self.classes(),
            forall|i: int, q: int|
                0 <= i < 39 && 0 <= q < self.classes() ==> #[trigger] r@[i * self.classes() + q]
                    == self.fine_to_final@[K_COMPACT_BLOCK_CONTEXT_MAP@[i] * 2 + q],
    {
        let qf_classes: usize = if self.qf_threshold.is_some() {
            K_NUM_QF_CLASSES
        } else {
            1
        };
        let mut out: Vec<u8> = Vec::with_capacity(39 * qf_classes);
        let mut i: usize = 0;
        while i < 39
            invariant
                i <= 39,
                qf_classes == self.classes(),
                1 <= qf_classes <= 2,
                out@.len() == i * qf_classes,
                forall|j: int, q: int|
                    0 <= j < i && 0 <= q < qf_classes ==> #[trigger] out@[j * qf_classes + q]
                        == self.fine_to_final@[K_COMPACT_BLOCK_CONTEXT_MAP@[j] * 2 + q],
            decreases 39 - i,
        {
            let base: usize = K_COMPACT_BLOCK_CONTEXT_MAP[i] as usize;
            out.push(self.fine_to_final[base * K_NUM_QF_CLASSES]);
            if qf_classes == 2 {
                out.push(self.fine_to_final[base * K_NUM_QF_CLASSES + 1]);
            }
            i += 1;
        }
        out
    }
}

/// A plan keeps every remapped context inside its layout.
pub proof fn law_remap_in_range(plan: AcCtxPlan, ctx: int)
    requires
        plan.wf(),
        0 <= ctx < K_NUM_FINE_AC_CONTEXTS,
    ensures
        0 <= remap_spec(plan.nbc as int, plan.fine_to_final@, ctx) < plan.nbc * (K_NON_ZERO_BUCKETS
            + K_ZERO_DENSITY_CONTEXT_COUNT),
{
    let nbc = plan.nbc as int;
    if ctx < NZ_SPAN {
        let bucket = ctx / 30;
        assert(plan.fine_to_final@[ctx % 30] < plan.nbc);
        assert(0 <= bucket * nbc <= 36 * nbc) by (nonlinear_arith)
            requires
                0 <= bucket <= 36,
                0 <= nbc,
        ;
    } else {
        let fine = (ctx - NZ_SPAN) / 458;
        assert(plan.fine_to_final@[fine] < plan.nbc);
    }
}

/// A token keeps its bucket of nonzeros, and moves to its plan's block context.
pub proof fn law_remap_of_non_zero_context(plan: AcCtxPlan, non_zeros: int, fine: int)
    requires
        0 <= non_zeros,
        0 <= fine < K_NUM_FINE_BLOCK_CTXS,
    ensures
        remap_spec(
            plan.nbc as int,
            plan.fine_to_final@,
            non_zero_bucket_spec(non_zeros) * K_NUM_FINE_BLOCK_CTXS + fine,
        ) == non_zero_bucket_spec(non_zeros) * plan.nbc + plan.fine_to_final@[fine],
{
}

/// A token keeps its zero-density context, and moves to its plan's block
/// context.
pub proof fn law_remap_of_zero_density_context(plan: AcCtxPlan, fine: int, z: int)
    requires
        0 <= fine < K_NUM_FINE_BLOCK_CTXS,
        0 <= z < K_ZERO_DENSITY_CONTEXT_COUNT,
    ensures
        remap_spec(
            plan.nbc as int,
            plan.fine_to_final@,
            K_NUM_FINE_BLOCK_CTXS * K_NON_ZERO_BUCKETS + K_ZERO_DENSITY_CONTEXT_COUNT * fine + z,
        ) == plan.nbc * K_NON_ZERO_BUCKETS + plan.fine_to_final@[fine]
            * K_ZERO_DENSITY_CONTEXT_COUNT + z,
{
}

/// The baseline plan puts both quant-field classes of a token where the layout
/// without classes has it, and signals the plain block context map.
pub proof fn law_baseline_is_the_plain_layout(
    plan: AcCtxPlan,
    non_zeros: int,
    block_ctx: int,
    class: int,
    z: int,
)
    requires
        plan.is_baseline(),
        0 <= non_zeros,
        0 <= block_ctx < K_NUM_BLOCK_CTXS,
        0 <= class < K_NUM_QF_CLASSES,
        0 <= z < K_ZERO_DENSITY_CONTEXT_COUNT,
    ensures
        ({
            let fine = block_ctx * K_NUM_QF_CLASSES + class;
            &&& remap_spec(
                plan.nbc as int,
                plan.fine_to_final@,
                non_zero_bucket_spec(non_zeros) * K_NUM_FINE_BLOCK_CTXS + fine,
            ) == non_zero_bucket_spec(non_zeros) * K_NUM_BLOCK_CTXS + block_ctx
            &&& remap_spec(
                plan.nbc as int,
                plan.fine_to_final@,
                K_NUM_FINE_BLOCK_CTXS * K_NON_ZERO_BUCKETS + K_ZERO_DENSITY_CONTEXT_COUNT * fine
                    + z,
            ) == K_NUM_BLOCK_CTXS * K_NON_ZERO_BUCKETS + K_ZERO_DENSITY_CONTEXT_COUNT * block_ctx
                + z
        }),
        forall|i: int|
            0 <= i < 39 ==> plan.fine_to_final@[#[trigger] K_COMPACT_BLOCK_CONTEXT_MAP@[i] * 2]
                == K_COMPACT_BLOCK_CONTEXT_MAP@[i],
{
    let fine = block_ctx * K_NUM_QF_CLASSES + class;
    assert(plan.fine_to_final@[fine] == block_ctx);
}

/// Symbols that the plan statistics distinguish.
pub const PLAN_NUM_SYMBOLS: usize = 128;

/// One token in this many is sampled.
pub const PLAN_SAMPLE_STEP: usize = 4;

/// A token on the fine layout: its context, the symbol that its value is coded
/// as, and the number of raw bits that follow the symbol.
#[derive(Clone, Copy, Debug, PartialEq, Eq, Structural)]
pub struct PlanToken {
    pub context: u32,
    pub symbol: u32,
    pub extra_bits: u32,
}

/// Number of sampled tokens among the leading `n` with a context and a symbol.
pub open spec fn sampled_count(tokens: Seq<PlanToken>, n: int, context: int, symbol: int) -> int
    decreases n,
{
    if n <= 0 {
        0
    } else {
        sampled_count(tokens, n - 1, context, symbol) + (if (n - 1) % 4 == 0 && tokens[n - 1].context
            == context && tokens[n - 1].symbol == symbol {
            1int
        } else {
            0
        })
    }
}

/// Raw bits of the sampled tokens among the leading `n` with a context.
pub open spec fn sampled_extra(tokens: Seq<PlanToken>, n: int, context: int) -> int
    decreases n,
{
    if n <= 0 {
        0
    } else {
        sampled_extra(tokens, n - 1, context) + (if (n - 1) % 4 == 0 && tokens[n - 1].context
            == context {
            tokens[n - 1].extra_bits as int
        } else {
            0
        })
    }
}

proof fn lemma_sampled_monotone(tokens: Seq<PlanToken>, n: int, m: int, context: int, symbol: int)
    requires
        0 <= n <= m,
    ensures
        0 <= sampled_count(tokens, n, context, symbol) <= sampled_count(tokens, m, context, symbol),
        0 <= sampled_extra(tokens, n, context) <= sampled_extra(tokens, m, context),
    decreases m,
{
    if n < m {
        lemma_sampled_monotone(tokens, n, m - 1, context, symbol);
    } else if 0 < m {
        lemma_sampled_monotone(tokens, n - 1, m - 1, context, symbol);
    }
}

/// Sampled tokens among the leading `n` with a context and one of the leading symbols.
pub open spec fn sampled_in_context(
    tokens: Seq<PlanToken>,
    n: int,
    context: int,
    symbols: int,
) -> int
    decreases symbols,
{
    if symbols <= 0 {
        0
    } else {
        sampled_in_context(tokens, n, context, symbols - 1) + sampled_count(
            tokens,
            n,
            context,
            symbols - 1,
        )
    }
}

/// Sampled tokens among the leading `n` with one of the leading contexts.
pub open spec fn sampled_in_all(tokens: Seq<PlanToken>, n: int, contexts: int) -> int
    decreases contexts,
{
    if contexts <= 0 {
        0
    } else {
        sampled_in_all(tokens, n, contexts - 1) + sampled_in_context(
            tokens,
            n,
            contexts - 1,
            PLAN_NUM_SYMBOLS as int,
        )
    }
}

proof fn lemma_sampled_in_context(tokens: Seq<PlanToken>, n: int, context: int, symbols: int)
    requires
        0 <= symbols,
    ensures
        n <= 0 ==> sampled_in_context(tokens, n, context, symbols) == 0,
        n > 0 ==> sampled_in_context(tokens, n, context, symbols) == sampled_in_context(
            tokens,
            n - 1,
            context,
            symbols,
        ) + (if (n - 1) % 4 == 0 && tokens[n - 1].context == context && tokens[n - 1].symbol
            < symbols {
            1int
        } else {
            0
        }),
    decreases symbols,
{
    if symbols > 0 {
        lemma_sampled_in_context(tokens, n, context, symbols - 1);
    }
}

proof fn lemma_sampled_in_all(tokens: Seq<PlanToken>, n: int, contexts: int)
    requires
        0 <= contexts,
    ensures
        n <= 0 ==> sampled_in_all(tokens, n, contexts) == 0,
        n > 0 ==> sampled_in_all(tokens, n, contexts) == sampled_in_all(tokens, n - 1, contexts) + (
        if (n - 1) % 4 == 0 && tokens[n - 1].context < contexts && tokens[n - 1].symbol
            < PLAN_NUM_SYMBOLS {
            1int
        } else {
            0
        }),
    decreases contexts,
{
    if contexts > 0 {
        lemma_sampled_in_all(tokens, n, contexts - 1);
        lemma_sampled_in_context(tokens, n, contexts - 1, PLAN_NUM_SYMBOLS as int);
    }
}

/// One token in four is sampled, the first among them: the counts of all contexts and
/// symbols grow by a quarter of the tokens, rounded up.
pub proof fn law_a_quarter_of_the_tokens_is_sampled(tokens: Seq<PlanToken>, n: int)
    requires
        0 <= n <= tokens.len(),
        forall|i: int|
            0 <= i < tokens.len() && i % 4 == 0 ==> (#[trigger] tokens[i]).context
                < K_NUM_FINE_AC_CONTEXTS && tokens[i].symbol < PLAN_NUM_SYMBOLS,
    ensures
        sampled_in_all(tokens, n, K_NUM_FINE_AC_CONTEXTS as int) == (n + 3) / 4,
    decreases n,
{
    lemma_sampled_in_all(tokens, n, K_NUM_FINE_AC_CONTEXTS as int);
    if n > 0 {
        law_a_quarter_of_the_tokens_is_sampled(tokens, n - 1);
    }
}

/// Token statistics on the fine layout.
pub struct PlanStats {
    counts: Vec<u32>,
    extra: Vec<u64>,
}

impl PlanStats {
    pub closed spec fn wf(&self) -> bool {
        self.counts@.len() == 1900800 && self.extra@.len() == 14850
    }

    /// Sampled tokens of a context that were coded as a symbol.
    pub closed spec fn count(&self, context: int, symbol: int) -> u32 {
        self.counts@[context * 128 + symbol]
    }

    /// Raw bits of the sampled tokens of a context.
    pub closed spec fn extra_bits(&self, context: int) -> u64 {
        self.extra@[context]
    }

    /// No tokens seen.
    pub fn new() -> (r: Self)
        ensures
            r.wf(),
            forall|context: int, symbol: int|
                0 <= context < K_NUM_FINE_AC_CONTEXTS && 0 <= symbol < PLAN_NUM_SYMBOLS
                    ==> #[trigger] r.count(context, symbol) == 0,
            forall|context: int|
                0 <= context < K_NUM_FINE_AC_CONTEXTS ==> #[trigger] r.extra_bits(context) == 0,
    {
        PlanStats {
            counts: vec![0u32; K_NUM_FINE_AC_CONTEXTS * PLAN_NUM_SYMBOLS],
            extra: vec![0u64; K_NUM_FINE_AC_CONTEXTS],
        }
    }

    /// Adds every fourth token of a stream, starting with the first.
    pub fn add_stream(&mut self, tokens: &[PlanToken])
        requires
            old(self).wf(),
            forall|i: int|
                0 <= i < tokens@.len() && i % 4 == 0 ==> (#[trigger] tokens@[i]).context
                    < K_NUM_FINE_AC_CONTEXTS && tokens@[i].symbol < PLAN_NUM_SYMBOLS,
            forall|context: int, symbol: int|
                0 <= context < K_NUM_FINE_AC_CONTEXTS && 0 <= symbol < PLAN_NUM_SYMBOLS
                    ==> #[trigger] old(self).count(context, symbol) + sampled_count(
                    tokens@,
                    tokens@.len() as int,
                    context,
                    symbol,
                ) <= u32::MAX,
            forall|context: int|
                0 <= context < K_NUM_FINE_AC_CONTEXTS ==> #[trigger] old(self).extra_bits(context)
                    + sampled_extra(tokens@, tokens@.len() as int, context) <= u64::MAX,
        ensures
            final(self).wf(),
            forall|context: int, symbol: int|
                0 <= context < K_NUM_FINE_AC_CONTEXTS && 0 <= symbol < PLAN_NUM_SYMBOLS
                    ==> #[trigger] final(self).count(context, symbol) == old(self).count(
                    context,
                    symbol,
                ) + sampled_count(tokens@, tokens@.len() as int, context, symbol),
            forall|context: int|
                0 <= context < K_NUM_FINE_AC_CONTEXTS ==> #[trigger] final(self).extra_bits(context)
                    == old(self).extra_bits(context) + sampled_extra(
                    tokens@,
                    tokens@.len() as int,
                    context,
                ),
    {
        let mut i: usize = 0;
        while i < tokens.len()
            invariant
                i <= tokens@.len(),
                self.wf(),
                forall|j: int|
                    0 <= j < tokens@.len() && j % 4 == 0 ==> (#[trigger] tokens@[j]).context
                        < K_NUM_FINE_AC_CONTEXTS && tokens@[j].symbol < PLAN_NUM_SYMBOLS,
                forall|context: int, symbol: int|
                    0 <= context < K_NUM_FINE_AC_CONTEXTS && 0 <= symbol < PLAN_NUM_SYMBOLS
                        ==> #[trigger] old(self).count(context, symbol) + sampled_count(
                        tokens@,
                        tokens@.len() as int,
                        context,
                        symbol,
                    ) <= u32::MAX,
                forall|context: int|
                    0 <= context < K_NUM_FINE_AC_CONTEXTS ==> #[trigger] old(self).extra_bits(
                        context,
                    ) + sampled_extra(tokens@, tokens@.len() as int, context) <= u64::MAX,
                forall|context: int, symbol: int|
                    0 <= context < K_NUM_FINE_AC_CONTEXTS && 0 <= symbol < PLAN_NUM_SYMBOLS
                        ==> #[trigger] self.count(context, symbol) == old(self).count(
                        context,
                        symbol,
                    ) + sampled_count(tokens@, i as int, context, symbol),
                forall|context: int|
                    0 <= context < K_NUM_FINE_AC_CONTEXTS ==> #[trigger] self.extra_bits(context)
                        == old(self).extra_bits(context) + sampled_extra(
                        tokens@,
                        i as int,
                        context,
                    ),
            decreases tokens@.len() - i,
        {
            if i % PLAN_SAMPLE_STEP == 0 {
                let t: PlanToken = tokens[i];
                let ghost before = *self;
                proof {
                    let c = t.context as int;
                    let s = t.symbol as int;
                    lemma_sampled_monotone(tokens@, i + 1, tokens@.len() as int, c, s);
                    assert(self.count(c, s) == old(self).count(c, s) + sampled_count(
                        tokens@,
                        i as int,
                        c,
                        s,
                    ));
                    assert(self.extra_bits(c) == old(self).extra_bits(c) + sampled_extra(
                        tokens@,
                        i as int,
                        c,
                    ));
                    assert(old(self).extra_bits(c) + sampled_extra(
                        tokens@,
                        tokens@.len() as int,
                        c,
                    ) <= u64::MAX);
                }
                let slot: usize = t.context as usize * PLAN_NUM_SYMBOLS + t.symbol as usize;
                self.counts[slot] = self.counts[slot] + 1;
                self.extra[t.context as usize] = self.extra[t.context as usize]
                    + t.extra_bits as u64;
                proof {
                    assert forall|context: int, symbol: int|
                        0 <= context < K_NUM_FINE_AC_CONTEXTS && 0 <= symbol
                            < PLAN_NUM_SYMBOLS implies #[trigger] self.count(context, symbol)
                        == old(self).count(context, symbol) + sampled_count(
                        tokens@,
                        i + 1,
                        context,
                        symbol,
                    ) by {
                        assert(before.count(context, symbol) == old(self).count(context, symbol)
                            + sampled_count(tokens@, i as int, context, symbol));
                        assert(context * 128 + symbol == slot <==> context == t.context && symbol
                            == t.symbol);
                    }
                    assert forall|context: int|
                        0 <= context < K_NUM_FINE_AC_CONTEXTS implies #[trigger] self.extra_bits(
                        context,
                    ) == old(self).extra_bits(context) + sampled_extra(
                        tokens@,
                        i + 1,
                        context,
                    ) by {
                        assert(before.extra_bits(context) == old(self).extra_bits(context)
                            + sampled_extra(tokens@, i as int, context));
                    }
                }
            } else {
                proof {
                    assert forall|context: int, symbol: int|
                        0 <= context < K_NUM_FINE_AC_CONTEXTS && 0 <= symbol
                            < PLAN_NUM_SYMBOLS implies #[trigger] self.count(context, symbol)
                        == old(self).count(context, symbol) + sampled_count(
                        tokens@,
                        i + 1,
                        context,
                        symbol,
                    ) by {}
                }
            }
            i += 1;
        }
    }

    /// Raw bits of the member contexts of a group in one sub-context slot.
    pub fn group_extra_bits(&self, members: &[u8], slot: usize) -> (r: u64)
        requires
            self.wf(),
            forall|i: int| 0 <= i < members@.len() ==> #[trigger] members@[i] < K_NUM_FINE_BLOCK_CTXS,
            slot < K_NON_ZERO_BUCKETS + K_ZERO_DENSITY_CONTEXT_COUNT,
            merged_extra(*self, members@, members@.len() as int, slot as int) <= u64::MAX,
        ensures
            r == merged_extra(*self, members@, members@.len() as int, slot as int),
    {
        let mut sum: u64 = 0;
        let mut m: usize = 0;
        while m < members.len()
            invariant
                m <= members@.len(),
                self.wf(),
                forall|i: int|
                    0 <= i < members@.len() ==> #[trigger] members@[i] < K_NUM_FINE_BLOCK_CTXS,
                slot < 495,
                merged_extra(*self, members@, members@.len() as int, slot as int) <= u64::MAX,
                sum == merged_extra(*self, members@, m as int, slot as int),
            decreases members@.len() - m,
        {
            proof {
                lemma_merged_extra_monotone(
                    *self,
                    members@,
                    m + 1,
                    members@.len() as int,
                    slot as int,
                );
            }
            let context: usize = slot_context(slot, members[m]);
            sum = sum + self.extra[context];
            m += 1;
        }
        sum
    }

    /// Symbol counts that the member contexts of a group put together in one
    /// sub-context slot: a bucket of nonzeros, or a zero-density context.
    pub fn slot_counts(&self, members: &[u8], slot: usize) -> (r: Vec<u64>)
        requires
            self.wf(),
            members@.len() <= K_NUM_FINE_BLOCK_CTXS,
            forall|i: int| 0 <= i < members@.len() ==> #[trigger] members@[i] < K_NUM_FINE_BLOCK_CTXS,
            slot < K_NON_ZERO_BUCKETS + K_ZERO_DENSITY_CONTEXT_COUNT,
        ensures
            r@.len() == PLAN_NUM_SYMBOLS,
            forall|symbol: int|
                0 <= symbol < PLAN_NUM_SYMBOLS ==> #[trigger] r@[symbol] == merged_count(
                    *self,
                    members@,
                    members@.len() as int,
                    slot as int,
                    symbol,
                ),
    {
        let mut out: Vec<u64> = Vec::new();
        let mut symbol: usize = 0;
        while symbol < PLAN_NUM_SYMBOLS
            invariant
                symbol <= 128,
                self.wf(),
                members@.len() <= K_NUM_FINE_BLOCK_CTXS,
                forall|i: int|
                    0 <= i < members@.len() ==> #[trigger] members@[i] < K_NUM_FINE_BLOCK_CTXS,
                slot < 495,
                out@.len() == symbol,
                forall|s: int|
                    0 <= s < symbol ==> #[trigger] out@[s] == merged_count(
                        *self,
                        members@,
                        members@.len() as int,
                        slot as int,
                        s,
                    ),
            decreases 128 - symbol,
        {
            let mut sum: u64 = 0;
            let mut m: usize = 0;
            while m < members.len()
                invariant
                    m <= members@.len() <= K_NUM_FINE_BLOCK_CTXS,
                    symbol < 128,
                    self.wf(),
                    forall|i: int|
                        0 <= i < members@.len() ==> #[trigger] members@[i]
                            < K_NUM_FINE_BLOCK_CTXS,
                    slot < 495,
                    sum == merged_count(*self, members@, m as int, slot as int, symbol as int),
                    sum <= m * 0xffff_ffff,
                decreases members@.len() - m,
            {
                let context: usize = slot_context(slot, members[m]);
                sum = sum + self.counts[context * PLAN_NUM_SYMBOLS + symbol] as u64;
                m += 1;
            }
            out.push(sum);
            symbol += 1;
        }
        out
    }
}

/// Raw bits over the leading `n` members, in one slot.
pub open spec fn merged_extra(stats: PlanStats, members: Seq<u8>, n: int, slot: int) -> int
    decreases n,
{
    if n <= 0 {
        0
    } else {
        merged_extra(stats, members, n - 1, slot) + stats.extra_bits(
            slot_context_spec(slot, members[n - 1] as int),
        )
    }
}

pub(crate) proof fn lemma_merged_extra_monotone(
    stats: PlanStats,
    members: Seq<u8>,
    n: int,
    m: int,
    slot: int,
)
    requires
        0 <= n <= m,
    ensures
        0 <= merged_extra(stats, members, n, slot) <= merged_extra(stats, members, m, slot),
    decreases m,
{
    if n < m {
        lemma_merged_extra_monotone(stats, members, n, m - 1, slot);
    } else if 0 < m {
        lemma_merged_extra_monotone(stats, members, n - 1, m - 1, slot);
    }
}

/// The fine context of a sub-context slot in a fine block context.
pub open spec fn slot_context_spec(slot: int, fine: int) -> int {
    if slot < K_NON_ZERO_BUCKETS {
        slot * K_NUM_FINE_BLOCK_CTXS + fine
    } else {
        NZ_SPAN + fine * K_ZERO_DENSITY_CONTEXT_COUNT + (slot - K_NON_ZERO_BUCKETS)
    }
}

/// The fine context of a sub-context slot in a fine block context.
pub fn slot_context(slot: usize, fine: u8) -> (r: usize)
    requires
        slot < K_NON_ZERO_BUCKETS + K_ZERO_DENSITY_CONTEXT_COUNT,
        fine < K_NUM_FINE_BLOCK_CTXS,
    ensures
        r == slot_context_spec(slot as int, fine as int),
        r < K_NUM_FINE_AC_CONTEXTS,
{
    if slot < K_NON_ZERO_BUCKETS {
        slot * K_NUM_FINE_BLOCK_CTXS + fine as usize
    } else {
        K_NUM_FINE_BLOCK_CTXS * K_NON_ZERO_BUCKETS + fine as usize * K_ZERO_DENSITY_CONTEXT_COUNT
            + (slot - K_NON_ZERO_BUCKETS)
    }
}

/// Count of a symbol over the leading `n` members, in one slot.
pub open spec fn merged_count(
    stats: PlanStats,
    members: Seq<u8>,
    n: int,
    slot: int,
    symbol: int,
) -> int
    decreases n,
{
    if n <= 0 {
        0
    } else {
        merged_count(stats, members, n - 1, slot, symbol) + stats.count(
            slot_context_spec(slot, members[n - 1] as int),
            symbol,
        )
    }
}

/// A run of consecutive fine block contexts that share one final context.
#[derive(Clone, Copy, Debug, PartialEq, Eq, Structural)]
pub struct Run {
    pub lo: u8,
    pub len: u8,
}

impl Run {
    pub open spec fn holds(self, fine: int) -> bool {
        self.lo <= fine < self.lo + self.len
    }

    /// Whole base contexts only, so that it may take part in a merge.
    pub open spec fn is_unsplit(self) -> bool {
        self.lo % 2 == 0 && self.len % 2 == 0
    }

    /// Exactly one base context, so that it may be split.
    pub open spec fn is_splittable(self) -> bool {
        self.lo % 2 == 0 && self.len == 2
    }
}

/// What it costs to code each run of fine block contexts with one set of
/// histograms: entry `[lo][len]` belongs to the run of `len` contexts from `lo`.
pub struct GroupCosts<A> {
    pub rows: Vec<Vec<A>>,
}

impl<A: Amount> GroupCosts<A> {
    pub open spec fn wf(&self) -> bool {
        &&& self.rows@.len() == 30
        &&& forall|lo: int| 0 <= lo < 30 ==> (#[trigger] self.rows@[lo])@.len() == 31
    }

    pub open spec fn at(&self, run: Run) -> A {
        self.rows@[run.lo as int]@[run.len as int]
    }

    fn cost(&self, run: Run) -> (r: A)
        requires
            self.wf(),
            run.lo < 30,
            run.len <= 30,
        ensures
            r == self.at(run),
    {
        self.rows[run.lo as usize][run.len as usize]
    }
}

/// Chroma merges, cheapest first; each frees one id for a split when the
/// budget is exhausted. Entry `a` merges base contexts `a` and `a + 1`.
pub const CHROMA_MERGE_CANDIDATES: [u8; 4] = [10, 8, 12, 13];

pub const MAX_BLOCK_CTXS: usize = 16;

/// Bits charged for a split that needs an id of its own.
pub const SPLIT_CHARGE: i64 = 1040;

/// Bits charged for a split whose id a merge has freed.
pub const PAIRED_CHARGE: i64 = 390;

/// Bits of net gain below which no plan is proposed.
pub const PROPOSE_MIN_NET_BITS: i64 = 4096;

/// What the sampled statistics promise for splitting a base context.
pub open spec fn split_gain<A: Amount>(costs: GroupCosts<A>, g: Run) -> A {
    costs.at(g).minus_spec(costs.at(Run { lo: g.lo, len: 1 })).minus_spec(
        costs.at(Run { lo: (g.lo + 1) as u8, len: 1 }),
    )
}

/// The split with the largest gain among the leading `n` groups, the earliest
/// one of equals; only gains above zero count.
pub open spec fn best_split<A: Amount>(
    costs: GroupCosts<A>,
    groups: Seq<Run>,
    n: int,
) -> Option<(A, int)>
    decreases n,
{
    if n <= 0 {
        None
    } else {
        let prev = best_split(costs, groups, n - 1);
        let g = groups[n - 1];
        let gain = split_gain(costs, g);
        if g.is_splittable() && A::zero_spec().less_spec(gain) && (prev is Some ==> (
        prev->0).0.less_spec(gain)) {
            Some((gain, n - 1))
        } else {
            prev
        }
    }
}

/// The first group that holds a fine context.
pub open spec fn position(groups: Seq<Run>, fine: int, n: int) -> Option<int>
    decreases n,
{
    if n <= 0 {
        None
    } else {
        let prev = position(groups, fine, n - 1);
        if prev is Some {
            prev
        } else if groups[n - 1].holds(fine) {
            Some(n - 1)
        } else {
            None
        }
    }
}

/// The groups that chroma merge `m` would join, if it is open.
pub open spec fn merge_pair(
    groups: Seq<Run>,
    used: Seq<bool>,
    split_pos: int,
    m: int,
) -> Option<(int, int)> {
    let a = CHROMA_MERGE_CANDIDATES@[m] as int;
    let pa = position(groups, a * 2, groups.len() as int);
    let pb = position(groups, a * 2 + 2, groups.len() as int);
    if !used[m] && pa is Some && pb is Some && pa != pb && groups[pa->0].is_unsplit()
        && groups[pb->0].is_unsplit() && pa->0 != split_pos && pb->0 != split_pos {
        Some((pa->0, pb->0))
    } else {
        None
    }
}

pub open spec fn joined(a: Run, b: Run) -> Run {
    Run { lo: a.lo, len: (a.len + b.len) as u8 }
}

/// Bits that joining two groups costs, scaled up from the sample.
pub open spec fn merge_price<A: Amount>(costs: GroupCosts<A>, a: Run, b: Run) -> A {
    costs.at(joined(a, b)).minus_spec(costs.at(a)).minus_spec(costs.at(b)).times_spec(
        A::ratio_spec(4, 1),
    )
}

/// The cheapest open merge among the leading `n`: its price, its number and the
/// two groups; the earliest one of equals.
pub open spec fn cheapest_merge<A: Amount>(
    costs: GroupCosts<A>,
    groups: Seq<Run>,
    used: Seq<bool>,
    split_pos: int,
    n: int,
) -> Option<(A, int, int, int)>
    decreases n,
{
    if n <= 0 {
        None
    } else {
        let prev = cheapest_merge(costs, groups, used, split_pos, n - 1);
        match merge_pair(groups, used, split_pos, n - 1) {
            None => prev,
            Some((pa, pb)) => {
                let price = merge_price(costs, groups[pa], groups[pb]);
                if prev is None || price.less_spec((prev->0).0) {
                    Some((price, n - 1, pa, pb))
                } else {
                    prev
                }
            },
        }
    }
}

/// The search: the present groups, the merges spent and the gain so far.
pub struct PlanState<A> {
    pub groups: Seq<Run>,
    pub used: Seq<bool>,
    pub any_split: bool,
    pub total_net: A,
}

/// Groups without entry `at`; the entries behind it move up.
pub open spec fn shifted(at: int, removed: int) -> int {
    if at > removed {
        at - 1
    } else {
        at
    }
}

/// Groups after splitting the one at `split_pos`.
pub open spec fn after_split(groups: Seq<Run>, split_pos: int) -> Seq<Run> {
    let g = groups[split_pos];
    groups.remove(split_pos).push(Run { lo: g.lo, len: 1 }).push(
        Run { lo: (g.lo + 1) as u8, len: 1 },
    )
}

/// Groups after joining those at `pa` and `pb`.
pub open spec fn after_merge(groups: Seq<Run>, pa: int, pb: int) -> Seq<Run> {
    groups.remove(pa).remove(shifted(pb, pa)).push(joined(groups[pa], groups[pb]))
}

/// One round: the best split, paid for by the cheapest merge when the budget is
/// exhausted; `None` when no round pays.
pub open spec fn plan_step<A: Amount>(costs: GroupCosts<A>, s: PlanState<A>) -> Option<
    PlanState<A>,
> {
    match best_split(costs, s.groups, s.groups.len() as int) {
        None => None,
        Some((sampled_gain, split_pos)) => {
            let gain = sampled_gain.times_spec(A::ratio_spec(4, 1));
            if s.groups.len() < MAX_BLOCK_CTXS {
                let net = gain.minus_spec(A::ratio_spec(SPLIT_CHARGE, 1));
                if net.at_most_spec(A::zero_spec()) {
                    None
                } else {
                    Some(
                        PlanState {
                            groups: after_split(s.groups, split_pos),
                            used: s.used,
                            any_split: true,
                            total_net: s.total_net.plus_spec(net),
                        },
                    )
                }
            } else {
                match cheapest_merge(costs, s.groups, s.used, split_pos, 4) {
                    None => None,
                    Some((price, m, pa, pb)) => {
                        let net = gain.minus_spec(price).minus_spec(
                            A::ratio_spec(PAIRED_CHARGE, 1),
                        );
                        if net.at_most_spec(A::zero_spec()) {
                            None
                        } else {
                            Some(
                                PlanState {
                                    groups: after_split(
                                        after_merge(s.groups, pa, pb),
                                        shifted(shifted(split_pos, pa), shifted(pb, pa)),
                                    ),
                                    used: s.used.update(m, true),
                                    any_split: true,
                                    total_net: s.total_net.plus_spec(net),
                                },
                            )
                        }
                    },
                }
            }
        },
    }
}

/// The state after at most `rounds` rounds.
pub open spec fn plan_run<A: Amount>(
    costs: GroupCosts<A>,
    s: PlanState<A>,
    rounds: int,
) -> PlanState<A>
    decreases rounds,
{
    if rounds <= 0 {
        s
    } else {
        match plan_step(costs, s) {
            None => s,
            Some(next) => plan_run(costs, next, rounds - 1),
        }
    }
}

/// One group per base context, nothing merged.
pub open spec fn plan_start<A: Amount>() -> PlanState<A> {
    PlanState {
        groups: Seq::new(15, |b: int| Run { lo: (2 * b) as u8, len: 2 }),
        used: seq![false, false, false, false],
        any_split: false,
        total_net: A::zero_spec(),
    }
}

/// Number of groups among the leading `n` that begin at or before a fine context.
pub open spec fn begun(groups: Seq<Run>, n: int, fine: int) -> int
    decreases n,
{
    if n <= 0 {
        0
    } else {
        begun(groups, n - 1, fine) + (if groups[n - 1].lo <= fine {
            1int
        } else {
            0
        })
    }
}

/// Every fine context lies in exactly one group, and groups hold whole base
/// contexts or single fine ones.
pub open spec fn partitions(groups: Seq<Run>) -> bool {
    &&& forall|i: int|
        0 <= i < groups.len() ==> (#[trigger] groups[i]).len >= 1 && groups[i].lo + groups[i].len
            <= 30
    &&& forall|f: int| 0 <= f < 30 ==> #[trigger] held_by_some(groups, f)
    &&& forall|i: int, j: int, f: int|
        0 <= i < groups.len() && 0 <= j < groups.len() && #[trigger] groups[i].holds(f)
            && #[trigger] groups[j].holds(f) ==> i == j
}

pub open spec fn held_by_some(groups: Seq<Run>, fine: int) -> bool {
    exists|i: int| 0 <= i < groups.len() && #[trigger] groups[i].holds(fine)
}

proof fn lemma_position(groups: Seq<Run>, fine: int, n: int)
    requires
        0 <= n <= groups.len(),
    ensures
        match position(groups, fine, n) {
            Some(i) => 0 <= i < n && groups[i].holds(fine),
            None => forall|i: int| 0 <= i < n ==> !(#[trigger] groups[i]).holds(fine),
        },
    decreases n,
{
    if n > 0 {
        lemma_position(groups, fine, n - 1);
    }
}

proof fn lemma_best_split<A: Amount>(costs: GroupCosts<A>, groups: Seq<Run>, n: int)
    requires
        0 <= n <= groups.len(),
    ensures
        best_split(costs, groups, n) matches Some((gain, i)) ==> 0 <= i < n
            && groups[i].is_splittable(),
    decreases n,
{
    if n > 0 {
        lemma_best_split(costs, groups, n - 1);
    }
}

proof fn lemma_merge_pair(groups: Seq<Run>, used: Seq<bool>, split_pos: int, m: int)
    requires
        partitions(groups),
        0 <= m < 4,
    ensures
        merge_pair(groups, used, split_pos, m) matches Some((pa, pb)) ==> {
            &&& 0 <= pa < groups.len()
            &&& 0 <= pb < groups.len()
            &&& pa != pb
            &&& pa != split_pos
            &&& pb != split_pos
            &&& !used[m]
            &&& groups[pa].lo + groups[pa].len == groups[pb].lo
        },
{
    let a = CHROMA_MERGE_CANDIDATES@[m] as int;
    lemma_position(groups, a * 2, groups.len() as int);
    lemma_position(groups, a * 2 + 2, groups.len() as int);
    if merge_pair(groups, used, split_pos, m) is Some {
        let (pa, pb) = merge_pair(groups, used, split_pos, m)->0;
        if groups[pa].lo + groups[pa].len > a * 2 + 2 {
            assert(groups[pa].holds(a * 2 + 2) && groups[pb].holds(a * 2 + 2));
        }
        if groups[pb].lo < a * 2 + 2 {
            assert(groups[pa].holds(a * 2) && groups[pb].holds(a * 2));
        }
    }
}

proof fn lemma_cheapest_merge<A: Amount>(
    costs: GroupCosts<A>,
    groups: Seq<Run>,
    used: Seq<bool>,
    split_pos: int,
    n: int,
)
    requires
        partitions(groups),
        0 <= n <= 4,
    ensures
        cheapest_merge(costs, groups, used, split_pos, n) matches Some((price, m, pa, pb)) ==> {
            &&& 0 <= m < n
            &&& merge_pair(groups, used, split_pos, m) == Some((pa, pb))
        },
    decreases n,
{
    if n > 0 {
        lemma_cheapest_merge(costs, groups, used, split_pos, n - 1);
    }
}

proof fn lemma_split_partitions(groups: Seq<Run>, at: int)
    requires
        partitions(groups),
        0 <= at < groups.len(),
        groups[at].is_splittable(),
    ensures
        partitions(after_split(groups, at)),
        after_split(groups, at).len() == groups.len() + 1,
{
    let n = groups.len() as int;
    let g = groups[at];
    let next = after_split(groups, at);
    let came = |i: int|
        if i < at {
            i
        } else if i < n - 1 {
            i + 1
        } else {
            at
        };
    assert forall|i: int, f: int| 0 <= i < next.len() && #[trigger] next[i].holds(f) implies
        groups[came(i)].holds(f) && (came(i) == at ==> f == g.lo + (i - (n - 1))) by {
        if i < n - 1 {
            assert(next[i] == groups[came(i)]);
        }
    }
    assert forall|f: int| 0 <= f < 30 implies #[trigger] held_by_some(next, f) by {
        assert(held_by_some(groups, f));
        let i = choose|i: int| 0 <= i < groups.len() && #[trigger] groups[i].holds(f);
        if i < at {
            assert(next[i].holds(f));
        } else if i > at {
            assert(next[i - 1].holds(f));
        } else if f == g.lo {
            assert(next[n - 1].holds(f));
        } else {
            assert(next[n].holds(f));
        }
    }
    assert forall|i: int, j: int, f: int|
        0 <= i < next.len() && 0 <= j < next.len() && #[trigger] next[i].holds(f)
            && #[trigger] next[j].holds(f) implies i == j by {
        assert(groups[came(i)].holds(f) && groups[came(j)].holds(f));
    }
}

proof fn lemma_merge_partitions(groups: Seq<Run>, pa: int, pb: int)
    requires
        partitions(groups),
        0 <= pa < groups.len(),
        0 <= pb < groups.len(),
        pa != pb,
        groups[pa].lo + groups[pa].len == groups[pb].lo,
    ensures
        partitions(after_merge(groups, pa, pb)),
        after_merge(groups, pa, pb).len() == groups.len() - 1,
        forall|k: int|
            0 <= k < groups.len() && k != pa && k != pb ==> 0 <= shifted(
                shifted(k, pa),
                shifted(pb, pa),
            ) < groups.len() - 2 && after_merge(groups, pa, pb)[shifted(
                shifted(k, pa),
                shifted(pb, pa),
            )] == #[trigger] groups[k],
{
    let n = groups.len() as int;
    let next = after_merge(groups, pa, pb);
    let u = joined(groups[pa], groups[pb]);
    assert(groups[pb].lo + groups[pb].len <= 30);
    let first = groups.remove(pa);
    let second = first.remove(shifted(pb, pa));
    // Where entry `i` of the shorter list stood before.
    let came = |i: int|
        {
            let j = if i < shifted(pb, pa) {
                i
            } else {
                i + 1
            };
            if j < pa {
                j
            } else {
                j + 1
            }
        };
    assert forall|i: int| 0 <= i < n - 2 implies #[trigger] next[i] == groups[came(i)] && came(i)
        != pa && came(i) != pb && 0 <= came(i) < n by {
        let j = if i < shifted(pb, pa) {
            i
        } else {
            i + 1
        };
        assert(next[i] == second[i]);
        assert(second[i] == first[j]);
        assert(first[j] == groups[came(i)]);
    }
    assert(next[n - 2] == u);
    assert forall|f: int| 0 <= f < 30 implies #[trigger] held_by_some(next, f) by {
        assert(held_by_some(groups, f));
        let k = choose|k: int| 0 <= k < groups.len() && #[trigger] groups[k].holds(f);
        if k == pa || k == pb {
            assert(next[n - 2].holds(f));
        } else {
            let i = shifted(shifted(k, pa), shifted(pb, pa));
            assert(came(i) == k);
            assert(next[i].holds(f));
        }
    }
    assert forall|i: int, j: int, f: int|
        0 <= i < next.len() && 0 <= j < next.len() && #[trigger] next[i].holds(f)
            && #[trigger] next[j].holds(f) implies i == j by {
        if i < n - 2 && j < n - 2 {
            assert(groups[came(i)].holds(f) && groups[came(j)].holds(f));
        } else if i < n - 2 {
            assert(groups[came(i)].holds(f));
            assert(groups[pa].holds(f) || groups[pb].holds(f));
        } else if j < n - 2 {
            assert(groups[came(j)].holds(f));
            assert(groups[pa].holds(f) || groups[pb].holds(f));
        }
    }
    assert forall|k: int| 0 <= k < groups.len() && k != pa && k != pb implies 0 <= shifted(
        shifted(k, pa),
        shifted(pb, pa),
    ) < groups.len() - 2 && next[shifted(shifted(k, pa), shifted(pb, pa))]
        == #[trigger] groups[k] by {
        let i = shifted(shifted(k, pa), shifted(pb, pa));
        assert(came(i) == k);
    }
}

/// Merges not yet spent among the leading `n`.
pub open spec fn unspent(used: Seq<bool>, n: int) -> int
    decreases n,
{
    if n <= 0 {
        0
    } else {
        unspent(used, n - 1) + (if used[n - 1] {
            0int
        } else {
            1
        })
    }
}

proof fn lemma_unspent_update(used: Seq<bool>, m: int, n: int)
    requires
        0 <= m < used.len(),
        0 <= n <= used.len(),
        !used[m],
    ensures
        unspent(used.update(m, true), n) == unspent(used, n) - (if m < n {
            1int
        } else {
            0
        }),
        0 <= unspent(used, n) <= n,
    decreases n,
{
    if n > 0 {
        lemma_unspent_update(used, m, n - 1);
    }
}

proof fn lemma_unspent_bounds(used: Seq<bool>, n: int)
    ensures
        0 <= unspent(used, n),
    decreases n,
{
    if n > 0 {
        lemma_unspent_bounds(used, n - 1);
    }
}

proof fn lemma_begun_bounds(groups: Seq<Run>, n: int, fine: int)
    requires
        0 <= n <= groups.len(),
    ensures
        0 <= begun(groups, n, fine) <= n,
        forall|i: int| 0 <= i < n && (#[trigger] groups[i]).lo <= fine ==> begun(groups, n, fine)
            >= 1,
    decreases n,
{
    if n > 0 {
        lemma_begun_bounds(groups, n - 1, fine);
    }
}

/// The plan that a finished search stands for: final contexts are numbered by
/// the smallest fine context of their group.
pub open spec fn is_plan_of<A>(plan: AcCtxPlan, s: PlanState<A>, qf_threshold: u32) -> bool {
    &&& plan.nbc == s.groups.len()
    &&& forall|f: int|
        0 <= f < 30 ==> #[trigger] plan.fine_to_final@[f] == begun(
            s.groups,
            s.groups.len() as int,
            f,
        ) - 1
    &&& plan.qf_threshold == (if s.any_split {
        Some(qf_threshold)
    } else {
        None
    })
}

fn find_group(groups: &Vec<Run>, fine: u8) -> (r: Option<usize>)
    requires
        forall|i: int|
            0 <= i < groups@.len() ==> (#[trigger] groups@[i]).lo + groups@[i].len <= 30,
    ensures
        match r {
            Some(i) => position(groups@, fine as int, groups@.len() as int) == Some(i as int),
            None => position(groups@, fine as int, groups@.len() as int) is None,
        },
{
    let mut i: usize = 0;
    while i < groups.len()
        invariant
            i <= groups@.len(),
            forall|k: int|
                0 <= k < groups@.len() ==> (#[trigger] groups@[k]).lo + groups@[k].len <= 30,
            position(groups@, fine as int, i as int) is None,
        decreases groups@.len() - i,
    {
        let g: Run = groups[i];
        if g.lo <= fine && fine < g.lo + g.len {
            proof {
                lemma_position_stays(groups@, fine as int, i + 1, groups@.len() as int);
            }
            return Some(i);
        }
        i += 1;
    }
    None
}

proof fn lemma_position_stays(groups: Seq<Run>, fine: int, n: int, m: int)
    requires
        0 <= n <= m,
        position(groups, fine, n) is Some,
    ensures
        position(groups, fine, m) == position(groups, fine, n),
    decreases m,
{
    if n < m {
        lemma_position_stays(groups, fine, n, m - 1);
    }
}

fn find_best_split<A: Amount>(costs: &GroupCosts<A>, groups: &Vec<Run>) -> (r: Option<(A, usize)>)
    requires
        costs.wf(),
        partitions(groups@),
    ensures
        match r {
            None => best_split(*costs, groups@, groups@.len() as int) is None,
            Some((gain, at)) => best_split(*costs, groups@, groups@.len() as int) == Some(
                (gain, at as int),
            ) && at < groups@.len() && groups@[at as int].is_splittable(),
        },
{
    let mut best: Option<(A, usize)> = None;
    let mut i: usize = 0;
    while i < groups.len()
        invariant
            i <= groups@.len(),
            costs.wf(),
            partitions(groups@),
            match best {
                None => best_split(*costs, groups@, i as int) is None,
                Some((gain, at)) => best_split(*costs, groups@, i as int) == Some(
                    (gain, at as int),
                ),
            },
        decreases groups@.len() - i,
    {
        let g: Run = groups[i];
        if g.lo % 2 == 0 && g.len == 2 {
            let gain: A = costs.cost(g).minus(costs.cost(Run { lo: g.lo, len: 1 })).minus(
                costs.cost(Run { lo: g.lo + 1, len: 1 }),
            );
            if A::zero().less(gain) {
                match best {
                    None => {
                        best = Some((gain, i));
                    },
                    Some((top, _)) => {
                        if top.less(gain) {
                            best = Some((gain, i));
                        }
                    },
                }
            }
        }
        i += 1;
    }
    proof {
        lemma_best_split(*costs, groups@, groups@.len() as int);
    }
    best
}

fn find_cheapest_merge<A: Amount>(
    costs: &GroupCosts<A>,
    groups: &Vec<Run>,
    used: &[bool; 4],
    split_pos: usize,
) -> (r: Option<(A, usize, usize, usize)>)
    requires
        costs.wf(),
        partitions(groups@),
    ensures
        match r {
            None => cheapest_merge(*costs, groups@, used@, split_pos as int, 4) is None,
            Some((price, m, pa, pb)) => cheapest_merge(
                *costs,
                groups@,
                used@,
                split_pos as int,
                4,
            ) == Some((price, m as int, pa as int, pb as int)) && m < 4 && pa < groups@.len() && pb
                < groups@.len() && pa != pb && pa != split_pos && pb != split_pos && !used@[m as int]
                && groups@[pa as int].lo + groups@[pa as int].len == groups@[pb as int].lo,
        },
{
    let mut cheapest: Option<(A, usize, usize, usize)> = None;
    let mut m: usize = 0;
    while m < 4
        invariant
            m <= 4,
            costs.wf(),
            partitions(groups@),
            match cheapest {
                None => cheapest_merge(*costs, groups@, used@, split_pos as int, m as int) is None,
                Some((price, mi, pa, pb)) => cheapest_merge(
                    *costs,
                    groups@,
                    used@,
                    split_pos as int,
                    m as int,
                ) == Some((price, mi as int, pa as int, pb as int)),
            },
        decreases 4 - m,
    {
        let a: u8 = CHROMA_MERGE_CANDIDATES[m];
        let first: Option<usize> = find_group(groups, a * 2);
        let second: Option<usize> = find_group(groups, a * 2 + 2);
        proof {
            lemma_position(groups@, a * 2, groups@.len() as int);
            lemma_position(groups@, a * 2 + 2, groups@.len() as int);
            lemma_merge_pair(groups@, used@, split_pos as int, m as int);
        }
        if let (Some(pa), Some(pb)) = (first, second) {
            let ga: Run = groups[pa];
            let gb: Run = groups[pb];
            if !used[m] && pa != pb && ga.lo % 2 == 0 && ga.len % 2 == 0 && gb.lo % 2 == 0 && gb.len
                % 2 == 0 && pa != split_pos && pb != split_pos {
                assert(gb.lo + gb.len <= 30);
                let union: Run = Run { lo: ga.lo, len: ga.len + gb.len };
                let price: A = costs.cost(union).minus(costs.cost(ga)).minus(costs.cost(gb)).times(
                    A::ratio(PLAN_SAMPLE_STEP as i64, 1),
                );
                match cheapest {
                    None => {
                        cheapest = Some((price, m, pa, pb));
                    },
                    Some((low, _, _, _)) => {
                        if price.less(low) {
                            cheapest = Some((price, m, pa, pb));
                        }
                    },
                }
            }
        }
        m += 1;
    }
    proof {
        lemma_cheapest_merge(*costs, groups@, used@, split_pos as int, 4);
        if cheapest is Some {
            lemma_merge_pair(groups@, used@, split_pos as int, (cheapest->0).1 as int);
        }
    }
    cheapest
}

struct PlanSearch<A> {
    groups: Vec<Run>,
    used: [bool; 4],
    any_split: bool,
    total_net: A,
}

impl<A: Amount> PlanSearch<A> {
    spec fn wf(&self) -> bool {
        partitions(self.groups@) && 15 <= self.groups@.len() <= 16
    }

    spec fn state(&self) -> PlanState<A> {
        PlanState {
            groups: self.groups@,
            used: self.used@,
            any_split: self.any_split,
            total_net: self.total_net,
        }
    }

    /// Rounds that can still follow.
    spec fn rounds(&self) -> int {
        16 - self.groups@.len() + unspent(self.used@, 4)
    }

    fn start() -> (r: Self)
        ensures
            r.wf(),
            r.state() == plan_start::<A>(),
            r.rounds() == 5,
    {
        let mut groups: Vec<Run> = Vec::new();
        let mut b: u8 = 0;
        while b < 15
            invariant
                b <= 15,
                groups@.len() == b,
                forall|i: int|
                    0 <= i < b ==> #[trigger] groups@[i] == (Run { lo: (2 * i) as u8, len: 2 }),
            decreases 15 - b,
        {
            groups.push(Run { lo: 2 * b, len: 2 });
            b += 1;
        }
        let used: [bool; 4] = [false; 4];
        proof {
            assert(groups@ =~= plan_start::<A>().groups);
            assert(used@ =~= plan_start::<A>().used);
            assert(partitions(groups@)) by {
                assert forall|f: int| 0 <= f < 30 implies #[trigger] held_by_some(groups@, f) by {
                    assert(groups@[f / 2].holds(f));
                }
            }
            reveal_with_fuel(unspent, 5);
        }
        PlanSearch { groups, used, any_split: false, total_net: A::zero() }
    }

    fn split(&mut self, at: usize, net: A)
        requires
            partitions(old(self).groups@),
            at < old(self).groups@.len(),
            old(self).groups@[at as int].is_splittable(),
        ensures
            final(self).groups@ == after_split(old(self).groups@, at as int),
            partitions(final(self).groups@),
            final(self).groups@.len() == old(self).groups@.len() + 1,
            final(self).used == old(self).used,
            final(self).any_split,
            final(self).total_net == old(self).total_net.plus_spec(net),
    {
        proof {
            lemma_split_partitions(self.groups@, at as int);
        }
        let g: Run = self.groups.remove(at);
        self.groups.push(Run { lo: g.lo, len: 1 });
        self.groups.push(Run { lo: g.lo + 1, len: 1 });
        self.total_net = self.total_net.plus(net);
        self.any_split = true;
    }

    fn merge(&mut self, m: usize, pa: usize, pb: usize)
        requires
            partitions(old(self).groups@),
            m < 4,
            pa < old(self).groups@.len(),
            pb < old(self).groups@.len(),
            pa != pb,
            old(self).groups@[pa as int].lo + old(self).groups@[pa as int].len
                == old(self).groups@[pb as int].lo,
        ensures
            final(self).groups@ == after_merge(old(self).groups@, pa as int, pb as int),
            partitions(final(self).groups@),
            final(self).groups@.len() == old(self).groups@.len() - 1,
            final(self).used@ == old(self).used@.update(m as int, true),
            final(self).any_split == old(self).any_split,
            final(self).total_net == old(self).total_net,
    {
        proof {
            lemma_merge_partitions(self.groups@, pa as int, pb as int);
            assert(self.groups@[pb as int].lo + self.groups@[pb as int].len <= 30);
        }
        let pb_left: usize = if pb > pa {
            pb - 1
        } else {
            pb
        };
        let ga: Run = self.groups.remove(pa);
        let gb: Run = self.groups.remove(pb_left);
        self.groups.push(Run { lo: ga.lo, len: ga.len + gb.len });
        self.used[m] = true;
    }

    /// One round of the search; `false` when no round pays.
    fn round(&mut self, costs: &GroupCosts<A>) -> (r: bool)
        requires
            costs.wf(),
            old(self).wf(),
        ensures
            final(self).wf(),
            match plan_step(*costs, old(self).state()) {
                None => !r && final(self).state() == old(self).state(),
                Some(next) => r && final(self).state() == next && final(self).rounds()
                    == old(self).rounds() - 1,
            },
    {
        match find_best_split(costs, &self.groups) {
            None => false,
            Some((sampled_gain, split_pos)) => {
                let gain: A = sampled_gain.times(A::ratio(PLAN_SAMPLE_STEP as i64, 1));
                if self.groups.len() < MAX_BLOCK_CTXS {
                    let net: A = gain.minus(A::ratio(SPLIT_CHARGE, 1));
                    if net.at_most(A::zero()) {
                        return false;
                    }
                    self.split(split_pos, net);
                    true
                } else {
                    match find_cheapest_merge(costs, &self.groups, &self.used, split_pos) {
                        None => false,
                        Some((price, m, pa, pb)) => {
                            let net: A = gain.minus(price).minus(A::ratio(PAIRED_CHARGE, 1));
                            if net.at_most(A::zero()) {
                                return false;
                            }
                            proof {
                                lemma_merge_partitions(self.groups@, pa as int, pb as int);
                                assert(self.groups@[split_pos as int].is_splittable());
                                lemma_unspent_update(self.used@, m as int, 4);
                            }
                            self.merge(m, pa, pb);
                            let pb_left: usize = if pb > pa {
                                pb - 1
                            } else {
                                pb
                            };
                            let split_left: usize = if split_pos > pa {
                                split_pos - 1
                            } else {
                                split_pos
                            };
                            let split_at: usize = if split_left > pb_left {
                                split_left - 1
                            } else {
                                split_left
                            };
                            self.split(split_at, net);
                            true
                        },
                    }
                }
            },
        }
    }
}

/// Decides the block context map of an image from what each run of fine
/// contexts costs to code.
///
/// Starting from one group per base context, the split with the largest gain is
/// kept as long as it pays for its overhead; once sixteen ids are in use, a
/// split must also pay for the cheapest open chroma merge. A search whose net
/// gain stays below the minimum proposes the baseline.
pub fn plan_block_ctx_map<A: Amount>(costs: &GroupCosts<A>, qf_threshold: u32) -> (r: AcCtxPlan)
    requires
        costs.wf(),
    ensures
        r.wf(),
        ({
            let end = plan_run(*costs, plan_start::<A>(), 5);
            &&& partitions(end.groups)
            &&& plan_step(*costs, end) is None
            &&& if end.total_net.less_spec(A::ratio_spec(PROPOSE_MIN_NET_BITS, 1)) {
                r.is_baseline()
            } else {
                is_plan_of(r, end, qf_threshold)
            }
        }),
{
    let mut search: PlanSearch<A> = PlanSearch::start();
    let mut going: bool = true;
    while going
        invariant
            costs.wf(),
            search.wf(),
            plan_run(*costs, plan_start::<A>(), 5) == plan_run(
                *costs,
                search.state(),
                search.rounds(),
            ),
            !going ==> plan_step(*costs, search.state()) is None,
        decreases search.rounds(), (if going {
            1int
        } else {
            0
        }),
    {
        let ghost before = search;
        proof {
            lemma_unspent_bounds(before.used@, 4);
        }
        going = search.round(costs);
        proof {
            lemma_unspent_bounds(search.used@, 4);
            if going {
                assert(plan_run(*costs, before.state(), before.rounds()) == plan_run(
                    *costs,
                    search.state(),
                    search.rounds(),
                ));
            }
        }
    }
    if search.total_net.less(A::ratio(PROPOSE_MIN_NET_BITS, 1)) {
        return AcCtxPlan::baseline();
    }
    let groups: Vec<Run> = search.groups;
    let mut fine_to_final: [u8; 30] = [0u8; 30];
    let mut fine: u8 = 0;
    while fine < 30
        invariant
            fine <= 30,
            partitions(groups@),
            groups@.len() <= 16,
            forall|f: int|
                0 <= f < fine ==> #[trigger] fine_to_final@[f] == begun(
                    groups@,
                    groups@.len() as int,
                    f,
                ) - 1 && fine_to_final@[f] < groups@.len(),
        decreases 30 - fine,
    {
        let mut count: u8 = 0;
        let mut i: usize = 0;
        while i < groups.len()
            invariant
                i <= groups@.len() <= 16,
                count == begun(groups@, i as int, fine as int),
                count <= i,
            decreases groups@.len() - i,
        {
            if groups[i].lo <= fine {
                count += 1;
            }
            i += 1;
        }
        proof {
            lemma_begun_bounds(groups@, groups@.len() as int, fine as int);
            assert(held_by_some(groups@, fine as int));
        }
        fine_to_final[fine as usize] = count - 1;
        fine += 1;
    }
    AcCtxPlan {
        nbc: groups.len() as u8,
        fine_to_final,
        qf_threshold: if search.any_split {
            Some(qf_threshold)
        } else {
            None
        },
    }
}

/// Fine contexts get the same final context exactly when they share a group.
pub proof fn law_final_contexts_follow_groups(groups: Seq<Run>, i: int, j: int, f: int, g: int)
    requires
        partitions(groups),
        0 <= i < groups.len(),
        0 <= j < groups.len(),
        groups[i].holds(f),
        groups[j].holds(g),
        f <= g,
    ensures
        begun(groups, groups.len() as int, f) == begun(groups, groups.len() as int, g) <==> i == j,
{
    let n = groups.len() as int;
    if i == j {
        assert forall|k: int| 0 <= k < n && f < (#[trigger] groups[k]).lo <= g implies false by {
            assert(groups[k].holds(groups[k].lo as int));
            assert(groups[i].holds(groups[k].lo as int));
        }
        lemma_begun_equal(groups, n, f, g);
    } else {
        if groups[j].lo <= f {
            assert(groups[j].holds(f));
        }
        lemma_begun_grows(groups, n, f, g, j);
    }
}

proof fn lemma_begun_equal(groups: Seq<Run>, n: int, f: int, g: int)
    requires
        0 <= n <= groups.len(),
        f <= g,
        forall|k: int| 0 <= k < n ==> !(f < (#[trigger] groups[k]).lo <= g),
    ensures
        begun(groups, n, f) == begun(groups, n, g),
    decreases n,
{
    if n > 0 {
        lemma_begun_equal(groups, n - 1, f, g);
        assert(!(f < groups[n - 1].lo <= g));
    }
}

proof fn lemma_begun_grows(groups: Seq<Run>, n: int, f: int, g: int, j: int)
    requires
        0 <= n <= groups.len(),
        f <= g,
        0 <= j < groups.len(),
        f < groups[j].lo <= g,
    ensures
        begun(groups, n, f) + (if j < n {
            1int
        } else {
            0
        }) <= begun(groups, n, g),
    decreases n,
{
    if n > 0 {
        lemma_begun_grows(groups, n - 1, f, g, j);
    }
}

} // verus!
