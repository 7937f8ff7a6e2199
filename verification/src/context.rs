//! Entropy-coding contexts of the AC coefficients.
//!
//! A token's context is made of its block's context, which depends on the
//! channel and on the class of the transform, and of a bucket: of the number
//! of nonzero coefficients, or of the position within the zero-density model.

use vstd::arithmetic::power2::pow2;
use vstd::prelude::*;

verus! {

pub const K_NON_ZERO_BUCKETS: usize = 37;

pub const K_ZERO_DENSITY_CONTEXT_COUNT: usize = 458;

pub const K_NUM_BLOCK_CTXS: usize = 15;

/// Every block context owns a slot per bucket and per zero-density context.
pub const K_NUM_AC_CONTEXTS: usize = 7425;

pub const K_NUM_AC_STRATEGY_CODES: usize = 27;

/// Frequency-band context per zigzag position. Index 0 is unused (DC).
pub const K_COEFF_FREQ_CONTEXT: [u16; 64] = [
    0xBAD, 0, 1, 2, 3, 4, 5, 6, 7, 8, 9, 10, 11, 12, 13, 14, 15, 15, 16, 16, 17, 17, 18, 18, 19, 19,
    20, 20, 21, 21, 22, 22, 23, 23, 23, 23, 24, 24, 24, 24, 25, 25, 25, 25, 26, 26, 26, 26, 27, 27,
    27, 27, 28, 28, 28, 28, 29, 29, 29, 29, 30, 30, 30, 30,
];

/// Remaining-nonzeros context bucket.
pub const K_COEFF_NUM_NONZERO_CONTEXT: [u16; 64] = [
    0xBAD, 0, 31, 62, 62, 93, 93, 93, 93, 123, 123, 123, 123, 152, 152, 152, 152, 152, 152, 152, 152,
    180, 180, 180, 180, 180, 180, 180, 180, 180, 180, 180, 180, 206, 206, 206, 206, 206, 206, 206,
    206, 206, 206, 206, 206, 206, 206, 206, 206, 206, 206, 206, 206, 206, 206, 206, 206, 206, 206,
    206, 206, 206, 206, 206,
];

/// Number of transform orders (shape classes) that the block context map is
/// keyed by.
pub const K_NUM_ORDERS: usize = 13;

/// Block context map signaled in DC global, indexed by
/// `channel_row * K_NUM_ORDERS + strategy_order`. Transform classes get their
/// own contexts rather than being collapsed into small and large ones.
pub const K_COMPACT_BLOCK_CONTEXT_MAP: [u8; 39] = [
    0, 1, 2, 2, 3, 3, 4, 5, 6, 6, 6, 6, 6,
    7, 8, 9, 9, 10, 11, 12, 13, 14, 14, 14, 14, 14,
    7, 8, 9, 9, 10, 11, 12, 13, 14, 14, 14, 14, 14,
];

/// Strategy code to transform order, over the whole strategy space of the
/// codestream.
pub const K_STRATEGY_ORDER: [u8; 27] = [
    0, 1, 1, 1, 2, 3, 4, 4, 5, 5, 6, 6, 1, 1,
    1, 1, 1, 1, 7, 8, 8, 9, 9, 9, 10, 10, 10,
];

/// Channels are held in the order X, Y, B; the rows of the block context map
/// are in the order Y, X, B.
pub const CHANNEL_ROW: [usize; 3] = [1, 0, 2];

/// Quant-field classes by which every base block context is split in the fine
/// layout.
pub const K_NUM_QF_CLASSES: usize = 2;

pub const K_NUM_FINE_BLOCK_CTXS: usize = 30;

pub const K_NUM_FINE_AC_CONTEXTS: usize = 14850;

/// Contexts of nonzero counts, in the base and in the fine layout.
const NON_ZERO_SPAN: u32 = 555;

const FINE_NON_ZERO_SPAN: u32 = 1110;

const DENSITIES: u32 = 458;

/// The block context map signaled in DC global.
pub fn compact_block_context_map() -> (r: &'static [u8; 39])
    ensures
        r@ == K_COMPACT_BLOCK_CONTEXT_MAP@,
{
    &K_COMPACT_BLOCK_CONTEXT_MAP
}

/// The entry of the signaled map for a channel and a strategy.
pub open spec fn block_context_spec(c: int, strategy: int) -> int {
    K_COMPACT_BLOCK_CONTEXT_MAP@[CHANNEL_ROW@[c] * K_NUM_ORDERS + K_STRATEGY_ORDER@[strategy]]
        as int
}

/// Block context of a channel and a strategy, looked up in the signaled map so
/// that the two ends of the codestream cannot disagree.
pub fn block_context(c: usize, ac_strategy_code: u8) -> (r: u32)
    requires
        c < 3,
        ac_strategy_code < K_NUM_AC_STRATEGY_CODES,
    ensures
        r == block_context_spec(c as int, ac_strategy_code as int),
        r < K_NUM_BLOCK_CTXS,
{
    let order: usize = K_STRATEGY_ORDER[ac_strategy_code as usize] as usize;
    K_COMPACT_BLOCK_CONTEXT_MAP[CHANNEL_ROW[c] * K_NUM_ORDERS + order] as u32
}

/// Exact below eight, by pairs below sixty-four, and one bucket above.
pub open spec fn non_zero_bucket_spec(non_zeros: int) -> int {
    if non_zeros < 8 {
        non_zeros
    } else if non_zeros >= 64 {
        36
    } else {
        4 + non_zeros / 2
    }
}

/// Bucket of a nonzero count.
pub fn non_zero_bucket(non_zeros: u32) -> (r: u32)
    ensures
        r == non_zero_bucket_spec(non_zeros as int),
        r < K_NON_ZERO_BUCKETS,
{
    if non_zeros < 8 {
        non_zeros
    } else if non_zeros >= 64 {
        36
    } else {
        4 + non_zeros / 2
    }
}

/// Context of a nonzero count in a base block context.
pub fn non_zero_context(non_zeros: u32, block_ctx: u32) -> (r: u32)
    requires
        block_ctx <= u32::MAX - 540,
    ensures
        r == non_zero_bucket_spec(non_zeros as int) * K_NUM_BLOCK_CTXS + block_ctx,
{
    non_zero_bucket(non_zeros) * K_NUM_BLOCK_CTXS as u32 + block_ctx
}

/// Block context in the fine layout: the base context split by quant-field
/// class.
pub fn fine_block_context(c: usize, ac_strategy_code: u8, qf_hi: bool) -> (r: u32)
    requires
        c < 3,
        ac_strategy_code < K_NUM_AC_STRATEGY_CODES,
    ensures
        r == block_context_spec(c as int, ac_strategy_code as int) * K_NUM_QF_CLASSES + (if qf_hi {
            1int
        } else {
            0
        }),
        r < K_NUM_FINE_BLOCK_CTXS,
{
    block_context(c, ac_strategy_code) * K_NUM_QF_CLASSES as u32 + (if qf_hi {
        1
    } else {
        0
    })
}

/// Context of a nonzero count in a fine block context.
pub fn fine_non_zero_context(non_zeros: u32, fine_block_ctx: u32) -> (r: u32)
    requires
        fine_block_ctx <= u32::MAX - 1080,
    ensures
        r == non_zero_bucket_spec(non_zeros as int) * K_NUM_FINE_BLOCK_CTXS + fine_block_ctx,
{
    non_zero_bucket(non_zeros) * K_NUM_FINE_BLOCK_CTXS as u32 + fine_block_ctx
}

/// First zero-density context of a fine block context.
pub fn fine_zero_density_contexts_offset(fine_block_ctx: u32) -> (r: u32)
    requires
        fine_block_ctx <= 9377655,
    ensures
        r == K_NUM_FINE_BLOCK_CTXS * K_NON_ZERO_BUCKETS + K_ZERO_DENSITY_CONTEXT_COUNT
            * fine_block_ctx,
{
    FINE_NON_ZERO_SPAN + DENSITIES * fine_block_ctx
}

/// Zero-density context of a bucket of remaining nonzeros, a frequency band
/// and the preceding coefficient's flag.
pub open spec fn zero_density_spec(nonzeros_left: int, k: int, prev: int) -> int {
    (K_COEFF_NUM_NONZERO_CONTEXT@[nonzeros_left] + K_COEFF_FREQ_CONTEXT@[k]) * 2 + prev
}

/// Zero-density context of an 8x8 transform, where counts and positions pass
/// through directly.
pub fn zero_density_context_8x8(nonzeros_left: usize, k: usize, prev: usize) -> (r: usize)
    requires
        nonzeros_left < 64,
        k < 64,
        prev <= usize::MAX - 11956,
    ensures
        r == zero_density_spec(nonzeros_left as int, k as int, prev as int),
{
    (K_COEFF_NUM_NONZERO_CONTEXT[nonzeros_left] as usize + K_COEFF_FREQ_CONTEXT[k] as usize) * 2
        + prev
}

/// Zero-density context of a transform over `covered_blocks` 8x8 blocks: the
/// count and the position are scaled down to those of a single block first,
/// the count rounded up and the position rounded down.
pub fn zero_density_context(
    nonzeros_left: usize,
    k: usize,
    covered_blocks: usize,
    log2_covered_blocks: usize,
    prev: usize,
) -> (r: usize)
    requires
        1 <= nonzeros_left + covered_blocks <= usize::MAX,
        log2_covered_blocks < usize::BITS,
        (nonzeros_left + covered_blocks - 1) / pow2(log2_covered_blocks as nat) as int <= 63,
        k as int / pow2(log2_covered_blocks as nat) as int <= 63,
        prev <= usize::MAX - 11956,
    ensures
        r == zero_density_spec(
            (nonzeros_left + covered_blocks - 1) / pow2(log2_covered_blocks as nat) as int,
            k as int / pow2(log2_covered_blocks as nat) as int,
            prev as int,
        ),
{
    proof {
        vstd::bits::lemma_usize_shr_is_div(
            (nonzeros_left + covered_blocks - 1) as usize,
            log2_covered_blocks,
        );
        vstd::bits::lemma_usize_shr_is_div(k, log2_covered_blocks);
    }
    let nz: usize = (nonzeros_left + covered_blocks - 1) >> log2_covered_blocks;
    let kk: usize = k >> log2_covered_blocks;
    (K_COEFF_NUM_NONZERO_CONTEXT[nz] as usize + K_COEFF_FREQ_CONTEXT[kk] as usize) * 2 + prev
}

/// First zero-density context of a base block context.
pub fn zero_density_contexts_offset(block_ctx: u32) -> (r: u32)
    requires
        block_ctx <= 9377656,
    ensures
        r == K_NUM_BLOCK_CTXS * K_NON_ZERO_BUCKETS + K_ZERO_DENSITY_CONTEXT_COUNT * block_ctx,
{
    NON_ZERO_SPAN + DENSITIES * block_ctx
}

/// Luma and chroma never share a block context, the two chroma channels always
/// do, luma contexts lie below the chroma ones, and strategies of one order are
/// indistinguishable.
pub proof fn law_block_contexts(code: int, other: int)
    requires
        0 <= code < K_NUM_AC_STRATEGY_CODES,
        0 <= other < K_NUM_AC_STRATEGY_CODES,
    ensures
        block_context_spec(0, code) == block_context_spec(2, code),
        0 <= block_context_spec(1, code) < 7,
        7 <= block_context_spec(0, code) < K_NUM_BLOCK_CTXS,
        K_STRATEGY_ORDER@[code] == K_STRATEGY_ORDER@[other] ==> forall|c: int|
            0 <= c < 3 ==> #[trigger] block_context_spec(c, code) == block_context_spec(c, other),
{
}

/// Every block context is some channel's and strategy's.
pub proof fn law_block_contexts_reachable(ctx: int)
    requires
        0 <= ctx < K_NUM_BLOCK_CTXS,
    ensures
        exists|c: int, code: int|
            0 <= c < 3 && 0 <= code < K_NUM_AC_STRATEGY_CODES && #[trigger] block_context_spec(
                c,
                code,
            ) == ctx,
{
    if ctx < 7 {
        assert(block_context_spec(1, 0) == 0);
        assert(block_context_spec(1, 1) == 1);
        assert(block_context_spec(1, 4) == 2);
        assert(block_context_spec(1, 6) == 3);
        assert(block_context_spec(1, 10) == 4);
        assert(block_context_spec(1, 18) == 5);
        assert(block_context_spec(1, 19) == 6);
    } else {
        assert(block_context_spec(0, 0) == 7);
        assert(block_context_spec(0, 1) == 8);
        assert(block_context_spec(0, 4) == 9);
        assert(block_context_spec(0, 6) == 10);
        assert(block_context_spec(0, 8) == 11);
        assert(block_context_spec(0, 10) == 12);
        assert(block_context_spec(0, 18) == 13);
        assert(block_context_spec(0, 19) == 14);
    }
}

/// As long as the remaining nonzeros fit behind position `k`, the zero-density
/// context stays within the slots that a block context owns.
pub proof fn law_zero_density_in_range(nonzeros_left: int, k: int, prev: int)
    requires
        1 <= nonzeros_left,
        1 <= k,
        nonzeros_left + k <= 64,
        0 <= prev <= 1,
    ensures
        0 <= zero_density_spec(nonzeros_left, k, prev) < K_ZERO_DENSITY_CONTEXT_COUNT,
{
}

/// Distinct buckets and block contexts give distinct contexts, all below the
/// first zero-density one.
pub proof fn law_non_zero_contexts_distinct(n: int, b: int, m: int, c: int)
    requires
        0 <= n,
        0 <= m,
        0 <= b < K_NUM_BLOCK_CTXS,
        0 <= c < K_NUM_BLOCK_CTXS,
        non_zero_bucket_spec(n) * K_NUM_BLOCK_CTXS + b == non_zero_bucket_spec(m) * K_NUM_BLOCK_CTXS
            + c,
    ensures
        non_zero_bucket_spec(n) == non_zero_bucket_spec(m),
        b == c,
        non_zero_bucket_spec(n) * K_NUM_BLOCK_CTXS + b < K_NUM_BLOCK_CTXS * K_NON_ZERO_BUCKETS,
{
}

} // verus!
