use jixel::context::{
    block_context, CHANNEL_ROW, K_COMPACT_BLOCK_CONTEXT_MAP, K_NUM_AC_STRATEGY_CODES,
    K_NUM_BLOCK_CTXS, K_NUM_ORDERS, K_STRATEGY_ORDER,
};

/// The contexts must be exactly those that the signaled map implies, or the
/// decoder reads different histograms. Channel order differs between the two
/// (X, Y, B against the map's Y, X, B), which is the easy thing to get wrong.
#[test]
fn derived_block_context_matches_the_signaled_map() {
    for code in 0..K_NUM_AC_STRATEGY_CODES as u8 {
        let order = K_STRATEGY_ORDER[code as usize] as usize;
        for (c, row) in CHANNEL_ROW.iter().enumerate() {
            assert_eq!(
                block_context(c, code),
                K_COMPACT_BLOCK_CONTEXT_MAP[row * K_NUM_ORDERS + order] as u32,
                "channel {c} code {code}"
            );
        }
    }
    // Y contexts live below the chroma ones and every context is in range.
    for code in 0..K_NUM_AC_STRATEGY_CODES as u8 {
        let luma_ctxs = K_NUM_BLOCK_CTXS as u32 / 2;
        assert!(block_context(1, code) < luma_ctxs);
        for c in [0usize, 2] {
            assert!((luma_ctxs..K_NUM_BLOCK_CTXS as u32).contains(&block_context(c, code)));
        }
    }
}

/// Properties that the block context map must satisfy whatever grouping it uses.
#[test]
fn block_context_map_invariants() {
    // Luma and chroma never share a context, and chroma X and B always do.
    for code in 0..K_NUM_AC_STRATEGY_CODES as u8 {
        let (x, y, b) = (
            block_context(0, code),
            block_context(1, code),
            block_context(2, code),
        );
        assert_eq!(x, b, "X and B differ for code {code}");
        assert_ne!(x, y, "luma and chroma share a context for code {code}");
        assert!(y < K_NUM_BLOCK_CTXS as u32 && x < K_NUM_BLOCK_CTXS as u32);
    }
    // Codes of the same transform order are indistinguishable by design.
    for a in 0..K_NUM_AC_STRATEGY_CODES as u8 {
        for b in 0..K_NUM_AC_STRATEGY_CODES as u8 {
            if K_STRATEGY_ORDER[a as usize] == K_STRATEGY_ORDER[b as usize] {
                for c in 0..3 {
                    assert_eq!(block_context(c, a), block_context(c, b));
                }
            }
        }
    }
    // Every declared context is reachable, or the count is overstated and
    // the AC context arithmetic reserves histograms that never get tokens.
    let used: std::collections::BTreeSet<u32> = (0..K_NUM_AC_STRATEGY_CODES as u8)
        .flat_map(|code| (0..3).map(move |c| block_context(c, code)))
        .collect();
    assert_eq!(
        used.len(),
        K_NUM_BLOCK_CTXS,
        "unreachable block contexts: {used:?}"
    );
}
