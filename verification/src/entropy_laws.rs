//! What tokens cost: the logarithm of their share, more together than apart.

use crate::amount::{log_raw, truncated_quotient, Amount, Fixed, FIXED_ONE};
use crate::group_cost::{
    group_bits, group_cost_of, slot_symbols, symbol_bits, total_of, GROUP_SLOTS,
};
use crate::context_plan::{merged_count, merged_extra, PlanStats};
use vstd::arithmetic::power2::{lemma_pow2_pos, lemma_pow2_unfold, pow2};
use vstd::prelude::*;

verus! {

proof fn lemma_log_below_line(x: int, k: nat)
    requires
        65536 <= x,
    ensures
        pow2(k) * (log_raw(x) - 65536 * (k - 1)) <= x,
        0 <= log_raw(x) <= x - 65536,
    decreases x,
{
    vstd::arithmetic::power2::lemma2_to64();
    let here = log_raw(x) - 65536 * (k - 1);
    if k == 0 {
        assert(pow2(k) * here == here) by (nonlinear_arith)
            requires
                pow2(k) == 1,
        ;
    }
    if x >= 131072 {
        lemma_log_below_line(x / 2, 0);
        if k > 0 {
            let j = (k - 1) as nat;
            lemma_log_below_line(x / 2, j);
            lemma_pow2_unfold(k);
            let rest = log_raw(x / 2) - 65536 * (j - 1);
            assert(here == rest);
            assert(pow2(k) * rest == 2 * (pow2(j) * rest)) by (nonlinear_arith)
                requires
                    pow2(k) == 2 * pow2(j),
            ;
        }
    } else if k == 1 {
        assert(pow2(k) * here == 2 * here) by (nonlinear_arith)
            requires
                pow2(k) == 2,
        ;
    } else if k >= 2 {
        lemma_pow2_pos(k);
        let rest = log_raw(x) - 65536 * (k - 1);
        assert(rest <= 0);
        assert(pow2(k) * rest <= 0) by (nonlinear_arith)
            requires
                rest <= 0,
                pow2(k) > 0,
        ;
    }
}

/// The piece of the line that the logarithm of `x` lies on.
spec fn piece(x: int) -> nat
    decreases x,
{
    if x >= 131072 {
        piece(x / 2) + 1
    } else {
        0
    }
}

proof fn lemma_log_above_line(x: int)
    requires
        65536 <= x,
    ensures
        x < pow2(piece(x)) * (log_raw(x) + 1 - 65536 * (piece(x) - 1)),
    decreases x,
{
    vstd::arithmetic::power2::lemma2_to64();
    if x >= 131072 {
        lemma_log_above_line(x / 2);
        let j = piece(x / 2);
        let k = piece(x);
        lemma_pow2_unfold(k);
        let rest = log_raw(x / 2) + 1 - 65536 * (j - 1);
        assert(log_raw(x) + 1 - 65536 * (k - 1) == rest);
        assert(pow2(j) * rest >= x / 2 + 1);
        assert(pow2(k) * rest == 2 * (pow2(j) * rest)) by (nonlinear_arith)
            requires
                pow2(k) == 2 * pow2(j),
        ;
    } else {
        let rest = log_raw(x) + 1 - 65536 * (piece(x) - 1);
        assert(pow2(piece(x)) * rest == rest) by (nonlinear_arith)
            requires
                pow2(piece(x)) == 1,
        ;
    }
}

proof fn lemma_log_bracket(x: int, k: nat)
    requires
        65536 * pow2(k) <= x,
    ensures
        65536 * k <= log_raw(x),
        x < 65536 * pow2(k + 1) ==> log_raw(x) < 65536 * (k + 1),
        x == 65536 * pow2(k) ==> log_raw(x) == 65536 * k,
    decreases k,
{
    vstd::arithmetic::power2::lemma2_to64();
    lemma_pow2_unfold(k + 1);
    lemma_pow2_pos(k);
    if k > 0 {
        let j = (k - 1) as nat;
        lemma_pow2_unfold(k);
        lemma_pow2_pos(j);
        assert(x >= 131072);
        lemma_log_bracket(x / 2, j);
    } else {
        assert(pow2(0) == 1 && pow2(1) == 2);
        lemma_log_below_line(x, 0);
    }
}

/// The logarithm grows with the number, by one at least where it doubles.
pub proof fn lemma_log_monotone(x: int, y: int)
    requires
        65536 <= x <= y,
    ensures
        log_raw(x) <= log_raw(y),
        y >= 2 * x ==> log_raw(x) + 65536 <= log_raw(y),
    decreases y,
{
    if x >= 131072 {
        lemma_log_monotone(x / 2, y / 2);
    } else if y >= 131072 {
        if y >= 2 * x {
            lemma_log_monotone(x, y / 2);
        } else {
            lemma_log_below_line(y / 2, 0);
            assert(y / 2 < 131072);
        }
    }
}

/// What `c` tokens cost that make up `c` of `t`.
spec fn charge(c: int, t: int) -> Fixed {
    let times = Fixed::ratio_spec(c as i64, 1);
    times.times_spec(Fixed::ratio_spec(t as i64, 1).over_spec(times).log2_spec())
}

/// How many tokens there are to one of `c` among `t`, with sixteen fraction bits.
spec fn one_in(c: int, t: int) -> int {
    (t * 65536) / c
}

proof fn lemma_one_in(c: int, t: int)
    requires
        1 <= c <= t <= u32::MAX,
    ensures
        65536 <= one_in(c, t) <= 65536 * t,
        c * one_in(c, t) <= 65536 * t < c * one_in(c, t) + c,
{
    assert(65536 <= (t * 65536) / c <= 65536 * t) by (nonlinear_arith)
        requires
            1 <= c <= t,
    ;
    assert(c * ((t * 65536) / c) <= 65536 * t < c * ((t * 65536) / c) + c) by (nonlinear_arith)
        requires
            1 <= c,
    ;
}

proof fn lemma_charge(c: int, t: int)
    requires
        1 <= c <= t <= u32::MAX,
    ensures
        charge(c, t).raw == c * log_raw(one_in(c, t)),
        0 <= log_raw(one_in(c, t)) <= 2_097_152,
        0 <= charge(c, t).raw <= c * 2_097_152,
{
    lemma_one_in(c, t);
    let x = one_in(c, t);
    let times = Fixed::ratio_spec(c as i64, 1);
    let whole = Fixed::ratio_spec(t as i64, 1);
    assert(times.raw == c * 65536);
    assert(whole.raw == t * 65536);
    assert((t * 65536 * 65536) / (c * 65536) == x) by (nonlinear_arith)
        requires
            1 <= c,
            x == (t * 65536) / c,
    ;
    assert(whole.raw * FIXED_ONE == t * 65536 * 65536);
    assert(whole.over_spec(times).raw == x);
    lemma_log_below_line(x, 0);
    vstd::arithmetic::power2::lemma2_to64();
    lemma_log_below_line(x, 32);
    assert(pow2(32) == 0x1_0000_0000);
    let l = log_raw(x);
    assert(l <= 2_097_152) by {
        if l > 2_097_152 {
            assert(0x1_0000_0000 * (l - 65536 * 31) <= 65536 * 0xffff_ffff);
        }
    }
    assert(whole.over_spec(times).log2_spec().raw == l);
    assert((c * 65536) * l == (c * l) * 65536) by (nonlinear_arith);
    assert(0 <= c * l <= c * 2_097_152) by (nonlinear_arith)
        requires
            0 <= c,
            0 <= l <= 2_097_152,
    ;
    assert(truncated_quotient((c * l) * 65536, 65536) == c * l);
}

/// Counts of a slot: none negative, and `t` of them in all among the leading `n`.
pub open spec fn counts_to(counts: Seq<int>, n: int, t: int) -> bool {
    &&& 0 <= n <= counts.len()
    &&& forall|i: int| 0 <= i < n ==> 0 <= #[trigger] counts[i]
    &&& total_of(counts, n) <= t <= u32::MAX
}

proof fn lemma_total(counts: Seq<int>, n: int, m: int)
    requires
        0 <= m <= n <= counts.len(),
        forall|i: int| 0 <= i < n ==> 0 <= #[trigger] counts[i],
    ensures
        0 <= total_of(counts, m) <= total_of(counts, n),
        forall|i: int| 0 <= i < n ==> #[trigger] counts[i] <= total_of(counts, n),
    decreases n,
{
    if n > m {
        lemma_total(counts, n - 1, m);
    } else if n > 0 {
        lemma_total(counts, n - 1, n - 1);
    }
}

/// The bits of the leading `n` symbols, in parts of a bit.
spec fn bits_raw(counts: Seq<int>, t: int, n: int) -> int
    decreases n,
{
    if n <= 0 {
        0
    } else {
        bits_raw(counts, t, n - 1) + if counts[n - 1] == 0 {
            0
        } else {
            counts[n - 1] * log_raw(one_in(counts[n - 1], t))
        }
    }
}

proof fn lemma_symbol_bits(counts: Seq<int>, t: int, n: int)
    requires
        counts_to(counts, n, t),
    ensures
        symbol_bits::<Fixed>(counts, t, n).raw == bits_raw(counts, t, n),
        0 <= bits_raw(counts, t, n) <= total_of(counts, n) * 2_097_152,
    decreases n,
{
    if n > 0 {
        lemma_total(counts, n, n - 1);
        assert(counts_to(counts, n - 1, t));
        lemma_symbol_bits(counts, t, n - 1);
        let c = counts[n - 1];
        assert(0 <= c <= total_of(counts, n));
        if c > 0 {
            lemma_charge(c, t);
            assert(bits_raw(counts, t, n) == bits_raw(counts, t, n - 1) + charge(c, t).raw);
            assert(bits_raw(counts, t, n) <= 0x20_0000_0000_0000);
            assert(symbol_bits::<Fixed>(counts, t, n) == symbol_bits::<Fixed>(
                counts,
                t,
                n - 1,
            ).plus_spec(charge(c, t)));
        }
    }
}

/// Each of the leading `n` counts, weighed.
pub open spec fn weighed(counts: Seq<int>, weights: Seq<nat>, n: int) -> int
    decreases n,
{
    if n <= 0 {
        0
    } else {
        weighed(counts, weights, n - 1) + counts[n - 1] * weights[n - 1]
    }
}

/// A symbol that makes up one in `2^k` of its slot is charged `k` bits each time, and
/// one that is rarer than that but not yet one in `2^(k + 1)` between `k` and `k + 1`.
/// `shares` holds such a `k` for every symbol that occurs.
pub proof fn law_symbols_cost_the_logarithm_of_their_share(
    counts: Seq<int>,
    t: int,
    n: int,
    shares: Seq<nat>,
)
    requires
        counts_to(counts, n, t),
        shares.len() == counts.len(),
        forall|i: int|
            0 <= i < n && #[trigger] counts[i] > 0 ==> counts[i] * pow2(shares[i]) <= t,
    ensures
        65536 * weighed(counts, shares, n) <= symbol_bits::<Fixed>(counts, t, n).raw,
        (forall|i: int|
            0 <= i < n && #[trigger] counts[i] > 0 ==> t < counts[i] * pow2(shares[i] + 1))
            ==> symbol_bits::<Fixed>(counts, t, n).raw <= 65536 * (weighed(counts, shares, n)
            + total_of(counts, n)),
        (forall|i: int|
            0 <= i < n && #[trigger] counts[i] > 0 ==> t == counts[i] * pow2(shares[i]))
            ==> symbol_bits::<Fixed>(counts, t, n).raw == 65536 * weighed(counts, shares, n),
    decreases n,
{
    lemma_symbol_bits(counts, t, n);
    if n > 0 {
        lemma_total(counts, n, n - 1);
        law_symbols_cost_the_logarithm_of_their_share(counts, t, n - 1, shares);
        lemma_symbol_bits(counts, t, n - 1);
        let c = counts[n - 1];
        let k = shares[n - 1];
        if c > 0 {
            lemma_one_in(c, t);
            let x = one_in(c, t);
            let p = pow2(k) as int;
            assert(65536 * p <= x) by (nonlinear_arith)
                requires
                    c * p <= t,
                    x == (t * 65536) / c,
                    c > 0,
            ;
            lemma_log_bracket(x, k);
            if t == c * p {
                assert(x == 65536 * p) by (nonlinear_arith)
                    requires
                        t == c * p,
                        x == (t * 65536) / c,
                        c > 0,
                ;
            }
            let p2 = pow2(k + 1) as int;
            if t < c * p2 {
                assert(x < 65536 * p2) by (nonlinear_arith)
                    requires
                        t < c * p2,
                        x == (t * 65536) / c,
                        c > 0,
                ;
                assert(c * log_raw(x) <= c * (65536 * (k + 1))) by (nonlinear_arith)
                    requires
                        log_raw(x) <= 65536 * (k + 1),
                        c > 0,
                ;
            }
            assert(c * (65536 * k) <= c * log_raw(x)) by (nonlinear_arith)
                requires
                    65536 * k <= log_raw(x),
                    c > 0,
            ;
            assert(c * (65536 * k) == 65536 * (c * k)) by (nonlinear_arith);
            assert(c * (65536 * (k + 1)) == 65536 * (c * k + c)) by (nonlinear_arith);
        } else {
            assert(c * k == 0);
        }
    }
}

proof fn lemma_term_splits(c: int, d: int, s: int, t: int)
    requires
        0 <= c <= s,
        0 <= d <= t,
        s + t <= u32::MAX,
    ensures
        ({
            let apart = (if c > 0 {
                c * log_raw(one_in(c, s))
            } else {
                0
            }) + (if d > 0 {
                d * log_raw(one_in(d, t))
            } else {
                0
            });
            let joint = if c + d > 0 {
                (c + d) * log_raw(one_in(c + d, s + t))
            } else {
                0
            };
            apart <= joint + 2 * (c + d)
        }),
{
    if c + d > 0 {
        let e = c + d;
        let x = one_in(e, s + t);
        lemma_one_in(e, s + t);
        lemma_log_above_line(x);
        let k = piece(x);
        lemma_pow2_pos(k);
        let p = pow2(k) as int;
        let base = 65536 * (k - 1);
        let l = log_raw(x);
        // 2^k times the joint cost, from below.
        assert(e * x <= e * (p * (l + 1 - base)) - e) by (nonlinear_arith)
            requires
                x < p * (l + 1 - base),
                e > 0,
        ;
        assert(e * (p * (l + 1 - base)) == p * (e * l) + p * e - p * (e * base)) by (nonlinear_arith);
        assert(65536 * (s + t) <= e * x + e);
        assert(65536 * (s + t) + p * (e * base) <= p * (e * l) + p * e);
        lemma_term_below(c, s, k);
        lemma_term_below(d, t, k);
        let a = if c > 0 {
            c * log_raw(one_in(c, s))
        } else {
            0
        };
        let b = if d > 0 {
            d * log_raw(one_in(d, t))
        } else {
            0
        };
        assert(p * (c * base) + p * (d * base) == p * (e * base)) by (nonlinear_arith)
            requires
                e == c + d,
        ;
        assert(p * a + p * b <= p * (e * l) + p * e);
        assert(a + b <= e * l + e) by (nonlinear_arith)
            requires
                p * a + p * b <= p * (e * l) + p * e,
                p > 0,
        ;
    }
}

proof fn lemma_term_below(c: int, s: int, k: nat)
    requires
        0 <= c <= s <= u32::MAX,
    ensures
        pow2(k) * (if c > 0 {
            c * log_raw(one_in(c, s))
        } else {
            0
        }) <= 65536 * s + pow2(k) * (c * (65536 * (k - 1))),
{
    let p = pow2(k) as int;
    if c > 0 {
        lemma_one_in(c, s);
        let x = one_in(c, s);
        lemma_log_below_line(x, k);
        let l = log_raw(x);
        let base = 65536 * (k - 1);
        assert(c * (p * (l - base)) <= c * x) by (nonlinear_arith)
            requires
                p * (l - base) <= x,
                c > 0,
        ;
        assert(c * (p * (l - base)) == p * (c * l) - p * (c * base)) by (nonlinear_arith);
    } else {
        assert(p * (0 * (65536 * (k - 1))) == 0) by (nonlinear_arith);
    }
}

/// Counts of two groups together.
pub open spec fn together(a: Seq<int>, b: Seq<int>) -> Seq<int> {
    Seq::new(a.len(), |i: int| a[i] + b[i])
}

proof fn lemma_together_total(a: Seq<int>, b: Seq<int>, n: int)
    requires
        0 <= n <= a.len(),
        a.len() == b.len(),
    ensures
        total_of(together(a, b), n) == total_of(a, n) + total_of(b, n),
    decreases n,
{
    if n > 0 {
        lemma_together_total(a, b, n - 1);
    }
}

proof fn lemma_bits_split(a: Seq<int>, b: Seq<int>, s: int, t: int, n: int)
    requires
        a.len() == b.len(),
        counts_to(a, n, s),
        counts_to(b, n, t),
        s + t <= u32::MAX,
    ensures
        bits_raw(a, s, n) + bits_raw(b, t, n) <= bits_raw(together(a, b), s + t, n) + 2 * (
        total_of(a, n) + total_of(b, n)),
    decreases n,
{
    if n > 0 {
        lemma_total(a, n, n - 1);
        lemma_total(b, n, n - 1);
        lemma_bits_split(a, b, s, t, n - 1);
        lemma_term_splits(a[n - 1], b[n - 1], s, t);
    }
}

/// Tokens cost no more apart than together, but for what rounding takes: two parts of
/// 65536 of a bit for each.
pub proof fn law_tokens_cost_no_more_apart(a: Seq<int>, b: Seq<int>, s: int, t: int, n: int)
    requires
        a.len() == b.len(),
        counts_to(a, n, s),
        counts_to(b, n, t),
        s + t <= u32::MAX,
    ensures
        symbol_bits::<Fixed>(a, s, n).raw + symbol_bits::<Fixed>(b, t, n).raw <= symbol_bits::<Fixed>(
            together(a, b),
            s + t,
            n,
        ).raw + 2 * (total_of(a, n) + total_of(b, n)),
{
    lemma_together_total(a, b, n);
    lemma_bits_split(a, b, s, t, n);
    lemma_symbol_bits(a, s, n);
    lemma_symbol_bits(b, t, n);
    assert(counts_to(together(a, b), n, s + t));
    lemma_symbol_bits(together(a, b), s + t, n);
}

/// Two groups of equally many tokens that have no symbol in common cost at least a bit
/// more for every token together than apart.
pub proof fn law_unlike_tokens_cost_more_together(a: Seq<int>, b: Seq<int>, t: int, n: int)
    requires
        a.len() == b.len(),
        counts_to(a, n, t),
        counts_to(b, n, t),
        2 * t <= u32::MAX,
        forall|i: int| 0 <= i < n ==> #[trigger] a[i] == 0 || b[i] == 0,
    ensures
        symbol_bits::<Fixed>(a, t, n).raw + symbol_bits::<Fixed>(b, t, n).raw + 65536 * (total_of(
            a,
            n,
        ) + total_of(b, n)) <= symbol_bits::<Fixed>(together(a, b), 2 * t, n).raw,
    decreases n,
{
    lemma_together_total(a, b, n);
    lemma_symbol_bits(a, t, n);
    lemma_symbol_bits(b, t, n);
    assert(counts_to(together(a, b), n, 2 * t));
    lemma_symbol_bits(together(a, b), 2 * t, n);
    if n > 0 {
        lemma_total(a, n, n - 1);
        lemma_total(b, n, n - 1);
        law_unlike_tokens_cost_more_together(a, b, t, n - 1);
        lemma_symbol_bits(a, t, n - 1);
        lemma_symbol_bits(b, t, n - 1);
        lemma_together_total(a, b, n - 1);
        lemma_symbol_bits(together(a, b), 2 * t, n - 1);
        let c = a[n - 1] + b[n - 1];
        assert(a[n - 1] == 0 || b[n - 1] == 0);
        if c > 0 {
            lemma_one_in(c, t);
            lemma_one_in(c, 2 * t);
            let (x, y) = (one_in(c, t), one_in(c, 2 * t));
            assert(2 * x <= y) by (nonlinear_arith)
                requires
                    c * x <= 65536 * t,
                    65536 * (2 * t) < c * y + c,
                    c > 0,
            ;
            lemma_log_monotone(x, y);
            assert(c * (log_raw(x) + 65536) <= c * log_raw(y)) by (nonlinear_arith)
                requires
                    log_raw(x) + 65536 <= log_raw(y),
                    c > 0,
            ;
            assert(c * (log_raw(x) + 65536) == c * log_raw(x) + 65536 * c) by (nonlinear_arith);
        }
    }
}

/// A group of few enough tokens to be summed up without a limit in the way.
pub open spec fn countable(stats: PlanStats, members: Seq<u8>) -> bool {
    forall|slot: int|
        0 <= slot < GROUP_SLOTS ==> total_of(#[trigger] slot_symbols(stats, members, slot), 128)
            <= u32::MAX && merged_extra(stats, members, members.len() as int, slot) <= u32::MAX
}

proof fn lemma_counts_not_negative(stats: PlanStats, members: Seq<u8>, n: int, slot: int, symbol: int)
    ensures
        0 <= merged_count(stats, members, n, slot, symbol),
        0 <= merged_extra(stats, members, n, slot),
    decreases n,
{
    if n > 0 {
        lemma_counts_not_negative(stats, members, n - 1, slot, symbol);
    }
}

proof fn lemma_slot_counts(stats: PlanStats, members: Seq<u8>, slot: int)
    requires
        countable(stats, members),
        0 <= slot < GROUP_SLOTS,
    ensures
        ({
            let counts = slot_symbols(stats, members, slot);
            &&& counts_to(counts, 128, total_of(counts, 128))
            &&& 0 <= total_of(counts, 128)
            &&& 0 <= merged_extra(stats, members, members.len() as int, slot) <= u32::MAX
        }),
{
    let counts = slot_symbols(stats, members, slot);
    assert forall|i: int| 0 <= i < 128 implies 0 <= #[trigger] counts[i] by {
        lemma_counts_not_negative(stats, members, members.len() as int, slot, i);
    }
    lemma_counts_not_negative(stats, members, members.len() as int, slot, 0);
    lemma_total(counts, 128, 0);
}

/// The cost of a group is the sum over its slots of the bits of the slot's symbols and of
/// its raw bits, each of those at a bit.
pub proof fn law_group_cost_adds_up_over_slots(stats: PlanStats, members: Seq<u8>, slots: int)
    requires
        countable(stats, members),
        0 < slots <= GROUP_SLOTS,
    ensures
        ({
            let counts = slot_symbols(stats, members, slots - 1);
            group_bits::<Fixed>(stats, members, slots).raw == group_bits::<Fixed>(
                stats,
                members,
                slots - 1,
            ).raw + symbol_bits::<Fixed>(counts, total_of(counts, 128), 128).raw + 65536
                * merged_extra(stats, members, members.len() as int, slots - 1)
        }),
        0 <= group_bits::<Fixed>(stats, members, slots).raw <= slots * 0x40_0000_0000_0000,
    decreases slots,
{
    let counts = slot_symbols(stats, members, slots - 1);
    let total = total_of(counts, 128);
    lemma_slot_counts(stats, members, slots - 1);
    lemma_symbol_bits(counts, total, 128);
    assert(total * 2_097_152 <= 0x20_0000_0000_0000);
    let before = group_bits::<Fixed>(stats, members, slots - 1);
    if slots > 1 {
        law_group_cost_adds_up_over_slots(stats, members, slots - 1);
    }
    let raw = merged_extra(stats, members, members.len() as int, slots - 1);
    assert(Fixed::ratio_spec(raw as i64, 1).raw == raw * 65536);
    let bits = symbol_bits::<Fixed>(counts, total, 128);
    let coded = if total == 0 {
        before
    } else {
        before.plus_spec(bits)
    };
    assert(coded.raw == before.raw + bits.raw);
}

/// Tokens of the leading `slots` slots.
pub open spec fn tokens_of(stats: PlanStats, members: Seq<u8>, slots: int) -> int
    decreases slots,
{
    if slots <= 0 {
        0
    } else {
        tokens_of(stats, members, slots - 1) + total_of(
            slot_symbols(stats, members, slots - 1),
            128,
        )
    }
}

proof fn lemma_join_counts(stats: PlanStats, a: Seq<u8>, b: Seq<u8>, n: int, slot: int, symbol: int)
    requires
        0 <= n <= b.len(),
    ensures
        merged_count(stats, a + b, a.len() + n, slot, symbol) == merged_count(
            stats,
            a,
            a.len() as int,
            slot,
            symbol,
        ) + merged_count(stats, b, n, slot, symbol),
    decreases n,
{
    if n > 0 {
        lemma_join_counts(stats, a, b, n - 1, slot, symbol);
        assert((a + b)[a.len() + n - 1] == b[n - 1]);
    } else {
        lemma_head_counts(stats, a, b, a.len() as int, slot, symbol);
    }
}

proof fn lemma_head_counts(stats: PlanStats, a: Seq<u8>, b: Seq<u8>, n: int, slot: int, symbol: int)
    requires
        0 <= n <= a.len(),
    ensures
        merged_count(stats, a + b, n, slot, symbol) == merged_count(stats, a, n, slot, symbol),
    decreases n,
{
    if n > 0 {
        lemma_head_counts(stats, a, b, n - 1, slot, symbol);
        assert((a + b)[n - 1] == a[n - 1]);
    }
}

proof fn lemma_slots_split(stats: PlanStats, a: Seq<u8>, b: Seq<u8>, slots: int)
    requires
        countable(stats, a),
        countable(stats, b),
        countable(stats, a + b),
        0 <= slots <= GROUP_SLOTS,
    ensures
        group_bits::<Fixed>(stats, a, slots).raw + group_bits::<Fixed>(stats, b, slots).raw
            <= group_bits::<Fixed>(stats, a + b, slots).raw + 2 * tokens_of(stats, a + b, slots),
    decreases slots,
{
    if slots > 0 {
        let slot = slots - 1;
        lemma_slots_split(stats, a, b, slot);
        law_group_cost_adds_up_over_slots(stats, a, slots);
        law_group_cost_adds_up_over_slots(stats, b, slots);
        law_group_cost_adds_up_over_slots(stats, a + b, slots);
        let (ca, cb) = (slot_symbols(stats, a, slot), slot_symbols(stats, b, slot));
        let cab = slot_symbols(stats, a + b, slot);
        assert forall|i: int| 0 <= i < 128 implies #[trigger] cab[i] == ca[i] + cb[i] by {
            lemma_join_counts(stats, a, b, b.len() as int, slot, i);
        }
        assert(cab =~= together(ca, cb));
        lemma_slot_counts(stats, a, slot);
        lemma_slot_counts(stats, b, slot);
        lemma_slot_counts(stats, a + b, slot);
        lemma_together_total(ca, cb, 128);
        law_tokens_cost_no_more_apart(ca, cb, total_of(ca, 128), total_of(cb, 128), 128);
        crate::group_cost::law_raw_bits_add_up(stats, a, b, slot);
    }
}

/// Splitting a group never costs more than the group, but for what rounding takes: two
/// parts of 65536 of a bit for each token.
pub proof fn law_splitting_a_group_never_costs_more(stats: PlanStats, a: Seq<u8>, b: Seq<u8>)
    requires
        countable(stats, a),
        countable(stats, b),
        countable(stats, a + b),
    ensures
        group_cost_of::<Fixed>(stats, a).raw + group_cost_of::<Fixed>(stats, b).raw
            <= group_cost_of::<Fixed>(stats, a + b).raw + 2 * tokens_of(
            stats,
            a + b,
            GROUP_SLOTS as int,
        ),
{
    lemma_slots_split(stats, a, b, GROUP_SLOTS as int);
}

} // verus!
