//! What the transforms make of flat and of repeating blocks.

use crate::amount::{Amount, Fixed};
use crate::dc::{
    dc_32x32_spec, dc_64x32_spec, dc_64x64_spec, dc_rect_spec, idct4_spec, low4, low8, means_of_row,
    Resample,
};
use crate::fixed_laws::opposite;
use crate::forward::predicted_off;
use crate::grid_laws::lemma_late_summand;
use crate::small_transform::{
    dct4x4_part, dct4x4_spec, dct4x8_part, dct4x8_spec, dct8x4_part, dct8x4_spec, halves, part, put,
    Block,
};
use crate::sum_laws::{
    exact, lemma_cancels, lemma_difference_undone, lemma_distributes, lemma_fuses,
    lemma_minus_itself, lemma_plus_nothing, lemma_sum_regroups, lemma_sum_swaps, lemma_times_zero,
};
use crate::transform::{
    chained, column, dct_spec, every_other, forward_pass, forward_spec, forward_weights, idct_spec,
    interleaved, inverse_pass, inverse_spec, inverse_weights, known_length, known_side,
    mirrored_differences, mirrored_sums, scaled, sized, transposed, unchained, unchained_at,
    unmirrored, DctWeights, Storage,
};
use vstd::prelude::*;

verus! {

/// The same amount `n` times.
pub open spec fn level<A: Amount>(c: A, n: int) -> Seq<A> {
    Seq::new(n as nat, |i: int| c)
}

/// An amount, and nothing behind it.
pub open spec fn pulse<A: Amount>(a: A, n: int) -> Seq<A> {
    Seq::new(
        n as nat,
        |i: int|
            if i == 0 {
                a
            } else {
                A::zero_spec()
            },
    )
}

/// An amount added to itself until there are `n` of it, `n` a power of two.
pub open spec fn times_over<A: Amount>(c: A, n: int) -> A
    decreases n,
{
    if n <= 1 {
        c
    } else {
        times_over(c.plus_spec(c), n / 2)
    }
}

/// An amount halved until one `n`th of it is left, `n` a power of two.
pub open spec fn shared_out<A: Amount>(a: A, half: A, n: int) -> A
    decreases n,
{
    if n <= 1 {
        a
    } else {
        shared_out(a, half, n / 2).times_spec(half)
    }
}

proof fn lemma_nothing_times_over<A: Amount>(n: int)
    requires
        exact::<A>(),
    ensures
        times_over(A::zero_spec(), n) == A::zero_spec(),
    decreases n,
{
    lemma_plus_nothing(A::zero_spec());
    if n > 1 {
        lemma_nothing_times_over::<A>(n / 2);
    }
}

proof fn lemma_minus_nothing<A: Amount>(a: A)
    requires
        exact::<A>(),
    ensures
        a.minus_spec(A::zero_spec()) == a,
{
    lemma_difference_undone(a, A::zero_spec());
    lemma_plus_nothing(a.minus_spec(A::zero_spec()));
}

/// Flat samples have a first coefficient, which is their sum, and no other.
pub proof fn law_flat_samples_have_one_coefficient<A: Amount>(w: DctWeights<A>, c: A, n: int)
    requires
        exact::<A>(),
        known_length(n),
    ensures
        dct_spec(w, level(c, n)) == pulse(times_over(c, n), n),
    decreases n,
{
    let zero = A::zero_spec();
    let s = level(c, n);
    lemma_minus_itself(c);
    if n == 2 {
        reveal_with_fuel(times_over, 3);
        assert(dct_spec(w, s) =~= pulse(times_over(c, n), n));
    } else {
        let m = n / 2;
        let weights = forward_weights(w, n);
        assert(mirrored_sums(s) =~= level(c.plus_spec(c), m));
        let differences = mirrored_differences(s, weights);
        assert forall|i: int| 0 <= i < m implies #[trigger] differences[i] == zero by {
            lemma_times_zero(weights[i]);
        }
        assert(differences =~= level(zero, m));
        law_flat_samples_have_one_coefficient(w, c.plus_spec(c), m);
        law_flat_samples_have_one_coefficient(w, zero, m);
        lemma_nothing_times_over::<A>(m);
        let odds = pulse(zero, m);
        assert(dct_spec(w, differences) == odds);
        lemma_plus_nothing(zero);
        lemma_times_zero(w.sqrt_2);
        lemma_fuses(zero, w.sqrt_2, zero);
        assert(chained(odds, w.sqrt_2) =~= level(zero, m));
        let evens = pulse(times_over(c.plus_spec(c), m), m);
        assert(dct_spec(w, s) == interleaved(evens, chained(odds, w.sqrt_2)));
        assert(interleaved(evens, level(zero, m)) =~= pulse(times_over(c, n), n));
    }
}

/// A first coefficient alone stands for flat samples.
pub proof fn law_one_coefficient_has_flat_samples<A: Amount>(w: DctWeights<A>, a: A, n: int)
    requires
        exact::<A>(),
        known_length(n),
    ensures
        idct_spec(w, pulse(a, n)) == level(shared_out(a, w.half, n), n),
    decreases n,
{
    let zero = A::zero_spec();
    let c = pulse(a, n);
    lemma_plus_nothing(a);
    lemma_minus_nothing(a);
    if n == 2 {
        reveal_with_fuel(shared_out, 3);
        assert(idct_spec(w, c) =~= level(shared_out(a, w.half, n), n));
    } else {
        let m = n / 2;
        let weights = inverse_weights(w, n);
        assert(every_other(c, 0) =~= pulse(a, m));
        assert(every_other(c, 1) =~= pulse(zero, m));
        let none = pulse(zero, m);
        lemma_unchained_nothing(none, 0);
        assert forall|i: int| 0 <= i < m implies #[trigger] unchained(none, w.inv_sqrt_2)[i]
            == zero by {
            lemma_unchained_nothing(none, i);
            lemma_times_zero(w.inv_sqrt_2);
        }
        assert(unchained(none, w.inv_sqrt_2) =~= none);
        law_one_coefficient_has_flat_samples(w, a, m);
        law_one_coefficient_has_flat_samples(w, zero, m);
        lemma_nothing_shared_out(w.half, m);
        let e = shared_out(a, w.half, m);
        let (evens, odds) = (level(e, m), level(zero, m));
        let back = unmirrored(evens, odds, weights, w.half);
        lemma_plus_nothing(e);
        lemma_minus_nothing(e);
        assert forall|i: int| 0 <= i < n implies #[trigger] back[i] == e.times_spec(w.half) by {
            if i < m {
                lemma_times_zero(weights[i]);
            } else {
                lemma_times_zero(weights[n - 1 - i]);
            }
        }
        assert(back =~= level(shared_out(a, w.half, n), n));
    }
}

proof fn lemma_nothing_shared_out<A: Amount>(half: A, n: int)
    requires
        exact::<A>(),
    ensures
        shared_out(A::zero_spec(), half, n) == A::zero_spec(),
    decreases n,
{
    lemma_times_zero(half);
    if n > 1 {
        lemma_nothing_shared_out(half, n / 2);
    }
}

proof fn lemma_unchained_nothing<A: Amount>(o: Seq<A>, i: int)
    requires
        exact::<A>(),
        0 <= i < o.len(),
        forall|k: int| 0 <= k < o.len() ==> #[trigger] o[k] == A::zero_spec(),
    ensures
        unchained_at(o, i) == A::zero_spec(),
    decreases o.len() - i,
{
    lemma_minus_itself(A::zero_spec());
    if i < o.len() - 1 {
        lemma_unchained_nothing(o, i + 1);
    }
}

/// A flat block.
pub open spec fn level_block<A: Amount>(c: A, width: int, height: int) -> Block<A> {
    Seq::new(height as nat, |y: int| level(c, width))
}

/// A block with an amount in its corner and nothing else.
pub open spec fn pulse_block<A: Amount>(a: A, width: int, height: int) -> Block<A> {
    Seq::new(
        height as nat,
        |y: int|
            if y == 0 {
                pulse(a, width)
            } else {
                level(A::zero_spec(), width)
            },
    )
}

/// Two passes over a flat block.
proof fn lemma_two_passes<A: Amount>(w: DctWeights<A>, c: A, width: int, height: int)
    requires
        exact::<A>(),
        known_length(width),
        known_length(height),
    ensures
        forward_pass(w, forward_pass(w, level_block(c, width, height), width), height)
            == pulse_block(times_over(times_over(c, height), width), width, height),
{
    let zero = A::zero_spec();
    let g = level_block(c, width, height);
    let first = forward_pass(w, g, width);
    let a = times_over(c, height);
    assert forall|x: int| 0 <= x < width implies #[trigger] first[x] == pulse(a, height) by {
        assert(column(g, x) =~= level(c, height));
        law_flat_samples_have_one_coefficient(w, c, height);
    }
    let second = forward_pass(w, first, height);
    lemma_nothing_times_over::<A>(width);
    assert forall|y: int| 0 <= y < height implies #[trigger] second[y] == pulse_block(
        times_over(a, width),
        width,
        height,
    )[y] by {
        if y == 0 {
            assert(column(first, y) =~= level(a, width));
            law_flat_samples_have_one_coefficient(w, a, width);
        } else {
            assert(column(first, y) =~= level(zero, width));
            law_flat_samples_have_one_coefficient(w, zero, width);
            assert(pulse(zero, width) =~= level(zero, width));
        }
    }
    assert(second =~= pulse_block(times_over(a, width), width, height));
}

proof fn lemma_turned_pulse<A: Amount>(a: A, width: int, height: int)
    requires
        0 < width,
        0 < height,
    ensures
        transposed(pulse_block(a, width, height), width) == pulse_block(a, height, width),
        transposed(level_block(a, width, height), width) == level_block(a, height, width),
{
    let (t, p) = (
        transposed(pulse_block(a, width, height), width),
        pulse_block(a, height, width),
    );
    assert forall|y: int| 0 <= y < width implies #[trigger] t[y] == p[y] by {
        assert(t[y] =~= p[y]);
    }
    assert(t =~= p);
    let (u, q) = (
        transposed(level_block(a, width, height), width),
        level_block(a, height, width),
    );
    assert forall|y: int| 0 <= y < width implies #[trigger] u[y] == q[y] by {
        assert(u[y] =~= q[y]);
    }
    assert(u =~= q);
}

proof fn lemma_scaled_pulse<A: Amount>(a: A, width: int, height: int, s: A)
    requires
        exact::<A>(),
        0 < width,
        0 < height,
    ensures
        scaled(pulse_block(a, width, height), s) == pulse_block(a.times_spec(s), width, height),
{
    let (t, p) = (
        scaled(pulse_block(a, width, height), s),
        pulse_block(a.times_spec(s), width, height),
    );
    lemma_times_zero(s);
    assert forall|y: int| 0 <= y < height implies #[trigger] t[y] == p[y] by {
        assert(t[y] =~= p[y]);
    }
    assert(t =~= p);
}

/// A flat block has a single coefficient, its mean, whichever way the coefficients lie.
pub proof fn law_flat_blocks_have_one_coefficient<A: Amount>(
    w: DctWeights<A>,
    c: A,
    width: int,
    height: int,
)
    requires
        exact::<A>(),
        known_side(width),
        known_side(height),
    ensures
        ({
            let part = A::ratio_spec(1, (width * height) as u64);
            let g = level_block(c, width, height);
            &&& forward_spec(w, g, width, height, Storage::Transposed) == pulse_block(
                times_over(times_over(c, height), width).times_spec(part),
                height,
                width,
            )
            &&& forward_spec(w, g, width, height, Storage::Natural) == pulse_block(
                times_over(times_over(c, width), height).times_spec(part),
                width,
                height,
            )
        }),
{
    let part = A::ratio_spec(1, (width * height) as u64);
    let a = times_over(times_over(c, height), width);
    lemma_two_passes(w, c, width, height);
    lemma_turned_pulse(a, width, height);
    lemma_scaled_pulse(a, height, width, part);
    let b = times_over(times_over(c, width), height);
    lemma_turned_pulse(c, width, height);
    lemma_two_passes(w, c, height, width);
    lemma_turned_pulse(b, height, width);
    lemma_scaled_pulse(b, width, height, part);
}

/// Two passes back over a block with nothing but its corner.
proof fn lemma_two_passes_back<A: Amount>(w: DctWeights<A>, a: A, width: int, height: int)
    requires
        exact::<A>(),
        known_length(width),
        known_length(height),
    ensures
        inverse_pass(w, inverse_pass(w, pulse_block(a, width, height), width), height)
            == level_block(
            shared_out(shared_out(a, w.half, height), w.half, width),
            width,
            height,
        ),
{
    let zero = A::zero_spec();
    let g = pulse_block(a, width, height);
    let b = shared_out(a, w.half, height);
    let first = inverse_pass(w, g, width);
    lemma_nothing_shared_out(w.half, height);
    assert forall|x: int| 0 <= x < width implies #[trigger] first[x] == level(
        if x == 0 {
            b
        } else {
            zero
        },
        height,
    ) by {
        let c = if x == 0 {
            a
        } else {
            zero
        };
        assert(column(g, x) =~= pulse(c, height));
        law_one_coefficient_has_flat_samples(w, c, height);
    }
    let second = inverse_pass(w, first, height);
    let flat = level_block(shared_out(b, w.half, width), width, height);
    assert forall|y: int| 0 <= y < height implies #[trigger] second[y] == flat[y] by {
        assert(column(first, y) =~= pulse(b, width));
        law_one_coefficient_has_flat_samples(w, b, width);
    }
    assert(second =~= flat);
}

/// A block with a single coefficient is flat again, whichever way its coefficients lie.
pub proof fn law_one_coefficient_has_a_flat_block<A: Amount>(
    w: DctWeights<A>,
    a: A,
    width: int,
    height: int,
)
    requires
        exact::<A>(),
        known_side(width),
        known_side(height),
    ensures
        ({
            let whole = A::ratio_spec((width * height) as i64, 1);
            let flat = level_block(
                shared_out(shared_out(a.times_spec(whole), w.half, height), w.half, width),
                width,
                height,
            );
            &&& inverse_spec(w, pulse_block(a, width, height), width, height, Storage::Natural)
                == flat
            &&& inverse_spec(w, pulse_block(a, height, width), width, height, Storage::Transposed)
                == flat
        }),
{
    let whole = A::ratio_spec((width * height) as i64, 1);
    lemma_scaled_pulse(a, width, height, whole);
    lemma_scaled_pulse(a, height, width, whole);
    lemma_turned_pulse(a.times_spec(whole), height, width);
    lemma_two_passes_back(w, a.times_spec(whole), width, height);
}

/// The means under a 64-pixel transform with nothing but its first coefficient are all the
/// same, for the square and for both halves.
pub proof fn law_one_coefficient_has_even_means_of_64_pixels<A: Amount>(
    w: DctWeights<A>,
    s: Resample<A>,
    g: Seq<Seq<A>>,
)
    requires
        exact::<A>(),
        g.len() >= 8,
        forall|y: int| 0 <= y < 8 ==> (#[trigger] g[y]).len() >= 8,
        forall|y: int, x: int|
            0 <= y < 8 && 0 <= x < 8 && (x != 0 || y != 0) ==> #[trigger] g[y][x] == A::zero_spec(),
    ensures
        exists|m: A| #[trigger] level_block(m, 8, 8) == dc_64x64_spec(w, s, g),
        exists|m: A| #[trigger] level_block(m, 4, 8) == dc_64x32_spec(w, s, g),
{
    let zero = A::zero_spec();
    let a = g[0][0].times_spec(s.to8@[0]).times_spec(
        A::ratio_spec(64, 1).times_spec(s.to8@[0]),
    );
    lemma_low_pulse(s, g, 8, 64, s.to8@);
    lemma_two_passes_back(w, a, 8, 8);
    let m = shared_out(shared_out(a, w.half, 8), w.half, 8);
    lemma_turned_pulse(m, 8, 8);
    assert(level_block(m, 8, 8) == dc_64x64_spec(w, s, g));
    let b = g[0][0].times_spec(s.to8@[0]).times_spec(
        A::ratio_spec(32, 1).times_spec(s.to4@[0]),
    );
    lemma_low_pulse(s, g, 4, 32, s.to4@);
    lemma_two_passes_back(w, b, 8, 4);
    let k = shared_out(shared_out(b, w.half, 4), w.half, 8);
    lemma_turned_pulse(k, 8, 4);
    assert(level_block(k, 4, 8) == dc_64x32_spec(w, s, g));
}

proof fn lemma_low_pulse<A: Amount>(
    s: Resample<A>,
    g: Seq<Seq<A>>,
    rows: int,
    height: i64,
    factors: Seq<A>,
)
    requires
        exact::<A>(),
        0 < rows <= 8,
        forall|y: int, x: int|
            0 <= y < 8 && 0 <= x < 8 && (x != 0 || y != 0) ==> #[trigger] g[y][x] == A::zero_spec(),
    ensures
        low8(s, g, rows, height, factors) == pulse_block(
            g[0][0].times_spec(s.to8@[0]).times_spec(
                A::ratio_spec(height, 1).times_spec(factors[0]),
            ),
            8,
            rows,
        ),
{
    let zero = A::zero_spec();
    let low = low8(s, g, rows, height, factors);
    let a = g[0][0].times_spec(s.to8@[0]).times_spec(
        A::ratio_spec(height, 1).times_spec(factors[0]),
    );
    let p = pulse_block(a, 8, rows);
    assert forall|y: int| 0 <= y < rows implies #[trigger] low[y] == p[y] by {
        assert forall|x: int| 0 <= x < 8 implies low[y][x] == p[y][x] by {
            if x != 0 || y != 0 {
                assert(g[y][x] == zero);
                lemma_times_zero(s.to8@[x]);
                lemma_times_zero(A::ratio_spec(height, 1).times_spec(factors[y]));
            }
        }
        assert(low[y] =~= p[y]);
    }
    assert(low =~= p);
}

proof fn lemma_small_parts<A: Amount>(w: DctWeights<A>, c: A)
    requires
        exact::<A>(),
    ensures
        dct4x4_part(w, level_block(c, 4, 4)) == pulse_block(
            times_over(times_over(c, 4), 4).times_spec(A::ratio_spec(1, 16)),
            4,
            4,
        ),
        dct4x8_part(w, level_block(c, 8, 4)) == pulse_block(
            times_over(times_over(c, 4), 8).times_spec(A::ratio_spec(1, 32)),
            8,
            4,
        ),
        dct8x4_part(w, level_block(c, 4, 8)) == pulse_block(
            times_over(times_over(c, 8), 4).times_spec(A::ratio_spec(1, 32)),
            8,
            4,
        ),
{
    lemma_two_passes(w, c, 4, 4);
    lemma_turned_pulse(c, 4, 4);
    lemma_scaled_pulse(times_over(times_over(c, 4), 4), 4, 4, A::ratio_spec(1, 16));
    lemma_two_passes(w, c, 8, 4);
    lemma_scaled_pulse(times_over(times_over(c, 4), 8), 8, 4, A::ratio_spec(1, 32));
    lemma_two_passes(w, c, 4, 8);
    lemma_turned_pulse(times_over(times_over(c, 8), 4), 4, 8);
    lemma_scaled_pulse(times_over(times_over(c, 8), 4), 8, 4, A::ratio_spec(1, 32));
}

/// A flat block has a single coefficient under each of the transforms of its parts, too.
pub proof fn law_flat_parts_have_one_coefficient<A: Amount>(
    w: DctWeights<A>,
    c: A,
    x: int,
    y: int,
)
    requires
        exact::<A>(),
        0 <= x < 8,
        0 <= y < 8,
        x != 0 || y != 0,
    ensures
        dct4x4_spec(w, level_block(c, 8, 8))[y][x] == A::zero_spec(),
        dct4x8_spec(w, level_block(c, 8, 8))[y][x] == A::zero_spec(),
        dct8x4_spec(w, level_block(c, 8, 8))[y][x] == A::zero_spec(),
{
    let zero = A::zero_spec();
    let g = level_block(c, 8, 8);
    lemma_small_parts(w, c);
    lemma_part_of_level(c, 0, 0, 4, 4);
    lemma_part_of_level(c, 4, 0, 4, 4);
    lemma_part_of_level(c, 0, 4, 4, 4);
    lemma_part_of_level(c, 4, 4, 4, 4);
    lemma_part_of_level(c, 0, 0, 8, 4);
    lemma_part_of_level(c, 0, 4, 8, 4);
    lemma_part_of_level(c, 0, 0, 4, 8);
    lemma_part_of_level(c, 4, 0, 4, 8);
    let p = times_over(times_over(c, 4), 4).times_spec(A::ratio_spec(1, 16));
    lemma_minus_itself(p);
    lemma_plus_nothing(p);
    lemma_minus_itself(zero);
    lemma_plus_nothing(zero);
    let pp = p.plus_spec(p);
    lemma_twice_less_once(p);
    lemma_times_zero(A::ratio_spec(1, 4));
    lemma_times_zero(A::ratio_spec(1, 2));
    lemma_difference_undone(zero, p);
    let q = times_over(times_over(c, 4), 8).times_spec(A::ratio_spec(1, 32));
    let r = times_over(times_over(c, 8), 4).times_spec(A::ratio_spec(1, 32));
    lemma_minus_itself(q);
    lemma_minus_itself(r);
}

proof fn lemma_twice_less_once<A: Amount>(p: A)
    requires
        exact::<A>(),
    ensures
        p.plus_spec(p).minus_spec(p) == p,
{
    lemma_difference_undone(p.plus_spec(p), p);
    lemma_cancels(p.plus_spec(p).minus_spec(p), p, p);
}

proof fn lemma_part_of_level<A: Amount>(c: A, x0: int, y0: int, cw: int, ch: int)
    requires
        0 <= x0,
        0 <= y0,
        0 <= cw,
        0 <= ch,
        x0 + cw <= 8,
        y0 + ch <= 8,
    ensures
        part(level_block(c, 8, 8), x0, y0, cw, ch) == level_block(c, cw, ch),
{
    let (p, q) = (part(level_block(c, 8, 8), x0, y0, cw, ch), level_block(c, cw, ch));
    assert forall|y: int| 0 <= y < ch implies #[trigger] p[y] == q[y] by {
        assert(p[y] =~= q[y]);
    }
    assert(p =~= q);
}

/// A block whose halves repeat each other has no difference between them: none from the
/// upper to the lower half under the transforms that cut it there, and none from the left
/// to the right.
pub proof fn law_repeated_halves_do_not_differ<A: Amount>(w: DctWeights<A>, g: Block<A>)
    requires
        exact::<A>(),
        sized(g, 8, 8),
    ensures
        (forall|y: int, x: int| 0 <= y < 4 && 0 <= x < 8 ==> #[trigger] g[y][x] == g[y + 4][x]) ==> {
            &&& dct4x8_spec(w, g)[1][0] == A::zero_spec()
            &&& dct4x4_spec(w, g)[0][1] == A::zero_spec()
            &&& dct4x4_spec(w, g)[1][1] == A::zero_spec()
        },
        (forall|y: int, x: int| 0 <= y < 8 && 0 <= x < 4 ==> #[trigger] g[y][x] == g[y][x + 4]) ==> {
            &&& dct8x4_spec(w, g)[1][0] == A::zero_spec()
            &&& dct4x4_spec(w, g)[1][0] == A::zero_spec()
            &&& dct4x4_spec(w, g)[1][1] == A::zero_spec()
        },
{
    let zero = A::zero_spec();
    let (a, b, c, d) = (
        dct4x4_part(w, part(g, 0, 0, 4, 4))[0][0],
        dct4x4_part(w, part(g, 4, 0, 4, 4))[0][0],
        dct4x4_part(w, part(g, 0, 4, 4, 4))[0][0],
        dct4x4_part(w, part(g, 4, 4, 4, 4))[0][0],
    );
    lemma_times_zero(A::ratio_spec(1, 4));
    lemma_times_zero(A::ratio_spec(1, 2));
    if forall|y: int, x: int| 0 <= y < 4 && 0 <= x < 8 ==> #[trigger] g[y][x] == g[y + 4][x] {
        assert forall|y: int| 0 <= y < 4 implies #[trigger] part(g, 0, 0, 8, 4)[y] == part(
            g,
            0,
            4,
            8,
            4,
        )[y] by {
            assert(part(g, 0, 0, 8, 4)[y] =~= part(g, 0, 4, 8, 4)[y]);
        }
        assert(part(g, 0, 0, 8, 4) =~= part(g, 0, 4, 8, 4));
        lemma_minus_itself(dct4x8_part(w, part(g, 0, 0, 8, 4))[0][0]);
        lemma_same_parts(g, 0, 0, 0, 4);
        lemma_same_parts(g, 4, 0, 4, 4);
        assert(a == c && b == d);
        lemma_two_taken_off(a, b);
        lemma_back_and_forth(a, b);
    }
    if forall|y: int, x: int| 0 <= y < 8 && 0 <= x < 4 ==> #[trigger] g[y][x] == g[y][x + 4] {
        assert forall|y: int| 0 <= y < 8 implies #[trigger] part(g, 0, 0, 4, 8)[y] == part(
            g,
            4,
            0,
            4,
            8,
        )[y] by {
            assert(part(g, 0, 0, 4, 8)[y] =~= part(g, 4, 0, 4, 8)[y]);
        }
        assert(part(g, 0, 0, 4, 8) =~= part(g, 4, 0, 4, 8));
        lemma_minus_itself(dct8x4_part(w, part(g, 0, 0, 4, 8))[0][0]);
        lemma_same_parts(g, 0, 0, 4, 0);
        lemma_same_parts(g, 0, 4, 4, 4);
        assert(a == b && c == d);
        lemma_minus_itself(a);
        lemma_plus_nothing(c);
        lemma_minus_itself(c);
        lemma_difference_undone(zero, c);
    }
}

proof fn lemma_same_parts<A: Amount>(g: Block<A>, x0: int, y0: int, x1: int, y1: int)
    requires
        sized(g, 8, 8),
        0 <= x0 <= 4,
        0 <= y0 <= 4,
        0 <= x1 <= 4,
        0 <= y1 <= 4,
        forall|y: int, x: int|
            0 <= y < 4 && 0 <= x < 4 ==> #[trigger] g[y0 + y][x0 + x] == g[y1 + y][x1 + x],
    ensures
        part(g, x0, y0, 4, 4) == part(g, x1, y1, 4, 4),
{
    let (p, q) = (part(g, x0, y0, 4, 4), part(g, x1, y1, 4, 4));
    assert forall|y: int| 0 <= y < 4 implies #[trigger] p[y] == q[y] by {
        assert forall|x: int| 0 <= x < 4 implies p[y][x] == q[y][x] by {
            assert(g[y0 + y][x0 + x] == g[y1 + y][x1 + x]);
        }
        assert(p[y] =~= q[y]);
    }
    assert(p =~= q);
}

proof fn lemma_two_taken_off<A: Amount>(a: A, b: A)
    requires
        exact::<A>(),
    ensures
        a.plus_spec(b).minus_spec(a).minus_spec(b) == A::zero_spec(),
{
    lemma_difference_undone(a.plus_spec(b), a);
    lemma_sum_swaps(a, b);
    lemma_cancels(a.plus_spec(b).minus_spec(a), b, a);
    lemma_minus_itself(b);
}

proof fn lemma_back_and_forth<A: Amount>(a: A, b: A)
    requires
        exact::<A>(),
    ensures
        a.minus_spec(b).minus_spec(a).plus_spec(b) == A::zero_spec(),
{
    let d = a.minus_spec(b);
    let e = d.minus_spec(a);
    lemma_difference_undone(d, a);
    lemma_difference_undone(a, b);
    lemma_late_summand(e, a, b);
    assert(e.plus_spec(b).plus_spec(a) == a);
    lemma_plus_nothing(a);
    lemma_cancels(e.plus_spec(b), A::zero_spec(), a);
}

/// The four samples that four coefficients stand for: flat where there is only the first,
/// and together four times the first in any case.
pub proof fn law_four_samples_keep_their_mean<A: Amount>(w: DctWeights<A>, v: Seq<A>)
    requires
        exact::<A>(),
        v.len() == 4,
    ensures
        v == pulse(v[0], 4) ==> idct4_spec(w, v) == level(v[0], 4),
        ({
            let r = idct4_spec(w, v);
            let a = v[0];
            r[0].plus_spec(r[3]).plus_spec(r[1].plus_spec(r[2])) == a.plus_spec(a).plus_spec(
                a.plus_spec(a),
            )
        }),
{
    let zero = A::zero_spec();
    let e0 = v[0].plus_spec(v[2]);
    let e1 = v[0].minus_spec(v[2]);
    let t2 = v[1].times_spec(w.sqrt_2);
    let t3 = v[3].plus_spec(v[1]);
    let o0 = t2.plus_spec(t3);
    let o1 = t2.minus_spec(t3);
    lemma_pair(o0, w.wc4@[0], e0);
    lemma_pair(o1, w.wc4@[1], e1);
    let (a, b) = (v[0], v[2]);
    lemma_difference_undone(a, b);
    let s = e0.plus_spec(e0).plus_spec(e1.plus_spec(e1));
    lemma_late_summand(e1, e1, e0);
    assert(e0.plus_spec(e1) == a.plus_spec(a)) by {
        lemma_sum_regroups(a, b, e1);
        lemma_sum_swaps(b, e1);
    }
    lemma_sum_regroups(e0.plus_spec(e0), e1, e1);
    lemma_late_summand(e0, e1, e0);
    lemma_sum_regroups(e0.plus_spec(e1), e0, e1);
    if v == pulse(v[0], 4) {
        assert(v[1] == zero && v[2] == zero && v[3] == zero);
        lemma_plus_nothing(a);
        lemma_minus_nothing(a);
        lemma_times_zero(w.sqrt_2);
        lemma_plus_nothing(zero);
        lemma_minus_itself(zero);
        lemma_still(w.wc4@[0], a);
        lemma_still(w.wc4@[1], a);
        lemma_still(zero.minus_spec(w.wc4@[0]), a);
        lemma_still(zero.minus_spec(w.wc4@[1]), a);
        assert(idct4_spec(w, v) =~= level(v[0], 4));
    }
}

proof fn lemma_still<A: Amount>(f: A, a: A)
    requires
        exact::<A>(),
    ensures
        A::zero_spec().fused_spec(f, a) == a,
{
    lemma_fuses(A::zero_spec(), f, a);
    lemma_times_zero(f);
    lemma_plus_nothing(a);
}

/// A weighed amount added once and taken off once leaves twice the rest.
proof fn lemma_pair<A: Amount>(o: A, f: A, e: A)
    requires
        exact::<A>(),
    ensures
        o.fused_spec(f, e).plus_spec(o.fused_spec(A::zero_spec().minus_spec(f), e))
            == e.plus_spec(e),
{
    let g = A::zero_spec().minus_spec(f);
    lemma_fuses(o, f, e);
    lemma_fuses(o, g, e);
    let (p, q) = (o.times_spec(f), o.times_spec(g));
    lemma_difference_undone(A::zero_spec(), f);
    lemma_sum_swaps(g, f);
    lemma_distributes(o, f, g);
    lemma_times_zero(o);
    assert(p.plus_spec(q) == A::zero_spec());
    let x = e.plus_spec(p);
    lemma_sum_regroups(x, e, q);
    lemma_late_summand(e, e, p);
    lemma_sum_regroups(e.plus_spec(e), p, q);
    lemma_plus_nothing(e.plus_spec(e));
}

/// The means under a large transform with nothing but its first coefficient are all the
/// same.
pub proof fn law_one_coefficient_has_even_means<A: Amount>(
    w: DctWeights<A>,
    s: Resample<A>,
    g: Seq<Seq<A>>,
)
    requires
        exact::<A>(),
        g.len() >= 4,
        forall|y: int| 0 <= y < 4 ==> (#[trigger] g[y]).len() >= 4,
        forall|y: int, x: int|
            0 <= y < 4 && 0 <= x < 4 && (x != 0 || y != 0) ==> #[trigger] g[y][x] == A::zero_spec(),
    ensures
        ({
            let mean = g[0][0].times_spec(s.to4@[0]).times_spec(s.to4@[0]);
            dc_32x32_spec(w, s, g) == level_block(mean, 4, 4)
        }),
        ({
            let mean = g[0][0].times_spec(s.to4@[0]);
            dc_rect_spec(w, s, g) == (level(mean, 4), level(mean, 4))
        }),
{
    let zero = A::zero_spec();
    let f = s.to4@[0];
    let mean = g[0][0].times_spec(f).times_spec(f);
    assert forall|a: int| 0 <= a < 4 implies #[trigger] means_of_row(w, s, g, a) == level(
        if a == 0 {
            mean
        } else {
            zero
        },
        4,
    ) by {
        let row = low4(s, g[a], s.to4@[a], true);
        assert forall|i: int| 0 <= i < 4 implies #[trigger] row[i] == (if i == 0 && a == 0 {
            mean
        } else {
            zero
        }) by {
            if i != 0 || a != 0 {
                assert(g[a][i] == zero);
                lemma_times_zero(s.to4@[a]);
                lemma_times_zero(s.to4@[i]);
            }
        }
        assert(row =~= pulse(row[0], 4));
        law_four_samples_keep_their_mean(w, row);
    }
    let out = dc_32x32_spec(w, s, g);
    assert forall|b: int| 0 <= b < 4 implies #[trigger] out[b] == level(mean, 4) by {
        let across = Seq::new(4, |a: int| means_of_row(w, s, g, a)[b]);
        assert forall|a: int| 0 <= a < 4 implies #[trigger] across[a] == pulse(mean, 4)[a] by {
            assert(means_of_row(w, s, g, a)[b] == (if a == 0 {
                mean
            } else {
                zero
            }));
        }
        assert(across =~= pulse(mean, 4));
        law_four_samples_keep_their_mean(w, across);
    }
    assert(out =~= level_block(mean, 4, 4));
    let m = g[0][0].times_spec(f);
    let (p, q) = (low4(s, g[0], s.to2@[0], false), low4(s, g[1], s.to2@[1], true));
    assert forall|i: int| 0 <= i < 4 implies #[trigger] p[i] == pulse(m, 4)[i] by {
        if i != 0 {
            assert(g[0][i] == zero);
            lemma_times_zero(s.to4@[i]);
        }
    }
    assert(p =~= pulse(m, 4));
    assert forall|i: int| 0 <= i < 4 implies #[trigger] q[i] == zero by {
        assert(g[1][i] == zero);
        lemma_times_zero(s.to2@[1]);
        lemma_times_zero(s.to4@[i]);
    }
    assert(q =~= pulse(zero, 4));
    law_four_samples_keep_their_mean(w, p);
    law_four_samples_keep_their_mean(w, q);
    lemma_plus_nothing(m);
    lemma_minus_nothing(m);
    assert(dc_rect_spec(w, s, g).0 =~= level(m, 4));
    assert(dc_rect_spec(w, s, g).1 =~= level(m, 4));
}

/// Chroma that follows luma leaves nothing; what was taken off can be put back.
pub proof fn law_predictions_come_off_and_go_back(x: Seq<Fixed>, y: Seq<Fixed>, factor: Fixed)
    requires
        x.len() == y.len(),
        -0x1_0000_0000 <= factor.raw <= 0x1_0000_0000,
        forall|i: int|
            0 <= i < x.len() ==> -0x1_0000_0000 <= (#[trigger] x[i]).raw <= 0x1_0000_0000,
        forall|i: int|
            0 <= i < y.len() ==> -0x1_0000_0000 <= (#[trigger] y[i]).raw <= 0x1_0000_0000,
    ensures
        predicted_off(predicted_off(x, y, factor), y, opposite(factor)) == x,
        forall|i: int|
            0 <= i < x.len() && #[trigger] x[i] == factor.times_spec(y[i]) ==> predicted_off(
                x,
                y,
                factor,
            )[i].raw == 0,
{
    let off = predicted_off(x, y, factor);
    let back = predicted_off(off, y, opposite(factor));
    assert forall|i: int| 0 <= i < x.len() implies back[i] == x[i] && (x[i] == factor.times_spec(
        y[i],
    ) ==> off[i].raw == 0) by {
        let (f, l) = (factor.raw as int, y[i].raw as int);
        assert(-0x1_0000_0000 <= x[i].raw <= 0x1_0000_0000);
        assert(-0x1_0000_0000 <= y[i].raw <= 0x1_0000_0000);
        assert((-f) * l == -(f * l) && -(0x1_0000_0000 * 0x1_0000_0000) <= f * l <= 0x1_0000_0000
            * 0x1_0000_0000) by (nonlinear_arith)
            requires
                -0x1_0000_0000 <= f <= 0x1_0000_0000,
                -0x1_0000_0000 <= l <= 0x1_0000_0000,
        ;
    }
    assert(back =~= x);
}

} // verus!
