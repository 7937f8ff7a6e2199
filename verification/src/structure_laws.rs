//! What the measures of a block and of a plane respond to.

use crate::amount::Amount;
use crate::grid_laws::{
    adds_terms, grid_sum, law_folded_rows_hold_the_sum, law_grid_sums_add, law_grids_sum_either_way,
    law_spread_rows_hold_the_sum, lemma_nothing_sums, lemma_same_grid, turned_terms,
};
use crate::lanes::{eight_summed, empty_lanes, four_groups, lanes_hold, rows_spread};
use crate::plane_stats::sample_step;
use crate::recon::{across_step, down_step};
use crate::small_transform::Block;
use crate::ssim::{covariance_of, window_deficit, window_mean, window_sample};
use crate::structure::{
    centered, error_sum, gradient_energy_of, gradient_misses, moments_of, predictor_errors_of,
    product_step, product_sum, row_energy, row_groups, shifted_differences, spectral_of, tensor_of,
};
use crate::sum_laws::{
    exact, law_lanes_hold_the_sum, lemma_cancels, lemma_difference_undone, lemma_distributes,
    lemma_fuses, lemma_minus_itself, lemma_plus_nothing, lemma_product_regroups,
    lemma_product_swaps, lemma_sum_regroups, lemma_sum_swaps, lemma_times_zero,
};
use crate::transform::{scaled, sized};
use vstd::prelude::*;

verus! {

/// A square block turned over its diagonal.
pub open spec fn turned<A>(g: Block<A>, n: int) -> Block<A> {
    Seq::new(n as nat, |y: int| Seq::new(n as nat, |x: int| g[x][y]))
}

/// The samples of a block as terms.
pub open spec fn sample_terms<A: Amount>(g: Block<A>) -> spec_fn(int, int) -> A {
    |y: int, x: int| g[y][x]
}

/// The products of the samples of two blocks as terms.
pub open spec fn product_terms<A: Amount>(p: Block<A>, q: Block<A>) -> spec_fn(int, int) -> A {
    |y: int, x: int| p[y][x].times_spec(q[y][x])
}

proof fn lemma_product_step<A: Amount>(p: Block<A>, q: Block<A>, w: int, h: int)
    requires
        exact::<A>(),
    ensures
        adds_terms(product_step(p, q), product_terms(p, q), w, h),
{
    let (f, t) = (product_step(p, q), product_terms(p, q));
    assert forall|y: int, x: int, a: A| 0 <= y < h && 0 <= x < w implies #[trigger] f(y, x, a)
        == a.plus_spec(t(y, x)) by {
        lemma_fuses(p[y][x], q[y][x], a);
    }
}

proof fn lemma_row_groups(m: int, w: int, h: int)
    requires
        1 <= m,
        w <= 8,
    ensures
        lanes_hold(row_groups(m), 8 * m, w, h),
{
    assert forall|y: int, x: int| 0 <= y < h && 0 <= x < w implies 0 <= #[trigger] row_groups(m)(
        y,
        x,
    ) < 8 * m by {
        assert(0 <= y % m < m) by (nonlinear_arith)
            requires
                1 <= m,
        ;
    }
}

proof fn lemma_moment_sums<A: Amount>(g: Block<A>, p: Block<A>, q: Block<A>)
    requires
        exact::<A>(),
    ensures
        eight_summed(
            four_groups(rows_spread(empty_lanes(32), row_groups(4), sample_step(g), 8, 8)),
        ) == grid_sum(sample_terms(g), 8, 8),
        eight_summed(
            four_groups(rows_spread(empty_lanes(32), row_groups(4), product_step(p, q), 8, 8)),
        ) == grid_sum(product_terms(p, q), 8, 8),
{
    let none = empty_lanes::<A>(32);
    lemma_row_groups(4, 8, 8);
    assert(adds_terms(sample_step(g), sample_terms(g), 8, 8));
    law_spread_rows_hold_the_sum(none, row_groups(4), sample_step(g), sample_terms(g), 8, 8);
    crate::lanes::lemma_rows_spread_len(none, row_groups(4), sample_step(g), 8, 8, 8);
    lemma_product_step(p, q, 8, 8);
    law_spread_rows_hold_the_sum(
        none,
        row_groups(4),
        product_step(p, q),
        product_terms(p, q),
        8,
        8,
    );
    crate::lanes::lemma_rows_spread_len(none, row_groups(4), product_step(p, q), 8, 8, 8);
}

proof fn lemma_small_sums<A: Amount>(p: Block<A>, q: Block<A>)
    requires
        exact::<A>(),
    ensures
        product_sum(p, q) == grid_sum(product_terms(p, q), 6, 6),
        error_sum(p) == grid_sum(product_terms(p, p), 6, 6),
{
    let none = empty_lanes::<A>(16);
    lemma_row_groups(2, 6, 6);
    lemma_product_step(p, q, 6, 6);
    law_spread_rows_hold_the_sum(
        none,
        row_groups(2),
        product_step(p, q),
        product_terms(p, q),
        6,
        6,
    );
    crate::lanes::lemma_rows_spread_len(none, row_groups(2), product_step(p, q), 6, 6, 6);
    let few = empty_lanes::<A>(8);
    lemma_row_groups(1, 6, 6);
    lemma_product_step(p, p, 6, 6);
    law_spread_rows_hold_the_sum(few, row_groups(1), product_step(p, p), product_terms(p, p), 6, 6);
    crate::lanes::lemma_rows_spread_len(few, row_groups(1), product_step(p, p), 6, 6, 6);
}

/// Mean and variance do not depend on how a block lies: turned over its diagonal it has the
/// same.
pub proof fn law_moments_do_not_turn<A: Amount>(g: Block<A>)
    requires
        exact::<A>(),
        sized(g, 8, 8),
    ensures
        moments_of(turned(g, 8)) == moments_of(g),
{
    let t = turned(g, 8);
    let mean = moments_of(g).0;
    let (off, back) = (centered(g, mean), centered(t, mean));
    lemma_moment_sums(g, off, off);
    lemma_moment_sums(t, back, back);
    law_grids_sum_either_way(sample_terms(g), 8, 8);
    assert forall|y: int, x: int| 0 <= y < 8 && 0 <= x < 8 implies #[trigger] sample_terms(t)(y, x)
        == turned_terms(sample_terms(g))(y, x) by {}
    lemma_same_grid(sample_terms(t), turned_terms(sample_terms(g)), 8, 8);
    law_grids_sum_either_way(product_terms(off, off), 8, 8);
    assert forall|y: int, x: int| 0 <= y < 8 && 0 <= x < 8 implies #[trigger] product_terms(
        back,
        back,
    )(y, x) == turned_terms(product_terms(off, off))(y, x) by {
        assert(g[x].len() == 8);
        assert(back[y][x] == off[x][y]);
    }
    lemma_same_grid(product_terms(back, back), turned_terms(product_terms(off, off)), 8, 8);
}

/// The same amount for every sample.
pub open spec fn level_terms<A: Amount>(a: A) -> spec_fn(int, int) -> A {
    |y: int, x: int| a
}

/// Sixty-four equal amounts have that amount as their mean.
#[verifier::opaque]
pub open spec fn takes_means<A: Amount>() -> bool {
    forall|a: A|
        grid_sum(#[trigger] level_terms(a), 8, 8).times_spec(A::ratio_spec(1, 64)) == a
}

proof fn lemma_shifted_difference<A: Amount>(a: A, b: A, c: A)
    requires
        exact::<A>(),
    ensures
        a.plus_spec(c).minus_spec(b.plus_spec(c)) == a.minus_spec(b),
{
    let d = a.plus_spec(c).minus_spec(b.plus_spec(c));
    let e = a.minus_spec(b);
    lemma_difference_undone(a.plus_spec(c), b.plus_spec(c));
    lemma_difference_undone(a, b);
    lemma_sum_regroups(e, b, c);
    lemma_cancels(d, e, b.plus_spec(c));
}

/// A brighter block has a mean that is as much brighter and the same variance.
pub proof fn law_variance_does_not_see_brightness<A: Amount>(g: Block<A>, h: Block<A>, c: A)
    requires
        exact::<A>(),
        takes_means::<A>(),
        sized(g, 8, 8),
        sized(h, 8, 8),
        forall|y: int, x: int|
            0 <= y < 8 && 0 <= x < 8 ==> #[trigger] h[y][x] == g[y][x].plus_spec(c),
    ensures
        moments_of(h).0 == moments_of(g).0.plus_spec(c),
        moments_of(h).1 == moments_of(g).1,
{
    let part = A::ratio_spec(1, 64);
    let level = level_terms(c);
    let (f, t) = (sample_terms(g), sample_terms(h));
    lemma_moment_sums(g, g, g);
    lemma_moment_sums(h, g, g);
    assert forall|y: int, x: int| 0 <= y < 8 && 0 <= x < 8 implies #[trigger] t(y, x) == f(
        y,
        x,
    ).plus_spec(level(y, x)) by {
        assert(h[y][x] == g[y][x].plus_spec(c));
    }
    law_grid_sums_add(f, level, t, 8, 8);
    let (sg, sc) = (grid_sum(f, 8, 8), grid_sum(level, 8, 8));
    assert(sc.times_spec(part) == c) by {
        reveal(takes_means);
    }
    lemma_product_swaps(sg.plus_spec(sc), part);
    lemma_distributes(part, sg, sc);
    lemma_product_swaps(part, sg);
    lemma_product_swaps(part, sc);
    let (mg, mh) = (moments_of(g).0, moments_of(h).0);
    assert(mh == mg.plus_spec(c));
    let (off, above) = (centered(g, mg), centered(h, mh));
    assert forall|y: int, x: int| 0 <= y < 8 && 0 <= x < 8 implies #[trigger] product_terms(
        above,
        above,
    )(y, x) == product_terms(off, off)(y, x) by {
        assert(g[y].len() == 8 && h[y].len() == 8);
        assert(h[y][x] == g[y][x].plus_spec(c));
        lemma_shifted_difference(g[y][x], mg, c);
        assert(above[y][x] == off[y][x]);
    }
    lemma_same_grid(product_terms(above, above), product_terms(off, off), 8, 8);
    lemma_moment_sums(g, off, off);
    lemma_moment_sums(h, above, above);
}

/// Turning a block over its diagonal exchanges its horizontal and vertical slopes.
pub proof fn law_tensor_turns_with_the_block<A: Amount>(g: Block<A>)
    requires
        exact::<A>(),
        sized(g, 8, 8),
    ensures
        ({
            let t = tensor_of(g);
            tensor_of(turned(g, 8)) == (t.2, t.1, t.0)
        }),
{
    let half = A::ratio_spec(1, 2);
    let t = turned(g, 8);
    let gx = scaled(shifted_differences(g, (2, 1), (0, 1), 6, 6), half);
    let gy = scaled(shifted_differences(g, (1, 2), (1, 0), 6, 6), half);
    let tx = scaled(shifted_differences(t, (2, 1), (0, 1), 6, 6), half);
    let ty = scaled(shifted_differences(t, (1, 2), (1, 0), 6, 6), half);
    assert forall|y: int, x: int| 0 <= y < 6 && 0 <= x < 6 implies #[trigger] tx[y][x] == gy[x][y]
        && ty[y][x] == gx[x][y] by {
        assert(t[y + 1][x + 2] == g[x + 2][y + 1]);
        assert(t[y + 1][x + 0] == g[x][y + 1]);
        assert(t[y + 2][x + 1] == g[x + 1][y + 2]);
        assert(t[y + 0][x + 1] == g[x + 1][y]);
    }
    lemma_small_sums(gx, gx);
    lemma_small_sums(gx, gy);
    lemma_small_sums(gy, gy);
    lemma_small_sums(tx, tx);
    lemma_small_sums(tx, ty);
    lemma_small_sums(ty, ty);
    lemma_turned_products(gx, gx, ty, ty);
    lemma_turned_products(gy, gy, tx, tx);
    lemma_turned_products(gx, gy, ty, tx);
    assert forall|y: int, x: int| 0 <= y < 6 && 0 <= x < 6 implies #[trigger] product_terms(ty, tx)(
        y,
        x,
    ) == product_terms(tx, ty)(y, x) by {
        lemma_product_swaps(ty[y][x], tx[y][x]);
    }
    lemma_same_grid(product_terms(ty, tx), product_terms(tx, ty), 6, 6);
}

proof fn lemma_turned_products<A: Amount>(p: Block<A>, q: Block<A>, u: Block<A>, v: Block<A>)
    requires
        exact::<A>(),
        forall|y: int, x: int| 0 <= y < 6 && 0 <= x < 6 ==> #[trigger] u[y][x] == p[x][y],
        forall|y: int, x: int| 0 <= y < 6 && 0 <= x < 6 ==> #[trigger] v[y][x] == q[x][y],
    ensures
        grid_sum(product_terms(u, v), 6, 6) == grid_sum(product_terms(p, q), 6, 6),
{
    law_grids_sum_either_way(product_terms(p, q), 6, 6);
    assert forall|y: int, x: int| 0 <= y < 6 && 0 <= x < 6 implies #[trigger] product_terms(u, v)(
        y,
        x,
    ) == turned_terms(product_terms(p, q))(y, x) by {
        assert(u[y][x] == p[x][y]);
        assert(v[y][x] == q[x][y]);
    }
    lemma_same_grid(product_terms(u, v), turned_terms(product_terms(p, q)), 6, 6);
}

proof fn lemma_no_errors<A: Amount>(e: Block<A>)
    requires
        exact::<A>(),
        forall|y: int, x: int|
            0 <= y < 6 && 0 <= x < 6 ==> #[trigger] e[y][x] == A::zero_spec(),
    ensures
        error_sum(e) == A::zero_spec(),
{
    lemma_small_sums(e, e);
    assert forall|y: int, x: int| 0 <= y < 6 && 0 <= x < 6 implies #[trigger] product_terms(e, e)(
        y,
        x,
    ) == A::zero_spec() by {
        assert(e[y][x] == A::zero_spec());
        lemma_times_zero(A::zero_spec());
    }
    lemma_nothing_sums(product_terms(e, e), 6, 6);
}

/// Each predictor misses nothing on the blocks it is made for: the left one where rows are
/// level, the upper one where columns are, the diagonal ones along their diagonals, and the
/// gradient where a block is a sum of what its rows and its columns hold.
pub proof fn law_predictors_predict_their_blocks<A: Amount>(
    g: Block<A>,
    r: spec_fn(int) -> A,
    c: spec_fn(int) -> A,
)
    requires
        exact::<A>(),
        sized(g, 8, 8),
    ensures
        (forall|y: int, x: int| 0 <= y < 8 && 0 <= x < 8 ==> #[trigger] g[y][x] == r(y))
            ==> predictor_errors_of(g).left == A::zero_spec(),
        (forall|y: int, x: int| 0 <= y < 8 && 0 <= x < 8 ==> #[trigger] g[y][x] == c(x))
            ==> predictor_errors_of(g).top == A::zero_spec(),
        (forall|y: int, x: int| 0 <= y < 8 && 0 <= x < 8 ==> #[trigger] g[y][x] == c(x - y))
            ==> predictor_errors_of(g).top_left == A::zero_spec(),
        (forall|y: int, x: int| 0 <= y < 8 && 0 <= x < 8 ==> #[trigger] g[y][x] == c(x + y))
            ==> predictor_errors_of(g).bottom_left == A::zero_spec(),
        (forall|y: int, x: int|
            0 <= y < 8 && 0 <= x < 8 ==> #[trigger] g[y][x] == r(y).plus_spec(c(x)))
            ==> predictor_errors_of(g).gradient == A::zero_spec(),
{
    let zero = A::zero_spec();
    if forall|y: int, x: int| 0 <= y < 8 && 0 <= x < 8 ==> #[trigger] g[y][x] == r(y) {
        let e = shifted_differences(g, (1, 1), (0, 1), 6, 6);
        assert forall|y: int, x: int| 0 <= y < 6 && 0 <= x < 6 implies #[trigger] e[y][x]
            == zero by {
            assert(g[y + 1][x + 1] == g[y + 1][x + 0]);
            lemma_minus_itself(g[y + 1][x + 1]);
        }
        lemma_no_errors(e);
    }
    if forall|y: int, x: int| 0 <= y < 8 && 0 <= x < 8 ==> #[trigger] g[y][x] == c(x) {
        let e = shifted_differences(g, (1, 1), (1, 0), 6, 6);
        assert forall|y: int, x: int| 0 <= y < 6 && 0 <= x < 6 implies #[trigger] e[y][x]
            == zero by {
            assert(g[y + 1][x + 1] == g[y + 0][x + 1]);
            lemma_minus_itself(g[y + 1][x + 1]);
        }
        lemma_no_errors(e);
    }
    if forall|y: int, x: int| 0 <= y < 8 && 0 <= x < 8 ==> #[trigger] g[y][x] == c(x - y) {
        let e = shifted_differences(g, (1, 1), (0, 0), 6, 6);
        assert forall|y: int, x: int| 0 <= y < 6 && 0 <= x < 6 implies #[trigger] e[y][x]
            == zero by {
            assert(x + 1 - (y + 1) == x - y);
            assert(g[y + 1][x + 1] == g[y + 0][x + 0]);
            lemma_minus_itself(g[y + 1][x + 1]);
        }
        lemma_no_errors(e);
    }
    if forall|y: int, x: int| 0 <= y < 8 && 0 <= x < 8 ==> #[trigger] g[y][x] == c(x + y) {
        let e = shifted_differences(g, (1, 1), (0, 2), 6, 6);
        assert forall|y: int, x: int| 0 <= y < 6 && 0 <= x < 6 implies #[trigger] e[y][x]
            == zero by {
            assert(x + 1 + (y + 1) == x + (y + 2));
            assert(g[y + 1][x + 1] == g[y + 2][x + 0]);
            lemma_minus_itself(g[y + 1][x + 1]);
        }
        lemma_no_errors(e);
    }
    if forall|y: int, x: int|
        0 <= y < 8 && 0 <= x < 8 ==> #[trigger] g[y][x] == r(y).plus_spec(c(x)) {
        let e = gradient_misses(g);
        assert forall|y: int, x: int| 0 <= y < 6 && 0 <= x < 6 implies #[trigger] e[y][x]
            == zero by {
            let (a, b, p, q) = (r(y), r(y + 1), c(x), c(x + 1));
            assert(g[y + 1][x + 1] == b.plus_spec(q));
            assert(g[y + 1][x] == b.plus_spec(p));
            assert(g[y][x + 1] == a.plus_spec(q));
            assert(g[y][x] == a.plus_spec(p));
            lemma_planar(a, b, p, q);
            lemma_minus_itself(b.plus_spec(q));
        }
        lemma_no_errors(e);
    }
}

proof fn lemma_planar<A: Amount>(a: A, b: A, p: A, q: A)
    requires
        exact::<A>(),
    ensures
        b.plus_spec(p).plus_spec(a.plus_spec(q)).minus_spec(a.plus_spec(p)) == b.plus_spec(q),
{
    let sum = b.plus_spec(p).plus_spec(a.plus_spec(q));
    lemma_sum_swaps(a, q);
    lemma_sum_regroups(b.plus_spec(p), q, a);
    crate::grid_laws::lemma_late_summand(b, q, p);
    lemma_sum_regroups(b.plus_spec(q), p, a);
    lemma_sum_swaps(p, a);
    assert(sum == b.plus_spec(q).plus_spec(a.plus_spec(p)));
    lemma_difference_undone(sum, a.plus_spec(p));
    lemma_cancels(sum.minus_spec(a.plus_spec(p)), b.plus_spec(q), a.plus_spec(p));
}

/// Turning a block over its diagonal exchanges the predictors from the left and from above,
/// and leaves the one along the diagonal and the gradient.
pub proof fn law_predictors_turn_with_the_block<A: Amount>(g: Block<A>)
    requires
        exact::<A>(),
        sized(g, 8, 8),
    ensures
        ({
            let (e, t) = (predictor_errors_of(g), predictor_errors_of(turned(g, 8)));
            t.left == e.top && t.top == e.left && t.top_left == e.top_left && t.gradient
                == e.gradient
        }),
{
    let t = turned(g, 8);
    lemma_turned_errors(
        shifted_differences(g, (1, 1), (1, 0), 6, 6),
        shifted_differences(t, (1, 1), (0, 1), 6, 6),
    );
    lemma_turned_errors(
        shifted_differences(g, (1, 1), (0, 1), 6, 6),
        shifted_differences(t, (1, 1), (1, 0), 6, 6),
    );
    lemma_turned_errors(
        shifted_differences(g, (1, 1), (0, 0), 6, 6),
        shifted_differences(t, (1, 1), (0, 0), 6, 6),
    );
    let (e, f) = (gradient_misses(g), gradient_misses(t));
    assert forall|y: int, x: int| 0 <= y < 6 && 0 <= x < 6 implies #[trigger] f[y][x]
        == e[x][y] by {
        lemma_sum_swaps(g[x][y + 1], g[x + 1][y]);
    }
    lemma_turned_errors(e, f);
}

proof fn lemma_turned_errors<A: Amount>(e: Block<A>, f: Block<A>)
    requires
        exact::<A>(),
        forall|y: int, x: int| 0 <= y < 6 && 0 <= x < 6 ==> #[trigger] f[y][x] == e[x][y],
    ensures
        error_sum(f) == error_sum(e),
{
    lemma_small_sums(e, e);
    lemma_small_sums(f, f);
    lemma_turned_products(e, e, f, f);
}

/// A flat block has no gradient energy.
pub proof fn law_flat_blocks_have_no_gradients<A: Amount>(g: Block<A>, c: A, n: int)
    requires
        exact::<A>(),
        n == 4 || n == 8,
        sized(g, n, n),
        forall|y: int, x: int| 0 <= y < n && 0 <= x < n ==> #[trigger] g[y][x] == c,
    ensures
        gradient_energy_of(g, n) == A::zero_spec(),
{
    lemma_gradient_sums(g, n);
    let zero = A::zero_spec();
    let h = shifted_differences(g, (1, 0), (0, 0), n - 1, n);
    let v = shifted_differences(g, (0, 1), (0, 0), n, n - 1);
    lemma_minus_itself(c);
    lemma_times_zero(zero);
    assert forall|y: int, x: int| 0 <= y < n && 0 <= x < n - 1 implies #[trigger] product_terms(
        h,
        h,
    )(y, x) == zero by {
        assert(g[y + 0][x + 1] == c && g[y + 0][x + 0] == c);
    }
    assert forall|y: int, x: int| 0 <= y < n - 1 && 0 <= x < n implies #[trigger] product_terms(
        v,
        v,
    )(y, x) == zero by {
        assert(g[y + 1][x + 0] == c && g[y + 0][x + 0] == c);
    }
    lemma_nothing_sums(product_terms(h, h), n - 1, n);
    lemma_nothing_sums(product_terms(v, v), n, n - 1);
    lemma_plus_nothing(zero);
}

proof fn lemma_gradient_sums<A: Amount>(g: Block<A>, n: int)
    requires
        exact::<A>(),
        n == 4 || n == 8,
    ensures
        ({
            let h = shifted_differences(g, (1, 0), (0, 0), n - 1, n);
            let v = shifted_differences(g, (0, 1), (0, 0), n, n - 1);
            gradient_energy_of(g, n) == grid_sum(product_terms(h, h), n - 1, n).plus_spec(
                grid_sum(product_terms(v, v), n, n - 1),
            )
        }),
{
    let h = shifted_differences(g, (1, 0), (0, 0), n - 1, n);
    let v = shifted_differences(g, (0, 1), (0, 0), n, n - 1);
    let none = empty_lanes::<A>(32);
    lemma_row_groups(4, n - 1, n);
    lemma_row_groups(4, n, n - 1);
    lemma_product_step(h, h, n - 1, n);
    lemma_product_step(v, v, n, n - 1);
    law_spread_rows_hold_the_sum(
        none,
        row_groups(4),
        product_step(h, h),
        product_terms(h, h),
        n - 1,
        n,
    );
    crate::lanes::lemma_rows_spread_len(none, row_groups(4), product_step(h, h), n - 1, n, n);
    let half = rows_spread(none, row_groups(4), product_step(h, h), n - 1, n);
    law_spread_rows_hold_the_sum(
        half,
        row_groups(4),
        product_step(v, v),
        product_terms(v, v),
        n,
        n - 1,
    );
    crate::lanes::lemma_rows_spread_len(half, row_groups(4), product_step(v, v), n, n - 1, n - 1);
}

/// Gradient energy does not depend on how a block lies.
pub proof fn law_gradient_energy_does_not_turn<A: Amount>(g: Block<A>, n: int)
    requires
        exact::<A>(),
        n == 4 || n == 8,
        sized(g, n, n),
    ensures
        gradient_energy_of(turned(g, n), n) == gradient_energy_of(g, n),
{
    let t = turned(g, n);
    lemma_gradient_sums(g, n);
    lemma_gradient_sums(t, n);
    let (h, v) = (
        shifted_differences(g, (1, 0), (0, 0), n - 1, n),
        shifted_differences(g, (0, 1), (0, 0), n, n - 1),
    );
    let (a, b) = (
        shifted_differences(t, (1, 0), (0, 0), n - 1, n),
        shifted_differences(t, (0, 1), (0, 0), n, n - 1),
    );
    law_grids_sum_either_way(product_terms(h, h), n - 1, n);
    law_grids_sum_either_way(product_terms(v, v), n, n - 1);
    assert forall|y: int, x: int| 0 <= y < n && 0 <= x < n - 1 implies #[trigger] product_terms(
        a,
        a,
    )(y, x) == turned_terms(product_terms(v, v))(y, x) by {
        assert(a[y][x] == v[x][y]);
    }
    assert forall|y: int, x: int| 0 <= y < n - 1 && 0 <= x < n implies #[trigger] product_terms(
        b,
        b,
    )(y, x) == turned_terms(product_terms(h, h))(y, x) by {
        assert(b[y][x] == h[x][y]);
    }
    lemma_same_grid(product_terms(a, a), turned_terms(product_terms(v, v)), n - 1, n);
    lemma_same_grid(product_terms(b, b), turned_terms(product_terms(h, h)), n, n - 1);
    lemma_sum_swaps(
        grid_sum(product_terms(h, h), n - 1, n),
        grid_sum(product_terms(v, v), n, n - 1),
    );
}

/// The gradient energy of an error plane is that of a flat plane where the plane is flat:
/// none.
pub proof fn law_even_errors_have_no_gradients<A: Amount>(g: Block<A>, c: A, w: int, h: int)
    requires
        exact::<A>(),
        1 <= w,
        1 <= h,
        sized(g, w, h),
        forall|y: int, x: int| 0 <= y < h && 0 <= x < w ==> #[trigger] g[y][x] == c,
    ensures
        crate::recon::gradient_energy_of(g, w, h) == A::zero_spec(),
{
    let zero = A::zero_spec();
    let none = empty_lanes::<A>(8);
    let nothing = |y: int, x: int| A::zero_spec();
    let (f, d) = (across_step(g), down_step(g));
    lemma_minus_itself(c);
    lemma_times_zero(zero);
    assert forall|y: int, x: int, a: A| 0 <= y < h && 0 <= x < w - 1 implies #[trigger] f(y, x, a)
        == a.plus_spec(nothing(y, x)) by {
        assert(g[y][x + 1] == c && g[y][x] == c);
        lemma_fuses(zero, zero, a);
    }
    assert forall|y: int, x: int, a: A| 0 <= y < h - 1 && 0 <= x < w implies #[trigger] d(y, x, a)
        == a.plus_spec(nothing(y, x)) by {
        assert(g[y + 1][x] == c && g[y][x] == c);
        lemma_fuses(zero, zero, a);
    }
    law_folded_rows_hold_the_sum(none, f, nothing, w - 1, h);
    crate::lanes::lemma_rows_folded_len(none, 8, f, w - 1, h);
    let half = crate::lanes::rows_folded(none, 8, f, w - 1, h);
    law_folded_rows_hold_the_sum(half, d, nothing, w, h - 1);
    crate::lanes::lemma_rows_folded_len(half, 8, d, w, h - 1);
    lemma_nothing_sums(nothing, w - 1, h);
    lemma_nothing_sums(nothing, w, h - 1);
    lemma_plus_nothing(zero);
}

/// A block without middle frequencies has no energy there, one without high frequencies
/// none in those: the middle ones lie between the second and the eighth diagonal, the high
/// ones beyond.
pub proof fn law_bands_hold_their_diagonals<A: Amount>(c: Block<A>, n: int)
    requires
        exact::<A>(),
        0 <= n <= 8,
        sized(c, 8, 8),
    ensures
        (forall|y: int, x: int|
            0 <= y < 8 && 0 <= x < 8 && 2 <= x + y < 8 ==> #[trigger] c[y][x] == A::zero_spec())
            ==> spectral_of(c, n).0 == A::zero_spec(),
        (forall|y: int, x: int|
            0 <= y < 8 && 0 <= x < 8 && 8 <= x + y ==> #[trigger] c[y][x] == A::zero_spec())
            ==> spectral_of(c, n).1 == A::zero_spec(),
    decreases n,
{
    let zero = A::zero_spec();
    lemma_plus_nothing(zero);
    lemma_times_zero(zero);
    if n > 0 {
        law_bands_hold_their_diagonals(c, n - 1);
        let y = n - 1;
        if forall|y: int, x: int|
            0 <= y < 8 && 0 <= x < 8 && 2 <= x + y < 8 ==> #[trigger] c[y][x] == zero {
            lemma_no_energy(c[y], crate::structure::mid_start(y), 8 - y);
        }
        if forall|y: int, x: int|
            0 <= y < 8 && 0 <= x < 8 && 8 <= x + y ==> #[trigger] c[y][x] == zero {
            lemma_no_energy(c[y], 8 - y, 8);
        }
    }
}

proof fn lemma_no_energy<A: Amount>(row: Seq<A>, from: int, to: int)
    requires
        exact::<A>(),
        0 <= from,
        to <= 8,
        forall|x: int| from <= x < to ==> #[trigger] row[x] == A::zero_spec(),
    ensures
        row_energy(row, from, to) == A::zero_spec(),
{
    let zero = A::zero_spec();
    lemma_plus_nothing(zero);
    lemma_times_zero(zero);
    if from < to {
        let lanes = Seq::new(
            8,
            |l: int|
                if l < to - from {
                    row[from + l].times_spec(row[from + l])
                } else {
                    A::zero_spec()
                },
        );
        assert forall|l: int| 0 <= l < 8 implies #[trigger] lanes[l] == zero by {
            if l < to - from {
                assert(row[from + l] == zero);
            }
        }
        assert(eight_summed(lanes) == zero);
    }
}

/// Which of two windows is the original does not matter for their similarity.
pub proof fn law_similarity_is_mutual<A: Amount>(o: Block<A>, r: Block<A>, x0: int, y0: int)
    requires
        exact::<A>(),
    ensures
        window_deficit(o, r, x0, y0) == window_deficit(r, o, x0, y0),
{
    let two = A::ratio_spec(2, 1);
    let (mo, mr) = (window_mean(o, x0, y0), window_mean(r, x0, y0));
    let (f, g) = (
        crate::ssim::product_step(o, mo, r, mr, x0, y0),
        crate::ssim::product_step(r, mr, o, mo, x0, y0),
    );
    let t = |i: int|
        window_sample(o, x0, y0, i).minus_spec(mo).times_spec(
            window_sample(r, x0, y0, i).minus_spec(mr),
        );
    assert forall|i: int, a: A| 0 <= i < 64 implies #[trigger] f(i, a) == a.plus_spec(t(i)) by {
        lemma_fuses(
            window_sample(o, x0, y0, i).minus_spec(mo),
            window_sample(r, x0, y0, i).minus_spec(mr),
            a,
        );
    }
    assert forall|i: int, a: A| 0 <= i < 64 implies #[trigger] g(i, a) == a.plus_spec(t(i)) by {
        let (p, q) = (
            window_sample(o, x0, y0, i).minus_spec(mo),
            window_sample(r, x0, y0, i).minus_spec(mr),
        );
        lemma_fuses(q, p, a);
        lemma_product_swaps(p, q);
    }
    law_lanes_hold_the_sum(f, t, 64);
    law_lanes_hold_the_sum(g, t, 64);
    assert(covariance_of(o, mo, r, mr, x0, y0) == covariance_of(r, mr, o, mo, x0, y0));
    lemma_product_regroups(two, mo, mr);
    lemma_product_regroups(two, mr, mo);
    lemma_product_swaps(mo, mr);
    lemma_sum_swaps(mo.times_spec(mo), mr.times_spec(mr));
    lemma_sum_swaps(
        covariance_of(o, mo, o, mo, x0, y0),
        covariance_of(r, mr, r, mr, x0, y0),
    );
}

/// Twice an amount is the amount and itself, and what is not nothing goes into itself once.
#[verifier::opaque]
pub open spec fn divides<A: Amount>() -> bool {
    &&& forall|a: A| #[trigger] A::ratio_spec(2, 1).times_spec(a) == a.plus_spec(a)
    &&& forall|a: A| a != A::zero_spec() ==> #[trigger] a.over_spec(a) == A::ratio_spec(1, 1)
    &&& forall|a: A| #[trigger] A::ratio_spec(1, 1).times_spec(a) == a
}

/// A window lacks nothing in similarity to itself.
pub proof fn law_windows_resemble_themselves<A: Amount>(o: Block<A>, x0: int, y0: int)
    requires
        exact::<A>(),
        divides::<A>(),
        ({
            let m = window_mean(o, x0, y0);
            let v = covariance_of(o, m, o, m, x0, y0);
            &&& m.times_spec(m).plus_spec(m.times_spec(m)).plus_spec(A::ratio_spec(1, 10000))
                != A::zero_spec()
            &&& v.plus_spec(v).plus_spec(A::ratio_spec(9, 10000)) != A::zero_spec()
        }),
    ensures
        window_deficit(o, o, x0, y0) == A::zero_spec(),
{
    reveal(divides);
    let one = A::ratio_spec(1, 1);
    let two = A::ratio_spec(2, 1);
    let m = window_mean(o, x0, y0);
    let v = covariance_of(o, m, o, m, x0, y0);
    lemma_product_regroups(two, m, m);
    assert(two.times_spec(m).times_spec(m) == m.times_spec(m).plus_spec(m.times_spec(m)));
    assert(two.times_spec(v) == v.plus_spec(v));
    assert(one.times_spec(one) == one);
    lemma_minus_itself(one);
    lemma_times_zero(A::ratio_spec(64, 1));
}

} // verus!
