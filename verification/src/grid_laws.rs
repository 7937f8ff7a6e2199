//! Sums over the samples of a grid: spread over lanes, taken row by row or column by
//! column, they are the same where arithmetic loses nothing.

use crate::amount::Amount;
use crate::lanes::{
    eight_summed, empty_lanes, four_groups, lanes_hold, lemma_row_folded_len, lemma_row_spread_len,
    lemma_rows_folded_len, lemma_rows_spread_len, row_folded, row_spread, rows_folded, rows_spread,
    two_groups,
};
use crate::sum_laws::{
    exact, law_sums_scale, lemma_distributes, lemma_plus_nothing, lemma_same_terms,
    lemma_sum_regroups, lemma_sum_swaps, lemma_times_zero, plain_sum,
};
use vstd::prelude::*;

verus! {

/// All of eight, sixteen or thirty-two lanes added up.
pub open spec fn lanes_total<A: Amount>(v: Seq<A>) -> A {
    if v.len() == 32 {
        eight_summed(four_groups(v))
    } else if v.len() == 16 {
        eight_summed(two_groups(v))
    } else {
        eight_summed(v)
    }
}

/// The lanes that can be added up.
pub open spec fn countable_lanes(n: int) -> bool {
    n == 8 || n == 16 || n == 32
}

/// In a ring the last of three summands can come before the second.
pub proof fn lemma_late_summand<A: Amount>(x: A, y: A, t: A)
    requires
        exact::<A>(),
    ensures
        x.plus_spec(t).plus_spec(y) == x.plus_spec(y).plus_spec(t),
        x.plus_spec(y.plus_spec(t)) == x.plus_spec(y).plus_spec(t),
{
    lemma_sum_regroups(x, y, t);
    lemma_sum_regroups(x, t, y);
    lemma_sum_swaps(t, y);
}

proof fn lemma_eighth_grows<A: Amount>(v: Seq<A>, l: int, t: A)
    requires
        exact::<A>(),
        v.len() == 8,
        0 <= l < 8,
    ensures
        eight_summed(v.update(l, v[l].plus_spec(t))) == eight_summed(v).plus_spec(t),
{
    let (a, b, c, d) = (
        v[0].plus_spec(v[4]),
        v[1].plus_spec(v[5]),
        v[2].plus_spec(v[6]),
        v[3].plus_spec(v[7]),
    );
    lemma_late_summand(v[0], v[4], t);
    lemma_late_summand(v[1], v[5], t);
    lemma_late_summand(v[2], v[6], t);
    lemma_late_summand(v[3], v[7], t);
    lemma_late_summand(a, b, t);
    lemma_late_summand(c, d, t);
    lemma_late_summand(a.plus_spec(b), c.plus_spec(d), t);
}

proof fn lemma_lanes_grow<A: Amount>(v: Seq<A>, l: int, t: A)
    requires
        exact::<A>(),
        countable_lanes(v.len() as int),
        0 <= l < v.len(),
    ensures
        lanes_total(v.update(l, v[l].plus_spec(t))) == lanes_total(v).plus_spec(t),
{
    let k = l % 8;
    let u = v.update(l, v[l].plus_spec(t));
    if v.len() == 32 {
        let g = four_groups(v);
        let (a, b) = (v[k].plus_spec(v[8 + k]), v[16 + k].plus_spec(v[24 + k]));
        lemma_late_summand(v[k], v[8 + k], t);
        lemma_late_summand(v[16 + k], v[24 + k], t);
        lemma_late_summand(a, b, t);
        assert(four_groups(u) =~= g.update(k, g[k].plus_spec(t)));
        lemma_eighth_grows(g, k, t);
    } else if v.len() == 16 {
        let g = two_groups(v);
        lemma_late_summand(v[k], v[8 + k], t);
        assert(two_groups(u) =~= g.update(k, g[k].plus_spec(t)));
        lemma_eighth_grows(g, k, t);
    } else {
        lemma_eighth_grows(v, l, t);
    }
}

proof fn lemma_empty_lanes<A: Amount>(n: int)
    requires
        exact::<A>(),
        countable_lanes(n),
    ensures
        lanes_total(empty_lanes::<A>(n)) == A::zero_spec(),
{
    let zero = A::zero_spec();
    lemma_plus_nothing(zero);
    assert(four_groups(empty_lanes::<A>(32)) =~= empty_lanes::<A>(8));
    assert(two_groups(empty_lanes::<A>(16)) =~= empty_lanes::<A>(8));
}

/// The terms of one row of a grid.
pub open spec fn row_terms<A>(term: spec_fn(int, int) -> A, y: int) -> spec_fn(int) -> A {
    |x: int| term(y, x)
}

/// The terms of one column of a grid.
pub open spec fn column_terms<A>(term: spec_fn(int, int) -> A, x: int) -> spec_fn(int) -> A {
    |y: int| term(y, x)
}

/// The terms of a grid turned over its diagonal.
pub open spec fn turned_terms<A>(term: spec_fn(int, int) -> A) -> spec_fn(int, int) -> A {
    |y: int, x: int| term(x, y)
}

/// The sum of the terms of a grid, row after row.
pub open spec fn grid_sum<A: Amount>(term: spec_fn(int, int) -> A, w: int, rows: int) -> A
    decreases rows,
{
    if rows <= 0 {
        A::zero_spec()
    } else {
        grid_sum(term, w, rows - 1).plus_spec(plain_sum(row_terms(term, rows - 1), w))
    }
}

/// Every step adds the term of its sample.
pub open spec fn adds_terms<A: Amount>(
    step: spec_fn(int, int, A) -> A,
    term: spec_fn(int, int) -> A,
    w: int,
    rows: int,
) -> bool {
    forall|y: int, x: int, a: A|
        0 <= y < rows && 0 <= x < w ==> #[trigger] step(y, x, a) == a.plus_spec(term(y, x))
}

proof fn lemma_row_folded<A: Amount>(
    start: Seq<A>,
    step: spec_fn(int, int, A) -> A,
    term: spec_fn(int, int) -> A,
    row: int,
    n: int,
    w: int,
    rows: int,
)
    requires
        exact::<A>(),
        countable_lanes(start.len() as int),
        adds_terms(step, term, w, rows),
        0 <= row < rows,
        0 <= n <= w,
    ensures
        lanes_total(row_folded(start, start.len() as int, step, row, n)) == lanes_total(
            start,
        ).plus_spec(plain_sum(row_terms(term, row), n)),
    decreases n,
{
    let lanes = start.len() as int;
    if n > 0 {
        lemma_row_folded(start, step, term, row, n - 1, w, rows);
        lemma_row_folded_len(start, lanes, step, row, n - 1);
        let before = row_folded(start, lanes, step, row, n - 1);
        let l = (n - 1) % lanes;
        assert(0 <= l < lanes) by (nonlinear_arith)
            requires
                l == (n - 1) % lanes,
                lanes > 0,
        ;
        let t = term(row, n - 1);
        assert(step(row, n - 1, before[l]) == before[l].plus_spec(t));
        lemma_lanes_grow(before, l, t);
        lemma_sum_regroups(
            lanes_total(start),
            plain_sum(row_terms(term, row), n - 1),
            t,
        );
        assert(row_terms(term, row)(n - 1) == t);
    } else {
        lemma_plus_nothing(lanes_total(start));
    }
}

/// Rows whose samples go to the lanes in turn: added up, the lanes hold what they held
/// before and the sum over the grid.
pub proof fn law_folded_rows_hold_the_sum<A: Amount>(
    start: Seq<A>,
    step: spec_fn(int, int, A) -> A,
    term: spec_fn(int, int) -> A,
    w: int,
    rows: int,
)
    requires
        exact::<A>(),
        countable_lanes(start.len() as int),
        adds_terms(step, term, w, rows),
        0 <= w,
        0 <= rows,
    ensures
        lanes_total(rows_folded(start, start.len() as int, step, w, rows)) == lanes_total(
            start,
        ).plus_spec(grid_sum(term, w, rows)),
        start == empty_lanes::<A>(start.len() as int) ==> lanes_total(
            rows_folded(start, start.len() as int, step, w, rows),
        ) == grid_sum(term, w, rows),
    decreases rows,
{
    let lanes = start.len() as int;
    if rows > 0 {
        assert(adds_terms(step, term, w, rows - 1));
        law_folded_rows_hold_the_sum(start, step, term, w, rows - 1);
        lemma_rows_folded_len(start, lanes, step, w, rows - 1);
        let before = rows_folded(start, lanes, step, w, rows - 1);
        lemma_row_folded(before, step, term, rows - 1, w, w, rows);
        lemma_sum_regroups(
            lanes_total(start),
            grid_sum(term, w, rows - 1),
            plain_sum(row_terms(term, rows - 1), w),
        );
    } else {
        lemma_plus_nothing(lanes_total(start));
    }
    if start == empty_lanes::<A>(lanes) {
        lemma_empty_lanes::<A>(lanes);
        lemma_plus_nothing(grid_sum(term, w, rows));
    }
}

proof fn lemma_row_spread<A: Amount>(
    start: Seq<A>,
    lane: spec_fn(int, int) -> int,
    step: spec_fn(int, int, A) -> A,
    term: spec_fn(int, int) -> A,
    row: int,
    n: int,
    w: int,
    rows: int,
)
    requires
        exact::<A>(),
        countable_lanes(start.len() as int),
        lanes_hold(lane, start.len() as int, w, rows),
        adds_terms(step, term, w, rows),
        0 <= row < rows,
        0 <= n <= w,
    ensures
        lanes_total(row_spread(start, lane, step, row, n)) == lanes_total(start).plus_spec(
            plain_sum(row_terms(term, row), n),
        ),
    decreases n,
{
    if n > 0 {
        lemma_row_spread(start, lane, step, term, row, n - 1, w, rows);
        lemma_row_spread_len(start, lane, step, row, n - 1, w, rows);
        let before = row_spread(start, lane, step, row, n - 1);
        let l = lane(row, n - 1);
        let t = term(row, n - 1);
        assert(step(row, n - 1, before[l]) == before[l].plus_spec(t));
        lemma_lanes_grow(before, l, t);
        lemma_sum_regroups(
            lanes_total(start),
            plain_sum(row_terms(term, row), n - 1),
            t,
        );
        assert(row_terms(term, row)(n - 1) == t);
    } else {
        lemma_plus_nothing(lanes_total(start));
    }
}

/// Rows whose samples are spread over lanes in any way: added up, the lanes hold what they
/// held before and the sum over the grid.
pub proof fn law_spread_rows_hold_the_sum<A: Amount>(
    start: Seq<A>,
    lane: spec_fn(int, int) -> int,
    step: spec_fn(int, int, A) -> A,
    term: spec_fn(int, int) -> A,
    w: int,
    rows: int,
)
    requires
        exact::<A>(),
        countable_lanes(start.len() as int),
        lanes_hold(lane, start.len() as int, w, rows),
        adds_terms(step, term, w, rows),
        0 <= w,
        0 <= rows,
    ensures
        lanes_total(rows_spread(start, lane, step, w, rows)) == lanes_total(start).plus_spec(
            grid_sum(term, w, rows),
        ),
        start == empty_lanes::<A>(start.len() as int) ==> lanes_total(
            rows_spread(start, lane, step, w, rows),
        ) == grid_sum(term, w, rows),
    decreases rows,
{
    let lanes = start.len() as int;
    if rows > 0 {
        assert(adds_terms(step, term, w, rows - 1));
        assert(lanes_hold(lane, lanes, w, rows - 1));
        law_spread_rows_hold_the_sum(start, lane, step, term, w, rows - 1);
        lemma_rows_spread_len(start, lane, step, w, rows - 1, rows);
        let before = rows_spread(start, lane, step, w, rows - 1);
        lemma_row_spread(before, lane, step, term, rows - 1, w, w, rows);
        lemma_sum_regroups(
            lanes_total(start),
            grid_sum(term, w, rows - 1),
            plain_sum(row_terms(term, rows - 1), w),
        );
    } else {
        lemma_plus_nothing(lanes_total(start));
    }
    if start == empty_lanes::<A>(lanes) {
        lemma_empty_lanes::<A>(lanes);
        lemma_plus_nothing(grid_sum(term, w, rows));
    }
}

/// Grids whose terms agree have the same sum.
pub proof fn lemma_same_grid<A: Amount>(
    f: spec_fn(int, int) -> A,
    g: spec_fn(int, int) -> A,
    w: int,
    rows: int,
)
    requires
        forall|y: int, x: int| 0 <= y < rows && 0 <= x < w ==> #[trigger] f(y, x) == g(y, x),
    ensures
        grid_sum(f, w, rows) == grid_sum(g, w, rows),
    decreases rows,
{
    if rows > 0 {
        lemma_same_grid(f, g, w, rows - 1);
        let (a, b) = (row_terms(f, rows - 1), row_terms(g, rows - 1));
        assert forall|x: int| 0 <= x < w implies #[trigger] a(x) == b(x) by {
            assert(f(rows - 1, x) == g(rows - 1, x));
        }
        lemma_same_terms(a, b, w);
    }
}

/// A grid of nothing has no sum.
pub proof fn lemma_nothing_sums<A: Amount>(f: spec_fn(int, int) -> A, w: int, rows: int)
    requires
        exact::<A>(),
        forall|y: int, x: int|
            0 <= y < rows && 0 <= x < w ==> #[trigger] f(y, x) == A::zero_spec(),
    ensures
        grid_sum(f, w, rows) == A::zero_spec(),
    decreases rows,
{
    let zero = A::zero_spec();
    lemma_plus_nothing(zero);
    if rows > 0 {
        lemma_nothing_sums(f, w, rows - 1);
        lemma_nothing_in_row(row_terms(f, rows - 1), w);
    }
}

proof fn lemma_nothing_in_row<A: Amount>(f: spec_fn(int) -> A, w: int)
    requires
        exact::<A>(),
        forall|x: int| 0 <= x < w ==> #[trigger] f(x) == A::zero_spec(),
    ensures
        plain_sum(f, w) == A::zero_spec(),
    decreases w,
{
    lemma_plus_nothing(A::zero_spec());
    if w > 0 {
        lemma_nothing_in_row(f, w - 1);
        assert(f(w - 1) == A::zero_spec());
    }
}

/// A factor that all terms of a grid share can be taken out of their sum.
pub proof fn law_grids_scale<A: Amount>(
    f: spec_fn(int, int) -> A,
    g: spec_fn(int, int) -> A,
    factor: A,
    w: int,
    rows: int,
)
    requires
        exact::<A>(),
        forall|y: int, x: int|
            0 <= y < rows && 0 <= x < w ==> #[trigger] g(y, x) == factor.times_spec(f(y, x)),
    ensures
        grid_sum(g, w, rows) == factor.times_spec(grid_sum(f, w, rows)),
    decreases rows,
{
    if rows > 0 {
        law_grids_scale(f, g, factor, w, rows - 1);
        let (a, b) = (row_terms(f, rows - 1), row_terms(g, rows - 1));
        assert forall|x: int| 0 <= x < w implies #[trigger] b(x) == factor.times_spec(a(x)) by {
            assert(g(rows - 1, x) == factor.times_spec(f(rows - 1, x)));
        }
        law_sums_scale(a, b, factor, w);
        lemma_distributes(factor, grid_sum(f, w, rows - 1), plain_sum(a, w));
    } else {
        lemma_times_zero(factor);
    }
}

proof fn lemma_last_column<A: Amount>(f: spec_fn(int, int) -> A, w: int, rows: int)
    requires
        exact::<A>(),
        0 < w,
    ensures
        grid_sum(f, w, rows) == grid_sum(f, w - 1, rows).plus_spec(
            plain_sum(column_terms(f, w - 1), rows),
        ),
    decreases rows,
{
    if rows > 0 {
        lemma_last_column(f, w, rows - 1);
        let t = f(rows - 1, w - 1);
        let g = grid_sum(f, w - 1, rows - 1);
        let c = plain_sum(column_terms(f, w - 1), rows - 1);
        let r = plain_sum(row_terms(f, rows - 1), w - 1);
        assert(column_terms(f, w - 1)(rows - 1) == t);
        assert(row_terms(f, rows - 1)(w - 1) == t);
        assert(grid_sum(f, w, rows) == g.plus_spec(c).plus_spec(r.plus_spec(t)));
        assert(grid_sum(f, w - 1, rows) == g.plus_spec(r));
        lemma_sum_regroups(g.plus_spec(c), r, t);
        lemma_late_summand(g, r, c);
        lemma_sum_regroups(g.plus_spec(r), c, t);
    } else {
        lemma_plus_nothing(A::zero_spec());
    }
}

proof fn lemma_no_columns<A: Amount>(f: spec_fn(int, int) -> A, rows: int)
    requires
        exact::<A>(),
    ensures
        grid_sum(f, 0, rows) == A::zero_spec(),
    decreases rows,
{
    lemma_plus_nothing(A::zero_spec());
    if rows > 0 {
        lemma_no_columns(f, rows - 1);
    }
}

/// The sum over a grid is the same row by row and column by column.
pub proof fn law_grids_sum_either_way<A: Amount>(f: spec_fn(int, int) -> A, w: int, rows: int)
    requires
        exact::<A>(),
        0 <= w,
        0 <= rows,
    ensures
        grid_sum(turned_terms(f), rows, w) == grid_sum(f, w, rows),
    decreases rows,
{
    let t = turned_terms(f);
    if rows > 0 {
        law_grids_sum_either_way(f, w, rows - 1);
        lemma_last_column(t, rows, w);
        let (a, b) = (column_terms(t, rows - 1), row_terms(f, rows - 1));
        assert forall|x: int| 0 <= x < w implies #[trigger] a(x) == b(x) by {}
        lemma_same_terms(a, b, w);
    } else {
        lemma_no_columns(t, w);
    }
}

/// The sum over a grid whose terms are sums is the sum of the sums over both.
pub proof fn law_grid_sums_add<A: Amount>(
    f: spec_fn(int, int) -> A,
    g: spec_fn(int, int) -> A,
    h: spec_fn(int, int) -> A,
    w: int,
    rows: int,
)
    requires
        exact::<A>(),
        forall|y: int, x: int|
            0 <= y < rows && 0 <= x < w ==> #[trigger] h(y, x) == f(y, x).plus_spec(g(y, x)),
    ensures
        grid_sum(h, w, rows) == grid_sum(f, w, rows).plus_spec(grid_sum(g, w, rows)),
    decreases rows,
{
    if rows > 0 {
        law_grid_sums_add(f, g, h, w, rows - 1);
        let (a, b, c) = (
            row_terms(f, rows - 1),
            row_terms(g, rows - 1),
            row_terms(h, rows - 1),
        );
        assert forall|x: int| 0 <= x < w implies #[trigger] c(x) == a(x).plus_spec(b(x)) by {
            assert(h(rows - 1, x) == f(rows - 1, x).plus_spec(g(rows - 1, x)));
        }
        lemma_sums_add(a, b, c, w);
        lemma_crosswise(
            grid_sum(f, w, rows - 1),
            grid_sum(g, w, rows - 1),
            plain_sum(a, w),
            plain_sum(b, w),
        );
    } else {
        lemma_plus_nothing(A::zero_spec());
    }
}

proof fn lemma_crosswise<A: Amount>(a: A, b: A, c: A, d: A)
    requires
        exact::<A>(),
    ensures
        a.plus_spec(b).plus_spec(c.plus_spec(d)) == a.plus_spec(c).plus_spec(b.plus_spec(d)),
{
    lemma_sum_regroups(a.plus_spec(b), c, d);
    lemma_late_summand(a, c, b);
    lemma_sum_regroups(a.plus_spec(c), b, d);
}

proof fn lemma_sums_add<A: Amount>(
    f: spec_fn(int) -> A,
    g: spec_fn(int) -> A,
    h: spec_fn(int) -> A,
    n: int,
)
    requires
        exact::<A>(),
        forall|x: int| 0 <= x < n ==> #[trigger] h(x) == f(x).plus_spec(g(x)),
    ensures
        plain_sum(h, n) == plain_sum(f, n).plus_spec(plain_sum(g, n)),
    decreases n,
{
    if n > 0 {
        lemma_sums_add(f, g, h, n - 1);
        assert(h(n - 1) == f(n - 1).plus_spec(g(n - 1)));
        lemma_crosswise(plain_sum(f, n - 1), plain_sum(g, n - 1), f(n - 1), g(n - 1));
    } else {
        lemma_plus_nothing(A::zero_spec());
    }
}

} // verus!
