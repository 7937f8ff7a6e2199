//! What the statistics of planes, regions and seams respond to.

use crate::adaptive_quant::magnitude_spec;
use crate::amount::{clamped_spec, floor_root, Amount, Fixed, FIXED_ONE};
use crate::fast_math::log2_estimate;
use crate::fixed_laws::{lemma_floor_root, lemma_products_grow, lemma_times_keeps_order};
use crate::lanes::{
    eight_summed, empty_lanes, folded, four_groups, in_turn, row_folded, rows_folded, two_groups,
};
use crate::opsin::{edge_sample, Planes};
use crate::plane_stats::{
    blue_risk, chroma_b_step, chroma_x_step, fourth_rows, halved, laplacian_step, laplacian_sum_of,
    structure_of, symbol_step, BlueScale,
};
use crate::region_stats::{
    cell_chroma, cell_mean, cell_squares, cell_sum, cell_variance, deviations, finished,
    seam_excess, seam_floor, seams_across, sum_of, upright_seam, level_seam, with_excess, SeamSums,
    SeamView,
};
use crate::small_transform::Block;
use crate::transform::sized;
use vstd::prelude::*;

verus! {

/// An amount of ordinary size.
pub open spec fn mild(v: Fixed) -> bool {
    -0x1_0000_0000 <= v.raw <= 0x1_0000_0000
}

/// Halving a plane keeps it between its smallest and its largest sample; each sample of the
/// result is the mean of the four it stands for.
pub proof fn law_halving_takes_means(g: Block<Fixed>, w: int, h: int, lo: int, hi: int, x: int, y: int)
    requires
        0 <= x < w / 2,
        0 <= y < h / 2,
        -0x1_0000_0000 <= lo <= hi <= 0x1_0000_0000,
        sized(g, w, h),
        forall|j: int, i: int|
            2 * y <= j <= 2 * y + 1 && 2 * x <= i <= 2 * x + 1 ==> lo <= (#[trigger] g[j][i]).raw
                <= hi,
    ensures
        lo <= halved(g, w, h)[y][x].raw <= hi,
        ({
            let sum = g[2 * y][2 * x].raw + g[2 * y][2 * x + 1].raw + g[2 * y + 1][2 * x].raw + g[2
                * y + 1][2 * x + 1].raw;
            -3 <= 4 * halved(g, w, h)[y][x].raw - sum <= 3
        }),
{
    assert(Fixed::ratio_spec(1, 4).raw == 16384);
    assert(lo <= g[2 * y][2 * x].raw <= hi);
    assert(lo <= g[2 * y][2 * x + 1].raw <= hi);
    assert(lo <= g[2 * y + 1][2 * x].raw <= hi);
    assert(lo <= g[2 * y + 1][2 * x + 1].raw <= hi);
}

proof fn lemma_row_untouched<A: Amount>(
    start: Seq<A>,
    lanes: int,
    step: spec_fn(int, int, A) -> A,
    row: int,
    n: int,
    w: int,
    rows: int,
)
    requires
        start.len() == lanes,
        lanes > 0,
        0 <= row < rows,
        n <= w,
        forall|y: int, x: int, a: A|
            0 <= y < rows && 0 <= x < w ==> #[trigger] step(y, x, a) == a,
    ensures
        row_folded(start, lanes, step, row, n) == start,
    decreases n,
{
    if n > 0 {
        lemma_row_untouched(start, lanes, step, row, n - 1, w, rows);
        let l = (n - 1) % lanes;
        assert(0 <= l < lanes) by (nonlinear_arith)
            requires
                l == (n - 1) % lanes,
                lanes > 0,
        ;
        assert(step(row, n - 1, start[l]) == start[l]);
        assert(start.update(l, start[l]) =~= start);
    }
}

proof fn lemma_rows_untouched<A: Amount>(
    start: Seq<A>,
    lanes: int,
    step: spec_fn(int, int, A) -> A,
    w: int,
    rows: int,
)
    requires
        start.len() == lanes,
        lanes > 0,
        forall|y: int, x: int, a: A|
            0 <= y < rows && 0 <= x < w ==> #[trigger] step(y, x, a) == a,
    ensures
        rows_folded(start, lanes, step, w, rows) == start,
    decreases rows,
{
    if rows > 0 {
        lemma_rows_untouched(start, lanes, step, w, rows - 1);
        lemma_row_untouched(start, lanes, step, rows - 1, w, w, rows);
    }
}

proof fn lemma_empty_sums()
    ensures
        eight_summed(empty_lanes::<Fixed>(8)).raw == 0,
        eight_summed(four_groups(empty_lanes::<Fixed>(32))).raw == 0,
        eight_summed(two_groups(empty_lanes::<Fixed>(16))).raw == 0,
{
    assert(four_groups(empty_lanes::<Fixed>(32)) =~= empty_lanes::<Fixed>(8));
    assert(two_groups(empty_lanes::<Fixed>(16)) =~= empty_lanes::<Fixed>(8));
}

/// A plane that rises evenly has no curvature anywhere.
pub proof fn law_even_slopes_have_no_curvature(g: Block<Fixed>, w: int, h: int, a: int, b: int, c: int)
    requires
        sized(g, w, h),
        0 <= w <= 64,
        0 <= h <= 64,
        -0x100_0000 <= a <= 0x100_0000,
        -0x100_0000 <= b <= 0x100_0000,
        -0x1_0000_0000 <= c <= 0x1_0000_0000,
        forall|y: int, x: int|
            0 <= y < h && 0 <= x < w ==> (#[trigger] g[y][x]).raw == a * y + b * x + c,
    ensures
        laplacian_sum_of(g, w, h).raw == 0,
{
    let f = laplacian_step(g);
    let none = empty_lanes::<Fixed>(32);
    assert(Fixed::ratio_spec(4, 1).raw == 262144);
    assert forall|y: int, x: int, s: Fixed| 0 <= y < h - 2 && 0 <= x < w - 2 implies #[trigger] f(
        y,
        x,
        s,
    ) == s by {
        let m = g[y + 1][x + 1].raw as int;
        assert(m == a * (y + 1) + b * (x + 1) + c);
        assert(g[y][x + 1].raw == m - a) by {
            assert(a * (y + 1) == a * y + a) by (nonlinear_arith);
        }
        assert(g[y + 2][x + 1].raw == m + a) by {
            assert(a * (y + 2) == a * (y + 1) + a) by (nonlinear_arith);
        }
        assert(g[y + 1][x].raw == m - b) by {
            assert(b * (x + 1) == b * x + b) by (nonlinear_arith);
        }
        assert(g[y + 1][x + 2].raw == m + b) by {
            assert(b * (x + 2) == b * (x + 1) + b) by (nonlinear_arith);
        }
        assert(-0x2_0000_0000 <= m <= 0x2_0000_0000) by (nonlinear_arith)
            requires
                m == a * (y + 1) + b * (x + 1) + c,
                -0x100_0000 <= a <= 0x100_0000,
                -0x100_0000 <= b <= 0x100_0000,
                -0x1_0000_0000 <= c <= 0x1_0000_0000,
                0 <= y <= 62,
                0 <= x <= 62,
        ;
        assert(g[y + 1][x + 1].times_spec(Fixed::ratio_spec(4, 1)).raw == 4 * m);
    }
    lemma_rows_untouched(none, 32, f, w - 2, h - 2);
    lemma_empty_sums();
}

/// A plane without curvature has no structure.
pub proof fn law_no_structure_without_curvature(g: Block<Fixed>, w: int, h: int)
    requires
        6 <= w <= 64,
        6 <= h <= 64,
        laplacian_sum_of(g, w, h).raw == 0,
    ensures
        structure_of(g, w, h).1.raw == 0,
{
    let n = (h - 2) * (w - 2);
    assert(16 <= n <= 4096) by (nonlinear_arith)
        requires
            n == (h - 2) * (w - 2),
            6 <= w <= 64,
            6 <= h <= 64,
    ;
    assert(Fixed::ratio_spec(n as i64, 1).raw == n * 65536);
    let full = laplacian_sum_of(g, w, h).over_spec(Fixed::ratio_spec(n as i64, 1));
    let d = n * 65536;
    assert(0int / d == 0) by (nonlinear_arith)
        requires
            d > 0,
    ;
    assert(full.raw == 0);
    let half = laplacian_sum_of(halved(g, w, h), w / 2, h / 2).over_spec(
        Fixed::ratio_spec(((h / 2 - 2) * (w / 2 - 2)) as i64, 1),
    );
    let z = half.raw as int;
    assert(0 * z == 0);
    assert(full.times_spec(half).raw == 0);
    lemma_floor_root(0, 0);
    let r = floor_root(0);
    assert(r == 0) by (nonlinear_arith)
        requires
            0 <= r,
            r * r <= 0,
    ;
}

/// Along rows that do not change, chroma takes no steps; the third plane takes none where
/// it keeps its distance from luma.
pub proof fn law_chroma_steps_are_changes(b: Block<Fixed>, l: Block<Fixed>, w: int, h: int, c: spec_fn(int) -> int)
    requires
        2 <= w,
        1 <= h,
        sized(b, w, h),
        sized(l, w, h),
        forall|y: int, x: int| 0 <= y < h && 0 <= x < w ==> mild(#[trigger] b[y][x]),
        forall|y: int, x: int| 0 <= y < h && 0 <= x < w ==> mild(#[trigger] l[y][x]),
    ensures
        (forall|y: int, x: int| 0 <= y < h && 0 <= x < w ==> (#[trigger] b[y][x]).raw == c(y))
            ==> fourth_rows(chroma_x_step(b), w, h).raw == 0,
        (forall|y: int, x: int|
            0 <= y < h && 0 <= x < w ==> (#[trigger] b[y][x]).raw == l[y][x].raw + c(y))
            ==> fourth_rows(chroma_b_step(b, l), w, h).raw == 0,
{
    let none = empty_lanes::<Fixed>(8);
    let n = (h + 3) / 4;
    lemma_empty_sums();
    if forall|y: int, x: int| 0 <= y < h && 0 <= x < w ==> (#[trigger] b[y][x]).raw == c(y) {
        let f = chroma_x_step(b);
        assert forall|y: int, x: int, s: Fixed| 0 <= y < n && 0 <= x < w - 1 implies #[trigger] f(
            y,
            x,
            s,
        ) == s by {
            assert(b[4 * y][x + 1].raw == c(4 * y));
            assert(b[4 * y][x].raw == c(4 * y));
        }
        lemma_rows_untouched(none, 8, f, w - 1, n);
    }
    if forall|y: int, x: int|
        0 <= y < h && 0 <= x < w ==> (#[trigger] b[y][x]).raw == l[y][x].raw + c(y) {
        let f = chroma_b_step(b, l);
        assert forall|y: int, x: int, s: Fixed| 0 <= y < n && 0 <= x < w - 1 implies #[trigger] f(
            y,
            x,
            s,
        ) == s by {
            assert(b[4 * y][x + 1].raw == l[4 * y][x + 1].raw + c(4 * y));
            assert(b[4 * y][x].raw == l[4 * y][x].raw + c(4 * y));
            assert(mild(b[4 * y][x]) && mild(b[4 * y][x + 1]));
            assert(mild(l[4 * y][x]) && mild(l[4 * y][x + 1]));
        }
        lemma_rows_untouched(none, 8, f, w - 1, n);
    }
}

/// Symbols of one kind cost nothing.
pub proof fn law_one_kind_of_symbol_is_free(counts: Seq<u32>, total: u32)
    requires
        total > 0,
        forall|i: int| 0 <= i < counts.len() ==> (#[trigger] counts[i]) == 0 || counts[i] == total,
    ensures
        eight_summed(
            two_groups(
                folded(
                    16,
                    in_turn(16),
                    symbol_step(
                        counts,
                        log2_estimate(Fixed::ratio_spec(total as i64, 1)),
                    ),
                    counts.len() as int,
                ),
            ),
        ).raw == 0,
{
    let log = log2_estimate(Fixed::ratio_spec(total as i64, 1));
    lemma_free(counts, total, log, counts.len() as int);
    lemma_empty_sums();
}

proof fn lemma_free(counts: Seq<u32>, total: u32, log: Fixed, n: int)
    requires
        total > 0,
        0 <= n <= counts.len(),
        log == log2_estimate(Fixed::ratio_spec(total as i64, 1)),
        forall|i: int| 0 <= i < counts.len() ==> (#[trigger] counts[i]) == 0 || counts[i] == total,
    ensures
        folded(16, in_turn(16), symbol_step(counts, log), n) == empty_lanes::<Fixed>(16),
    decreases n,
{
    if n > 0 {
        lemma_free(counts, total, log, n - 1);
        let none = empty_lanes::<Fixed>(16);
        let l = (n - 1) % 16;
        let c = counts[n - 1];
        let times = Fixed::ratio_spec(c as i64, 1);
        assert(times.raw == c * 65536);
        assert(Fixed::ratio_spec(1, 1).raw == 65536);
        let bits = log.minus_spec(
            log2_estimate(times.greater_spec(Fixed::ratio_spec(1, 1))),
        );
        if c == total {
            assert(times.greater_spec(Fixed::ratio_spec(1, 1)) == times);
            assert(bits.raw == 0);
        }
        let (p, q) = (times.raw as int, bits.raw as int);
        assert(p == 0 || q == 0 ==> p * q == 0) by (nonlinear_arith);
        assert(none.update(l, none[l]) =~= none);
    }
}

/// Blue is a risk between nothing and one, the larger the more it exceeds the rest of a
/// sample.
pub proof fn law_blue_risk_grows_with_the_excess(
    v: Planes<Fixed>,
    u: Planes<Fixed>,
    s: BlueScale<Fixed>,
    x: int,
    y: int,
)
    requires
        0 <= s.inv_full.raw,
        mild(s.offset),
        mild(v[0][y][x]),
        mild(v[1][y][x]),
        mild(v[2][y][x]),
        mild(u[2][y][x]),
        u[0][y][x] == v[0][y][x],
        u[1][y][x] == v[1][y][x],
        v[2][y][x].raw <= u[2][y][x].raw,
    ensures
        0 <= blue_risk(v, s, x, y).raw <= blue_risk(u, s, x, y).raw <= FIXED_ONE,
        v[2][y][x].raw <= v[1][y][x].raw && 0 <= s.offset.raw ==> blue_risk(v, s, x, y).raw == 0,
{
    assert(Fixed::ratio_spec(1, 1).raw == 65536);
    let rest = magnitude_spec(v[0][y][x]).plus_spec(s.offset);
    let a = v[2][y][x].minus_spec(v[1][y][x]).minus_spec(rest);
    let b = u[2][y][x].minus_spec(u[1][y][x]).minus_spec(rest);
    assert(a.raw <= b.raw);
    lemma_times_keeps_order(a, b, s.inv_full);
    let (n, m) = (a.raw as int, s.inv_full.raw as int);
    assert(n <= 0 ==> n * m <= 0) by (nonlinear_arith)
        requires
            0 <= m,
    ;
}

proof fn lemma_flat_cell(v: Planes<Fixed>, w: int, h: int, x: int, y: int, c: Fixed, n: int)
    requires
        0 <= n <= 16,
        mild(c),
        forall|i: int, j: int|
            0 <= i < 4 && 0 <= j < 4 ==> #[trigger] edge_sample(v, w, h, 1, x + i, y + j) == c,
    ensures
        cell_sum(v, w, h, x, y, n).raw == n * c.raw,
        cell_squares(v, w, h, x, y, n).raw == n * ((c.raw * c.raw) / 65536),
    decreases n,
{
    let k = c.raw as int;
    assert(0 <= k * k <= 0x1_0000_0000 * 0x1_0000_0000) by (nonlinear_arith)
        requires
            -0x1_0000_0000 <= k <= 0x1_0000_0000,
    ;
    if n > 0 {
        lemma_flat_cell(v, w, h, x, y, c, n - 1);
        assert(edge_sample(v, w, h, 1, x + (n - 1) % 4, y + (n - 1) / 4) == c);
        let q = (k * k) / 65536;
        assert((n - 1) * q + q == n * q) by (nonlinear_arith);
        assert((n - 1) * k + k == n * k) by (nonlinear_arith);
        assert(0 <= (n - 1) * q <= 16 * q) by (nonlinear_arith)
            requires
                1 <= n <= 16,
                0 <= q,
        ;
        assert(-16 * 0x1_0000_0000 <= (n - 1) * k <= 16 * 0x1_0000_0000) by (nonlinear_arith)
            requires
                1 <= n <= 16,
                -0x1_0000_0000 <= k <= 0x1_0000_0000,
        ;
    }
}

/// A flat cell has its own level as its mean, and no variance.
pub proof fn law_flat_cells_do_not_vary(v: Planes<Fixed>, w: int, h: int, x: int, y: int, c: Fixed)
    requires
        mild(c),
        forall|i: int, j: int|
            0 <= i < 4 && 0 <= j < 4 ==> #[trigger] edge_sample(v, w, h, 1, x + i, y + j) == c,
    ensures
        cell_mean(v, w, h, x, y) == c,
        cell_variance(v, w, h, x, y).raw == 0,
{
    lemma_flat_cell(v, w, h, x, y, c, 16);
    assert(Fixed::ratio_spec(1, 16).raw == 4096);
    let k = c.raw as int;
    assert(0 <= k * k <= 0x1_0000_0000 * 0x1_0000_0000) by (nonlinear_arith)
        requires
            -0x1_0000_0000 <= k <= 0x1_0000_0000,
    ;
}

/// Grey cells have no chroma, and no cell has less than none.
pub proof fn law_grey_has_no_chroma(start: Fixed, v: Planes<Fixed>, w: int, h: int, x: int, y: int, n: int)
    requires
        0 <= n <= 16,
    ensures
        start.raw <= cell_chroma(start, v, w, h, x, y, n).raw,
        (forall|i: int, j: int|
            0 <= i < 4 && 0 <= j < 4 ==> (#[trigger] edge_sample(v, w, h, 0, x + i, y + j)).raw == 0
                && edge_sample(v, w, h, 2, x + i, y + j) == edge_sample(v, w, h, 1, x + i, y + j))
            ==> cell_chroma(start, v, w, h, x, y, n) == start,
    decreases n,
{
    if n > 0 {
        law_grey_has_no_chroma(start, v, w, h, x, y, n - 1);
        let (i, j) = ((n - 1) % 4, (n - 1) / 4);
        let s = edge_sample(v, w, h, 0, x + i, y + j);
        let d = edge_sample(v, w, h, 2, x + i, y + j).minus_spec(
            edge_sample(v, w, h, 1, x + i, y + j),
        );
        assert(magnitude_spec(s).raw >= 0 && magnitude_spec(d).raw >= 0);
    }
}

proof fn lemma_deviations(s: Seq<Fixed>, mean: Fixed, n: int)
    requires
        0 <= n <= s.len() <= 256,
    ensures
        0 <= deviations(s, mean, n).raw,
        (forall|i: int| 0 <= i < s.len() ==> #[trigger] s[i] == mean) ==> deviations(
            s,
            mean,
            n,
        ).raw == 0,
    decreases n,
{
    if n > 0 {
        lemma_deviations(s, mean, n - 1);
        let d = s[n - 1].minus_spec(mean);
        let k = d.raw as int;
        assert(0 <= k * k && (k == 0 ==> k * k == 0)) by (nonlinear_arith);
    }
}

/// The share of the slow changes in all changes of a region lies between nothing and one.
pub proof fn law_dominance_is_a_share(
    means: Seq<Fixed>,
    within: Fixed,
    chroma: Fixed,
    pixels: int,
    eps: Fixed,
)
    requires
        0 < means.len() <= 256,
        0 <= within.raw,
        0 < eps.raw <= 0x1_0000_0000,
    ensures
        0 <= finished(means, within, chroma, pixels, eps).dominance.raw <= FIXED_ONE,
{
    let len = means.len() as int;
    let n = Fixed::ratio_spec(len as i64, 1);
    assert(n.raw == len * 65536);
    let w = within.over_spec(n);
    let grand = sum_of(means, len).over_spec(n);
    lemma_deviations(means, grand, len);
    let spread = deviations(means, grand, len);
    let lf = spread.over_spec(n);
    let (a, b, d) = (spread.raw as int, within.raw as int, len * 65536);
    assert(0 <= (a * 65536) / d <= a && 0 <= (b * 65536) / d) by (nonlinear_arith)
        requires
            0 <= a,
            0 <= b,
            d >= 65536,
    ;
    assert(0 <= lf.raw && 0 <= w.raw);
    let whole = lf.plus_spec(w).plus_spec(eps);
    assert(0 < whole.raw && lf.raw <= whole.raw);
    let (p, q) = (lf.raw as int, whole.raw as int);
    assert(0 <= (p * 65536) / q <= 65536) by (nonlinear_arith)
        requires
            0 <= p <= q,
            0 < q,
    ;
}

/// A jump in the error counts only beyond what the source hides: it does not where there
/// is no jump or the source jumps twice as much; it counts the same from either side.
pub proof fn law_seams_count_what_the_source_does_not_hide(
    a: Fixed,
    b: Fixed,
    c: Fixed,
    s: Fixed,
    t: Fixed,
    floor: Fixed,
)
    requires
        mild(a),
        mild(b),
        mild(c),
        mild(s),
        mild(t),
        0 <= floor.raw <= 0x1_0000_0000,
    ensures
        seam_excess(a, a, s, t, floor).raw == 0,
        seam_excess(a, b, s, t, floor) == seam_excess(b, a, t, s, floor),
        2 * magnitude_spec(b.minus_spec(a)).raw <= magnitude_spec(t.minus_spec(s)).raw ==> seam_excess(
            a,
            b,
            s,
            t,
            floor,
        ).raw == 0,
        0 <= seam_excess(a, b, s, t, floor).raw <= magnitude_spec(b.minus_spec(a)).raw,
        magnitude_spec(b.minus_spec(a)).raw <= magnitude_spec(c.minus_spec(a)).raw ==> seam_excess(
            a,
            b,
            s,
            t,
            floor,
        ).raw <= seam_excess(a, c, s, t, floor).raw,
        s == t && floor.raw == 0 ==> seam_excess(a, b, s, t, floor) == magnitude_spec(
            b.minus_spec(a),
        ),
        ({
            let beyond = 2 * magnitude_spec(b.minus_spec(a)).raw - magnitude_spec(
                t.minus_spec(s),
            ).raw - 2 * floor.raw;
            beyond >= 0 ==> beyond <= 2 * seam_excess(a, b, s, t, floor).raw <= beyond + 1
        }),
{
    assert(Fixed::ratio_spec(1, 2).raw == 32768);
}

/// Another seam never lowers the energy or the peak of those before it, and one without
/// excess changes neither.
pub proof fn law_seams_add_up(s: SeamSums<Fixed>, excess: Fixed, weight: Fixed)
    requires
        0 <= excess.raw <= 0x1_0000_0000,
        0 <= weight.raw <= 0x1_0000_0000,
    ensures
        s.channel.raw <= with_excess(s, excess, weight).channel.raw,
        s.peak.raw <= with_excess(s, excess, weight).peak.raw,
        weight.times_spec(excess).times_spec(excess).raw <= with_excess(s, excess, weight).peak.raw,
        excess.raw == 0 && 0 <= s.peak.raw ==> with_excess(s, excess, weight) == s,
{
    let (e, k) = (excess.raw as int, weight.raw as int);
    assert(0 <= e * e && (e == 0 ==> e * e == 0 && k * e == 0)) by (nonlinear_arith)
        requires
            0 <= e,
    ;
}

/// Where the error does not jump across a seam, the seam adds nothing.
pub proof fn law_even_errors_have_no_seams(
    s: SeamSums<Fixed>,
    e: SeamView<Fixed>,
    width: int,
    height: int,
    k: int,
    n: int,
)
    requires
        0 <= s.peak.raw,
        0 <= e.weight.raw <= 0x1_0000_0000,
        0 <= e.floor.raw <= 0x1_0000_0000,
        0 <= n,
        1 <= k,
        sized(e.error, width, height),
        forall|y: int, x: int| mild(#[trigger] edge_sample(e.v, e.w, e.h, e.c, x, y)),
        forall|y: int, x: int|
            0 <= y < height && 0 <= x < width ==> mild(#[trigger] e.error[y][x]),
    ensures
        k < width && n <= height && (forall|y: int|
            0 <= y < n ==> #[trigger] e.error[y][k - 1] == e.error[y][k]) ==> upright_seam(
            s,
            e,
            k,
            n,
        ) == s,
        k < height && n <= width && (forall|x: int|
            0 <= x < n ==> #[trigger] e.error[k - 1][x] == e.error[k][x]) ==> level_seam(s, e, k, n)
            == s,
    decreases n,
{
    if n > 0 {
        law_even_errors_have_no_seams(s, e, width, height, k, n - 1);
        let i = n - 1;
        if k < width && n <= height && (forall|y: int|
            0 <= y < n ==> #[trigger] e.error[y][k - 1] == e.error[y][k]) {
            assert(e.error[i][k - 1] == e.error[i][k]);
            let (p, q) = (
                edge_sample(e.v, e.w, e.h, e.c, e.px + k - 1, e.py + i),
                edge_sample(e.v, e.w, e.h, e.c, e.px + k, e.py + i),
            );
            let a = e.error[i][k - 1];
            law_seams_count_what_the_source_does_not_hide(a, a, a, p, q, e.floor);
            law_seams_add_up(s, Fixed { raw: 0 }, e.weight);
        }
        if k < height && n <= width && (forall|x: int|
            0 <= x < n ==> #[trigger] e.error[k - 1][x] == e.error[k][x]) {
            assert(e.error[k - 1][i] == e.error[k][i]);
            let (p, q) = (
                edge_sample(e.v, e.w, e.h, e.c, e.px + i, e.py + k - 1),
                edge_sample(e.v, e.w, e.h, e.c, e.px + i, e.py + k),
            );
            let a = e.error[k - 1][i];
            law_seams_count_what_the_source_does_not_hide(a, a, a, p, q, e.floor);
            law_seams_add_up(s, Fixed { raw: 0 }, e.weight);
        }
    }
}

/// The seams of a footprint are those between its blocks: as many as there are multiples
/// of eight inside it.
pub proof fn law_seams_lie_between_blocks(n: int, k: int)
    requires
        0 <= n,
    ensures
        1 <= k <= seams_across(n) <==> 0 < 8 * k < n,
{
}

/// The floor of a jump grows with the distance, from fifteen to forty-five parts in ten
/// thousand of it.
pub proof fn law_seam_floor_grows(near: Fixed, far: Fixed)
    requires
        0 <= near.raw <= far.raw <= 0x1_0000_0000,
    ensures
        0 <= seam_floor(near).raw <= seam_floor(far).raw,
        seam_floor(far).raw * 10000 <= 45 * far.raw,
        near.raw <= Fixed::ratio_spec(19, 10).raw ==> seam_floor(near) == near.times_spec(
            Fixed::ratio_spec(15, 10000),
        ),
{
    let (lo, hi) = (Fixed::ratio_spec(15, 10000), Fixed::ratio_spec(45, 10000));
    assert(lo.raw == 98);
    assert(hi.raw == 294);
    assert(Fixed::ratio_spec(1, 1).raw == 65536);
    assert(Fixed::ratio_spec(19, 10).raw == 124518);
    assert(Fixed::ratio_spec(1, 10).raw == 6553);
    let way = |d: Fixed|
        clamped_spec(
            d.minus_spec(Fixed::ratio_spec(19, 10)).over_spec(Fixed::ratio_spec(1, 10)),
            Fixed::zero_spec(),
            Fixed::ratio_spec(1, 1),
        );
    assert(0 <= way(near).raw <= way(far).raw <= 65536);
    assert(near.raw <= 124518 ==> way(near).raw == 0);
    let rise = hi.minus_spec(lo);
    assert(rise.raw == 196);
    let (a, b) = (way(near).fused_spec(rise, lo), way(far).fused_spec(rise, lo));
    assert(98 <= a.raw <= b.raw <= 294);
    lemma_products_grow(near, far, a, b);
    let (d, f) = (far.raw as int, b.raw as int);
    assert(0 <= d * f <= d * 294) by (nonlinear_arith)
        requires
            0 <= d,
            0 <= f <= 294,
    ;
}

} // verus!
