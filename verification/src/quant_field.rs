//! The field of quantizers, one byte per block.

use crate::amount::{clamped, clamped_spec, Amount};
use crate::strategy::{covered_blocks_x_of, covered_blocks_y_of, covered_x, covered_y};
use crate::rerank_band::{lemma_firsts, lemma_row_firsts};
use crate::strategy_map::{
    firsts, firsts_in_row, fits_in, in_footprint, in_window, AcStrategyImage, Layout, Placement,
};
use crate::tiling::{covers, disjoint, in_bounds, tiled};
use vstd::prelude::*;

verus! {

/// Quantizers by row and column.
pub type Field = Seq<Seq<u8>>;

/// A field is `w` blocks wide and `h` blocks tall.
pub open spec fn field_shape(f: Field, w: int, h: int) -> bool {
    f.len() == h && forall|y: int| 0 <= y < h ==> (#[trigger] f[y]).len() == w
}

/// The field with the `cx x cy` window at `(bx, by)` set to `q`.
pub open spec fn with_window(f: Field, bx: int, by: int, cx: int, cy: int, q: u8) -> Field {
    Seq::new(
        f.len(),
        |y: int|
            Seq::new(
                f[y].len(),
                |x: int|
                    if in_window(bx, by, cx, cy, x, y) {
                        q
                    } else {
                        f[y][x]
                    },
            ),
    )
}

/// Largest of the leading `n` quantizers of row `y` from column `bx` on, and of
/// `start`.
pub open spec fn row_max(f: Field, bx: int, y: int, start: u8, n: int) -> u8
    decreases n,
{
    if n <= 0 {
        start
    } else {
        let head = row_max(f, bx, y, start, n - 1);
        if head < f[y][bx + n - 1] {
            f[y][bx + n - 1]
        } else {
            head
        }
    }
}

/// Largest quantizer of the leading `n` rows of a window, and of `start`.
pub open spec fn window_max(f: Field, bx: int, by: int, cx: int, start: u8, n: int) -> u8
    decreases n,
{
    if n <= 0 {
        start
    } else {
        row_max(f, bx, by + n - 1, window_max(f, bx, by, cx, start, n - 1), cx)
    }
}

/// Sum of the leading `n` quantizers of row `y` from column `bx` on.
pub open spec fn row_sum(f: Field, bx: int, y: int, n: int) -> int
    decreases n,
{
    if n <= 0 {
        0
    } else {
        row_sum(f, bx, y, n - 1) + f[y][bx + n - 1]
    }
}

/// Sum of the quantizers of the leading `n` rows of a window.
pub open spec fn window_sum(f: Field, bx: int, by: int, cx: int, n: int) -> int
    decreases n,
{
    if n <= 0 {
        0
    } else {
        window_sum(f, bx, by, cx, n - 1) + row_sum(f, bx, by + n - 1, cx)
    }
}

/// A field of quantizers.
pub struct QuantField {
    rows: Vec<Vec<u8>>,
}

impl View for QuantField {
    type V = Field;

    closed spec fn view(&self) -> Field {
        Seq::new(self.rows@.len(), |y: int| self.rows@[y]@)
    }
}

impl QuantField {
    /// The field of `w x h` blocks in which every quantizer is `q`.
    pub fn new(w: usize, h: usize, q: u8) -> (r: Self)
        ensures
            field_shape(r@, w as int, h as int),
            forall|x: int, y: int| 0 <= x < w && 0 <= y < h ==> #[trigger] r@[y][x] == q,
    {
        let mut rows: Vec<Vec<u8>> = Vec::new();
        let mut y: usize = 0;
        while y < h
            invariant
                y <= h,
                rows@.len() == y,
                forall|j: int| 0 <= j < y ==> (#[trigger] rows@[j])@.len() == w,
                forall|x: int, j: int| 0 <= x < w && 0 <= j < y ==> #[trigger] rows@[j]@[x] == q,
            decreases h - y,
        {
            let mut row: Vec<u8> = Vec::new();
            let mut x: usize = 0;
            while x < w
                invariant
                    x <= w,
                    row@.len() == x,
                    forall|i: int| 0 <= i < x ==> #[trigger] row@[i] == q,
                decreases w - x,
            {
                row.push(q);
                x += 1;
            }
            rows.push(row);
            y += 1;
        }
        QuantField { rows }
    }

    /// The quantizer of the block `(x, y)`.
    pub fn get(&self, x: usize, y: usize) -> (r: u8)
        requires
            y < self@.len(),
            x < self@[y as int].len(),
        ensures
            r == self@[y as int][x as int],
    {
        self.rows[y][x]
    }

    /// Sets the quantizer of the block `(x, y)`.
    pub fn set(&mut self, x: usize, y: usize, q: u8)
        requires
            y < old(self)@.len(),
            x < old(self)@[y as int].len(),
        ensures
            final(self)@ == with_window(old(self)@, x as int, y as int, 1, 1, q),
    {
        let ghost before = self@;
        self.rows[y][x] = q;
        assert(self@ =~~= with_window(before, x as int, y as int, 1, 1, q));
    }

    /// Sets every quantizer of a window.
    pub fn fill(&mut self, bx: usize, by: usize, cx: usize, cy: usize, q: u8)
        requires
            by + cy <= old(self)@.len(),
            by + cy <= usize::MAX,
            bx + cx <= usize::MAX,
            forall|y: int| 0 <= y < old(self)@.len() ==> bx + cx <= (#[trigger] old(self)@[y]).len(),
        ensures
            final(self)@ == with_window(
                old(self)@,
                bx as int,
                by as int,
                cx as int,
                cy as int,
                q,
            ),
    {
        let ghost before = self@;
        let mut j: usize = 0;
        assert(self@ =~~= with_window(before, bx as int, by as int, cx as int, 0, q));
        while j < cy
            invariant
                j <= cy,
                by + cy <= before.len(),
                by + cy <= usize::MAX,
                bx + cx <= usize::MAX,
                forall|y: int| 0 <= y < before.len() ==> bx + cx <= (#[trigger] before[y]).len(),
                self@ == with_window(before, bx as int, by as int, cx as int, j as int, q),
            decreases cy - j,
        {
            let ghost row = self@;
            let mut i: usize = 0;
            assert(self@ =~~= with_window(row, bx as int, by + j, 0, 1, q));
            while i < cx
                invariant
                    i <= cx,
                    j < cy,
                    by + cy <= before.len(),
                    by + cy <= usize::MAX,
                    bx + cx <= usize::MAX,
                    forall|y: int|
                        0 <= y < before.len() ==> bx + cx <= (#[trigger] before[y]).len(),
                    row == with_window(before, bx as int, by as int, cx as int, j as int, q),
                    self@ == with_window(row, bx as int, by + j, i as int, 1, q),
                decreases cx - i,
            {
                let ghost now = self@;
                assert(now[by + j].len() == before[by + j].len());
                self.set(bx + i, by + j, q);
                i += 1;
                assert(self@ =~~= with_window(row, bx as int, by + j, i as int, 1, q));
            }
            j += 1;
            assert(self@ =~~= with_window(before, bx as int, by as int, cx as int, j as int, q));
        }
    }

    /// Largest quantizer of a window, and of `start`, and the sum of its
    /// quantizers.
    pub fn survey(&self, bx: usize, by: usize, cx: usize, cy: usize, start: u8) -> (r: (u8, u32))
        requires
            cx <= 8,
            cy <= 8,
            by + cy <= self@.len(),
            by + cy <= usize::MAX,
            bx + cx <= usize::MAX,
            forall|y: int| 0 <= y < self@.len() ==> bx + cx <= (#[trigger] self@[y]).len(),
        ensures
            r.0 == window_max(self@, bx as int, by as int, cx as int, start, cy as int),
            r.1 == window_sum(self@, bx as int, by as int, cx as int, cy as int),
    {
        let mut largest: u8 = start;
        let mut sum: u32 = 0;
        let mut j: usize = 0;
        while j < cy
            invariant
                j <= cy <= 8,
                cx <= 8,
                by + cy <= self@.len(),
                by + cy <= usize::MAX,
                bx + cx <= usize::MAX,
                forall|y: int| 0 <= y < self@.len() ==> bx + cx <= (#[trigger] self@[y]).len(),
                largest == window_max(self@, bx as int, by as int, cx as int, start, j as int),
                sum == window_sum(self@, bx as int, by as int, cx as int, j as int),
                sum <= 2040 * j,
            decreases cy - j,
        {
            let ghost before = largest;
            let ghost base = sum;
            let mut i: usize = 0;
            while i < cx
                invariant
                    i <= cx <= 8,
                    j < cy <= 8,
                    by + cy <= self@.len(),
                    by + cy <= usize::MAX,
                    bx + cx <= usize::MAX,
                    forall|y: int| 0 <= y < self@.len() ==> bx + cx <= (#[trigger] self@[y]).len(),
                    base <= 2040 * j,
                    largest == row_max(self@, bx as int, by + j, before, i as int),
                    sum == base + row_sum(self@, bx as int, by + j, i as int),
                    sum <= base + 255 * i,
                decreases cx - i,
            {
                assert(self@[by + j].len() >= bx + cx);
                let q: u8 = self.get(bx + i, by + j);
                if largest < q {
                    largest = q;
                }
                sum += q as u32;
                i += 1;
            }
            j += 1;
        }
        (largest, sum)
    }
}

/// How much of the largest quantizer goes into the one for a whole transform; the
/// rest is the mean.
pub open spec fn mixer<A: Amount>(target: A) -> A {
    let one = A::ratio_spec(1, 1);
    let zero = A::zero_spec();
    one.minus_spec(
        target.minus_spec(A::ratio_spec(154138, 100000)).greater_spec(zero).times_spec(
            A::ratio_spec(56391, 100000),
        ),
    ).greater_spec(zero)
}

/// How much of the largest quantizer goes into the one for a whole transform.
pub fn mean_max_mixer<A: Amount>(target: A) -> (r: A)
    ensures
        r == mixer(target),
{
    let zero: A = A::zero();
    A::ratio(1, 1).minus(
        target.minus(A::ratio(154138, 100000)).greater(zero).times(A::ratio(56391, 100000)),
    ).greater(zero)
}

/// The mixed quantizer, rounded to the nearest byte but zero.
pub open spec fn rounded<A: Amount>(mixed: A) -> A {
    clamped_spec(mixed.plus_spec(A::ratio_spec(1, 2)), A::ratio_spec(1, 1), A::ratio_spec(255, 1))
}

/// The quantizer of a transform over `covered` blocks: the largest for pairs, and
/// otherwise a mix of the largest and the mean.
pub open spec fn aggregate<A: Amount>(max_q: u8, sum: int, covered: int, target: A) -> u8 {
    if covered < 4 {
        max_q
    } else {
        let mix = mixer(target);
        let mean = A::ratio_spec(sum as i64, covered as u64);
        rounded(
            A::ratio_spec(max_q as i64, 1).times_spec(mix).plus_spec(
                mean.times_spec(A::ratio_spec(1, 1).minus_spec(mix)),
            ),
        ).byte_spec()
    }
}

/// The quantizer of a transform over `covered` blocks.
pub fn aggregate_quant<A: Amount>(max_q: u8, sum: u32, covered: usize, target: A) -> (r: u8)
    ensures
        r == aggregate(max_q, sum as int, covered as int, target),
{
    if covered < 4 {
        return max_q;
    }
    let mix: A = mean_max_mixer(target);
    let mean: A = A::ratio(sum as i64, covered as u64);
    let mixed: A = A::ratio(max_q as i64, 1).times(mix).plus(
        mean.times(A::ratio(1, 1).minus(mix)),
    );
    clamped(mixed.plus(A::ratio(1, 2)), A::ratio(1, 1), A::ratio(255, 1)).byte()
}

/// The scaled quantizer of a 16x16 transform, from those of its four blocks.
pub open spec fn aggregate_2x2<A: Amount>(qac: [[A; 2]; 2], scale: A, target: A) -> A {
    let a = qac@[0]@[0];
    let b = qac@[0]@[1];
    let c = qac@[1]@[0];
    let d = qac@[1]@[1];
    let largest = a.greater_spec(b).greater_spec(c).greater_spec(d);
    let mix = mixer(target);
    let mean = a.plus_spec(b).plus_spec(c).plus_spec(d).times_spec(A::ratio_spec(1, 4));
    let mixed = largest.times_spec(mix).plus_spec(
        mean.times_spec(A::ratio_spec(1, 1).minus_spec(mix)),
    ).over_spec(scale);
    scale.times_spec(A::ratio_spec(rounded(mixed).byte_spec() as i64, 1))
}

/// The scaled quantizer of a 16x16 transform, from those of its four blocks.
pub fn aggregate_qac_2x2<A: Amount>(qac: [[A; 2]; 2], scale: A, target: A) -> (r: A)
    ensures
        r == aggregate_2x2(qac, scale, target),
{
    let largest: A = qac[0][0].greater(qac[0][1]).greater(qac[1][0]).greater(qac[1][1]);
    let mix: A = mean_max_mixer(target);
    let mean: A = qac[0][0].plus(qac[0][1]).plus(qac[1][0]).plus(qac[1][1]).times(A::ratio(1, 4));
    let mixed: A = largest.times(mix).plus(mean.times(A::ratio(1, 1).minus(mix))).over(scale);
    let q: u8 = clamped(mixed.plus(A::ratio(1, 2)), A::ratio(1, 1), A::ratio(255, 1)).byte();
    scale.times(A::ratio(q as i64, 1))
}

/// The quantizer that a transform over a window would get; no smaller than 1.
pub open spec fn window_quant<A: Amount>(
    f: Field,
    bx: int,
    by: int,
    cx: int,
    cy: int,
    target: A,
) -> u8 {
    aggregate(
        window_max(f, bx, by, cx, 1, cy),
        window_sum(f, bx, by, cx, cy),
        cx * cy,
        target,
    )
}

/// The scaled quantizer that a transform over a window would get.
pub fn region_qac<A: Amount>(
    field: &QuantField,
    bx: usize,
    by: usize,
    w: usize,
    h: usize,
    scale: A,
    target: A,
) -> (r: A)
    requires
        w <= 8,
        h <= 8,
        by + h <= field@.len(),
        by + h <= usize::MAX,
        bx + w <= usize::MAX,
        forall|y: int| 0 <= y < field@.len() ==> bx + w <= (#[trigger] field@[y]).len(),
    ensures
        r == scale.times_spec(
            A::ratio_spec(
                window_quant(field@, bx as int, by as int, w as int, h as int, target) as i64,
                1,
            ),
        ),
{
    let (max_q, sum): (u8, u32) = field.survey(bx, by, w, h, 1);
    assert(w * h <= 64) by (nonlinear_arith)
        requires
            0 <= w <= 8,
            0 <= h <= 8,
    ;
    let q: u8 = aggregate_quant(max_q, sum, w * h, target);
    scale.times(A::ratio(q as i64, 1))
}

/// The scaled quantizers of the four blocks of a super-block.
pub fn block_qac_2x2<A: Amount>(field: &QuantField, bx: usize, by: usize, scale: A) -> (r: [[A; 2];
    2])
    requires
        by + 2 <= field@.len(),
        forall|y: int| 0 <= y < field@.len() ==> bx + 2 <= (#[trigger] field@[y]).len(),
        by < usize::MAX,
        bx < usize::MAX,
    ensures
        forall|x: int, y: int|
            0 <= x < 2 && 0 <= y < 2 ==> #[trigger] r@[y]@[x] == scale.times_spec(
                A::ratio_spec(field@[by + y][bx + x] as i64, 1),
            ),
{
    assert(field@[by as int].len() >= bx + 2 && field@[by + 1].len() >= bx + 2);
    [
        [
            scale.times(A::ratio(field.get(bx, by) as i64, 1)),
            scale.times(A::ratio(field.get(bx + 1, by) as i64, 1)),
        ],
        [
            scale.times(A::ratio(field.get(bx, by + 1) as i64, 1)),
            scale.times(A::ratio(field.get(bx + 1, by + 1) as i64, 1)),
        ],
    ]
}

/// Smallest of the leading `n` quantizers of row `y` from column `bx` on, and of
/// `start`.
pub open spec fn row_min(f: Field, bx: int, y: int, start: u8, n: int) -> u8
    decreases n,
{
    if n <= 0 {
        start
    } else {
        let head = row_min(f, bx, y, start, n - 1);
        if f[y][bx + n - 1] < head {
            f[y][bx + n - 1]
        } else {
            head
        }
    }
}

/// Smallest quantizer of the leading `n` rows of a window, and of `start`.
pub open spec fn window_min(f: Field, bx: int, by: int, cx: int, start: u8, n: int) -> u8
    decreases n,
{
    if n <= 0 {
        start
    } else {
        row_min(f, bx, by + n - 1, window_min(f, bx, by, cx, start, n - 1), cx)
    }
}

/// Smallest and largest quantizer of a window.
pub fn quant_extremes(
    field: &QuantField,
    bx: usize,
    by: usize,
    cx: usize,
    cy: usize,
) -> (r: (u8, u8))
    requires
        cx <= 8,
        cy <= 8,
        by + cy <= field@.len(),
        by + cy <= usize::MAX,
        bx + cx <= usize::MAX,
        forall|y: int| 0 <= y < field@.len() ==> bx + cx <= (#[trigger] field@[y]).len(),
    ensures
        r.0 == window_min(field@, bx as int, by as int, cx as int, 255, cy as int),
        r.1 == window_max(field@, bx as int, by as int, cx as int, 0, cy as int),
{
    let mut least: u8 = 255;
    let mut j: usize = 0;
    while j < cy
        invariant
            j <= cy,
            by + cy <= field@.len(),
            by + cy <= usize::MAX,
            bx + cx <= usize::MAX,
            forall|y: int| 0 <= y < field@.len() ==> bx + cx <= (#[trigger] field@[y]).len(),
            least == window_min(field@, bx as int, by as int, cx as int, 255, j as int),
        decreases cy - j,
    {
        let ghost before = least;
        let mut i: usize = 0;
        while i < cx
            invariant
                i <= cx,
                j < cy,
                by + cy <= field@.len(),
                by + cy <= usize::MAX,
                bx + cx <= usize::MAX,
                forall|y: int| 0 <= y < field@.len() ==> bx + cx <= (#[trigger] field@[y]).len(),
                least == row_min(field@, bx as int, by + j, before, i as int),
            decreases cx - i,
        {
            assert(field@[by + j].len() >= bx + cx);
            let q: u8 = field.get(bx + i, by + j);
            if q < least {
                least = q;
            }
            i += 1;
        }
        j += 1;
    }
    let (largest, _): (u8, u32) = field.survey(bx, by, cx, cy, 0);
    (least, largest)
}

/// The quantizer after a transform covering more than one block evened it out.
pub open spec fn adjusted_by<A: Amount>(f: Field, s: Placement, target: A) -> Field {
    let cx = covered_x(s.strategy);
    let cy = covered_y(s.strategy);
    let x = s.x as int;
    let y = s.y as int;
    if cx == 1 && cy == 1 {
        f
    } else {
        with_window(
            f,
            x,
            y,
            cx,
            cy,
            aggregate(window_max(f, x, y, cx, 0, cy), window_sum(f, x, y, cx, cy), cx * cy, target),
        )
    }
}

/// The field after the leading `n` transforms.
pub open spec fn adjusted<A: Amount>(
    f: Field,
    blocks: Seq<Placement>,
    target: A,
    n: int,
) -> Field
    decreases n,
{
    if n <= 0 {
        f
    } else {
        adjusted_by(adjusted(f, blocks, target, n - 1), blocks[n - 1], target)
    }
}

proof fn lemma_adjusted_shape<A: Amount>(
    f: Field,
    w: int,
    h: int,
    blocks: Seq<Placement>,
    target: A,
    n: int,
)
    requires
        field_shape(f, w, h),
    ensures
        field_shape(adjusted(f, blocks, target, n), w, h),
    decreases n,
{
    if n > 0 {
        lemma_adjusted_shape(f, w, h, blocks, target, n - 1);
    }
}

/// Evens out the quantizers within every transform of a tiling.
pub fn adjust_quant_field<A: Amount>(map: &AcStrategyImage, target: A, field: &mut QuantField)
    requires
        map.wf(),
        tiled(map@, map.width() as int, map.height() as int),
        field_shape(old(field)@, map.width() as int, map.height() as int),
    ensures
        field_shape(final(field)@, map.width() as int, map.height() as int),
        ({
            let blocks = firsts(map@, map.height() as int);
            final(field)@ == adjusted(old(field)@, blocks, target, blocks.len() as int)
        }),
{
    let ghost w = map.width() as int;
    let ghost h = map.height() as int;
    let ghost f = field@;
    proof {
        map.lemma_shape();
        lemma_firsts(map@, w, h);
    }
    let blocks: Vec<Placement> = map.first_blocks();
    let mut i: usize = 0;
    while i < blocks.len()
        invariant
            i <= blocks@.len(),
            blocks@ == firsts(map@, h),
            tiled(map@, w, h),
            w == map.width(),
            h == map.height(),
            field_shape(f, w, h),
            field_shape(field@, w, h),
            field@ == adjusted(f, blocks@, target, i as int),
            forall|k: int|
                0 <= k < blocks@.len() ==> ({
                    let s = #[trigger] blocks@[k];
                    &&& s.x < w
                    &&& s.y < h
                    &&& map@[s.y as int][s.x as int].first
                    &&& map@[s.y as int][s.x as int].strategy == s.strategy
                }),
        decreases blocks@.len() - i,
    {
        let s: Placement = blocks[i];
        let cx: usize = covered_blocks_x_of(s.strategy);
        let cy: usize = covered_blocks_y_of(s.strategy);
        proof {
            assert(blocks@[i as int].x < w);
            assert(map@[s.y as int][s.x as int].first);
            lemma_adjusted_shape(f, w, h, blocks@, target, i + 1);
        }
        if cx != 1 || cy != 1 {
            let (max_q, sum): (u8, u32) = field.survey(s.x, s.y, cx, cy, 0);
            assert(cx * cy <= 64) by (nonlinear_arith)
                requires
                    0 <= cx <= 8,
                    0 <= cy <= 8,
            ;
            let q: u8 = aggregate_quant(max_q, sum, cx * cy, target);
            field.fill(s.x, s.y, cx, cy, q);
        }
        i += 1;
    }
}

proof fn lemma_row_same(f: Field, g: Field, bx: int, y: int, start: u8, n: int)
    requires
        forall|x: int| bx <= x < bx + n ==> #[trigger] f[y][x] == g[y][x],
    ensures
        row_max(f, bx, y, start, n) == row_max(g, bx, y, start, n),
        row_sum(f, bx, y, n) == row_sum(g, bx, y, n),
    decreases n,
{
    if n > 0 {
        lemma_row_same(f, g, bx, y, start, n - 1);
        assert(f[y][bx + n - 1] == g[y][bx + n - 1]);
    }
}

/// What is found in a window depends on the quantizers in it alone.
proof fn lemma_window_same(f: Field, g: Field, bx: int, by: int, cx: int, start: u8, n: int)
    requires
        forall|x: int, y: int| in_window(bx, by, cx, n, x, y) ==> #[trigger] f[y][x] == g[y][x],
    ensures
        window_max(f, bx, by, cx, start, n) == window_max(g, bx, by, cx, start, n),
        window_sum(f, bx, by, cx, n) == window_sum(g, bx, by, cx, n),
    decreases n,
{
    if n > 0 {
        lemma_window_same(f, g, bx, by, cx, start, n - 1);
        lemma_row_same(f, g, bx, by + n - 1, window_max(f, bx, by, cx, start, n - 1), cx);
    }
}

proof fn lemma_row_firsts_ordered(v: Layout, y: int, n: int)
    requires
        0 <= n <= usize::MAX,
    ensures
        forall|i: int|
            0 <= i < firsts_in_row(v, y, n).len() ==> (#[trigger] firsts_in_row(v, y, n)[i]).x < n,
        forall|i: int, j: int|
            0 <= i < j < firsts_in_row(v, y, n).len() ==> (#[trigger] firsts_in_row(v, y, n)[i]).x
                < (#[trigger] firsts_in_row(v, y, n)[j]).x,
    decreases n,
{
    if n > 0 {
        lemma_row_firsts_ordered(v, y, n - 1);
        let head = firsts_in_row(v, y, n - 1);
        let now = firsts_in_row(v, y, n);
        assert forall|i: int, j: int| 0 <= i < j < now.len() implies (#[trigger] now[i]).x < (
        #[trigger] now[j]).x by {
            assert(now[i] == head[i]);
            if j < head.len() {
                assert(now[j] == head[j]);
            }
        }
    }
}

/// First blocks are listed once each.
proof fn lemma_firsts_distinct(v: Layout, w: int, n: int)
    requires
        0 <= n <= v.len() <= usize::MAX,
        0 <= w <= usize::MAX,
        forall|j: int| 0 <= j < v.len() ==> (#[trigger] v[j]).len() == w,
    ensures
        forall|i: int, j: int|
            0 <= i < j < firsts(v, n).len() ==> (#[trigger] firsts(v, n)[i]).x != (
            #[trigger] firsts(v, n)[j]).x || firsts(v, n)[i].y != firsts(v, n)[j].y,
    decreases n,
{
    if n > 0 {
        lemma_firsts_distinct(v, w, n - 1);
        lemma_firsts(v, w, n - 1);
        lemma_row_firsts_ordered(v, n - 1, w);
        lemma_row_firsts(v, n - 1, w);
        let head = firsts(v, n - 1);
        let row = firsts_in_row(v, n - 1, w);
        let now = firsts(v, n);
        assert(v[n - 1].len() == w);
        assert forall|i: int, j: int| 0 <= i < j < now.len() implies (#[trigger] now[i]).x != (
        #[trigger] now[j]).x || now[i].y != now[j].y by {
            if j < head.len() {
                assert(now[i] == head[i] && now[j] == head[j]);
            } else if i >= head.len() {
                assert(now[i] == row[i - head.len()] && now[j] == row[j - head.len()]);
            } else {
                assert(now[i] == head[i] && now[j] == row[j - head.len()]);
            }
        }
    }
}

/// The quantizer that the block `(x, y)` in the footprint of a transform ends up
/// with.
pub open spec fn even_quant<A: Amount>(f: Field, s: Placement, target: A, x: int, y: int) -> u8 {
    adjusted_by(f, s, target)[y][x]
}

/// One of the leading `n` transforms covers the block `(x, y)`.
spec fn covered_by(blocks: Seq<Placement>, n: int, x: int, y: int) -> bool {
    exists|k: int| 0 <= k < n && #[trigger] in_footprint(blocks[k], x, y)
}

proof fn lemma_adjusted<A: Amount>(
    f: Field,
    w: int,
    h: int,
    blocks: Seq<Placement>,
    target: A,
    n: int,
)
    requires
        field_shape(f, w, h),
        0 <= n <= blocks.len(),
        disjoint(blocks),
        forall|k: int|
            0 <= k < blocks.len() ==> fits_in(
                w,
                h,
                (#[trigger] blocks[k]).x as int,
                blocks[k].y as int,
                blocks[k].strategy,
            ),
    ensures
        forall|k: int, x: int, y: int|
            0 <= k < n && #[trigger] in_footprint(blocks[k], x, y) ==> adjusted(
                f,
                blocks,
                target,
                n,
            )[y][x] == even_quant(f, blocks[k], target, x, y),
        forall|x: int, y: int|
            in_bounds(w, h, x, y) && !covered_by(blocks, n, x, y) ==> #[trigger] adjusted(
                f,
                blocks,
                target,
                n,
            )[y][x] == f[y][x],
    decreases n,
{
    if n > 0 {
        lemma_adjusted(f, w, h, blocks, target, n - 1);
        lemma_adjusted_shape(f, w, h, blocks, target, n - 1);
        let head = adjusted(f, blocks, target, n - 1);
        let now = adjusted(f, blocks, target, n);
        let s = blocks[n - 1];
        let cx = covered_x(s.strategy);
        let cy = covered_y(s.strategy);
        assert(fits_in(w, h, blocks[n - 1].x as int, s.y as int, s.strategy));
        assert forall|x: int, y: int|
            in_window(s.x as int, s.y as int, cx, cy, x, y) implies #[trigger] head[y][x]
            == f[y][x] by {
            assert(in_footprint(blocks[n - 1], x, y));
            if covered_by(blocks, n - 1, x, y) {
                let k = choose|k: int| 0 <= k < n - 1 && #[trigger] in_footprint(blocks[k], x, y);
                assert(!in_footprint(blocks[n - 1], x, y));
            }
            assert(in_bounds(w, h, x, y));
        }
        lemma_window_same(head, f, s.x as int, s.y as int, cx, 0, cy);
        assert forall|k: int, x: int, y: int|
            0 <= k < n && #[trigger] in_footprint(blocks[k], x, y) implies now[y][x] == even_quant(
            f,
            blocks[k],
            target,
            x,
            y,
        ) by {
            assert(fits_in(
                w,
                h,
                blocks[k].x as int,
                blocks[k].y as int,
                blocks[k].strategy,
            ));
            assert(head[y].len() == w && f[y].len() == w);
            if k < n - 1 {
                assert(!in_footprint(blocks[n - 1], x, y));
                assert(head[y][x] == even_quant(f, blocks[k], target, x, y));
            } else {
                assert(head[y][x] == f[y][x]);
            }
        }
        assert forall|x: int, y: int|
            in_bounds(w, h, x, y) && !covered_by(blocks, n, x, y) implies #[trigger] now[y][x]
            == f[y][x] by {
            assert(head[y].len() == w);
            if in_footprint(blocks[n - 1], x, y) {
                assert(covered_by(blocks, n, x, y));
            }
            if covered_by(blocks, n - 1, x, y) {
                let k = choose|k: int| 0 <= k < n - 1 && #[trigger] in_footprint(blocks[k], x, y);
                assert(in_footprint(blocks[k], x, y));
                assert(covered_by(blocks, n, x, y));
            }
            assert(head[y][x] == f[y][x]);
        }
    }
}

/// In a tiling, adjusting the field gives every block of a transform the one
/// quantizer found in the transform's own footprint, whatever the order.
pub proof fn law_adjusted_field_is_even<A: Amount>(
    v: Layout,
    w: int,
    h: int,
    f: Field,
    target: A,
)
    requires
        tiled(v, w, h),
        0 <= w <= usize::MAX,
        0 <= h <= usize::MAX,
        field_shape(f, w, h),
    ensures
        ({
            let blocks = firsts(v, h);
            forall|k: int, x: int, y: int|
                0 <= k < blocks.len() && #[trigger] in_footprint(blocks[k], x, y) ==> adjusted(
                    f,
                    blocks,
                    target,
                    blocks.len() as int,
                )[y][x] == even_quant(f, blocks[k], target, x, y)
        }),
{
    let blocks = firsts(v, h);
    lemma_firsts(v, w, h);
    lemma_firsts_distinct(v, w, h);
    assert forall|k: int| 0 <= k < blocks.len() implies fits_in(
        w,
        h,
        (#[trigger] blocks[k]).x as int,
        blocks[k].y as int,
        blocks[k].strategy,
    ) by {
        assert(in_bounds(w, h, blocks[k].x as int, blocks[k].y as int));
        assert(v[blocks[k].y as int][blocks[k].x as int].first);
    }
    assert forall|i: int, j: int, x: int, y: int|
        0 <= i < j < blocks.len() && #[trigger] in_footprint(
            blocks[i],
            x,
            y,
        ) implies !#[trigger] in_footprint(blocks[j], x, y) by {
        if in_footprint(blocks[j], x, y) {
            let a = blocks[i];
            let b = blocks[j];
            assert(covers(v, a.x as int, a.y as int, x, y));
            assert(covers(v, b.x as int, b.y as int, x, y));
            assert(in_bounds(w, h, a.x as int, a.y as int));
            assert(in_bounds(w, h, b.x as int, b.y as int));
            assert(a.x == b.x && a.y == b.y);
        }
    }
    lemma_adjusted(f, w, h, blocks, target, blocks.len() as int);
}

} // verus!
