//! The field of quantizers of a group: differences between neighbouring samples,
//! pooled, masked and modulated.

use crate::adaptive_quant::{
    blue_modulation, blue_sum, blue_term, compute_mask, dec, gamma_modulation, gamma_ratio,
    gamma_sum, hf_modulated, hf_modulation, hf_modulation_strength, hf_strength, in_order,
    law_sort4_sorts, law_store_min4_keeps_the_smallest, mask_spec, masking_root, masking_sqrt,
    min4_with, ratio_cubic_to_simple_gamma, sort4, sorted4, store_min4, times_in, GAMMA_WEIGHT,
    SCALE,
};
use crate::amount::{Amount, OrderedAmount};
use crate::fast_math::{exp2_estimate, fast_exp2, log2_estimate};
use crate::opsin::{edge_sample, held_index, Image3, Planes};
use crate::quant_field::{field_shape, with_window, Field, QuantField};
use crate::tuning::{aq_dampen, dampen_spec};
use vstd::prelude::*;

verus! {

/// Quantizer of the AC coefficients at distance one.
pub const AC_QUANT: i64 = 8_294_000_000_000;

/// Added to luma before its slope is taken.
pub const MATCH_GAMMA_OFFSET: i64 = 190_000_000_000;

/// A grid of amounts, row by row.
pub type Grid<A> = Seq<Seq<A>>;

/// How much the luma sample at `(x, y)` differs from its four neighbours, as the
/// eye sees it: the squared difference, capped, under a root.
pub open spec fn local_difference<A: Amount>(v: Planes<A>, w: int, h: int, x: int, y: int) -> A {
    let here = edge_sample(v, w, h, 1, x, y);
    let base = A::ratio_spec(1, 4).times_spec(
        edge_sample(v, w, h, 1, x, y + 1).plus_spec(edge_sample(v, w, h, 1, x, y - 1)).plus_spec(
            edge_sample(v, w, h, 1, x - 1, y),
        ).plus_spec(edge_sample(v, w, h, 1, x + 1, y)),
    );
    let slope = gamma_ratio(false, here.plus_spec(dec(MATCH_GAMMA_OFFSET)));
    let diff = slope.times_spec(here.minus_spec(base));
    let squared = diff.times_spec(diff);
    let cap = A::ratio_spec(1, 5);
    masking_root(
        if cap.at_most_spec(squared) {
            cap
        } else {
            squared
        },
    )
}

fn difference_at<A: Amount>(img: &Image3<A>, x: usize, y: usize) -> (r: A)
    requires
        img.wf(),
        img.width() > 0,
        img.height() > 0,
        x < usize::MAX,
        y < usize::MAX,
    ensures
        r == local_difference(
            img@,
            img.width() as int,
            img.height() as int,
            x as int,
            y as int,
        ),
{
    let here: A = img.edge(1, x, y, 0, 0);
    let base: A = A::ratio(1, 4).times(
        img.edge(1, x, y + 1, 0, 0).plus(img.edge(1, x, y, 0, 1)).plus(
            img.edge(1, x, y, 1, 0),
        ).plus(img.edge(1, x + 1, y, 0, 0)),
    );
    let slope: A = ratio_cubic_to_simple_gamma(
        false,
        here.plus(A::ratio(MATCH_GAMMA_OFFSET, SCALE)),
    );
    let diff: A = slope.times(here.minus(base));
    let squared: A = diff.times(diff);
    let cap: A = A::ratio(1, 5);
    masking_sqrt(
        if cap.at_most(squared) {
            cap
        } else {
            squared
        },
    )
}

/// The differences of the four samples at and below `(x, y)`.
pub open spec fn column_sum<A: Amount>(v: Planes<A>, w: int, h: int, x: int, y: int) -> A {
    local_difference(v, w, h, x, y).plus_spec(local_difference(v, w, h, x, y + 1)).plus_spec(
        local_difference(v, w, h, x, y + 2),
    ).plus_spec(local_difference(v, w, h, x, y + 3))
}

/// The differences of the 4x4 samples at `(x, y)`, a quarter of their sum.
pub open spec fn cell_difference<A: Amount>(v: Planes<A>, w: int, h: int, x: int, y: int) -> A {
    column_sum(v, w, h, x, y).plus_spec(column_sum(v, w, h, x + 1, y)).plus_spec(
        column_sum(v, w, h, x + 2, y),
    ).plus_spec(column_sum(v, w, h, x + 3, y)).times_spec(A::ratio_spec(1, 4))
}

/// The differences of a region of `pw x ph` cells of 4x4 samples at `(x0, y0)`.
pub open spec fn difference_map<A: Amount>(
    v: Planes<A>,
    w: int,
    h: int,
    x0: int,
    y0: int,
    pw: int,
    ph: int,
) -> Grid<A> {
    Seq::new(
        ph as nat,
        |j: int| Seq::new(pw as nat, |i: int| cell_difference(v, w, h, x0 + 4 * i, y0 + 4 * j)),
    )
}

fn sum_column<A: Amount>(img: &Image3<A>, x: usize, y: usize) -> (r: A)
    requires
        img.wf(),
        img.width() > 0,
        img.height() > 0,
        x < usize::MAX,
        y + 3 < usize::MAX,
    ensures
        r == column_sum(img@, img.width() as int, img.height() as int, x as int, y as int),
{
    difference_at(img, x, y).plus(difference_at(img, x, y + 1)).plus(
        difference_at(img, x, y + 2),
    ).plus(difference_at(img, x, y + 3))
}

fn cell_at<A: Amount>(img: &Image3<A>, x: usize, y: usize) -> (r: A)
    requires
        img.wf(),
        img.width() > 0,
        img.height() > 0,
        x + 3 < usize::MAX,
        y + 3 < usize::MAX,
    ensures
        r == cell_difference(img@, img.width() as int, img.height() as int, x as int, y as int),
{
    sum_column(img, x, y).plus(sum_column(img, x + 1, y)).plus(sum_column(img, x + 2, y)).plus(
        sum_column(img, x + 3, y),
    ).times(A::ratio(1, 4))
}

/// A grid as plain values.
pub open spec fn grid_view<A>(rows: Seq<Vec<A>>) -> Grid<A> {
    Seq::new(rows.len(), |y: int| rows[y]@)
}

/// Computes the differences of a region of `pw x ph` cells of 4x4 samples.
pub fn map_differences<A: Amount>(
    img: &Image3<A>,
    x0: usize,
    y0: usize,
    pw: usize,
    ph: usize,
) -> (r: Vec<Vec<A>>)
    requires
        img.wf(),
        img.width() > 0,
        img.height() > 0,
        x0 + 4 * pw < usize::MAX,
        y0 + 4 * ph < usize::MAX,
    ensures
        grid_view(r@) == difference_map(
            img@,
            img.width() as int,
            img.height() as int,
            x0 as int,
            y0 as int,
            pw as int,
            ph as int,
        ),
{
    let ghost want = difference_map(
        img@,
        img.width() as int,
        img.height() as int,
        x0 as int,
        y0 as int,
        pw as int,
        ph as int,
    );
    let mut rows: Vec<Vec<A>> = Vec::new();
    let mut j: usize = 0;
    while j < ph
        invariant
            j <= ph,
            img.wf(),
            img.width() > 0,
            img.height() > 0,
            x0 + 4 * pw < usize::MAX,
            y0 + 4 * ph < usize::MAX,
            want == difference_map(
                img@,
                img.width() as int,
                img.height() as int,
                x0 as int,
                y0 as int,
                pw as int,
                ph as int,
            ),
            rows@.len() == j,
            forall|k: int| 0 <= k < j ==> (#[trigger] rows@[k])@ == want[k],
        decreases ph - j,
    {
        let mut row: Vec<A> = Vec::new();
        let mut i: usize = 0;
        while i < pw
            invariant
                i <= pw,
                j < ph,
                img.wf(),
                img.width() > 0,
                img.height() > 0,
                x0 + 4 * pw < usize::MAX,
                y0 + 4 * ph < usize::MAX,
                want == difference_map(
                    img@,
                    img.width() as int,
                    img.height() as int,
                    x0 as int,
                    y0 as int,
                    pw as int,
                    ph as int,
                ),
                row@.len() == i,
                forall|k: int| 0 <= k < i ==> #[trigger] row@[k] == want[j as int][k],
            decreases pw - i,
        {
            row.push(cell_at(img, x0 + 4 * i, y0 + 4 * j));
            i += 1;
        }
        assert(row@ =~= want[j as int]);
        rows.push(row);
        j += 1;
    }
    assert(grid_view(rows@) =~= want);
    rows
}

/// Sum of the pooling weights.
pub const POOL_TOTAL: i64 = 2_995_970_578_405;

/// Weights of the four smallest neighbours, in thousandths.
pub const POOL_BASE: [i64; 4] = [125, 100, 90, 60];

/// What is added to them, in thousandths, where the distance is short.
pub const POOL_ADD: [i64; 4] = [0, -100, -90, -60];

/// A pooling weight before all are scaled to their sum.
pub open spec fn raw_weight<A: Amount>(distance: A, i: int) -> A {
    let two = A::ratio_spec(2, 1);
    let near = if distance.less_spec(two) {
        two.minus_spec(distance).times_spec(A::ratio_spec(1, 2))
    } else {
        A::zero_spec()
    };
    A::ratio_spec(POOL_BASE@[i], 1000).plus_spec(
        near.times_spec(A::ratio_spec(POOL_ADD@[i], 1000)),
    )
}

/// The sum of the leading `n` weights.
pub open spec fn weight_sum<A: Amount>(distance: A, n: int) -> A
    decreases n,
{
    if n <= 0 {
        A::zero_spec()
    } else {
        weight_sum(distance, n - 1).plus_spec(raw_weight(distance, n - 1))
    }
}

/// The pooling weights.
pub open spec fn pool_weights<A: Amount>(distance: A) -> Seq<A> {
    let factor = dec::<A>(POOL_TOTAL).over_spec(weight_sum(distance, 4));
    Seq::new(4, |i: int| raw_weight(distance, i).times_spec(factor))
}

/// The weights with which the four smallest neighbours are pooled: near distance
/// zero the smallest counts alone.
pub fn erosion_weights<A: Amount>(distance: A) -> (r: [A; 4])
    ensures
        r@ == pool_weights(distance),
{
    let two: A = A::ratio(2, 1);
    let near: A = if distance.less(two) {
        two.minus(distance).times(A::ratio(1, 2))
    } else {
        A::zero()
    };
    let base: [i64; 4] = POOL_BASE;
    let add: [i64; 4] = POOL_ADD;
    let w: [A; 4] = [
        A::ratio(base[0], 1000).plus(near.times(A::ratio(add[0], 1000))),
        A::ratio(base[1], 1000).plus(near.times(A::ratio(add[1], 1000))),
        A::ratio(base[2], 1000).plus(near.times(A::ratio(add[2], 1000))),
        A::ratio(base[3], 1000).plus(near.times(A::ratio(add[3], 1000))),
    ];
    let sum: A = A::zero().plus(w[0]).plus(w[1]).plus(w[2]).plus(w[3]);
    proof {
        reveal_with_fuel(weight_sum, 5);
    }
    let factor: A = A::ratio(POOL_TOTAL, SCALE).over(sum);
    let r: [A; 4] = [
        w[0].times(factor),
        w[1].times(factor),
        w[2].times(factor),
        w[3].times(factor),
    ];
    assert(r@ =~= pool_weights(distance));
    r
}

/// The cell `(x, y)` of a grid and its neighbours, edges repeated: the row of the
/// cell, then the rows above and below; first the four that are sorted together.
pub open spec fn neighbours<A>(g: Grid<A>, pw: int, ph: int, x: int, y: int) -> Seq<A> {
    let l = held_index(x - 1, pw);
    let r = held_index(x + 1, pw);
    let t = held_index(y - 1, ph);
    let b = held_index(y + 1, ph);
    seq![
        g[y][x],
        g[y][l],
        g[y][r],
        g[t][l],
        g[t][x],
        g[t][r],
        g[b][l],
        g[b][x],
        g[b][r],
    ]
}

/// The smallest four of the leading `n` of at least four values, in order.
pub open spec fn smallest4<A: Amount>(s: Seq<A>, n: int) -> Seq<A>
    decreases n,
{
    if n <= 4 {
        sorted4(s.take(4))
    } else {
        min4_with(smallest4(s, n - 1), s[n - 1])
    }
}

/// A cell pooled with its neighbours.
pub open spec fn pooled<A: Amount>(weights: Seq<A>, nine: Seq<A>) -> A {
    let m = smallest4(nine, 9);
    weights[0].times_spec(m[0]).plus_spec(weights[1].times_spec(m[1])).plus_spec(
        weights[2].times_spec(m[2]),
    ).plus_spec(weights[3].times_spec(m[3]))
}

/// Every value of a sequence is one of the four kept or not smaller than any of
/// them.
pub open spec fn holds_smallest<A: Amount>(kept: Seq<A>, rest: Seq<A>, s: Seq<A>, n: int) -> bool {
    &&& in_order(kept)
    &&& rest.len() == n - 4
    &&& forall|i: int| 0 <= i < rest.len() ==> !(#[trigger] rest[i]).less_spec(kept[3])
    &&& forall|a: A|
        #[trigger] times_in(kept, a, 4) + times_in(rest, a, rest.len() as int) == times_in(s, a, n)
}

/// What pooling keeps are the four smallest values in order: the rest are smaller
/// than none of them, and kept and rest together are all there was.
pub proof fn law_pooling_keeps_the_four_smallest<A: OrderedAmount>(s: Seq<A>, n: int) -> (rest: Seq<
    A,
>)
    requires
        4 <= n <= s.len(),
    ensures
        holds_smallest(smallest4(s, n), rest, s, n),
    decreases n,
{
    if n == 4 {
        law_sort4_sorts(s.take(4));
        reveal_with_fuel(times_in, 5);
        assert forall|a: A| #[trigger] times_in(smallest4(s, 4), a, 4) + times_in(
            Seq::<A>::empty(),
            a,
            0,
        ) == times_in(s, a, 4) by {
            assert(times_in(s.take(4), a, 4) == times_in(s, a, 4));
        }
        Seq::empty()
    } else {
        let before = law_pooling_keeps_the_four_smallest(s, n - 1);
        let m = smallest4(s, n - 1);
        let v = s[n - 1];
        let kept = smallest4(s, n);
        law_store_min4_keeps_the_smallest(m, v);
        let dropped = if v.less_spec(m[3]) {
            m[3]
        } else {
            v
        };
        let rest = before.push(dropped);
        assert forall|i: int| 0 <= i < rest.len() implies !(#[trigger] rest[i]).less_spec(
            kept[3],
        ) by {
            if i < before.len() {
                assert(rest[i] == before[i]);
                if rest[i].less_spec(kept[3]) {
                    // The fourth kept value does not exceed the fourth before it.
                    A::less_irreflexive(m[3]);
                    A::less_splits(rest[i], m[3], kept[3]);
                    lemma_fourth_does_not_grow(m, v);
                }
            }
        }
        assert forall|a: A| #[trigger] times_in(kept, a, 4) + times_in(rest, a, rest.len() as int)
            == times_in(s, a, n) by {
            lemma_times_push(before, dropped, a);
            assert(times_in(m, a, 4) + times_in(before, a, before.len() as int) == times_in(
                s,
                a,
                n - 1,
            ));
        }
        rest
    }
}

proof fn lemma_fourth_does_not_grow<A: OrderedAmount>(m: Seq<A>, v: A)
    requires
        in_order(m),
    ensures
        !m[3].less_spec(min4_with(m, v)[3]),
{
    A::less_irreflexive(m[3]);
    if v.less_spec(m[3]) && m[3].less_spec(v) {
        A::less_transitive(m[3], v, m[3]);
    }
}

proof fn lemma_times_push<A>(s: Seq<A>, v: A, a: A)
    ensures
        times_in(s.push(v), a, s.push(v).len() as int) == times_in(s, a, s.len() as int) + (if v == a {
            1int
        } else {
            0
        }),
{
    lemma_times_prefix(s, s.push(v), a, s.len() as int);
}

proof fn lemma_times_prefix<A>(s: Seq<A>, t: Seq<A>, a: A, n: int)
    requires
        0 <= n <= s.len(),
        n <= t.len(),
        forall|i: int| 0 <= i < n ==> #[trigger] s[i] == t[i],
    ensures
        times_in(s, a, n) == times_in(t, a, n),
    decreases n,
{
    if n > 0 {
        lemma_times_prefix(s, t, a, n - 1);
        assert(s[n - 1] == t[n - 1]);
    }
}

fn pool_cell<A: Amount>(
    weights: &[A; 4],
    g: &Vec<Vec<A>>,
    pw: usize,
    ph: usize,
    x: usize,
    y: usize,
) -> (r: A)
    requires
        x < pw,
        y < ph,
        g@.len() == ph,
        forall|j: int| 0 <= j < ph ==> (#[trigger] g@[j])@.len() == pw,
    ensures
        r == pooled(
            weights@,
            neighbours(grid_view(g@), pw as int, ph as int, x as int, y as int),
        ),
{
    let l: usize = if x >= 1 {
        x - 1
    } else {
        x
    };
    let right: usize = if x + 1 < pw {
        x + 1
    } else {
        x
    };
    let t: usize = if y >= 1 {
        y - 1
    } else {
        y
    };
    let b: usize = if y + 1 < ph {
        y + 1
    } else {
        y
    };
    let ghost nine = neighbours(grid_view(g@), pw as int, ph as int, x as int, y as int);
    let row: &Vec<A> = &g[y];
    let above: &Vec<A> = &g[t];
    let below: &Vec<A> = &g[b];
    assert(g@[y as int]@.len() == pw);
    assert(g@[t as int]@.len() == pw);
    assert(g@[b as int]@.len() == pw);
    let mut mins: [A; 4] = [row[x], row[l], row[right], above[l]];
    assert(mins@ =~= nine.take(4));
    sort4(&mut mins);
    store_min4(above[x], &mut mins);
    store_min4(above[right], &mut mins);
    store_min4(below[l], &mut mins);
    store_min4(below[x], &mut mins);
    store_min4(below[right], &mut mins);
    proof {
        reveal_with_fuel(smallest4, 6);
    }
    assert(mins@ == smallest4(nine, 9));
    weights[0].times(mins[0]).plus(weights[1].times(mins[1])).plus(
        weights[2].times(mins[2]),
    ).plus(weights[3].times(mins[3]))
}

/// The four pooled cells of the block `(bx, by)`.
pub open spec fn block_difference<A: Amount>(
    weights: Seq<A>,
    g: Grid<A>,
    pw: int,
    ph: int,
    bx: int,
    by: int,
) -> A {
    pooled(weights, neighbours(g, pw, ph, 2 * bx, 2 * by)).plus_spec(
        pooled(weights, neighbours(g, pw, ph, 2 * bx + 1, 2 * by)),
    ).plus_spec(pooled(weights, neighbours(g, pw, ph, 2 * bx, 2 * by + 1))).plus_spec(
        pooled(weights, neighbours(g, pw, ph, 2 * bx + 1, 2 * by + 1)),
    )
}

/// What turns a block's modulated value into a quantizer.
pub struct FieldScale<A> {
    pub mul: A,
    pub add: A,
    pub inv_scale: A,
    pub strength: A,
}

/// The same at a distance.
pub open spec fn scale_at<A: Amount>(distance: A, inv_scale: A) -> FieldScale<A> {
    let scale = dec::<A>(AC_QUANT).over_spec(distance);
    let base = A::ratio_spec(12, 25).times_spec(scale);
    let dampen = dampen_spec(distance);
    FieldScale {
        mul: scale.times_spec(dampen),
        add: A::ratio_spec(1, 1).minus_spec(dampen).times_spec(base),
        inv_scale,
        strength: hf_strength(distance),
    }
}

/// The base-two logarithm of e.
pub const LOG2_E: i64 = 14_426_950_410_000;

/// Where the samples of a block are taken from: at its corner, but no further
/// than eight samples from the end where there are as many.
pub open spec fn block_corner(p: int, len: int) -> int {
    let last = if len >= 8 {
        len - 8
    } else {
        0
    };
    if p < last {
        p
    } else {
        last
    }
}

/// The quantizer of the block at `(px, py)` whose pooled difference is `aq`.
#[verifier::opaque]
pub open spec fn quantizer_at<A: Amount>(
    v: Planes<A>,
    w: int,
    h: int,
    px: int,
    py: int,
    aq: A,
    s: FieldScale<A>,
) -> u8 {
    let x = block_corner(px, w);
    let y = block_corner(py, h);
    let mask = dec::<A>(GAMMA_WEIGHT).fused_spec(
        log2_estimate(gamma_sum(v, w, h, x, y, 64).times_spec(A::ratio_spec(1, 64))),
        mask_spec(aq),
    );
    let fine = hf_modulated(v, w, h, x, y, mask, s.strength);
    let blue = blue_term(blue_sum(v, w, h, x, y, 64)).plus_spec(mask);
    let out = fine.lesser_spec(blue);
    let q = exp2_estimate(out.times_spec(dec(LOG2_E))).times_spec(s.mul).plus_spec(s.add);
    let b = q.fused_spec(s.inv_scale, A::ratio_spec(1, 2)).byte_spec();
    if b < 1 {
        1
    } else {
        b
    }
}

/// The field of quantizers of the `bw x bh` blocks at `(x0, y0)`. Blocks that lie
/// outside the image get quantizer 1.
pub open spec fn quant_field_of<A: Amount>(
    v: Planes<A>,
    w: int,
    h: int,
    bw: int,
    bh: int,
    x0: int,
    y0: int,
    distance: A,
    inv_scale: A,
) -> Field {
    let g = difference_map(v, w, h, x0, y0, 2 * bw, 2 * bh);
    let weights = pool_weights(distance);
    let s = scale_at(distance, inv_scale);
    Seq::new(
        bh as nat,
        |by: int|
            Seq::new(
                bw as nat,
                |bx: int|
                    if x0 + 8 * bx >= w || y0 + 8 * by >= h {
                        1u8
                    } else {
                        quantizer_at(
                            v,
                            w,
                            h,
                            x0 + 8 * bx,
                            y0 + 8 * by,
                            block_difference(weights, g, 2 * bw, 2 * bh, bx, by),
                            s,
                        )
                    },
            ),
    )
}

fn scale_of<A: Amount>(distance: A, inv_scale: A) -> (r: FieldScale<A>)
    ensures
        r == scale_at(distance, inv_scale),
{
    let scale: A = A::ratio(AC_QUANT, SCALE).over(distance);
    let base: A = A::ratio(12, 25).times(scale);
    let dampen: A = aq_dampen(distance);
    FieldScale {
        mul: scale.times(dampen),
        add: A::ratio(1, 1).minus(dampen).times(base),
        inv_scale,
        strength: hf_modulation_strength(distance),
    }
}

fn corner(p: usize, len: usize) -> (r: usize)
    ensures
        r == block_corner(p as int, len as int),
{
    let last: usize = if len >= 8 {
        len - 8
    } else {
        0
    };
    if p < last {
        p
    } else {
        last
    }
}

fn quantizer<A: Amount>(img: &Image3<A>, px: usize, py: usize, aq: A, s: &FieldScale<A>) -> (r: u8)
    requires
        img.wf(),
        img.width() > 0,
        img.height() > 0,
        px + 8 <= usize::MAX,
        py + 8 <= usize::MAX,
    ensures
        r == quantizer_at(
            img@,
            img.width() as int,
            img.height() as int,
            px as int,
            py as int,
            aq,
            *s,
        ),
{
    proof {
        reveal(quantizer_at);
    }
    let x: usize = corner(px, img.xsize());
    let y: usize = corner(py, img.ysize());
    let mask: A = gamma_modulation(x, y, img, compute_mask(aq));
    let fine: A = hf_modulation(x, y, img, mask, s.strength);
    let out: A = fine.lesser(blue_modulation(x, y, img, mask));
    let q: A = fast_exp2(out.times(A::ratio(LOG2_E, SCALE))).times(s.mul).plus(s.add);
    let b: u8 = q.fused(s.inv_scale, A::ratio(1, 2)).byte();
    if b < 1 {
        1
    } else {
        b
    }
}

/// Fills the field of quantizers of the blocks that begin at sample `(x0, y0)`.
pub fn fill_quant_field_scalar<A: Amount>(
    img: &Image3<A>,
    field: &mut QuantField,
    bw: usize,
    bh: usize,
    x0: usize,
    y0: usize,
    distance: A,
    inv_scale: A,
)
    requires
        img.wf(),
        img.width() > 0,
        img.height() > 0,
        field_shape(old(field)@, bw as int, bh as int),
        x0 + 8 * bw < usize::MAX,
        y0 + 8 * bh < usize::MAX,
    ensures
        final(field)@ == quant_field_of(
            img@,
            img.width() as int,
            img.height() as int,
            bw as int,
            bh as int,
            x0 as int,
            y0 as int,
            distance,
            inv_scale,
        ),
{
    let ghost v = img@;
    let ghost w = img.width() as int;
    let ghost h = img.height() as int;
    let ghost want = quant_field_of(
        v,
        w,
        h,
        bw as int,
        bh as int,
        x0 as int,
        y0 as int,
        distance,
        inv_scale,
    );
    let (pw, ph): (usize, usize) = (2 * bw, 2 * bh);
    let g: Vec<Vec<A>> = map_differences(img, x0, y0, pw, ph);
    let weights: [A; 4] = erosion_weights(distance);
    let s: FieldScale<A> = scale_of(distance, inv_scale);
    let ghost map = difference_map(v, w, h, x0 as int, y0 as int, pw as int, ph as int);
    assert(grid_view(g@).len() == ph);
    assert(g@.len() == ph);
    assert forall|j: int| 0 <= j < ph implies (#[trigger] g@[j])@.len() == pw by {
        assert(grid_view(g@)[j].len() == pw);
    }
    let mut by: usize = 0;
    while by < bh
        invariant
            by <= bh,
            img.wf(),
            img.width() > 0,
            img.height() > 0,
            v == img@,
            w == img.width(),
            h == img.height(),
            x0 + 8 * bw < usize::MAX,
            y0 + 8 * bh < usize::MAX,
            pw == 2 * bw,
            ph == 2 * bh,
            g@.len() == ph,
            forall|j: int| 0 <= j < ph ==> (#[trigger] g@[j])@.len() == pw,
            grid_view(g@) == map,
            map == difference_map(v, w, h, x0 as int, y0 as int, pw as int, ph as int),
            weights@ == pool_weights(distance),
            s == scale_at(distance, inv_scale),
            want == quant_field_of(
                v,
                w,
                h,
                bw as int,
                bh as int,
                x0 as int,
                y0 as int,
                distance,
                inv_scale,
            ),
            field_shape(field@, bw as int, bh as int),
            forall|j: int| 0 <= j < by ==> #[trigger] field@[j] == want[j],
        decreases bh - by,
    {
        let mut bx: usize = 0;
        while bx < bw
            invariant
                bx <= bw,
                by < bh,
                img.wf(),
                img.width() > 0,
                img.height() > 0,
                v == img@,
                w == img.width(),
                h == img.height(),
                x0 + 8 * bw < usize::MAX,
                y0 + 8 * bh < usize::MAX,
                pw == 2 * bw,
                ph == 2 * bh,
                g@.len() == ph,
                forall|j: int| 0 <= j < ph ==> (#[trigger] g@[j])@.len() == pw,
                grid_view(g@) == map,
                map == difference_map(v, w, h, x0 as int, y0 as int, pw as int, ph as int),
                weights@ == pool_weights(distance),
                s == scale_at(distance, inv_scale),
                want == quant_field_of(
                    v,
                    w,
                    h,
                    bw as int,
                    bh as int,
                    x0 as int,
                    y0 as int,
                    distance,
                    inv_scale,
                ),
                field_shape(field@, bw as int, bh as int),
                forall|j: int| 0 <= j < by ==> #[trigger] field@[j] == want[j],
                forall|i: int|
                    0 <= i < bx ==> #[trigger] field@[by as int][i] == want[by as int][i],
            decreases bw - bx,
        {
            let px: usize = x0 + 8 * bx;
            let py: usize = y0 + 8 * by;
            let ghost before = field@;
            assert(before[by as int].len() == bw);
            let q: u8 = if px >= img.xsize() || py >= img.ysize() {
                1
            } else {
                let aq: A = pool_cell(&weights, &g, pw, ph, 2 * bx, 2 * by).plus(
                    pool_cell(&weights, &g, pw, ph, 2 * bx + 1, 2 * by),
                ).plus(pool_cell(&weights, &g, pw, ph, 2 * bx, 2 * by + 1)).plus(
                    pool_cell(&weights, &g, pw, ph, 2 * bx + 1, 2 * by + 1),
                );
                quantizer(img, px, py, aq, &s)
            };
            assert(q == want[by as int][bx as int]);
            field.set(bx, by, q);
            proof {
                assert(field@ == with_window(before, bx as int, by as int, 1, 1, q));
                assert forall|j: int| 0 <= j < bh implies (#[trigger] field@[j]).len() == bw by {
                    assert(before[j].len() == bw);
                }
                assert forall|j: int| 0 <= j < by implies #[trigger] field@[j] == want[j] by {
                    assert(before[j] == want[j]);
                    assert(before[j].len() == bw);
                    assert(field@[j] =~= before[j]);
                }
            }
            bx += 1;
        }
        assert(field@[by as int].len() == bw);
        assert(field@[by as int] =~= want[by as int]);
        by += 1;
    }
    assert(field@ =~= want);
}

/// No block gets quantizer 0.
pub proof fn law_quantizers_are_positive<A: Amount>(
    v: Planes<A>,
    w: int,
    h: int,
    bw: int,
    bh: int,
    x0: int,
    y0: int,
    distance: A,
    inv_scale: A,
    bx: int,
    by: int,
)
    requires
        0 <= bx < bw,
        0 <= by < bh,
    ensures
        quant_field_of(v, w, h, bw, bh, x0, y0, distance, inv_scale)[by][bx] >= 1,
        x0 + 8 * bx >= w || y0 + 8 * by >= h ==> quant_field_of(
            v,
            w,
            h,
            bw,
            bh,
            x0,
            y0,
            distance,
            inv_scale,
        )[by][bx] == 1,
{
    reveal(quantizer_at);
}

} // verus!
