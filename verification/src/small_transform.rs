//! Transforms of an 8x8 block that work on parts of it: 4x4, 4x8 and 8x4
//! cosine transforms, and the corner transforms.

use crate::amount::Amount;
use crate::transform::{
    column, forward_columns, forward_pass, grid, lemma_row_lengths, scale_all, scaled, sized,
    transpose, transposed, DctWeights,
};
use vstd::prelude::*;

verus! {

/// Samples or coefficients, row by row.
pub type Block<A> = Seq<Seq<A>>;

/// The `cw x ch` part of a block at `(x0, y0)`.
pub open spec fn part<A>(g: Block<A>, x0: int, y0: int, cw: int, ch: int) -> Block<A> {
    Seq::new(ch as nat, |y: int| Seq::new(cw as nat, |x: int| g[y0 + y][x0 + x]))
}

fn take_part<A: Amount>(
    rows: &Vec<Vec<A>>,
    x0: usize,
    y0: usize,
    cw: usize,
    ch: usize,
) -> (r: Vec<Vec<A>>)
    requires
        sized(grid(rows@), 8, 8),
        x0 + cw <= 8,
        y0 + ch <= 8,
    ensures
        grid(r@) == part(grid(rows@), x0 as int, y0 as int, cw as int, ch as int),
        r@.len() == ch,
        sized(grid(r@), cw as int, ch as int),
{
    proof {
        lemma_row_lengths(rows@, 8);
    }
    let ghost want = part(grid(rows@), x0 as int, y0 as int, cw as int, ch as int);
    let mut out: Vec<Vec<A>> = Vec::new();
    let mut y: usize = 0;
    while y < ch
        invariant
            y <= ch,
            x0 + cw <= 8,
            y0 + ch <= 8,
            rows@.len() == 8,
            forall|j: int| 0 <= j < 8 ==> (#[trigger] rows@[j])@.len() == 8,
            want == part(grid(rows@), x0 as int, y0 as int, cw as int, ch as int),
            out@.len() == y,
            forall|j: int| 0 <= j < y ==> (#[trigger] out@[j])@ == want[j],
        decreases ch - y,
    {
        let mut row: Vec<A> = Vec::new();
        let mut x: usize = 0;
        while x < cw
            invariant
                x <= cw,
                y < ch,
                x0 + cw <= 8,
                y0 + ch <= 8,
                rows@.len() == 8,
                forall|j: int| 0 <= j < 8 ==> (#[trigger] rows@[j])@.len() == 8,
                row@.len() == x,
                forall|i: int| 0 <= i < x ==> #[trigger] row@[i] == rows@[y0 + y]@[x0 + i],
            decreases cw - x,
        {
            row.push(rows[y0 + y][x0 + x]);
            x += 1;
        }
        assert(row@ =~= want[y as int]);
        out.push(row);
        y += 1;
    }
    assert(grid(out@) =~= want);
    out
}

/// The 4x4 transform: rows first; row `u`, column `v`, where `u` is the horizontal
/// frequency.
pub open spec fn dct4x4_part<A: Amount>(w: DctWeights<A>, q: Block<A>) -> Block<A> {
    scaled(
        forward_pass(w, forward_pass(w, transposed(q, 4), 4), 4),
        A::ratio_spec(1, 16),
    )
}

/// The transform of a part 8 wide and 4 tall: columns first; row `v`, column `u`.
pub open spec fn dct4x8_part<A: Amount>(w: DctWeights<A>, q: Block<A>) -> Block<A> {
    scaled(forward_pass(w, forward_pass(w, q, 8), 4), A::ratio_spec(1, 32))
}

/// The transform of a part 4 wide and 8 tall: columns first; row `u`, column `v`.
pub open spec fn dct8x4_part<A: Amount>(w: DctWeights<A>, q: Block<A>) -> Block<A> {
    scaled(
        transposed(forward_pass(w, forward_pass(w, q, 4), 8), 4),
        A::ratio_spec(1, 32),
    )
}

proof fn lemma_scaled_size<A: Amount>(g: Block<A>, factor: A, width: int, height: int)
    requires
        sized(g, width, height),
    ensures
        sized(scaled(g, factor), width, height),
{
    assert forall|y: int| 0 <= y < height implies (#[trigger] scaled(g, factor)[y]).len()
        == width by {
        assert(g[y].len() == width);
    }
}

/// Transforms a 4x4 part.
pub fn dct4x4_2d<A: Amount>(w: &DctWeights<A>, q: &Vec<Vec<A>>) -> (r: Vec<Vec<A>>)
    requires
        q@.len() == 4,
        sized(grid(q@), 4, 4),
    ensures
        grid(r@) == dct4x4_part(*w, grid(q@)),
        r@.len() == 4,
        sized(grid(r@), 4, 4),
{
    let turned: Vec<Vec<A>> = transpose(q, 4);
    assert(grid(turned@).len() == 4);
    let first: Vec<Vec<A>> = forward_columns(w, &turned, 4);
    assert(grid(first@).len() == 4);
    let second: Vec<Vec<A>> = forward_columns(w, &first, 4);
    assert(grid(second@).len() == 4);
    proof {
        lemma_scaled_size(grid(second@), A::ratio_spec(1, 16), 4, 4);
    }
    scale_all(&second, A::ratio(1, 16))
}

/// Transforms a part 8 wide and 4 tall.
pub fn dct4x8_2d<A: Amount>(w: &DctWeights<A>, q: &Vec<Vec<A>>) -> (r: Vec<Vec<A>>)
    requires
        q@.len() == 4,
        sized(grid(q@), 8, 4),
    ensures
        grid(r@) == dct4x8_part(*w, grid(q@)),
        r@.len() == 4,
        sized(grid(r@), 8, 4),
{
    let first: Vec<Vec<A>> = forward_columns(w, q, 8);
    assert(grid(first@).len() == 8);
    let second: Vec<Vec<A>> = forward_columns(w, &first, 4);
    assert(grid(second@).len() == 4);
    proof {
        lemma_scaled_size(grid(second@), A::ratio_spec(1, 32), 8, 4);
    }
    scale_all(&second, A::ratio(1, 32))
}

/// Transforms a part 4 wide and 8 tall.
pub fn dct8x4_2d<A: Amount>(w: &DctWeights<A>, q: &Vec<Vec<A>>) -> (r: Vec<Vec<A>>)
    requires
        q@.len() == 8,
        sized(grid(q@), 4, 8),
    ensures
        grid(r@) == dct8x4_part(*w, grid(q@)),
        r@.len() == 4,
        sized(grid(r@), 8, 4),
{
    let first: Vec<Vec<A>> = forward_columns(w, q, 4);
    assert(grid(first@).len() == 4);
    let second: Vec<Vec<A>> = forward_columns(w, &first, 8);
    assert(grid(second@).len() == 8);
    let turned: Vec<Vec<A>> = transpose(&second, 4);
    assert(grid(turned@).len() == 4);
    proof {
        lemma_scaled_size(grid(turned@), A::ratio_spec(1, 32), 8, 4);
    }
    scale_all(&turned, A::ratio(1, 32))
}

/// An 8x8 block of four interleaved 4x4 ones: entry `(2u + qy, 2v + qx)` is entry
/// `(u, v)` of quadrant `(qy, qx)`.
pub open spec fn quadrants<A>(a: Block<A>, b: Block<A>, c: Block<A>, d: Block<A>) -> Block<A> {
    Seq::new(
        8,
        |y: int|
            Seq::new(
                8,
                |x: int|
                    if y % 2 == 0 && x % 2 == 0 {
                        a[y / 2][x / 2]
                    } else if y % 2 == 0 {
                        b[y / 2][x / 2]
                    } else if x % 2 == 0 {
                        c[y / 2][x / 2]
                    } else {
                        d[y / 2][x / 2]
                    },
            ),
    )
}

/// An 8x8 block of two interleaved halves of four rows each.
pub open spec fn halves<A>(a: Block<A>, b: Block<A>) -> Block<A> {
    Seq::new(
        8,
        |y: int|
            Seq::new(
                8,
                |x: int|
                    if y % 2 == 0 {
                        a[y / 2][x]
                    } else {
                        b[y / 2][x]
                    },
            ),
    )
}

/// A block with one entry replaced.
pub open spec fn put<A>(g: Block<A>, y: int, x: int, a: A) -> Block<A> {
    g.update(y, g[y].update(x, a))
}

/// The 4x4 transforms of the quadrants; their means are replaced by the sums and
/// differences of the four.
pub open spec fn dct4x4_spec<A: Amount>(w: DctWeights<A>, g: Block<A>) -> Block<A> {
    let q = quadrants(
        dct4x4_part(w, part(g, 0, 0, 4, 4)),
        dct4x4_part(w, part(g, 4, 0, 4, 4)),
        dct4x4_part(w, part(g, 0, 4, 4, 4)),
        dct4x4_part(w, part(g, 4, 4, 4, 4)),
    );
    let quarter = A::ratio_spec(1, 4);
    let (a, b, c, d) = (q[0][0], q[0][1], q[1][0], q[1][1]);
    put(
        put(
            put(
                put(q, 0, 0, a.plus_spec(b).plus_spec(c).plus_spec(d).times_spec(quarter)),
                0,
                1,
                a.plus_spec(b).minus_spec(c).minus_spec(d).times_spec(quarter),
            ),
            1,
            0,
            a.minus_spec(b).plus_spec(c).minus_spec(d).times_spec(quarter),
        ),
        1,
        1,
        a.minus_spec(b).minus_spec(c).plus_spec(d).times_spec(quarter),
    )
}

/// Two halves, their means replaced by half their sum and half their difference.
pub open spec fn joined_halves<A: Amount>(a: Block<A>, b: Block<A>) -> Block<A> {
    let q = halves(a, b);
    let half = A::ratio_spec(1, 2);
    put(
        put(q, 0, 0, q[0][0].plus_spec(q[1][0]).times_spec(half)),
        1,
        0,
        q[0][0].minus_spec(q[1][0]).times_spec(half),
    )
}

/// The transform of the upper and the lower half.
pub open spec fn dct4x8_spec<A: Amount>(w: DctWeights<A>, g: Block<A>) -> Block<A> {
    joined_halves(dct4x8_part(w, part(g, 0, 0, 8, 4)), dct4x8_part(w, part(g, 0, 4, 8, 4)))
}

/// The transform of the left and the right half.
pub open spec fn dct8x4_spec<A: Amount>(w: DctWeights<A>, g: Block<A>) -> Block<A> {
    joined_halves(dct8x4_part(w, part(g, 0, 0, 4, 8)), dct8x4_part(w, part(g, 4, 0, 4, 8)))
}

fn set_entry<A: Amount>(rows: &mut Vec<Vec<A>>, y: usize, x: usize, a: A)
    requires
        y < 8,
        x < 8,
        sized(grid(old(rows)@), 8, 8),
    ensures
        grid(final(rows)@) == put(grid(old(rows)@), y as int, x as int, a),
        sized(grid(final(rows)@), 8, 8),
        final(rows)@.len() == 8,
{
    let ghost before = rows@;
    proof {
        lemma_row_lengths(rows@, 8);
    }
    assert(grid(rows@).len() == 8);
    rows[y][x] = a;
    let ghost want = put(grid(before), y as int, x as int, a);
    assert(grid(rows@) =~~= want);
    assert forall|j: int| 0 <= j < 8 implies (#[trigger] want[j]).len() == 8 by {
        assert(grid(before)[j].len() == 8);
    }
}

fn weave_quadrants<A: Amount>(
    a: &Vec<Vec<A>>,
    b: &Vec<Vec<A>>,
    c: &Vec<Vec<A>>,
    d: &Vec<Vec<A>>,
) -> (r: Vec<Vec<A>>)
    requires
        a@.len() == 4,
        b@.len() == 4,
        c@.len() == 4,
        d@.len() == 4,
        sized(grid(a@), 4, 4),
        sized(grid(b@), 4, 4),
        sized(grid(c@), 4, 4),
        sized(grid(d@), 4, 4),
    ensures
        grid(r@) == quadrants(grid(a@), grid(b@), grid(c@), grid(d@)),
        r@.len() == 8,
        sized(grid(r@), 8, 8),
{
    proof {
        lemma_row_lengths(a@, 4);
        lemma_row_lengths(b@, 4);
        lemma_row_lengths(c@, 4);
        lemma_row_lengths(d@, 4);
    }
    let ghost want = quadrants(grid(a@), grid(b@), grid(c@), grid(d@));
    let mut out: Vec<Vec<A>> = Vec::new();
    let mut y: usize = 0;
    while y < 8
        invariant
            y <= 8,
            a@.len() == 4,
            b@.len() == 4,
            c@.len() == 4,
            d@.len() == 4,
            forall|j: int| 0 <= j < 4 ==> (#[trigger] a@[j])@.len() == 4,
            forall|j: int| 0 <= j < 4 ==> (#[trigger] b@[j])@.len() == 4,
            forall|j: int| 0 <= j < 4 ==> (#[trigger] c@[j])@.len() == 4,
            forall|j: int| 0 <= j < 4 ==> (#[trigger] d@[j])@.len() == 4,
            want == quadrants(grid(a@), grid(b@), grid(c@), grid(d@)),
            out@.len() == y,
            forall|j: int| 0 <= j < y ==> (#[trigger] out@[j])@ == want[j],
        decreases 8 - y,
    {
        let (even, odd): (&Vec<A>, &Vec<A>) = if y % 2 == 0 {
            (&a[y / 2], &b[y / 2])
        } else {
            (&c[y / 2], &d[y / 2])
        };
        let row: Vec<A> = vec![
            even[0],
            odd[0],
            even[1],
            odd[1],
            even[2],
            odd[2],
            even[3],
            odd[3],
        ];
        assert(row@ =~= want[y as int]);
        out.push(row);
        y += 1;
    }
    assert(grid(out@) =~= want);
    out
}

fn weave_halves<A: Amount>(a: &Vec<Vec<A>>, b: &Vec<Vec<A>>) -> (r: Vec<Vec<A>>)
    requires
        a@.len() == 4,
        b@.len() == 4,
        sized(grid(a@), 8, 4),
        sized(grid(b@), 8, 4),
    ensures
        grid(r@) == halves(grid(a@), grid(b@)),
        r@.len() == 8,
        sized(grid(r@), 8, 8),
{
    proof {
        lemma_row_lengths(a@, 8);
        lemma_row_lengths(b@, 8);
    }
    let ghost want = halves(grid(a@), grid(b@));
    let mut out: Vec<Vec<A>> = Vec::new();
    let mut y: usize = 0;
    while y < 8
        invariant
            y <= 8,
            a@.len() == 4,
            b@.len() == 4,
            forall|j: int| 0 <= j < 4 ==> (#[trigger] a@[j])@.len() == 8,
            forall|j: int| 0 <= j < 4 ==> (#[trigger] b@[j])@.len() == 8,
            want == halves(grid(a@), grid(b@)),
            out@.len() == y,
            forall|j: int| 0 <= j < y ==> (#[trigger] out@[j])@ == want[j],
        decreases 8 - y,
    {
        let from: &Vec<A> = if y % 2 == 0 {
            &a[y / 2]
        } else {
            &b[y / 2]
        };
        let row: Vec<A> = vec![
            from[0],
            from[1],
            from[2],
            from[3],
            from[4],
            from[5],
            from[6],
            from[7],
        ];
        assert(row@ =~= want[y as int]);
        out.push(row);
        y += 1;
    }
    assert(grid(out@) =~= want);
    out
}

/// Transforms the four quadrants of an 8x8 block.
pub fn dct4x4<A: Amount>(w: &DctWeights<A>, g: &Vec<Vec<A>>) -> (r: Vec<Vec<A>>)
    requires
        sized(grid(g@), 8, 8),
    ensures
        grid(r@) == dct4x4_spec(*w, grid(g@)),
        sized(grid(r@), 8, 8),
{
    let qa: Vec<Vec<A>> = dct4x4_2d(w, &take_part(g, 0, 0, 4, 4));
    let qb: Vec<Vec<A>> = dct4x4_2d(w, &take_part(g, 4, 0, 4, 4));
    let qc: Vec<Vec<A>> = dct4x4_2d(w, &take_part(g, 0, 4, 4, 4));
    let qd: Vec<Vec<A>> = dct4x4_2d(w, &take_part(g, 4, 4, 4, 4));
    let mut out: Vec<Vec<A>> = weave_quadrants(&qa, &qb, &qc, &qd);
    proof {
        lemma_row_lengths(out@, 8);
    }
    let (a, b, c, d): (A, A, A, A) = (out[0][0], out[0][1], out[1][0], out[1][1]);
    let quarter: A = A::ratio(1, 4);
    set_entry(&mut out, 0, 0, a.plus(b).plus(c).plus(d).times(quarter));
    set_entry(&mut out, 0, 1, a.plus(b).minus(c).minus(d).times(quarter));
    set_entry(&mut out, 1, 0, a.minus(b).plus(c).minus(d).times(quarter));
    set_entry(&mut out, 1, 1, a.minus(b).minus(c).plus(d).times(quarter));
    out
}

fn join_halves<A: Amount>(a: &Vec<Vec<A>>, b: &Vec<Vec<A>>) -> (r: Vec<Vec<A>>)
    requires
        a@.len() == 4,
        b@.len() == 4,
        sized(grid(a@), 8, 4),
        sized(grid(b@), 8, 4),
    ensures
        grid(r@) == joined_halves(grid(a@), grid(b@)),
        sized(grid(r@), 8, 8),
{
    let mut out: Vec<Vec<A>> = weave_halves(a, b);
    proof {
        lemma_row_lengths(out@, 8);
    }
    let (p, q): (A, A) = (out[0][0], out[1][0]);
    let half: A = A::ratio(1, 2);
    set_entry(&mut out, 0, 0, p.plus(q).times(half));
    set_entry(&mut out, 1, 0, p.minus(q).times(half));
    out
}

/// Transforms the upper and the lower half of an 8x8 block.
pub fn dct4x8<A: Amount>(w: &DctWeights<A>, g: &Vec<Vec<A>>) -> (r: Vec<Vec<A>>)
    requires
        sized(grid(g@), 8, 8),
    ensures
        grid(r@) == dct4x8_spec(*w, grid(g@)),
        sized(grid(r@), 8, 8),
{
    let top: Vec<Vec<A>> = dct4x8_2d(w, &take_part(g, 0, 0, 8, 4));
    let bottom: Vec<Vec<A>> = dct4x8_2d(w, &take_part(g, 0, 4, 8, 4));
    join_halves(&top, &bottom)
}

/// Transforms the left and the right half of an 8x8 block.
pub fn dct8x4<A: Amount>(w: &DctWeights<A>, g: &Vec<Vec<A>>) -> (r: Vec<Vec<A>>)
    requires
        sized(grid(g@), 8, 8),
    ensures
        grid(r@) == dct8x4_spec(*w, grid(g@)),
        sized(grid(r@), 8, 8),
{
    let left: Vec<Vec<A>> = dct8x4_2d(w, &take_part(g, 0, 0, 4, 8));
    let right: Vec<Vec<A>> = dct8x4_2d(w, &take_part(g, 4, 0, 4, 8));
    join_halves(&left, &right)
}

/// Denominator of the corner basis.
pub const BASIS_SCALE: u64 = 10_000_000_000_000_000;

/// Basis of the corner transform: entry `[j][i]` is basis vector `i` at sample
/// `j`. The vectors are orthonormal; the first one is the constant one quarter.
pub const AFV_BASIS_TRANSPOSE: [[i64; 16]; 16] = [
    [
        2_500_000_000_000_000, 8_769_029_297_991_420, 0, 0, 0, -4_105_377_591_765_233, 0, 0, 0,
        0, 0, 0, 0, 0, 0, 0,
    ],
    [
        2_500_000_000_000_000, 2_206_518_106_944_235, 0, 0, -7_071_067_811_865_474,
        6_235_485_373_547_691, 0, 0, 0, 0, 0, 0, 0, 0, 0, 0,
    ],
    [
        2_500_000_000_000_000, -1_014_005_039_375_376, 4_067_007_583_026_075,
        -2_125_574_805_828_875, 0, -643_507_165_794_627, -4_517_556_589_999_482,
        -3_046_847_507_248_690, 3_017_929_516_615_495, 4_082_482_904_638_627,
        1_747_866_975_480_809, -2_110_560_104_933_578, -1_426_608_480_880_726,
        -1_381_354_035_075_859, -1_743_760_259_965_107, 1_135_498_731_499_434,
    ],
    [
        2_500_000_000_000_000, -1_014_005_039_375_375, 4_444_481_661_973_445,
        3_085_497_062_849_767, 0, -643_507_165_794_627, 1_585_450_355_184_006,
        5_112_616_136_591_823, 2_579_236_279_634_118, 0, 812_611_176_717_539,
        1_856_718_091_610_980, -3_416_446_842_253_372, 3_302_282_550_303_788,
        702_790_691_196_284, -741_750_459_581_035,
    ],
    [
        2_500_000_000_000_000, 2_206_518_106_944_236, 0, 0, 7_071_067_811_865_476,
        6_235_485_373_547_694, 0, 0, 0, 0, 0, 0, 0, 0, 0, 0,
    ],
    [
        2_500_000_000_000_000, -1_014_005_039_375_378, 0, 4_706_702_258_572_536, 0,
        -643_507_165_794_628, -403_851_516_082_220, 0, 1_627_234_014_286_620, 0, 0, 0,
        7_367_497_537_172_237, 875_511_500_058_708, -2_921_026_642_334_881,
        1_940_289_303_259_434,
    ],
    [
        2_500_000_000_000_000, -1_014_005_039_375_377, 1_957_439_937_204_294,
        -1_621_205_195_722_993, 0, -643_507_165_794_628, 74_182_263_792_424,
        -2_904_801_297_289_980, 952_002_265_347_504, 0, -3_675_398_009_862_027,
        4_921_585_901_373_873, 2_462_710_772_207_515, -794_670_660_590_957,
        3_623_817_333_531_167, -4_351_904_965_232_280,
    ],
    [
        2_500_000_000_000_000, -1_014_005_039_375_376, 2_929_100_136_981_264, 0, 0,
        -643_507_165_794_627, 3_935_103_426_921_017, -657_870_154_914_280, 0,
        -4_082_482_904_638_628, -3_078_822_139_579_090, -3_852_501_370_925_192,
        -857_401_903_551_931, -4_613_374_887_461_511, 0, 2_191_868_483_885_747,
    ],
    [
        2_500_000_000_000_000, -1_014_005_039_375_376, -4_067_007_583_026_072,
        -2_125_574_805_828_705, 0, -643_507_165_794_627, -4_517_556_589_999_464,
        3_046_847_507_248_840, 3_017_929_516_615_503, -4_082_482_904_638_635,
        -1_747_866_975_480_813, 2_110_560_104_933_581, -1_426_608_480_880_734,
        -1_381_354_035_075_829, -1_743_760_259_965_108, 1_135_498_731_499_426,
    ],
    [
        2_500_000_000_000_000, -1_014_005_039_375_377, -1_957_439_937_204_287,
        -1_621_205_195_722_833, 0, -643_507_165_794_628, 74_182_263_792_444,
        2_904_801_297_290_076, 952_002_265_347_505, 0, 3_675_398_009_862_011,
        -4_921_585_901_373_891, 2_462_710_772_207_514, -794_670_660_591_026,
        3_623_817_333_531_165, -4_351_904_965_232_251,
    ],
    [
        2_500_000_000_000_000, -1_014_005_039_375_375, 0, -4_706_702_258_572_528, 0,
        -643_507_165_794_627, 1_107_416_575_309_343, 0, -1_627_234_014_286_617, 0, 0, 0,
        1_488_339_922_711_357, 4_972_464_710_953_509, 2_921_026_642_334_879,
        5_550_443_808_910_661,
    ],
    [
        2_500_000_000_000_000, -1_014_005_039_375_377, 1_137_907_446_044_809,
        -1_464_291_867_126_764, 0, -643_507_165_794_628, 829_816_309_488_205,
        -2_388_977_352_334_460, -3_531_238_544_981_630, -4_082_482_904_638_630,
        4_826_689_115_059_883, 1_741_941_265_991_622, -476_868_035_022_925,
        1_253_805_944_856_366, -4_326_608_024_727_445, -2_546_827_712_406_646,
    ],
    [
        2_500_000_000_000_000, -1_014_005_039_375_377, -4_444_481_661_973_438,
        3_085_497_062_849_487, 0, -643_507_165_794_628, 1_585_450_355_183_970,
        -5_112_616_136_592_012, 2_579_236_279_634_129, 0, -812_611_176_717_504,
        -1_856_718_091_610_990, -3_416_446_842_253_373, 3_302_282_550_303_805,
        702_790_691_196_282, -741_750_459_581_023,
    ],
    [
        2_500_000_000_000_000, -1_014_005_039_375_376, -2_929_100_136_981_264, 0, 0,
        -643_507_165_794_627, 3_935_103_426_921_022, 657_870_154_914_254, 0,
        4_082_482_904_638_634, 3_078_822_139_579_031, 3_852_501_370_925_211,
        -857_401_903_551_927, -4_613_374_887_461_554, 0, 2_191_868_483_885_728,
    ],
    [
        2_500_000_000_000_000, -1_014_005_039_375_376, -1_137_907_446_044_814,
        -1_464_291_867_126_654, 0, -643_507_165_794_627, 829_816_309_488_214,
        2_388_977_352_334_547, -3_531_238_544_981_624, 4_082_482_904_638_630,
        -4_826_689_115_059_858, -1_741_941_265_991_621, -476_868_035_022_928,
        1_253_805_944_856_431, -4_326_608_024_727_457, -2_546_827_712_406_641,
    ],
    [
        2_500_000_000_000_000, -1_014_005_039_375_374, 0, 4_251_149_611_657_548, 0,
        -643_507_165_794_626, -4_517_556_589_999_480, 0, -6_035_859_033_230_976, 0, 0, 0,
        -1_426_608_480_880_724, -1_381_354_035_075_845, 3_487_520_519_930_227,
        1_135_498_731_499_429,
    ],
];

/// The contraction of the leading `n` samples with basis vector `i`.
pub open spec fn basis_sum<A: Amount>(pixels: Seq<A>, i: int, n: int) -> A
    decreases n,
{
    if n <= 0 {
        A::zero_spec()
    } else {
        pixels[n - 1].fused_spec(
            A::ratio_spec(AFV_BASIS_TRANSPOSE@[n - 1]@[i], BASIS_SCALE),
            basis_sum(pixels, i, n - 1),
        )
    }
}

/// The corner transform of sixteen samples.
pub fn afv_dct4x4<A: Amount>(pixels: &Vec<A>) -> (r: Vec<A>)
    requires
        pixels@.len() == 16,
    ensures
        r@ == Seq::new(16, |i: int| basis_sum(pixels@, i, 16)),
{
    let basis: [[i64; 16]; 16] = AFV_BASIS_TRANSPOSE;
    let mut out: Vec<A> = Vec::new();
    let mut i: usize = 0;
    while i < 16
        invariant
            i <= 16,
            pixels@.len() == 16,
            basis == AFV_BASIS_TRANSPOSE,
            out@ == Seq::new(i as nat, |k: int| basis_sum(pixels@, k, 16)),
        decreases 16 - i,
    {
        let mut sum: A = A::zero();
        let mut j: usize = 0;
        while j < 16
            invariant
                j <= 16,
                i < 16,
                pixels@.len() == 16,
                basis == AFV_BASIS_TRANSPOSE,
                sum == basis_sum(pixels@, i as int, j as int),
            decreases 16 - j,
        {
            sum = pixels[j].fused(A::ratio(basis[j][i], BASIS_SCALE), sum);
            j += 1;
        }
        out.push(sum);
        i += 1;
        assert(out@ =~= Seq::new(i as nat, |k: int| basis_sum(pixels@, k, 16)));
    }
    out
}

/// Sample `i` of the corner quadrant of kind `kind`, mirrored so that the corner
/// of the block comes first. Bit 0 of the kind is the right half, bit 1 the lower.
pub open spec fn corner_sample<A>(g: Block<A>, kind: int, i: int) -> A {
    let right = kind % 2;
    let lower = kind / 2;
    let sx = if right == 1 {
        3 - i % 4
    } else {
        i % 4
    };
    let sy = if lower == 1 {
        3 - i / 4
    } else {
        i / 4
    };
    g[sy + 4 * lower][sx + 4 * right]
}

/// The block of a corner transform before its means are rewritten: the corner's
/// coefficients at even rows and columns, the quadrant beside it between them,
/// and the other half in the odd rows.
pub open spec fn corner_parts<A: Amount>(w: DctWeights<A>, g: Block<A>, kind: int) -> Block<A> {
    let right = kind % 2;
    let lower = kind / 2;
    let pixels = Seq::new(16, |i: int| corner_sample(g, kind, i));
    let beside = dct4x4_part(w, part(g, 4 - 4 * right, 4 * lower, 4, 4));
    let other = dct4x8_part(w, part(g, 0, 4 - 4 * lower, 8, 4));
    Seq::new(
        8,
        |y: int|
            Seq::new(
                8,
                |x: int|
                    if y % 2 == 1 {
                        other[y / 2][x]
                    } else if x % 2 == 1 {
                        beside[y / 2][x / 2]
                    } else {
                        basis_sum(pixels, (y / 2) * 4 + x / 2, 16)
                    },
            ),
    )
}

/// The corner transform of an 8x8 block: its first coefficient is the mean of the
/// block.
pub open spec fn afv_spec<A: Amount>(w: DctWeights<A>, g: Block<A>, kind: int) -> Block<A> {
    let q = corner_parts(w, g, kind);
    let quarter = A::ratio_spec(1, 4);
    let two = A::ratio_spec(2, 1);
    let a = q[0][0].times_spec(quarter);
    let (b, c) = (q[0][1], q[1][0]);
    put(
        put(
            put(q, 0, 0, a.plus_spec(b).plus_spec(two.times_spec(c)).times_spec(quarter)),
            0,
            1,
            a.minus_spec(b).times_spec(A::ratio_spec(1, 2)),
        ),
        1,
        0,
        a.plus_spec(b).minus_spec(two.times_spec(c)).times_spec(quarter),
    )
}

fn corner_samples<A: Amount>(g: &Vec<Vec<A>>, kind: u8) -> (r: Vec<A>)
    requires
        kind < 4,
        sized(grid(g@), 8, 8),
    ensures
        r@ == Seq::new(16, |i: int| corner_sample(grid(g@), kind as int, i)),
{
    proof {
        lemma_row_lengths(g@, 8);
    }
    assert(grid(g@).len() == 8);
    let right: usize = (kind % 2) as usize;
    let lower: usize = (kind / 2) as usize;
    let mut out: Vec<A> = Vec::new();
    let mut i: usize = 0;
    while i < 16
        invariant
            i <= 16,
            kind < 4,
            right == kind % 2,
            lower == kind / 2,
            g@.len() == 8,
            forall|j: int| 0 <= j < 8 ==> (#[trigger] g@[j])@.len() == 8,
            out@ == Seq::new(i as nat, |k: int| corner_sample(grid(g@), kind as int, k)),
        decreases 16 - i,
    {
        let sx: usize = if right == 1 {
            3 - i % 4
        } else {
            i % 4
        };
        let sy: usize = if lower == 1 {
            3 - i / 4
        } else {
            i / 4
        };
        out.push(g[sy + 4 * lower][sx + 4 * right]);
        i += 1;
        assert(out@ =~= Seq::new(i as nat, |k: int| corner_sample(grid(g@), kind as int, k)));
    }
    out
}

/// Transforms an 8x8 block with the corner transform of kind `kind`.
pub fn afv_from_pixels<A: Amount>(w: &DctWeights<A>, kind: u8, g: &Vec<Vec<A>>) -> (r: Vec<Vec<A>>)
    requires
        kind < 4,
        sized(grid(g@), 8, 8),
    ensures
        grid(r@) == afv_spec(*w, grid(g@), kind as int),
        sized(grid(r@), 8, 8),
{
    let right: usize = (kind % 2) as usize;
    let lower: usize = (kind / 2) as usize;
    let pixels: Vec<A> = corner_samples(g, kind);
    let corner: Vec<A> = afv_dct4x4(&pixels);
    let beside: Vec<Vec<A>> = dct4x4_2d(w, &take_part(g, 4 - 4 * right, 4 * lower, 4, 4));
    let other: Vec<Vec<A>> = dct4x8_2d(w, &take_part(g, 0, 4 - 4 * lower, 8, 4));
    proof {
        lemma_row_lengths(beside@, 4);
        lemma_row_lengths(other@, 8);
    }
    let ghost want = corner_parts(*w, grid(g@), kind as int);
    let ghost samples = pixels@;
    let mut out: Vec<Vec<A>> = Vec::new();
    let mut y: usize = 0;
    while y < 8
        invariant
            y <= 8,
            corner@ == Seq::new(16, |i: int| basis_sum(samples, i, 16)),
            samples == Seq::new(16, |i: int| corner_sample(grid(g@), kind as int, i)),
            beside@.len() == 4,
            other@.len() == 4,
            grid(beside@) == dct4x4_part(
                *w,
                part(grid(g@), 4 - 4 * (kind as int % 2), 4 * (kind as int / 2), 4, 4),
            ),
            grid(other@) == dct4x8_part(
                *w,
                part(grid(g@), 0, 4 - 4 * (kind as int / 2), 8, 4),
            ),
            forall|j: int| 0 <= j < 4 ==> (#[trigger] beside@[j])@.len() == 4,
            forall|j: int| 0 <= j < 4 ==> (#[trigger] other@[j])@.len() == 8,
            want == corner_parts(*w, grid(g@), kind as int),
            out@.len() == y,
            forall|j: int| 0 <= j < y ==> (#[trigger] out@[j])@ == want[j],
        decreases 8 - y,
    {
        let h: usize = y / 2;
        assert(grid(beside@)[h as int] == beside@[h as int]@);
        assert(grid(other@)[h as int] == other@[h as int]@);
        let row: Vec<A> = if y % 2 == 1 {
            let o: &Vec<A> = &other[h];
            vec![o[0], o[1], o[2], o[3], o[4], o[5], o[6], o[7]]
        } else {
            let b: &Vec<A> = &beside[h];
            vec![
                corner[4 * h],
                b[0],
                corner[4 * h + 1],
                b[1],
                corner[4 * h + 2],
                b[2],
                corner[4 * h + 3],
                b[3],
            ]
        };
        assert(row@ =~= want[y as int]);
        out.push(row);
        y += 1;
    }
    assert(grid(out@) =~= want);
    proof {
        lemma_row_lengths(out@, 8);
    }
    let quarter: A = A::ratio(1, 4);
    let two: A = A::ratio(2, 1);
    let a: A = out[0][0].times(quarter);
    let (b, c): (A, A) = (out[0][1], out[1][0]);
    set_entry(&mut out, 0, 0, a.plus(b).plus(two.times(c)).times(quarter));
    set_entry(&mut out, 0, 1, a.minus(b).times(A::ratio(1, 2)));
    set_entry(&mut out, 1, 0, a.plus(b).minus(two.times(c)).times(quarter));
    out
}

} // verus!
