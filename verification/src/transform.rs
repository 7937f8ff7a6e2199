//! One-dimensional cosine transforms and the separable transforms built on them.
//!
//! A transform of length `n` splits its input into the sums and the weighted
//! differences of mirrored samples, transforms both halves, and interleaves the
//! results; the inverse undoes these steps.

use crate::amount::Amount;
use vstd::prelude::*;

verus! {

/// Weights of the transforms: entry `i` of a forward table of length `n / 2`
/// scales the difference of samples `i` and `n - 1 - i`.
pub struct DctWeights<A> {
    pub wc4: [A; 2],
    pub wc8: [A; 4],
    pub wc16: [A; 8],
    pub wc32: [A; 16],
    pub wc64: [A; 32],
    pub inv_wc4: [A; 2],
    pub inv_wc8: [A; 4],
    pub inv_wc16: [A; 8],
    pub inv_wc32: [A; 16],
    pub inv_wc64: [A; 32],
    pub sqrt_2: A,
    pub inv_sqrt_2: A,
    pub half: A,
}

/// Lengths that the transforms know.
pub open spec fn known_length(n: int) -> bool {
    n == 2 || n == 4 || n == 8 || n == 16 || n == 32 || n == 64
}

/// Forward weights of length `n`.
pub open spec fn forward_weights<A>(w: DctWeights<A>, n: int) -> Seq<A> {
    if n == 4 {
        w.wc4@
    } else if n == 8 {
        w.wc8@
    } else if n == 16 {
        w.wc16@
    } else if n == 32 {
        w.wc32@
    } else {
        w.wc64@
    }
}

/// Inverse weights of length `n`.
pub open spec fn inverse_weights<A>(w: DctWeights<A>, n: int) -> Seq<A> {
    if n == 4 {
        w.inv_wc4@
    } else if n == 8 {
        w.inv_wc8@
    } else if n == 16 {
        w.inv_wc16@
    } else if n == 32 {
        w.inv_wc32@
    } else {
        w.inv_wc64@
    }
}

/// Sums of mirrored samples.
pub open spec fn mirrored_sums<A: Amount>(c: Seq<A>) -> Seq<A> {
    let n = c.len() as int;
    Seq::new((n / 2) as nat, |i: int| c[i].plus_spec(c[n - 1 - i]))
}

/// Weighted differences of mirrored samples.
pub open spec fn mirrored_differences<A: Amount>(c: Seq<A>, weights: Seq<A>) -> Seq<A> {
    let n = c.len() as int;
    Seq::new((n / 2) as nat, |i: int| c[i].minus_spec(c[n - 1 - i]).times_spec(weights[i]))
}

/// The odd half with each coefficient added to its predecessor, the first one
/// scaled too.
pub open spec fn chained<A: Amount>(o: Seq<A>, sqrt_2: A) -> Seq<A> {
    Seq::new(
        o.len(),
        |i: int|
            if i == 0 {
                o[0].fused_spec(sqrt_2, o[1])
            } else if i < o.len() - 1 {
                o[i].plus_spec(o[i + 1])
            } else {
                o[i]
            },
    )
}

/// Even and odd coefficients in turn.
pub open spec fn interleaved<A>(evens: Seq<A>, odds: Seq<A>) -> Seq<A> {
    Seq::new(
        2 * evens.len(),
        |i: int|
            if i % 2 == 0 {
                evens[i / 2]
            } else {
                odds[i / 2]
            },
    )
}

/// The forward transform.
pub open spec fn dct_spec<A: Amount>(w: DctWeights<A>, c: Seq<A>) -> Seq<A>
    decreases c.len(),
{
    if c.len() <= 2 {
        seq![c[0].plus_spec(c[1]), c[0].minus_spec(c[1])]
    } else {
        let evens = dct_spec(w, mirrored_sums(c));
        let odds = dct_spec(w, mirrored_differences(c, forward_weights(w, c.len() as int)));
        interleaved(evens, chained(odds, w.sqrt_2))
    }
}

/// Coefficient `i` of the odd half with its successors taken off again.
pub open spec fn unchained_at<A: Amount>(o: Seq<A>, i: int) -> A
    decreases o.len() - i,
{
    if i >= o.len() - 1 {
        o[i]
    } else {
        o[i].minus_spec(unchained_at(o, i + 1))
    }
}

/// The odd half with the chain undone, the first coefficient scaled back.
pub open spec fn unchained<A: Amount>(o: Seq<A>, inv_sqrt_2: A) -> Seq<A> {
    Seq::new(
        o.len(),
        |i: int|
            if i == 0 {
                unchained_at(o, 0).times_spec(inv_sqrt_2)
            } else {
                unchained_at(o, i)
            },
    )
}

/// Even-numbered and odd-numbered entries.
pub open spec fn every_other<A>(c: Seq<A>, from: int) -> Seq<A> {
    Seq::new((c.len() / 2) as nat, |i: int| c[2 * i + from])
}

/// Mirrored samples from their sums and weighted differences.
pub open spec fn unmirrored<A: Amount>(e: Seq<A>, o: Seq<A>, weights: Seq<A>, half: A) -> Seq<A> {
    let n = 2 * e.len();
    Seq::new(
        n,
        |i: int|
            if i < e.len() {
                e[i].plus_spec(o[i].times_spec(weights[i])).times_spec(half)
            } else {
                e[n - 1 - i].minus_spec(o[n - 1 - i].times_spec(weights[n - 1 - i])).times_spec(half)
            },
    )
}

/// The inverse transform.
pub open spec fn idct_spec<A: Amount>(w: DctWeights<A>, c: Seq<A>) -> Seq<A>
    decreases c.len(),
{
    if c.len() <= 2 {
        seq![
            c[0].plus_spec(c[1]).times_spec(w.half),
            c[0].minus_spec(c[1]).times_spec(w.half),
        ]
    } else {
        let odds = idct_spec(w, unchained(every_other(c, 1), w.inv_sqrt_2));
        let evens = idct_spec(w, every_other(c, 0));
        unmirrored(evens, odds, inverse_weights(w, c.len() as int), w.half)
    }
}

proof fn lemma_lengths<A: Amount>(w: DctWeights<A>, c: Seq<A>)
    requires
        known_length(c.len() as int),
    ensures
        dct_spec(w, c).len() == c.len(),
        idct_spec(w, c).len() == c.len(),
    decreases c.len(),
{
    if c.len() > 2 {
        lemma_lengths(w, mirrored_sums(c));
        lemma_lengths(w, unchained(every_other(c, 1), w.inv_sqrt_2));
        lemma_lengths(w, every_other(c, 0));
    }
}

/// Arithmetic that loses nothing: what was added can be taken away again, what was
/// scaled can be scaled back, two amounts follow from their sum and their difference,
/// and a product with something added is no more than that.
pub open spec fn loses_nothing<A: Amount>() -> bool {
    let one = A::ratio_spec(1, 1);
    &&& forall|a: A, b: A| #[trigger] a.plus_spec(b).minus_spec(b) == a
    &&& forall|a: A, b: A, c: A| #[trigger]
        a.fused_spec(b, c) == a.times_spec(b).plus_spec(c)
    &&& forall|a: A, b: A, c: A|
        b.times_spec(c) == one ==> #[trigger] a.times_spec(b).times_spec(c) == a
    &&& forall|a: A, b: A, half: A|
        half.plus_spec(half) == one ==> #[trigger] a.plus_spec(b).plus_spec(
            a.minus_spec(b),
        ).times_spec(half) == a
    &&& forall|a: A, b: A, half: A|
        half.plus_spec(half) == one ==> #[trigger] a.plus_spec(b).minus_spec(
            a.minus_spec(b),
        ).times_spec(half) == b
}

/// The weights of a length are undone by its inverse weights.
pub open spec fn weights_undone<A: Amount>(w: DctWeights<A>, n: int) -> bool {
    forall|i: int|
        0 <= i < n / 2 ==> (#[trigger] forward_weights(w, n)[i]).times_spec(
            inverse_weights(w, n)[i],
        ) == A::ratio_spec(1, 1)
}

/// Every factor of the inverse transforms undoes the one of the forward transforms.
pub open spec fn weights_match<A: Amount>(w: DctWeights<A>) -> bool {
    &&& weights_undone(w, 4)
    &&& weights_undone(w, 8)
    &&& weights_undone(w, 16)
    &&& weights_undone(w, 32)
    &&& weights_undone(w, 64)
    &&& w.sqrt_2.times_spec(w.inv_sqrt_2) == A::ratio_spec(1, 1)
    &&& w.half.plus_spec(w.half) == A::ratio_spec(1, 1)
}

proof fn lemma_unchained_at<A: Amount>(o: Seq<A>, sqrt_2: A, i: int)
    requires
        loses_nothing::<A>(),
        1 <= i < o.len(),
    ensures
        unchained_at(chained(o, sqrt_2), i) == o[i],
    decreases o.len() - i,
{
    if i < o.len() - 1 {
        lemma_unchained_at(o, sqrt_2, i + 1);
        assert(o[i].plus_spec(o[i + 1]).minus_spec(o[i + 1]) == o[i]);
    }
}

proof fn lemma_unchained<A: Amount>(o: Seq<A>, sqrt_2: A, inv_sqrt_2: A)
    requires
        loses_nothing::<A>(),
        sqrt_2.times_spec(inv_sqrt_2) == A::ratio_spec(1, 1),
        o.len() >= 2,
    ensures
        unchained(chained(o, sqrt_2), inv_sqrt_2) == o,
{
    let c = chained(o, sqrt_2);
    assert forall|i: int| 0 <= i < o.len() implies unchained(c, inv_sqrt_2)[i] == o[i] by {
        if i == 0 {
            lemma_unchained_at(o, sqrt_2, 1);
            let scaled = o[0].times_spec(sqrt_2);
            assert(o[0].fused_spec(sqrt_2, o[1]) == scaled.plus_spec(o[1]));
            assert(scaled.plus_spec(o[1]).minus_spec(o[1]) == scaled);
            assert(scaled.times_spec(inv_sqrt_2) == o[0]);
        } else {
            lemma_unchained_at(o, sqrt_2, i);
        }
    }
    assert(unchained(c, inv_sqrt_2) =~= o);
}

/// In arithmetic that loses nothing, the inverse transform undoes the forward one, at
/// every length and whatever the weights, so long as they match.
pub proof fn law_inverse_undoes_the_transform<A: Amount>(w: DctWeights<A>, c: Seq<A>)
    requires
        loses_nothing::<A>(),
        weights_match(w),
        known_length(c.len() as int),
    ensures
        idct_spec(w, dct_spec(w, c)) == c,
    decreases c.len(),
{
    let n = c.len() as int;
    if n == 2 {
        let d = dct_spec(w, c);
        assert(d[0] == c[0].plus_spec(c[1]) && d[1] == c[0].minus_spec(c[1]));
        assert(d[0].plus_spec(d[1]).times_spec(w.half) == c[0]);
        assert(d[0].minus_spec(d[1]).times_spec(w.half) == c[1]);
        assert(idct_spec(w, d) =~= c);
    } else {
        let sums = mirrored_sums(c);
        let differences = mirrored_differences(c, forward_weights(w, n));
        let evens = dct_spec(w, sums);
        let odds = dct_spec(w, differences);
        lemma_lengths(w, c);
        lemma_lengths(w, sums);
        lemma_lengths(w, differences);
        law_inverse_undoes_the_transform(w, sums);
        law_inverse_undoes_the_transform(w, differences);
        let d = dct_spec(w, c);
        assert(every_other(d, 0) =~= evens);
        assert(every_other(d, 1) =~= chained(odds, w.sqrt_2));
        lemma_unchained(odds, w.sqrt_2, w.inv_sqrt_2);
        let back = unmirrored(sums, differences, inverse_weights(w, n), w.half);
        assert(idct_spec(w, d) == back);
        assert(weights_undone(w, n));
        assert forall|i: int| 0 <= i < n implies back[i] == c[i] by {
            let k = if i < n / 2 {
                i
            } else {
                n - 1 - i
            };
            let a = c[k];
            let b = c[n - 1 - k];
            let weight = forward_weights(w, n)[k];
            assert(weight.times_spec(inverse_weights(w, n)[k]) == A::ratio_spec(1, 1));
            assert(differences[k] == a.minus_spec(b).times_spec(weight));
            assert(differences[k].times_spec(inverse_weights(w, n)[k]) == a.minus_spec(b));
            assert(a.plus_spec(b).plus_spec(a.minus_spec(b)).times_spec(w.half) == a);
            assert(a.plus_spec(b).minus_spec(a.minus_spec(b)).times_spec(w.half) == b);
        }
        assert(back =~= c);
    }
}

fn split<A: Amount>(c: &[A], weights: &[A]) -> (r: (Vec<A>, Vec<A>))
    requires
        c@.len() == 2 * weights@.len(),
    ensures
        r.0@ == mirrored_sums(c@),
        r.1@ == mirrored_differences(c@, weights@),
{
    let n: usize = c.len();
    let mut evens: Vec<A> = Vec::new();
    let mut odds: Vec<A> = Vec::new();
    let mut i: usize = 0;
    while i < n / 2
        invariant
            n == c@.len(),
            i <= n / 2,
            c@.len() == 2 * weights@.len(),
            evens@ =~= mirrored_sums(c@).take(i as int),
            odds@ =~= mirrored_differences(c@, weights@).take(i as int),
        decreases n / 2 - i,
    {
        evens.push(c[i].plus(c[n - 1 - i]));
        odds.push(c[i].minus(c[n - 1 - i]).times(weights[i]));
        i += 1;
    }
    assert(evens@ =~= mirrored_sums(c@));
    assert(odds@ =~= mirrored_differences(c@, weights@));
    (evens, odds)
}

fn chain<A: Amount>(o: &mut [A], sqrt_2: A)
    requires
        old(o)@.len() >= 2,
    ensures
        final(o)@ == chained(old(o)@, sqrt_2),
{
    let n: usize = o.len();
    o[0] = o[0].fused(sqrt_2, o[1]);
    let mut i: usize = 1;
    while i < n - 1
        invariant
            n == o@.len(),
            o@.len() == old(o)@.len(),
            1 <= i <= n - 1,
            n >= 2,
            forall|j: int|
                0 <= j < n ==> #[trigger] o@[j] == (if j < i {
                    chained(old(o)@, sqrt_2)[j]
                } else {
                    old(o)@[j]
                }),
        decreases n - 1 - i,
    {
        o[i] = o[i].plus(o[i + 1]);
        i += 1;
    }
    assert(o@ =~= chained(old(o)@, sqrt_2));
}

fn unchain<A: Amount>(o: &mut [A], inv_sqrt_2: A)
    requires
        old(o)@.len() >= 2,
    ensures
        final(o)@ == unchained(old(o)@, inv_sqrt_2),
{
    let n: usize = o.len();
    let mut i: usize = n - 1;
    while i > 1
        invariant
            n == o@.len(),
            o@.len() == old(o)@.len(),
            1 <= i <= n - 1,
            forall|j: int|
                0 <= j < n ==> #[trigger] o@[j] == (if j >= i {
                    unchained_at(old(o)@, j)
                } else {
                    old(o)@[j]
                }),
        decreases i,
    {
        i -= 1;
        o[i] = o[i].minus(o[i + 1]);
    }
    o[0] = o[0].minus(o[1]).times(inv_sqrt_2);
    assert(o@ =~= unchained(old(o)@, inv_sqrt_2));
}

fn weights_of<A: Amount>(w: &DctWeights<A>, n: usize) -> (r: &[A])
    requires
        known_length(n as int),
        n > 2,
    ensures
        r@ == forward_weights(*w, n as int),
        r@.len() == n / 2,
{
    if n == 4 {
        &w.wc4
    } else if n == 8 {
        &w.wc8
    } else if n == 16 {
        &w.wc16
    } else if n == 32 {
        &w.wc32
    } else {
        &w.wc64
    }
}

fn inverse_weights_of<A: Amount>(w: &DctWeights<A>, n: usize) -> (r: &[A])
    requires
        known_length(n as int),
        n > 2,
    ensures
        r@ == inverse_weights(*w, n as int),
        r@.len() == n / 2,
{
    if n == 4 {
        &w.inv_wc4
    } else if n == 8 {
        &w.inv_wc8
    } else if n == 16 {
        &w.inv_wc16
    } else if n == 32 {
        &w.inv_wc32
    } else {
        &w.inv_wc64
    }
}

/// Transforms samples in place.
pub fn dct1d<A: Amount>(w: &DctWeights<A>, c: &mut [A])
    requires
        known_length(old(c)@.len() as int),
    ensures
        final(c)@ == dct_spec(*w, old(c)@),
    decreases old(c)@.len(),
{
    let n: usize = c.len();
    if n == 2 {
        let (a, b): (A, A) = (c[0], c[1]);
        c[0] = a.plus(b);
        c[1] = a.minus(b);
        assert(c@ =~= dct_spec(*w, old(c)@));
        return;
    }
    let (mut evens, mut odds): (Vec<A>, Vec<A>) = split(c, weights_of(w, n));
    proof {
        lemma_lengths(*w, evens@);
        lemma_lengths(*w, odds@);
        lemma_lengths(*w, c@);
    }
    dct1d(w, evens.as_mut_slice());
    dct1d(w, odds.as_mut_slice());
    chain(odds.as_mut_slice(), w.sqrt_2);
    let mut i: usize = 0;
    while i < n / 2
        invariant
            n == c@.len(),
            n % 2 == 0,
            i <= n / 2,
            evens@.len() == n / 2,
            odds@.len() == n / 2,
            forall|j: int| 0 <= j < 2 * i ==> #[trigger] c@[j] == interleaved(evens@, odds@)[j],
        decreases n / 2 - i,
    {
        c[2 * i] = evens[i];
        c[2 * i + 1] = odds[i];
        i += 1;
    }
    assert(c@ =~= interleaved(evens@, odds@));
}

/// Transforms coefficients back in place.
pub fn inv_dct1d<A: Amount>(w: &DctWeights<A>, c: &mut [A])
    requires
        known_length(old(c)@.len() as int),
    ensures
        final(c)@ == idct_spec(*w, old(c)@),
    decreases old(c)@.len(),
{
    let n: usize = c.len();
    if n == 2 {
        let (a, b): (A, A) = idct2_flat(w, c[0], c[1]);
        c[0] = a;
        c[1] = b;
        assert(c@ =~= idct_spec(*w, old(c)@));
        return;
    }
    let mut evens: Vec<A> = Vec::new();
    let mut odds: Vec<A> = Vec::new();
    let mut i: usize = 0;
    while i < n / 2
        invariant
            n == c@.len(),
            i <= n / 2,
            n % 2 == 0,
            evens@ =~= every_other(c@, 0).take(i as int),
            odds@ =~= every_other(c@, 1).take(i as int),
        decreases n / 2 - i,
    {
        evens.push(c[2 * i]);
        odds.push(c[2 * i + 1]);
        i += 1;
    }
    assert(evens@ =~= every_other(c@, 0));
    assert(odds@ =~= every_other(c@, 1));
    unchain(odds.as_mut_slice(), w.inv_sqrt_2);
    proof {
        lemma_lengths(*w, evens@);
        lemma_lengths(*w, odds@);
    }
    inv_dct1d(w, odds.as_mut_slice());
    inv_dct1d(w, evens.as_mut_slice());
    let weights: &[A] = inverse_weights_of(w, n);
    let ghost want = unmirrored(evens@, odds@, weights@, w.half);
    let mut k: usize = 0;
    while k < n / 2
        invariant
            n == c@.len(),
            n % 2 == 0,
            k <= n / 2,
            evens@.len() == n / 2,
            odds@.len() == n / 2,
            weights@.len() == n / 2,
            want == unmirrored(evens@, odds@, weights@, w.half),
            forall|j: int| 0 <= j < k ==> #[trigger] c@[j] == want[j],
            forall|j: int| n - k <= j < n ==> #[trigger] c@[j] == want[j],
        decreases n / 2 - k,
    {
        let o: A = odds[k].times(weights[k]);
        c[k] = evens[k].plus(o).times(w.half);
        c[n - 1 - k] = evens[k].minus(o).times(w.half);
        k += 1;
    }
    assert(c@ =~= want);
}

/// The inverse transform of length two.
pub fn idct2_flat<A: Amount>(w: &DctWeights<A>, a: A, b: A) -> (r: (A, A))
    ensures
        r.0 == a.plus_spec(b).times_spec(w.half),
        r.1 == a.minus_spec(b).times_spec(w.half),
{
    (a.plus(b).times(w.half), a.minus(b).times(w.half))
}

/// The forward transform of length four.
pub fn dct1d_4_flat<A: Amount>(w: &DctWeights<A>, c: &mut [A; 4])
    ensures
        final(c)@ == dct_spec(*w, old(c)@),
{
    dct1d(w, c);
}

/// The forward transform of length eight.
pub fn dct1d_8_flat<A: Amount>(w: &DctWeights<A>, c: &mut [A; 8])
    ensures
        final(c)@ == dct_spec(*w, old(c)@),
{
    dct1d(w, c);
}

/// The forward transform of length sixteen.
pub fn dct1d_16_flat<A: Amount>(w: &DctWeights<A>, c: &mut [A; 16])
    ensures
        final(c)@ == dct_spec(*w, old(c)@),
{
    dct1d(w, c);
}

/// The forward transform of length thirty-two.
pub fn dct1d_32_flat<A: Amount>(w: &DctWeights<A>, c: &mut [A; 32])
    ensures
        final(c)@ == dct_spec(*w, old(c)@),
{
    dct1d(w, c);
}

/// The forward transform of length sixty-four.
pub fn dct1d_64_flat<A: Amount>(w: &DctWeights<A>, c: &mut [A; 64])
    ensures
        final(c)@ == dct_spec(*w, old(c)@),
{
    dct1d(w, c);
}

/// The inverse transform of length four.
pub fn inv_dct1d_4_flat<A: Amount>(w: &DctWeights<A>, c: &mut [A; 4])
    ensures
        final(c)@ == idct_spec(*w, old(c)@),
{
    inv_dct1d(w, c);
}

/// The inverse transform of length eight.
pub fn inv_dct1d_8_flat<A: Amount>(w: &DctWeights<A>, c: &mut [A; 8])
    ensures
        final(c)@ == idct_spec(*w, old(c)@),
{
    inv_dct1d(w, c);
}

/// The inverse transform of length sixteen.
pub fn inv_dct1d_16_flat<A: Amount>(w: &DctWeights<A>, c: &mut [A; 16])
    ensures
        final(c)@ == idct_spec(*w, old(c)@),
{
    inv_dct1d(w, c);
}

/// The inverse transform of length thirty-two.
pub fn inv_dct1d_32_flat<A: Amount>(w: &DctWeights<A>, c: &mut [A; 32])
    ensures
        final(c)@ == idct_spec(*w, old(c)@),
{
    inv_dct1d(w, c);
}

/// The inverse transform of length sixty-four.
pub fn inv_dct1d_64_flat<A: Amount>(w: &DctWeights<A>, c: &mut [A; 64])
    ensures
        final(c)@ == idct_spec(*w, old(c)@),
{
    inv_dct1d(w, c);
}

/// The rows of a block.
pub open spec fn grid<A>(rows: Seq<Vec<A>>) -> Seq<Seq<A>> {
    Seq::new(rows.len(), |i: int| rows[i]@)
}

/// A block is `width` wide and `height` tall.
pub open spec fn sized<A>(g: Seq<Seq<A>>, width: int, height: int) -> bool {
    g.len() == height && forall|y: int| 0 <= y < height ==> (#[trigger] g[y]).len() == width
}

/// Column `x` of a block.
pub open spec fn column<A>(g: Seq<Seq<A>>, x: int) -> Seq<A> {
    Seq::new(g.len(), |y: int| g[y][x])
}

/// The block with rows and columns exchanged.
pub open spec fn transposed<A>(g: Seq<Seq<A>>, width: int) -> Seq<Seq<A>> {
    Seq::new(width as nat, |x: int| column(g, x))
}

/// The forward transforms of the columns, as rows.
pub open spec fn forward_pass<A: Amount>(w: DctWeights<A>, g: Seq<Seq<A>>, width: int) -> Seq<
    Seq<A>,
> {
    Seq::new(width as nat, |x: int| dct_spec(w, column(g, x)))
}

/// The inverse transforms of the columns, as rows.
pub open spec fn inverse_pass<A: Amount>(w: DctWeights<A>, g: Seq<Seq<A>>, width: int) -> Seq<
    Seq<A>,
> {
    Seq::new(width as nat, |x: int| idct_spec(w, column(g, x)))
}

/// Every entry scaled.
pub open spec fn scaled<A: Amount>(g: Seq<Seq<A>>, factor: A) -> Seq<Seq<A>> {
    g.map_values(|row: Seq<A>| row.map_values(|a: A| a.times_spec(factor)))
}

/// Which way the coefficients of a block lie.
#[derive(Clone, Copy, Debug, PartialEq, Eq, Structural)]
pub enum Storage {
    /// Row `v`, column `u`: the vertical frequency selects the row. Wide blocks.
    Natural,
    /// Row `u`, column `v`: the horizontal frequency selects the row. Square and
    /// tall blocks.
    Transposed,
}

/// The forward transform of a block. Square and tall blocks transform their
/// columns first, wide ones their rows.
pub open spec fn forward_spec<A: Amount>(
    w: DctWeights<A>,
    g: Seq<Seq<A>>,
    width: int,
    height: int,
    storage: Storage,
) -> Seq<Seq<A>> {
    let scale = A::ratio_spec(1, (width * height) as u64);
    match storage {
        Storage::Transposed => scaled(
            transposed(forward_pass(w, forward_pass(w, g, width), height), width),
            scale,
        ),
        Storage::Natural => scaled(
            transposed(
                forward_pass(w, forward_pass(w, transposed(g, width), height), width),
                height,
            ),
            scale,
        ),
    }
}

/// The inverse transform of a block: vertical first.
pub open spec fn inverse_spec<A: Amount>(
    w: DctWeights<A>,
    g: Seq<Seq<A>>,
    width: int,
    height: int,
    storage: Storage,
) -> Seq<Seq<A>> {
    let scale = A::ratio_spec((width * height) as i64, 1);
    match storage {
        Storage::Natural => inverse_pass(w, inverse_pass(w, scaled(g, scale), width), height),
        Storage::Transposed => inverse_pass(
            w,
            inverse_pass(w, transposed(scaled(g, scale), height), width),
            height,
        ),
    }
}

pub(crate) proof fn lemma_row_lengths<A>(rows: Seq<Vec<A>>, width: int)
    requires
        sized(grid(rows), width, rows.len() as int),
    ensures
        forall|y: int| 0 <= y < rows.len() ==> (#[trigger] rows[y])@.len() == width,
{
    assert forall|y: int| 0 <= y < rows.len() implies (#[trigger] rows[y])@.len() == width by {
        assert(grid(rows)[y] == rows[y]@);
    }
}

fn take_column<A: Amount>(rows: &Vec<Vec<A>>, x: usize) -> (r: Vec<A>)
    requires
        forall|y: int| 0 <= y < rows@.len() ==> x < (#[trigger] rows@[y])@.len(),
    ensures
        r@ == column(grid(rows@), x as int),
{
    let mut out: Vec<A> = Vec::new();
    let mut y: usize = 0;
    while y < rows.len()
        invariant
            y <= rows@.len(),
            forall|j: int| 0 <= j < rows@.len() ==> x < (#[trigger] rows@[j])@.len(),
            out@.len() == y,
            forall|j: int| 0 <= j < y ==> #[trigger] out@[j] == rows@[j]@[x as int],
        decreases rows@.len() - y,
    {
        out.push(rows[y][x]);
        y += 1;
    }
    assert(out@ =~= column(grid(rows@), x as int));
    out
}

/// Exchanges rows and columns.
pub fn transpose<A: Amount>(rows: &Vec<Vec<A>>, width: usize) -> (r: Vec<Vec<A>>)
    requires
        sized(grid(rows@), width as int, rows@.len() as int),
    ensures
        grid(r@) == transposed(grid(rows@), width as int),
        sized(grid(r@), rows@.len() as int, width as int),
{
    let mut out: Vec<Vec<A>> = Vec::new();
    let mut x: usize = 0;
    proof {
        lemma_row_lengths(rows@, width as int);
    }
    while x < width
        invariant
            x <= width,
            forall|y: int| 0 <= y < rows@.len() ==> (#[trigger] rows@[y])@.len() == width,
            out@.len() == x,
            forall|k: int| 0 <= k < x ==> (#[trigger] out@[k])@ == column(grid(rows@), k),
        decreases width - x,
    {
        out.push(take_column(rows, x));
        x += 1;
    }
    assert(grid(out@) =~= transposed(grid(rows@), width as int));
    out
}

pub(crate) fn forward_columns<A: Amount>(w: &DctWeights<A>, rows: &Vec<Vec<A>>, width: usize) -> (r: Vec<
    Vec<A>,
>)
    requires
        sized(grid(rows@), width as int, rows@.len() as int),
        known_length(rows@.len() as int),
    ensures
        grid(r@) == forward_pass(*w, grid(rows@), width as int),
        sized(grid(r@), rows@.len() as int, width as int),
{
    let mut out: Vec<Vec<A>> = Vec::new();
    let mut x: usize = 0;
    proof {
        lemma_row_lengths(rows@, width as int);
    }
    while x < width
        invariant
            x <= width,
            forall|y: int| 0 <= y < rows@.len() ==> (#[trigger] rows@[y])@.len() == width,
            known_length(rows@.len() as int),
            out@.len() == x,
            forall|k: int|
                0 <= k < x ==> (#[trigger] out@[k])@ == dct_spec(*w, column(grid(rows@), k))
                    && out@[k]@.len() == rows@.len(),
        decreases width - x,
    {
        let mut c: Vec<A> = take_column(rows, x);
        proof {
            lemma_lengths(*w, c@);
        }
        dct1d(w, c.as_mut_slice());
        out.push(c);
        x += 1;
    }
    assert(grid(out@) =~= forward_pass(*w, grid(rows@), width as int));
    out
}

pub(crate) fn inverse_columns<A: Amount>(w: &DctWeights<A>, rows: &Vec<Vec<A>>, width: usize) -> (r: Vec<
    Vec<A>,
>)
    requires
        sized(grid(rows@), width as int, rows@.len() as int),
        known_length(rows@.len() as int),
    ensures
        grid(r@) == inverse_pass(*w, grid(rows@), width as int),
        sized(grid(r@), rows@.len() as int, width as int),
{
    let mut out: Vec<Vec<A>> = Vec::new();
    let mut x: usize = 0;
    proof {
        lemma_row_lengths(rows@, width as int);
    }
    while x < width
        invariant
            x <= width,
            forall|y: int| 0 <= y < rows@.len() ==> (#[trigger] rows@[y])@.len() == width,
            known_length(rows@.len() as int),
            out@.len() == x,
            forall|k: int|
                0 <= k < x ==> (#[trigger] out@[k])@ == idct_spec(*w, column(grid(rows@), k))
                    && out@[k]@.len() == rows@.len(),
        decreases width - x,
    {
        let mut c: Vec<A> = take_column(rows, x);
        proof {
            lemma_lengths(*w, c@);
        }
        inv_dct1d(w, c.as_mut_slice());
        out.push(c);
        x += 1;
    }
    assert(grid(out@) =~= inverse_pass(*w, grid(rows@), width as int));
    out
}

pub(crate) fn scale_all<A: Amount>(rows: &Vec<Vec<A>>, factor: A) -> (r: Vec<Vec<A>>)
    ensures
        grid(r@) == scaled(grid(rows@), factor),
        r@.len() == rows@.len(),
        forall|y: int| 0 <= y < r@.len() ==> (#[trigger] r@[y])@.len() == rows@[y]@.len(),
{
    let mut out: Vec<Vec<A>> = Vec::new();
    let mut y: usize = 0;
    while y < rows.len()
        invariant
            y <= rows@.len(),
            out@.len() == y,
            forall|j: int|
                0 <= j < y ==> (#[trigger] out@[j])@ == rows@[j]@.map_values(
                    |a: A| a.times_spec(factor),
                ),
        decreases rows@.len() - y,
    {
        let mut row: Vec<A> = Vec::new();
        let mut x: usize = 0;
        while x < rows[y].len()
            invariant
                x <= rows@[y as int]@.len(),
                y < rows@.len(),
                row@.len() == x,
                forall|i: int|
                    0 <= i < x ==> #[trigger] row@[i] == rows@[y as int]@[i].times_spec(factor),
            decreases rows@[y as int]@.len() - x,
        {
            row.push(rows[y][x].times(factor));
            x += 1;
        }
        assert(row@ =~= rows@[y as int]@.map_values(|a: A| a.times_spec(factor)));
        out.push(row);
        y += 1;
    }
    assert(grid(out@) =~= scaled(grid(rows@), factor));
    out
}

/// Sides of a block that the separable transforms know.
pub open spec fn known_side(n: int) -> bool {
    n == 8 || n == 16 || n == 32 || n == 64
}

/// Transforms a block of samples, `width` wide and `height` tall.
pub fn forward_block<A: Amount>(
    w: &DctWeights<A>,
    rows: &Vec<Vec<A>>,
    width: usize,
    height: usize,
    storage: Storage,
) -> (r: Vec<Vec<A>>)
    requires
        known_side(width as int),
        known_side(height as int),
        sized(grid(rows@), width as int, height as int),
    ensures
        grid(r@) == forward_spec(*w, grid(rows@), width as int, height as int, storage),
        match storage {
            Storage::Transposed => sized(grid(r@), height as int, width as int),
            Storage::Natural => sized(grid(r@), width as int, height as int),
        },
{
    assert(width * height <= 64 * 64) by (nonlinear_arith)
        requires
            width <= 64,
            height <= 64,
    ;
    assert(width * height > 0) by (nonlinear_arith)
        requires
            width > 0,
            height > 0,
    ;
    let scale: A = A::ratio(1, (width * height) as u64);
    match storage {
        Storage::Transposed => {
            let first: Vec<Vec<A>> = forward_columns(w, rows, width);
            let second: Vec<Vec<A>> = forward_columns(w, &first, height);
            let out: Vec<Vec<A>> = scale_all(&transpose(&second, width), scale);
            out
        },
        Storage::Natural => {
            let turned: Vec<Vec<A>> = transpose(rows, width);
            let first: Vec<Vec<A>> = forward_columns(w, &turned, height);
            let second: Vec<Vec<A>> = forward_columns(w, &first, width);
            scale_all(&transpose(&second, height), scale)
        },
    }
}

/// Transforms the coefficients of a block back into samples, `width` wide and
/// `height` tall.
pub fn inverse_block<A: Amount>(
    w: &DctWeights<A>,
    rows: &Vec<Vec<A>>,
    width: usize,
    height: usize,
    storage: Storage,
) -> (r: Vec<Vec<A>>)
    requires
        known_side(width as int),
        known_side(height as int),
        match storage {
            Storage::Transposed => sized(grid(rows@), height as int, width as int),
            Storage::Natural => sized(grid(rows@), width as int, height as int),
        },
    ensures
        grid(r@) == inverse_spec(*w, grid(rows@), width as int, height as int, storage),
        sized(grid(r@), width as int, height as int),
{
    assert(width * height <= 64 * 64) by (nonlinear_arith)
        requires
            width <= 64,
            height <= 64,
    ;
    let scale: A = A::ratio((width * height) as i64, 1);
    let coeffs: Vec<Vec<A>> = scale_all(rows, scale);
    assert(forall|y: int| 0 <= y < rows@.len() ==> #[trigger] grid(rows@)[y] == rows@[y]@);
    assert(forall|y: int| 0 <= y < coeffs@.len() ==> #[trigger] grid(coeffs@)[y] == coeffs@[y]@);
    let turned: Vec<Vec<A>> = match storage {
        Storage::Transposed => transpose(&coeffs, height),
        Storage::Natural => coeffs,
    };
    let columns: Vec<Vec<A>> = inverse_columns(w, &turned, width);
    inverse_columns(w, &columns, height)
}

} // verus!
