//! Sums kept in several lanes at once.
//!
//! Long sums are spread over lanes that are added up at the end, so the order of
//! the additions is part of the result. The specifications here fix that order.

use crate::amount::Amount;
use vstd::prelude::*;

verus! {

/// `n` lanes that hold nothing yet.
pub open spec fn empty_lanes<A: Amount>(n: int) -> Seq<A> {
    Seq::new(n as nat, |l: int| A::zero_spec())
}

/// Lanes after the leading `n` items: item `i` changes lane `lane(i)` by `step`.
pub open spec fn folded<A: Amount>(
    lanes: int,
    lane: spec_fn(int) -> int,
    step: spec_fn(int, A) -> A,
    n: int,
) -> Seq<A>
    decreases n,
{
    if n <= 0 {
        empty_lanes(lanes)
    } else {
        let before = folded(lanes, lane, step, n - 1);
        let l = lane(n - 1);
        before.update(l, step(n - 1, before[l]))
    }
}

/// Items go to `m` lanes in turn.
pub open spec fn in_turn(m: int) -> spec_fn(int) -> int {
    |i: int| i % m
}

/// Makes `n` empty lanes.
pub fn make_lanes<A: Amount>(n: usize) -> (r: Vec<A>)
    ensures
        r@ == empty_lanes::<A>(n as int),
{
    let mut out: Vec<A> = Vec::new();
    let mut i: usize = 0;
    while i < n
        invariant
            i <= n,
            out@ == empty_lanes::<A>(i as int),
        decreases n - i,
    {
        out.push(A::zero());
        i += 1;
        assert(out@ =~= empty_lanes::<A>(i as int));
    }
    out
}

/// Folding keeps the number of lanes.
pub proof fn lemma_folded_len<A: Amount>(
    lanes: int,
    lane: spec_fn(int) -> int,
    step: spec_fn(int, A) -> A,
    n: int,
)
    requires
        0 <= lanes,
        forall|i: int| 0 <= i < n ==> 0 <= #[trigger] lane(i) < lanes,
    ensures
        folded(lanes, lane, step, n).len() == lanes,
    decreases n,
{
    if n > 0 {
        lemma_folded_len(lanes, lane, step, n - 1);
    }
}

/// The sum of eight lanes: the upper four are added to the lower four, then
/// neighbours, then the two halves.
pub open spec fn eight_summed<A: Amount>(v: Seq<A>) -> A {
    v[0].plus_spec(v[4]).plus_spec(v[1].plus_spec(v[5])).plus_spec(
        v[2].plus_spec(v[6]).plus_spec(v[3].plus_spec(v[7])),
    )
}

/// Adds eight lanes up.
pub fn hsum256<A: Amount>(v: &Vec<A>) -> (r: A)
    requires
        v@.len() == 8,
    ensures
        r == eight_summed(v@),
{
    v[0].plus(v[4]).plus(v[1].plus(v[5])).plus(v[2].plus(v[6]).plus(v[3].plus(v[7])))
}

/// The sum of eight lanes by neighbours: pairs, fours, all.
pub open spec fn pairs_summed<A: Amount>(v: Seq<A>) -> A {
    v[0].plus_spec(v[1]).plus_spec(v[2].plus_spec(v[3])).plus_spec(
        v[4].plus_spec(v[5]).plus_spec(v[6].plus_spec(v[7])),
    )
}

/// Adds eight lanes up by neighbours.
pub fn sum_pairs<A: Amount>(v: &Vec<A>) -> (r: A)
    requires
        v@.len() == 8,
    ensures
        r == pairs_summed(v@),
{
    v[0].plus(v[1]).plus(v[2].plus(v[3])).plus(v[4].plus(v[5]).plus(v[6].plus(v[7])))
}

/// Thirty-two lanes folded to eight.
pub open spec fn four_groups<A: Amount>(v: Seq<A>) -> Seq<A> {
    Seq::new(
        8,
        |l: int| v[l].plus_spec(v[8 + l]).plus_spec(v[16 + l].plus_spec(v[24 + l])),
    )
}

/// Adds thirty-two lanes up.
pub fn sum32<A: Amount>(v: &Vec<A>) -> (r: A)
    requires
        v@.len() == 32,
    ensures
        r == eight_summed(four_groups(v@)),
{
    let mut eight: Vec<A> = Vec::new();
    let mut l: usize = 0;
    while l < 8
        invariant
            l <= 8,
            v@.len() == 32,
            eight@.len() == l,
            forall|i: int| 0 <= i < l ==> #[trigger] eight@[i] == four_groups(v@)[i],
        decreases 8 - l,
    {
        eight.push(v[l].plus(v[8 + l]).plus(v[16 + l].plus(v[24 + l])));
        l += 1;
    }
    assert(eight@ =~= four_groups(v@));
    hsum256(&eight)
}

/// Sixteen lanes folded to eight.
pub open spec fn two_groups<A: Amount>(v: Seq<A>) -> Seq<A> {
    Seq::new(8, |l: int| v[l].plus_spec(v[8 + l]))
}

/// Adds sixteen lanes up.
pub fn sum16<A: Amount>(v: &Vec<A>) -> (r: A)
    requires
        v@.len() == 16,
    ensures
        r == eight_summed(two_groups(v@)),
{
    let mut eight: Vec<A> = Vec::new();
    let mut l: usize = 0;
    while l < 8
        invariant
            l <= 8,
            v@.len() == 16,
            eight@.len() == l,
            forall|i: int| 0 <= i < l ==> #[trigger] eight@[i] == two_groups(v@)[i],
        decreases 8 - l,
    {
        eight.push(v[l].plus(v[8 + l]));
        l += 1;
    }
    assert(eight@ =~= two_groups(v@));
    hsum256(&eight)
}

/// Lanes after the leading `n` items of a row, from `start`.
pub open spec fn row_folded<A: Amount>(
    start: Seq<A>,
    lanes: int,
    step: spec_fn(int, int, A) -> A,
    row: int,
    n: int,
) -> Seq<A>
    decreases n,
{
    if n <= 0 {
        start
    } else {
        let before = row_folded(start, lanes, step, row, n - 1);
        let l = (n - 1) % lanes;
        before.update(l, step(row, n - 1, before[l]))
    }
}

/// Lanes after the leading `rows` rows of `w` items each, from `start`: every row
/// starts over with the first lane.
pub open spec fn rows_folded<A: Amount>(
    start: Seq<A>,
    lanes: int,
    step: spec_fn(int, int, A) -> A,
    w: int,
    rows: int,
) -> Seq<A>
    decreases rows,
{
    if rows <= 0 {
        start
    } else {
        row_folded(rows_folded(start, lanes, step, w, rows - 1), lanes, step, rows - 1, w)
    }
}

/// Folding a row keeps the number of lanes.
pub proof fn lemma_row_folded_len<A: Amount>(
    start: Seq<A>,
    lanes: int,
    step: spec_fn(int, int, A) -> A,
    row: int,
    n: int,
)
    requires
        start.len() == lanes,
        lanes > 0,
    ensures
        row_folded(start, lanes, step, row, n).len() == lanes,
    decreases n,
{
    if n > 0 {
        lemma_row_folded_len(start, lanes, step, row, n - 1);
    }
}

/// Folding rows keeps the number of lanes.
pub proof fn lemma_rows_folded_len<A: Amount>(
    start: Seq<A>,
    lanes: int,
    step: spec_fn(int, int, A) -> A,
    w: int,
    rows: int,
)
    requires
        start.len() == lanes,
        lanes > 0,
    ensures
        rows_folded(start, lanes, step, w, rows).len() == lanes,
    decreases rows,
{
    if rows > 0 {
        lemma_rows_folded_len(start, lanes, step, w, rows - 1);
        lemma_row_folded_len(
            rows_folded(start, lanes, step, w, rows - 1),
            lanes,
            step,
            rows - 1,
            w,
        );
    }
}

/// Lanes after the leading `n` items of a row, from `start`: item `x` of row `y`
/// changes lane `lane(y, x)`.
pub open spec fn row_spread<A: Amount>(
    start: Seq<A>,
    lane: spec_fn(int, int) -> int,
    step: spec_fn(int, int, A) -> A,
    row: int,
    n: int,
) -> Seq<A>
    decreases n,
{
    if n <= 0 {
        start
    } else {
        let before = row_spread(start, lane, step, row, n - 1);
        let l = lane(row, n - 1);
        before.update(l, step(row, n - 1, before[l]))
    }
}

/// Lanes after the leading `rows` rows of `w` items each.
pub open spec fn rows_spread<A: Amount>(
    start: Seq<A>,
    lane: spec_fn(int, int) -> int,
    step: spec_fn(int, int, A) -> A,
    w: int,
    rows: int,
) -> Seq<A>
    decreases rows,
{
    if rows <= 0 {
        start
    } else {
        row_spread(rows_spread(start, lane, step, w, rows - 1), lane, step, rows - 1, w)
    }
}

/// Every item of `rows` rows of `w` items has one of `lanes` lanes.
pub open spec fn lanes_hold(lane: spec_fn(int, int) -> int, lanes: int, w: int, rows: int) -> bool {
    forall|y: int, x: int|
        0 <= y < rows && 0 <= x < w ==> 0 <= #[trigger] lane(y, x) < lanes
}

/// Spreading a row keeps the number of lanes.
pub proof fn lemma_row_spread_len<A: Amount>(
    start: Seq<A>,
    lane: spec_fn(int, int) -> int,
    step: spec_fn(int, int, A) -> A,
    row: int,
    n: int,
    w: int,
    rows: int,
)
    requires
        lanes_hold(lane, start.len() as int, w, rows),
        0 <= row < rows,
        n <= w,
    ensures
        row_spread(start, lane, step, row, n).len() == start.len(),
    decreases n,
{
    if n > 0 {
        lemma_row_spread_len(start, lane, step, row, n - 1, w, rows);
        assert(0 <= lane(row, n - 1) < start.len());
    }
}

/// Spreading rows keeps the number of lanes.
pub proof fn lemma_rows_spread_len<A: Amount>(
    start: Seq<A>,
    lane: spec_fn(int, int) -> int,
    step: spec_fn(int, int, A) -> A,
    w: int,
    n: int,
    rows: int,
)
    requires
        lanes_hold(lane, start.len() as int, w, rows),
        n <= rows,
    ensures
        rows_spread(start, lane, step, w, n).len() == start.len(),
    decreases n,
{
    if n > 0 {
        lemma_rows_spread_len(start, lane, step, w, n - 1, rows);
        lemma_row_spread_len(
            rows_spread(start, lane, step, w, n - 1),
            lane,
            step,
            n - 1,
            w,
            w,
            rows,
        );
    }
}

} // verus!
