//! Costs kept per block; a block without one has none.

use vstd::prelude::*;

verus! {

/// A grid of costs, where known.
pub type Costs<A> = Seq<Seq<Option<A>>>;

/// The grid with the entry at `(x, y)` rewritten.
pub open spec fn with_cost<A>(m: Costs<A>, x: int, y: int, cost: Option<A>) -> Costs<A> {
    m.update(y, m[y].update(x, cost))
}

/// The grid of `w x h` blocks in which nothing is known.
pub open spec fn unknown<A>(w: int, h: int) -> Costs<A> {
    Seq::new(h as nat, |y: int| Seq::new(w as nat, |x: int| None::<A>))
}

/// A grid is `w` blocks wide and `h` blocks tall.
pub open spec fn grid_shape<A>(m: Costs<A>, w: int, h: int) -> bool {
    m.len() == h && forall|y: int| 0 <= y < h ==> (#[trigger] m[y]).len() == w
}

/// The grid with the `cw x ch` window at `(bx, by)` forgotten.
pub open spec fn forgotten<A>(m: Costs<A>, bx: int, by: int, cw: int, ch: int) -> Costs<A> {
    Seq::new(
        m.len(),
        |y: int|
            Seq::new(
                m[y].len(),
                |x: int|
                    if bx <= x < bx + cw && by <= y < by + ch {
                        None
                    } else {
                        m[y][x]
                    },
            ),
    )
}

/// A grid of costs.
pub struct CostMap<A> {
    rows: Vec<Vec<Option<A>>>,
}

impl<A> View for CostMap<A> {
    type V = Costs<A>;

    closed spec fn view(&self) -> Costs<A> {
        Seq::new(self.rows@.len(), |y: int| self.rows@[y]@)
    }
}

impl<A: Copy> CostMap<A> {
    /// The grid of `w x h` blocks in which nothing is known.
    pub fn new(w: usize, h: usize) -> (r: Self)
        ensures
            r@ == unknown::<A>(w as int, h as int),
    {
        let mut rows: Vec<Vec<Option<A>>> = Vec::new();
        let mut y: usize = 0;
        while y < h
            invariant
                y <= h,
                rows@.len() == y,
                forall|j: int|
                    0 <= j < y ==> (#[trigger] rows@[j])@ == Seq::new(
                        w as nat,
                        |x: int| None::<A>,
                    ),
            decreases h - y,
        {
            let mut row: Vec<Option<A>> = Vec::new();
            let mut x: usize = 0;
            while x < w
                invariant
                    x <= w,
                    row@ == Seq::new(x as nat, |i: int| None::<A>),
                decreases w - x,
            {
                row.push(None);
                x += 1;
                assert(row@ =~= Seq::new(x as nat, |i: int| None::<A>));
            }
            rows.push(row);
            y += 1;
        }
        let r: CostMap<A> = CostMap { rows };
        assert(r@ =~~= unknown::<A>(w as int, h as int));
        r
    }

    /// What is known of `(x, y)`.
    pub fn get(&self, x: usize, y: usize) -> (r: Option<A>)
        requires
            y < self@.len(),
            x < self@[y as int].len(),
        ensures
            r == self@[y as int][x as int],
    {
        self.rows[y][x]
    }

    /// Notes what is known of `(x, y)`.
    pub fn set(&mut self, x: usize, y: usize, cost: Option<A>)
        requires
            y < old(self)@.len(),
            x < old(self)@[y as int].len(),
        ensures
            final(self)@ == with_cost(old(self)@, x as int, y as int, cost),
    {
        let ghost before = self@;
        self.rows[y][x] = cost;
        assert(self@ =~~= with_cost(before, x as int, y as int, cost));
    }

    /// Forgets the `cw x ch` window at `(bx, by)`.
    pub fn forget(&mut self, bx: usize, by: usize, cw: usize, ch: usize)
        requires
            by + ch <= old(self)@.len(),
            forall|y: int|
                0 <= y < old(self)@.len() ==> bx + cw <= (#[trigger] old(self)@[y]).len(),
            bx + cw <= usize::MAX,
            by + ch <= usize::MAX,
        ensures
            final(self)@ == forgotten(old(self)@, bx as int, by as int, cw as int, ch as int),
    {
        let ghost before = self@;
        let mut y: usize = 0;
        assert(self@ =~~= forgotten(before, bx as int, by as int, cw as int, 0));
        while y < ch
            invariant
                y <= ch,
                before == old(self)@,
                by + ch <= before.len(),
                by + ch <= usize::MAX,
                bx + cw <= usize::MAX,
                forall|j: int| 0 <= j < before.len() ==> bx + cw <= (#[trigger] before[j]).len(),
                self@ == forgotten(before, bx as int, by as int, cw as int, y as int),
            decreases ch - y,
        {
            let ghost row = self@;
            let mut x: usize = 0;
            assert(self@ =~~= forgotten(row, bx as int, by + y, 0, 1));
            while x < cw
                invariant
                    x <= cw,
                    y < ch,
                    by + ch <= before.len(),
                    by + ch <= usize::MAX,
                    bx + cw <= usize::MAX,
                    forall|j: int|
                        0 <= j < before.len() ==> bx + cw <= (#[trigger] before[j]).len(),
                    row == forgotten(before, bx as int, by as int, cw as int, y as int),
                    self@ == forgotten(row, bx as int, by + y, x as int, 1),
                decreases cw - x,
            {
                let ghost now = self@;
                assert(now[by + y].len() == before[by + y].len());
                self.set(bx + x, by + y, None);
                x += 1;
                assert(self@ =~~= forgotten(row, bx as int, by + y, x as int, 1));
            }
            y += 1;
            assert(self@ =~~= forgotten(before, bx as int, by as int, cw as int, y as int));
        }
    }
}

} // verus!
