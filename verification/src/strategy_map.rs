//! The strategy map of a group: which transform covers each 8x8 block.

use crate::strategy::{covered_blocks_x_of, covered_blocks_y_of, covered_x, covered_y, STRATEGY_DCT};
use vstd::prelude::*;

verus! {

/// One 8x8 block of a map: the strategy that covers it, and whether it is the
/// top-left block of that strategy's footprint.
#[derive(Clone, Copy, Debug, PartialEq, Eq, Structural)]
pub struct Cell {
    pub strategy: u8,
    pub first: bool,
}

/// The blocks of a map, row by row.
pub type Layout = Seq<Seq<Cell>>;

/// A strategy put down with its top-left block at `(x, y)`.
#[derive(Clone, Copy, Debug, PartialEq, Eq, Structural)]
pub struct Placement {
    pub x: usize,
    pub y: usize,
    pub strategy: u8,
}

/// `(x, y)` lies in the `w x h` window at `(bx, by)`.
pub open spec fn in_window(bx: int, by: int, w: int, h: int, x: int, y: int) -> bool {
    bx <= x < bx + w && by <= y < by + h
}

/// `(x, y)` lies in the footprint of a placement.
pub open spec fn in_footprint(p: Placement, x: int, y: int) -> bool {
    in_window(p.x as int, p.y as int, covered_x(p.strategy), covered_y(p.strategy), x, y)
}

/// The footprint of `strategy` at `(x, y)` lies within `w x h` blocks.
pub open spec fn fits_in(w: int, h: int, x: int, y: int, strategy: u8) -> bool {
    0 <= x && 0 <= y && x + covered_x(strategy) <= w && y + covered_y(strategy) <= h
}

/// A layout with every block of the footprint of `strategy` at `(x, y)`
/// rewritten, the top-left one as the first block.
pub open spec fn with_first(v: Layout, x: int, y: int, strategy: u8) -> Layout {
    Seq::new(
        v.len(),
        |j: int|
            Seq::new(
                v[j].len(),
                |i: int|
                    if in_window(x, y, covered_x(strategy), covered_y(strategy), i, j) {
                        Cell { strategy, first: i == x && j == y }
                    } else {
                        v[j][i]
                    },
            ),
    )
}

/// The strategy of every 8x8 block of a group, `xsize` blocks wide and `ysize`
/// blocks tall.
pub struct AcStrategyImage {
    xsize: usize,
    ysize: usize,
    rows: Vec<Vec<Cell>>,
}

impl View for AcStrategyImage {
    type V = Layout;

    closed spec fn view(&self) -> Layout {
        Seq::new(self.rows@.len(), |j: int| self.rows@[j]@)
    }
}

impl AcStrategyImage {
    /// The rows are as many and as long as the image says.
    pub closed spec fn wf(&self) -> bool {
        &&& self.rows@.len() == self.ysize
        &&& forall|j: int| 0 <= j < self.ysize ==> (#[trigger] self.rows@[j])@.len() == self.xsize
    }

    pub closed spec fn width(&self) -> usize {
        self.xsize
    }

    pub closed spec fn height(&self) -> usize {
        self.ysize
    }

    /// `(x, y)` is a block of the image.
    pub open spec fn inside(&self, x: int, y: int) -> bool {
        0 <= x < self.width() && 0 <= y < self.height()
    }

    /// The footprint of `strategy` at `(x, y)` lies within the image.
    pub open spec fn fits(&self, x: int, y: int, strategy: u8) -> bool {
        fits_in(self.width() as int, self.height() as int, x, y, strategy)
    }

    pub proof fn lemma_shape(&self)
        requires
            self.wf(),
        ensures
            self@.len() == self.height(),
            forall|j: int| 0 <= j < self.height() ==> (#[trigger] self@[j]).len() == self.width(),
    {
    }

    /// An image of 8x8 DCT blocks.
    pub fn new(xsize: usize, ysize: usize) -> (r: Self)
        ensures
            r.wf(),
            r.width() == xsize,
            r.height() == ysize,
            forall|x: int, y: int|
                r.inside(x, y) ==> #[trigger] r@[y][x] == (Cell {
                    strategy: STRATEGY_DCT,
                    first: true,
                }),
    {
        let mut rows: Vec<Vec<Cell>> = Vec::new();
        let mut y: usize = 0;
        while y < ysize
            invariant
                y <= ysize,
                rows@.len() == y,
                forall|j: int| 0 <= j < y ==> (#[trigger] rows@[j])@.len() == xsize,
                forall|i: int, j: int|
                    0 <= i < xsize && 0 <= j < y ==> #[trigger] rows@[j]@[i] == (Cell {
                        strategy: STRATEGY_DCT,
                        first: true,
                    }),
            decreases ysize - y,
        {
            let mut row: Vec<Cell> = Vec::new();
            let mut x: usize = 0;
            while x < xsize
                invariant
                    x <= xsize,
                    row@.len() == x,
                    forall|i: int|
                        0 <= i < x ==> #[trigger] row@[i] == (Cell {
                            strategy: STRATEGY_DCT,
                            first: true,
                        }),
                decreases xsize - x,
            {
                row.push(Cell { strategy: STRATEGY_DCT, first: true });
                x += 1;
            }
            rows.push(row);
            y += 1;
        }
        AcStrategyImage { xsize, ysize, rows }
    }

    pub fn xsize(&self) -> (r: usize)
        ensures
            r == self.width(),
    {
        self.xsize
    }

    pub fn ysize(&self) -> (r: usize)
        ensures
            r == self.height(),
    {
        self.ysize
    }

    /// Whether `(x, y)` is the top-left block of a footprint.
    pub fn is_first_block(&self, x: usize, y: usize) -> (r: bool)
        requires
            self.wf(),
            self.inside(x as int, y as int),
        ensures
            r == self@[y as int][x as int].first,
    {
        self.rows[y][x].first
    }

    /// The strategy whose footprint covers `(x, y)`.
    pub fn raw_strategy(&self, x: usize, y: usize) -> (r: u8)
        requires
            self.wf(),
            self.inside(x as int, y as int),
        ensures
            r == self@[y as int][x as int].strategy,
    {
        self.rows[y][x].strategy
    }

    /// Whether the footprint of `strategy` at `(x, y)` lies within the image.
    pub fn can_place_strategy(&self, x: usize, y: usize, strategy: u8) -> (r: bool)
        ensures
            r == self.fits(x as int, y as int, strategy),
    {
        let cx: usize = covered_blocks_x_of(strategy);
        let cy: usize = covered_blocks_y_of(strategy);
        cx <= self.xsize && x <= self.xsize - cx && cy <= self.ysize && y <= self.ysize - cy
    }

    /// Puts `strategy` down with its top-left block at `(x, y)`.
    pub fn set_first(&mut self, x: usize, y: usize, strategy: u8)
        requires
            old(self).wf(),
            old(self).fits(x as int, y as int, strategy),
        ensures
            final(self).wf(),
            final(self).width() == old(self).width(),
            final(self).height() == old(self).height(),
            final(self)@ =~~= with_first(old(self)@, x as int, y as int, strategy),
    {
        let cx: usize = covered_blocks_x_of(strategy);
        let cy: usize = covered_blocks_y_of(strategy);
        let ghost before = self@;
        let mut j: usize = 0;
        while j < cy
            invariant
                j <= cy,
                cx == covered_x(strategy),
                cy == covered_y(strategy),
                self.wf(),
                self.width() == old(self).width(),
                self.height() == old(self).height(),
                before == old(self)@,
                before.len() == self.height(),
                forall|b: int| 0 <= b < self.height() ==> (#[trigger] before[b]).len() == self.width(),
                self.fits(x as int, y as int, strategy),
                forall|a: int, b: int|
                    self.inside(a, b) ==> #[trigger] self.rows@[b]@[a] == (if in_window(
                        x as int,
                        y as int,
                        cx as int,
                        j as int,
                        a,
                        b,
                    ) {
                        Cell { strategy, first: a == x && b == y }
                    } else {
                        before[b][a]
                    }),
            decreases cy - j,
        {
            let mut i: usize = 0;
            while i < cx
                invariant
                    i <= cx,
                    j < cy,
                    cx == covered_x(strategy),
                    cy == covered_y(strategy),
                    self.wf(),
                    self.width() == old(self).width(),
                    self.height() == old(self).height(),
                    self.fits(x as int, y as int, strategy),
                    forall|a: int, b: int|
                        self.inside(a, b) ==> #[trigger] self.rows@[b]@[a] == (if in_window(
                            x as int,
                            y as int,
                            cx as int,
                            j as int,
                            a,
                            b,
                        ) || in_window(x as int, y + j, i as int, 1, a, b) {
                            Cell { strategy, first: a == x && b == y }
                        } else {
                            before[b][a]
                        }),
                decreases cx - i,
            {
                self.rows[y + j][x + i] = Cell { strategy, first: i == 0 && j == 0 };
                i += 1;
            }
            j += 1;
        }
    }

    /// Every first block, in row-major order.
    pub fn first_blocks(&self) -> (r: Vec<Placement>)
        requires
            self.wf(),
        ensures
            r@ == firsts(self@, self.height() as int),
    {
        let mut out: Vec<Placement> = Vec::new();
        let mut y: usize = 0;
        while y < self.ysize
            invariant
                y <= self.ysize,
                self.wf(),
                out@ == firsts(self@, y as int),
            decreases self.ysize - y,
        {
            let mut x: usize = 0;
            while x < self.xsize
                invariant
                    x <= self.xsize,
                    y < self.ysize,
                    self.wf(),
                    out@ == firsts(self@, y as int) + firsts_in_row(self@, y as int, x as int),
                decreases self.xsize - x,
            {
                let cell: Cell = self.rows[y][x];
                proof {
                    assert(self@[y as int][x as int] == cell);
                    assert(cell.first ==> firsts(self@, y as int) + firsts_in_row(
                        self@,
                        y as int,
                        x + 1,
                    ) =~= (firsts(self@, y as int) + firsts_in_row(self@, y as int, x as int)).push(
                        Placement { x, y, strategy: cell.strategy },
                    ));
                }
                if cell.first {
                    out.push(Placement { x, y, strategy: cell.strategy });
                }
                x += 1;
            }
            y += 1;
        }
        out
    }

    /// Takes over the block rows `[y0, y1)` of another image of the same size.
    pub fn copy_rows_from(&mut self, other: &AcStrategyImage, y0: usize, y1: usize)
        requires
            old(self).wf(),
            other.wf(),
            old(self).width() == other.width(),
            old(self).height() == other.height(),
            y0 <= y1 <= other.height(),
        ensures
            final(self).wf(),
            final(self).width() == old(self).width(),
            final(self).height() == old(self).height(),
            final(self)@ =~~= rows_replaced(old(self)@, other@, y0 as int, y1 as int),
    {
        let ghost before = self@;
        proof {
            self.lemma_shape();
        }
        let mut y: usize = y0;
        while y < y1
            invariant
                y0 <= y <= y1 <= other.height(),
                self.wf(),
                other.wf(),
                self.width() == other.width(),
                self.height() == other.height(),
                self.width() == old(self).width(),
                self.height() == old(self).height(),
                before == old(self)@,
                before.len() == self.height(),
                forall|b: int| 0 <= b < self.height() ==> (#[trigger] before[b]).len() == self.width(),
                self@ =~~= rows_replaced(before, other@, y0 as int, y as int),
            decreases y1 - y,
        {
            let mut x: usize = 0;
            while x < self.xsize
                invariant
                    x <= self.width(),
                    y < other.height(),
                    self.wf(),
                    other.wf(),
                    self.width() == other.width(),
                    self.height() == other.height(),
                    self.width() == old(self).width(),
                    self.height() == old(self).height(),
                    before.len() == self.height(),
                forall|b: int| 0 <= b < self.height() ==> (#[trigger] before[b]).len() == self.width(),
                    y0 <= y < y1,
                    forall|a: int, b: int|
                        self.inside(a, b) ==> #[trigger] self@[b][a] == (if b == y && a < x {
                            other@[b][a]
                        } else {
                            rows_replaced(before, other@, y0 as int, y as int)[b][a]
                        }),
                decreases self.width() - x,
            {
                let ghost prev = self@;
                self.rows[y][x] = other.rows[y][x];
                assert(forall|a: int, b: int|
                    self.inside(a, b) && (a != x || b != y) ==> #[trigger] self@[b][a]
                        == prev[b][a]);
                x += 1;
            }
            proof {
                self.lemma_shape();
                other.lemma_shape();
                assert forall|b: int| 0 <= b < self.height() implies #[trigger] self@[b]
                    =~= rows_replaced(before, other@, y0 as int, y + 1)[b] by {
                    assert forall|a: int| 0 <= a < self.width() implies self@[b][a]
                        == rows_replaced(before, other@, y0 as int, y + 1)[b][a] by {
                        assert(self.inside(a, b));
                    }
                }
            }
            y += 1;
        }
    }
}

/// A layout with rows `[y0, y1)` taken from another one.
pub open spec fn rows_replaced(v: Layout, other: Layout, y0: int, y1: int) -> Layout {
    Seq::new(v.len(), |j: int| if y0 <= j < y1 { other[j] } else { v[j] })
}

/// The first blocks among the leading `n` blocks of row `y`, from left to right.
pub open spec fn firsts_in_row(v: Layout, y: int, n: int) -> Seq<Placement>
    decreases n,
{
    if n <= 0 {
        Seq::empty()
    } else if v[y][n - 1].first {
        firsts_in_row(v, y, n - 1).push(
            Placement { x: (n - 1) as usize, y: y as usize, strategy: v[y][n - 1].strategy },
        )
    } else {
        firsts_in_row(v, y, n - 1)
    }
}

/// The first blocks of the leading `n` rows, in row-major order.
pub open spec fn firsts(v: Layout, n: int) -> Seq<Placement>
    decreases n,
{
    if n <= 0 {
        Seq::empty()
    } else {
        firsts(v, n - 1) + firsts_in_row(v, n - 1, v[n - 1].len() as int)
    }
}

} // verus!
