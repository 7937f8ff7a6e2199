//! Row bands that select strategies independently of each other, and the sites
//! that selection visits.

use vstd::prelude::*;

verus! {

/// Where band `k` of `n` would begin, rounded down to a multiple of four.
pub open spec fn band_cut(ysize: int, n: int, k: int) -> int {
    (ysize * k / n) / 4 * 4
}

/// The bands that end at the cuts below `k`.
pub open spec fn bands_before(ysize: int, n: int, k: int) -> Seq<(usize, usize)>
    decreases k,
{
    if k <= 1 {
        Seq::empty()
    } else {
        let head = bands_before(ysize, n, k - 1);
        let previous = bands_end(head);
        let cut = band_cut(ysize, n, k - 1);
        if previous < cut < ysize {
            head.push((previous as usize, cut as usize))
        } else {
            head
        }
    }
}

/// Row behind the last band.
pub open spec fn bands_end(bands: Seq<(usize, usize)>) -> int {
    if bands.len() == 0 {
        0
    } else {
        bands.last().1 as int
    }
}

/// At most `n` bands for `ysize` rows: one band if the group is small or one is
/// asked for, and otherwise cuts spread evenly and rounded to multiples of four,
/// those that would leave a band empty dropped.
pub open spec fn selection_bands(ysize: int, n: int) -> Seq<(usize, usize)> {
    if n <= 1 || ysize < 8 {
        seq![(0, ysize as usize)]
    } else {
        let head = bands_before(ysize, n, n);
        head.push((bands_end(head) as usize, ysize as usize))
    }
}

/// Bands follow each other without a gap from row 0, none of them is empty, and
/// every band but the last ends at a multiple of four.
pub open spec fn contiguous(bands: Seq<(usize, usize)>, end: int) -> bool {
    &&& bands_end(bands) == end
    &&& bands.len() > 0 ==> bands[0].0 == 0
    &&& forall|i: int, j: int|
        0 <= i < bands.len() && 0 <= j < bands.len() && j == i + 1 ==> (#[trigger] bands[j]).0 == (
        #[trigger] bands[i]).1
    &&& forall|i: int| 0 <= i < bands.len() ==> (#[trigger] bands[i]).0 < bands[i].1
    &&& forall|i: int| 0 <= i < bands.len() - 1 ==> (#[trigger] bands[i]).1 % 4 == 0
}

/// Partitions the rows `[0, ysize)` into at most `n` contiguous bands whose
/// interior boundaries are multiples of four.
pub fn fill_selection_bands(bands: &mut Vec<(usize, usize)>, ysize: usize, n: usize)
    requires
        n <= 1 || ysize < 8 || ysize * (n - 1) <= usize::MAX,
    ensures
        final(bands)@ == selection_bands(ysize as int, n as int),
{
    bands.clear();
    if n <= 1 || ysize < 8 {
        bands.push((0, ysize));
        return;
    }
    let mut previous: usize = 0;
    let mut k: usize = 1;
    while k < n
        invariant
            1 <= k <= n,
            ysize * (n - 1) <= usize::MAX,
            bands@ == bands_before(ysize as int, n as int, k as int),
            previous == bands_end(bands@),
        decreases n - k,
    {
        assert(ysize * k <= ysize * (n - 1)) by (nonlinear_arith)
            requires
                k <= n - 1,
        ;
        let b: usize = (ysize * k / n) / 4 * 4;
        if b > previous && b < ysize {
            bands.push((previous, b));
            previous = b;
        }
        k += 1;
    }
    bands.push((previous, ysize));
}

proof fn lemma_bands_before(ysize: int, n: int, k: int)
    requires
        8 <= ysize <= usize::MAX,
        1 <= k <= n,
    ensures
        ({
            let head = bands_before(ysize, n, k);
            &&& contiguous(head, bands_end(head))
            &&& 0 <= bands_end(head) < ysize
            &&& bands_end(head) % 4 == 0
            &&& head.len() < k
        }),
    decreases k,
{
    if k > 1 {
        lemma_bands_before(ysize, n, k - 1);
    }
}

/// The bands cover every row once, in order; no band is empty unless the group
/// is; interior boundaries are multiples of four; and there are no more bands
/// than asked for.
pub proof fn law_selection_bands_partition_the_rows(ysize: int, n: int)
    requires
        0 < ysize <= usize::MAX,
        0 <= n,
    ensures
        contiguous(selection_bands(ysize, n), ysize),
        1 <= selection_bands(ysize, n).len(),
        selection_bands(ysize, n).len() <= n || selection_bands(ysize, n).len() == 1,
{
    if !(n <= 1 || ysize < 8) {
        lemma_bands_before(ysize, n, n);
    }
}

/// A place where selection decides: a 4x4 region of blocks, or a 2x2
/// super-block outside every such region.
#[derive(Clone, Copy, Debug, PartialEq, Eq, Structural)]
pub struct Site {
    pub bx: usize,
    pub by: usize,
    pub quad: bool,
}

impl Site {
    /// Side of the site in blocks.
    pub open spec fn side(self) -> int {
        if self.quad {
            4
        } else {
            2
        }
    }

    /// `(x, y)` is a block of the site.
    pub open spec fn holds(self, x: int, y: int) -> bool {
        self.bx <= x < self.bx + self.side() && self.by <= y < self.by + self.side()
    }
}

/// A row of 4x4 regions starts at block row `by`.
pub open spec fn is_four_row(ysize: int, by: int) -> bool {
    by % 4 == 0 && by + 4 <= ysize
}

/// The sites from column `bx` on, in the row of sites at `by`.
pub open spec fn row_sites(xsize: int, ysize: int, by: int, bx: int) -> Seq<Site>
    decreases
            (if bx < xsize {
                xsize - bx
            } else {
                0
            }),
{
    if bx + 1 >= xsize {
        Seq::empty()
    } else if is_four_row(ysize, by) && bx % 4 == 0 && bx + 4 <= xsize {
        seq![Site { bx: bx as usize, by: by as usize, quad: true }] + row_sites(
            xsize,
            ysize,
            by,
            bx + 4,
        )
    } else if is_four_row(ysize, by) {
        seq![
            Site { bx: bx as usize, by: by as usize, quad: false },
            Site { bx: bx as usize, by: (by + 2) as usize, quad: false },
        ] + row_sites(xsize, ysize, by, bx + 2)
    } else {
        seq![Site { bx: bx as usize, by: by as usize, quad: false }] + row_sites(
            xsize,
            ysize,
            by,
            bx + 2,
        )
    }
}

/// Row where the next row of sites begins.
pub open spec fn next_row(ysize: int, by: int) -> int {
    if is_four_row(ysize, by) {
        by + 4
    } else {
        by + 2
    }
}

/// The sites of block rows `[by, y_end)` of a group, in visiting order.
pub open spec fn band_sites(xsize: int, ysize: int, by: int, y_end: int) -> Seq<Site>
    decreases
            (if by < y_end {
                y_end - by
            } else {
                0
            }),
{
    if by + 1 >= ysize || by >= y_end {
        Seq::empty()
    } else {
        row_sites(xsize, ysize, by, 0) + band_sites(xsize, ysize, next_row(ysize, by), y_end)
    }
}

/// The sites that selection visits in block rows `[y_begin, y_end)` of a group
/// of `xsize x ysize` blocks. Edge tests use the size of the whole group.
pub fn selection_sites(xsize: usize, ysize: usize, y_begin: usize, y_end: usize) -> (r: Vec<Site>)
    ensures
        r@ == band_sites(xsize as int, ysize as int, y_begin as int, y_end as int),
{
    let mut out: Vec<Site> = Vec::new();
    let mut by: usize = y_begin;
    let ghost all = band_sites(xsize as int, ysize as int, y_begin as int, y_end as int);
    let mut more: bool = by < ysize && ysize - by > 1 && by < y_end;
    while more
        invariant
            more ==> by + 1 < ysize && by < y_end,
            all == out@ + (if more {
                band_sites(xsize as int, ysize as int, by as int, y_end as int)
            } else {
                Seq::empty()
            }),
        decreases (if more {
            ysize - by
        } else {
            0
        }),
    {
        let four_row: bool = by % 4 == 0 && ysize - by >= 4;
        let ghost before = out@;
        let mut bx: usize = 0;
        let mut inside: bool = xsize > 1;
        while inside
            invariant
                by + 1 < ysize,
                by < y_end,
                four_row == is_four_row(ysize as int, by as int),
                inside ==> bx + 1 < xsize,
                before + row_sites(xsize as int, ysize as int, by as int, 0) == out@ + (if inside {
                    row_sites(xsize as int, ysize as int, by as int, bx as int)
                } else {
                    Seq::empty()
                }),
            decreases (if inside {
                xsize - bx
            } else {
                0
            }),
        {
            let ghost done = out@;
            let ghost at = bx;
            let width: usize = if four_row && bx % 4 == 0 && xsize - bx >= 4 {
                out.push(Site { bx, by, quad: true });
                4
            } else if four_row {
                out.push(Site { bx, by, quad: false });
                out.push(Site { bx, by: by + 2, quad: false });
                2
            } else {
                out.push(Site { bx, by, quad: false });
                2
            };
            inside = xsize - bx > width + 1;
            if inside {
                bx += width;
            }
            proof {
                assert(done + row_sites(xsize as int, ysize as int, by as int, at as int) =~= out@
                    + row_sites(xsize as int, ysize as int, by as int, at + width));
                assert(!inside ==> row_sites(
                    xsize as int,
                    ysize as int,
                    by as int,
                    at + width,
                ) =~= Seq::empty());
            }
        }
        let height: usize = if four_row {
            4
        } else {
            2
        };
        let ghost at = by;
        more = ysize - by > height + 1 && y_end - by > height;
        if more {
            by += height;
        }
        proof {
            let rest = band_sites(xsize as int, ysize as int, at + height, y_end as int);
            assert(before + (row_sites(xsize as int, ysize as int, at as int, 0) + rest) =~= out@
                + rest);
            assert(!more ==> rest =~= Seq::empty());
        }
    }
    out
}

pub(crate) proof fn lemma_band_sites_split(xsize: int, ysize: int, by: int, cut: int, y_end: int)
    requires
        0 <= by <= cut <= y_end,
        cut <= ysize,
        by % 4 == 0,
        cut % 4 == 0,
    ensures
        band_sites(xsize, ysize, by, y_end) == band_sites(xsize, ysize, by, cut) + band_sites(
            xsize,
            ysize,
            cut,
            y_end,
        ),
    decreases cut - by,
{
    if by < cut {
        lemma_band_sites_split(xsize, ysize, by + 4, cut, y_end);
        assert(row_sites(xsize, ysize, by, 0) + (band_sites(xsize, ysize, by + 4, cut) + band_sites(
            xsize,
            ysize,
            cut,
            y_end,
        )) =~= (row_sites(xsize, ysize, by, 0) + band_sites(xsize, ysize, by + 4, cut))
            + band_sites(xsize, ysize, cut, y_end));
    } else {
        assert(band_sites(xsize, ysize, by, cut) =~= Seq::empty());
    }
}

/// The sites of the leading `n` bands, one band after the other.
pub open spec fn sites_of_bands(
    xsize: int,
    ysize: int,
    bands: Seq<(usize, usize)>,
    n: int,
) -> Seq<Site>
    decreases n,
{
    if n <= 0 {
        Seq::empty()
    } else {
        sites_of_bands(xsize, ysize, bands, n - 1) + band_sites(
            xsize,
            ysize,
            bands[n - 1].0 as int,
            bands[n - 1].1 as int,
        )
    }
}

proof fn lemma_sites_of_bands(xsize: int, ysize: int, bands: Seq<(usize, usize)>, n: int)
    requires
        contiguous(bands, ysize),
        1 <= n <= bands.len(),
        forall|i: int| 0 <= i < bands.len() ==> (#[trigger] bands[i]).1 <= ysize,
    ensures
        sites_of_bands(xsize, ysize, bands, n) == band_sites(
            xsize,
            ysize,
            0,
            bands[n - 1].1 as int,
        ),
    decreases n,
{
    if n == 1 {
        assert(sites_of_bands(xsize, ysize, bands, 0) =~= Seq::empty());
        assert(sites_of_bands(xsize, ysize, bands, 1) =~= band_sites(
            xsize,
            ysize,
            0,
            bands[0].1 as int,
        ));
    } else {
        lemma_sites_of_bands(xsize, ysize, bands, n - 1);
        assert(bands[n - 1].0 == bands[n - 2].1);
        lemma_band_sites_split(xsize, ysize, 0, bands[n - 2].1 as int, bands[n - 1].1 as int);
    }
}

pub proof fn lemma_bands_within(bands: Seq<(usize, usize)>, end: int, i: int)
    requires
        contiguous(bands, end),
        0 <= i < bands.len(),
    ensures
        bands[i].1 <= end,
    decreases bands.len() - i,
{
    if i < bands.len() - 1 {
        lemma_bands_within(bands, end, i + 1);
        assert(bands[i + 1].0 == bands[i].1);
    }
}

/// However many bands share the work, their sites put together are the sites of
/// the single band, in the same order.
pub proof fn law_sites_do_not_depend_on_the_number_of_bands(xsize: int, ysize: int, n: int)
    requires
        0 < ysize <= usize::MAX,
        0 <= n,
    ensures
        sites_of_bands(
            xsize,
            ysize,
            selection_bands(ysize, n),
            selection_bands(ysize, n).len() as int,
        ) == band_sites(xsize, ysize, 0, ysize),
{
    law_selection_bands_partition_the_rows(ysize, n);
    let bands = selection_bands(ysize, n);
    assert forall|i: int| 0 <= i < bands.len() implies (#[trigger] bands[i]).1 <= ysize by {
        lemma_bands_within(bands, ysize, i);
    }
    lemma_sites_of_bands(xsize, ysize, bands, bands.len() as int);
}

/// Sites lie within the given rows and columns and never overlap.
pub open spec fn spread(sites: Seq<Site>, x0: int, x1: int, y0: int, y1: int) -> bool {
    &&& forall|i: int|
        0 <= i < sites.len() ==> x0 <= (#[trigger] sites[i]).bx && sites[i].bx + sites[i].side()
            <= x1 && y0 <= sites[i].by && sites[i].by + sites[i].side() <= y1
    &&& forall|i: int, j: int, x: int, y: int|
        0 <= i < j < sites.len() && #[trigger] sites[i].holds(x, y) ==> !#[trigger] sites[j].holds(
            x,
            y,
        )
}

proof fn lemma_spread_columns(
    a: Seq<Site>,
    b: Seq<Site>,
    x0: int,
    xm: int,
    x1: int,
    y0: int,
    y1: int,
)
    requires
        spread(a, x0, xm, y0, y1),
        spread(b, xm, x1, y0, y1),
        x0 <= xm <= x1,
    ensures
        spread(a + b, x0, x1, y0, y1),
{
    let c = a + b;
    assert forall|i: int| 0 <= i < c.len() implies x0 <= (#[trigger] c[i]).bx && c[i].bx
        + c[i].side() <= x1 && y0 <= c[i].by && c[i].by + c[i].side() <= y1 by {
        if i < a.len() {
            assert(c[i] == a[i]);
        } else {
            assert(c[i] == b[i - a.len()]);
        }
    }
    assert forall|i: int, j: int, x: int, y: int|
        0 <= i < j < c.len() && #[trigger] c[i].holds(x, y) implies !#[trigger] c[j].holds(
        x,
        y,
    ) by {
        if j < a.len() {
            assert(a[i].holds(x, y) && c[j] == a[j]);
        } else if i >= a.len() {
            assert(b[i - a.len()].holds(x, y) && c[j] == b[j - a.len()]);
        } else {
            assert(c[i] == a[i] && c[j] == b[j - a.len()]);
        }
    }
}

proof fn lemma_spread_rows(
    a: Seq<Site>,
    b: Seq<Site>,
    x0: int,
    x1: int,
    y0: int,
    ym: int,
    y1: int,
)
    requires
        spread(a, x0, x1, y0, ym),
        spread(b, x0, x1, ym, y1),
        y0 <= ym <= y1,
    ensures
        spread(a + b, x0, x1, y0, y1),
{
    let c = a + b;
    assert forall|i: int| 0 <= i < c.len() implies x0 <= (#[trigger] c[i]).bx && c[i].bx
        + c[i].side() <= x1 && y0 <= c[i].by && c[i].by + c[i].side() <= y1 by {
        if i < a.len() {
            assert(c[i] == a[i]);
        } else {
            assert(c[i] == b[i - a.len()]);
        }
    }
    assert forall|i: int, j: int, x: int, y: int|
        0 <= i < j < c.len() && #[trigger] c[i].holds(x, y) implies !#[trigger] c[j].holds(
        x,
        y,
    ) by {
        if j < a.len() {
            assert(a[i].holds(x, y) && c[j] == a[j]);
        } else if i >= a.len() {
            assert(b[i - a.len()].holds(x, y) && c[j] == b[j - a.len()]);
        } else {
            assert(c[i] == a[i] && c[j] == b[j - a.len()]);
        }
    }
}

proof fn lemma_row_sites_spread(xsize: int, ysize: int, by: int, bx: int)
    requires
        0 <= bx <= xsize <= usize::MAX,
        0 <= by,
        by + 1 < ysize <= usize::MAX,
    ensures
        spread(row_sites(xsize, ysize, by, bx), bx, xsize, by, next_row(ysize, by)),
    decreases xsize - bx,
{
    if bx + 1 < xsize {
        let width: int = if is_four_row(ysize, by) && bx % 4 == 0 && bx + 4 <= xsize {
            4
        } else {
            2
        };
        lemma_row_sites_spread(xsize, ysize, by, bx + width);
        let rest = row_sites(xsize, ysize, by, bx + width);
        let head = row_sites(xsize, ysize, by, bx).take(
            row_sites(xsize, ysize, by, bx).len() - rest.len(),
        );
        assert(row_sites(xsize, ysize, by, bx) =~= head + rest);
        assert(spread(head, bx, bx + width, by, next_row(ysize, by)));
        lemma_spread_columns(head, rest, bx, bx + width, xsize, by, next_row(ysize, by));
    }
}

/// The sites of a band lie within its rows and never overlap.
pub proof fn law_sites_do_not_overlap(xsize: int, ysize: int, by: int, y_end: int)
    requires
        0 <= xsize <= usize::MAX,
        0 <= by <= y_end <= ysize <= usize::MAX,
        by % 4 == 0,
        y_end % 4 == 0 || y_end == ysize,
    ensures
        spread(band_sites(xsize, ysize, by, y_end), 0, xsize, by, y_end),
{
    lemma_band_sites_spread(xsize, ysize, by, y_end);
}

proof fn lemma_band_sites_spread(xsize: int, ysize: int, by: int, y_end: int)
    requires
        0 <= xsize <= usize::MAX,
        0 <= by <= y_end <= ysize <= usize::MAX,
        by % 4 == 0 || (by % 4 == 2 && by + 2 >= ysize - 1),
        y_end % 4 == 0 || y_end == ysize,
    ensures
        spread(band_sites(xsize, ysize, by, y_end), 0, xsize, by, y_end),
    decreases y_end - by,
{
    if by + 1 < ysize && by < y_end {
        let next = next_row(ysize, by);
        assert(next <= y_end);
        lemma_row_sites_spread(xsize, ysize, by, 0);
        lemma_band_sites_spread(xsize, ysize, next, y_end);
        lemma_spread_rows(
            row_sites(xsize, ysize, by, 0),
            band_sites(xsize, ysize, next, y_end),
            0,
            xsize,
            by,
            next,
            y_end,
        );
    }
}

/// Some site holds the block `(x, y)`.
pub open spec fn visited(sites: Seq<Site>, x: int, y: int) -> bool {
    exists|i: int| 0 <= i < sites.len() && #[trigger] sites[i].holds(x, y)
}

proof fn lemma_row_sites_visit(xsize: int, ysize: int, by: int, bx: int, x: int, y: int)
    requires
        0 <= bx <= x,
        bx % 2 == 0,
        x - x % 2 + 1 < xsize <= usize::MAX,
        0 <= by,
        by + 1 < ysize <= usize::MAX,
        by <= y < next_row(ysize, by),
    ensures
        visited(row_sites(xsize, ysize, by, bx), x, y),
    decreases xsize - bx,
{
    let all = row_sites(xsize, ysize, by, bx);
    let quad = is_four_row(ysize, by) && bx % 4 == 0 && bx + 4 <= xsize;
    let width: int = if quad {
        4
    } else {
        2
    };
    if x < bx + width {
        if !quad && is_four_row(ysize, by) && y >= by + 2 {
            assert(all[1].holds(x, y));
        } else {
            assert(all[0].holds(x, y));
        }
    } else {
        lemma_row_sites_visit(xsize, ysize, by, bx + width, x, y);
        let rest = row_sites(xsize, ysize, by, bx + width);
        let i = choose|i: int| 0 <= i < rest.len() && #[trigger] rest[i].holds(x, y);
        assert(all[i + (all.len() - rest.len())] == rest[i]);
        assert(all[i + (all.len() - rest.len())].holds(x, y));
    }
}

/// Every block of a complete 2x2 super-block is visited.
pub proof fn law_sites_visit_every_super_block(
    xsize: int,
    ysize: int,
    by: int,
    x: int,
    y: int,
)
    requires
        0 <= by <= y,
        by % 2 == 0,
        0 <= x,
        x - x % 2 + 1 < xsize <= usize::MAX,
        y - y % 2 + 1 < ysize <= usize::MAX,
    ensures
        visited(band_sites(xsize, ysize, by, ysize), x, y),
    decreases ysize - by,
{
    let next = next_row(ysize, by);
    let row = row_sites(xsize, ysize, by, 0);
    let rest = band_sites(xsize, ysize, next, ysize);
    let all = band_sites(xsize, ysize, by, ysize);
    if y < next {
        lemma_row_sites_visit(xsize, ysize, by, 0, x, y);
        let i = choose|i: int| 0 <= i < row.len() && #[trigger] row[i].holds(x, y);
        assert(all[i] == row[i]);
        assert(all[i].holds(x, y));
    } else {
        law_sites_visit_every_super_block(xsize, ysize, next, x, y);
        let i = choose|i: int| 0 <= i < rest.len() && #[trigger] rest[i].holds(x, y);
        assert(all[row.len() + i] == rest[i]);
        assert(all[row.len() + i].holds(x, y));
    }
}

/// Every site lies within the group.
pub proof fn lemma_sites_inside(xsize: int, ysize: int, by: int, y_end: int)
    requires
        0 <= xsize <= usize::MAX,
        0 <= ysize <= usize::MAX,
        0 <= by,
    ensures
        forall|i: int|
            0 <= i < band_sites(xsize, ysize, by, y_end).len() ==> ({
                let s = #[trigger] band_sites(xsize, ysize, by, y_end)[i];
                s.bx + s.side() <= xsize && s.by + s.side() <= ysize
            }),
    decreases
            (if by < y_end {
                y_end - by
            } else {
                0
            }),
{
    if by + 1 < ysize && by < y_end {
        lemma_row_sites_spread(xsize, ysize, by, 0);
        lemma_sites_inside(xsize, ysize, next_row(ysize, by), y_end);
        let row = row_sites(xsize, ysize, by, 0);
        let rest = band_sites(xsize, ysize, next_row(ysize, by), y_end);
        let all = band_sites(xsize, ysize, by, y_end);
        assert forall|i: int| 0 <= i < all.len() implies ({
            let s = #[trigger] all[i];
            s.bx + s.side() <= xsize && s.by + s.side() <= ysize
        }) by {
            if i < row.len() {
                assert(all[i] == row[i]);
            } else {
                assert(all[i] == rest[i - row.len()]);
            }
        }
    }
}

} // verus!
