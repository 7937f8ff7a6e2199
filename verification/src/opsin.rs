//! Images of three planes: what the encoder sees of a picture.

use vstd::prelude::*;

verus! {

/// The samples of an image: plane, row, column.
pub type Planes<A> = Seq<Seq<Seq<A>>>;

/// `n` held to `[0, len)`.
pub open spec fn held_index(n: int, len: int) -> int {
    if n < 0 {
        0
    } else if n >= len {
        len - 1
    } else {
        n
    }
}

/// The sample of plane `c` at `(x, y)`, taken from the nearest one where `(x, y)`
/// lies outside the image.
pub open spec fn edge_sample<A>(v: Planes<A>, w: int, h: int, c: int, x: int, y: int) -> A {
    v[c][held_index(y, h)][held_index(x, w)]
}

/// An image of three planes.
pub struct Image3<A> {
    xsize: usize,
    ysize: usize,
    planes: Vec<Vec<Vec<A>>>,
}

impl<A> View for Image3<A> {
    type V = Planes<A>;

    closed spec fn view(&self) -> Planes<A> {
        Seq::new(
            self.planes@.len(),
            |c: int| Seq::new(self.planes@[c]@.len(), |y: int| self.planes@[c]@[y]@),
        )
    }
}

/// Three planes of `h` rows of `w` samples.
pub open spec fn planes_shape<A>(v: Planes<A>, w: int, h: int) -> bool {
    &&& v.len() == 3
    &&& forall|c: int| 0 <= c < 3 ==> (#[trigger] v[c]).len() == h
    &&& forall|c: int, y: int| 0 <= c < 3 && 0 <= y < h ==> (#[trigger] v[c][y]).len() == w
}

impl<A: Copy> Image3<A> {
    /// There are three planes, as large as the image says.
    pub closed spec fn wf(&self) -> bool {
        planes_shape(self@, self.xsize as int, self.ysize as int)
    }

    pub closed spec fn width(&self) -> usize {
        self.xsize
    }

    pub closed spec fn height(&self) -> usize {
        self.ysize
    }

    pub proof fn lemma_shape(&self)
        requires
            self.wf(),
        ensures
            planes_shape(self@, self.width() as int, self.height() as int),
    {
    }

    pub fn xsize(&self) -> (r: usize)
        ensures
            r == self.width(),
    {
        self.xsize
    }

    pub fn ysize(&self) -> (r: usize)
        ensures
            r == self.height(),
    {
        self.ysize
    }

    /// An image with every sample equal to `value`.
    pub fn filled(xsize: usize, ysize: usize, value: A) -> (r: Self)
        ensures
            r.wf(),
            r.width() == xsize,
            r.height() == ysize,
            forall|c: int, x: int, y: int|
                0 <= c < 3 && 0 <= x < xsize && 0 <= y < ysize ==> #[trigger] r@[c][y][x] == value,
    {
        let mut planes: Vec<Vec<Vec<A>>> = Vec::new();
        let ghost line = Seq::new(xsize as nat, |i: int| value);
        let mut c: usize = 0;
        while c < 3
            invariant
                c <= 3,
                planes@.len() == c,
                line == Seq::new(xsize as nat, |i: int| value),
                forall|k: int| 0 <= k < c ==> (#[trigger] planes@[k])@.len() == ysize,
                forall|k: int, y: int|
                    0 <= k < c && 0 <= y < ysize ==> (#[trigger] planes@[k]@[y])@ == line,
            decreases 3 - c,
        {
            let mut rows: Vec<Vec<A>> = Vec::new();
            let mut y: usize = 0;
            while y < ysize
                invariant
                    y <= ysize,
                    rows@.len() == y,
                    line == Seq::new(xsize as nat, |i: int| value),
                    forall|j: int| 0 <= j < y ==> (#[trigger] rows@[j])@ == line,
                decreases ysize - y,
            {
                let mut row: Vec<A> = Vec::new();
                let mut x: usize = 0;
                while x < xsize
                    invariant
                        x <= xsize,
                        row@ == Seq::new(x as nat, |i: int| value),
                    decreases xsize - x,
                {
                    row.push(value);
                    x += 1;
                    assert(row@ =~= Seq::new(x as nat, |i: int| value));
                }
                rows.push(row);
                y += 1;
            }
            planes.push(rows);
            c += 1;
        }
        Image3 { xsize, ysize, planes }
    }

    /// The sample of plane `c` at `(x, y)`.
    pub fn get(&self, c: usize, x: usize, y: usize) -> (r: A)
        requires
            self.wf(),
            c < 3,
            x < self.width(),
            y < self.height(),
        ensures
            r == self@[c as int][y as int][x as int],
    {
        assert(self@[c as int].len() == self.ysize);
        assert(self@[c as int][y as int].len() == self.xsize);
        self.planes[c][y][x]
    }

    /// Sets the sample of plane `c` at `(x, y)`.
    pub fn set(&mut self, c: usize, x: usize, y: usize, value: A)
        requires
            old(self).wf(),
            c < 3,
            x < old(self).width(),
            y < old(self).height(),
        ensures
            final(self).wf(),
            final(self).width() == old(self).width(),
            final(self).height() == old(self).height(),
            final(self)@ == old(self)@.update(
                c as int,
                old(self)@[c as int].update(
                    y as int,
                    old(self)@[c as int][y as int].update(x as int, value),
                ),
            ),
    {
        let ghost v = self@;
        assert(v[c as int].len() == self.ysize);
        assert(v[c as int][y as int].len() == self.xsize);
        self.planes[c][y][x] = value;
        proof {
            let want = v.update(
                c as int,
                v[c as int].update(y as int, v[c as int][y as int].update(x as int, value)),
            );
            assert forall|k: int| 0 <= k < 3 implies #[trigger] self@[k] == want[k] by {
                assert(v[k].len() == self.ysize);
                assert(self@[k] =~~= want[k]);
            }
            assert(self@ =~= want);
            assert forall|k: int, j: int| 0 <= k < 3 && 0 <= j < self.ysize implies (
            #[trigger] want[k][j]).len() == self.xsize by {
                assert(v[k][j].len() == self.xsize);
            }
        }
    }

    /// The sample of plane `c` at `(x - left, y - up)`, taken from the nearest
    /// one where that lies outside the image.
    pub fn edge(&self, c: usize, x: usize, y: usize, left: usize, up: usize) -> (r: A)
        requires
            self.wf(),
            c < 3,
            self.width() > 0,
            self.height() > 0,
        ensures
            r == edge_sample(
                self@,
                self.width() as int,
                self.height() as int,
                c as int,
                x - left,
                y - up,
            ),
    {
        let cx: usize = if x < left {
            0
        } else if x - left >= self.xsize {
            self.xsize - 1
        } else {
            x - left
        };
        let cy: usize = if y < up {
            0
        } else if y - up >= self.ysize {
            self.ysize - 1
        } else {
            y - up
        };
        self.get(c, cx, cy)
    }
}

} // verus!
