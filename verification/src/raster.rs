//! The raster data model: RGBA pixels, rectangular grids, and rotations.
//!
//! A `Grid<T>` is a rectangular, row-major arrangement of cells. Images are
//! grids of `Pixel`; masks are grids of single-channel `u8` values. The
//! quarter- and half-turn rotations are specified cell by cell, and the
//! round-trip laws (a quarter turn undone by a three-quarter turn, a half
//! turn applied twice) are proved below.

use vstd::prelude::*;

verus! {

/// One RGBA pixel, eight bits per channel.
#[derive(Clone, Copy, PartialEq, Eq, Structural, Debug)]
pub struct Pixel {
    pub r: u8,
    pub g: u8,
    pub b: u8,
    pub a: u8,
}

/// The four channel values of a pixel, in RGBA order.
pub open spec fn channels(p: Pixel) -> Seq<u8> {
    seq![p.r, p.g, p.b, p.a]
}

/// A rectangular grid of cells, stored row-major. Every row has the same
/// length, the grid's width; `wf()` states that shape invariant.
pub struct Grid<T> {
    width: usize,
    rows: Vec<Vec<T>>,
}

impl<T> View for Grid<T> {
    type V = Seq<Seq<T>>;

    closed spec fn view(&self) -> Seq<Seq<T>> {
        Seq::new(self.rows@.len(), |y: int| self.rows@[y]@)
    }
}

/// Every row of the sequence-of-rows `g` has length `w`.
pub open spec fn grid_seq_wf<T>(g: Seq<Seq<T>>, w: int) -> bool {
    forall|y: int| 0 <= y < g.len() ==> (#[trigger] g[y]).len() == w
}

impl<T> Grid<T> {
    pub closed spec fn spec_width(&self) -> int {
        self.width as int
    }

    /// The shape invariant: every row has length `spec_width()`.
    pub open spec fn wf(&self) -> bool {
        grid_seq_wf(self@, self.spec_width())
    }

    /// The width always fits in a `usize`.
    pub proof fn lemma_width_in_range(&self)
        ensures
            0 <= self.spec_width() <= usize::MAX,
    {
    }

    pub fn width(&self) -> (w: usize)
        ensures
            w as int == self.spec_width(),
    {
        self.width
    }

    pub fn height(&self) -> (h: usize)
        ensures
            h as int == self@.len(),
    {
        self.rows.len()
    }

    /// Assembles a grid from rows that all have length `width`.
    pub fn from_rows(width: usize, rows: Vec<Vec<T>>) -> (g: Grid<T>)
        requires
            forall|y: int| 0 <= y < rows@.len() ==> (#[trigger] rows@[y])@.len() == width,
        ensures
            g.wf(),
            g.spec_width() == width as int,
            g@.len() == rows@.len(),
            forall|y: int| 0 <= y < rows@.len() ==> g@[y] == (#[trigger] rows@[y])@,
    {
        Grid { width, rows }
    }
}

impl<T: Copy> Grid<T> {
    pub fn get(&self, x: usize, y: usize) -> (r: T)
        requires
            self.wf(),
            y < self@.len(),
            x < self.spec_width(),
        ensures
            r == self@[y as int][x as int],
    {
        proof {
            assert(self@[y as int] == self.rows@[y as int]@);
        }
        self.rows[y][x]
    }
}

/// A quarter turn clockwise: the cell at column `x`, row `y` of `g` moves to
/// column `g.len() - 1 - y`, row `x` of the result.
pub open spec fn spec_rotate90<T>(g: Seq<Seq<T>>, w: int) -> Seq<Seq<T>>
    recommends
        w >= 0,
{
    Seq::new(w as nat, |i: int| Seq::new(g.len(), |j: int| g[g.len() - 1 - j][i]))
}

/// A half turn: the cell at column `x`, row `y` of `g` moves to column
/// `w - 1 - x`, row `g.len() - 1 - y` of the result.
pub open spec fn spec_rotate180<T>(g: Seq<Seq<T>>, w: int) -> Seq<Seq<T>>
    recommends
        w >= 0,
{
    Seq::new(g.len(), |i: int| Seq::new(w as nat, |j: int| g[g.len() - 1 - i][w - 1 - j]))
}

/// A quarter turn counterclockwise: the cell at column `x`, row `y` of `g`
/// moves to column `y`, row `w - 1 - x` of the result.
pub open spec fn spec_rotate270<T>(g: Seq<Seq<T>>, w: int) -> Seq<Seq<T>>
    recommends
        w >= 0,
{
    Seq::new(w as nat, |i: int| Seq::new(g.len(), |j: int| g[j][w - 1 - i]))
}

impl<T: Copy> Grid<T> {
    pub fn rotate90(&self) -> (out: Grid<T>)
        requires
            self.wf(),
        ensures
            out.wf(),
            out.spec_width() == self@.len(),
            out@.len() == self.spec_width(),
            out@ == spec_rotate90(self@, self.spec_width()),
    {
        let w = self.width();
        let h = self.height();
        let mut rows: Vec<Vec<T>> = Vec::new();
        for i in 0..w
            invariant
                self.wf(),
                w as int == self.spec_width(),
                h as int == self@.len(),
                rows@.len() == i,
                forall|ii: int| 0 <= ii < i ==> (#[trigger] rows@[ii])@ == spec_rotate90(
                    self@,
                    w as int,
                )[ii],
        {
            let mut row: Vec<T> = Vec::new();
            for j in 0..h
                invariant
                    self.wf(),
                    i < w,
                    w as int == self.spec_width(),
                    h as int == self@.len(),
                    row@.len() == j,
                    forall|jj: int| 0 <= jj < j ==> row@[jj] == self@[h - 1 - jj][i as int],
            {
                row.push(self.get(i, h - 1 - j));
            }
            proof {
                assert(row@ =~= spec_rotate90(self@, w as int)[i as int]);
            }
            rows.push(row);
        }
        let out = Grid::from_rows(h, rows);
        proof {
            let spec = spec_rotate90(self@, w as int);
            assert(out@.len() == spec.len());
            assert forall|ii: int| 0 <= ii < out@.len() implies out@[ii] == spec[ii] by {
                assert(out@[ii] == rows@[ii]@);
            }
            assert(out@ =~~= spec_rotate90(self@, self.spec_width()));
        }
        out
    }

    pub fn rotate180(&self) -> (out: Grid<T>)
        requires
            self.wf(),
        ensures
            out.wf(),
            out.spec_width() == self.spec_width(),
            out@.len() == self@.len(),
            out@ == spec_rotate180(self@, self.spec_width()),
    {
        let w = self.width();
        let h = self.height();
        let mut rows: Vec<Vec<T>> = Vec::new();
        for i in 0..h
            invariant
                self.wf(),
                w as int == self.spec_width(),
                h as int == self@.len(),
                rows@.len() == i,
                forall|ii: int| 0 <= ii < i ==> (#[trigger] rows@[ii])@ == spec_rotate180(
                    self@,
                    w as int,
                )[ii],
        {
            let mut row: Vec<T> = Vec::new();
            for j in 0..w
                invariant
                    self.wf(),
                    i < h,
                    w as int == self.spec_width(),
                    h as int == self@.len(),
                    row@.len() == j,
                    forall|jj: int| 0 <= jj < j ==> row@[jj] == self@[h - 1 - i][w - 1 - jj],
            {
                row.push(self.get(w - 1 - j, h - 1 - i));
            }
            proof {
                assert(row@ =~= spec_rotate180(self@, w as int)[i as int]);
            }
            rows.push(row);
        }
        let out = Grid::from_rows(w, rows);
        proof {
            let spec = spec_rotate180(self@, w as int);
            assert(out@.len() == spec.len());
            assert forall|ii: int| 0 <= ii < out@.len() implies out@[ii] == spec[ii] by {
                assert(out@[ii] == rows@[ii]@);
            }
            assert(out@ =~~= spec_rotate180(self@, self.spec_width()));
        }
        out
    }

    pub fn rotate270(&self) -> (out: Grid<T>)
        requires
            self.wf(),
        ensures
            out.wf(),
            out.spec_width() == self@.len(),
            out@.len() == self.spec_width(),
            out@ == spec_rotate270(self@, self.spec_width()),
    {
        let w = self.width();
        let h = self.height();
        let mut rows: Vec<Vec<T>> = Vec::new();
        for i in 0..w
            invariant
                self.wf(),
                w as int == self.spec_width(),
                h as int == self@.len(),
                rows@.len() == i,
                forall|ii: int| 0 <= ii < i ==> (#[trigger] rows@[ii])@ == spec_rotate270(
                    self@,
                    w as int,
                )[ii],
        {
            let mut row: Vec<T> = Vec::new();
            for j in 0..h
                invariant
                    self.wf(),
                    i < w,
                    w as int == self.spec_width(),
                    h as int == self@.len(),
                    row@.len() == j,
                    forall|jj: int| 0 <= jj < j ==> row@[jj] == self@[jj][w - 1 - i],
            {
                row.push(self.get(w - 1 - i, j));
            }
            proof {
                assert(row@ =~= spec_rotate270(self@, w as int)[i as int]);
            }
            rows.push(row);
        }
        let out = Grid::from_rows(h, rows);
        proof {
            let spec = spec_rotate270(self@, w as int);
            assert(out@.len() == spec.len());
            assert forall|ii: int| 0 <= ii < out@.len() implies out@[ii] == spec[ii] by {
                assert(out@[ii] == rows@[ii]@);
            }
            assert(out@ =~~= spec_rotate270(self@, self.spec_width()));
        }
        out
    }
}

/// A quarter turn clockwise followed by a quarter turn counterclockwise
/// restores the grid, cell for cell.
pub proof fn lemma_rotate90_then_270<T>(g: Seq<Seq<T>>, w: int)
    requires
        w >= 0,
        grid_seq_wf(g, w),
    ensures
        spec_rotate270(spec_rotate90(g, w), g.len() as int) == g,
{
    let r = spec_rotate270(spec_rotate90(g, w), g.len() as int);
    assert(r =~~= g);
}

/// Two half turns restore the grid, cell for cell.
pub proof fn lemma_rotate180_twice<T>(g: Seq<Seq<T>>, w: int)
    requires
        w >= 0,
        grid_seq_wf(g, w),
    ensures
        spec_rotate180(spec_rotate180(g, w), w) == g,
{
    let r = spec_rotate180(spec_rotate180(g, w), w);
    assert(r =~~= g);
}

/// A quarter turn counterclockwise followed by a quarter turn clockwise
/// restores the grid, cell for cell.
pub proof fn lemma_rotate270_then_90<T>(g: Seq<Seq<T>>, w: int)
    requires
        w >= 0,
        grid_seq_wf(g, w),
    ensures
        spec_rotate90(spec_rotate270(g, w), g.len() as int) == g,
{
    let r = spec_rotate90(spec_rotate270(g, w), g.len() as int);
    assert(r =~~= g);
}

} // verus!
