//! Interval generators: a compact pair of boundary producers. `Threshold`
//! marks the pixels outside a lightness band; `Random` walks each row in
//! random strides and marks every landing column, which here may fall on
//! the row width itself.

use vstd::prelude::*;

use crate::entropy::random_below;
use crate::pixel_sort::range;
use crate::pixel_sort::range::{marked_cols, random_stride, threshold_pred};
use crate::pixel_sort::runs::bounds_ok;
use crate::raster::{Grid, Pixel};

verus! {

/// Marks every pixel whose lightness lies outside `[lower, upper]`, both
/// in thousandths of the full lightness scale.
pub struct Threshold {
    pub lower: u32,
    pub upper: u32,
}

/// Marks columns reached by a random walk whose strides stay below
/// `scale`.
pub struct Random {
    pub scale: u32,
}

impl Threshold {
    /// One interval boundary per pixel outside the lightness band.
    pub fn create_intervals(&self, image: &Grid<Pixel>) -> (r: Vec<Vec<usize>>)
        requires
            image.wf(),
        ensures
            r@.len() == image@.len(),
            forall|y: int|
                0 <= y < image@.len() ==> (#[trigger] r@[y])@ == marked_cols(
                    threshold_pred(image@[y], self.lower, self.upper),
                    image.spec_width(),
                ),
    {
        let gen = range::Threshold { lower: self.lower, upper: self.upper };
        gen.create_pixel_ranges(image)
    }
}

/// What every outcome of the interval walk satisfies on one row: marks
/// start after the first stride (so each is at least one), strides stay
/// within `random_stride` of each other, the final mark comes within one
/// stride of the width — which itself may be marked — and at least one
/// column is marked whenever the stride fits in the row.
pub open spec fn walk_row_ok(bs: Seq<usize>, w: int, scale: u32) -> bool {
    let gap = random_stride(scale);
    &&& bounds_ok(bs, w)
    &&& (forall|i: int, j: int| 0 <= i < j < bs.len() ==> bs[i] < bs[j])
    &&& (forall|i: int| 0 <= i < bs.len() ==> (#[trigger] bs[i]) >= 1)
    &&& (gap <= w ==> bs.len() > 0)
    &&& (bs.len() > 0 ==> bs[0] <= gap)
    &&& (forall|i: int| 0 <= i < bs.len() - 1 ==> (#[trigger] bs[i + 1]) - bs[i] <= gap)
    &&& (bs.len() > 0 ==> w - bs[bs.len() - 1] <= gap)
}

impl Random {
    /// Per row: start at column zero, repeatedly stride forward by a random
    /// amount below `scale` and mark each column reached, until the walk
    /// passes the row width. A zero scale or stride is treated as one so
    /// that the walk always advances; a boundary may land on the width
    /// itself. Whatever the draws, the row satisfies `walk_row_ok`: in
    /// particular, columns are marked whenever the stride fits in the row,
    /// and never drift apart by more than a stride.
    pub fn create_intervals(&self, image: &Grid<Pixel>) -> (r: Vec<Vec<usize>>)
        requires
            image.wf(),
        ensures
            r@.len() == image@.len(),
            forall|y: int|
                0 <= y < image@.len() ==> walk_row_ok(
                    (#[trigger] r@[y])@,
                    image.spec_width(),
                    self.scale,
                ),
    {
        let w = image.width();
        let h = image.height();
        let scale1: u32 = if self.scale == 0 {
            1
        } else {
            self.scale
        };
        let gapx: usize = if scale1 >= 2 {
            (scale1 - 1) as usize
        } else {
            1
        };
        let mut intervals: Vec<Vec<usize>> = Vec::new();
        for y in 0..h
            invariant
                h as int == image@.len(),
                w as int == image.spec_width(),
                scale1 >= 1,
                scale1 as int == (if self.scale == 0 {
                    1int
                } else {
                    self.scale as int
                }),
                gapx as int == random_stride(self.scale),
                intervals@.len() == y,
                forall|yy: int|
                    0 <= yy < y ==> walk_row_ok((#[trigger] intervals@[yy])@, w as int, self.scale),
        {
            let mut row: Vec<usize> = Vec::new();
            let mut x: usize = 0;
            loop
                invariant
                    scale1 >= 1,
                    gapx >= 1,
                    scale1 >= 2 ==> gapx as int == scale1 - 1,
                    scale1 < 2 ==> gapx == 1,
                    x <= w,
                    row@.len() == 0 ==> x == 0,
                    row@.len() > 0 ==> row@[row@.len() - 1] == x,
                    row@.len() > 0 ==> row@[0] <= gapx,
                    forall|i: int, j: int| 0 <= i < j < row@.len() ==> row@[i] < row@[j],
                    forall|i: int| 0 <= i < row@.len() ==> 1 <= (#[trigger] row@[i]) <= w,
                    forall|i: int|
                        0 <= i < row@.len() - 1 ==> (#[trigger] row@[i + 1]) - row@[i] <= gapx,
                ensures
                    row@.len() == 0 ==> gapx > w,
                    row@.len() > 0 ==> row@[0] <= gapx,
                    forall|i: int, j: int| 0 <= i < j < row@.len() ==> row@[i] < row@[j],
                    forall|i: int| 0 <= i < row@.len() ==> 1 <= (#[trigger] row@[i]) <= w,
                    forall|i: int|
                        0 <= i < row@.len() - 1 ==> (#[trigger] row@[i + 1]) - row@[i] <= gapx,
                    row@.len() > 0 ==> w - row@[row@.len() - 1] <= gapx,
                decreases w - x,
            {
                let step = random_below(scale1) as usize;
                let step1: usize = if step == 0 {
                    1
                } else {
                    step
                };
                if step1 > w - x {
                    break ;
                }
                x += step1;
                row.push(x);
            }
            proof {
                assert(walk_row_ok(row@, w as int, self.scale));
            }
            intervals.push(row);
        }
        intervals
    }
}

} // verus!
