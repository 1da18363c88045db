//! Range generators: how boundary columns are produced for every row.
//!
//! Each generator returns one ascending list of boundary columns per image
//! row. A boundary column ends the run leading up to it; the engine adds the
//! implicit boundaries `0` and `width` itself.

use vstd::prelude::*;

use crate::entropy::random_below;
use crate::pixel_sort::runs::bounds_ok;
use crate::pixel_sort::sorting::{light2, lightness};
use crate::raster::{Grid, Pixel};

verus! {

/// Marks a boundary at every pixel whose lightness lies outside
/// `[lower, upper]`, both given in thousandths of the full lightness scale.
pub struct Threshold {
    pub lower: u32,
    pub upper: u32,
}

/// Marks boundaries at random columns whose spacing averages about half of
/// `scale`.
pub struct Random {
    pub scale: u32,
}

/// Marks boundaries spaced `scale` columns apart, give or take a small
/// random jitter below ten.
pub struct Wave {
    pub scale: u32,
}

/// Marks a boundary wherever the side mask holds an exact zero; the side
/// mask must match the image's dimensions.
pub struct File {
    pub mask: Grid<u8>,
}

/// Marks no boundaries at all: each row is one single run.
pub struct NoneRange;

/// The closed set of range generators, dispatched by `match`.
pub enum PixelRange {
    Threshold(Threshold),
    Random(Random),
    Wave(Wave),
    File(File),
    NoneRange(NoneRange),
}

/// The columns `x` in `[0, e)` with `pred(x)`, ascending.
pub open spec fn marked_cols(pred: spec_fn(int) -> bool, e: int) -> Seq<usize>
    decreases e,
{
    if e <= 0 {
        Seq::empty()
    } else if pred(e - 1) {
        marked_cols(pred, e - 1).push((e - 1) as usize)
    } else {
        marked_cols(pred, e - 1)
    }
}

/// The lightness of `p` lies outside `[lower, upper]` thousandths of the
/// full scale; `light2(p)` is twice the lightness on the `0..=255` scale,
/// so the comparisons are `light2/510 < lower/1000` and symmetrically.
pub open spec fn is_threshold_boundary(p: Pixel, lower: u32, upper: u32) -> bool {
    ||| 1000 * light2(p) < 510 * lower
    ||| 1000 * light2(p) > 510 * upper
}

/// The per-column boundary test of `Threshold` on one row.
pub open spec fn threshold_pred(row: Seq<Pixel>, lower: u32, upper: u32) -> spec_fn(int) -> bool {
    |x: int| is_threshold_boundary(row[x], lower, upper)
}

/// The per-column boundary test of `File` on one side-mask row.
pub open spec fn zero_pred(mrow: Seq<u8>) -> spec_fn(int) -> bool {
    |x: int| mrow[x] == 0
}

/// Columns marked below `e` are below `e`, ascending and distinct.
pub proof fn lemma_marked_cols_ok(pred: spec_fn(int) -> bool, e: int, w: int)
    requires
        0 <= e <= w <= usize::MAX,
    ensures
        bounds_ok(marked_cols(pred, e), w),
        forall|i: int|
            0 <= i < marked_cols(pred, e).len() ==> (#[trigger] marked_cols(pred, e)[i]) < e,
        forall|i: int, j: int|
            0 <= i < j < marked_cols(pred, e).len() ==> marked_cols(pred, e)[i] < marked_cols(
                pred,
                e,
            )[j],
    decreases e,
{
    let cols = marked_cols(pred, e);
    if e > 0 {
        lemma_marked_cols_ok(pred, e - 1, w);
        let rest = marked_cols(pred, e - 1);
        if pred(e - 1) {
            assert(cols == rest.push((e - 1) as usize));
            assert forall|i: int| 0 <= i < cols.len() implies (#[trigger] cols[i]) < e by {
                if i < rest.len() {
                    assert(cols[i] == rest[i]);
                }
            }
            assert forall|i: int, j: int| 0 <= i < j < cols.len() implies cols[i] < cols[j] by {
                assert(cols[i] == rest[i]);
                if j < rest.len() {
                    assert(cols[j] == rest[j]);
                }
            }
        }
    }
    assert forall|i: int, j: int| 0 <= i <= j < cols.len() implies cols[i] <= cols[j] by {
        if i < j {
            assert(cols[i] < cols[j]);
        }
    }
    assert forall|i: int| 0 <= i < cols.len() implies (#[trigger] cols[i]) <= w by {
        assert(cols[i] < e);
    }
}

/// A column is marked exactly when it is in range and satisfies the test.
pub proof fn lemma_marked_cols_contains(pred: spec_fn(int) -> bool, e: int, c: usize)
    requires
        0 <= e <= usize::MAX,
    ensures
        marked_cols(pred, e).contains(c) <==> (c as int) < e && pred(c as int),
    decreases e,
{
    if e > 0 {
        lemma_marked_cols_contains(pred, e - 1, c);
        let rest = marked_cols(pred, e - 1);
        if pred(e - 1) {
            let cols = rest.push((e - 1) as usize);
            assert forall|x: usize| rest.contains(x) || x == (e - 1) as usize implies cols.contains(
                x,
            ) by {
                if rest.contains(x) {
                    let i = choose|i: int| 0 <= i < rest.len() && rest[i] == x;
                    assert(cols[i] == x);
                } else {
                    assert(cols[rest.len() as int] == x);
                }
            }
            if cols.contains(c) {
                let i = choose|i: int| 0 <= i < cols.len() && cols[i] == c;
                if i < rest.len() {
                    assert(rest[i] == c);
                    assert(rest.contains(c));
                }
            }
        }
    }
}

/// With `lower = 0` and `upper = 1000` (the whole scale), every lightness
/// lies inside the band, so no column is ever marked: the generator behaves
/// exactly like `NoneRange`.
pub proof fn lemma_threshold_full_range_is_none(row: Seq<Pixel>, e: int)
    requires
        0 <= e,
    ensures
        marked_cols(threshold_pred(row, 0, 1000), e) == Seq::<usize>::empty(),
    decreases e,
{
    if e > 0 {
        lemma_threshold_full_range_is_none(row, e - 1);
        assert(!is_threshold_boundary(row[e - 1], 0, 1000));
    }
}

impl Threshold {
    /// One boundary per pixel whose lightness falls outside the band.
    pub fn create_pixel_ranges(&self, image: &Grid<Pixel>) -> (r: Vec<Vec<usize>>)
        requires
            image.wf(),
        ensures
            r@.len() == image@.len(),
            forall|y: int|
                0 <= y < image@.len() ==> (#[trigger] r@[y])@ == marked_cols(
                    threshold_pred(image@[y], self.lower, self.upper),
                    image.spec_width(),
                ),
    {
        let w = image.width();
        let h = image.height();
        let mut intervals: Vec<Vec<usize>> = Vec::new();
        for y in 0..h
            invariant
                image.wf(),
                w as int == image.spec_width(),
                h as int == image@.len(),
                intervals@.len() == y,
                forall|yy: int|
                    0 <= yy < y ==> (#[trigger] intervals@[yy])@ == marked_cols(
                        threshold_pred(image@[yy], self.lower, self.upper),
                        w as int,
                    ),
        {
            let ghost pred = threshold_pred(image@[y as int], self.lower, self.upper);
            let mut row: Vec<usize> = Vec::new();
            for x in 0..w
                invariant
                    image.wf(),
                    w as int == image.spec_width(),
                    h as int == image@.len(),
                    y < h,
                    pred == threshold_pred(image@[y as int], self.lower, self.upper),
                    row@ == marked_cols(pred, x as int),
            {
                let p = image.get(x, y);
                let level = lightness(&p);
                let is_b = 1000u64 * (level.num as u64) < 510u64 * (self.lower as u64) || 1000u64
                    * (level.num as u64) > 510u64 * (self.upper as u64);
                proof {
                    let pp = image@[y as int][x as int];
                    assert(level.num as int == light2(pp));
                    assert(is_b == is_threshold_boundary(pp, self.lower, self.upper));
                    assert(pred(x as int) == is_threshold_boundary(pp, self.lower, self.upper));
                }
                if is_b {
                    row.push(x);
                }
                proof {
                    assert(row@ == marked_cols(pred, x as int + 1));
                }
            }
            intervals.push(row);
        }
        intervals
    }
}

impl File {
    /// One boundary per side-mask pixel that is exactly zero.
    pub fn create_pixel_ranges(&self, image: &Grid<Pixel>) -> (r: Vec<Vec<usize>>)
        requires
            image.wf(),
            self.mask.wf(),
            self.mask@.len() == image@.len(),
            self.mask.spec_width() == image.spec_width(),
        ensures
            r@.len() == image@.len(),
            forall|y: int|
                0 <= y < image@.len() ==> (#[trigger] r@[y])@ == marked_cols(
                    zero_pred(self.mask@[y]),
                    image.spec_width(),
                ),
    {
        let w = image.width();
        let h = image.height();
        let mut intervals: Vec<Vec<usize>> = Vec::new();
        for y in 0..h
            invariant
                image.wf(),
                self.mask.wf(),
                self.mask@.len() == image@.len(),
                self.mask.spec_width() == image.spec_width(),
                w as int == image.spec_width(),
                h as int == image@.len(),
                intervals@.len() == y,
                forall|yy: int|
                    0 <= yy < y ==> (#[trigger] intervals@[yy])@ == marked_cols(
                        zero_pred(self.mask@[yy]),
                        w as int,
                    ),
        {
            let ghost pred = zero_pred(self.mask@[y as int]);
            let mut row: Vec<usize> = Vec::new();
            for x in 0..w
                invariant
                    self.mask.wf(),
                    self.mask@.len() == image@.len(),
                    self.mask.spec_width() == image.spec_width(),
                    w as int == image.spec_width(),
                    h as int == image@.len(),
                    y < h,
                    pred == zero_pred(self.mask@[y as int]),
                    row@ == marked_cols(pred, x as int),
            {
                let is_b = self.mask.get(x, y) == 0;
                proof {
                    assert(is_b == pred(x as int));
                }
                if is_b {
                    row.push(x);
                }
                proof {
                    assert(row@ == marked_cols(pred, x as int + 1));
                }
            }
            intervals.push(row);
        }
        intervals
    }
}

/// Strictly ascending boundary columns, all below the width.
pub open spec fn strict_cols_ok(bs: Seq<usize>, w: int) -> bool {
    &&& forall|i: int, j: int| 0 <= i < j < bs.len() ==> bs[i] < bs[j]
    &&& forall|i: int| 0 <= i < bs.len() ==> (#[trigger] bs[i]) < w
}

/// The largest stride the random walk can take for the given scale: one
/// below the (zero-corrected) scale, and never less than one.
pub open spec fn random_stride(scale: u32) -> int {
    if scale >= 2 {
        scale - 1
    } else {
        1
    }
}

/// What every outcome of the random walk satisfies on one row: the walk
/// starts below the (zero-corrected) scale and advances by at least one
/// and at most `random_stride` columns per step, so the boundaries are
/// strictly ascending, inside the row, never farther apart than the
/// stride, the last within one stride of the width, and at least one is
/// marked whenever the scale fits in the row.
pub open spec fn random_row_ok(bs: Seq<usize>, w: int, scale: u32) -> bool {
    let sc = if scale == 0 {
        1int
    } else {
        scale as int
    };
    let gap = random_stride(scale);
    &&& strict_cols_ok(bs, w)
    &&& (sc <= w ==> bs.len() > 0)
    &&& (bs.len() > 0 ==> bs[0] < sc)
    &&& (forall|i: int| 0 <= i < bs.len() - 1 ==> (#[trigger] bs[i + 1]) - bs[i] <= gap)
    &&& (bs.len() > 0 ==> w - bs[bs.len() - 1] <= gap)
}

/// What every outcome of the wave walk satisfies on one row: the first
/// boundary and every stride lie between the scale (at least one) and the
/// scale plus nine, so the boundaries are strictly ascending, inside the
/// row, the last within one stride of the width, and at least one is
/// marked whenever the largest stride fits in the row.
pub open spec fn wave_row_ok(bs: Seq<usize>, w: int, scale: u32) -> bool {
    let lo = if scale == 0 {
        1int
    } else {
        scale as int
    };
    let hi = scale + 9;
    &&& strict_cols_ok(bs, w)
    &&& (hi < w ==> bs.len() > 0)
    &&& (bs.len() > 0 ==> scale <= bs[0] && bs[0] <= hi)
    &&& (forall|i: int| 0 <= i < bs.len() - 1 ==> lo <= (#[trigger] bs[i + 1]) - bs[i] <= hi)
    &&& (bs.len() > 0 ==> w - bs[bs.len() - 1] <= hi)
}

impl Random {
    /// Per row: a random start below `scale`, then strides drawn uniformly
    /// below `scale`; a zero scale or stride is treated as one so that the
    /// walk always advances. Whatever the draws, the row satisfies
    /// `random_row_ok`: in particular, boundaries are marked whenever the
    /// scale fits in the row, and never drift apart by more than a stride.
    pub fn create_pixel_ranges(&self, image: &Grid<Pixel>) -> (r: Vec<Vec<usize>>)
        requires
            image.wf(),
        ensures
            r@.len() == image@.len(),
            forall|y: int|
                0 <= y < image@.len() ==> random_row_ok(
                    (#[trigger] r@[y])@,
                    image.spec_width(),
                    self.scale,
                ),
    {
        let w = image.width();
        let h = image.height();
        let scale1: u32 = if self.scale == 0 {
            1
        } else {
            self.scale
        };
        let gapx: usize = if scale1 >= 2 {
            (scale1 - 1) as usize
        } else {
            1
        };
        let mut intervals: Vec<Vec<usize>> = Vec::new();
        for y in 0..h
            invariant
                h as int == image@.len(),
                w as int == image.spec_width(),
                scale1 >= 1,
                scale1 as int == (if self.scale == 0 {
                    1int
                } else {
                    self.scale as int
                }),
                gapx as int == random_stride(self.scale),
                intervals@.len() == y,
                forall|yy: int|
                    0 <= yy < y ==> random_row_ok(
                        (#[trigger] intervals@[yy])@,
                        w as int,
                        self.scale,
                    ),
        {
            let mut row: Vec<usize> = Vec::new();
            let mut x: usize = random_below(scale1) as usize;
            while x < w
                invariant_except_break
                    forall|i: int| 0 <= i < row@.len() ==> (#[trigger] row@[i]) < x,
                    row@.len() > 0 ==> x - row@[row@.len() - 1] <= gapx,
                invariant
                    scale1 >= 1,
                    gapx >= 1,
                    scale1 >= 2 ==> gapx as int == scale1 - 1,
                    scale1 < 2 ==> gapx == 1,
                    row@.len() == 0 ==> x < scale1 as usize,
                    row@.len() > 0 ==> row@[0] < scale1 as usize,
                    forall|i: int, j: int| 0 <= i < j < row@.len() ==> row@[i] < row@[j],
                    forall|i: int| 0 <= i < row@.len() ==> (#[trigger] row@[i]) < w,
                    forall|i: int|
                        0 <= i < row@.len() - 1 ==> (#[trigger] row@[i + 1]) - row@[i] <= gapx,
                ensures
                    strict_cols_ok(row@, w as int),
                    row@.len() == 0 ==> w <= x && x < scale1 as usize,
                    row@.len() > 0 ==> row@[0] < scale1 as usize,
                    forall|i: int|
                        0 <= i < row@.len() - 1 ==> (#[trigger] row@[i + 1]) - row@[i] <= gapx,
                    row@.len() > 0 ==> w - row@[row@.len() - 1] <= gapx,
                decreases w - x,
            {
                row.push(x);
                let step = random_below(scale1) as usize;
                let step1: usize = if step == 0 {
                    1
                } else {
                    step
                };
                if step1 >= w - x {
                    break ;
                }
                x += step1;
            }
            proof {
                assert(random_row_ok(row@, w as int, self.scale));
            }
            intervals.push(row);
        }
        intervals
    }
}

impl Wave {
    /// Per row: boundaries spaced `scale` apart plus a jitter below ten; a
    /// zero advance is treated as one so that the walk always advances.
    /// Whatever the draws, the row satisfies `wave_row_ok`: boundaries are
    /// marked whenever the largest stride fits in the row, and consecutive
    /// strides stay between the scale and the scale plus nine.
    pub fn create_pixel_ranges(&self, image: &Grid<Pixel>) -> (r: Vec<Vec<usize>>)
        requires
            image.wf(),
        ensures
            r@.len() == image@.len(),
            forall|y: int|
                0 <= y < image@.len() ==> wave_row_ok(
                    (#[trigger] r@[y])@,
                    image.spec_width(),
                    self.scale,
                ),
    {
        let w = image.width();
        let h = image.height();
        let ghost lo: int = if self.scale == 0 {
            1int
        } else {
            self.scale as int
        };
        let ghost hi: int = self.scale as int + 9;
        let mut intervals: Vec<Vec<usize>> = Vec::new();
        for y in 0..h
            invariant
                h as int == image@.len(),
                w as int == image.spec_width(),
                lo == (if self.scale == 0 {
                    1int
                } else {
                    self.scale as int
                }),
                hi == self.scale as int + 9,
                intervals@.len() == y,
                forall|yy: int|
                    0 <= yy < y ==> wave_row_ok((#[trigger] intervals@[yy])@, w as int, self.scale),
        {
            let mut row: Vec<usize> = Vec::new();
            let first: u64 = self.scale as u64 + random_below(10) as u64;
            if first < w as u64 {
                let fx: usize = first as usize;
                let mut x: usize = fx;
                while x < w
                    invariant_except_break
                        forall|i: int| 0 <= i < row@.len() ==> (#[trigger] row@[i]) < x,
                        row@.len() > 0 ==> lo <= x - row@[row@.len() - 1] <= hi,
                    invariant
                        lo == (if self.scale == 0 {
                            1int
                        } else {
                            self.scale as int
                        }),
                        hi == self.scale as int + 9,
                        fx < w,
                        self.scale as int <= fx as int <= hi,
                        row@.len() == 0 ==> x == fx,
                        row@.len() > 0 ==> self.scale as int <= row@[0] as int <= hi,
                        forall|i: int, j: int| 0 <= i < j < row@.len() ==> row@[i] < row@[j],
                        forall|i: int| 0 <= i < row@.len() ==> (#[trigger] row@[i]) < w,
                        forall|i: int|
                            0 <= i < row@.len() - 1 ==> lo <= (#[trigger] row@[i + 1]) - row@[i]
                                <= hi,
                    ensures
                        strict_cols_ok(row@, w as int),
                        row@.len() > 0,
                        self.scale as int <= row@[0] as int <= hi,
                        forall|i: int|
                            0 <= i < row@.len() - 1 ==> lo <= (#[trigger] row@[i + 1]) - row@[i]
                                <= hi,
                        w - row@[row@.len() - 1] <= hi,
                    decreases w - x,
                {
                    row.push(x);
                    let step: u64 = self.scale as u64 + random_below(10) as u64;
                    let step1: u64 = if step == 0 {
                        1
                    } else {
                        step
                    };
                    if step1 >= (w - x) as u64 {
                        break ;
                    }
                    x += step1 as usize;
                }
            }
            proof {
                assert(wave_row_ok(row@, w as int, self.scale));
            }
            intervals.push(row);
        }
        intervals
    }
}

impl NoneRange {
    /// No boundaries: every row is one single run.
    pub fn create_pixel_ranges(&self, image: &Grid<Pixel>) -> (r: Vec<Vec<usize>>)
        requires
            image.wf(),
        ensures
            r@.len() == image@.len(),
            forall|y: int| 0 <= y < image@.len() ==> (#[trigger] r@[y])@.len() == 0,
    {
        let h = image.height();
        let mut intervals: Vec<Vec<usize>> = Vec::new();
        for y in 0..h
            invariant
                h as int == image@.len(),
                intervals@.len() == y,
                forall|yy: int| 0 <= yy < y ==> (#[trigger] intervals@[yy])@.len() == 0,
        {
            let row: Vec<usize> = Vec::new();
            intervals.push(row);
        }
        intervals
    }
}

/// What a generator needs of the image's companions: only `File` carries a
/// side mask, which must match the image's dimensions.
pub open spec fn range_wf(r: PixelRange, img_h: int, img_w: int) -> bool {
    match r {
        PixelRange::File(f) => f.mask.wf() && f.mask@.len() == img_h && f.mask.spec_width()
            == img_w,
        _ => true,
    }
}

/// Which boundary lists a generator can produce for the given image. For
/// `Threshold`, `File` and `NoneRange` the outcome is unique; for `Random`
/// and `Wave` every possible outcome satisfies the per-row walk shape.
pub open spec fn ranges_match(
    r: PixelRange,
    img: Seq<Seq<Pixel>>,
    w: int,
    rs: Seq<Seq<usize>>,
) -> bool {
    match r {
        PixelRange::Threshold(t) => forall|y: int|
            0 <= y < img.len() ==> #[trigger] rs[y] == marked_cols(
                threshold_pred(img[y], t.lower, t.upper),
                w,
            ),
        PixelRange::File(f) => forall|y: int|
            0 <= y < img.len() ==> #[trigger] rs[y] == marked_cols(zero_pred(f.mask@[y]), w),
        PixelRange::NoneRange(_) => forall|y: int|
            0 <= y < img.len() ==> (#[trigger] rs[y]).len() == 0,
        PixelRange::Random(rnd) => forall|y: int|
            0 <= y < img.len() ==> random_row_ok(#[trigger] rs[y], w, rnd.scale),
        PixelRange::Wave(wv) => forall|y: int|
            0 <= y < img.len() ==> wave_row_ok(#[trigger] rs[y], w, wv.scale),
    }
}

/// The generators whose boundaries are a function of the image and their
/// own parameters alone, with no randomness: two runs on equal inputs
/// produce the same boundary lists.
pub open spec fn is_deterministic(r: PixelRange) -> bool {
    match r {
        PixelRange::Threshold(_) => true,
        PixelRange::File(_) => true,
        PixelRange::NoneRange(_) => true,
        PixelRange::Random(_) => false,
        PixelRange::Wave(_) => false,
    }
}

impl PixelRange {
    /// Dispatches to the selected generator. Whatever the variant, every
    /// row gets an ascending, in-range boundary list that the engine can
    /// consume directly.
    pub fn create_pixel_ranges(&self, image: &Grid<Pixel>) -> (r: Vec<Vec<usize>>)
        requires
            image.wf(),
            range_wf(*self, image@.len() as int, image.spec_width()),
        ensures
            r@.len() == image@.len(),
            forall|y: int|
                0 <= y < image@.len() ==> bounds_ok((#[trigger] r@[y])@, image.spec_width()),
            ranges_match(
                *self,
                image@,
                image.spec_width(),
                Seq::new(r@.len(), |y: int| r@[y]@),
            ),
    {
        let r = match self {
            PixelRange::Threshold(t) => t.create_pixel_ranges(image),
            PixelRange::Random(rnd) => rnd.create_pixel_ranges(image),
            PixelRange::Wave(wv) => wv.create_pixel_ranges(image),
            PixelRange::File(f) => f.create_pixel_ranges(image),
            PixelRange::NoneRange(n) => n.create_pixel_ranges(image),
        };
        proof {
            let w = image.spec_width();
            image.lemma_width_in_range();
            assert forall|y: int| 0 <= y < image@.len() implies bounds_ok(
                (#[trigger] r@[y])@,
                w,
            ) by {
                match *self {
                    PixelRange::Threshold(_) => {
                        lemma_marked_cols_ok(
                            threshold_pred(
                                image@[y],
                                self->Threshold_0.lower,
                                self->Threshold_0.upper,
                            ),
                            w,
                            w,
                        );
                    },
                    PixelRange::File(_) => {
                        lemma_marked_cols_ok(zero_pred(self->File_0.mask@[y]), w, w);
                    },
                    _ => {},
                }
            }
        }
        r
    }
}

} // verus!
