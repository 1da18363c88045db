//! The pixel-sort engine.
//!
//! `PixelSort` owns an image, a mask of the same dimensions, a range
//! generator and a sort key. Sorting proceeds row by row: the generator's
//! boundary columns carve the row into runs, the mask-active pixels of each
//! run are gathered and ordered by the key, and the row is re-rendered left
//! to right with masked-out pixels untouched and active pixels consuming
//! the sorted run in order.

pub mod interval;

pub mod laws;

pub mod range;

pub mod runs;

pub mod sorter;

pub mod sorting;

use vstd::prelude::*;

use crate::pixel_sort::range::{range_wf, ranges_match, PixelRange};
use crate::pixel_sort::runs::{
    active_count, aug_at, bounds_ok, lemma_aug_monotone, lemma_count_bounds, lemma_count_split,
    lemma_placed_run, lemma_run_len, row_rel, run_pixels, run_rel, sort_rel, sorted_by_key,
    stable_sort,
};
use crate::pixel_sort::sorter::sort_interval;
use crate::pixel_sort::sorting::SortKey;
use crate::raster::{Grid, Pixel};

verus! {

/// One ascending, in-range boundary list per row of an image of height `h`
/// and width `w`.
pub open spec fn ranges_valid(rs: Seq<Seq<usize>>, h: int, w: int) -> bool {
    &&& rs.len() == h
    &&& forall|y: int| 0 <= y < h ==> bounds_ok(#[trigger] rs[y], w)
}

/// What the gathered list promises over one window `[s, e)`: the slice of
/// `list` between the active-pixel counts of `s` and `e` is the stable
/// sort of the window's run — ordered by the key, ties kept in their
/// original order, an already ordered run reproduced exactly.
pub open spec fn gathered_run_rel(
    in_row: Seq<Pixel>,
    m: Seq<u8>,
    k: SortKey,
    list: Seq<Pixel>,
    s: int,
    e: int,
) -> bool {
    let ir = run_pixels(in_row, m, s, e);
    let slice = list.subrange(active_count(m, 0, s), active_count(m, 0, e));
    &&& slice == stable_sort(ir, k)
    &&& sorted_by_key(slice, k)
    &&& slice.to_multiset() == ir.to_multiset()
    &&& (sorted_by_key(ir, k) ==> slice == ir)
}

/// What `sort_pixels` promises for one row: one pixel per active column,
/// and every window of the augmented boundary sequence satisfies
/// `gathered_run_rel`.
pub open spec fn gathered_row_rel(
    in_row: Seq<Pixel>,
    m: Seq<u8>,
    bs: Seq<usize>,
    k: SortKey,
    list: Seq<Pixel>,
) -> bool {
    let w = in_row.len() as int;
    &&& list.len() == active_count(m, 0, w)
    &&& forall|j: int|
        0 <= j < bs.len() + 1 ==> gathered_run_rel(
            in_row,
            m,
            k,
            list,
            #[trigger] aug_at(bs, w, j),
            aug_at(bs, w, j + 1),
        )
}

/// The engine: an image, a mask gating which pixels participate, a range
/// generator and a sort key.
pub struct PixelSort {
    pub image: Grid<Pixel>,
    pub mask: Grid<u8>,
    pub range: PixelRange,
    pub sort_fn: SortKey,
}

/// Gathers the mask-active pixels of columns `[s, e)` of row `y`, sorts
/// them by the key, and appends them to `out_list`, which must hold exactly
/// the active pixels of the columns before `s`.
fn append_masked_window(
    image: &Grid<Pixel>,
    mask: &Grid<u8>,
    y: usize,
    s: usize,
    e: usize,
    k: SortKey,
    out_list: &mut Vec<Pixel>,
)
    requires
        image.wf(),
        mask.wf(),
        mask@.len() == image@.len(),
        mask.spec_width() == image.spec_width(),
        y < image@.len(),
        s <= e,
        e as int <= image.spec_width(),
        old(out_list)@.len() == active_count(mask@[y as int], 0, s as int),
    ensures
        final(out_list)@.len() == active_count(mask@[y as int], 0, e as int),
        final(out_list)@.subrange(0, old(out_list)@.len() as int) == old(out_list)@,
        gathered_run_rel(
            image@[y as int],
            mask@[y as int],
            k,
            final(out_list)@,
            s as int,
            e as int,
        ),
{
    let ghost m = mask@[y as int];
    let ghost in_row = image@[y as int];
    let mut run: Vec<Pixel> = Vec::new();
    proof {
        assert(run@ =~= run_pixels(in_row, m, s as int, s as int));
    }
    let mut x: usize = s;
    while x < e
        invariant
            image.wf(),
            mask.wf(),
            mask@.len() == image@.len(),
            mask.spec_width() == image.spec_width(),
            y < image@.len(),
            m == mask@[y as int],
            in_row == image@[y as int],
            s <= x <= e,
            e as int <= image.spec_width(),
            run@ == run_pixels(in_row, m, s as int, x as int),
        decreases e - x,
    {
        if mask.get(x, y) != 0 {
            run.push(image.get(x, y));
        }
        proof {
            assert(run@ == run_pixels(in_row, m, s as int, x as int + 1));
        }
        x += 1;
    }
    let mut sorted = sort_interval(run, k);
    let ghost sorted_view = sorted@;
    let ghost old_list = out_list@;
    out_list.append(&mut sorted);
    proof {
        lemma_run_len(in_row, m, s as int, e as int);
        lemma_count_split(m, 0, s as int, e as int);
        lemma_count_bounds(m, 0, s as int);
        lemma_count_bounds(m, s as int, e as int);
        assert(out_list@.subrange(0, old_list.len() as int) =~= old_list);
        assert(out_list@.subrange(
            active_count(m, 0, s as int),
            active_count(m, 0, e as int),
        ) =~= sorted_view);
    }
}

/// Appending a window's pixels after position `active_count(m, 0, aug_at(bs,
/// w, j))` leaves every earlier window's slice intact.
proof fn preserve_gathered_windows(
    in_row: Seq<Pixel>,
    m: Seq<u8>,
    bs: Seq<usize>,
    w: int,
    j: int,
    old_list: Seq<Pixel>,
    new_list: Seq<Pixel>,
    k: SortKey,
)
    requires
        bounds_ok(bs, w),
        w >= 0,
        in_row.len() == w,
        0 <= j <= bs.len(),
        old_list.len() == active_count(m, 0, aug_at(bs, w, j)),
        new_list.len() == active_count(m, 0, aug_at(bs, w, j + 1)),
        new_list.subrange(0, old_list.len() as int) == old_list,
        forall|jj: int|
            0 <= jj < j ==> gathered_run_rel(
                in_row,
                m,
                k,
                old_list,
                #[trigger] aug_at(bs, w, jj),
                aug_at(bs, w, jj + 1),
            ),
        gathered_run_rel(in_row, m, k, new_list, aug_at(bs, w, j), aug_at(bs, w, j + 1)),
    ensures
        forall|jj: int|
            0 <= jj < j + 1 ==> gathered_run_rel(
                in_row,
                m,
                k,
                new_list,
                #[trigger] aug_at(bs, w, jj),
                aug_at(bs, w, jj + 1),
            ),
{
    lemma_aug_monotone(bs, w, j);
    lemma_count_split(m, 0, aug_at(bs, w, j), aug_at(bs, w, j + 1));
    lemma_count_bounds(m, 0, aug_at(bs, w, j));
    lemma_count_bounds(m, aug_at(bs, w, j), aug_at(bs, w, j + 1));
    assert(old_list.len() <= new_list.len());
    assert forall|jj: int| 0 <= jj < j + 1 implies gathered_run_rel(
        in_row,
        m,
        k,
        new_list,
        #[trigger] aug_at(bs, w, jj),
        aug_at(bs, w, jj + 1),
    ) by {
        lemma_aug_monotone(bs, w, jj);
        let sjj = aug_at(bs, w, jj);
        let ejj = aug_at(bs, w, jj + 1);
        if jj < j {
            assert(ejj <= aug_at(bs, w, j)) by {
                if jj + 1 < j {
                    assert(bs[jj] <= bs[j - 1]);
                }
            }
            let csjj = active_count(m, 0, sjj);
            let cejj = active_count(m, 0, ejj);
            lemma_count_split(m, 0, sjj, ejj);
            lemma_count_bounds(m, 0, sjj);
            lemma_count_bounds(m, sjj, ejj);
            lemma_count_split(m, 0, ejj, aug_at(bs, w, j));
            lemma_count_bounds(m, ejj, aug_at(bs, w, j));
            assert(cejj <= old_list.len());
            assert(new_list.subrange(csjj, cejj) =~= old_list.subrange(csjj, cejj)) by {
                assert forall|idx: int| 0 <= idx < cejj - csjj implies new_list.subrange(
                    csjj,
                    cejj,
                )[idx] == old_list.subrange(csjj, cejj)[idx] by {
                    assert(new_list[csjj + idx] == new_list.subrange(
                        0,
                        old_list.len() as int,
                    )[csjj + idx]);
                }
            }
        }
    }
}

impl PixelSort {
    /// The engine's shape invariant: image and mask share dimensions, and a
    /// `File` generator's side mask does too.
    pub open spec fn wf(&self) -> bool {
        &&& self.image.wf()
        &&& self.mask.wf()
        &&& self.mask@.len() == self.image@.len()
        &&& self.mask.spec_width() == self.image.spec_width()
        &&& range_wf(self.range, self.image@.len() as int, self.image.spec_width())
    }

    /// Bundles the inputs of one sorting pass. The caller must have checked
    /// that the mask matches the image's dimensions.
    pub fn new(image: Grid<Pixel>, mask: Grid<u8>, range: PixelRange, sort_fn: SortKey) -> (s:
        Self)
        requires
            image.wf(),
            mask.wf(),
            mask@.len() == image@.len(),
            mask.spec_width() == image.spec_width(),
            range_wf(range, image@.len() as int, image.spec_width()),
        ensures
            s.wf(),
            s.image == image,
            s.mask == mask,
            s.range == range,
            s.sort_fn == sort_fn,
    {
        Self { image, mask, range, sort_fn }
    }

    /// Gathers and sorts the active pixels of every run: for each row, one
    /// list holding, window by window, the run's pixels in key order.
    pub fn sort_pixels(&self, ranges: &Vec<Vec<usize>>, sort_fn: SortKey) -> (r: Vec<Vec<Pixel>>)
        requires
            self.wf(),
            ranges@.len() == self.image@.len(),
            forall|y: int|
                0 <= y < ranges@.len() ==> bounds_ok(
                    (#[trigger] ranges@[y])@,
                    self.image.spec_width(),
                ),
        ensures
            r@.len() == self.image@.len(),
            forall|y: int|
                0 <= y < r@.len() ==> gathered_row_rel(
                    self.image@[y],
                    self.mask@[y],
                    ranges@[y]@,
                    sort_fn,
                    (#[trigger] r@[y])@,
                ),
    {
        let w = self.image.width();
        let h = self.image.height();
        let mut rows: Vec<Vec<Pixel>> = Vec::new();
        for y in 0..h
            invariant
                self.wf(),
                w as int == self.image.spec_width(),
                h as int == self.image@.len(),
                ranges@.len() == self.image@.len(),
                forall|yy: int|
                    0 <= yy < ranges@.len() ==> bounds_ok((#[trigger] ranges@[yy])@, w as int),
                rows@.len() == y,
                forall|yy: int|
                    0 <= yy < y ==> gathered_row_rel(
                        self.image@[yy],
                        self.mask@[yy],
                        ranges@[yy]@,
                        sort_fn,
                        (#[trigger] rows@[yy])@,
                    ),
        {
            let xs: &Vec<usize> = &ranges[y];
            let ghost bs = ranges@[y as int]@;
            let ghost m = self.mask@[y as int];
            let ghost in_row = self.image@[y as int];
            let mut list: Vec<Pixel> = Vec::new();
            let mut prev: usize = 0;
            let mut j: usize = 0;
            proof {
                assert(list@.len() == active_count(m, 0, 0));
            }
            while j < xs.len()
                invariant
                    self.wf(),
                    w as int == self.image.spec_width(),
                    h as int == self.image@.len(),
                    y < h,
                    xs@ == bs,
                    m == self.mask@[y as int],
                    in_row == self.image@[y as int],
                    bounds_ok(bs, w as int),
                    j <= bs.len(),
                    prev as int == aug_at(bs, w as int, j as int),
                    list@.len() == active_count(m, 0, prev as int),
                    forall|jj: int|
                        0 <= jj < j ==> gathered_run_rel(
                            in_row,
                            m,
                            sort_fn,
                            list@,
                            #[trigger] aug_at(bs, w as int, jj),
                            aug_at(bs, w as int, jj + 1),
                        ),
                decreases xs@.len() - j,
            {
                let e = xs[j];
                proof {
                    lemma_aug_monotone(bs, w as int, j as int);
                    assert(e as int == aug_at(bs, w as int, j as int + 1));
                }
                let ghost old_list = list@;
                append_masked_window(&self.image, &self.mask, y, prev, e, sort_fn, &mut list);
                proof {
                    preserve_gathered_windows(
                        in_row,
                        m,
                        bs,
                        w as int,
                        j as int,
                        old_list,
                        list@,
                        sort_fn,
                    );
                }
                prev = e;
                j += 1;
            }
            proof {
                lemma_aug_monotone(bs, w as int, bs.len() as int);
            }
            let ghost old_list = list@;
            append_masked_window(&self.image, &self.mask, y, prev, w, sort_fn, &mut list);
            proof {
                preserve_gathered_windows(
                    in_row,
                    m,
                    bs,
                    w as int,
                    bs.len() as int,
                    old_list,
                    list@,
                    sort_fn,
                );
                assert(gathered_row_rel(in_row, m, bs, sort_fn, list@));
            }
            rows.push(list);
        }
        rows
    }

    /// Re-renders the image: masked-out pixels keep their original value,
    /// and each active column consumes the next pixel of its row's gathered
    /// list, left to right.
    pub fn place_pixels(&self, pixels: Vec<Vec<Pixel>>) -> (out: Grid<Pixel>)
        requires
            self.wf(),
            pixels@.len() == self.image@.len(),
            forall|y: int|
                0 <= y < pixels@.len() ==> (#[trigger] pixels@[y])@.len() == active_count(
                    self.mask@[y],
                    0,
                    self.image.spec_width(),
                ),
        ensures
            out.wf(),
            out.spec_width() == self.image.spec_width(),
            out@.len() == self.image@.len(),
            forall|y: int, x: int|
                0 <= y < out@.len() && 0 <= x < out.spec_width() && self.mask@[y][x] == 0
                    ==> #[trigger] out@[y][x] == self.image@[y][x],
            forall|y: int, x: int|
                0 <= y < out@.len() && 0 <= x < out.spec_width() && self.mask@[y][x] != 0
                    ==> #[trigger] out@[y][x] == pixels@[y]@[active_count(self.mask@[y], 0, x)],
    {
        let w = self.image.width();
        let h = self.image.height();
        let mut rows: Vec<Vec<Pixel>> = Vec::new();
        for y in 0..h
            invariant
                self.wf(),
                w as int == self.image.spec_width(),
                h as int == self.image@.len(),
                pixels@.len() == self.image@.len(),
                forall|yy: int|
                    0 <= yy < pixels@.len() ==> (#[trigger] pixels@[yy])@.len() == active_count(
                        self.mask@[yy],
                        0,
                        w as int,
                    ),
                rows@.len() == y,
                forall|yy: int| 0 <= yy < y ==> (#[trigger] rows@[yy])@.len() == w,
                forall|yy: int, x: int|
                    0 <= yy < y && 0 <= x < w && self.mask@[yy][x] == 0 ==> #[trigger] rows@[yy]@[x]
                        == self.image@[yy][x],
                forall|yy: int, x: int|
                    0 <= yy < y && 0 <= x < w && self.mask@[yy][x] != 0 ==> #[trigger] rows@[yy]@[x]
                        == pixels@[yy]@[active_count(self.mask@[yy], 0, x)],
        {
            let list: &Vec<Pixel> = &pixels[y];
            let ghost m = self.mask@[y as int];
            let total = list.len();
            let mut row: Vec<Pixel> = Vec::new();
            let mut c: usize = 0;
            for x in 0..w
                invariant
                    self.wf(),
                    w as int == self.image.spec_width(),
                    h as int == self.image@.len(),
                    y < h,
                    m == self.mask@[y as int],
                    list@.len() == active_count(m, 0, w as int),
                    total == list@.len(),
                    c <= total,
                    c as int == active_count(m, 0, x as int),
                    row@.len() == x,
                    forall|xx: int|
                        0 <= xx < x && m[xx] == 0 ==> #[trigger] row@[xx] == self.image@[y as int][xx],
                    forall|xx: int|
                        0 <= xx < x && m[xx] != 0 ==> #[trigger] row@[xx] == list@[active_count(
                            m,
                            0,
                            xx,
                        )],
            {
                proof {
                    lemma_count_split(m, 0, x as int, x as int + 1);
                    lemma_count_split(m, 0, x as int + 1, w as int);
                    lemma_count_bounds(m, x as int + 1, w as int);
                }
                if self.mask.get(x, y) != 0 {
                    proof {
                        assert(active_count(m, x as int, x as int + 1) == 1);
                        assert(c < total);
                    }
                    row.push(list[c]);
                    c += 1;
                } else {
                    row.push(self.image.get(x, y));
                }
            }
            rows.push(row);
        }
        let ghost rows_view = rows@;
        let out = Grid::from_rows(w, rows);
        proof {
            assert forall|y: int, x: int|
                0 <= y < out@.len() && 0 <= x < out.spec_width() && self.mask@[y][x]
                    == 0 implies #[trigger] out@[y][x] == self.image@[y][x] by {
                assert(out@[y] == rows_view[y]@);
                assert(rows_view[y]@[x] == self.image@[y][x]);
            }
            assert forall|y: int, x: int|
                0 <= y < out@.len() && 0 <= x < out.spec_width() && self.mask@[y][x]
                    != 0 implies #[trigger] out@[y][x] == pixels@[y]@[active_count(
                self.mask@[y],
                0,
                x,
            )] by {
                assert(out@[y] == rows_view[y]@);
                assert(rows_view[y]@[x] == pixels@[y]@[active_count(self.mask@[y], 0, x)]);
            }
        }
        out
    }

    /// One full sorting pass. The result has the image's dimensions; for
    /// some boundary assignment the chosen generator can produce, every
    /// run's active pixels come out as the stable sort of the run (ordered
    /// by the key, ties in their original order), masked-out pixels keep
    /// their value, and already ordered runs are reproduced exactly. With
    /// a deterministic generator the boundary assignment is unique, so two
    /// passes over equal inputs agree pixel for pixel (see the laws).
    pub fn sort(&self) -> (out: Grid<Pixel>)
        requires
            self.wf(),
        ensures
            out.wf(),
            out.spec_width() == self.image.spec_width(),
            out@.len() == self.image@.len(),
            exists|rs: Seq<Seq<usize>>|
                {
                    &&& #[trigger] ranges_valid(
                        rs,
                        self.image@.len() as int,
                        self.image.spec_width(),
                    )
                    &&& ranges_match(self.range, self.image@, self.image.spec_width(), rs)
                    &&& sort_rel(self.image@, self.mask@, rs, self.sort_fn, out@)
                },
    {
        let ranges = self.range.create_pixel_ranges(&self.image);
        let pixels = self.sort_pixels(&ranges, self.sort_fn);
        let out = self.place_pixels(pixels);
        proof {
            let w = self.image.spec_width();
            let h = self.image@.len() as int;
            let rs = Seq::new(ranges@.len(), |y: int| ranges@[y]@);
            assert(ranges_valid(rs, h, w));
            assert forall|y: int| 0 <= y < h implies row_rel(
                self.image@[y],
                self.mask@[y],
                rs[y],
                self.sort_fn,
                #[trigger] out@[y],
            ) by {
                let in_row = self.image@[y];
                let m = self.mask@[y];
                let bs = rs[y];
                let list = pixels@[y]@;
                assert(in_row.len() == w);
                assert(gathered_row_rel(in_row, m, bs, self.sort_fn, list));
                assert forall|j: int| 0 <= j < bs.len() + 1 implies run_rel(
                    in_row,
                    m,
                    self.sort_fn,
                    out@[y],
                    #[trigger] aug_at(bs, w, j),
                    aug_at(bs, w, j + 1),
                ) by {
                    lemma_aug_monotone(bs, w, j);
                    let s = aug_at(bs, w, j);
                    let e = aug_at(bs, w, j + 1);
                    lemma_count_split(m, 0, e, w);
                    lemma_count_bounds(m, e, w);
                    lemma_placed_run(out@[y], m, list, s, e);
                    assert(gathered_run_rel(in_row, m, self.sort_fn, list, s, e));
                }
            }
            assert(sort_rel(self.image@, self.mask@, rs, self.sort_fn, out@));
        }
        out
    }
}

} // verus!
