//! Sorting the pixels of a run, and a maskless whole-image sorter that
//! carves rows by boundary columns alone.

use vstd::prelude::*;

use crate::pixel_sort::runs::{
    aug_at, bounds_ok, lemma_aug_monotone, lemma_insert_multiset, lemma_sorted_insert,
    lemma_sorted_insert_spec_at, lemma_sorted_subrange, sorted_by_key, sorted_insert_spec,
    stable_sort,
};
use crate::pixel_sort::sorting::{key_le, lemma_key_le_total, lemma_key_le_trans, SortKey};
use crate::raster::{Grid, Pixel};

verus! {

/// What `sort_image` promises of one window `[s, e)` of a row: the slice
/// comes out ordered by the key, it holds the same pixels, and an already
/// ordered slice is reproduced exactly.
pub open spec fn plain_run_rel(
    in_row: Seq<Pixel>,
    k: SortKey,
    out_row: Seq<Pixel>,
    s: int,
    e: int,
) -> bool {
    let ir = in_row.subrange(s, e);
    let or = out_row.subrange(s, e);
    &&& or == stable_sort(ir, k)
    &&& sorted_by_key(or, k)
    &&& or.to_multiset() == ir.to_multiset()
    &&& (sorted_by_key(ir, k) ==> or == ir)
}

/// What `sort_image` promises of one row, over every window of the
/// augmented boundary sequence.
pub open spec fn plain_row_rel(in_row: Seq<Pixel>, bs: Seq<usize>, out_row: Seq<Pixel>) -> bool {
    let w = in_row.len() as int;
    &&& out_row.len() == in_row.len()
    &&& forall|j: int|
        0 <= j < bs.len() + 1 ==> plain_run_rel(
            in_row,
            SortKey::Lightness,
            out_row,
            #[trigger] aug_at(bs, w, j),
            aug_at(bs, w, j + 1),
        )
}

/// The boundary columns supplied for row `y`; rows past the end of the
/// supplied list have none.
pub open spec fn row_bounds(intervals: Seq<Vec<usize>>, y: int) -> Seq<usize> {
    if 0 <= y < intervals.len() {
        intervals[y]@
    } else {
        Seq::empty()
    }
}

/// Sorts one run of pixels ascending by the key, by straight insertion.
/// The result holds the same pixels; a run already in order comes back
/// unchanged, which makes re-sorting sorted data a fixed point.
pub fn sort_interval(interval: Vec<Pixel>, sort_function: SortKey) -> (r: Vec<Pixel>)
    ensures
        r@ == stable_sort(interval@, sort_function),
        r@.len() == interval@.len(),
        sorted_by_key(r@, sort_function),
        r@.to_multiset() == interval@.to_multiset(),
        sorted_by_key(interval@, sort_function) ==> r@ == interval@,
{
    let n = interval.len();
    let mut out: Vec<Pixel> = Vec::new();
    proof {
        broadcast use vstd::seq_lib::group_to_multiset_ensures;

        assert(out@.to_multiset() =~= interval@.subrange(0, 0).to_multiset());
    }
    let mut i: usize = 0;
    while i < n
        invariant
            n == interval@.len(),
            i <= n,
            out@.len() == i,
            sorted_by_key(out@, sort_function),
            out@.to_multiset() == interval@.subrange(0, i as int).to_multiset(),
            sorted_by_key(interval@.subrange(0, i as int), sort_function) ==> out@
                == interval@.subrange(0, i as int),
            out@ == stable_sort(interval@.subrange(0, i as int), sort_function),
        decreases n - i,
    {
        let cur = interval[i];
        let ghost prefix = interval@.subrange(0, i as int);
        let ghost prefix1 = interval@.subrange(0, i as int + 1);
        let mut j: usize = 0;
        loop
            invariant
                j <= out@.len(),
                cur == interval@[i as int],
                i < interval@.len(),
                sorted_by_key(out@, sort_function),
                forall|ii: int| 0 <= ii < j ==> key_le(sort_function, #[trigger] out@[ii], cur),
            ensures
                j <= out@.len(),
                forall|ii: int| 0 <= ii < j ==> key_le(sort_function, #[trigger] out@[ii], cur),
                j == out@.len() || !key_le(sort_function, out@[j as int], cur),
            decreases out@.len() - j,
        {
            if j == out.len() {
                break ;
            }
            if !sort_function.le(&out[j], &cur) {
                break ;
            }
            j += 1;
        }
        proof {
            broadcast use vstd::seq_lib::group_to_multiset_ensures;

            assert forall|ii: int| j <= ii < out@.len() implies key_le(
                sort_function,
                cur,
                #[trigger] out@[ii],
            ) by {
                assert(!key_le(sort_function, out@[j as int], cur));
                lemma_key_le_total(sort_function, out@[j as int], cur);
                if ii > j {
                    assert(key_le(sort_function, out@[j as int], out@[ii]));
                    lemma_key_le_trans(sort_function, cur, out@[j as int], out@[ii]);
                }
            }
            lemma_sorted_insert(out@, sort_function, j as int, cur);
            lemma_insert_multiset(out@, j as int, cur);
            lemma_sorted_insert_spec_at(out@, cur, sort_function, j as int);
            assert(prefix1 =~= prefix.push(cur));
            assert(prefix1.to_multiset() == prefix.to_multiset().insert(cur));
            assert(prefix1.drop_last() =~= prefix);
            assert(prefix1.last() == cur);
            assert(stable_sort(prefix1, sort_function) == sorted_insert_spec(
                out@,
                cur,
                sort_function,
            ));
            if sorted_by_key(prefix1, sort_function) {
                lemma_sorted_subrange(prefix1, sort_function, 0, i as int);
                assert(prefix =~= prefix1.subrange(0, i as int));
                assert(out@ == prefix);
                assert forall|ii: int| 0 <= ii < out@.len() implies key_le(
                    sort_function,
                    #[trigger] out@[ii],
                    cur,
                ) by {
                    assert(prefix1[ii] == out@[ii] && prefix1[i as int] == cur);
                    assert(key_le(sort_function, prefix1[ii], prefix1[i as int]));
                }
                if j < out.len() {
                    assert(key_le(sort_function, out@[j as int], cur));
                    assert(false);
                }
                assert(out@.insert(j as int, cur) =~= prefix1);
            }
        }
        out.insert(j, cur);
        i += 1;
    }
    proof {
        assert(interval@.subrange(0, n as int) =~= interval@);
    }
    out
}

/// Gathers the window `[s, e)` of row `y`, sorts it by the key, and appends
/// the sorted pixels to `out_row`, which must end exactly at column `s`.
fn append_sorted_window(
    image: &Grid<Pixel>,
    y: usize,
    s: usize,
    e: usize,
    k: SortKey,
    out_row: &mut Vec<Pixel>,
)
    requires
        image.wf(),
        y < image@.len(),
        s <= e,
        e as int <= image.spec_width(),
        old(out_row)@.len() == s,
    ensures
        final(out_row)@.len() == e,
        final(out_row)@.subrange(0, s as int) == old(out_row)@,
        plain_run_rel(image@[y as int], k, final(out_row)@, s as int, e as int),
{
    let mut run: Vec<Pixel> = Vec::new();
    let mut x: usize = s;
    proof {
        assert(run@ =~= image@[y as int].subrange(s as int, s as int));
    }
    while x < e
        invariant
            image.wf(),
            y < image@.len(),
            s <= x <= e,
            e as int <= image.spec_width(),
            run@ == image@[y as int].subrange(s as int, x as int),
        decreases e - x,
    {
        run.push(image.get(x, y));
        proof {
            assert(run@ =~= image@[y as int].subrange(s as int, x as int + 1));
        }
        x += 1;
    }
    let mut sorted = sort_interval(run, k);
    let ghost old_row = out_row@;
    let ghost sorted_view = sorted@;
    out_row.append(&mut sorted);
    proof {
        assert(out_row@.subrange(0, s as int) =~= old_row);
        assert(out_row@.subrange(s as int, e as int) =~= sorted_view);
    }
}

/// Sorts every row of the image by lightness within the windows carved by
/// the given per-row boundary columns; no mask is involved, so every pixel
/// of a window participates. Rows without a supplied boundary list are
/// sorted whole.
pub fn sort_image(image: &Grid<Pixel>, intervals: Vec<Vec<usize>>) -> (r: Vec<Vec<Pixel>>)
    requires
        image.wf(),
        forall|y: int|
            0 <= y < intervals@.len() ==> bounds_ok(
                (#[trigger] intervals@[y])@,
                image.spec_width(),
            ),
    ensures
        r@.len() == image@.len(),
        forall|y: int|
            0 <= y < image@.len() ==> plain_row_rel(
                image@[y],
                row_bounds(intervals@, y),
                (#[trigger] r@[y])@,
            ),
{
    let w = image.width();
    let h = image.height();
    let empty_bs: Vec<usize> = Vec::new();
    let mut rows: Vec<Vec<Pixel>> = Vec::new();
    for y in 0..h
        invariant
            image.wf(),
            w as int == image.spec_width(),
            h as int == image@.len(),
            empty_bs@.len() == 0,
            forall|yy: int|
                0 <= yy < intervals@.len() ==> bounds_ok((#[trigger] intervals@[yy])@, w as int),
            rows@.len() == y,
            forall|yy: int|
                0 <= yy < y ==> plain_row_rel(
                    image@[yy],
                    row_bounds(intervals@, yy),
                    (#[trigger] rows@[yy])@,
                ),
    {
        let xs: &Vec<usize> = if y < intervals.len() {
            &intervals[y]
        } else {
            &empty_bs
        };
        let ghost bs = row_bounds(intervals@, y as int);
        proof {
            assert(xs@ == bs);
            assert(bounds_ok(bs, w as int));
        }
        let mut out_row: Vec<Pixel> = Vec::new();
        let mut prev: usize = 0;
        let mut j: usize = 0;
        while j < xs.len()
            invariant
                image.wf(),
                w as int == image.spec_width(),
                h as int == image@.len(),
                y < h,
                xs@ == bs,
                bounds_ok(bs, w as int),
                j <= bs.len(),
                prev as int == aug_at(bs, w as int, j as int),
                out_row@.len() == prev,
                forall|jj: int|
                    0 <= jj < j ==> plain_run_rel(
                        image@[y as int],
                        SortKey::Lightness,
                        out_row@,
                        #[trigger] aug_at(bs, w as int, jj),
                        aug_at(bs, w as int, jj + 1),
                    ),
            decreases xs@.len() - j,
        {
            let e = xs[j];
            proof {
                lemma_aug_monotone(bs, w as int, j as int);
                assert(e as int == aug_at(bs, w as int, j as int + 1));
            }
            let ghost old_row = out_row@;
            append_sorted_window(image, y, prev, e, SortKey::Lightness, &mut out_row);
            proof {
                preserve_earlier_windows(
                    image@[y as int],
                    bs,
                    w as int,
                    j as int,
                    old_row,
                    out_row@,
                );
            }
            prev = e;
            j += 1;
        }
        proof {
            lemma_aug_monotone(bs, w as int, bs.len() as int);
        }
        let ghost old_row = out_row@;
        append_sorted_window(image, y, prev, w, SortKey::Lightness, &mut out_row);
        proof {
            preserve_earlier_windows(
                image@[y as int],
                bs,
                w as int,
                bs.len() as int,
                old_row,
                out_row@,
            );
            assert(plain_row_rel(image@[y as int], bs, out_row@));
        }
        rows.push(out_row);
    }
    rows
}

/// Appending a window's sorted pixels at column `aug_at(bs, w, j)` leaves
/// the relation of every earlier window intact, so after the append the
/// relation holds for all windows up to and including `j`.
proof fn preserve_earlier_windows(
    in_row: Seq<Pixel>,
    bs: Seq<usize>,
    w: int,
    j: int,
    old_row: Seq<Pixel>,
    new_row: Seq<Pixel>,
)
    requires
        bounds_ok(bs, w),
        w >= 0,
        in_row.len() == w,
        0 <= j <= bs.len(),
        old_row.len() == aug_at(bs, w, j),
        new_row.len() == aug_at(bs, w, j + 1),
        new_row.subrange(0, old_row.len() as int) == old_row,
        forall|jj: int|
            0 <= jj < j ==> plain_run_rel(
                in_row,
                SortKey::Lightness,
                old_row,
                #[trigger] aug_at(bs, w, jj),
                aug_at(bs, w, jj + 1),
            ),
        plain_run_rel(in_row, SortKey::Lightness, new_row, aug_at(bs, w, j), aug_at(bs, w, j + 1)),
    ensures
        forall|jj: int|
            0 <= jj < j + 1 ==> plain_run_rel(
                in_row,
                SortKey::Lightness,
                new_row,
                #[trigger] aug_at(bs, w, jj),
                aug_at(bs, w, jj + 1),
            ),
{
    assert forall|jj: int| 0 <= jj < j + 1 implies plain_run_rel(
        in_row,
        SortKey::Lightness,
        new_row,
        #[trigger] aug_at(bs, w, jj),
        aug_at(bs, w, jj + 1),
    ) by {
        lemma_aug_monotone(bs, w, jj);
        let sjj = aug_at(bs, w, jj);
        let ejj = aug_at(bs, w, jj + 1);
        if jj < j {
            assert(ejj <= aug_at(bs, w, j)) by {
                if jj + 1 < j {
                    assert(bs[jj] <= bs[j - 1]);
                }
            }
            assert(new_row.subrange(sjj, ejj) =~= old_row.subrange(sjj, ejj)) by {
                assert forall|idx: int| 0 <= idx < ejj - sjj implies new_row.subrange(
                    sjj,
                    ejj,
                )[idx] == old_row.subrange(sjj, ejj)[idx] by {
                    assert(new_row[sjj + idx] == new_row.subrange(
                        0,
                        old_row.len() as int,
                    )[sjj + idx]);
                }
            }
        }
    }
}

} // verus!
