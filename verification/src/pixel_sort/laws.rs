//! Global laws of the pixel-sort engine, stated over the engine's
//! input/output relation `sort_rel` and proved for every image, mask,
//! boundary assignment and key.

use vstd::prelude::*;

use vstd::seq_lib::lemma_multiset_commutative;

use crate::pixel_sort::range::{
    is_deterministic, lemma_threshold_full_range_is_none, marked_cols, ranges_match,
    threshold_pred, PixelRange,
};
use crate::pixel_sort::ranges_valid;
use crate::pixel_sort::runs::{
    aug_at, bounds_ok, lemma_all_active_run, lemma_aug_monotone, lemma_masked_out_equal,
    lemma_run_pointwise, lemma_window_cover, lemma_window_decomposition, row_rel, run_rel,
    run_pixels, sort_rel, sorted_by_key,
};
use crate::pixel_sort::sorting::SortKey;
use crate::raster::{grid_seq_wf, Pixel};

verus! {

/// With no boundary columns and a fully active mask, every output row is
/// the input row sorted ascending by the key: the row is ordered, and it
/// holds exactly the input row's pixels.
pub proof fn lemma_full_mask_no_bounds_sorts_rows(
    img: Seq<Seq<Pixel>>,
    m: Seq<Seq<u8>>,
    rs: Seq<Seq<usize>>,
    k: SortKey,
    out: Seq<Seq<Pixel>>,
)
    requires
        sort_rel(img, m, rs, k, out),
        forall|y: int| 0 <= y < img.len() ==> (#[trigger] rs[y]).len() == 0,
        forall|y: int, x: int|
            0 <= y < img.len() && 0 <= x < img[y].len() ==> #[trigger] m[y][x] != 0,
    ensures
        forall|y: int| 0 <= y < img.len() ==> sorted_by_key(#[trigger] out[y], k),
        forall|y: int|
            0 <= y < img.len() ==> (#[trigger] out[y]).to_multiset() == img[y].to_multiset(),
{
    assert forall|y: int| 0 <= y < img.len() implies sorted_by_key(#[trigger] out[y], k) && out[y].to_multiset()
        == img[y].to_multiset() by {
        let w = img[y].len() as int;
        assert(row_rel(img[y], m[y], rs[y], k, out[y]));
        assert(aug_at(rs[y], w, 0) == 0);
        assert(aug_at(rs[y], w, 1) == w);
        assert(run_rel(img[y], m[y], k, out[y], aug_at(rs[y], w, 0), aug_at(rs[y], w, 1)));
        lemma_all_active_run(img[y], m[y], 0, w);
        lemma_all_active_run(out[y], m[y], 0, w);
        assert(img[y].subrange(0, w) =~= img[y]);
        assert(out[y].subrange(0, w) =~= out[y]);
    }
}

/// With a fully inactive mask the engine is the identity: the output is
/// the input, pixel for pixel.
pub proof fn lemma_inactive_mask_identity(
    img: Seq<Seq<Pixel>>,
    m: Seq<Seq<u8>>,
    rs: Seq<Seq<usize>>,
    k: SortKey,
    out: Seq<Seq<Pixel>>,
)
    requires
        sort_rel(img, m, rs, k, out),
        forall|y: int, x: int|
            0 <= y < img.len() && 0 <= x < img[y].len() ==> #[trigger] m[y][x] == 0,
    ensures
        out == img,
{
    assert forall|y: int| 0 <= y < img.len() implies out[y] =~= img[y] by {
        assert(row_rel(img[y], m[y], rs[y], k, out[y]));
    }
    assert(out =~~= img);
}

proof fn lemma_prefix_conserved(
    in_row: Seq<Pixel>,
    m: Seq<u8>,
    bs: Seq<usize>,
    k: SortKey,
    out_row: Seq<Pixel>,
    j: int,
)
    requires
        bounds_ok(bs, in_row.len() as int),
        row_rel(in_row, m, bs, k, out_row),
        0 <= j <= bs.len() + 1,
    ensures
        out_row.subrange(0, aug_at(bs, in_row.len() as int, j)).to_multiset()
            == in_row.subrange(0, aug_at(bs, in_row.len() as int, j)).to_multiset(),
    decreases j,
{
    let w = in_row.len() as int;
    if j == 0 {
        assert(out_row.subrange(0, 0) =~= in_row.subrange(0, 0));
    } else {
        lemma_prefix_conserved(in_row, m, bs, k, out_row, j - 1);
        lemma_aug_monotone(bs, w, j - 1);
        let s = aug_at(bs, w, j - 1);
        let e = aug_at(bs, w, j);
        assert(run_rel(in_row, m, k, out_row, s, e));
        lemma_window_decomposition(in_row, m, s, e);
        lemma_window_decomposition(out_row, m, s, e);
        lemma_masked_out_equal(in_row, out_row, m, s, e);
        assert(out_row.subrange(s, e).to_multiset() == in_row.subrange(s, e).to_multiset());
        assert(out_row.subrange(0, e) =~= out_row.subrange(0, s) + out_row.subrange(s, e));
        assert(in_row.subrange(0, e) =~= in_row.subrange(0, s) + in_row.subrange(s, e));
        lemma_multiset_commutative(out_row.subrange(0, s), out_row.subrange(s, e));
        lemma_multiset_commutative(in_row.subrange(0, s), in_row.subrange(s, e));
    }
}

/// The engine never gains or loses a pixel: whatever the mask, boundaries
/// and key, every output row holds exactly the input row's pixels.
pub proof fn lemma_row_pixels_conserved(
    in_row: Seq<Pixel>,
    m: Seq<u8>,
    bs: Seq<usize>,
    k: SortKey,
    out_row: Seq<Pixel>,
)
    requires
        bounds_ok(bs, in_row.len() as int),
        row_rel(in_row, m, bs, k, out_row),
    ensures
        out_row.to_multiset() == in_row.to_multiset(),
{
    let w = in_row.len() as int;
    lemma_prefix_conserved(in_row, m, bs, k, out_row, bs.len() as int + 1);
    assert(aug_at(bs, w, bs.len() as int + 1) == w);
    assert(out_row.subrange(0, w) =~= out_row);
    assert(in_row.subrange(0, w) =~= in_row);
}

/// Sorting a second time with the same boundaries, mask and key changes
/// nothing: every run of the first output is already ordered, and the
/// engine reproduces ordered runs exactly.
pub proof fn lemma_sort_twice_fixed_point(
    img: Seq<Seq<Pixel>>,
    m: Seq<Seq<u8>>,
    rs: Seq<Seq<usize>>,
    k: SortKey,
    mid: Seq<Seq<Pixel>>,
    out: Seq<Seq<Pixel>>,
)
    requires
        forall|y: int| 0 <= y < img.len() ==> bounds_ok(#[trigger] rs[y], img[y].len() as int),
        sort_rel(img, m, rs, k, mid),
        sort_rel(mid, m, rs, k, out),
    ensures
        out == mid,
{
    assert forall|y: int| 0 <= y < img.len() implies out[y] =~= mid[y] by {
        let w = img[y].len() as int;
        assert(row_rel(img[y], m[y], rs[y], k, mid[y]));
        assert(row_rel(mid[y], m[y], rs[y], k, out[y]));
        assert(mid[y].len() == w);
        assert(out[y].len() == w);
        assert forall|x: int| 0 <= x < w implies out[y][x] == mid[y][x] by {
            if m[y][x] == 0 {
                assert(out[y][x] == mid[y][x]);
            } else {
                lemma_window_cover(rs[y], w, x);
                let j = choose|j: int|
                    0 <= j < rs[y].len() + 1 && #[trigger] aug_at(rs[y], w, j) <= x < aug_at(
                        rs[y],
                        w,
                        j + 1,
                    );
                lemma_aug_monotone(rs[y], w, j);
                let s = aug_at(rs[y], w, j);
                let e = aug_at(rs[y], w, j + 1);
                assert(run_rel(img[y], m[y], k, mid[y], s, e));
                assert(run_rel(mid[y], m[y], k, out[y], s, e));
                assert(sorted_by_key(run_pixels(mid[y], m[y], s, e), k));
                assert(run_pixels(out[y], m[y], s, e) == run_pixels(mid[y], m[y], s, e));
                lemma_run_pointwise(mid[y], out[y], m[y], s, e);
            }
        }
    }
    assert(out =~~= mid);
}

/// The engine's relation is a function of its inputs: every run comes out
/// as the stable sort of its pixels, so two outputs for the same image,
/// mask, boundaries and key are identical, pixel for pixel.
pub proof fn lemma_sort_deterministic(
    img: Seq<Seq<Pixel>>,
    m: Seq<Seq<u8>>,
    rs: Seq<Seq<usize>>,
    k: SortKey,
    out1: Seq<Seq<Pixel>>,
    out2: Seq<Seq<Pixel>>,
)
    requires
        forall|y: int| 0 <= y < img.len() ==> bounds_ok(#[trigger] rs[y], img[y].len() as int),
        sort_rel(img, m, rs, k, out1),
        sort_rel(img, m, rs, k, out2),
    ensures
        out1 == out2,
{
    assert forall|y: int| 0 <= y < img.len() implies out1[y] =~= out2[y] by {
        let w = img[y].len() as int;
        assert(row_rel(img[y], m[y], rs[y], k, out1[y]));
        assert(row_rel(img[y], m[y], rs[y], k, out2[y]));
        assert forall|x: int| 0 <= x < w implies out1[y][x] == out2[y][x] by {
            if m[y][x] == 0 {
                assert(out1[y][x] == img[y][x] && out2[y][x] == img[y][x]);
            } else {
                lemma_window_cover(rs[y], w, x);
                let j = choose|j: int|
                    0 <= j < rs[y].len() + 1 && #[trigger] aug_at(rs[y], w, j) <= x < aug_at(
                        rs[y],
                        w,
                        j + 1,
                    );
                lemma_aug_monotone(rs[y], w, j);
                let s = aug_at(rs[y], w, j);
                let e = aug_at(rs[y], w, j + 1);
                assert(run_rel(img[y], m[y], k, out1[y], s, e));
                assert(run_rel(img[y], m[y], k, out2[y], s, e));
                assert(run_pixels(out1[y], m[y], s, e) == run_pixels(out2[y], m[y], s, e));
                lemma_run_pointwise(out1[y], out2[y], m[y], s, e);
            }
        }
    }
    assert(out1 =~~= out2);
}

/// A deterministic generator admits exactly one boundary assignment for a
/// given image.
pub proof fn lemma_deterministic_ranges_unique(
    r: PixelRange,
    img: Seq<Seq<Pixel>>,
    w: int,
    rs1: Seq<Seq<usize>>,
    rs2: Seq<Seq<usize>>,
)
    requires
        is_deterministic(r),
        rs1.len() == img.len(),
        rs2.len() == img.len(),
        ranges_match(r, img, w, rs1),
        ranges_match(r, img, w, rs2),
    ensures
        rs1 == rs2,
{
    assert forall|y: int| 0 <= y < img.len() implies rs1[y] == rs2[y] by {
        match r {
            PixelRange::NoneRange(_) => {
                assert(rs1[y] =~= rs2[y]);
            },
            _ => {},
        }
    }
    assert(rs1 =~~= rs2);
}

/// Two sorting passes with the same deterministic generator, image, mask
/// and key produce identical images: the generator's boundaries and the
/// engine's stable per-run order leave nothing to chance.
pub proof fn lemma_deterministic_sort_unique(
    range: PixelRange,
    img: Seq<Seq<Pixel>>,
    m: Seq<Seq<u8>>,
    w: int,
    k: SortKey,
    rs1: Seq<Seq<usize>>,
    rs2: Seq<Seq<usize>>,
    out1: Seq<Seq<Pixel>>,
    out2: Seq<Seq<Pixel>>,
)
    requires
        grid_seq_wf(img, w),
        is_deterministic(range),
        ranges_valid(rs1, img.len() as int, w),
        ranges_valid(rs2, img.len() as int, w),
        ranges_match(range, img, w, rs1),
        ranges_match(range, img, w, rs2),
        sort_rel(img, m, rs1, k, out1),
        sort_rel(img, m, rs2, k, out2),
    ensures
        out1 == out2,
{
    lemma_deterministic_ranges_unique(range, img, w, rs1, rs2);
    lemma_sort_deterministic(img, m, rs1, k, out1, out2);
}

/// Sorting with `Threshold` over the whole lightness band gives exactly
/// the same image as sorting with no boundaries at all.
pub proof fn lemma_threshold_full_range_sort_equals_none(
    img: Seq<Seq<Pixel>>,
    m: Seq<Seq<u8>>,
    w: int,
    k: SortKey,
    rs_t: Seq<Seq<usize>>,
    rs_n: Seq<Seq<usize>>,
    out_t: Seq<Seq<Pixel>>,
    out_n: Seq<Seq<Pixel>>,
)
    requires
        w >= 0,
        grid_seq_wf(img, w),
        ranges_valid(rs_t, img.len() as int, w),
        ranges_valid(rs_n, img.len() as int, w),
        forall|y: int|
            0 <= y < img.len() ==> #[trigger] rs_t[y] == marked_cols(
                threshold_pred(img[y], 0, 1000),
                w,
            ),
        forall|y: int| 0 <= y < img.len() ==> (#[trigger] rs_n[y]).len() == 0,
        sort_rel(img, m, rs_t, k, out_t),
        sort_rel(img, m, rs_n, k, out_n),
    ensures
        out_t == out_n,
{
    assert forall|y: int| 0 <= y < img.len() implies rs_t[y] == rs_n[y] by {
        lemma_threshold_full_range_is_none(img[y], w);
        assert(rs_t[y] =~= rs_n[y]);
    }
    assert(rs_t =~~= rs_n);
    lemma_sort_deterministic(img, m, rs_t, k, out_t, out_n);
}

} // verus!
