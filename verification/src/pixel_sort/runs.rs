//! Run segmentation: how boundary columns carve a row into runs, which
//! pixels of a run participate, and what the engine promises per run.
//!
//! A row of width `w` with boundary columns `bs` (ascending, each at most
//! `w`) is carved by the augmented boundary sequence `0, bs[0], ..., w` into
//! `bs.len() + 1` half-open windows. The pixels of a window whose mask value
//! is non-zero form the run; the engine replaces them, left to right, by the
//! same pixels ordered by the sort key, and leaves masked-out pixels alone.

use vstd::prelude::*;
use vstd::seq_lib::lemma_multiset_commutative;

use crate::pixel_sort::sorting::{key_le, lemma_key_le_trans, SortKey};
use crate::raster::Pixel;

verus! {

/// The mask-active pixels of `row` over the window `[s, e)`, left to right.
pub open spec fn run_pixels(row: Seq<Pixel>, m: Seq<u8>, s: int, e: int) -> Seq<Pixel>
    decreases e - s,
{
    if e <= s {
        Seq::empty()
    } else if m[e - 1] != 0 {
        run_pixels(row, m, s, e - 1).push(row[e - 1])
    } else {
        run_pixels(row, m, s, e - 1)
    }
}

/// How many columns of `[s, e)` are mask-active.
pub open spec fn active_count(m: Seq<u8>, s: int, e: int) -> int
    decreases e - s,
{
    if e <= s {
        0
    } else if m[e - 1] != 0 {
        active_count(m, s, e - 1) + 1
    } else {
        active_count(m, s, e - 1)
    }
}

/// The masked-out pixels of `row` over the window `[s, e)`, left to right:
/// the complement of `run_pixels`.
pub open spec fn masked_out_pixels(row: Seq<Pixel>, m: Seq<u8>, s: int, e: int) -> Seq<Pixel>
    decreases e - s,
{
    if e <= s {
        Seq::empty()
    } else if m[e - 1] == 0 {
        masked_out_pixels(row, m, s, e - 1).push(row[e - 1])
    } else {
        masked_out_pixels(row, m, s, e - 1)
    }
}

/// The sequence is ordered ascending by the key (a total preorder).
pub open spec fn sorted_by_key(s: Seq<Pixel>, k: SortKey) -> bool {
    forall|i: int, j: int| 0 <= i < j < s.len() ==> key_le(k, s[i], s[j])
}

/// Boundary columns are ascending and never pass the row width.
pub open spec fn bounds_ok(bs: Seq<usize>, w: int) -> bool {
    &&& forall|i: int, j: int| 0 <= i <= j < bs.len() ==> bs[i] <= bs[j]
    &&& forall|i: int| 0 <= i < bs.len() ==> (#[trigger] bs[i]) <= w
}

/// The `j`-th entry of the augmented boundary sequence `0, bs[0], ..., w`.
pub open spec fn aug_at(bs: Seq<usize>, w: int, j: int) -> int {
    if j <= 0 {
        0
    } else if j <= bs.len() {
        bs[j - 1] as int
    } else {
        w
    }
}

/// Inserts `v` into the key-ordered `s` behind every element whose key is
/// at most `v`'s: the insertion position of a stable insertion sort.
pub open spec fn sorted_insert_spec(s: Seq<Pixel>, v: Pixel, k: SortKey) -> Seq<Pixel>
    decreases s.len(),
{
    if s.len() == 0 {
        seq![v]
    } else if key_le(k, s.last(), v) {
        s.push(v)
    } else {
        sorted_insert_spec(s.drop_last(), v, k).push(s.last())
    }
}

/// The stable, key-ordered rearrangement of `s`: elements are inserted left
/// to right, each behind all elements with keys at most its own, so equal
/// keys keep their original relative order. This pins the engine's output
/// completely: ties are broken one fixed way, the same in every call.
pub open spec fn stable_sort(s: Seq<Pixel>, k: SortKey) -> Seq<Pixel>
    decreases s.len(),
{
    if s.len() == 0 {
        Seq::empty()
    } else {
        sorted_insert_spec(stable_sort(s.drop_last(), k), s.last(), k)
    }
}

/// What the engine promises of one run: the active pixels of the window
/// come out as the stable sort of the run — ordered by the key, the same
/// pixels, ties kept in their original order, and an already ordered run
/// reproduced exactly.
pub open spec fn run_rel(
    in_row: Seq<Pixel>,
    m: Seq<u8>,
    k: SortKey,
    out_row: Seq<Pixel>,
    s: int,
    e: int,
) -> bool {
    let ir = run_pixels(in_row, m, s, e);
    let or = run_pixels(out_row, m, s, e);
    &&& or == stable_sort(ir, k)
    &&& sorted_by_key(or, k)
    &&& or.to_multiset() == ir.to_multiset()
    &&& (sorted_by_key(ir, k) ==> or == ir)
}

/// What the engine promises of one row: masked-out pixels keep their value,
/// and every window of the augmented boundary sequence satisfies `run_rel`.
pub open spec fn row_rel(
    in_row: Seq<Pixel>,
    m: Seq<u8>,
    bs: Seq<usize>,
    k: SortKey,
    out_row: Seq<Pixel>,
) -> bool {
    let w = in_row.len() as int;
    &&& out_row.len() == in_row.len()
    &&& forall|x: int| 0 <= x < in_row.len() && m[x] == 0 ==> #[trigger] out_row[x] == in_row[x]
    &&& forall|j: int|
        0 <= j < bs.len() + 1 ==> run_rel(
            in_row,
            m,
            k,
            out_row,
            #[trigger] aug_at(bs, w, j),
            aug_at(bs, w, j + 1),
        )
}

/// What the engine promises of the whole image, row by row.
pub open spec fn sort_rel(
    img: Seq<Seq<Pixel>>,
    m: Seq<Seq<u8>>,
    rs: Seq<Seq<usize>>,
    k: SortKey,
    out: Seq<Seq<Pixel>>,
) -> bool {
    &&& out.len() == img.len()
    &&& forall|y: int| 0 <= y < img.len() ==> row_rel(img[y], m[y], rs[y], k, #[trigger] out[y])
}

pub proof fn lemma_count_bounds(m: Seq<u8>, s: int, e: int)
    ensures
        0 <= active_count(m, s, e),
        e >= s ==> active_count(m, s, e) <= e - s,
    decreases e - s,
{
    if e > s {
        lemma_count_bounds(m, s, e - 1);
    }
}

pub proof fn lemma_run_len(row: Seq<Pixel>, m: Seq<u8>, s: int, e: int)
    ensures
        run_pixels(row, m, s, e).len() == active_count(m, s, e),
        active_count(m, s, e) >= 0,
        active_count(m, s, e) <= (if e >= s {
            e - s
        } else {
            0
        }),
    decreases e - s,
{
    if e > s {
        lemma_run_len(row, m, s, e - 1);
    }
}

pub proof fn lemma_count_split(m: Seq<u8>, s: int, mid: int, e: int)
    requires
        s <= mid <= e,
    ensures
        active_count(m, s, e) == active_count(m, s, mid) + active_count(m, mid, e),
    decreases e - mid,
{
    if e > mid {
        lemma_count_split(m, s, mid, e - 1);
    }
}

/// If every active column `x` of the window `[s, e)` holds `list`'s entry at
/// position `active_count(m, 0, x)`, then the run over `[s, e)` reads back
/// exactly the matching slice of `list`.
pub proof fn lemma_placed_run(
    out_row: Seq<Pixel>,
    m: Seq<u8>,
    list: Seq<Pixel>,
    s: int,
    e: int,
)
    requires
        0 <= s <= e <= out_row.len(),
        m.len() == out_row.len(),
        active_count(m, 0, e) <= list.len(),
        forall|x: int|
            s <= x < e && m[x] != 0 ==> #[trigger] out_row[x] == list[active_count(m, 0, x)],
    ensures
        run_pixels(out_row, m, s, e) == list.subrange(
            active_count(m, 0, s),
            active_count(m, 0, e),
        ),
    decreases e - s,
{
    lemma_count_split(m, 0, s, e);
    lemma_count_bounds(m, 0, s);
    lemma_count_bounds(m, s, e);
    lemma_run_len(out_row, m, s, e);
    if e <= s {
        assert(run_pixels(out_row, m, s, e) =~= list.subrange(
            active_count(m, 0, s),
            active_count(m, 0, e),
        ));
    } else {
        lemma_count_split(m, 0, e - 1, e);
        lemma_count_bounds(m, e - 1, e);
        lemma_placed_run(out_row, m, list, s, e - 1);
        lemma_count_split(m, 0, s, e - 1);
        lemma_count_bounds(m, s, e - 1);
        lemma_run_len(out_row, m, s, e - 1);
        let c0s = active_count(m, 0, s);
        let c0e1 = active_count(m, 0, e - 1);
        let c0e = active_count(m, 0, e);
        if m[e - 1] != 0 {
            assert(c0e == c0e1 + 1);
            assert(out_row[e - 1] == list[c0e1]);
            assert(run_pixels(out_row, m, s, e) == run_pixels(out_row, m, s, e - 1).push(
                out_row[e - 1],
            ));
            assert(run_pixels(out_row, m, s, e) =~= list.subrange(c0s, c0e));
        } else {
            assert(c0e == c0e1);
            assert(run_pixels(out_row, m, s, e) =~= list.subrange(c0s, c0e));
        }
    }
}

/// Two rows that agree on masked-out columns and whose runs over `[s, e)`
/// read back the same pixels agree on every column of `[s, e)`.
pub proof fn lemma_run_pointwise(
    in_row: Seq<Pixel>,
    out_row: Seq<Pixel>,
    m: Seq<u8>,
    s: int,
    e: int,
)
    requires
        0 <= s,
        e <= in_row.len(),
        in_row.len() == out_row.len(),
        run_pixels(in_row, m, s, e) == run_pixels(out_row, m, s, e),
        forall|x: int| s <= x < e && m[x] == 0 ==> #[trigger] out_row[x] == in_row[x],
    ensures
        forall|x: int| s <= x < e ==> #[trigger] out_row[x] == in_row[x],
    decreases e - s,
{
    if e > s {
        let ir = run_pixels(in_row, m, s, e);
        let or = run_pixels(out_row, m, s, e);
        let pin = run_pixels(in_row, m, s, e - 1);
        let pout = run_pixels(out_row, m, s, e - 1);
        lemma_run_len(in_row, m, s, e - 1);
        lemma_run_len(out_row, m, s, e - 1);
        if m[e - 1] != 0 {
            assert(ir == pin.push(in_row[e - 1]));
            assert(or == pout.push(out_row[e - 1]));
            assert(in_row[e - 1] == ir[ir.len() - 1]);
            assert(out_row[e - 1] == or[or.len() - 1]);
            assert(out_row[e - 1] == in_row[e - 1]);
            assert(pin =~= pout) by {
                assert forall|i: int| 0 <= i < pin.len() implies pin[i] == pout[i] by {
                    assert(pin[i] == pin.push(in_row[e - 1])[i]);
                    assert(pout[i] == pout.push(out_row[e - 1])[i]);
                    assert(ir[i] == or[i]);
                }
            }
        }
        lemma_run_pointwise(in_row, out_row, m, s, e - 1);
    }
}

/// Over a window whose columns are all mask-active, the run is simply the
/// slice of the row.
pub proof fn lemma_all_active_run(row: Seq<Pixel>, m: Seq<u8>, s: int, e: int)
    requires
        0 <= s <= e <= row.len(),
        forall|x: int| s <= x < e ==> m[x] != 0,
    ensures
        run_pixels(row, m, s, e) == row.subrange(s, e),
    decreases e - s,
{
    if e <= s {
        assert(run_pixels(row, m, s, e) =~= row.subrange(s, e));
    } else {
        lemma_all_active_run(row, m, s, e - 1);
        assert(run_pixels(row, m, s, e) =~= row.subrange(s, e));
    }
}

/// Consecutive augmented boundaries never descend, and stay within `[0, w]`.
pub proof fn lemma_aug_monotone(bs: Seq<usize>, w: int, j: int)
    requires
        bounds_ok(bs, w),
        w >= 0,
        0 <= j <= bs.len(),
    ensures
        0 <= aug_at(bs, w, j) <= aug_at(bs, w, j + 1) <= w,
{
}

/// Every column of `[0, w)` lies in some window of the augmented boundary
/// sequence.
pub proof fn lemma_window_cover(bs: Seq<usize>, w: int, x: int)
    requires
        bounds_ok(bs, w),
        0 <= x < w,
    ensures
        exists|j: int|
            0 <= j < bs.len() + 1 && #[trigger] aug_at(bs, w, j) <= x < aug_at(bs, w, j + 1),
    decreases bs.len(),
{
    let n = bs.len() as int;
    if n == 0 {
        assert(aug_at(bs, w, 0) <= x < aug_at(bs, w, 1));
    } else if bs[n - 1] <= x {
        assert(aug_at(bs, w, n) <= x < aug_at(bs, w, n + 1));
    } else {
        let bs2 = bs.drop_last();
        let w2 = bs[n - 1] as int;
        assert(bounds_ok(bs2, w2)) by {
            assert(forall|i: int| 0 <= i < bs2.len() ==> (#[trigger] bs2[i]) == bs[i]);
        }
        lemma_window_cover(bs2, w2, x);
        let j = choose|j: int|
            0 <= j < bs2.len() + 1 && #[trigger] aug_at(bs2, w2, j) <= x < aug_at(bs2, w2, j + 1);
        assert(forall|i: int| 0 <= i < bs2.len() ==> (#[trigger] bs2[i]) == bs[i]);
        assert(aug_at(bs, w, j) <= x < aug_at(bs, w, j + 1));
    }
}

/// A contiguous slice of a key-ordered sequence is key-ordered.
pub proof fn lemma_sorted_subrange(s: Seq<Pixel>, k: SortKey, a: int, b: int)
    requires
        sorted_by_key(s, k),
        0 <= a <= b <= s.len(),
    ensures
        sorted_by_key(s.subrange(a, b), k),
{
    assert forall|i: int, j: int| 0 <= i < j < b - a implies key_le(
        k,
        s.subrange(a, b)[i],
        s.subrange(a, b)[j],
    ) by {
        assert(s.subrange(a, b)[i] == s[a + i]);
        assert(s.subrange(a, b)[j] == s[a + j]);
    }
}

/// A window's pixels split into its run and its masked-out pixels: as
/// multisets, the slice is exactly their union.
pub proof fn lemma_window_decomposition(row: Seq<Pixel>, m: Seq<u8>, s: int, e: int)
    requires
        0 <= s <= e <= row.len(),
    ensures
        row.subrange(s, e).to_multiset() == run_pixels(row, m, s, e).to_multiset().add(
            masked_out_pixels(row, m, s, e).to_multiset(),
        ),
    decreases e - s,
{
    broadcast use vstd::seq_lib::group_to_multiset_ensures;

    if e <= s {
        assert(row.subrange(s, e) =~= Seq::<Pixel>::empty());
        assert(row.subrange(s, e).to_multiset() =~= run_pixels(
            row,
            m,
            s,
            e,
        ).to_multiset().add(masked_out_pixels(row, m, s, e).to_multiset()));
    } else {
        lemma_window_decomposition(row, m, s, e - 1);
        assert(row.subrange(s, e) =~= row.subrange(s, e - 1).push(row[e - 1]));
        assert(row.subrange(s, e).to_multiset() =~= run_pixels(
            row,
            m,
            s,
            e,
        ).to_multiset().add(masked_out_pixels(row, m, s, e).to_multiset()));
    }
}

/// Two rows that agree on the masked-out columns of `[s, e)` have the same
/// masked-out pixels there.
pub proof fn lemma_masked_out_equal(
    in_row: Seq<Pixel>,
    out_row: Seq<Pixel>,
    m: Seq<u8>,
    s: int,
    e: int,
)
    requires
        forall|x: int| s <= x < e && m[x] == 0 ==> #[trigger] out_row[x] == in_row[x],
    ensures
        masked_out_pixels(out_row, m, s, e) == masked_out_pixels(in_row, m, s, e),
    decreases e - s,
{
    if e > s {
        lemma_masked_out_equal(in_row, out_row, m, s, e - 1);
    }
}

/// On a key-ordered sequence, `sorted_insert_spec` lands exactly at the
/// first position whose element's key is not at most `v`'s.
pub proof fn lemma_sorted_insert_spec_at(s: Seq<Pixel>, v: Pixel, k: SortKey, j: int)
    requires
        sorted_by_key(s, k),
        0 <= j <= s.len(),
        forall|i: int| 0 <= i < j ==> key_le(k, #[trigger] s[i], v),
        j == s.len() || !key_le(k, s[j], v),
    ensures
        sorted_insert_spec(s, v, k) == s.insert(j, v),
    decreases s.len(),
{
    let n = s.len() as int;
    if n == 0 {
        assert(sorted_insert_spec(s, v, k) =~= s.insert(0, v));
    } else if key_le(k, s.last(), v) {
        assert(j == n) by {
            if j < n {
                assert(!key_le(k, s[j], v));
                if j < n - 1 {
                    assert(key_le(k, s[j], s[n - 1]));
                    lemma_key_le_trans(k, s[j], s[n - 1], v);
                }
            }
        }
        assert(sorted_insert_spec(s, v, k) =~= s.insert(j, v));
    } else {
        let t = s.drop_last();
        assert(j < n) by {
            if j == n {
                assert(key_le(k, s[n - 1], v));
            }
        }
        assert(t =~= s.subrange(0, n - 1));
        lemma_sorted_subrange(s, k, 0, n - 1);
        lemma_sorted_insert_spec_at(t, v, k, j);
        s.insert_ensures(j, v);
        t.insert_ensures(j, v);
        assert(sorted_insert_spec(s, v, k) =~= s.insert(j, v)) by {
            assert(sorted_insert_spec(s, v, k) == t.insert(j, v).push(s[n - 1]));
            assert forall|idx: int| 0 <= idx < n + 1 implies t.insert(j, v).push(s[n - 1])[idx]
                == s.insert(j, v)[idx] by {
                if idx < j {
                    assert(t.insert(j, v)[idx] == t[idx]);
                    assert(s.insert(j, v)[idx] == s[idx]);
                } else if idx == j {
                    assert(t.insert(j, v)[idx] == v);
                    assert(s.insert(j, v)[idx] == v);
                } else if idx < n {
                    assert(t.insert(j, v)[idx] == t[idx - 1]);
                    assert(s.insert(j, v)[idx] == s[idx - 1]);
                } else {
                    assert(s.insert(j, v)[idx] == s[n - 1]);
                }
            }
        }
    }
}

/// Inserting a pixel between the elements ordered before it and those
/// ordered after keeps the sequence key-ordered.
pub proof fn lemma_sorted_insert(s: Seq<Pixel>, k: SortKey, j: int, v: Pixel)
    requires
        sorted_by_key(s, k),
        0 <= j <= s.len(),
        forall|i: int| 0 <= i < j ==> key_le(k, #[trigger] s[i], v),
        forall|i: int| j <= i < s.len() ==> key_le(k, v, #[trigger] s[i]),
    ensures
        sorted_by_key(s.insert(j, v), k),
{
    s.insert_ensures(j, v);
    let t = s.insert(j, v);
    assert forall|i1: int, i2: int| 0 <= i1 < i2 < t.len() implies key_le(k, t[i1], t[i2]) by {
        if i2 < j {
            assert(t[i1] == s[i1] && t[i2] == s[i2]);
        } else if i2 == j {
            assert(t[i1] == s[i1] && t[i2] == v);
        } else if i1 < j {
            assert(t[i1] == s[i1] && t[i2] == s[i2 - 1]);
            if i1 == i2 - 1 {
                assert(key_le(k, s[i1], v) && key_le(k, v, s[i2 - 1]));
                lemma_key_le_trans(k, s[i1], v, s[i2 - 1]);
            }
        } else if i1 == j {
            assert(t[i1] == v && t[i2] == s[i2 - 1]);
        } else {
            assert(t[i1] == s[i1 - 1] && t[i2] == s[i2 - 1]);
        }
    }
}

/// Inserting an element anywhere adds exactly that element to the multiset.
pub proof fn lemma_insert_multiset<A>(s: Seq<A>, j: int, v: A)
    requires
        0 <= j <= s.len(),
    ensures
        s.insert(j, v).to_multiset() == s.to_multiset().insert(v),
{
    broadcast use vstd::seq_lib::group_to_multiset_ensures;

    let left = s.subrange(0, j);
    let right = s.subrange(j, s.len() as int);
    assert(s.insert(j, v) =~= left.push(v) + right);
    assert(s =~= left + right);
    lemma_multiset_commutative(left.push(v), right);
    lemma_multiset_commutative(left, right);
    assert(left.push(v).to_multiset() =~= left.to_multiset().insert(v));
    assert(s.insert(j, v).to_multiset() =~= s.to_multiset().insert(v));
}

} // verus!
