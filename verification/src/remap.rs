//! Numeric per-pixel remaps: the Fibonacci and divisor-sum glitches, and
//! the random channel shuffle, each gated by the mask.

use vstd::prelude::*;

use vstd::arithmetic::div_mod::{lemma_add_mod_noop, lemma_mod_mod};

use crate::entropy::shuffle_pixel;
use crate::raster::{channels, Grid, Pixel};

verus! {

/// The Fibonacci numbers: `0, 1, 1, 2, 3, 5, ...`.
pub open spec fn spec_fib(n: nat) -> nat
    decreases n,
{
    if n == 0 {
        0
    } else if n == 1 {
        1
    } else {
        spec_fib((n - 2) as nat) + spec_fib((n - 1) as nat)
    }
}

/// The `n`-th Fibonacci number reduced modulo `2^64` (the arithmetic
/// wraps, as sixty-four-bit counters do far before `n` reaches `255`).
pub fn fib(n: u8) -> (r: u64)
    ensures
        r as nat == spec_fib(n as nat) % 0x1_0000_0000_0000_0000,
{
    let mut a: u64 = 0;
    let mut b: u64 = 1;
    let mut i: u8 = 0;
    while i < n
        invariant
            i <= n,
            a as nat == spec_fib(i as nat) % 0x1_0000_0000_0000_0000,
            b as nat == spec_fib((i + 1) as nat) % 0x1_0000_0000_0000_0000,
        decreases n - i,
    {
        let c = a.wrapping_add(b);
        proof {
            lemma_add_mod_noop(
                spec_fib(i as nat) as int,
                spec_fib((i + 1) as nat) as int,
                0x1_0000_0000_0000_0000,
            );
        }
        a = b;
        b = c;
        i += 1;
    }
    a
}

/// The integer square root: the largest `s` with `s * s <= n`.
pub open spec fn spec_isqrt(n: int) -> int
    decreases n,
{
    if n <= 0 {
        0
    } else {
        let p = spec_isqrt(n - 1);
        if (p + 1) * (p + 1) <= n {
            p + 1
        } else {
            p
        }
    }
}

proof fn lemma_isqrt_bounds(n: int)
    requires
        n >= 0,
    ensures
        spec_isqrt(n) >= 0,
        spec_isqrt(n) * spec_isqrt(n) <= n,
        n < (spec_isqrt(n) + 1) * (spec_isqrt(n) + 1),
    decreases n,
{
    if n > 0 {
        lemma_isqrt_bounds(n - 1);
        let p = spec_isqrt(n - 1);
        if (p + 1) * (p + 1) <= n {
            assert((p + 1) * (p + 1) < (p + 2) * (p + 2)) by (nonlinear_arith)
                requires
                    p >= 0,
            ;
        }
    }
}

/// The integer square root of a byte value never passes fifteen.
proof fn lemma_isqrt_le15(n: int)
    requires
        0 <= n <= 255,
    ensures
        0 <= spec_isqrt(n) <= 15,
{
    lemma_isqrt_bounds(n);
    let sq = spec_isqrt(n);
    if sq >= 16 {
        assert(sq * sq >= 256) by (nonlinear_arith)
            requires
                sq >= 16,
        ;
    }
}

proof fn lemma_isqrt_unique(n: int, k: int)
    requires
        n >= 0,
        k >= 0,
        k * k <= n,
        n < (k + 1) * (k + 1),
    ensures
        k == spec_isqrt(n),
{
    lemma_isqrt_bounds(n);
    let s = spec_isqrt(n);
    if k < s {
        assert((k + 1) * (k + 1) <= s * s) by (nonlinear_arith)
            requires
                0 <= k,
                k + 1 <= s,
        ;
    }
    if s < k {
        assert((s + 1) * (s + 1) <= k * k) by (nonlinear_arith)
            requires
                0 <= s,
                s + 1 <= k,
        ;
    }
}

/// The integer square root of a byte.
fn isqrt8(n: u8) -> (s: u8)
    ensures
        s as int == spec_isqrt(n as int),
        s <= 15,
{
    let mut k: u8 = 0;
    loop
        invariant
            k <= 15,
            (k as int) * (k as int) <= n as int,
        ensures
            k <= 15,
            (k as int) * (k as int) <= n as int,
            (n as int) < (k as int + 1) * (k as int + 1),
        decreases 16 - k,
    {
        let k1: u32 = k as u32 + 1;
        proof {
            assert(k1 * k1 <= 256 * 256) by (nonlinear_arith)
                requires
                    k1 <= 256,
            ;
        }
        if k1 * k1 > n as u32 {
            break ;
        }
        proof {
            assert(k < 15) by (nonlinear_arith)
                requires
                    (k as int + 1) * (k as int + 1) <= 255,
                    k >= 0,
            ;
        }
        k += 1;
    }
    proof {
        lemma_isqrt_unique(n as int, k as int);
    }
    k
}

/// The divisors of `n` that lie strictly below its integer square root
/// (zero and `n` below one divisor are never reached), ascending.
pub open spec fn spec_small_divisors(n: u8, e: int) -> Seq<u8>
    decreases e,
{
    if e <= 1 {
        Seq::empty()
    } else if n as int % (e - 1) == 0 {
        spec_small_divisors(n, e - 1).push((e - 1) as u8)
    } else {
        spec_small_divisors(n, e - 1)
    }
}

proof fn lemma_small_divisors_range(n: u8, e: int)
    requires
        e <= 256,
    ensures
        spec_small_divisors(n, e).len() <= (if e >= 1 {
            e - 1
        } else {
            0
        }),
        forall|i: int|
            0 <= i < spec_small_divisors(n, e).len() ==> 1 <= (#[trigger] spec_small_divisors(
                n,
                e,
            )[i]) < e,
    decreases e,
{
    if e > 1 {
        lemma_small_divisors_range(n, e - 1);
    }
}

/// The divisor list the sum-of-squares remap works through: every divisor
/// below the square root, then the matching cofactors in the same order.
pub open spec fn spec_divisors(n: u8) -> Seq<u8> {
    let small = spec_small_divisors(n, spec_isqrt(n as int));
    small + small.map(|i: int, d: u8| ((n as int) / (d as int)) as u8)
}

/// The divisors of `n` below its integer square root, followed by their
/// cofactors `n / d` in the same order.
pub fn divisors(n: u8) -> (r: Vec<u8>)
    ensures
        r@ == spec_divisors(n),
{
    let s = isqrt8(n);
    let mut ds: Vec<u8> = Vec::new();
    let mut d: u8 = 1;
    while d < s
        invariant
            1 <= d,
            s <= 15,
            d <= 15,
            s <= 1 || d <= s,
            s <= 1 ==> d == 1,
            s as int == spec_isqrt(n as int),
            ds@ == spec_small_divisors(n, d as int),
        decreases s as int - d,
    {
        if n % d == 0 {
            ds.push(d);
        }
        proof {
            assert(ds@ == spec_small_divisors(n, d as int + 1));
        }
        d += 1;
    }
    proof {
        if s <= 1 {
            assert(ds@ =~= spec_small_divisors(n, s as int));
        }
        assert(ds@ == spec_small_divisors(n, spec_isqrt(n as int)));
        lemma_small_divisors_range(n, spec_isqrt(n as int));
    }
    let ghost small = spec_small_divisors(n, spec_isqrt(n as int));
    let mut out: Vec<u8> = Vec::new();
    let mut i: usize = 0;
    while i < ds.len()
        invariant
            i <= ds@.len(),
            ds@ == small,
            out@ == small.subrange(0, i as int),
        decreases ds@.len() - i,
    {
        out.push(ds[i]);
        proof {
            assert(out@ =~= small.subrange(0, i as int + 1));
        }
        i += 1;
    }
    proof {
        assert(out@ =~= small);
        lemma_small_divisors_range(n, spec_isqrt(n as int));
    }
    let ghost cof = small.map(|idx: int, dv: u8| ((n as int) / (dv as int)) as u8);
    let mut i: usize = 0;
    while i < ds.len()
        invariant
            i <= ds@.len(),
            ds@ == small,
            forall|ii: int| 0 <= ii < small.len() ==> 1 <= (#[trigger] small[ii]),
            cof == small.map(|idx: int, dv: u8| ((n as int) / (dv as int)) as u8),
            out@ == small + cof.subrange(0, i as int),
        decreases ds@.len() - i,
    {
        let dv = ds[i];
        out.push(n / dv);
        proof {
            assert(cof[i as int] == ((n as int) / (ds@[i as int] as int)) as u8);
            assert(out@ =~= small + cof.subrange(0, i as int + 1));
        }
        i += 1;
    }
    proof {
        assert(cof.subrange(0, cof.len() as int) =~= cof);
        assert(out@ =~= spec_divisors(n));
    }
    out
}

/// The sum of the squares of a sequence of bytes.
pub open spec fn spec_sum_squares(s: Seq<u8>) -> int
    decreases s.len(),
{
    if s.len() == 0 {
        0
    } else {
        spec_sum_squares(s.drop_last()) + s.last() * s.last()
    }
}

/// The sum of the squared divisors of `n` (as `divisors` lists them),
/// reduced modulo `256`.
pub fn sum_of_squares(n: u8) -> (r: u8)
    ensures
        r as int == spec_sum_squares(spec_divisors(n)) % 256,
{
    let ds = divisors(n);
    proof {
        lemma_isqrt_le15(n as int);
        lemma_small_divisors_range(n, spec_isqrt(n as int));
        assert(ds@.len() <= 30) by {
            assert(spec_small_divisors(n, spec_isqrt(n as int)).len() <= 15);
        }
    }
    let mut acc: u64 = 0;
    let mut i: usize = 0;
    while i < ds.len()
        invariant
            i <= ds@.len(),
            ds@ == spec_divisors(n),
            ds@.len() <= 30,
            acc as int == spec_sum_squares(ds@.subrange(0, i as int)),
            acc <= 65025 * i,
        decreases ds@.len() - i,
    {
        let dv = ds[i];
        proof {
            assert((dv as u64) * (dv as u64) <= 65025) by (nonlinear_arith)
                requires
                    dv <= 255,
            ;
        }
        acc += (dv as u64) * (dv as u64);
        proof {
            let p1 = ds@.subrange(0, i as int + 1);
            assert(p1.drop_last() =~= ds@.subrange(0, i as int));
            assert(p1.last() == ds@[i as int]);
        }
        i += 1;
    }
    proof {
        assert(ds@.subrange(0, ds@.len() as int) =~= ds@);
    }
    (acc % 256) as u8
}

/// What the Fibonacci remap does to one channel value.
pub open spec fn fib_channel(c: u8) -> u8 {
    (spec_fib(c as nat) % 256) as u8
}

/// What the Fibonacci remap does to one pixel: every channel, alpha
/// included, becomes its Fibonacci number modulo `256`.
pub open spec fn pixel_fib(p: Pixel) -> Pixel {
    Pixel { r: fib_channel(p.r), g: fib_channel(p.g), b: fib_channel(p.b), a: fib_channel(p.a) }
}

/// One channel of the Fibonacci remap: `fib(c) mod 256`.
fn fib_channel_exec(c: u8) -> (r: u8)
    ensures
        r == fib_channel(c),
{
    let f = fib(c);
    proof {
        lemma_mod_mod(spec_fib(c as nat) as int, 256, 0x100_0000_0000_0000);
    }
    (f % 256) as u8
}

/// What the divisor-sum remap does to one channel value.
pub open spec fn sum_squares_channel(c: u8) -> u8 {
    (spec_sum_squares(spec_divisors(c)) % 256) as u8
}

/// What the divisor-sum remap does to one pixel.
pub open spec fn pixel_sum_squares(p: Pixel) -> Pixel {
    Pixel {
        r: sum_squares_channel(p.r),
        g: sum_squares_channel(p.g),
        b: sum_squares_channel(p.b),
        a: sum_squares_channel(p.a),
    }
}

/// Applies the Fibonacci remap to every mask-active pixel; masked-out
/// pixels keep their value.
pub fn fib_remap(image: &Grid<Pixel>, mask: &Grid<u8>) -> (out: Grid<Pixel>)
    requires
        image.wf(),
        mask.wf(),
        mask@.len() == image@.len(),
        mask.spec_width() == image.spec_width(),
    ensures
        out.wf(),
        out.spec_width() == image.spec_width(),
        out@.len() == image@.len(),
        forall|y: int, x: int|
            0 <= y < image@.len() && 0 <= x < image.spec_width() ==> #[trigger] out@[y][x] == (
            if mask@[y][x] == 0 {
                image@[y][x]
            } else {
                pixel_fib(image@[y][x])
            }),
    {
        let w = image.width();
        let h = image.height();
        let mut rows: Vec<Vec<Pixel>> = Vec::new();
        for y in 0..h
            invariant
                image.wf(),
                mask.wf(),
                mask@.len() == image@.len(),
                mask.spec_width() == image.spec_width(),
                w as int == image.spec_width(),
                h as int == image@.len(),
                rows@.len() == y,
                forall|yy: int| 0 <= yy < y ==> (#[trigger] rows@[yy])@.len() == w,
                forall|yy: int, x: int|
                    0 <= yy < y && 0 <= x < w ==> #[trigger] rows@[yy]@[x] == (
                    if mask@[yy][x] == 0 {
                        image@[yy][x]
                    } else {
                        pixel_fib(image@[yy][x])
                    }),
        {
            let mut row: Vec<Pixel> = Vec::new();
            for x in 0..w
                invariant
                    image.wf(),
                    mask.wf(),
                    mask@.len() == image@.len(),
                    mask.spec_width() == image.spec_width(),
                    w as int == image.spec_width(),
                    h as int == image@.len(),
                    y < h,
                    row@.len() == x,
                    forall|xx: int|
                        0 <= xx < x ==> #[trigger] row@[xx] == (
                        if mask@[y as int][xx] == 0 {
                            image@[y as int][xx]
                        } else {
                            pixel_fib(image@[y as int][xx])
                        }),
            {
                let p = image.get(x, y);
                if mask.get(x, y) == 0 {
                    row.push(p);
                } else {
                    row.push(
                        Pixel {
                            r: fib_channel_exec(p.r),
                            g: fib_channel_exec(p.g),
                            b: fib_channel_exec(p.b),
                            a: fib_channel_exec(p.a),
                        },
                    );
                }
            }
            rows.push(row);
        }
        let ghost rows_view = rows@;
        let out = Grid::from_rows(w, rows);
        proof {
            assert forall|y: int, x: int|
                0 <= y < image@.len() && 0 <= x < image.spec_width() implies #[trigger] out@[y][x]
                == (if mask@[y][x] == 0 {
                image@[y][x]
            } else {
                pixel_fib(image@[y][x])
            }) by {
                assert(out@[y] == rows_view[y]@);
            }
        }
        out
    }

/// Applies the divisor-sum remap to every mask-active pixel; masked-out
/// pixels keep their value.
pub fn sum_squares_remap(image: &Grid<Pixel>, mask: &Grid<u8>) -> (out: Grid<Pixel>)
    requires
        image.wf(),
        mask.wf(),
        mask@.len() == image@.len(),
        mask.spec_width() == image.spec_width(),
    ensures
        out.wf(),
        out.spec_width() == image.spec_width(),
        out@.len() == image@.len(),
        forall|y: int, x: int|
            0 <= y < image@.len() && 0 <= x < image.spec_width() ==> #[trigger] out@[y][x] == (
            if mask@[y][x] == 0 {
                image@[y][x]
            } else {
                pixel_sum_squares(image@[y][x])
            }),
    {
        let w = image.width();
        let h = image.height();
        let mut rows: Vec<Vec<Pixel>> = Vec::new();
        for y in 0..h
            invariant
                image.wf(),
                mask.wf(),
                mask@.len() == image@.len(),
                mask.spec_width() == image.spec_width(),
                w as int == image.spec_width(),
                h as int == image@.len(),
                rows@.len() == y,
                forall|yy: int| 0 <= yy < y ==> (#[trigger] rows@[yy])@.len() == w,
                forall|yy: int, x: int|
                    0 <= yy < y && 0 <= x < w ==> #[trigger] rows@[yy]@[x] == (
                    if mask@[yy][x] == 0 {
                        image@[yy][x]
                    } else {
                        pixel_sum_squares(image@[yy][x])
                    }),
        {
            let mut row: Vec<Pixel> = Vec::new();
            for x in 0..w
                invariant
                    image.wf(),
                    mask.wf(),
                    mask@.len() == image@.len(),
                    mask.spec_width() == image.spec_width(),
                    w as int == image.spec_width(),
                    h as int == image@.len(),
                    y < h,
                    row@.len() == x,
                    forall|xx: int|
                        0 <= xx < x ==> #[trigger] row@[xx] == (
                        if mask@[y as int][xx] == 0 {
                            image@[y as int][xx]
                        } else {
                            pixel_sum_squares(image@[y as int][xx])
                        }),
            {
                let p = image.get(x, y);
                if mask.get(x, y) == 0 {
                    row.push(p);
                } else {
                    row.push(
                        Pixel {
                            r: sum_of_squares(p.r),
                            g: sum_of_squares(p.g),
                            b: sum_of_squares(p.b),
                            a: sum_of_squares(p.a),
                        },
                    );
                }
            }
            rows.push(row);
        }
        let ghost rows_view = rows@;
        let out = Grid::from_rows(w, rows);
        proof {
            assert forall|y: int, x: int|
                0 <= y < image@.len() && 0 <= x < image.spec_width() implies #[trigger] out@[y][x]
                == (if mask@[y][x] == 0 {
                image@[y][x]
            } else {
                pixel_sum_squares(image@[y][x])
            }) by {
                assert(out@[y] == rows_view[y]@);
            }
        }
        out
    }

/// Shuffles the four channels of every mask-active pixel into a random
/// order; masked-out pixels keep their value, and a shuffled pixel keeps
/// exactly its channel values, rearranged.
pub fn shuffle_remap(image: &Grid<Pixel>, mask: &Grid<u8>) -> (out: Grid<Pixel>)
    requires
        image.wf(),
        mask.wf(),
        mask@.len() == image@.len(),
        mask.spec_width() == image.spec_width(),
    ensures
        out.wf(),
        out.spec_width() == image.spec_width(),
        out@.len() == image@.len(),
        forall|y: int, x: int|
            0 <= y < image@.len() && 0 <= x < image.spec_width() && mask@[y][x] == 0
                ==> #[trigger] out@[y][x] == image@[y][x],
        forall|y: int, x: int|
            0 <= y < image@.len() && 0 <= x < image.spec_width() && mask@[y][x] != 0 ==> channels(
                #[trigger] out@[y][x],
            ).to_multiset() == channels(image@[y][x]).to_multiset(),
    {
        let w = image.width();
        let h = image.height();
        let mut rows: Vec<Vec<Pixel>> = Vec::new();
        for y in 0..h
            invariant
                image.wf(),
                mask.wf(),
                mask@.len() == image@.len(),
                mask.spec_width() == image.spec_width(),
                w as int == image.spec_width(),
                h as int == image@.len(),
                rows@.len() == y,
                forall|yy: int| 0 <= yy < y ==> (#[trigger] rows@[yy])@.len() == w,
                forall|yy: int, x: int|
                    0 <= yy < y && 0 <= x < w && mask@[yy][x] == 0 ==> #[trigger] rows@[yy]@[x]
                        == image@[yy][x],
                forall|yy: int, x: int|
                    0 <= yy < y && 0 <= x < w && mask@[yy][x] != 0 ==> channels(
                        #[trigger] rows@[yy]@[x],
                    ).to_multiset() == channels(image@[yy][x]).to_multiset(),
        {
            let mut row: Vec<Pixel> = Vec::new();
            for x in 0..w
                invariant
                    image.wf(),
                    mask.wf(),
                    mask@.len() == image@.len(),
                    mask.spec_width() == image.spec_width(),
                    w as int == image.spec_width(),
                    h as int == image@.len(),
                    y < h,
                    row@.len() == x,
                    forall|xx: int|
                        0 <= xx < x && mask@[y as int][xx] == 0 ==> #[trigger] row@[xx]
                            == image@[y as int][xx],
                    forall|xx: int|
                        0 <= xx < x && mask@[y as int][xx] != 0 ==> channels(
                            #[trigger] row@[xx],
                        ).to_multiset() == channels(image@[y as int][xx]).to_multiset(),
            {
                let p = image.get(x, y);
                if mask.get(x, y) == 0 {
                    row.push(p);
                } else {
                    row.push(shuffle_pixel(p));
                }
            }
            rows.push(row);
        }
        let ghost rows_view = rows@;
        let out = Grid::from_rows(w, rows);
        proof {
            assert forall|y: int, x: int|
                0 <= y < image@.len() && 0 <= x < image.spec_width() && mask@[y][x]
                    == 0 implies #[trigger] out@[y][x] == image@[y][x] by {
                assert(out@[y] == rows_view[y]@);
            }
            assert forall|y: int, x: int|
                0 <= y < image@.len() && 0 <= x < image.spec_width() && mask@[y][x]
                    != 0 implies channels(#[trigger] out@[y][x]).to_multiset() == channels(
                image@[y][x],
            ).to_multiset() by {
                assert(out@[y] == rows_view[y]@);
            }
        }
        out
    }

} // verus!
