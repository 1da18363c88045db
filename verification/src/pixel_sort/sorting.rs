//! Sort keys: the visual quantities a run of pixels is ordered by.
//!
//! Every key maps a pixel to an exact rational `num / den` with `den >= 1`.
//! Working with exact rationals keeps the ordering free of rounding: two keys
//! compare by cross-multiplication. The keys are
//!   - `lightness`: `(min(R,G,B) + max(R,G,B)) / 2`,
//!   - `hue`: HSL hue in turns, normalized into `[0, 1)`, `0` when achromatic,
//!   - `saturation`: the two-branch HSL formula split at lightness `1/2`,
//!     with channels normalized to `[0, 1]` before the formula is applied,
//!     `0` when achromatic,
//!   - `intensity`: `R + G + B`,
//!   - `minimum`: `min(R,G,B)`.
//! Alpha never contributes.

use vstd::prelude::*;

use crate::raster::Pixel;

verus! {

/// An exact non-negative rational sort key; `den` is always at least 1.
#[derive(Clone, Copy, PartialEq, Eq, Structural, Debug)]
pub struct Key {
    pub num: u32,
    pub den: u32,
}

impl View for Key {
    type V = (int, int);

    open spec fn view(&self) -> (int, int) {
        (self.num as int, self.den as int)
    }
}

/// Which visual quantity orders the pixels of a run.
#[derive(Clone, Copy, PartialEq, Eq, Structural, Debug)]
pub enum SortKey {
    Lightness,
    Hue,
    Saturation,
    Intensity,
    Minimum,
}

pub open spec fn spec_max3(a: int, b: int, c: int) -> int {
    if a >= b && a >= c {
        a
    } else if b >= c {
        b
    } else {
        c
    }
}

pub open spec fn spec_min3(a: int, b: int, c: int) -> int {
    if a <= b && a <= c {
        a
    } else if b <= c {
        b
    } else {
        c
    }
}

pub open spec fn max_chan(p: Pixel) -> int {
    spec_max3(p.r as int, p.g as int, p.b as int)
}

pub open spec fn min_chan(p: Pixel) -> int {
    spec_min3(p.r as int, p.g as int, p.b as int)
}

/// Twice the lightness of a pixel: `min + max`, an integer in `[0, 510]`.
pub open spec fn light2(p: Pixel) -> int {
    min_chan(p) + max_chan(p)
}

/// The exact lightness `(min + max) / 2` as a rational.
pub open spec fn spec_lightness(p: Pixel) -> (int, int) {
    (light2(p), 2)
}

/// The exact hue in turns, normalized into `[0, 1)`. For a chromatic pixel
/// with chroma `c = max - min`, the hue is `h / 6` where `h` is picked by the
/// dominant channel; the value is brought into `[0, 1)` by adding one full
/// turn when negative. Achromatic pixels get hue `0`.
pub open spec fn spec_hue(p: Pixel) -> (int, int) {
    let mx = max_chan(p);
    let mn = min_chan(p);
    if mx == mn {
        (0, 1)
    } else {
        let c = mx - mn;
        let h6 = if p.r as int == mx {
            p.g - p.b
        } else if p.g as int == mx {
            2 * c + (p.b - p.r)
        } else {
            4 * c + (p.r - p.g)
        };
        let n = if h6 < 0 {
            h6 + 6 * c
        } else {
            h6
        };
        (n, 6 * c)
    }
}

/// The exact HSL saturation with channels normalized to `[0, 1]`: writing
/// `M = max/255` and `m = min/255`, the value is `(M-m)/(M+m)` when the
/// lightness is at most `1/2` and `(M-m)/(2-M-m)` above; both reduce to
/// integer fractions over the raw channel values. Achromatic pixels get `0`.
pub open spec fn spec_saturation(p: Pixel) -> (int, int) {
    let mx = max_chan(p);
    let mn = min_chan(p);
    if mx == mn {
        (0, 1)
    } else if mx + mn <= 255 {
        (mx - mn, mx + mn)
    } else {
        (mx - mn, 510 - (mx + mn))
    }
}

/// The channel sum `R + G + B`, with no averaging.
pub open spec fn spec_intensity(p: Pixel) -> (int, int) {
    (p.r + p.g + p.b, 1)
}

/// The smallest of the three color channels.
pub open spec fn spec_minimum(p: Pixel) -> (int, int) {
    (min_chan(p), 1)
}

/// The rational value the given key assigns to the given pixel.
pub open spec fn key_frac(k: SortKey, p: Pixel) -> (int, int) {
    match k {
        SortKey::Lightness => spec_lightness(p),
        SortKey::Hue => spec_hue(p),
        SortKey::Saturation => spec_saturation(p),
        SortKey::Intensity => spec_intensity(p),
        SortKey::Minimum => spec_minimum(p),
    }
}

/// `p`'s key is at most `q`'s key, by cross-multiplication of the exact
/// rationals. A total preorder on pixels for every key.
pub open spec fn key_le(k: SortKey, p: Pixel, q: Pixel) -> bool {
    key_frac(k, p).0 * key_frac(k, q).1 <= key_frac(k, q).0 * key_frac(k, p).1
}

/// Every key's denominator is positive, and numerator and denominator are
/// small enough that cross-multiplication fits comfortably in `u64`.
pub proof fn lemma_key_frac_bounds(k: SortKey, p: Pixel)
    ensures
        1 <= key_frac(k, p).1 <= 1530,
        0 <= key_frac(k, p).0 <= 1530,
{
}

/// `key_le` is total: of any two pixels, one's key is at most the other's.
pub proof fn lemma_key_le_total(k: SortKey, p: Pixel, q: Pixel)
    ensures
        key_le(k, p, q) || key_le(k, q, p),
{
}

proof fn lemma_frac_le_trans(a: int, b: int, c: int, d: int, e: int, f: int)
    by (nonlinear_arith)
    requires
        b >= 1,
        d >= 1,
        f >= 1,
        a * d <= c * b,
        c * f <= e * d,
    ensures
        a * f <= e * b,
{
}

/// `key_le` is transitive.
pub proof fn lemma_key_le_trans(k: SortKey, p: Pixel, q: Pixel, s: Pixel)
    requires
        key_le(k, p, q),
        key_le(k, q, s),
    ensures
        key_le(k, p, s),
{
    lemma_key_frac_bounds(k, p);
    lemma_key_frac_bounds(k, q);
    lemma_key_frac_bounds(k, s);
    lemma_frac_le_trans(
        key_frac(k, p).0,
        key_frac(k, p).1,
        key_frac(k, q).0,
        key_frac(k, q).1,
        key_frac(k, s).0,
        key_frac(k, s).1,
    );
}

fn max3(a: u8, b: u8, c: u8) -> (m: u8)
    ensures
        m as int == spec_max3(a as int, b as int, c as int),
{
    if a >= b && a >= c {
        a
    } else if b >= c {
        b
    } else {
        c
    }
}

fn min3(a: u8, b: u8, c: u8) -> (m: u8)
    ensures
        m as int == spec_min3(a as int, b as int, c as int),
{
    if a <= b && a <= c {
        a
    } else if b <= c {
        b
    } else {
        c
    }
}

/// The lightness key `(min + max) / 2`, as an exact rational.
pub fn lightness(pixel: &Pixel) -> (r: Key)
    ensures
        r@ == spec_lightness(*pixel),
{
    let mx = max3(pixel.r, pixel.g, pixel.b);
    let mn = min3(pixel.r, pixel.g, pixel.b);
    Key { num: mn as u32 + mx as u32, den: 2 }
}

/// The hue key in turns, normalized into `[0, 1)`; `0` when achromatic.
pub fn hue(pixel: &Pixel) -> (r: Key)
    ensures
        r@ == spec_hue(*pixel),
{
    let mx = max3(pixel.r, pixel.g, pixel.b);
    let mn = min3(pixel.r, pixel.g, pixel.b);
    if mx == mn {
        return Key { num: 0, den: 1 };
    }
    let c = mx as i32 - mn as i32;
    let h6 = if pixel.r == mx {
        pixel.g as i32 - pixel.b as i32
    } else if pixel.g == mx {
        2 * c + (pixel.b as i32 - pixel.r as i32)
    } else {
        4 * c + (pixel.r as i32 - pixel.g as i32)
    };
    let n = if h6 < 0 {
        h6 + 6 * c
    } else {
        h6
    };
    Key { num: n as u32, den: 6 * c as u32 }
}

/// The saturation key; `0` when achromatic.
pub fn saturation(pixel: &Pixel) -> (r: Key)
    ensures
        r@ == spec_saturation(*pixel),
{
    let mx = max3(pixel.r, pixel.g, pixel.b);
    let mn = min3(pixel.r, pixel.g, pixel.b);
    if mx == mn {
        Key { num: 0, den: 1 }
    } else if mx as u32 + mn as u32 <= 255 {
        Key { num: mx as u32 - mn as u32, den: mx as u32 + mn as u32 }
    } else {
        Key { num: mx as u32 - mn as u32, den: 510 - (mx as u32 + mn as u32) }
    }
}

/// The intensity key `R + G + B`.
pub fn intensity(pixel: &Pixel) -> (r: Key)
    ensures
        r@ == spec_intensity(*pixel),
{
    Key { num: pixel.r as u32 + pixel.g as u32 + pixel.b as u32, den: 1 }
}

/// The minimum-channel key.
pub fn minimum(pixel: &Pixel) -> (r: Key)
    ensures
        r@ == spec_minimum(*pixel),
{
    Key { num: min3(pixel.r, pixel.g, pixel.b) as u32, den: 1 }
}

impl SortKey {
    /// The key value this variant assigns to a pixel.
    pub fn key_of(&self, pixel: &Pixel) -> (r: Key)
        ensures
            r@ == key_frac(*self, *pixel),
    {
        match self {
            SortKey::Lightness => lightness(pixel),
            SortKey::Hue => hue(pixel),
            SortKey::Saturation => saturation(pixel),
            SortKey::Intensity => intensity(pixel),
            SortKey::Minimum => minimum(pixel),
        }
    }

    /// Decides `key_le` by cross-multiplying the two exact keys.
    pub fn le(&self, p: &Pixel, q: &Pixel) -> (r: bool)
        ensures
            r == key_le(*self, *p, *q),
    {
        let kp = self.key_of(p);
        let kq = self.key_of(q);
        proof {
            lemma_key_frac_bounds(*self, *p);
            lemma_key_frac_bounds(*self, *q);
            let n1 = kp.num as int;
            let d1 = kp.den as int;
            let n2 = kq.num as int;
            let d2 = kq.den as int;
            assert(n1 * d2 <= 1530 * 1530 && n2 * d1 <= 1530 * 1530) by (nonlinear_arith)
                requires
                    0 <= n1 <= 1530,
                    0 <= d1 <= 1530,
                    0 <= n2 <= 1530,
                    0 <= d2 <= 1530,
            ;
        }
        (kp.num as u64) * (kq.den as u64) <= (kq.num as u64) * (kp.den as u64)
    }
}

} // verus!
