//! The library's only window onto randomness: two thin wrappers around the
//! `rand` crate. Everything that consumes their results is verified for
//! every value they could return.

use vstd::prelude::*;

use rand::seq::SliceRandom;
use rand::Rng;

use crate::raster::{channels, Pixel};

verus! {

/// Relies on rand's `Rng::random_range` over `0..bound`: the result is an
/// integer drawn from that range, so it is strictly below `bound`. The call
/// panics only on an empty range, which `bound >= 1` rules out.
#[verifier::external_body]
pub(crate) fn random_below(bound: u32) -> (r: u32)
    requires
        bound >= 1,
    ensures
        r < bound,
{
    rand::rng().random_range(0..bound)
}

/// Relies on rand's `SliceRandom::shuffle`: an in-place Fisher-Yates
/// permutation of the slice, so the four channel values are rearranged but
/// none is gained or lost.
#[verifier::external_body]
pub(crate) fn shuffle_pixel(p: Pixel) -> (r: Pixel)
    ensures
        channels(r).to_multiset() == channels(p).to_multiset(),
{
    let mut c = [p.r, p.g, p.b, p.a];
    c.shuffle(&mut rand::rng());
    Pixel { r: c[0], g: c[1], b: c[2], a: c[3] }
}

} // verus!
