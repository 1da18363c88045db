use pico::remap::{divisors, fib, fib_remap, shuffle_remap, sum_of_squares, sum_squares_remap};
use pico::raster::{Grid, Pixel};

#[test]
fn fib_small_values() {
    assert_eq!(fib(0), 0);
    assert_eq!(fib(1), 1);
    assert_eq!(fib(2), 1);
    assert_eq!(fib(10), 55);
    assert_eq!(fib(20), 6765);
}

#[test]
fn fib_largest_value_before_wrapping() {
    assert_eq!(fib(93), 12200160415121876738);
}

#[test]
fn fib_wraps_modulo_two_to_the_sixty_four() {
    // The ninety-fourth Fibonacci number exceeds the counter and wraps.
    assert_eq!(fib(94), 1293530146158671551);
}

#[test]
fn divisors_lists_small_divisors_then_cofactors() {
    // Square root of 16 is 4; divisors below it are 1 and 2, then the
    // cofactors 16 and 8 in the same order. The root itself is skipped.
    assert_eq!(divisors(16), vec![1, 2, 16, 8]);
    assert_eq!(divisors(12), vec![1, 2, 12, 6]);
}

#[test]
fn divisors_of_zero_and_one_are_empty() {
    assert_eq!(divisors(0), Vec::<u8>::new());
    assert_eq!(divisors(1), Vec::<u8>::new());
}

#[test]
fn sum_of_squares_reduces_modulo_256() {
    // 1 + 4 + 256 + 64 = 325, and 325 mod 256 = 69.
    assert_eq!(sum_of_squares(16), 69);
    assert_eq!(sum_of_squares(0), 0);
    assert_eq!(sum_of_squares(1), 0);
}

fn one_pixel(p: Pixel) -> Grid<Pixel> {
    Grid::from_rows(1, vec![vec![p]])
}

#[test]
fn fib_remap_applies_to_every_channel_of_active_pixels() {
    let img = one_pixel(Pixel { r: 10, g: 1, b: 0, a: 10 });
    let mask = Grid::from_rows(1, vec![vec![255u8]]);
    let out = fib_remap(&img, &mask);
    assert_eq!(out.get(0, 0), Pixel { r: 55, g: 1, b: 0, a: 55 });
}

#[test]
fn fib_remap_skips_masked_out_pixels() {
    let img = one_pixel(Pixel { r: 10, g: 1, b: 0, a: 10 });
    let mask = Grid::from_rows(1, vec![vec![0u8]]);
    let out = fib_remap(&img, &mask);
    assert_eq!(out.get(0, 0), Pixel { r: 10, g: 1, b: 0, a: 10 });
}

#[test]
fn sum_squares_remap_applies_per_channel() {
    let img = one_pixel(Pixel { r: 16, g: 0, b: 1, a: 16 });
    let mask = Grid::from_rows(1, vec![vec![1u8]]);
    let out = sum_squares_remap(&img, &mask);
    assert_eq!(out.get(0, 0), Pixel { r: 69, g: 0, b: 0, a: 69 });
}

#[test]
fn shuffle_remap_keeps_the_channel_values() {
    let img = one_pixel(Pixel { r: 1, g: 2, b: 3, a: 4 });
    let mask = Grid::from_rows(1, vec![vec![255u8]]);
    let out = shuffle_remap(&img, &mask);
    let p = out.get(0, 0);
    let mut got = vec![p.r, p.g, p.b, p.a];
    got.sort();
    assert_eq!(got, vec![1, 2, 3, 4]);
}

#[test]
fn shuffle_remap_skips_masked_out_pixels() {
    let img = one_pixel(Pixel { r: 1, g: 2, b: 3, a: 4 });
    let mask = Grid::from_rows(1, vec![vec![0u8]]);
    let out = shuffle_remap(&img, &mask);
    assert_eq!(out.get(0, 0), Pixel { r: 1, g: 2, b: 3, a: 4 });
}
