use pico::pixel_sort::sorting::{hue, intensity, lightness, minimum, saturation, Key, SortKey};
use pico::raster::Pixel;

fn px(r: u8, g: u8, b: u8) -> Pixel {
    Pixel { r, g, b, a: 77 }
}

#[test]
fn lightness_is_half_of_min_plus_max() {
    assert_eq!(lightness(&px(10, 200, 30)), Key { num: 210, den: 2 });
    assert_eq!(lightness(&px(0, 0, 0)), Key { num: 0, den: 2 });
    assert_eq!(lightness(&px(255, 255, 255)), Key { num: 510, den: 2 });
}

#[test]
fn hue_of_primaries_in_turns() {
    // Red is 0 turns, green 1/3, blue 2/3.
    assert_eq!(hue(&px(255, 0, 0)), Key { num: 0, den: 1530 });
    assert_eq!(hue(&px(0, 255, 0)), Key { num: 510, den: 1530 });
    assert_eq!(hue(&px(0, 0, 255)), Key { num: 1020, den: 1530 });
}

#[test]
fn hue_is_zero_for_achromatic_pixels() {
    assert_eq!(hue(&px(90, 90, 90)), Key { num: 0, den: 1 });
}

#[test]
fn negative_hue_wraps_into_the_last_sixth_of_a_turn() {
    // Red-dominant with more blue than green: the raw hue is negative and
    // gains a full turn, landing in [5/6, 1).
    let k = hue(&px(255, 0, 100));
    assert_eq!(k, Key { num: 1430, den: 1530 });
}

#[test]
fn saturation_uses_the_two_branch_formula() {
    // min + max at most 255: (max - min) / (max + min).
    assert_eq!(saturation(&px(100, 50, 150)), Key { num: 100, den: 200 });
    // min + max above 255: (max - min) / (510 - max - min).
    assert_eq!(saturation(&px(200, 100, 250)), Key { num: 150, den: 160 });
    // Achromatic: 0.
    assert_eq!(saturation(&px(42, 42, 42)), Key { num: 0, den: 1 });
}

#[test]
fn intensity_is_the_channel_sum() {
    assert_eq!(intensity(&px(1, 2, 3)), Key { num: 6, den: 1 });
    assert_eq!(intensity(&px(255, 255, 255)), Key { num: 765, den: 1 });
}

#[test]
fn minimum_is_the_smallest_channel() {
    assert_eq!(minimum(&px(9, 4, 7)), Key { num: 4, den: 1 });
}

#[test]
fn alpha_never_contributes_to_any_key() {
    let a = Pixel { r: 10, g: 20, b: 30, a: 0 };
    let b = Pixel { r: 10, g: 20, b: 30, a: 255 };
    assert_eq!(lightness(&a), lightness(&b));
    assert_eq!(hue(&a), hue(&b));
    assert_eq!(saturation(&a), saturation(&b));
    assert_eq!(intensity(&a), intensity(&b));
    assert_eq!(minimum(&a), minimum(&b));
}

#[test]
fn key_comparison_cross_multiplies_exactly() {
    // 100/200 (a half) against 150/160 (almost one).
    let k = SortKey::Saturation;
    assert!(k.le(&px(100, 50, 150), &px(200, 100, 250)));
    assert!(!k.le(&px(200, 100, 250), &px(100, 50, 150)));
    // Equal values compare both ways.
    assert!(k.le(&px(100, 50, 150), &px(100, 50, 150)));
}
