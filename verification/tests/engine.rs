use pico::pixel_sort::range::{File, NoneRange, PixelRange, Threshold};
use pico::pixel_sort::sorter::{sort_image, sort_interval};
use pico::pixel_sort::sorting::SortKey;
use pico::pixel_sort::PixelSort;
use pico::raster::{Grid, Pixel};

fn gray(v: u8) -> Pixel {
    Pixel { r: v, g: v, b: v, a: 255 }
}

fn gray_image(rows: &[&[u8]]) -> Grid<Pixel> {
    let width = rows[0].len();
    let mut out: Vec<Vec<Pixel>> = Vec::new();
    for row in rows {
        assert_eq!(row.len(), width);
        out.push(row.iter().map(|v| gray(*v)).collect());
    }
    Grid::from_rows(width, out)
}

fn mask_image(rows: &[&[u8]]) -> Grid<u8> {
    let width = rows[0].len();
    let mut out: Vec<Vec<u8>> = Vec::new();
    for row in rows {
        assert_eq!(row.len(), width);
        out.push(row.to_vec());
    }
    Grid::from_rows(width, out)
}

fn full_mask(width: usize, height: usize) -> Grid<u8> {
    mask_image(&vec![&vec![255u8; width][..]; height][..])
}

fn row_values(g: &Grid<Pixel>, y: usize) -> Vec<u8> {
    (0..g.width()).map(|x| g.get(x, y).r).collect()
}

#[test]
fn none_generator_full_mask_sorts_each_row() {
    let img = gray_image(&[&[3, 1, 2], &[9, 7, 8]]);
    let mask = full_mask(3, 2);
    let ps = PixelSort::new(img, mask, PixelRange::NoneRange(NoneRange), SortKey::Lightness);
    let out = ps.sort();
    assert_eq!(row_values(&out, 0), vec![1, 2, 3]);
    assert_eq!(row_values(&out, 1), vec![7, 8, 9]);
}

#[test]
fn inactive_mask_leaves_image_unchanged() {
    let img = gray_image(&[&[200, 5, 100, 40]]);
    let mask = mask_image(&[&[0, 0, 0, 0]]);
    let ps = PixelSort::new(
        img,
        mask,
        PixelRange::Threshold(Threshold { lower: 200, upper: 850 }),
        SortKey::Lightness,
    );
    let out = ps.sort();
    assert_eq!(row_values(&out, 0), vec![200, 5, 100, 40]);
}

#[test]
fn partial_mask_sorts_only_active_pixels() {
    let img = gray_image(&[&[200, 5, 100]]);
    let mask = mask_image(&[&[255, 0, 255]]);
    let ps = PixelSort::new(img, mask, PixelRange::NoneRange(NoneRange), SortKey::Lightness);
    let out = ps.sort();
    assert_eq!(row_values(&out, 0), vec![100, 5, 200]);
}

#[test]
fn full_range_threshold_matches_none_generator() {
    let img = gray_image(&[&[90, 10, 250, 130], &[77, 66, 55, 44]]);
    let mask = full_mask(4, 2);
    let thr = Threshold { lower: 0, upper: 1000 };
    let ranges = thr.create_pixel_ranges(&img);
    assert_eq!(ranges, vec![Vec::<usize>::new(), Vec::<usize>::new()]);
    let none_ranges = NoneRange.create_pixel_ranges(&img);
    assert_eq!(ranges, none_ranges);
    let out_a = PixelSort::new(
        gray_image(&[&[90, 10, 250, 130], &[77, 66, 55, 44]]),
        full_mask(4, 2),
        PixelRange::Threshold(Threshold { lower: 0, upper: 1000 }),
        SortKey::Lightness,
    )
        .sort();
    let out_b = PixelSort::new(
        gray_image(&[&[90, 10, 250, 130], &[77, 66, 55, 44]]),
        mask,
        PixelRange::NoneRange(NoneRange),
        SortKey::Lightness,
    )
        .sort();
    for y in 0..2 {
        assert_eq!(row_values(&out_a, y), row_values(&out_b, y));
    }
}

#[test]
fn threshold_scenario_four_by_one() {
    // Lightness row [10, 200, 50, 220] with bounds of 0.2 and 0.85 of the
    // scale, so the band is [51, 216.75]: 10 and 50 lie below it and 220
    // above it, making columns 0, 2 and 3 boundaries. The run [0, 2) is
    // already ordered and the other runs are single pixels, so the row
    // comes back unchanged.
    let img = gray_image(&[&[10, 200, 50, 220]]);
    let thr = Threshold { lower: 200, upper: 850 };
    let ranges = thr.create_pixel_ranges(&img);
    assert_eq!(ranges, vec![vec![0usize, 2, 3]]);
    let mask = full_mask(4, 1);
    let ps = PixelSort::new(
        img,
        mask,
        PixelRange::Threshold(Threshold { lower: 200, upper: 850 }),
        SortKey::Lightness,
    );
    let out = ps.sort();
    assert_eq!(row_values(&out, 0), vec![10, 200, 50, 220]);
}

#[test]
fn threshold_scenario_with_in_band_middle_pixel() {
    // With the middle pixel inside the band (52 is at least 51), the
    // boundaries are columns 0 and 3: the run [0, 3) sorts to
    // [10, 52, 200] and the single bright pixel 220 keeps its place.
    let img = gray_image(&[&[10, 200, 52, 220]]);
    let thr = Threshold { lower: 200, upper: 850 };
    let ranges = thr.create_pixel_ranges(&img);
    assert_eq!(ranges, vec![vec![0usize, 3]]);
    let mask = full_mask(4, 1);
    let ps = PixelSort::new(
        img,
        mask,
        PixelRange::Threshold(Threshold { lower: 200, upper: 850 }),
        SortKey::Lightness,
    );
    let out = ps.sort();
    assert_eq!(row_values(&out, 0), vec![10, 52, 200, 220]);
}

#[test]
fn threshold_bound_is_exact_at_fifty_one() {
    // 0.2 of the scale is exactly lightness 51: a pixel at 51 is inside the
    // band, a pixel at 50 is a boundary.
    let img = gray_image(&[&[51, 50]]);
    let thr = Threshold { lower: 200, upper: 850 };
    let ranges = thr.create_pixel_ranges(&img);
    assert_eq!(ranges, vec![vec![1usize]]);
}

#[test]
fn file_generator_marks_exactly_zero_columns() {
    let img = gray_image(&[&[9, 9, 9, 9], &[9, 9, 9, 9]]);
    let side = mask_image(&[&[255, 0, 7, 0], &[1, 2, 3, 4]]);
    let gen = File { mask: side };
    let ranges = gen.create_pixel_ranges(&img);
    assert_eq!(ranges, vec![vec![1usize, 3], vec![]]);
}

#[test]
fn file_runs_never_cross_zero_columns() {
    // Side mask splits the row at column 2: the dark pixel 10 stays inside
    // the right run instead of sorting to the far left.
    let img = gray_image(&[&[80, 60, 90, 10]]);
    let side = mask_image(&[&[255, 255, 0, 255]]);
    let mask = full_mask(4, 1);
    let ps = PixelSort::new(img, mask, PixelRange::File(File { mask: side }), SortKey::Lightness);
    let out = ps.sort();
    assert_eq!(row_values(&out, 0), vec![60, 80, 10, 90]);
}

#[test]
fn sorting_twice_with_fixed_boundaries_is_a_fixed_point() {
    let side = mask_image(&[&[255, 0, 255, 255, 0], &[255, 255, 255, 0, 255]]);
    let img = gray_image(&[&[90, 10, 250, 130, 7], &[77, 66, 55, 44, 33]]);
    let first = PixelSort::new(
        img,
        full_mask(5, 2),
        PixelRange::File(File { mask: side }),
        SortKey::Lightness,
    )
        .sort();
    let side2 = mask_image(&[&[255, 0, 255, 255, 0], &[255, 255, 255, 0, 255]]);
    let second = PixelSort::new(
        Grid::from_rows(
            5,
            (0..2).map(|y| (0..5).map(|x| first.get(x, y)).collect()).collect(),
        ),
        full_mask(5, 2),
        PixelRange::File(File { mask: side2 }),
        SortKey::Lightness,
    )
        .sort();
    for y in 0..2 {
        assert_eq!(row_values(&second, y), row_values(&first, y));
    }
}

#[test]
fn sort_interval_orders_and_keeps_pixels() {
    let run = vec![gray(50), gray(10), gray(40), gray(10)];
    let sorted = sort_interval(run, SortKey::Lightness);
    let values: Vec<u8> = sorted.iter().map(|p| p.r).collect();
    assert_eq!(values, vec![10, 10, 40, 50]);
}

#[test]
fn sort_interval_is_identity_on_sorted_input() {
    let run = vec![gray(1), gray(2), gray(2), gray(9)];
    let sorted = sort_interval(run.clone(), SortKey::Lightness);
    assert_eq!(sorted, run);
}

#[test]
fn sort_image_sorts_between_boundaries() {
    let img = gray_image(&[&[50, 10, 40, 20]]);
    let rows = sort_image(&img, vec![vec![2]]);
    let values: Vec<u8> = rows[0].iter().map(|p| p.r).collect();
    assert_eq!(values, vec![10, 50, 20, 40]);
}

#[test]
fn sort_image_without_boundary_rows_sorts_whole_rows() {
    let img = gray_image(&[&[5, 3, 4], &[2, 9, 1]]);
    let rows = sort_image(&img, vec![]);
    let first: Vec<u8> = rows[0].iter().map(|p| p.r).collect();
    let second: Vec<u8> = rows[1].iter().map(|p| p.r).collect();
    assert_eq!(first, vec![3, 4, 5]);
    assert_eq!(second, vec![1, 2, 9]);
}

#[test]
fn threshold_sort_is_deterministic_across_calls() {
    // The boundaries are a function of the pixels and the run order is the
    // stable sort, so two passes over equal inputs agree pixel for pixel.
    let rows: [&[u8]; 2] = [&[90, 10, 250, 130, 7], &[3, 250, 1, 250, 2]];
    let run = || {
        PixelSort::new(
            gray_image(&rows),
            full_mask(5, 2),
            PixelRange::Threshold(Threshold { lower: 200, upper: 850 }),
            SortKey::Lightness,
        )
            .sort()
    };
    let a = run();
    let b = run();
    for y in 0..2 {
        assert_eq!(row_values(&a, y), row_values(&b, y));
    }
}

#[test]
fn equal_keys_keep_their_original_order() {
    // Two pixels tie on lightness (both (min + max) / 2 == 10) but differ
    // in color; the stable order keeps the earlier one first.
    let tie_a = Pixel { r: 0, g: 20, b: 10, a: 255 };
    let tie_b = Pixel { r: 10, g: 10, b: 10, a: 255 };
    let big = Pixel { r: 200, g: 200, b: 200, a: 255 };
    let out = PixelSort::new(
        Grid::from_rows(3, vec![vec![big, tie_a, tie_b]]),
        full_mask(3, 1),
        PixelRange::NoneRange(NoneRange),
        SortKey::Lightness,
    )
        .sort();
    assert_eq!(out.get(0, 0), tie_a);
    assert_eq!(out.get(1, 0), tie_b);
    assert_eq!(out.get(2, 0), big);
}

#[test]
fn sort_interval_is_stable_on_tied_keys() {
    let tie_a = Pixel { r: 0, g: 20, b: 10, a: 1 };
    let tie_b = Pixel { r: 10, g: 10, b: 10, a: 2 };
    let big = Pixel { r: 99, g: 99, b: 99, a: 3 };
    let sorted = sort_interval(vec![big, tie_a, tie_b], SortKey::Lightness);
    assert_eq!(sorted, vec![tie_a, tie_b, big]);
}

#[test]
fn keys_order_the_same_row_differently() {
    // Pure red has lightness 127.5 but intensity 255; mid gray has
    // lightness 100 but intensity 300, so the two keys disagree.
    let red = Pixel { r: 255, g: 0, b: 0, a: 255 };
    let grey = Pixel { r: 100, g: 100, b: 100, a: 255 };
    let by_intensity = PixelSort::new(
        Grid::from_rows(2, vec![vec![grey, red]]),
        full_mask(2, 1),
        PixelRange::NoneRange(NoneRange),
        SortKey::Intensity,
    )
        .sort();
    assert_eq!(by_intensity.get(0, 0), red);
    assert_eq!(by_intensity.get(1, 0), grey);
    let by_lightness = PixelSort::new(
        Grid::from_rows(2, vec![vec![red, grey]]),
        full_mask(2, 1),
        PixelRange::NoneRange(NoneRange),
        SortKey::Lightness,
    )
        .sort();
    assert_eq!(by_lightness.get(0, 0), grey);
    assert_eq!(by_lightness.get(1, 0), red);
}

#[test]
fn hue_sorts_primaries_in_spectral_order() {
    let red = Pixel { r: 255, g: 0, b: 0, a: 255 };
    let green = Pixel { r: 0, g: 255, b: 0, a: 255 };
    let blue = Pixel { r: 0, g: 0, b: 255, a: 255 };
    let out = PixelSort::new(
        Grid::from_rows(3, vec![vec![blue, green, red]]),
        full_mask(3, 1),
        PixelRange::NoneRange(NoneRange),
        SortKey::Hue,
    )
        .sort();
    assert_eq!(out.get(0, 0), red);
    assert_eq!(out.get(1, 0), green);
    assert_eq!(out.get(2, 0), blue);
}

#[test]
fn minimum_key_sorts_by_smallest_channel() {
    let a = Pixel { r: 5, g: 200, b: 200, a: 255 };
    let b = Pixel { r: 50, g: 60, b: 70, a: 255 };
    let out = PixelSort::new(
        Grid::from_rows(2, vec![vec![b, a]]),
        full_mask(2, 1),
        PixelRange::NoneRange(NoneRange),
        SortKey::Minimum,
    )
        .sort();
    assert_eq!(out.get(0, 0), a);
    assert_eq!(out.get(1, 0), b);
}

#[test]
fn no_pixel_is_gained_or_lost() {
    let img = gray_image(&[&[90, 10, 250, 130, 7], &[3, 250, 1, 250, 2]]);
    let mask = mask_image(&[&[255, 0, 255, 255, 0], &[0, 255, 255, 0, 255]]);
    let ps = PixelSort::new(
        img,
        mask,
        PixelRange::Threshold(Threshold { lower: 200, upper: 850 }),
        SortKey::Lightness,
    );
    let out = ps.sort();
    let inputs = [[90u8, 10, 250, 130, 7], [3, 250, 1, 250, 2]];
    for y in 0..2 {
        let mut got = row_values(&out, y);
        let mut expected = inputs[y].to_vec();
        got.sort();
        expected.sort();
        assert_eq!(got, expected);
    }
}

#[test]
fn threshold_resort_can_differ_when_boundaries_move() {
    // The fixed point holds only while the boundaries stay put. A
    // threshold recomputes them from pixel content: here the bright pixel
    // 250 is a boundary at column 3, sorting carries it to column 5, and
    // the second pass therefore carves different runs and sorts further.
    let row = [200u8, 210, 216, 250, 60, 70];
    let first = PixelSort::new(
        gray_image(&[&row]),
        full_mask(6, 1),
        PixelRange::Threshold(Threshold { lower: 200, upper: 850 }),
        SortKey::Lightness,
    )
        .sort();
    assert_eq!(row_values(&first, 0), vec![200, 210, 216, 60, 70, 250]);
    let second = PixelSort::new(
        gray_image(&[&[200, 210, 216, 60, 70, 250]]),
        full_mask(6, 1),
        PixelRange::Threshold(Threshold { lower: 200, upper: 850 }),
        SortKey::Lightness,
    )
        .sort();
    assert_eq!(row_values(&second, 0), vec![60, 70, 200, 210, 216, 250]);
    assert_ne!(row_values(&second, 0), row_values(&first, 0));
}
