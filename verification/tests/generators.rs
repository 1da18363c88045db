use pico::pixel_sort::interval;
use pico::pixel_sort::range::{Random, Wave};
use pico::raster::{Grid, Pixel};

fn blank(width: usize, height: usize) -> Grid<Pixel> {
    let p = Pixel { r: 0, g: 0, b: 0, a: 255 };
    Grid::from_rows(width, (0..height).map(|_| vec![p; width]).collect())
}

#[test]
fn random_ranges_are_strictly_ascending_and_in_bounds() {
    let img = blank(64, 8);
    let ranges = Random { scale: 9 }.create_pixel_ranges(&img);
    assert_eq!(ranges.len(), 8);
    for row in &ranges {
        for pair in row.windows(2) {
            assert!(pair[0] < pair[1]);
        }
        for b in row {
            assert!(*b < 64);
        }
    }
}

#[test]
fn random_ranges_follow_the_stride_bounds() {
    // With a scale of 9 in a 64-wide row: at least one boundary, the first
    // below 9, consecutive boundaries at most 8 apart, and the last within
    // 8 of the row width.
    let img = blank(64, 8);
    let ranges = Random { scale: 9 }.create_pixel_ranges(&img);
    for row in &ranges {
        assert!(!row.is_empty());
        assert!(row[0] < 9);
        for pair in row.windows(2) {
            assert!(pair[1] - pair[0] <= 8);
        }
        assert!(64 - row[row.len() - 1] <= 8);
    }
}

#[test]
fn random_with_unit_scale_marks_every_column() {
    // With a scale of one every draw is zero, so the walk starts at zero
    // and advances one column at a time.
    let img = blank(5, 2);
    let ranges = Random { scale: 1 }.create_pixel_ranges(&img);
    assert_eq!(ranges, vec![vec![0, 1, 2, 3, 4], vec![0, 1, 2, 3, 4]]);
}

#[test]
fn random_with_zero_scale_still_terminates() {
    let img = blank(6, 1);
    let ranges = Random { scale: 0 }.create_pixel_ranges(&img);
    assert_eq!(ranges, vec![vec![0, 1, 2, 3, 4, 5]]);
}

#[test]
fn wave_ranges_stride_by_scale_with_small_jitter() {
    // With a scale of 20 in a 100-wide row: at least one boundary, the
    // first and every stride in [20, 29], and the last boundary within 29
    // of the row width.
    let img = blank(100, 4);
    let ranges = Wave { scale: 20 }.create_pixel_ranges(&img);
    assert_eq!(ranges.len(), 4);
    for row in &ranges {
        assert!(!row.is_empty());
        let mut prev: Option<usize> = None;
        for b in row {
            assert!(*b < 100);
            if let Some(p) = prev {
                let stride = *b - p;
                assert!((20..30).contains(&stride));
            } else {
                assert!((20..30).contains(b));
            }
            prev = Some(*b);
        }
        assert!(100 - row[row.len() - 1] <= 29);
    }
}

#[test]
fn interval_random_marks_follow_the_stride_bounds() {
    // With a scale of 9 in a 64-wide row: at least one mark, the first at
    // most 8, every mark at least 1 and at most the width, gaps at most 8,
    // and the last mark within 8 of the width.
    let img = blank(64, 8);
    let ranges = interval::Random { scale: 9 }.create_intervals(&img);
    for row in &ranges {
        assert!(!row.is_empty());
        assert!(1 <= row[0] && row[0] <= 8);
        for pair in row.windows(2) {
            assert!(pair[1] - pair[0] <= 8);
        }
        for b in row {
            assert!(*b <= 64);
        }
        assert!(64 - row[row.len() - 1] <= 8);
    }
}

#[test]
fn interval_random_walks_from_zero_and_may_reach_the_width() {
    let img = blank(4, 3);
    let ranges = interval::Random { scale: 1 }.create_intervals(&img);
    assert_eq!(ranges, vec![vec![1, 2, 3, 4], vec![1, 2, 3, 4], vec![1, 2, 3, 4]]);
}

#[test]
fn interval_threshold_matches_range_threshold() {
    let v = [10u8, 200, 50, 220];
    let p = |x: u8| Pixel { r: x, g: x, b: x, a: 255 };
    let img = Grid::from_rows(4, vec![v.iter().map(|x| p(*x)).collect()]);
    let a = interval::Threshold { lower: 200, upper: 850 }.create_intervals(&img);
    let b = pico::pixel_sort::range::Threshold { lower: 200, upper: 850 }.create_pixel_ranges(
        &img,
    );
    assert_eq!(a, b);
    assert_eq!(a, vec![vec![0, 2, 3]]);
}
