use pico::raster::{Grid, Pixel};

fn px(v: u8) -> Pixel {
    Pixel { r: v, g: 0, b: 0, a: 255 }
}

fn image_2x3() -> Grid<Pixel> {
    // Width 2, height 3: values row by row.
    Grid::from_rows(2, vec![vec![px(1), px(2)], vec![px(3), px(4)], vec![px(5), px(6)]])
}

fn cells(g: &Grid<Pixel>) -> Vec<Vec<u8>> {
    (0..g.height()).map(|y| (0..g.width()).map(|x| g.get(x, y).r).collect()).collect()
}

#[test]
fn rotate90_turns_rows_into_columns() {
    let g = image_2x3();
    let r = g.rotate90();
    assert_eq!(r.width(), 3);
    assert_eq!(r.height(), 2);
    assert_eq!(cells(&r), vec![vec![5, 3, 1], vec![6, 4, 2]]);
}

#[test]
fn rotate180_reverses_rows_and_columns() {
    let g = image_2x3();
    let r = g.rotate180();
    assert_eq!(cells(&r), vec![vec![6, 5], vec![4, 3], vec![2, 1]]);
}

#[test]
fn rotate270_is_the_inverse_quarter_turn() {
    let g = image_2x3();
    let r = g.rotate270();
    assert_eq!(r.width(), 3);
    assert_eq!(r.height(), 2);
    assert_eq!(cells(&r), vec![vec![2, 4, 6], vec![1, 3, 5]]);
}

#[test]
fn rotate90_then_270_restores_the_image() {
    let g = image_2x3();
    let round = g.rotate90().rotate270();
    assert_eq!(cells(&round), cells(&g));
}

#[test]
fn rotate180_twice_restores_the_image() {
    let g = image_2x3();
    let round = g.rotate180().rotate180();
    assert_eq!(cells(&round), cells(&g));
}

#[test]
fn mask_rotation_matches_pixel_rotation() {
    let m: Grid<u8> = Grid::from_rows(2, vec![vec![1, 2], vec![3, 4], vec![5, 6]]);
    let r = m.rotate90();
    let got: Vec<Vec<u8>> =
        (0..r.height()).map(|y| (0..r.width()).map(|x| r.get(x, y)).collect()).collect();
    assert_eq!(got, vec![vec![5, 3, 1], vec![6, 4, 2]]);
}
