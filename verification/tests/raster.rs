use risk_corridors::coord::Coord;
use risk_corridors::raster::{GeometryError, ParallelogramPixels};

const ONE: i64 = 10_000_000;

fn px(x: i64, y: i64) -> Coord<i64> {
    Coord { x: x * ONE, y: y * ONE }
}

fn at(x: f64, y: f64) -> Coord<i64> {
    Coord { x: (x * ONE as f64).round() as i64, y: (y * ONE as f64).round() as i64 }
}

fn cells(pp: &ParallelogramPixels) -> Vec<Coord<i16>> {
    let mut cursor = pp.iter().expect("the shape can be rasterised");
    let mut pixels: Vec<Coord<i16>> = vec![];
    while let Some(coord) = cursor.next() {
        pixels.push(coord);
    }
    pixels
}

fn c(x: i16, y: i16) -> Coord<i16> {
    Coord { x, y }
}

#[test]
fn test_simple_rectangle() {
    let pp = ParallelogramPixels {
        origin_side: (px(0, 0), px(0, 3)),
        destination_side: (px(2, 0), px(2, 3)),
    };
    let pixels = cells(&pp);
    assert_eq!(pixels.len(), 12);
    assert_eq!(
        pixels,
        vec![
            c(0, 0), c(0, 1), c(0, 2), c(0, 3), c(1, 0), c(1, 1), c(1, 2), c(1, 3), c(2, 0),
            c(2, 1), c(2, 2), c(2, 3),
        ]
    );
}

#[test]
fn test_left_to_right_parallelogram() {
    let pp = ParallelogramPixels {
        origin_side: (px(0, 0), px(1, 1)),
        destination_side: (px(2, 0), px(3, 1)),
    };
    let pixels = cells(&pp);
    assert_eq!(pixels.len(), 6);
    assert_eq!(pixels, vec![c(0, 0), c(1, 0), c(1, 1), c(2, 0), c(2, 1), c(3, 1)]);
}

#[test]
fn test_rhombus() {
    let pp = ParallelogramPixels {
        origin_side: (px(0, 0), px(2, 1)),
        destination_side: (px(2, 0), px(4, 1)),
    };
    let pixels = cells(&pp);
    assert_eq!(pixels.len(), 8);
    assert_eq!(
        pixels,
        vec![c(0, 0), c(1, 0), c(1, 1), c(2, 0), c(2, 1), c(3, 0), c(3, 1), c(4, 1)]
    );
}

#[test]
fn test_rhombus_the_other_way() {
    let pp = ParallelogramPixels {
        origin_side: (px(0, 1), px(1, 0)),
        destination_side: (px(1, 1), px(2, 0)),
    };
    let pixels = cells(&pp);
    assert_eq!(pixels.len(), 4);
    assert_eq!(pixels, vec![c(0, 1), c(1, 0), c(1, 1), c(2, 0)]);
}

#[test]
fn test_right_to_left_parallelogram() {
    let pp = ParallelogramPixels {
        origin_side: (px(0, 2), px(1, 0)),
        destination_side: (px(3, 0), px(2, 2)),
    };
    let pixels = cells(&pp);
    assert_eq!(pixels.len(), 10);
    assert_eq!(
        pixels,
        vec![
            c(0, 1), c(0, 2), c(1, 0), c(1, 1), c(1, 2), c(2, 0), c(2, 1), c(2, 2), c(3, 0),
            c(3, 1),
        ]
    );
}

#[test]
fn test_vertical_sides() {
    let pp = ParallelogramPixels {
        origin_side: (px(0, 0), px(0, 2)),
        destination_side: (px(1, 2), px(1, 4)),
    };
    let pixels = cells(&pp);
    assert_eq!(pixels.len(), 8);
    assert_eq!(
        pixels,
        vec![c(0, 0), c(0, 1), c(0, 2), c(0, 3), c(1, 1), c(1, 2), c(1, 3), c(1, 4)]
    );
}

#[test]
fn test_left_to_right_narrow() {
    let pp = ParallelogramPixels {
        origin_side: (px(0, 2), px(1, 2)),
        destination_side: (px(2, 0), px(3, 0)),
    };
    let pixels = cells(&pp);
    assert_eq!(pixels.len(), 6);
    assert_eq!(pixels, vec![c(0, 2), c(1, 1), c(1, 2), c(2, 0), c(2, 1), c(3, 0)]);
}

#[test]
fn test_left_to_right_narrow_2() {
    let pp = ParallelogramPixels {
        origin_side: (px(0, 3), px(1, 3)),
        destination_side: (px(2, 0), px(3, 0)),
    };
    let pixels = cells(&pp);
    assert_eq!(pixels.len(), 10);
    assert_eq!(
        pixels,
        vec![
            c(0, 2), c(0, 3), c(1, 1), c(1, 2), c(1, 3), c(2, 0), c(2, 1), c(2, 2), c(3, 0),
            c(3, 1),
        ]
    );
}

#[test]
fn test_right_to_left() {
    let pp = ParallelogramPixels {
        origin_side: (px(0, 0), px(1, 0)),
        destination_side: (px(2, 3), px(3, 3)),
    };
    let pixels = cells(&pp);
    assert_eq!(pixels.len(), 10);
    assert_eq!(
        pixels,
        vec![
            c(0, 0), c(0, 1), c(1, 0), c(1, 1), c(1, 2), c(2, 1), c(2, 2), c(2, 3), c(3, 2),
            c(3, 3),
        ]
    );
}

#[test]
fn test_right_to_left_2() {
    let pp = ParallelogramPixels {
        origin_side: (px(0, 0), px(1, 0)),
        destination_side: (px(2, 2), px(3, 2)),
    };
    let pixels = cells(&pp);
    assert_eq!(pixels.len(), 6);
    assert_eq!(pixels, vec![c(0, 0), c(1, 0), c(1, 1), c(2, 1), c(2, 2), c(3, 2)]);
}

#[test]
fn test_rectangles() {
    let pp = ParallelogramPixels {
        origin_side: (px(0, 0), px(1, 2)),
        destination_side: (px(5, 0), px(4, -2)),
    };
    let pixels = cells(&pp);
    assert_eq!(pixels.len(), 20);
    assert_eq!(
        pixels,
        vec![
            c(0, 0), c(0, 1), c(1, -1), c(1, 0), c(1, 1), c(1, 2), c(2, -1), c(2, 0), c(2, 1),
            c(2, 2), c(3, -2), c(3, -1), c(3, 0), c(3, 1), c(4, -2), c(4, -1), c(4, 0), c(4, 1),
            c(5, -1), c(5, 0),
        ]
    );
}

#[test]
fn test_rectangles_2() {
    let pp = ParallelogramPixels {
        origin_side: (px(1, 0), px(0, 2)),
        destination_side: (px(5, 2), px(4, 4)),
    };
    let pixels = cells(&pp);
    assert_eq!(pixels.len(), 20);
    assert_eq!(
        pixels,
        vec![
            c(0, 1), c(0, 2), c(1, 0), c(1, 1), c(1, 2), c(1, 3), c(2, 0), c(2, 1), c(2, 2),
            c(2, 3), c(3, 1), c(3, 2), c(3, 3), c(3, 4), c(4, 1), c(4, 2), c(4, 3), c(4, 4),
            c(5, 2), c(5, 3),
        ]
    );
}

#[test]
fn test_parallelogram_pixels_bug() {
    let pp = ParallelogramPixels::new(
        (at(160.0, 61.0), at(200.0, 60.99999999999999)),
        (at(160.0, 57.0), at(200.0, 56.99999999999999)),
    );
    let pixels = cells(&pp);
    let mut expected: Vec<Coord<i16>> = vec![];
    for x in 160..=200 {
        for y in 57..=61 {
            expected.push(c(x, y));
        }
    }
    assert_eq!(pixels, expected);
}

#[test]
fn corners_a_hair_off_the_pixel_are_snapped_before_the_scan() {
    let pp = ParallelogramPixels::new(
        (Coord { x: 160 * ONE, y: 61 * ONE }, Coord { x: 200 * ONE, y: 61 * ONE - 999 }),
        (Coord { x: 160 * ONE, y: 57 * ONE }, Coord { x: 200 * ONE, y: 57 * ONE - 999 }),
    );
    let pixels = cells(&pp);
    assert_eq!(pixels.len(), 41 * 5);
    assert_eq!(pixels[0], c(160, 57));
    assert_eq!(pixels[4], c(160, 61));
    assert_eq!(pixels[204], c(200, 61));
}

#[test]
fn corners_within_the_tolerance_are_snapped() {
    let pp = ParallelogramPixels::new(
        (Coord { x: 999, y: -999 }, Coord { x: 3 * ONE - 999, y: 1_000 }),
        (Coord { x: ONE + 1_000, y: 2 * ONE - 1_000 }, Coord { x: 0, y: 5 * ONE + 500 }),
    );
    assert_eq!(pp.origin_side.0, px(0, 0));
    assert_eq!(pp.origin_side.1, Coord { x: 3 * ONE, y: 1_000 });
    assert_eq!(pp.destination_side.0, Coord { x: ONE + 1_000, y: 2 * ONE - 1_000 });
    assert_eq!(pp.destination_side.1, px(0, 5));
}

#[test]
fn nearly_singular_shape_is_refused() {
    let pp = ParallelogramPixels {
        origin_side: (px(0, 2), Coord { x: 5_000, y: 0 }),
        destination_side: (px(4, 3), Coord { x: 4 * ONE + 5_000, y: ONE }),
    };
    assert_eq!(pp.iter().err(), Some(GeometryError::Degenerate));
}

#[test]
fn corner_outside_the_extent_is_refused() {
    let pp = ParallelogramPixels {
        origin_side: (px(0, 0), px(0, 3)),
        destination_side: (px(2, 0), Coord { x: 2 * ONE, y: 1_000_000_000_001 }),
    };
    assert_eq!(pp.iter().err(), Some(GeometryError::OutOfRange));
}

#[test]
fn swapping_the_sides_keeps_the_cells() {
    let forward = ParallelogramPixels {
        origin_side: (px(0, 0), px(1, 2)),
        destination_side: (px(5, 0), px(4, -2)),
    };
    let backward = ParallelogramPixels {
        origin_side: (px(4, -2), px(5, 0)),
        destination_side: (px(1, 2), px(0, 0)),
    };
    assert_eq!(cells(&forward), cells(&backward));
}

#[test]
fn shape_collapsed_onto_an_upright_line_covers_one_column() {
    let pp = ParallelogramPixels {
        origin_side: (at(3.3, 1.2), at(3.3, 4.6)),
        destination_side: (at(3.3, 2.0), at(3.3, 0.4)),
    };
    assert_eq!(cells(&pp), vec![c(3, 0), c(3, 1), c(3, 2)]);
    let whole = ParallelogramPixels {
        origin_side: (px(3, 1), px(3, 4)),
        destination_side: (px(3, 1), px(3, 4)),
    };
    assert_eq!(cells(&whole), vec![c(3, 1), c(3, 2), c(3, 3), c(3, 4)]);
}

#[test]
fn shape_collapsed_onto_a_level_line_covers_one_row() {
    let pp = ParallelogramPixels {
        origin_side: (at(0.2, 2.3), at(0.2, 2.3)),
        destination_side: (at(4.7, 2.3), at(4.7, 2.3)),
    };
    assert_eq!(cells(&pp), vec![c(0, 2), c(1, 2), c(2, 2), c(3, 2), c(4, 2)]);
}

#[test]
fn level_line_on_a_half_pixel_covers_no_cell() {
    let pp = ParallelogramPixels {
        origin_side: (at(0.0, 2.5), at(0.0, 2.5)),
        destination_side: (at(4.0, 2.5), at(4.0, 2.5)),
    };
    assert_eq!(cells(&pp), vec![]);
}
