use risk_corridors::coord::Coord;
use risk_corridors::fixed::{ceil_div, floor_div, isqrt, round_div, saturate16};
use risk_corridors::grid::BlockCursor;
use risk_corridors::raster::{classify_corners, get_max_y, get_min_y, Topology};

const ONE: i64 = 10_000_000;

fn at(x: i64, y: i64) -> Coord<i64> {
    Coord { x, y }
}

#[test]
fn integer_square_root_rounds_down() {
    assert_eq!(isqrt(0), 0);
    assert_eq!(isqrt(1), 1);
    assert_eq!(isqrt(24), 4);
    assert_eq!(isqrt(25), 5);
    assert_eq!(isqrt(26), 5);
    assert_eq!(isqrt(1_000_000_000_000_000_000_000_000), 1_000_000_000_000);
    assert_eq!(isqrt(u128::MAX), 18_446_744_073_709_551_615);
}

#[test]
fn division_rounds_as_named() {
    assert_eq!(floor_div(7, 2), 3);
    assert_eq!(floor_div(-7, 2), -4);
    assert_eq!(floor_div(-8, 2), -4);
    assert_eq!(floor_div(0, 5), 0);
    assert_eq!(ceil_div(7, 2), 4);
    assert_eq!(ceil_div(-7, 2), -3);
    assert_eq!(ceil_div(8, 2), 4);
    assert_eq!(round_div(7, 2), 4);
    assert_eq!(round_div(-7, 2), -4);
    assert_eq!(round_div(5, 10), 1);
    assert_eq!(round_div(-5, 10), -1);
    assert_eq!(round_div(4, 10), 0);
    assert_eq!(round_div(-4, 10), 0);
    assert_eq!(round_div(14, 10), 1);
    assert_eq!(round_div(16, 10), 2);
}

#[test]
fn values_saturate_at_the_cell_range() {
    assert_eq!(saturate16(0), 0);
    assert_eq!(saturate16(32_767), 32_767);
    assert_eq!(saturate16(32_768), 32_767);
    assert_eq!(saturate16(-32_768), -32_768);
    assert_eq!(saturate16(-32_769), -32_768);
    assert_eq!(saturate16(i128::MAX), 32_767);
}

#[test]
fn rising_edge_is_sampled_at_the_near_rim_of_the_column() {
    let p0 = at(0, 0);
    let p1 = at(4 * ONE, 2 * ONE);
    assert_eq!(get_min_y(&p0, &p1, 0), 0);
    assert_eq!(get_min_y(&p0, &p1, 1), 0);
    assert_eq!(get_min_y(&p0, &p1, 2), 1);
    assert_eq!(get_min_y(&p0, &p1, 3), 1);
    assert_eq!(get_min_y(&p0, &p1, 4), 2);
    assert_eq!(get_max_y(&p0, &p1, 0), 0);
    assert_eq!(get_max_y(&p0, &p1, 1), 1);
    assert_eq!(get_max_y(&p0, &p1, 2), 1);
    assert_eq!(get_max_y(&p0, &p1, 3), 2);
    assert_eq!(get_max_y(&p0, &p1, 4), 2);
}

#[test]
fn falling_edge_is_sampled_at_the_far_rim_of_the_column() {
    let p0 = at(0, 2 * ONE);
    let p1 = at(2 * ONE, 0);
    assert_eq!(get_min_y(&p0, &p1, 0), 2);
    assert_eq!(get_min_y(&p0, &p1, 1), 1);
    assert_eq!(get_min_y(&p0, &p1, 2), 0);
    assert_eq!(get_max_y(&p0, &p1, 0), 2);
    assert_eq!(get_max_y(&p0, &p1, 1), 1);
    assert_eq!(get_max_y(&p0, &p1, 2), 0);
}

#[test]
fn upright_edge_gives_the_floor_and_the_ceiling_of_its_ends() {
    let p0 = at(3 * ONE, ONE + 1);
    let p1 = at(3 * ONE + 99, 4 * ONE + 1);
    assert_eq!(get_min_y(&p0, &p1, 3), 1);
    assert_eq!(get_max_y(&p0, &p1, 3), 5);
    let below = at(0, -ONE - 1);
    assert_eq!(get_min_y(&below, &below, 0), -2);
    assert_eq!(get_max_y(&below, &below, 0), -1);
}

#[test]
fn bounds_far_off_the_grid_saturate() {
    let p0 = at(0, 0);
    let p1 = at(100, 1_000_000_000_000);
    assert_eq!(get_max_y(&p0, &p1, 3), 32_767);
    assert_eq!(get_min_y(&p1, &p0, -3), 32_767);
    assert_eq!(get_min_y(&p0, &p1, -3), 0);
    let deep = at(100, -1_000_000_000_000);
    assert_eq!(get_min_y(&p0, &deep, 3), -32_768);
}

#[test]
fn corners_are_classified_by_role() {
    let quad = classify_corners(at(3 * ONE, 0), at(0, 2 * ONE), at(2 * ONE, 2 * ONE), at(ONE, 0));
    assert_eq!(quad.l, at(0, 2 * ONE));
    assert_eq!(quad.b, at(ONE, 0));
    assert_eq!(quad.t, at(2 * ONE, 2 * ONE));
    assert_eq!(quad.r, at(3 * ONE, 0));
    assert_eq!(quad.shape(), Topology::LeanRight);
    assert!(!quad.is_degenerate());
    assert_eq!(quad.y_range(0), (1, 2));
    assert_eq!(quad.y_range(1), (0, 2));
    assert_eq!(quad.y_range(3), (0, 1));

    let leaning = classify_corners(at(0, 0), at(ONE, ONE), at(2 * ONE, 0), at(3 * ONE, ONE));
    assert_eq!(leaning.shape(), Topology::LeanLeft);
    let diamond = classify_corners(at(0, ONE), at(ONE, 0), at(ONE, ONE), at(2 * ONE, 0));
    assert_eq!(diamond.shape(), Topology::Diamond);
    let flat = classify_corners(at(0, 0), at(0, 0), at(2 * ONE, 0), at(2 * ONE, 0));
    assert_eq!(flat.shape(), Topology::Flat);
}

#[test]
fn block_cursor_walks_row_by_row() {
    let mut cursor = BlockCursor::new(-1, 0, 5, 6);
    let mut seen = vec![];
    while let Some(cell) = cursor.next() {
        seen.push((cell.x, cell.y));
    }
    assert_eq!(seen, vec![(-1, 5), (0, 5), (-1, 6), (0, 6)]);
    assert!(cursor.next().is_none());
    assert!(BlockCursor::new(1, 0, 0, 3).next().is_none());
    assert!(BlockCursor::new(0, 3, 1, 0).next().is_none());
}
