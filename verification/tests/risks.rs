use risk_corridors::coord::Coord;
use risk_corridors::raster::GeometryError;
use risk_corridors::risks::{ConfigError, RiskMap};

const METRE: u64 = 10_000_000;

fn c(x: i16, y: i16) -> Coord<i16> {
    Coord { x, y }
}

fn flat_map(offset: i16) -> RiskMap {
    RiskMap {
        map: vec![vec![0, 0, 0, 0], vec![0, 0, 0, 0], vec![0, 0, 0, 0], vec![0, 0, 0, 0]],
        m_per_pixel: METRE,
        offset,
    }
}

fn neighbours(map: &RiskMap, p: Coord<i16>, limit: i16) -> Vec<Coord<i16>> {
    let mut coords: Vec<Coord<i16>> = vec![];
    let mut cursor = map.neighbours_within(p, limit);
    while let Some(coord) = cursor.next() {
        coords.push(coord);
    }
    coords
}

fn all_points(map: &RiskMap) -> Vec<Coord<i16>> {
    let mut coords: Vec<Coord<i16>> = vec![];
    let mut cursor = map.all_points_iterator();
    while let Some(coord) = cursor.next() {
        coords.push(coord);
    }
    coords
}

#[test]
fn test_neighbours_1() {
    let map = flat_map(0);
    let coords = neighbours(&map, c(0, 0), 2);
    assert_eq!(
        coords,
        vec![c(1, 0), c(2, 0), c(0, 1), c(1, 1), c(2, 1), c(0, 2), c(1, 2), c(2, 2)]
    );
}

#[test]
fn test_neighbours_2() {
    let map = flat_map(0);
    let coords = neighbours(&map, c(0, 0), 0);
    assert_eq!(coords, vec![]);
}

#[test]
fn test_neighbours_3() {
    let map = flat_map(0);
    let coords = neighbours(&map, c(2, 2), 1);
    assert_eq!(
        coords,
        vec![c(1, 1), c(2, 1), c(3, 1), c(1, 2), c(3, 2), c(1, 3), c(2, 3), c(3, 3)]
    );
}

#[test]
fn test_neighbours_4() {
    let map = flat_map(1);
    let coords = neighbours(&map, c(2, 2), 1);
    assert_eq!(coords, vec![c(1, 1), c(2, 1), c(1, 2)]);
}

#[test]
fn test_all_points_1() {
    let map = flat_map(0);
    let coords = all_points(&map);
    assert_eq!(
        coords,
        vec![
            c(0, 0), c(1, 0), c(2, 0), c(3, 0), c(0, 1), c(1, 1), c(2, 1), c(3, 1), c(0, 2),
            c(1, 2), c(2, 2), c(3, 2), c(0, 3), c(1, 3), c(2, 3), c(3, 3),
        ]
    );
}

#[test]
fn test_all_points_2() {
    let map = flat_map(1);
    let coords = all_points(&map);
    assert_eq!(coords, vec![c(1, 1), c(2, 1), c(1, 2), c(2, 2)]);
}

#[test]
fn neighbours_never_hold_the_centre_nor_leave_the_domain() {
    let map = RiskMap { map: vec![vec![1; 9]; 7], m_per_pixel: METRE, offset: 2 };
    for limit in 0..5 {
        for y in 2..5 {
            for x in 2..7 {
                let found = neighbours(&map, c(x, y), limit);
                for q in &found {
                    assert_ne!(*q, c(x, y));
                    assert!(2 <= q.x && q.x < 7 && 2 <= q.y && q.y < 5);
                    assert!((q.x - x).abs() <= limit && (q.y - y).abs() <= limit);
                }
                if limit == 0 {
                    assert!(found.is_empty());
                }
            }
        }
    }
}

#[test]
fn negative_limit_gives_no_neighbours() {
    let map = flat_map(0);
    assert_eq!(neighbours(&map, c(2, 2), -1), vec![]);
}

#[test]
fn all_points_number_height_times_width() {
    let map = RiskMap { map: vec![vec![1; 9]; 7], m_per_pixel: METRE, offset: 2 };
    let points = all_points(&map);
    assert_eq!(map.height(), 3);
    assert_eq!(map.width(), 5);
    assert_eq!(points.len(), 15);
    for (i, p) in points.iter().enumerate() {
        assert_eq!(*p, c(2 + (i % 5) as i16, 2 + (i / 5) as i16));
    }
}

#[test]
fn validation_names_the_first_fault() {
    assert_eq!(flat_map(0).validate(), Ok(()));
    assert_eq!(flat_map(1).validate(), Ok(()));
    assert_eq!(flat_map(2).validate(), Err(ConfigError::Offset));
    assert_eq!(flat_map(-1).validate(), Err(ConfigError::Offset));
    let empty = RiskMap { map: vec![], m_per_pixel: METRE, offset: 0 };
    assert_eq!(empty.validate(), Err(ConfigError::Shape));
    let ragged = RiskMap { map: vec![vec![0, 0], vec![0]], m_per_pixel: METRE, offset: 0 };
    assert_eq!(ragged.validate(), Err(ConfigError::Shape));
    let unscaled = RiskMap { map: vec![vec![0, 0]], m_per_pixel: 0, offset: 0 };
    assert_eq!(unscaled.validate(), Err(ConfigError::Scale));
    let negative = RiskMap { map: vec![vec![0, -1]], m_per_pixel: METRE, offset: 0 };
    assert_eq!(negative.validate(), Err(ConfigError::Risk));
}

#[test]
fn risk_at_reads_row_then_column() {
    let map = RiskMap { map: vec![vec![1, 2, 3], vec![4, 5, 6]], m_per_pixel: METRE, offset: 0 };
    assert_eq!(map.risk_at(c(2, 0)), 3);
    assert_eq!(map.risk_at(c(0, 1)), 4);
    assert_eq!(map.max_risk(), 6);
}

#[test]
fn length_is_the_scaled_distance_and_one_unit() {
    let map = flat_map(0);
    assert_eq!(map.length_m(c(0, 0), c(3, 0)), 30_000_001);
    assert_eq!(map.length_m(c(0, 0), c(0, 0)), 1);
    assert_eq!(map.length_m(c(3, 3), c(0, 0)), 42_426_407);
    let coarse = RiskMap { map: vec![vec![0; 4]; 4], m_per_pixel: 152_671_756, offset: 0 };
    assert_eq!(coarse.length_m(c(0, 0), c(3, 2)), 550_465_844 + 1);
}

#[test]
fn corridor_sides_stand_perpendicular_to_the_segment() {
    let sides = RiskMap::parallelogram_from_two_points(c(1, 1), c(3, 1), METRE, METRE).unwrap();
    assert_eq!(sides.0 .0, Coord { x: 10_000_000, y: 20_000_000 });
    assert_eq!(sides.0 .1, Coord { x: 10_000_000, y: 0 });
    assert_eq!(sides.1 .0, Coord { x: 30_000_000, y: 20_000_000 });
    assert_eq!(sides.1 .1, Coord { x: 30_000_000, y: 0 });
    let tilted = RiskMap::parallelogram_from_two_points(c(0, 0), c(3, 4), 5 * METRE, METRE).unwrap();
    assert_eq!(tilted.0 .0, Coord { x: -40_000_000, y: 30_000_000 });
    assert_eq!(tilted.0 .1, Coord { x: 40_000_000, y: -30_000_000 });
    let still = RiskMap::parallelogram_from_two_points(c(2, 2), c(2, 2), 2 * METRE, METRE).unwrap();
    assert_eq!(still.0 .0, Coord { x: 20_000_000, y: 40_000_000 });
    assert_eq!(still.1 .1, Coord { x: 20_000_000, y: 0 });
}

#[test]
fn half_width_is_rounded_up_to_whole_pixels() {
    let sides = RiskMap::parallelogram_from_two_points(c(0, 0), c(2, 0), METRE + 1, METRE).unwrap();
    assert_eq!(sides.0 .0, Coord { x: 0, y: 20_000_000 });
    assert_eq!(
        RiskMap::parallelogram_from_two_points(c(0, 0), c(2, 0), 65_536 * METRE, METRE),
        Err(GeometryError::TooWide)
    );
}

#[test]
fn risk_sums_the_valid_cells_under_the_corridor() {
    let map = RiskMap {
        map: vec![
            vec![1, 2, 3, 4, 5],
            vec![6, 7, 8, 9, 10],
            vec![11, 12, 13, 14, 15],
            vec![16, 17, 18, 19, 20],
            vec![21, 22, 23, 24, 25],
        ],
        m_per_pixel: METRE,
        offset: 0,
    };
    assert_eq!(map.risk(c(1, 1), c(3, 1), METRE), Ok(2 + 3 + 4 + 7 + 8 + 9 + 12 + 13 + 14));
    assert_eq!(map.risk(c(3, 1), c(1, 1), METRE), Ok(2 + 3 + 4 + 7 + 8 + 9 + 12 + 13 + 14));
    assert_eq!(map.risk(c(0, 0), c(1, 0), METRE), Ok(1 + 2 + 6 + 7));
    let framed = RiskMap { map: map.map.clone(), m_per_pixel: METRE, offset: 1 };
    assert_eq!(framed.risk(c(1, 1), c(3, 1), METRE), Ok(7 + 8 + 9 + 12 + 13 + 14));
    assert_eq!(map.risk(c(1, 1), c(3, 1), 70_000 * METRE), Err(GeometryError::TooWide));
}

#[test]
fn risk_of_a_nearly_singular_corridor_is_refused() {
    let map = flat_map(0);
    assert_eq!(map.risk(c(0, 0), c(2000, 1), METRE), Err(GeometryError::Degenerate));
    assert_eq!(map.risk(c(0, 0), c(1999, 1), METRE), Ok(0));
}

#[test]
fn risk_does_not_depend_on_the_direction() {
    let map = RiskMap {
        map: (0..9).map(|y| (0..9).map(|x| (x * x + 3 * y) % 17).collect()).collect(),
        m_per_pixel: 7 * METRE / 3,
        offset: 1,
    };
    for (a, b) in [(c(1, 1), c(6, 4)), (c(2, 7), c(5, 3)), (c(4, 4), c(4, 7)), (c(7, 2), c(1, 2))] {
        assert_eq!(map.risk(a, b, 5 * METRE), map.risk(b, a, 5 * METRE));
        assert_eq!(map.length_m(a, b), map.length_m(b, a));
    }
}
