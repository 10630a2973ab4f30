use risk_corridors::bicriteria_dijkstra::{
    BicriteriaDijkstraInstance, Path, SearchError, Weight,
};
use risk_corridors::coord::Coord;
use risk_corridors::raster::GeometryError;
use risk_corridors::risks::{ConfigError, RiskMap};

const METRE: u64 = 10_000_000;

fn c(x: i16, y: i16) -> Coord<i16> {
    Coord { x, y }
}

fn walled_map() -> RiskMap {
    let mut map = vec![vec![1; 7]; 7];
    for row in map.iter_mut().take(6) {
        row[3] = 500;
    }
    RiskMap { map, m_per_pixel: METRE, offset: 0 }
}

fn resum(instance: &BicriteriaDijkstraInstance, path: &Path) -> (u128, u128) {
    let mut risk: u128 = 0;
    let mut length: u128 = 0;
    for pair in path.path.windows(2) {
        risk += instance.risk_map.risk(pair[1], pair[0], instance.r_m).unwrap() as u128;
        length += instance.risk_map.length_m(pair[1], pair[0]) as u128;
    }
    (risk, length)
}

#[test]
fn shortest_path_on_a_flat_map_is_the_straight_line() {
    let map = RiskMap { map: vec![vec![1; 5]; 5], m_per_pixel: METRE, offset: 0 };
    let instance = BicriteriaDijkstraInstance::new(&map, c(0, 2), c(4, 2), 1, METRE);
    assert_eq!(instance.validate(), Ok(()));
    let path = instance.run_with_alpha(Weight { num: 0, den: 1 }).unwrap();
    assert_eq!(path.path, vec![c(4, 2), c(3, 2), c(2, 2), c(1, 2), c(0, 2)]);
    assert_eq!(path.length_m, 4 * 10_000_001);
    assert_eq!(path.risk, 4 * 6);
    assert_eq!(path.linear_combination_weight, 4 * 10_000_001);
    assert_eq!(path.alpha, Weight { num: 0, den: 1 });
}

#[test]
fn path_from_a_cell_to_itself_has_no_edge() {
    let map = RiskMap { map: vec![vec![1; 5]; 5], m_per_pixel: METRE, offset: 0 };
    let instance = BicriteriaDijkstraInstance::new(&map, c(2, 2), c(2, 2), 1, METRE);
    let path = instance.run_with_alpha(Weight { num: 3, den: 1 }).unwrap();
    assert_eq!(path.path, vec![c(2, 2)]);
    assert_eq!(path.risk, 0);
    assert_eq!(path.length_m, 0);
    assert_eq!(path.linear_combination_weight, 0);
}

#[test]
fn unreachable_destination_is_reported() {
    let map = RiskMap { map: vec![vec![1; 5]; 5], m_per_pixel: METRE, offset: 0 };
    let instance = BicriteriaDijkstraInstance::new(&map, c(0, 0), c(4, 4), 0, METRE);
    assert_eq!(
        instance.run_with_alpha(Weight { num: 0, den: 1 }).err(),
        Some(SearchError::NoPathFound)
    );
    assert_eq!(instance.compute_pareto_apx_paths().err(), Some(SearchError::NoPathFound));
}

#[test]
fn weight_beyond_the_label_range_is_refused() {
    let map = RiskMap { map: vec![vec![1; 5]; 5], m_per_pixel: METRE, offset: 0 };
    let instance = BicriteriaDijkstraInstance::new(&map, c(0, 0), c(4, 4), 1, METRE);
    assert_eq!(
        instance.run_with_alpha(Weight { num: u128::MAX, den: 1 }).err(),
        Some(SearchError::Overflow)
    );
    assert_eq!(
        instance.run_with_alpha(Weight { num: 1, den: u128::MAX / 2 }).err(),
        Some(SearchError::Overflow)
    );
}

#[test]
fn end_points_outside_the_domain_are_refused() {
    let map = RiskMap { map: vec![vec![1; 5]; 5], m_per_pixel: METRE, offset: 1 };
    let outside = BicriteriaDijkstraInstance::new(&map, c(0, 0), c(3, 3), 1, METRE);
    assert_eq!(outside.validate(), Err(ConfigError::Endpoint));
    let inside = BicriteriaDijkstraInstance::new(&map, c(1, 1), c(3, 3), 1, METRE);
    assert_eq!(inside.validate(), Ok(()));
    let broken = RiskMap { map: vec![vec![1; 5]; 5], m_per_pixel: 0, offset: 1 };
    let unscaled = BicriteriaDijkstraInstance::new(&broken, c(1, 1), c(3, 3), 1, METRE);
    assert_eq!(unscaled.validate(), Err(ConfigError::Scale));
}

#[test]
fn risk_averse_path_goes_round_the_wall() {
    let map = walled_map();
    let instance = BicriteriaDijkstraInstance::new(&map, c(0, 0), c(6, 0), 1, METRE);
    let short = instance.run_with_alpha(Weight { num: 0, den: 1 }).unwrap();
    let safe = instance.run_with_alpha(Weight { num: 1_000_000_000_000, den: 1 }).unwrap();
    assert_eq!(short.length_m, 6 * 10_000_001);
    assert_eq!(short.path.len(), 7);
    assert!(safe.risk < short.risk);
    assert!(safe.length_m > short.length_m);
    assert_eq!(safe.path.first(), Some(&c(6, 0)));
    assert_eq!(safe.path.last(), Some(&c(0, 0)));
    assert!(safe.path.contains(&c(3, 6)));
    for path in [&short, &safe] {
        assert_eq!(resum(&instance, path), (path.risk, path.length_m));
        assert_eq!(
            path.linear_combination_weight,
            path.alpha.num * path.risk + path.alpha.den * path.length_m
        );
        for pair in path.path.windows(2) {
            assert!((pair[0].x - pair[1].x).abs() <= 1 && (pair[0].y - pair[1].y).abs() <= 1);
        }
    }
}

#[test]
fn path_under_a_weight_costs_no_more_than_either_extreme() {
    let map = walled_map();
    let instance = BicriteriaDijkstraInstance::new(&map, c(0, 0), c(6, 0), 2, METRE);
    let short = instance.run_with_alpha(Weight { num: 0, den: 1 }).unwrap();
    let safe = instance.run_with_alpha(Weight { num: 1_000_000_000_000, den: 1 }).unwrap();
    for (num, den) in [(1u128, 1u128), (10_000, 1), (1_000_000, 3), (20_000_000, 1)] {
        let between = instance.run_with_alpha(Weight { num, den }).unwrap();
        let cost = |p: &Path| num * p.risk + den * p.length_m;
        assert_eq!(between.linear_combination_weight, cost(&between));
        assert!(cost(&between) <= cost(&short));
        assert!(cost(&between) <= cost(&safe));
        assert!(short.length_m <= between.length_m);
        assert!(safe.risk <= between.risk);
    }
}

#[test]
fn frontier_runs_from_the_shortest_to_the_safest_path() {
    let map = walled_map();
    let instance = BicriteriaDijkstraInstance::new(&map, c(0, 0), c(6, 0), 1, METRE);
    let frontier = instance.compute_pareto_apx_paths().unwrap();
    assert!(frontier.len() >= 2);
    assert_eq!(frontier[0].alpha, Weight { num: 0, den: 1 });
    assert_eq!(frontier[frontier.len() - 1].alpha, Weight { num: 1_000_000_000_000, den: 1 });
    assert_eq!(frontier[0].length_m, 6 * 10_000_001);
    for pair in frontier.windows(2) {
        assert!(pair[0].risk > pair[1].risk);
        assert!(pair[0].length_m <= pair[1].length_m);
    }
    for pair in frontier[1..].windows(2) {
        assert!(pair[0].length_m < pair[1].length_m);
    }
    for path in &frontier {
        assert_eq!(resum(&instance, path), (path.risk, path.length_m));
        assert_eq!(path.path.first(), Some(&c(6, 0)));
        assert_eq!(path.path.last(), Some(&c(0, 0)));
    }
}

#[test]
fn frontier_of_a_flat_map_keeps_its_two_ends() {
    let map = RiskMap { map: vec![vec![0; 4]; 4], m_per_pixel: METRE, offset: 0 };
    let instance = BicriteriaDijkstraInstance::new(&map, c(0, 0), c(3, 0), 1, METRE);
    let frontier = instance.compute_pareto_apx_paths().unwrap();
    assert_eq!(frontier.len(), 2);
    assert_eq!(frontier[0].risk, 0);
    assert_eq!(frontier[1].risk, 0);
    assert_eq!(frontier[0].length_m, 3 * 10_000_001);
    assert_eq!(frontier[1].length_m, 3 * 10_000_001);
}

#[test]
fn frontier_gains_paths_between_its_ends() {
    let mut grid = vec![vec![0; 9]; 9];
    for (y, row) in grid.iter_mut().enumerate() {
        for (x, cell) in row.iter_mut().enumerate() {
            let dx = x as i32 - 4;
            let dy = y as i32 - 4;
            *cell = 40 - 4 * (dx * dx + dy * dy).min(10);
        }
    }
    let map = RiskMap { map: grid, m_per_pixel: METRE, offset: 0 };
    let instance = BicriteriaDijkstraInstance::new(&map, c(0, 4), c(8, 4), 1, METRE);
    let frontier = instance.compute_pareto_apx_paths().unwrap();
    assert!(frontier.len() > 2);
    for pair in frontier.windows(2) {
        assert!(pair[0].risk > pair[1].risk);
    }
    for path in &frontier[1..] {
        assert!(path.alpha.num >= 1);
    }
}

#[test]
fn corridors_of_short_steps_are_regular() {
    let map = walled_map();
    for limit in [-1, 0, 1, 2, 5] {
        let instance = BicriteriaDijkstraInstance::new(&map, c(0, 0), c(6, 0), limit, 3 * METRE);
        assert!(instance.corridors_regular());
    }
}

#[test]
fn corridor_of_a_long_shallow_step_is_not_regular() {
    let map = RiskMap { map: vec![vec![1; 2002]; 2], m_per_pixel: METRE, offset: 0 };
    let near = BicriteriaDijkstraInstance::new(&map, c(0, 0), c(2001, 1), 1999, METRE);
    assert!(near.corridors_regular());
    let far = BicriteriaDijkstraInstance::new(&map, c(0, 0), c(2001, 1), 2000, METRE);
    assert!(!far.corridors_regular());
    assert_eq!(
        far.run_with_alpha(Weight { num: 1, den: 1 }).err(),
        Some(SearchError::Geometry(GeometryError::Degenerate))
    );
    assert_eq!(
        far.compute_pareto_apx_paths().err(),
        Some(SearchError::Geometry(GeometryError::Degenerate))
    );
}

#[test]
fn corridor_wider_than_the_limit_is_not_regular() {
    let map = walled_map();
    let wide = BicriteriaDijkstraInstance::new(&map, c(0, 0), c(6, 0), 1, 65_536 * METRE);
    assert!(!wide.corridors_regular());
    assert_eq!(
        wide.run_with_alpha(Weight { num: 1, den: 1 }).err(),
        Some(SearchError::Geometry(GeometryError::TooWide))
    );
    let alone = RiskMap { map: vec![vec![1]], m_per_pixel: METRE, offset: 0 };
    let still = BicriteriaDijkstraInstance::new(&alone, c(0, 0), c(0, 0), 1, 65_536 * METRE);
    assert!(still.corridors_regular());
}

#[test]
fn origin_first_turns_the_path_round() {
    let map = RiskMap { map: vec![vec![1; 5]; 5], m_per_pixel: METRE, offset: 0 };
    let instance = BicriteriaDijkstraInstance::new(&map, c(0, 2), c(4, 2), 1, METRE);
    let path = instance.run_with_alpha(Weight { num: 0, den: 1 }).unwrap();
    assert_eq!(path.origin_first(), vec![c(0, 2), c(1, 2), c(2, 2), c(3, 2), c(4, 2)]);
}
