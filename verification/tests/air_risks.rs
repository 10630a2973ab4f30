use risk_corridors::air_risks::{AirRiskInstance, AirRiskTally};
use risk_corridors::bicriteria_dijkstra::{Path, Weight};
use risk_corridors::coord::Coord;
use risk_corridors::risks::RiskMap;

fn c(x: i16, y: i16) -> Coord<i16> {
    Coord { x, y }
}

fn path_through(cells: Vec<Coord<i16>>) -> Path {
    Path {
        path: cells,
        linear_combination_weight: 0,
        risk: 0,
        length_m: 0,
        alpha: Weight { num: 0, den: 1 },
    }
}

fn grid() -> AirRiskInstance {
    AirRiskInstance::new(
        vec![vec![1, 2, 3, 4], vec![10, 20, 30, 40], vec![100, 200, 300, 400]],
        672,
    )
}

#[test]
fn new_keeps_the_grid_and_the_time_span() {
    let instance = grid();
    assert_eq!(instance.map[2][1], 200);
    assert_eq!(instance.total_time_s, 672);
}

#[test]
fn air_risk_is_summed_along_the_lines_of_the_path() {
    let instance = grid();
    let path = path_through(vec![c(0, 0), c(2, 2), c(2, 3)]);
    assert_eq!(
        instance.compute_air_risk(&path),
        Some(AirRiskTally { risk: 1 + 20 + 300, samples: 3 })
    );
}

#[test]
fn line_leaves_out_its_far_end() {
    let instance = grid();
    let path = path_through(vec![c(2, 0), c(0, 0)]);
    assert_eq!(
        instance.compute_air_risk(&path),
        Some(AirRiskTally { risk: 100 + 10, samples: 2 })
    );
    assert_eq!(instance.sum_along(&vec![(0, 3), (1, 3), (2, 3)]), Some(4 + 40 + 400));
}

#[test]
fn path_without_an_edge_has_no_samples() {
    let instance = grid();
    assert_eq!(
        instance.compute_air_risk(&path_through(vec![c(1, 1)])),
        Some(AirRiskTally { risk: 0, samples: 0 })
    );
    assert_eq!(
        instance.compute_air_risk(&path_through(vec![])),
        Some(AirRiskTally { risk: 0, samples: 0 })
    );
}

#[test]
fn point_off_the_grid_gives_no_tally() {
    let instance = grid();
    assert_eq!(instance.compute_air_risk(&path_through(vec![c(0, 0), c(0, 6)])), None);
    assert_eq!(instance.compute_air_risk(&path_through(vec![c(3, 0), c(1, 0)])), None);
    assert_eq!(instance.compute_air_risk(&path_through(vec![c(-1, 0), c(1, 0)])), None);
    assert_eq!(instance.sum_along(&vec![(0, 0), (0, 4)]), None);
}

#[test]
fn aerial_grid_fits_a_risk_map_of_the_transposed_size() {
    let instance = grid();
    let fitting = RiskMap { map: vec![vec![0; 3]; 4], m_per_pixel: 10_000_000, offset: 0 };
    let other = RiskMap { map: vec![vec![0; 4]; 3], m_per_pixel: 10_000_000, offset: 0 };
    let empty = RiskMap { map: vec![], m_per_pixel: 10_000_000, offset: 0 };
    assert!(instance.fits(&fitting));
    assert!(!instance.fits(&other));
    assert!(!instance.fits(&empty));
}
