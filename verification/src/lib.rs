//! Risk-aware flight corridors over a two-dimensional risk-density grid.
//!
//! The library rasterises the corridor swept between two grid points, sums the
//! ground risk under it, and searches the grid for paths that trade accumulated
//! risk against length. All geometry is carried out in exact fixed-point
//! arithmetic, so every result is pinned down by a mathematical model.
//!
//! Sub-pixel positions count ten million units to the pixel, and lengths ten
//! million units to the metre. A weight of risk against length is a ratio of
//! two whole numbers, so that the cost of a path is a whole number too.
//!
//! Paths are stored from the destination back to the origin. A frontier runs
//! from the shortest path to the safest one.

pub mod air_risks;
pub mod bicriteria_dijkstra;
pub mod coord;
pub mod corridor;
pub mod fixed;
pub mod grid;
pub mod pareto;
pub mod raster;
pub mod regularity;
pub mod risks;
pub mod search_state;
pub mod trusted;
