//! Verified core of the Karttapullautin map generator: the binary point-cloud
//! and heightmap formats, the tile processing planner, heightmap gap filling, contour
//! chaining and joining, palette handling, file selection for merging, and
//! timing bookkeeping.

pub mod io;
pub mod collections;
pub mod plan;
pub mod text;
pub mod contours;
pub mod raster;
pub mod palette;
pub mod merge;
pub mod util;
pub mod line_join;
pub mod grid_fill;
