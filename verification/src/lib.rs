//! Quadtree polygon tiler: decodes polygon shape records from a binary
//! buffer, assembles them into polygons with holes, clips them against
//! axis-aligned tile rectangles and simplifies them per zoom level.
//!
//! All coordinates are fixed-point integers in units of 1e-7 degree, so
//! every geometric operation is exact integer arithmetic.

pub mod assemble;
pub mod clip;
pub mod polygon;
pub mod shapefile;
pub mod simplify;
pub mod tile_build;
pub mod tiles;
pub mod ways;
pub mod geometry;
