//! Terrain-mesh synthesis from a raster elevation grid: the grid text is
//! parsed into exact decimal samples, one sample is assigned to each vertex of
//! a square vertex grid, and every vertex is classified on a hypsometric tint
//! ramp.
pub mod colorize;
pub mod decimal;
pub mod grid;
pub mod numeral;
pub mod terrain;
