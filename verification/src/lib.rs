//! Fits cubic Bezier curves to the dark pixels of a grayscale raster by
//! evolutionary search.
//!
//! Coordinates are whole pixels, so every contract in the crate is exact.
//! The caller supplies the raster and a table of Gaussian noise for the
//! mutations; the uniform random draws are made here.
//!
//! - `bezier`: points, curves and their sampling.
//! - `raster`: the grayscale image.
//! - `fitness`: the score of a curve on a raster.
//! - `ranking`: the order of scores from best to worst.
//! - `genetic`: initial population, selection, crossover and mutation.
//! - `solver`: the search for one segment and for a list of corners.
//! - `corner`: corners, their detection, and the division of the segments
//!   among workers.
//! - `export`: curves as the text of an SVG document.
//! - `random`: the draws taken from the `rand` crate.

pub mod bezier;
pub mod corner;
pub mod export;
pub mod fitness;
pub mod genetic;
pub mod random;
pub mod ranking;
pub mod raster;
pub mod solver;
