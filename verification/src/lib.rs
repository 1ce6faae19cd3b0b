//! Wave function collapse on two-dimensional grids.
//!
//! A front-end turns an example image or a set of tiles into a table that says
//! which patterns may stand next to which; the solver then fills a grid so that
//! every pair of neighbouring cells agrees with that table.

pub mod direction;
pub mod overlapping_wfc;
pub mod propagator;
pub mod tile;
pub mod tiling_wfc;
pub mod utils;
pub mod wave;
pub mod wfc;
