//! Column-strip rendering of an escape-time fractal: the image width is split
//! into equal column ranges, one per worker, each column is turned into colours,
//! and the finished columns are placed into the output raster by their index.

pub mod color;
pub mod column;
pub mod partition;
pub mod raster;
