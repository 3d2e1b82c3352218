//! Pixel-level visual regression comparison of raster images.

pub mod binary32;
pub mod compare;
pub mod dir;
pub mod dyadic;
pub mod guarantees;
pub mod metric;
pub mod quantity;
pub mod raster;
pub mod region;
pub mod similarity;
