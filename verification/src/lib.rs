//! Geometry of binarized document scans: flood-fill segmentation of a
//! raster, boundary tracing of a foreground region, and polygon
//! simplification, each with a machine-checked contract.

pub mod contour;
pub mod flood;
pub mod raster;
pub mod simplify;
