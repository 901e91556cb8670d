//! Storm-cell analysis over classified weather-radar pixels.
//!
//! The library groups spatially adjacent high-reflectivity pixels into
//! connected cells, computes each cell's intensity-weighted centroid, its
//! polar position relative to the radar origin, a principal-axis shape fit,
//! and an eccentricity-based morphology classification, and assembles the
//! cells into a list ranked by distance from the radar.
//!
//! All geometry is carried out in exact integer arithmetic: distances are
//! kept squared, bearings are kept in millidegrees, and the eccentricity
//! threshold test is performed on cross-multiplied squared lengths, so every
//! comparison the classifier makes is exact.

pub mod pixel;
pub mod azimuth;
pub mod shape;
pub mod cluster;
pub mod storm;
pub mod frame_time;
