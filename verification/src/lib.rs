//! Coordinate conversions among WGS84, GCJ02 and BD09, and an in-place
//! rewriter that applies one such conversion to every coordinate tuple of an
//! EWKB-encoded geometry while leaving all structural bytes untouched.

pub mod coord;
pub mod ewkb;
