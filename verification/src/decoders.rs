//! Turning the bytes of a file into pixels.

pub mod develop;
pub mod heif;
pub mod raster;
pub mod raw;
