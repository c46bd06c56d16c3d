//! Windowed tiling and assembly engine for exporting a terrain raster as a
//! dense pixel image while reading the source one bounded window at a time.

pub mod error;
pub mod export;
pub mod image;
pub mod mapping;
pub mod tile;

