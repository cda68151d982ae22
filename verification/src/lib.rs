//! Terrain-RGB tile generation: tile enumeration, elevation encoding, tile images and
//! container layout.

pub mod tile;
pub mod frontier;
pub mod generate;
pub mod raster;
pub mod encoder;
pub mod tile_format;
pub mod container;
pub mod sort;
pub mod text;
