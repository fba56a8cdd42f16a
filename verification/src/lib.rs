//! Core of a raster-image-to-level converter for the game "Bomb Hopper".
//!
//! The pipeline has three verified stages plus a post-processing pass:
//! the segmenter partitions the image into connected regions of similar
//! pixels and averages each region's color (`raster`), the contour stage
//! turns each region's mask into boundary polygons, the assembler packs
//! colors and builds level entities (`level`), and the vertex pruner
//! removes collinear interior vertices from every polygon (`optimize`).

pub mod level;
pub mod optimize;
pub mod raster;
