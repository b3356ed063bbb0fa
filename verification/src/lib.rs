//! A deterministic, reversible codec that renders a byte buffer as a square
//! raster image built from a fixed glyph font, and recovers the bytes from
//! that image.
//!
//! The crate holds the codec itself: font-grid extraction from a spritesheet,
//! the spiral placement/read order shared by encoder and decoder,
//! content-derived color selection, and the bit-level encode/decode logic
//! that maps each byte to a glyph cell and back.  File and image I/O stay
//! with the caller, which hands the codec plain pixel buffers.

pub mod color;
pub mod grid;
pub mod mat;
pub mod raster;
pub mod spiral;
