//! Decoder for the QOI lossless image format: header parsing, the chunk
//! grammar, and replay of chunks into a grid of RGBA pixels.
pub mod chunks;
pub mod decode;
pub mod error;
pub mod header;
pub mod pixel;
pub mod raster;
