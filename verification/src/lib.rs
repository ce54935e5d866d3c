//! A minimal software rasterizer: integer line and triangle rasterization
//! into an in-memory framebuffer, and serialization of that framebuffer to
//! the TGA image format, raw or run-length encoded.

pub mod coverage;
pub mod drawing;
pub mod geometry;
pub mod line_path;
pub mod model;
pub mod rle;
pub mod tga;
