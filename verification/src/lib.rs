//! A software rasterizer for character-cell displays: pixel-space geometry,
//! triangle scan conversion, and a bounds-checked frame buffer.

pub mod math;
pub mod rasterizer;
