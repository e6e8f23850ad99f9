//! Raster foundation of a small ray tracer: linear RGB colors, a fixed-size
//! canvas of them, and the encoder that writes a canvas as plain-text PPM.

pub mod canvas;
pub mod channel;
pub mod color;
pub mod decimal;
pub mod ppm;
pub mod raster;
pub mod text;
pub mod wrap;

pub use crate::color::Color;
pub use crate::canvas::Canvas;
