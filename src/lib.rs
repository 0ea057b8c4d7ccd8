//! Photomosaic assembly: tiles, mean colors, nearest-color selection and
//! the three ways of composing a mosaic, over plain row-major pixel buffers.

pub mod color;
pub mod compose;
pub mod error;
pub mod index;
pub mod raster;
