//! A small raster painting library: an RGBA pixel buffer with verified
//! pixel, scanline, line and disk drawing.

pub mod canvas;


pub use canvas::canvas_pos::CanvasPos;
pub use canvas::canvas_buffer::CanvasBuffer;
pub use canvas::{Canvas, PixelColor, PxCoords};
