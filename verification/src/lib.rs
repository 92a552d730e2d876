//! Drawing primitives for a flat, row-major pixel buffer.
//!
//! A [`GeometryDrawer`] knows the row width of a window and draws filled
//! boxes, lines, rectangle frames and circles into a buffer that the caller
//! owns. Every write is checked against the buffer's length; the first pixel
//! that falls outside stops the operation and is reported as a [`DrawError`].

pub mod circle;
pub mod drawer;
pub mod error;
pub mod fill;
pub mod line;
pub mod raster;
pub mod rectangle;

pub use drawer::GeometryDrawer;
pub use error::DrawError;
