//! Software rasterisation of simple 2D shapes into an RGBA8 frame buffer.
//!
//! A frame is a row-major byte buffer with four bytes per pixel, owned by the
//! caller and addressed through the canvas width. Every routine states which
//! set of pixels it colours: its result is the frame with the on-canvas pixels
//! of that set overwritten by the colour, and every other byte untouched.
//! Pixels of the set that lie outside the canvas are clipped silently.
//!
//! Coordinates are whole pixels, with `x` counted to the right and `y`
//! downward from the top left corner of the canvas.

pub mod boxes;
pub mod canvas;
pub mod circles;
pub mod lines;
pub mod math;
pub mod triangles;

pub use crate::boxes::rect;
pub use crate::boxes::rect_filled;
pub use crate::boxes::square;
pub use crate::boxes::square_filled;
pub use crate::boxes::try_rect_filled;
pub use crate::circles::circle;
pub use crate::circles::circle_filled;
pub use crate::lines::line;
pub use crate::triangles::triangle;
pub use crate::triangles::triangle_filled;
