//! A fading Sierpinski-triangle animation for a 128x64 page-addressed
//! monochrome display: per-pixel lifetimes, dirty-page tracking and the
//! packing of pages into display bytes, all verified.

pub mod drawer;
pub mod point;
pub mod sierpinski;

pub use drawer::{FadingBufferedDrawer, PageWrite, COLUMN_OFFSET};
pub use point::{Point, HEIGHT, WIDTH};
pub use sierpinski::SierpinskiPoints;
