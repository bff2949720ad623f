//! Synthetic raster test patterns (stripes, checkerboard, filled and outlined
//! circles) drawn into a pixel buffer, and the buffer's encoding as a binary
//! portable pixmap.
pub mod buffer;
pub mod circle;
pub mod error;
pub mod pattern;
pub mod ppm;

pub use buffer::{PixelBuffer, MAX_PIXELS};
pub use circle::{hollow_circle, solid_circle};
pub use error::ConfigurationError;
pub use pattern::{checker_pattern, stripes_pattern};
pub use ppm::encode_ppm;
