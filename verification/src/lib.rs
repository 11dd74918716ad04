//! Procedural raster patterns over packed 24-bit RGB pixel buffers, and their
//! binary PPM encoding.
//!
//! A buffer is a row-major slice of `width * height` packed colours
//! (`0xRRGGBB`); pixel `(x, y)` lives at index `y * width + x`. Every generator
//! overwrites the whole buffer with a two-colour mask, and its contract pins the
//! resulting sequence to a mathematical image.
//!
//! - [`raster`]: the model of a painted mask, and the pixel primitives.
//! - [`tiles`]: checkerboard, diagonal, vertical and horizontal stripes.
//! - [`disc`]: the solid disc.
//! - [`ring`]: the circle outline.
//! - [`ppm`]: the encoding of a buffer as a binary PPM image.

pub mod disc;
pub mod ppm;
pub mod raster;
pub mod ring;
pub mod tiles;

pub use disc::draw_solid_circle;
pub use ppm::encode_ppm;
pub use raster::fill;
pub use ring::draw_hollow_circle;
pub use tiles::draw_check_pattern;
pub use tiles::draw_horizontal_stripes;
pub use tiles::draw_stripe_pattern;
pub use tiles::draw_vertical_stripes;
