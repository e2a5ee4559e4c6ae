//! A mosaic engine: candidate tile images are reduced to one representative
//! color each, a palette of those colors answers nearest-match queries under a
//! perceptually weighted distance metric, and a compositor maps every cell of
//! a downscaled source image to its best tile.
//!
//! Color arithmetic is done in exact fixed-point form: a channel in [0, 1] is
//! stored as an integer numerator over [`color::SCALE`].

pub mod color;
pub mod distance;
pub mod palette;
pub mod raster;
pub mod average;
pub mod codec;
pub mod dither;
pub mod mosaic;
pub mod tiles;
