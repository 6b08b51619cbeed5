//! Reads the dimensions, colour model and frame count of a raster image from
//! the header structures of its container, without decoding any pixel.

pub mod endian;
pub mod errors;
pub mod loader;
pub mod source;
pub mod types;

pub use errors::{Corruption, ImageError, ImageResult};
pub use loader::{bmp, gif, hdr, jpeg, png, qoi, webp};
pub use loader::{load, load_from_buf, load_with_format};
pub use source::ByteSource;
pub use types::{Color, ColorMode, Dimensions, Format, ImageMeta};
