//! Codec and accumulator for the portable float map image format.
//!
//! An `Image` holds RGB pixels as IEEE-754 binary32 bit patterns together
//! with its dimensions, an optional iteration (sample-pass) count, and the
//! scale field whose sign records the byte order of the persisted payload.
//! The crate decodes and encodes the on-disk format, merges two images into
//! a sample-weighted running average, and scores a candidate image against
//! a reference through a luminance-based mean-square error.

mod errors;
mod num;
mod fbits;
mod bytes;
mod header;
mod image;

pub use errors::{FormatKind, HostByteOrder, ImageError};
pub use image::Image;
