//! BOI: a lossless codec for 8-bit RGB and RGBA raster images.
use vstd::prelude::*;

pub mod bits;
pub mod blocks;
pub mod buffer;
pub mod decoder;
pub mod encoder;
pub mod error;
pub mod framing;
pub mod img;
pub mod laws;
pub mod log;
pub mod palette;
pub mod stream;

verus! {

/// Bits in a byte.
pub const U8_BITS: usize = 8;

/// Bits in the window through which blocks enter and leave the stream.
pub const U64_BITS: usize = 64;

} // verus!
