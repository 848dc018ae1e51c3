//! What the codec refuses.
use vstd::prelude::*;

verus! {

/// Why a stream was not decoded.
#[derive(Clone, Copy, Debug, PartialEq, Eq)]
pub enum DecodeError {
    /// The stream ends within the header or within a block, or bits other than zero
    /// padding follow its last block.
    Truncated,
    /// A prefix code that the format does not define in that place: the reserved gray
    /// block in the body, or anything but a long pixel block in the palette.
    UnknownPrefix,
    /// A palette block refers to an entry that the palette does not have.
    PaletteIndex,
    /// The number of pixels in the body is not the width times the height.
    DimensionMismatch,
}

/// Why an image was not encoded.
#[derive(Clone, Copy, Debug, PartialEq, Eq)]
pub enum EncodeError {
    /// The number of bytes is not width times height times the number of channels.
    LengthMismatch,
    /// The width or the height does not fit in the 32 bits that the header has for it.
    DimensionsOverflow,
}

} // verus!
