//! Why a header could not be read.

use vstd::prelude::*;

verus! {

pub type ImageResult<T> = Result<T, ImageError>;

/// The rule of its format that a stream with a matching signature breaks.
#[derive(Clone, Copy, Debug, PartialEq, Eq)]
pub enum Corruption {
    /// BMP: the size field names no known header variant.
    HeaderSize(u32),
    /// GIF: a block starts with a byte that introduces none.
    UnknownBlock(u8),
    /// GIF: an extension block of an unknown sub-type.
    UnknownExtension(u8),
    /// JPEG: a segment does not start with the marker prefix.
    MarkerNotFound,
    /// JPEG: a segment length too small to hold its own two bytes.
    SegmentLength(u16),
    /// PNG: the first chunk is not the image header.
    NotIhdr,
    /// PNG, QOI: a colour type or channel count outside the format.
    ColorType(u8),
    /// WebP: the container ends before any chunk gave the dimensions.
    ChunkNotFound,
    /// WebP: a lossy frame that is no key frame carries no dimensions.
    NotKeyFrame,
    /// WebP: the three bytes behind a key frame's tag are not its start code.
    KeyFrameCode(u8, u8, u8),
    /// WebP: a lossless bitstream does not start with its signature byte.
    LosslessSignature(u8),
    /// HDR: the `FORMAT` line names an unknown pixel encoding.
    Encoding,
    /// HDR: the resolution line has fewer than four fields.
    ResolutionFields,
    /// HDR: the height on the resolution line is no number.
    Height,
    /// HDR: the width on the resolution line is no number.
    Width,
}

#[derive(Clone, Copy, Debug, PartialEq, Eq)]
pub enum ImageError {
    /// The signature matched, and what follows breaks the format's rules.
    CorruptImage(Corruption),
    /// The stream does not start with this decoder's signature.
    InvalidSignature,
    /// The stream ended before the bytes that were asked of it.
    Io,
    /// No decoder knows the stream, or it is a variant that none handles.
    Unsupported,
}

} // verus!
