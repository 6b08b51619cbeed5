//! QOI: a signature and a header of fixed layout.

use vstd::prelude::*;

use crate::endian::be_u32;
use crate::errors::{Corruption, ImageError};
use crate::source::{agrees, carries_over, lemma_prefix_parts, same_bytes, ByteSource, Parsed};
use crate::types::{Color, ColorMode, Dimensions, Format, ImageMeta};

verus! {

/// The bytes of `qoif`.
pub open spec fn signature() -> Seq<u8> {
    seq![0x71u8, 0x6f, 0x69, 0x66]
}

/// The header behind the signature: width and height, four bytes each, and
/// the number of channels, which is three, or four with an alpha channel.
pub open spec fn header(s: Seq<u8>) -> Parsed<(Dimensions, Color)> {
    if s.len() < 9 {
        Err(ImageError::Io)
    } else if s[8] != 3 && s[8] != 4 {
        Err(ImageError::CorruptImage(Corruption::ColorType(s[8])))
    } else {
        Ok(
            (
                (
                    Dimensions { height: be_u32(s.skip(4)) as u32, width: be_u32(s) as u32 },
                    Color { alpha_channel: s[8] == 4, mode: ColorMode::Rgb, resolution: 8 },
                ),
                s.skip(9),
            ),
        )
    }
}

/// What the decoder makes of a whole stream.
pub open spec fn parse(s: Seq<u8>) -> Parsed<ImageMeta> {
    if s.len() < 4 {
        Err(ImageError::Io)
    } else if s.take(4) != signature() {
        Err(ImageError::InvalidSignature)
    } else {
        match header(s.skip(4)) {
            Ok(((dimensions, color), rest)) => Ok(
                (ImageMeta { animation_frames: None, color, dimensions, format: Format::Qoi }, rest),
            ),
            Err(e) => Err(e),
        }
    }
}

/// Bytes that follow a stream change nothing of what the decoder makes of
/// it, unless the stream ended before the decoder had read what it needs.
pub proof fn lemma_parse_extends(s: Seq<u8>, t: Seq<u8>)
    requires
        s.is_prefix_of(t),
    ensures
        carries_over(parse(s), parse(t)),
{
    lemma_prefix_parts(s, t, 4);
    if s.len() >= 4 {
        lemma_prefix_parts(s.skip(4), t.skip(4), 9);
        lemma_prefix_parts(s.skip(4), t.skip(4), 4);
    }
}

fn read_signature(image: &mut ByteSource) -> (read: Result<(), ImageError>)
    ensures
        final(image).origin() == old(image).origin(),
        match read {
            Ok(_) => {
                &&& old(image)@.len() >= 4
                &&& old(image)@.take(4) == signature()
                &&& final(image)@ == old(image)@.skip(4)
            },
            Err(e) => if old(image)@.len() < 4 {
                e == ImageError::Io
            } else {
                e == ImageError::InvalidSignature && old(image)@.take(4) != signature()
            },
        },
{
    let bytes = image.read_exact(4)?;
    let expected: [u8; 4] = [0x71, 0x6f, 0x69, 0x66];
    assert(expected@ =~= signature());
    if !same_bytes(bytes, &expected) {
        return Err(ImageError::InvalidSignature);
    }
    Ok(())
}

fn read_header(image: &mut ByteSource) -> (read: Result<(Dimensions, Color), ImageError>)
    ensures
        final(image).origin() == old(image).origin(),
        agrees(read, final(image)@, header(old(image)@)),
{
    let ghost s = image@;
    let width = image.read_u32_be()?;
    let height = image.read_u32_be()?;
    let channels = image.read_u8()?;
    assert(image@ == s.skip(9));
    let alpha_channel = match channels {
        3 => false,
        4 => true,
        _ => {
            return Err(ImageError::CorruptImage(Corruption::ColorType(channels)));
        },
    };
    Ok((Dimensions { height, width }, Color { mode: ColorMode::Rgb, alpha_channel, resolution: 8 }))
}

/// Reads the header of a QOI image.
pub fn load(image: &mut ByteSource) -> (read: Result<ImageMeta, ImageError>)
    ensures
        final(image).origin() == old(image).origin(),
        agrees(read, final(image)@, parse(old(image)@)),
{
    read_signature(image)?;
    let (dimensions, color) = read_header(image)?;
    Ok(ImageMeta { animation_frames: None, color, dimensions, format: Format::Qoi })
}

} // verus!
