//! BMP: a file header, and an information header in one of two layouts that
//! its size field tells apart.

use vstd::prelude::*;

use crate::endian::{le_i16, le_i32, le_u16, le_u32};
use crate::errors::{Corruption, ImageError};
use crate::source::{after, agrees, carries_over, lemma_prefix_parts, ByteSource, Parsed};
use crate::types::{Color, ColorMode, Dimensions, Format, ImageMeta};

verus! {

/// The bytes of `BM`.
pub open spec fn signature() -> Seq<u8> {
    seq![0x42u8, 0x4d]
}

/// The size of a number without its sign.
pub open spec fn magnitude(n: int) -> int {
    if n < 0 {
        -n
    } else {
        n
    }
}

/// The colour model reported for a bit count: always RGB without alpha, a
/// third of the bit count taken as the depth of one channel and cut to eight
/// bits.
pub open spec fn color_of(bit_count: int) -> Color {
    Color {
        alpha_channel: false,
        mode: ColorMode::Rgb,
        resolution: ((bit_count / 3) % 0x100) as u8,
    }
}

/// The fields of a Windows header behind its size field: width and signed
/// height of four bytes each, two bytes of planes, and the bit count.
pub open spec fn windows_header(s: Seq<u8>) -> Parsed<(Dimensions, Color)> {
    if s.len() < 12 {
        Err(ImageError::Io)
    } else {
        Ok(
            (
                (
                    Dimensions {
                        height: magnitude(le_i32(s.skip(4))) as u32,
                        width: le_u32(s) as u32,
                    },
                    color_of(le_u16(s.skip(10))),
                ),
                s.skip(12),
            ),
        )
    }
}

/// The fields of an OS/2 header behind its size field: width and signed
/// height of two bytes each, two bytes of planes, and the bit count.
pub open spec fn os2_header(s: Seq<u8>) -> Parsed<(Dimensions, Color)> {
    if s.len() < 8 {
        Err(ImageError::Io)
    } else {
        Ok(
            (
                (
                    Dimensions {
                        height: magnitude(le_i16(s.skip(2))) as u32,
                        width: le_u16(s) as u32,
                    },
                    color_of(le_u16(s.skip(6))),
                ),
                s.skip(8),
            ),
        )
    }
}

/// The information header, whose size field selects the layout.
pub open spec fn header(s: Seq<u8>) -> Parsed<(Dimensions, Color)> {
    if s.len() < 4 {
        Err(ImageError::Io)
    } else if le_u32(s) == 12 || le_u32(s) == 64 {
        os2_header(s.skip(4))
    } else if le_u32(s) == 40 || le_u32(s) == 108 || le_u32(s) == 124 {
        windows_header(s.skip(4))
    } else {
        Err(ImageError::CorruptImage(Corruption::HeaderSize(le_u32(s) as u32)))
    }
}

/// What the decoder makes of a whole stream: behind the signature, twelve
/// bytes of the file header are passed over.
pub open spec fn parse(s: Seq<u8>) -> Parsed<ImageMeta> {
    if s.len() < 2 {
        Err(ImageError::Io)
    } else if s.take(2) != signature() {
        Err(ImageError::InvalidSignature)
    } else {
        match header(after(s.skip(2), 12)) {
            Ok(((dimensions, color), rest)) => Ok(
                (ImageMeta { animation_frames: None, color, dimensions, format: Format::Bmp }, rest),
            ),
            Err(e) => Err(e),
        }
    }
}

/// Bytes that follow a stream change nothing of what the decoder makes of
/// it, unless the stream ended before the decoder had read what it needs.
pub proof fn lemma_parse_extends(s: Seq<u8>, t: Seq<u8>)
    requires
        s.is_prefix_of(t),
    ensures
        carries_over(parse(s), parse(t)),
{
    lemma_prefix_parts(s, t, 2);
    if s.len() >= 2 {
        lemma_prefix_parts(s.skip(2), t.skip(2), 12);
        let short = after(s.skip(2), 12);
        let long = after(t.skip(2), 12);
        lemma_prefix_parts(short, long, 4);
        if short.len() >= 4 {
            let inner = short.skip(4);
            let outer = long.skip(4);
            lemma_prefix_parts(inner, outer, 2);
            lemma_prefix_parts(inner, outer, 4);
            lemma_prefix_parts(inner, outer, 6);
            lemma_prefix_parts(inner, outer, 8);
            lemma_prefix_parts(inner, outer, 10);
            lemma_prefix_parts(inner, outer, 12);
        }
    }
}

fn read_signature(image: &mut ByteSource) -> (read: Result<(), ImageError>)
    ensures
        final(image).origin() == old(image).origin(),
        match read {
            Ok(_) => {
                &&& old(image)@.len() >= 2
                &&& old(image)@.take(2) == signature()
                &&& final(image)@ == after(old(image)@.skip(2), 12)
            },
            Err(e) => if old(image)@.len() < 2 {
                e == ImageError::Io
            } else {
                e == ImageError::InvalidSignature && old(image)@.take(2) != signature()
            },
        },
{
    let bytes = image.read_exact(2)?;
    if bytes[0] != 0x42 || bytes[1] != 0x4d {
        assert(signature()[0] == 0x42 && signature()[1] == 0x4d);
        return Err(ImageError::InvalidSignature);
    }
    assert(bytes@ =~= signature());
    image.skip(12);
    Ok(())
}

/// The colour model reported for a bit count.
fn color_for(bit_count: u16) -> (color: Color)
    ensures
        color == color_of(bit_count as int),
{
    let third = bit_count / 3;
    let resolution = #[verifier::truncate]
    (third as u8);
    assert(resolution == third % 0x100) by (bit_vector)
        requires
            resolution == third as u8,
    ;
    Color { alpha_channel: false, mode: ColorMode::Rgb, resolution }
}

fn read_windows_header(image: &mut ByteSource) -> (read: Result<(Dimensions, Color), ImageError>)
    ensures
        final(image).origin() == old(image).origin(),
        agrees(read, final(image)@, windows_header(old(image)@)),
{
    let ghost s = image@;
    let width = image.read_u32_le()?;
    let signed = image.read_i32_le()?;
    let height = if signed < 0 {
        (0 - signed as i64) as u32
    } else {
        signed as u32
    };
    image.skip(2);
    let bit_count = image.read_u16_le()?;
    assert(image@ == s.skip(12));
    Ok((Dimensions { height, width }, color_for(bit_count)))
}

fn read_os2_header(image: &mut ByteSource) -> (read: Result<(Dimensions, Color), ImageError>)
    ensures
        final(image).origin() == old(image).origin(),
        agrees(read, final(image)@, os2_header(old(image)@)),
{
    let ghost s = image@;
    let width = image.read_u16_le()?;
    let signed = image.read_i16_le()?;
    let height = if signed < 0 {
        (0 - signed as i32) as u32
    } else {
        signed as u32
    };
    image.skip(2);
    let bit_count = image.read_u16_le()?;
    assert(image@ == s.skip(8));
    Ok((Dimensions { height, width: width as u32 }, color_for(bit_count)))
}

fn read_header(image: &mut ByteSource) -> (read: Result<(Dimensions, Color), ImageError>)
    ensures
        final(image).origin() == old(image).origin(),
        agrees(read, final(image)@, header(old(image)@)),
{
    let header_size = image.read_u32_le()?;
    match header_size {
        12 | 64 => read_os2_header(image),
        40 | 108 | 124 => read_windows_header(image),
        size => Err(ImageError::CorruptImage(Corruption::HeaderSize(size))),
    }
}

/// Reads the header of a BMP image.
pub fn load(image: &mut ByteSource) -> (read: Result<ImageMeta, ImageError>)
    ensures
        final(image).origin() == old(image).origin(),
        agrees(read, final(image)@, parse(old(image)@)),
{
    read_signature(image)?;
    let (dimensions, color) = read_header(image)?;
    Ok(ImageMeta { animation_frames: None, color, dimensions, format: Format::Bmp })
}

} // verus!
