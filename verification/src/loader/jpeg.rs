//! JPEG: the start-of-image marker, then segments, of which the first
//! start-of-frame segment holds the dimensions.

use vstd::prelude::*;

use crate::endian::be_u16;
use crate::errors::{Corruption, ImageError};
use crate::source::{after, agrees, carries_over, lemma_prefix_parts, ByteSource, Parsed};
use crate::types::{Color, ColorMode, Dimensions, Format, ImageMeta};

verus! {

/// The byte that every marker starts with.
pub const MARKER: u8 = 0xff;

/// The marker byte of the start of an image.
pub const SOI: u8 = 0xd8;

/// The colour model reported for every image of this format.
pub open spec fn color() -> Color {
    Color { alpha_channel: false, mode: ColorMode::Rgb, resolution: 8 }
}

/// Whether a marker byte starts a frame: `0xc0` to `0xcf` but for `0xc4`,
/// `0xc8` and `0xcc`.
pub open spec fn starts_frame(marker: u8) -> bool {
    0xc0 <= marker <= 0xcf && marker != 0xc4 && marker != 0xc8 && marker != 0xcc
}

/// The marker byte of a segment, read from behind its prefix: the first
/// byte that is no fill byte `0xff`.
pub open spec fn marker(s: Seq<u8>) -> Parsed<u8>
    decreases s.len(),
{
    if s.len() < 1 {
        Err(ImageError::Io)
    } else if s[0] == MARKER {
        marker(s.skip(1))
    } else {
        Ok((s[0], s.skip(1)))
    }
}

/// The dimensions in the payload of a start-of-frame segment: one byte of
/// precision, then height and width, two bytes each.
pub open spec fn frame_dimensions(payload: Seq<u8>) -> Result<Dimensions, ImageError> {
    if payload.len() < 5 {
        Err(ImageError::Io)
    } else {
        Ok(
            Dimensions {
                height: be_u16(payload.skip(1)) as u32,
                width: be_u16(payload.skip(3)) as u32,
            },
        )
    }
}

/// The marker byte of the segment at the front of `s`, and its payload
/// where the segment starts a frame. The length field counts its own two
/// bytes, so it is at least two. A payload that is wanted must be there
/// whole; one that is passed over need not.
pub open spec fn segment(s: Seq<u8>) -> Parsed<(u8, Option<Seq<u8>>)> {
    if s.len() < 1 {
        Err(ImageError::Io)
    } else if s[0] != MARKER {
        Err(ImageError::CorruptImage(Corruption::MarkerNotFound))
    } else {
        match marker(s.skip(1)) {
            Err(e) => Err(e),
            Ok((found, behind)) => if behind.len() < 2 {
                Err(ImageError::Io)
            } else if be_u16(behind) < 2 {
                Err(ImageError::CorruptImage(Corruption::SegmentLength(be_u16(behind) as u16)))
            } else if !starts_frame(found) {
                Ok(((found, None), after(behind.skip(2), be_u16(behind) - 2)))
            } else if behind.len() - 2 < be_u16(behind) - 2 {
                Err(ImageError::Io)
            } else {
                Ok(
                    (
                        (found, Some(behind.subrange(2, be_u16(behind) as int))),
                        behind.skip(be_u16(behind) as int),
                    ),
                )
            },
        }
    }
}

/// The dimensions in the first start-of-frame segment of `s`.
pub open spec fn frame(s: Seq<u8>) -> Parsed<Dimensions>
    decreases s.len(),
    via frame_decreases
{
    match segment(s) {
        Err(e) => Err(e),
        Ok(((_, Some(payload)), rest)) => match frame_dimensions(payload) {
            Ok(dimensions) => Ok((dimensions, rest)),
            Err(e) => Err(e),
        },
        Ok(((_, None), rest)) => frame(rest),
    }
}

#[via_fn]
proof fn frame_decreases(s: Seq<u8>) {
    lemma_segment_shrinks(s);
}

/// What is behind a marker byte is shorter than what it was read from.
pub proof fn lemma_marker_shrinks(s: Seq<u8>)
    ensures
        marker(s) matches Ok((_, rest)) ==> rest.len() < s.len(),
    decreases s.len(),
{
    if s.len() >= 1 && s[0] == MARKER {
        lemma_marker_shrinks(s.skip(1));
    }
}

/// What is behind a segment is shorter than what it was read from.
pub proof fn lemma_segment_shrinks(s: Seq<u8>)
    ensures
        segment(s) matches Ok((_, rest)) ==> rest.len() < s.len(),
{
    if s.len() >= 1 {
        lemma_marker_shrinks(s.skip(1));
    }
}

/// What the decoder makes of a whole stream.
pub open spec fn parse(s: Seq<u8>) -> Parsed<ImageMeta> {
    if s.len() < 2 {
        Err(ImageError::Io)
    } else if s[0] != MARKER || s[1] != SOI {
        Err(ImageError::InvalidSignature)
    } else {
        match frame(s.skip(2)) {
            Ok((dimensions, rest)) => Ok(
                (
                    ImageMeta {
                        animation_frames: None,
                        color: color(),
                        dimensions,
                        format: Format::Jpeg,
                    },
                    rest,
                ),
            ),
            Err(e) => Err(e),
        }
    }
}

/// The search for a frame fails only for want of bytes or on a broken rule
/// of the format.
pub proof fn lemma_frame_failures(s: Seq<u8>)
    ensures
        frame(s) matches Err(e) ==> e == ImageError::Io || e is CorruptImage,
    decreases s.len(),
{
    lemma_segment_shrinks(s);
    if s.len() >= 1 {
        lemma_marker_failures(s.skip(1));
    }
    if let Ok(((_, None), rest)) = segment(s) {
        lemma_frame_failures(rest);
    }
}

/// The search for a marker byte fails only for want of bytes.
pub proof fn lemma_marker_failures(s: Seq<u8>)
    ensures
        marker(s) matches Err(e) ==> e == ImageError::Io,
    decreases s.len(),
{
    if s.len() >= 1 && s[0] == MARKER {
        lemma_marker_failures(s.skip(1));
    }
}

/// Bytes that follow a stream change nothing of the marker byte that is
/// read from it, unless the stream ended before one.
pub proof fn lemma_marker_extends(s: Seq<u8>, t: Seq<u8>)
    requires
        s.is_prefix_of(t),
    ensures
        carries_over(marker(s), marker(t)),
    decreases s.len(),
{
    lemma_prefix_parts(s, t, 1);
    if s.len() >= 1 && s[0] == MARKER {
        lemma_marker_extends(s.skip(1), t.skip(1));
    }
}

/// Bytes that follow a stream change nothing of the segment that is read
/// from it, unless the stream ended within what was needed of it.
pub proof fn lemma_segment_extends(s: Seq<u8>, t: Seq<u8>)
    requires
        s.is_prefix_of(t),
    ensures
        carries_over(segment(s), segment(t)),
{
    lemma_prefix_parts(s, t, 1);
    if s.len() >= 1 && s[0] == MARKER {
        lemma_marker_extends(s.skip(1), t.skip(1));
        if let Ok((_, behind)) = marker(s.skip(1)) {
            let longer = marker(t.skip(1))->Ok_0.1;
            lemma_prefix_parts(behind, longer, 2);
            if behind.len() >= 2 && be_u16(behind) >= 2 {
                let field = be_u16(behind);
                lemma_prefix_parts(behind.skip(2), longer.skip(2), field - 2);
                if behind.len() >= field {
                    lemma_prefix_parts(behind, longer, field);
                    assert(behind.subrange(2, field) =~= longer.subrange(2, field));
                }
            }
        }
    }
}

/// Bytes that follow a stream change nothing of the dimensions that are
/// read from it, unless the stream ended before its first frame was read.
pub proof fn lemma_frame_extends(s: Seq<u8>, t: Seq<u8>)
    requires
        s.is_prefix_of(t),
    ensures
        carries_over(frame(s), frame(t)),
    decreases s.len(),
{
    lemma_segment_extends(s, t);
    lemma_segment_shrinks(s);
    if let Ok(((_, None), rest)) = segment(s) {
        let longer = segment(t)->Ok_0.1;
        lemma_frame_extends(rest, longer);
    }
}

/// Bytes that follow a stream change nothing of what the decoder makes of
/// it, unless the stream ended before the decoder had read what it needs.
pub proof fn lemma_parse_extends(s: Seq<u8>, t: Seq<u8>)
    requires
        s.is_prefix_of(t),
    ensures
        carries_over(parse(s), parse(t)),
{
    lemma_prefix_parts(s, t, 2);
    if s.len() >= 2 {
        lemma_frame_extends(s.skip(2), t.skip(2));
    }
}

fn read_signature(image: &mut ByteSource) -> (read: Result<(), ImageError>)
    ensures
        final(image).origin() == old(image).origin(),
        match read {
            Ok(_) => {
                &&& old(image)@.len() >= 2
                &&& old(image)@[0] == MARKER
                &&& old(image)@[1] == SOI
                &&& final(image)@ == old(image)@.skip(2)
            },
            Err(e) => if old(image)@.len() < 2 {
                e == ImageError::Io
            } else {
                e == ImageError::InvalidSignature && (old(image)@[0] != MARKER || old(image)@[1]
                    != SOI)
            },
        },
{
    let soi = image.read_exact(2)?;
    if soi[0] != MARKER || soi[1] != SOI {
        return Err(ImageError::InvalidSignature);
    }
    Ok(())
}

/// Reads the dimensions from the payload of a start-of-frame segment.
pub fn read_frame_dimensions(payload: &[u8]) -> (read: Result<Dimensions, ImageError>)
    ensures
        read == frame_dimensions(payload@),
{
    let mut data = ByteSource::new(payload);
    data.skip(1);
    let height = data.read_u16_be()?;
    let width = data.read_u16_be()?;
    Ok(Dimensions { width: width as u32, height: height as u32 })
}

fn read_sof(image: &mut ByteSource) -> (read: Result<Dimensions, ImageError>)
    ensures
        final(image).origin() == old(image).origin(),
        agrees(read, final(image)@, frame(old(image)@)),
{
    loop
        invariant
            image.origin() == old(image).origin(),
            frame(image@) == frame(old(image)@),
        decreases image@.len(),
    {
        proof {
            lemma_segment_shrinks(image@);
        }
        if let (_, Some(data)) = read_segment(image)? {
            return read_frame_dimensions(data);
        }
    }
}

fn read_segment<'a>(image: &mut ByteSource<'a>) -> (read: Result<
    (u8, Option<&'a [u8]>),
    ImageError,
>)
    ensures
        final(image).origin() == old(image).origin(),
        match segment(old(image)@) {
            Ok(((found, payload), rest)) => {
                &&& read matches Ok(got)
                &&& got.0 == found
                &&& got.1 is Some == payload is Some
                &&& payload is Some ==> got.1->Some_0@ == payload->Some_0
                &&& final(image)@ == rest
            },
            Err(e) => read matches Err(failure) && failure == e,
        },
{
    let ghost s = image@;
    let prefix = image.read_u8()?;
    if prefix != MARKER {
        return Err(ImageError::CorruptImage(Corruption::MarkerNotFound));
    }
    let mut marker = image.read_u8()?;
    assert(seq![marker] + image@ == s.skip(1));
    while marker == MARKER
        invariant
            image.origin() == old(image).origin(),
            s == old(image)@,
            s.len() >= 1,
            s[0] == MARKER,
            self::marker(s.skip(1)) == self::marker(seq![marker] + image@),
        decreases image@.len(),
    {
        let ghost before = image@;
        assert((seq![MARKER] + before).skip(1) == before);
        assert(self::marker(s.skip(1)) == self::marker(before));
        marker = image.read_u8()?;
        assert((seq![MARKER] + before).skip(1) == before);
        assert(seq![marker] + image@ == before);
    }
    assert((seq![marker] + image@).skip(1) == image@);
    let ghost behind = image@;
    let field = image.read_u16_be()?;
    if field < 2 {
        return Err(ImageError::CorruptImage(Corruption::SegmentLength(field)));
    }
    let length = field - 2;
    if is_sof(marker) {
        let result = image.read_exact(length as usize)?;
        assert(result@ == behind.subrange(2, field as int));
        assert(image@ == behind.skip(field as int));
        Ok((marker, Some(result)))
    } else {
        image.skip(length as u64);
        Ok((marker, None))
    }
}

/// Whether a marker byte starts a frame.
pub fn is_sof(marker: u8) -> (sof: bool)
    ensures
        sof == starts_frame(marker),
{
    matches!(
        marker,
        0xc0 | 0xc1 | 0xc2 | 0xc3 | 0xc5 | 0xc6 | 0xc7 | 0xc9 | 0xca | 0xcb | 0xcd | 0xce | 0xcf
    )
}

/// Reads the dimensions of a JPEG image.
pub fn load(image: &mut ByteSource) -> (read: Result<ImageMeta, ImageError>)
    ensures
        final(image).origin() == old(image).origin(),
        agrees(read, final(image)@, parse(old(image)@)),
{
    read_signature(image)?;
    let dimensions = read_sof(image)?;
    let color = Color { alpha_channel: false, mode: ColorMode::Rgb, resolution: 8 };
    Ok(ImageMeta { animation_frames: None, color, dimensions, format: Format::Jpeg })
}

} // verus!
