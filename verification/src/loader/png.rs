//! PNG: a signature, the `IHDR` chunk with dimensions and colour type, and
//! the chunks behind it, among which the `fcTL` chunks count the frames of
//! an animation.

use vstd::prelude::*;

use crate::endian::be_u32;
use crate::errors::{Corruption, ImageError};
use crate::source::{
    after, agrees, carries_over, lemma_prefix_parts, same_bytes, ByteSource, Parsed,
};
use crate::types::{frames_from, Color, ColorMode, Dimensions, Format, ImageMeta};

verus! {

/// The eight bytes that every PNG stream starts with.
pub open spec fn signature() -> Seq<u8> {
    seq![0x89u8, 0x50, 0x4e, 0x47, 0x0d, 0x0a, 0x1a, 0x0a]
}

/// The bytes of `IHDR`.
pub open spec fn ihdr() -> Seq<u8> {
    seq![0x49u8, 0x48, 0x44, 0x52]
}

/// The bytes of `fcTL`.
pub open spec fn fctl() -> Seq<u8> {
    seq![0x66u8, 0x63, 0x54, 0x4c]
}

/// The bytes of `IEND`.
pub open spec fn iend() -> Seq<u8> {
    seq![0x49u8, 0x45, 0x4e, 0x44]
}

/// The colour model that a colour type and a bit depth stand for, where the
/// colour type is one of the five that the format knows.
pub open spec fn color_of(color_type: u8, bit_depth: u8) -> Option<Color> {
    if color_type == 0 {
        Some(Color { alpha_channel: false, mode: ColorMode::Grayscale, resolution: bit_depth })
    } else if color_type == 2 {
        Some(Color { alpha_channel: false, mode: ColorMode::Rgb, resolution: bit_depth })
    } else if color_type == 3 {
        Some(Color { alpha_channel: false, mode: ColorMode::Indexed, resolution: bit_depth })
    } else if color_type == 4 {
        Some(Color { alpha_channel: true, mode: ColorMode::Grayscale, resolution: bit_depth })
    } else if color_type == 6 {
        Some(Color { alpha_channel: true, mode: ColorMode::Rgb, resolution: bit_depth })
    } else {
        None
    }
}

/// The type and the payload of the chunk at the front of `s`, which must be
/// there whole; its checksum of four bytes is passed over unread.
pub open spec fn chunk(s: Seq<u8>) -> Parsed<(Seq<u8>, Seq<u8>)> {
    if s.len() < 8 || s.len() - 8 < be_u32(s) {
        Err(ImageError::Io)
    } else {
        Ok(
            (
                (s.subrange(4, 8), s.subrange(8, 8 + be_u32(s))),
                after(s.skip(8 + be_u32(s)), 4),
            ),
        )
    }
}

/// What the payload of an `IHDR` chunk says: width, height, bit depth and
/// colour type, in its first ten bytes.
pub open spec fn header_fields(payload: Seq<u8>) -> Result<(Dimensions, Color), ImageError> {
    if payload.len() < 10 {
        Err(ImageError::Io)
    } else {
        match color_of(payload[9], payload[8]) {
            Some(color) => Ok(
                (
                    Dimensions {
                        height: be_u32(payload.skip(4)) as u32,
                        width: be_u32(payload) as u32,
                    },
                    color,
                ),
            ),
            None => Err(ImageError::CorruptImage(Corruption::ColorType(payload[9]))),
        }
    }
}

/// The first chunk behind the signature, which must be `IHDR`.
pub open spec fn header(s: Seq<u8>) -> Parsed<(Dimensions, Color)> {
    match chunk(s) {
        Err(e) => Err(e),
        Ok(((name, payload), rest)) => if name != ihdr() {
            Err(ImageError::CorruptImage(Corruption::NotIhdr))
        } else {
            match header_fields(payload) {
                Ok(fields) => Ok((fields, rest)),
                Err(e) => Err(e),
            }
        },
    }
}

/// The number of `fcTL` chunks among the chunks of `s` up to and with the
/// first `IEND`, added to `count`. Payloads and checksums are passed over,
/// also where the stream ends within them.
pub open spec fn frame_controls(s: Seq<u8>, count: nat) -> Parsed<nat>
    decreases s.len(),
{
    if s.len() < 8 {
        Err(ImageError::Io)
    } else {
        let name = s.subrange(4, 8);
        let rest = after(s.skip(8), be_u32(s) + 4);
        let counted = if name == fctl() {
            count + 1
        } else {
            count
        };
        if name == iend() {
            Ok((counted, rest))
        } else {
            frame_controls(rest, counted)
        }
    }
}

/// What the decoder makes of a whole stream. An animation is reported from
/// one frame control on.
pub open spec fn parse(s: Seq<u8>) -> Parsed<ImageMeta> {
    if s.len() < 8 {
        Err(ImageError::Io)
    } else if s.take(8) != signature() {
        Err(ImageError::InvalidSignature)
    } else {
        match header(s.skip(8)) {
            Err(e) => Err(e),
            Ok(((dimensions, color), behind)) => match frame_controls(behind, 0) {
                Err(e) => Err(e),
                Ok((count, rest)) => Ok(
                    (
                        ImageMeta {
                            animation_frames: frames_from(count, 1),
                            color,
                            dimensions,
                            format: Format::Png,
                        },
                        rest,
                    ),
                ),
            },
        }
    }
}

/// The count of the frame controls fails only for want of bytes.
pub proof fn lemma_frame_controls_failures(s: Seq<u8>, count: nat)
    ensures
        frame_controls(s, count) matches Err(e) ==> e == ImageError::Io,
    decreases s.len(),
{
    if s.len() >= 8 && s.subrange(4, 8) != iend() {
        lemma_frame_controls_failures(
            after(s.skip(8), be_u32(s) + 4),
            if s.subrange(4, 8) == fctl() {
                count + 1
            } else {
                count
            },
        );
    }
}

/// Bytes that follow a stream change nothing of the header chunk that is
/// read from it, unless the stream ended within the chunk.
pub proof fn lemma_header_extends(s: Seq<u8>, t: Seq<u8>)
    requires
        s.is_prefix_of(t),
    ensures
        carries_over(header(s), header(t)),
{
    lemma_prefix_parts(s, t, 8);
    if s.len() >= 8 && s.len() - 8 >= be_u32(s) {
        let end = 8 + be_u32(s);
        lemma_prefix_parts(s, t, end);
        lemma_prefix_parts(s.skip(end), t.skip(end), 4);
        assert(s.subrange(4, 8) =~= t.subrange(4, 8));
        assert(s.subrange(8, end) =~= t.subrange(8, end));
    }
}

/// Bytes that follow a stream change nothing of the count of its frame
/// controls, unless the stream ended before its last chunk.
pub proof fn lemma_frame_controls_extend(s: Seq<u8>, t: Seq<u8>, count: nat)
    requires
        s.is_prefix_of(t),
    ensures
        carries_over(frame_controls(s, count), frame_controls(t, count)),
    decreases s.len(),
{
    lemma_prefix_parts(s, t, 8);
    if s.len() >= 8 {
        assert(s.subrange(4, 8) =~= t.subrange(4, 8));
        lemma_prefix_parts(s.skip(8), t.skip(8), be_u32(s) + 4);
        let counted = if s.subrange(4, 8) == fctl() {
            count + 1
        } else {
            count
        };
        if s.subrange(4, 8) != iend() {
            lemma_frame_controls_extend(
                after(s.skip(8), be_u32(s) + 4),
                after(t.skip(8), be_u32(t) + 4),
                counted,
            );
        }
    }
}

/// Bytes that follow a stream change nothing of what the decoder makes of
/// it, unless the stream ended before the decoder had read what it needs.
pub proof fn lemma_parse_extends(s: Seq<u8>, t: Seq<u8>)
    requires
        s.is_prefix_of(t),
    ensures
        carries_over(parse(s), parse(t)),
{
    lemma_prefix_parts(s, t, 8);
    if s.len() >= 8 {
        lemma_header_extends(s.skip(8), t.skip(8));
        if let Ok((_, behind)) = header(s.skip(8)) {
            let longer = header(t.skip(8))->Ok_0.1;
            lemma_frame_controls_extend(behind, longer, 0);
        }
    }
}

/// Whether `c` is one chunk and nothing else: the length, the name, a
/// payload of that length, and the checksum.
pub open spec fn is_chunk(c: Seq<u8>) -> bool {
    c.len() >= 12 && be_u32(c) == c.len() - 12
}

/// The number of chunks named `fcTL` among `chunks`.
pub open spec fn frame_control_chunks(chunks: Seq<Seq<u8>>) -> nat
    decreases chunks.len(),
{
    if chunks.len() == 0 {
        0
    } else if chunks[0].subrange(4, 8) == fctl() {
        1 + frame_control_chunks(chunks.skip(1))
    } else {
        frame_control_chunks(chunks.skip(1))
    }
}

/// The stream that holds `chunks` one behind the other, then the chunk
/// `end`, then `tail`.
pub open spec fn chunk_stream(chunks: Seq<Seq<u8>>, end: Seq<u8>, tail: Seq<u8>) -> Seq<u8>
    decreases chunks.len(),
{
    if chunks.len() == 0 {
        end + tail
    } else {
        chunks[0] + chunk_stream(chunks.skip(1), end, tail)
    }
}

/// Every frame control counts once: on a stream of whole chunks of which
/// none is named `IEND`, then a whole chunk of that name, then any bytes,
/// the number of the chunks named `fcTL` is added to the count, and the
/// bytes behind the end chunk are left unread.
pub proof fn lemma_frame_controls_count(
    chunks: Seq<Seq<u8>>,
    end: Seq<u8>,
    tail: Seq<u8>,
    count: nat,
)
    requires
        forall|i: int|
            0 <= i < chunks.len() ==> is_chunk(#[trigger] chunks[i]) && chunks[i].subrange(4, 8)
                != iend(),
        is_chunk(end),
        end.subrange(4, 8) == iend(),
    ensures
        frame_controls(chunk_stream(chunks, end, tail), count) == Ok::<
            (nat, Seq<u8>),
            ImageError,
        >((count + frame_control_chunks(chunks), tail)),
    decreases chunks.len(),
{
    let s = chunk_stream(chunks, end, tail);
    assert(iend() != fctl()) by {
        assert(iend()[0] == 0x49 && fctl()[0] == 0x66);
    }
    if chunks.len() == 0 {
        assert(s.subrange(4, 8) == end.subrange(4, 8));
        assert(s.skip(8).skip(be_u32(s) + 4) == tail);
    } else {
        let first = chunks[0];
        let behind = chunk_stream(chunks.skip(1), end, tail);
        assert(is_chunk(first) && first.subrange(4, 8) != iend());
        assert(s.subrange(4, 8) == first.subrange(4, 8));
        assert(s.skip(8).skip(be_u32(s) + 4) == behind);
        assert forall|i: int| 0 <= i < chunks.skip(1).len() implies is_chunk(
            #[trigger] chunks.skip(1)[i],
        ) && chunks.skip(1)[i].subrange(4, 8) != iend() by {
            assert(chunks.skip(1)[i] == chunks[i + 1]);
        }
        lemma_frame_controls_count(
            chunks.skip(1),
            end,
            tail,
            if first.subrange(4, 8) == fctl() {
                count + 1
            } else {
                count
            },
        );
    }
}

/// The decoder reports the number of frame controls of a well-formed
/// stream from one on, and no animation without any: behind a signature and
/// a header chunk, on whole chunks, then a whole end chunk, then any bytes.
pub proof fn lemma_parse_counts_frame_controls(
    s: Seq<u8>,
    chunks: Seq<Seq<u8>>,
    end: Seq<u8>,
    tail: Seq<u8>,
)
    requires
        s.len() >= 8,
        s.take(8) == signature(),
        header(s.skip(8)) matches Ok((_, behind)) && behind == chunk_stream(chunks, end, tail),
        forall|i: int|
            0 <= i < chunks.len() ==> is_chunk(#[trigger] chunks[i]) && chunks[i].subrange(4, 8)
                != iend(),
        is_chunk(end),
        end.subrange(4, 8) == iend(),
    ensures
        parse(s) matches Ok((meta, rest)) && rest == tail && meta.animation_frames == (
        if frame_control_chunks(chunks) > 0 {
            Some(frame_control_chunks(chunks) as usize)
        } else {
            None
        }),
{
    lemma_frame_controls_count(chunks, end, tail, 0);
}

fn read_signature(image: &mut ByteSource) -> (read: Result<(), ImageError>)
    ensures
        final(image).origin() == old(image).origin(),
        match read {
            Ok(_) => {
                &&& old(image)@.len() >= 8
                &&& old(image)@.take(8) == signature()
                &&& final(image)@ == old(image)@.skip(8)
            },
            Err(e) => if old(image)@.len() < 8 {
                e == ImageError::Io
            } else {
                e == ImageError::InvalidSignature && old(image)@.take(8) != signature()
            },
        },
{
    let bytes = image.read_exact(8)?;
    let expected: [u8; 8] = [0x89, 0x50, 0x4e, 0x47, 0x0d, 0x0a, 0x1a, 0x0a];
    assert(expected@ =~= signature());
    if !same_bytes(bytes, &expected) {
        return Err(ImageError::InvalidSignature);
    }
    Ok(())
}

/// Whether `name` is the four bytes given.
fn is_name(name: &[u8], a: u8, b: u8, c: u8, d: u8) -> (same: bool)
    ensures
        same == (name@ == seq![a, b, c, d]),
{
    let ghost tag = seq![a, b, c, d];
    assert(tag.len() == 4 && tag[0] == a && tag[1] == b && tag[2] == c && tag[3] == d);
    if name.len() == 4 && name[0] == a && name[1] == b && name[2] == c && name[3] == d {
        assert(name@ =~= tag);
        true
    } else {
        false
    }
}

fn read_chunk<'a>(image: &mut ByteSource<'a>) -> (read: Result<(&'a [u8], &'a [u8]), ImageError>)
    ensures
        final(image).origin() == old(image).origin(),
        match chunk(old(image)@) {
            Ok(((name, payload), rest)) => {
                &&& read matches Ok(found)
                &&& found.0@ == name
                &&& found.1@ == payload
                &&& final(image)@ == rest
            },
            Err(e) => read matches Err(failure) && failure == e,
        },
{
    let ghost s = image@;
    let length = image.read_u32_be()?;
    let name = image.read_exact(4)?;
    let payload = image.read_exact(length as usize)?;
    assert(name@ == s.subrange(4, 8));
    assert(payload@ == s.subrange(8, 8 + length));
    assert(image@ == s.skip(8 + length));
    image.skip(4);
    Ok((name, payload))
}

/// Reads the fields of an `IHDR` payload.
pub fn read_header_fields(payload: &[u8]) -> (read: Result<(Dimensions, Color), ImageError>)
    ensures
        read == header_fields(payload@),
{
    let mut fields = ByteSource::new(payload);
    let width = fields.read_u32_be()?;
    let height = fields.read_u32_be()?;
    let bit_depth = fields.read_u8()?;
    let color_type = fields.read_u8()?;
    let (mode, alpha_channel) = match color_type {
        0 => (ColorMode::Grayscale, false),
        2 => (ColorMode::Rgb, false),
        3 => (ColorMode::Indexed, false),
        4 => (ColorMode::Grayscale, true),
        6 => (ColorMode::Rgb, true),
        _ => {
            return Err(ImageError::CorruptImage(Corruption::ColorType(color_type)));
        },
    };
    Ok((Dimensions { height, width }, Color { alpha_channel, mode, resolution: bit_depth }))
}

fn read_header(image: &mut ByteSource) -> (read: Result<(Dimensions, Color), ImageError>)
    ensures
        final(image).origin() == old(image).origin(),
        agrees(read, final(image)@, header(old(image)@)),
{
    let (name, payload) = read_chunk(image)?;
    if !is_name(name, 0x49, 0x48, 0x44, 0x52) {
        return Err(ImageError::CorruptImage(Corruption::NotIhdr));
    }
    read_header_fields(payload)
}

fn read_fctls(image: &mut ByteSource) -> (read: Result<Option<usize>, ImageError>)
    ensures
        final(image).origin() == old(image).origin(),
        match frame_controls(old(image)@, 0) {
            Ok((count, rest)) => read == Ok::<Option<usize>, ImageError>(frames_from(count, 1))
                && final(image)@ == rest,
            Err(e) => read == Err::<Option<usize>, ImageError>(e),
        },
{
    proof {
        image.lemma_unread_fits();
    }
    let mut result: usize = 0;
    loop
        invariant
            image.origin() == old(image).origin(),
            result + image@.len() <= usize::MAX,
            frame_controls(image@, result as nat) == frame_controls(old(image)@, 0),
        decreases image@.len(),
    {
        let ghost s = image@;
        let length = image.read_u32_be()?;
        let name = image.read_exact(4)?;
        assert(name@ == s.subrange(4, 8));
        assert(image@ == s.skip(8));
        if is_name(name, 0x66, 0x63, 0x54, 0x4c) {
            result += 1;
        }
        image.skip(length as u64 + 4);
        if is_name(name, 0x49, 0x45, 0x4e, 0x44) {
            return Ok(
                if 0 < result {
                    Some(result)
                } else {
                    None
                },
            );
        }
    }
}

/// Reads the header of a PNG image and counts the frames of its animation.
pub fn load(image: &mut ByteSource) -> (read: Result<ImageMeta, ImageError>)
    ensures
        final(image).origin() == old(image).origin(),
        agrees(read, final(image)@, parse(old(image)@)),
{
    read_signature(image)?;
    let (dimensions, color) = read_header(image)?;
    let animation_frames = read_fctls(image)?;
    Ok(ImageMeta { animation_frames, color, dimensions, format: Format::Png })
}

} // verus!
