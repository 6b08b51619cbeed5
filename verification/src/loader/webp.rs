//! WebP: a RIFF container of form type `WEBP`, whose chunks give the
//! dimensions in one of three encodings and count the animation frames.

use vstd::prelude::*;

use crate::endian::le_u32;
use crate::errors::{Corruption, ImageError};
use crate::loader::riff::{
    behind_chunk, chunk_size, opening, payload_of, remain_behind, Chunk, RiffReader,
};
use crate::source::{agrees, carries_over, lemma_prefix_parts, ByteSource, Parsed};
use crate::types::{frames_from, Color, ColorMode, Dimensions, Format, ImageMeta};

verus! {

/// The bytes of `WEBP`.
pub open spec fn form_type() -> Seq<u8> {
    seq![0x57u8, 0x45, 0x42, 0x50]
}

/// The bytes of `ANMF`.
pub open spec fn anmf() -> Seq<u8> {
    seq![0x41u8, 0x4e, 0x4d, 0x46]
}

/// The bytes of `VP8` and a space.
pub open spec fn vp8_tag() -> Seq<u8> {
    seq![0x56u8, 0x50, 0x38, 0x20]
}

/// The bytes of `VP8L`.
pub open spec fn vp8l_tag() -> Seq<u8> {
    seq![0x56u8, 0x50, 0x38, 0x4c]
}

/// The bytes of `VP8X`.
pub open spec fn vp8x_tag() -> Seq<u8> {
    seq![0x56u8, 0x50, 0x38, 0x58]
}

/// The colour model reported for every image of this format, whatever its
/// chunks hold.
pub open spec fn color() -> Color {
    Color { alpha_channel: true, mode: ColorMode::Rgb, resolution: 8 }
}

/// The fourteen-bit size in a two-byte field of a key frame header: the low
/// byte, and above it the low six bits of the high byte.
pub open spec fn size_of(low: u8, high: u8) -> int {
    (high as int % 0x40) * 0x100 + low as int
}

/// The two-bit scale in a two-byte field of a key frame header: the top two
/// bits of the high byte.
pub open spec fn scale_of(high: u8) -> int {
    high as int / 0x40
}

/// The dimensions in the payload of a `VP8 ` chunk: a frame tag of three
/// bytes, whose lowest bit is clear in a key frame; the start code; then
/// width and height, two bytes each.
pub open spec fn vp8(s: Seq<u8>) -> Parsed<Dimensions> {
    if s.len() < 3 {
        Err(ImageError::Io)
    } else if s[0] as int % 2 != 0 {
        Err(ImageError::CorruptImage(Corruption::NotKeyFrame))
    } else if s.len() < 6 {
        Err(ImageError::Io)
    } else if s[3] != 0x9d || s[4] != 0x01 || s[5] != 0x2a {
        Err(ImageError::CorruptImage(Corruption::KeyFrameCode(s[3], s[4], s[5])))
    } else if s.len() < 10 {
        Err(ImageError::Io)
    } else {
        Ok(
            (
                Dimensions {
                    height: size_of(s[8], s[9]) as u32,
                    width: size_of(s[6], s[7]) as u32,
                },
                s.skip(10),
            ),
        )
    }
}

/// The dimensions in the payload of a `VP8L` chunk: behind the signature
/// byte, fourteen bits of width less one and fourteen bits of height less
/// one, packed from the lowest bit up.
pub open spec fn vp8l(s: Seq<u8>) -> Parsed<Dimensions> {
    if s.len() < 1 {
        Err(ImageError::Io)
    } else if s[0] != 0x2f {
        Err(ImageError::CorruptImage(Corruption::LosslessSignature(s[0])))
    } else if s.len() < 5 {
        Err(ImageError::Io)
    } else {
        Ok(
            (
                Dimensions {
                    height: ((s[4] as int % 0x10) * 0x400 + (s[3] as int) * 4 + s[2] as int / 0x40
                        + 1) as u32,
                    width: ((s[2] as int % 0x40) * 0x100 + s[1] as int + 1) as u32,
                },
                s.skip(5),
            ),
        )
    }
}

/// The number that the first three bytes of `s` spell, low byte first.
pub open spec fn le_u24(s: Seq<u8>) -> int
    recommends
        s.len() >= 3,
{
    s[0] as int + 0x100 * (s[1] as int) + 0x1_0000 * (s[2] as int)
}

/// The dimensions in the payload of a `VP8X` chunk: behind four bytes of
/// flags, three bytes of width less one and three of height less one.
pub open spec fn vp8x(s: Seq<u8>) -> Parsed<Dimensions> {
    if s.len() < 10 {
        Err(ImageError::Io)
    } else {
        Ok(
            (
                Dimensions {
                    height: (le_u24(s.skip(7)) + 1) as u32,
                    width: (le_u24(s.skip(4)) + 1) as u32,
                },
                s.skip(10),
            ),
        )
    }
}

/// What the chunk with identifier `id` and payload `payload` makes of the
/// dimensions known so far: a chunk of one of the three image encodings
/// replaces them, any other leaves them.
pub open spec fn dimensions_behind(
    id: Seq<u8>,
    payload: Seq<u8>,
    dimensions: Option<Dimensions>,
) -> Result<Option<Dimensions>, ImageError> {
    let read = if id == vp8_tag() {
        Some(vp8(payload))
    } else if id == vp8l_tag() {
        Some(vp8l(payload))
    } else if id == vp8x_tag() {
        Some(vp8x(payload))
    } else {
        None
    };
    match read {
        Some(Ok((found, _))) => Ok(Some(found)),
        Some(Err(e)) => Err(e),
        None => Ok(dimensions),
    }
}

/// The number of animation frames and the dimensions behind the chunks of a
/// container whose unread bytes are `s`, of which `remain` are declared to
/// belong to it, given the `frames` counted and the `dimensions` known
/// before.
pub open spec fn chunks(
    s: Seq<u8>,
    remain: nat,
    frames: nat,
    dimensions: Option<Dimensions>,
) -> Parsed<(nat, Option<Dimensions>)>
    decreases s.len(),
{
    if remain == 0 {
        Ok(((frames, dimensions), s))
    } else if s.len() < 8 {
        Err(ImageError::Io)
    } else {
        match dimensions_behind(s.take(4), payload_of(s), dimensions) {
            Ok(found) => chunks(
                behind_chunk(s),
                remain_behind(remain, s),
                if s.take(4) == anmf() {
                    frames + 1
                } else {
                    frames
                },
                found,
            ),
            Err(e) => Err(e),
        }
    }
}

/// The number of animation frames that are counted and the dimensions that
/// are known by the time the walk over the chunks ends: where the declared
/// bytes are used up, or where it fails. A chunk whose payload cannot be
/// read changes neither.
pub open spec fn walked(
    s: Seq<u8>,
    remain: nat,
    frames: nat,
    dimensions: Option<Dimensions>,
) -> (nat, Option<Dimensions>)
    decreases s.len(),
{
    if remain == 0 || s.len() < 8 {
        (frames, dimensions)
    } else {
        match dimensions_behind(s.take(4), payload_of(s), dimensions) {
            Ok(found) => walked(
                behind_chunk(s),
                remain_behind(remain, s),
                if s.take(4) == anmf() {
                    frames + 1
                } else {
                    frames
                },
                found,
            ),
            Err(_) => (frames, dimensions),
        }
    }
}

/// What the decoder makes of a whole stream. An animation is reported from
/// two frames on.
pub open spec fn parse(s: Seq<u8>) -> Parsed<ImageMeta> {
    match opening(s) {
        Err(e) => Err(e),
        Ok((form, remain)) => if form != form_type() {
            Err(ImageError::InvalidSignature)
        } else {
            match chunks(s.skip(12), remain, 0, None) {
                Err(e) => Err(e),
                Ok(((_, None), _)) => Err(ImageError::CorruptImage(Corruption::ChunkNotFound)),
                Ok(((frames, Some(dimensions)), rest)) => Ok(
                    (
                        ImageMeta {
                            animation_frames: frames_from(frames, 2),
                            color: color(),
                            dimensions,
                            format: Format::Webp,
                        },
                        rest,
                    ),
                ),
            }
        },
    }
}

/// The walk over the chunks fails only for want of bytes or on a broken
/// rule of the format.
pub proof fn lemma_chunks_failures(
    s: Seq<u8>,
    remain: nat,
    frames: nat,
    dimensions: Option<Dimensions>,
)
    ensures
        chunks(s, remain, frames, dimensions) matches Err(e) ==> e == ImageError::Io
            || e is CorruptImage,
    decreases s.len(),
{
    if remain != 0 && s.len() >= 8 {
        if let Ok(found) = dimensions_behind(s.take(4), payload_of(s), dimensions) {
            lemma_chunks_failures(
                behind_chunk(s),
                remain_behind(remain, s),
                if s.take(4) == anmf() {
                    frames + 1
                } else {
                    frames
                },
                found,
            );
        }
    }
}

/// A chunk that claims at least the bytes that are left of the declared
/// size is the last one that is read: the count of what is left stops at
/// nothing.
pub proof fn lemma_overlong_chunk_is_last(
    s: Seq<u8>,
    remain: nat,
    frames: nat,
    dimensions: Option<Dimensions>,
)
    requires
        remain > 0,
        s.len() >= 8,
        chunk_size(s) + 8 >= remain,
    ensures
        remain_behind(remain, s) == 0,
        chunks(s, remain, frames, dimensions) == match dimensions_behind(
            s.take(4),
            payload_of(s),
            dimensions,
        ) {
            Ok(found) => Ok(
                (
                    (
                        if s.take(4) == anmf() {
                            frames + 1
                        } else {
                            frames
                        },
                        found,
                    ),
                    behind_chunk(s),
                ),
            ),
            Err(e) => Err(e),
        },
{
    if let Ok(found) = dimensions_behind(s.take(4), payload_of(s), dimensions) {
        assert(chunks(
            behind_chunk(s),
            0,
            if s.take(4) == anmf() {
                frames + 1
            } else {
                frames
            },
            found,
        ) is Ok);
    }
}

/// A container that declares no room for chunks, or that ends within its
/// header, holds no image: the decoder fails on it.
pub proof fn lemma_empty_container(s: Seq<u8>)
    requires
        s.len() < 12 || le_u32(s.skip(4)) <= 4,
    ensures
        parse(s) is Err,
        opening(s) is Ok && s.subrange(8, 12) == form_type() ==> parse(s) == Err::<
            (ImageMeta, Seq<u8>),
            ImageError,
        >(ImageError::CorruptImage(Corruption::ChunkNotFound)),
{
}

/// Bytes that follow a payload change nothing of the dimensions that are
/// read from it, unless the payload ended before them.
pub proof fn lemma_payload_extends(s: Seq<u8>, t: Seq<u8>)
    requires
        s.is_prefix_of(t),
    ensures
        carries_over(vp8(s), vp8(t)),
        carries_over(vp8l(s), vp8l(t)),
        carries_over(vp8x(s), vp8x(t)),
{
    lemma_prefix_parts(s, t, 10);
    lemma_prefix_parts(s, t, 5);
    if s.len() >= 10 {
        lemma_prefix_parts(s.skip(4), t.skip(4), 3);
        lemma_prefix_parts(s.skip(7), t.skip(7), 3);
    }
}

/// Bytes that follow a stream change nothing of what the chunks of a
/// container in it give, unless the stream ended within what was needed of
/// them.
pub proof fn lemma_chunks_extend(
    s: Seq<u8>,
    t: Seq<u8>,
    remain: nat,
    frames: nat,
    dimensions: Option<Dimensions>,
)
    requires
        s.is_prefix_of(t),
    ensures
        carries_over(chunks(s, remain, frames, dimensions), chunks(t, remain, frames, dimensions)),
    decreases s.len(),
{
    lemma_prefix_parts(s, t, 8);
    if remain != 0 && s.len() >= 8 {
        lemma_prefix_parts(s, t, 4);
        lemma_prefix_parts(s.skip(4), t.skip(4), 4);
        let size = chunk_size(s);
        assert(size == chunk_size(t));
        lemma_prefix_parts(s.skip(8), t.skip(8), size);
        assert(payload_of(s).is_prefix_of(payload_of(t))) by {
            if size <= s.len() - 8 {
                assert(s.subrange(8, 8 + size) =~= t.subrange(8, 8 + size));
            } else if size <= t.len() - 8 {
                assert(s.skip(8) =~= t.subrange(8, 8 + size).subrange(0, s.len() - 8));
            }
        }
        lemma_payload_extends(payload_of(s), payload_of(t));
        if let Ok(found) = dimensions_behind(s.take(4), payload_of(s), dimensions) {
            lemma_chunks_extend(
                behind_chunk(s),
                behind_chunk(t),
                remain_behind(remain, s),
                if s.take(4) == anmf() {
                    frames + 1
                } else {
                    frames
                },
                found,
            );
        }
    }
}

/// Bytes that follow a stream change nothing of what the decoder makes of
/// it, unless the stream ended before the decoder had read what it needs.
pub proof fn lemma_parse_extends(s: Seq<u8>, t: Seq<u8>)
    requires
        s.is_prefix_of(t),
    ensures
        carries_over(parse(s), parse(t)),
{
    lemma_prefix_parts(s, t, 4);
    lemma_prefix_parts(s, t, 12);
    if s.len() >= 12 {
        lemma_prefix_parts(s.skip(4), t.skip(4), 4);
        assert(s.subrange(8, 12) =~= t.subrange(8, 12));
        lemma_chunks_extend(s.skip(12), t.skip(12), opening(s)->Ok_0.1, 0, None);
    }
}

/// Whether `c` is one chunk and nothing else, with a payload that can be
/// read: the identifier, the size, and a payload of that size, which gives
/// dimensions where the identifier names an image encoding.
pub open spec fn is_whole_chunk(c: Seq<u8>) -> bool {
    &&& c.len() >= 8
    &&& chunk_size(c) == c.len() - 8
    &&& dimensions_behind(c.take(4), c.skip(8), None) is Ok
}

/// The number of bytes that `chunks` take together.
pub open spec fn total(chunks: Seq<Seq<u8>>) -> nat
    decreases chunks.len(),
{
    if chunks.len() == 0 {
        0
    } else {
        chunks[0].len() + total(chunks.skip(1))
    }
}

/// The number of chunks named `ANMF` among `chunks`.
pub open spec fn animation_chunks(chunks: Seq<Seq<u8>>) -> nat
    decreases chunks.len(),
{
    if chunks.len() == 0 {
        0
    } else if chunks[0].take(4) == anmf() {
        1 + animation_chunks(chunks.skip(1))
    } else {
        animation_chunks(chunks.skip(1))
    }
}

/// The dimensions that are known behind `chunks`, given those known before:
/// those of the last chunk of an image encoding, where there is one.
pub open spec fn dimensions_after(chunks: Seq<Seq<u8>>, dimensions: Option<Dimensions>) -> Option<
    Dimensions,
>
    decreases chunks.len(),
{
    if chunks.len() == 0 {
        dimensions
    } else {
        match dimensions_behind(chunks[0].take(4), chunks[0].skip(8), dimensions) {
            Ok(found) => dimensions_after(chunks.skip(1), found),
            Err(_) => dimensions,
        }
    }
}

/// The stream that holds `chunks` one behind the other, then `tail`.
pub open spec fn chunk_stream(chunks: Seq<Seq<u8>>, tail: Seq<u8>) -> Seq<u8>
    decreases chunks.len(),
{
    if chunks.len() == 0 {
        tail
    } else {
        chunks[0] + chunk_stream(chunks.skip(1), tail)
    }
}

/// Every animation frame counts once: on a container that declares the
/// bytes of its chunks, all whole and readable, the walk adds the number of
/// the chunks named `ANMF` to the count, knows the dimensions of the last
/// image chunk, and leaves unread what follows the chunks.
pub proof fn lemma_chunks_count_frames(
    chunks: Seq<Seq<u8>>,
    tail: Seq<u8>,
    frames: nat,
    dimensions: Option<Dimensions>,
)
    requires
        forall|i: int| 0 <= i < chunks.len() ==> is_whole_chunk(#[trigger] chunks[i]),
    ensures
        self::chunks(chunk_stream(chunks, tail), total(chunks), frames, dimensions) == Ok::<
            ((nat, Option<Dimensions>), Seq<u8>),
            ImageError,
        >(((frames + animation_chunks(chunks), dimensions_after(chunks, dimensions)), tail)),
        walked(chunk_stream(chunks, tail), total(chunks), frames, dimensions) == (
            frames + animation_chunks(chunks),
            dimensions_after(chunks, dimensions),
        ),
    decreases chunks.len(),
{
    let s = chunk_stream(chunks, tail);
    if chunks.len() > 0 {
        let first = chunks[0];
        let behind = chunk_stream(chunks.skip(1), tail);
        assert(is_whole_chunk(first));
        assert(s.take(4) == first.take(4));
        assert(s.skip(4).take(4) == first.skip(4).take(4));
        assert(chunk_size(s) == chunk_size(first));
        assert(s.subrange(8, 8 + chunk_size(s)) == first.skip(8));
        assert(s.skip(8).skip(chunk_size(s)) == behind);
        assert(remain_behind(total(chunks), s) == total(chunks.skip(1)));
        assert forall|i: int| 0 <= i < chunks.skip(1).len() implies is_whole_chunk(
            #[trigger] chunks.skip(1)[i],
        ) by {
            assert(chunks.skip(1)[i] == chunks[i + 1]);
        }
        let found = dimensions_behind(first.take(4), first.skip(8), dimensions);
        assert(found is Ok);
        lemma_chunks_count_frames(
            chunks.skip(1),
            tail,
            if first.take(4) == anmf() {
                frames + 1
            } else {
                frames
            },
            found->Ok_0,
        );
    }
}

/// The decoder reports the number of animation frames of a well-formed
/// container from two on, and no animation below: a container of form type
/// `WEBP` that declares the bytes of its chunks, all whole and readable, of
/// which one at least gives dimensions.
pub proof fn lemma_parse_counts_frames(s: Seq<u8>, chunks: Seq<Seq<u8>>, tail: Seq<u8>)
    requires
        opening(s) == Ok::<(Seq<u8>, nat), ImageError>((form_type(), total(chunks))),
        s.skip(12) == chunk_stream(chunks, tail),
        forall|i: int| 0 <= i < chunks.len() ==> is_whole_chunk(#[trigger] chunks[i]),
        dimensions_after(chunks, None) is Some,
    ensures
        parse(s) matches Ok((meta, rest)) && rest == tail && meta.dimensions == dimensions_after(
            chunks,
            None,
        )->Some_0 && meta.animation_frames == (if animation_chunks(chunks) > 1 {
            Some(animation_chunks(chunks) as usize)
        } else {
            None
        }),
{
    lemma_chunks_count_frames(chunks, tail, 0, None);
}

/// Whether `id` is the four bytes given.
fn is_tag(id: &[u8; 4], a: u8, b: u8, c: u8, d: u8) -> (same: bool)
    ensures
        same == (id@ == seq![a, b, c, d]),
{
    let ghost tag = seq![a, b, c, d];
    assert(tag.len() == 4 && tag[0] == a && tag[1] == b && tag[2] == c && tag[3] == d);
    if id[0] == a && id[1] == b && id[2] == c && id[3] == d {
        assert(id@ =~= tag);
        true
    } else {
        false
    }
}

/// Walks the chunks of a WebP container.
pub struct WebpReader<'a> {
    animation_frames: usize,
    dimensions: Option<Dimensions>,
    riff: RiffReader<'a>,
}

impl<'a> WebpReader<'a> {
    /// The number of animation frames counted so far.
    pub closed spec fn frames(&self) -> nat {
        self.animation_frames as nat
    }

    /// The dimensions that the last image chunk gave, if there was one.
    pub closed spec fn found(&self) -> Option<Dimensions> {
        self.dimensions
    }

    /// The container that is read.
    pub closed spec fn container(&self) -> RiffReader<'a> {
        self.riff
    }

    /// A reader at the start of `riff`, with nothing counted or found.
    pub fn new(riff: RiffReader<'a>) -> (reader: Self)
        ensures
            reader.frames() == 0,
            reader.found() is None,
            reader.container() == riff,
    {
        Self { animation_frames: 0, dimensions: None, riff }
    }

    fn read(&mut self) -> (read: Result<(), ImageError>)
        requires
            old(self).animation_frames + old(self).riff.unread().len() <= usize::MAX,
        ensures
            final(self).riff.origin() == old(self).riff.origin(),
            old(self).riff.form() != form_type() ==> {
                &&& read == Err::<(), ImageError>(ImageError::InvalidSignature)
                &&& final(self).animation_frames == old(self).animation_frames
                &&& final(self).dimensions == old(self).dimensions
                &&& final(self).riff.unread() == old(self).riff.unread()
                &&& final(self).riff.remain() == old(self).riff.remain()
            },
            old(self).riff.form() == form_type() ==> (
            final(self).animation_frames as nat,
            final(self).dimensions,
        ) == walked(
                old(self).riff.unread(),
                old(self).riff.remain(),
                old(self).animation_frames as nat,
                old(self).dimensions,
            ),
            old(self).riff.form() == form_type() ==> match chunks(
                old(self).riff.unread(),
                old(self).riff.remain(),
                old(self).animation_frames as nat,
                old(self).dimensions,
            ) {
                Ok(((frames, dimensions), rest)) => {
                    &&& read is Ok
                    &&& final(self).animation_frames == frames
                    &&& final(self).dimensions == dimensions
                    &&& final(self).riff.unread() == rest
                },
                Err(e) => read == Err::<(), ImageError>(e),
            },
    {
        if !is_tag(self.riff.form_type(), 0x57, 0x45, 0x42, 0x50) {
            return Err(ImageError::InvalidSignature);
        }
        loop
            invariant
                self.riff.origin() == old(self).riff.origin(),
                self.riff.form() == form_type(),
                old(self).riff.form() == form_type(),
                self.animation_frames + self.riff.unread().len() <= usize::MAX,
                chunks(
                    self.riff.unread(),
                    self.riff.remain(),
                    self.animation_frames as nat,
                    self.dimensions,
                ) == chunks(
                    old(self).riff.unread(),
                    old(self).riff.remain(),
                    old(self).animation_frames as nat,
                    old(self).dimensions,
                ),
                walked(
                    self.riff.unread(),
                    self.riff.remain(),
                    self.animation_frames as nat,
                    self.dimensions,
                ) == walked(
                    old(self).riff.unread(),
                    old(self).riff.remain(),
                    old(self).animation_frames as nat,
                    old(self).dimensions,
                ),
            decreases self.riff.unread().len(),
        {
            let mut chunk = match self.riff.read_chunk()? {
                Some(chunk) => chunk,
                None => {
                    return Ok(());
                },
            };
            if is_tag(chunk.identifier(), 0x41, 0x4e, 0x4d, 0x46) {
                self.animation_frames += 1;
            } else if is_tag(chunk.identifier(), 0x56, 0x50, 0x38, 0x20) {
                self.dimensions = Some(read_vp8_chunk(&mut chunk)?);
            } else if is_tag(chunk.identifier(), 0x56, 0x50, 0x38, 0x4c) {
                self.dimensions = Some(read_vp8l_chunk(&mut chunk)?);
            } else if is_tag(chunk.identifier(), 0x56, 0x50, 0x38, 0x58) {
                self.dimensions = Some(read_vp8x_chunk(&mut chunk)?);
            }
        }
    }
}

/// Splits a two-byte field of a key frame header into its size and its
/// scale.
pub fn extract_dimension(bits: [u8; 2]) -> (parts: (u16, u8))
    ensures
        parts.0 == size_of(bits[0], bits[1]),
        parts.1 == scale_of(bits[1]),
{
    let low = bits[0];
    let high = bits[1];
    let size = ((high & 0b0011_1111) as u16) << 8 | (low as u16);
    let scale = (high & 0b1100_0000) >> 6;
    assert(size == (high % 0x40) as u16 * 0x100 + low as u16) by (bit_vector)
        requires
            size == ((high & 0b0011_1111) as u16) << 8 | (low as u16),
    ;
    assert(scale == high / 0x40) by (bit_vector)
        requires
            scale == (high & 0b1100_0000) >> 6,
    ;
    (size, scale)
}

fn read_vp8_chunk(chunk: &mut Chunk) -> (read: Result<Dimensions, ImageError>)
    ensures
        final(chunk).identifier == old(chunk).identifier,
        final(chunk).payload.origin() == old(chunk).payload.origin(),
        agrees(read, final(chunk).payload@, vp8(old(chunk).payload@)),
{
    let ghost s = chunk.payload@;
    let bits = chunk.payload.read_exact(3)?;
    let first = bits[0];
    let key_frame = 0 == first & 1;
    assert(key_frame == (first % 2 == 0)) by (bit_vector)
        requires
            key_frame == (0 == first & 1),
    ;
    if !key_frame {
        return Err(ImageError::CorruptImage(Corruption::NotKeyFrame));
    }
    let code = chunk.payload.read_exact(3)?;
    if code[0] != 0x9d || code[1] != 0x01 || code[2] != 0x2a {
        return Err(ImageError::CorruptImage(Corruption::KeyFrameCode(code[0], code[1], code[2])));
    }
    let bits = match chunk.payload.read_exact(2) {
        Ok(bits) => bits,
        Err(e) => {
            return Err(e);
        },
    };
    let (width, _) = extract_dimension([bits[0], bits[1]]);
    let bits = chunk.payload.read_exact(2)?;
    let (height, _) = extract_dimension([bits[0], bits[1]]);
    assert(chunk.payload@ == s.skip(10));
    Ok(Dimensions { width: width as u32, height: height as u32 })
}

fn read_vp8l_chunk(chunk: &mut Chunk) -> (read: Result<Dimensions, ImageError>)
    ensures
        final(chunk).identifier == old(chunk).identifier,
        final(chunk).payload.origin() == old(chunk).payload.origin(),
        agrees(read, final(chunk).payload@, vp8l(old(chunk).payload@)),
{
    let ghost s = chunk.payload@;
    let signature = chunk.payload.read_u8()?;
    if signature != 0x2f {
        return Err(ImageError::CorruptImage(Corruption::LosslessSignature(signature)));
    }
    let bits = chunk.payload.read_exact(4)?;
    let b0 = bits[0];
    let b1 = bits[1];
    let b2 = bits[2];
    let b3 = bits[3];
    let width = ((b1 & 0b0011_1111) as u16) << 8 | (b0 as u16);
    let height = ((b3 & 0b0000_1111) as u16) << 10 | (b2 as u16) << 2 | ((b1 & 0b1100_0000) as u16)
        >> 6;
    assert(width == (b1 % 0x40) as u16 * 0x100 + b0 as u16) by (bit_vector)
        requires
            width == ((b1 & 0b0011_1111) as u16) << 8 | (b0 as u16),
    ;
    assert(height == (b3 % 0x10) as u16 * 0x400 + (b2 as u16) * 4 + (b1 / 0x40) as u16)
        by (bit_vector)
        requires
            height == ((b3 & 0b0000_1111) as u16) << 10 | (b2 as u16) << 2 | ((b1
                & 0b1100_0000) as u16) >> 6,
    ;
    assert(chunk.payload@ == s.skip(5));
    Ok(Dimensions { width: width as u32 + 1, height: height as u32 + 1 })
}

fn read_vp8x_chunk(chunk: &mut Chunk) -> (read: Result<Dimensions, ImageError>)
    ensures
        final(chunk).identifier == old(chunk).identifier,
        final(chunk).payload.origin() == old(chunk).payload.origin(),
        agrees(read, final(chunk).payload@, vp8x(old(chunk).payload@)),
{
    let ghost s = chunk.payload@;
    let _flags = chunk.payload.read_u32_le()?;
    let bits = chunk.payload.read_exact(6)?;
    let b0 = bits[0];
    let b1 = bits[1];
    let b2 = bits[2];
    let b3 = bits[3];
    let b4 = bits[4];
    let b5 = bits[5];
    let width = (b2 as u32) << 16 | (b1 as u32) << 8 | (b0 as u32);
    let height = (b5 as u32) << 16 | (b4 as u32) << 8 | (b3 as u32);
    assert(width == b0 as u32 + 0x100 * (b1 as u32) + 0x1_0000 * (b2 as u32)) by (bit_vector)
        requires
            width == (b2 as u32) << 16 | (b1 as u32) << 8 | (b0 as u32),
    ;
    assert(height == b3 as u32 + 0x100 * (b4 as u32) + 0x1_0000 * (b5 as u32)) by (bit_vector)
        requires
            height == (b5 as u32) << 16 | (b4 as u32) << 8 | (b3 as u32),
    ;
    assert(chunk.payload@ == s.skip(10));
    Ok(Dimensions { width: width + 1, height: height + 1 })
}

/// Reads the header of a WebP image.
pub fn load(image: &mut ByteSource) -> (read: Result<ImageMeta, ImageError>)
    ensures
        final(image).origin() == old(image).origin(),
        agrees(read, final(image)@, parse(old(image)@)),
{
    proof {
        image.lemma_unread_fits();
    }
    let mut reader = WebpReader::new(RiffReader::open(*image)?);
    reader.read()?;
    let WebpReader { animation_frames, dimensions, riff } = reader;
    *image = riff.into_inner();
    let dimensions = match dimensions {
        Some(dimensions) => dimensions,
        None => {
            return Err(ImageError::CorruptImage(Corruption::ChunkNotFound));
        },
    };
    let animation_frames = if 1 < animation_frames {
        Some(animation_frames)
    } else {
        None
    };
    let color = Color { alpha_channel: true, mode: ColorMode::Rgb, resolution: 8 };
    Ok(ImageMeta { animation_frames, color, dimensions, format: Format::Webp })
}

} // verus!
