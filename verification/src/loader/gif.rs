//! GIF: a signature, the logical screen descriptor with an optional colour
//! table, and a stream of blocks in which every image descriptor is one
//! frame.

use vstd::arithmetic::power2::{lemma2_to64, pow2};
use vstd::prelude::*;

use crate::endian::le_u16;
use crate::errors::{Corruption, ImageError, ImageResult};
use crate::source::{
    after, agrees, carries_over, lemma_prefix_parts, same_bytes, ByteSource, Parsed,
};
use crate::types::{frames_from, Color, ColorMode, Dimensions, Format, ImageMeta};

verus! {

/// The bytes of `GIF87a`.
pub open spec fn signature_87a() -> Seq<u8> {
    seq![0x47u8, 0x49, 0x46, 0x38, 0x37, 0x61]
}

/// The bytes of `GIF89a`.
pub open spec fn signature_89a() -> Seq<u8> {
    seq![0x47u8, 0x49, 0x46, 0x38, 0x39, 0x61]
}

/// The colour resolution field of a packed byte: its bits 6 to 4.
pub open spec fn resolution_field(packed: u8) -> nat {
    ((packed as int / 0x10) % 8) as nat
}

/// The number of bytes that the colour table takes which a packed byte
/// announces: none where its top bit is clear, else three bytes for each
/// entry of a table of `2 << f` entries, `f` being the resolution field.
pub open spec fn table_bytes(packed: u8) -> nat {
    if packed >= 0x80 {
        3 * (2 * pow2(resolution_field(packed)))
    } else {
        0
    }
}

/// The logical screen descriptor behind the signature: width, height and
/// the packed byte; behind it the background colour index, the aspect ratio
/// and the global colour table are passed over.
pub open spec fn header(s: Seq<u8>) -> Parsed<(Dimensions, Color)> {
    if s.len() < 5 {
        Err(ImageError::Io)
    } else {
        Ok(
            (
                (
                    Dimensions { height: le_u16(s.skip(2)) as u32, width: le_u16(s) as u32 },
                    Color {
                        alpha_channel: false,
                        mode: ColorMode::Indexed,
                        resolution: (resolution_field(s[4]) + 1) as u8,
                    },
                ),
                after(s.skip(5), table_bytes(s[4]) as int + 2),
            ),
        )
    }
}

/// A sequence of data sub-blocks, each a length byte and that many bytes,
/// up to and with the sub-block of length zero that ends it.
pub open spec fn sub_blocks(s: Seq<u8>) -> Parsed<()>
    decreases s.len(),
{
    if s.len() < 1 {
        Err(ImageError::Io)
    } else if s[0] == 0 {
        Ok(((), s.skip(1)))
    } else {
        sub_blocks(after(s.skip(1), s[0] as int))
    }
}

/// Whether a label names one of the four kinds of extension: plain text,
/// graphic control, comment, application.
pub open spec fn known_extension(label: u8) -> bool {
    label == 0x01 || label == 0xf9 || label == 0xfe || label == 0xff
}

/// An extension block behind its introducer: a known label, then data
/// sub-blocks.
pub open spec fn extension(s: Seq<u8>) -> Parsed<()> {
    if s.len() < 1 {
        Err(ImageError::Io)
    } else if !known_extension(s[0]) {
        Err(ImageError::CorruptImage(Corruption::UnknownExtension(s[0])))
    } else {
        sub_blocks(s.skip(1))
    }
}

/// An image behind its separator: eight bytes of position and size, a
/// packed byte, the local colour table that it announces, one byte of code
/// size, then data sub-blocks.
pub open spec fn image_data(s: Seq<u8>) -> Parsed<()> {
    if after(s, 8).len() < 1 {
        Err(ImageError::Io)
    } else {
        sub_blocks(after(after(s, 8).skip(1), table_bytes(after(s, 8)[0]) as int + 1))
    }
}

/// The number of images among the blocks of `s` up to the trailer, added to
/// `frames`.
pub open spec fn blocks(s: Seq<u8>, frames: nat) -> Parsed<nat>
    decreases s.len(),
    via blocks_decreases
{
    if s.len() < 1 {
        Err(ImageError::Io)
    } else if s[0] == 0x21 {
        match extension(s.skip(1)) {
            Ok((_, rest)) => blocks(rest, frames),
            Err(e) => Err(e),
        }
    } else if s[0] == 0x2c {
        match image_data(s.skip(1)) {
            Ok((_, rest)) => blocks(rest, frames + 1),
            Err(e) => Err(e),
        }
    } else if s[0] == 0x3b {
        Ok((frames, s.skip(1)))
    } else {
        Err(ImageError::CorruptImage(Corruption::UnknownBlock(s[0])))
    }
}

/// The number of images that are counted by the time the walk over the
/// blocks of `s` ends, added to `frames`: at the trailer, or where it fails.
/// An image counts once it has been passed over whole.
pub open spec fn counted(s: Seq<u8>, frames: nat) -> nat
    decreases s.len(),
    via counted_decreases
{
    if s.len() < 1 {
        frames
    } else if s[0] == 0x21 {
        match extension(s.skip(1)) {
            Ok((_, rest)) => counted(rest, frames),
            Err(_) => frames,
        }
    } else if s[0] == 0x2c {
        match image_data(s.skip(1)) {
            Ok((_, rest)) => counted(rest, frames + 1),
            Err(_) => frames,
        }
    } else {
        frames
    }
}

#[via_fn]
proof fn counted_decreases(s: Seq<u8>, frames: nat) {
    if s.len() >= 1 {
        lemma_block_shrinks(s.skip(1));
    }
}

#[via_fn]
proof fn blocks_decreases(s: Seq<u8>, frames: nat) {
    if s.len() >= 1 {
        lemma_block_shrinks(s.skip(1));
    }
}

/// What is behind a run of sub-blocks is shorter than what it was read
/// from.
pub proof fn lemma_sub_blocks_shrink(s: Seq<u8>)
    ensures
        sub_blocks(s) matches Ok((_, rest)) ==> rest.len() < s.len(),
    decreases s.len(),
{
    if s.len() >= 1 && s[0] != 0 {
        lemma_sub_blocks_shrink(after(s.skip(1), s[0] as int));
    }
}

/// What is behind an extension or an image is no longer than what it was
/// read from.
pub proof fn lemma_block_shrinks(s: Seq<u8>)
    ensures
        extension(s) matches Ok((_, rest)) ==> rest.len() < s.len(),
        image_data(s) matches Ok((_, rest)) ==> rest.len() < s.len(),
{
    if s.len() >= 1 {
        lemma_sub_blocks_shrink(s.skip(1));
    }
    if after(s, 8).len() >= 1 {
        lemma_sub_blocks_shrink(after(after(s, 8).skip(1), table_bytes(after(s, 8)[0]) as int + 1));
    }
}

/// What the decoder makes of a whole stream. An animation is reported from
/// two images on.
pub open spec fn parse(s: Seq<u8>) -> Parsed<ImageMeta> {
    if s.len() < 6 {
        Err(ImageError::Io)
    } else if s.take(6) != signature_87a() && s.take(6) != signature_89a() {
        Err(ImageError::InvalidSignature)
    } else {
        match header(s.skip(6)) {
            Err(e) => Err(e),
            Ok(((dimensions, color), behind)) => match blocks(behind, 0) {
                Err(e) => Err(e),
                Ok((frames, rest)) => Ok(
                    (
                        ImageMeta {
                            animation_frames: frames_from(frames, 2),
                            color,
                            dimensions,
                            format: Format::Gif,
                        },
                        rest,
                    ),
                ),
            },
        }
    }
}

/// A run of sub-blocks fails only for want of bytes.
pub proof fn lemma_sub_blocks_failures(s: Seq<u8>)
    ensures
        sub_blocks(s) matches Err(e) ==> e == ImageError::Io,
    decreases s.len(),
{
    if s.len() >= 1 && s[0] != 0 {
        lemma_sub_blocks_failures(after(s.skip(1), s[0] as int));
    }
}

/// The walk over the blocks fails only for want of bytes or on a broken
/// rule of the format.
pub proof fn lemma_blocks_failures(s: Seq<u8>, frames: nat)
    ensures
        blocks(s, frames) matches Err(e) ==> e == ImageError::Io || e is CorruptImage,
    decreases s.len(),
{
    if s.len() >= 1 {
        let behind = s.skip(1);
        lemma_block_shrinks(behind);
        if behind.len() >= 1 {
            lemma_sub_blocks_failures(behind.skip(1));
        }
        if after(behind, 8).len() >= 1 {
            lemma_sub_blocks_failures(
                after(after(behind, 8).skip(1), table_bytes(after(behind, 8)[0]) as int + 1),
            );
        }
        if s[0] == 0x21 {
            if let Ok((_, rest)) = extension(behind) {
                lemma_blocks_failures(rest, frames);
            }
        } else if s[0] == 0x2c {
            if let Ok((_, rest)) = image_data(behind) {
                lemma_blocks_failures(rest, frames + 1);
            }
        }
    }
}

/// Bytes that follow a stream change nothing of how far a run of
/// sub-blocks goes in it, unless the stream ended within the run.
pub proof fn lemma_sub_blocks_extend(s: Seq<u8>, t: Seq<u8>)
    requires
        s.is_prefix_of(t),
    ensures
        carries_over(sub_blocks(s), sub_blocks(t)),
    decreases s.len(),
{
    lemma_prefix_parts(s, t, 1);
    if s.len() >= 1 && s[0] != 0 {
        lemma_prefix_parts(s.skip(1), t.skip(1), s[0] as int);
        lemma_sub_blocks_extend(after(s.skip(1), s[0] as int), after(t.skip(1), t[0] as int));
    }
}

/// Bytes that follow a stream change nothing of the extension or the image
/// that is read from it, unless the stream ended within it.
pub proof fn lemma_block_extends(s: Seq<u8>, t: Seq<u8>)
    requires
        s.is_prefix_of(t),
    ensures
        carries_over(extension(s), extension(t)),
        carries_over(image_data(s), image_data(t)),
{
    lemma_prefix_parts(s, t, 1);
    if s.len() >= 1 {
        lemma_sub_blocks_extend(s.skip(1), t.skip(1));
    }
    lemma_prefix_parts(s, t, 8);
    let short = after(s, 8);
    let long = after(t, 8);
    lemma_prefix_parts(short, long, 1);
    if short.len() >= 1 {
        let step = table_bytes(short[0]) as int + 1;
        lemma_prefix_parts(short.skip(1), long.skip(1), step);
        lemma_sub_blocks_extend(after(short.skip(1), step), after(long.skip(1), step));
    }
}

/// Bytes that follow a stream change nothing of the count of its images,
/// unless the stream ended before its trailer.
pub proof fn lemma_blocks_extend(s: Seq<u8>, t: Seq<u8>, frames: nat)
    requires
        s.is_prefix_of(t),
    ensures
        carries_over(blocks(s, frames), blocks(t, frames)),
    decreases s.len(),
{
    lemma_prefix_parts(s, t, 1);
    if s.len() >= 1 {
        lemma_block_extends(s.skip(1), t.skip(1));
        lemma_block_shrinks(s.skip(1));
        if s[0] == 0x21 {
            if let Ok((_, rest)) = extension(s.skip(1)) {
                lemma_blocks_extend(rest, extension(t.skip(1))->Ok_0.1, frames);
            }
        } else if s[0] == 0x2c {
            if let Ok((_, rest)) = image_data(s.skip(1)) {
                lemma_blocks_extend(rest, image_data(t.skip(1))->Ok_0.1, frames + 1);
            }
        }
    }
}

/// Bytes that follow a stream change nothing of what the decoder makes of
/// it, unless the stream ended before the decoder had read what it needs.
pub proof fn lemma_parse_extends(s: Seq<u8>, t: Seq<u8>)
    requires
        s.is_prefix_of(t),
    ensures
        carries_over(parse(s), parse(t)),
{
    lemma_prefix_parts(s, t, 6);
    if s.len() >= 6 {
        let short = s.skip(6);
        let long = t.skip(6);
        lemma_prefix_parts(short, long, 5);
        lemma_prefix_parts(short, long, 2);
        if short.len() >= 5 {
            let step = table_bytes(short[4]) as int + 2;
            lemma_prefix_parts(short.skip(5), long.skip(5), step);
            lemma_blocks_extend(after(short.skip(5), step), after(long.skip(5), step), 0);
        }
    }
}

/// Whether `b` is one extension block and nothing else: the introducer, a
/// known label, and data sub-blocks up to the one of length zero.
pub open spec fn is_extension_block(b: Seq<u8>) -> bool {
    b.len() >= 1 && b[0] == 0x21 && extension(b.skip(1)) == Ok::<((), Seq<u8>), ImageError>(
        ((), Seq::empty()),
    )
}

/// Whether `b` is one image and nothing else: the separator, the image
/// descriptor with its colour table, and data sub-blocks up to the one of
/// length zero.
pub open spec fn is_image_block(b: Seq<u8>) -> bool {
    b.len() >= 1 && b[0] == 0x2c && image_data(b.skip(1)) == Ok::<((), Seq<u8>), ImageError>(
        ((), Seq::empty()),
    )
}

/// The number of images among `blocks`.
pub open spec fn images(blocks: Seq<Seq<u8>>) -> nat
    decreases blocks.len(),
{
    if blocks.len() == 0 {
        0
    } else if is_image_block(blocks[0]) {
        1 + images(blocks.skip(1))
    } else {
        images(blocks.skip(1))
    }
}

/// The block stream that holds `blocks` one behind the other, then the
/// trailer, then `tail`.
pub open spec fn stream(blocks: Seq<Seq<u8>>, tail: Seq<u8>) -> Seq<u8>
    decreases blocks.len(),
{
    if blocks.len() == 0 {
        seq![0x3bu8] + tail
    } else {
        blocks[0] + stream(blocks.skip(1), tail)
    }
}

/// Bytes behind a run of sub-blocks, an extension or an image that is read
/// whole are left as they are: what is left unread is what was left before,
/// and the bytes that were added.
pub proof fn lemma_block_frames(s: Seq<u8>, more: Seq<u8>)
    ensures
        sub_blocks(s) matches Ok((_, rest)) ==> sub_blocks(s + more) == Ok::<
            ((), Seq<u8>),
            ImageError,
        >(((), rest + more)),
        extension(s) matches Ok((_, rest)) ==> extension(s + more) == Ok::<
            ((), Seq<u8>),
            ImageError,
        >(((), rest + more)),
        image_data(s) matches Ok((_, rest)) ==> image_data(s + more) == Ok::<
            ((), Seq<u8>),
            ImageError,
        >(((), rest + more)),
{
    let t = s + more;
    lemma_sub_blocks_frame(s, more);
    if s.len() >= 1 {
        assert(t.skip(1) == s.skip(1) + more);
        lemma_sub_blocks_frame(s.skip(1), more);
    }
    if after(s, 8).len() >= 1 {
        let short = after(s, 8);
        assert(after(t, 8) == short + more);
        let step = table_bytes(short[0]) as int + 1;
        assert((short + more).skip(1) == short.skip(1) + more);
        if step <= short.len() - 1 {
            assert(after((short + more).skip(1), step) == after(short.skip(1), step) + more);
        }
        lemma_sub_blocks_frame(after(short.skip(1), step), more);
    }
}

/// Bytes behind a run of sub-blocks that is read whole are left as they
/// are.
pub proof fn lemma_sub_blocks_frame(s: Seq<u8>, more: Seq<u8>)
    ensures
        sub_blocks(s) matches Ok((_, rest)) ==> sub_blocks(s + more) == Ok::<
            ((), Seq<u8>),
            ImageError,
        >(((), rest + more)),
    decreases s.len(),
{
    let t = s + more;
    if s.len() >= 1 {
        assert(t.skip(1) == s.skip(1) + more);
        if s[0] != 0 {
            let step = s[0] as int;
            if step <= s.len() - 1 {
                assert(after(t.skip(1), step) == after(s.skip(1), step) + more);
                lemma_sub_blocks_frame(after(s.skip(1), step), more);
            }
        }
    }
}

/// Every image counts once: on a stream of whole extension blocks and
/// images in any order, then the trailer, then any bytes, the walk over the
/// blocks adds the number of the images to the count, and leaves unread the
/// bytes behind the trailer.
pub proof fn lemma_blocks_count_images(blocks: Seq<Seq<u8>>, tail: Seq<u8>, frames: nat)
    requires
        forall|i: int|
            0 <= i < blocks.len() ==> is_extension_block(#[trigger] blocks[i]) || is_image_block(
                blocks[i],
            ),
    ensures
        self::blocks(stream(blocks, tail), frames) == Ok::<(nat, Seq<u8>), ImageError>(
            (frames + images(blocks), tail),
        ),
        counted(stream(blocks, tail), frames) == frames + images(blocks),
    decreases blocks.len(),
{
    let s = stream(blocks, tail);
    if blocks.len() == 0 {
        assert(s.skip(1) == tail);
    } else {
        let first = blocks[0];
        let behind = stream(blocks.skip(1), tail);
        assert(is_extension_block(first) || is_image_block(first));
        assert(s.skip(1) == first.skip(1) + behind);
        assert(Seq::<u8>::empty() + behind == behind);
        lemma_block_frames(first.skip(1), behind);
        assert forall|i: int| 0 <= i < blocks.skip(1).len() implies is_extension_block(
            #[trigger] blocks.skip(1)[i],
        ) || is_image_block(blocks.skip(1)[i]) by {
            assert(blocks.skip(1)[i] == blocks[i + 1]);
        }
        lemma_blocks_count_images(
            blocks.skip(1),
            tail,
            if is_image_block(first) {
                frames + 1
            } else {
                frames
            },
        );
    }
}

/// The decoder reports the number of images of a well-formed stream from
/// two images on, and no animation below: behind a signature and a logical
/// screen descriptor, on whole extension blocks and images in any order,
/// then the trailer, then any bytes.
pub proof fn lemma_parse_counts_images(s: Seq<u8>, blocks: Seq<Seq<u8>>, tail: Seq<u8>)
    requires
        s.len() >= 6,
        s.take(6) == signature_87a() || s.take(6) == signature_89a(),
        header(s.skip(6)) matches Ok((_, behind)) && behind == stream(blocks, tail),
        forall|i: int|
            0 <= i < blocks.len() ==> is_extension_block(#[trigger] blocks[i]) || is_image_block(
                blocks[i],
            ),
    ensures
        parse(s) matches Ok((meta, rest)) && rest == tail && meta.animation_frames == (if images(
            blocks,
        ) > 1 {
            Some(images(blocks) as usize)
        } else {
            None
        }),
{
    lemma_blocks_count_images(blocks, tail, 0);
}

struct BlockReader {
    frames: usize,
}

fn read_signature(image: &mut ByteSource) -> (read: Result<(), ImageError>)
    ensures
        final(image).origin() == old(image).origin(),
        match read {
            Ok(_) => {
                &&& old(image)@.len() >= 6
                &&& old(image)@.take(6) == signature_87a() || old(image)@.take(6)
                    == signature_89a()
                &&& final(image)@ == old(image)@.skip(6)
            },
            Err(e) => if old(image)@.len() < 6 {
                e == ImageError::Io
            } else {
                &&& e == ImageError::InvalidSignature
                &&& old(image)@.take(6) != signature_87a()
                &&& old(image)@.take(6) != signature_89a()
            },
        },
{
    let signature = image.read_exact(6)?;
    let older: [u8; 6] = [0x47, 0x49, 0x46, 0x38, 0x37, 0x61];
    let newer: [u8; 6] = [0x47, 0x49, 0x46, 0x38, 0x39, 0x61];
    assert(older@ =~= signature_87a());
    assert(newer@ =~= signature_89a());
    if same_bytes(signature, &older) || same_bytes(signature, &newer) {
        Ok(())
    } else {
        Err(ImageError::InvalidSignature)
    }
}

fn read_header(image: &mut ByteSource) -> (read: Result<(Dimensions, Color), ImageError>)
    ensures
        final(image).origin() == old(image).origin(),
        agrees(read, final(image)@, header(old(image)@)),
{
    let ghost s = image@;
    let width = image.read_u16_le()?;
    let height = image.read_u16_le()?;
    let bits = image.read_u8()?;
    assert(image@ == s.skip(5));
    let table_bytes = read_table_bits(bits)?;
    let resolution = (bits & 0b0111_0000) >> 4;
    assert(resolution == (bits / 0x10) % 8) by (bit_vector)
        requires
            resolution == (bits & 0b0111_0000) >> 4,
    ;
    image.skip(table_bytes + 2);
    Ok(
        (
            Dimensions { width: width as u32, height: height as u32 },
            Color { alpha_channel: false, mode: ColorMode::Indexed, resolution: resolution + 1 },
        ),
    )
}

/// Passes over data sub-blocks up to and with the one of length zero.
fn skip_sub_blocks(image: &mut ByteSource) -> (read: Result<(), ImageError>)
    ensures
        final(image).origin() == old(image).origin(),
        agrees(read, final(image)@, sub_blocks(old(image)@)),
{
    loop
        invariant
            image.origin() == old(image).origin(),
            sub_blocks(image@) == sub_blocks(old(image)@),
        decreases image@.len(),
    {
        let size = image.read_u8()?;
        if size == 0 {
            return Ok(());
        }
        image.skip(size as u64);
    }
}

impl BlockReader {
    fn read(&mut self, image: &mut ByteSource) -> (read: Result<(), ImageError>)
        requires
            old(self).frames + old(image)@.len() <= usize::MAX,
        ensures
            final(image).origin() == old(image).origin(),
            final(self).frames == counted(old(image)@, old(self).frames as nat),
            match blocks(old(image)@, old(self).frames as nat) {
                Ok((frames, rest)) => {
                    &&& read is Ok
                    &&& final(self).frames == frames
                    &&& final(image)@ == rest
                },
                Err(e) => read == Err::<(), ImageError>(e),
            },
    {
        loop
            invariant
                image.origin() == old(image).origin(),
                self.frames + image@.len() <= usize::MAX,
                blocks(image@, self.frames as nat) == blocks(old(image)@, old(self).frames as nat),
                counted(image@, self.frames as nat) == counted(
                    old(image)@,
                    old(self).frames as nat,
                ),
            decreases image@.len(),
        {
            proof {
                if image@.len() >= 1 {
                    lemma_block_shrinks(image@.skip(1));
                }
            }
            let b = image.read_u8()?;
            match b {
                0x21 => self.read_extension(image)?,
                0x2c => self.read_image_data(image)?,
                0x3b => {
                    return Ok(());
                },
                x => {
                    return Err(ImageError::CorruptImage(Corruption::UnknownBlock(x)));
                },
            };
        }
    }

    fn read_extension(&mut self, image: &mut ByteSource) -> (read: Result<(), ImageError>)
        ensures
            final(image).origin() == old(image).origin(),
            final(self).frames == old(self).frames,
            agrees(read, final(image)@, extension(old(image)@)),
    {
        match image.read_u8()? {
            0x01 | 0xf9 | 0xfe | 0xff => (),
            x => {
                return Err(ImageError::CorruptImage(Corruption::UnknownExtension(x)));
            },
        };
        skip_sub_blocks(image)
    }

    fn read_image_data(&mut self, image: &mut ByteSource) -> (read: Result<(), ImageError>)
        requires
            old(self).frames < usize::MAX,
        ensures
            final(image).origin() == old(image).origin(),
            agrees(read, final(image)@, image_data(old(image)@)),
            final(self).frames == if read is Ok {
                old(self).frames + 1
            } else {
                old(self).frames as int
            },
    {
        image.skip(8);
        let table_bytes = read_table_bits(image.read_u8()?)?;
        image.skip(table_bytes + 1);
        skip_sub_blocks(image)?;
        self.frames += 1;
        Ok(())
    }
}

/// The number of bytes that the colour table takes which a packed byte
/// announces.
pub fn read_table_bits(bits: u8) -> (bytes: ImageResult<u64>)
    ensures
        bytes == Ok::<u64, ImageError>(table_bytes(bits) as u64),
        table_bytes(bits) <= 768,
{
    let has_table = (bits & 0b1000_0000) > 0;
    let field = (bits & 0b0111_0000) >> 4;
    assert(field < 8) by (bit_vector)
        requires
            field == (bits & 0b0111_0000) >> 4,
    ;
    let table_size: u64 = 2 << field;
    assert(has_table == (bits >= 0x80)) by (bit_vector)
        requires
            has_table == ((bits & 0b1000_0000) > 0),
    ;
    assert(field == (bits / 0x10) % 8) by (bit_vector)
        requires
            field == (bits & 0b0111_0000) >> 4,
    ;
    assert(field < 8 && (field == 0 ==> table_size == 2) && (field == 1 ==> table_size == 4) && (
    field == 2 ==> table_size == 8) && (field == 3 ==> table_size == 16) && (field == 4
        ==> table_size == 32) && (field == 5 ==> table_size == 64) && (field == 6 ==> table_size
        == 128) && (field == 7 ==> table_size == 256)) by (bit_vector)
        requires
            field == (bits & 0b0111_0000) >> 4,
            table_size == 2u64 << field,
    ;
    proof {
        lemma2_to64();
    }
    if has_table {
        Ok(table_size * 3)
    } else {
        Ok(0)
    }
}

/// Reads the header of a GIF image and counts its frames.
pub fn load(image: &mut ByteSource) -> (read: Result<ImageMeta, ImageError>)
    ensures
        final(image).origin() == old(image).origin(),
        agrees(read, final(image)@, parse(old(image)@)),
{
    read_signature(image)?;
    let (dimensions, color) = read_header(image)?;
    proof {
        image.lemma_unread_fits();
    }
    let mut reader = BlockReader { frames: 0 };
    reader.read(image)?;
    Ok(
        ImageMeta {
            animation_frames: if 1 < reader.frames {
                Some(reader.frames)
            } else {
                None
            },
            color,
            dimensions,
            format: Format::Gif,
        },
    )
}

} // verus!
