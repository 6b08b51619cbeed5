//! The decoders, one module for each container, and the dispatcher that
//! finds the decoder that knows a stream.

use vstd::prelude::*;

use crate::errors::ImageError;
use crate::source::{agrees, carries_over, ByteSource, Parsed};
use crate::types::{Format, ImageMeta};

pub mod bmp;
pub mod gif;
pub mod hdr;
pub mod jpeg;
pub mod png;
pub mod qoi;
pub mod riff;
pub mod webp;

verus! {

/// What the decoder of `format` makes of a stream.
pub open spec fn decode(format: Format, s: Seq<u8>) -> Parsed<ImageMeta> {
    match format {
        Format::Bmp => bmp::parse(s),
        Format::Gif => gif::parse(s),
        Format::Jpeg => jpeg::parse(s),
        Format::Png => png::parse(s),
        Format::Webp => webp::parse(s),
        Format::Hdr => hdr::parse(s),
        Format::Qoi => qoi::parse(s),
    }
}

/// The outcome by which a decoder turns a stream down for its signature.
pub open spec fn invalid() -> Parsed<ImageMeta> {
    Err(ImageError::InvalidSignature)
}

/// The outcome of a search that no decoder ended.
pub open spec fn unsupported() -> Parsed<ImageMeta> {
    Err(ImageError::Unsupported)
}

/// The formats that the dispatcher tries, in the order in which it tries
/// them.
pub open spec fn candidates() -> Seq<Format> {
    seq![Format::Jpeg, Format::Gif, Format::Png, Format::Bmp, Format::Webp]
}

/// What trying the decoders of `formats` in turn gives: the outcome of the
/// first that does not turn the stream down for its signature, and
/// `Unsupported` where all do. The first works on `unread`; each later one
/// starts again at the first byte of `origin`.
pub open spec fn detect_among(formats: Seq<Format>, unread: Seq<u8>, origin: Seq<u8>) -> Parsed<
    ImageMeta,
>
    decreases formats.len(),
{
    if formats.len() == 0 {
        unsupported()
    } else if decode(formats[0], unread) == invalid() {
        detect_among(formats.skip(1), origin, origin)
    } else {
        decode(formats[0], unread)
    }
}

/// What the dispatcher makes of a source with `unread` left of `origin`.
pub open spec fn detect(unread: Seq<u8>, origin: Seq<u8>) -> Parsed<ImageMeta> {
    detect_among(candidates(), unread, origin)
}

/// The value that was read, without what was left behind it.
pub open spec fn outcome<T>(parsed: Parsed<T>) -> Result<T, ImageError> {
    match parsed {
        Ok((value, _)) => Ok(value),
        Err(e) => Err(e),
    }
}

/// Whether a stream starts with the signature of none of the formats that
/// the dispatcher tries, and is long enough to show it: eight bytes, and
/// twelve where it starts as a RIFF container of another form type.
pub open spec fn unrecognised(s: Seq<u8>) -> bool {
    &&& s.len() >= 8
    &&& s[0] != jpeg::MARKER || s[1] != jpeg::SOI
    &&& s.take(6) != gif::signature_87a()
    &&& s.take(6) != gif::signature_89a()
    &&& s.take(8) != png::signature()
    &&& s.take(2) != bmp::signature()
    &&& s.take(4) != riff::signature() || (s.len() >= 12 && s.subrange(8, 12) != webp::form_type())
}

/// The search of the dispatcher, written out.
proof fn lemma_detect_unfolds(s: Seq<u8>, o: Seq<u8>)
    ensures
        detect(s, o) == if jpeg::parse(s) != invalid() {
            jpeg::parse(s)
        } else if gif::parse(o) != invalid() {
            gif::parse(o)
        } else if png::parse(o) != invalid() {
            png::parse(o)
        } else if bmp::parse(o) != invalid() {
            bmp::parse(o)
        } else if webp::parse(o) != invalid() {
            webp::parse(o)
        } else {
            unsupported()
        },
{
    let all = candidates();
    assert(all.skip(1) =~= seq![Format::Gif, Format::Png, Format::Bmp, Format::Webp]);
    assert(all.skip(1).skip(1) =~= seq![Format::Png, Format::Bmp, Format::Webp]);
    assert(all.skip(1).skip(1).skip(1) =~= seq![Format::Bmp, Format::Webp]);
    assert(all.skip(1).skip(1).skip(1).skip(1) =~= seq![Format::Webp]);
    assert(all.skip(1).skip(1).skip(1).skip(1).skip(1) =~= Seq::<Format>::empty());
    reveal_with_fuel(detect_among, 6);
}

/// A decoder turns a stream down for its signature before it reads
/// anything else: each of the five that the dispatcher tries does so exactly
/// where the stream is long enough to hold the signature and does not start
/// with it. None of them gives `Unsupported`.
pub proof fn lemma_turned_down(s: Seq<u8>)
    ensures
        jpeg::parse(s) == invalid() <==> s.len() >= 2 && (s[0] != jpeg::MARKER || s[1]
            != jpeg::SOI),
        gif::parse(s) == invalid() <==> s.len() >= 6 && s.take(6) != gif::signature_87a()
            && s.take(6) != gif::signature_89a(),
        png::parse(s) == invalid() <==> s.len() >= 8 && s.take(8) != png::signature(),
        bmp::parse(s) == invalid() <==> s.len() >= 2 && s.take(2) != bmp::signature(),
        webp::parse(s) == invalid() <==> s.len() >= 4 && (s.take(4) != riff::signature() || (
        s.len() >= 12 && s.subrange(8, 12) != webp::form_type())),
        jpeg::parse(s) != unsupported(),
        gif::parse(s) != unsupported(),
        png::parse(s) != unsupported(),
        bmp::parse(s) != unsupported(),
        webp::parse(s) != unsupported(),
{
    if s.len() >= 2 {
        jpeg::lemma_frame_failures(s.skip(2));
    }
    if s.len() >= 6 {
        if let Ok((_, behind)) = gif::header(s.skip(6)) {
            gif::lemma_blocks_failures(behind, 0);
        }
    }
    if s.len() >= 8 {
        if let Ok((_, behind)) = png::header(s.skip(8)) {
            png::lemma_frame_controls_failures(behind, 0);
        }
    }
    if let Ok((_, remain)) = riff::opening(s) {
        webp::lemma_chunks_failures(s.skip(12), remain, 0, None);
    }
}

/// The dispatcher reports `Unsupported` for exactly the streams that start
/// with none of the five signatures and are long enough to show it.
pub proof fn lemma_unsupported_iff_unrecognised(s: Seq<u8>)
    ensures
        detect(s, s) == unsupported() <==> unrecognised(s),
{
    lemma_detect_unfolds(s, s);
    lemma_turned_down(s);
}

/// What a decoder reads from a stream, the dispatcher reads from it too:
/// where the decoder of one of the formats that the dispatcher tries
/// succeeds on a stream, the dispatcher gives the same record and leaves
/// the same bytes unread.
pub proof fn lemma_detect_agrees_with_decoder(s: Seq<u8>, format: Format)
    requires
        candidates().contains(format),
        decode(format, s) is Ok,
    ensures
        detect(s, s) == decode(format, s),
{
    lemma_detect_unfolds(s, s);
    lemma_turned_down(s);
    let all = candidates();
    let i = choose|i: int| 0 <= i < all.len() && all[i] == format;
    assert(all[i] == format);
    assert(gif::signature_87a()[0] == 0x47 && gif::signature_89a()[0] == 0x47);
    assert(png::signature()[0] == 0x89);
    assert(bmp::signature()[0] == 0x42);
    assert(riff::signature()[0] == 0x52);
    if s.len() >= 8 {
        assert(s.take(2)[0] == s[0] && s.take(4)[0] == s[0] && s.take(6)[0] == s[0] && s.take(
            8,
        )[0] == s[0]);
    }
}

/// What the dispatcher reads from a stream, one decoder reads from it: the
/// record that the dispatcher gives names one of the formats that it tries,
/// and the decoder of that format gives the same record and leaves the same
/// bytes unread.
pub proof fn lemma_decoder_agrees_with_detect(s: Seq<u8>)
    requires
        detect(s, s) is Ok,
    ensures
        candidates().contains(detect(s, s)->Ok_0.0.format),
        decode(detect(s, s)->Ok_0.0.format, s) == detect(s, s),
{
    lemma_detect_unfolds(s, s);
    let all = candidates();
    assert(all[0] == Format::Jpeg && all[1] == Format::Gif && all[2] == Format::Png && all[3]
        == Format::Bmp && all[4] == Format::Webp);
}

/// Bytes that follow a stream change nothing of what the dispatcher makes
/// of it, unless the stream ended before a decoder had read what it needs.
pub proof fn lemma_detect_extends(s: Seq<u8>, t: Seq<u8>)
    requires
        s.is_prefix_of(t),
    ensures
        carries_over(detect(s, s), detect(t, t)),
{
    lemma_detect_unfolds(s, s);
    lemma_detect_unfolds(t, t);
    jpeg::lemma_parse_extends(s, t);
    gif::lemma_parse_extends(s, t);
    png::lemma_parse_extends(s, t);
    bmp::lemma_parse_extends(s, t);
    webp::lemma_parse_extends(s, t);
}

/// Finds the format of an image and reads its header. The decoders are
/// tried in a fixed order. One that turns the stream down for its signature
/// has the source set back to its first byte for the next; any other
/// failure ends the search.
pub fn load(image: &mut ByteSource) -> (read: Result<ImageMeta, ImageError>)
    ensures
        final(image).origin() == old(image).origin(),
        agrees(read, final(image)@, detect(old(image)@, old(image).origin())),
        read == Err::<ImageMeta, ImageError>(ImageError::Unsupported) ==> final(image)@ == old(
            image,
        ).origin(),
{
    let formats = [Format::Jpeg, Format::Gif, Format::Png, Format::Bmp, Format::Webp];
    assert(formats@ =~= candidates());
    assert(candidates().skip(0) == candidates());
    let mut tried: usize = 0;
    while tried < 5
        invariant
            tried <= 5,
            tried == 0 || image@ == image.origin(),
            formats@ == candidates(),
            image.origin() == old(image).origin(),
            detect_among(candidates().skip(tried as int), image@, image.origin()) == detect(
                old(image)@,
                old(image).origin(),
            ),
        decreases 5 - tried,
    {
        let ghost left = candidates().skip(tried as int);
        assert(left[0] == formats@[tried as int]);
        assert(left.skip(1) == candidates().skip(tried + 1));
        proof {
            lemma_turned_down(image@);
        }
        match load_with_format(image, formats[tried]) {
            Err(ImageError::InvalidSignature) => {
                image.rewind();
            },
            outcome => {
                return outcome;
            },
        }
        tried += 1;
    }
    Err(ImageError::Unsupported)
}

/// Finds the format of the image in `buffer` and reads its header.
pub fn load_from_buf(buffer: &[u8]) -> (read: Result<ImageMeta, ImageError>)
    ensures
        read == outcome(detect(buffer@, buffer@)),
{
    let mut source = ByteSource::new(buffer);
    load(&mut source)
}

/// Reads the header of an image with the decoder of `format`.
pub fn load_with_format(image: &mut ByteSource, format: Format) -> (read: Result<
    ImageMeta,
    ImageError,
>)
    ensures
        final(image).origin() == old(image).origin(),
        agrees(read, final(image)@, decode(format, old(image)@)),
{
    match format {
        Format::Bmp => bmp::load(image),
        Format::Gif => gif::load(image),
        Format::Jpeg => jpeg::load(image),
        Format::Png => png::load(image),
        Format::Webp => webp::load(image),
        Format::Hdr => hdr::load(image),
        Format::Qoi => qoi::load(image),
    }
}

} // verus!
