use image_meta::loader::riff::RiffReader;
use image_meta::webp::{extract_dimension, WebpReader};
use image_meta::ColorMode::Rgb;
use image_meta::{webp, ByteSource, Color, Corruption, Dimensions, Format, ImageError, ImageMeta};

fn corrupt<T>(reason: Corruption) -> Result<T, ImageError> {
    Err(ImageError::CorruptImage(reason))
}

fn chunk(v: &mut Vec<u8>, name: &[u8; 4], payload: &[u8]) {
    v.extend_from_slice(name);
    v.extend_from_slice(&(payload.len() as u32).to_le_bytes());
    v.extend_from_slice(payload);
}

fn riff(declared: u32, form: &[u8; 4], chunks: &[u8]) -> Vec<u8> {
    let mut v = b"RIFF".to_vec();
    v.extend_from_slice(&declared.to_le_bytes());
    v.extend_from_slice(form);
    v.extend_from_slice(chunks);
    v
}

fn webp_of(chunks: &[u8]) -> Vec<u8> {
    riff(chunks.len() as u32 + 4, b"WEBP", chunks)
}

fn webp_meta(width: u32, height: u32, animation_frames: Option<usize>) -> ImageMeta {
    ImageMeta {
        animation_frames,
        color: Color { mode: Rgb, alpha_channel: true, resolution: 8 },
        dimensions: Dimensions { width, height },
        format: Format::Webp,
    }
}

const LOSSY: [u8; 10] = [0x10, 0x02, 0x00, 0x9d, 0x01, 0x2a, 0xfb, 0x01, 0x72, 0x01];
const LOSSLESS: [u8; 5] = [0x2f, 0xfa, 0x41, 0x5c, 0x00];
const EXTENDED: [u8; 10] = [0x10, 0, 0, 0, 0xfa, 0x01, 0x00, 0x71, 0x01, 0x00];

#[test]
fn extract_dimension_splits_size_and_scale() {
    assert_eq!(extract_dimension([0xfb, 0x01]), (507, 0));
    assert_eq!(extract_dimension([0x72, 0x01]), (370, 0));
    assert_eq!(extract_dimension([0x00, 0x00]), (0, 0));
    assert_eq!(extract_dimension([0xff, 0x3f]), (16383, 0));
    assert_eq!(extract_dimension([0xff, 0xff]), (16383, 3));
    assert_eq!(extract_dimension([0x00, 0x40]), (0, 1));
    assert_eq!(extract_dimension([0x01, 0x80]), (1, 2));
    assert_eq!(extract_dimension([0xfb, 0xc1]), (507, 3));
}

#[test]
fn webp_lossy_key_frame() {
    let mut chunks = Vec::new();
    chunk(&mut chunks, b"VP8 ", &LOSSY);
    assert_eq!(webp::load(&mut ByteSource::new(&webp_of(&chunks))), Ok(webp_meta(507, 370, None)));
    // The scale in the top two bits is left aside.
    let mut chunks = Vec::new();
    chunk(&mut chunks, b"VP8 ", &[0x00, 0, 0, 0x9d, 0x01, 0x2a, 0xfb, 0xc1, 0x72, 0x41]);
    assert_eq!(webp::load(&mut ByteSource::new(&webp_of(&chunks))), Ok(webp_meta(507, 370, None)));
    let mut chunks = Vec::new();
    chunk(&mut chunks, b"VP8 ", &[0xfe, 0xff, 0xff, 0x9d, 0x01, 0x2a, 0xff, 0xff, 0x00, 0x00]);
    assert_eq!(webp::load(&mut ByteSource::new(&webp_of(&chunks))), Ok(webp_meta(16383, 0, None)));
}

#[test]
fn webp_lossy_failures() {
    let mut chunks = Vec::new();
    chunk(&mut chunks, b"VP8 ", &[0x11, 0x02, 0x00, 0x9d, 0x01, 0x2a, 0xfb, 0x01, 0x72, 0x01]);
    assert_eq!(webp::load(&mut ByteSource::new(&webp_of(&chunks))), corrupt(Corruption::NotKeyFrame));
    let mut chunks = Vec::new();
    chunk(&mut chunks, b"VP8 ", &[0x01, 0x02, 0x00]);
    assert_eq!(webp::load(&mut ByteSource::new(&webp_of(&chunks))), corrupt(Corruption::NotKeyFrame));
    let mut chunks = Vec::new();
    chunk(&mut chunks, b"VP8 ", &[0x10, 0x02, 0x00, 0x9d, 0x01, 0x2b, 0xfb, 0x01, 0x72, 0x01]);
    assert_eq!(
        webp::load(&mut ByteSource::new(&webp_of(&chunks))),
        corrupt(Corruption::KeyFrameCode(0x9d, 0x01, 0x2b))
    );
    for length in [0usize, 2, 3, 5, 6, 7, 8, 9] {
        let mut chunks = Vec::new();
        chunk(&mut chunks, b"VP8 ", &LOSSY[..length]);
        chunk(&mut chunks, b"VP8L", &LOSSLESS);
        assert_eq!(webp::load(&mut ByteSource::new(&webp_of(&chunks))), Err(ImageError::Io));
    }
}

#[test]
fn webp_lossless_header() {
    let mut chunks = Vec::new();
    chunk(&mut chunks, b"VP8L", &LOSSLESS);
    assert_eq!(webp::load(&mut ByteSource::new(&webp_of(&chunks))), Ok(webp_meta(507, 370, None)));
    let mut chunks = Vec::new();
    chunk(&mut chunks, b"VP8L", &[0x2f, 0x00, 0x00, 0x00, 0x00]);
    assert_eq!(webp::load(&mut ByteSource::new(&webp_of(&chunks))), Ok(webp_meta(1, 1, None)));
    let mut chunks = Vec::new();
    chunk(&mut chunks, b"VP8L", &[0x2f, 0xff, 0xff, 0xff, 0xff]);
    assert_eq!(webp::load(&mut ByteSource::new(&webp_of(&chunks))), Ok(webp_meta(16384, 16384, None)));
    let mut chunks = Vec::new();
    chunk(&mut chunks, b"VP8L", &[0x2f, 0xff, 0x3f, 0x00, 0xf0]);
    assert_eq!(webp::load(&mut ByteSource::new(&webp_of(&chunks))), Ok(webp_meta(16384, 1, None)));
    let mut chunks = Vec::new();
    chunk(&mut chunks, b"VP8L", &[0x2f, 0x00, 0xc0, 0xff, 0x0f]);
    assert_eq!(webp::load(&mut ByteSource::new(&webp_of(&chunks))), Ok(webp_meta(1, 16384, None)));
}

#[test]
fn webp_lossless_failures() {
    let mut chunks = Vec::new();
    chunk(&mut chunks, b"VP8L", &[0x30, 0xfa, 0x41, 0x5c, 0x00]);
    assert_eq!(
        webp::load(&mut ByteSource::new(&webp_of(&chunks))),
        corrupt(Corruption::LosslessSignature(0x30))
    );
    for length in [0usize, 1, 4] {
        let mut chunks = Vec::new();
        chunk(&mut chunks, b"VP8L", &LOSSLESS[..length]);
        chunk(&mut chunks, b"VP8 ", &LOSSY);
        assert_eq!(webp::load(&mut ByteSource::new(&webp_of(&chunks))), Err(ImageError::Io));
    }
}

#[test]
fn webp_extended_header() {
    let mut chunks = Vec::new();
    chunk(&mut chunks, b"VP8X", &EXTENDED);
    assert_eq!(webp::load(&mut ByteSource::new(&webp_of(&chunks))), Ok(webp_meta(507, 370, None)));
    let mut chunks = Vec::new();
    chunk(&mut chunks, b"VP8X", &[0xff, 0xff, 0xff, 0xff, 0xff, 0xff, 0xff, 0x00, 0x00, 0x00]);
    assert_eq!(webp::load(&mut ByteSource::new(&webp_of(&chunks))), Ok(webp_meta(16_777_216, 1, None)));
    let mut chunks = Vec::new();
    chunk(&mut chunks, b"VP8X", &[0, 0, 0, 0, 0x01, 0x02, 0x03, 0x04, 0x05, 0x06]);
    assert_eq!(
        webp::load(&mut ByteSource::new(&webp_of(&chunks))),
        Ok(webp_meta(0x030201 + 1, 0x060504 + 1, None))
    );
    for length in [0usize, 3, 4, 9] {
        let mut chunks = Vec::new();
        chunk(&mut chunks, b"VP8X", &EXTENDED[..length]);
        chunk(&mut chunks, b"VP8 ", &LOSSY);
        assert_eq!(webp::load(&mut ByteSource::new(&webp_of(&chunks))), Err(ImageError::Io));
    }
}

#[test]
fn webp_counts_animation_frames_from_two_on() {
    for frames in [0usize, 1, 2, 7] {
        let mut chunks = Vec::new();
        chunk(&mut chunks, b"VP8X", &EXTENDED);
        chunk(&mut chunks, b"ANIM", &[0; 6]);
        for _ in 0..frames {
            let mut frame = vec![0u8; 16];
            chunk(&mut frame, b"VP8 ", &[0x10, 0, 0, 0x9d, 0x01, 0x2a, 1, 0, 1, 0]);
            chunk(&mut chunks, b"ANMF", &frame);
        }
        let expected = if frames < 2 { None } else { Some(frames) };
        assert_eq!(
            webp::load(&mut ByteSource::new(&webp_of(&chunks))),
            Ok(webp_meta(507, 370, expected))
        );
    }
}

#[test]
fn webp_counts_every_animation_frame_among_chunks() {
    for frames in 0usize..6 {
        let mut chunks = Vec::new();
        chunk(&mut chunks, b"ICCP", &[1, 2, 3, 4]);
        chunk(&mut chunks, b"VP8X", &EXTENDED);
        for _ in 0..frames {
            chunk(&mut chunks, b"ANMF", &[0; 20]);
            chunk(&mut chunks, b"EXIF", &[]);
        }
        let mut bytes = webp_of(&chunks);
        bytes.extend_from_slice(b"ANMF\x00\x00\x00\x00 and more");
        let expected = if frames > 1 { Some(frames) } else { None };
        assert_eq!(webp::load(&mut ByteSource::new(&bytes)), Ok(webp_meta(507, 370, expected)));
    }
}

#[test]
fn webp_takes_the_dimensions_of_the_last_image_chunk() {
    let mut chunks = Vec::new();
    chunk(&mut chunks, b"VP8X", &[0, 0, 0, 0, 0x63, 0, 0, 0x31, 0, 0]);
    chunk(&mut chunks, b"ICCP", &[1, 2, 3, 4]);
    chunk(&mut chunks, b"VP8 ", &LOSSY);
    chunk(&mut chunks, b"EXIF", &[]);
    assert_eq!(webp::load(&mut ByteSource::new(&webp_of(&chunks))), Ok(webp_meta(507, 370, None)));
    let mut chunks = Vec::new();
    chunk(&mut chunks, b"VP8 ", &LOSSY);
    chunk(&mut chunks, b"VP8X", &[0, 0, 0, 0, 0x63, 0, 0, 0x31, 0, 0]);
    assert_eq!(webp::load(&mut ByteSource::new(&webp_of(&chunks))), Ok(webp_meta(100, 50, None)));
}

#[test]
fn webp_without_image_chunk() {
    let mut chunks = Vec::new();
    chunk(&mut chunks, b"ANMF", &[0; 16]);
    chunk(&mut chunks, b"vp8 ", &LOSSY);
    chunk(&mut chunks, b"VP8Y", &LOSSY);
    assert_eq!(webp::load(&mut ByteSource::new(&webp_of(&chunks))), corrupt(Corruption::ChunkNotFound));
    assert_eq!(webp::load(&mut ByteSource::new(&webp_of(&[]))), corrupt(Corruption::ChunkNotFound));
}

#[test]
fn webp_signature_and_form_type() {
    let mut chunks = Vec::new();
    chunk(&mut chunks, b"VP8 ", &LOSSY);
    let bytes = riff(chunks.len() as u32 + 4, b"WAVE", &chunks);
    assert_eq!(webp::load(&mut ByteSource::new(&bytes)), Err(ImageError::InvalidSignature));
    let mut bytes = webp_of(&chunks);
    bytes[3] = b'X';
    assert_eq!(webp::load(&mut ByteSource::new(&bytes)), Err(ImageError::InvalidSignature));
    assert_eq!(webp::load(&mut ByteSource::new(b"RIFX")), Err(ImageError::InvalidSignature));
    for cut in [0usize, 3, 4, 7, 8, 11] {
        assert_eq!(webp::load(&mut ByteSource::new(&webp_of(&chunks)[..cut])), Err(ImageError::Io));
    }
}

#[test]
fn webp_declared_size_bounds_the_chunks() {
    let mut chunks = Vec::new();
    chunk(&mut chunks, b"VP8X", &EXTENDED);
    chunk(&mut chunks, b"ANMF", &[0; 16]);
    chunk(&mut chunks, b"ANMF", &[0; 16]);
    // All chunks are within the declared size.
    let bytes = riff(chunks.len() as u32 + 4, b"WEBP", &chunks);
    assert_eq!(webp::load(&mut ByteSource::new(&bytes)), Ok(webp_meta(507, 370, Some(2))));
    // The declared size ends within the first chunk: it is read, and no other.
    for declared in [5u32, 12, 21, 22] {
        let bytes = riff(declared, b"WEBP", &chunks);
        assert_eq!(webp::load(&mut ByteSource::new(&bytes)), Ok(webp_meta(507, 370, None)));
    }
    // It ends within the second: that one is read too, and one frame is no animation.
    for declared in [23u32, 30, 46] {
        let bytes = riff(declared, b"WEBP", &chunks);
        assert_eq!(webp::load(&mut ByteSource::new(&bytes)), Ok(webp_meta(507, 370, None)));
    }
    // It ends within the third: a fourth chunk is not read.
    chunk(&mut chunks, b"ANMF", &[0; 16]);
    for declared in [47u32, 60, 70] {
        let bytes = riff(declared, b"WEBP", &chunks);
        assert_eq!(webp::load(&mut ByteSource::new(&bytes)), Ok(webp_meta(507, 370, Some(2))));
    }
    // Nothing declared, nothing read.
    for declared in [0u32, 1, 3, 4] {
        let bytes = riff(declared, b"WEBP", &chunks);
        assert_eq!(webp::load(&mut ByteSource::new(&bytes)), corrupt(Corruption::ChunkNotFound));
    }
    // More declared than there is: the next chunk header is missed.
    let bytes = riff(chunks.len() as u32 + 5, b"WEBP", &chunks);
    assert_eq!(webp::load(&mut ByteSource::new(&bytes)), Err(ImageError::Io));
    let bytes = riff(u32::MAX, b"WEBP", &chunks);
    assert_eq!(webp::load(&mut ByteSource::new(&bytes)), Err(ImageError::Io));
}

#[test]
fn webp_chunk_that_claims_more_than_is_there() {
    // The chunk ends the container by its claim; what is there of it is read.
    let mut bytes = riff(100, b"WEBP", b"VP8 ");
    bytes.extend_from_slice(&[0xff, 0xff, 0xff, 0xff]);
    bytes.extend_from_slice(&LOSSY);
    assert_eq!(webp::load(&mut ByteSource::new(&bytes)), Ok(webp_meta(507, 370, None)));
    let mut bytes = riff(100, b"WEBP", b"VP8 ");
    bytes.extend_from_slice(&[0xff, 0xff, 0xff, 0xff]);
    bytes.extend_from_slice(&LOSSY[..9]);
    assert_eq!(webp::load(&mut ByteSource::new(&bytes)), Err(ImageError::Io));
    // One that claims less than it needs is cut off at its claim.
    let mut bytes = riff(100, b"WEBP", b"VP8 ");
    bytes.extend_from_slice(&[9, 0, 0, 0]);
    bytes.extend_from_slice(&LOSSY);
    assert_eq!(webp::load(&mut ByteSource::new(&bytes)), Err(ImageError::Io));
}

#[test]
fn riff_reader_walks_the_chunks() {
    let mut chunks = Vec::new();
    chunk(&mut chunks, b"abcd", &[1, 2, 3]);
    chunk(&mut chunks, b"efgh", &[]);
    chunk(&mut chunks, b"ijkl", &[4, 5]);
    let bytes = riff(chunks.len() as u32 + 4, b"TEST", &chunks);
    let mut reader = RiffReader::open(ByteSource::new(&bytes)).unwrap();
    assert_eq!(reader.form_type(), b"TEST");
    let mut first = reader.read_chunk().unwrap().unwrap();
    assert_eq!(first.identifier(), b"abcd");
    assert_eq!(first.payload.remaining(), 3);
    assert_eq!(first.payload.read_u8(), Ok(1));
    let mut second = reader.read_chunk().unwrap().unwrap();
    assert_eq!(second.identifier(), b"efgh");
    assert_eq!(second.payload.read_u8(), Err(ImageError::Io));
    let mut third = reader.read_chunk().unwrap().unwrap();
    assert_eq!(third.identifier(), b"ijkl");
    assert_eq!(third.payload.read_exact(2), Ok(&[4u8, 5][..]));
    assert!(reader.read_chunk().unwrap().is_none());
    assert!(reader.read_chunk().unwrap().is_none());
    assert_eq!(reader.form_type(), b"TEST");
    assert_eq!(reader.into_inner().remaining(), 0);
}

#[test]
fn riff_reader_opens_on_a_small_declared_size() {
    for declared in [0u32, 1, 4] {
        let bytes = riff(declared, b"WEBP", b"VP8 \x00\x00\x00\x00");
        let mut reader = RiffReader::open(ByteSource::new(&bytes)).unwrap();
        assert_eq!(reader.form_type(), b"WEBP");
        assert!(reader.read_chunk().unwrap().is_none());
        assert_eq!(reader.into_inner().remaining(), 8);
    }
    let bytes = riff(5, b"WEBP", b"VP8 \x02\x00\x00\x00\x07\x08\x09");
    let mut reader = RiffReader::open(ByteSource::new(&bytes)).unwrap();
    let found = reader.read_chunk().unwrap().unwrap();
    assert_eq!(found.payload.unread(), &[7, 8]);
    assert!(reader.read_chunk().unwrap().is_none());
    assert_eq!(reader.into_inner().unread(), &[9]);
}

#[test]
fn riff_reader_failures() {
    assert!(matches!(RiffReader::open(ByteSource::new(b"RIF")), Err(ImageError::Io)));
    assert!(matches!(RiffReader::open(ByteSource::new(b"RIFX\x04\x00\x00\x00WEBP")), Err(ImageError::InvalidSignature)));
    assert!(matches!(RiffReader::open(ByteSource::new(b"RIFF\x04\x00\x00")), Err(ImageError::Io)));
    assert!(matches!(RiffReader::open(ByteSource::new(b"RIFF\x04\x00\x00\x00WEB")), Err(ImageError::Io)));
    let mut reader = RiffReader::open(ByteSource::new(b"RIFF\x10\x00\x00\x00WEBPVP8 \x00\x00")).unwrap();
    assert!(matches!(reader.read_chunk(), Err(ImageError::Io)));
}

#[test]
fn webp_reader_starts_on_an_open_container() {
    let bytes = riff(4, b"WEBP", &[]);
    let riff = RiffReader::open(ByteSource::new(&bytes)).unwrap();
    let _reader: WebpReader = WebpReader::new(riff);
}
