use image_meta::ColorMode::{Grayscale, Indexed, Rgb};
use image_meta::{
    bmp, gif, jpeg, png, qoi, ByteSource, Color, Corruption, Dimensions, Format, ImageError,
    ImageMeta,
};

fn corrupt<T>(reason: Corruption) -> Result<T, ImageError> {
    Err(ImageError::CorruptImage(reason))
}

fn bmp_with(header_size: u32, fields: &[u8]) -> Vec<u8> {
    let mut v = b"BM".to_vec();
    v.extend_from_slice(&[0; 12]);
    v.extend_from_slice(&header_size.to_le_bytes());
    v.extend_from_slice(fields);
    v
}

fn bmp_meta(width: u32, height: u32, resolution: u8) -> ImageMeta {
    ImageMeta {
        animation_frames: None,
        color: Color { mode: Rgb, alpha_channel: false, resolution },
        dimensions: Dimensions { width, height },
        format: Format::Bmp,
    }
}

#[test]
fn bmp_windows_header_variants() {
    let fields = [0xfb, 0x01, 0, 0, 0x72, 0x01, 0, 0, 1, 0, 24, 0];
    for size in [40u32, 108, 124] {
        let bytes = bmp_with(size, &fields);
        assert_eq!(bmp::load(&mut ByteSource::new(&bytes)), Ok(bmp_meta(507, 370, 8)));
    }
}

#[test]
fn bmp_os2_header_variants() {
    let fields = [0xfb, 0x01, 0x72, 0x01, 1, 0, 24, 0];
    for size in [12u32, 64] {
        let bytes = bmp_with(size, &fields);
        assert_eq!(bmp::load(&mut ByteSource::new(&bytes)), Ok(bmp_meta(507, 370, 8)));
    }
}

#[test]
fn bmp_keeps_the_magnitude_of_a_negative_height() {
    let bytes = bmp_with(40, &[0xfb, 0x01, 0, 0, 0x8e, 0xfe, 0xff, 0xff, 1, 0, 24, 0]);
    assert_eq!(bmp::load(&mut ByteSource::new(&bytes)), Ok(bmp_meta(507, 370, 8)));
    let bytes = bmp_with(12, &[0xfb, 0x01, 0x8e, 0xfe, 1, 0, 24, 0]);
    assert_eq!(bmp::load(&mut ByteSource::new(&bytes)), Ok(bmp_meta(507, 370, 8)));
    let bytes = bmp_with(40, &[0xff, 0xff, 0xff, 0xff, 0, 0, 0, 0x80, 1, 0, 24, 0]);
    assert_eq!(
        bmp::load(&mut ByteSource::new(&bytes)),
        Ok(bmp_meta(u32::MAX, 2_147_483_648, 8))
    );
    let bytes = bmp_with(12, &[0xff, 0xff, 0x00, 0x80, 1, 0, 24, 0]);
    assert_eq!(bmp::load(&mut ByteSource::new(&bytes)), Ok(bmp_meta(65535, 32768, 8)));
}

#[test]
fn bmp_resolution_is_a_third_of_the_bit_count() {
    for (bit_count, resolution) in
        [(24u16, 8u8), (32, 10), (16, 5), (8, 2), (1, 0), (0, 0), (767, 255), (768, 0), (0xffff, 85)]
    {
        let mut fields = vec![1, 0, 0, 0, 1, 0, 0, 0, 1, 0];
        fields.extend_from_slice(&bit_count.to_le_bytes());
        let bytes = bmp_with(40, &fields);
        assert_eq!(bmp::load(&mut ByteSource::new(&bytes)), Ok(bmp_meta(1, 1, resolution)));
    }
}

#[test]
fn bmp_rejects_an_unknown_header_size() {
    for size in [0u32, 16, 39, 41, 52, 56, 65, 0xffff_ffff] {
        let bytes = bmp_with(size, &[0; 40]);
        assert_eq!(bmp::load(&mut ByteSource::new(&bytes)), corrupt(Corruption::HeaderSize(size)));
    }
}

#[test]
fn bmp_signature_and_truncation() {
    assert_eq!(bmp::load(&mut ByteSource::new(b"BA")), Err(ImageError::InvalidSignature));
    assert_eq!(bmp::load(&mut ByteSource::new(b"MB")), Err(ImageError::InvalidSignature));
    assert_eq!(bmp::load(&mut ByteSource::new(b"B")), Err(ImageError::Io));
    assert_eq!(bmp::load(&mut ByteSource::new(b"")), Err(ImageError::Io));
    assert_eq!(bmp::load(&mut ByteSource::new(b"BM")), Err(ImageError::Io));
    assert_eq!(bmp::load(&mut ByteSource::new(b"BM12345")), Err(ImageError::Io));
    let whole = bmp_with(40, &[0xfb, 0x01, 0, 0, 0x72, 0x01, 0, 0, 1, 0, 24, 0]);
    for cut in 2..whole.len() {
        assert_eq!(bmp::load(&mut ByteSource::new(&whole[..cut])), Err(ImageError::Io));
    }
    let whole = bmp_with(12, &[0xfb, 0x01, 0x72, 0x01, 1, 0, 24, 0]);
    for cut in 2..whole.len() {
        assert_eq!(bmp::load(&mut ByteSource::new(&whole[..cut])), Err(ImageError::Io));
    }
}

fn gif_meta(resolution: u8, animation_frames: Option<usize>) -> ImageMeta {
    ImageMeta {
        animation_frames,
        color: Color { mode: Indexed, alpha_channel: false, resolution },
        dimensions: Dimensions { width: 507, height: 370 },
        format: Format::Gif,
    }
}

fn gif_with(packed: u8, table: usize, blocks: &[u8]) -> Vec<u8> {
    let mut v = b"GIF87a".to_vec();
    v.extend_from_slice(&[0xfb, 0x01, 0x72, 0x01, packed, 0, 0]);
    v.extend_from_slice(&vec![0x55; table]);
    v.extend_from_slice(blocks);
    v
}

const IMAGE: [u8; 15] = [0x2c, 0, 0, 0, 0, 1, 0, 1, 0, 0x00, 0x02, 0x02, 0x4c, 0x01, 0x00];

#[test]
fn gif_table_size_follows_the_resolution_field() {
    assert_eq!(gif::read_table_bits(0x00), Ok(0));
    assert_eq!(gif::read_table_bits(0x7f), Ok(0));
    assert_eq!(gif::read_table_bits(0x80), Ok(6));
    assert_eq!(gif::read_table_bits(0x87), Ok(6));
    assert_eq!(gif::read_table_bits(0x90), Ok(12));
    assert_eq!(gif::read_table_bits(0xa0), Ok(24));
    assert_eq!(gif::read_table_bits(0xb0), Ok(48));
    assert_eq!(gif::read_table_bits(0xc0), Ok(96));
    assert_eq!(gif::read_table_bits(0xd0), Ok(192));
    assert_eq!(gif::read_table_bits(0xe0), Ok(384));
    assert_eq!(gif::read_table_bits(0xf0), Ok(768));
    assert_eq!(gif::read_table_bits(0xff), Ok(768));
}

#[test]
fn gif_reports_the_resolution_field_plus_one() {
    for (packed, table, resolution) in
        [(0x00u8, 0usize, 1u8), (0x10, 0, 2), (0x77, 0, 8), (0x80, 6, 1), (0x91, 12, 2), (0xf7, 768, 8)]
    {
        let bytes = gif_with(packed, table, &[0x3b]);
        assert_eq!(gif::load(&mut ByteSource::new(&bytes)), Ok(gif_meta(resolution, None)));
    }
}

#[test]
fn gif_with_one_image_is_no_animation() {
    let mut blocks = IMAGE.to_vec();
    blocks.push(0x3b);
    let bytes = gif_with(0xf7, 768, &blocks);
    assert_eq!(gif::load(&mut ByteSource::new(&bytes)), Ok(gif_meta(8, None)));
}

#[test]
fn gif_counts_images_from_two_on() {
    for frames in [2usize, 3, 10] {
        let mut blocks = Vec::new();
        for _ in 0..frames {
            blocks.extend_from_slice(&[0x21, 0xf9, 0x04, 0, 0, 0, 0, 0x00]);
            blocks.extend_from_slice(&IMAGE);
        }
        blocks.push(0x3b);
        let bytes = gif_with(0xf7, 768, &blocks);
        assert_eq!(gif::load(&mut ByteSource::new(&bytes)), Ok(gif_meta(8, Some(frames))));
    }
}

#[test]
fn gif_passes_over_a_local_colour_table() {
    let mut blocks = vec![0x2c, 0, 0, 0, 0, 1, 0, 1, 0, 0x90];
    blocks.extend_from_slice(&[0x3b; 12]);
    blocks.extend_from_slice(&[0x02, 0x00]);
    blocks.extend_from_slice(&IMAGE);
    blocks.push(0x3b);
    let bytes = gif_with(0x00, 0, &blocks);
    assert_eq!(gif::load(&mut ByteSource::new(&bytes)), Ok(gif_meta(1, Some(2))));
}

#[test]
fn gif_passes_over_each_known_extension() {
    let mut blocks = Vec::new();
    for label in [0x01u8, 0xf9, 0xfe, 0xff] {
        blocks.extend_from_slice(&[0x21, label, 0x03, 0x2c, 0x3b, 0x21, 0x01, 0x99, 0x00]);
    }
    blocks.push(0x3b);
    let bytes = gif_with(0x00, 0, &blocks);
    assert_eq!(gif::load(&mut ByteSource::new(&bytes)), Ok(gif_meta(1, None)));
}

#[test]
fn gif_rejects_unknown_blocks_and_extensions() {
    let bytes = gif_with(0x00, 0, &[0x99]);
    assert_eq!(gif::load(&mut ByteSource::new(&bytes)), corrupt(Corruption::UnknownBlock(0x99)));
    let bytes = gif_with(0x00, 0, &[0x00]);
    assert_eq!(gif::load(&mut ByteSource::new(&bytes)), corrupt(Corruption::UnknownBlock(0x00)));
    let bytes = gif_with(0x00, 0, &[0x21, 0x02, 0x00, 0x3b]);
    assert_eq!(gif::load(&mut ByteSource::new(&bytes)), corrupt(Corruption::UnknownExtension(0x02)));
}

#[test]
fn gif_signature_and_truncation() {
    assert_eq!(gif::load(&mut ByteSource::new(b"GIF88a\0\0\0\0\0\0\0;")), Err(ImageError::InvalidSignature));
    assert_eq!(gif::load(&mut ByteSource::new(b"gif89a\0\0\0\0\0\0\0;")), Err(ImageError::InvalidSignature));
    assert_eq!(gif::load(&mut ByteSource::new(b"GIF89")), Err(ImageError::Io));
    assert_eq!(gif::load(&mut ByteSource::new(b"GIF89a\0\0\0\0\0\0\0;")).map(|m| m.format), Ok(Format::Gif));
    let mut blocks = vec![0x21, 0xfe, 0x02, 0x41, 0x42, 0x00];
    blocks.extend_from_slice(&IMAGE);
    blocks.push(0x3b);
    let whole = gif_with(0x80, 6, &blocks);
    assert!(gif::load(&mut ByteSource::new(&whole)).is_ok());
    for cut in 6..whole.len() {
        assert_eq!(gif::load(&mut ByteSource::new(&whole[..cut])), Err(ImageError::Io));
    }
    // A sub-block that claims more than is left runs into the end.
    let bytes = gif_with(0x00, 0, &[0x21, 0xfe, 0xff, 0x00, 0x3b]);
    assert_eq!(gif::load(&mut ByteSource::new(&bytes)), Err(ImageError::Io));
}

#[test]
fn gif_counts_every_image_among_extensions() {
    let extension = [0x21u8, 0xfe, 0x03, 0x2c, 0x3b, 0x21, 0x00];
    for images in 0usize..6 {
        for extensions_between in 0usize..3 {
            let mut blocks = Vec::new();
            blocks.extend_from_slice(&extension);
            for _ in 0..images {
                blocks.extend_from_slice(&IMAGE);
                for _ in 0..extensions_between {
                    blocks.extend_from_slice(&extension);
                }
            }
            blocks.push(0x3b);
            blocks.extend_from_slice(&[0x2c, 0x2c, 0x21, 0x99, 0x3b]);
            let bytes = gif_with(0xf7, 768, &blocks);
            let expected = if images > 1 { Some(images) } else { None };
            assert_eq!(gif::load(&mut ByteSource::new(&bytes)), Ok(gif_meta(8, expected)));
        }
    }
}

#[test]
fn gif_wants_a_block_behind_an_extension() {
    let bytes = gif_with(0x00, 0, &[0x21, 0xf9, 0x04, 0, 0, 0, 0, 0x00, 0x00]);
    assert_eq!(gif::load(&mut ByteSource::new(&bytes)), corrupt(Corruption::UnknownBlock(0x00)));
    let mut blocks = IMAGE.to_vec();
    blocks.extend_from_slice(&IMAGE);
    blocks.push(0x00);
    let bytes = gif_with(0x00, 0, &blocks);
    assert_eq!(gif::load(&mut ByteSource::new(&bytes)), corrupt(Corruption::UnknownBlock(0x00)));
}

fn jpeg_meta(width: u32, height: u32) -> ImageMeta {
    ImageMeta {
        animation_frames: None,
        color: Color { mode: Rgb, alpha_channel: false, resolution: 8 },
        dimensions: Dimensions { width, height },
        format: Format::Jpeg,
    }
}

const FRAME: [u8; 7] = [0x00, 0x07, 0x08, 0x01, 0x72, 0x01, 0xfb];

#[test]
fn jpeg_start_of_frame_markers() {
    for marker in 0u8..=255 {
        let expected = matches!(
            marker,
            0xc0 | 0xc1 | 0xc2 | 0xc3 | 0xc5 | 0xc6 | 0xc7 | 0xc9 | 0xca | 0xcb | 0xcd | 0xce | 0xcf
        );
        assert_eq!(jpeg::is_sof(marker), expected);
    }
}

#[test]
fn jpeg_reads_the_first_frame_of_any_kind() {
    for marker in [0xc0u8, 0xc1, 0xc2, 0xc3, 0xc5, 0xc6, 0xc7, 0xc9, 0xca, 0xcb, 0xcd, 0xce, 0xcf] {
        let mut bytes = vec![0xff, 0xd8, 0xff, marker];
        bytes.extend_from_slice(&FRAME);
        bytes.extend_from_slice(&[0xff, 0xc0, 0x00, 0x07, 0x08, 0x00, 0x01, 0x00, 0x02]);
        assert_eq!(jpeg::load(&mut ByteSource::new(&bytes)), Ok(jpeg_meta(507, 370)));
    }
}

#[test]
fn jpeg_passes_over_other_segments_and_fill_bytes() {
    let mut bytes = vec![0xff, 0xd8];
    bytes.extend_from_slice(&[0xff, 0xc4, 0x00, 0x05, 0xff, 0xc0, 0x00]);
    bytes.extend_from_slice(&[0xff, 0xff, 0xff, 0xe1, 0x00, 0x02]);
    bytes.extend_from_slice(&[0xff, 0xc8, 0x00, 0x03, 0x99]);
    bytes.extend_from_slice(&[0xff, 0xff, 0xc2]);
    bytes.extend_from_slice(&FRAME);
    assert_eq!(jpeg::load(&mut ByteSource::new(&bytes)), Ok(jpeg_meta(507, 370)));
    let bytes = [0xff, 0xd8, 0xff, 0xc0, 0x00, 0x07, 0x10, 0xff, 0xff, 0xff, 0xff];
    assert_eq!(jpeg::load(&mut ByteSource::new(&bytes)), Ok(jpeg_meta(65535, 65535)));
}

#[test]
fn jpeg_rejects_a_segment_without_marker() {
    let bytes = [0xff, 0xd8, 0xfe, 0xc0, 0x00, 0x07, 0x08, 0x01, 0x72, 0x01, 0xfb];
    assert_eq!(jpeg::load(&mut ByteSource::new(&bytes)), corrupt(Corruption::MarkerNotFound));
    let bytes = [0xff, 0xd8, 0xff, 0xe0, 0x00, 0x03, 0x00, 0x00, 0xff, 0xc0];
    assert_eq!(jpeg::load(&mut ByteSource::new(&bytes)), corrupt(Corruption::MarkerNotFound));
}

#[test]
fn jpeg_rejects_a_length_that_cannot_hold_itself() {
    let bytes = [0xff, 0xd8, 0xff, 0xe0, 0x00, 0x01, 0xff, 0xc0];
    assert_eq!(jpeg::load(&mut ByteSource::new(&bytes)), corrupt(Corruption::SegmentLength(1)));
    let bytes = [0xff, 0xd8, 0xff, 0xc0, 0x00, 0x00, 0xff, 0xc0];
    assert_eq!(jpeg::load(&mut ByteSource::new(&bytes)), corrupt(Corruption::SegmentLength(0)));
}

#[test]
fn jpeg_signature_and_truncation() {
    assert_eq!(jpeg::load(&mut ByteSource::new(&[0xff, 0xd9, 0xff])), Err(ImageError::InvalidSignature));
    assert_eq!(jpeg::load(&mut ByteSource::new(&[0xd8, 0xff, 0xff])), Err(ImageError::InvalidSignature));
    assert_eq!(jpeg::load(&mut ByteSource::new(&[0xff])), Err(ImageError::Io));
    let mut whole = vec![0xff, 0xd8, 0xff, 0xe0, 0x00, 0x04, 0x01, 0x02, 0xff, 0xff, 0xc0];
    whole.extend_from_slice(&FRAME);
    assert_eq!(jpeg::load(&mut ByteSource::new(&whole)), Ok(jpeg_meta(507, 370)));
    for cut in 2..whole.len() {
        assert_eq!(jpeg::load(&mut ByteSource::new(&whole[..cut])), Err(ImageError::Io));
    }
    // A frame segment too short for its fields.
    let bytes = [0xff, 0xd8, 0xff, 0xc0, 0x00, 0x06, 0x08, 0x01, 0x72, 0x01, 0xfb];
    assert_eq!(jpeg::load(&mut ByteSource::new(&bytes)), Err(ImageError::Io));
    // No frame before the end.
    let bytes = [0xff, 0xd8, 0xff, 0xe0, 0x00, 0x02, 0xff, 0xd9, 0x00, 0x02];
    assert_eq!(jpeg::load(&mut ByteSource::new(&bytes)), Err(ImageError::Io));
}

#[test]
fn jpeg_frame_payload_is_read_alone() {
    assert_eq!(
        jpeg::read_frame_dimensions(&[8, 0x01, 0x72, 0x01, 0xfb]),
        Ok(Dimensions { width: 507, height: 370 })
    );
    assert_eq!(jpeg::read_frame_dimensions(&[8, 0x01, 0x72, 0x01]), Err(ImageError::Io));
    assert_eq!(jpeg::read_frame_dimensions(&[]), Err(ImageError::Io));
}

fn png_chunk(v: &mut Vec<u8>, name: &[u8; 4], payload: &[u8]) {
    v.extend_from_slice(&(payload.len() as u32).to_be_bytes());
    v.extend_from_slice(name);
    v.extend_from_slice(payload);
    v.extend_from_slice(&[0, 0, 0, 0]);
}

fn png_with(header: &[u8], names: &[&[u8; 4]]) -> Vec<u8> {
    let mut v = vec![0x89, 0x50, 0x4e, 0x47, 0x0d, 0x0a, 0x1a, 0x0a];
    png_chunk(&mut v, b"IHDR", header);
    for name in names {
        png_chunk(&mut v, name, &[1, 2, 3, 4, 5]);
    }
    v
}

fn png_meta(color: Color, animation_frames: Option<usize>) -> ImageMeta {
    ImageMeta {
        animation_frames,
        color,
        dimensions: Dimensions { width: 507, height: 370 },
        format: Format::Png,
    }
}

#[test]
fn png_colour_types() {
    for (color_type, mode, alpha_channel) in [
        (0u8, Grayscale, false),
        (2, Rgb, false),
        (3, Indexed, false),
        (4, Grayscale, true),
        (6, Rgb, true),
    ] {
        for resolution in [1u8, 8, 16] {
            let header = [0, 0, 0x01, 0xfb, 0, 0, 0x01, 0x72, resolution, color_type, 0, 0, 0];
            let bytes = png_with(&header, &[b"IEND"]);
            assert_eq!(
                png::load(&mut ByteSource::new(&bytes)),
                Ok(png_meta(Color { mode, alpha_channel, resolution }, None))
            );
            assert_eq!(
                png::read_header_fields(&header),
                Ok((Dimensions { width: 507, height: 370 }, Color { mode, alpha_channel, resolution }))
            );
        }
    }
}

#[test]
fn png_rejects_an_unknown_colour_type() {
    for color_type in [1u8, 5, 7, 8, 255] {
        let header = [0, 0, 0x01, 0xfb, 0, 0, 0x01, 0x72, 8, color_type, 0, 0, 0];
        let bytes = png_with(&header, &[b"IEND"]);
        assert_eq!(png::load(&mut ByteSource::new(&bytes)), corrupt(Corruption::ColorType(color_type)));
    }
}

#[test]
fn png_wants_the_header_chunk_first() {
    let mut bytes = vec![0x89, 0x50, 0x4e, 0x47, 0x0d, 0x0a, 0x1a, 0x0a];
    png_chunk(&mut bytes, b"IDAT", &[0, 0, 0x01, 0xfb, 0, 0, 0x01, 0x72, 8, 2, 0, 0, 0]);
    png_chunk(&mut bytes, b"IEND", &[]);
    assert_eq!(png::load(&mut ByteSource::new(&bytes)), corrupt(Corruption::NotIhdr));
}

#[test]
fn png_counts_frame_controls_from_one_on() {
    let header = [0, 0, 0x01, 0xfb, 0, 0, 0x01, 0x72, 8, 6, 0, 0, 0];
    let rgba = Color { mode: Rgb, alpha_channel: true, resolution: 8 };
    let bytes = png_with(&header, &[b"acTL", b"IDAT", b"IEND"]);
    assert_eq!(png::load(&mut ByteSource::new(&bytes)), Ok(png_meta(rgba, None)));
    let bytes = png_with(&header, &[b"acTL", b"fcTL", b"IDAT", b"IEND"]);
    assert_eq!(png::load(&mut ByteSource::new(&bytes)), Ok(png_meta(rgba, Some(1))));
    let bytes = png_with(&header, &[b"fcTL", b"IDAT", b"fcTL", b"fdAT", b"fcTL", b"fdAT", b"IEND"]);
    assert_eq!(png::load(&mut ByteSource::new(&bytes)), Ok(png_meta(rgba, Some(3))));
    // Chunks behind the end chunk are not counted.
    let bytes = png_with(&header, &[b"fcTL", b"IEND", b"fcTL", b"IEND"]);
    assert_eq!(png::load(&mut ByteSource::new(&bytes)), Ok(png_meta(rgba, Some(1))));
    // The names are told apart by case.
    let bytes = png_with(&header, &[b"FCTL", b"fctl", b"IEND"]);
    assert_eq!(png::load(&mut ByteSource::new(&bytes)), Ok(png_meta(rgba, None)));
}

#[test]
fn png_counts_every_frame_control_among_chunks() {
    let header = [0, 0, 0x01, 0xfb, 0, 0, 0x01, 0x72, 8, 6, 0, 0, 0];
    let rgba = Color { mode: Rgb, alpha_channel: true, resolution: 8 };
    for controls in 0usize..6 {
        let mut names: Vec<&[u8; 4]> = vec![b"acTL", b"tEXt"];
        for _ in 0..controls {
            names.push(b"fcTL");
            names.push(b"fdAT");
            names.push(b"tEXt");
        }
        names.push(b"IEND");
        let mut bytes = png_with(&header, &names);
        bytes.extend_from_slice(b"\0\0\0\x00fcTL\0\0\0\0 and more");
        let expected = if controls > 0 { Some(controls) } else { None };
        assert_eq!(png::load(&mut ByteSource::new(&bytes)), Ok(png_meta(rgba, expected)));
    }
}

#[test]
fn png_header_longer_or_shorter_than_usual() {
    let rgb = Color { mode: Rgb, alpha_channel: false, resolution: 8 };
    let bytes = png_with(&[0, 0, 0x01, 0xfb, 0, 0, 0x01, 0x72, 8, 2], &[b"IEND"]);
    assert_eq!(png::load(&mut ByteSource::new(&bytes)), Ok(png_meta(rgb, None)));
    let bytes = png_with(&[0, 0, 0x01, 0xfb, 0, 0, 0x01, 0x72, 8, 2, 9, 9, 9, 9, 9, 9], &[b"IEND"]);
    assert_eq!(png::load(&mut ByteSource::new(&bytes)), Ok(png_meta(rgb, None)));
    let bytes = png_with(&[0, 0, 0x01, 0xfb, 0, 0, 0x01, 0x72, 8], &[b"IEND"]);
    assert_eq!(png::load(&mut ByteSource::new(&bytes)), Err(ImageError::Io));
    let bytes = png_with(&[], &[b"IEND"]);
    assert_eq!(png::load(&mut ByteSource::new(&bytes)), Err(ImageError::Io));
}

#[test]
fn png_signature_and_truncation() {
    let header = [0, 0, 0x01, 0xfb, 0, 0, 0x01, 0x72, 8, 2, 0, 0, 0];
    let whole = png_with(&header, &[b"fcTL", b"IDAT", b"IEND"]);
    let mut bad = whole.clone();
    bad[0] = 0x88;
    assert_eq!(png::load(&mut ByteSource::new(&bad)), Err(ImageError::InvalidSignature));
    let mut bad = whole.clone();
    bad[7] = 0x0d;
    assert_eq!(png::load(&mut ByteSource::new(&bad)), Err(ImageError::InvalidSignature));
    // Everything up to the name of the end chunk is needed; its payload and checksum are not.
    let needed = whole.len() - 9;
    for cut in 0..needed {
        assert_eq!(png::load(&mut ByteSource::new(&whole[..cut])), Err(ImageError::Io));
    }
    for cut in needed..=whole.len() {
        assert!(png::load(&mut ByteSource::new(&whole[..cut])).is_ok());
    }
    // A chunk that claims more than is left runs into the end.
    let mut bytes = png_with(&header, &[]);
    bytes.extend_from_slice(&[0xff, 0xff, 0xff, 0xff]);
    bytes.extend_from_slice(b"IDAT");
    bytes.extend_from_slice(&[0; 64]);
    assert_eq!(png::load(&mut ByteSource::new(&bytes)), Err(ImageError::Io));
    // The end chunk may claim what it likes.
    let mut bytes = png_with(&header, &[]);
    bytes.extend_from_slice(&[0xff, 0xff, 0xff, 0xff]);
    bytes.extend_from_slice(b"IEND");
    assert!(png::load(&mut ByteSource::new(&bytes)).is_ok());
}

#[test]
fn qoi_channels_and_failures() {
    let bytes = b"qoif\x00\x00\x01\xfb\x00\x00\x01\x72\x03";
    assert_eq!(
        qoi::load(&mut ByteSource::new(bytes)).map(|m| (m.dimensions, m.color.alpha_channel)),
        Ok((Dimensions { width: 507, height: 370 }, false))
    );
    let bytes = b"qoif\xff\xff\xff\xff\x80\x00\x00\x00\x04\x01";
    assert_eq!(
        qoi::load(&mut ByteSource::new(bytes)).map(|m| (m.dimensions, m.color.alpha_channel)),
        Ok((Dimensions { width: u32::MAX, height: 0x8000_0000 }, true))
    );
    for channels in [0u8, 1, 2, 5, 255] {
        let mut bytes = b"qoif\x00\x00\x01\xfb\x00\x00\x01\x72".to_vec();
        bytes.push(channels);
        assert_eq!(qoi::load(&mut ByteSource::new(&bytes)), corrupt(Corruption::ColorType(channels)));
    }
    assert_eq!(qoi::load(&mut ByteSource::new(b"qoig\0\0\0\x01\0\0\0\x01\x03")), Err(ImageError::InvalidSignature));
    let whole = b"qoif\x00\x00\x01\xfb\x00\x00\x01\x72\x03";
    for cut in 0..whole.len() {
        assert_eq!(qoi::load(&mut ByteSource::new(&whole[..cut])), Err(ImageError::Io));
    }
}
