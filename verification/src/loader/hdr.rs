//! Radiance HDR: a signature line, a header of text lines, and the
//! resolution line that ends it.

use vstd::prelude::*;
use vstd::string::StringSliceAdditionalSpecFns;
use vstd::utf8::{decode_utf8, is_ascii_chars, is_ascii_chars_encode_utf8, valid_utf8};

use crate::errors::{Corruption, ImageError};
use crate::source::{after, agrees, lemma_prefix_parts, same_bytes, ByteSource, Parsed};
use crate::types::{Color, ColorMode, Dimensions, Format, ImageMeta};

verus! {

/// The eleven bytes of `#?RADIANCE` and a line feed.
pub open spec fn signature() -> Seq<u8> {
    seq![0x23u8, 0x3f, 0x52, 0x41, 0x44, 0x49, 0x41, 0x4e, 0x43, 0x45, 0x0a]
}

/// The colour model reported for every image of this format.
pub open spec fn color() -> Color {
    Color { alpha_channel: false, mode: ColorMode::Rgb, resolution: 32 }
}

/// The index of the first `byte` in `s`, or the length of `s` where it holds
/// none.
pub open spec fn find(s: Seq<u8>, byte: u8) -> nat
    decreases s.len(),
{
    if s.len() == 0 || s[0] == byte {
        0
    } else {
        1 + find(s.skip(1), byte)
    }
}

/// The first line of `s`, without the line feed that ends it and without a
/// carriage return in front of that line feed. A last line that no line feed
/// ends is taken as it stands.
pub open spec fn line_of(s: Seq<u8>) -> Seq<u8> {
    let end = find(s, 0x0a) as int;
    if 0 < end < s.len() && s[end - 1] == 0x0d {
        s.take(end - 1)
    } else {
        s.take(end)
    }
}

/// What follows the first line of `s`.
pub open spec fn behind_line(s: Seq<u8>) -> Seq<u8> {
    after(s, find(s, 0x0a) as int + 1)
}

/// The bytes of `FORMAT`.
pub open spec fn format_key() -> Seq<u8> {
    seq![0x46u8, 0x4f, 0x52, 0x4d, 0x41, 0x54]
}

/// The bytes of `32-bit_rle_rgbe`.
pub open spec fn rgbe() -> Seq<u8> {
    seq![
        0x33u8, 0x32, 0x2d, 0x62, 0x69, 0x74, 0x5f, 0x72, 0x6c, 0x65, 0x5f, 0x72, 0x67, 0x62, 0x65,
    ]
}

/// The bytes of `32-bit_rle_xyze`.
pub open spec fn xyze() -> Seq<u8> {
    seq![
        0x33u8, 0x32, 0x2d, 0x62, 0x69, 0x74, 0x5f, 0x72, 0x6c, 0x65, 0x5f, 0x78, 0x79, 0x7a, 0x65,
    ]
}

/// Whether a header line is acceptable: any line is, but one that assigns
/// `FORMAT` a pixel encoding other than the two known ones. `eq` is the index
/// of the line's first equals sign.
pub open spec fn assignment_accepted(line: Seq<u8>, eq: int) -> bool {
    line.take(eq) == format_key() ==> line.skip(eq + 1) == rgbe() || line.skip(eq + 1) == xyze()
}

/// The number that a run of decimal digits spells.
pub open spec fn digits_value(digits: Seq<char>) -> nat
    decreases digits.len(),
{
    if digits.len() == 0 {
        0
    } else {
        (10 * digits_value(digits.drop_last()) + (digits.last() as int - '0' as int)) as nat
    }
}

/// Whether a character is one of the ten decimal digits of ASCII.
pub open spec fn is_digit(c: char) -> bool {
    '0' <= c <= '9'
}

/// Whether every character is a decimal digit.
pub open spec fn all_digits(digits: Seq<char>) -> bool {
    forall|i: int| 0 <= i < digits.len() ==> is_digit(#[trigger] digits[i])
}

/// The digits of a decimal field: the field without one leading plus sign.
pub open spec fn digits_of(field: Seq<char>) -> Seq<char> {
    if field.len() > 0 && field[0] == '+' {
        field.skip(1)
    } else {
        field
    }
}

/// The number that a field spells in decimal: an optional plus sign, then at
/// least one digit and nothing else, the whole no greater than `u32::MAX`.
pub open spec fn decimal(field: Seq<char>) -> Option<u32> {
    let digits = digits_of(field);
    if digits.len() > 0 && all_digits(digits) && digits_value(digits) <= u32::MAX {
        Some(digits_value(digits) as u32)
    } else {
        None
    }
}

/// The dimensions that the fields of a resolution line give. Only the
/// orientation `-Y height +X width` is supported; fields behind the fourth
/// are not looked at.
pub open spec fn resolution(fields: Seq<Seq<char>>) -> Result<Dimensions, ImageError> {
    if fields.len() < 4 {
        Err(ImageError::CorruptImage(Corruption::ResolutionFields))
    } else if fields[0] != seq!['-', 'Y'] || fields[2] != seq!['+', 'X'] {
        Err(ImageError::Unsupported)
    } else {
        match (decimal(fields[1]), decimal(fields[3])) {
            (None, _) => Err(ImageError::CorruptImage(Corruption::Height)),
            (Some(_), None) => Err(ImageError::CorruptImage(Corruption::Width)),
            (Some(height), Some(width)) => Ok(Dimensions { height, width }),
        }
    }
}

/// The fields that `str::split_whitespace` cuts a text into: its runs of
/// characters other than Unicode white space, in order.
pub uninterp spec fn whitespace_fields(text: Seq<char>) -> Seq<Seq<char>>;

/// The header, read from just behind the signature: lines are passed over
/// while they are empty, comments or assignments, and the first other line
/// is the resolution line. A line that is not UTF-8 ends the header, as the
/// end of the stream does.
pub open spec fn header(s: Seq<u8>) -> Parsed<(Dimensions, Color)>
    decreases s.len(),
{
    let line = line_of(s);
    let eq = find(line, 0x3d) as int;
    if s.len() == 0 || !valid_utf8(line) {
        Err(ImageError::Unsupported)
    } else if line.len() == 0 || line[0] == 0x23 {
        header(behind_line(s))
    } else if eq < line.len() {
        if assignment_accepted(line, eq) {
            header(behind_line(s))
        } else {
            Err(ImageError::CorruptImage(Corruption::Encoding))
        }
    } else {
        match resolution(whitespace_fields(decode_utf8(line))) {
            Ok(dimensions) => Ok(((dimensions, color()), behind_line(s))),
            Err(e) => Err(e),
        }
    }
}

/// What the decoder makes of a whole stream.
pub open spec fn parse(s: Seq<u8>) -> Parsed<ImageMeta> {
    if s.len() < 11 {
        Err(ImageError::Io)
    } else if s.take(11) != signature() {
        Err(ImageError::InvalidSignature)
    } else {
        match header(s.skip(11)) {
            Ok(((dimensions, color), rest)) => Ok(
                (ImageMeta { animation_frames: None, color, dimensions, format: Format::Hdr }, rest),
            ),
            Err(e) => Err(e),
        }
    }
}

/// An index in front of which `byte` does not occur, and which holds it or
/// is the length, is the one that `find` gives.
proof fn lemma_find(s: Seq<u8>, byte: u8, i: int)
    requires
        0 <= i <= s.len(),
        forall|j: int| 0 <= j < i ==> s[j] != byte,
        i < s.len() ==> s[i] == byte,
    ensures
        find(s, byte) == i,
    decreases s.len(),
{
    if i > 0 {
        lemma_find(s.skip(1), byte, i - 1);
    }
}

/// The index that `find` gives is that of the first `byte`, and the length
/// where there is none.
pub proof fn lemma_find_first(s: Seq<u8>, byte: u8)
    ensures
        find(s, byte) <= s.len(),
        find(s, byte) < s.len() ==> s[find(s, byte) as int] == byte,
        forall|i: int| 0 <= i < find(s, byte) ==> s[i] != byte,
    decreases s.len(),
{
    if s.len() > 0 && s[0] != byte {
        lemma_find_first(s.skip(1), byte);
        assert forall|i: int| 0 <= i < find(s, byte) implies s[i] != byte by {
            if i > 0 {
                assert(s[i] == s.skip(1)[i - 1]);
            }
        }
    }
}

/// A header that is read takes at least one byte.
pub proof fn lemma_header_shrinks(s: Seq<u8>)
    ensures
        header(s) matches Ok((_, rest)) ==> rest.len() < s.len(),
    decreases s.len(),
{
    let line = line_of(s);
    let eq = find(line, 0x3d) as int;
    if s.len() > 0 && valid_utf8(line) && (line.len() == 0 || line[0] == 0x23 || eq < line.len()) {
        lemma_header_shrinks(behind_line(s));
    }
}

/// Bytes that follow a stream change nothing of the header that is read
/// from it, where a line feed ends the resolution line in the stream.
pub proof fn lemma_header_extends(s: Seq<u8>, t: Seq<u8>)
    requires
        s.is_prefix_of(t),
        header(s) matches Ok((_, rest)) && rest.len() < s.len() && s[s.len() - rest.len() - 1]
            == 0x0a,
    ensures
        header(t) matches Ok((same, longer)) && same == header(s)->Ok_0.0 && header(
            s,
        )->Ok_0.1.is_prefix_of(longer),
    decreases s.len(),
{
    let rest = header(s)->Ok_0.1;
    let end = find(s, 0x0a) as int;
    let line = line_of(s);
    let eq = find(line, 0x3d) as int;
    let passed = line.len() == 0 || line[0] == 0x23 || eq < line.len();
    lemma_find_first(s, 0x0a);
    lemma_prefix_parts(s, t, end + 1);
    if end < s.len() {
        lemma_find(t, 0x0a, end);
        lemma_prefix_parts(s, t, end);
        if end > 0 {
            lemma_prefix_parts(s, t, end - 1);
        }
        assert(line_of(t) == line);
        let behind = behind_line(s);
        if passed {
            lemma_header_shrinks(behind);
            assert(behind[behind.len() - rest.len() - 1] == s[s.len() - rest.len() - 1]);
            lemma_header_extends(behind, behind_line(t));
        }
    } else if passed {
        assert(behind_line(s).len() == 0);
    }
}

/// Bytes that follow a stream change nothing of what the decoder reads
/// from it, where a line feed ends the resolution line in the stream: the
/// byte in front of what the decoder leaves unread. A resolution line that
/// the end of the stream cuts short is read as it stands, and would read
/// otherwise were it longer.
pub proof fn lemma_parse_extends(s: Seq<u8>, t: Seq<u8>)
    requires
        s.is_prefix_of(t),
        parse(s) matches Ok((_, rest)) && s[s.len() - rest.len() - 1] == 0x0a,
    ensures
        parse(t) matches Ok((same, longer)) && same == parse(s)->Ok_0.0 && parse(
            s,
        )->Ok_0.1.is_prefix_of(longer),
{
    let rest = parse(s)->Ok_0.1;
    lemma_prefix_parts(s, t, 11);
    lemma_header_shrinks(s.skip(11));
    assert(s.skip(11)[s.skip(11).len() - rest.len() - 1] == s[s.len() - rest.len() - 1]);
    lemma_header_extends(s.skip(11), t.skip(11));
}

/// The index of the first `byte` in `bytes`, or their number.
fn position(bytes: &[u8], byte: u8) -> (i: usize)
    ensures
        i == find(bytes@, byte),
        i <= bytes@.len(),
{
    let mut i: usize = 0;
    while i < bytes.len() && bytes[i] != byte
        invariant
            i <= bytes@.len(),
            forall|j: int| 0 <= j < i ==> bytes@[j] != byte,
        decreases bytes@.len() - i,
    {
        i += 1;
    }
    proof {
        lemma_find(bytes@, byte, i as int);
    }
    i
}

/// Reads the next line.
fn read_line<'a>(image: &mut ByteSource<'a>) -> (line: &'a [u8])
    ensures
        line@ == line_of(old(image)@),
        final(image)@ == behind_line(old(image)@),
        final(image).origin() == old(image).origin(),
{
    let bytes = image.unread();
    let end = position(bytes, 0x0a);
    let (raw, _) = bytes.split_at(end);
    image.skip(end as u64);
    image.skip(1);
    if 0 < end && end < bytes.len() && raw[end - 1] == 0x0d {
        let (line, _) = raw.split_at(end - 1);
        assert(line@ == bytes@.take(end - 1));
        line
    } else {
        raw
    }
}

/// `std::str::from_utf8`: taken on trust that it succeeds on exactly the
/// byte strings that are well-formed UTF-8, and then gives the text that
/// they encode.
#[verifier::external_body]
fn text_of(bytes: &[u8]) -> (text: Option<&str>)
    ensures
        text is Some <==> valid_utf8(bytes@),
        text is Some ==> text.unwrap()@ == decode_utf8(bytes@),
{
    std::str::from_utf8(bytes).ok()
}

/// `str::split_whitespace`: its items, in order. Nothing is claimed of them
/// but that they are a function of the text.
#[verifier::external_body]
fn fields_of<'a>(text: &'a str) -> (fields: Vec<&'a str>)
    ensures
        fields.deep_view() == whitespace_fields(text@),
{
    text.split_whitespace().collect()
}

/// A run of digits spells no less than any run that it starts with.
proof fn lemma_digits_grow(digits: Seq<char>, k: int)
    requires
        0 <= k <= digits.len(),
        all_digits(digits),
    ensures
        digits_value(digits.take(k)) <= digits_value(digits),
    decreases digits.len() - k,
{
    if k < digits.len() {
        lemma_digits_grow(digits, k + 1);
        assert(digits.take(k + 1).drop_last() == digits.take(k));
        assert(is_digit(digits[k]));
    } else {
        assert(digits.take(k) == digits);
    }
}

/// The bytes of a text of ASCII characters are its characters, one for
/// one.
proof fn lemma_ascii_bytes(text: &str)
    requires
        is_ascii_chars(text@),
    ensures
        text.spec_bytes().len() == text@.len(),
        forall|i: int| 0 <= i < text@.len() ==> text.spec_bytes()[i] as int == text@[i] as int,
{
    is_ascii_chars_encode_utf8(text@);
    assert forall|i: int| 0 <= i < text@.len() implies text.spec_bytes()[i] as int
        == text@[i] as int by {
        let c = text@[i];
        assert('\0' <= c <= '\u{7f}');
        assert(c as u8 == text.spec_bytes()[i]);
    }
}

/// Reads a field as a decimal number.
pub fn parse_decimal(field: &str) -> (number: Option<u32>)
    ensures
        number == decimal(field@),
{
    let ghost digits = digits_of(field@);
    if !field.is_ascii() {
        proof {
            let i = choose|i: int|
                0 <= i < field@.len() && !('\0' <= #[trigger] field@[i] <= '\u{7f}');
            if field@[0] == '+' {
                assert(digits[i - 1] == field@[i]);
            }
            assert(!all_digits(digits));
        }
        return None;
    }
    proof {
        lemma_ascii_bytes(field);
    }
    let bytes = field.as_bytes();
    let start: usize = if bytes.len() > 0 && bytes[0] == 0x2b {
        1
    } else {
        0
    };
    if start == bytes.len() {
        return None;
    }
    let mut value: u64 = 0;
    let mut i: usize = start;
    while i < bytes.len()
        invariant
            start <= i <= bytes@.len(),
            bytes@.len() == field@.len(),
            forall|j: int| 0 <= j < field@.len() ==> bytes@[j] as int == field@[j] as int,
            digits == digits_of(field@),
            digits == field@.skip(start as int),
            all_digits(digits.take(i - start)),
            value == digits_value(digits.take(i - start)),
            value <= u32::MAX,
        decreases bytes@.len() - i,
    {
        let b = bytes[i];
        if b < 0x30 || b > 0x39 {
            assert(!is_digit(digits[i - start]));
            return None;
        }
        value = value * 10 + (b - 0x30) as u64;
        proof {
            let longer = digits.take(i + 1 - start);
            assert(longer.drop_last() == digits.take(i - start));
            assert(longer.last() == field@[i as int]);
            assert forall|j: int| 0 <= j < longer.len() implies is_digit(#[trigger] longer[j]) by {
                if j < longer.len() - 1 {
                    assert(longer[j] == digits.take(i - start)[j]);
                }
            }
        }
        if value > u32::MAX as u64 {
            proof {
                if all_digits(digits) {
                    lemma_digits_grow(digits, i + 1 - start);
                }
            }
            return None;
        }
        i += 1;
    }
    assert(digits.take(i - start) == digits);
    Some(value as u32)
}

/// Whether `field` is the two ASCII characters with the codes `first` and
/// `second`.
fn is_pair(field: &str, first: u8, second: u8) -> (same: bool)
    requires
        first <= 0x7f,
        second <= 0x7f,
    ensures
        same == (field@ == seq![first as char, second as char]),
{
    let ghost pair = seq![first as char, second as char];
    assert(pair.len() == 2 && pair[0] == first as char && pair[1] == second as char);
    if !field.is_ascii() {
        return false;
    }
    proof {
        lemma_ascii_bytes(field);
    }
    let bytes = field.as_bytes();
    if bytes.len() == 2 && bytes[0] == first && bytes[1] == second {
        assert(field@ =~= pair);
        true
    } else {
        false
    }
}

/// The dimensions that the fields of a resolution line give.
pub fn read_resolution(fields: &Vec<&str>) -> (dimensions: Result<Dimensions, ImageError>)
    ensures
        dimensions == resolution(fields.deep_view()),
{
    let ghost model = fields.deep_view();
    assert(model.len() == fields@.len());
    if fields.len() < 4 {
        return Err(ImageError::CorruptImage(Corruption::ResolutionFields));
    }
    assert(model[0] == fields@[0]@ && model[1] == fields@[1]@ && model[2] == fields@[2]@
        && model[3] == fields@[3]@);
    assert(seq![0x2du8 as char, 0x59u8 as char] =~= seq!['-', 'Y']);
    assert(seq![0x2bu8 as char, 0x58u8 as char] =~= seq!['+', 'X']);
    if !is_pair(fields[0], 0x2d, 0x59) || !is_pair(fields[2], 0x2b, 0x58) {
        return Err(ImageError::Unsupported);
    }
    let height = match parse_decimal(fields[1]) {
        Some(height) => height,
        None => {
            return Err(ImageError::CorruptImage(Corruption::Height));
        },
    };
    let width = match parse_decimal(fields[3]) {
        Some(width) => width,
        None => {
            return Err(ImageError::CorruptImage(Corruption::Width));
        },
    };
    Ok(Dimensions { height, width })
}

fn read_signature(image: &mut ByteSource) -> (read: Result<(), ImageError>)
    ensures
        final(image).origin() == old(image).origin(),
        match read {
            Ok(_) => {
                &&& old(image)@.len() >= 11
                &&& old(image)@.take(11) == signature()
                &&& final(image)@ == old(image)@.skip(11)
            },
            Err(e) => e == (if old(image)@.len() < 11 {
                ImageError::Io
            } else {
                ImageError::InvalidSignature
            }) && (old(image)@.len() >= 11 ==> old(image)@.take(11) != signature()),
        },
{
    let bytes = image.read_exact(11)?;
    let expected: [u8; 11] = [0x23, 0x3f, 0x52, 0x41, 0x44, 0x49, 0x41, 0x4e, 0x43, 0x45, 0x0a];
    assert(expected@ =~= signature());
    if !same_bytes(bytes, &expected) {
        return Err(ImageError::InvalidSignature);
    }
    Ok(())
}

/// Whether `line`, whose first equals sign is at `eq`, is an acceptable
/// assignment.
fn accept_assignment(line: &[u8], eq: usize) -> (accepted: bool)
    requires
        eq < line@.len(),
    ensures
        accepted == assignment_accepted(line@, eq as int),
{
    let (key, behind) = line.split_at(eq);
    let (_, value) = behind.split_at(1);
    assert(value@ == line@.skip(eq + 1));
    let format: [u8; 6] = [0x46, 0x4f, 0x52, 0x4d, 0x41, 0x54];
    let first: [u8; 15] = [
        0x33, 0x32, 0x2d, 0x62, 0x69, 0x74, 0x5f, 0x72, 0x6c, 0x65, 0x5f, 0x72, 0x67, 0x62, 0x65,
    ];
    let second: [u8; 15] = [
        0x33, 0x32, 0x2d, 0x62, 0x69, 0x74, 0x5f, 0x72, 0x6c, 0x65, 0x5f, 0x78, 0x79, 0x7a, 0x65,
    ];
    assert(format@ =~= format_key());
    assert(first@ =~= rgbe());
    assert(second@ =~= xyze());
    !same_bytes(key, &format) || same_bytes(value, &first) || same_bytes(value, &second)
}

fn read_header(image: &mut ByteSource) -> (read: Result<(Dimensions, Color), ImageError>)
    ensures
        final(image).origin() == old(image).origin(),
        agrees(read, final(image)@, header(old(image)@)),
{
    let rgb = Color { alpha_channel: false, mode: ColorMode::Rgb, resolution: 32 };
    while image.remaining() > 0
        invariant
            rgb == color(),
            image.origin() == old(image).origin(),
            header(image@) == header(old(image)@),
        decreases image@.len(),
    {
        let ghost s = image@;
        let line = read_line(image);
        let text = match text_of(line) {
            Some(text) => text,
            None => {
                return Err(ImageError::Unsupported);
            },
        };
        if line.len() == 0 || line[0] == 0x23 {
            continue ;
        }
        let eq = position(line, 0x3d);
        if eq < line.len() {
            if !accept_assignment(line, eq) {
                return Err(ImageError::CorruptImage(Corruption::Encoding));
            }
            continue ;
        }
        let fields = fields_of(text);
        return match read_resolution(&fields) {
            Ok(dimensions) => Ok((dimensions, rgb)),
            Err(e) => Err(e),
        };
    }
    Err(ImageError::Unsupported)
}

/// Reads the header of a Radiance HDR image.
pub fn load(image: &mut ByteSource) -> (read: Result<ImageMeta, ImageError>)
    ensures
        final(image).origin() == old(image).origin(),
        agrees(read, final(image)@, parse(old(image)@)),
{
    read_signature(image)?;
    let (dimensions, color) = read_header(image)?;
    Ok(ImageMeta { animation_frames: None, color, dimensions, format: Format::Hdr })
}

} // verus!
