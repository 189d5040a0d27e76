//! The head of a document: its format, its size and how its samples are stored.

use vstd::prelude::*;

use crate::bytes;
use crate::error::{ErrorView, ReadError, ReadResult};
use crate::mask;
use crate::psd::ColorMode;
use crate::reader;
use crate::reader::{Parsed, PsdReader, ReaderState};
use crate::roundtrip;
use crate::text;
use crate::writer;
use crate::writer::PsdWriter;

verus! {

broadcast use crate::bytes::group_bytes;

/// What the head of a document says.
#[derive(Clone, Copy, Debug, PartialEq, Eq, Structural)]
pub struct Header {
    /// The document is in the large document format.
    pub large: bool,
    pub channels: u16,
    pub height: u32,
    pub width: u32,
    pub bits_per_channel: u16,
    pub color_mode: ColorMode,
}

impl DeepView for Header {
    type V = Header;

    open spec fn deep_view(&self) -> Header {
        *self
    }
}

impl Header {
    /// A reader accepts the head.
    pub open spec fn accepted(self) -> bool {
        &&& self.width <= mask::max_side(self.large)
        &&& self.height <= mask::max_side(self.large)
        &&& self.channels <= 16
        &&& supported_bits(self.bits_per_channel)
        &&& supported_mode(mode_code(self.color_mode))
    }
}

/// The number of a colour mode.
pub open spec fn mode_code(mode: ColorMode) -> u16 {
    match mode {
        ColorMode::Bitmap => 0,
        ColorMode::Grayscale => 1,
        ColorMode::Indexed => 2,
        ColorMode::Rgb => 3,
        ColorMode::Cmyk => 4,
        ColorMode::Multichannel => 7,
        ColorMode::Duotone => 8,
        ColorMode::Lab => 9,
    }
}

fn number_of_mode(mode: ColorMode) -> (code: u16)
    ensures
        code == mode_code(mode),
{
    match mode {
        ColorMode::Bitmap => 0,
        ColorMode::Grayscale => 1,
        ColorMode::Indexed => 2,
        ColorMode::Rgb => 3,
        ColorMode::Cmyk => 4,
        ColorMode::Multichannel => 7,
        ColorMode::Duotone => 8,
        ColorMode::Lab => 9,
    }
}

/// The colour modes that can be read: bitmap, grayscale, indexed and RGB.
pub open spec fn supported_mode(code: u16) -> bool {
    code <= 3
}

/// A sample takes 1, 8, 16 or 32 bits.
pub open spec fn supported_bits(bits: u16) -> bool {
    bits == 1 || bits == 8 || bits == 16 || bits == 32
}

/// The colour mode of a number.
pub open spec fn mode_of(code: u16) -> ColorMode {
    if code == 0 {
        ColorMode::Bitmap
    } else if code == 1 {
        ColorMode::Grayscale
    } else if code == 2 {
        ColorMode::Indexed
    } else {
        ColorMode::Rgb
    }
}

fn color_mode_from_u16(code: u16) -> (mode: ColorMode)
    ensures
        mode == mode_of(code),
{
    if code == 0 {
        ColorMode::Bitmap
    } else if code == 1 {
        ColorMode::Grayscale
    } else if code == 2 {
        ColorMode::Indexed
    } else {
        ColorMode::Rgb
    }
}

/// What is wrong with a head, where anything is.
pub open spec fn header_error(
    version: u16,
    channels: u16,
    height: u32,
    width: u32,
    bits: u16,
    code: u16,
) -> Option<Seq<char>> {
    let limit = mask::max_side(version == 2);
    if width > limit || height > limit {
        Some("Invalid size: "@ + text::decimal(width as int) + "x"@ + text::decimal(height as int))
    } else if channels > 16 {
        Some("Invalid channel count: "@ + text::decimal(channels as int))
    } else if !supported_bits(bits) {
        Some("Invalid bitsPerChannel: "@ + text::decimal(bits as int))
    } else if !supported_mode(code) {
        Some("Color mode not supported: "@ + text::decimal(code as int))
    } else {
        None
    }
}

/// The rest of a head, behind its version.
pub open spec fn get_fields(r: ReaderState, version: u16) -> Parsed<Header> {
    match reader::get_u16(r) {
        Err(e) => Err(e),
        Ok((channels, r1)) => match reader::get_u32(r1) {
            Err(e) => Err(e),
            Ok((height, r2)) => match reader::get_u32(r2) {
                Err(e) => Err(e),
                Ok((width, r3)) => match reader::get_u16(r3) {
                    Err(e) => Err(e),
                    Ok((bits_per_channel, r4)) => match reader::get_u16(r4) {
                        Err(e) => Err(e),
                        Ok((code, r5)) => match header_error(
                            version,
                            channels,
                            height,
                            width,
                            bits_per_channel,
                            code,
                        ) {
                            Some(message) => Err(ErrorView::StrictViolation(message)),
                            None => Ok(
                                (
                                    Header {
                                        large: version == 2,
                                        channels,
                                        height,
                                        width,
                                        bits_per_channel,
                                        color_mode: mode_of(code),
                                    },
                                    r5,
                                ),
                            ),
                        },
                    },
                },
            },
        },
    }
}

/// The head of a document. The reader behind it knows the format.
pub open spec fn get_header(r: ReaderState) -> Parsed<Header> {
    match reader::expect_signature(r, "8BPS"@, None) {
        Err(e) => Err(e),
        Ok((_, r1)) => match reader::get_u16(r1) {
            Err(e) => Err(e),
            Ok((version, r2)) => if version != 1 && version != 2 {
                Err(
                    ErrorView::StrictViolation(
                        "Invalid PSD file version: "@ + text::decimal(version as int),
                    ),
                )
            } else {
                match get_fields(r2.skipped(6), version) {
                    Err(e) => Err(e),
                    Ok((h, r3)) => Ok(
                        (h, ReaderState { large: h.large, global_alpha: false, ..r3 }),
                    ),
                }
            },
        },
    }
}

fn read_fields(reader: &mut PsdReader, version: u16) -> (result: ReadResult<Header>)
    requires
        version == 1 || version == 2,
    ensures
        reader::reads(result, old(reader)@, final(reader)@, get_fields(old(reader)@, version)),
{
    let channels: u16 = reader::read_uint16(reader)?;
    let height: u32 = reader::read_uint32(reader)?;
    let width: u32 = reader::read_uint32(reader)?;
    let bits_per_channel: u16 = reader::read_uint16(reader)?;
    let code: u16 = reader::read_uint16(reader)?;
    let limit: u32 = if version == 1 {
        30000
    } else {
        300000
    };
    if width > limit || height > limit {
        let mut message: String = text::numbered("Invalid size: ", width as u64);
        text::push_text(&mut message, "x");
        text::push_decimal(&mut message, height as u64);
        return Err(ReadError::StrictViolation(message));
    }
    if channels > 16 {
        return Err(
            ReadError::StrictViolation(text::numbered("Invalid channel count: ", channels as u64)),
        );
    }
    if bits_per_channel != 1 && bits_per_channel != 8 && bits_per_channel != 16 && bits_per_channel
        != 32 {
        return Err(
            ReadError::StrictViolation(
                text::numbered("Invalid bitsPerChannel: ", bits_per_channel as u64),
            ),
        );
    }
    if code > 3 {
        return Err(
            ReadError::StrictViolation(text::numbered("Color mode not supported: ", code as u64)),
        );
    }
    Ok(
        Header {
            large: version == 2,
            channels,
            height,
            width,
            bits_per_channel,
            color_mode: color_mode_from_u16(code),
        },
    )
}

/// Reads the head of a document.
pub fn read_header(reader: &mut PsdReader) -> (result: ReadResult<Header>)
    ensures
        reader::reads(result, old(reader)@, final(reader)@, get_header(old(reader)@)),
        result matches Ok(h) ==> h.accepted(),
{
    reader::check_signature(reader, "8BPS", None)?;
    let version: u16 = reader::read_uint16(reader)?;
    if version != 1 && version != 2 {
        return Err(
            ReadError::StrictViolation(
                text::numbered("Invalid PSD file version: ", version as u64),
            ),
        );
    }
    reader::skip_bytes(reader, 6);
    let h: Header = read_fields(reader, version)?;
    reader.large = h.large;
    reader.global_alpha = false;
    Ok(h)
}

/// `8BPS`, which a document starts with.
pub const SIGNATURE_8BPS: u32 = 0x3842_5053;

/// The bytes of a head.
pub open spec fn header_bytes(h: Header) -> Seq<u8> {
    bytes::u32_bytes(SIGNATURE_8BPS) + (bytes::u16_bytes(
        if h.large {
            2
        } else {
            1
        },
    ) + (bytes::zeros(6) + (bytes::u16_bytes(h.channels) + (bytes::u32_bytes(h.height) + (
    bytes::u32_bytes(h.width) + (bytes::u16_bytes(h.bits_per_channel) + bytes::u16_bytes(
        mode_code(h.color_mode),
    )))))))
}

/// Writes the head of a document.
pub fn write_header(writer: &mut PsdWriter, h: Header)
    requires
        old(writer).wf(),
    ensures
        writer::wrote(*old(writer), *final(writer), header_bytes(h)),
{
    writer::write_uint32(writer, SIGNATURE_8BPS);
    writer::write_uint16(
        writer,
        if h.large {
            2
        } else {
            1
        },
    );
    writer::write_zeros(writer, 6);
    writer::write_uint16(writer, h.channels);
    writer::write_uint32(writer, h.height);
    writer::write_uint32(writer, h.width);
    writer::write_uint16(writer, h.bits_per_channel);
    writer::write_uint16(writer, number_of_mode(h.color_mode));
    assert(writer.data() =~= old(writer).data() + header_bytes(h));
}

/// The head of a document is read where it was written.
pub proof fn law_header_round_trip(r: ReaderState, h: Header)
    requires
        r.buffer.len() <= usize::MAX,
        h.accepted(),
        bytes::holds_at(r.buffer, r.offset, header_bytes(h)),
    ensures
        get_header(r) == Ok::<(Header, ReaderState), ErrorView>(
            (
                h,
                ReaderState {
                    large: h.large,
                    global_alpha: false,
                    ..r.at(r.offset + header_bytes(h).len())
                },
            ),
        ),
        header_bytes(h).len() == 26,
{
    let version: u16 = if h.large {
        2
    } else {
        1
    };
    let o = r.offset;
    let code = bytes::u16_bytes(mode_code(h.color_mode));
    let bits = bytes::u16_bytes(h.bits_per_channel) + code;
    let width = bytes::u32_bytes(h.width) + bits;
    let height = bytes::u32_bytes(h.height) + width;
    let channels = bytes::u16_bytes(h.channels) + height;
    let gap = bytes::zeros(6) + channels;
    let start = bytes::u16_bytes(version) + gap;
    bytes::lemma_holds_at_split(r.buffer, o, bytes::u32_bytes(SIGNATURE_8BPS), start);
    bytes::lemma_holds_at_split(r.buffer, o + 4, bytes::u16_bytes(version), gap);
    bytes::lemma_holds_at_split(r.buffer, o + 6, bytes::zeros(6), channels);
    bytes::lemma_holds_at_split(r.buffer, o + 12, bytes::u16_bytes(h.channels), height);
    bytes::lemma_holds_at_split(r.buffer, o + 14, bytes::u32_bytes(h.height), width);
    bytes::lemma_holds_at_split(r.buffer, o + 18, bytes::u32_bytes(h.width), bits);
    bytes::lemma_holds_at_split(r.buffer, o + 22, bytes::u16_bytes(h.bits_per_channel), code);
    let signature = bytes::u32_bytes(SIGNATURE_8BPS);
    assert(text::latin1(signature) =~= "8BPS"@) by {
        reveal(bytes::u32_bytes);
        reveal_strlit("8BPS");
    }
    roundtrip::law_bytes_round_trip(r, signature);
    roundtrip::law_uint16_round_trip(r.at(o + 4), version);
    roundtrip::law_uint16_round_trip(r.at(o + 12), h.channels);
    roundtrip::law_uint32_round_trip(r.at(o + 14), h.height);
    roundtrip::law_uint32_round_trip(r.at(o + 18), h.width);
    roundtrip::law_uint16_round_trip(r.at(o + 22), h.bits_per_channel);
    roundtrip::law_uint16_round_trip(r.at(o + 24), mode_code(h.color_mode));
}

} // verus!
