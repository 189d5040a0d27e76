//! Colours: the number of a colour space and four samples.

use vstd::prelude::*;

use crate::bytes;
use crate::error::{ErrorView, ReadError, ReadResult};
use crate::helpers;
use crate::helpers::ColorSpace;
use crate::psd::{Cmyk, Color, Grayscale, Hsb, Lab, Rgb};
use crate::reader;
use crate::reader::{Parsed, PsdReader, ReaderState};
use crate::roundtrip;
use crate::text;
use crate::writer;
use crate::writer::PsdWriter;

verus! {

broadcast use crate::bytes::group_bytes;

/// Three 16-bit numbers.
pub open spec fn get_three(r: ReaderState) -> Parsed<(u16, u16, u16)> {
    match reader::get_u16(r) {
        Err(e) => Err(e),
        Ok((a, r1)) => match reader::get_u16(r1) {
            Err(e) => Err(e),
            Ok((b, r2)) => match reader::get_u16(r2) {
                Err(e) => Err(e),
                Ok((c, r3)) => Ok(((a, b, c), r3)),
            },
        },
    }
}

/// The colour at the cursor.
pub open spec fn get_color(r: ReaderState) -> Parsed<Color> {
    match reader::get_u16(r) {
        Err(e) => Err(e),
        Ok((space, r1)) => if space == helpers::color_space_code(ColorSpace::Rgb) {
            match get_three(r1) {
                Err(e) => Err(e),
                Ok(((red, g, b), r2)) => Ok((Color::Rgb(Rgb { r: red, g, b }), r2.skipped(2))),
            }
        } else if space == helpers::color_space_code(ColorSpace::Hsb) {
            match get_three(r1) {
                Err(e) => Err(e),
                Ok(((h, s, b), r2)) => Ok((Color::Hsb(Hsb { h, s, b }), r2.skipped(2))),
            }
        } else if space == helpers::color_space_code(ColorSpace::Cmyk) {
            match get_three(r1) {
                Err(e) => Err(e),
                Ok(((c, m, y), r2)) => match reader::get_u16(r2) {
                    Err(e) => Err(e),
                    Ok((k, r3)) => Ok((Color::Cmyk(Cmyk { c, m, y, k }), r3)),
                },
            }
        } else if space == helpers::color_space_code(ColorSpace::Lab) {
            match get_three(r1) {
                Err(e) => Err(e),
                Ok(((l, a, b), r2)) => Ok(
                    (
                        Color::Lab(
                            Lab {
                                l: bytes::i16_of_bits(l),
                                a: bytes::i16_of_bits(a),
                                b: bytes::i16_of_bits(b),
                            },
                        ),
                        r2.skipped(2),
                    ),
                ),
            }
        } else if space == helpers::color_space_code(ColorSpace::Grayscale) {
            match reader::get_u16(r1) {
                Err(e) => Err(e),
                Ok((k, r2)) => Ok((Color::Grayscale(Grayscale { k }), r2.skipped(6))),
            }
        } else {
            Err(ErrorView::StrictViolation("Invalid color space"@))
        },
    }
}

fn read_three(reader: &mut PsdReader) -> (result: ReadResult<(u16, u16, u16)>)
    ensures
        match get_three(old(reader)@) {
            Ok((v, state)) => result == Ok::<(u16, u16, u16), ReadError>(v) && final(reader)@
                == state && final(reader)@.same_source(old(reader)@),
            Err(e) => result matches Err(err) && err@ == e && final(reader)@.same_source(
                old(reader)@,
            ),
        },
{
    let a: u16 = reader::read_uint16(reader)?;
    let b: u16 = reader::read_uint16(reader)?;
    let c: u16 = reader::read_uint16(reader)?;
    Ok((a, b, c))
}

/// Reads a colour.
pub fn read_color(reader: &mut PsdReader) -> (result: ReadResult<Color>)
    ensures
        reader::reads(result, old(reader)@, final(reader)@, get_color(old(reader)@)),
{
    let space: u16 = reader::read_uint16(reader)?;
    if space == ColorSpace::Rgb.code() {
        let (r, g, b): (u16, u16, u16) = read_three(reader)?;
        reader::skip_bytes(reader, 2);
        Ok(Color::Rgb(Rgb { r, g, b }))
    } else if space == ColorSpace::Hsb.code() {
        let (h, s, b): (u16, u16, u16) = read_three(reader)?;
        reader::skip_bytes(reader, 2);
        Ok(Color::Hsb(Hsb { h, s, b }))
    } else if space == ColorSpace::Cmyk.code() {
        let (c, m, y): (u16, u16, u16) = read_three(reader)?;
        let k: u16 = reader::read_uint16(reader)?;
        Ok(Color::Cmyk(Cmyk { c, m, y, k }))
    } else if space == ColorSpace::Lab.code() {
        let (l, a, b): (u16, u16, u16) = read_three(reader)?;
        reader::skip_bytes(reader, 2);
        Ok(
            Color::Lab(
                Lab {
                    l: bytes::i16_from_bits(l),
                    a: bytes::i16_from_bits(a),
                    b: bytes::i16_from_bits(b),
                },
            ),
        )
    } else if space == ColorSpace::Grayscale.code() {
        let k: u16 = reader::read_uint16(reader)?;
        reader::skip_bytes(reader, 6);
        Ok(Color::Grayscale(Grayscale { k }))
    } else {
        Err(ReadError::StrictViolation(text::owned_text("Invalid color space")))
    }
}

/// The number of a colour space and four samples.
pub open spec fn sample_bytes(space: ColorSpace, a: u16, b: u16, c: u16, d: u16) -> Seq<u8> {
    bytes::u16_bytes(helpers::color_space_code(space)) + (bytes::u16_bytes(a) + (bytes::u16_bytes(b)
        + (bytes::u16_bytes(c) + bytes::u16_bytes(d))))
}

/// The bytes of a colour; no colour counts as black.
pub open spec fn color_bytes(color: Option<Color>) -> Seq<u8> {
    match color {
        None => sample_bytes(ColorSpace::Rgb, 0, 0, 0, 0),
        Some(Color::Rgba(c)) => sample_bytes(ColorSpace::Rgb, c.r, c.g, c.b, 0),
        Some(Color::Rgb(c)) => sample_bytes(ColorSpace::Rgb, c.r, c.g, c.b, 0),
        Some(Color::Frgb(c)) => sample_bytes(ColorSpace::Rgb, c.fr, c.fg, c.fb, 0),
        Some(Color::Lab(c)) => sample_bytes(
            ColorSpace::Lab,
            bytes::i16_bits(c.l),
            bytes::i16_bits(c.a),
            bytes::i16_bits(c.b),
            0,
        ),
        Some(Color::Hsb(c)) => sample_bytes(ColorSpace::Hsb, c.h, c.s, c.b, 0),
        Some(Color::Cmyk(c)) => sample_bytes(ColorSpace::Cmyk, c.c, c.m, c.y, c.k),
        Some(Color::Grayscale(c)) => sample_bytes(ColorSpace::Grayscale, c.k, 0, 0, 0),
    }
}

fn write_samples(writer: &mut PsdWriter, space: ColorSpace, a: u16, b: u16, c: u16, d: u16)
    requires
        old(writer).wf(),
    ensures
        writer::wrote(*old(writer), *final(writer), sample_bytes(space, a, b, c, d)),
{
    writer::write_uint16(writer, space.code());
    writer::write_uint16(writer, a);
    writer::write_uint16(writer, b);
    writer::write_uint16(writer, c);
    writer::write_uint16(writer, d);
    assert(writer.data() =~= old(writer).data() + sample_bytes(space, a, b, c, d));
}

/// Writes a colour; no colour counts as black.
pub fn write_color(writer: &mut PsdWriter, color: Option<&Color>)
    requires
        old(writer).wf(),
    ensures
        writer::wrote(
            *old(writer),
            *final(writer),
            color_bytes(
                match color {
                    Some(c) => Some(*c),
                    None => None,
                },
            ),
        ),
{
    match color {
        None => write_samples(writer, ColorSpace::Rgb, 0, 0, 0, 0),
        Some(color) => match *color {
            Color::Rgba(c) => write_samples(writer, ColorSpace::Rgb, c.r, c.g, c.b, 0),
            Color::Rgb(c) => write_samples(writer, ColorSpace::Rgb, c.r, c.g, c.b, 0),
            Color::Frgb(c) => write_samples(writer, ColorSpace::Rgb, c.fr, c.fg, c.fb, 0),
            Color::Lab(c) => write_samples(
                writer,
                ColorSpace::Lab,
                bytes::bits_of_i16(c.l),
                bytes::bits_of_i16(c.a),
                bytes::bits_of_i16(c.b),
                0,
            ),
            Color::Hsb(c) => write_samples(writer, ColorSpace::Hsb, c.h, c.s, c.b, 0),
            Color::Cmyk(c) => write_samples(writer, ColorSpace::Cmyk, c.c, c.m, c.y, c.k),
            Color::Grayscale(c) => write_samples(writer, ColorSpace::Grayscale, c.k, 0, 0, 0),
        },
    }
}

/// A colour as it comes back: every colour of red, green and blue as plain RGB,
/// and no colour as black.
pub open spec fn stored_color(color: Option<Color>) -> Color {
    match color {
        None => Color::Rgb(Rgb { r: 0, g: 0, b: 0 }),
        Some(Color::Rgba(c)) => Color::Rgb(Rgb { r: c.r, g: c.g, b: c.b }),
        Some(Color::Frgb(c)) => Color::Rgb(Rgb { r: c.fr, g: c.fg, b: c.fb }),
        Some(c) => c,
    }
}

proof fn lemma_samples_read_back(
    r: ReaderState,
    space: ColorSpace,
    a: u16,
    b: u16,
    c: u16,
    d: u16,
)
    requires
        r.buffer.len() <= usize::MAX,
        bytes::holds_at(r.buffer, r.offset, sample_bytes(space, a, b, c, d)),
    ensures
        reader::get_u16(r) == Ok::<(u16, ReaderState), ErrorView>(
            (helpers::color_space_code(space), r.at(r.offset + 2)),
        ),
        reader::get_u16(r.at(r.offset + 2)) == Ok::<(u16, ReaderState), ErrorView>(
            (a, r.at(r.offset + 4)),
        ),
        get_three(r.at(r.offset + 2)) == Ok::<((u16, u16, u16), ReaderState), ErrorView>(
            ((a, b, c), r.at(r.offset + 8)),
        ),
        reader::get_u16(r.at(r.offset + 8)) == Ok::<(u16, ReaderState), ErrorView>(
            (d, r.at(r.offset + 10)),
        ),
        r.offset + 10 <= usize::MAX,
        sample_bytes(space, a, b, c, d).len() == 10,
{
    let o = r.offset;
    let code = helpers::color_space_code(space);
    let tail_3 = bytes::u16_bytes(c) + bytes::u16_bytes(d);
    let tail_2 = bytes::u16_bytes(b) + tail_3;
    let tail_1 = bytes::u16_bytes(a) + tail_2;
    bytes::lemma_holds_at_split(r.buffer, o, bytes::u16_bytes(code), tail_1);
    bytes::lemma_holds_at_split(r.buffer, o + 2, bytes::u16_bytes(a), tail_2);
    bytes::lemma_holds_at_split(r.buffer, o + 4, bytes::u16_bytes(b), tail_3);
    bytes::lemma_holds_at_split(r.buffer, o + 6, bytes::u16_bytes(c), bytes::u16_bytes(d));
    roundtrip::law_uint16_round_trip(r, code);
    roundtrip::law_uint16_round_trip(r.at(o + 2), a);
    roundtrip::law_uint16_round_trip(r.at(o + 4), b);
    roundtrip::law_uint16_round_trip(r.at(o + 6), c);
    roundtrip::law_uint16_round_trip(r.at(o + 8), d);
}

/// A colour is read where it was written.
pub proof fn law_color_round_trip(r: ReaderState, color: Option<Color>)
    requires
        r.buffer.len() <= usize::MAX,
        bytes::holds_at(r.buffer, r.offset, color_bytes(color)),
    ensures
        get_color(r) == Ok::<(Color, ReaderState), ErrorView>(
            (stored_color(color), r.at(r.offset + color_bytes(color).len())),
        ),
{
    match color {
        None => lemma_samples_read_back(r, ColorSpace::Rgb, 0, 0, 0, 0),
        Some(Color::Rgba(c)) => lemma_samples_read_back(r, ColorSpace::Rgb, c.r, c.g, c.b, 0),
        Some(Color::Rgb(c)) => lemma_samples_read_back(r, ColorSpace::Rgb, c.r, c.g, c.b, 0),
        Some(Color::Frgb(c)) => lemma_samples_read_back(r, ColorSpace::Rgb, c.fr, c.fg, c.fb, 0),
        Some(Color::Lab(c)) => {
            lemma_samples_read_back(
                r,
                ColorSpace::Lab,
                bytes::i16_bits(c.l),
                bytes::i16_bits(c.a),
                bytes::i16_bits(c.b),
                0,
            );
            bytes::lemma_signed_bits(c.l, 0);
            bytes::lemma_signed_bits(c.a, 0);
            bytes::lemma_signed_bits(c.b, 0);
        },
        Some(Color::Hsb(c)) => lemma_samples_read_back(r, ColorSpace::Hsb, c.h, c.s, c.b, 0),
        Some(Color::Cmyk(c)) => lemma_samples_read_back(r, ColorSpace::Cmyk, c.c, c.m, c.y, c.k),
        Some(Color::Grayscale(c)) => lemma_samples_read_back(
            r,
            ColorSpace::Grayscale,
            c.k,
            0,
            0,
            0,
        ),
    }
}

} // verus!
