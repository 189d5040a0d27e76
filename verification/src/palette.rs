//! The colour mode data: the palette of an indexed image.

use vstd::prelude::*;

use crate::bytes;
use crate::error::{ErrorView, ReadError, ReadResult};
use crate::psd::{ColorMode, PaletteColor};
use crate::reader;
use crate::reader::{Parsed, PsdReader, ReaderState};
use crate::roundtrip;
use crate::text;
use crate::writer;
use crate::writer::PsdWriter;

verus! {

broadcast use crate::bytes::group_bytes;

/// The 256 colours that start at `at`: first their reds, then their greens, then
/// their blues.
pub open spec fn colors_at(s: Seq<u8>, at: int) -> Seq<PaletteColor> {
    Seq::new(
        256,
        |i: int| PaletteColor { r: s[at + i], g: s[at + 256 + i], b: s[at + 512 + i] },
    )
}

/// The palette, where the document is indexed and has one.
pub open spec fn get_palette(r: ReaderState, mode: ColorMode) -> Parsed<Option<Seq<PaletteColor>>> {
    match reader::open_section(r, true, false) {
        Err(e) => Err(e),
        Ok((None, r1)) => Ok((None, r1)),
        Ok((Some(section), r1)) => if mode == ColorMode::Indexed && section.length != 768 {
            Err(ErrorView::StrictViolation("Invalid color palette size"@))
        } else {
            match reader::close_section(r1.at(section.end as int), section, 1) {
                Err(e) => Err(e),
                Ok((_, r2)) => Ok(
                    (
                        if mode == ColorMode::Indexed {
                            Some(colors_at(r1.buffer, r1.offset))
                        } else {
                            None
                        },
                        r2,
                    ),
                ),
            }
        },
    }
}

fn colors_from(buffer: &[u8], at: usize) -> (colors: Vec<PaletteColor>)
    requires
        at + 768 <= buffer@.len(),
    ensures
        colors@ == colors_at(buffer@, at as int),
{
    let size: usize = buffer.len();
    let mut colors: Vec<PaletteColor> = Vec::new();
    let mut i: usize = 0;
    while i < 256
        invariant
            i <= 256,
            at + 768 <= buffer@.len() <= usize::MAX,
            colors@ == colors_at(buffer@, at as int).take(i as int),
        decreases 256 - i,
    {
        let color: PaletteColor = PaletteColor {
            r: buffer[at + i],
            g: buffer[at + 256 + i],
            b: buffer[at + 512 + i],
        };
        colors.push(color);
        i += 1;
        assert(colors@ =~= colors_at(buffer@, at as int).take(i as int));
    }
    assert(colors@ =~= colors_at(buffer@, at as int));
    colors
}

/// Reads the colour mode data.
pub fn read_palette(reader: &mut PsdReader, mode: ColorMode) -> (result: ReadResult<
    Option<Vec<PaletteColor>>,
>)
    ensures
        match get_palette(old(reader)@, mode) {
            Ok((palette, state)) => result matches Ok(p) && palette == (match p {
                Some(colors) => Some(colors@),
                None => None,
            }) && final(reader)@ == state && final(reader)@.same_source(old(reader)@),
            Err(e) => result matches Err(err) && err@ == e && final(reader)@.same_source(
                old(reader)@,
            ),
        },
{
    match reader::begin_section(reader, true, false)? {
        None => Ok(None),
        Some(section) => {
            let mut palette: Option<Vec<PaletteColor>> = None;
            if matches!(mode, ColorMode::Indexed) {
                if section.length != 768 {
                    return Err(
                        ReadError::StrictViolation(text::owned_text("Invalid color palette size")),
                    );
                }
                palette = Some(colors_from(reader.buffer, reader.offset));
            }
            reader.offset = section.end;
            reader::end_section(reader, section, 1)?;
            Ok(palette)
        },
    }
}

/// One of the three samples of a colour.
pub open spec fn color_sample(c: PaletteColor, channel: int) -> u8 {
    if channel == 0 {
        c.r
    } else if channel == 1 {
        c.g
    } else {
        c.b
    }
}

/// The samples of a palette: the reds, greens and blues of its first 256 colours,
/// with black in place of those that it lacks.
pub open spec fn palette_body(palette: Option<Seq<PaletteColor>>) -> Seq<u8> {
    match palette {
        None => Seq::empty(),
        Some(colors) => Seq::new(
            768,
            |i: int|
                if i % 256 < colors.len() {
                    color_sample(colors[i % 256], i / 256)
                } else {
                    0u8
                },
        ),
    }
}

/// The colour mode data.
pub open spec fn palette_bytes(palette: Option<Seq<PaletteColor>>) -> Seq<u8> {
    writer::section_bytes(palette_body(palette), 1, false, false)
}

/// Writes the colour mode data.
pub fn write_palette(writer: &mut PsdWriter, palette: &Option<Vec<PaletteColor>>)
    requires
        old(writer).wf(),
    ensures
        writer::wrote(
            *old(writer),
            *final(writer),
            palette_bytes(
                match *palette {
                    Some(colors) => Some(colors@),
                    None => None,
                },
            ),
        ),
{
    let ghost view = match palette {
        Some(colors) => Some(colors@),
        None => None,
    };
    let ghost body = palette_body(view);
    let ghost base = writer.data();
    let start: usize = writer::begin_section(writer, false);
    let ghost open = writer.data();
    assert(open + Seq::<u8>::empty() =~= open);
    match palette {
        None => {},
        Some(colors) => {
            let mut i: usize = 0;
            assert(open + body.take(0) =~= open);
            while i < 768
                invariant
                    i <= 768,
                    writer.wf(),
                    writer.temp_buffer == old(writer).temp_buffer,
                    writer::grew(*old(writer), *writer),
                    body == palette_body(Some(colors@)),
                    writer.data() == open + body.take(i as int),
                decreases 768 - i,
            {
                let sample: u8 = if i % 256 < colors.len() {
                    let c: PaletteColor = colors[i % 256];
                    if i / 256 == 0 {
                        c.r
                    } else if i / 256 == 1 {
                        c.g
                    } else {
                        c.b
                    }
                } else {
                    0
                };
                writer::write_uint8(writer, sample);
                assert(body.take(i + 1) =~= body.take(i as int).push(body[i as int]));
                assert(writer.data() =~= open + body.take(i + 1));
                i += 1;
            }
            assert(body.take(i as int) =~= body);
        },
    }
    assert(writer.data() == open + body);
    assert(writer.data().len() == writer.offset);
    assert(base.len() == old(writer).offset);
    writer::end_section(writer, start, 1, false);
    proof {
        writer::lemma_section_written(base, body, 1, false, false);
        assert(writer.data().len() == writer.offset);
    }
}

/// A palette as it comes back: 256 colours, black in place of those that it lacked.
pub open spec fn stored_palette(palette: Option<Seq<PaletteColor>>) -> Option<Seq<PaletteColor>> {
    match palette {
        None => None,
        Some(colors) => Some(
            Seq::new(
                256,
                |i: int|
                    if i < colors.len() {
                        colors[i]
                    } else {
                        PaletteColor { r: 0, g: 0, b: 0 }
                    },
            ),
        ),
    }
}

/// The palette of an indexed document is read where it was written; in another
/// document it is passed over.
pub proof fn law_palette_round_trip(
    r: ReaderState,
    palette: Option<Seq<PaletteColor>>,
    mode: ColorMode,
)
    requires
        r.buffer.len() <= usize::MAX,
        bytes::holds_at(r.buffer, r.offset, palette_bytes(palette)),
    ensures
        get_palette(r, mode) == Ok::<(Option<Seq<PaletteColor>>, ReaderState), ErrorView>(
            (
                if mode == ColorMode::Indexed {
                    stored_palette(palette)
                } else {
                    None
                },
                r.at(r.offset + palette_bytes(palette).len()),
            ),
        ),
{
    let body = palette_body(palette);
    roundtrip::law_section_round_trip(r, body, 1, false, false, true);
    if palette is Some && mode == ColorMode::Indexed {
        let colors = palette->Some_0;
        let at = r.offset + 4;
        assert forall|i: int| 0 <= i < 256 implies #[trigger] colors_at(r.buffer, at)[i]
            == stored_palette(palette)->Some_0[i] by {
            bytes::lemma_holds_at_index(r.buffer, at, body, i);
            bytes::lemma_holds_at_index(r.buffer, at, body, 256 + i);
            bytes::lemma_holds_at_index(r.buffer, at, body, 512 + i);
        }
        assert(colors_at(r.buffer, at) =~= stored_palette(palette)->Some_0);
    }
}

} // verus!
