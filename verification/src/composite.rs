//! The composite image: the picture of the whole document.

use vstd::prelude::*;

use crate::budget;
use crate::bytes;
use crate::codec;
use crate::error::{ErrorView, ReadError, ReadResult};
use crate::header::Header;
use crate::matte;
use crate::pixels;
use crate::pixels::DecodeTarget;
use crate::psd::{ColorMode, Compression, PaletteColor, PixelData, PixelDataView};
use crate::reader;
use crate::reader::{Parsed, PsdReader, ReaderState};
use crate::records;
use crate::rle;
use crate::text;
use crate::zlib;

verus! {

broadcast use crate::bytes::group_bytes;

/// The pixels of the palette colours of samples; a sample without a colour
/// leaves its pixel alone.
pub open spec fn indexed_pixels(
    samples: Seq<u8>,
    image: Seq<u8>,
    count: int,
    palette: Seq<PaletteColor>,
) -> Seq<u8> {
    Seq::new(
        image.len(),
        |i: int|
            if i >= 4 * count || samples[i / 4] >= palette.len() {
                image[i]
            } else {
                let c = palette[samples[i / 4] as int];
                if i % 4 == 0 {
                    c.r
                } else if i % 4 == 1 {
                    c.g
                } else if i % 4 == 2 {
                    c.b
                } else {
                    255u8
                }
            },
    )
}

/// Replaces samples by the colours of a palette.
pub fn indexed_to_rgb(
    samples: &Vec<u8>,
    image: &mut Vec<u8>,
    count: usize,
    palette: &Vec<PaletteColor>,
)
    requires
        count <= samples@.len(),
        4 * count <= old(image)@.len(),
    ensures
        final(image)@ == indexed_pixels(samples@, old(image)@, count as int, palette@),
{
    let len: usize = image.len();
    let ghost all = indexed_pixels(samples@, image@, count as int, palette@);
    let mut s: usize = 0;
    while s < count
        invariant
            s <= count,
            count <= samples@.len(),
            4 * count <= len,
            len == old(image)@.len(),
            image@.len() == len,
            all == indexed_pixels(samples@, old(image)@, count as int, palette@),
            forall|j: int|
                0 <= j < len ==> #[trigger] image@[j] == (if j < 4 * s {
                    all[j]
                } else {
                    old(image)@[j]
                }),
        decreases count - s,
    {
        let index: usize = samples[s] as usize;
        let d: usize = 4 * s;
        proof {
            assert(d / 4 == s && (d + 1) / 4 == s && (d + 2) / 4 == s && (d + 3) / 4 == s);
            assert(d % 4 == 0 && (d + 1) % 4 == 1 && (d + 2) % 4 == 2 && (d + 3) % 4 == 3);
        }
        if index < palette.len() {
            let c: PaletteColor = palette[index];
            image.set(d, c.r);
            image.set(d + 1, c.g);
            image.set(d + 2, c.b);
            image.set(d + 3, 255);
        }
        assert(image@[d as int] == all[d as int]);
        assert(image@[d + 1] == all[d + 1]);
        assert(image@[d + 2] == all[d + 2]);
        assert(image@[d + 3] == all[d + 3]);
        s += 1;
    }
    assert(image@ =~= all);
}

/// The places in a pixel that the channels of the composite image go to.
pub open spec fn composite_channels(gray: bool, count: int, global_alpha: bool) -> Seq<usize> {
    (if gray {
        seq![0usize]
    } else {
        seq![0usize, 1usize, 2usize]
    }) + (if count > 3 {
        Seq::new((count - 3) as nat, |i: int| (3 + i) as usize)
    } else if global_alpha {
        seq![3usize]
    } else {
        Seq::empty()
    })
}

fn list_composite_channels(gray: bool, count: u16, global_alpha: bool) -> (channels: Vec<usize>)
    ensures
        channels@ == composite_channels(gray, count as int, global_alpha),
{
    let mut channels: Vec<usize> = Vec::new();
    channels.push(0);
    if !gray {
        channels.push(1);
        channels.push(2);
    }
    let ghost base = channels@;
    if count > 3 {
        let mut i: u16 = 3;
        while i < count
            invariant
                3 <= i <= count,
                channels@ == base + Seq::new((i - 3) as nat, |k: int| (3 + k) as usize),
            decreases count - i,
        {
            channels.push(i as usize);
            i += 1;
            assert(channels@ =~= base + Seq::new((i - 3) as nat, |k: int| (3 + k) as usize));
        }
    } else if global_alpha {
        channels.push(3);
    }
    assert(channels@ =~= composite_channels(gray, count as int, global_alpha));
    channels
}

/// `image` with the first `n` of several raw channels stored in it.
pub open spec fn get_raw_channels(
    r: ReaderState,
    image: Seq<u8>,
    channels: Seq<usize>,
    n: int,
    area: int,
    bits: u16,
) -> Parsed<Seq<u8>>
    decreases n,
{
    if n <= 0 {
        Ok((image, r))
    } else {
        match get_raw_channels(r, image, channels, n - 1, area, bits) {
            Err(e) => Err(e),
            Ok((d, r1)) => match reader::get_bytes(r1, area * (bits as int / 8)) {
                Err(e) => Err(e),
                Ok((stream, r2)) => Ok(
                    (
                        codec::raw_stored(d, area, stream, bits as u32, 4, channels[n - 1] as int),
                        r2,
                    ),
                ),
            },
        }
    }
}

proof fn lemma_raw_channels_error(
    r: ReaderState,
    image: Seq<u8>,
    channels: Seq<usize>,
    n: int,
    m: int,
    area: int,
    bits: u16,
)
    requires
        0 <= n <= m,
        get_raw_channels(r, image, channels, n, area, bits) is Err,
    ensures
        get_raw_channels(r, image, channels, m, area, bits) == get_raw_channels(
            r,
            image,
            channels,
            n,
            area,
            bits,
        ),
    decreases m,
{
    if n < m {
        lemma_raw_channels_error(r, image, channels, n, m - 1, area, bits);
    }
}

/// All that is left to read.
pub open spec fn rest_of(r: ReaderState) -> Seq<u8> {
    if r.offset < r.buffer.len() {
        r.buffer.skip(r.offset)
    } else {
        Seq::empty()
    }
}

/// The inside of a compressed stream at the cursor, which must take exactly `size`
/// bytes. While it is decompressed it must fit in the memory limit.
pub open spec fn get_stream(r: ReaderState, size: int) -> Parsed<Seq<u8>> {
    match budget::charged(r.budget, size) {
        Err(e) => Err(e),
        Ok(_) => {
            let found = zlib::inflated(rest_of(r), size as nat);
            if found matches Some(f) && f.0 && f.1.len() == size {
                Ok((found->Some_0.1, r.skipped(found->Some_0.2 as int)))
            } else {
                Err(ErrorView::StrictViolation("Invalid compressed image data"@))
            }
        },
    }
}

/// `image` with the first `n` channels of compressed samples.
pub open spec fn get_zip_channels(
    r: ReaderState,
    image: Seq<u8>,
    channels: Seq<usize>,
    n: int,
    h: Header,
    prediction: bool,
) -> Parsed<Seq<u8>>
    decreases n,
{
    if n <= 0 {
        Ok((image, r))
    } else {
        match get_zip_channels(r, image, channels, n - 1, h, prediction) {
            Err(e) => Err(e),
            Ok((d, r1)) => match get_stream(
                r1,
                codec::samples_size(h.width as int, h.height as int, h.bits_per_channel as u32),
            ) {
                Err(e) => Err(e),
                Ok((raw, r2)) => Ok(
                    (
                        codec::inflated_stored(
                            d,
                            h.width * h.height,
                            raw,
                            h.width as int,
                            h.height as int,
                            h.bits_per_channel as u32,
                            4,
                            channels[n - 1] as int,
                            prediction,
                        ),
                        r2,
                    ),
                ),
            },
        }
    }
}

proof fn lemma_zip_channels_error(
    r: ReaderState,
    image: Seq<u8>,
    channels: Seq<usize>,
    n: int,
    m: int,
    h: Header,
    prediction: bool,
)
    requires
        0 <= n <= m,
        get_zip_channels(r, image, channels, n, h, prediction) is Err,
    ensures
        get_zip_channels(r, image, channels, m, h, prediction) == get_zip_channels(
            r,
            image,
            channels,
            n,
            h,
            prediction,
        ),
    decreases m,
{
    if n < m {
        lemma_zip_channels_error(r, image, channels, n, m - 1, h, prediction);
    }
}

/// Bytes of which every row is stored as differences, or as it is.
pub open spec fn unpredicted_rows(
    raw: Seq<u8>,
    width: int,
    height: int,
    prediction: bool,
) -> Seq<u8> {
    if prediction {
        codec::unpredicted(raw, width, height)
    } else {
        raw
    }
}

/// The pixels of an RGB or grayscale image.
#[verifier::opaque]
pub open spec fn get_color_image(
    r: ReaderState,
    h: Header,
    image: Seq<u8>,
    compression: Compression,
) -> Parsed<Seq<u8>> {
    let gray = h.color_mode == ColorMode::Grayscale;
    let channels = composite_channels(gray, h.channels as int, r.global_alpha);
    let decoded = if compression == Compression::RawData {
        get_raw_channels(
            r,
            image,
            channels,
            channels.len() as int,
            h.width * h.height,
            h.bits_per_channel,
        )
    } else if compression != Compression::RleCompressed {
        get_zip_channels(
            r,
            image,
            channels,
            channels.len() as int,
            h,
            compression == Compression::ZipWithPrediction,
        )
    } else {
        match rle::get_rle(
            r,
            Some(image),
            h.width as int,
            h.height as int,
            h.bits_per_channel as u32,
            4,
            channels,
            r.large,
        ) {
            Err(e) => Err(e),
            Ok((d, r1)) => Ok((d->Some_0, r1)),
        }
    };
    match decoded {
        Err(e) => Err(e),
        Ok((d, r1)) => Ok(
            (
                if gray {
                    pixels::grayed(d, h.width * h.height * 4)
                } else {
                    d
                },
                r1,
            ),
        ),
    }
}

/// The samples of an image of one channel of bytes, run-length coded.
pub open spec fn get_plane(r: ReaderState, h: Header) -> Parsed<Seq<u8>> {
    match budget::charged(r.budget, h.width * h.height) {
        Err(e) => Err(e),
        Ok(_) => match rle::get_rle(
            r,
            Some(bytes::zeros(h.width * h.height)),
            h.width as int,
            h.height as int,
            8,
            1,
            seq![0usize],
            r.large,
        ) {
            Err(e) => Err(e),
            Ok((d, r1)) => Ok((d->Some_0, r1)),
        },
    }
}

/// The pixels of an image of one bit per pixel.
#[verifier::opaque]
pub open spec fn get_bitmap_image(
    r: ReaderState,
    h: Header,
    image: Seq<u8>,
    compression: Compression,
) -> Parsed<Seq<u8>> {
    if h.bits_per_channel != 1 {
        Err(ErrorView::StrictViolation("Invalid bitsPerChannel for bitmap color mode"@))
    } else {
        let packed = if compression == Compression::RawData {
            reader::get_bytes(r, ((h.width + 7) / 8) * h.height)
        } else if compression == Compression::RleCompressed {
            get_plane(r, h)
        } else {
            match get_stream(r, ((h.width + 7) / 8) * h.height) {
                Err(e) => Err(e),
                Ok((raw, r1)) => Ok(
                    (
                        unpredicted_rows(
                            raw,
                            (h.width + 7) / 8,
                            h.height as int,
                            compression == Compression::ZipWithPrediction,
                        ),
                        r1,
                    ),
                ),
            }
        };
        match packed {
            Err(e) => Err(e),
            Ok((input, r1)) => Ok(
                (pixels::bitmap_decoded(input, image, h.width as int, h.height as int), r1),
            ),
        }
    }
}

/// The pixels of an image of palette colours.
#[verifier::opaque]
pub open spec fn get_indexed_image(
    r: ReaderState,
    h: Header,
    image: Seq<u8>,
    compression: Compression,
    palette: Option<Seq<PaletteColor>>,
) -> Parsed<Seq<u8>> {
    if h.bits_per_channel != 8 {
        Err(ErrorView::StrictViolation("bitsPerChannel Not supproted"@))
    } else if h.channels != 1 {
        Err(ErrorView::StrictViolation("Invalid channel count"@))
    } else {
        match palette {
            None => Err(ErrorView::StrictViolation("Missing color palette"@)),
            Some(palette) => if compression == Compression::RawData {
                Err(ErrorView::StrictViolation("Not implemented"@))
            } else if compression != Compression::RleCompressed {
                match get_stream(r, h.width * h.height) {
                    Err(e) => Err(e),
                    Ok((raw, r1)) => Ok(
                        (
                            indexed_pixels(
                                unpredicted_rows(
                                    raw,
                                    h.width as int,
                                    h.height as int,
                                    compression == Compression::ZipWithPrediction,
                                ),
                                image,
                                h.width * h.height,
                                palette,
                            ),
                            r1,
                        ),
                    ),
                }
            } else {
                match get_plane(r, h) {
                    Err(e) => Err(e),
                    Ok((samples, r1)) => Ok(
                        (indexed_pixels(samples, image, h.width * h.height, palette), r1),
                    ),
                }
            },
        }
    }
}

/// The name of a colour mode.
pub open spec fn mode_name(mode: ColorMode) -> Seq<char> {
    match mode {
        ColorMode::Bitmap => "Bitmap"@,
        ColorMode::Grayscale => "Grayscale"@,
        ColorMode::Indexed => "Indexed"@,
        ColorMode::Rgb => "Rgb"@,
        ColorMode::Cmyk => "Cmyk"@,
        ColorMode::Multichannel => "Multichannel"@,
        ColorMode::Duotone => "Duotone"@,
        ColorMode::Lab => "Lab"@,
    }
}

fn name_of_mode(mode: ColorMode) -> (name: &'static str)
    ensures
        name@ == mode_name(mode),
{
    match mode {
        ColorMode::Bitmap => "Bitmap",
        ColorMode::Grayscale => "Grayscale",
        ColorMode::Indexed => "Indexed",
        ColorMode::Rgb => "Rgb",
        ColorMode::Cmyk => "Cmyk",
        ColorMode::Multichannel => "Multichannel",
        ColorMode::Duotone => "Duotone",
        ColorMode::Lab => "Lab",
    }
}

/// The pixels of an image in the colour mode of the document.
#[verifier::opaque]
pub open spec fn get_mode_image(
    r: ReaderState,
    h: Header,
    image: Seq<u8>,
    compression: Compression,
    palette: Option<Seq<PaletteColor>>,
) -> Parsed<Seq<u8>> {
    match h.color_mode {
        ColorMode::Bitmap => get_bitmap_image(r, h, image, compression),
        ColorMode::Rgb | ColorMode::Grayscale => get_color_image(r, h, image, compression),
        ColorMode::Indexed => get_indexed_image(r, h, image, compression, palette),
        _ => Err(
            ErrorView::StrictViolation("Color mode not supported: "@ + mode_name(h.color_mode)),
        ),
    }
}

/// What is left of the memory limit once the composite image is charged, where the
/// number says how the image is compressed.
pub open spec fn checked_charge(compression: u16, limit: Option<usize>, size: int) -> Result<
    Option<usize>,
    ErrorView,
> {
    if compression > 3 {
        Err(
            ErrorView::StrictViolation(
                "Compression type not supported: "@ + text::decimal(compression as int),
            ),
        )
    } else {
        budget::charged(limit, size)
    }
}

/// The composite image of a document.
pub open spec fn get_composite(
    r: ReaderState,
    h: Header,
    palette: Option<Seq<PaletteColor>>,
) -> Parsed<PixelDataView> {
    let size = h.width * h.height * 4;
    match reader::get_u16(r) {
        Err(e) => Err(e),
        Ok((v, r1)) => {
            let compression = records::compression_of(v);
            match checked_charge(v, r1.budget, size) {
                Err(e) => Err(e),
                Ok(budget) => match get_mode_image(
                    ReaderState { budget, ..r1 },
                    h,
                    pixels::opaque_black(size),
                    compression,
                    palette,
                ) {
                    Err(e) => Err(e),
                    Ok((image, r2)) => Ok(
                        (
                            PixelDataView {
                                width: h.width,
                                height: h.height,
                                data: if r2.global_alpha && h.bits_per_channel == 8 {
                                    matte::unmatted(image, size)
                                } else {
                                    image
                                },
                            },
                            r2,
                        ),
                    ),
                },
            }
        },
    }
}

/// The image of a document takes as many bytes as are in `image`.
spec fn fits(h: Header, image: DecodeTarget) -> bool {
    &&& image.width == h.width
    &&& image.height == h.height
    &&& image.data@.len() == h.width * h.height * 4
    &&& h.width * h.height * 4 <= usize::MAX
}

fn read_raw_channels(
    reader: &mut PsdReader,
    image: &mut DecodeTarget,
    channels: &Vec<usize>,
    area: usize,
    bits: u16,
) -> (result: ReadResult<()>)
    requires
        area == old(image).width * old(image).height,
        area * 4 <= usize::MAX,
        bits <= 32,
    ensures
        match get_raw_channels(
            old(reader)@,
            old(image).data@,
            channels@,
            channels@.len() as int,
            area as int,
            bits,
        ) {
            Ok((d, state)) => result is Ok && final(image).data@ == d && final(reader)@ == state
                && final(reader)@.same_source(old(reader)@) && final(image).data@.len() == old(
                image,
            ).data@.len(),
            Err(e) => result matches Err(err) && err@ == e && final(reader)@.same_source(
                old(reader)@,
            ),
        },
        final(image).width == old(image).width,
        final(image).height == old(image).height,
{
    let ghost start = reader@;
    let ghost given = image.data@;
    assert(0 <= area * (bits / 8) <= area * 4) by (nonlinear_arith)
        requires
            0 <= bits / 8 <= 4,
            0 <= area,
    ;
    let length: usize = area * (bits / 8) as usize;
    let mut i: usize = 0;
    while i < channels.len()
        invariant
            i <= channels@.len(),
            start == old(reader)@,
            given == old(image).data@,
            reader@.same_source(start),
            length == area * (bits as int / 8),
            area == image.width * image.height,
            image.width == old(image).width,
            image.height == old(image).height,
            image.data@.len() == given.len(),
            get_raw_channels(start, given, channels@, i as int, area as int, bits) == Ok::<
                (Seq<u8>, ReaderState),
                ErrorView,
            >((image.data@, reader@)),
        decreases channels@.len() - i,
    {
        proof {
            if get_raw_channels(start, given, channels@, i + 1, area as int, bits) is Err {
                lemma_raw_channels_error(
                    start,
                    given,
                    channels@,
                    i + 1,
                    channels@.len() as int,
                    area as int,
                    bits,
                );
            }
        }
        let stream: Vec<u8> = reader::read_bytes(reader, length)?;
        proof {
            pixels::lemma_stored_len(
                image.data@,
                channels@[i as int] as int,
                4,
                codec::capped(codec::byte_channel(stream@, bits as u32), area as int),
            );
        }
        codec::read_data_raw(&stream, Some(&mut *image), bits as u32, 4, channels[i]);
        i += 1;
    }
    Ok(())
}

fn read_stream(reader: &mut PsdReader, size: Option<usize>, Ghost(n): Ghost<int>) -> (result:
    ReadResult<Vec<u8>>)
    requires
        match size {
            Some(s) => s == n,
            None => n > usize::MAX,
        },
    ensures
        reader::reads(result, old(reader)@, final(reader)@, get_stream(old(reader)@, n)),
        result matches Ok(raw) ==> size == Some(raw.len()),
{
    proof {
        if size is None {
            assert(budget::charged(reader@.budget, n) == Err::<Option<usize>, ErrorView>(
                budget::over_budget(reader@.budget, n),
            ));
        }
    }
    budget::charge(reader.budget, size)?;
    let room: usize = match size {
        Some(room) => room,
        None => 0,
    };
    let end: usize = reader.buffer.len();
    let rest: &[u8] = if reader.offset < end {
        vstd::slice::slice_subrange(reader.buffer, reader.offset, end)
    } else {
        vstd::slice::slice_subrange(reader.buffer, 0, 0)
    };
    assert(rest@ =~= rest_of(reader@));
    match zlib::inflate(rest, room) {
        None => {},
        Some((ended, raw, consumed)) => {
            if ended && raw.len() == room {
                reader::skip_bytes(reader, consumed);
                return Ok(raw);
            }
        },
    }
    Err(ReadError::StrictViolation(text::owned_text("Invalid compressed image data")))
}

fn read_rows(
    reader: &mut PsdReader,
    width: usize,
    height: usize,
    prediction: bool,
) -> (result: ReadResult<Vec<u8>>)
    ensures
        reader::reads(
            result,
            old(reader)@,
            final(reader)@,
            match get_stream(old(reader)@, width * height) {
                Err(e) => Err(e),
                Ok((raw, r1)) => Ok(
                    (unpredicted_rows(raw, width as int, height as int, prediction), r1),
                ),
            },
        ),
        result matches Ok(rows) ==> rows@.len() == width * height,
{
    let size: Option<usize> = pixels::bitmap_size(width, height, 1);
    assert(width * height * 1 == width * height) by (nonlinear_arith);
    let mut raw: Vec<u8> = read_stream(reader, size, Ghost(width * height))?;
    if prediction {
        codec::decode_predicted_u8(&mut raw, width, height);
    }
    Ok(raw)
}

fn read_zip_channels(
    reader: &mut PsdReader,
    image: &mut DecodeTarget,
    channels: &Vec<usize>,
    h: Header,
    prediction: bool,
) -> (result: ReadResult<()>)
    requires
        fits(h, *old(image)),
    ensures
        match get_zip_channels(
            old(reader)@,
            old(image).data@,
            channels@,
            channels@.len() as int,
            h,
            prediction,
        ) {
            Ok((d, state)) => result is Ok && final(image).data@ == d && final(reader)@ == state
                && final(reader)@.same_source(old(reader)@) && fits(h, *final(image)),
            Err(e) => result matches Err(err) && err@ == e && final(reader)@.same_source(
                old(reader)@,
            ),
        },
{
    let ghost start = reader@;
    let ghost given = image.data@;
    let width: usize = h.width as usize;
    let height: usize = h.height as usize;
    let bits: u32 = h.bits_per_channel as u32;
    assert(height > 0 ==> width * 4 <= usize::MAX) by (nonlinear_arith)
        requires
            width * height * 4 <= usize::MAX,
            0 <= width,
            0 <= height,
    ;
    let mut i: usize = 0;
    while i < channels.len()
        invariant
            i <= channels@.len(),
            start == old(reader)@,
            given == old(image).data@,
            width == h.width,
            height == h.height,
            bits == h.bits_per_channel,
            height > 0 ==> width * 4 <= usize::MAX,
            reader@.same_source(start),
            fits(h, *image),
            get_zip_channels(start, given, channels@, i as int, h, prediction) == Ok::<
                (Seq<u8>, ReaderState),
                ErrorView,
            >((image.data@, reader@)),
        decreases channels@.len() - i,
    {
        proof {
            if get_zip_channels(start, given, channels@, i + 1, h, prediction) is Err {
                lemma_zip_channels_error(
                    start,
                    given,
                    channels@,
                    i + 1,
                    channels@.len() as int,
                    h,
                    prediction,
                );
            }
        }
        let size: Option<usize> = codec::sized_samples(width, height, bits);
        let raw: Vec<u8> = read_stream(
            reader,
            size,
            Ghost(codec::samples_size(width as int, height as int, bits)),
        )?;
        proof {
            pixels::lemma_stored_len(
                image.data@,
                channels@[i as int] as int,
                4,
                codec::zip_samples(
                    raw@,
                    width * height,
                    width as int,
                    height as int,
                    bits,
                    prediction,
                ),
            );
        }
        if height > 0 {
            codec::store_inflated(raw, image, width, height, bits, 4, channels[i], prediction);
        } else {
            assert(codec::zip_samples(
                raw@,
                width * height,
                width as int,
                height as int,
                bits,
                prediction,
            ) =~= Seq::<u8>::empty()) by {
                assert(width * height == 0) by (nonlinear_arith)
                    requires
                        height == 0,
                ;
            }
        }
        i += 1;
    }
    Ok(())
}

fn read_color_image(
    reader: &mut PsdReader,
    h: Header,
    image: &mut DecodeTarget,
    compression: Compression,
) -> (result: ReadResult<()>)
    requires
        fits(h, *old(image)),
        h.bits_per_channel <= 32,
    ensures
        match get_color_image(old(reader)@, h, old(image).data@, compression) {
            Ok((d, state)) => result is Ok && final(image).data@ == d && final(reader)@ == state
                && final(reader)@.same_source(old(reader)@) && fits(h, *final(image)),
            Err(e) => result matches Err(err) && err@ == e && final(reader)@.same_source(
                old(reader)@,
            ),
        },
{
    reveal(get_color_image);
    let gray: bool = matches!(h.color_mode, ColorMode::Grayscale);
    let channels: Vec<usize> = list_composite_channels(gray, h.channels, reader.global_alpha);
    let width: usize = h.width as usize;
    let height: usize = h.height as usize;
    let large: bool = reader.large;
    match compression {
        Compression::RawData => {
            assert(h.width * h.height * 1 <= h.width * h.height * 4) by (nonlinear_arith);
            let area: usize = pixels::bitmap_bytes(width, height, 1);
            read_raw_channels(reader, image, &channels, area, h.bits_per_channel)?;
        },
        Compression::ZipWithoutPrediction => {
            read_zip_channels(reader, image, &channels, h, false)?;
        },
        Compression::ZipWithPrediction => {
            read_zip_channels(reader, image, &channels, h, true)?;
        },
        Compression::RleCompressed => {
            rle::decode_rle(
                reader,
                &mut image.data,
                true,
                width,
                height,
                h.bits_per_channel as u32,
                4,
                channels.as_slice(),
                large,
            )?;
        },
    }
    if gray {
        pixels::setup_grayscale(&mut image.data, width, height);
    }
    Ok(())
}

fn read_plane(reader: &mut PsdReader, h: Header) -> (result: ReadResult<Vec<u8>>)
    ensures
        reader::reads(result, old(reader)@, final(reader)@, get_plane(old(reader)@, h)),
        result matches Ok(samples) ==> samples@.len() == h.width * h.height,
{
    let width: usize = h.width as usize;
    let height: usize = h.height as usize;
    let size: Option<usize> = pixels::bitmap_size(width, height, 1);
    proof {
        if size is None {
            assert(budget::charged(reader@.budget, h.width * h.height) == Err::<
                Option<usize>,
                ErrorView,
            >(budget::over_budget(reader@.budget, h.width * h.height)));
        }
    }
    let rest: Option<usize> = budget::charge(reader.budget, size)?;
    let mut target: DecodeTarget = DecodeTarget::wide(width, height, 1);
    let large: bool = reader.large;
    let channels: [usize; 1] = [0];
    assert(channels@ =~= seq![0usize]);
    rle::decode_rle(reader, &mut target.data, true, width, height, 8, 1, &channels, large)?;
    Ok(target.data)
}

fn read_bitmap_image(
    reader: &mut PsdReader,
    h: Header,
    image: &mut DecodeTarget,
    compression: Compression,
) -> (result: ReadResult<()>)
    requires
        fits(h, *old(image)),
    ensures
        match get_bitmap_image(old(reader)@, h, old(image).data@, compression) {
            Ok((d, state)) => result is Ok && final(image).data@ == d && final(reader)@ == state
                && final(reader)@.same_source(old(reader)@) && fits(h, *final(image)),
            Err(e) => result matches Err(err) && err@ == e && final(reader)@.same_source(
                old(reader)@,
            ),
        },
{
    reveal(get_bitmap_image);
    if h.bits_per_channel != 1 {
        return Err(
            ReadError::StrictViolation(
                text::owned_text("Invalid bitsPerChannel for bitmap color mode"),
            ),
        );
    }
    let width: usize = h.width as usize;
    let height: usize = h.height as usize;
    let stride: usize = width / 8 + (if width % 8 == 0 {
        0usize
    } else {
        1usize
    });
    assert(stride == (h.width + 7) / 8);
    assert(0 <= stride * height <= h.width * h.height && h.width * h.height <= h.width * h.height
        * 4) by (nonlinear_arith)
        requires
            0 <= stride <= h.width,
            height == h.height,
    ;
    let input: Vec<u8> = match compression {
        Compression::RawData => reader::read_bytes(reader, stride * height)?,
        Compression::RleCompressed => read_plane(reader, h)?,
        Compression::ZipWithoutPrediction => read_rows(reader, stride, height, false)?,
        Compression::ZipWithPrediction => read_rows(reader, stride, height, true)?,
    };
    assert(stride * height <= input@.len());
    pixels::decode_bitmap(&input, &mut image.data, width, height);
    Ok(())
}

fn read_indexed_image(
    reader: &mut PsdReader,
    h: Header,
    image: &mut DecodeTarget,
    compression: Compression,
    palette: &Option<Vec<PaletteColor>>,
) -> (result: ReadResult<()>)
    requires
        fits(h, *old(image)),
    ensures
        match get_indexed_image(
            old(reader)@,
            h,
            old(image).data@,
            compression,
            match *palette {
                Some(p) => Some(p@),
                None => None,
            },
        ) {
            Ok((d, state)) => result is Ok && final(image).data@ == d && final(reader)@ == state
                && final(reader)@.same_source(old(reader)@) && fits(h, *final(image)),
            Err(e) => result matches Err(err) && err@ == e && final(reader)@.same_source(
                old(reader)@,
            ),
        },
{
    reveal(get_indexed_image);
    if h.bits_per_channel != 8 {
        return Err(ReadError::StrictViolation(text::owned_text("bitsPerChannel Not supproted")));
    }
    if h.channels != 1 {
        return Err(ReadError::StrictViolation(text::owned_text("Invalid channel count")));
    }
    match palette {
        None => Err(ReadError::StrictViolation(text::owned_text("Missing color palette"))),
        Some(palette) => {
            if matches!(compression, Compression::RawData) {
                return Err(ReadError::StrictViolation(text::owned_text("Not implemented")));
            }
            let width: usize = h.width as usize;
            let height: usize = h.height as usize;
            let samples: Vec<u8> = match compression {
                Compression::ZipWithoutPrediction => read_rows(reader, width, height, false)?,
                Compression::ZipWithPrediction => read_rows(reader, width, height, true)?,
                _ => read_plane(reader, h)?,
            };
            indexed_to_rgb(&samples, &mut image.data, samples.len(), palette);
            Ok(())
        },
    }
}

fn read_mode_image(
    reader: &mut PsdReader,
    h: Header,
    image: &mut DecodeTarget,
    compression: Compression,
    palette: &Option<Vec<PaletteColor>>,
) -> (result: ReadResult<()>)
    requires
        fits(h, *old(image)),
        h.bits_per_channel <= 32,
    ensures
        match get_mode_image(
            old(reader)@,
            h,
            old(image).data@,
            compression,
            match *palette {
                Some(p) => Some(p@),
                None => None,
            },
        ) {
            Ok((d, state)) => result is Ok && final(image).data@ == d && final(reader)@ == state
                && final(reader)@.same_source(old(reader)@) && fits(h, *final(image)),
            Err(e) => result matches Err(err) && err@ == e && final(reader)@.same_source(
                old(reader)@,
            ),
        },
{
    reveal(get_mode_image);
    match h.color_mode {
        ColorMode::Bitmap => read_bitmap_image(reader, h, image, compression),
        ColorMode::Rgb | ColorMode::Grayscale => read_color_image(reader, h, image, compression),
        ColorMode::Indexed => read_indexed_image(reader, h, image, compression, palette),
        _ => {
            let mut message: String = text::owned_text("Color mode not supported: ");
            text::push_text(&mut message, name_of_mode(h.color_mode));
            Err(ReadError::StrictViolation(message))
        },
    }
}

/// Reads the composite image of a document.
pub fn read_image_data(
    reader: &mut PsdReader,
    h: Header,
    palette: &Option<Vec<PaletteColor>>,
) -> (result: ReadResult<PixelData>)
    requires
        h.bits_per_channel <= 32,
    ensures
        reader::reads(
            result,
            old(reader)@,
            final(reader)@,
            get_composite(
                old(reader)@,
                h,
                match *palette {
                    Some(p) => Some(p@),
                    None => None,
                },
            ),
        ),
{
    let code: u16 = reader::read_uint16(reader)?;
    if code > 3 {
        return Err(
            ReadError::StrictViolation(
                text::numbered("Compression type not supported: ", code as u64),
            ),
        );
    }
    let compression: Compression = records::compression_from_u16(code);
    let width: usize = h.width as usize;
    let height: usize = h.height as usize;
    let size: Option<usize> = pixels::bitmap_size(width, height, 4);
    proof {
        if size is None {
            assert(budget::charged(reader@.budget, h.width * h.height * 4) == Err::<
                Option<usize>,
                ErrorView,
            >(budget::over_budget(reader@.budget, h.width * h.height * 4)));
        }
    }
    reader.budget = budget::charge(reader.budget, size)?;
    let mut image: DecodeTarget = DecodeTarget::rgba(width, height);
    pixels::fill_opaque_black(&mut image.data);
    read_mode_image(reader, h, &mut image, compression, palette)?;
    if reader.global_alpha && h.bits_per_channel == 8 {
        let bytes: usize = image.data.len();
        assert(bytes % 4 == 0) by (nonlinear_arith)
            requires
                bytes == h.width * h.height * 4,
        ;
        matte::remove_matte(&mut image.data, bytes);
    }
    Ok(image.into_pixel_data())
}

} // verus!
