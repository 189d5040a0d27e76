//! A memory limit makes reading fail or changes nothing.

use vstd::prelude::*;

use crate::budget;
use crate::bytes;
use crate::codec;
use crate::composite;
use crate::decode;
use crate::decode::DecodeView;
use crate::document;
use crate::document::BlockPart;
use crate::error::ErrorView;
use crate::header;
use crate::header::Header;
use crate::helpers;
use crate::info;
use crate::mask;
use crate::palette;
use crate::pixels;
use crate::psd;
use crate::psd::{
    ChannelId, ColorMode, Compression, LayerMaskView, LayerView, PaletteColor, RawChannelView,
    RawDataView, ReadOptions,
};
use crate::reader;
use crate::reader::{Parsed, ReaderState};
use crate::records;
use crate::records::ChannelInfo;
use crate::resources;
use crate::rle;
use crate::settings_laws;

verus! {

/// The settings without a memory limit.
pub open spec fn without_limit(settings: ReadOptions) -> ReadOptions {
    ReadOptions { total_memory_limit: None, ..settings }
}

/// What is read under a limit is what is read without one, or it fails because of the
/// limit.
pub open spec fn fails_or_agrees<T>(
    limited: Result<T, ErrorView>,
    unlimited: Result<T, ErrorView>,
) -> bool {
    match limited {
        Err(e) => e is ExceededMemoryLimit || unlimited == limited,
        Ok(_) => unlimited == limited,
    }
}

/// The reader without a memory limit.
spec fn freed(r: ReaderState) -> ReaderState {
    settings_laws::under(r, without_limit(r.options), None)
}

/// An operation under a limit gives what it gives without one, or fails because of the
/// limit; it leaves the settings as they are.
spec fn agrees<T>(limited: Parsed<T>, unlimited: Parsed<T>, r: ReaderState) -> bool {
    match limited {
        Err(e) => e is ExceededMemoryLimit || unlimited == limited,
        Ok((value, after)) => unlimited == Ok::<(T, ReaderState), ErrorView>(
            (value, freed(after)),
        ) && after.options == r.options && after.buffer == r.buffer,
    }
}

proof fn lemma_rle(
    r: ReaderState,
    o: ReadOptions,
    data: Option<Seq<u8>>,
    width: int,
    height: int,
    depth: u32,
    step: int,
    channels: Seq<usize>,
    large: bool,
)
    ensures
        match rle::get_rle(r, data, width, height, depth, step, channels, large) {
            Err(e) => e is ExceededMemoryLimit || rle::get_rle(
                settings_laws::under(r, o, None),
                data,
                width,
                height,
                depth,
                step,
                channels,
                large,
            ) == Err::<(Option<Seq<u8>>, ReaderState), ErrorView>(e),
            Ok((found, after)) => rle::get_rle(
                settings_laws::under(r, o, None),
                data,
                width,
                height,
                depth,
                step,
                channels,
                large,
            ) == Ok::<(Option<Seq<u8>>, ReaderState), ErrorView>(
                (found, settings_laws::under(after, o, None)),
            ) && after == r.at(after.offset),
        },
{
    let count = channels.len() * height;
    assert(rle::get_row_lengths(settings_laws::under(r, o, None), count, large)
        == settings_laws::result_under(rle::get_row_lengths(r, count, large), o, None));
    match rle::get_row_lengths(r, count, large) {
        Err(_) => {},
        Ok((lengths, r1)) => {
            settings_laws::lemma_rle_channels(
                r1,
                o,
                None,
                data,
                lengths,
                channels,
                channels.len() as int,
                width,
                height,
                depth,
                step,
            );
        },
    }
}

/// What the samples of a channel give, as far as it does not depend on the reader.
spec fn value_of<T>(result: Parsed<T>) -> Result<T, ErrorView> {
    match result {
        Err(e) => Err(e),
        Ok((value, _)) => Ok(value),
    }
}

proof fn lemma_data(
    code: Seq<u8>,
    limit: Option<usize>,
    data: Option<Seq<u8>>,
    compression: Compression,
    width: int,
    height: int,
    bits: u32,
    offset: int,
    large: bool,
    step: int,
)
    ensures
        fails_or_agrees(
            value_of(
                codec::get_data(
                    decode::channel_reader(code, limit),
                    code.len() as int,
                    data,
                    compression,
                    width,
                    height,
                    bits,
                    offset,
                    large,
                    step,
                ),
            ),
            value_of(
                codec::get_data(
                    decode::channel_reader(code, None),
                    code.len() as int,
                    data,
                    compression,
                    width,
                    height,
                    bits,
                    offset,
                    large,
                    step,
                ),
            ),
        ),
{
    let r = decode::channel_reader(code, limit);
    assert(decode::channel_reader(code, None) == settings_laws::under(r, r.options, None));
    lemma_rle(r, r.options, data, width, height, bits, step, seq![offset as usize], large);
}

/// What is decoded without a memory limit.
spec fn freed_pair<T>(result: Result<(T, Option<usize>), ErrorView>) -> Result<
    (T, Option<usize>),
    ErrorView,
> {
    match result {
        Err(e) => Err(e),
        Ok((value, _)) => Ok((value, None)),
    }
}

proof fn lemma_decoded_mask(
    m: LayerMaskView,
    kind: Seq<char>,
    data: Seq<u8>,
    compression: Compression,
    bits: u32,
    large: bool,
    use_image_data: bool,
    limit: Option<usize>,
)
    ensures
        fails_or_agrees(
            freed_pair(
                decode::decoded_mask(
                    m,
                    kind,
                    data,
                    compression,
                    bits,
                    large,
                    use_image_data,
                    limit,
                ),
            ),
            decode::decoded_mask(m, kind, data, compression, bits, large, use_image_data, None),
        ),
{
    let b = decode::mask_bounds(m);
    let width = mask::box_width(b);
    let height = mask::box_height(b);
    match budget::charged(limit, width * height * 4) {
        Err(_) => {},
        Ok(left) => {
            lemma_data(
                data,
                left,
                Some(bytes::zeros(width * height * 4)),
                compression,
                width,
                height,
                bits,
                0,
                large,
                4,
            );
        },
    }
}

/// What has been decoded of a layer, without a memory limit.
spec fn freed_decode(s: DecodeView) -> DecodeView {
    DecodeView { budget: None, ..s }
}

spec fn freed_step(result: Result<DecodeView, ErrorView>) -> Result<DecodeView, ErrorView> {
    match result {
        Err(e) => Err(e),
        Ok(s) => Ok(freed_decode(s)),
    }
}

proof fn lemma_decode_step(
    s: DecodeView,
    raw: RawDataView,
    ch: RawChannelView,
    width: int,
    height: int,
    use_image_data: bool,
)
    ensures
        fails_or_agrees(
            freed_step(decode::decode_step(s, raw, ch, width, height, use_image_data)),
            decode::decode_step(freed_decode(s), raw, ch, width, height, use_image_data),
        ),
{
    reveal(decode::decode_step);
    let bits = raw.bits_per_channel as u32;
    match ch.data {
        None => {},
        Some(data) => {
            if ch.id == ChannelId::UserMask {
                if s.mask is Some {
                    lemma_decoded_mask(
                        s.mask->Some_0,
                        "mask"@,
                        data,
                        ch.compression,
                        bits,
                        raw.large,
                        use_image_data,
                        s.budget,
                    );
                }
            } else if ch.id == ChannelId::RealUserMask {
                if s.real_mask is Some {
                    lemma_decoded_mask(
                        s.real_mask->Some_0,
                        "real mask"@,
                        data,
                        ch.compression,
                        bits,
                        raw.large,
                        use_image_data,
                        s.budget,
                    );
                }
            } else {
                lemma_data(
                    data,
                    s.budget,
                    s.image,
                    ch.compression,
                    width,
                    height,
                    bits,
                    helpers::channel_offset(ch.id, raw.color_mode == ColorMode::Cmyk),
                    raw.large,
                    decode::pixel_channels(raw.color_mode),
                );
            }
        },
    }
}

proof fn lemma_decode_steps(
    s: DecodeView,
    raw: RawDataView,
    n: int,
    width: int,
    height: int,
    use_image_data: bool,
)
    ensures
        fails_or_agrees(
            freed_step(decode::decode_steps(s, raw, n, width, height, use_image_data)),
            decode::decode_steps(freed_decode(s), raw, n, width, height, use_image_data),
        ),
    decreases n,
{
    if n > 0 {
        lemma_decode_steps(s, raw, n - 1, width, height, use_image_data);
        match decode::decode_steps(s, raw, n - 1, width, height, use_image_data) {
            Err(_) => {},
            Ok(t) => {
                lemma_decode_step(t, raw, raw.channels[n - 1], width, height, use_image_data);
            },
        }
    }
}

/// A layer is decoded under a limit as it is without one, unless that fails because of
/// the limit.
pub proof fn law_layer_limit(l: LayerView, use_image_data: bool, limit: Option<usize>)
    ensures
        match decode::decoded_layer(l, use_image_data, limit) {
            Err(e) => e is ExceededMemoryLimit || decode::decoded_layer(l, use_image_data, None)
                == Err::<(LayerView, Option<usize>), ErrorView>(e),
            Ok((found, _)) => decode::decoded_layer(l, use_image_data, None) == Ok::<
                (LayerView, Option<usize>),
                ErrorView,
            >((found, None)),
        },
{
    match l.raw_data {
        None => {},
        Some(raw) => {
            let width = mask::box_width(decode::layer_bounds(l));
            let height = mask::box_height(decode::layer_bounds(l));
            assert(fails_or_agrees(
                freed_step(decode::decode_start(l, raw, limit)),
                decode::decode_start(l, raw, None),
            ));
            match decode::decode_start(l, raw, limit) {
                Err(_) => {},
                Ok(start) => {
                    lemma_decode_steps(
                        start,
                        raw,
                        raw.channels.len() as int,
                        width,
                        height,
                        use_image_data,
                    );
                    match decode::decode_steps(
                        start,
                        raw,
                        raw.channels.len() as int,
                        width,
                        height,
                        use_image_data,
                    ) {
                        Err(_) => {},
                        Ok(s) => {
                            assert(fails_or_agrees(
                                freed_pair(
                                    decode::decode_end(l, raw, s, width, height, use_image_data),
                                ),
                                decode::decode_end(
                                    l,
                                    raw,
                                    freed_decode(s),
                                    width,
                                    height,
                                    use_image_data,
                                ),
                            ));
                        },
                    }
                },
            }
        },
    }
}

proof fn lemma_channel_data(
    r: ReaderState,
    l: LayerView,
    infos: Seq<ChannelInfo>,
    mode: ColorMode,
    bits: u16,
)
    ensures
        agrees(
            records::get_channel_data(r, l, infos, mode, bits),
            records::get_channel_data(freed(r), l, infos, mode, bits),
            r,
        ),
{
    reveal(records::get_channel_data);
    settings_laws::lemma_raw_channels(
        r,
        without_limit(r.options),
        None,
        infos,
        infos.len() as int,
    );
    match records::get_raw_channels(r, infos, infos.len() as int) {
        Err(_) => {},
        Ok((raw, r1)) => {
            let stored = LayerView {
                raw_data: Some(
                    RawDataView {
                        color_mode: mode,
                        bits_per_channel: bits,
                        channels: raw,
                        large: r.large,
                    },
                ),
                ..l
            };
            law_layer_limit(stored, r.options.use_image_data == Some(true), r1.budget);
        },
    }
}

proof fn lemma_all_channel_data(
    r: ReaderState,
    layers: Seq<LayerView>,
    infos: Seq<Seq<ChannelInfo>>,
    n: int,
    mode: ColorMode,
    bits: u16,
)
    ensures
        agrees(
            records::get_all_channel_data(r, layers, infos, n, mode, bits),
            records::get_all_channel_data(freed(r), layers, infos, n, mode, bits),
            r,
        ),
    decreases n,
{
    if n > 0 {
        lemma_all_channel_data(r, layers, infos, n - 1, mode, bits);
        match records::get_all_channel_data(r, layers, infos, n - 1, mode, bits) {
            Err(_) => {},
            Ok((_, r1)) => {
                lemma_channel_data(r1, layers[n - 1], infos[n - 1], mode, bits);
            },
        }
    }
}

#[verifier::spinoff_prover]
#[verifier::rlimit(40)]
proof fn lemma_layers(r: ReaderState, mode: ColorMode, bits: u16)
    requires
        r.buffer.len() <= usize::MAX,
    ensures
        agrees(
            records::get_layers(r, mode, bits),
            records::get_layers(freed(r), mode, bits),
            r,
        ),
{
    reveal(records::get_layers);
    match reader::get_i16(r) {
        Err(_) => {},
        Ok((n, r1)) => {
            let r2 = ReaderState { global_alpha: r1.global_alpha || n < 0, ..r1 };
            let count = records::layer_count(n);
            settings_laws::lemma_records(r2, without_limit(r2.options), None, count);
            match records::get_records(r2, count) {
                Err(_) => {},
                Ok(((layers, infos), r3)) => {
                    lemma_all_channel_data(r3, layers, infos, count, mode, bits);
                },
            }
        },
    }
}

#[verifier::spinoff_prover]
#[verifier::rlimit(40)]
proof fn lemma_nested(r: ReaderState, h: Header, eight_bytes: bool)
    requires
        r.buffer.len() <= usize::MAX,
    ensures
        agrees(
            document::get_nested_layers(r, h, eight_bytes),
            document::get_nested_layers(freed(r), h, eight_bytes),
            r,
        ),
{
    match reader::open_section(r, false, eight_bytes) {
        Ok((Some(section), r1)) => {
            lemma_layers(r1, h.color_mode, h.bits_per_channel);
        },
        _ => {},
    }
}

#[verifier::spinoff_prover]
#[verifier::rlimit(40)]
proof fn lemma_document_block(r: ReaderState, h: Header, part: BlockPart)
    requires
        r.buffer.len() <= usize::MAX,
    ensures
        agrees(
            document::get_document_block(r, h, part),
            document::get_document_block(freed(r), h, part),
            r,
        ),
{
    reveal(document::get_document_block);
    let o = without_limit(r.options);
    settings_laws::lemma_signature(r, o, None, false, 0, Seq::empty());
    match info::get_block_signature(r, false) {
        Err(_) => {},
        Ok((signature, r1)) => {
            settings_laws::lemma_key(r1, o, None);
            match info::get_key(r1) {
                Err(_) => {},
                Ok((key, r2)) => {
                    let eight_bytes = signature == info::SIGNATURE_8B64 || (r2.large
                        && info::large_key(key));
                    settings_laws::lemma_payload(r2, o, None, eight_bytes);
                    lemma_nested(r2, h, eight_bytes);
                },
            }
        },
    }
}

proof fn lemma_document_blocks(r: ReaderState, h: Header, end: int, part: BlockPart)
    requires
        r.buffer.len() <= usize::MAX,
    ensures
        agrees(
            document::get_document_blocks(r, h, end, part),
            document::get_document_blocks(freed(r), h, end, part),
            r,
        ),
    decreases
            (if end < r.offset {
                0
            } else {
                end - r.offset
            }),
{
    if r.offset < end {
        settings_laws::lemma_zeros(r, without_limit(r.options), None, end);
        document::lemma_past_zeros(r, end);
        match document::past_zeros(r, end) {
            Err(_) => {},
            Ok((_, r1)) => {
                if end - r1.offset >= 12 {
                    document::lemma_document_block_progress(r1, h, part);
                    lemma_document_block(r1, h, part);
                    match document::get_document_block(r1, h, part) {
                        Err(_) => {},
                        Ok((more, r2)) => {
                            lemma_document_blocks(r2, h, end, more);
                        },
                    }
                }
            },
        }
    }
}

#[verifier::spinoff_prover]
#[verifier::rlimit(40)]
proof fn lemma_layer_part(r: ReaderState, h: Header)
    requires
        r.buffer.len() <= usize::MAX,
    ensures
        agrees(document::get_layer_part(r, h), document::get_layer_part(freed(r), h), r),
{
    reveal(document::get_layer_part);
    match reader::open_section(r, true, r.large) {
        Ok((Some(section), r1)) => {
            lemma_layers(r1, h.color_mode, h.bits_per_channel);
        },
        _ => {},
    }
}

#[verifier::spinoff_prover]
#[verifier::rlimit(40)]
proof fn lemma_section_body(r: ReaderState, h: Header, end: int)
    requires
        r.buffer.len() <= usize::MAX,
    ensures
        agrees(
            document::get_layer_section_body(r, h, end),
            document::get_layer_section_body(freed(r), h, end),
            r,
        ),
{
    reveal(document::get_layer_section_body);
    lemma_layer_part(r, h);
    match document::get_layer_part(r, h) {
        Err(_) => {},
        Ok((children, r1)) => {
            settings_laws::lemma_global_mask(r1, without_limit(r1.options), None);
            let masked = if r1.offset < end {
                mask::get_global_mask(r1)
            } else {
                Ok((None, r1))
            };
            match masked {
                Err(_) => {},
                Ok((_, r2)) => {
                    lemma_document_blocks(
                        r2,
                        h,
                        end,
                        BlockPart { children, additional_info: psd::empty_info() },
                    );
                },
            }
        },
    }
}

#[verifier::spinoff_prover]
#[verifier::rlimit(40)]
proof fn lemma_section(r: ReaderState, h: Header)
    requires
        r.buffer.len() <= usize::MAX,
    ensures
        agrees(document::get_layer_section(r, h), document::get_layer_section(freed(r), h), r),
{
    reveal(document::get_layer_section);
    match reader::open_section(r, true, r.large) {
        Ok((Some(section), r1)) => {
            lemma_section_body(r1, h, section.end as int);
        },
        _ => {},
    }
}

proof fn lemma_stream(r: ReaderState, size: int)
    ensures
        agrees(composite::get_stream(r, size), composite::get_stream(freed(r), size), r),
{
}

proof fn lemma_zip_samples(
    r: ReaderState,
    image: Seq<u8>,
    channels: Seq<usize>,
    n: int,
    h: Header,
    prediction: bool,
)
    ensures
        agrees(
            composite::get_zip_channels(r, image, channels, n, h, prediction),
            composite::get_zip_channels(freed(r), image, channels, n, h, prediction),
            r,
        ),
    decreases n,
{
    if n > 0 {
        lemma_zip_samples(r, image, channels, n - 1, h, prediction);
        match composite::get_zip_channels(r, image, channels, n - 1, h, prediction) {
            Err(_) => {},
            Ok((_, r1)) => {
                lemma_stream(
                    r1,
                    codec::samples_size(
                        h.width as int,
                        h.height as int,
                        h.bits_per_channel as u32,
                    ),
                );
            },
        }
    }
}

proof fn lemma_color_image(r: ReaderState, h: Header, image: Seq<u8>, compression: Compression)
    ensures
        agrees(
            composite::get_color_image(r, h, image, compression),
            composite::get_color_image(freed(r), h, image, compression),
            r,
        ),
{
    reveal(composite::get_color_image);
    let o = without_limit(r.options);
    let gray = h.color_mode == ColorMode::Grayscale;
    let channels = composite::composite_channels(gray, h.channels as int, r.global_alpha);
    let n = channels.len() as int;
    settings_laws::lemma_raw_samples(
        r,
        o,
        None,
        image,
        channels,
        n,
        h.width * h.height,
        h.bits_per_channel,
    );
    lemma_zip_samples(
        r,
        image,
        channels,
        n,
        h,
        compression == Compression::ZipWithPrediction,
    );
    lemma_rle(
        r,
        o,
        Some(image),
        h.width as int,
        h.height as int,
        h.bits_per_channel as u32,
        4,
        channels,
        r.large,
    );
}

proof fn lemma_plane(r: ReaderState, h: Header)
    ensures
        agrees(composite::get_plane(r, h), composite::get_plane(freed(r), h), r),
{
    lemma_rle(
        r,
        without_limit(r.options),
        Some(bytes::zeros(h.width * h.height)),
        h.width as int,
        h.height as int,
        8,
        1,
        seq![0usize],
        r.large,
    );
}

proof fn lemma_mode_image(
    r: ReaderState,
    h: Header,
    image: Seq<u8>,
    compression: Compression,
    palette: Option<Seq<PaletteColor>>,
)
    ensures
        agrees(
            composite::get_mode_image(r, h, image, compression, palette),
            composite::get_mode_image(freed(r), h, image, compression, palette),
            r,
        ),
{
    reveal(composite::get_mode_image);
    match h.color_mode {
        ColorMode::Bitmap => {
            reveal(composite::get_bitmap_image);
            lemma_plane(r, h);
            lemma_stream(r, ((h.width + 7) / 8) * h.height);
        },
        ColorMode::Rgb | ColorMode::Grayscale => {
            lemma_color_image(r, h, image, compression);
        },
        ColorMode::Indexed => {
            reveal(composite::get_indexed_image);
            lemma_plane(r, h);
            lemma_stream(r, h.width * h.height);
        },
        _ => {},
    }
}

proof fn lemma_composite(r: ReaderState, h: Header, palette: Option<Seq<PaletteColor>>)
    ensures
        agrees(
            composite::get_composite(r, h, palette),
            composite::get_composite(freed(r), h, palette),
            r,
        ),
{
    let size = h.width * h.height * 4;
    match reader::get_u16(r) {
        Err(_) => {},
        Ok((v, r1)) => match composite::checked_charge(v, r1.budget, size) {
            Err(_) => {},
            Ok(left) => {
                lemma_mode_image(
                    ReaderState { budget: left, ..r1 },
                    h,
                    pixels::opaque_black(size),
                    records::compression_of(v),
                    palette,
                );
            },
        },
    }
}

/// A document that is read under a memory limit is the document that is read without
/// one. Where reading fails under a limit, it fails with the same error without one, or
/// because of the limit.
pub proof fn law_memory_limit(data: Seq<u8>, settings: ReadOptions)
    requires
        data.len() <= usize::MAX,
    ensures
        fails_or_agrees(
            document::parsed_psd(data, settings),
            document::parsed_psd(data, without_limit(settings)),
        ),
{
    let r = document::reader_with(data, settings);
    let o = without_limit(settings);
    assert(document::reader_with(data, o) == freed(r));
    settings_laws::lemma_header(r, o, None);
    match header::get_header(r) {
        Err(_) => {},
        Ok((h, r1)) => {
            settings_laws::lemma_palette(r1, o, None, h.color_mode);
            match palette::get_palette(r1, h.color_mode) {
                Err(_) => {},
                Ok((colors, r2)) => {
                    settings_laws::lemma_resources(r2, o, None);
                    match resources::get_resources(r2) {
                        Err(_) => {},
                        Ok((_, r3)) => {
                            lemma_section(r3, h);
                            match document::get_layer_section(r3, h) {
                                Err(_) => {},
                                Ok((layers, r4)) => {
                                    lemma_composite(r4, h, colors);
                                },
                            }
                        },
                    }
                },
            }
        },
    }
}

} // verus!
