//! Stored bitmaps that cannot be written as they are: of another colour mode or depth,
//! or in the other of the two formats. They are decoded, so that they are coded anew.

use vstd::prelude::*;

use crate::bytes;
use crate::channels;
use crate::codec;
use crate::composite;
use crate::decode;
use crate::decode::DecodeView;
use crate::header::Header;
use crate::helpers;
use crate::mask;
use crate::pixels;
use crate::psd::{
    ChannelId, ColorMode, Compression, Layer, LayerMaskView, LayerView, PaletteColor,
    RawChannelView, RawDataView,
};
use crate::reader;
use crate::reader::ReaderState;
use crate::rle;

verus! {

broadcast use crate::bytes::group_bytes;

/// A layer as it is written: decoded where it has no pixels and its stored channels
/// cannot be written as they are. Where they cannot be decoded either, the layer is
/// written without pixels.
pub open spec fn recoded(l: LayerView, psb: bool) -> LayerView {
    if channels::layer_image(l) is None && (l.raw_data matches Some(raw)
        && !channels::keeps_format(raw, psb)) {
        match decode::decoded_layer(l, false, None) {
            Ok((found, _)) => found,
            Err(_) => l,
        }
    } else {
        l
    }
}

/// The layers as they are written.
pub open spec fn recoded_all(layers: Seq<LayerView>, psb: bool) -> Seq<LayerView> {
    layers.map_values(|l: LayerView| recoded(l, psb))
}

/// Decodes a layer that cannot be written as it is stored.
fn recode_layer(l: Layer, psb: bool) -> (record: Layer)
    requires
        l.deep_view().children is None,
    ensures
        record.deep_view() == recoded(l.deep_view(), psb),
{
    let stale: bool = match &l.raw_data {
        Some(raw) => l.image_data.is_none() && l.canvas.is_none() && !(matches!(
            raw.color_mode,
            ColorMode::Rgb
        ) && raw.bits_per_channel == 8 && raw.large == psb),
        None => false,
    };
    if !stale {
        return l;
    }
    let mut copy: Layer = l.duplicate_without_children();
    assert(copy.deep_view() == l.deep_view());
    match decode::decode_layer_image_data(&mut copy, false, None) {
        Ok(_) => copy,
        Err(_) => l,
    }
}

/// Decodes every layer that cannot be written as it is stored.
pub fn recode_layers(layers: Vec<Layer>, psb: bool) -> (records: Vec<Layer>)
    requires
        forall|i: int|
            0 <= i < layers.deep_view().len() ==> (
            #[trigger] layers.deep_view()[i]).children is None,
    ensures
        records.deep_view() == recoded_all(layers.deep_view(), psb),
{
    let ghost all = layers.deep_view();
    let ghost goal = recoded_all(all, psb);
    let mut rest: Vec<Layer> = layers;
    let mut done: Vec<Layer> = Vec::new();
    assert(done.deep_view() =~= goal.skip(goal.len() as int));
    while rest.len() > 0
        invariant
            goal == recoded_all(all, psb),
            forall|i: int| 0 <= i < all.len() ==> (#[trigger] all[i]).children is None,
            rest@.len() <= all.len(),
            rest.deep_view() == all.take(rest@.len() as int),
            done.deep_view() == goal.skip(rest@.len() as int),
        decreases rest@.len(),
    {
        let ghost n = rest@.len() as int;
        let ghost before = rest.deep_view();
        let ghost after = done.deep_view();
        let l: Layer = match rest.pop() {
            Some(l) => l,
            None => {
                return done;
            },
        };
        assert(l.deep_view() == all[n - 1]) by {
            assert(before[n - 1] == all.take(n)[n - 1]);
        }
        assert(rest.deep_view() =~= all.take(n - 1));
        let record: Layer = recode_layer(l, psb);
        let ghost view = record.deep_view();
        done.insert(0, record);
        assert(done.deep_view() =~= seq![view] + after);
        assert(done.deep_view() =~= goal.skip(n - 1));
    }
    assert(goal.skip(0) =~= goal);
    done
}

/// What is decoded of a mask can be written.
proof fn lemma_mask_fits(
    m: LayerMaskView,
    kind: Seq<char>,
    data: Seq<u8>,
    compression: Compression,
    bits: u32,
    large: bool,
    limit: Option<usize>,
)
    requires
        channels::mask_fits(m),
    ensures
        decode::decoded_mask(m, kind, data, compression, bits, large, false, limit) matches Ok(
            (found, _),
        ) ==> channels::mask_fits(found),
{
    let b = decode::mask_bounds(m);
    let width = mask::box_width(b);
    let height = mask::box_height(b);
    match crate::budget::charged(limit, width * height * 4) {
        Err(_) => {},
        Ok(left) => {
            codec::lemma_data_len(
                decode::channel_reader(data, left),
                data.len() as int,
                bytes::zeros(width * height * 4),
                compression,
                width,
                height,
                bits,
                0,
                large,
                4,
            );
        },
    }
}

/// What has been decoded of a layer can be written.
spec fn decode_fits(s: DecodeView, size: int) -> bool {
    &&& s.image matches Some(image) ==> image.len() == size
    &&& s.mask matches Some(m) ==> channels::mask_fits(m)
    &&& s.real_mask matches Some(m) ==> channels::mask_fits(m)
}

proof fn lemma_step_fits(
    s: DecodeView,
    raw: RawDataView,
    ch: RawChannelView,
    width: int,
    height: int,
    size: int,
)
    requires
        decode_fits(s, size),
    ensures
        decode::decode_step(s, raw, ch, width, height, false) matches Ok(t) ==> decode_fits(
            t,
            size,
        ) && (t.image is None <==> s.image is None),
{
    reveal(decode::decode_step);
    let bits = raw.bits_per_channel as u32;
    match ch.data {
        None => {},
        Some(data) => {
            if ch.id == ChannelId::UserMask {
                if s.mask is Some {
                    lemma_mask_fits(
                        s.mask->Some_0,
                        "mask"@,
                        data,
                        ch.compression,
                        bits,
                        raw.large,
                        s.budget,
                    );
                }
            } else if ch.id == ChannelId::RealUserMask {
                if s.real_mask is Some {
                    lemma_mask_fits(
                        s.real_mask->Some_0,
                        "real mask"@,
                        data,
                        ch.compression,
                        bits,
                        raw.large,
                        s.budget,
                    );
                }
            } else {
                let r = decode::channel_reader(data, s.budget);
                let offset = helpers::channel_offset(ch.id, raw.color_mode == ColorMode::Cmyk);
                let step = decode::pixel_channels(raw.color_mode);
                match s.image {
                    Some(image) => {
                        codec::lemma_data_len(
                            r,
                            data.len() as int,
                            image,
                            ch.compression,
                            width,
                            height,
                            bits,
                            offset,
                            raw.large,
                            step,
                        );
                    },
                    None => {
                        codec::lemma_data_none(
                            r,
                            data.len() as int,
                            ch.compression,
                            width,
                            height,
                            bits,
                            offset,
                            raw.large,
                            step,
                        );
                    },
                }
            }
        },
    }
}

proof fn lemma_steps_fit(
    s: DecodeView,
    raw: RawDataView,
    n: int,
    width: int,
    height: int,
    size: int,
)
    requires
        decode_fits(s, size),
    ensures
        decode::decode_steps(s, raw, n, width, height, false) matches Ok(t) ==> decode_fits(
            t,
            size,
        ) && (t.image is None <==> s.image is None),
    decreases n,
{
    if n > 0 {
        lemma_steps_fit(s, raw, n - 1, width, height, size);
        match decode::decode_steps(s, raw, n - 1, width, height, false) {
            Err(_) => {},
            Ok(t) => {
                lemma_step_fits(t, raw, raw.channels[n - 1], width, height, size);
            },
        }
    }
}

/// A layer that can be written can be written once it is decoded.
pub proof fn lemma_recoded(l: LayerView, psb: bool)
    requires
        channels::layer_fits(l),
    ensures
        channels::layer_fits(recoded(l, psb)),
{
    if recoded(l, psb) != l {
        let raw = l.raw_data->Some_0;
        let b = decode::layer_bounds(l);
        let width = mask::box_width(b);
        let height = mask::box_height(b);
        let size = width * height * decode::pixel_channels(raw.color_mode);
        match decode::decode_start(l, raw, None) {
            Err(_) => {},
            Ok(start) => {
                lemma_steps_fit(start, raw, raw.channels.len() as int, width, height, size);
                assert(start.image is Some ==> 0 <= width * height * 4) by (nonlinear_arith)
                    requires
                        start.image is Some ==> 0 <= width && 0 <= height,
                ;
            },
        }
    }
}

/// What is known of a layer besides its pixels does not change when it is decoded.
pub proof fn lemma_recoded_kept(l: LayerView, psb: bool)
    ensures
        recoded(l, psb).additional_info.section_divider == l.additional_info.section_divider,
        recoded(l, psb).children == l.children,
{
}

proof fn lemma_color_image_len(r: ReaderState, h: Header, image: Seq<u8>, compression: Compression)
    ensures
        composite::get_color_image(r, h, image, compression) matches Ok((found, _)) ==> found.len()
            == image.len(),
{
    reveal(composite::get_color_image);
    let gray = h.color_mode == ColorMode::Grayscale;
    let all = composite::composite_channels(gray, h.channels as int, r.global_alpha);
    let n = all.len() as int;
    lemma_raw_samples_len(r, image, all, n, h.width * h.height, h.bits_per_channel);
    lemma_zip_samples_len(
        r,
        image,
        all,
        n,
        h,
        compression == Compression::ZipWithPrediction,
    );
    match rle::get_row_lengths(r, n * h.height, r.large) {
        Err(_) => {},
        Ok((lengths, r1)) => {
            rle::lemma_channels_len(
                r1,
                image,
                lengths,
                all,
                n,
                h.width as int,
                h.height as int,
                h.bits_per_channel as u32,
                4,
            );
        },
    }
}

proof fn lemma_raw_samples_len(
    r: ReaderState,
    image: Seq<u8>,
    all: Seq<usize>,
    n: int,
    area: int,
    bits: u16,
)
    ensures
        composite::get_raw_channels(r, image, all, n, area, bits) matches Ok((found, _))
            ==> found.len() == image.len(),
    decreases n,
{
    if n > 0 {
        lemma_raw_samples_len(r, image, all, n - 1, area, bits);
        match composite::get_raw_channels(r, image, all, n - 1, area, bits) {
            Err(_) => {},
            Ok((d, r1)) => match reader::get_bytes(r1, area * (bits as int / 8)) {
                Err(_) => {},
                Ok((stream, _)) => {
                    pixels::lemma_stored_len(
                        d,
                        all[n - 1] as int,
                        4,
                        codec::capped(codec::byte_channel(stream, bits as u32), area),
                    );
                },
            },
        }
    }
}

proof fn lemma_zip_samples_len(
    r: ReaderState,
    image: Seq<u8>,
    all: Seq<usize>,
    n: int,
    h: Header,
    prediction: bool,
)
    ensures
        composite::get_zip_channels(r, image, all, n, h, prediction) matches Ok((found, _))
            ==> found.len() == image.len(),
    decreases n,
{
    if n > 0 {
        lemma_zip_samples_len(r, image, all, n - 1, h, prediction);
        let size = codec::samples_size(
            h.width as int,
            h.height as int,
            h.bits_per_channel as u32,
        );
        match composite::get_zip_channels(r, image, all, n - 1, h, prediction) {
            Err(_) => {},
            Ok((d, r1)) => match composite::get_stream(r1, size) {
                Err(_) => {},
                Ok((raw, _)) => {
                    pixels::lemma_stored_len(
                        d,
                        all[n - 1] as int,
                        4,
                        codec::zip_samples(
                            raw,
                            h.width * h.height,
                            h.width as int,
                            h.height as int,
                            h.bits_per_channel as u32,
                            prediction,
                        ),
                    );
                },
            },
        }
    }
}

/// A composite image has the size that the head of the document states.
pub proof fn lemma_composite_size(
    r: ReaderState,
    h: Header,
    palette: Option<Seq<PaletteColor>>,
)
    ensures
        composite::get_composite(r, h, palette) matches Ok((image, _)) ==> image.width == h.width
            && image.height == h.height && image.data.len() == image.size(),
{
    let size = h.width * h.height * 4;
    assert(0 <= size) by (nonlinear_arith)
        requires
            size == h.width * h.height * 4,
    ;
    match reader::get_u16(r) {
        Err(_) => {},
        Ok((v, r1)) => match composite::checked_charge(v, r1.budget, size) {
            Err(_) => {},
            Ok(budget) => {
                let r2 = ReaderState { budget, ..r1 };
                let black = pixels::opaque_black(size);
                let compression = crate::records::compression_of(v);
                reveal(composite::get_mode_image);
                match h.color_mode {
                    ColorMode::Bitmap => {
                        reveal(composite::get_bitmap_image);
                    },
                    ColorMode::Rgb | ColorMode::Grayscale => {
                        lemma_color_image_len(r2, h, black, compression);
                    },
                    ColorMode::Indexed => {
                        reveal(composite::get_indexed_image);
                    },
                    _ => {},
                }
            },
        },
    }
}

} // verus!
