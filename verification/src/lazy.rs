//! Bitmaps that were kept as they are stored, decoded one at a time. What is
//! decoded here is not charged against a memory limit.

use vstd::prelude::*;

use crate::composite;
use crate::decode;
use crate::decode::DecodeView;
use crate::error::{ErrorView, ReadResult};
use crate::header::Header;
use crate::mask;
use crate::psd;
use crate::psd::{
    AdditionalInfoView, ChannelId, CompositeRawView, Layer, LayerMaskData, LayerMaskView,
    LayerRawData, LayerRawDataChannel, LayerView, PixelData, PixelDataView, Psd, PsdView,
    RawChannelView, RawDataView,
};
use crate::reader;
use crate::reader::{PsdReader, ReaderState};

verus! {

/// One of the bitmaps of a layer.
#[derive(Clone, Copy, Debug, PartialEq, Eq, Structural)]
pub enum Bitmap {
    Pixels,
    Mask,
    RealMask,
}

/// A channel is part of a bitmap.
pub open spec fn belongs(id: ChannelId, which: Bitmap) -> bool {
    match which {
        Bitmap::Pixels => id != ChannelId::UserMask && id != ChannelId::RealUserMask,
        Bitmap::Mask => id == ChannelId::UserMask,
        Bitmap::RealMask => id == ChannelId::RealUserMask,
    }
}

fn is_part(id: ChannelId, which: Bitmap) -> (part: bool)
    ensures
        part == belongs(id, which),
{
    match which {
        Bitmap::Pixels => !matches!(id, ChannelId::UserMask | ChannelId::RealUserMask),
        Bitmap::Mask => matches!(id, ChannelId::UserMask),
        Bitmap::RealMask => matches!(id, ChannelId::RealUserMask),
    }
}

/// The channels of a bitmap.
pub open spec fn channels_of(channels: Seq<RawChannelView>, which: Bitmap) -> Seq<RawChannelView>
    decreases channels.len(),
{
    if channels.len() == 0 {
        Seq::empty()
    } else if belongs(channels.last().id, which) {
        channels_of(channels.drop_last(), which).push(channels.last())
    } else {
        channels_of(channels.drop_last(), which)
    }
}

/// A mask without pixels.
pub open spec fn blank_mask(m: Option<LayerMaskView>) -> Option<LayerMaskView> {
    match m {
        None => None,
        Some(m) => Some(LayerMaskView { canvas: None, image_data: None, ..m }),
    }
}

/// A layer of which only one bitmap is stored. Without its pixels it has no area.
pub open spec fn only(l: LayerView, raw: RawDataView, which: Bitmap) -> LayerView {
    let pixels = which == Bitmap::Pixels;
    LayerView {
        top: if pixels {
            l.top
        } else {
            None
        },
        left: if pixels {
            l.left
        } else {
            None
        },
        bottom: if pixels {
            l.bottom
        } else {
            None
        },
        right: if pixels {
            l.right
        } else {
            None
        },
        raw_data: Some(RawDataView { channels: channels_of(raw.channels, which), ..raw }),
        additional_info: AdditionalInfoView {
            mask: if which == Bitmap::Mask {
                blank_mask(l.additional_info.mask)
            } else {
                None
            },
            real_mask: if which == Bitmap::RealMask {
                blank_mask(l.additional_info.real_mask)
            } else {
                None
            },
            ..psd::empty_info()
        },
        ..psd::empty_layer()
    }
}

/// The pixels of a mask.
pub open spec fn mask_pixels(m: Option<LayerMaskView>) -> Option<PixelDataView> {
    match m {
        None => None,
        Some(m) => m.image_data,
    }
}

/// One of the bitmaps of a layer, which are in its image data.
pub open spec fn bitmap_of(l: LayerView, which: Bitmap) -> Option<PixelDataView> {
    match which {
        Bitmap::Pixels => l.image_data,
        Bitmap::Mask => mask_pixels(l.additional_info.mask),
        Bitmap::RealMask => mask_pixels(l.additional_info.real_mask),
    }
}

/// One of the bitmaps of a layer, decoded from its stored channels, where there is
/// something to decode.
pub open spec fn stored_bitmap(l: LayerView, which: Bitmap) -> Result<
    Option<PixelDataView>,
    ErrorView,
> {
    match l.raw_data {
        None => Ok(None),
        Some(raw) => match decode::decoded_layer(only(l, raw, which), true, None) {
            Err(e) => Err(e),
            Ok((decoded, _)) => Ok(bitmap_of(decoded, which)),
        },
    }
}

fn copy_channels(channels: &Vec<LayerRawDataChannel>, which: Bitmap) -> (part: Vec<
    LayerRawDataChannel,
>)
    ensures
        part.deep_view() == channels_of(channels.deep_view(), which),
{
    let mut part: Vec<LayerRawDataChannel> = Vec::new();
    let mut i: usize = 0;
    assert(channels.deep_view().take(0) =~= Seq::<RawChannelView>::empty());
    assert(part.deep_view() =~= channels_of(channels.deep_view().take(0), which));
    while i < channels.len()
        invariant
            i <= channels@.len(),
            part.deep_view() == channels_of(channels.deep_view().take(i as int), which),
        decreases channels@.len() - i,
    {
        let ghost before = part.deep_view();
        let ghost all = channels.deep_view();
        assert(all.take(i + 1).drop_last() =~= all.take(i as int));
        assert(all.take(i + 1).last() == channels@[i as int].deep_view());
        if is_part(channels[i].id, which) {
            let channel: LayerRawDataChannel = LayerRawDataChannel {
                id: channels[i].id,
                compression: channels[i].compression,
                data: match &channels[i].data {
                    Some(data) => Some(psd::copy_bytes(data)),
                    None => None,
                },
            };
            part.push(channel);
            assert(part.deep_view() =~= before.push(channels@[i as int].deep_view()));
        }
        i += 1;
    }
    assert(channels.deep_view().take(i as int) =~= channels.deep_view());
    part
}

fn copy_blank_mask(m: &Option<LayerMaskData>) -> (copy: Option<LayerMaskData>)
    ensures
        copy.deep_view() == blank_mask(m.deep_view()),
{
    match m {
        None => None,
        Some(m) => Some(
            LayerMaskData {
                top: m.top,
                left: m.left,
                bottom: m.bottom,
                right: m.right,
                default_color: m.default_color,
                disabled: m.disabled,
                position_relative_to_layer: m.position_relative_to_layer,
                from_vector_data: m.from_vector_data,
                user_mask_density: m.user_mask_density,
                user_mask_feather: m.user_mask_feather,
                vector_mask_density: m.vector_mask_density,
                vector_mask_feather: m.vector_mask_feather,
                canvas: None,
                image_data: None,
            },
        ),
    }
}

fn copy_only(l: &Layer, raw: &LayerRawData, which: Bitmap) -> (part: Layer)
    ensures
        part.deep_view() == only(l.deep_view(), raw.deep_view(), which),
{
    let mut part: Layer = Layer::default();
    if matches!(which, Bitmap::Pixels) {
        part.top = l.top;
        part.left = l.left;
        part.bottom = l.bottom;
        part.right = l.right;
    }
    if matches!(which, Bitmap::Mask) {
        part.additional_info.mask = copy_blank_mask(&l.additional_info.mask);
    }
    if matches!(which, Bitmap::RealMask) {
        part.additional_info.real_mask = copy_blank_mask(&l.additional_info.real_mask);
    }
    part.raw_data = Some(
        LayerRawData {
            color_mode: raw.color_mode,
            bits_per_channel: raw.bits_per_channel,
            channels: copy_channels(&raw.channels, which),
            large: raw.large,
        },
    );
    part
}

fn decode_bitmap_of(l: &Layer, which: Bitmap) -> (result: ReadResult<Option<PixelData>>)
    ensures
        match stored_bitmap(l.deep_view(), which) {
            Ok(image) => result matches Ok(p) && p.deep_view() == image,
            Err(e) => result matches Err(err) && err@ == e,
        },
{
    let raw: &LayerRawData = match &l.raw_data {
        None => {
            return Ok(None);
        },
        Some(raw) => raw,
    };
    let mut part: Layer = copy_only(l, raw, which);
    decode::decode_layer_image_data(&mut part, true, None)?;
    match which {
        Bitmap::Pixels => Ok(part.image_data),
        Bitmap::Mask => match part.additional_info.mask {
            None => Ok(None),
            Some(m) => Ok(m.image_data),
        },
        Bitmap::RealMask => match part.additional_info.real_mask {
            None => Ok(None),
            Some(m) => Ok(m.image_data),
        },
    }
}

/// Decodes the pixels of a layer.
pub fn get_layer_image_data(l: &Layer) -> (result: ReadResult<Option<PixelData>>)
    ensures
        match stored_bitmap(l.deep_view(), Bitmap::Pixels) {
            Ok(image) => result matches Ok(p) && p.deep_view() == image,
            Err(e) => result matches Err(err) && err@ == e,
        },
{
    decode_bitmap_of(l, Bitmap::Pixels)
}

/// Decodes the mask of a layer.
pub fn get_layer_mask_image_data(l: &Layer) -> (result: ReadResult<Option<PixelData>>)
    ensures
        match stored_bitmap(l.deep_view(), Bitmap::Mask) {
            Ok(image) => result matches Ok(p) && p.deep_view() == image,
            Err(e) => result matches Err(err) && err@ == e,
        },
{
    decode_bitmap_of(l, Bitmap::Mask)
}

/// Decodes the real mask of a layer.
pub fn get_layer_real_mask_image_data(l: &Layer) -> (result: ReadResult<Option<PixelData>>)
    ensures
        match stored_bitmap(l.deep_view(), Bitmap::RealMask) {
            Ok(image) => result matches Ok(p) && p.deep_view() == image,
            Err(e) => result matches Err(err) && err@ == e,
        },
{
    decode_bitmap_of(l, Bitmap::RealMask)
}

/// Decodes all bitmaps of a layer in place of its stored channels.
pub fn decode_layer_pixels(l: &mut Layer, use_image_data: bool) -> (result: ReadResult<()>)
    ensures
        match decode::decoded_layer(old(l).deep_view(), use_image_data, None) {
            Ok((decoded, _)) => result is Ok && final(l).deep_view() == decoded,
            Err(e) => result matches Err(err) && err@ == e,
        },
{
    decode::decode_layer_image_data(l, use_image_data, None)?;
    Ok(())
}

/// What the head of a document said, where the document still says all of it.
pub open spec fn head_of(psd: PsdView, large: bool) -> Option<Header> {
    match (psd.channels, psd.bits_per_channel, psd.color_mode) {
        (Some(channels), Some(bits_per_channel), Some(color_mode)) if bits_per_channel <= 32 => Some(
            Header {
                large,
                channels,
                height: psd.height,
                width: psd.width,
                bits_per_channel,
                color_mode,
            },
        ),
        _ => None,
    }
}

/// A reader over a stored composite image.
pub open spec fn composite_reader(raw: CompositeRawView) -> ReaderState {
    ReaderState {
        large: raw.large,
        global_alpha: raw.global_alpha,
        budget: None,
        ..reader::new_reader_state(raw.data)
    }
}

/// The composite image of a document, decoded from the stored one, where there is
/// something to decode.
pub open spec fn stored_composite_image(psd: PsdView) -> Result<Option<PixelDataView>, ErrorView> {
    match psd.raw_composite_data {
        None => Ok(None),
        Some(raw) => match head_of(psd, raw.large) {
            None => Ok(None),
            Some(h) => match composite::get_composite(composite_reader(raw), h, psd.palette) {
                Err(e) => Err(e),
                Ok((image, _)) => Ok(Some(image)),
            },
        },
    }
}

/// Decodes the composite image of a document.
pub fn get_composite_image_data(psd: &Psd) -> (result: ReadResult<Option<PixelData>>)
    ensures
        match stored_composite_image(psd.deep_view()) {
            Ok(image) => result matches Ok(p) && p.deep_view() == image,
            Err(e) => result matches Err(err) && err@ == e,
        },
{
    match (&psd.raw_composite_data, psd.channels, psd.bits_per_channel, psd.color_mode) {
        (Some(raw), Some(channels), Some(bits_per_channel), Some(color_mode)) => {
            if bits_per_channel > 32 {
                return Ok(None);
            }
            let h: Header = Header {
                large: raw.large,
                channels,
                height: psd.height,
                width: psd.width,
                bits_per_channel,
                color_mode,
            };
            let mut r: PsdReader = PsdReader::new(raw.data.as_slice(), None, None);
            assert(raw.data@.subrange(0, raw.data@.len() as int) =~= raw.data@);
            r.large = raw.large;
            r.global_alpha = raw.global_alpha;
            r.budget = None;
            let image: PixelData = composite::read_image_data(&mut r, h, &psd.palette)?;
            Ok(Some(image))
        },
        _ => Ok(None),
    }
}

/// Stored channels of which only those of one bitmap are left.
spec fn raw_of(raw: RawDataView, n: int, which: Bitmap) -> RawDataView {
    RawDataView { channels: channels_of(raw.channels.take(n), which), ..raw }
}

/// As far as one bitmap goes, the same has been decoded, without a memory limit.
spec fn agree(s: DecodeView, t: DecodeView, which: Bitmap) -> bool {
    &&& s.budget is None
    &&& t.budget is None
    &&& match which {
        Bitmap::Pixels => s.image == t.image && s.alpha == t.alpha,
        Bitmap::Mask => s.mask == t.mask && t.image is None,
        Bitmap::RealMask => s.real_mask == t.real_mask && t.image is None,
    }
}

/// How wide or high the pixels are where one bitmap is decoded.
spec fn side_of(side: int, which: Bitmap) -> int {
    if which == Bitmap::Pixels {
        side
    } else {
        0
    }
}

proof fn lemma_steps_of_prefix(
    t: DecodeView,
    a: RawDataView,
    b: RawDataView,
    n: int,
    width: int,
    height: int,
)
    requires
        b == (RawDataView { channels: b.channels, ..a }),
        0 <= n <= a.channels.len(),
        n <= b.channels.len(),
        a.channels.take(n) == b.channels.take(n),
    ensures
        decode::decode_steps(t, a, n, width, height, true) == decode::decode_steps(
            t,
            b,
            n,
            width,
            height,
            true,
        ),
    decreases n,
{
    if n > 0 {
        reveal(decode::decode_step);
        assert(a.channels.take(n - 1) =~= a.channels.take(n).take(n - 1));
        assert(b.channels.take(n - 1) =~= b.channels.take(n).take(n - 1));
        assert(a.channels[n - 1] == a.channels.take(n)[n - 1]);
        assert(b.channels[n - 1] == b.channels.take(n)[n - 1]);
        lemma_steps_of_prefix(t, a, b, n - 1, width, height);
    }
}

proof fn lemma_step_agrees(
    s: DecodeView,
    t: DecodeView,
    raw: RawDataView,
    other: RawDataView,
    ch: RawChannelView,
    width: int,
    height: int,
    which: Bitmap,
)
    requires
        other == (RawDataView { channels: other.channels, ..raw }),
        agree(s, t, which),
        decode::decode_step(s, raw, ch, width, height, true) is Ok,
    ensures
        belongs(ch.id, which) ==> (decode::decode_step(
            t,
            other,
            ch,
            side_of(width, which),
            side_of(height, which),
            true,
        ) matches Ok(after) && agree(
            decode::decode_step(s, raw, ch, width, height, true)->Ok_0,
            after,
            which,
        )),
        !belongs(ch.id, which) ==> agree(
            decode::decode_step(s, raw, ch, width, height, true)->Ok_0,
            t,
            which,
        ),
{
    reveal(decode::decode_step);
}

proof fn lemma_steps_agree(
    s: DecodeView,
    t: DecodeView,
    raw: RawDataView,
    n: int,
    width: int,
    height: int,
    which: Bitmap,
)
    requires
        0 <= n <= raw.channels.len(),
        agree(s, t, which),
        decode::decode_steps(s, raw, n, width, height, true) is Ok,
    ensures
        decode::decode_steps(
            t,
            raw_of(raw, n, which),
            raw_of(raw, n, which).channels.len() as int,
            side_of(width, which),
            side_of(height, which),
            true,
        ) matches Ok(after) && agree(
            decode::decode_steps(s, raw, n, width, height, true)->Ok_0,
            after,
            which,
        ),
    decreases n,
{
    if n > 0 {
        lemma_steps_agree(s, t, raw, n - 1, width, height, which);
        let before = raw_of(raw, n - 1, which);
        let after = raw_of(raw, n, which);
        let ch = raw.channels[n - 1];
        assert(raw.channels.take(n).drop_last() =~= raw.channels.take(n - 1));
        assert(raw.channels.take(n).last() == ch);
        let w = side_of(width, which);
        let h = side_of(height, which);
        let k = before.channels.len() as int;
        let s1 = decode::decode_steps(s, raw, n - 1, width, height, true)->Ok_0;
        let t1 = decode::decode_steps(t, before, k, w, h, true)->Ok_0;
        if belongs(ch.id, which) {
            assert(after.channels.take(k) =~= before.channels.take(k));
            lemma_steps_of_prefix(t, before, after, k, w, h);
            lemma_step_agrees(s1, t1, raw, after, ch, width, height, which);
        } else {
            lemma_step_agrees(s1, t1, raw, after, ch, width, height, which);
        }
    }
}

/// Nothing has been decoded of a layer yet.
pub open spec fn undecoded(l: LayerView) -> bool {
    &&& l.image_data is None
    &&& l.canvas is None
    &&& l.additional_info.mask == blank_mask(l.additional_info.mask)
    &&& l.additional_info.real_mask == blank_mask(l.additional_info.real_mask)
}

/// Decoding one bitmap of a layer gives what decoding all of them gives of it.
pub proof fn law_one_bitmap_as_all(l: LayerView, which: Bitmap)
    requires
        undecoded(l),
        decode::decoded_layer(l, true, None) is Ok,
    ensures
        stored_bitmap(l, which) == Ok::<Option<PixelDataView>, ErrorView>(
            bitmap_of(decode::decoded_layer(l, true, None)->Ok_0.0, which),
        ),
{
    match l.raw_data {
        None => {},
        Some(raw) => {
            let part = only(l, raw, which);
            let some = part.raw_data->Some_0;
            let n = raw.channels.len() as int;
            let width = mask::box_width(decode::layer_bounds(l));
            let height = mask::box_height(decode::layer_bounds(l));
            let s = decode::decode_start(l, raw, None)->Ok_0;
            assert(decode::decode_start(part, some, None) is Ok);
            let t = decode::decode_start(part, some, None)->Ok_0;
            assert(agree(s, t, which));
            assert(raw.channels.take(n) =~= raw.channels);
            assert(raw_of(raw, n, which) == some);
            lemma_steps_agree(s, t, raw, n, width, height, which);
        },
    }
}

} // verus!
