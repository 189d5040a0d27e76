//! The channels of a layer and of its masks, coded for writing.

use vstd::prelude::*;

use crate::bytes;
use crate::codec;
use crate::decode;
use crate::helpers::Bounds;
use crate::pixels;
use crate::psd;
use crate::psd::{
    ChannelId, ColorMode, Compression, Layer, LayerMaskData, LayerMaskView, LayerRawData,
    LayerView, PixelData, PixelDataView, RawDataView, WriteOptions,
};
use crate::rle;
use crate::trim;
use crate::zlib;

verus! {

broadcast use crate::bytes::group_bytes;

/// A coded channel: `length` counts the code and the two bytes before it that
/// say how it is compressed.
#[derive(Clone, Debug, PartialEq, Eq)]
pub struct ChannelData {
    pub channel_id: ChannelId,
    pub compression: Compression,
    pub buffer: Option<Vec<u8>>,
    pub length: usize,
}

/// The mathematical view of [`ChannelData`].
#[verifier::ext_equal]
pub struct ChannelDataView {
    pub channel_id: ChannelId,
    pub compression: Compression,
    pub buffer: Option<Seq<u8>>,
    pub length: usize,
}

impl DeepView for ChannelData {
    type V = ChannelDataView;

    open spec fn deep_view(&self) -> ChannelDataView {
        ChannelDataView {
            channel_id: self.channel_id,
            compression: self.compression,
            buffer: match self.buffer {
                Some(buffer) => Some(buffer@),
                None => None,
            },
            length: self.length,
        }
    }
}

/// A layer with its coded channels, its rectangle and those of its masks.
#[derive(Debug)]
pub struct LayerChannelData {
    pub layer: Layer,
    pub channels: Vec<ChannelData>,
    pub top: i32,
    pub left: i32,
    pub right: i32,
    pub bottom: i32,
    pub mask: Option<Bounds>,
    pub real_mask: Option<Bounds>,
}

/// The mathematical view of [`LayerChannelData`].
#[verifier::ext_equal]
pub struct LayerChannelView {
    pub layer: LayerView,
    pub channels: Seq<ChannelDataView>,
    pub bounds: Bounds,
    pub mask: Option<Bounds>,
    pub real_mask: Option<Bounds>,
}

impl DeepView for LayerChannelData {
    type V = LayerChannelView;

    open spec fn deep_view(&self) -> LayerChannelView {
        LayerChannelView {
            layer: self.layer.deep_view(),
            channels: self.channels.deep_view(),
            bounds: Bounds {
                top: self.top,
                left: self.left,
                right: self.right,
                bottom: self.bottom,
            },
            mask: self.mask,
            real_mask: self.real_mask,
        }
    }
}

/// The pixels of a layer: its image data, or else its canvas.
pub open spec fn layer_image(l: LayerView) -> Option<PixelDataView> {
    if l.image_data is Some {
        l.image_data
    } else {
        l.canvas
    }
}

/// The pixels of a mask: its image data, or else its canvas.
pub open spec fn mask_image(m: LayerMaskView) -> Option<PixelDataView> {
    if m.image_data is Some {
        m.image_data
    } else {
        m.canvas
    }
}

/// The size of some pixels; nothing has no size.
pub open spec fn image_size(p: Option<PixelDataView>) -> (int, int) {
    match p {
        Some(p) => (p.width as int, p.height as int),
        None => (0, 0),
    }
}

/// The pixels that count: the image data, or else the canvas.
pub fn chosen_image<'a>(
    canvas: &'a Option<PixelData>,
    image_data: &'a Option<PixelData>,
) -> (image: Option<&'a PixelData>)
    ensures
        match image {
            Some(p) => if image_data.deep_view() is Some {
                image_data.deep_view() == Some(p.deep_view())
            } else {
                canvas.deep_view() == Some(p.deep_view())
            },
            None => image_data.deep_view() is None && canvas.deep_view() is None,
        },
{
    match image_data {
        Some(p) => Some(p),
        None => match canvas {
            Some(p) => Some(p),
            None => None,
        },
    }
}

/// The size of the pixels that count: of the image data, or else of the canvas.
pub fn get_layer_dimensions(canvas: &Option<PixelData>, image_data: &Option<PixelData>) -> (size: (
    u32,
    u32,
))
    ensures
        (size.0 as int, size.1 as int) == image_size(
            if image_data.deep_view() is Some {
                image_data.deep_view()
            } else {
                canvas.deep_view()
            },
        ),
{
    match chosen_image(canvas, image_data) {
        Some(p) => (p.width, p.height),
        None => (0, 0),
    }
}

/// The edges of some pixels have coordinates, and no byte is missing.
pub open spec fn image_fits(p: Option<PixelDataView>, top: int, left: int) -> bool {
    p matches Some(p) ==> p.wf() && p.width <= i32::MAX && p.height <= i32::MAX && top + p.height
        <= i32::MAX && left + p.width <= i32::MAX
}

/// The pixels of a layer and of its masks can be written.
pub open spec fn layer_fits(l: LayerView) -> bool {
    &&& image_fits(
        layer_image(l),
        decode::coordinate(l.top) as int,
        decode::coordinate(l.left) as int,
    )
    &&& l.additional_info.mask matches Some(m) ==> mask_fits(m)
    &&& l.additional_info.real_mask matches Some(m) ==> mask_fits(m)
}

/// The pixels of a mask can be written.
pub open spec fn mask_fits(m: LayerMaskView) -> bool {
    image_fits(
        mask_image(m),
        decode::coordinate(m.top) as int,
        decode::coordinate(m.left) as int,
    )
}

/// What is written of the pixels of a layer, and where it lies.
#[verifier::ext_equal]
pub struct LayerPart {
    pub bounds: Bounds,
    pub image: Option<PixelDataView>,
}

/// Stored channels can be written as they are: 8-bit RGB, in the format that is
/// written.
pub open spec fn keeps_format(raw: RawDataView, psb: bool) -> bool {
    raw.color_mode == ColorMode::Rgb && raw.bits_per_channel == 8 && raw.large == psb
}

/// The stored channels that a layer is written from: those it was read with, where it
/// has no pixels and they can be written as they are. The channels of its masks are
/// among them; pixels that its masks have besides are not written.
pub open spec fn written_raw(l: LayerView, psb: bool) -> Option<RawDataView> {
    match l.raw_data {
        Some(raw) => if layer_image(l) is None && keeps_format(raw, psb) {
            Some(raw)
        } else {
            None
        },
        None => None,
    }
}

/// What is written of the pixels of a layer: nothing where there is no area, and
/// on demand only what is left without the transparent border. A layer that is
/// written from its stored channels keeps its rectangle.
pub open spec fn written_part(l: LayerView, trim: bool, psb: bool) -> LayerPart {
    let top = decode::coordinate(l.top);
    let left = decode::coordinate(l.left);
    let nothing = LayerPart { bounds: Bounds { top, left, right: left, bottom: top }, image: None };
    match layer_image(l) {
        None => if written_raw(l, psb) is Some {
            LayerPart { bounds: decode::layer_bounds(l), image: None }
        } else {
            nothing
        },
        Some(p) => if p.width == 0 || p.height == 0 {
            nothing
        } else {
            let t = trim::trimmed(p);
            if !trim || trim::box_is(t, 0, 0, p.width as int, p.height as int) {
                LayerPart {
                    bounds: Bounds {
                        top,
                        left,
                        right: (left + p.width) as i32,
                        bottom: (top + p.height) as i32,
                    },
                    image: Some(p),
                }
            } else {
                LayerPart {
                    bounds: Bounds {
                        top: (top + t.top) as i32,
                        left: (left + t.left) as i32,
                        right: (left + t.right) as i32,
                        bottom: (top + t.bottom) as i32,
                    },
                    image: if t.left == t.right || t.top == t.bottom {
                        None
                    } else {
                        Some(
                            trim::cropped(
                                p,
                                t.left as int,
                                t.top as int,
                                t.right - t.left,
                                t.bottom - t.top,
                            ),
                        )
                    },
                }
            }
        },
    }
}

/// The rectangle of a mask as it is written.
pub open spec fn written_mask_bounds(m: LayerMaskView) -> Bounds {
    let top = decode::coordinate(m.top);
    let left = decode::coordinate(m.left);
    let (width, height) = image_size(mask_image(m));
    Bounds { top, left, right: (left + width) as i32, bottom: (top + height) as i32 }
}

/// The rectangle of a mask of a layer as it is written, where there is one. Where
/// the layer is written from its stored channels its masks keep their rectangles.
pub open spec fn layer_mask_bounds(l: LayerView, m: Option<LayerMaskView>, psb: bool) -> Option<Bounds> {
    match m {
        None => None,
        Some(m) => Some(
            if written_raw(l, psb) is Some {
                decode::mask_bounds(m)
            } else {
                written_mask_bounds(m)
            },
        ),
    }
}

/// What a channel is made from: nothing, a mask without pixels, the samples of one
/// channel of a bitmap, or a stored channel.
pub enum Source {
    NoPixels,
    NoMask,
    Plane(PixelDataView, int),
    Stored(Compression, Option<Seq<u8>>),
}

/// A channel that is to be written.
pub struct PlannedChannel {
    pub id: ChannelId,
    pub source: Source,
}

/// The channels of a layer with pixels: red, green and blue, behind the
/// transparency where there is one.
pub open spec fn color_plan(p: PixelDataView, transparency: bool) -> Seq<PlannedChannel> {
    (if transparency {
        seq![PlannedChannel { id: ChannelId::Transparency, source: Source::Plane(p, 3) }]
    } else {
        Seq::empty()
    }) + seq![
        PlannedChannel { id: ChannelId::Color0, source: Source::Plane(p, 0) },
        PlannedChannel { id: ChannelId::Color1, source: Source::Plane(p, 1) },
        PlannedChannel { id: ChannelId::Color2, source: Source::Plane(p, 2) },
    ]
}

/// The channels of a layer without pixels.
pub open spec fn empty_plan() -> Seq<PlannedChannel> {
    seq![
        PlannedChannel { id: ChannelId::Transparency, source: Source::NoPixels },
        PlannedChannel { id: ChannelId::Color0, source: Source::NoPixels },
        PlannedChannel { id: ChannelId::Color1, source: Source::NoPixels },
        PlannedChannel { id: ChannelId::Color2, source: Source::NoPixels },
    ]
}

/// The transparency of a layer is written: of every layer but an opaque background.
pub open spec fn wants_transparency(
    l: LayerView,
    p: PixelDataView,
    background: bool,
    options: WriteOptions,
) -> bool {
    !background || options.no_background == Some(true) || l.additional_info.mask is Some
        || pixels::has_transparency(p)
}

/// Channels that are written as they are stored.
pub open spec fn stored_plan(raw: RawDataView) -> Seq<PlannedChannel> {
    Seq::new(
        raw.channels.len(),
        |i: int|
            PlannedChannel {
                id: raw.channels[i].id,
                source: Source::Stored(raw.channels[i].compression, raw.channels[i].data),
            },
    )
}

/// The channels of the pixels of a layer, or all its stored channels.
pub open spec fn layer_plan(l: LayerView, background: bool, options: WriteOptions, psb: bool) -> Seq<
    PlannedChannel,
> {
    match written_raw(l, psb) {
        Some(raw) => stored_plan(raw),
        None => pixel_plan(l, background, options, psb),
    }
}

/// The channels of the pixels of a layer.
pub open spec fn pixel_plan(l: LayerView, background: bool, options: WriteOptions, psb: bool) -> Seq<
    PlannedChannel,
> {
    match written_part(l, options.trim_image_data == Some(true), psb).image {
        None => empty_plan(),
        Some(p) => color_plan(p, wants_transparency(l, p, background, options)),
    }
}

/// The channel of a mask.
pub open spec fn mask_plan(m: Option<LayerMaskView>, id: ChannelId) -> Seq<PlannedChannel> {
    match m {
        None => Seq::empty(),
        Some(m) => seq![
            PlannedChannel {
                id,
                source: match mask_image(m) {
                    None => Source::NoMask,
                    Some(p) => Source::Plane(p, 0),
                },
            },
        ],
    }
}

/// All channels of a layer: those of its pixels, and those of its masks; or those
/// that it was read with.
pub open spec fn channel_plan(l: LayerView, background: bool, options: WriteOptions, psb: bool) -> Seq<
    PlannedChannel,
> {
    if written_raw(l, psb) is Some {
        layer_plan(l, background, options, psb)
    } else {
        layer_plan(l, background, options, psb) + mask_plan(l.additional_info.mask, ChannelId::UserMask)
            + mask_plan(l.additional_info.real_mask, ChannelId::RealUserMask)
    }
}

/// How many bytes a channel takes with the two that say how it is compressed.
pub open spec fn coded_length(buffer: Seq<u8>) -> usize {
    bytes::clamp_offset(buffer.len() as int + 2) as usize
}

/// `c` is the code of a planned channel.
pub open spec fn codes(
    c: ChannelDataView,
    planned: PlannedChannel,
    compress: bool,
    psb: bool,
) -> bool {
    &&& c.channel_id == planned.id
    &&& match planned.source {
        Source::NoPixels => c.compression == Compression::RawData && c.buffer is None && c.length
            == 2,
        Source::NoMask => c.compression == Compression::RleCompressed && c.buffer == Some(
            Seq::<u8>::empty(),
        ) && c.length == 2,
        Source::Stored(compression, code) => {
            &&& c.compression == compression
            &&& c.buffer == code
            &&& c.length == coded_length(
                match code {
                    Some(code) => code,
                    None => Seq::empty(),
                },
            )
        },
        Source::Plane(p, channel) => {
            &&& c.buffer is Some
            &&& c.length == coded_length(c.buffer->Some_0)
            &&& if compress {
                &&& c.compression == Compression::ZipWithoutPrediction
                &&& c.buffer->Some_0 == zlib::zlib_deflated(pixels::plane(p, channel))
                &&& c.buffer->Some_0.len() > 0
                &&& zlib::stands_for(c.buffer->Some_0, pixels::plane(p, channel))
            } else {
                &&& c.compression == Compression::RleCompressed
                &&& c.buffer->Some_0 == (if p.width == 0 || p.height == 0 {
                    Seq::empty()
                } else {
                    rle::rle_bytes(p, seq![channel as usize], psb)
                })
            }
        },
    }
}

/// `channels` are the codes of planned channels, one by one.
pub open spec fn codes_all(
    channels: Seq<ChannelDataView>,
    plan: Seq<PlannedChannel>,
    compress: bool,
    psb: bool,
) -> bool {
    &&& channels.len() == plan.len()
    &&& forall|i: int|
        0 <= i < channels.len() ==> codes(#[trigger] channels[i], plan[i], compress, psb)
}

/// `d` is what is written of a layer.
pub open spec fn codes_layer(
    d: LayerChannelView,
    l: LayerView,
    background: bool,
    options: WriteOptions,
    psb: bool,
) -> bool {
    &&& d.layer == (LayerView { children: None, ..l })
    &&& d.bounds == written_part(l, options.trim_image_data == Some(true), psb).bounds
    &&& d.mask == layer_mask_bounds(l, l.additional_info.mask, psb)
    &&& d.real_mask == layer_mask_bounds(l, l.additional_info.real_mask, psb)
    &&& codes_all(
        d.channels,
        channel_plan(l, background, options, psb),
        options.compress == Some(true),
        psb,
    )
}

/// There is room to code one channel of a bitmap of this size.
pub open spec fn has_room(temp_buffer: Seq<u8>, width: int, height: int, psb: bool) -> bool {
    temp_buffer.len() >= bytes::clamp_offset(rle::scratch_size(width, height, 1, psb))
}

/// A smaller bitmap takes no more room.
proof fn lemma_less_room(temp_buffer: Seq<u8>, width: int, height: int, w: int, h: int, psb: bool)
    requires
        has_room(temp_buffer, width, height, psb),
        0 <= w <= width,
        0 <= h <= height,
    ensures
        has_room(temp_buffer, w, h, psb),
{
    let e: int = if psb {
        4
    } else {
        2
    };
    assert(1 * (h * (e + 2 * w)) <= 1 * (height * (e + 2 * width))) by (nonlinear_arith)
        requires
            0 <= w <= width,
            0 <= h <= height,
            e > 0,
    ;
}

fn code_channel(
    temp_buffer: &mut Vec<u8>,
    image: &PixelData,
    channel_id: ChannelId,
    offset: usize,
    compress: bool,
    psb: bool,
) -> (channel: ChannelData)
    requires
        image.deep_view().wf(),
        offset < 4,
        has_room(old(temp_buffer)@, image.width as int, image.height as int, psb),
    ensures
        codes(
            channel.deep_view(),
            PlannedChannel {
                id: channel_id,
                source: Source::Plane(image.deep_view(), offset as int),
            },
            compress,
            psb,
        ),
        final(temp_buffer)@.len() == old(temp_buffer)@.len(),
{
    let offsets: [usize; 1] = [offset];
    assert(offsets@ =~= seq![offset]);
    if compress {
        let buffer: Vec<u8> = match codec::write_data_zip_without_prediction(image, &offsets) {
            Some(code) => code,
            None => Vec::new(),
        };
        let length: usize = buffer.len().saturating_add(2);
        ChannelData {
            channel_id,
            compression: Compression::ZipWithoutPrediction,
            buffer: Some(buffer),
            length,
        }
    } else {
        proof {
            rle::lemma_rle_fits(image.deep_view(), offsets@, psb);
        }
        let buffer: Vec<u8> = match rle::write_data_rle(temp_buffer, image, &offsets, psb) {
            Some(code) => code,
            None => Vec::new(),
        };
        let length: usize = buffer.len().saturating_add(2);
        assert(buffer@ == (if image.width == 0 || image.height == 0 {
            Seq::<u8>::empty()
        } else {
            rle::rle_bytes(image.deep_view(), offsets@, psb)
        }));
        ChannelData {
            channel_id,
            compression: Compression::RleCompressed,
            buffer: Some(buffer),
            length,
        }
    }
}

fn empty_channel(channel_id: ChannelId) -> (channel: ChannelData)
    ensures
        channel.deep_view() == (ChannelDataView {
            channel_id,
            compression: Compression::RawData,
            buffer: None,
            length: 2,
        }),
{
    ChannelData { channel_id, compression: Compression::RawData, buffer: None, length: 2 }
}

fn empty_channels() -> (channels: Vec<ChannelData>)
    ensures
        forall|compress: bool, psb: bool| #[trigger]
            codes_all(channels.deep_view(), empty_plan(), compress, psb),
{
    let mut channels: Vec<ChannelData> = Vec::new();
    channels.push(empty_channel(ChannelId::Transparency));
    channels.push(empty_channel(ChannelId::Color0));
    channels.push(empty_channel(ChannelId::Color1));
    channels.push(empty_channel(ChannelId::Color2));
    channels
}

/// Copies stored channels; how others are compressed does not matter.
fn stored_channels(raw: &LayerRawData, compress: bool, psb: bool) -> (channels: Vec<ChannelData>)
    ensures
        codes_all(channels.deep_view(), stored_plan(raw.deep_view()), compress, psb),
{
    let mut channels: Vec<ChannelData> = Vec::new();
    let ghost plan = stored_plan(raw.deep_view());
    let mut i: usize = 0;
    while i < raw.channels.len()
        invariant
            i <= raw.channels@.len(),
            plan == stored_plan(raw.deep_view()),
            plan.len() == raw.channels@.len(),
            channels@.len() == i,
            forall|k: int|
                0 <= k < i ==> codes(
                    #[trigger] channels.deep_view()[k],
                    plan[k],
                    compress,
                    psb,
                ),
        decreases raw.channels@.len() - i,
    {
        let buffer: Option<Vec<u8>> = match &raw.channels[i].data {
            Some(data) => Some(psd::copy_bytes(data)),
            None => None,
        };
        let length: usize = match &buffer {
            Some(code) => code.len().saturating_add(2),
            None => 2,
        };
        let channel: ChannelData = ChannelData {
            channel_id: raw.channels[i].id,
            compression: raw.channels[i].compression,
            buffer,
            length,
        };
        let ghost before = channels.deep_view();
        let ghost added = channel.deep_view();
        assert(raw.deep_view().channels[i as int] == raw.channels@[i as int].deep_view());
        assert(codes(added, plan[i as int], compress, psb));
        channels.push(channel);
        assert(channels.deep_view() =~= before.push(added));
        i += 1;
    }
    channels
}

fn color_channels(
    temp_buffer: &mut Vec<u8>,
    image: &PixelData,
    transparency: bool,
    compress: bool,
    psb: bool,
) -> (channels: Vec<ChannelData>)
    requires
        image.deep_view().wf(),
        has_room(old(temp_buffer)@, image.width as int, image.height as int, psb),
    ensures
        codes_all(
            channels.deep_view(),
            color_plan(image.deep_view(), transparency),
            compress,
            psb,
        ),
        final(temp_buffer)@.len() == old(temp_buffer)@.len(),
{
    let mut channels: Vec<ChannelData> = Vec::new();
    if transparency {
        channels.push(
            code_channel(temp_buffer, image, ChannelId::Transparency, 3, compress, psb),
        );
    }
    channels.push(code_channel(temp_buffer, image, ChannelId::Color0, 0, compress, psb));
    channels.push(code_channel(temp_buffer, image, ChannelId::Color1, 1, compress, psb));
    channels.push(code_channel(temp_buffer, image, ChannelId::Color2, 2, compress, psb));
    channels
}

/// What is written of the pixels of a layer; its masks are left out.
pub open spec fn codes_pixels(
    d: LayerChannelView,
    l: LayerView,
    background: bool,
    options: WriteOptions,
    psb: bool,
) -> bool {
    &&& d.layer == (LayerView { children: None, ..l })
    &&& d.bounds == written_part(l, options.trim_image_data == Some(true), psb).bounds
    &&& d.mask is None
    &&& d.real_mask is None
    &&& codes_all(
        d.channels,
        layer_plan(l, background, options, psb),
        options.compress == Some(true),
        psb,
    )
}

/// The stored channels that a layer is written from.
fn kept_channels<'a>(layer: &'a Layer, psb: bool) -> (raw: Option<&'a LayerRawData>)
    ensures
        raw.deep_view() == written_raw(layer.deep_view(), psb),
{
    match &layer.raw_data {
        Some(raw) => if layer.image_data.is_none() && layer.canvas.is_none() && matches!(
            raw.color_mode,
            ColorMode::Rgb
        ) && raw.bits_per_channel == 8 && raw.large == psb {
            Some(raw)
        } else {
            None
        },
        None => None,
    }
}

fn layer_data(layer: &Layer, channels: Vec<ChannelData>, bounds: Bounds) -> (data: LayerChannelData)
    ensures
        data.deep_view() == (LayerChannelView {
            layer: LayerView { children: None, ..layer.deep_view() },
            channels: channels.deep_view(),
            bounds,
            mask: None,
            real_mask: None,
        }),
{
    LayerChannelData {
        layer: layer.duplicate_without_children(),
        channels,
        top: bounds.top,
        left: bounds.left,
        right: bounds.right,
        bottom: bounds.bottom,
        mask: None,
        real_mask: None,
    }
}

fn code_pixels(
    temp_buffer: &mut Vec<u8>,
    layer: &Layer,
    image: &PixelData,
    bounds: Bounds,
    background: bool,
    options: &WriteOptions,
    psb: bool,
) -> (data: LayerChannelData)
    requires
        image.deep_view().wf(),
        has_room(old(temp_buffer)@, image.width as int, image.height as int, psb),
        written_part(layer.deep_view(), options.trim_image_data == Some(true), psb) == (LayerPart {
            bounds,
            image: Some(image.deep_view()),
        }),
    ensures
        codes_pixels(data.deep_view(), layer.deep_view(), background, *options, psb),
        final(temp_buffer)@.len() == old(temp_buffer)@.len(),
{
    let transparency: bool = !background || matches!(options.no_background, Some(true))
        || layer.additional_info.mask.is_some() || pixels::has_alpha(image);
    let compress: bool = matches!(options.compress, Some(true));
    let channels: Vec<ChannelData> = color_channels(
        temp_buffer,
        image,
        transparency,
        compress,
        psb,
    );
    layer_data(layer, channels, bounds)
}

/// Codes the pixels of a layer, or copies its stored channels.
pub fn get_layer_channels(
    temp_buffer: &mut Vec<u8>,
    layer: &Layer,
    background: bool,
    options: &WriteOptions,
    psb: bool,
) -> (data: LayerChannelData)
    requires
        layer_fits(layer.deep_view()),
        layer_image(layer.deep_view()) matches Some(p) ==> has_room(
            old(temp_buffer)@,
            p.width as int,
            p.height as int,
            psb,
        ),
    ensures
        codes_pixels(data.deep_view(), layer.deep_view(), background, *options, psb),
        final(temp_buffer)@.len() == old(temp_buffer)@.len(),
{
    let top: i32 = coordinate_of(layer.top);
    let left: i32 = coordinate_of(layer.left);
    let (width, height): (u32, u32) = get_layer_dimensions(&layer.canvas, &layer.image_data);
    let image: Option<&PixelData> = chosen_image(&layer.canvas, &layer.image_data);
    match image {
        None => match kept_channels(layer, psb) {
            Some(raw) => {
                let whole: Bounds = Bounds {
                    top,
                    left,
                    right: coordinate_of(layer.right),
                    bottom: coordinate_of(layer.bottom),
                };
                let compress: bool = matches!(options.compress, Some(true));
                layer_data(layer, stored_channels(raw, compress, psb), whole)
            },
            None => layer_data(
                layer,
                empty_channels(),
                Bounds { top, left, right: left, bottom: top },
            ),
        },
        Some(image) => {
            if width == 0 || height == 0 {
                return layer_data(
                    layer,
                    empty_channels(),
                    Bounds { top, left, right: left, bottom: top },
                );
            }
            let whole: Bounds = Bounds {
                top,
                left,
                right: (left as i64 + width as i64) as i32,
                bottom: (top as i64 + height as i64) as i32,
            };
            if !matches!(options.trim_image_data, Some(true)) {
                return code_pixels(temp_buffer, layer, image, whole, background, options, psb);
            }
            let t: Bounds = trim::trim_data(image);
            if t.top == 0 && t.left == 0 && t.right as i64 == width as i64 && t.bottom as i64
                == height as i64 {
                return code_pixels(temp_buffer, layer, image, whole, background, options, psb);
            }
            let bounds: Bounds = Bounds {
                top: top + t.top,
                left: left + t.left,
                right: (left as i64 + t.right as i64) as i32,
                bottom: (top as i64 + t.bottom as i64) as i32,
            };
            if t.left == t.right || t.top == t.bottom {
                return layer_data(layer, empty_channels(), bounds);
            }
            let part: PixelData = trim::crop_image_data(
                image,
                t.left as usize,
                t.top as usize,
                (t.right - t.left) as usize,
                (t.bottom - t.top) as usize,
            );
            proof {
                lemma_less_room(
                    temp_buffer@,
                    width as int,
                    height as int,
                    t.right - t.left,
                    t.bottom - t.top,
                    psb,
                );
            }
            code_pixels(temp_buffer, layer, &part, bounds, background, options, psb)
        },
    }
}

/// Codes the pixels of a mask and adds them to the channels of its layer.
pub fn get_mask_channels(
    temp_buffer: &mut Vec<u8>,
    data: &mut LayerChannelData,
    mask: &LayerMaskData,
    options: &WriteOptions,
    psb: bool,
    real_mask: bool,
)
    requires
        mask_fits(mask.deep_view()),
        mask_image(mask.deep_view()) matches Some(p) ==> has_room(
            old(temp_buffer)@,
            p.width as int,
            p.height as int,
            psb,
        ),
    ensures
        final(temp_buffer)@.len() == old(temp_buffer)@.len(),
        ({
            let id = if real_mask {
                ChannelId::RealUserMask
            } else {
                ChannelId::UserMask
            };
            let bounds = Some(written_mask_bounds(mask.deep_view()));
            let after = final(data).deep_view();
            &&& after.channels.len() == old(data).deep_view().channels.len() + 1
            &&& after.channels.drop_last() == old(data).deep_view().channels
            &&& codes(
                after.channels.last(),
                mask_plan(Some(mask.deep_view()), id)[0],
                options.compress == Some(true),
                psb,
            )
            &&& after == (LayerChannelView {
                channels: after.channels,
                mask: if real_mask {
                    old(data).deep_view().mask
                } else {
                    bounds
                },
                real_mask: if real_mask {
                    bounds
                } else {
                    old(data).deep_view().real_mask
                },
                ..old(data).deep_view()
            })
        }),
{
    let top: i32 = coordinate_of(mask.top);
    let left: i32 = coordinate_of(mask.left);
    let (width, height): (u32, u32) = get_layer_dimensions(&mask.canvas, &mask.image_data);
    let bounds: Bounds = Bounds {
        top,
        left,
        right: (left as i64 + width as i64) as i32,
        bottom: (top as i64 + height as i64) as i32,
    };
    let channel_id: ChannelId = if real_mask {
        ChannelId::RealUserMask
    } else {
        ChannelId::UserMask
    };
    let compress: bool = matches!(options.compress, Some(true));
    let image: Option<&PixelData> = chosen_image(&mask.canvas, &mask.image_data);
    let channel: ChannelData = match image {
        None => ChannelData {
            channel_id,
            compression: Compression::RleCompressed,
            buffer: Some(Vec::new()),
            length: 2,
        },
        Some(image) => code_channel(temp_buffer, image, channel_id, 0, compress, psb),
    };
    let ghost before = data.channels.deep_view();
    let ghost added = channel.deep_view();
    data.channels.push(channel);
    assert(data.channels.deep_view() =~= before.push(added));
    assert(before.push(added).drop_last() =~= before);
    if real_mask {
        data.real_mask = Some(bounds);
    } else {
        data.mask = Some(bounds);
    }
}

fn coordinate_of(v: Option<i32>) -> (c: i32)
    ensures
        c == decode::coordinate(v),
{
    match v {
        Some(v) => v,
        None => 0,
    }
}

fn own_bounds(mask: &Option<LayerMaskData>) -> (bounds: Option<Bounds>)
    ensures
        bounds == (match mask.deep_view() {
            Some(m) => Some(decode::mask_bounds(m)),
            None => None,
        }),
{
    match mask {
        None => None,
        Some(m) => Some(
            Bounds {
                top: coordinate_of(m.top),
                left: coordinate_of(m.left),
                right: coordinate_of(m.right),
                bottom: coordinate_of(m.bottom),
            },
        ),
    }
}

/// There is room to code the channels of a layer and of its masks.
pub open spec fn layer_has_room(temp_buffer: Seq<u8>, l: LayerView, psb: bool) -> bool {
    &&& layer_image(l) matches Some(p) ==> has_room(
        temp_buffer,
        p.width as int,
        p.height as int,
        psb,
    )
    &&& l.additional_info.mask matches Some(m) ==> (mask_image(m) matches Some(p) ==> has_room(
        temp_buffer,
        p.width as int,
        p.height as int,
        psb,
    ))
    &&& l.additional_info.real_mask matches Some(m) ==> (mask_image(m) matches Some(p) ==> has_room(
        temp_buffer,
        p.width as int,
        p.height as int,
        psb,
    ))
}

/// Codes the pixels of a layer and of its masks, or copies its stored channels.
pub fn get_channels(
    temp_buffer: &mut Vec<u8>,
    layer: &Layer,
    background: bool,
    options: &WriteOptions,
    psb: bool,
) -> (data: LayerChannelData)
    requires
        layer_fits(layer.deep_view()),
        layer_has_room(old(temp_buffer)@, layer.deep_view(), psb),
    ensures
        codes_layer(data.deep_view(), layer.deep_view(), background, *options, psb),
        final(temp_buffer)@.len() == old(temp_buffer)@.len(),
{
    let ghost l = layer.deep_view();
    let ghost compress = options.compress == Some(true);
    let ghost own_plan = layer_plan(l, background, *options, psb);
    let mut data: LayerChannelData = get_layer_channels(
        temp_buffer,
        layer,
        background,
        options,
        psb,
    );
    if kept_channels(layer, psb).is_some() {
        data.mask = own_bounds(&layer.additional_info.mask);
        data.real_mask = own_bounds(&layer.additional_info.real_mask);
        return data;
    }
    let ghost plan_1 = own_plan + mask_plan(l.additional_info.mask, ChannelId::UserMask);
    match &layer.additional_info.mask {
        Some(mask) => {
            let ghost before = data.channels.deep_view();
            get_mask_channels(temp_buffer, &mut data, mask, options, psb, false);
            proof {
                lemma_one_more(
                    before,
                    data.channels.deep_view(),
                    own_plan,
                    plan_1,
                    compress,
                    psb,
                );
            }
        },
        None => {
            assert(plan_1 =~= own_plan);
        },
    }
    let ghost plan_2 = plan_1 + mask_plan(l.additional_info.real_mask, ChannelId::RealUserMask);
    match &layer.additional_info.real_mask {
        Some(mask) => {
            let ghost before = data.channels.deep_view();
            get_mask_channels(temp_buffer, &mut data, mask, options, psb, true);
            proof {
                lemma_one_more(
                    before,
                    data.channels.deep_view(),
                    plan_1,
                    plan_2,
                    compress,
                    psb,
                );
            }
        },
        None => {
            assert(plan_2 =~= plan_1);
        },
    }
    data
}

proof fn lemma_one_more(
    before: Seq<ChannelDataView>,
    after: Seq<ChannelDataView>,
    plan: Seq<PlannedChannel>,
    more: Seq<PlannedChannel>,
    compress: bool,
    psb: bool,
)
    requires
        codes_all(before, plan, compress, psb),
        after.len() == before.len() + 1,
        after.drop_last() == before,
        more.len() == plan.len() + 1,
        more.drop_last() =~= plan,
        codes(after.last(), more.last(), compress, psb),
    ensures
        codes_all(after, more, compress, psb),
{
    assert forall|i: int| 0 <= i < after.len() implies codes(
        #[trigger] after[i],
        more[i],
        compress,
        psb,
    ) by {
        if i < before.len() {
            assert(after[i] == after.drop_last()[i]);
            assert(more[i] == more.drop_last()[i]);
            assert(codes(before[i], plan[i], compress, psb));
        }
    }
}

} // verus!
