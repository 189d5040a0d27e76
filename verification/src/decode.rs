//! From the stored channels of a layer to its pixels and those of its masks.

use vstd::prelude::*;

use crate::budget;
use crate::bytes;
use crate::codec;
use crate::error::{ErrorView, ReadError, ReadResult};
use crate::helpers;
use crate::helpers::Bounds;
use crate::mask;
use crate::pixels;
use crate::pixels::DecodeTarget;
use crate::psd::{
    AdditionalInfoView, ChannelId, ColorMode, Compression, Layer, LayerMaskData, LayerMaskView,
    LayerRawData, LayerView, PixelData, PixelDataView, RawChannelView, RawDataView,
};
use crate::reader;
use crate::reader::{PsdReader, ReaderState};
use crate::text;

verus! {

broadcast use crate::bytes::group_bytes;

/// A reader over the bytes of a channel.
pub open spec fn channel_reader(data: Seq<u8>, budget: Option<usize>) -> ReaderState {
    ReaderState { budget, ..reader::new_reader_state(data) }
}

pub open spec fn coordinate(v: Option<i32>) -> i32 {
    match v {
        Some(v) => v,
        None => 0,
    }
}

fn coordinate_of(v: Option<i32>) -> (c: i32)
    ensures
        c == coordinate(v),
{
    match v {
        Some(v) => v,
        None => 0,
    }
}

/// The rectangle of a mask.
pub open spec fn mask_bounds(m: LayerMaskView) -> Bounds {
    Bounds {
        top: coordinate(m.top),
        left: coordinate(m.left),
        right: coordinate(m.right),
        bottom: coordinate(m.bottom),
    }
}

/// The rectangle of a layer.
pub open spec fn layer_bounds(l: LayerView) -> Bounds {
    Bounds {
        top: coordinate(l.top),
        left: coordinate(l.left),
        right: coordinate(l.right),
        bottom: coordinate(l.bottom),
    }
}

/// A mask with pixels.
pub open spec fn mask_with_pixels(
    m: LayerMaskView,
    p: PixelDataView,
    use_image_data: bool,
) -> LayerMaskView {
    if use_image_data {
        LayerMaskView { image_data: Some(p), ..m }
    } else {
        LayerMaskView { canvas: Some(p), ..m }
    }
}

/// The pixels of a mask from its samples: gray and opaque.
pub open spec fn gray_pixels(width: int, height: int, data: Seq<u8>) -> PixelDataView {
    PixelDataView {
        width: width as u32,
        height: height as u32,
        data: pixels::opaque(pixels::grayed(data, width * height * 4), 4),
    }
}

/// A mask with the pixels of its channel, and what is left of the memory limit.
pub open spec fn decoded_mask(
    m: LayerMaskView,
    kind: Seq<char>,
    data: Seq<u8>,
    compression: Compression,
    bits: u32,
    large: bool,
    use_image_data: bool,
    budget: Option<usize>,
) -> Result<(LayerMaskView, Option<usize>), ErrorView> {
    let b = mask_bounds(m);
    let width = mask::box_width(b);
    let height = mask::box_height(b);
    if !mask::valid_box(b, large) {
        Err(ErrorView::InvalidBoxSize { kind, width, height })
    } else if width == 0 || height == 0 {
        Ok((m, budget))
    } else {
        match budget::charged(budget, width * height * 4) {
            Err(e) => Err(e),
            Ok(left) => match codec::get_data(
                channel_reader(data, left),
                data.len() as int,
                Some(bytes::zeros(width * height * 4)),
                compression,
                width,
                height,
                bits,
                0,
                large,
                4,
            ) {
                Err(e) => Err(e),
                Ok((decoded, _)) => Ok(
                    (
                        mask_with_pixels(
                            m,
                            gray_pixels(width, height, decoded->Some_0),
                            use_image_data,
                        ),
                        left,
                    ),
                ),
            },
        }
    }
}

fn sub_reader<'a>(data: &'a Vec<u8>, budget: Option<usize>) -> (reader: PsdReader<'a>)
    ensures
        reader@ == channel_reader(data@, budget),
{
    let mut reader: PsdReader<'a> = PsdReader::new(data.as_slice(), None, None);
    reader.budget = budget;
    assert(data@.subrange(0, data@.len() as int) =~= data@);
    reader
}

/// Decodes the pixels of a mask.
fn decode_mask(
    m: &mut LayerMaskData,
    kind: &str,
    data: &Vec<u8>,
    compression: Compression,
    bits: u32,
    large: bool,
    use_image_data: bool,
    budget: Option<usize>,
) -> (left: ReadResult<Option<usize>>)
    ensures
        match decoded_mask(
            old(m).deep_view(),
            kind@,
            data@,
            compression,
            bits,
            large,
            use_image_data,
            budget,
        ) {
            Ok((decoded, rest)) => left is Ok && left->Ok_0 == rest && final(m).deep_view()
                == decoded,
            Err(e) => left matches Err(err) && err@ == e,
        },
{
    let b: Bounds = Bounds {
        top: coordinate_of(m.top),
        left: coordinate_of(m.left),
        right: coordinate_of(m.right),
        bottom: coordinate_of(m.bottom),
    };
    mask::check_box(b, kind, large)?;
    let width: usize = (b.right as i64 - b.left as i64) as usize;
    let height: usize = (b.bottom as i64 - b.top as i64) as usize;
    if width == 0 || height == 0 {
        return Ok(budget);
    }
    let size: Option<usize> = pixels::bitmap_size(width, height, 4);
    let left: Option<usize> = budget::charge(budget, size)?;
    let mut target: DecodeTarget = DecodeTarget::rgba(width, height);
    let mut data_reader: PsdReader = sub_reader(data, left);
    codec::read_data(
        &mut data_reader,
        data.len(),
        Some(&mut target),
        compression,
        width,
        height,
        bits,
        0,
        large,
        4,
    )?;
    proof {
        codec::lemma_data_len(
            channel_reader(data@, left),
            data@.len() as int,
            bytes::zeros(width * height * 4),
            compression,
            width as int,
            height as int,
            bits,
            0,
            large,
            4,
        );
    }
    pixels::setup_grayscale(&mut target.data, width, height);
    pixels::reset_alpha(&mut target.data, 4);
    let decoded: PixelData = target.into_pixel_data();
    if use_image_data {
        m.image_data = Some(decoded);
    } else {
        m.canvas = Some(decoded);
    }
    Ok(left)
}

/// RGBA samples from CMYK samples with an opacity.
pub open spec fn rgb_of_cmyk(src: Seq<u8>, size: int, reverse_alpha: bool) -> Seq<u8> {
    Seq::new(
        size as nat,
        |i: int|
            {
                let s = 5 * (i / 4);
                if i % 4 == 3 {
                    if reverse_alpha {
                        (255 - src[s + 4]) as u8
                    } else {
                        src[s + 4]
                    }
                } else {
                    ((src[s + i % 4] * src[s + 3]) / 255) as u8
                }
            },
    )
}

fn ink(a: u8, k: u8) -> (v: u8)
    ensures
        v == ((a * k) / 255) as u8,
{
    assert(0 <= a * k <= 255 * 255) by (nonlinear_arith)
        requires
            0 <= a <= 255,
            0 <= k <= 255,
    ;
    ((a as u32 * k as u32) / 255) as u8
}

/// Turns CMYK samples into RGBA samples.
pub fn cmyk_to_rgb(cmyk: &DecodeTarget, reverse_alpha: bool) -> (rgb: Vec<u8>)
    requires
        cmyk.width * cmyk.height * 5 <= cmyk.data@.len(),
    ensures
        rgb@ == rgb_of_cmyk(cmyk.data@, cmyk.width * cmyk.height * 4, reverse_alpha),
{
    let len: usize = cmyk.data.len();
    assert(cmyk.width * cmyk.height * 1 <= cmyk.width * cmyk.height * 5) by (nonlinear_arith);
    let count: usize = pixels::bitmap_bytes(cmyk.width, cmyk.height, 1);
    let mut rgb: Vec<u8> = Vec::new();
    let ghost all = rgb_of_cmyk(cmyk.data@, cmyk.width * cmyk.height * 4, reverse_alpha);
    let mut i: usize = 0;
    while i < count
        invariant
            i <= count,
            count == cmyk.width * cmyk.height,
            count * 5 <= len,
            len == cmyk.data@.len(),
            all == rgb_of_cmyk(cmyk.data@, cmyk.width * cmyk.height * 4, reverse_alpha),
            rgb@ == all.take(4 * i),
        decreases count - i,
    {
        let s: usize = 5 * i;
        let k: u8 = cmyk.data[s + 3];
        let alpha: u8 = cmyk.data[s + 4];
        let ghost before = rgb@;
        rgb.push(ink(cmyk.data[s], k));
        rgb.push(ink(cmyk.data[s + 1], k));
        rgb.push(ink(cmyk.data[s + 2], k));
        rgb.push(
            if reverse_alpha {
                255 - alpha
            } else {
                alpha
            },
        );
        proof {
            assert((4 * i) / 4 == i && (4 * i + 1) / 4 == i && (4 * i + 2) / 4 == i && (4 * i + 3)
                / 4 == i);
            assert((4 * i) % 4 == 0 && (4 * i + 1) % 4 == 1 && (4 * i + 2) % 4 == 2 && (4 * i + 3)
                % 4 == 3);
            assert(rgb@ =~= all.take(4 * (i + 1)));
        }
        i += 1;
    }
    assert(rgb@ =~= all);
    rgb
}

/// What has been decoded of a layer so far.
#[verifier::ext_equal]
pub struct DecodeView {
    pub image: Option<Seq<u8>>,
    pub mask: Option<LayerMaskView>,
    pub real_mask: Option<LayerMaskView>,
    pub alpha: bool,
    pub budget: Option<usize>,
}

/// How many samples a pixel has while it is decoded.
pub open spec fn pixel_channels(mode: ColorMode) -> int {
    if mode == ColorMode::Cmyk {
        5
    } else {
        4
    }
}

/// What has been decoded of a layer after one more channel.
#[verifier::opaque]
pub open spec fn decode_step(
    s: DecodeView,
    raw: RawDataView,
    ch: RawChannelView,
    width: int,
    height: int,
    use_image_data: bool,
) -> Result<DecodeView, ErrorView> {
    let bits = raw.bits_per_channel as u32;
    match ch.data {
        None => Ok(s),
        Some(data) => if ch.id == ChannelId::UserMask {
            match s.mask {
                None => Err(ErrorView::StrictViolation("Missing layer mask data"@)),
                Some(m) => match decoded_mask(
                    m,
                    "mask"@,
                    data,
                    ch.compression,
                    bits,
                    raw.large,
                    use_image_data,
                    s.budget,
                ) {
                    Err(e) => Err(e),
                    Ok((m, budget)) => Ok(DecodeView { mask: Some(m), budget, ..s }),
                },
            }
        } else if ch.id == ChannelId::RealUserMask {
            match s.real_mask {
                None => Err(ErrorView::StrictViolation("Missing layer real mask data"@)),
                Some(m) => match decoded_mask(
                    m,
                    "real mask"@,
                    data,
                    ch.compression,
                    bits,
                    raw.large,
                    use_image_data,
                    s.budget,
                ) {
                    Err(e) => Err(e),
                    Ok((m, budget)) => Ok(DecodeView { real_mask: Some(m), budget, ..s }),
                },
            }
        } else {
            match codec::get_data(
                channel_reader(data, s.budget),
                data.len() as int,
                s.image,
                ch.compression,
                width,
                height,
                bits,
                helpers::channel_offset(ch.id, raw.color_mode == ColorMode::Cmyk),
                raw.large,
                pixel_channels(raw.color_mode),
            ) {
                Err(e) => Err(e),
                Ok((image, _)) => Ok(
                    DecodeView {
                        image: match image {
                            Some(d) if raw.color_mode == ColorMode::Grayscale => Some(
                                pixels::grayed(d, width * height * 4),
                            ),
                            _ => image,
                        },
                        alpha: s.alpha || ch.id == ChannelId::Transparency,
                        ..s
                    },
                ),
            }
        },
    }
}

/// What has been decoded of a layer after the first `n` channels.
pub open spec fn decode_steps(
    s: DecodeView,
    raw: RawDataView,
    n: int,
    width: int,
    height: int,
    use_image_data: bool,
) -> Result<DecodeView, ErrorView>
    decreases n,
{
    if n <= 0 {
        Ok(s)
    } else {
        match decode_steps(s, raw, n - 1, width, height, use_image_data) {
            Err(e) => Err(e),
            Ok(t) => decode_step(t, raw, raw.channels[n - 1], width, height, use_image_data),
        }
    }
}

/// The empty pixels that the channels of a layer are decoded into, and what is
/// left of the memory limit. A layer without area has none.
pub open spec fn decode_start(
    l: LayerView,
    raw: RawDataView,
    budget: Option<usize>,
) -> Result<DecodeView, ErrorView> {
    let b = layer_bounds(l);
    let width = mask::box_width(b);
    let height = mask::box_height(b);
    let start = DecodeView {
        image: None,
        mask: l.additional_info.mask,
        real_mask: l.additional_info.real_mask,
        alpha: false,
        budget,
    };
    if !mask::valid_box(b, raw.large) {
        Err(ErrorView::InvalidBoxSize { kind: "layer"@, width, height })
    } else if width == 0 || height == 0 {
        Ok(start)
    } else if raw.color_mode == ColorMode::Cmyk && raw.bits_per_channel != 8 {
        Err(ErrorView::StrictViolation("bitsPerChannel Not supproted"@))
    } else {
        let size = width * height * pixel_channels(raw.color_mode);
        match budget::charged(budget, size) {
            Err(e) => Err(e),
            Ok(left) => Ok(
                DecodeView { image: Some(bytes::zeros(size)), budget: left, ..start },
            ),
        }
    }
}

/// A layer with what has been decoded of it, and what is left of the memory limit.
pub open spec fn decode_end(
    l: LayerView,
    raw: RawDataView,
    s: DecodeView,
    width: int,
    height: int,
    use_image_data: bool,
) -> Result<(LayerView, Option<usize>), ErrorView> {
    let plain = LayerView {
        raw_data: None,
        additional_info: AdditionalInfoView {
            mask: s.mask,
            real_mask: s.real_mask,
            ..l.additional_info
        },
        ..l
    };
    match s.image {
        None => Ok((plain, s.budget)),
        Some(image) => {
            let filled = if s.alpha {
                image
            } else {
                pixels::opaque(image, pixel_channels(raw.color_mode))
            };
            let cmyk = raw.color_mode == ColorMode::Cmyk;
            match budget::charged(
                s.budget,
                if cmyk {
                    width * height * 4
                } else {
                    0
                },
            ) {
                Err(e) => Err(e),
                Ok(left) => {
                    let p = PixelDataView {
                        width: width as u32,
                        height: height as u32,
                        data: if cmyk {
                            rgb_of_cmyk(filled, width * height * 4, false)
                        } else {
                            filled
                        },
                    };
                    Ok(
                        (
                            if use_image_data {
                                LayerView { image_data: Some(p), ..plain }
                            } else {
                                LayerView { canvas: Some(p), ..plain }
                            },
                            left,
                        ),
                    )
                },
            }
        },
    }
}

/// A layer with its stored channels decoded, and what is left of the memory limit.
pub open spec fn decoded_layer(
    l: LayerView,
    use_image_data: bool,
    budget: Option<usize>,
) -> Result<(LayerView, Option<usize>), ErrorView> {
    match l.raw_data {
        None => Ok((l, budget)),
        Some(raw) => {
            let width = mask::box_width(layer_bounds(l));
            let height = mask::box_height(layer_bounds(l));
            match decode_start(l, raw, budget) {
                Err(e) => Err(e),
                Ok(start) => match decode_steps(
                    start,
                    raw,
                    raw.channels.len() as int,
                    width,
                    height,
                    use_image_data,
                ) {
                    Err(e) => Err(e),
                    Ok(s) => decode_end(l, raw, s, width, height, use_image_data),
                },
            }
        },
    }
}

proof fn lemma_decode_error(
    s: DecodeView,
    raw: RawDataView,
    n: int,
    m: int,
    width: int,
    height: int,
    use_image_data: bool,
)
    requires
        0 <= n <= m,
        decode_steps(s, raw, n, width, height, use_image_data) is Err,
    ensures
        decode_steps(s, raw, m, width, height, use_image_data) == decode_steps(
            s,
            raw,
            n,
            width,
            height,
            use_image_data,
        ),
    decreases m,
{
    if n < m {
        lemma_decode_error(s, raw, n, m - 1, width, height, use_image_data);
    }
}

/// The parts of a layer that decoding works on.
struct DecodeState {
    image: Option<DecodeTarget>,
    mask: Option<LayerMaskData>,
    real_mask: Option<LayerMaskData>,
    alpha: bool,
    budget: Option<usize>,
}

impl DecodeState {
    spec fn view(self) -> DecodeView {
        DecodeView {
            image: match self.image {
                Some(target) => Some(target.data@),
                None => None,
            },
            mask: self.mask.deep_view(),
            real_mask: self.real_mask.deep_view(),
            alpha: self.alpha,
            budget: self.budget,
        }
    }

    spec fn wf(self, width: usize, height: usize, channels: int) -> bool {
        self.image matches Some(target) ==> target.width == width && target.height == height
            && target.data@.len() == width * height * channels
    }
}

fn decode_channel(
    s: &mut DecodeState,
    raw: &LayerRawData,
    index: usize,
    width: usize,
    height: usize,
    use_image_data: bool,
) -> (result: ReadResult<()>)
    requires
        index < raw.channels@.len(),
        width <= 300000,
        old(s).wf(width, height, pixel_channels(raw.color_mode)),
    ensures
        match decode_step(
            old(s).view(),
            raw.deep_view(),
            raw.deep_view().channels[index as int],
            width as int,
            height as int,
            use_image_data,
        ) {
            Ok(t) => result is Ok && final(s).view() == t && final(s).wf(
                width,
                height,
                pixel_channels(raw.color_mode),
            ),
            Err(e) => result matches Err(err) && err@ == e,
        },
{
    reveal(decode_step);
    let cmyk: bool = matches!(raw.color_mode, ColorMode::Cmyk);
    let gray: bool = matches!(raw.color_mode, ColorMode::Grayscale);
    let bits: u32 = raw.bits_per_channel as u32;
    let id: ChannelId = raw.channels[index].id;
    let compression: Compression = raw.channels[index].compression;
    let data: &Vec<u8> = match &raw.channels[index].data {
        None => {
            return Ok(());
        },
        Some(data) => data,
    };
    match id {
        ChannelId::UserMask => {
            match &mut s.mask {
                None => {
                    return Err(
                        ReadError::StrictViolation(text::owned_text("Missing layer mask data")),
                    );
                },
                Some(m) => {
                    s.budget = decode_mask(
                        m,
                        "mask",
                        data,
                        compression,
                        bits,
                        raw.large,
                        use_image_data,
                        s.budget,
                    )?;
                },
            }
        },
        ChannelId::RealUserMask => {
            match &mut s.real_mask {
                None => {
                    return Err(
                        ReadError::StrictViolation(
                            text::owned_text("Missing layer real mask data"),
                        ),
                    );
                },
                Some(m) => {
                    s.budget = decode_mask(
                        m,
                        "real mask",
                        data,
                        compression,
                        bits,
                        raw.large,
                        use_image_data,
                        s.budget,
                    )?;
                },
            }
        },
        _ => {
            let offset: usize = helpers::offset_for_channel(id, cmyk) as usize;
            let step: usize = if cmyk {
                5
            } else {
                4
            };
            let mut data_reader: PsdReader = sub_reader(data, s.budget);
            match &mut s.image {
                None => {
                    codec::read_data(
                        &mut data_reader,
                        data.len(),
                        None,
                        compression,
                        width,
                        height,
                        bits,
                        offset,
                        raw.large,
                        step,
                    )?;
                    proof {
                        codec::lemma_data_none(
                            channel_reader(data@, s.budget),
                            data@.len() as int,
                            compression,
                            width as int,
                            height as int,
                            bits,
                            offset as int,
                            raw.large,
                            step as int,
                        );
                    }
                },
                Some(target) => {
                    let ghost before = target.data@;
                    codec::read_data(
                        &mut data_reader,
                        data.len(),
                        Some(&mut *target),
                        compression,
                        width,
                        height,
                        bits,
                        offset,
                        raw.large,
                        step,
                    )?;
                    proof {
                        codec::lemma_data_len(
                            channel_reader(data@, s.budget),
                            data@.len() as int,
                            before,
                            compression,
                            width as int,
                            height as int,
                            bits,
                            offset as int,
                            raw.large,
                            step as int,
                        );
                    }
                    if gray {
                        pixels::setup_grayscale(&mut target.data, width, height);
                    }
                },
            }
            if matches!(id, ChannelId::Transparency) {
                s.alpha = true;
            }
        },
    }
    Ok(())
}

fn start_decoding(l: &mut Layer, raw: &LayerRawData, budget: Option<usize>) -> (result: ReadResult<
    (DecodeState, usize, usize),
>)
    ensures
        match decode_start(old(l).deep_view(), raw.deep_view(), budget) {
            Ok(start) => result matches Ok((s, width, height)) && s.view() == start && width
                == mask::box_width(layer_bounds(old(l).deep_view())) && height == mask::box_height(
                layer_bounds(old(l).deep_view()),
            ) && width <= 300000 && height <= 300000 && s.wf(
                width,
                height,
                pixel_channels(raw.color_mode),
            ) && final(l).deep_view() == (LayerView {
                additional_info: AdditionalInfoView {
                    mask: None,
                    real_mask: None,
                    ..old(l).deep_view().additional_info
                },
                ..old(l).deep_view()
            }),
            Err(e) => result matches Err(err) && err@ == e,
        },
{
    let b: Bounds = Bounds {
        top: coordinate_of(l.top),
        left: coordinate_of(l.left),
        right: coordinate_of(l.right),
        bottom: coordinate_of(l.bottom),
    };
    let cmyk: bool = matches!(raw.color_mode, ColorMode::Cmyk);
    mask::check_box(b, "layer", raw.large)?;
    let width: usize = (b.right as i64 - b.left as i64) as usize;
    let height: usize = (b.bottom as i64 - b.top as i64) as usize;
    let mut image: Option<DecodeTarget> = None;
    let mut left: Option<usize> = budget;
    if width != 0 && height != 0 {
        if cmyk && raw.bits_per_channel != 8 {
            return Err(
                ReadError::StrictViolation(text::owned_text("bitsPerChannel Not supproted")),
            );
        }
        let channels: usize = if cmyk {
            5
        } else {
            4
        };
        let size: Option<usize> = pixels::bitmap_size(width, height, channels);
        left = budget::charge(budget, size)?;
        image = Some(DecodeTarget::wide(width, height, channels));
    }
    let mask: Option<LayerMaskData> = l.additional_info.mask.take();
    let real_mask: Option<LayerMaskData> = l.additional_info.real_mask.take();
    Ok((DecodeState { image, mask, real_mask, alpha: false, budget: left }, width, height))
}

fn finish_decoding(
    l: &mut Layer,
    s: DecodeState,
    mode: ColorMode,
    width: usize,
    height: usize,
    use_image_data: bool,
    Ghost(before): Ghost<LayerView>,
    Ghost(raw): Ghost<RawDataView>,
) -> (left: ReadResult<Option<usize>>)
    requires
        width <= 300000,
        height <= 300000,
        s.wf(width, height, pixel_channels(mode)),
        raw.color_mode == mode,
        old(l).deep_view() == (LayerView {
            raw_data: None,
            additional_info: AdditionalInfoView {
                mask: None,
                real_mask: None,
                ..before.additional_info
            },
            ..before
        }),
    ensures
        match decode_end(before, raw, s.view(), width as int, height as int, use_image_data) {
            Ok((decoded, rest)) => left is Ok && left->Ok_0 == rest && final(l).deep_view()
                == decoded,
            Err(e) => left matches Err(err) && err@ == e,
        },
{
    let cmyk: bool = matches!(mode, ColorMode::Cmyk);
    let ghost given = s.view();
    l.additional_info.mask = s.mask;
    l.additional_info.real_mask = s.real_mask;
    match s.image {
        None => Ok(s.budget),
        Some(target) => {
            let mut target: DecodeTarget = target;
            if !s.alpha {
                pixels::reset_alpha(
                    &mut target.data,
                    if cmyk {
                        5
                    } else {
                        4
                    },
                );
            }
            let size: Option<usize> = if cmyk {
                pixels::bitmap_size(width, height, 4)
            } else {
                Some(0)
            };
            let left: Option<usize> = budget::charge(s.budget, size)?;
            let decoded: PixelData = if cmyk {
                PixelData {
                    width: width as u32,
                    height: height as u32,
                    data: cmyk_to_rgb(&target, false),
                }
            } else {
                target.into_pixel_data()
            };
            if use_image_data {
                l.image_data = Some(decoded);
            } else {
                l.canvas = Some(decoded);
            }
            Ok(left)
        },
    }
}

/// Decodes the stored channels of a layer into pixels, and gives what is left of
/// the memory limit.
pub fn decode_layer_image_data(l: &mut Layer, use_image_data: bool, budget: Option<usize>) -> (left:
    ReadResult<Option<usize>>)
    ensures
        match decoded_layer(old(l).deep_view(), use_image_data, budget) {
            Ok((decoded, rest)) => left is Ok && left->Ok_0 == rest && final(l).deep_view()
                == decoded,
            Err(e) => left matches Err(err) && err@ == e,
        },
{
    let ghost before = l.deep_view();
    let raw: LayerRawData = match l.raw_data.take() {
        None => {
            assert(l.deep_view() == before);
            return Ok(budget);
        },
        Some(raw) => raw,
    };
    let (mut s, width, height): (DecodeState, usize, usize) = start_decoding(l, &raw, budget)?;
    let ghost start = s.view();
    let ghost view = raw.deep_view();
    let mut i: usize = 0;
    while i < raw.channels.len()
        invariant
            i <= raw.channels@.len(),
            view == raw.deep_view(),
            view.channels.len() == raw.channels@.len(),
            width <= 300000,
            height <= 300000,
            s.wf(width, height, pixel_channels(raw.color_mode)),
            decode_steps(start, view, i as int, width as int, height as int, use_image_data) == Ok::<
                DecodeView,
                ErrorView,
            >(s.view()),
            decoded_layer(before, use_image_data, budget) == (match decode_steps(
                start,
                view,
                view.channels.len() as int,
                width as int,
                height as int,
                use_image_data,
            ) {
                Err(e) => Err::<(LayerView, Option<usize>), ErrorView>(e),
                Ok(s) => decode_end(
                    before,
                    view,
                    s,
                    width as int,
                    height as int,
                    use_image_data,
                ),
            }),
            before == old(l).deep_view(),
        decreases raw.channels@.len() - i,
    {
        proof {
            if decode_steps(start, view, i + 1, width as int, height as int, use_image_data) is Err {
                lemma_decode_error(
                    start,
                    view,
                    i + 1,
                    view.channels.len() as int,
                    width as int,
                    height as int,
                    use_image_data,
                );
            }
        }
        decode_channel(&mut s, &raw, i, width, height, use_image_data)?;
        i += 1;
    }
    finish_decoding(
        l,
        s,
        raw.color_mode,
        width,
        height,
        use_image_data,
        Ghost(before),
        Ghost(view),
    )
}

} // verus!
