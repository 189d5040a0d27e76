//! Layers are read where they were written.

use vstd::prelude::*;

use crate::budget;
use crate::bytes;
use crate::channels;
use crate::channels::{ChannelDataView, LayerChannelView, PlannedChannel, Source};
use crate::decode;
use crate::decode::DecodeView;
use crate::error::ErrorView;
use crate::mask;
use crate::pixel_laws;
use crate::pixels;
use crate::psd::{
    AdditionalInfoView, ChannelId, ColorMode, Compression, LayerMaskView, LayerView,
    RawChannelView, RawDataView, WriteOptions,
};
use crate::record_laws;
use crate::records;
use crate::rle;
use crate::trim;
use crate::zlib;

verus! {

broadcast use crate::bytes::group_bytes;

/// A layer as it comes back, still without its pixels.
#[verifier::opaque]
pub open spec fn bare_layer(l: LayerView, options: WriteOptions, psb: bool) -> LayerView {
    records::layer_from(
        channels::written_part(l, options.trim_image_data == Some(true), psb).bounds,
        record_laws::blending_of(l),
        record_laws::stored_info(
            l.additional_info,
            channels::layer_mask_bounds(l, l.additional_info.mask, psb),
            channels::layer_mask_bounds(l, l.additional_info.real_mask, psb),
        ),
    )
}

/// The code of a planned channel as it comes back before it is decoded.
pub open spec fn raw_channel(planned: PlannedChannel, compress: bool, psb: bool) -> RawChannelView {
    let (compression, code) = match planned.source {
        Source::NoPixels => (Compression::RawData, Seq::empty()),
        Source::NoMask => (Compression::RleCompressed, Seq::empty()),
        Source::Stored(compression, code) => (
            compression,
            match code {
                Some(code) => code,
                None => Seq::empty(),
            },
        ),
        Source::Plane(p, channel) => if compress {
            (Compression::ZipWithoutPrediction, zlib::zlib_deflated(pixels::plane(p, channel)))
        } else if p.width == 0 || p.height == 0 {
            (Compression::RleCompressed, Seq::empty())
        } else {
            (Compression::RleCompressed, rle::rle_bytes(p, seq![channel as usize], psb))
        },
    };
    RawChannelView {
        id: planned.id,
        compression,
        data: if code.len() == 0 {
            None
        } else {
            Some(code)
        },
    }
}

/// A layer as it comes back with its channels as they are stored.
pub open spec fn raw_layer(
    l: LayerView,
    background: bool,
    options: WriteOptions,
    psb: bool,
) -> LayerView {
    let plan = channels::channel_plan(l, background, options, psb);
    LayerView {
        raw_data: Some(
            RawDataView {
                color_mode: ColorMode::Rgb,
                bits_per_channel: 8,
                channels: Seq::new(
                    plan.len(),
                    |i: int| raw_channel(plan[i], options.compress == Some(true), psb),
                ),
                large: psb,
            },
        ),
        ..bare_layer(l, options, psb)
    }
}

/// The coded channels of a layer come back as they are stored.
pub proof fn lemma_raw_layer(
    d: LayerChannelView,
    l: LayerView,
    background: bool,
    options: WriteOptions,
    psb: bool,
)
    requires
        channels::codes_layer(d, l, background, options, psb),
    ensures
        raw_layer(l, background, options, psb) == (LayerView {
            raw_data: Some(
                RawDataView {
                    color_mode: ColorMode::Rgb,
                    bits_per_channel: 8,
                    channels: pixel_laws::stored_raws(d.channels),
                    large: psb,
                },
            ),
            ..bare_layer(l, options, psb)
        }),
{
    let plan = channels::channel_plan(l, background, options, psb);
    let compress = options.compress == Some(true);
    assert forall|i: int| 0 <= i < plan.len() implies raw_channel(plan[i], compress, psb)
        == pixel_laws::stored_raw(#[trigger] d.channels[i]) by {
        assert(channels::codes(d.channels[i], plan[i], compress, psb));
    }
    assert(Seq::new(plan.len(), |i: int| raw_channel(plan[i], compress, psb))
        =~= pixel_laws::stored_raws(d.channels));
}

/// A mask with its pixels as they come back.
pub open spec fn mask_filled(
    stored: Option<LayerMaskView>,
    m: Option<LayerMaskView>,
    use_image_data: bool,
) -> Option<LayerMaskView> {
    match m {
        None => stored,
        Some(m) => match stored {
            None => None,
            Some(s) => Some(pixel_laws::with_gray_pixels(s, m, use_image_data)),
        },
    }
}

/// A layer as it comes back: its name in ASCII, every setting said, its pixels
/// without the transparent border where that was to be cut off, and the pixels of
/// its masks gray.
pub open spec fn stored_layer(
    l: LayerView,
    options: WriteOptions,
    use_image_data: bool,
    psb: bool,
) -> LayerView {
    let bare = bare_layer(l, options, psb);
    let image = match channels::written_part(l, options.trim_image_data == Some(true), psb).image {
        Some(p) => Some(pixel_laws::without_rest(p)),
        None => None,
    };
    LayerView {
        image_data: if use_image_data {
            image
        } else {
            None
        },
        canvas: if use_image_data {
            None
        } else {
            image
        },
        additional_info: AdditionalInfoView {
            mask: mask_filled(
                bare.additional_info.mask,
                l.additional_info.mask,
                use_image_data,
            ),
            real_mask: mask_filled(
                bare.additional_info.real_mask,
                l.additional_info.real_mask,
                use_image_data,
            ),
            ..bare.additional_info
        },
        ..bare
    }
}

/// All pixels of a layer fit in memory.
pub open spec fn layer_in_memory(l: LayerView) -> bool {
    &&& pixel_laws::image_in_memory(channels::layer_image(l))
    &&& l.additional_info.mask matches Some(m) ==> pixel_laws::image_in_memory(
        channels::mask_image(m),
    )
    &&& l.additional_info.real_mask matches Some(m) ==> pixel_laws::image_in_memory(
        channels::mask_image(m),
    )
}

/// What is written of the pixels of a layer has the size of its rectangle.
proof fn lemma_part(l: LayerView, trim: bool, psb: bool)
    requires
        channels::layer_fits(l),
        channels::written_raw(l, psb) is None,
        pixel_laws::image_in_memory(channels::layer_image(l)),
    ensures
        ({
            let part = channels::written_part(l, trim, psb);
            match part.image {
                Some(p) => p.wf() && p.width > 0 && p.height > 0 && p.size() <= usize::MAX
                    && mask::box_width(part.bounds) == p.width && mask::box_height(part.bounds)
                    == p.height,
                None => mask::box_width(part.bounds) == 0 || mask::box_height(part.bounds) == 0,
            }
        }),
{
    match channels::layer_image(l) {
        None => {},
        Some(p) => {
            if p.width > 0 && p.height > 0 {
                trim::lemma_trim_order(p);
                let t = trim::trimmed(p);
                let w = t.right - t.left;
                let h = t.bottom - t.top;
                assert(0 <= w * h * 4 <= p.width * p.height * 4) by (nonlinear_arith)
                    requires
                        0 <= w <= p.width,
                        0 <= h <= p.height,
                ;
            }
        },
    }
}

/// How many channels come before those of the masks.
spec fn pixel_count(l: LayerView, background: bool, options: WriteOptions, psb: bool) -> int {
    channels::layer_plan(l, background, options, psb).len() as int
}

proof fn lemma_start(
    l: LayerView,
    bare: LayerView,
    raw: RawDataView,
    options: WriteOptions,
    psb: bool,
    budget: Option<usize>,
)
    requires
        channels::layer_fits(l),
        channels::written_raw(l, psb) is None,
        layer_in_memory(l),
        bare == bare_layer(l, options, psb),
        raw.color_mode == ColorMode::Rgb,
        raw.bits_per_channel == 8,
        raw.large == psb,
        mask::valid_box(
            channels::written_part(l, options.trim_image_data == Some(true), psb).bounds,
            psb,
        ),
    ensures
        pixel_laws::decodes_to(
            decode::decode_start(LayerView { raw_data: Some(raw), ..bare }, raw, budget),
            DecodeView {
                image: match channels::written_part(
                    l,
                    options.trim_image_data == Some(true),
                    psb,
                ).image {
                    Some(p) => Some(bytes::zeros(p.size())),
                    None => None,
                },
                mask: bare.additional_info.mask,
                real_mask: bare.additional_info.real_mask,
                alpha: false,
                budget,
            },
            budget,
        ),
{
    reveal(bare_layer);
    lemma_part(l, options.trim_image_data == Some(true), psb);
    let part = channels::written_part(l, options.trim_image_data == Some(true), psb);
    assert(decode::layer_bounds(bare) == part.bounds);
    match part.image {
        None => {},
        Some(p) => {
            assert(p.size() == mask::box_width(part.bounds) * mask::box_height(part.bounds) * 4);
            assert(0 <= p.size()) by (nonlinear_arith)
                requires
                    p.size() == p.width * p.height * 4,
            ;
        },
    }
}

/// What has been decoded of a layer once its own channels are.
spec fn pixels_decoded(
    start: DecodeView,
    l: LayerView,
    background: bool,
    options: WriteOptions,
    psb: bool,
) -> DecodeView {
    match channels::written_part(l, options.trim_image_data == Some(true), psb).image {
        None => start,
        Some(p) => {
            let t = channels::wants_transparency(l, p, background, options);
            let offsets = pixel_laws::color_offsets(t);
            DecodeView {
                image: Some(
                    rle::with_planes(
                        bytes::zeros(p.size()),
                        p,
                        offsets,
                        offsets.len() as int,
                        4,
                    ),
                ),
                alpha: t,
                ..start
            }
        },
    }
}

proof fn lemma_pixels_decode(
    start: DecodeView,
    cs: Seq<ChannelDataView>,
    l: LayerView,
    background: bool,
    options: WriteOptions,
    psb: bool,
    use_image_data: bool,
)
    requires
        channels::layer_fits(l),
        channels::written_raw(l, psb) is None,
        layer_in_memory(l),
        channels::codes_all(
            cs,
            channels::channel_plan(l, background, options, psb),
            options.compress == Some(true),
            psb,
        ),
        pixel_laws::codes_in_memory(cs),
        mask::valid_box(
            channels::written_part(l, options.trim_image_data == Some(true), psb).bounds,
            psb,
        ),
        !start.alpha,
        start.image == (match channels::written_part(
            l,
            options.trim_image_data == Some(true),
            psb,
        ).image {
            Some(p) => Some(bytes::zeros(p.size())),
            None => None,
        }),
    ensures
        ({
            let part = channels::written_part(l, options.trim_image_data == Some(true), psb);
            pixel_laws::decodes_to(
                decode::decode_steps(
                    start,
                    pixel_laws::stored_pixels_of(cs, psb),
                    pixel_count(l, background, options, psb),
                    mask::box_width(part.bounds),
                    mask::box_height(part.bounds),
                    use_image_data,
                ),
                pixels_decoded(start, l, background, options, psb),
                start.budget,
            )
        }),
{
    let trim = options.trim_image_data == Some(true);
    let compress = options.compress == Some(true);
    let plan = channels::channel_plan(l, background, options, psb);
    let own = channels::layer_plan(l, background, options, psb);
    let part = channels::written_part(l, trim, psb);
    lemma_part(l, trim, psb);
    assert(plan.take(own.len() as int) =~= own);
    match part.image {
        None => {
            pixel_laws::lemma_empty_decode(
                start,
                cs,
                plan,
                4,
                compress,
                psb,
                mask::box_width(part.bounds),
                mask::box_height(part.bounds),
                use_image_data,
            );
        },
        Some(p) => {
            let t = channels::wants_transparency(l, p, background, options);
            let offsets = pixel_laws::color_offsets(t);
            assert(own.len() == offsets.len());
            pixel_laws::lemma_colors_decode(
                start,
                cs,
                plan,
                p,
                t,
                offsets.len() as int,
                compress,
                psb,
                use_image_data,
            );
        },
    }
}

/// The masks have been decoded too.
spec fn masks_decoded(s: DecodeView, l: LayerView, use_image_data: bool) -> DecodeView {
    DecodeView {
        mask: mask_filled(s.mask, l.additional_info.mask, use_image_data),
        real_mask: mask_filled(s.real_mask, l.additional_info.real_mask, use_image_data),
        ..s
    }
}

/// The masks of a layer as they come back have the rectangles that were written.
spec fn masks_stored(s: DecodeView, l: LayerView, psb: bool) -> bool {
    &&& l.additional_info.mask matches Some(m) ==> {
        &&& s.mask is Some
        &&& decode::mask_bounds(s.mask->Some_0) == channels::written_mask_bounds(m)
        &&& mask::valid_box(channels::written_mask_bounds(m), psb)
    }
    &&& l.additional_info.real_mask matches Some(m) ==> {
        &&& s.real_mask is Some
        &&& decode::mask_bounds(s.real_mask->Some_0) == channels::written_mask_bounds(m)
        &&& mask::valid_box(channels::written_mask_bounds(m), psb)
    }
}

proof fn lemma_masks_decode(
    start: DecodeView,
    before: DecodeView,
    cs: Seq<ChannelDataView>,
    l: LayerView,
    background: bool,
    options: WriteOptions,
    psb: bool,
    width: int,
    height: int,
    use_image_data: bool,
)
    requires
        channels::layer_fits(l),
        channels::written_raw(l, psb) is None,
        layer_in_memory(l),
        channels::codes_all(
            cs,
            channels::channel_plan(l, background, options, psb),
            options.compress == Some(true),
            psb,
        ),
        pixel_laws::codes_in_memory(cs),
        masks_stored(before, l, psb),
        pixel_laws::decodes_to(
            decode::decode_steps(
                start,
                pixel_laws::stored_pixels_of(cs, psb),
                pixel_count(l, background, options, psb),
                width,
                height,
                use_image_data,
            ),
            before,
            start.budget,
        ),
    ensures
        pixel_laws::decodes_to(
            decode::decode_steps(
                start,
                pixel_laws::stored_pixels_of(cs, psb),
                cs.len() as int,
                width,
                height,
                use_image_data,
            ),
            masks_decoded(before, l, use_image_data),
            start.budget,
        ),
{
    let raw = pixel_laws::stored_pixels_of(cs, psb);
    let compress = options.compress == Some(true);
    let plan = channels::channel_plan(l, background, options, psb);
    let n0 = pixel_count(l, background, options, psb);
    let mask = l.additional_info.mask;
    let real_mask = l.additional_info.real_mask;
    let n1 = if mask is Some {
        n0 + 1
    } else {
        n0
    };
    let middle = DecodeView { mask: mask_filled(before.mask, mask, use_image_data), ..before };
    if mask is Some {
        let m = mask->Some_0;
        let c = cs[n0];
        assert(plan[n0] == channels::mask_plan(Some(m), ChannelId::UserMask)[0]);
        assert(channels::codes(c, plan[n0], compress, psb));
        assert(raw.channels[n0] == pixel_laws::stored_raw(c));
        match decode::decode_steps(start, raw, n0, width, height, use_image_data) {
            Err(_) => {},
            Ok(t) => {
                pixel_laws::lemma_mask_step(
                    t,
                    raw,
                    m,
                    c,
                    compress,
                    psb,
                    width,
                    height,
                    use_image_data,
                );
            },
        }
    }
    assert(pixel_laws::decodes_to(
        decode::decode_steps(start, raw, n1, width, height, use_image_data),
        middle,
        start.budget,
    ));
    if real_mask is Some {
        let m = real_mask->Some_0;
        let c = cs[n1];
        assert(plan[n1] == channels::mask_plan(Some(m), ChannelId::RealUserMask)[0]);
        assert(channels::codes(c, plan[n1], compress, psb));
        assert(raw.channels[n1] == pixel_laws::stored_raw(c));
        match decode::decode_steps(start, raw, n1, width, height, use_image_data) {
            Err(_) => {},
            Ok(t) => {
                pixel_laws::lemma_real_mask_step(
                    t,
                    raw,
                    m,
                    c,
                    compress,
                    psb,
                    width,
                    height,
                    use_image_data,
                );
            },
        }
    }
}

/// The stored channels of a layer decode to its pixels and those of its masks,
/// unless the memory limit is exceeded. A layer that is written from the channels
/// that it was read with has no pixels to compare with.
pub proof fn law_layer_pixels_round_trip(
    d: LayerChannelView,
    l: LayerView,
    background: bool,
    options: WriteOptions,
    psb: bool,
    use_image_data: bool,
    budget: Option<usize>,
)
    requires
        l.children is None,
        channels::layer_fits(l),
        channels::written_raw(l, psb) is None,
        layer_in_memory(l),
        channels::codes_layer(d, l, background, options, psb),
        pixel_laws::codes_in_memory(d.channels),
        record_laws::record_distinct(d, psb),
    ensures
        match decode::decoded_layer(
            LayerView {
                raw_data: Some(pixel_laws::stored_pixels_of(d.channels, psb)),
                ..record_laws::stored_record(d)
            },
            use_image_data,
            budget,
        ) {
            Err(e) => pixel_laws::over_limit(e, budget),
            Ok((found, left)) => found == stored_layer(l, options, use_image_data, psb) && (
            budget is None ==> left is None),
        },
{
    reveal(bare_layer);
    let trim = options.trim_image_data == Some(true);
    let part = channels::written_part(l, trim, psb);
    let width = mask::box_width(part.bounds);
    let height = mask::box_height(part.bounds);
    let raw = pixel_laws::stored_pixels_of(d.channels, psb);
    let bare = bare_layer(l, options, psb);
    assert(d.layer == l);
    assert(record_laws::stored_record(d) == bare);
    let full = LayerView { raw_data: Some(raw), ..bare };
    lemma_part(l, trim, psb);
    lemma_start(l, bare, raw, options, psb, budget);
    match decode::decode_start(full, raw, budget) {
        Err(_) => {},
        Ok(start) => {
            lemma_pixels_decode(
                start,
                d.channels,
                l,
                background,
                options,
                psb,
                use_image_data,
            );
            let before = pixels_decoded(start, l, background, options, psb);
            lemma_masks_decode(
                start,
                before,
                d.channels,
                l,
                background,
                options,
                psb,
                width,
                height,
                use_image_data,
            );
            match decode::decode_steps(
                start,
                raw,
                d.channels.len() as int,
                width,
                height,
                use_image_data,
            ) {
                Err(_) => {},
                Ok(s) => {
                    lemma_end(full, raw, s, l, background, options, width, height, use_image_data, psb);
                },
            }
        },
    }
}

proof fn lemma_end(
    full: LayerView,
    raw: RawDataView,
    s: DecodeView,
    l: LayerView,
    background: bool,
    options: WriteOptions,
    width: int,
    height: int,
    use_image_data: bool,
    psb: bool,
)
    requires
        channels::layer_fits(l),
        channels::written_raw(l, psb) is None,
        pixel_laws::image_in_memory(channels::layer_image(l)),
        full == (LayerView { raw_data: Some(raw), ..bare_layer(l, options, psb) }),
        raw.color_mode == ColorMode::Rgb,
        ({
            let part = channels::written_part(l, options.trim_image_data == Some(true), psb);
            &&& width == mask::box_width(part.bounds)
            &&& height == mask::box_height(part.bounds)
        }),
        ({
            let start = DecodeView {
                image: s.image,
                mask: bare_layer(l, options, psb).additional_info.mask,
                real_mask: bare_layer(l, options, psb).additional_info.real_mask,
                alpha: false,
                budget: s.budget,
            };
            s == masks_decoded(pixels_decoded(start, l, background, options, psb), l, use_image_data)
        }),
        channels::written_part(l, options.trim_image_data == Some(true), psb).image is None
            ==> s.image is None,
    ensures
        decode::decode_end(full, raw, s, width, height, use_image_data) == Ok::<
            (LayerView, Option<usize>),
            ErrorView,
        >((stored_layer(l, options, use_image_data, psb), s.budget)),
{
    reveal(bare_layer);
    let trim = options.trim_image_data == Some(true);
    let part = channels::written_part(l, trim, psb);
    lemma_part(l, trim, psb);
    match part.image {
        None => {},
        Some(p) => {
            let t = channels::wants_transparency(l, p, background, options);
            pixel_laws::lemma_colors_assembled(p, t);
            assert(budget::charged(s.budget, 0) == Ok::<Option<usize>, ErrorView>(s.budget));
        },
    }
}

} // verus!
