//! What the stored channels of a layer and of its masks come to: which sample of which
//! channel is in which place of which pixel.

use vstd::prelude::*;

use crate::budget;
use crate::bytes;
use crate::channel_laws;
use crate::codec;
use crate::decode;
use crate::decode::DecodeView;
use crate::error::ErrorView;
use crate::helpers;
use crate::mask;
use crate::pixels;
use crate::psd::{
    AdditionalInfoView, ChannelId, ColorMode, Compression, LayerMaskView, LayerView, PixelDataView,
    RawChannelView, RawDataView,
};
use crate::sample_laws;

verus! {

broadcast use crate::bytes::group_bytes;

/// No side of a rectangle is turned around or too long.
pub open spec fn sides_fit(width: int, height: int, large: bool) -> bool {
    let most: int = if large {
        300000
    } else {
        30000
    };
    0 <= width <= most && 0 <= height <= most
}

/// Pixels of a mask: each is gray with its sample and opaque.
pub open spec fn gray_image(p: PixelDataView, width: int, height: int, plane: Seq<u8>) -> bool {
    &&& p.width == width
    &&& p.height == height
    &&& p.data.len() == 4 * (width * height)
    &&& forall|k: int|
        0 <= k < width * height ==> p.data[4 * k] == #[trigger] plane[k] && p.data[4 * k + 1]
            == plane[k] && p.data[4 * k + 2] == plane[k] && p.data[4 * k + 3] == 255
}

/// A mask has been given its pixels, as image data or as a canvas; nothing else of it has
/// changed.
pub open spec fn mask_painted(
    m: LayerMaskView,
    found: LayerMaskView,
    use_image_data: bool,
    width: int,
    height: int,
    plane: Seq<u8>,
) -> bool {
    &&& found == (LayerMaskView { image_data: found.image_data, canvas: found.canvas, ..m })
    &&& if use_image_data {
        found.canvas == m.canvas && (found.image_data matches Some(p) && gray_image(
            p,
            width,
            height,
            plane,
        ))
    } else {
        found.image_data == m.image_data && (found.canvas matches Some(p) && gray_image(
            p,
            width,
            height,
            plane,
        ))
    }
}

/// What is left of a memory limit once so many bytes are taken.
pub open spec fn less(budget: Option<usize>, size: int) -> Option<usize> {
    match budget {
        None => None,
        Some(n) => Some((n - size) as usize),
    }
}

/// The rectangle of a mask.
pub open spec fn mask_sides(m: LayerMaskView, width: int, height: int) -> bool {
    m.left matches Some(left) && m.top matches Some(top) && m.right matches Some(right)
        && m.bottom matches Some(bottom) && right - left == width && bottom - top == height
}

/// The pixels of a mask are the samples of its channel, one by one, with the depth of the
/// document: gray with the value of the sample as a byte, and opaque. Only memory can be
/// missing.
#[verifier::rlimit(40)]
pub proof fn law_mask_decoded(
    m: LayerMaskView,
    kind: Seq<char>,
    code: Seq<u8>,
    compression: Compression,
    data: Seq<u8>,
    depth: u32,
    width: int,
    height: int,
    large: bool,
    use_image_data: bool,
    limit: Option<usize>,
)
    requires
        depth == 8 || depth == 16 || depth == 32,
        0 < width,
        0 < height,
        sides_fit(width, height, large),
        mask_sides(m, width, height),
        channel_laws::stores(code, compression, data, depth, width, height, large),
    ensures
        match decode::decoded_mask(
            m,
            kind,
            code,
            compression,
            depth,
            large,
            use_image_data,
            limit,
        ) {
            Ok((found, left)) => mask_painted(
                m,
                found,
                use_image_data,
                width,
                height,
                sample_laws::sample_plane(data, depth, width * height),
            ) && left == less(limit, 4 * (width * height)),
            Err(e) => e is ExceededMemoryLimit && budget::available(limit) < 4 * (width * height)
                + 4 * height + sample_laws::sample_size(depth) * (width * height),
        },
{
    let size = width * height * 4;
    let plane = sample_laws::sample_plane(data, depth, width * height);
    assert(0 < width * height) by (nonlinear_arith)
        requires
            0 < width,
            0 < height,
    ;
    assert(0 <= sample_laws::sample_size(depth) * (width * height)) by (nonlinear_arith)
        requires
            0 < width * height,
            0 < sample_laws::sample_size(depth),
    ;
    match budget::charged(limit, size) {
        Err(_) => {},
        Ok(left) => {
            let r = decode::channel_reader(code, left);
            let zeros = bytes::zeros(size);
            channel_laws::law_channel_decoded(
                r,
                code,
                compression,
                data,
                depth,
                width,
                height,
                large,
                zeros,
                0,
                4,
            );
            match codec::get_data(
                r,
                code.len() as int,
                Some(zeros),
                compression,
                width,
                height,
                depth,
                0,
                large,
                4,
            ) {
                Err(_) => {},
                Ok((found, _)) => {
                    lemma_gray(width, height, zeros, found->Some_0, plane);
                },
            }
        },
    }
}

proof fn lemma_gray(width: int, height: int, zeros: Seq<u8>, d: Seq<u8>, plane: Seq<u8>)
    requires
        0 < width <= u32::MAX,
        0 < height <= u32::MAX,
        zeros.len() == 4 * (width * height),
        plane.len() == width * height,
        sample_laws::filled(zeros, d, 0, 4, plane),
    ensures
        gray_image(decode::gray_pixels(width, height, d), width, height, plane),
{
    let p = decode::gray_pixels(width, height, d);
    assert forall|k: int| 0 <= k < width * height implies p.data[4 * k] == #[trigger] plane[k]
        && p.data[4 * k + 1] == plane[k] && p.data[4 * k + 2] == plane[k] && p.data[4 * k + 3]
        == 255 by {
        assert(d[0 + 4 * k] == plane[k]);
    }
}

/// The place of a channel in a pixel; a mask has none.
pub open spec fn place(id: ChannelId) -> Option<int> {
    match id {
        ChannelId::Color0 => Some(0),
        ChannelId::Color1 => Some(1),
        ChannelId::Color2 => Some(2),
        ChannelId::Transparency => Some(3),
        _ => None,
    }
}

/// What a stored channel of a layer holds: samples for each of its pixels, or for each
/// pixel of one of its masks.
pub open spec fn channel_fits(
    l: LayerView,
    raw: RawDataView,
    i: int,
    data: Seq<Seq<u8>>,
    width: int,
    height: int,
) -> bool {
    let c = raw.channels[i];
    let depth = raw.bits_per_channel as u32;
    &&& c.data is Some
    &&& match c.id {
        ChannelId::UserMask => l.additional_info.mask is Some && {
            let m = l.additional_info.mask->Some_0;
            let (w, h) = (sides_of(m).0, sides_of(m).1);
            &&& mask_sides(m, w, h)
            &&& 0 < w
            &&& 0 < h
            &&& sides_fit(w, h, raw.large)
            &&& channel_laws::stores(
                c.data->Some_0,
                c.compression,
                data[i],
                depth,
                w,
                h,
                raw.large,
            )
        },
        ChannelId::RealUserMask => l.additional_info.real_mask is Some && {
            let m = l.additional_info.real_mask->Some_0;
            let (w, h) = (sides_of(m).0, sides_of(m).1);
            &&& mask_sides(m, w, h)
            &&& 0 < w
            &&& 0 < h
            &&& sides_fit(w, h, raw.large)
            &&& channel_laws::stores(
                c.data->Some_0,
                c.compression,
                data[i],
                depth,
                w,
                h,
                raw.large,
            )
        },
        _ => place(c.id) is Some && channel_laws::stores(
            c.data->Some_0,
            c.compression,
            data[i],
            depth,
            width,
            height,
            raw.large,
        ),
    }
}

/// How wide and how high a mask is.
pub open spec fn sides_of(m: LayerMaskView) -> (int, int) {
    (m.right->Some_0 - m.left->Some_0, m.bottom->Some_0 - m.top->Some_0)
}

/// Every channel has a number of its own.
pub open spec fn ids_distinct(channels: Seq<RawChannelView>) -> bool {
    forall|a: int, b: int|
        0 <= a < b < channels.len() ==> (#[trigger] channels[a]).id != (#[trigger] channels[b]).id
}

/// The first `n` channels have been put in their places; nothing else is there.
pub open spec fn painted(
    d: Seq<u8>,
    raw: RawDataView,
    data: Seq<Seq<u8>>,
    n: int,
    count: int,
) -> bool {
    let depth = raw.bits_per_channel as u32;
    &&& d.len() == 4 * count
    &&& forall|i: int, k: int|
        #![trigger data[i], sample_laws::sample_byte(data[i], depth, k)]
        0 <= i < n && place(raw.channels[i].id) is Some && 0 <= k < count ==> d[4 * k + place(
            raw.channels[i].id,
        )->Some_0] == sample_laws::sample_byte(data[i], depth, k)
    &&& forall|j: int|
        0 <= j < d.len() && (forall|i: int|
            0 <= i < n ==> place((#[trigger] raw.channels[i]).id) != Some(j % 4)) && (
        raw.color_mode == ColorMode::Grayscale ==> j % 4 == 3) ==> #[trigger] d[j] == 0
    &&& raw.color_mode == ColorMode::Grayscale ==> forall|k: int|
        0 <= k < count ==> #[trigger] d[4 * k] == d[4 * k + 1] && d[4 * k] == d[4 * k + 2]
}

/// The masks of a layer have been given the pixels of the first `n` channels.
pub open spec fn masks_painted(
    l: LayerView,
    mask: Option<LayerMaskView>,
    real_mask: Option<LayerMaskView>,
    raw: RawDataView,
    data: Seq<Seq<u8>>,
    n: int,
    use_image_data: bool,
) -> bool {
    let depth = raw.bits_per_channel as u32;
    &&& forall|i: int|
        0 <= i < n && (#[trigger] raw.channels[i]).id == ChannelId::UserMask ==> {
            let m = l.additional_info.mask->Some_0;
            let (w, h) = (sides_of(m).0, sides_of(m).1);
            mask matches Some(found) && mask_painted(
                m,
                found,
                use_image_data,
                w,
                h,
                sample_laws::sample_plane(data[i], depth, w * h),
            )
        }
    &&& forall|i: int|
        0 <= i < n && (#[trigger] raw.channels[i]).id == ChannelId::RealUserMask ==> {
            let m = l.additional_info.real_mask->Some_0;
            let (w, h) = (sides_of(m).0, sides_of(m).1);
            real_mask matches Some(found) && mask_painted(
                m,
                found,
                use_image_data,
                w,
                h,
                sample_laws::sample_plane(data[i], depth, w * h),
            )
        }
    &&& (forall|i: int|
        0 <= i < n ==> (#[trigger] raw.channels[i]).id != ChannelId::UserMask) ==> mask
        == l.additional_info.mask
    &&& (forall|i: int|
        0 <= i < n ==> (#[trigger] raw.channels[i]).id != ChannelId::RealUserMask) ==> real_mask
        == l.additional_info.real_mask
}

/// One of the first `n` channels is the transparency.
pub open spec fn has_transparency(raw: RawDataView, n: int) -> bool {
    exists|i: int| 0 <= i < n && (#[trigger] raw.channels[i]).id == ChannelId::Transparency
}

/// What is known of a layer whose channels are decoded.
pub open spec fn decodable(
    l: LayerView,
    raw: RawDataView,
    data: Seq<Seq<u8>>,
    width: int,
    height: int,
) -> bool {
    &&& l.raw_data == Some(raw)
    &&& raw.color_mode == ColorMode::Rgb || raw.color_mode == ColorMode::Grayscale
    &&& raw.bits_per_channel == 8 || raw.bits_per_channel == 16 || raw.bits_per_channel == 32
    &&& l.left matches Some(left) && l.right matches Some(right) && right - left == width
    &&& l.top matches Some(top) && l.bottom matches Some(bottom) && bottom - top == height
    &&& 0 < width
    &&& 0 < height
    &&& sides_fit(width, height, raw.large)
    &&& data.len() == raw.channels.len()
    &&& ids_distinct(raw.channels)
    &&& forall|i: int|
        #![trigger raw.channels[i]]
        0 <= i < raw.channels.len() ==> channel_fits(l, raw, i, data, width, height)
    &&& raw.color_mode == ColorMode::Grayscale ==> forall|i: int|
        0 <= i < raw.channels.len() ==> (#[trigger] raw.channels[i]).id != ChannelId::Color1
            && raw.channels[i].id != ChannelId::Color2
}

/// What is painted after one more channel.
spec fn step_done(
    l: LayerView,
    raw: RawDataView,
    data: Seq<Seq<u8>>,
    width: int,
    height: int,
    use_image_data: bool,
    s: DecodeView,
    n: int,
) -> bool {
    match decode::decode_step(s, raw, raw.channels[n], width, height, use_image_data) {
        Ok(t) => {
            &&& t.image matches Some(d) && painted(d, raw, data, n + 1, width * height)
            &&& masks_painted(l, t.mask, t.real_mask, raw, data, n + 1, use_image_data)
            &&& t.alpha == has_transparency(raw, n + 1)
        },
        Err(e) => e is ExceededMemoryLimit,
    }
}

#[verifier::rlimit(40)]
proof fn lemma_mask_step(
    l: LayerView,
    raw: RawDataView,
    data: Seq<Seq<u8>>,
    width: int,
    height: int,
    use_image_data: bool,
    s: DecodeView,
    n: int,
)
    requires
        decodable(l, raw, data, width, height),
        0 <= n < raw.channels.len(),
        s.image matches Some(d) && painted(d, raw, data, n, width * height),
        masks_painted(l, s.mask, s.real_mask, raw, data, n, use_image_data),
        s.alpha == has_transparency(raw, n),
        raw.channels[n].id == ChannelId::UserMask,
    ensures
        step_done(l, raw, data, width, height, use_image_data, s, n),
{
    reveal(decode::decode_step);
    let c = raw.channels[n];
    let code = c.data->Some_0;
    let depth = raw.bits_per_channel as u32;
    assert(channel_fits(l, raw, n, data, width, height));
    let m = l.additional_info.mask->Some_0;
    assert(s.mask == l.additional_info.mask);
    law_mask_decoded(
        m,
        "mask"@,
        code,
        c.compression,
        data[n],
        depth,
        sides_of(m).0,
        sides_of(m).1,
        raw.large,
        use_image_data,
        s.budget,
    );
    lemma_alpha(raw, n);
}

#[verifier::rlimit(40)]
proof fn lemma_real_mask_step(
    l: LayerView,
    raw: RawDataView,
    data: Seq<Seq<u8>>,
    width: int,
    height: int,
    use_image_data: bool,
    s: DecodeView,
    n: int,
)
    requires
        decodable(l, raw, data, width, height),
        0 <= n < raw.channels.len(),
        s.image matches Some(d) && painted(d, raw, data, n, width * height),
        masks_painted(l, s.mask, s.real_mask, raw, data, n, use_image_data),
        s.alpha == has_transparency(raw, n),
        raw.channels[n].id == ChannelId::RealUserMask,
    ensures
        step_done(l, raw, data, width, height, use_image_data, s, n),
{
    reveal(decode::decode_step);
    let c = raw.channels[n];
    let code = c.data->Some_0;
    let depth = raw.bits_per_channel as u32;
    assert(channel_fits(l, raw, n, data, width, height));
    let m = l.additional_info.real_mask->Some_0;
    assert(s.real_mask == l.additional_info.real_mask);
    law_mask_decoded(
        m,
        "real mask"@,
        code,
        c.compression,
        data[n],
        depth,
        sides_of(m).0,
        sides_of(m).1,
        raw.large,
        use_image_data,
        s.budget,
    );
    lemma_alpha(raw, n);
}

#[verifier::rlimit(40)]
proof fn lemma_color_step(
    l: LayerView,
    raw: RawDataView,
    data: Seq<Seq<u8>>,
    width: int,
    height: int,
    use_image_data: bool,
    s: DecodeView,
    n: int,
)
    requires
        decodable(l, raw, data, width, height),
        0 <= n < raw.channels.len(),
        s.image matches Some(d) && painted(d, raw, data, n, width * height),
        masks_painted(l, s.mask, s.real_mask, raw, data, n, use_image_data),
        s.alpha == has_transparency(raw, n),
        raw.channels[n].id != ChannelId::UserMask && raw.channels[n].id != ChannelId::RealUserMask,
    ensures
        step_done(l, raw, data, width, height, use_image_data, s, n),
{
    reveal(decode::decode_step);
    let c = raw.channels[n];
    let code = c.data->Some_0;
    let depth = raw.bits_per_channel as u32;
    assert(channel_fits(l, raw, n, data, width, height));
    let count = width * height;
    let d = s.image->Some_0;
    assert(0 < width * height) by (nonlinear_arith)
        requires
            0 < width,
            0 < height,
    ;
    let o = place(c.id)->Some_0;
    let r = decode::channel_reader(code, s.budget);
    assert(helpers::channel_offset(c.id, false) == o);
    channel_laws::law_channel_decoded(
        r,
        code,
        c.compression,
        data[n],
        depth,
        width,
        height,
        raw.large,
        d,
        o as usize,
        4,
    );
    match codec::get_data(
        r,
        code.len() as int,
        Some(d),
        c.compression,
        width,
        height,
        depth,
        o,
        raw.large,
        4,
    ) {
        Err(_) => {},
        Ok((found, _)) => {
            lemma_painted(raw, data, d, found->Some_0, n, count, o);
        },
    }
    lemma_alpha(raw, n);
}

proof fn lemma_step(
    l: LayerView,
    raw: RawDataView,
    data: Seq<Seq<u8>>,
    width: int,
    height: int,
    use_image_data: bool,
    s: DecodeView,
    n: int,
)
    requires
        decodable(l, raw, data, width, height),
        0 <= n < raw.channels.len(),
        s.image matches Some(d) && painted(d, raw, data, n, width * height),
        masks_painted(l, s.mask, s.real_mask, raw, data, n, use_image_data),
        s.alpha == has_transparency(raw, n),
    ensures
        step_done(l, raw, data, width, height, use_image_data, s, n),
{
    if raw.channels[n].id == ChannelId::UserMask {
        lemma_mask_step(l, raw, data, width, height, use_image_data, s, n);
    } else if raw.channels[n].id == ChannelId::RealUserMask {
        lemma_real_mask_step(l, raw, data, width, height, use_image_data, s, n);
    } else {
        lemma_color_step(l, raw, data, width, height, use_image_data, s, n);
    }
}

proof fn lemma_alpha(raw: RawDataView, n: int)
    requires
        0 <= n < raw.channels.len(),
    ensures
        has_transparency(raw, n + 1) == (has_transparency(raw, n) || raw.channels[n].id
            == ChannelId::Transparency),
{
    if has_transparency(raw, n) {
        let i = choose|i: int|
            0 <= i < n && (#[trigger] raw.channels[i]).id == ChannelId::Transparency;
        assert(0 <= i < n + 1 && raw.channels[i].id == ChannelId::Transparency);
    }
    if raw.channels[n].id == ChannelId::Transparency {
        assert(0 <= n < n + 1 && raw.channels[n].id == ChannelId::Transparency);
    }
}

proof fn lemma_painted(
    raw: RawDataView,
    data: Seq<Seq<u8>>,
    d: Seq<u8>,
    e: Seq<u8>,
    n: int,
    count: int,
    o: int,
)
    requires
        0 <= n < raw.channels.len(),
        data.len() == raw.channels.len(),
        ids_distinct(raw.channels),
        0 < count,
        painted(d, raw, data, n, count),
        place(raw.channels[n].id) == Some(o),
        raw.color_mode == ColorMode::Grayscale ==> o == 0 || o == 3,
        sample_laws::filled(
            d,
            e,
            o,
            4,
            sample_laws::sample_plane(data[n], raw.bits_per_channel as u32, count),
        ),
        raw.color_mode == ColorMode::Grayscale ==> forall|i: int|
            0 <= i < raw.channels.len() ==> (#[trigger] raw.channels[i]).id != ChannelId::Color1
                && raw.channels[i].id != ChannelId::Color2,
    ensures
        painted(
            if raw.color_mode == ColorMode::Grayscale {
                pixels::grayed(e, count * 4)
            } else {
                e
            },
            raw,
            data,
            n + 1,
            count,
        ),
{
    let depth = raw.bits_per_channel as u32;
    let plane = sample_laws::sample_plane(data[n], depth, count);
    let gray = raw.color_mode == ColorMode::Grayscale;
    let f = if gray {
        pixels::grayed(e, count * 4)
    } else {
        e
    };
    assert forall|i: int, k: int|
        #![trigger data[i], sample_laws::sample_byte(data[i], depth, k)]
        0 <= i < n + 1 && place(raw.channels[i].id) is Some && 0 <= k < count implies f[4 * k
        + place(raw.channels[i].id)->Some_0] == sample_laws::sample_byte(data[i], depth, k) by {
        let p = place(raw.channels[i].id)->Some_0;
        assert(0 <= p < 4);
        let j = 4 * k + p;
        assert(gray ==> p == 0 || p == 3);
        assert(f[j] == e[j]);
        if i == n {
            assert(e[o + 4 * k] == plane[k]);
        } else {
            assert(raw.channels[i].id != raw.channels[n].id);
            assert(p != o);
            assert((j - o) % 4 != 0);
            assert(e[j] == d[j]);
        }
    }
    assert forall|j: int|
        0 <= j < f.len() && (forall|i: int|
            0 <= i < n + 1 ==> place((#[trigger] raw.channels[i]).id) != Some(j % 4)) && (gray
            ==> j % 4 == 3) implies #[trigger] f[j] == 0 by {
        assert(place(raw.channels[n].id) != Some(j % 4));
        assert(j % 4 != o);
        assert(j < o || (j - o) % 4 != 0);
        assert(e[j] == d[j]);
        assert(f[j] == e[j]);
        assert(d[j] == 0);
    }
}

proof fn lemma_steps(
    l: LayerView,
    raw: RawDataView,
    data: Seq<Seq<u8>>,
    width: int,
    height: int,
    use_image_data: bool,
    s: DecodeView,
    n: int,
)
    requires
        decodable(l, raw, data, width, height),
        0 <= n <= raw.channels.len(),
        s.image matches Some(d) && painted(d, raw, data, 0, width * height),
        masks_painted(l, s.mask, s.real_mask, raw, data, 0, use_image_data),
        !s.alpha,
    ensures
        match decode::decode_steps(s, raw, n, width, height, use_image_data) {
            Ok(t) => {
                &&& t.image matches Some(d) && painted(d, raw, data, n, width * height)
                &&& masks_painted(l, t.mask, t.real_mask, raw, data, n, use_image_data)
                &&& t.alpha == has_transparency(raw, n)
            },
            Err(e) => e is ExceededMemoryLimit,
        },
    decreases n,
{
    if n > 0 {
        lemma_steps(l, raw, data, width, height, use_image_data, s, n - 1);
        match decode::decode_steps(s, raw, n - 1, width, height, use_image_data) {
            Err(_) => {},
            Ok(t) => {
                lemma_step(l, raw, data, width, height, use_image_data, t, n - 1);
            },
        }
    }
}

/// The pixels of a layer as they come out of its stored channels: red, green, blue and the
/// transparency each in its place, gray in the place of all three colours, opaque where
/// there is no transparency, and zero where there is no channel.
pub open spec fn layer_pixels(
    p: PixelDataView,
    raw: RawDataView,
    data: Seq<Seq<u8>>,
    width: int,
    height: int,
) -> bool {
    let n = raw.channels.len() as int;
    let depth = raw.bits_per_channel as u32;
    &&& p.width == width
    &&& p.height == height
    &&& p.data.len() == 4 * (width * height)
    &&& forall|i: int, k: int|
        #![trigger data[i], sample_laws::sample_byte(data[i], depth, k)]
        0 <= i < n && place(raw.channels[i].id) is Some && 0 <= k < width * height ==> p.data[4 * k
            + place(raw.channels[i].id)->Some_0] == sample_laws::sample_byte(data[i], depth, k)
    &&& raw.color_mode == ColorMode::Grayscale ==> forall|k: int|
        0 <= k < width * height ==> #[trigger] p.data[4 * k] == p.data[4 * k + 1] && p.data[4 * k]
            == p.data[4 * k + 2]
    &&& !has_transparency(raw, n) ==> forall|k: int|
        0 <= k < width * height ==> #[trigger] p.data[4 * k + 3] == 255
    &&& raw.color_mode == ColorMode::Rgb ==> forall|j: int|
        0 <= j < p.data.len() && j % 4 != 3 && (forall|i: int|
            0 <= i < n ==> place((#[trigger] raw.channels[i]).id) != Some(j % 4))
            ==> #[trigger] p.data[j] == 0
}

/// A decoded layer has the samples of its stored channels in its pixels and in those of
/// its masks, whatever the order of the channels, and is otherwise as it was. Only memory
/// can be missing.
pub proof fn law_layer_decoded(
    l: LayerView,
    raw: RawDataView,
    data: Seq<Seq<u8>>,
    width: int,
    height: int,
    use_image_data: bool,
    limit: Option<usize>,
)
    requires
        decodable(l, raw, data, width, height),
    ensures
        match decode::decoded_layer(l, use_image_data, limit) {
            Ok((found, left)) => {
                let i = found.additional_info;
                &&& found == (LayerView {
                    raw_data: None,
                    canvas: found.canvas,
                    image_data: found.image_data,
                    additional_info: AdditionalInfoView {
                        mask: i.mask,
                        real_mask: i.real_mask,
                        ..l.additional_info
                    },
                    ..l
                })
                &&& masks_painted(
                    l,
                    i.mask,
                    i.real_mask,
                    raw,
                    data,
                    raw.channels.len() as int,
                    use_image_data,
                )
                &&& if use_image_data {
                    found.canvas == l.canvas && (found.image_data matches Some(p) && layer_pixels(
                        p,
                        raw,
                        data,
                        width,
                        height,
                    ))
                } else {
                    found.image_data == l.image_data && (found.canvas matches Some(p)
                        && layer_pixels(p, raw, data, width, height))
                }
            },
            Err(e) => e is ExceededMemoryLimit,
        },
{
    let count = width * height;
    let n = raw.channels.len() as int;
    let depth = raw.bits_per_channel as u32;
    assert(0 < width * height) by (nonlinear_arith)
        requires
            0 < width,
            0 < height,
    ;
    let b = decode::layer_bounds(l);
    assert(mask::valid_box(b, raw.large));
    match decode::decode_start(l, raw, limit) {
        Err(_) => {},
        Ok(s) => {
            let zeros = s.image->Some_0;
            assert(painted(zeros, raw, data, 0, count));
            lemma_steps(l, raw, data, width, height, use_image_data, s, n);
            match decode::decode_steps(s, raw, n, width, height, use_image_data) {
                Err(_) => {},
                Ok(t) => {
                    let d = t.image->Some_0;
                    let filled = if t.alpha {
                        d
                    } else {
                        pixels::opaque(d, 4)
                    };
                    let p = PixelDataView {
                        width: width as u32,
                        height: height as u32,
                        data: filled,
                    };
                    lemma_layer_pixels(p, d, raw, data, width, height);
                },
            }
        },
    }
}

proof fn lemma_layer_pixels(
    p: PixelDataView,
    d: Seq<u8>,
    raw: RawDataView,
    data: Seq<Seq<u8>>,
    width: int,
    height: int,
)
    requires
        0 < width * height,
        data.len() == raw.channels.len(),
        painted(d, raw, data, raw.channels.len() as int, width * height),
        p.width == width,
        p.height == height,
        p.data == (if has_transparency(raw, raw.channels.len() as int) {
            d
        } else {
            pixels::opaque(d, 4)
        }),
    ensures
        layer_pixels(p, raw, data, width, height),
{
    let n = raw.channels.len() as int;
    let depth = raw.bits_per_channel as u32;
    assert forall|i: int, k: int|
        #![trigger data[i], sample_laws::sample_byte(data[i], depth, k)]
        0 <= i < n && place(raw.channels[i].id) is Some && 0 <= k < width * height implies p.data[4
        * k + place(raw.channels[i].id)->Some_0] == sample_laws::sample_byte(data[i], depth, k) by {
        let o = place(raw.channels[i].id)->Some_0;
        assert(d[4 * k + o] == sample_laws::sample_byte(data[i], depth, k));
        if o == 3 {
            assert(raw.channels[i].id == ChannelId::Transparency);
            assert(has_transparency(raw, n));
        }
    }
}

/// A coordinate; zero where none is given.
pub open spec fn edge(v: Option<i32>) -> int {
    match v {
        Some(v) => v as int,
        None => 0,
    }
}

/// A layer whose rectangle is turned inside out or too large is refused with the sides that
/// it has, and so is one of four inks whose samples do not have eight bits.
pub proof fn law_layer_refused(
    l: LayerView,
    raw: RawDataView,
    use_image_data: bool,
    limit: Option<usize>,
)
    requires
        l.raw_data == Some(raw),
    ensures
        ({
            let w = edge(l.right) - edge(l.left);
            let h = edge(l.bottom) - edge(l.top);
            let found = decode::decoded_layer(l, use_image_data, limit);
            &&& !sides_fit(w, h, raw.large) ==> (found matches Err(
                ErrorView::InvalidBoxSize { width, height, .. },
            ) && width == w && height == h)
            &&& sides_fit(w, h, raw.large) && w > 0 && h > 0 && raw.color_mode == ColorMode::Cmyk
                && raw.bits_per_channel != 8 ==> (found matches Err(e) && e is StrictViolation)
        }),
{
}

/// A mask whose rectangle is turned inside out or too large is refused with the sides that
/// it has; one without an area stays as it is and takes no memory.
pub proof fn law_mask_refused(
    m: LayerMaskView,
    kind: Seq<char>,
    code: Seq<u8>,
    compression: Compression,
    depth: u32,
    large: bool,
    use_image_data: bool,
    limit: Option<usize>,
)
    ensures
        ({
            let w = edge(m.right) - edge(m.left);
            let h = edge(m.bottom) - edge(m.top);
            let found = decode::decoded_mask(
                m,
                kind,
                code,
                compression,
                depth,
                large,
                use_image_data,
                limit,
            );
            &&& !sides_fit(w, h, large) ==> found == Err::<(LayerMaskView, Option<usize>), _>(
                ErrorView::InvalidBoxSize { kind, width: w, height: h },
            )
            &&& sides_fit(w, h, large) && (w == 0 || h == 0) ==> found == Ok::<_, ErrorView>(
                (m, limit),
            )
        }),
{
}

/// A channel that was not stored changes nothing, and the channel of a mask that a layer
/// does not have is refused.
pub proof fn law_channel_refused(
    s: DecodeView,
    raw: RawDataView,
    ch: RawChannelView,
    width: int,
    height: int,
    use_image_data: bool,
)
    ensures
        ({
            let found = decode::decode_step(s, raw, ch, width, height, use_image_data);
            &&& ch.data is None ==> found == Ok::<_, ErrorView>(s)
            &&& ch.data is Some && ((ch.id == ChannelId::UserMask && s.mask is None) || (ch.id
                == ChannelId::RealUserMask && s.real_mask is None)) ==> (found matches Err(e)
                && e is StrictViolation)
        }),
{
    reveal(decode::decode_step);
}

} // verus!
