//! What is written of layers and documents, and what therefore comes back: which pixels,
//! which rectangle, which settings.

use vstd::prelude::*;

use crate::bytes;
use crate::channels;
use crate::channels::{ChannelDataView, LayerChannelView};
use crate::composite;
use crate::decode;
use crate::document_laws;
use crate::document_writer;
use crate::format_laws;
use crate::header;
use crate::header::Header;
use crate::layer_laws;
use crate::layer_tree;
use crate::layer_writer;
use crate::layout_laws;
use crate::lazy;
use crate::mask;
use crate::matte;
use crate::number_laws::number16;
use crate::pixel_laws;
use crate::pixels;
use crate::psd;
use crate::psd::{
    BlendMode, ChannelId, ColorMode, CompositeRawView, Compression, LayerMaskView, LayerView,
    PixelDataView, PsdView, RawDataView, ReadOptions, WriteOptions,
};
use crate::reader;
use crate::reader::ReaderState;
use crate::record_writer;
use crate::recode;
use crate::trim;

verus! {

broadcast use crate::bytes::group_bytes;

/// How opaque the pixel in a column and a row is.
pub open spec fn opacity_at(p: PixelDataView, x: int, y: int) -> u8 {
    p.data[4 * (y * p.width + x) + 3]
}

/// Some pixel in a row, between two columns, is not fully transparent.
pub open spec fn row_seen(p: PixelDataView, y: int, left: int, right: int) -> bool {
    exists|x: int| left <= x < right && #[trigger] opacity_at(p, x, y) != 0
}

/// Some pixel in a column, between two rows, is not fully transparent.
pub open spec fn col_seen(p: PixelDataView, x: int, top: int, bottom: int) -> bool {
    exists|y: int| top <= y < bottom && #[trigger] opacity_at(p, x, y) != 0
}

/// What is left without the transparent border is the smallest rectangle outside of which
/// every pixel is fully transparent: each edge of it has a pixel that is not, unless
/// nothing is left at all.
pub proof fn law_border(p: PixelDataView)
    requires
        p.width <= i32::MAX,
        p.height <= i32::MAX,
    ensures
        ({
            let b = trim::trimmed(p);
            &&& forall|x: int, y: int|
                0 <= x < p.width && 0 <= y < p.height && !(b.left <= x < b.right && b.top <= y
                    < b.bottom) ==> #[trigger] opacity_at(p, x, y) == 0
            &&& 0 <= b.top <= b.bottom <= p.height
            &&& 0 <= b.left <= b.right <= p.width
            &&& b.top < b.bottom && b.left < b.right ==> {
                &&& row_seen(p, b.top as int, b.left as int, b.right as int)
                &&& row_seen(p, b.bottom - 1, b.left as int, b.right as int)
                &&& col_seen(p, b.left as int, b.top as int, b.bottom as int)
                &&& col_seen(p, b.right - 1, b.top as int, b.bottom as int)
            }
            &&& !(b.top < b.bottom && b.left < b.right) ==> b.top == p.height && b.bottom
                == p.height && b.left == p.width && b.right == p.width
        }),
{
    trim::law_trim_is_tight(p);
    trim::lemma_trim_order(p);
    let b = trim::trimmed(p);
    assert forall|x: int, y: int| #[trigger] opacity_at(p, x, y) == trim::alpha_of(p, x, y) by {}
    assert forall|x: int, y: int|
        0 <= x < p.width && 0 <= y < p.height && !(b.left <= x < b.right && b.top <= y < b.bottom)
            implies #[trigger] opacity_at(p, x, y) == 0 by {
        assert(!trim::inside(b, x, y));
        assert(trim::alpha_of(p, x, y) == 0);
    }
    if b.top < b.bottom && b.left < b.right {
        lemma_row(p, b.top as int, b.left as int, b.right as int);
        lemma_row(p, b.bottom - 1, b.left as int, b.right as int);
        lemma_col(p, b.left as int, b.top as int, b.bottom as int);
        lemma_col(p, b.right - 1, b.top as int, b.bottom as int);
    }
}

proof fn lemma_row(p: PixelDataView, y: int, left: int, right: int)
    ensures
        !trim::row_empty(p, y, left, right) ==> row_seen(p, y, left, right),
{
    if !row_seen(p, y, left, right) {
        assert forall|x: int| left <= x < right implies #[trigger] trim::alpha_of(p, x, y) == 0 by {
            assert(opacity_at(p, x, y) == 0);
        }
    }
}

proof fn lemma_col(p: PixelDataView, x: int, top: int, bottom: int)
    ensures
        !trim::col_empty(p, x, top, bottom) ==> col_seen(p, x, top, bottom),
{
    if !col_seen(p, x, top, bottom) {
        assert forall|y: int| top <= y < bottom implies #[trigger] trim::alpha_of(p, x, y) == 0 by {
            assert(opacity_at(p, x, y) == 0);
        }
    }
}

/// The pixels of a part of a bitmap are those of the bitmap, as far away from its corner as
/// the part is.
pub open spec fn part_of_image(
    p: PixelDataView,
    part: PixelDataView,
    left: int,
    top: int,
) -> bool {
    &&& part.data.len() == 4 * (part.width * part.height)
    &&& forall|x: int, y: int, c: int|
        #![trigger part.data[4 * (part.width * y + x) + c]]
        0 <= x < part.width && 0 <= y < part.height && 0 <= c < 4 ==> part.data[4 * (part.width * y
            + x) + c] == p.data[4 * (p.width * (top + y) + (left + x)) + c]
}

/// A part that is cut out of a bitmap has its pixels.
pub proof fn law_crop(p: PixelDataView, left: int, top: int, width: int, height: int)
    requires
        0 <= left,
        0 <= top,
        0 < width,
        0 < height,
        left + width <= p.width,
        top + height <= p.height,
    ensures
        ({
            let part = trim::cropped(p, left, top, width, height);
            part.width == width && part.height == height && part_of_image(p, part, left, top)
        }),
{
    let part = trim::cropped(p, left, top, width, height);
    assert(0 <= width * height) by (nonlinear_arith)
        requires
            0 < width,
            0 < height,
    ;
    assert forall|x: int, y: int, c: int|
        #![trigger part.data[4 * (part.width * y + x) + c]]
        0 <= x < part.width && 0 <= y < part.height && 0 <= c < 4 implies part.data[4 * (part.width
        * y + x) + c] == p.data[4 * (p.width * (top + y) + (left + x)) + c] by {
        let k = width * y + x;
        assert(k == y * width + x) by (nonlinear_arith)
            requires
                k == width * y + x,
        ;
        vstd::arithmetic::div_mod::lemma_fundamental_div_mod_converse(k, width, y, x);
        assert(0 <= k < width * height) by (nonlinear_arith)
            requires
                k == width * y + x,
                0 <= x < width,
                0 <= y < height,
        ;
        assert((4 * k + c) / 4 == k && (4 * k + c) % 4 == c);
        assert((top + y) * p.width == p.width * (top + y)) by (nonlinear_arith);
    }
}

/// The pixels that count: the image data, or else the canvas.
pub open spec fn own_pixels(
    image_data: Option<PixelDataView>,
    canvas: Option<PixelDataView>,
) -> Option<PixelDataView> {
    match image_data {
        Some(p) => Some(p),
        None => canvas,
    }
}

/// A coordinate; zero where none is given.
pub open spec fn place_or_zero(v: Option<i32>) -> int {
    match v {
        Some(v) => v as int,
        None => 0,
    }
}

/// Pixels have come back byte by byte.
pub open spec fn same_pixels(p: PixelDataView, found: PixelDataView) -> bool {
    &&& found.width == p.width
    &&& found.height == p.height
    &&& found.data.len() == 4 * (p.width * p.height)
    &&& forall|i: int| 0 <= i < found.data.len() ==> #[trigger] found.data[i] == p.data[i]
}

/// The name of a layer has come back: at most 255 characters of it, those that are not
/// ASCII as question marks, and an empty one where there was none.
pub open spec fn name_kept(name: Option<Seq<char>>, found: Option<Seq<char>>) -> bool {
    let given = match name {
        Some(name) => name,
        None => Seq::empty(),
    };
    found matches Some(letters) && {
        &&& letters.len() == (if given.len() > 255 {
            255
        } else {
            given.len() as int
        })
        &&& forall|i: int|
            0 <= i < letters.len() ==> #[trigger] letters[i] == (if (given[i] as int) < 128 {
                given[i]
            } else {
                '?'
            })
    }
}

/// The settings of a layer have come back, each with what it means where it was not given.
pub open spec fn settings_kept(l: LayerView, found: LayerView) -> bool {
    &&& found.blend_mode == Some(
        match l.blend_mode {
            Some(mode) => mode,
            None => BlendMode::Normal,
        },
    )
    &&& found.opacity == Some(
        match l.opacity {
            Some(opacity) => opacity,
            None => 255u8,
        },
    )
    &&& found.clipping == Some(l.clipping == Some(true))
    &&& found.hidden == Some(l.hidden == Some(true))
    &&& found.transparency_protected == Some(l.transparency_protected == Some(true))
    &&& found.effects_open == (if l.effects_open == Some(true) {
        Some(true)
    } else {
        None
    })
    &&& name_kept(l.additional_info.name, found.additional_info.name)
    &&& found.additional_info.blending_ranges == l.additional_info.blending_ranges
    &&& found.additional_info.blocks == l.additional_info.blocks
}

/// Pixels have come back gray, with their reds, and opaque.
pub open spec fn reds_kept(p: PixelDataView, found: PixelDataView) -> bool {
    &&& found.width == p.width
    &&& found.height == p.height
    &&& found.data.len() == 4 * (p.width * p.height)
    &&& forall|k: int|
        #![trigger found.data[4 * k]]
        0 <= k < p.width * p.height ==> {
            let v = p.data[4 * k];
            found.data[4 * k] == v && found.data[4 * k + 1] == v && found.data[4 * k + 2] == v
                && found.data[4 * k + 3] == 255
        }
}

/// A mask has come back: its rectangle is that of its pixels, its settings are said, and
/// its pixels are gray with their reds, and opaque.
pub open spec fn mask_kept(m: LayerMaskView, found: LayerMaskView, use_image_data: bool) -> bool {
    let top = place_or_zero(m.top);
    let left = place_or_zero(m.left);
    let image = own_pixels(m.image_data, m.canvas);
    let (width, height) = match image {
        Some(p) => (p.width as int, p.height as int),
        None => (0, 0),
    };
    &&& found.top == Some(top as i32)
    &&& found.left == Some(left as i32)
    &&& found.bottom == Some((top + height) as i32)
    &&& found.right == Some((left + width) as i32)
    &&& found.default_color == Some(
        match m.default_color {
            Some(color) => color,
            None => 0u8,
        },
    )
    &&& found.disabled == Some(m.disabled == Some(true))
    &&& found.position_relative_to_layer == Some(m.position_relative_to_layer == Some(true))
    &&& found.from_vector_data == Some(m.from_vector_data == Some(true))
    &&& if width == 0 || height == 0 {
        found.image_data is None && found.canvas is None
    } else {
        let pixels = if use_image_data {
            found.image_data
        } else {
            found.canvas
        };
        &&& if use_image_data {
            found.canvas is None
        } else {
            found.image_data is None
        }
        &&& pixels matches Some(p) && reds_kept(image->Some_0, p)
    }
}

/// A mask has come back with its parameters.
pub open spec fn params_kept(m: LayerMaskView, found: LayerMaskView) -> bool {
    found.user_mask_density == m.user_mask_density && found.user_mask_feather
        == m.user_mask_feather && found.vector_mask_density == m.vector_mask_density
        && found.vector_mask_feather == m.vector_mask_feather
}

/// The settings of a layer come back as they were written.
pub proof fn lemma_settings_kept(l: LayerView, options: WriteOptions, psb: bool)
    ensures
        settings_kept(l, layer_laws::bare_layer(l, options, psb)),
        layer_laws::bare_layer(l, options, psb).image_data is None,
        layer_laws::bare_layer(l, options, psb).canvas is None,
        layer_laws::bare_layer(l, options, psb).raw_data is None,
{
    reveal(layer_laws::bare_layer);
    layout_laws::law_flags_written(l);
    layout_laws::lemma_flags(record_writer::layer_flags(l));
}

/// A layer with pixels comes back with its settings, with the rectangle that its place and
/// the size of its pixels give, and with all its pixels; where the transparent border was
/// to be cut off, with all that is left of them at their place.
pub proof fn law_layer_comes_back(
    l: LayerView,
    options: WriteOptions,
    use_image_data: bool,
    psb: bool,
    p: PixelDataView,
)
    requires
        own_pixels(l.image_data, l.canvas) == Some(p),
        channels::layer_fits(l),
        0 < p.width,
        0 < p.height,
    ensures
        ({
            let found = layer_laws::stored_layer(l, options, use_image_data, psb);
            let image = if use_image_data {
                found.image_data
            } else {
                found.canvas
            };
            let top = place_or_zero(l.top);
            let left = place_or_zero(l.left);
            let b = trim::trimmed(p);
            &&& settings_kept(l, found)
            &&& if use_image_data {
                found.canvas is None
            } else {
                found.image_data is None
            }
            &&& options.trim_image_data != Some(true) ==> {
                &&& found.top == Some(top as i32)
                &&& found.left == Some(left as i32)
                &&& found.bottom == Some((top + p.height) as i32)
                &&& found.right == Some((left + p.width) as i32)
                &&& image matches Some(q) && same_pixels(p, q)
            }
            &&& options.trim_image_data == Some(true) ==> {
                &&& found.top == Some((top + b.top) as i32)
                &&& found.left == Some((left + b.left) as i32)
                &&& found.bottom == Some((top + b.bottom) as i32)
                &&& found.right == Some((left + b.right) as i32)
                &&& if b.top < b.bottom && b.left < b.right {
                    image matches Some(q) && q.width == b.right - b.left && q.height == b.bottom
                        - b.top && part_of_image(p, q, b.left as int, b.top as int)
                } else {
                    image is None
                }
            }
        }),
{
    lemma_settings_kept(l, options, psb);
    law_border(p);
    reveal(layer_laws::bare_layer);
    let b = trim::trimmed(p);
    let found = layer_laws::stored_layer(l, options, use_image_data, psb);
    let whole = pixel_laws::without_rest(p);
    assert(0 < p.width * p.height) by (nonlinear_arith)
        requires
            0 < p.width,
            0 < p.height,
    ;
    assert(same_pixels(p, whole));
    if options.trim_image_data == Some(true) {
        if trim::box_is(b, 0, 0, p.width as int, p.height as int) {
            lemma_whole(p, whole);
        } else if b.top < b.bottom && b.left < b.right {
            let width = b.right - b.left;
            let height = b.bottom - b.top;
            law_crop(p, b.left as int, b.top as int, width, height);
            let part = trim::cropped(p, b.left as int, b.top as int, width, height);
            assert(part.data.take(part.size()) =~= part.data);
        }
    }
}

proof fn lemma_whole(p: PixelDataView, q: PixelDataView)
    requires
        same_pixels(p, q),
    ensures
        part_of_image(p, q, 0, 0),
{
    assert forall|x: int, y: int, c: int|
        #![trigger q.data[4 * (q.width * y + x) + c]]
        0 <= x < q.width && 0 <= y < q.height && 0 <= c < 4 implies q.data[4 * (q.width * y + x)
        + c] == p.data[4 * (p.width * (0 + y) + (0 + x)) + c] by {
        let k = q.width * y + x;
        assert(0 <= k < q.width * q.height) by (nonlinear_arith)
            requires
                k == q.width * y + x,
                0 <= x < q.width,
                0 <= y < q.height,
        ;
        assert(q.data[4 * k + c] == p.data[4 * k + c]);
    }
}

/// A layer without pixels comes back with its settings and without an area.
pub proof fn law_empty_layer_comes_back(
    l: LayerView,
    options: WriteOptions,
    use_image_data: bool,
    psb: bool,
)
    requires
        own_pixels(l.image_data, l.canvas) is None,
        l.raw_data is None,
    ensures
        ({
            let found = layer_laws::stored_layer(l, options, use_image_data, psb);
            &&& settings_kept(l, found)
            &&& found.image_data is None && found.canvas is None
            &&& found.top == Some(place_or_zero(l.top) as i32) && found.bottom == found.top
            &&& found.left == Some(place_or_zero(l.left) as i32) && found.right == found.left
        }),
{
    lemma_settings_kept(l, options, psb);
    reveal(layer_laws::bare_layer);
}

/// The masks of a layer come back with the rectangles of their pixels, their settings and
/// their pixels; the real mask without parameters.
pub proof fn law_masks_come_back(
    l: LayerView,
    options: WriteOptions,
    use_image_data: bool,
    psb: bool,
)
    requires
        channels::layer_fits(l),
        channels::written_raw(l, psb) is None,
    ensures
        ({
            let found = layer_laws::stored_layer(l, options, use_image_data, psb).additional_info;
            let i = l.additional_info;
            &&& i.mask matches Some(m) ==> (found.mask matches Some(g) && mask_kept(
                m,
                g,
                use_image_data,
            ) && params_kept(m, g))
            &&& i.real_mask matches Some(m) ==> (found.real_mask matches Some(g) && mask_kept(
                m,
                g,
                use_image_data,
            ))
            &&& i.mask is None && i.real_mask is None ==> found.mask is None
            &&& i.real_mask is None ==> found.real_mask is None
        }),
{
    reveal(layer_laws::bare_layer);
    let i = l.additional_info;
    if i.mask is Some {
        lemma_mask_kept(i.mask->Some_0, use_image_data);
    }
    if i.real_mask is Some {
        lemma_mask_kept(i.real_mask->Some_0, use_image_data);
    }
}

proof fn lemma_mask_kept(m: LayerMaskView, use_image_data: bool)
    requires
        channels::mask_fits(m),
    ensures
        mask_kept(
            m,
            pixel_laws::with_gray_pixels(
                mask::stored_mask(m, channels::written_mask_bounds(m)),
                m,
                use_image_data,
            ),
            use_image_data,
        ),
        mask_kept(
            m,
            pixel_laws::with_gray_pixels(
                mask::stored_real_mask(m, channels::written_mask_bounds(m)),
                m,
                use_image_data,
            ),
            use_image_data,
        ),
{
    match own_pixels(m.image_data, m.canvas) {
        None => {},
        Some(p) => {
            assert(0 <= p.width * p.height) by (nonlinear_arith);
            let q = pixel_laws::gray_image(p);
            assert forall|k: int|
                #![trigger q.data[4 * k]]
                0 <= k < p.width * p.height implies {
                let v = p.data[4 * k];
                q.data[4 * k] == v && q.data[4 * k + 1] == v && q.data[4 * k + 2] == v && q.data[4
                    * k + 3] == 255
            } by {
                assert((4 * k + 1) % 4 == 1 && (4 * k + 2) % 4 == 2 && (4 * k + 3) % 4 == 3);
            }
        },
    }
}

/// Stored channels are written as they are where they are those of an 8-bit RGB layer in the
/// format of the document; otherwise a layer without pixels is written with those that its
/// channels are decoded to, and a layer with pixels with these.
pub proof fn law_stored_channels_written(l: LayerView, raw: RawDataView, psb: bool)
    requires
        l.raw_data == Some(raw),
    ensures
        ({
            let same = raw.color_mode == ColorMode::Rgb && raw.bits_per_channel == 8 && raw.large
                == psb;
            let own = own_pixels(l.image_data, l.canvas);
            &&& own is Some || same ==> recode::recoded(l, psb) == l
            &&& own is None && !same ==> match decode::decoded_layer(l, false, None) {
                Ok((found, _)) => recode::recoded(l, psb) == found,
                Err(_) => recode::recoded(l, psb) == l,
            }
            &&& channels::written_raw(l, psb) == (if own is None && same {
                Some(raw)
            } else {
                None
            })
        }),
{
}

/// The stored composite image of an RGB document is written as it is where the document has
/// no other, at most 16 channels and is written in the format that it was read in: the
/// file ends with it, and its head states the channels that it had.
pub proof fn law_stored_composite_written(
    psd: PsdView,
    options: WriteOptions,
    layers: Seq<u8>,
    raw: CompositeRawView,
)
    requires
        psd.raw_composite_data == Some(raw),
    ensures
        ({
            let data = document_writer::document_bytes(psd, options, layers);
            let own = own_pixels(psd.image_data, psd.canvas);
            own is None && psd.color_mode == Some(ColorMode::Rgb) && (psd.channels matches Some(n)
                && n <= 16) && raw.large == (options.psb == Some(true)) ==> {
                &&& data.len() >= 26 + raw.data.len()
                &&& data.skip(data.len() - raw.data.len()) == raw.data
                &&& number16(data, 12) == psd.channels->Some_0
                &&& document_writer::document_alpha(psd, options) == raw.global_alpha
            }
        }),
{
    let data = document_writer::document_bytes(psd, options, layers);
    let h = document_writer::written_header(psd, options);
    format_laws::law_head_written(h);
    let head = header::header_bytes(h);
    if document_writer::kept_composite(psd, options) is Some {
        assert(data[12] == head[12] && data[13] == head[13]);
        assert(data.skip(data.len() - raw.data.len()) =~= raw.data);
    }
}

/// A stored composite image that cannot be written as it is stands for the pixels that it is
/// decoded to, in the format, with the transparency and with the head that it was read
/// with, and without a memory limit.
pub proof fn law_stored_composite_decoded(
    psd: PsdView,
    options: WriteOptions,
    raw: CompositeRawView,
    channels: u16,
    bits: u16,
    mode: ColorMode,
)
    requires
        psd.raw_composite_data == Some(raw),
        psd.channels == Some(channels),
        psd.bits_per_channel == Some(bits),
        psd.color_mode == Some(mode),
        bits <= 32,
    ensures
        ({
            let r = ReaderState {
                buffer: raw.data,
                offset: 0,
                large: raw.large,
                global_alpha: raw.global_alpha,
                budget: None,
                ..reader::new_reader_state(raw.data)
            };
            let h = Header {
                large: raw.large,
                channels,
                height: psd.height,
                width: psd.width,
                bits_per_channel: bits,
                color_mode: mode,
            };
            let own = own_pixels(psd.image_data, psd.canvas);
            let kept = mode == ColorMode::Rgb && channels <= 16 && raw.large == (options.psb
                == Some(true));
            match (lazy::stored_composite_image(psd), composite::get_composite(r, h, psd.palette)) {
                (Ok(found), Ok((image, _))) => found == Some(image) && (own is None && !kept
                    ==> document_writer::document_image(psd, options) == Some(image)),
                (Err(e), Err(f)) => e == f && (own is None && !kept
                    ==> document_writer::document_image(psd, options) is None),
                _ => false,
            }
        }),
{
    let r = ReaderState {
        buffer: raw.data,
        offset: 0,
        large: raw.large,
        global_alpha: raw.global_alpha,
        budget: None,
        ..reader::new_reader_state(raw.data)
    };
    assert(lazy::composite_reader(raw) == r);
}

/// Some pixel is not fully opaque.
pub open spec fn sees_through(p: PixelDataView) -> bool {
    exists|k: int| 0 <= k < p.width * p.height && #[trigger] p.data[4 * k + 3] != 255
}

proof fn lemma_sees_through(p: PixelDataView)
    ensures
        pixels::has_transparency(p) == sees_through(p),
{
    if pixels::has_transparency(p) {
        let k = choose|k: int| 0 <= k < p.width * p.height && #[trigger] pixels::alpha_at(p, k) != 255;
        assert(p.data[4 * k + 3] != 255);
    }
    if sees_through(p) {
        let k = choose|k: int| 0 <= k < p.width * p.height && #[trigger] p.data[4 * k + 3] != 255;
        assert(pixels::alpha_at(p, k) != 255);
    }
}

/// The channels that are written for a layer with pixels: its transparency first, unless it
/// is an opaque background without a mask, then red, green and blue, then its masks; each
/// compressed as the options say, with a length that counts two more bytes than its code.
pub proof fn law_channels_written(
    d: LayerChannelView,
    l: LayerView,
    background: bool,
    options: WriteOptions,
    psb: bool,
    p: PixelDataView,
)
    requires
        own_pixels(l.image_data, l.canvas) == Some(p),
        0 < p.width,
        0 < p.height,
        options.trim_image_data != Some(true),
        channels::layer_fits(l),
        channels::codes_layer(d, l, background, options, psb),
    ensures
        ({
            let clear = !background || options.no_background == Some(true)
                || l.additional_info.mask is Some || sees_through(p);
            let first: int = if clear {
                1
            } else {
                0
            };
            let mask: int = if l.additional_info.mask is Some {
                1
            } else {
                0
            };
            let more: int = if l.additional_info.real_mask is Some {
                1
            } else {
                0
            };
            &&& d.bounds.top == place_or_zero(l.top)
            &&& d.bounds.left == place_or_zero(l.left)
            &&& d.bounds.bottom == place_or_zero(l.top) + p.height
            &&& d.bounds.right == place_or_zero(l.left) + p.width
            &&& d.channels.len() == first + 3 + mask + more
            &&& clear ==> d.channels[0].channel_id == ChannelId::Transparency
            &&& d.channels[first].channel_id == ChannelId::Color0
            &&& d.channels[first + 1].channel_id == ChannelId::Color1
            &&& d.channels[first + 2].channel_id == ChannelId::Color2
            &&& mask == 1 ==> d.channels[first + 3].channel_id == ChannelId::UserMask
            &&& more == 1 ==> d.channels[first + 3 + mask].channel_id == ChannelId::RealUserMask
            &&& forall|i: int|
                0 <= i < first + 3 ==> (#[trigger] d.channels[i]).compression == (
                if options.compress == Some(true) {
                    Compression::ZipWithoutPrediction
                } else {
                    Compression::RleCompressed
                }) && (d.channels[i].buffer matches Some(code) && (code.len() + 2 <= usize::MAX
                    ==> d.channels[i].length == code.len() + 2))
        }),
{
    lemma_sees_through(p);
    let plan = channels::channel_plan(l, background, options, psb);
    let clear = channels::wants_transparency(l, p, background, options);
    let first: int = if clear {
        1
    } else {
        0
    };
    assert(channels::written_part(l, false, psb).image == Some(p));
    assert(plan =~= channels::color_plan(p, clear) + channels::mask_plan(
        l.additional_info.mask,
        ChannelId::UserMask,
    ) + channels::mask_plan(l.additional_info.real_mask, ChannelId::RealUserMask));
    let zip = options.compress == Some(true);
    assert(channels::codes(d.channels[0], plan[0], zip, psb));
    assert(channels::codes(d.channels[1], plan[1], zip, psb));
    assert(channels::codes(d.channels[2], plan[2], zip, psb));
    assert(plan.len() > 3 ==> channels::codes(d.channels[3], plan[3], zip, psb));
    assert(plan.len() > 4 ==> channels::codes(d.channels[4], plan[4], zip, psb));
    assert(plan.len() > 5 ==> channels::codes(d.channels[5], plan[5], zip, psb));
    assert forall|i: int| 0 <= i < first + 3 implies (#[trigger] d.channels[i]).compression == (
    if options.compress == Some(true) {
        Compression::ZipWithoutPrediction
    } else {
        Compression::RleCompressed
    }) && (d.channels[i].buffer matches Some(code) && (code.len() + 2 <= usize::MAX
        ==> d.channels[i].length == code.len() + 2)) by {
        assert(channels::codes(d.channels[i], plan[i], zip, psb));
        assert(plan[i].source is Plane);
    }
}

/// The lowest of the layers is the background: where it is opaque and has no mask it is
/// written without a transparency channel, unless there is to be no background. All other
/// layers with pixels have one.
pub proof fn law_background(
    ds: Seq<LayerChannelView>,
    layers: Seq<LayerView>,
    options: WriteOptions,
    psb: bool,
    i: int,
    p: PixelDataView,
)
    requires
        layer_writer::codes_layers(ds, layers, options, psb),
        0 <= i < layers.len(),
        own_pixels(layers[i].image_data, layers[i].canvas) == Some(p),
        0 < p.width,
        0 < p.height,
        options.trim_image_data != Some(true),
        channels::layer_fits(layers[i]),
        layers[i].additional_info.mask is None,
        !sees_through(p),
    ensures
        ds.len() == layers.len(),
        ds[i].channels.len() > 0,
        ds[i].channels[0].channel_id == (if i == 0 && options.no_background != Some(true) {
            ChannelId::Color0
        } else {
            ChannelId::Transparency
        }),
{
    law_channels_written(ds[i], layers[i], i == 0, options, psb, p);
}

/// A document without a list of layers has no records; an empty list has one, of a layer
/// without a name, pixels or settings.
pub proof fn law_no_layers(psd: PsdView)
    ensures
        psd.children is None ==> document_writer::record_list(psd).len() == 0,
        psd.children matches Some(children) ==> children.len() == 0 ==> {
            let records = document_writer::record_list(psd);
            &&& records.len() == 1
            &&& own_pixels(records[0].image_data, records[0].canvas) is None
            &&& records[0].raw_data is None && records[0].children is None
            &&& records[0].additional_info.name is None && records[0].additional_info.mask is None
            &&& records[0].additional_info.real_mask is None
            &&& records[0].additional_info.section_divider is None
            &&& records[0].additional_info.blending_ranges is None
            &&& records[0].additional_info.blocks.len() == 0
            &&& records[0].top is None && records[0].left is None
            &&& records[0].blend_mode is None && records[0].opacity is None
            &&& records[0].hidden is None && records[0].clipping is None
            &&& records[0].transparency_protected is None && records[0].effects_open is None
        },
{
}

/// A channel is there without samples: its length counts only the two bytes that tell how
/// it is stored.
pub open spec fn without_samples(c: ChannelDataView, id: ChannelId) -> bool {
    c.channel_id == id && c.length == 2 && (c.buffer matches Some(code) ==> code.len() == 0)
}

/// A layer without pixels has four channels without samples, the transparency first and
/// then red, green and blue, and behind them one for each of its masks. A mask without
/// pixels has no samples either.
pub proof fn law_empty_channels_written(
    d: LayerChannelView,
    l: LayerView,
    background: bool,
    options: WriteOptions,
    psb: bool,
)
    requires
        own_pixels(l.image_data, l.canvas) is None,
        l.raw_data is None,
        channels::codes_layer(d, l, background, options, psb),
    ensures
        ({
            let mask: int = if l.additional_info.mask is Some {
                1
            } else {
                0
            };
            let more: int = if l.additional_info.real_mask is Some {
                1
            } else {
                0
            };
            &&& d.bounds.top == place_or_zero(l.top) && d.bounds.bottom == d.bounds.top
            &&& d.bounds.left == place_or_zero(l.left) && d.bounds.right == d.bounds.left
            &&& d.channels.len() == 4 + mask + more
            &&& without_samples(d.channels[0], ChannelId::Transparency)
            &&& without_samples(d.channels[1], ChannelId::Color0)
            &&& without_samples(d.channels[2], ChannelId::Color1)
            &&& without_samples(d.channels[3], ChannelId::Color2)
            &&& l.additional_info.mask matches Some(m) ==> d.channels[4].channel_id
                == ChannelId::UserMask && (own_pixels(m.image_data, m.canvas) is None
                ==> without_samples(d.channels[4], ChannelId::UserMask))
            &&& l.additional_info.real_mask matches Some(m) ==> d.channels[4 + mask].channel_id
                == ChannelId::RealUserMask && (own_pixels(m.image_data, m.canvas) is None
                ==> without_samples(d.channels[4 + mask], ChannelId::RealUserMask))
        }),
{
    let plan = channels::channel_plan(l, background, options, psb);
    let zip = options.compress == Some(true);
    assert(plan =~= channels::empty_plan() + channels::mask_plan(
        l.additional_info.mask,
        ChannelId::UserMask,
    ) + channels::mask_plan(l.additional_info.real_mask, ChannelId::RealUserMask));
    assert(channels::codes(d.channels[0], plan[0], zip, psb));
    assert(channels::codes(d.channels[1], plan[1], zip, psb));
    assert(channels::codes(d.channels[2], plan[2], zip, psb));
    assert(channels::codes(d.channels[3], plan[3], zip, psb));
    assert(plan.len() > 4 ==> channels::codes(d.channels[4], plan[4], zip, psb));
    assert(plan.len() > 5 ==> channels::codes(d.channels[5], plan[5], zip, psb));
}

/// Stored channels that are written as they are stay in their order, each with its number,
/// the way it is stored and its bytes.
pub proof fn law_stored_channels_kept(
    d: LayerChannelView,
    l: LayerView,
    raw: RawDataView,
    background: bool,
    options: WriteOptions,
    psb: bool,
)
    requires
        own_pixels(l.image_data, l.canvas) is None,
        l.raw_data == Some(raw),
        raw.color_mode == ColorMode::Rgb,
        raw.bits_per_channel == 8,
        raw.large == psb,
        channels::codes_layer(d, l, background, options, psb),
    ensures
        d.channels.len() == raw.channels.len(),
        forall|i: int|
            0 <= i < raw.channels.len() ==> (#[trigger] d.channels[i]).channel_id
                == raw.channels[i].id && d.channels[i].compression == raw.channels[i].compression
                && d.channels[i].buffer == raw.channels[i].data && (raw.channels[i].data matches Some(
                code,
            ) ==> code.len() + 2 <= usize::MAX ==> d.channels[i].length == code.len() + 2),
{
    let plan = channels::channel_plan(l, background, options, psb);
    let zip = options.compress == Some(true);
    assert(plan == channels::stored_plan(raw));
    assert forall|i: int| 0 <= i < raw.channels.len() implies (#[trigger] d.channels[i]).channel_id
        == raw.channels[i].id && d.channels[i].compression == raw.channels[i].compression
        && d.channels[i].buffer == raw.channels[i].data && (raw.channels[i].data matches Some(code)
        ==> code.len() + 2 <= usize::MAX ==> d.channels[i].length == code.len() + 2) by {
        assert(channels::codes(d.channels[i], plan[i], zip, psb));
    }
}

/// A composite image has come back: black where there was none; otherwise with the
/// opacities it had and, where these are none or full, with its colours.
pub open spec fn composite_kept(own: Option<PixelDataView>, found: PixelDataView) -> bool {
    &&& found.data.len() == 4 * (found.width * found.height)
    &&& forall|k: int, c: int|
        #![trigger found.data[4 * k + c]]
        0 <= k < found.width * found.height && 0 <= c < 4 ==> match own {
            None => found.data[4 * k + c] == (if c == 3 {
                255int
            } else {
                0int
            }),
            Some(p) => c == 3 || p.data[4 * k + 3] == 0 || p.data[4 * k + 3] == 255
                ==> found.data[4 * k + c] == p.data[4 * k + c],
        }
}

/// A document comes back as 8-bit RGB with its size, with three channels, or four where a
/// pixel of its image is not fully opaque, without a palette, with its resources and its
/// global mask. Without an image it is black; fully opaque and fully transparent pixels are
/// as they were.
pub proof fn law_document_comes_back(psd: PsdView, options: WriteOptions, settings: ReadOptions)
    requires
        document_writer::writable(psd, options),
        psd.raw_composite_data is None,
        settings.use_raw_data != Some(true),
        settings.skip_composite_image_data != Some(true),
    ensures
        ({
            let found = document_laws::stored_psd(psd, options, settings);
            let own = own_pixels(psd.image_data, psd.canvas);
            let clear = own is Some && sees_through(own->Some_0);
            let image = if settings.use_image_data == Some(true) {
                found.image_data
            } else {
                found.canvas
            };
            let list = match psd.image_resources {
                Some(list) => list,
                None => Seq::empty(),
            };
            &&& found.width == psd.width && found.height == psd.height
            &&& found.bits_per_channel == Some(8u16) && found.color_mode == Some(ColorMode::Rgb)
            &&& found.channels == Some(
                if clear {
                    4u16
                } else {
                    3u16
                },
            )
            &&& found.palette is None && found.raw_composite_data is None
            &&& found.global_layer_mask_info == psd.global_layer_mask_info
            &&& found.additional_info.blocks == psd.additional_info.blocks
            &&& settings.skip_thumbnail != Some(true) ==> found.image_resources == (if list.len()
                == 0 {
                None
            } else {
                Some(list)
            })
            &&& image matches Some(q) && q.width == psd.width && q.height == psd.height
                && composite_kept(own, q)
            &&& psd.children is None ==> found.children == Some(Seq::<LayerView>::empty())
        }),
{
    let own = document_writer::own_image(psd);
    document_writer::lemma_written(psd, options);
    crate::part_laws::law_thumbnail(
        document_writer::written_resources(psd),
        settings.skip_thumbnail,
    );
    assert(document_writer::document_image(psd, options) == own);
    if own is Some {
        lemma_sees_through(own->Some_0);
    }
    let image = document_laws::stored_image(psd, options);
    let size = psd.width * psd.height * 4;
    assert(0 <= psd.width * psd.height) by (nonlinear_arith);
    let alpha = document_writer::document_alpha(psd, options);
    if own is Some {
        let p = own->Some_0;
        let plain = p.data.take(size);
        crate::image_laws::law_matte(plain, size);
        crate::image_laws::law_matte(matte::matted(plain, size), size);
        let over = matte::matted(plain, size);
        let under = matte::unmatted(over, size);
        assert forall|k: int, c: int|
            #![trigger image.data[4 * k + c]]
            0 <= k < psd.width * psd.height && 0 <= c < 4 && (c == 3 || p.data[4 * k + 3] == 0
                || p.data[4 * k + 3] == 255) implies image.data[4 * k + c] == p.data[4 * k + c] by {
            let i = 4 * k + c;
            assert(i - i % 4 + 3 == 4 * k + 3);
            assert(over[4 * k + 3] == plain[4 * k + 3]);
            assert(over[i] == plain[i]);
            assert(under[i] == over[i]);
        }
    }
}

/// Layers that are no groups come back in their order: each as its own law says.
pub proof fn law_layers_come_back(
    psd: PsdView,
    children: Seq<LayerView>,
    options: WriteOptions,
    settings: ReadOptions,
)
    requires
        psd.children == Some(children),
        children.len() > 0,
        forall|i: int|
            0 <= i < children.len() ==> (#[trigger] children[i]).children is None
                && children[i].raw_data is None && layer_tree::record_type(children[i])
                == psd::SectionDividerType::Other,
        settings.use_raw_data != Some(true),
        settings.skip_layer_image_data != Some(true),
    ensures
        ({
            let found = document_laws::stored_psd(psd, options, settings).children;
            found matches Some(layers) && layers.len() == children.len() && forall|i: int|
                0 <= i < children.len() ==> #[trigger] layers[i] == layer_laws::stored_layer(
                    children[i],
                    options,
                    settings.use_image_data == Some(true),
                    options.psb == Some(true),
                )
        }),
{
    let psb = document_writer::wants_psb(options);
    let change = |l: LayerView|
        document_laws::read_layer(recode::recoded(l, psb), false, options, settings);
    lemma_regrouped(children, change);
    let layers = document_laws::decoded_children(psd, options, settings);
    assert(layers == layer_tree::regrouped_all(children, change));
    assert forall|i: int| 0 <= i < children.len() implies #[trigger] layers[i]
        == layer_laws::stored_layer(
        children[i],
        options,
        settings.use_image_data == Some(true),
        options.psb == Some(true),
    ) by {
        assert(children[i].raw_data is None);
        reveal(document_laws::read_layer);
        assert(layers[i] == change(children[i]));
    }
}

proof fn lemma_regrouped(children: Seq<LayerView>, change: spec_fn(LayerView) -> LayerView)
    requires
        forall|i: int| 0 <= i < children.len() ==> (#[trigger] children[i]).children is None,
    ensures
        layer_tree::regrouped_all(children, change).len() == children.len(),
        forall|i: int|
            0 <= i < children.len() ==> #[trigger] layer_tree::regrouped_all(children, change)[i]
                == change(children[i]),
    decreases children.len(),
{
    if children.len() > 0 {
        let first = children.drop_last();
        assert forall|i: int| 0 <= i < first.len() implies (
        #[trigger] first[i]).children is None by {
            assert(first[i] == children[i]);
        }
        lemma_regrouped(first, change);
        assert(children[children.len() - 1].children is None);
        assert(layer_tree::regrouped(children.last(), change) == change(children.last()));
    }
}

} // verus!
