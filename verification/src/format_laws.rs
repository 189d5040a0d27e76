//! What is written byte by byte: what no reader looks at, and how much room all takes.

use vstd::prelude::*;

use crate::bytes;
use crate::header;
use crate::header::Header;
use crate::helpers::Bounds;
use crate::info;
use crate::layer_writer;
use crate::mask;
use crate::number_laws;
use crate::number_laws::{number16, number32, signed16, spells};
use crate::palette;
use crate::part_laws;
use crate::pattern;
use crate::pattern_writer;
use crate::psd::{
    AdditionalInfoView, GlobalLayerMaskInfo, LayerMaskView, LayerView, PaletteColor, PatternView,
    ResourceBlockView, SectionDividerType, WriteOptions,
};
use crate::record_writer;
use crate::resources;
use crate::rle;
use crate::writer;

verus! {

broadcast use crate::bytes::group_bytes;

/// The head of a document: `8BPS`, the version, six zeros, the number of channels, the
/// height, the width, the depth and the number of the colour mode.
pub proof fn law_head_written(h: Header)
    ensures
        ({
            let s = header::header_bytes(h);
            &&& s.len() == 26
            &&& spells(s, 0, seq!['8', 'B', 'P', 'S'])
            &&& number16(s, 4) == (if h.large {
                2int
            } else {
                1int
            })
            &&& forall|i: int| 6 <= i < 12 ==> #[trigger] s[i] == 0
            &&& number16(s, 12) == h.channels
            &&& number32(s, 14) == h.height
            &&& number32(s, 18) == h.width
            &&& number16(s, 22) == h.bits_per_channel
            &&& number16(s, 24) == part_laws::mode_number(h.color_mode)
        }),
{
    let s = header::header_bytes(h);
    number_laws::lemma_u32_written(h.height);
    number_laws::lemma_u32_written(h.width);
    lemma_copied(s, 14, bytes::u32_bytes(h.height));
    lemma_copied(s, 18, bytes::u32_bytes(h.width));
    assert(s[0] == 56 && s[1] == 66 && s[2] == 80 && s[3] == 83) by {
        reveal(bytes::u32_bytes);
        let t = bytes::u32_bytes(header::SIGNATURE_8BPS);
        assert(s[0] == t[0] && s[1] == t[1] && s[2] == t[2] && s[3] == t[3]);
    }
    assert(seq!['8', 'B', 'P', 'S'][0] as int == 56);
    reveal(bytes::u16_bytes);
}

/// Four bytes that stand elsewhere make up the same number there.
proof fn lemma_copied(s: Seq<u8>, at: int, piece: Seq<u8>)
    requires
        piece.len() == 4,
    ensures
        s[at] == piece[0] && s[at + 1] == piece[1] && s[at + 2] == piece[2] && s[at + 3] == piece[3]
            ==> number32(s, at) == number32(piece, 0),
{
}

/// An image resource: `8BIM`, its number, a name without characters in two bytes, its
/// length, its bytes, and a zero where their number is odd.
pub proof fn law_resource_written(resource: ResourceBlockView)
    requires
        resource.data.len() + 4 < 0x1_0000_0000,
    ensures
        ({
            let s = resources::resource_bytes(resource);
            let n = resource.data.len() as int;
            &&& s.len() == 12 + n + n % 2
            &&& spells(s, 0, seq!['8', 'B', 'I', 'M'])
            &&& number16(s, 4) == resource.id
            &&& s[6] == 0 && s[7] == 0
            &&& number32(s, 8) == n
            &&& forall|i: int| 0 <= i < n ==> s[12 + i] == #[trigger] resource.data[i]
            &&& n % 2 == 1 ==> s[12 + n] == 0
        }),
{
    let s = resources::resource_bytes(resource);
    let n = resource.data.len() as int;
    let inner = writer::section_bytes(resource.data, 2, false, false);
    number_laws::law_section_written(resource.data, 2, false, false);
    assert forall|i: int| 0 <= i < inner.len() implies s[8 + i] == #[trigger] inner[i] by {}
    assert(s[8] == inner[0] && s[9] == inner[1] && s[10] == inner[2] && s[11] == inner[3]);
    assert forall|i: int| 0 <= i < n implies s[12 + i] == #[trigger] resource.data[i] by {
        assert(inner[4 + i] == resource.data[i]);
    }
    if n % 2 == 1 {
        assert(inner[4 + n] == 0);
    }
    assert(s[0] == 56 && s[1] == 66 && s[2] == 73 && s[3] == 77) by {
        reveal(bytes::u32_bytes);
        let t = bytes::u32_bytes(info::SIGNATURE_8BIM);
        assert(s[0] == t[0] && s[1] == t[1] && s[2] == t[2] && s[3] == t[3]);
    }
    assert(seq!['8', 'B', 'I', 'M'][0] as int == 56);
    reveal(bytes::u16_bytes);
}

/// The `i`-th colour of a palette stands in these bytes; black where the palette lacks it.
pub open spec fn color_stands(s: Seq<u8>, colors: Seq<PaletteColor>, i: int) -> bool {
    if i < colors.len() {
        s[4 + i] == colors[i].r && s[260 + i] == colors[i].g && s[516 + i] == colors[i].b
    } else {
        s[4 + i] == 0 && s[260 + i] == 0 && s[516 + i] == 0
    }
}

/// The colours of a palette: 256 reds, as many greens and as many blues, with zeros for
/// colours that it lacks.
pub proof fn law_palette_written(colors: Seq<PaletteColor>)
    ensures
        ({
            let s = palette::palette_bytes(Some(colors));
            &&& s.len() == 772
            &&& number32(s, 0) == 768
            &&& forall|i: int| 0 <= i < 256 ==> #[trigger] color_stands(s, colors, i)
        }),
        palette::palette_bytes(None).len() == 4,
        number32(palette::palette_bytes(None), 0) == 0,
{
    let body = palette::palette_body(Some(colors));
    let s = palette::palette_bytes(Some(colors));
    number_laws::law_section_written(body, 1, false, false);
    number_laws::law_section_written(palette::palette_body(None), 1, false, false);
    assert forall|i: int| 0 <= i < 256 implies #[trigger] color_stands(s, colors, i) by {
        lemma_color_stands(body, s, colors, i);
    }
}

proof fn lemma_color_stands(body: Seq<u8>, s: Seq<u8>, colors: Seq<PaletteColor>, i: int)
    requires
        body == palette::palette_body(Some(colors)),
        0 <= i < 256,
        forall|k: int| 0 <= k < 768 ==> s[4 + k] == #[trigger] body[k],
    ensures
        color_stands(s, colors, i),
{
    assert(s[4 + i] == body[i]);
    assert(s[4 + (256 + i)] == body[256 + i]);
    assert(s[4 + (512 + i)] == body[512 + i]);
}

/// The global mask: four times the sample of a colour behind its space, the opacity, the
/// kind, and three zeros.
pub proof fn law_global_mask_written(m: GlobalLayerMaskInfo)
    ensures
        ({
            let s = mask::global_mask_body(Some(m));
            &&& s.len() == 16
            &&& number16(s, 0) == m.overlay_color_space
            &&& number16(s, 2) == m.color_space1
            &&& number16(s, 4) == m.color_space2
            &&& number16(s, 6) == m.color_space3
            &&& number16(s, 8) == m.color_space4
            &&& number16(s, 10) == m.opacity
            &&& s[12] == m.kind
            &&& s[13] == 0 && s[14] == 0 && s[15] == 0
        }),
        mask::global_mask_body(None).len() == 0,
{
    reveal(bytes::u16_bytes);
}

/// The weight of what is there.
pub open spec fn weight(there: bool, w: int) -> int {
    if there {
        w
    } else {
        0
    }
}

/// A mask has parameters.
pub open spec fn has_params(m: LayerMaskView) -> bool {
    m.user_mask_density is Some || m.user_mask_feather is Some || m.vector_mask_density is Some
        || m.vector_mask_feather is Some
}

/// The masks of a layer: the rectangle, colour and flags of the first take 18 bytes, those
/// of the real mask as many, parameters one byte that tells which there are and one or
/// eight for each, and two zeros are at the end.
pub proof fn law_masks_written(
    i: AdditionalInfoView,
    bounds: Option<Bounds>,
    real_bounds: Option<Bounds>,
)
    ensures
        ({
            let s = mask::mask_body(i, bounds, real_bounds);
            let m = match i.mask {
                Some(m) => m,
                None => crate::psd::empty_mask(),
            };
            let extra = weight(i.real_mask is Some, 18) + weight(has_params(m), 1) + weight(
                m.user_mask_density is Some,
                1,
            ) + weight(m.user_mask_feather is Some, 8) + weight(m.vector_mask_density is Some, 1)
                + weight(m.vector_mask_feather is Some, 8);
            &&& i.mask is None && i.real_mask is None ==> s.len() == 0
            &&& i.mask is Some || i.real_mask is Some ==> {
                &&& s.len() == 18 + extra + 2
                &&& s[18 + extra] == 0 && s[18 + extra + 1] == 0
                &&& s[16] == (match m.default_color {
                    Some(c) => c as int,
                    None => 0,
                })
                &&& s[17] == weight(m.position_relative_to_layer == Some(true), 1) + weight(
                    m.disabled == Some(true),
                    2,
                ) + weight(m.from_vector_data == Some(true), 8) + weight(has_params(m), 16)
            }
            &&& i.mask is Some && has_params(m) ==> s[18 + weight(i.real_mask is Some, 18)]
                == weight(m.user_mask_density is Some, 1) + weight(m.user_mask_feather is Some, 2)
                + weight(m.vector_mask_density is Some, 4) + weight(
                m.vector_mask_feather is Some,
                8,
            )
            &&& i.real_mask matches Some(o) ==> {
                &&& s[18] == weight(o.position_relative_to_layer == Some(true), 1) + weight(
                    o.disabled == Some(true),
                    2,
                ) + weight(o.from_vector_data == Some(true), 8)
                &&& s[19] == (match o.default_color {
                    Some(c) => c as int,
                    None => 0,
                })
            }
        }),
{
    reveal(mask::optional_u8_bytes);
    reveal(mask::optional_u64_bytes);
    reveal(mask::params_of);
    reveal(mask::plain_flags);
    reveal(mask::flags_of);
}

/// The section about layers: where its length ends all begins that the length counts, up
/// to a multiple of four with zeros; in front stands the number of layers, a negative one
/// where the composite image has a transparency channel.
pub proof fn law_layer_info_written(
    data: Seq<u8>,
    layers: Seq<LayerView>,
    global_alpha: bool,
    options: WriteOptions,
    psb: bool,
)
    requires
        layer_writer::is_layer_info(data, layers, global_alpha, options, psb),
        data.len() < 0x1_0000_0000,
        layers.len() <= 32767,
    ensures
        ({
            let start: int = if psb {
                8
            } else {
                4
            };
            &&& (data.len() - start) % 4 == 0
            &&& number32(data, start - 4) == data.len() - start
            &&& psb ==> number32(data, 0) == 0
            &&& signed16(data, start) == (if global_alpha {
                -(layers.len() as int)
            } else {
                layers.len() as int
            })
        }),
{
    reveal(layer_writer::is_layer_info);
    let ds = choose|ds: Seq<crate::channels::LayerChannelView>| #[trigger]
        layer_writer::codes_layers(ds, layers, options, psb) && data == writer::section_bytes(
            layer_writer::layer_info_body(ds, global_alpha, psb),
            4,
            true,
            psb,
        );
    let bits = layer_writer::count_bits(ds.len() as int, global_alpha);
    let count = bytes::u16_bytes(bits);
    let rest = bytes::concat(layer_writer::record_pieces(ds, psb)) + bytes::concat(
        layer_writer::pixel_pieces(ds),
    );
    number_laws::law_numbers_written(bits, 0, 0, 0, 0);
    lemma_counted(data, count, rest, psb);
}

proof fn lemma_counted(data: Seq<u8>, count: Seq<u8>, rest: Seq<u8>, psb: bool)
    requires
        count.len() == 2,
        data.len() < 0x1_0000_0000,
        data == writer::section_bytes(count + rest, 4, true, psb),
    ensures
        ({
            let start: int = if psb {
                8
            } else {
                4
            };
            &&& (data.len() - start) % 4 == 0
            &&& number32(data, start - 4) == data.len() - start
            &&& psb ==> number32(data, 0) == 0
            &&& data[start] == count[0]
            &&& data[start + 1] == count[1]
        }),
{
    let body = count + rest;
    let start: int = if psb {
        8
    } else {
        4
    };
    assert(data.len() >= body.len() + 4);
    number_laws::law_section_written(body, 4, true, psb);
    assert(data[start + 0] == body[0]);
    assert(data[start + 1] == body[1]);
}

/// A number of four letters.
pub open spec fn letters_number(a: char, b: char, c: char, d: char) -> int {
    ((a as int * 256 + b as int) * 256 + c as int) * 256 + d as int
}

/// The pixels of a layer count for nothing where it begins or ends a group, or where one of
/// its blocks is a vector mask or an adjustment.
pub proof fn law_irrelevant_pixels(i: AdditionalInfoView)
    ensures
        record_writer::pixels_irrelevant(i) <==> {
            ||| i.section_divider matches Some(d) && d.divider_type != SectionDividerType::Other
            ||| exists|k: int| 0 <= k < i.blocks.len() && #[trigger] replaces(i.blocks[k].key as int)
        },
{
    assert forall|k: int| 0 <= k < i.blocks.len() implies record_writer::replaces_pixels(
        (#[trigger] i.blocks[k]).key,
    ) == replaces(i.blocks[k].key as int) by {}
    if record_writer::pixels_irrelevant(i) {
        if !(i.section_divider matches Some(d) && d.divider_type != SectionDividerType::Other) {
            let k = choose|k: int|
                0 <= k < i.blocks.len() && record_writer::replaces_pixels(
                    (#[trigger] i.blocks[k]).key,
                );
            assert(replaces(i.blocks[k].key as int));
        }
    }
}

/// The block is a vector mask or an adjustment.
pub open spec fn replaces(key: int) -> bool {
    ||| key == letters_number('v', 'm', 's', 'k')
    ||| key == letters_number('v', 's', 'm', 's')
    ||| key == letters_number('b', 'r', 'i', 't')
    ||| key == letters_number('l', 'e', 'v', 'l')
    ||| key == letters_number('c', 'u', 'r', 'v')
    ||| key == letters_number('e', 'x', 'p', 'A')
    ||| key == letters_number('v', 'i', 'b', 'A')
    ||| key == letters_number('h', 'u', 'e', ' ')
    ||| key == letters_number('h', 'u', 'e', '2')
    ||| key == letters_number('b', 'l', 'n', 'c')
    ||| key == letters_number('b', 'l', 'w', 'h')
    ||| key == letters_number('p', 'h', 'f', 'l')
    ||| key == letters_number('m', 'i', 'x', 'r')
    ||| key == letters_number('c', 'l', 'r', 'L')
    ||| key == letters_number('n', 'v', 'r', 't')
    ||| key == letters_number('p', 'o', 's', 't')
    ||| key == letters_number('t', 'h', 'r', 's')
    ||| key == letters_number('g', 'r', 'd', 'm')
    ||| key == letters_number('s', 'e', 'l', 'c')
}

/// The opacities of a pattern are written too, in the last of its places for channels: as
/// a run-length coded channel of eight bits with the rectangle of the pattern, which
/// stands for the opacity of each pixel.
pub proof fn law_pattern_opacity_written(p: PatternView)
    requires
        pattern_writer::pattern_writable(p),
        rle::lengths_fit(p.bounds.w as int, false),
        pattern_writer::scratch_fits(p, None),
        pattern_writer::sample_code(p, 3).len() + 64 < 0x1_0000_0000,
    ensures
        pattern_writer::place_pieces(p).len() == 26,
        ({
            let s = pattern_writer::place_pieces(p)[25];
            &&& number32(s, 0) == 1
            &&& number32(s, 4) == s.len() - 8
            &&& number32(s, 8) == 8
            &&& number32(s, 12) == p.bounds.y
            &&& number32(s, 16) == p.bounds.x
            &&& number32(s, 20) == p.bounds.y + p.bounds.h
            &&& number32(s, 24) == p.bounds.x + p.bounds.w
            &&& number16(s, 28) == 8
            &&& s[30] == 1
            &&& pattern::pattern_samples(
                pattern::PatternChannelView {
                    rect: pattern_writer::pattern_rect(p),
                    depth: 8,
                    depth2: 8,
                    compression: 1,
                    data: s.skip(31),
                },
                None,
            ) matches Ok(found) && {
                &&& found.len() == p.bounds.w * p.bounds.h
                &&& forall|k: int| 0 <= k < found.len() ==> #[trigger] found[k] == p.data[4 * k + 3]
            }
        }),
        forall|i: int|
            3 <= i < 25 ==> (#[trigger] pattern_writer::place_pieces(p)[i]).len() == 4 && number32(
                pattern_writer::place_pieces(p)[i],
                0,
            ) == 0,
{
    reveal(pattern_writer::place_bytes);
    let rect = pattern_writer::pattern_rect(p);
    let code = pattern_writer::sample_code(p, 3);
    let s = pattern_writer::place_pieces(p)[25];
    assert(s == pattern_writer::taken_place(rect, code));
    number_laws::lemma_u32_written(0);
    number_laws::lemma_u32_written(1);
    number_laws::lemma_u32_written(8);
    number_laws::lemma_u32_written((code.len() + 23) as u32);
    number_laws::lemma_u32_written(rect.top);
    number_laws::lemma_u32_written(rect.left);
    number_laws::lemma_u32_written(rect.bottom);
    number_laws::lemma_u32_written(rect.right);
    number_laws::lemma_u16_written(8);
    lemma_copied(s, 0, bytes::u32_bytes(1));
    lemma_copied(s, 4, bytes::u32_bytes((code.len() + 23) as u32));
    lemma_copied(s, 8, bytes::u32_bytes(8));
    lemma_copied(s, 12, bytes::u32_bytes(rect.top));
    lemma_copied(s, 16, bytes::u32_bytes(rect.left));
    lemma_copied(s, 20, bytes::u32_bytes(rect.bottom));
    lemma_copied(s, 24, bytes::u32_bytes(rect.right));
    assert(s[28] == bytes::u16_bytes(8)[0] && s[29] == bytes::u16_bytes(8)[1]);
    assert(s.skip(31) =~= code);
    pattern_writer::lemma_samples_read_back(p, 3, None);
    assert(0 <= p.bounds.w * p.bounds.h) by (nonlinear_arith);
}

} // verus!
