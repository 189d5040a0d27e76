//! Where everything that is said of a document lies in it: which bytes are its head, its
//! palette, its resources, its blocks, its global mask, and the masks and blending ranges
//! of its layers.

use vstd::prelude::*;

use crate::bytes;
use crate::decode_laws;
use crate::error::ErrorView;
use crate::header;
use crate::helpers;
use crate::info;
use crate::layout_laws;
use crate::layout_laws::flag;
use crate::mask;
use crate::number_laws;
use crate::number_laws::{moved_to, number16, number32, number64, signed32, spells};
use crate::palette;
use crate::psd::{
    AdditionalInfoView, BlendingRange, ChannelId, ColorMode, Compression, InfoBlockView,
    LayerMaskView, ResourceBlockView, SectionDividerType,
};
use crate::reader;
use crate::reader::{ReaderState, Section};
use crate::records;
use crate::records::ChannelInfo;
use crate::resources;
use crate::text;

verus! {

broadcast use crate::bytes::group_bytes;

/// A mask has the rectangle, the colour and the flags of these bytes.
pub open spec fn mask_head_at(
    s: Seq<u8>,
    bounds: int,
    color: int,
    flags: int,
    m: LayerMaskView,
) -> bool {
    &&& m.top == Some(signed32(s, bounds) as i32)
    &&& m.left == Some(signed32(s, bounds + 4) as i32)
    &&& m.bottom == Some(signed32(s, bounds + 8) as i32)
    &&& m.right == Some(signed32(s, bounds + 12) as i32)
    &&& m.default_color == Some(s[color])
    &&& m.position_relative_to_layer == Some(flag(s[flags], 1))
    &&& m.disabled == Some(flag(s[flags], 2))
    &&& m.from_vector_data == Some(flag(s[flags], 8))
    &&& m.canvas is None
    &&& m.image_data is None
}

/// A mask has no parameters.
pub open spec fn no_params(m: LayerMaskView) -> bool {
    m.user_mask_density is None && m.user_mask_feather is None && m.vector_mask_density is None
        && m.vector_mask_feather is None
}

/// A mask has the parameters of these bytes: a byte that says which of them there are, and
/// behind it, as far as they are there, the density and the feather of the mask and those
/// of the vector mask.
pub open spec fn params_at(s: Seq<u8>, at: int, m: LayerMaskView) -> bool {
    let q = s[at];
    let a = at + 1;
    let b = if flag(q, 1) {
        a + 1
    } else {
        a
    };
    let c = if flag(q, 2) {
        b + 8
    } else {
        b
    };
    let d = if flag(q, 4) {
        c + 1
    } else {
        c
    };
    &&& m.user_mask_density == (if flag(q, 1) {
        Some(s[a])
    } else {
        None
    })
    &&& m.user_mask_feather == (if flag(q, 2) {
        Some(number64(s, b) as u64)
    } else {
        None
    })
    &&& m.vector_mask_density == (if flag(q, 4) {
        Some(s[c])
    } else {
        None
    })
    &&& m.vector_mask_feather == (if flag(q, 8) {
        Some(number64(s, d) as u64)
    } else {
        None
    })
}

proof fn lemma_params(r: ReaderState, m: LayerMaskView)
    requires
        0 <= r.offset,
        no_params(m),
    ensures
        match mask::get_mask_params(r, m) {
            Ok((found, after)) => {
                &&& params_at(r.buffer, r.offset, found)
                &&& found == (LayerMaskView {
                    user_mask_density: found.user_mask_density,
                    user_mask_feather: found.user_mask_feather,
                    vector_mask_density: found.vector_mask_density,
                    vector_mask_feather: found.vector_mask_feather,
                    ..m
                })
                &&& r.offset < after.offset <= r.buffer.len()
                &&& moved_to(r, after, after.offset)
            },
            Err(_) => true,
        },
{
    number_laws::law_short_numbers_read(r);
    if r.offset + 1 <= r.buffer.len() {
        let q = r.buffer[r.offset];
        layout_laws::lemma_flags(q);
        let r1 = r.at(r.offset + 1);
        number_laws::law_short_numbers_read(r1);
        match mask::get_optional_u8(r1, flag(q, 1)) {
            Err(_) => {},
            Ok((_, r2)) => {
                number_laws::law_long_numbers_read(r2);
                match mask::get_optional_u64(r2, flag(q, 2)) {
                    Err(_) => {},
                    Ok((_, r3)) => {
                        number_laws::law_short_numbers_read(r3);
                        match mask::get_optional_u8(r3, flag(q, 4)) {
                            Err(_) => {},
                            Ok((_, r4)) => {
                                number_laws::law_long_numbers_read(r4);
                            },
                        }
                    },
                }
            },
        }
    }
}

/// The masks of a layer lie in these bytes: a length; the rectangle, the colour and the
/// flags of the mask; where there is room, the flags, the colour and the rectangle of the
/// real mask; and the parameters of the mask, where its flags say so.
pub proof fn law_masks_read(r: ReaderState, i: AdditionalInfoView)
    requires
        0 <= r.offset,
        r.buffer.len() < usize::MAX,
    ensures
        match mask::get_masks(r, i) {
            Ok((found, after)) => {
                let s = r.buffer;
                let o = r.offset;
                let length = number32(s, o);
                let both = length >= 36;
                let params = if both {
                    o + 40
                } else {
                    o + 22
                };
                &&& o + 4 + length <= s.len()
                &&& moved_to(r, after, o + 4 + length)
                &&& length == 0 ==> found == i
                &&& length > 0 ==> {
                    &&& found == (AdditionalInfoView {
                        mask: found.mask,
                        real_mask: found.real_mask,
                        ..i
                    })
                    &&& found.mask matches Some(m) && mask_head_at(s, o + 4, o + 20, o + 21, m)
                        && if flag(s[o + 21], 16) {
                        params_at(s, params, m)
                    } else {
                        no_params(m)
                    }
                    &&& if both {
                        found.real_mask matches Some(m) && mask_head_at(
                            s,
                            o + 24,
                            o + 23,
                            o + 22,
                            m,
                        ) && no_params(m)
                    } else {
                        found.real_mask == i.real_mask
                    }
                }
            },
            Err(_) => true,
        },
{
    number_laws::law_long_numbers_read(r);
    if r.offset + 4 <= r.buffer.len() {
        number_laws::law_section_opened(r, true, false);
        match reader::open_section(r, true, false) {
            Ok((Some(section), r1)) => {
                lemma_mask_body(r1, section, i);
            },
            _ => {},
        }
    }
}

proof fn lemma_mask_body(r: ReaderState, section: Section, i: AdditionalInfoView)
    requires
        0 <= r.offset,
        r.buffer.len() < usize::MAX,
        section.end == r.offset + section.length,
        section.end <= r.buffer.len(),
        section.length > 0,
    ensures
        match mask::get_mask_body(r, section, i) {
            Ok((found, after)) => {
                let s = r.buffer;
                let o = r.offset;
                let both = section.length >= 36;
                let params = if both {
                    o + 36
                } else {
                    o + 18
                };
                &&& moved_to(r, after, after.offset)
                &&& 0 <= after.offset <= s.len()
                &&& found == (AdditionalInfoView {
                    mask: found.mask,
                    real_mask: found.real_mask,
                    ..i
                })
                &&& found.mask matches Some(m) && mask_head_at(s, o, o + 16, o + 17, m) && if flag(
                    s[o + 17],
                    16,
                ) {
                    params_at(s, params, m)
                } else {
                    no_params(m)
                }
                &&& if both {
                    found.real_mask matches Some(m) && mask_head_at(s, o + 20, o + 19, o + 18, m)
                        && no_params(m)
                } else {
                    found.real_mask == i.real_mask
                }
            },
            Err(_) => true,
        },
{
    layout_laws::law_box_read(r, "mask"@);
    let r1 = r.at(r.offset + 16);
    number_laws::law_short_numbers_read(r1);
    number_laws::law_short_numbers_read(r1.at(r1.offset + 1));
    if r.offset + 18 <= r.buffer.len() {
        let b = mask::get_box(r, "mask"@)->Ok_0.0;
        let f = r.buffer[r.offset + 17];
        layout_laws::lemma_flags(f);
        let r3 = r.at(r.offset + 18);
        let m = mask::mask_from(b, r.buffer[r.offset + 16], f);
        if section.rest(r3) >= 18 {
            number_laws::law_short_numbers_read(r3);
            number_laws::law_short_numbers_read(r3.at(r3.offset + 1));
            layout_laws::law_box_read(r3.at(r3.offset + 2), "real mask"@);
            layout_laws::lemma_flags(r.buffer[r.offset + 18]);
            lemma_params(r.at(r.offset + 36), m);
        } else {
            lemma_params(r3, m);
        }
    }
}

proof fn lemma_range_list(r: ReaderState, end: int, ranges: Seq<BlendingRange>)
    requires
        0 <= r.offset,
    ensures
        match mask::get_range_list(r, end, ranges) {
            Ok((found, after)) => {
                let n = ranges.len() as int;
                &&& moved_to(r, after, after.offset)
                &&& n <= found.len()
                &&& found.take(n) == ranges
                &&& after.offset == r.offset + 8 * (found.len() - n)
                &&& after.offset >= end
                &&& found.len() > n ==> after.offset - 8 < end && after.offset <= r.buffer.len()
                &&& forall|k: int|
                    n <= k < found.len() ==> (#[trigger] found[k]).source_range == number32(
                        r.buffer,
                        r.offset + 8 * (k - n),
                    ) && found[k].dest_range == number32(r.buffer, r.offset + 8 * (k - n) + 4)
            },
            Err(_) => true,
        },
    decreases
            (if end < r.offset {
                0
            } else {
                end - r.offset
            }),
{
    let n = ranges.len() as int;
    if end <= r.offset {
        assert(ranges.take(n) =~= ranges);
    } else {
        number_laws::law_long_numbers_read(r);
        number_laws::law_long_numbers_read(r.at(r.offset + 4));
        if r.offset + 8 <= r.buffer.len() {
            let source_range = number32(r.buffer, r.offset) as u32;
            let dest_range = number32(r.buffer, r.offset + 4) as u32;
            let more = ranges.push(BlendingRange { source_range, dest_range });
            let r2 = r.at(r.offset + 8);
            lemma_range_list(r2, end, more);
            match mask::get_range_list(r2, end, more) {
                Err(_) => {},
                Ok((found, _)) => {
                    assert(found.take(n) =~= found.take(n + 1).take(n));
                    assert(more.take(n) =~= ranges);
                    assert(found[n] == found.take(n + 1)[n]);
                    assert forall|k: int|
                        n <= k < found.len() implies (#[trigger] found[k]).source_range == number32(
                        r.buffer,
                        r.offset + 8 * (k - n),
                    ) && found[k].dest_range == number32(r.buffer, r.offset + 8 * (k - n) + 4) by {
                        if k > n {
                            assert(r2.offset + 8 * (k - (n + 1)) == r.offset + 8 * (k - n));
                        }
                    }
                },
            }
        }
    }
}

/// The blending ranges of a layer lie in these bytes: a length, two numbers for the whole
/// and two for each channel, as far as the length goes.
pub proof fn law_ranges_read(r: ReaderState)
    requires
        0 <= r.offset,
        r.buffer.len() < usize::MAX,
    ensures
        match mask::get_ranges(r) {
            Ok((found, after)) => {
                let s = r.buffer;
                let o = r.offset;
                let length = number32(s, o);
                &&& o + 4 + length <= s.len()
                &&& moved_to(r, after, o + 4 + length)
                &&& length == 0 ==> found is None
                &&& length > 0 ==> (found matches Some(g) && {
                    &&& g.composite_gray_blend_source == number32(s, o + 4)
                    &&& g.composite_graph_blend_destination_range == number32(s, o + 8)
                    &&& length <= 8 + 8 * g.ranges.len()
                    &&& g.ranges.len() > 0 ==> 8 + 8 * (g.ranges.len() - 1) < length
                    &&& forall|k: int|
                        0 <= k < g.ranges.len() ==> (#[trigger] g.ranges[k]).source_range
                            == number32(s, o + 12 + 8 * k) && g.ranges[k].dest_range == number32(
                            s,
                            o + 12 + 8 * k + 4,
                        )
                })
            },
            Err(_) => true,
        },
{
    number_laws::law_long_numbers_read(r);
    if r.offset + 4 <= r.buffer.len() {
        number_laws::law_section_opened(r, true, false);
        match reader::open_section(r, true, false) {
            Ok((Some(section), r1)) => {
                number_laws::law_long_numbers_read(r1);
                number_laws::law_long_numbers_read(r1.at(r1.offset + 4));
                lemma_range_list(r1.at(r1.offset + 8), section.end as int, Seq::empty());
            },
            _ => {},
        }
    }
}

/// The global layer mask lies in these bytes: a length, the overlay colour space and its
/// four components, the opacity and the kind.
pub proof fn law_global_mask_read(r: ReaderState)
    requires
        0 <= r.offset,
        r.buffer.len() < usize::MAX,
    ensures
        match mask::get_global_mask(r) {
            Ok((found, after)) => {
                let s = r.buffer;
                let o = r.offset + 4;
                let length = number32(s, r.offset);
                &&& o + length <= s.len()
                &&& moved_to(r, after, o + length)
                &&& length == 0 ==> found is None
                &&& length > 0 ==> (found matches Some(g) && {
                    &&& g.overlay_color_space == number16(s, o)
                    &&& g.color_space1 == number16(s, o + 2)
                    &&& g.color_space2 == number16(s, o + 4)
                    &&& g.color_space3 == number16(s, o + 6)
                    &&& g.color_space4 == number16(s, o + 8)
                    &&& g.opacity == number16(s, o + 10)
                    &&& g.kind == s[o + 12]
                })
            },
            Err(_) => true,
        },
{
    number_laws::law_long_numbers_read(r);
    if r.offset + 4 <= r.buffer.len() {
        number_laws::law_section_opened(r, true, false);
        let r1 = r.at(r.offset + 4);
        number_laws::law_short_numbers_read(r1);
        number_laws::law_short_numbers_read(r1.at(r1.offset + 2));
        number_laws::law_short_numbers_read(r1.at(r1.offset + 4));
        number_laws::law_short_numbers_read(r1.at(r1.offset + 6));
        number_laws::law_short_numbers_read(r1.at(r1.offset + 8));
        number_laws::law_short_numbers_read(r1.at(r1.offset + 10));
        number_laws::law_short_numbers_read(r1.at(r1.offset + 12));
    }
}

/// The number of a colour mode.
pub open spec fn mode_number(mode: ColorMode) -> int {
    match mode {
        ColorMode::Bitmap => 0,
        ColorMode::Grayscale => 1,
        ColorMode::Indexed => 2,
        ColorMode::Rgb => 3,
        ColorMode::Cmyk => 4,
        ColorMode::Multichannel => 7,
        ColorMode::Duotone => 8,
        ColorMode::Lab => 9,
    }
}

/// The bytes from a place on are a head that can be read: `8BPS`, a version of 1 or 2, six
/// bytes that say nothing, at most 16 channels, a height and a width that the format allows,
/// samples of 1, 8, 16 or 32 bits, and one of the first four colour modes.
pub open spec fn head_at(s: Seq<u8>, o: int) -> bool {
    &&& o + 26 <= s.len()
    &&& spells(s, o, seq!['8', 'B', 'P', 'S'])
    &&& number16(s, o + 4) == 1 || number16(s, o + 4) == 2
    &&& number16(s, o + 12) <= 16
    &&& decode_laws::sides_fit(
        number32(s, o + 18),
        number32(s, o + 14),
        number16(s, o + 4) == 2,
    )
    &&& number16(s, o + 22) == 1 || number16(s, o + 22) == 8 || number16(s, o + 22) == 16
        || number16(s, o + 22) == 32
    &&& number16(s, o + 24) <= 3
}

/// The head of a document is accepted exactly where it can be read, and says what its
/// bytes say.
pub proof fn law_head_read(r: ReaderState)
    requires
        0 <= r.offset,
        r.offset + 26 <= r.buffer.len() <= usize::MAX,
    ensures
        match header::get_header(r) {
            Ok((h, after)) => {
                let s = r.buffer;
                let o = r.offset;
                &&& head_at(s, o)
                &&& h.large == (number16(s, o + 4) == 2)
                &&& h.channels == number16(s, o + 12)
                &&& h.height == number32(s, o + 14)
                &&& h.width == number32(s, o + 18)
                &&& h.bits_per_channel == number16(s, o + 22)
                &&& mode_number(h.color_mode) == number16(s, o + 24)
                &&& after == (ReaderState {
                    offset: o + 26,
                    large: h.large,
                    global_alpha: false,
                    ..r
                })
            },
            Err(e) => !head_at(r.buffer, r.offset) && (e is StrictViolation
                || e is InvalidSignature),
        },
{
    reveal_strlit("8BPS");
    assert("8BPS"@ =~= seq!['8', 'B', 'P', 'S']);
    layout_laws::lemma_signature_here(r, seq!['8', 'B', 'P', 'S']);
    number_laws::law_short_text_read(r, 4);
    let r1 = r.at(r.offset + 4);
    number_laws::law_short_numbers_read(r1);
    let r3 = r.at(r.offset + 12);
    number_laws::law_short_numbers_read(r3);
    number_laws::law_long_numbers_read(r3.at(r3.offset + 2));
    number_laws::law_long_numbers_read(r3.at(r3.offset + 6));
    number_laws::law_short_numbers_read(r3.at(r3.offset + 10));
    number_laws::law_short_numbers_read(r3.at(r3.offset + 12));
}

/// The palette of an indexed document is 256 reds, then 256 greens, then 256 blues behind
/// a length of 768; it has none where the length is zero, and other documents have none.
pub proof fn law_palette_read(r: ReaderState, mode: ColorMode)
    requires
        0 <= r.offset,
        r.offset + 4 <= r.buffer.len() < usize::MAX,
    ensures
        match palette::get_palette(r, mode) {
            Ok((found, after)) => {
                let s = r.buffer;
                let o = r.offset + 4;
                let length = number32(s, r.offset);
                &&& moved_to(r, after, o + length)
                &&& o + length <= s.len()
                &&& found is Some <==> mode == ColorMode::Indexed && length > 0
                &&& found matches Some(colors) ==> length == 768 && colors.len() == 256 && forall|
                    i: int,
                |
                    0 <= i < 256 ==> (#[trigger] colors[i]).r == s[o + i] && colors[i].g == s[o
                        + 256 + i] && colors[i].b == s[o + 512 + i]
            },
            Err(e) => {
                let length = number32(r.buffer, r.offset);
                if r.offset + 4 + length > r.buffer.len() {
                    e is SectionExceedsFileSize
                } else {
                    e is StrictViolation && mode == ColorMode::Indexed && length != 768 && length
                        != 0
                }
            },
        },
{
    number_laws::law_section_opened(r, true, false);
}

/// Four bytes spell four letters where the number that they make up is that of the
/// letters.
proof fn lemma_spelled(s: Seq<u8>, at: int, letters: Seq<char>, code: int)
    requires
        letters.len() == 4,
        (letters[0] as int) < 128,
        (letters[1] as int) < 128,
        (letters[2] as int) < 128,
        (letters[3] as int) < 128,
        code == ((letters[0] as int * 256 + letters[1] as int) * 256 + letters[2] as int) * 256
            + letters[3] as int,
    ensures
        spells(s, at, letters) <==> number32(s, at) == code,
{
    text::lemma_char_code(letters[0]);
    text::lemma_char_code(letters[1]);
    text::lemma_char_code(letters[2]);
    text::lemma_char_code(letters[3]);
    if spells(s, at, letters) {
        assert(s[at + 0] as int == letters[0] as int);
        assert(s[at + 1] as int == letters[1] as int);
        assert(s[at + 2] as int == letters[2] as int);
        assert(s[at + 3] as int == letters[3] as int);
    }
    if number32(s, at) == code {
        assert(s[at] as int == letters[0] as int);
        assert(s[at + 1] as int == letters[1] as int);
        assert(s[at + 2] as int == letters[2] as int);
        assert(s[at + 3] as int == letters[3] as int);
        assert forall|k: int| 0 <= k < letters.len() implies s[at + k] as int
            == #[trigger] letters[k] as int by {}
    }
}

/// The keys of blocks whose length takes eight bytes in the large document format.
pub open spec fn long_key(s: Seq<u8>, at: int) -> bool {
    ||| spells(s, at, seq!['L', 'M', 's', 'k'])
    ||| spells(s, at, seq!['L', 'r', '1', '6'])
    ||| spells(s, at, seq!['L', 'r', '3', '2'])
    ||| spells(s, at, seq!['L', 'a', 'y', 'r'])
    ||| spells(s, at, seq!['M', 't', '1', '6'])
    ||| spells(s, at, seq!['M', 't', '3', '2'])
    ||| spells(s, at, seq!['M', 't', 'r', 'n'])
    ||| spells(s, at, seq!['A', 'l', 'p', 'h'])
    ||| spells(s, at, seq!['F', 'M', 's', 'k'])
    ||| spells(s, at, seq!['l', 'n', 'k', '2'])
    ||| spells(s, at, seq!['F', 'E', 'i', 'd'])
    ||| spells(s, at, seq!['F', 'X', 'i', 'd'])
    ||| spells(s, at, seq!['P', 'x', 'S', 'D'])
    ||| spells(s, at, seq!['c', 'i', 'n', 'f'])
}

/// The keys that are told apart by their letters.
pub proof fn lemma_keys(s: Seq<u8>, at: int)
    ensures
        ({
            let key = number32(s, at) as u32;
            &&& info::large_key(key) == long_key(s, at)
            &&& info::holds_layers(key) == (spells(s, at, seq!['L', 'r', '1', '6']) || spells(
                s,
                at,
                seq!['L', 'r', '3', '2'],
            ))
            &&& info::divider_key(key) == (spells(s, at, seq!['l', 's', 'c', 't']) || spells(
                s,
                at,
                seq!['l', 's', 'd', 'k'],
            ))
            &&& info::valid_signature(key, false) == (spells(s, at, seq!['8', 'B', 'I', 'M'])
                || spells(s, at, seq!['8', 'B', '6', '4']))
            &&& (key == info::SIGNATURE_8B64) == spells(s, at, seq!['8', 'B', '6', '4'])
            &&& (key == info::SIGNATURE_8BIM) == spells(s, at, seq!['8', 'B', 'I', 'M'])
            &&& info::valid_signature(key, true) == (spells(s, at, seq!['8', 'B', 'I', 'M'])
                || spells(s, at, seq!['M', 'e', 'S', 'a']) || spells(
                s,
                at,
                seq!['A', 'g', 'H', 'g'],
            ) || spells(s, at, seq!['P', 'H', 'U', 'T']) || spells(
                s,
                at,
                seq!['D', 'C', 'S', 'R'],
            ))
        }),
{
    number_laws::lemma_number_range(s, at);
    lemma_spelled(s, at, seq!['L', 'M', 's', 'k'], 0x4C4D736B);
    lemma_spelled(s, at, seq!['L', 'r', '1', '6'], 0x4C723136);
    lemma_spelled(s, at, seq!['L', 'r', '3', '2'], 0x4C723332);
    lemma_spelled(s, at, seq!['L', 'a', 'y', 'r'], 0x4C617972);
    lemma_spelled(s, at, seq!['M', 't', '1', '6'], 0x4D743136);
    lemma_spelled(s, at, seq!['M', 't', '3', '2'], 0x4D743332);
    lemma_spelled(s, at, seq!['M', 't', 'r', 'n'], 0x4D74726E);
    lemma_spelled(s, at, seq!['A', 'l', 'p', 'h'], 0x416C7068);
    lemma_spelled(s, at, seq!['F', 'M', 's', 'k'], 0x464D736B);
    lemma_spelled(s, at, seq!['l', 'n', 'k', '2'], 0x6C6E6B32);
    lemma_spelled(s, at, seq!['F', 'E', 'i', 'd'], 0x46456964);
    lemma_spelled(s, at, seq!['F', 'X', 'i', 'd'], 0x46586964);
    lemma_spelled(s, at, seq!['P', 'x', 'S', 'D'], 0x50785344);
    lemma_spelled(s, at, seq!['c', 'i', 'n', 'f'], 0x63696E66);
    lemma_spelled(s, at, seq!['l', 's', 'c', 't'], 0x6C736374);
    lemma_spelled(s, at, seq!['l', 's', 'd', 'k'], 0x6C73646B);
    lemma_spelled(s, at, seq!['8', 'B', 'I', 'M'], 0x3842494D);
    lemma_spelled(s, at, seq!['8', 'B', '6', '4'], 0x38423634);
    lemma_spelled(s, at, seq!['M', 'e', 'S', 'a'], 0x4D655361);
    lemma_spelled(s, at, seq!['A', 'g', 'H', 'g'], 0x41674867);
    lemma_spelled(s, at, seq!['P', 'H', 'U', 'T'], 0x50485554);
    lemma_spelled(s, at, seq!['D', 'C', 'S', 'R'], 0x44435352);
}

/// The number of a part that a record plays in a group.
pub open spec fn part_number(t: SectionDividerType) -> int {
    match t {
        SectionDividerType::Other => 0,
        SectionDividerType::OpenFolder => 1,
        SectionDividerType::ClosedFolder => 2,
        SectionDividerType::BoundingSectionDivider => 3,
    }
}

/// What the block of a divider says: a number of 0 to 3 for the part that a record plays;
/// behind it, where there is more, `8BIM`, the letters of a blend mode, and a number for
/// the kind of group where there is room for it.
pub proof fn law_divider_read(data: Seq<u8>)
    ensures
        match info::divider_of(data) {
            Some(d) => {
                &&& data.len() >= 4
                &&& number32(data, 0) == part_number(d.divider_type)
                &&& data.len() == 4 <==> d.key is None
                &&& d.key matches Some(key) ==> data.len() >= 12 && spells(
                    data,
                    4,
                    seq!['8', 'B', 'I', 'M'],
                ) && key.len() == 4 && spells(data, 8, key)
                &&& d.sub_type is Some <==> data.len() >= 16
                &&& d.sub_type matches Some(kind) ==> kind == number32(data, 12)
            },
            None => data.len() < 4 || number32(data, 0) > 3 || 4 < data.len() < 12 || (data.len()
                >= 12 && !spells(data, 4, seq!['8', 'B', 'I', 'M'])),
        },
{
    number_laws::lemma_at(data, 0);
    number_laws::lemma_at(data, 4);
    number_laws::lemma_at(data, 12);
    lemma_keys(data, 4);
    if data.len() >= 12 {
        let part = data.subrange(8, 12);
        assert forall|k: int| 0 <= k < 4 implies data[8 + k] as int == #[trigger] text::latin1(
            part,
        )[k] as int by {
            assert(part[k] == data[8 + k]);
        }
    }
}

/// The payload of a block: a length in four bytes, or in eight of which the first four are
/// zero, as many bytes, and one more where their number is odd.
pub open spec fn payload_at(
    r: ReaderState,
    at: int,
    eight_bytes: bool,
    data: Seq<u8>,
    after: ReaderState,
) -> bool {
    let start = if eight_bytes {
        at + 8
    } else {
        at + 4
    };
    let length = number32(r.buffer, start - 4);
    &&& data.len() == length
    &&& start + length <= r.buffer.len()
    &&& forall|k: int| 0 <= k < length ==> #[trigger] data[k] == r.buffer[start + k]
    &&& after.offset == start + length + length % 2
    &&& moved_to(r, after, after.offset)
}

proof fn lemma_payload(r: ReaderState, eight_bytes: bool)
    requires
        0 <= r.offset,
        r.buffer.len() < usize::MAX,
    ensures
        info::get_payload(r, eight_bytes) matches Ok((data, after)) ==> payload_at(
            r,
            r.offset,
            eight_bytes,
            data,
            after,
        ),
{
    number_laws::law_long_numbers_read(r);
    number_laws::law_long_numbers_read(r.at(r.offset + 4));
    if r.offset + (if eight_bytes {
        8int
    } else {
        4int
    }) <= r.buffer.len() {
        number_laws::law_section_opened(r, false, eight_bytes);
        match reader::open_section(r, false, eight_bytes) {
            Ok((Some(section), r1)) => {
                number_laws::law_bytes_read(r1, section.length as int);
            },
            _ => {},
        }
    }
}

/// What is said of a layer has become more by the block whose payload is at a place.
pub open spec fn block_kept(
    r: ReaderState,
    at: int,
    eight_bytes: bool,
    divider: bool,
    key: u32,
    i: AdditionalInfoView,
    found: AdditionalInfoView,
    after: ReaderState,
) -> bool {
    exists|data: Seq<u8>| #[trigger]
        payload_at(r, at, eight_bytes, data, after) && found == (if divider && info::divider_of(
            data,
        ) is Some {
            AdditionalInfoView { section_divider: info::divider_of(data), ..i }
        } else {
            AdditionalInfoView { blocks: i.blocks.push(InfoBlockView { key, data }), ..i }
        })
}

/// A block of a layer lies in these bytes: `8BIM` or `8B64`, four letters that are its key,
/// and its payload. A divider says what part the layer plays in a group; any other block
/// is kept, behind those before it.
pub proof fn law_block_read(r: ReaderState, i: AdditionalInfoView)
    requires
        0 <= r.offset,
        r.offset + 8 <= r.buffer.len() < usize::MAX,
        spells(r.buffer, r.offset, seq!['8', 'B', 'I', 'M']) || spells(
            r.buffer,
            r.offset,
            seq!['8', 'B', '6', '4'],
        ),
    ensures
        ({
            let s = r.buffer;
            let o = r.offset;
            let layers = spells(s, o + 4, seq!['L', 'r', '1', '6']) || spells(
                s,
                o + 4,
                seq!['L', 'r', '3', '2'],
            );
            let divider = spells(s, o + 4, seq!['l', 's', 'c', 't']) || spells(
                s,
                o + 4,
                seq!['l', 's', 'd', 'k'],
            );
            let eight_bytes = spells(s, o, seq!['8', 'B', '6', '4']) || (r.large && long_key(
                s,
                o + 4,
            ));
            match info::get_block(r, i) {
                Ok((found, after)) => !layers && block_kept(
                    r,
                    o + 8,
                    eight_bytes,
                    divider,
                    number32(s, o + 4) as u32,
                    i,
                    found,
                    after,
                ),
                Err(e) => layers ==> e is StrictViolation,
            }
        }),
{
    let s = r.buffer;
    let o = r.offset;
    lemma_keys(s, o);
    lemma_keys(s, o + 4);
    number_laws::lemma_at(s, o);
    let r1 = r.at(o + 4);
    assert(info::get_block_signature(r, false) == Ok::<(u32, ReaderState), ErrorView>(
        (number32(s, o) as u32, r1),
    ));
    let four = s.subrange(o + 4, o + 8);
    number_laws::lemma_at(four, 0);
    assert(number32(four, 0) == number32(s, o + 4));
    let key = number32(s, o + 4) as u32;
    let r2 = r.at(o + 8);
    assert(info::get_key(r1) == Ok::<(u32, ReaderState), ErrorView>((key, r2)));
    let eight_bytes = number32(s, o) as u32 == info::SIGNATURE_8B64 || (r.large && info::large_key(
        key,
    ));
    lemma_payload(r2, eight_bytes);
    match info::get_payload(r2, eight_bytes) {
        Err(_) => {},
        Ok((data, after)) => {
            assert(payload_at(r2, r2.offset, eight_bytes, data, after));
            assert(payload_at(r, o + 8, eight_bytes, data, after));
        },
    }
}

/// An image resource lies in these bytes: a signature, its number, a name behind its
/// length byte that takes an even number of bytes, and its payload.
pub proof fn law_resource_read(r: ReaderState)
    requires
        0 <= r.offset,
        r.offset + 7 + r.buffer[r.offset + 6] <= r.buffer.len() < usize::MAX - 300,
        spells(r.buffer, r.offset, seq!['8', 'B', 'I', 'M']) || spells(
            r.buffer,
            r.offset,
            seq!['M', 'e', 'S', 'a'],
        ) || spells(r.buffer, r.offset, seq!['A', 'g', 'H', 'g']) || spells(
            r.buffer,
            r.offset,
            seq!['P', 'H', 'U', 'T'],
        ) || spells(r.buffer, r.offset, seq!['D', 'C', 'S', 'R']),
    ensures
        ({
            let s = r.buffer;
            let o = r.offset;
            let name = s[o + 6] as int;
            let payload = o + 7 + name + (1 + name) % 2;
            match resources::get_resource(r) {
                Ok((found, after)) => found.id == number16(s, o + 4) && payload_at(
                    r,
                    payload,
                    false,
                    found.data,
                    after,
                ),
                Err(_) => true,
            }
        }),
{
    let s = r.buffer;
    let o = r.offset;
    lemma_keys(s, o);
    number_laws::lemma_at(s, o);
    let r1 = r.at(o + 4);
    assert(info::get_block_signature(r, true) == Ok::<(u32, ReaderState), ErrorView>(
        (number32(s, o) as u32, r1),
    ));
    number_laws::law_short_numbers_read(r1);
    let r2 = r.at(o + 6);
    number_laws::law_pascal_text_read(r2, 2);
    match reader::get_pascal_string(r2, 2) {
        Err(_) => {},
        Ok((_, r3)) => {
            lemma_payload(r3, false);
        },
    }
}

/// The thumbnail is left out exactly where it is not wanted; every other resource is kept,
/// in order.
pub proof fn law_thumbnail(list: Seq<ResourceBlockView>, skip: Option<bool>)
    ensures
        ({
            let kept = resources::kept_resources(list, skip);
            &&& skip != Some(true) ==> kept == list
            &&& skip == Some(true) ==> kept == list.filter(|x: ResourceBlockView| x.id != 1036)
        }),
{
    if skip == Some(true) {
        let a = |x: ResourceBlockView| !resources::left_out(x.id, skip);
        let b = |x: ResourceBlockView| x.id != 1036;
        assert(a =~= b);
    } else {
        lemma_all_kept(list, skip);
    }
}

proof fn lemma_all_kept(list: Seq<ResourceBlockView>, skip: Option<bool>)
    requires
        skip != Some(true),
    ensures
        resources::kept_resources(list, skip) == list,
    decreases list.len(),
{
    reveal(Seq::filter);
    if list.len() > 0 {
        lemma_all_kept(list.drop_last(), skip);
        assert(list.drop_last().push(list.last()) =~= list);
    }
}

/// The number of what a channel holds.
pub open spec fn channel_number(id: ChannelId) -> int {
    match id {
        ChannelId::Color0 => 0,
        ChannelId::Color1 => 1,
        ChannelId::Color2 => 2,
        ChannelId::Color3 => 3,
        ChannelId::Transparency => -1,
        ChannelId::UserMask => -2,
        ChannelId::RealUserMask => -3,
    }
}

/// The number of a way to store samples.
pub open spec fn compression_number(c: Compression) -> int {
    match c {
        Compression::RawData => 0,
        Compression::RleCompressed => 1,
        Compression::ZipWithoutPrediction => 2,
        Compression::ZipWithPrediction => 3,
    }
}

/// The numbers of channels and of ways to store samples, read and written.
pub proof fn law_numbers_of_channels(id: ChannelId, c: Compression)
    ensures
        helpers::channel_code(id) == channel_number(id),
        records::channel_id_of(channel_number(id) as i16) == id,
        crate::record_writer::compression_code(c) == compression_number(c),
        records::compression_of(compression_number(c) as u16) == c,
{
}

/// A channel of a layer lies in these bytes: two that say how it is stored, and the rest of
/// its length. Behind it the reader is where its length says.
pub proof fn law_channel_read(r: ReaderState, channel: ChannelInfo)
    requires
        0 <= r.offset,
        2 <= channel.length,
        r.offset + channel.length <= r.buffer.len() <= usize::MAX,
        number16(r.buffer, r.offset) <= 3,
    ensures
        records::get_raw_channel(r, channel) matches Ok((found, after)) && {
            &&& -3 <= channel.id <= 3 ==> channel_number(found.id) == channel.id
            &&& compression_number(found.compression) == number16(r.buffer, r.offset)
            &&& moved_to(r, after, r.offset + channel.length)
            &&& channel.length == 2 ==> found.data is None
            &&& channel.length > 2 ==> (found.data matches Some(code) && code == r.buffer.subrange(
                r.offset + 2,
                r.offset + channel.length,
            ))
        },
{
    number_laws::law_short_numbers_read(r);
}

/// Where the `k`-th of some channels lies behind the others.
pub open spec fn channels_end(channels: Seq<ChannelInfo>, k: int) -> int
    decreases k,
{
    if k <= 0 {
        0
    } else {
        channels_end(channels, k - 1) + channels[k - 1].length
    }
}

/// The channels of a layer lie one behind the other.
pub proof fn law_channels_in_order(r: ReaderState, channels: Seq<ChannelInfo>, n: int)
    requires
        0 <= r.offset,
        0 <= n <= channels.len(),
        r.buffer.len() <= usize::MAX,
        forall|k: int|
            0 <= k < channels.len() ==> 2 <= (#[trigger] channels[k]).length && number16(
                r.buffer,
                r.offset + channels_end(channels, k),
            ) <= 3 && r.offset + channels_end(channels, k) + channels[k].length <= r.buffer.len(),
    ensures
        records::get_raw_channels(r, channels, n) matches Ok((found, after)) && {
            &&& found.len() == n
            &&& moved_to(r, after, r.offset + channels_end(channels, n))
            &&& forall|k: int|
                0 <= k < n ==> {
                    let at = r.offset + channels_end(channels, k);
                    let c = #[trigger] found[k];
                    &&& -3 <= channels[k].id <= 3 ==> channel_number(c.id) == channels[k].id
                    &&& compression_number(c.compression) == number16(r.buffer, at)
                    &&& c.data == (if channels[k].length == 2 {
                        None
                    } else {
                        Some(r.buffer.subrange(at + 2, at + channels[k].length))
                    })
                }
        },
        0 <= channels_end(channels, n),
    decreases n,
{
    if n > 0 {
        law_channels_in_order(r, channels, n - 1);
        let (_, r1) = records::get_raw_channels(r, channels, n - 1)->Ok_0;
        assert(channels[n - 1].length >= 2);
        law_channel_read(r1, channels[n - 1]);
    }
}

} // verus!
