//! What a document holds: where its parts lie one behind the other, and which of them are
//! kept under which settings.

use vstd::prelude::*;

use crate::bytes;
use crate::composite;
use crate::decode;
use crate::decode_laws;
use crate::document;
use crate::document::{BlockPart, LayerSection};
use crate::error::ErrorView;
use crate::header;
use crate::header::Header;
use crate::info;
use crate::mask;
use crate::number_laws;
use crate::number_laws::{moved_to, number16, number32, spells};
use crate::palette;
use crate::part_laws;
use crate::psd;
use crate::psd::{
    ChannelId, ColorMode, LayerView, PsdView, RawDataView, ReadOptions, ResourceBlockView,
};
use crate::reader::ReaderState;
use crate::records;
use crate::records::ChannelInfo;
use crate::resources;
use crate::settings_laws;

verus! {

broadcast use crate::bytes::group_bytes;

/// The channels of a layer are passed over, kept as they are stored, or decoded, as the
/// settings say. They have the colour mode and the depth that the document has, and the
/// rows of its format.
pub proof fn law_channels_kept_or_decoded(
    r: ReaderState,
    l: LayerView,
    channels: Seq<ChannelInfo>,
    mode: ColorMode,
    bits: u16,
)
    requires
        l.raw_data is None,
    ensures
        match records::get_channel_data(r, l, channels, mode, bits) {
            Ok((found, after)) => if r.options.skip_layer_image_data == Some(true) {
                found == l && after == r
            } else {
                records::get_raw_channels(r, channels, channels.len() as int) matches Ok((raw, end))
                    && after.offset == end.offset && {
                    let stored = RawDataView {
                        color_mode: mode,
                        bits_per_channel: bits,
                        channels: raw,
                        large: r.large,
                    };
                    let kept = LayerView { raw_data: Some(stored), ..l };
                    if r.options.use_raw_data == Some(true) {
                        found == kept && after.budget == r.budget
                    } else {
                        decode::decoded_layer(
                            kept,
                            r.options.use_image_data == Some(true),
                            r.budget,
                        ) == Ok::<(LayerView, Option<usize>), ErrorView>((found, after.budget))
                    }
                }
            },
            Err(_) => r.options.skip_layer_image_data != Some(true),
        },
{
    reveal(records::get_channel_data);
    settings_laws::lemma_raw_channels(
        r,
        r.options,
        r.budget,
        channels,
        channels.len() as int,
    );
}

/// How many bytes a length takes that is as long as the format makes it.
pub open spec fn length_bytes(large: bool) -> int {
    if large {
        8
    } else {
        4
    }
}

/// The part about layers: a length, and the layers behind it. Where the length is zero
/// there is nothing said of layers. Behind it the reader is at its end, which is even.
pub proof fn law_layer_part_read(r: ReaderState, h: Header)
    requires
        0 <= r.offset,
        r.buffer.len() < usize::MAX - 8,
        r.offset + length_bytes(r.large) <= r.buffer.len(),
    ensures
        match document::get_layer_part(r, h) {
            Ok((found, after)) => {
                let start = r.offset + length_bytes(r.large);
                let length = number32(r.buffer, start - 4);
                &&& start + length <= r.buffer.len()
                &&& after.offset == start + length + length % 2
                &&& found is None <==> length == 0
                &&& found matches Some(layers) ==> (records::get_layers(
                    r.at(start),
                    h.color_mode,
                    h.bits_per_channel,
                ) matches Ok((tree, end)) && tree == layers && end.global_alpha
                    == after.global_alpha && end.budget == after.budget)
            },
            Err(_) => true,
        },
{
    reveal(document::get_layer_part);
    number_laws::law_section_opened(r, true, r.large);
}

/// The section about layers and masks: a length, the part about layers, the global mask
/// where the section goes on, and the blocks. Where the length is zero there is nothing.
/// Behind it the reader is at its end.
pub proof fn law_layer_section_read(r: ReaderState, h: Header)
    requires
        0 <= r.offset,
        r.buffer.len() < usize::MAX - 8,
        r.offset + length_bytes(r.large) <= r.buffer.len(),
    ensures
        match document::get_layer_section(r, h) {
            Ok((found, after)) => {
                let start = r.offset + length_bytes(r.large);
                let length = number32(r.buffer, start - 4);
                &&& start + length <= r.buffer.len()
                &&& after.offset == start + length
                &&& length == 0 ==> found == (LayerSection {
                    children: None,
                    global_layer_mask_info: None,
                    additional_info: psd::empty_info(),
                })
                &&& length > 0 ==> (document::get_layer_part(r.at(start), h) matches Ok(
                    (layers, r1),
                ) && {
                    let (global, r2) = if r1.offset < start + length {
                        mask::get_global_mask(r1)->Ok_0
                    } else {
                        (None, r1)
                    };
                    &&& found.global_layer_mask_info == global
                    &&& document::get_document_blocks(
                        r2,
                        h,
                        start + length,
                        BlockPart { children: layers, additional_info: psd::empty_info() },
                    ) matches Ok((part, _)) && part.children == found.children
                        && part.additional_info == found.additional_info
                })
            },
            Err(_) => true,
        },
{
    reveal(document::get_layer_section);
    reveal(document::get_layer_section_body);
    number_laws::law_section_opened(r, true, r.large);
}

/// The layers of a block come before those that are there already.
pub proof fn law_nested_layers(r: ReaderState, h: Header, part: BlockPart)
    requires
        0 <= r.offset,
        r.offset + 8 <= r.buffer.len() < usize::MAX - 8,
        spells(r.buffer, r.offset, seq!['8', 'B', 'I', 'M']) || spells(
            r.buffer,
            r.offset,
            seq!['8', 'B', '6', '4'],
        ),
    ensures
        ({
            let s = r.buffer;
            let o = r.offset;
            let nested = spells(s, o + 4, seq!['L', 'r', '1', '6']) || spells(
                s,
                o + 4,
                seq!['L', 'r', '3', '2'],
            );
            let start = o + 8 + length_bytes(
                spells(s, o, seq!['8', 'B', '6', '4']) || (r.large && part_laws::long_key(
                    s,
                    o + 4,
                )),
            );
            match document::get_document_block(r, h, part) {
                Ok((found, after)) => if nested {
                    &&& start + number32(s, start - 4) <= s.len()
                    &&& after.offset == start + number32(s, start - 4) + number32(s, start - 4) % 2
                    &&& records::get_layers(r.at(start), h.color_mode, h.bits_per_channel) matches Ok(
                        (layers, _),
                    ) && found.children == Some(
                        layers + match part.children {
                            Some(children) => children,
                            None => Seq::empty(),
                        },
                    )
                    &&& found.additional_info == part.additional_info
                } else {
                    found.children == part.children
                },
                Err(_) => true,
            }
        }),
{
    reveal(document::get_document_block);
    let s = r.buffer;
    let o = r.offset;
    part_laws::lemma_keys(s, o);
    part_laws::lemma_keys(s, o + 4);
    number_laws::lemma_at(s, o);
    let r1 = r.at(o + 4);
    assert(info::get_block_signature(r, false) == Ok::<(u32, ReaderState), ErrorView>(
        (number32(s, o) as u32, r1),
    ));
    let four = s.subrange(o + 4, o + 8);
    number_laws::lemma_at(four, 0);
    assert(number32(four, 0) == number32(s, o + 4));
    let key = number32(s, o + 4) as u32;
    let r2 = r.at(o + 8);
    assert(info::get_key(r1) == Ok::<(u32, ReaderState), ErrorView>((key, r2)));
    let eight_bytes = number32(s, o) as u32 == info::SIGNATURE_8B64 || (r.large && info::large_key(
        key,
    ));
    number_laws::law_long_numbers_read(r2);
    number_laws::law_long_numbers_read(r2.at(r2.offset + 4));
    if r2.offset + length_bytes(eight_bytes) <= s.len() {
        number_laws::law_section_opened(r2, false, eight_bytes);
    }
}

/// The resources end where their length says.
proof fn lemma_resources_end(r: ReaderState)
    requires
        0 <= r.offset,
        r.buffer.len() < usize::MAX,
        r.offset + 4 <= r.buffer.len(),
    ensures
        resources::get_resources(r) matches Ok((list, after)) ==> {
            let length = number32(r.buffer, r.offset);
            &&& moved_to(r, after, r.offset + 4 + length)
            &&& r.offset + 4 + length <= r.buffer.len()
            &&& length == 0 ==> list.len() == 0
        },
{
    number_laws::law_section_opened(r, true, false);
    settings_laws::lemma_resources(r, r.options, r.budget);
}

/// Image resources lie one behind the other: the `k`-th is at the place `starts[k]`, and
/// the last one ends at `starts[list.len()]`.
pub open spec fn resources_at(
    r: ReaderState,
    starts: Seq<int>,
    list: Seq<ResourceBlockView>,
) -> bool {
    &&& starts.len() == list.len() + 1
    &&& forall|k: int|
        #![trigger list[k]]
        0 <= k < list.len() ==> resource_at(r, starts[k], list[k], starts[k + 1])
}

/// An image resource is at a place, and ends at another.
pub open spec fn resource_at(
    r: ReaderState,
    start: int,
    resource: ResourceBlockView,
    end: int,
) -> bool {
    start < end && resources::get_resource(r.at(start)) == Ok::<
        (ResourceBlockView, ReaderState),
        ErrorView,
    >((resource, r.at(end)))
}

/// Image resources that lie one behind the other are read in order, up to the end of their
/// section; the thumbnail is left out where it is not wanted.
pub proof fn law_resources_in_order(
    r: ReaderState,
    starts: Seq<int>,
    list: Seq<ResourceBlockView>,
    before: Seq<ResourceBlockView>,
)
    requires
        r.buffer.len() <= usize::MAX,
        resources_at(r, starts, list),
        r.offset == starts[0],
    ensures
        resources::get_resource_list(r, starts.last(), before) matches Ok((found, after)) && after
            == r.at(starts.last()) && found == before + (if r.options.skip_thumbnail == Some(
            true,
        ) {
            list.filter(|x: ResourceBlockView| x.id != 1036)
        } else {
            list
        }),
        r.offset <= starts.last(),
    decreases list.len(),
{
    let wanted = |x: ResourceBlockView| x.id != 1036;
    let skip = r.options.skip_thumbnail == Some(true);
    if list.len() == 0 {
        reveal(Seq::filter);
        assert(list.filter(wanted) =~= Seq::<ResourceBlockView>::empty());
        assert(before + Seq::<ResourceBlockView>::empty() =~= before);
        assert(before + list =~= before);
        assert(r == r.at(starts[0]));
    } else {
        let first = list[0];
        assert(r == r.at(starts[0]));
        let next = r.at(starts[1]);
        assert(resource_at(r, starts[0], list[0], starts[1]));
        let rest = list.skip(1);
        let behind = starts.skip(1);
        assert forall|k: int|
            #![trigger rest[k]]
            0 <= k < rest.len() implies resource_at(next, behind[k], rest[k], behind[k + 1]) by {
            assert(rest[k] == list[k + 1]);
            assert(behind[k] == starts[k + 1] && behind[k + 1] == starts[k + 2]);
            assert(next.at(behind[k]) == r.at(starts[k + 1]));
            assert(next.at(behind[k + 1]) == r.at(starts[k + 2]));
        }
        let more = if first.id == 1036 && skip {
            before
        } else {
            before.push(first)
        };
        law_resources_in_order(next, behind, rest, more);
        assert(behind.last() == starts.last());
        assert(next.at(starts.last()) == r.at(starts.last()));
        assert(list =~= seq![first] + rest);
        lemma_filter_first(first, rest, wanted);
        assert(before.push(first) + rest.filter(wanted) =~= before + (seq![first] + rest.filter(
            wanted,
        )));
        assert(before.push(first) + rest =~= before + list);
    }
}

proof fn lemma_filter_first(
    first: ResourceBlockView,
    rest: Seq<ResourceBlockView>,
    wanted: spec_fn(ResourceBlockView) -> bool,
)
    ensures
        (seq![first] + rest).filter(wanted) == (if wanted(first) {
            seq![first] + rest.filter(wanted)
        } else {
            rest.filter(wanted)
        }),
    decreases rest.len(),
{
    reveal_with_fuel(Seq::filter, 3);
    let all = seq![first] + rest;
    if rest.len() == 0 {
        assert(all.drop_last() =~= Seq::<ResourceBlockView>::empty());
        assert(rest =~= Seq::<ResourceBlockView>::empty());
        assert(all.last() == first);
        assert(all.filter(wanted) =~= (if wanted(first) {
            seq![first] + rest.filter(wanted)
        } else {
            rest.filter(wanted)
        }));
    } else {
        lemma_filter_first(first, rest.drop_last(), wanted);
        assert(all.drop_last() =~= seq![first] + rest.drop_last());
        assert(all.last() == rest.last());
        assert(all.filter(wanted) =~= (if wanted(first) {
            seq![first] + rest.filter(wanted)
        } else {
            rest.filter(wanted)
        }));
    }
}

/// The composite image is left out where it is not wanted and there is something else: the
/// layers are not wanted either, or there are layers. Otherwise it is kept as it is stored,
/// all that is left of the document, or decoded.
pub proof fn law_composite_kept_or_decoded(
    r: ReaderState,
    h: Header,
    colors: Option<Seq<psd::PaletteColor>>,
    children: Option<Seq<LayerView>>,
)
    requires
        0 <= r.offset <= r.buffer.len(),
    ensures
        ({
            let left_out = r.options.skip_composite_image_data == Some(true) && (
            r.options.skip_layer_image_data == Some(true) || (children is Some
                && children->Some_0.len() > 0));
            match document::get_wanted_composite(r, h, colors, children) {
                Ok((found, _)) => if left_out {
                    found.image is None && found.raw is None
                } else if r.options.use_raw_data == Some(true) {
                    found.image is None && (found.raw matches Some(raw) && raw.data
                        == r.buffer.subrange(r.offset, r.buffer.len() as int) && raw.large
                        == r.large && raw.global_alpha == r.global_alpha)
                } else {
                    found.raw is None && (composite::get_composite(r, h, colors) matches Ok(
                        (image, _),
                    ) && found.image == Some(image))
                },
                Err(_) => !left_out && r.options.use_raw_data != Some(true),
            }
        }),
{
    let rest = r.buffer.subrange(r.offset, r.buffer.len() as int);
    assert(composite::rest_of(r) =~= rest);
}

/// A document is read part by part: its head, the palette, the image resources, the section
/// about layers and masks, and the composite image, each behind the one before it. Its
/// image is kept as image data or as a canvas, as the settings say.
pub proof fn law_document_parts(data: Seq<u8>, options: ReadOptions)
    requires
        data.len() < usize::MAX - 8,
        data.len() >= 46,
    ensures
        match document::parsed_psd(data, options) {
            Ok(found) => {
                let large = number16(data, 4) == 2;
                let a: int = 26;
                let b = a + 4 + number32(data, a);
                let c = b + 4 + number32(data, b);
                &&& part_laws::head_at(data, 0)
                &&& found.channels == Some(number16(data, 12) as u16)
                &&& found.height == number32(data, 14)
                &&& found.width == number32(data, 18)
                &&& found.bits_per_channel == Some(number16(data, 22) as u16)
                &&& found.color_mode matches Some(mode) && part_laws::mode_number(mode) == number16(
                    data,
                    24,
                )
                &&& b + 4 <= data.len() && c + length_bytes(large) <= data.len()
                    ==> parts_kept(data, options, large, a, b, c, found)
                &&& if options.use_image_data == Some(true) {
                    found.canvas is None
                } else {
                    found.image_data is None
                }
            },
            Err(_) => true,
        },
{
    let r = document::reader_with(data, options);
    part_laws::law_head_read(r);
    match header::get_header(r) {
        Err(_) => {},
        Ok((h, r1)) => {
            part_laws::law_palette_read(r1, h.color_mode);
            match palette::get_palette(r1, h.color_mode) {
                Err(_) => {},
                Ok((colors, r2)) => {
                    if r2.offset + 4 <= data.len() {
                        lemma_resources_end(r2);
                    }
                    match resources::get_resources(r2) {
                        Err(_) => {},
                        Ok((list, r3)) => {
                            if r2.offset + 4 <= data.len() && r3.offset + length_bytes(h.large)
                                <= data.len() {
                                law_layer_section_read(r3, h);
                            }
                        },
                    }
                },
            }
        },
    }
}

/// The parts of a document are those at these places.
pub open spec fn parts_kept(
    data: Seq<u8>,
    options: ReadOptions,
    large: bool,
    a: int,
    b: int,
    c: int,
    found: PsdView,
) -> bool {
    let start = ReaderState { large, ..document::reader_with(data, options) };
    let mode = found.color_mode->Some_0;
    let h = Header {
        large,
        channels: found.channels->Some_0,
        height: found.height,
        width: found.width,
        bits_per_channel: found.bits_per_channel->Some_0,
        color_mode: mode,
    };
    let d = c + length_bytes(large) + number32(data, c + length_bytes(large) - 4);
    &&& palette::get_palette(start.at(a), mode) matches Ok((colors, _)) && colors == found.palette
    &&& resources::get_resources(start.at(b)) matches Ok((list, _)) && found.image_resources == (
    if list.len() == 0 {
        None
    } else {
        Some(list)
    })
    &&& document::get_layer_section(start.at(c), h) matches Ok((layers, after)) && {
        &&& after.offset == d
        &&& found.children == layers.children
        &&& found.global_layer_mask_info == layers.global_layer_mask_info
        &&& found.additional_info == layers.additional_info
        &&& document::get_wanted_composite(after, h, found.palette, layers.children) matches Ok(
            (image, _),
        ) && found.raw_composite_data == image.raw && (if options.use_image_data == Some(true) {
            found.image_data == image.image
        } else {
            found.canvas == image.image
        })
    }
}

/// The memory for the pixels of a layer is taken from the limit: four bytes for each, and
/// no more unless it has masks. Where the limit is lower, decoding fails and says how much
/// was asked for and how much was left.
pub proof fn law_layer_memory(
    l: LayerView,
    raw: RawDataView,
    width: int,
    height: int,
    use_image_data: bool,
    limit: usize,
)
    requires
        l.raw_data == Some(raw),
        raw.color_mode == ColorMode::Rgb || raw.color_mode == ColorMode::Grayscale,
        l.left matches Some(left) && l.right matches Some(right) && right - left == width,
        l.top matches Some(top) && l.bottom matches Some(bottom) && bottom - top == height,
        0 < width,
        0 < height,
        decode_laws::sides_fit(width, height, raw.large),
        forall|i: int|
            0 <= i < raw.channels.len() ==> (#[trigger] raw.channels[i]).id != ChannelId::UserMask
                && raw.channels[i].id != ChannelId::RealUserMask,
    ensures
        match decode::decoded_layer(l, use_image_data, Some(limit)) {
            Ok((_, left)) => 4 * (width * height) <= limit && left == Some(
                (limit - 4 * (width * height)) as usize,
            ),
            Err(e) => 4 * (width * height) > limit ==> e == (ErrorView::ExceededMemoryLimit {
                requested: bytes::clamp_offset(4 * (width * height)),
                available: limit as int,
            }),
        },
{
    assert(0 < width * height) by (nonlinear_arith)
        requires
            0 < width,
            0 < height,
    ;
    match decode::decode_start(l, raw, Some(limit)) {
        Err(_) => {},
        Ok(s) => {
            lemma_budget_kept(s, raw, raw.channels.len() as int, width, height, use_image_data);
        },
    }
}

proof fn lemma_budget_kept(
    s: decode::DecodeView,
    raw: RawDataView,
    n: int,
    width: int,
    height: int,
    use_image_data: bool,
)
    requires
        0 <= n <= raw.channels.len(),
        forall|i: int|
            0 <= i < raw.channels.len() ==> (#[trigger] raw.channels[i]).id != ChannelId::UserMask
                && raw.channels[i].id != ChannelId::RealUserMask,
    ensures
        decode::decode_steps(s, raw, n, width, height, use_image_data) matches Ok(t) ==> t.budget
            == s.budget && (s.image is None <==> t.image is None),
    decreases n,
{
    if n > 0 {
        lemma_budget_kept(s, raw, n - 1, width, height, use_image_data);
        reveal(decode::decode_step);
        match decode::decode_steps(s, raw, n - 1, width, height, use_image_data) {
            Err(_) => {},
            Ok(t) => {
                let c = raw.channels[n - 1];
                match t.image {
                    Some(d) => {
                        crate::codec::lemma_data_len(
                            decode::channel_reader(c.data->Some_0, t.budget),
                            c.data->Some_0.len() as int,
                            d,
                            c.compression,
                            width,
                            height,
                            raw.bits_per_channel as u32,
                            crate::helpers::channel_offset(
                                c.id,
                                raw.color_mode == ColorMode::Cmyk,
                            ),
                            raw.large,
                            decode::pixel_channels(raw.color_mode),
                        );
                    },
                    None => {
                        crate::codec::lemma_data_none(
                            decode::channel_reader(c.data->Some_0, t.budget),
                            c.data->Some_0.len() as int,
                            c.compression,
                            width,
                            height,
                            raw.bits_per_channel as u32,
                            crate::helpers::channel_offset(
                                c.id,
                                raw.color_mode == ColorMode::Cmyk,
                            ),
                            raw.large,
                            decode::pixel_channels(raw.color_mode),
                        );
                    },
                }
            },
        }
    }
}

/// The memory for the pixels of the composite image is four bytes for each. Where the limit
/// is lower, reading fails and says how much was asked for and how much was left.
pub proof fn law_image_memory(
    r: ReaderState,
    h: Header,
    colors: Option<Seq<psd::PaletteColor>>,
    limit: usize,
)
    requires
        0 <= r.offset,
        r.offset + 2 <= r.buffer.len(),
        number16(r.buffer, r.offset) <= 3,
        r.budget == Some(limit),
        4 * (h.width * h.height) > limit,
    ensures
        composite::get_composite(r, h, colors) matches Err(e) && e
            == (ErrorView::ExceededMemoryLimit {
            requested: bytes::clamp_offset(4 * (h.width * h.height)),
            available: limit as int,
        }),
{
    number_laws::law_short_numbers_read(r);
}

} // verus!
