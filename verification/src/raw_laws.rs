//! A document that is read with its channels as they are stored holds the same
//! channels once it has been written and read again.

use vstd::prelude::*;

use crate::channels;
use crate::document;
use crate::document::BlockPart;
use crate::document_laws;
use crate::document_writer;
use crate::error::ErrorView;
use crate::header;
use crate::header::Header;
use crate::info;
use crate::layer_laws;
use crate::layer_tree;
use crate::mask;
use crate::palette;
use crate::pixel_laws;
use crate::psd;
use crate::psd::{ColorMode, LayerView, PsdView, RawDataView, ReadOptions, WriteOptions};
use crate::reader;
use crate::reader::ReaderState;
use crate::recode;
use crate::records;
use crate::records::ChannelInfo;
use crate::resources;
use crate::settings_laws;

verus! {

/// Stored channels of 8-bit RGB in one of the two formats, none of them of length
/// zero.
pub open spec fn plain_channels(raw: RawDataView, psb: bool) -> bool {
    &&& raw.color_mode == ColorMode::Rgb
    &&& raw.bits_per_channel == 8
    &&& raw.large == psb
    &&& forall|i: int|
        0 <= i < raw.channels.len() ==> ((#[trigger] raw.channels[i]).data matches Some(code)
            ==> code.len() > 0)
}

/// A layer has a rectangle and stored channels, and no pixels.
pub open spec fn undecoded_record(l: LayerView, psb: bool) -> bool {
    &&& channels::layer_image(l) is None
    &&& l.top is Some
    &&& l.left is Some
    &&& l.right is Some
    &&& l.bottom is Some
    &&& l.raw_data is Some
    &&& plain_channels(l.raw_data->Some_0, psb)
}

/// What [`undecoded_record`] says.
pub open spec fn is_undecoded(psb: bool) -> spec_fn(LayerView) -> bool {
    |l: LayerView| undecoded_record(l, psb)
}

/// All layers and groups of a list, and those in them, have stored channels and no
/// pixels.
pub open spec fn undecoded_trees(children: Seq<LayerView>, psb: bool) -> bool {
    layer_tree::everywhere(children, is_undecoded(psb))
}

/// A layer or a group, and all in it, have stored channels and no pixels.
pub open spec fn undecoded_tree(l: LayerView, psb: bool) -> bool {
    layer_tree::throughout(l, is_undecoded(psb))
}

/// Two lists of layers and groups have the same shape, the same rectangles and the
/// same stored channels throughout.
pub open spec fn same_stored(a: Seq<LayerView>, b: Seq<LayerView>) -> bool
    decreases a,
{
    &&& a.len() == b.len()
    &&& a.len() == 0 || (same_stored(a.drop_last(), b.drop_last()) && same_stored_layer(
        a.last(),
        b.last(),
    ))
}

/// Two layers or groups have the same rectangle and the same stored channels, and so
/// has all in them.
pub open spec fn same_stored_layer(a: LayerView, b: LayerView) -> bool
    decreases a,
{
    &&& a.raw_data == b.raw_data
    &&& a.top == b.top
    &&& a.left == b.left
    &&& a.right == b.right
    &&& a.bottom == b.bottom
    &&& match a.children {
        None => b.children is None,
        Some(inner) => b.children is Some && same_stored(inner, b.children->Some_0),
    }
}

/// Stored channels come back as they are.
proof fn lemma_record_comes_back(
    l: LayerView,
    background: bool,
    options: WriteOptions,
    settings: ReadOptions,
)
    requires
        document_laws::keeps_raw(settings),
        undecoded_record(l, document_writer::wants_psb(options)),
    ensures
        ({
            let found = document_laws::read_layer(l, background, options, settings);
            &&& found.raw_data == l.raw_data
            &&& found.top == l.top
            &&& found.left == l.left
            &&& found.right == l.right
            &&& found.bottom == l.bottom
            &&& found.children is None
        }),
{
    reveal(document_laws::read_layer);
    reveal(layer_laws::bare_layer);
    let psb = document_writer::wants_psb(options);
    let raw = l.raw_data->Some_0;
    let plan = channels::channel_plan(l, background, options, psb);
    let found = Seq::new(
        plan.len(),
        |i: int| layer_laws::raw_channel(plan[i], options.compress == Some(true), psb),
    );
    assert forall|i: int| 0 <= i < plan.len() implies #[trigger] found[i] == raw.channels[i] by {
        match raw.channels[i].data {
            Some(code) => {
                assert(code.len() > 0);
            },
            None => {},
        }
    }
    assert(found =~= raw.channels);
}

/// Where a layer has no pixels the place of its record does not matter.
proof fn lemma_place(l: LayerView, options: WriteOptions, settings: ReadOptions)
    requires
        channels::layer_image(l) is None,
    ensures
        document_laws::read_layer(l, true, options, settings) == document_laws::read_layer(
            l,
            false,
            options,
            settings,
        ),
{
    reveal(document_laws::read_layer);
}

/// A record has no pixels, and is not decoded to be written.
spec fn written_as_stored(l: LayerView, psb: bool) -> bool {
    channels::layer_image(l) is None && recode::recoded(l, psb) == l
}

proof fn lemma_no_pixels(children: Seq<LayerView>, psb: bool)
    requires
        undecoded_trees(children, psb),
    ensures
        forall|i: int|
            0 <= i < layer_tree::flattened(children).len() ==> written_as_stored(
                #[trigger] layer_tree::flattened(children)[i],
                psb,
            ),
        children.len() > 0 ==> layer_tree::flattened(children).len() > 0,
    decreases children,
{
    if children.len() > 0 {
        let first = layer_tree::flattened(children.drop_last());
        let last = layer_tree::flattened_layer(children.last());
        lemma_no_pixels(children.drop_last(), psb);
        lemma_no_pixels_in(children.last(), psb);
        assert forall|i: int|
            0 <= i < layer_tree::flattened(children).len() implies written_as_stored(
            #[trigger] layer_tree::flattened(children)[i],
            psb,
        ) by {
            if i < first.len() {
                assert(layer_tree::flattened(children)[i] == first[i]);
            } else {
                assert(layer_tree::flattened(children)[i] == last[i - first.len()]);
            }
        }
    }
}

proof fn lemma_no_pixels_in(l: LayerView, psb: bool)
    requires
        undecoded_tree(l, psb),
    ensures
        forall|i: int|
            0 <= i < layer_tree::flattened_layer(l).len() ==> written_as_stored(
                #[trigger] layer_tree::flattened_layer(l)[i],
                psb,
            ),
        layer_tree::flattened_layer(l).len() > 0,
    decreases l,
{
    match l.children {
        None => {},
        Some(children) => {
            lemma_no_pixels(children, psb);
            let inner = layer_tree::flattened(children);
            assert forall|i: int|
                0 <= i < layer_tree::flattened_layer(l).len() implies written_as_stored(
                #[trigger] layer_tree::flattened_layer(l)[i],
                psb,
            ) by {
                if 1 <= i < 1 + inner.len() {
                    assert(layer_tree::flattened_layer(l)[i] == inner[i - 1]);
                }
            }
        },
    }
}

proof fn lemma_trees_come_back(
    children: Seq<LayerView>,
    options: WriteOptions,
    settings: ReadOptions,
)
    requires
        document_laws::keeps_raw(settings),
        undecoded_trees(children, document_writer::wants_psb(options)),
    ensures
        same_stored(
            layer_tree::regrouped_all(
                children,
                |l: LayerView| document_laws::read_layer(l, false, options, settings),
            ),
            children,
        ),
    decreases children,
{
    let change = |l: LayerView| document_laws::read_layer(l, false, options, settings);
    let found = layer_tree::regrouped_all(children, change);
    if children.len() > 0 {
        lemma_trees_come_back(children.drop_last(), options, settings);
        lemma_tree_comes_back(children.last(), options, settings);
        assert(found.drop_last() =~= layer_tree::regrouped_all(children.drop_last(), change));
        assert(found.last() == layer_tree::regrouped(children.last(), change));
        lemma_shapes(found, children);
    }
}

/// One more layer of the same shape.
proof fn lemma_shapes(a: Seq<LayerView>, b: Seq<LayerView>)
    requires
        a.len() > 0,
        b.len() > 0,
        same_stored(a.drop_last(), b.drop_last()),
        same_stored_layer(a.last(), b.last()),
    ensures
        same_stored(a, b),
{
    assert(a.drop_last().len() == b.drop_last().len());
}

proof fn lemma_tree_comes_back(l: LayerView, options: WriteOptions, settings: ReadOptions)
    requires
        document_laws::keeps_raw(settings),
        undecoded_tree(l, document_writer::wants_psb(options)),
    ensures
        same_stored_layer(
            layer_tree::regrouped(
                l,
                |l: LayerView| document_laws::read_layer(l, false, options, settings),
            ),
            l,
        ),
    decreases l,
{
    let change = |l: LayerView| document_laws::read_layer(l, false, options, settings);
    match l.children {
        None => {
            lemma_record_comes_back(l, false, options, settings);
        },
        Some(children) => {
            let head = layer_tree::group_head(l);
            assert(undecoded_record(head, document_writer::wants_psb(options)));
            lemma_record_comes_back(head, false, options, settings);
            lemma_trees_come_back(children, options, settings);
            assert(layer_tree::regrouped(l, change).children == Some(
                layer_tree::regrouped_all(children, change),
            ));
        },
    }
}

/// Layers and groups that have stored channels and no pixels come back in the same
/// shape, with the same rectangles and the same stored channels.
pub proof fn law_undecoded_layers_come_back(
    psd: PsdView,
    children: Seq<LayerView>,
    options: WriteOptions,
    settings: ReadOptions,
)
    requires
        document_laws::keeps_raw(settings),
        psd.children == Some(children),
        children.len() > 0,
        undecoded_trees(children, document_writer::wants_psb(options)),
        layer_tree::no_stray_dividers(children),
    ensures
        same_stored(document_laws::stored_children(psd, options, settings), children),
{
    let psb = document_writer::wants_psb(options);
    let change = |l: LayerView| document_laws::read_layer(l, false, options, settings);
    let layers = document_writer::written_layers(psd, options);
    lemma_no_pixels(children, psb);
    assert(layers =~= layer_tree::flattened(children));
    assert(document_laws::read_layers(layers, options, settings) =~= layers.map_values(change))
        by {
        if layers.len() > 0 {
            lemma_place(layers[0], options, settings);
        }
    }
    assert forall|l: LayerView| layer_tree::record_type(#[trigger] change(l))
        == layer_tree::record_type(l) by {
        document_laws::lemma_part_kept(l, options, settings);
    }
    layer_tree::law_layer_tree_round_trip(children, change);
    lemma_trees_come_back(children, options, settings);
}

/// The reader has moved, and nothing else has changed but what is left of the
/// memory limit.
pub open spec fn moved(r: ReaderState, after: ReaderState) -> bool {
    &&& after == (ReaderState { offset: after.offset, budget: after.budget, ..r })
    &&& 0 <= r.offset ==> 0 <= after.offset
}

proof fn lemma_channel_data_undecoded(
    r: ReaderState,
    l: LayerView,
    infos: Seq<ChannelInfo>,
)
    requires
        document_laws::keeps_raw(r.options),
        0 <= r.offset,
        settings_laws::bare_record(l),
    ensures
        records::get_channel_data(r, l, infos, ColorMode::Rgb, 8) matches Ok((found, after))
            ==> moved(r, after) && undecoded_record(found, r.large) && found.children is None,
{
    reveal(records::get_channel_data);
    settings_laws::lemma_raw_channels(r, r.options, r.budget, infos, infos.len() as int);
}

/// Every record is undecoded.
pub open spec fn undecoded_records(records: Seq<LayerView>, psb: bool) -> bool {
    forall|i: int|
        0 <= i < records.len() ==> undecoded_record(#[trigger] records[i], psb)
            && records[i].children is None
}

proof fn lemma_all_channel_data_undecoded(
    r: ReaderState,
    layers: Seq<LayerView>,
    infos: Seq<Seq<ChannelInfo>>,
    n: int,
)
    requires
        document_laws::keeps_raw(r.options),
        0 <= r.offset,
        forall|i: int| 0 <= i < layers.len() ==> settings_laws::bare_record(#[trigger] layers[i]),
        n <= layers.len(),
    ensures
        records::get_all_channel_data(r, layers, infos, n, ColorMode::Rgb, 8) matches Ok(
            (found, after),
        ) ==> moved(r, after) && undecoded_records(found, r.large),
    decreases n,
{
    if n > 0 {
        lemma_all_channel_data_undecoded(r, layers, infos, n - 1);
        match records::get_all_channel_data(r, layers, infos, n - 1, ColorMode::Rgb, 8) {
            Err(_) => {},
            Ok((_, r1)) => {
                lemma_channel_data_undecoded(r1, layers[n - 1], infos[n - 1]);
            },
        }
    }
}

/// Layers that are read without being decoded have stored channels and no pixels,
/// and so have the groups that they are in.
proof fn lemma_layers_undecoded(r: ReaderState)
    requires
        r.buffer.len() <= usize::MAX,
        document_laws::keeps_raw(r.options),
        0 <= r.offset,
    ensures
        records::get_layers(r, ColorMode::Rgb, 8) matches Ok((tree, after)) ==> undecoded_trees(
            tree,
            r.large,
        ) && moved(ReaderState { global_alpha: after.global_alpha, ..r }, after),
{
    reveal(records::get_layers);
    match reader::get_i16(r) {
        Err(_) => {},
        Ok((n, r1)) => {
            let r2 = ReaderState { global_alpha: r1.global_alpha || n < 0, ..r1 };
            let count = records::layer_count(n);
            settings_laws::lemma_records(r2, r2.options, r2.budget, count);
            match records::get_records(r2, count) {
                Err(_) => {},
                Ok(((layers, infos), r3)) => {
                    lemma_all_channel_data_undecoded(r3, layers, infos, count);
                    match records::get_all_channel_data(
                        r3,
                        layers,
                        infos,
                        count,
                        ColorMode::Rgb,
                        8,
                    ) {
                        Err(_) => {},
                        Ok((found, r4)) => {
                            layer_tree::lemma_tree_everywhere(found, is_undecoded(r.large));
                        },
                    }
                },
            }
        },
    }
}

/// The layers of a document, where it has any, have stored channels and no pixels.
pub open spec fn undecoded_children(children: Option<Seq<LayerView>>, psb: bool) -> bool {
    children matches Some(layers) ==> undecoded_trees(layers, psb)
}

/// The reader has moved, and may have learned that the composite image has a
/// transparency channel: only from a document that says something about layers.
spec fn moved_over_layers(
    r: ReaderState,
    after: ReaderState,
    children: Option<Seq<LayerView>>,
) -> bool {
    &&& moved(ReaderState { global_alpha: after.global_alpha, ..r }, after)
    &&& after.global_alpha ==> r.global_alpha || children is Some
}

proof fn lemma_nested_undecoded(r: ReaderState, h: Header, eight_bytes: bool)
    requires
        r.buffer.len() <= usize::MAX,
        document_laws::keeps_raw(r.options),
        0 <= r.offset,
        h.color_mode == ColorMode::Rgb,
        h.bits_per_channel == 8,
    ensures
        document::get_nested_layers(r, h, eight_bytes) matches Ok((layers, after))
            ==> undecoded_trees(layers, r.large) && moved_over_layers(r, after, Some(layers)),
{
    match reader::open_section(r, false, eight_bytes) {
        Ok((Some(section), r1)) => {
            lemma_layers_undecoded(r1);
        },
        _ => {
            assert(undecoded_trees(Seq::empty(), r.large));
        },
    }
}

proof fn lemma_block_undecoded(r: ReaderState, h: Header, part: BlockPart)
    requires
        r.buffer.len() <= usize::MAX,
        document_laws::keeps_raw(r.options),
        0 <= r.offset,
        h.color_mode == ColorMode::Rgb,
        h.bits_per_channel == 8,
        undecoded_children(part.children, r.large),
    ensures
        document::get_document_block(r, h, part) matches Ok((more, after)) ==> {
            &&& undecoded_children(more.children, r.large)
            &&& moved_over_layers(r, after, more.children)
            &&& part.children is Some ==> more.children is Some
        },
{
    reveal(document::get_document_block);
    info::lemma_signature_progress(r, false, 0, Seq::empty());
    match info::get_block_signature(r, false) {
        Err(_) => {},
        Ok((signature, r1)) => match info::get_key(r1) {
            Err(_) => {},
            Ok((key, r2)) => {
                let eight_bytes = signature == info::SIGNATURE_8B64 || (r2.large
                    && info::large_key(key));
                assert(moved(r, r2));
                if info::holds_layers(key) {
                    lemma_nested_undecoded(r2, h, eight_bytes);
                    match document::get_nested_layers(r2, h, eight_bytes) {
                        Err(_) => {},
                        Ok((layers, _)) => {
                            let others = match part.children {
                                Some(children) => children,
                                None => Seq::empty(),
                            };
                            assert(undecoded_trees(Seq::empty(), r.large));
                            layer_tree::lemma_everywhere_joined(
                                layers,
                                others,
                                is_undecoded(r.large),
                            );
                        },
                    }
                }
            },
        },
    }
}

proof fn lemma_blocks_undecoded(r: ReaderState, h: Header, end: int, part: BlockPart)
    requires
        r.buffer.len() <= usize::MAX,
        document_laws::keeps_raw(r.options),
        0 <= r.offset,
        h.color_mode == ColorMode::Rgb,
        h.bits_per_channel == 8,
        undecoded_children(part.children, r.large),
    ensures
        document::get_document_blocks(r, h, end, part) matches Ok((more, after)) ==> {
            &&& undecoded_children(more.children, r.large)
            &&& moved_over_layers(r, after, more.children)
            &&& part.children is Some ==> more.children is Some
        },
    decreases
            (if end < r.offset {
                0
            } else {
                end - r.offset
            }),
{
    if r.offset < end {
        document::lemma_past_zeros(r, end);
        match document::past_zeros(r, end) {
            Err(_) => {},
            Ok((_, r1)) => {
                if end - r1.offset >= 12 {
                    document::lemma_document_block_progress(r1, h, part);
                    lemma_block_undecoded(r1, h, part);
                    match document::get_document_block(r1, h, part) {
                        Err(_) => {},
                        Ok((more, r2)) => {
                            lemma_blocks_undecoded(r2, h, end, more);
                        },
                    }
                }
            },
        }
    }
}

proof fn lemma_part_undecoded(r: ReaderState, h: Header)
    requires
        r.buffer.len() <= usize::MAX,
        document_laws::keeps_raw(r.options),
        0 <= r.offset,
        h.color_mode == ColorMode::Rgb,
        h.bits_per_channel == 8,
    ensures
        document::get_layer_part(r, h) matches Ok((children, after)) ==> undecoded_children(
            children,
            r.large,
        ) && moved_over_layers(r, after, children),
{
    reveal(document::get_layer_part);
    match reader::open_section(r, true, r.large) {
        Ok((Some(section), r1)) => {
            lemma_layers_undecoded(r1);
        },
        _ => {},
    }
}

proof fn lemma_body_undecoded(r: ReaderState, h: Header, end: int)
    requires
        r.buffer.len() <= usize::MAX,
        document_laws::keeps_raw(r.options),
        0 <= r.offset,
        h.color_mode == ColorMode::Rgb,
        h.bits_per_channel == 8,
    ensures
        document::get_layer_section_body(r, h, end) matches Ok((layers, after))
            ==> undecoded_children(layers.children, r.large) && moved_over_layers(
            r,
            after,
            layers.children,
        ),
{
    reveal(document::get_layer_section_body);
    lemma_part_undecoded(r, h);
    match document::get_layer_part(r, h) {
        Err(_) => {},
        Ok((children, r1)) => {
            let masked = if r1.offset < end {
                mask::get_global_mask(r1)
            } else {
                Ok((None, r1))
            };
            match masked {
                Err(_) => {},
                Ok((_, r2)) => {
                    assert(moved(r1, r2));
                    lemma_blocks_undecoded(
                        r2,
                        h,
                        end,
                        BlockPart { children, additional_info: psd::empty_info() },
                    );
                },
            }
        },
    }
}

proof fn lemma_section_undecoded(r: ReaderState, h: Header)
    requires
        r.buffer.len() <= usize::MAX,
        document_laws::keeps_raw(r.options),
        0 <= r.offset,
        h.color_mode == ColorMode::Rgb,
        h.bits_per_channel == 8,
    ensures
        document::get_layer_section(r, h) matches Ok((layers, after)) ==> undecoded_children(
            layers.children,
            r.large,
        ) && moved_over_layers(r, after, layers.children),
{
    reveal(document::get_layer_section);
    match reader::open_section(r, true, r.large) {
        Ok((Some(section), r1)) => {
            lemma_body_undecoded(r1, h, section.end as int);
        },
        _ => {},
    }
}

/// The head of a document says which of the two formats it is in.
pub open spec fn in_format(data: Seq<u8>, settings: ReadOptions, psb: bool) -> bool {
    header::get_header(document::reader_with(data, settings)) matches Ok((h, _)) && h.large == psb
}

/// A document of 8-bit RGB has no pixels: its layers and its composite image are
/// there as they are stored, in one of the two formats.
pub open spec fn undecoded_document(psd: PsdView, psb: bool) -> bool {
    &&& document_writer::own_image(psd) is None
    &&& psd.color_mode == Some(ColorMode::Rgb)
    &&& psd.channels matches Some(n) && n <= 16
    &&& psd.width <= 300000
    &&& psd.height <= 300000
    &&& undecoded_children(psd.children, psb)
    &&& psd.raw_composite_data matches Some(raw) ==> raw.large == psb && (raw.global_alpha
        ==> psd.children is Some)
}

/// A document of 8-bit RGB that is read without being decoded has no pixels.
pub proof fn law_read_undecoded(
    data: Seq<u8>,
    settings: ReadOptions,
    psd: PsdView,
    psb: bool,
)
    requires
        data.len() <= usize::MAX,
        document_laws::keeps_raw(settings),
        document::parsed_psd(data, settings) == Ok::<PsdView, ErrorView>(psd),
        in_format(data, settings, psb),
        psd.color_mode == Some(ColorMode::Rgb),
        psd.bits_per_channel == Some(8u16),
    ensures
        undecoded_document(psd, psb),
{
    let r = document::reader_with(data, settings);
    match header::get_header(r) {
        Err(_) => {},
        Ok((h, r1)) => {
            assert(moved(ReaderState { large: psb, global_alpha: false, ..r }, r1));
            match palette::get_palette(r1, h.color_mode) {
                Err(_) => {},
                Ok((_, r2)) => {
                    assert(moved(r1, r2));
                    settings_laws::lemma_resources(r2, r2.options, r2.budget);
                    match resources::get_resources(r2) {
                        Err(_) => {},
                        Ok((_, r3)) => {
                            assert(moved(r2, r3));
                            lemma_section_undecoded(r3, h);
                        },
                    }
                },
            }
        },
    }
}

/// A document of 8-bit RGB that is read without being decoded, written in the same
/// format and read again without being decoded holds what it held: every layer and
/// group its rectangle and its stored channels, and the document its stored composite
/// image, where that is asked for both times.
pub proof fn law_undecoded_round_trip(
    first: Seq<u8>,
    settings: ReadOptions,
    psd: PsdView,
    second: Seq<u8>,
    options: WriteOptions,
    again: ReadOptions,
)
    requires
        first.len() <= usize::MAX,
        document_laws::keeps_raw(settings),
        document::parsed_psd(first, settings) == Ok::<PsdView, ErrorView>(psd),
        in_format(first, settings, document_writer::wants_psb(options)),
        psd.color_mode == Some(ColorMode::Rgb),
        document_writer::writable(psd, options),
        document_writer::is_document(second, psd, options),
        second.len() <= usize::MAX,
        document_laws::sections_fit(psd, options),
        document_laws::document_distinct(psd, options),
        document_laws::keeps_raw(again),
    ensures
        match document::parsed_psd(second, again) {
            Ok(found) => {
                &&& psd.children matches Some(children) ==> children.len() > 0 ==> (
                found.children matches Some(layers) && same_stored(layers, children))
                &&& psd.raw_composite_data is Some && !document::composite_skipped(
                    again,
                    found.children,
                ) ==> found.raw_composite_data == psd.raw_composite_data
            },
            Err(e) => pixel_laws::over_limit(e, again.total_memory_limit),
        },
{
    let psb = document_writer::wants_psb(options);
    assert(psd.bits_per_channel is Some);
    law_read_undecoded(first, settings, psd, psb);
    document_laws::law_document_round_trip(second, psd, options, again);
    match psd.children {
        None => {},
        Some(children) => {
            if children.len() > 0 {
                law_undecoded_layers_come_back(psd, children, options, again);
                lemma_no_pixels(children, psb);
            }
            assert(document_writer::written_layers(psd, options).len() > 0);
        },
    }
}

} // verus!
