//! Pixels are kept as a canvas or as image data, as the settings say; nothing else
//! depends on that.

use vstd::prelude::*;

use crate::bytes;
use crate::composite;
use crate::decode;
use crate::decode::DecodeView;
use crate::document;
use crate::document::{BlockPart, LayerSection};
use crate::error::ErrorView;
use crate::header;
use crate::header::Header;
use crate::info;
use crate::layer_tree;
use crate::layer_tree::FrameView;
use crate::mask;
use crate::palette;
use crate::pixels;
use crate::psd;
use crate::psd::{
    AdditionalInfoView, ColorMode, Compression, LayerMaskView, LayerView, PaletteColor, PsdView,
    RawDataView, ReadOptions, SectionDividerType,
};
use crate::reader;
use crate::reader::{Parsed, ReaderState};
use crate::records;
use crate::records::ChannelInfo;
use crate::resources;
use crate::rle;
use crate::settings_laws;

verus! {

/// The settings with pixels kept as image data.
pub open spec fn with_image_data(settings: ReadOptions) -> ReadOptions {
    ReadOptions { use_image_data: Some(true), ..settings }
}

/// A mask with its canvas and its image data exchanged.
pub open spec fn exchanged_mask(m: Option<LayerMaskView>) -> Option<LayerMaskView> {
    match m {
        None => None,
        Some(m) => Some(LayerMaskView { image_data: m.canvas, canvas: m.image_data, ..m }),
    }
}

/// A layer with its canvas and its image data exchanged, and those of its masks;
/// what is in it is left as it is.
pub open spec fn exchanged_record(l: LayerView) -> LayerView {
    LayerView {
        image_data: l.canvas,
        canvas: l.image_data,
        additional_info: AdditionalInfoView {
            mask: exchanged_mask(l.additional_info.mask),
            real_mask: exchanged_mask(l.additional_info.real_mask),
            ..l.additional_info
        },
        ..l
    }
}

/// A layer or a group with canvas and image data exchanged in it and in all that is
/// in it.
pub open spec fn exchanged(l: LayerView) -> LayerView
    decreases l,
{
    match l.children {
        None => exchanged_record(l),
        Some(children) => LayerView {
            children: Some(exchanged_all(children)),
            ..exchanged_record(l)
        },
    }
}

/// A list of layers and groups with canvas and image data exchanged throughout.
pub open spec fn exchanged_all(children: Seq<LayerView>) -> Seq<LayerView>
    decreases children,
{
    if children.len() == 0 {
        Seq::empty()
    } else {
        exchanged_all(children.drop_last()).push(exchanged(children.last()))
    }
}

/// The layers of a document, where it has any, with canvas and image data exchanged.
pub open spec fn exchanged_children(children: Option<Seq<LayerView>>) -> Option<Seq<LayerView>> {
    match children {
        None => None,
        Some(layers) => Some(exchanged_all(layers)),
    }
}

/// A document with canvas and image data exchanged, in itself and in all its layers
/// and masks.
pub open spec fn exchanged_document(psd: PsdView) -> PsdView {
    PsdView {
        image_data: psd.canvas,
        canvas: psd.image_data,
        children: exchanged_children(psd.children),
        ..psd
    }
}

/// A mask, where there is one, has no image data.
pub open spec fn canvas_mask(m: Option<LayerMaskView>) -> bool {
    m matches Some(m) ==> m.image_data is None
}

/// A layer and its masks have no image data.
pub open spec fn canvas_record(l: LayerView) -> bool {
    &&& l.image_data is None
    &&& canvas_mask(l.additional_info.mask)
    &&& canvas_mask(l.additional_info.real_mask)
}

/// What [`canvas_record`] says.
pub open spec fn is_on_canvas() -> spec_fn(LayerView) -> bool {
    |l: LayerView| canvas_record(l)
}

/// The layers of a document, where it has any, their masks and all that is in them
/// have no image data.
pub open spec fn canvas_children(children: Option<Seq<LayerView>>) -> bool {
    children matches Some(layers) ==> layer_tree::everywhere(layers, is_on_canvas())
}

/// The reader with pixels kept as image data.
spec fn turned(r: ReaderState) -> ReaderState {
    settings_laws::under(r, with_image_data(r.options), r.budget)
}

/// What an operation gives, with the reader after it keeping pixels as image data.
spec fn turned_result<T>(result: Parsed<T>) -> Parsed<T> {
    match result {
        Err(e) => Err(e),
        Ok((value, after)) => Ok((value, turned(after))),
    }
}

/// What has been decoded of a layer with canvas and image data of its masks exchanged.
spec fn exchanged_decode(s: DecodeView) -> DecodeView {
    DecodeView {
        mask: exchanged_mask(s.mask),
        real_mask: exchanged_mask(s.real_mask),
        ..s
    }
}

proof fn lemma_decode_steps(s: DecodeView, raw: RawDataView, n: int, width: int, height: int)
    ensures
        decode::decode_steps(exchanged_decode(s), raw, n, width, height, true) == (
        match decode::decode_steps(s, raw, n, width, height, false) {
            Err(e) => Err(e),
            Ok(t) => Ok(exchanged_decode(t)),
        }),
        canvas_mask(s.mask) && canvas_mask(s.real_mask) ==> (decode::decode_steps(
            s,
            raw,
            n,
            width,
            height,
            false,
        ) matches Ok(t) ==> canvas_mask(t.mask) && canvas_mask(t.real_mask)),
    decreases n,
{
    if n > 0 {
        lemma_decode_steps(s, raw, n - 1, width, height);
        reveal(decode::decode_step);
    }
}

proof fn lemma_decoded(l: LayerView, budget: Option<usize>)
    requires
        exchanged_record(l) == l,
    ensures
        decode::decoded_layer(l, true, budget) == (match decode::decoded_layer(l, false, budget) {
            Err(e) => Err(e),
            Ok((found, left)) => Ok((exchanged_record(found), left)),
        }),
        decode::decoded_layer(l, false, budget) matches Ok((found, _)) ==> found.children
            == l.children && (canvas_record(l) ==> canvas_record(found)),
{
    match l.raw_data {
        None => {},
        Some(raw) => {
            let width = mask::box_width(decode::layer_bounds(l));
            let height = mask::box_height(decode::layer_bounds(l));
            match decode::decode_start(l, raw, budget) {
                Err(_) => {},
                Ok(start) => {
                    assert(exchanged_decode(start) == start);
                    lemma_decode_steps(start, raw, raw.channels.len() as int, width, height);
                },
            }
        },
    }
}

/// Layers with canvas and image data exchanged; what is in them is left as it is.
spec fn exchanged_records(layers: Seq<LayerView>) -> Seq<LayerView> {
    layers.map_values(|l: LayerView| exchanged_record(l))
}

proof fn lemma_channel_data(
    r: ReaderState,
    l: LayerView,
    infos: Seq<ChannelInfo>,
    mode: ColorMode,
    bits: u16,
)
    requires
        r.options.use_image_data != Some(true),
        settings_laws::bare_record(l),
    ensures
        records::get_channel_data(turned(r), l, infos, mode, bits) == (
        match records::get_channel_data(r, l, infos, mode, bits) {
            Err(e) => Err(e),
            Ok((found, after)) => Ok((exchanged_record(found), turned(after))),
        }),
        records::get_channel_data(r, l, infos, mode, bits) matches Ok((found, after))
            ==> found.children is None && canvas_record(found) && after.options == r.options,
{
    reveal(records::get_channel_data);
    settings_laws::lemma_raw_channels(
        r,
        with_image_data(r.options),
        r.budget,
        infos,
        infos.len() as int,
    );
    match records::get_raw_channels(r, infos, infos.len() as int) {
        Err(_) => {},
        Ok((raw, r1)) => {
            let stored = LayerView {
                raw_data: Some(
                    RawDataView {
                        color_mode: mode,
                        bits_per_channel: bits,
                        channels: raw,
                        large: r.large,
                    },
                ),
                ..l
            };
            assert(exchanged_record(stored) == stored);
            lemma_decoded(stored, r1.budget);
        },
    }
}

proof fn lemma_all_channel_data(
    r: ReaderState,
    layers: Seq<LayerView>,
    infos: Seq<Seq<ChannelInfo>>,
    n: int,
    mode: ColorMode,
    bits: u16,
)
    requires
        r.options.use_image_data != Some(true),
        forall|i: int| 0 <= i < layers.len() ==> settings_laws::bare_record(#[trigger] layers[i]),
        n <= layers.len(),
    ensures
        records::get_all_channel_data(turned(r), layers, infos, n, mode, bits) == (
        match records::get_all_channel_data(r, layers, infos, n, mode, bits) {
            Err(e) => Err(e),
            Ok((found, after)) => Ok((exchanged_records(found), turned(after))),
        }),
        records::get_all_channel_data(r, layers, infos, n, mode, bits) matches Ok((found, after))
            ==> after.options == r.options && (forall|i: int|
            0 <= i < found.len() ==> (#[trigger] found[i]).children is None && canvas_record(
                found[i],
            )),
    decreases n,
{
    if n <= 0 {
        assert(exchanged_records(Seq::empty()) =~= Seq::<LayerView>::empty());
    } else {
        lemma_all_channel_data(r, layers, infos, n - 1, mode, bits);
        match records::get_all_channel_data(r, layers, infos, n - 1, mode, bits) {
            Err(_) => {},
            Ok((done, r1)) => {
                lemma_channel_data(r1, layers[n - 1], infos[n - 1], mode, bits);
                match records::get_channel_data(r1, layers[n - 1], infos[n - 1], mode, bits) {
                    Err(_) => {},
                    Ok((l, _)) => {
                        assert(exchanged_records(done.push(l)) =~= exchanged_records(done).push(
                            exchanged_record(l),
                        ));
                    },
                }
            },
        }
    }
}

proof fn lemma_exchanged_all(children: Seq<LayerView>)
    ensures
        exchanged_all(children).len() == children.len(),
        forall|i: int|
            0 <= i < children.len() ==> #[trigger] exchanged_all(children)[i] == exchanged(
                children[i],
            ),
    decreases children.len(),
{
    if children.len() > 0 {
        lemma_exchanged_all(children.drop_last());
    }
}

proof fn lemma_exchanged_joined(a: Seq<LayerView>, b: Seq<LayerView>)
    ensures
        exchanged_all(a + b) == exchanged_all(a) + exchanged_all(b),
{
    lemma_exchanged_all(a);
    lemma_exchanged_all(b);
    lemma_exchanged_all(a + b);
    assert(exchanged_all(a + b) =~= exchanged_all(a) + exchanged_all(b));
}

/// A group whose head has been met, with canvas and image data exchanged.
spec fn exchanged_frame(f: FrameView) -> FrameView {
    FrameView {
        children: exchanged_all(f.children),
        folder: match f.folder {
            None => None,
            Some(l) => Some(exchanged_record(l)),
        },
    }
}

spec fn exchanged_stack(stack: Seq<FrameView>) -> Seq<FrameView> {
    stack.map_values(|f: FrameView| exchanged_frame(f))
}

proof fn lemma_with_layer(stack: Seq<FrameView>, l: LayerView)
    requires
        stack.len() >= 1,
    ensures
        layer_tree::with_layer(exchanged_stack(stack), exchanged(l)) == exchanged_stack(
            layer_tree::with_layer(stack, l),
        ),
{
    let one = seq![l];
    lemma_exchanged_joined(one, stack.last().children);
    lemma_exchanged_all(one);
    assert(exchanged_all(one) =~= seq![exchanged(l)]);
    assert(layer_tree::with_layer(exchanged_stack(stack), exchanged(l)) =~= exchanged_stack(
        layer_tree::with_layer(stack, l),
    ));
}

proof fn lemma_with_group_closed(stack: Seq<FrameView>)
    requires
        layer_tree::stack_wf(stack),
        stack.len() > 1,
    ensures
        layer_tree::with_group_closed(exchanged_stack(stack)) == exchanged_stack(
            layer_tree::with_group_closed(stack),
        ),
        layer_tree::stack_wf(layer_tree::with_group_closed(stack)),
{
    let top = stack.last();
    assert(stack[stack.len() - 1] == top);
    let group = LayerView { children: Some(top.children), ..top.folder->Some_0 };
    lemma_with_layer(stack.drop_last(), group);
    assert(exchanged_stack(stack).drop_last() =~= exchanged_stack(stack.drop_last()));
    assert(exchanged_stack(stack).last() == exchanged_frame(top));
    let after = layer_tree::with_group_closed(stack);
    assert forall|i: int| 1 <= i < after.len() implies (#[trigger] after[i]).folder is Some by {
        assert(stack[i].folder is Some);
    }
}

proof fn lemma_stack_step(stack: Seq<FrameView>, l: LayerView)
    requires
        layer_tree::stack_wf(stack),
        l.children is None,
    ensures
        layer_tree::stack_step(exchanged_stack(stack), exchanged_record(l)) == exchanged_stack(
            layer_tree::stack_step(stack, l),
        ),
        layer_tree::stack_wf(layer_tree::stack_step(stack, l)),
{
    let after = layer_tree::stack_step(stack, l);
    match layer_tree::record_type(l) {
        SectionDividerType::OpenFolder | SectionDividerType::ClosedFolder => {
            lemma_exchanged_all(Seq::empty());
            assert(exchanged_all(Seq::empty()) =~= Seq::<LayerView>::empty());
            assert(layer_tree::stack_step(exchanged_stack(stack), exchanged_record(l))
                =~= exchanged_stack(after));
        },
        SectionDividerType::BoundingSectionDivider => {
            if stack.len() > 1 {
                lemma_with_group_closed(stack);
            }
        },
        SectionDividerType::Other => {
            lemma_with_layer(stack, l);
            assert forall|i: int| 1 <= i < after.len() implies (
            #[trigger] after[i]).folder is Some by {
                assert(stack[i].folder is Some);
            }
        },
    }
}

proof fn lemma_stack_after(stack: Seq<FrameView>, records: Seq<LayerView>)
    requires
        layer_tree::stack_wf(stack),
        forall|i: int| 0 <= i < records.len() ==> (#[trigger] records[i]).children is None,
    ensures
        layer_tree::stack_after(exchanged_stack(stack), exchanged_records(records))
            == exchanged_stack(layer_tree::stack_after(stack, records)),
        layer_tree::stack_wf(layer_tree::stack_after(stack, records)),
    decreases records.len(),
{
    if records.len() > 0 {
        let l = records.last();
        assert(records[records.len() - 1] == l);
        lemma_stack_step(stack, l);
        let rest = records.drop_last();
        assert forall|i: int| 0 <= i < rest.len() implies (#[trigger] rest[i]).children is None by {
            assert(rest[i] == records[i]);
        }
        lemma_stack_after(layer_tree::stack_step(stack, l), rest);
        assert(exchanged_records(records).drop_last() =~= exchanged_records(rest));
        assert(exchanged_records(records).last() == exchanged_record(l));
    }
}

proof fn lemma_closed_stack(stack: Seq<FrameView>)
    requires
        layer_tree::stack_wf(stack),
    ensures
        layer_tree::closed_stack(exchanged_stack(stack)) == exchanged_all(
            layer_tree::closed_stack(stack),
        ),
    decreases stack.len(),
{
    if stack.len() > 1 {
        lemma_with_group_closed(stack);
        lemma_closed_stack(layer_tree::with_group_closed(stack));
    }
}

proof fn lemma_tree(records: Seq<LayerView>)
    requires
        forall|i: int| 0 <= i < records.len() ==> (#[trigger] records[i]).children is None,
    ensures
        layer_tree::layer_tree(exchanged_records(records)) == exchanged_all(
            layer_tree::layer_tree(records),
        ),
{
    lemma_exchanged_all(Seq::empty());
    assert(exchanged_all(Seq::empty()) =~= Seq::<LayerView>::empty());
    assert(exchanged_stack(layer_tree::first_stack()) =~= layer_tree::first_stack());
    lemma_stack_after(layer_tree::first_stack(), records);
    lemma_closed_stack(layer_tree::stack_after(layer_tree::first_stack(), records));
}

/// What an operation gives, with canvas and image data exchanged in the layers.
spec fn turned_layers(result: Parsed<Seq<LayerView>>) -> Parsed<Seq<LayerView>> {
    match result {
        Err(e) => Err(e),
        Ok((layers, after)) => Ok((exchanged_all(layers), turned(after))),
    }
}

#[verifier::spinoff_prover]
#[verifier::rlimit(40)]
proof fn lemma_layers(r: ReaderState, mode: ColorMode, bits: u16)
    requires
        r.buffer.len() <= usize::MAX,
        r.options.use_image_data != Some(true),
    ensures
        records::get_layers(turned(r), mode, bits) == turned_layers(
            records::get_layers(r, mode, bits),
        ),
        records::get_layers(r, mode, bits) matches Ok((layers, after)) ==> after.same_source(r)
            && canvas_children(Some(layers)),
{
    reveal(records::get_layers);
    match reader::get_i16(r) {
        Err(_) => {},
        Ok((n, r1)) => {
            let r2 = ReaderState { global_alpha: r1.global_alpha || n < 0, ..r1 };
            let count = records::layer_count(n);
            settings_laws::lemma_records(r2, with_image_data(r2.options), r2.budget, count);
            match records::get_records(r2, count) {
                Err(_) => {},
                Ok(((layers, infos), r3)) => {
                    lemma_all_channel_data(r3, layers, infos, count, mode, bits);
                    lemma_all_channel_data_source(r3, layers, infos, count, mode, bits);
                    match records::get_all_channel_data(r3, layers, infos, count, mode, bits) {
                        Err(_) => {},
                        Ok((found, _)) => {
                            lemma_tree(found);
                            assert forall|i: int| 0 <= i < found.len() implies
                                layer_tree::throughout(#[trigger] found[i], is_on_canvas()) by {
                                assert(canvas_record(found[i]));
                            }
                            layer_tree::lemma_tree_everywhere(found, is_on_canvas());
                        },
                    }
                },
            }
        },
    }
}

proof fn lemma_all_channel_data_source(
    r: ReaderState,
    layers: Seq<LayerView>,
    infos: Seq<Seq<ChannelInfo>>,
    n: int,
    mode: ColorMode,
    bits: u16,
)
    ensures
        records::get_all_channel_data(r, layers, infos, n, mode, bits) matches Ok((_, after))
            ==> after.same_source(r),
    decreases n,
{
    if n > 0 {
        lemma_all_channel_data_source(r, layers, infos, n - 1, mode, bits);
        match records::get_all_channel_data(r, layers, infos, n - 1, mode, bits) {
            Err(_) => {},
            Ok((_, r1)) => {
                reveal(records::get_channel_data);
                settings_laws::lemma_raw_channels(
                    r1,
                    with_image_data(r1.options),
                    r1.budget,
                    infos[n - 1],
                    infos[n - 1].len() as int,
                );
            },
        }
    }
}

#[verifier::spinoff_prover]
#[verifier::rlimit(40)]
proof fn lemma_nested(r: ReaderState, h: Header, eight_bytes: bool)
    requires
        r.buffer.len() <= usize::MAX,
        r.options.use_image_data != Some(true),
    ensures
        document::get_nested_layers(turned(r), h, eight_bytes) == turned_layers(
            document::get_nested_layers(r, h, eight_bytes),
        ),
        document::get_nested_layers(r, h, eight_bytes) matches Ok((layers, _)) ==> canvas_children(
            Some(layers),
        ),
{
    assert(layer_tree::everywhere(Seq::empty(), is_on_canvas()));
    assert(exchanged_all(Seq::empty()) =~= Seq::<LayerView>::empty());
    match reader::open_section(r, false, eight_bytes) {
        Ok((Some(section), r1)) => {
            lemma_layers(r1, h.color_mode, h.bits_per_channel);
            match records::get_layers(r1, h.color_mode, h.bits_per_channel) {
                Err(_) => {},
                Ok((layers, r2)) => {
                    assert(records::get_layers(turned(r1), h.color_mode, h.bits_per_channel)
                        == Ok::<(Seq<LayerView>, ReaderState), ErrorView>(
                        (exchanged_all(layers), turned(r2)),
                    ));
                },
            }
        },
        _ => {},
    }
}

/// What the blocks of a document say, with canvas and image data exchanged.
spec fn exchanged_part(part: BlockPart) -> BlockPart {
    BlockPart { children: exchanged_children(part.children), ..part }
}

spec fn turned_part(result: Parsed<BlockPart>) -> Parsed<BlockPart> {
    match result {
        Err(e) => Err(e),
        Ok((part, after)) => Ok((exchanged_part(part), turned(after))),
    }
}

#[verifier::spinoff_prover]
#[verifier::rlimit(40)]
proof fn lemma_document_block(r: ReaderState, h: Header, part: BlockPart)
    requires
        r.buffer.len() <= usize::MAX,
        r.options.use_image_data != Some(true),
    ensures
        document::get_document_block(turned(r), h, exchanged_part(part)) == turned_part(
            document::get_document_block(r, h, part),
        ),
        canvas_children(part.children) ==> (document::get_document_block(r, h, part) matches Ok(
            (more, _),
        ) ==> canvas_children(more.children)),
{
    reveal(document::get_document_block);
    settings_laws::lemma_signature(r, with_image_data(r.options), r.budget, false, 0, Seq::empty());
    info::lemma_signature_progress(r, false, 0, Seq::empty());
    match info::get_block_signature(r, false) {
        Err(_) => {},
        Ok((signature, r1)) => match info::get_key(r1) {
            Err(_) => {},
            Ok((key, r2)) => {
                let eight_bytes = signature == info::SIGNATURE_8B64 || (r2.large
                    && info::large_key(key));
                assert(info::get_key(turned(r1)) == turned_result(info::get_key(r1)));
                lemma_nested(r2, h, eight_bytes);
                settings_laws::lemma_payload(
                    r2,
                    with_image_data(r2.options),
                    r2.budget,
                    eight_bytes,
                );
                match document::get_nested_layers(r2, h, eight_bytes) {
                    Err(_) => {},
                    Ok((layers, _)) => {
                        let others = match part.children {
                            Some(children) => children,
                            None => Seq::empty(),
                        };
                        lemma_exchanged_joined(layers, others);
                        assert(layer_tree::everywhere(Seq::empty(), is_on_canvas()));
                        if canvas_children(part.children) {
                            layer_tree::lemma_everywhere_joined(layers, others, is_on_canvas());
                        }
                        assert(exchanged_all(Seq::empty()) =~= Seq::<LayerView>::empty());
                    },
                }
            },
        },
    }
}

proof fn lemma_document_blocks(r: ReaderState, h: Header, end: int, part: BlockPart)
    requires
        r.buffer.len() <= usize::MAX,
        r.options.use_image_data != Some(true),
    ensures
        document::get_document_blocks(turned(r), h, end, exchanged_part(part)) == turned_part(
            document::get_document_blocks(r, h, end, part),
        ),
        canvas_children(part.children) ==> (document::get_document_blocks(
            r,
            h,
            end,
            part,
        ) matches Ok((more, _)) ==> canvas_children(more.children)),
    decreases
            (if end < r.offset {
                0
            } else {
                end - r.offset
            }),
{
    if r.offset < end {
        settings_laws::lemma_zeros(r, with_image_data(r.options), r.budget, end);
        document::lemma_past_zeros(r, end);
        match document::past_zeros(r, end) {
            Err(_) => {},
            Ok((_, r1)) => {
                if end - r1.offset >= 12 {
                    document::lemma_document_block_progress(r1, h, part);
                    lemma_document_block(r1, h, part);
                    match document::get_document_block(r1, h, part) {
                        Err(_) => {},
                        Ok((more, r2)) => {
                            lemma_document_blocks(r2, h, end, more);
                        },
                    }
                }
            },
        }
    }
}

spec fn turned_children(result: Parsed<Option<Seq<LayerView>>>) -> Parsed<Option<Seq<LayerView>>> {
    match result {
        Err(e) => Err(e),
        Ok((children, after)) => Ok((exchanged_children(children), turned(after))),
    }
}

#[verifier::spinoff_prover]
#[verifier::rlimit(40)]
proof fn lemma_layer_part(r: ReaderState, h: Header)
    requires
        r.buffer.len() <= usize::MAX,
        r.options.use_image_data != Some(true),
    ensures
        document::get_layer_part(turned(r), h) == turned_children(document::get_layer_part(r, h)),
        document::get_layer_part(r, h) matches Ok((children, after)) ==> after.same_source(r)
            && canvas_children(children),
{
    reveal(document::get_layer_part);
    match reader::open_section(r, true, r.large) {
        Ok((Some(section), r1)) => {
            lemma_layers(r1, h.color_mode, h.bits_per_channel);
        },
        _ => {},
    }
}

/// What the section about layers holds, with canvas and image data exchanged.
spec fn turned_section(result: Parsed<LayerSection>) -> Parsed<LayerSection> {
    match result {
        Err(e) => Err(e),
        Ok((layers, after)) => Ok(
            (
                LayerSection { children: exchanged_children(layers.children), ..layers },
                turned(after),
            ),
        ),
    }
}

#[verifier::spinoff_prover]
#[verifier::rlimit(40)]
proof fn lemma_section_body(r: ReaderState, h: Header, end: int)
    requires
        r.buffer.len() <= usize::MAX,
        r.options.use_image_data != Some(true),
    ensures
        document::get_layer_section_body(turned(r), h, end) == turned_section(
            document::get_layer_section_body(r, h, end),
        ),
        document::get_layer_section_body(r, h, end) matches Ok((layers, _)) ==> canvas_children(
            layers.children,
        ),
{
    reveal(document::get_layer_section_body);
    lemma_layer_part(r, h);
    match document::get_layer_part(r, h) {
        Err(_) => {},
        Ok((children, r1)) => {
            settings_laws::lemma_global_mask(r1, with_image_data(r1.options), r1.budget);
            let masked = if r1.offset < end {
                mask::get_global_mask(r1)
            } else {
                Ok((None, r1))
            };
            match masked {
                Err(_) => {},
                Ok((_, r2)) => {
                    lemma_document_blocks(
                        r2,
                        h,
                        end,
                        BlockPart { children, additional_info: psd::empty_info() },
                    );
                },
            }
        },
    }
}

#[verifier::spinoff_prover]
#[verifier::rlimit(40)]
proof fn lemma_section(r: ReaderState, h: Header)
    requires
        r.buffer.len() <= usize::MAX,
        r.options.use_image_data != Some(true),
    ensures
        document::get_layer_section(turned(r), h) == turned_section(
            document::get_layer_section(r, h),
        ),
        document::get_layer_section(r, h) matches Ok((layers, _)) ==> canvas_children(
            layers.children,
        ),
{
    reveal(document::get_layer_section);
    match reader::open_section(r, true, r.large) {
        Ok((Some(section), r1)) => {
            lemma_section_body(r1, h, section.end as int);
        },
        _ => {},
    }
}

proof fn lemma_rle(
    r: ReaderState,
    data: Option<Seq<u8>>,
    width: int,
    height: int,
    depth: u32,
    step: int,
    channels: Seq<usize>,
    large: bool,
)
    ensures
        rle::get_rle(turned(r), data, width, height, depth, step, channels, large) == turned_result(
            rle::get_rle(r, data, width, height, depth, step, channels, large),
        ),
{
    let count = channels.len() * height;
    assert(rle::get_row_lengths(turned(r), count, large) == turned_result(
        rle::get_row_lengths(r, count, large),
    ));
    match rle::get_row_lengths(r, count, large) {
        Err(_) => {},
        Ok((lengths, r1)) => {
            settings_laws::lemma_rle_channels(
                r1,
                with_image_data(r1.options),
                r1.budget,
                data,
                lengths,
                channels,
                channels.len() as int,
                width,
                height,
                depth,
                step,
            );
        },
    }
}

proof fn lemma_zip_samples(
    r: ReaderState,
    image: Seq<u8>,
    channels: Seq<usize>,
    n: int,
    h: Header,
    prediction: bool,
)
    ensures
        composite::get_zip_channels(turned(r), image, channels, n, h, prediction)
            == turned_result(
            composite::get_zip_channels(r, image, channels, n, h, prediction),
        ),
    decreases n,
{
    if n > 0 {
        lemma_zip_samples(r, image, channels, n - 1, h, prediction);
    }
}

proof fn lemma_color_image(r: ReaderState, h: Header, image: Seq<u8>, compression: Compression)
    ensures
        composite::get_color_image(turned(r), h, image, compression) == turned_result(
            composite::get_color_image(r, h, image, compression),
        ),
{
    reveal(composite::get_color_image);
    let gray = h.color_mode == ColorMode::Grayscale;
    let channels = composite::composite_channels(gray, h.channels as int, r.global_alpha);
    let n = channels.len() as int;
    settings_laws::lemma_raw_samples(
        r,
        with_image_data(r.options),
        r.budget,
        image,
        channels,
        n,
        h.width * h.height,
        h.bits_per_channel,
    );
    lemma_zip_samples(
        r,
        image,
        channels,
        n,
        h,
        compression == Compression::ZipWithPrediction,
    );
    lemma_rle(
        r,
        Some(image),
        h.width as int,
        h.height as int,
        h.bits_per_channel as u32,
        4,
        channels,
        r.large,
    );
}

proof fn lemma_mode_image(
    r: ReaderState,
    h: Header,
    image: Seq<u8>,
    compression: Compression,
    palette: Option<Seq<PaletteColor>>,
)
    ensures
        composite::get_mode_image(turned(r), h, image, compression, palette) == turned_result(
            composite::get_mode_image(r, h, image, compression, palette),
        ),
{
    reveal(composite::get_mode_image);
    match h.color_mode {
        ColorMode::Bitmap => {
            reveal(composite::get_bitmap_image);
            lemma_plane(r, h);
        },
        ColorMode::Rgb | ColorMode::Grayscale => {
            lemma_color_image(r, h, image, compression);
        },
        ColorMode::Indexed => {
            reveal(composite::get_indexed_image);
            lemma_plane(r, h);
        },
        _ => {},
    }
}

proof fn lemma_plane(r: ReaderState, h: Header)
    ensures
        composite::get_plane(turned(r), h) == turned_result(composite::get_plane(r, h)),
{
    lemma_rle(
        r,
        Some(bytes::zeros(h.width * h.height)),
        h.width as int,
        h.height as int,
        8,
        1,
        seq![0usize],
        r.large,
    );
}

proof fn lemma_composite(r: ReaderState, h: Header, palette: Option<Seq<PaletteColor>>)
    ensures
        composite::get_composite(turned(r), h, palette) == turned_result(
            composite::get_composite(r, h, palette),
        ),
{
    let size = h.width * h.height * 4;
    match reader::get_u16(r) {
        Err(_) => {},
        Ok((v, r1)) => match composite::checked_charge(v, r1.budget, size) {
            Err(_) => {},
            Ok(left) => {
                lemma_mode_image(
                    ReaderState { budget: left, ..r1 },
                    h,
                    pixels::opaque_black(size),
                    records::compression_of(v),
                    palette,
                );
            },
        },
    }
}

proof fn lemma_wanted_composite(
    r: ReaderState,
    h: Header,
    palette: Option<Seq<PaletteColor>>,
    children: Option<Seq<LayerView>>,
)
    ensures
        document::get_wanted_composite(turned(r), h, palette, exchanged_children(children))
            == turned_result(document::get_wanted_composite(r, h, palette, children)),
{
    lemma_composite(r, h, palette);
    match children {
        Some(layers) => {
            lemma_exchanged_all(layers);
        },
        None => {},
    }
}

/// Where a document is read with its pixels kept as a canvas, it is read with its
/// pixels kept as image data to the same document with canvas and image data
/// exchanged: its own, those of every layer and those of every mask. In the first
/// there is no image data at all, so that in the second there is no canvas. Where
/// reading fails it fails with the same error.
pub proof fn law_canvas_or_image_data(data: Seq<u8>, settings: ReadOptions)
    requires
        data.len() <= usize::MAX,
        settings.use_image_data != Some(true),
    ensures
        document::parsed_psd(data, with_image_data(settings)) == (match document::parsed_psd(
            data,
            settings,
        ) {
            Err(e) => Err(e),
            Ok(psd) => Ok(exchanged_document(psd)),
        }),
        document::parsed_psd(data, settings) matches Ok(psd) ==> psd.image_data is None
            && canvas_children(psd.children),
{
    let r = document::reader_with(data, settings);
    assert(document::reader_with(data, with_image_data(settings)) == turned(r));
    settings_laws::lemma_header(r, with_image_data(r.options), r.budget);
    match header::get_header(r) {
        Err(_) => {},
        Ok((h, r1)) => {
            assert(palette::get_palette(turned(r1), h.color_mode) == turned_result(
                palette::get_palette(r1, h.color_mode),
            ));
            match palette::get_palette(r1, h.color_mode) {
                Err(_) => {},
                Ok((colors, r2)) => {
                    settings_laws::lemma_resources(r2, with_image_data(r2.options), r2.budget);
                    match resources::get_resources(r2) {
                        Err(_) => {},
                        Ok((_, r3)) => {
                            lemma_section(r3, h);
                            match document::get_layer_section(r3, h) {
                                Err(_) => {},
                                Ok((layers, r4)) => {
                                    lemma_wanted_composite(r4, h, colors, layers.children);
                                },
                            }
                        },
                    }
                },
            }
        },
    }
}

} // verus!
