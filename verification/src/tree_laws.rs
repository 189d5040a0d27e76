//! Which layers and groups the records of a document stand for, and in what order.

use vstd::prelude::*;

use crate::bytes;
use crate::helpers;
use crate::info;
use crate::layer_tree;
use crate::layer_tree::FrameView;
use crate::layout_laws;
use crate::mask;
use crate::number_laws;
use crate::number_laws::{moved_to, number32, signed16, spells};
use crate::part_laws;
use crate::psd;
use crate::psd::{
    AdditionalInfoView, BlendMode, ColorMode, LayerView, SectionDividerType, SectionDividerView,
};
use crate::reader;
use crate::reader::ReaderState;
use crate::records;
use crate::records::ChannelInfo;
use crate::settings_laws;

verus! {

broadcast use crate::bytes::group_bytes;

/// A layer, or a group with its records: the one at its head and the one at its end.
pub enum Node {
    Leaf(LayerView),
    Group(LayerView, LayerView, Seq<Node>),
}

/// The part that the divider of a record gives it.
pub open spec fn part_of(l: LayerView) -> SectionDividerType {
    match l.additional_info.section_divider {
        None => SectionDividerType::Other,
        Some(d) => d.divider_type,
    }
}

/// The records play the parts that they have in the list.
pub open spec fn node_wf(n: Node) -> bool
    decreases n,
{
    match n {
        Node::Leaf(l) => part_of(l) == SectionDividerType::Other,
        Node::Group(head, end, inner) => {
            &&& part_of(head) == SectionDividerType::OpenFolder || part_of(head)
                == SectionDividerType::ClosedFolder
            &&& part_of(end) == SectionDividerType::BoundingSectionDivider
            &&& nodes_wf(inner)
        },
    }
}

/// All of a list play their parts.
pub open spec fn nodes_wf(nodes: Seq<Node>) -> bool
    decreases nodes,
{
    nodes.len() == 0 || (nodes_wf(nodes.drop_last()) && node_wf(nodes.last()))
}

/// The records of a layer or a group, from the bottom to the top: the end of a group comes
/// before what is in it, its head behind.
pub open spec fn node_records(n: Node) -> Seq<LayerView>
    decreases n,
{
    match n {
        Node::Leaf(l) => seq![l],
        Node::Group(head, end, inner) => seq![end] + nodes_records(inner) + seq![head],
    }
}

/// The records of a list, from the bottom to the top.
pub open spec fn nodes_records(nodes: Seq<Node>) -> Seq<LayerView>
    decreases nodes,
{
    if nodes.len() == 0 {
        Seq::empty()
    } else {
        nodes_records(nodes.drop_last()) + node_records(nodes.last())
    }
}

/// The layer or group that is meant: a group is what its head says, open or closed, with
/// what is in it, blended as its divider says where that is a blend mode.
pub open spec fn node_layer(n: Node) -> LayerView
    decreases n,
{
    match n {
        Node::Leaf(l) => l,
        Node::Group(head, end, inner) => LayerView {
            opened: Some(part_of(head) == SectionDividerType::OpenFolder),
            children: Some(nodes_layers(inner)),
            blend_mode: divider_mode(head),
            ..head
        },
    }
}

/// The layers and groups that are meant, in the order of their records.
pub open spec fn nodes_layers(nodes: Seq<Node>) -> Seq<LayerView>
    decreases nodes,
{
    if nodes.len() == 0 {
        Seq::empty()
    } else {
        nodes_layers(nodes.drop_last()).push(node_layer(nodes.last()))
    }
}

/// How the head of a group says that the group is blended.
pub open spec fn divider_mode(head: LayerView) -> Option<BlendMode> {
    match head.additional_info.section_divider {
        Some(SectionDividerView { key: Some(key), .. }) => match helpers::blend_mode_of(key) {
            Some(mode) => Some(mode),
            None => head.blend_mode,
        },
        _ => head.blend_mode,
    }
}

proof fn lemma_node(stack: Seq<FrameView>, n: Node)
    requires
        stack.len() > 0,
        node_wf(n),
    ensures
        layer_tree::stack_after(stack, node_records(n)) == layer_tree::with_layers(
            stack,
            seq![node_layer(n)],
        ),
    decreases n,
{
    match n {
        Node::Leaf(l) => {
            layer_tree::lemma_stack_one(stack, l);
        },
        Node::Group(head, end, inner) => {
            let records = nodes_records(inner);
            layer_tree::lemma_stack_append(stack, seq![end] + records, seq![head]);
            layer_tree::lemma_stack_one(stack, head);
            let pushed = layer_tree::stack_step(stack, head);
            let frame = FrameView {
                children: Seq::empty(),
                folder: Some(layer_tree::opened_group(head)),
            };
            assert(pushed == stack.push(frame));
            layer_tree::lemma_stack_append(pushed, seq![end], records);
            lemma_nodes(pushed, inner);
            let filled = layer_tree::with_layers(pushed, nodes_layers(inner));
            layer_tree::lemma_stack_one(filled, end);
            assert(pushed.drop_last() =~= stack);
            assert(pushed.last() == frame);
            assert(nodes_layers(inner) + Seq::<LayerView>::empty() =~= nodes_layers(inner));
            let full = FrameView { children: nodes_layers(inner), ..frame };
            assert(filled == stack.push(full));
            assert(filled.drop_last() =~= stack);
            assert(filled.last() == full);
            assert(node_layer(n) == (LayerView {
                children: Some(full.children),
                ..full.folder->Some_0
            }));
        },
    }
}

proof fn lemma_nodes(stack: Seq<FrameView>, nodes: Seq<Node>)
    requires
        stack.len() > 0,
        nodes_wf(nodes),
    ensures
        layer_tree::stack_after(stack, nodes_records(nodes)) == layer_tree::with_layers(
            stack,
            nodes_layers(nodes),
        ),
    decreases nodes,
{
    let top = stack.last();
    if nodes.len() == 0 {
        assert(nodes_layers(nodes) + top.children =~= top.children);
        assert(layer_tree::with_layers(stack, nodes_layers(nodes)) =~= stack);
    } else {
        let first = nodes.drop_last();
        let last = nodes.last();
        layer_tree::lemma_stack_append(stack, nodes_records(first), node_records(last));
        lemma_node(stack, last);
        let mid = layer_tree::with_layers(stack, seq![node_layer(last)]);
        lemma_nodes(mid, first);
        assert(mid.drop_last() =~= stack.drop_last());
        assert(mid.last() == (FrameView { children: seq![node_layer(last)] + top.children, ..top }));
        assert(nodes_layers(first) + (seq![node_layer(last)] + top.children) =~= nodes_layers(nodes)
            + top.children);
    }
}

/// The records of layers and groups, from the bottom to the top, give these layers and
/// groups in the same order, each group with what lies between its end and its head.
pub proof fn law_records_to_tree(nodes: Seq<Node>)
    requires
        nodes_wf(nodes),
    ensures
        layer_tree::layer_tree(nodes_records(nodes)) == nodes_layers(nodes),
{
    let stack = layer_tree::first_stack();
    lemma_nodes(stack, nodes);
    assert(nodes_layers(nodes) + Seq::<LayerView>::empty() =~= nodes_layers(nodes));
}

/// Records of which none plays a part in a group are the layers, in the same order.
pub proof fn law_flat_records(records: Seq<LayerView>)
    requires
        forall|i: int|
            0 <= i < records.len() ==> part_of(#[trigger] records[i]) == SectionDividerType::Other,
    ensures
        layer_tree::layer_tree(records) == records,
{
    lemma_leaves(records);
    law_records_to_tree(leaves(records));
}

spec fn leaves(records: Seq<LayerView>) -> Seq<Node> {
    Seq::new(records.len(), |i: int| Node::Leaf(records[i]))
}

proof fn lemma_leaves(records: Seq<LayerView>)
    requires
        forall|i: int|
            0 <= i < records.len() ==> part_of(#[trigger] records[i]) == SectionDividerType::Other,
    ensures
        nodes_wf(leaves(records)),
        nodes_records(leaves(records)) == records,
        nodes_layers(leaves(records)) == records,
    decreases records.len(),
{
    let nodes = leaves(records);
    if records.len() > 0 {
        let first = records.drop_last();
        let last = records.last();
        assert forall|i: int| 0 <= i < first.len() implies part_of(#[trigger] first[i])
            == SectionDividerType::Other by {
            assert(first[i] == records[i]);
        }
        lemma_leaves(first);
        assert(nodes.drop_last() =~= leaves(first));
        assert(nodes.last() == Node::Leaf(last));
        assert(part_of(records[records.len() - 1]) == SectionDividerType::Other);
        assert(node_wf(nodes.last()));
        assert(node_records(nodes.last()) == seq![last]);
        assert(node_layer(nodes.last()) == last);
        assert(first + seq![last] =~= records);
        assert(first.push(last) =~= records);
    } else {
        assert(nodes_records(nodes) =~= records);
        assert(nodes_layers(nodes) =~= records);
    }
}

/// The records that a group is written with: an end named `</Layer group>`, and a head that
/// says whether the group is open and names its blend mode, `pass` where it has none. The
/// head itself is blended normally where the group passes through.
pub proof fn law_group_records(l: LayerView)
    requires
        l.children is Some,
    ensures
        ({
            let records = layer_tree::flattened(seq![l]);
            let inner = layer_tree::flattened(l.children->Some_0);
            let n = inner.len() as int;
            let head = records.last();
            &&& records.len() == n + 2
            &&& records.subrange(1, n + 1) == inner
            &&& part_of(records[0]) == SectionDividerType::BoundingSectionDivider
            &&& records[0].additional_info.name matches Some(name) && name
                == "</Layer group>"@
            &&& part_of(head) == (if l.opened == Some(false) {
                SectionDividerType::ClosedFolder
            } else {
                SectionDividerType::OpenFolder
            })
            &&& head.children is None
            &&& head.additional_info.name == l.additional_info.name
            &&& head.opacity == l.opacity && head.hidden == l.hidden && head.clipping == l.clipping
            &&& head.additional_info.section_divider->Some_0.key == Some(
                layout_laws::mode_letters(
                    match l.blend_mode {
                        Some(mode) => mode,
                        None => BlendMode::PassThrough,
                    },
                ),
            )
            &&& head.blend_mode == (if l.blend_mode == Some(BlendMode::PassThrough) {
                Some(BlendMode::Normal)
            } else {
                l.blend_mode
            })
        }),
{
    let one = seq![l];
    assert(one.drop_last() =~= Seq::<LayerView>::empty());
    reveal_with_fuel(layer_tree::flattened, 2);
    let records = layer_tree::flattened(one);
    let inner = layer_tree::flattened(l.children->Some_0);
    assert(records =~= seq![layer_tree::group_end()] + inner + seq![layer_tree::group_head(l)]);
    assert(records.subrange(1, inner.len() as int + 1) =~= inner);
    layout_laws::law_blend_letters(BlendMode::PassThrough, Seq::empty());
    if l.blend_mode is Some {
        layout_laws::law_blend_letters(l.blend_mode->Some_0, Seq::empty());
    }
}

/// The records of layers that are no groups are these layers, in the same order.
pub proof fn law_layers_to_records(children: Seq<LayerView>)
    requires
        forall|i: int| 0 <= i < children.len() ==> (#[trigger] children[i]).children is None,
    ensures
        layer_tree::flattened(children) == children,
    decreases children.len(),
{
    if children.len() > 0 {
        let first = children.drop_last();
        assert forall|i: int| 0 <= i < first.len() implies (
        #[trigger] first[i]).children is None by {
            assert(first[i] == children[i]);
        }
        law_layers_to_records(first);
        assert(children[children.len() - 1].children is None);
        assert(layer_tree::flattened_layer(children.last()) == seq![children.last()]);
        assert(first + seq![children.last()] =~= children);
    } else {
        assert(layer_tree::flattened(children) =~= children);
    }
}

proof fn lemma_blocks_keep(r: ReaderState, end: int, i: AdditionalInfoView)
    requires
        r.buffer.len() <= usize::MAX,
    ensures
        info::get_blocks(r, end, i) matches Ok((found, _)) ==> found == (AdditionalInfoView {
            section_divider: found.section_divider,
            blocks: found.blocks,
            ..i
        }),
    decreases
            (if end < r.offset {
                0
            } else {
                end - r.offset
            }),
{
    if end - r.offset >= 12 {
        settings_laws::lemma_block(r, r.options, r.budget, i);
        match info::get_block(r, i) {
            Err(_) => {},
            Ok((more, r1)) => {
                lemma_blocks_keep(r1, end, more);
            },
        }
    }
}

/// The last part of a record: its length, the masks, the blending ranges, the name behind
/// its length byte, and the blocks.
pub proof fn law_extra_read(r: ReaderState)
    requires
        0 <= r.offset,
        r.buffer.len() < usize::MAX - 300,
        r.offset + 4 <= r.buffer.len(),
        number32(r.buffer, r.offset) > 0,
    ensures
        match records::get_extra(r) {
            Ok((i, after)) => {
                let s = r.buffer;
                let masks = r.offset + 4;
                let ranges = masks + 4 + number32(s, masks);
                let name = ranges + 4 + number32(s, ranges);
                &&& mask::get_masks(r.at(masks), psd::empty_info()) matches Ok((m, _)) && m.mask
                    == i.mask && m.real_mask == i.real_mask
                &&& mask::get_ranges(r.at(ranges)) matches Ok((g, _)) && g == i.blending_ranges
                &&& i.name is Some
                &&& name + 1 + s[name] <= s.len() ==> i.name->Some_0.len() == s[name] && spells(
                    s,
                    name + 1,
                    i.name->Some_0,
                )
            },
            Err(_) => true,
        },
{
    reveal(records::get_extra);
    reveal(records::get_extra_body);
    number_laws::law_section_opened(r, true, false);
    match reader::open_section(r, true, false) {
        Ok((Some(section), r1)) => {
            part_laws::law_masks_read(r1, psd::empty_info());
            match mask::get_masks(r1, psd::empty_info()) {
                Err(_) => {},
                Ok((m, r2)) => {
                    part_laws::law_ranges_read(r2);
                    match mask::get_ranges(r2) {
                        Err(_) => {},
                        Ok((g, r3)) => {
                            number_laws::law_short_numbers_read(r3);
                            if r3.offset + 1 <= r.buffer.len() && r3.offset + 1
                                + r.buffer[r3.offset] <= r.buffer.len() {
                                number_laws::law_pascal_text_read(r3, 1);
                            }
                            match reader::get_pascal_string(r3, 1) {
                                Err(_) => {},
                                Ok((name, r4)) => {
                                    lemma_junk(r4, section.end as int);
                                    lemma_blocks_keep(
                                        records::past_junk(r4, section.end as int),
                                        section.end as int,
                                        AdditionalInfoView {
                                            blending_ranges: g,
                                            name: Some(name),
                                            ..m
                                        },
                                    );
                                },
                            }
                        },
                    }
                },
            }
        },
        _ => {},
    }
}

proof fn lemma_junk(r: ReaderState, end: int)
    ensures
        records::past_junk(r, end).buffer == r.buffer,
    decreases end - r.offset,
{
    if end - r.offset > 4 && !reader::block_signature_at(r.buffer, r.offset) {
        lemma_junk(r.at(r.offset + 1), end);
    }
}

/// A layer has been given pixels; nothing else of it has changed.
pub open spec fn same_but_pixels(l: LayerView, found: LayerView) -> bool {
    found == (LayerView {
        canvas: found.canvas,
        image_data: found.image_data,
        raw_data: found.raw_data,
        additional_info: AdditionalInfoView {
            mask: found.additional_info.mask,
            real_mask: found.additional_info.real_mask,
            ..l.additional_info
        },
        ..l
    })
}

/// The records of some layers lie one behind the other: `starts[k]` is where the `k`-th
/// starts.
pub open spec fn records_at(r: ReaderState, starts: Seq<int>, layers: Seq<LayerView>) -> bool {
    &&& starts.len() == layers.len() + 1
    &&& forall|k: int|
        #![trigger layers[k]]
        0 <= k < layers.len() ==> record_at(r.at(starts[k]), layers[k], starts[k + 1])
}

/// The record at the cursor is that of a layer, and ends at a place.
pub open spec fn record_at(r: ReaderState, l: LayerView, end: int) -> bool {
    records::get_record(r) matches Ok(((found, _), after)) && found == l && after.offset == end
}

proof fn lemma_records_at(r: ReaderState, n: int) -> (starts: Seq<int>)
    requires
        0 <= n,
        r.buffer.len() <= usize::MAX,
    ensures
        records::get_records(r, n) matches Ok(((layers, channels), after)) ==> {
            &&& layers.len() == n
            &&& channels.len() == n
            &&& records_at(r, starts, layers)
            &&& starts[0] == r.offset
            &&& moved_to(r, after, starts[n])
        },
    decreases n,
{
    if n == 0 {
        seq![r.offset]
    } else {
        let first = lemma_records_at(r, n - 1);
        match records::get_records(r, n - 1) {
            Err(_) => first,
            Ok(((layers, channels), r1)) => {
                settings_laws::lemma_record(r1, r1.options, r1.budget);
                match records::get_record(r1) {
                    Err(_) => first,
                    Ok(((l, c), r2)) => {
                        let starts = first.push(r2.offset);
                        assert(r1 == r.at(first[n - 1]));
                        assert forall|k: int|
                            #![trigger layers.push(l)[k]]
                            0 <= k < n implies record_at(
                            r.at(starts[k]),
                            layers.push(l)[k],
                            starts[k + 1],
                        ) by {
                            if k < n - 1 {
                                assert(layers.push(l)[k] == layers[k]);
                                assert(starts[k] == first[k] && starts[k + 1] == first[k + 1]);
                            }
                        }
                        starts
                    },
                }
            },
        }
    }
}

proof fn lemma_channel_data_keeps(
    r: ReaderState,
    layers: Seq<LayerView>,
    channels: Seq<Seq<ChannelInfo>>,
    n: int,
    mode: ColorMode,
    bits: u16,
)
    requires
        0 <= n <= layers.len(),
    ensures
        records::get_all_channel_data(r, layers, channels, n, mode, bits) matches Ok((done, after))
            ==> done.len() == n && after.global_alpha == r.global_alpha && forall|k: int|
            0 <= k < n ==> same_but_pixels(layers[k], #[trigger] done[k]),
    decreases n,
{
    if n > 0 {
        lemma_channel_data_keeps(r, layers, channels, n - 1, mode, bits);
        reveal(records::get_channel_data);
        match records::get_all_channel_data(r, layers, channels, n - 1, mode, bits) {
            Err(_) => {},
            Ok((done, r1)) => {
                settings_laws::lemma_raw_channels(
                    r1,
                    r1.options,
                    r1.budget,
                    channels[n - 1],
                    channels[n - 1].len() as int,
                );
            },
        }
    }
}

/// The layers of a document: a number, negative where the composite image has a
/// transparency, then as many records one behind the other. The records, each with its
/// pixels, give the layers and groups in their order.
pub proof fn law_layers_read(r: ReaderState, mode: ColorMode, bits: u16)
    requires
        0 <= r.offset,
        r.buffer.len() <= usize::MAX,
    ensures
        match records::get_layers(r, mode, bits) {
            Ok((tree, after)) => {
                let n = signed16(r.buffer, r.offset);
                let told = r.global_alpha || n < 0;
                let count = if n < 0 {
                    -n
                } else {
                    n
                };
                &&& r.offset + 2 <= r.buffer.len()
                &&& after.global_alpha == told
                &&& layers_of(ReaderState { global_alpha: told, ..r }, r.offset + 2, count, tree)
            },
            Err(_) => true,
        },
{
    reveal(records::get_layers);
    number_laws::law_short_numbers_read(r);
    if r.offset + 2 <= r.buffer.len() {
        let n = signed16(r.buffer, r.offset);
        let count = if n < 0 {
            -n
        } else {
            n
        };
        let r2 = ReaderState { global_alpha: r.global_alpha || n < 0, ..r.at(r.offset + 2) };
        let starts = lemma_records_at(r2, count);
        match records::get_records(r2, count) {
            Err(_) => {},
            Ok(((layers, channels), r3)) => {
                lemma_channel_data_keeps(r3, layers, channels, count, mode, bits);
                match records::get_all_channel_data(r3, layers, channels, count, mode, bits) {
                    Err(_) => {},
                    Ok((done, r4)) => {
                        let told = ReaderState { global_alpha: r.global_alpha || n < 0, ..r };
                        lemma_anywhere(r2, told, starts, layers);
                        lemma_layers_of(
                            told,
                            r.offset + 2,
                            count,
                            layer_tree::layer_tree(done),
                            starts,
                            layers,
                            done,
                        );
                    },
                }
            },
        }
    }
}

proof fn lemma_anywhere(a: ReaderState, b: ReaderState, starts: Seq<int>, layers: Seq<LayerView>)
    requires
        records_at(a, starts, layers),
        b == (ReaderState { offset: b.offset, ..a }),
    ensures
        records_at(b, starts, layers),
{
    assert forall|k: int|
        #![trigger layers[k]]
        0 <= k < layers.len() implies record_at(b.at(starts[k]), layers[k], starts[k + 1]) by {
        assert(b.at(starts[k]) == a.at(starts[k]));
    }
}

/// Layers and groups are those of so many records, each with its pixels, that lie one
/// behind the other from a place on.
pub open spec fn layers_of(r: ReaderState, at: int, count: int, tree: Seq<LayerView>) -> bool {
    exists|starts: Seq<int>, layers: Seq<LayerView>, done: Seq<LayerView>|
        #![trigger records_at(r, starts, layers), layer_tree::layer_tree(done)]
        {
            &&& records_at(r, starts, layers)
            &&& starts[0] == at
            &&& layers.len() == count
            &&& done.len() == count
            &&& forall|k: int| 0 <= k < count ==> same_but_pixels(layers[k], #[trigger] done[k])
            &&& tree == layer_tree::layer_tree(done)
        }
}

proof fn lemma_layers_of(
    r: ReaderState,
    at: int,
    count: int,
    tree: Seq<LayerView>,
    starts: Seq<int>,
    layers: Seq<LayerView>,
    done: Seq<LayerView>,
)
    requires
        records_at(r, starts, layers),
        starts[0] == at,
        layers.len() == count,
        done.len() == count,
        forall|k: int| 0 <= k < count ==> same_but_pixels(layers[k], #[trigger] done[k]),
        tree == layer_tree::layer_tree(done),
    ensures
        layers_of(r, at, count, tree),
{
}

} // verus!
