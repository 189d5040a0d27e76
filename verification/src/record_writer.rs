//! Writing the records and channels of layers.

use vstd::prelude::*;

use crate::bytes;
use crate::channels::{ChannelData, ChannelDataView, LayerChannelData, LayerChannelView};
use crate::helpers;
use crate::helpers::Bounds;
use crate::info;
use crate::mask;
use crate::psd::{
    AdditionalInfoView, BlendMode, Compression, Layer, LayerAdditionalInfo, LayerView,
    SectionDividerType,
};
use crate::roundtrip;
use crate::text;
use crate::writer;
use crate::writer::PsdWriter;

verus! {

broadcast use crate::bytes::group_bytes;

/// A channel in the record of a layer: its number, and its length in four or
/// eight bytes.
pub open spec fn channel_entry(c: ChannelDataView, psb: bool) -> Seq<u8> {
    bytes::u16_bytes(bytes::i16_bits(helpers::channel_code(c.channel_id))) + (
    writer::section_prefix(psb) + bytes::u32_bytes(writer::low32(c.length as int)))
}

/// The channels in the record of a layer, one by one.
pub open spec fn channel_entries(channels: Seq<ChannelDataView>, psb: bool) -> Seq<Seq<u8>> {
    Seq::new(channels.len(), |i: int| channel_entry(channels[i], psb))
}

fn write_channel_entries(writer: &mut PsdWriter, channels: &Vec<ChannelData>, psb: bool)
    requires
        old(writer).wf(),
    ensures
        writer::wrote(
            *old(writer),
            *final(writer),
            bytes::concat(channel_entries(channels.deep_view(), psb)),
        ),
{
    let ghost view = channels.deep_view();
    let ghost entries = channel_entries(view, psb);
    let ghost base = writer.data();
    let mut i: usize = 0;
    assert(entries.take(0) =~= Seq::<Seq<u8>>::empty());
    assert(base + bytes::concat(entries.take(0)) =~= base);
    while i < channels.len()
        invariant
            i <= channels@.len(),
            view == channels.deep_view(),
            entries == channel_entries(view, psb),
            writer.wf(),
            writer.temp_buffer == old(writer).temp_buffer,
            writer::grew(*old(writer), *writer),
            writer.data() == base + bytes::concat(entries.take(i as int)),
        decreases channels@.len() - i,
    {
        let ghost before = writer.data();
        writer::write_int16(writer, helpers::channel_number(channels[i].channel_id));
        if psb {
            writer::write_zeros(writer, 4);
        }
        writer::write_uint32(writer, writer::low_32_bits(channels[i].length));
        proof {
            assert(writer.data() =~= before + entries[i as int]);
            bytes::lemma_concat_take(entries, i as int);
            assert(base + bytes::concat(entries.take(i + 1)) =~= before + entries[i as int]);
        }
        i += 1;
    }
    assert(entries.take(i as int) =~= entries);
    assert(writer.data().len() == writer.offset);
    assert(base.len() == old(writer).offset);
}

/// A block that makes the pixels of a layer irrelevant: a vector mask (vmsk, vsms)
/// or an adjustment (brit, levl, curv, expA, vibA, hue, hue2, blnc, blwh, phfl,
/// mixr, clrL, nvrt, post, thrs, grdm, selc).
pub open spec fn replaces_pixels(key: u32) -> bool {
    key == 0x766D_736B || key == 0x7673_6D73 || key == 0x6272_6974 || key == 0x6C65_766C || key
        == 0x6375_7276 || key == 0x6578_7041 || key == 0x7669_6241 || key == 0x6875_6520 || key
        == 0x6875_6532 || key == 0x626C_6E63 || key == 0x626C_7768 || key == 0x7068_666C || key
        == 0x6D69_7872 || key == 0x636C_724C || key == 0x6E76_7274 || key == 0x706F_7374 || key
        == 0x7468_7273 || key == 0x6772_646D || key == 0x7365_6C63
}

fn is_replacing_pixels(key: u32) -> (found: bool)
    ensures
        found == replaces_pixels(key),
{
    key == 0x766D_736B || key == 0x7673_6D73 || key == 0x6272_6974 || key == 0x6C65_766C || key
        == 0x6375_7276 || key == 0x6578_7041 || key == 0x7669_6241 || key == 0x6875_6520 || key
        == 0x6875_6532 || key == 0x626C_6E63 || key == 0x626C_7768 || key == 0x7068_666C || key
        == 0x6D69_7872 || key == 0x636C_724C || key == 0x6E76_7274 || key == 0x706F_7374 || key
        == 0x7468_7273 || key == 0x6772_646D || key == 0x7365_6C63
}

/// The pixels of a layer are irrelevant: it is part of a group, or something else
/// stands for its pixels.
pub open spec fn pixels_irrelevant(i: AdditionalInfoView) -> bool {
    (i.section_divider matches Some(d) && d.divider_type != SectionDividerType::Other) || exists|
        k: int,
    |
        0 <= k < i.blocks.len() && replaces_pixels((#[trigger] i.blocks[k]).key)
}

fn are_pixels_irrelevant(i: &LayerAdditionalInfo) -> (found: bool)
    ensures
        found == pixels_irrelevant(i.deep_view()),
{
    let ghost view = i.deep_view();
    match &i.section_divider {
        Some(d) => {
            if !matches!(d.divider_type, SectionDividerType::Other) {
                return true;
            }
        },
        None => {},
    }
    let mut k: usize = 0;
    while k < i.blocks.len()
        invariant
            k <= i.blocks@.len(),
            view == i.deep_view(),
            forall|j: int|
                0 <= j < k ==> !replaces_pixels((#[trigger] view.blocks[j]).key),
        decreases i.blocks@.len() - k,
    {
        assert(view.blocks[k as int].key == i.blocks@[k as int].key);
        if is_replacing_pixels(i.blocks[k].key) {
            return true;
        }
        k += 1;
    }
    false
}

/// The flags of a layer.
#[verifier::opaque]
pub open spec fn layer_flags(l: LayerView) -> u8 {
    (8 + mask::weight_if(l.transparency_protected == Some(true), 1) + mask::weight_if(
        l.hidden == Some(true),
        2,
    ) + mask::weight_if(pixels_irrelevant(l.additional_info), 0x10) + mask::weight_if(
        l.effects_open == Some(true),
        0x20,
    )) as u8
}

fn flags_for(l: &Layer) -> (flags: u8)
    ensures
        flags == layer_flags(l.deep_view()),
{
    reveal(layer_flags);
    let mut flags: u8 = 8;
    if matches!(l.transparency_protected, Some(true)) {
        flags += 1;
    }
    if matches!(l.hidden, Some(true)) {
        flags += 2;
    }
    if are_pixels_irrelevant(&l.additional_info) {
        flags += 0x10;
    }
    if matches!(l.effects_open, Some(true)) {
        flags += 0x20;
    }
    flags
}

/// The blend mode of a layer; by default the normal one.
pub open spec fn written_mode(l: LayerView) -> BlendMode {
    match l.blend_mode {
        Some(mode) => mode,
        None => BlendMode::Normal,
    }
}

/// The opacity of a layer; by default it is opaque.
pub open spec fn written_opacity(l: LayerView) -> u8 {
    match l.opacity {
        Some(opacity) => opacity,
        None => 255,
    }
}

/// The key of a blend mode takes four bytes.
pub proof fn lemma_blend_key_bytes(mode: BlendMode)
    ensures
        roundtrip::is_ascii_signature(helpers::blend_key(mode)),
        vstd::utf8::encode_utf8(helpers::blend_key(mode)).len() == 4,
{
    helpers::lemma_blend_key(mode);
    roundtrip::lemma_signature_bytes(helpers::blend_key(mode));
}

/// How a layer is blended: signature, blend mode, opacity, clipping, flags, a filler.
#[verifier::opaque]
pub open spec fn blending_bytes(l: LayerView) -> Seq<u8> {
    bytes::u32_bytes(info::SIGNATURE_8BIM) + (vstd::utf8::encode_utf8(
        helpers::blend_key(written_mode(l)),
    ) + seq![
        written_opacity(l),
        if l.clipping == Some(true) {
            1u8
        } else {
            0u8
        },
        layer_flags(l),
        0u8,
    ])
}

fn write_blending(writer: &mut PsdWriter, l: &Layer)
    requires
        old(writer).wf(),
    ensures
        writer::wrote(*old(writer), *final(writer), blending_bytes(l.deep_view())),
{
    reveal(blending_bytes);
    let mode: BlendMode = match l.blend_mode {
        Some(mode) => mode,
        None => BlendMode::Normal,
    };
    let opacity: u8 = match l.opacity {
        Some(opacity) => opacity,
        None => 255,
    };
    proof {
        lemma_blend_key_bytes(mode);
    }
    writer::write_uint32(writer, info::SIGNATURE_8BIM);
    writer::write_signature(writer, helpers::from_blend_mode(mode));
    writer::write_uint8(writer, opacity);
    writer::write_uint8(
        writer,
        if matches!(l.clipping, Some(true)) {
            1
        } else {
            0
        },
    );
    writer::write_uint8(writer, flags_for(l));
    writer::write_uint8(writer, 0);
    assert(writer.data() =~= old(writer).data() + blending_bytes(l.deep_view()));
}

/// The name of a layer as it is written: at most 255 characters of it.
pub open spec fn written_name(name: Option<Seq<char>>) -> Seq<char> {
    match name {
        None => Seq::empty(),
        Some(name) => if name.len() > 255 {
            name.take(255)
        } else {
            name
        },
    }
}

fn write_name(writer: &mut PsdWriter, name: &Option<String>)
    requires
        old(writer).wf(),
    ensures
        writer::wrote(
            *old(writer),
            *final(writer),
            writer::pascal_bytes(
                written_name(
                    match *name {
                        Some(name) => Some(name@),
                        None => None,
                    },
                ),
                4,
            ),
        ),
{
    match name {
        None => {
            proof {
                reveal_strlit("");
                assert(""@ =~= Seq::<char>::empty());
            }
            writer::write_pascal_string(writer, "", 4);
        },
        Some(name) => {
            let chars: Vec<char> = text::chars_of(name.as_str());
            let count: usize = if chars.len() > 255 {
                255
            } else {
                chars.len()
            };
            let kept: String = text::string_of(
                vstd::slice::slice_subrange(chars.as_slice(), 0, count),
            );
            assert(kept@ =~= written_name(Some(name@)));
            writer::write_pascal_string(writer, kept.as_str(), 4);
        },
    }
}

/// The last part of a record: masks, blending ranges, name, blocks.
#[verifier::opaque]
pub open spec fn extra_body(
    i: AdditionalInfoView,
    bounds: Option<Bounds>,
    real_bounds: Option<Bounds>,
    psb: bool,
) -> Seq<u8> {
    writer::section_bytes(mask::mask_body(i, bounds, real_bounds), 1, false, false) + (
    writer::section_bytes(mask::ranges_body(i.blending_ranges), 1, false, false) + (
    writer::pascal_bytes(written_name(i.name), 4) + info::info_bytes(i, psb)))
}

fn write_extra(
    writer: &mut PsdWriter,
    i: &LayerAdditionalInfo,
    bounds: Option<Bounds>,
    real_bounds: Option<Bounds>,
    psb: bool,
)
    requires
        old(writer).wf(),
        info::divider_wf(i.deep_view()),
    ensures
        writer::wrote(
            *old(writer),
            *final(writer),
            writer::section_bytes(
                extra_body(i.deep_view(), bounds, real_bounds, psb),
                1,
                false,
                false,
            ),
        ),
{
    reveal(extra_body);
    let ghost base = writer.data();
    let ghost body = extra_body(i.deep_view(), bounds, real_bounds, psb);
    assert(base.len() == writer.offset);
    let start: usize = writer::begin_section(writer, false);
    let ghost open = writer.data();
    mask::write_layer_mask_data(writer, i, bounds, real_bounds);
    mask::write_layer_blending_ranges(writer, &i.blending_ranges);
    write_name(writer, &i.name);
    info::write_additional_info(writer, i, psb);
    assert(writer.data() =~= open + body);
    assert(writer.data().len() == writer.offset);
    writer::end_section(writer, start, 1, false);
    proof {
        writer::lemma_section_written(base, body, 1, false, false);
        assert(writer.data().len() == writer.offset);
    }
}

/// The record of a layer.
pub open spec fn record_bytes(d: LayerChannelView, psb: bool) -> Seq<u8> {
    mask::bounds_bytes(d.bounds) + (bytes::u16_bytes((d.channels.len() % 0x1_0000) as u16) + (
    bytes::concat(channel_entries(d.channels, psb)) + (blending_bytes(d.layer)
        + writer::section_bytes(
        extra_body(d.layer.additional_info, d.mask, d.real_mask, psb),
        1,
        false,
        false,
    ))))
}

/// Writes the record of a layer.
pub fn write_layer_record(writer: &mut PsdWriter, d: &LayerChannelData, psb: bool)
    requires
        old(writer).wf(),
        info::divider_wf(d.layer.deep_view().additional_info),
    ensures
        writer::wrote(*old(writer), *final(writer), record_bytes(d.deep_view(), psb)),
{
    mask::write_bounds(
        writer,
        Bounds { top: d.top, left: d.left, right: d.right, bottom: d.bottom },
    );
    writer::write_uint16(writer, (d.channels.len() % 0x1_0000) as u16);
    write_channel_entries(writer, &d.channels, psb);
    write_blending(writer, &d.layer);
    write_extra(writer, &d.layer.additional_info, d.mask, d.real_mask, psb);
    assert(writer.data() =~= old(writer).data() + record_bytes(d.deep_view(), psb));
}

/// The number of a way to store samples.
pub open spec fn compression_code(compression: Compression) -> u16 {
    match compression {
        Compression::RawData => 0,
        Compression::RleCompressed => 1,
        Compression::ZipWithoutPrediction => 2,
        Compression::ZipWithPrediction => 3,
    }
}

fn number_of_compression(compression: Compression) -> (code: u16)
    ensures
        code == compression_code(compression),
{
    match compression {
        Compression::RawData => 0,
        Compression::RleCompressed => 1,
        Compression::ZipWithoutPrediction => 2,
        Compression::ZipWithPrediction => 3,
    }
}

/// The code of a channel.
pub open spec fn channel_body(c: ChannelDataView) -> Seq<u8> {
    match c.buffer {
        Some(buffer) => buffer,
        None => Seq::empty(),
    }
}

/// A channel: how it is compressed, and its code.
pub open spec fn channel_bytes(c: ChannelDataView) -> Seq<u8> {
    bytes::u16_bytes(compression_code(c.compression)) + channel_body(c)
}

/// The channels of a layer, one by one.
pub open spec fn channel_pieces(channels: Seq<ChannelDataView>) -> Seq<Seq<u8>> {
    Seq::new(channels.len(), |i: int| channel_bytes(channels[i]))
}

/// Writes the channels of a layer.
pub fn write_channels(writer: &mut PsdWriter, channels: &Vec<ChannelData>)
    requires
        old(writer).wf(),
    ensures
        writer::wrote(
            *old(writer),
            *final(writer),
            bytes::concat(channel_pieces(channels.deep_view())),
        ),
{
    let ghost view = channels.deep_view();
    let ghost pieces = channel_pieces(view);
    let ghost base = writer.data();
    let mut i: usize = 0;
    assert(pieces.take(0) =~= Seq::<Seq<u8>>::empty());
    assert(base + bytes::concat(pieces.take(0)) =~= base);
    while i < channels.len()
        invariant
            i <= channels@.len(),
            view == channels.deep_view(),
            pieces == channel_pieces(view),
            writer.wf(),
            writer.temp_buffer == old(writer).temp_buffer,
            writer::grew(*old(writer), *writer),
            writer.data() == base + bytes::concat(pieces.take(i as int)),
        decreases channels@.len() - i,
    {
        let ghost before = writer.data();
        writer::write_uint16(writer, number_of_compression(channels[i].compression));
        match &channels[i].buffer {
            Some(buffer) => {
                writer::write_bytes(writer, Some(buffer.as_slice()));
            },
            None => {},
        }
        proof {
            assert(writer.data() =~= before + pieces[i as int]);
            bytes::lemma_concat_take(pieces, i as int);
            assert(base + bytes::concat(pieces.take(i + 1)) =~= before + pieces[i as int]);
        }
        i += 1;
    }
    assert(pieces.take(i as int) =~= pieces);
    assert(writer.data().len() == writer.offset);
    assert(base.len() == old(writer).offset);
}

} // verus!
