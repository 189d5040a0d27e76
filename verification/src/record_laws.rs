//! The records of layers are read where they were written.

use vstd::prelude::*;

use crate::bytes;
use crate::channels::{ChannelDataView, LayerChannelView};
use crate::error::ErrorView;
use crate::helpers;
use crate::helpers::Bounds;
use crate::info;
use crate::mask;
use crate::psd;
use crate::psd::{AdditionalInfoView, LayerView};
use crate::reader;
use crate::reader::{ReaderState, Section};
use crate::record_writer;
use crate::records;
use crate::records::{Blending, ChannelInfo};
use crate::roundtrip;
use crate::text;
use crate::writer;

verus! {

broadcast use crate::bytes::group_bytes;

/// A channel in the record of a layer.
pub open spec fn channel_info(c: ChannelDataView) -> ChannelInfo {
    ChannelInfo {
        id: helpers::channel_code(c.channel_id),
        length: writer::low32(c.length as int),
    }
}

/// The channels in the record of a layer.
pub open spec fn channel_infos(channels: Seq<ChannelDataView>) -> Seq<ChannelInfo> {
    Seq::new(channels.len(), |i: int| channel_info(channels[i]))
}

proof fn lemma_channel_info_reads_back(r: ReaderState, c: ChannelDataView, psb: bool)
    requires
        r.large == psb,
        bytes::holds_at(r.buffer, r.offset, record_writer::channel_entry(c, psb)),
    ensures
        records::get_channel_info(r) == Ok::<(ChannelInfo, ReaderState), ErrorView>(
            (
                channel_info(c),
                r.at(r.offset + record_writer::channel_entry(c, psb).len()),
            ),
        ),
{
    let id = bytes::u16_bytes(bytes::i16_bits(helpers::channel_code(c.channel_id)));
    let prefix = writer::section_prefix(psb);
    let length = bytes::u32_bytes(writer::low32(c.length as int));
    bytes::lemma_holds_at_split(r.buffer, r.offset, id, prefix + length);
    bytes::lemma_holds_at_split(r.buffer, r.offset + 2, prefix, length);
    roundtrip::law_int16_round_trip(r, helpers::channel_code(c.channel_id));
    if psb {
        assert(bytes::u32_bytes(0) =~= bytes::zeros(4)) by {
            reveal(bytes::u32_bytes);
        }
        roundtrip::law_uint32_round_trip(r.at(r.offset + 2), 0);
        roundtrip::law_uint32_round_trip(r.at(r.offset + 6), writer::low32(c.length as int));
    } else {
        roundtrip::law_uint32_round_trip(r.at(r.offset + 2), writer::low32(c.length as int));
    }
}

proof fn lemma_channel_infos_read_back(
    r: ReaderState,
    channels: Seq<ChannelDataView>,
    n: int,
    psb: bool,
)
    requires
        r.large == psb,
        0 <= n <= channels.len(),
        bytes::holds_at(
            r.buffer,
            r.offset,
            bytes::concat(record_writer::channel_entries(channels, psb)),
        ),
    ensures
        records::get_channel_infos(r, n) == Ok::<(Seq<ChannelInfo>, ReaderState), ErrorView>(
            (
                channel_infos(channels).take(n),
                r.at(
                    r.offset + bytes::concat(
                        record_writer::channel_entries(channels, psb).take(n),
                    ).len(),
                ),
            ),
        ),
    decreases n,
{
    let entries = record_writer::channel_entries(channels, psb);
    if n == 0 {
        assert(entries.take(0) =~= Seq::<Seq<u8>>::empty());
        assert(channel_infos(channels).take(0) =~= Seq::<ChannelInfo>::empty());
    } else {
        lemma_channel_infos_read_back(r, channels, n - 1, psb);
        bytes::lemma_holds_at_piece(r.buffer, r.offset, entries, n - 1);
        bytes::lemma_concat_take(entries, n - 1);
        let r1 = r.at(r.offset + bytes::concat(entries.take(n - 1)).len());
        lemma_channel_info_reads_back(r1, channels[n - 1], psb);
        assert(channel_infos(channels).take(n) =~= channel_infos(channels).take(n - 1).push(
            channel_info(channels[n - 1]),
        ));
    }
}

/// How a layer is blended.
pub open spec fn blending_of(l: LayerView) -> Blending {
    Blending {
        mode: record_writer::written_mode(l),
        opacity: record_writer::written_opacity(l),
        clipping: if l.clipping == Some(true) {
            1
        } else {
            0
        },
        flags: record_writer::layer_flags(l),
    }
}

proof fn lemma_blending_reads_back(r: ReaderState, l: LayerView)
    requires
        r.buffer.len() <= usize::MAX,
        bytes::holds_at(r.buffer, r.offset, record_writer::blending_bytes(l)),
    ensures
        records::get_blending(r) == Ok::<(Blending, ReaderState), ErrorView>(
            (blending_of(l), r.at(r.offset + 12)),
        ),
        record_writer::blending_bytes(l).len() == 12,
{
    reveal(records::get_blending);
    reveal(record_writer::blending_bytes);
    let o = r.offset;
    let mode = record_writer::written_mode(l);
    let key = helpers::blend_key(mode);
    let b = blending_of(l);
    let signature = bytes::u32_bytes(info::SIGNATURE_8BIM);
    let name = vstd::utf8::encode_utf8(key);
    let tail = seq![b.opacity, b.clipping, b.flags, 0u8];
    record_writer::lemma_blend_key_bytes(mode);
    bytes::lemma_holds_at_split(r.buffer, o, signature, name + tail);
    bytes::lemma_holds_at_split(r.buffer, o + 4, name, tail);
    bytes::lemma_holds_at_room(r.buffer, o + 8, tail);
    bytes::lemma_holds_at_index(r.buffer, o + 8, tail, 0);
    bytes::lemma_holds_at_index(r.buffer, o + 8, tail, 1);
    bytes::lemma_holds_at_index(r.buffer, o + 8, tail, 2);
    assert(text::latin1(signature) =~= "8BIM"@) by {
        reveal(bytes::u32_bytes);
        reveal_strlit("8BIM");
    }
    roundtrip::law_bytes_round_trip(r, signature);
    roundtrip::law_signature_round_trip(r.at(o + 4), key, None);
    helpers::law_blend_mode_round_trip(mode);
}

/// What is known of a layer as it comes back from its record: its name of ASCII
/// characters, its masks without pixels, and the rest as it was.
pub open spec fn stored_info(
    i: AdditionalInfoView,
    bounds: Option<Bounds>,
    real_bounds: Option<Bounds>,
) -> AdditionalInfoView {
    AdditionalInfoView {
        name: Some(roundtrip::ascii_only(record_writer::written_name(i.name))),
        blending_ranges: i.blending_ranges,
        section_divider: match i.section_divider {
            Some(d) => Some(info::stored_divider(d)),
            None => None,
        },
        blocks: i.blocks,
        ..mask::with_stored_masks(psd::empty_info(), i, bounds, real_bounds)
    }
}

/// What is known of a layer can be told from its record.
pub open spec fn info_distinct(
    i: AdditionalInfoView,
    bounds: Option<Bounds>,
    real_bounds: Option<Bounds>,
    psb: bool,
) -> bool {
    &&& mask::masks_distinct(i)
    &&& mask::valid_box(mask::bounds_or_zero(bounds), psb)
    &&& mask::valid_box(mask::bounds_or_zero(real_bounds), psb)
    &&& info::blocks_distinct(i.blocks)
    &&& i.section_divider matches Some(d) ==> (d.key matches Some(key)
        ==> roundtrip::is_ascii_signature(key))
}

/// A block starts with a signature.
proof fn lemma_block_start(s: Seq<u8>, at: int, i: AdditionalInfoView, psb: bool)
    requires
        bytes::holds_at(s, at, info::info_bytes(i, psb)),
        info::info_bytes(i, psb).len() > 0,
    ensures
        reader::block_signature_at(s, at),
        info::info_bytes(i, psb).len() >= 12,
{
    let whole = info::info_bytes(i, psb);
    let pieces = info::block_pieces(i.blocks, psb);
    match i.section_divider {
        Some(d) => {
            let data = info::divider_bytes(d);
            let first = info::block_bytes(info::SECTION_DIVIDER_KEY, data, psb);
            bytes::lemma_holds_at_split(s, at, first, info::blocks_bytes(i.blocks, psb));
            lemma_signature_found(s, at, info::SECTION_DIVIDER_KEY, data, psb);
        },
        None => {
            assert(whole =~= bytes::concat(pieces));
            if pieces.len() == 0 {
                assert(bytes::concat(pieces).len() == 0);
                assert(false);
            }
            bytes::lemma_holds_at_piece(s, at, pieces, 0);
            assert(pieces.take(0) =~= Seq::<Seq<u8>>::empty());
            bytes::lemma_concat_take(pieces, 0);
            bytes::lemma_concat_prefix(pieces, 1);
            lemma_signature_found(s, at, i.blocks[0].key, i.blocks[0].data, psb);
        },
    }
}

/// A block starts with a signature.
pub proof fn lemma_signature_found(s: Seq<u8>, at: int, key: u32, data: Seq<u8>, psb: bool)
    requires
        bytes::holds_at(s, at, info::block_bytes(key, data, psb)),
    ensures
        reader::block_signature_at(s, at),
        info::block_bytes(key, data, psb).len() >= 12,
{
    let large = psb && info::large_key(key);
    let signature = if large {
        info::SIGNATURE_8B64
    } else {
        info::SIGNATURE_8BIM
    };
    let head = bytes::u32_bytes(signature);
    let name = bytes::u32_bytes(key);
    let payload = writer::section_bytes(data, 2, false, large);
    bytes::lemma_holds_at_split(s, at, head + name, payload);
    bytes::lemma_holds_at_split(s, at, head, name);
    bytes::lemma_holds_at_room(s, at, head);
    bytes::lemma_holds_at_index(s, at, head, 0);
    bytes::lemma_holds_at_index(s, at, head, 1);
    bytes::lemma_holds_at_index(s, at, head, 2);
    bytes::lemma_holds_at_index(s, at, head, 3);
    if large {
        lemma_signature_codes(head, info::SIGNATURE_8B64);
    } else {
        lemma_signature_codes(head, info::SIGNATURE_8BIM);
    }
}

proof fn lemma_signature_codes(head: Seq<u8>, signature: u32)
    requires
        head == bytes::u32_bytes(signature),
    ensures
        signature == info::SIGNATURE_8BIM ==> head[0] == 0x38 && head[1] == 0x42 && head[2] == 0x49
            && head[3] == 0x4D,
        signature == info::SIGNATURE_8B64 ==> head[0] == 0x38 && head[1] == 0x42 && head[2] == 0x36
            && head[3] == 0x34,
{
    reveal(bytes::u32_bytes);
}

/// Zeros before the first block are passed over.
proof fn lemma_past_padding(r: ReaderState, pad: int, end: int)
    requires
        0 <= pad < 4,
        bytes::holds_at(r.buffer, r.offset, bytes::zeros(pad)),
        end - r.offset - pad >= 12,
        reader::block_signature_at(r.buffer, r.offset + pad),
    ensures
        records::past_junk(r, end) == r.at(r.offset + pad),
    decreases pad,
{
    if pad > 0 {
        bytes::lemma_holds_at_index(r.buffer, r.offset, bytes::zeros(pad), 0);
        assert(!reader::block_signature_at(r.buffer, r.offset));
        assert(bytes::zeros(pad) =~= bytes::zeros(1) + bytes::zeros(pad - 1));
        bytes::lemma_holds_at_split(r.buffer, r.offset, bytes::zeros(1), bytes::zeros(pad - 1));
        lemma_past_padding(r.at(r.offset + 1), pad - 1, end);
    }
}

proof fn lemma_tail_reads_back(
    r: ReaderState,
    start: AdditionalInfoView,
    i: AdditionalInfoView,
    pad: int,
    psb: bool,
)
    requires
        r.buffer.len() <= usize::MAX,
        r.large == psb,
        0 <= pad < 4,
        start.section_divider is None,
        start.blocks == Seq::<psd::InfoBlockView>::empty(),
        info::blocks_distinct(i.blocks),
        i.section_divider matches Some(d) ==> (d.key matches Some(key)
            ==> roundtrip::is_ascii_signature(key)),
        bytes::holds_at(r.buffer, r.offset, bytes::zeros(pad) + info::info_bytes(i, psb)),
    ensures
        ({
            let end = r.offset + pad + info::info_bytes(i, psb).len();
            info::get_blocks(records::past_junk(r, end), end, start) matches Ok((found, after))
                && found == (AdditionalInfoView {
                section_divider: match i.section_divider {
                    Some(d) => Some(info::stored_divider(d)),
                    None => None,
                },
                blocks: i.blocks,
                ..start
            }) && after == r.at(after.offset) && after.offset <= end
        }),
{
    let blocks = info::info_bytes(i, psb);
    let end = r.offset + pad + blocks.len();
    bytes::lemma_holds_at_split(r.buffer, r.offset, bytes::zeros(pad), blocks);
    if blocks.len() > 0 {
        lemma_block_start(r.buffer, r.offset + pad, i, psb);
        lemma_past_padding(r, pad, end);
        info::law_info_round_trip(r.at(r.offset + pad), start, i, psb);
        assert(start.blocks + i.blocks =~= i.blocks);
    } else {
        if i.section_divider is Some {
            let d = i.section_divider->Some_0;
            let block = info::block_bytes(
                info::SECTION_DIVIDER_KEY,
                info::divider_bytes(d),
                psb,
            );
            assert(block.len() >= 8);
            assert(false);
        }
        if i.blocks.len() > 0 {
            let pieces = info::block_pieces(i.blocks, psb);
            bytes::lemma_concat_take(pieces, 0);
            bytes::lemma_concat_prefix(pieces, 1);
            assert(pieces[0].len() >= 8);
            assert(false);
        }
        assert(i.blocks =~= Seq::<psd::InfoBlockView>::empty());
    }
}

proof fn lemma_extra_body_reads_back(
    r: ReaderState,
    section: Section,
    i: AdditionalInfoView,
    bounds: Option<Bounds>,
    real_bounds: Option<Bounds>,
    psb: bool,
)
    requires
        r.buffer.len() <= usize::MAX,
        r.large == psb,
        info_distinct(i, bounds, real_bounds, psb),
        record_writer::extra_body(i, bounds, real_bounds, psb).len() < 0x1_0000_0000,
        section.end == r.offset + record_writer::extra_body(i, bounds, real_bounds, psb).len(),
        bytes::holds_at(
            r.buffer,
            r.offset,
            record_writer::extra_body(i, bounds, real_bounds, psb),
        ),
    ensures
        records::get_extra_body(r, section) matches Ok((found, after)) && found == stored_info(
            i,
            bounds,
            real_bounds,
        ) && after == r.at(after.offset) && after.offset <= section.end,
{
    reveal(records::get_extra_body);
    reveal(record_writer::extra_body);
    let masks = writer::section_bytes(mask::mask_body(i, bounds, real_bounds), 1, false, false);
    let ranges = writer::section_bytes(mask::ranges_body(i.blending_ranges), 1, false, false);
    let written = record_writer::written_name(i.name);
    let name = writer::pascal_bytes(written, 4);
    let blocks = info::info_bytes(i, psb);
    let o = r.offset;
    bytes::lemma_holds_at_split(r.buffer, o, masks, ranges + (name + blocks));
    bytes::lemma_holds_at_split(r.buffer, o + masks.len(), ranges, name + blocks);
    mask::law_masks_round_trip(r, psd::empty_info(), i, bounds, real_bounds);
    assert(mask::ranges_body(i.blending_ranges).len() <= ranges.len());
    mask::law_ranges_round_trip(r.at(o + masks.len()), i.blending_ranges);
    let r2 = r.at(o + masks.len() + ranges.len());
    let start = AdditionalInfoView {
        blending_ranges: i.blending_ranges,
        name: Some(roundtrip::ascii_only(written)),
        ..mask::with_stored_masks(psd::empty_info(), i, bounds, real_bounds)
    };
    lemma_name_reads_back(r2, start, i, written, section.end as int, psb);
}

proof fn lemma_name_reads_back(
    r: ReaderState,
    start: AdditionalInfoView,
    i: AdditionalInfoView,
    written: Seq<char>,
    end: int,
    psb: bool,
)
    requires
        r.buffer.len() <= usize::MAX,
        r.large == psb,
        written.len() <= 255,
        start.section_divider is None,
        start.blocks == Seq::<psd::InfoBlockView>::empty(),
        info::blocks_distinct(i.blocks),
        i.section_divider matches Some(d) ==> (d.key matches Some(key)
            ==> roundtrip::is_ascii_signature(key)),
        bytes::holds_at(
            r.buffer,
            r.offset,
            writer::pascal_bytes(written, 4) + info::info_bytes(i, psb),
        ),
        end == r.offset + writer::pascal_bytes(written, 4).len() + info::info_bytes(i, psb).len(),
    ensures
        reader::get_pascal_string(r, 1) == Ok::<(Seq<char>, ReaderState), ErrorView>(
            (roundtrip::ascii_only(written), r.at(r.offset + 1 + written.len())),
        ),
        info::get_blocks(
            records::past_junk(r.at(r.offset + 1 + written.len()), end),
            end,
            start,
        ) matches Ok((found, after)) && found == (AdditionalInfoView {
            section_divider: match i.section_divider {
                Some(d) => Some(info::stored_divider(d)),
                None => None,
            },
            blocks: i.blocks,
            ..start
        }) && after == r.at(after.offset) && after.offset <= end,
{
    let name = writer::pascal_bytes(written, 4);
    let blocks = info::info_bytes(i, psb);
    let pad = bytes::padding(written.len() as int + 1, 4);
    let plain = seq![written.len() as u8] + Seq::new(
        written.len(),
        |k: int| writer::pascal_byte(written[k]),
    );
    assert(name =~= plain + bytes::zeros(pad));
    bytes::lemma_holds_at_split(r.buffer, r.offset, name, blocks);
    roundtrip::lemma_pascal_unpadded(r, written, 4);
    assert(name + blocks =~= plain + (bytes::zeros(pad) + blocks));
    bytes::lemma_holds_at_split(r.buffer, r.offset, plain, bytes::zeros(pad) + blocks);
    lemma_tail_reads_back(r.at(r.offset + 1 + written.len()), start, i, pad, psb);
}

proof fn lemma_extra_reads_back(
    r: ReaderState,
    i: AdditionalInfoView,
    bounds: Option<Bounds>,
    real_bounds: Option<Bounds>,
    psb: bool,
)
    requires
        r.buffer.len() <= usize::MAX,
        r.large == psb,
        info_distinct(i, bounds, real_bounds, psb),
        record_writer::extra_body(i, bounds, real_bounds, psb).len() < 0x1_0000_0000,
        bytes::holds_at(
            r.buffer,
            r.offset,
            writer::section_bytes(
                record_writer::extra_body(i, bounds, real_bounds, psb),
                1,
                false,
                false,
            ),
        ),
    ensures
        records::get_extra(r) == Ok::<(AdditionalInfoView, ReaderState), ErrorView>(
            (
                stored_info(i, bounds, real_bounds),
                r.at(
                    r.offset + writer::section_bytes(
                        record_writer::extra_body(i, bounds, real_bounds, psb),
                        1,
                        false,
                        false,
                    ).len(),
                ),
            ),
        ),
{
    reveal(records::get_extra);
    let body = record_writer::extra_body(i, bounds, real_bounds, psb);
    roundtrip::law_section_round_trip(r, body, 1, false, false, true);
    assert(body.len() > 0) by {
        reveal(record_writer::extra_body);
    }
    let r0 = r.at(r.offset + 4);
    let section = Section {
        length: body.len() as usize,
        end: (r0.offset + body.len()) as usize,
    };
    lemma_extra_body_reads_back(r0, section, i, bounds, real_bounds, psb);
}

/// A layer as it comes back from its record: without its pixels.
pub open spec fn stored_record(d: LayerChannelView) -> LayerView {
    records::layer_from(
        d.bounds,
        blending_of(d.layer),
        stored_info(d.layer.additional_info, d.mask, d.real_mask),
    )
}

/// A layer and its channels can be told from its record.
pub open spec fn record_distinct(d: LayerChannelView, psb: bool) -> bool {
    &&& mask::valid_box(d.bounds, psb)
    &&& d.channels.len() < 0x1_0000
    &&& info_distinct(d.layer.additional_info, d.mask, d.real_mask, psb)
}

/// The record of a layer is read where it was written.
pub proof fn law_record_round_trip(r: ReaderState, d: LayerChannelView, psb: bool)
    requires
        r.buffer.len() <= usize::MAX,
        r.large == psb,
        record_distinct(d, psb),
        record_writer::record_bytes(d, psb).len() < 0x1_0000_0000,
        bytes::holds_at(r.buffer, r.offset, record_writer::record_bytes(d, psb)),
    ensures
        records::get_record(r) == Ok::<((LayerView, Seq<ChannelInfo>), ReaderState), ErrorView>(
            (
                (stored_record(d), channel_infos(d.channels)),
                r.at(r.offset + record_writer::record_bytes(d, psb).len()),
            ),
        ),
{
    reveal(records::get_record);
    let o = r.offset;
    let i = d.layer.additional_info;
    let count = bytes::u16_bytes((d.channels.len() % 0x1_0000) as u16);
    let entries = bytes::concat(record_writer::channel_entries(d.channels, psb));
    let blending = record_writer::blending_bytes(d.layer);
    let body = record_writer::extra_body(i, d.mask, d.real_mask, psb);
    let extra = writer::section_bytes(body, 1, false, false);
    let n = d.channels.len() as int;
    bytes::lemma_holds_at_split(
        r.buffer,
        o,
        mask::bounds_bytes(d.bounds),
        count + (entries + (blending + extra)),
    );
    mask::law_box_round_trip(r, d.bounds, "layer"@);
    bytes::lemma_holds_at_split(r.buffer, o + 16, count, entries + (blending + extra));
    roundtrip::law_uint16_round_trip(r.at(o + 16), (d.channels.len() % 0x1_0000) as u16);
    bytes::lemma_holds_at_split(r.buffer, o + 18, entries, blending + extra);
    let r2 = r.at(o + 18);
    lemma_channel_infos_read_back(r2, d.channels, n, psb);
    assert(channel_infos(d.channels).take(n) =~= channel_infos(d.channels));
    assert(record_writer::channel_entries(d.channels, psb).take(n)
        =~= record_writer::channel_entries(d.channels, psb));
    let r3 = r.at(o + 18 + entries.len());
    bytes::lemma_holds_at_split(r.buffer, r3.offset, blending, extra);
    lemma_blending_reads_back(r3, d.layer);
    let r4 = r.at(r3.offset + 12);
    assert(body.len() <= extra.len());
    lemma_extra_reads_back(r4, i, d.mask, d.real_mask, psb);
}

} // verus!
