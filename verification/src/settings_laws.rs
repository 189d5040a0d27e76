//! Parts of a document that read the same under other settings and another memory
//! limit.

use vstd::prelude::*;

use crate::composite;
use crate::document;
use crate::header;
use crate::info;
use crate::mask;
use crate::palette;
use crate::psd;
use crate::psd::{
    AdditionalInfoView, BlendingRange, ColorMode, LayerMaskView, LayerView, ReadOptions,
    ResourceBlockView,
};
use crate::reader;
use crate::reader::{Parsed, ReaderState, Section};
use crate::records;
use crate::records::ChannelInfo;
use crate::resources;
use crate::rle;
use crate::text;

verus! {

/// The reader under other settings and another memory limit.
pub open spec fn under(r: ReaderState, o: ReadOptions, b: Option<usize>) -> ReaderState {
    ReaderState { options: o, budget: b, ..r }
}

/// What an operation gives, with the reader after it under other settings and another
/// memory limit.
pub open spec fn result_under<T>(result: Parsed<T>, o: ReadOptions, b: Option<usize>) -> Parsed<T> {
    match result {
        Err(e) => Err(e),
        Ok((value, after)) => Ok((value, under(after, o, b))),
    }
}

/// An operation only moves the reader.
pub open spec fn only_moves<T>(result: Parsed<T>, r: ReaderState) -> bool {
    result matches Ok((_, after)) ==> after == r.at(after.offset) && (0 <= r.offset ==> 0
        <= after.offset)
}

/// The signature of a block.
pub proof fn lemma_signature(
    r: ReaderState,
    o: ReadOptions,
    b: Option<usize>,
    resource: bool,
    k: int,
    last: Seq<char>,
)
    requires
        0 <= k,
    ensures
        info::found_signature(under(r, o, b), resource, k, last) == result_under(
            info::found_signature(r, resource, k, last),
            o,
            b,
        ),
        only_moves(info::found_signature(r, resource, k, last), r),
    decreases 9 - k,
{
    if k < 9 {
        let p = r.offset + info::search_offset(k);
        lemma_signature(r, o, b, resource, k + 1, last);
        lemma_signature(
            r,
            o,
            b,
            resource,
            k + 1,
            text::latin1(r.buffer.subrange(p, p + 4)),
        );
    }
}

proof fn lemma_infos(r: ReaderState, o: ReadOptions, b: Option<usize>, n: int)
    ensures
        records::get_channel_infos(under(r, o, b), n) == result_under(
            records::get_channel_infos(r, n),
            o,
            b,
        ),
        only_moves(records::get_channel_infos(r, n), r),
    decreases n,
{
    if n > 0 {
        lemma_infos(r, o, b, n - 1);
    }
}

proof fn lemma_range_list(
    r: ReaderState,
    o: ReadOptions,
    b: Option<usize>,
    end: int,
    ranges: Seq<BlendingRange>,
)
    ensures
        mask::get_range_list(under(r, o, b), end, ranges) == result_under(
            mask::get_range_list(r, end, ranges),
            o,
            b,
        ),
        only_moves(mask::get_range_list(r, end, ranges), r),
    decreases
            (if end < r.offset {
                0
            } else {
                end - r.offset
            }),
{
    if r.offset < end {
        match reader::get_u32(r) {
            Err(_) => {},
            Ok((source_range, r1)) => match reader::get_u32(r1) {
                Err(_) => {},
                Ok((dest_range, r2)) => {
                    lemma_range_list(
                        r2,
                        o,
                        b,
                        end,
                        ranges.push(BlendingRange { source_range, dest_range }),
                    );
                },
            },
        }
    }
}

proof fn lemma_ranges(r: ReaderState, o: ReadOptions, b: Option<usize>)
    ensures
        mask::get_ranges(under(r, o, b)) == result_under(mask::get_ranges(r), o, b),
        only_moves(mask::get_ranges(r), r),
{
    match reader::open_section(r, true, false) {
        Ok((Some(section), r1)) => match reader::get_u32(r1) {
            Err(_) => {},
            Ok((_, r2)) => match reader::get_u32(r2) {
                Err(_) => {},
                Ok((_, r3)) => {
                    lemma_range_list(r3, o, b, section.end as int, Seq::empty());
                },
            },
        },
        _ => {},
    }
}

proof fn lemma_junk(r: ReaderState, o: ReadOptions, b: Option<usize>, end: int)
    ensures
        records::past_junk(under(r, o, b), end) == under(records::past_junk(r, end), o, b),
        records::past_junk(r, end) == r.at(records::past_junk(r, end).offset),
        r.offset <= records::past_junk(r, end).offset,
    decreases end - r.offset,
{
    if end - r.offset > 4 && !reader::block_signature_at(r.buffer, r.offset) {
        lemma_junk(r.at(r.offset + 1), o, b, end);
    }
}

/// The payload of a block.
pub proof fn lemma_payload(r: ReaderState, o: ReadOptions, b: Option<usize>, eight_bytes: bool)
    ensures
        info::get_payload(under(r, o, b), eight_bytes) == result_under(
            info::get_payload(r, eight_bytes),
            o,
            b,
        ),
        only_moves(info::get_payload(r, eight_bytes), r),
{
}

/// The key of a block.
pub proof fn lemma_key(r: ReaderState, o: ReadOptions, b: Option<usize>)
    ensures
        info::get_key(under(r, o, b)) == result_under(info::get_key(r), o, b),
        only_moves(info::get_key(r), r),
{
}

/// A block of a layer.
pub proof fn lemma_block(r: ReaderState, o: ReadOptions, b: Option<usize>, i: AdditionalInfoView)
    requires
        r.buffer.len() <= usize::MAX,
    ensures
        info::get_block(under(r, o, b), i) == result_under(info::get_block(r, i), o, b),
        only_moves(info::get_block(r, i), r),
        info::get_block(r, i) matches Ok((more, after)) ==> more.mask == i.mask && more.real_mask
            == i.real_mask && r.offset + 8 <= after.offset,
{
    lemma_signature(r, o, b, false, 0, Seq::empty());
    info::lemma_block_progress(r, i);
    match info::get_block_signature(r, false) {
        Err(_) => {},
        Ok((signature, r1)) => {
            lemma_key(r1, o, b);
            match info::get_key(r1) {
                Err(_) => {},
                Ok((key, r2)) => {
                    lemma_payload(
                        r2,
                        o,
                        b,
                        signature == info::SIGNATURE_8B64 || (r2.large && info::large_key(key)),
                    );
                },
            }
        },
    }
}

proof fn lemma_blocks(
    r: ReaderState,
    o: ReadOptions,
    b: Option<usize>,
    end: int,
    i: AdditionalInfoView,
)
    requires
        r.buffer.len() <= usize::MAX,
    ensures
        info::get_blocks(under(r, o, b), end, i) == result_under(
            info::get_blocks(r, end, i),
            o,
            b,
        ),
        only_moves(info::get_blocks(r, end, i), r),
        info::get_blocks(r, end, i) matches Ok((more, _)) ==> more.mask == i.mask
            && more.real_mask == i.real_mask,
    decreases
            (if end < r.offset {
                0
            } else {
                end - r.offset
            }),
{
    if end - r.offset >= 12 {
        lemma_block(r, o, b, i);
        match info::get_block(r, i) {
            Err(_) => {},
            Ok((more, r1)) => {
                lemma_blocks(r1, o, b, end, more);
            },
        }
    }
}

proof fn lemma_box(r: ReaderState, o: ReadOptions, b: Option<usize>, kind: Seq<char>)
    ensures
        mask::get_box(under(r, o, b), kind) == result_under(mask::get_box(r, kind), o, b),
        only_moves(mask::get_box(r, kind), r),
{
}

/// Neither mask has pixels.
pub open spec fn blank(i: AdditionalInfoView) -> bool {
    &&& i.mask matches Some(m) ==> m.canvas is None && m.image_data is None
    &&& i.real_mask matches Some(m) ==> m.canvas is None && m.image_data is None
}

proof fn lemma_mask_params(r: ReaderState, o: ReadOptions, b: Option<usize>, m: LayerMaskView)
    ensures
        mask::get_mask_params(under(r, o, b), m) == result_under(
            mask::get_mask_params(r, m),
            o,
            b,
        ),
        only_moves(mask::get_mask_params(r, m), r),
        mask::get_mask_params(r, m) matches Ok((found, _)) ==> found.canvas == m.canvas
            && found.image_data == m.image_data,
{
}

proof fn lemma_real_mask(
    r: ReaderState,
    o: ReadOptions,
    b: Option<usize>,
    section: Section,
    i: AdditionalInfoView,
)
    requires
        blank(i),
    ensures
        mask::get_optional_real_mask(under(r, o, b), section, i) == result_under(
            mask::get_optional_real_mask(r, section, i),
            o,
            b,
        ),
        only_moves(mask::get_optional_real_mask(r, section, i), r),
        mask::get_optional_real_mask(r, section, i) matches Ok((found, _)) ==> blank(found),
{
    match reader::get_u8(r) {
        Err(_) => {},
        Ok((_, r1)) => match reader::get_u8(r1) {
            Err(_) => {},
            Ok((_, r2)) => {
                lemma_box(r2, o, b, "real mask"@);
            },
        },
    }
}

proof fn lemma_mask_body(r: ReaderState, o: ReadOptions, b: Option<usize>, section: Section)
    ensures
        mask::get_mask_body(under(r, o, b), section, psd::empty_info()) == result_under(
            mask::get_mask_body(r, section, psd::empty_info()),
            o,
            b,
        ),
        only_moves(mask::get_mask_body(r, section, psd::empty_info()), r),
        mask::get_mask_body(r, section, psd::empty_info()) matches Ok((i, _)) ==> blank(i),
{
    lemma_box(r, o, b, "mask"@);
    match mask::get_box(r, "mask"@) {
        Err(_) => {},
        Ok((bounds, r1)) => match reader::get_u8(r1) {
            Err(_) => {},
            Ok((color, r2)) => match reader::get_u8(r2) {
                Err(_) => {},
                Ok((flags, r3)) => {
                    lemma_real_mask(r3, o, b, section, psd::empty_info());
                    match mask::get_optional_real_mask(r3, section, psd::empty_info()) {
                        Err(_) => {},
                        Ok((_, r4)) => {
                            lemma_mask_params(r4, o, b, mask::mask_from(bounds, color, flags));
                        },
                    }
                },
            },
        },
    }
}

proof fn lemma_masks(r: ReaderState, o: ReadOptions, b: Option<usize>)
    ensures
        mask::get_masks(under(r, o, b), psd::empty_info()) == result_under(
            mask::get_masks(r, psd::empty_info()),
            o,
            b,
        ),
        only_moves(mask::get_masks(r, psd::empty_info()), r),
        mask::get_masks(r, psd::empty_info()) matches Ok((i, _)) ==> blank(i),
{
    match reader::open_section(r, true, false) {
        Ok((Some(section), r1)) => {
            lemma_mask_body(r1, o, b, section);
        },
        _ => {},
    }
}

proof fn lemma_extra_body(r: ReaderState, o: ReadOptions, b: Option<usize>, section: Section)
    requires
        r.buffer.len() <= usize::MAX,
    ensures
        records::get_extra_body(under(r, o, b), section) == result_under(
            records::get_extra_body(r, section),
            o,
            b,
        ),
        only_moves(records::get_extra_body(r, section), r),
        records::get_extra_body(r, section) matches Ok((i, _)) ==> blank(i),
{
    reveal(records::get_extra_body);
    lemma_masks(r, o, b);
    match mask::get_masks(r, psd::empty_info()) {
        Err(_) => {},
        Ok((masked, r1)) => {
            lemma_ranges(r1, o, b);
            match mask::get_ranges(r1) {
                Err(_) => {},
                Ok((blending_ranges, r2)) => match reader::get_pascal_string(r2, 1) {
                    Err(_) => {},
                    Ok((name, r3)) => {
                        lemma_junk(r3, o, b, section.end as int);
                        lemma_blocks(
                            records::past_junk(r3, section.end as int),
                            o,
                            b,
                            section.end as int,
                            AdditionalInfoView { blending_ranges, name: Some(name), ..masked },
                        );
                    },
                },
            }
        },
    }
}

proof fn lemma_extra(r: ReaderState, o: ReadOptions, b: Option<usize>)
    requires
        r.buffer.len() <= usize::MAX,
    ensures
        records::get_extra(under(r, o, b)) == result_under(records::get_extra(r), o, b),
        only_moves(records::get_extra(r), r),
        records::get_extra(r) matches Ok((i, _)) ==> blank(i),
{
    reveal(records::get_extra);
    match reader::open_section(r, true, false) {
        Ok((Some(section), r1)) => {
            lemma_extra_body(r1, o, b, section);
        },
        _ => {},
    }
}

/// A layer as its record gives it has a rectangle, and neither pixels nor stored
/// channels nor anything in it; its masks have no pixels.
pub open spec fn bare_record(l: LayerView) -> bool {
    &&& l.top is Some
    &&& l.left is Some
    &&& l.right is Some
    &&& l.bottom is Some
    &&& l.image_data is None
    &&& l.canvas is None
    &&& l.raw_data is None
    &&& l.children is None
    &&& blank(l.additional_info)
}

/// The record of a layer.
pub proof fn lemma_record(r: ReaderState, o: ReadOptions, b: Option<usize>)
    requires
        r.buffer.len() <= usize::MAX,
    ensures
        records::get_record(under(r, o, b)) == result_under(records::get_record(r), o, b),
        only_moves(records::get_record(r), r),
        records::get_record(r) matches Ok(((l, _), _)) ==> bare_record(l),
{
    reveal(records::get_record);
    reveal(records::get_blending);
    lemma_box(r, o, b, "layer"@);
    match mask::get_box(r, "layer"@) {
        Err(_) => {},
        Ok((_, r1)) => match reader::get_u16(r1) {
            Err(_) => {},
            Ok((count, r2)) => {
                lemma_infos(r2, o, b, count as int);
                match records::get_channel_infos(r2, count as int) {
                    Err(_) => {},
                    Ok((_, r3)) => match records::get_blending(r3) {
                        Err(_) => {},
                        Ok((_, r4)) => {
                            lemma_extra(r4, o, b);
                        },
                    },
                }
            },
        },
    }
}

/// The records of layers.
pub proof fn lemma_records(r: ReaderState, o: ReadOptions, b: Option<usize>, n: int)
    requires
        r.buffer.len() <= usize::MAX,
    ensures
        records::get_records(under(r, o, b), n) == result_under(records::get_records(r, n), o, b),
        only_moves(records::get_records(r, n), r),
        records::get_records(r, n) matches Ok(((layers, _), _)) ==> {
            &&& n > 0 ==> layers.len() == n
            &&& forall|i: int| 0 <= i < layers.len() ==> bare_record(#[trigger] layers[i])
        },
    decreases n,
{
    if n > 0 {
        lemma_records(r, o, b, n - 1);
        match records::get_records(r, n - 1) {
            Err(_) => {},
            Ok((_, r1)) => {
                lemma_record(r1, o, b);
            },
        }
    }
}

proof fn lemma_compression(r: ReaderState, o: ReadOptions, b: Option<usize>)
    ensures
        records::get_compression(under(r, o, b)) == result_under(
            records::get_compression(r),
            o,
            b,
        ),
        only_moves(records::get_compression(r), r),
{
}

proof fn lemma_raw_channel(r: ReaderState, o: ReadOptions, b: Option<usize>, channel: ChannelInfo)
    ensures
        records::get_raw_channel(under(r, o, b), channel) == result_under(
            records::get_raw_channel(r, channel),
            o,
            b,
        ),
        only_moves(records::get_raw_channel(r, channel), r),
        0 <= r.offset ==> (records::get_raw_channel(r, channel) matches Ok((raw, _)) ==> (
        raw.data matches Some(code) ==> code.len() > 0)),
{
    lemma_compression(r, o, b);
}

/// The channels of a layer as they are stored; none of them has length zero.
pub proof fn lemma_raw_channels(
    r: ReaderState,
    o: ReadOptions,
    b: Option<usize>,
    infos: Seq<ChannelInfo>,
    n: int,
)
    ensures
        records::get_raw_channels(under(r, o, b), infos, n) == result_under(
            records::get_raw_channels(r, infos, n),
            o,
            b,
        ),
        only_moves(records::get_raw_channels(r, infos, n), r),
        0 <= r.offset ==> (records::get_raw_channels(r, infos, n) matches Ok((raw, _)) ==> (forall|
            i: int,
        |
            0 <= i < raw.len() ==> ((#[trigger] raw[i]).data matches Some(code) ==> code.len()
                > 0))),
    decreases n,
{
    if n > 0 {
        lemma_raw_channels(r, o, b, infos, n - 1);
        match records::get_raw_channels(r, infos, n - 1) {
            Err(_) => {},
            Ok((_, r1)) => {
                lemma_raw_channel(r1, o, b, infos[n - 1]);
            },
        }
    }
}

/// The zero bytes between blocks.
pub proof fn lemma_zeros(r: ReaderState, o: ReadOptions, b: Option<usize>, end: int)
    ensures
        document::past_zeros(under(r, o, b), end) == result_under(
            document::past_zeros(r, end),
            o,
            b,
        ),
    decreases end - r.offset,
{
    if r.offset < end && reader::get_u8(r) is Ok {
        lemma_zeros(r.at(r.offset + 1), o, b, end);
    }
}

/// The global layer mask.
pub proof fn lemma_global_mask(r: ReaderState, o: ReadOptions, b: Option<usize>)
    ensures
        mask::get_global_mask(under(r, o, b)) == result_under(mask::get_global_mask(r), o, b),
        only_moves(mask::get_global_mask(r), r),
{
    match reader::open_section(r, true, false) {
        Ok((Some(section), r1)) => {
            assert(mask::get_global_mask_body(under(r1, o, b)) == result_under(
                mask::get_global_mask_body(r1),
                o,
                b,
            ));
        },
        _ => {},
    }
}

proof fn lemma_resource(r: ReaderState, o: ReadOptions, b: Option<usize>)
    ensures
        resources::get_resource(under(r, o, b)) == result_under(resources::get_resource(r), o, b),
{
    lemma_signature(r, o, b, true, 0, Seq::empty());
    match info::get_block_signature(r, true) {
        Err(_) => {},
        Ok((_, r1)) => match reader::get_u16(r1) {
            Err(_) => {},
            Ok((_, r2)) => match reader::get_pascal_string(r2, 2) {
                Err(_) => {},
                Ok((_, r3)) => {
                    lemma_payload(r3, o, b, false);
                },
            },
        },
    }
}

proof fn lemma_resource_list(
    r: ReaderState,
    o: ReadOptions,
    b: Option<usize>,
    end: int,
    list: Seq<ResourceBlockView>,
)
    requires
        r.buffer.len() <= usize::MAX,
        o.skip_thumbnail == r.options.skip_thumbnail,
    ensures
        resources::get_resource_list(under(r, o, b), end, list) == result_under(
            resources::get_resource_list(r, end, list),
            o,
            b,
        ),
        only_moves(resources::get_resource_list(r, end, list), r),
    decreases
            (if end < r.offset {
                0
            } else {
                end - r.offset
            }),
{
    if r.offset < end {
        resources::lemma_resource_progress(r);
        lemma_resource(r, o, b);
        match resources::get_resource(r) {
            Err(_) => {},
            Ok((resource, r1)) => {
                lemma_resource_list(
                    r1,
                    o,
                    b,
                    end,
                    if resources::left_out(resource.id, r.options.skip_thumbnail) {
                        list
                    } else {
                        list.push(resource)
                    },
                );
            },
        }
    }
}

/// The image resources, as long as the same of them are left out.
pub proof fn lemma_resources(r: ReaderState, o: ReadOptions, b: Option<usize>)
    requires
        r.buffer.len() <= usize::MAX,
        o.skip_thumbnail == r.options.skip_thumbnail,
    ensures
        resources::get_resources(under(r, o, b)) == result_under(
            resources::get_resources(r),
            o,
            b,
        ),
        only_moves(resources::get_resources(r), r),
{
    match reader::open_section(r, true, false) {
        Ok((Some(section), r1)) => {
            lemma_resource_list(r1, o, b, section.end as int, Seq::empty());
        },
        _ => {},
    }
}

/// The palette.
pub proof fn lemma_palette(r: ReaderState, o: ReadOptions, b: Option<usize>, mode: ColorMode)
    ensures
        palette::get_palette(under(r, o, b), mode) == result_under(
            palette::get_palette(r, mode),
            o,
            b,
        ),
        only_moves(palette::get_palette(r, mode), r),
{
}

/// The head of a document.
pub proof fn lemma_header(r: ReaderState, o: ReadOptions, b: Option<usize>)
    ensures
        header::get_header(under(r, o, b)) == result_under(header::get_header(r), o, b),
        header::get_header(r) matches Ok((h, after)) ==> after == (ReaderState {
            large: h.large,
            global_alpha: false,
            ..r.at(after.offset)
        }) && (0 <= r.offset ==> 0 <= after.offset),
{
    match reader::expect_signature(r, "8BPS"@, None) {
        Err(_) => {},
        Ok((_, r1)) => match reader::get_u16(r1) {
            Err(_) => {},
            Ok((version, r2)) => {
                let r3 = r2.skipped(6);
                assert(header::get_fields(under(r3, o, b), version) == result_under(
                    header::get_fields(r3, version),
                    o,
                    b,
                ));
            },
        },
    }
}

proof fn lemma_rows(
    r: ReaderState,
    o: ReadOptions,
    b: Option<usize>,
    lengths: Seq<usize>,
    first: int,
    n: int,
    width: int,
)
    ensures
        rle::get_rows(under(r, o, b), lengths, first, n, width) == result_under(
            rle::get_rows(r, lengths, first, n, width),
            o,
            b,
        ),
        rle::past_rows(under(r, o, b), lengths, first, n) == under(
            rle::past_rows(r, lengths, first, n),
            o,
            b,
        ),
        only_moves(rle::get_rows(r, lengths, first, n, width), r),
        rle::past_rows(r, lengths, first, n) == r.at(rle::past_rows(r, lengths, first, n).offset),
        0 <= r.offset ==> 0 <= rle::past_rows(r, lengths, first, n).offset,
    decreases n,
{
    if n > 0 {
        lemma_rows(r, o, b, lengths, first, n - 1, width);
    }
}

/// Run-length coded channels behind the lengths of their rows.
pub proof fn lemma_rle_channels(
    r: ReaderState,
    o: ReadOptions,
    b: Option<usize>,
    data: Option<Seq<u8>>,
    lengths: Seq<usize>,
    channels: Seq<usize>,
    n: int,
    width: int,
    height: int,
    depth: u32,
    step: int,
)
    ensures
        rle::get_channels(under(r, o, b), data, lengths, channels, n, width, height, depth, step)
            == result_under(
            rle::get_channels(r, data, lengths, channels, n, width, height, depth, step),
            o,
            b,
        ),
        only_moves(rle::get_channels(r, data, lengths, channels, n, width, height, depth, step), r),
    decreases n,
{
    if n > 0 {
        lemma_rle_channels(r, o, b, data, lengths, channels, n - 1, width, height, depth, step);
        match rle::get_channels(r, data, lengths, channels, n - 1, width, height, depth, step) {
            Err(_) => {},
            Ok((_, r1)) => {
                lemma_rows(r1, o, b, lengths, (n - 1) * height, height, rle::row_size(width, depth));
            },
        }
    }
}

/// Raw channels of the composite image.
pub proof fn lemma_raw_samples(
    r: ReaderState,
    o: ReadOptions,
    b: Option<usize>,
    image: Seq<u8>,
    channels: Seq<usize>,
    n: int,
    area: int,
    bits: u16,
)
    ensures
        composite::get_raw_channels(under(r, o, b), image, channels, n, area, bits)
            == result_under(
            composite::get_raw_channels(r, image, channels, n, area, bits),
            o,
            b,
        ),
        composite::get_raw_channels(r, image, channels, n, area, bits) matches Ok((_, after))
            ==> after == r.at(after.offset),
    decreases n,
{
    if n > 0 {
        lemma_raw_samples(r, o, b, image, channels, n - 1, area, bits);
    }
}

} // verus!
