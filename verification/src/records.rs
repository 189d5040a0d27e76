//! The records of layers and the channels that follow them.

use vstd::prelude::*;

use crate::bytes;
use crate::decode;
use crate::error::{ErrorView, ReadError, ReadResult};
use crate::helpers;
use crate::helpers::Bounds;
use crate::info;
use crate::layer_tree;
use crate::mask;
use crate::psd;
use crate::psd::{
    AdditionalInfoView, BlendMode, BlendingRanges, ChannelId, ColorMode, Compression, Layer,
    LayerAdditionalInfo, LayerRawData, LayerRawDataChannel, LayerView, RawChannelView, RawDataView,
};
use crate::reader;
use crate::reader::{Parsed, PsdReader, ReaderState, Section};
use crate::text;

verus! {

broadcast use crate::bytes::group_bytes;

/// A channel in the record of a layer: its number and how many bytes it takes.
#[derive(Clone, Copy, Debug, PartialEq, Eq, Structural)]
pub struct ChannelInfo {
    pub id: i16,
    pub length: u32,
}

impl DeepView for ChannelInfo {
    type V = ChannelInfo;

    open spec fn deep_view(&self) -> ChannelInfo {
        *self
    }
}

/// A channel in the record of a layer.
pub open spec fn get_channel_info(r: ReaderState) -> Parsed<ChannelInfo> {
    match reader::get_i16(r) {
        Err(e) => Err(e),
        Ok((id, r1)) => match reader::get_u32(r1) {
            Err(e) => Err(e),
            Ok((length, r2)) => if !r2.large {
                Ok((ChannelInfo { id, length }, r2))
            } else if length != 0 {
                Err(ErrorView::StrictViolation("Sizes larger than 4GB are not supported"@))
            } else {
                match reader::get_u32(r2) {
                    Err(e) => Err(e),
                    Ok((length, r3)) => Ok((ChannelInfo { id, length }, r3)),
                }
            },
        },
    }
}

fn read_channel_info(reader: &mut PsdReader) -> (result: ReadResult<ChannelInfo>)
    ensures
        reader::reads(result, old(reader)@, final(reader)@, get_channel_info(old(reader)@)),
{
    let id: i16 = reader::read_int16(reader)?;
    let mut length: u32 = reader::read_uint32(reader)?;
    if reader.large {
        if length != 0 {
            return Err(
                ReadError::StrictViolation(
                    text::owned_text("Sizes larger than 4GB are not supported"),
                ),
            );
        }
        length = reader::read_uint32(reader)?;
    }
    Ok(ChannelInfo { id, length })
}

/// The first `n` channels in the record of a layer.
pub open spec fn get_channel_infos(r: ReaderState, n: int) -> Parsed<Seq<ChannelInfo>>
    decreases n,
{
    if n <= 0 {
        Ok((Seq::empty(), r))
    } else {
        match get_channel_infos(r, n - 1) {
            Err(e) => Err(e),
            Ok((infos, r1)) => match get_channel_info(r1) {
                Err(e) => Err(e),
                Ok((i, r2)) => Ok((infos.push(i), r2)),
            },
        }
    }
}

proof fn lemma_channel_infos_error(r: ReaderState, n: int, m: int)
    requires
        0 <= n <= m,
        get_channel_infos(r, n) is Err,
    ensures
        get_channel_infos(r, m) == get_channel_infos(r, n),
    decreases m,
{
    if n < m {
        lemma_channel_infos_error(r, n, m - 1);
    }
}

fn read_channel_infos(reader: &mut PsdReader, n: u16) -> (result: ReadResult<Vec<ChannelInfo>>)
    ensures
        match get_channel_infos(old(reader)@, n as int) {
            Ok((infos, state)) => result matches Ok(v) && v@ == infos && final(reader)@ == state
                && final(reader)@.same_source(old(reader)@),
            Err(e) => result matches Err(err) && err@ == e && final(reader)@.same_source(
                old(reader)@,
            ),
        },
{
    let ghost start = reader@;
    let mut infos: Vec<ChannelInfo> = Vec::new();
    let mut i: u16 = 0;
    while i < n
        invariant
            i <= n,
            start == old(reader)@,
            reader@.same_source(start),
            get_channel_infos(start, i as int) == Ok::<(Seq<ChannelInfo>, ReaderState), ErrorView>(
                (infos@, reader@),
            ),
        decreases n - i,
    {
        proof {
            if get_channel_infos(start, i + 1) is Err {
                lemma_channel_infos_error(start, i + 1, n as int);
            }
        }
        let channel: ChannelInfo = read_channel_info(reader)?;
        infos.push(channel);
        i += 1;
    }
    Ok(infos)
}

/// The cursor at the first signature of a block, or where no block fits any more.
pub open spec fn past_junk(r: ReaderState, end: int) -> ReaderState
    decreases end - r.offset,
{
    if end - r.offset > 4 && !reader::block_signature_at(r.buffer, r.offset) {
        past_junk(r.at(r.offset + 1), end)
    } else {
        r
    }
}

fn skip_junk(reader: &mut PsdReader, section: Section)
    ensures
        final(reader)@ == past_junk(old(reader)@, section.end as int),
        final(reader)@.same_source(old(reader)@),
{
    while section.left(reader) > 4 && !reader::valid_signature_at(reader, reader.offset)
        invariant
            reader@.same_source(old(reader)@),
            past_junk(reader@, section.end as int) == past_junk(old(reader)@, section.end as int),
        decreases section.rest(reader@),
    {
        reader.offset = reader.offset + 1;
    }
}

/// The inside of the last part of a record: masks, blending ranges, name, blocks.
#[verifier::opaque]
pub open spec fn get_extra_body(r: ReaderState, section: Section) -> Parsed<AdditionalInfoView> {
    match mask::get_masks(r, psd::empty_info()) {
        Err(e) => Err(e),
        Ok((masked, r1)) => match mask::get_ranges(r1) {
            Err(e) => Err(e),
            Ok((blending_ranges, r2)) => match reader::get_pascal_string(r2, 1) {
                Err(e) => Err(e),
                Ok((name, r3)) => info::get_blocks(
                    past_junk(r3, section.end as int),
                    section.end as int,
                    AdditionalInfoView { blending_ranges, name: Some(name), ..masked },
                ),
            },
        },
    }
}

/// The last part of a record.
#[verifier::opaque]
pub open spec fn get_extra(r: ReaderState) -> Parsed<AdditionalInfoView> {
    match reader::open_section(r, true, false) {
        Err(e) => Err(e),
        Ok((None, r1)) => Ok((psd::empty_info(), r1)),
        Ok((Some(section), r1)) => match get_extra_body(r1, section) {
            Err(e) => Err(e),
            Ok((i, r2)) => match reader::close_section(r2.skipped(section.rest(r2)), section, 1) {
                Err(e) => Err(e),
                Ok((_, r3)) => Ok((i, r3)),
            },
        },
    }
}

fn read_extra_body(reader: &mut PsdReader, section: Section) -> (result: ReadResult<
    LayerAdditionalInfo,
>)
    ensures
        reader::reads(result, old(reader)@, final(reader)@, get_extra_body(old(reader)@, section)),
{
    reveal(get_extra_body);
    let mut i: LayerAdditionalInfo = LayerAdditionalInfo::default();
    mask::read_layer_mask_data(reader, &mut i)?;
    let ranges: Option<BlendingRanges> = mask::read_layer_blending_ranges(reader)?;
    i.blending_ranges = ranges;
    let name: String = reader::read_pascal_string(reader, 1)?;
    i.name = Some(name);
    skip_junk(reader, section);
    info::read_blocks(reader, section, &mut i)?;
    Ok(i)
}

fn read_extra(reader: &mut PsdReader) -> (result: ReadResult<LayerAdditionalInfo>)
    ensures
        reader::reads(result, old(reader)@, final(reader)@, get_extra(old(reader)@)),
{
    reveal(get_extra);
    match reader::begin_section(reader, true, false)? {
        None => Ok(LayerAdditionalInfo::default()),
        Some(section) => {
            let i: LayerAdditionalInfo = read_extra_body(reader, section)?;
            let left: usize = section.left(reader);
            reader::skip_bytes(reader, left);
            reader::end_section(reader, section, 1)?;
            Ok(i)
        },
    }
}

/// How a layer is blended: signature, blend mode, opacity, clipping, flags, a filler.
#[derive(Clone, Copy, Debug, PartialEq, Eq, Structural)]
pub struct Blending {
    pub mode: BlendMode,
    pub opacity: u8,
    pub clipping: u8,
    pub flags: u8,
}

impl DeepView for Blending {
    type V = Blending;

    open spec fn deep_view(&self) -> Blending {
        *self
    }
}

/// The blend mode of a layer.
pub open spec fn get_blend_mode(r: ReaderState) -> Parsed<BlendMode> {
    match reader::expect_signature(r, "8BIM"@, None) {
        Err(e) => Err(e),
        Ok((_, r1)) => match reader::get_signature(r1) {
            Err(e) => Err(e),
            Ok((key, r2)) => match helpers::blend_mode_of(key) {
                Some(mode) => Ok((mode, r2)),
                None => Err(
                    ErrorView::StrictViolation("Invalid blend mode: '"@ + key + "'"@),
                ),
            },
        },
    }
}

fn read_blend_mode(reader: &mut PsdReader) -> (result: ReadResult<BlendMode>)
    ensures
        match get_blend_mode(old(reader)@) {
            Ok((mode, state)) => result matches Ok(m) && m == mode && final(reader)@ == state
                && final(reader)@.same_source(old(reader)@),
            Err(e) => result matches Err(err) && err@ == e && final(reader)@.same_source(
                old(reader)@,
            ),
        },
{
    reader::check_signature(reader, "8BIM", None)?;
    let key: String = reader::read_signature(reader)?;
    match helpers::to_blend_mode(key.as_str()) {
        Some(mode) => Ok(mode),
        None => {
            let mut message: String = text::owned_text("Invalid blend mode: '");
            text::push_text(&mut message, key.as_str());
            text::push_text(&mut message, "'");
            Err(ReadError::StrictViolation(message))
        },
    }
}

/// How a layer is blended.
#[verifier::opaque]
pub open spec fn get_blending(r: ReaderState) -> Parsed<Blending> {
    match get_blend_mode(r) {
        Err(e) => Err(e),
        Ok((mode, r1)) => match reader::get_u8(r1) {
            Err(e) => Err(e),
            Ok((opacity, r2)) => match reader::get_u8(r2) {
                Err(e) => Err(e),
                Ok((clipping, r3)) => match reader::get_u8(r3) {
                    Err(e) => Err(e),
                    Ok((flags, r4)) => Ok(
                        (Blending { mode, opacity, clipping, flags }, r4.skipped(1)),
                    ),
                },
            },
        },
    }
}

fn read_blending(reader: &mut PsdReader) -> (result: ReadResult<Blending>)
    ensures
        reader::reads(result, old(reader)@, final(reader)@, get_blending(old(reader)@)),
{
    reveal(get_blending);
    let mode: BlendMode = read_blend_mode(reader)?;
    let opacity: u8 = reader::read_uint8(reader)?;
    let clipping: u8 = reader::read_uint8(reader)?;
    let flags: u8 = reader::read_uint8(reader)?;
    reader::skip_bytes(reader, 1);
    Ok(Blending { mode, opacity, clipping, flags })
}

/// A layer from the parts of its record.
pub open spec fn layer_from(b: Bounds, blending: Blending, i: AdditionalInfoView) -> LayerView {
    LayerView {
        top: Some(b.top),
        left: Some(b.left),
        bottom: Some(b.bottom),
        right: Some(b.right),
        blend_mode: Some(blending.mode),
        opacity: Some(blending.opacity),
        clipping: Some(blending.clipping == 1),
        transparency_protected: Some(mask::bit_set(blending.flags, 1)),
        hidden: Some(mask::bit_set(blending.flags, 2)),
        effects_open: if mask::bit_set(blending.flags, 0x20) {
            Some(true)
        } else {
            None
        },
        additional_info: i,
        ..psd::empty_layer()
    }
}

/// The record of a layer: the layer, and the channels that come later.
#[verifier::opaque]
pub open spec fn get_record(r: ReaderState) -> Parsed<(LayerView, Seq<ChannelInfo>)> {
    match mask::get_box(r, "layer"@) {
        Err(e) => Err(e),
        Ok((b, r1)) => match reader::get_u16(r1) {
            Err(e) => Err(e),
            Ok((count, r2)) => match get_channel_infos(r2, count as int) {
                Err(e) => Err(e),
                Ok((channels, r3)) => match get_blending(r3) {
                    Err(e) => Err(e),
                    Ok((blending, r4)) => match get_extra(r4) {
                        Err(e) => Err(e),
                        Ok((i, r5)) => Ok(((layer_from(b, blending, i), channels), r5)),
                    },
                },
            },
        },
    }
}

/// Reads the record of a layer: the layer, and the channels that come later.
pub fn read_layer_record(reader: &mut PsdReader) -> (result: ReadResult<(Layer, Vec<ChannelInfo>)>)
    ensures
        match get_record(old(reader)@) {
            Ok(((layer, channels), state)) => result matches Ok((l, c)) && l.deep_view() == layer
                && c@ == channels && final(reader)@ == state && final(reader)@.same_source(
                old(reader)@,
            ),
            Err(e) => result matches Err(err) && err@ == e && final(reader)@.same_source(
                old(reader)@,
            ),
        },
{
    reveal(get_record);
    let b: Bounds = mask::read_box(reader, "layer")?;
    let count: u16 = reader::read_uint16(reader)?;
    let channels: Vec<ChannelInfo> = read_channel_infos(reader, count)?;
    let blending: Blending = read_blending(reader)?;
    let i: LayerAdditionalInfo = read_extra(reader)?;
    let mut layer: Layer = Layer::default();
    layer.top = Some(b.top);
    layer.left = Some(b.left);
    layer.bottom = Some(b.bottom);
    layer.right = Some(b.right);
    layer.blend_mode = Some(blending.mode);
    layer.opacity = Some(blending.opacity);
    layer.clipping = Some(blending.clipping == 1);
    layer.transparency_protected = Some(mask::has_bit(blending.flags, 1));
    layer.hidden = Some(mask::has_bit(blending.flags, 2));
    if mask::has_bit(blending.flags, 0x20) {
        layer.effects_open = Some(true);
    }
    layer.additional_info = i;
    Ok((layer, channels))
}

/// How the samples of a channel are stored, by its number.
pub open spec fn compression_of(v: u16) -> Compression {
    if v == 0 {
        Compression::RawData
    } else if v == 1 {
        Compression::RleCompressed
    } else if v == 2 {
        Compression::ZipWithoutPrediction
    } else {
        Compression::ZipWithPrediction
    }
}

/// How the samples of a channel are stored, by its number.
pub fn compression_from_u16(v: u16) -> (compression: Compression)
    ensures
        compression == compression_of(v),
{
    match v {
        0 => Compression::RawData,
        1 => Compression::RleCompressed,
        2 => Compression::ZipWithoutPrediction,
        _ => Compression::ZipWithPrediction,
    }
}

/// What a channel holds, by its number; what is not known counts as transparency.
pub open spec fn channel_id_of(id: i16) -> ChannelId {
    if id == 0 {
        ChannelId::Color0
    } else if id == 1 {
        ChannelId::Color1
    } else if id == 2 {
        ChannelId::Color2
    } else if id == 3 {
        ChannelId::Color3
    } else if id == -2 {
        ChannelId::UserMask
    } else if id == -3 {
        ChannelId::RealUserMask
    } else {
        ChannelId::Transparency
    }
}

/// What a channel holds, by its number.
pub fn channel_id_from_i16(id: i16) -> (channel: ChannelId)
    ensures
        channel == channel_id_of(id),
{
    match id {
        0 => ChannelId::Color0,
        1 => ChannelId::Color1,
        2 => ChannelId::Color2,
        3 => ChannelId::Color3,
        -2 => ChannelId::UserMask,
        -3 => ChannelId::RealUserMask,
        _ => ChannelId::Transparency,
    }
}

/// The number of the compression of a channel. Where it is none, it is looked
/// for one byte further on, and then at its place once more.
pub open spec fn get_compression(r: ReaderState) -> Parsed<u16> {
    match reader::get_u16(r) {
        Err(e) => Err(e),
        Ok((first, r1)) => if first <= 3 {
            Ok((first, r1))
        } else {
            match reader::get_u16(r1.at(r1.offset - 1)) {
                Err(e) => Err(e),
                Ok((second, r2)) => if second <= 3 {
                    Ok((second, r2))
                } else {
                    match reader::get_u16(r2.at(r2.offset - 3)) {
                        Err(e) => Err(e),
                        Ok((third, r3)) => if third <= 3 {
                            Ok((third, r3))
                        } else {
                            Err(
                                ErrorView::StrictViolation(
                                    "Invalid compression: "@ + text::decimal(third as int),
                                ),
                            )
                        },
                    }
                },
            }
        },
    }
}

fn read_compression(reader: &mut PsdReader) -> (result: ReadResult<u16>)
    ensures
        reader::reads(result, old(reader)@, final(reader)@, get_compression(old(reader)@)),
{
    let mut v: u16 = reader::read_uint16(reader)?;
    if v > 3 {
        reader.offset = reader.offset - 1;
        v = reader::read_uint16(reader)?;
        if v > 3 {
            reader.offset = reader.offset - 3;
            v = reader::read_uint16(reader)?;
        }
    }
    if v > 3 {
        return Err(
            ReadError::StrictViolation(text::numbered("Invalid compression: ", v as u64)),
        );
    }
    Ok(v)
}

/// A channel of a layer as it is stored.
pub open spec fn get_raw_channel(r: ReaderState, channel: ChannelInfo) -> Parsed<RawChannelView> {
    let id = channel_id_of(channel.id);
    let after = r.skipped(channel.length as int);
    if channel.length == 1 {
        Err(ErrorView::StrictViolation("Invalid channel length"@))
    } else if channel.length == 0 {
        Ok((RawChannelView { id, compression: Compression::RawData, data: None }, after))
    } else {
        match get_compression(r) {
            Err(e) => Err(e),
            Ok((v, r1)) => if channel.length == 2 {
                Ok((RawChannelView { id, compression: compression_of(v), data: None }, after))
            } else {
                match reader::get_bytes(r1, channel.length - 2) {
                    Err(e) => Err(e),
                    Ok((data, _)) => Ok(
                        (
                            RawChannelView {
                                id,
                                compression: compression_of(v),
                                data: Some(data),
                            },
                            after,
                        ),
                    ),
                }
            },
        }
    }
}

fn read_raw_channel(reader: &mut PsdReader, channel: ChannelInfo) -> (result: ReadResult<
    LayerRawDataChannel,
>)
    ensures
        reader::reads(
            result,
            old(reader)@,
            final(reader)@,
            get_raw_channel(old(reader)@, channel),
        ),
{
    let id: ChannelId = channel_id_from_i16(channel.id);
    let after: usize = reader.offset.saturating_add(channel.length as usize);
    let mut compression: Compression = Compression::RawData;
    let mut data: Option<Vec<u8>> = None;
    if channel.length == 1 {
        return Err(ReadError::StrictViolation(text::owned_text("Invalid channel length")));
    }
    if channel.length != 0 {
        let v: u16 = read_compression(reader)?;
        compression = compression_from_u16(v);
        if channel.length > 2 {
            let bytes: Vec<u8> = reader::read_bytes(reader, (channel.length - 2) as usize)?;
            data = Some(bytes);
        }
    }
    reader.offset = after;
    Ok(LayerRawDataChannel { id, compression, data })
}

/// The first `n` channels of a layer as they are stored.
pub open spec fn get_raw_channels(r: ReaderState, channels: Seq<ChannelInfo>, n: int) -> Parsed<
    Seq<RawChannelView>,
>
    decreases n,
{
    if n <= 0 {
        Ok((Seq::empty(), r))
    } else {
        match get_raw_channels(r, channels, n - 1) {
            Err(e) => Err(e),
            Ok((raw, r1)) => match get_raw_channel(r1, channels[n - 1]) {
                Err(e) => Err(e),
                Ok((channel, r2)) => Ok((raw.push(channel), r2)),
            },
        }
    }
}

proof fn lemma_raw_channels_error(r: ReaderState, channels: Seq<ChannelInfo>, n: int, m: int)
    requires
        0 <= n <= m,
        get_raw_channels(r, channels, n) is Err,
    ensures
        get_raw_channels(r, channels, m) == get_raw_channels(r, channels, n),
    decreases m,
{
    if n < m {
        lemma_raw_channels_error(r, channels, n, m - 1);
    }
}

fn read_raw_channels(reader: &mut PsdReader, channels: &Vec<ChannelInfo>) -> (result: ReadResult<
    Vec<LayerRawDataChannel>,
>)
    ensures
        reader::reads(
            result,
            old(reader)@,
            final(reader)@,
            get_raw_channels(old(reader)@, channels@, channels@.len() as int),
        ),
{
    let ghost start = reader@;
    let mut raw: Vec<LayerRawDataChannel> = Vec::new();
    let mut i: usize = 0;
    assert(raw.deep_view() =~= Seq::<RawChannelView>::empty());
    while i < channels.len()
        invariant
            i <= channels@.len(),
            start == old(reader)@,
            reader@.same_source(start),
            get_raw_channels(start, channels@, i as int) == Ok::<
                (Seq<RawChannelView>, ReaderState),
                ErrorView,
            >((raw.deep_view(), reader@)),
        decreases channels@.len() - i,
    {
        proof {
            if get_raw_channels(start, channels@, i + 1) is Err {
                lemma_raw_channels_error(start, channels@, i + 1, channels@.len() as int);
            }
        }
        let ghost before = raw.deep_view();
        let channel: LayerRawDataChannel = read_raw_channel(reader, channels[i])?;
        let ghost added = channel.deep_view();
        raw.push(channel);
        assert(raw.deep_view() =~= before.push(added));
        i += 1;
    }
    Ok(raw)
}

/// A layer with the channels that follow its record, decoded unless they are to
/// be kept as they are.
#[verifier::opaque]
pub open spec fn get_channel_data(
    r: ReaderState,
    l: LayerView,
    channels: Seq<ChannelInfo>,
    mode: ColorMode,
    bits: u16,
) -> Parsed<LayerView> {
    if r.options.skip_layer_image_data == Some(true) {
        Ok((l, r))
    } else {
        match get_raw_channels(r, channels, channels.len() as int) {
            Err(e) => Err(e),
            Ok((raw, r1)) => {
                let stored = LayerView {
                    raw_data: Some(
                        RawDataView {
                            color_mode: mode,
                            bits_per_channel: bits,
                            channels: raw,
                            large: r.large,
                        },
                    ),
                    ..l
                };
                if r.options.use_raw_data == Some(true) {
                    Ok((stored, r1))
                } else {
                    match decode::decoded_layer(
                        stored,
                        r.options.use_image_data == Some(true),
                        r1.budget,
                    ) {
                        Err(e) => Err(e),
                        Ok((decoded, budget)) => Ok((decoded, ReaderState { budget, ..r1 })),
                    }
                }
            },
        }
    }
}

/// Reads the channels of a layer, and decodes them unless they are to be kept as
/// they are.
pub fn read_layer_channel_image_data(
    reader: &mut PsdReader,
    l: &mut Layer,
    channels: &Vec<ChannelInfo>,
    mode: ColorMode,
    bits: u16,
) -> (result: ReadResult<()>)
    ensures
        match get_channel_data(old(reader)@, old(l).deep_view(), channels@, mode, bits) {
            Ok((layer, state)) => result is Ok && final(l).deep_view() == layer && final(reader)@
                == state && final(reader)@.same_source(old(reader)@),
            Err(e) => result matches Err(err) && err@ == e && final(reader)@.same_source(
                old(reader)@,
            ),
        },
{
    reveal(get_channel_data);
    if matches!(reader.options.skip_layer_image_data, Some(true)) {
        return Ok(());
    }
    let large: bool = reader.large;
    let raw: Vec<LayerRawDataChannel> = read_raw_channels(reader, channels)?;
    proof {
        lemma_raw_channels_large(old(reader)@, channels@, channels@.len() as int);
    }
    l.raw_data = Some(
        LayerRawData { color_mode: mode, bits_per_channel: bits, channels: raw, large },
    );
    if matches!(reader.options.use_raw_data, Some(true)) {
        return Ok(());
    }
    let use_image_data: bool = matches!(reader.options.use_image_data, Some(true));
    let left: Option<usize> = decode::decode_layer_image_data(l, use_image_data, reader.budget)?;
    reader.budget = left;
    Ok(())
}

/// Reading the channels of a layer leaves everything but the cursor alone.
pub proof fn lemma_raw_channels_large(r: ReaderState, channels: Seq<ChannelInfo>, n: int)
    ensures
        get_raw_channels(r, channels, n) matches Ok((_, after)) ==> after == r.at(after.offset),
    decreases n,
{
    if n > 0 {
        lemma_raw_channels_large(r, channels, n - 1);
    }
}

/// The records of `n` layers, and the channels that come later.
pub open spec fn get_records(r: ReaderState, n: int) -> Parsed<
    (Seq<LayerView>, Seq<Seq<ChannelInfo>>),
>
    decreases n,
{
    if n <= 0 {
        Ok(((Seq::empty(), Seq::empty()), r))
    } else {
        match get_records(r, n - 1) {
            Err(e) => Err(e),
            Ok(((layers, channels), r1)) => match get_record(r1) {
                Err(e) => Err(e),
                Ok(((l, c), r2)) => Ok(((layers.push(l), channels.push(c)), r2)),
            },
        }
    }
}

/// The first `n` layers with the channels that follow the records.
pub open spec fn get_all_channel_data(
    r: ReaderState,
    layers: Seq<LayerView>,
    channels: Seq<Seq<ChannelInfo>>,
    n: int,
    mode: ColorMode,
    bits: u16,
) -> Parsed<Seq<LayerView>>
    decreases n,
{
    if n <= 0 {
        Ok((Seq::empty(), r))
    } else {
        match get_all_channel_data(r, layers, channels, n - 1, mode, bits) {
            Err(e) => Err(e),
            Ok((done, r1)) => match get_channel_data(
                r1,
                layers[n - 1],
                channels[n - 1],
                mode,
                bits,
            ) {
                Err(e) => Err(e),
                Ok((l, r2)) => Ok((done.push(l), r2)),
            },
        }
    }
}

/// How many layers there are; a negative number says that the composite image
/// has a transparency channel.
pub open spec fn layer_count(n: i16) -> int {
    if n < 0 {
        -n
    } else {
        n as int
    }
}

/// The layers and groups of a document.
#[verifier::opaque]
pub open spec fn get_layers(r: ReaderState, mode: ColorMode, bits: u16) -> Parsed<Seq<LayerView>> {
    match reader::get_i16(r) {
        Err(e) => Err(e),
        Ok((n, r1)) => {
            let r2 = ReaderState { global_alpha: r1.global_alpha || n < 0, ..r1 };
            match get_records(r2, layer_count(n)) {
                Err(e) => Err(e),
                Ok(((layers, channels), r3)) => match get_all_channel_data(
                    r3,
                    layers,
                    channels,
                    layer_count(n),
                    mode,
                    bits,
                ) {
                    Err(e) => Err(e),
                    Ok((records, r4)) => Ok((layer_tree::layer_tree(records), r4)),
                },
            }
        },
    }
}

proof fn lemma_records_error(r: ReaderState, n: int, m: int)
    requires
        0 <= n <= m,
        get_records(r, n) is Err,
    ensures
        get_records(r, m) == get_records(r, n),
    decreases m,
{
    if n < m {
        lemma_records_error(r, n, m - 1);
    }
}

proof fn lemma_all_channel_data_error(
    r: ReaderState,
    layers: Seq<LayerView>,
    channels: Seq<Seq<ChannelInfo>>,
    n: int,
    m: int,
    mode: ColorMode,
    bits: u16,
)
    requires
        0 <= n <= m,
        get_all_channel_data(r, layers, channels, n, mode, bits) is Err,
    ensures
        get_all_channel_data(r, layers, channels, m, mode, bits) == get_all_channel_data(
            r,
            layers,
            channels,
            n,
            mode,
            bits,
        ),
    decreases m,
{
    if n < m {
        lemma_all_channel_data_error(r, layers, channels, n, m - 1, mode, bits);
    }
}

/// The view of the channels of several layers.
spec fn channels_view(channels: Seq<Vec<ChannelInfo>>) -> Seq<Seq<ChannelInfo>> {
    Seq::new(channels.len(), |i: int| channels[i]@)
}

fn read_records(reader: &mut PsdReader, n: usize) -> (result: ReadResult<
    (Vec<Layer>, Vec<Vec<ChannelInfo>>),
>)
    ensures
        match get_records(old(reader)@, n as int) {
            Ok(((layers, channels), state)) => result matches Ok((l, c)) && l.deep_view() == layers
                && channels_view(c@) == channels && l@.len() == n && c@.len() == n
                && final(reader)@ == state && final(reader)@.same_source(old(reader)@),
            Err(e) => result matches Err(err) && err@ == e && final(reader)@.same_source(
                old(reader)@,
            ),
        },
{
    let ghost start = reader@;
    let mut layers: Vec<Layer> = Vec::new();
    let mut channels: Vec<Vec<ChannelInfo>> = Vec::new();
    let mut i: usize = 0;
    assert(layers.deep_view() =~= Seq::<LayerView>::empty());
    assert(channels_view(channels@) =~= Seq::<Seq<ChannelInfo>>::empty());
    while i < n
        invariant
            i <= n,
            start == old(reader)@,
            reader@.same_source(start),
            layers@.len() == i,
            channels@.len() == i,
            get_records(start, i as int) == Ok::<
                ((Seq<LayerView>, Seq<Seq<ChannelInfo>>), ReaderState),
                ErrorView,
            >(((layers.deep_view(), channels_view(channels@)), reader@)),
        decreases n - i,
    {
        proof {
            if get_records(start, i + 1) is Err {
                lemma_records_error(start, i + 1, n as int);
            }
        }
        let ghost before = layers.deep_view();
        let ghost before_channels = channels_view(channels@);
        let (l, c): (Layer, Vec<ChannelInfo>) = read_layer_record(reader)?;
        let ghost added = l.deep_view();
        let ghost added_channels = c@;
        layers.push(l);
        channels.push(c);
        assert(layers.deep_view() =~= before.push(added));
        assert(channels_view(channels@) =~= before_channels.push(added_channels));
        i += 1;
    }
    Ok((layers, channels))
}

fn read_all_channel_data(
    reader: &mut PsdReader,
    layers: Vec<Layer>,
    channels: &Vec<Vec<ChannelInfo>>,
    mode: ColorMode,
    bits: u16,
) -> (result: ReadResult<Vec<Layer>>)
    requires
        layers@.len() == channels@.len(),
    ensures
        reader::reads(
            result,
            old(reader)@,
            final(reader)@,
            get_all_channel_data(
                old(reader)@,
                layers.deep_view(),
                channels_view(channels@),
                layers@.len() as int,
                mode,
                bits,
            ),
        ),
{
    let ghost start = reader@;
    let ghost given = layers.deep_view();
    let ghost all = channels_view(channels@);
    let n: usize = layers.len();
    let mut work: Vec<Layer> = layers;
    let ghost mut done = Seq::<LayerView>::empty();
    let mut i: usize = 0;
    while i < n
        invariant
            i <= n,
            n == channels@.len(),
            given == layers.deep_view(),
            given.len() == n,
            work@.len() == n,
            done.len() == i,
            start == old(reader)@,
            reader@.same_source(start),
            all == channels_view(channels@),
            forall|j: int| 0 <= j < i ==> (#[trigger] work@[j]).deep_view() == done[j],
            forall|j: int| i <= j < n ==> (#[trigger] work@[j]).deep_view() == given[j],
            get_all_channel_data(start, given, all, i as int, mode, bits) == Ok::<
                (Seq<LayerView>, ReaderState),
                ErrorView,
            >((done, reader@)),
        decreases n - i,
    {
        proof {
            if get_all_channel_data(start, given, all, i + 1, mode, bits) is Err {
                lemma_all_channel_data_error(start, given, all, i + 1, n as int, mode, bits);
            }
        }
        read_layer_channel_image_data(reader, &mut work[i], &channels[i], mode, bits)?;
        proof {
            done = done.push(work@[i as int].deep_view());
        }
        i += 1;
    }
    assert(work.deep_view() =~= done);
    Ok(work)
}

/// Reads the layers and groups of a document.
pub fn read_layer_info(reader: &mut PsdReader, mode: ColorMode, bits: u16) -> (result: ReadResult<
    Vec<Layer>,
>)
    ensures
        reader::reads(result, old(reader)@, final(reader)@, get_layers(old(reader)@, mode, bits)),
{
    reveal(get_layers);
    let n: i16 = reader::read_int16(reader)?;
    let count: usize = if n < 0 {
        reader.global_alpha = true;
        (-(n as i32)) as usize
    } else {
        n as usize
    };
    let (layers, channels): (Vec<Layer>, Vec<Vec<ChannelInfo>>) = read_records(reader, count)?;
    let records: Vec<Layer> = read_all_channel_data(reader, layers, &channels, mode, bits)?;
    Ok(layer_tree::build_layer_tree(records))
}

} // verus!
