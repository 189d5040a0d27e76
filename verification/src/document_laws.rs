//! Documents are read where they were written.

use vstd::prelude::*;

use crate::budget;
use crate::bytes;
use crate::channels;
use crate::channels::LayerChannelView;
use crate::composite;
use crate::decode;
use crate::document;
use crate::document::{BlockPart, CompositePart, LayerSection};
use crate::document_writer;
use crate::error::ErrorView;
use crate::header;
use crate::header::Header;
use crate::info;
use crate::layer_laws;
use crate::layer_tree;
use crate::layer_writer;
use crate::lazy;
use crate::limit_laws;
use crate::mask;
use crate::matte;
use crate::palette;
use crate::pixel_laws;
use crate::pixels;
use crate::psd;
use crate::psd::{
    AdditionalInfoView, ColorMode, CompositeRawView, Compression, LayerView, PixelDataView,
    PsdView, ReadOptions, WriteOptions,
};
use crate::reader;
use crate::reader::{Parsed, ReaderState, Section};
use crate::recode;
use crate::record_laws;
use crate::record_writer;
use crate::records;
use crate::records::ChannelInfo;
use crate::resources;
use crate::rle;
use crate::roundtrip;
use crate::writer;

verus! {

broadcast use crate::bytes::group_bytes;

/// The channels of layers are read and kept as they are stored.
pub open spec fn keeps_raw(settings: ReadOptions) -> bool {
    settings.use_raw_data == Some(true) && settings.skip_layer_image_data != Some(true)
}

/// A layer with its stored channels decoded, where they can be.
pub open spec fn decoded_or_stored(l: LayerView, use_image_data: bool) -> LayerView {
    match decode::decoded_layer(l, use_image_data, None) {
        Ok((found, _)) => found,
        Err(_) => l,
    }
}

/// A layer as it comes back under the given settings; `background` says that its
/// record is the first. What is written as it was stored is decoded from that.
#[verifier::opaque]
pub open spec fn read_layer(
    l: LayerView,
    background: bool,
    options: WriteOptions,
    settings: ReadOptions,
) -> LayerView {
    if settings.skip_layer_image_data == Some(true) {
        layer_laws::bare_layer(l, options, document_writer::wants_psb(options))
    } else if keeps_raw(settings) {
        layer_laws::raw_layer(l, background, options, document_writer::wants_psb(options))
    } else if channels::written_raw(l, document_writer::wants_psb(options)) is Some {
        decoded_or_stored(
            layer_laws::raw_layer(l, background, options, document_writer::wants_psb(options)),
            settings.use_image_data == Some(true),
        )
    } else {
        layer_laws::stored_layer(l, options, settings.use_image_data == Some(true), document_writer::wants_psb(options))
    }
}

/// A record of a layer can be told from the others and from what is around it.
#[verifier::opaque]
pub open spec fn layer_readable(l: LayerView, options: WriteOptions, psb: bool) -> bool {
    &&& l.children is None
    &&& channels::layer_fits(l)
    &&& layer_laws::layer_in_memory(l)
    &&& channels::written_raw(l, psb) matches Some(raw) ==> raw.channels.len() < 0x1_0000
    &&& mask::valid_box(
        channels::written_part(l, options.trim_image_data == Some(true), psb).bounds,
        psb,
    )
    &&& record_laws::info_distinct(
        l.additional_info,
        channels::layer_mask_bounds(l, l.additional_info.mask, psb),
        channels::layer_mask_bounds(l, l.additional_info.real_mask, psb),
        psb,
    )
}

/// Every record can be told from the others and from what is around it.
pub open spec fn layers_readable(layers: Seq<LayerView>, options: WriteOptions, psb: bool) -> bool {
    forall|i: int| 0 <= i < layers.len() ==> layer_readable(#[trigger] layers[i], options, psb)
}

/// Where a layer is written from the channels that it was read with, and is decoded
/// again, they can be decoded.
pub open spec fn layer_decodes(
    l: LayerView,
    background: bool,
    options: WriteOptions,
    settings: ReadOptions,
) -> bool {
    settings.use_raw_data == Some(true) || settings.skip_layer_image_data == Some(true)
        || channels::written_raw(l, document_writer::wants_psb(options)) is None || decode::decoded_layer(
        layer_laws::raw_layer(l, background, options, document_writer::wants_psb(options)),
        settings.use_image_data == Some(true),
        None,
    ) is Ok
}

/// All layers that are written from the channels that they were read with can be
/// decoded, where they are.
pub open spec fn layers_decode(
    layers: Seq<LayerView>,
    options: WriteOptions,
    settings: ReadOptions,
) -> bool {
    forall|i: int|
        0 <= i < layers.len() ==> layer_decodes(#[trigger] layers[i], i == 0, options, settings)
}

/// The reader got to `offset` with `value`, unless the memory limit is exceeded.
pub open spec fn reads_to<T>(result: Parsed<T>, r: ReaderState, value: T, offset: int) -> bool {
    match result {
        Err(e) => pixel_laws::over_limit(e, r.budget),
        Ok((found, after)) => found == value && after == (ReaderState {
            budget: after.budget,
            ..r.at(offset)
        }) && (r.budget is None ==> after.budget is None),
    }
}

proof fn lemma_record_distinct(
    d: LayerChannelView,
    l: LayerView,
    background: bool,
    options: WriteOptions,
    psb: bool,
)
    requires
        layer_readable(l, options, psb),
        channels::codes_layer(d, l, background, options, psb),
    ensures
        record_laws::record_distinct(d, psb),
        record_laws::stored_record(d) == layer_laws::bare_layer(l, options, psb),
        d.layer == l,
{
    reveal(layer_readable);
    reveal(layer_laws::bare_layer);
    assert(d.layer == l);
}

/// The lengths of the channels of a layer are those that its record states.
proof fn lemma_lengths_stated(
    d: LayerChannelView,
    l: LayerView,
    background: bool,
    options: WriteOptions,
    psb: bool,
)
    requires
        channels::codes_layer(d, l, background, options, psb),
        bytes::concat(record_writer::channel_pieces(d.channels)).len() < 0x1_0000_0000,
        bytes::concat(record_writer::channel_pieces(d.channels)).len() <= usize::MAX,
    ensures
        forall|i: int|
            0 <= i < d.channels.len() ==> pixel_laws::length_stated(#[trigger] d.channels[i])
                && d.channels[i].length < 0x1_0000_0000,
        pixel_laws::codes_in_memory(d.channels),
{
    let pieces = record_writer::channel_pieces(d.channels);
    let plan = channels::channel_plan(l, background, options, psb);
    assert forall|i: int| 0 <= i < d.channels.len() implies pixel_laws::length_stated(
        #[trigger] d.channels[i],
    ) && d.channels[i].length < 0x1_0000_0000 && record_writer::channel_body(
        d.channels[i],
    ).len() <= usize::MAX by {
        bytes::lemma_concat_take(pieces, i);
        bytes::lemma_concat_prefix(pieces, i + 1);
        assert(pieces[i] == record_writer::channel_bytes(d.channels[i]));
        assert(channels::codes(
            d.channels[i],
            plan[i],
            options.compress == Some(true),
            psb,
        ));
    }
}

/// The pixels of a layer are read where they were written, unless the memory limit
/// is exceeded; where they are not asked for they are left unread.
proof fn lemma_channel_data_reads_back(
    r: ReaderState,
    d: LayerChannelView,
    l: LayerView,
    background: bool,
    options: WriteOptions,
    psb: bool,
)
    requires
        r.buffer.len() <= usize::MAX,
        r.large == psb,
        psb == document_writer::wants_psb(options),
        layer_readable(l, options, psb),
        layer_decodes(l, background, options, r.options),
        channels::codes_layer(d, l, background, options, psb),
        bytes::concat(record_writer::channel_pieces(d.channels)).len() < 0x1_0000_0000,
        r.options.skip_layer_image_data != Some(true) ==> bytes::holds_at(
            r.buffer,
            r.offset,
            bytes::concat(record_writer::channel_pieces(d.channels)),
        ),
    ensures
        reads_to(
            records::get_channel_data(
                r,
                layer_laws::bare_layer(l, options, psb),
                record_laws::channel_infos(d.channels),
                ColorMode::Rgb,
                8,
            ),
            r,
            read_layer(l, background, options, r.options),
            if r.options.skip_layer_image_data == Some(true) {
                r.offset
            } else {
                r.offset + bytes::concat(record_writer::channel_pieces(d.channels)).len()
            },
        ),
{
    reveal(records::get_channel_data);
    reveal(read_layer);
    reveal(layer_readable);
    lemma_record_distinct(d, l, background, options, psb);
    if r.options.skip_layer_image_data != Some(true) {
        let n = d.channels.len() as int;
        bytes::lemma_holds_at_room(
            r.buffer,
            r.offset,
            bytes::concat(record_writer::channel_pieces(d.channels)),
        );
        lemma_lengths_stated(d, l, background, options, psb);
        pixel_laws::law_raw_channels_round_trip(r, d.channels, n);
        assert(pixel_laws::stored_raws(d.channels).take(n) =~= pixel_laws::stored_raws(d.channels));
        assert(record_writer::channel_pieces(d.channels).take(n)
            =~= record_writer::channel_pieces(d.channels));
        layer_laws::lemma_raw_layer(d, l, background, options, psb);
        if channels::written_raw(l, psb) is Some {
            limit_laws::law_layer_limit(
                layer_laws::raw_layer(l, background, options, psb),
                r.options.use_image_data == Some(true),
                r.budget,
            );
        } else if !keeps_raw(r.options) {
            layer_laws::law_layer_pixels_round_trip(
                d,
                l,
                background,
                options,
                psb,
                r.options.use_image_data == Some(true),
                r.budget,
            );
        }
    }
}

/// A layer that is written from the channels that it was read with, and decoded when
/// it is read again, is decoded from those same channels.
pub proof fn law_stored_channels_decoded(
    r: ReaderState,
    d: LayerChannelView,
    l: LayerView,
    background: bool,
    options: WriteOptions,
    psb: bool,
)
    requires
        r.buffer.len() <= usize::MAX,
        r.large == psb,
        psb == document_writer::wants_psb(options),
        layer_readable(l, options, psb),
        channels::written_raw(l, psb) is Some,
        channels::codes_layer(d, l, background, options, psb),
        bytes::concat(record_writer::channel_pieces(d.channels)).len() < 0x1_0000_0000,
        r.options.skip_layer_image_data != Some(true),
        r.options.use_raw_data != Some(true),
        bytes::holds_at(
            r.buffer,
            r.offset,
            bytes::concat(record_writer::channel_pieces(d.channels)),
        ),
    ensures
        records::get_channel_data(
            r,
            layer_laws::bare_layer(l, options, psb),
            record_laws::channel_infos(d.channels),
            ColorMode::Rgb,
            8,
        ) == (match decode::decoded_layer(
            layer_laws::raw_layer(l, background, options, psb),
            r.options.use_image_data == Some(true),
            r.budget,
        ) {
            Err(e) => Err(e),
            Ok((found, left)) => Ok(
                (
                    found,
                    ReaderState {
                        budget: left,
                        ..r.at(
                            r.offset + bytes::concat(
                                record_writer::channel_pieces(d.channels),
                            ).len(),
                        )
                    },
                ),
            ),
        }),
{
    reveal(records::get_channel_data);
    reveal(layer_readable);
    let n = d.channels.len() as int;
    bytes::lemma_holds_at_room(
        r.buffer,
        r.offset,
        bytes::concat(record_writer::channel_pieces(d.channels)),
    );
    lemma_record_distinct(d, l, background, options, psb);
    lemma_lengths_stated(d, l, background, options, psb);
    pixel_laws::law_raw_channels_round_trip(r, d.channels, n);
    assert(pixel_laws::stored_raws(d.channels).take(n) =~= pixel_laws::stored_raws(d.channels));
    assert(record_writer::channel_pieces(d.channels).take(n) =~= record_writer::channel_pieces(
        d.channels,
    ));
    layer_laws::lemma_raw_layer(d, l, background, options, psb);
}

/// The layers as they come back from their records.
spec fn bare_layers(layers: Seq<LayerView>, options: WriteOptions, psb: bool) -> Seq<LayerView> {
    Seq::new(layers.len(), |i: int| layer_laws::bare_layer(layers[i], options, psb))
}

/// The channels in the records of several layers.
spec fn all_infos(ds: Seq<LayerChannelView>) -> Seq<Seq<ChannelInfo>> {
    Seq::new(ds.len(), |i: int| record_laws::channel_infos(ds[i].channels))
}

/// The layers as they come back under the given settings.
pub open spec fn read_layers(
    layers: Seq<LayerView>,
    options: WriteOptions,
    settings: ReadOptions,
) -> Seq<LayerView> {
    Seq::new(layers.len(), |i: int| read_layer(layers[i], i == 0, options, settings))
}

proof fn lemma_records_read_back(
    r: ReaderState,
    ds: Seq<LayerChannelView>,
    layers: Seq<LayerView>,
    n: int,
    options: WriteOptions,
    psb: bool,
)
    requires
        r.buffer.len() <= usize::MAX,
        r.large == psb,
        layer_writer::codes_layers(ds, layers, options, psb),
        layers_readable(layers, options, psb),
        bytes::concat(layer_writer::record_pieces(ds, psb)).len() < 0x1_0000_0000,
        bytes::holds_at(
            r.buffer,
            r.offset,
            bytes::concat(layer_writer::record_pieces(ds, psb)),
        ),
        0 <= n <= ds.len(),
    ensures
        records::get_records(r, n) == Ok::<
            ((Seq<LayerView>, Seq<Seq<ChannelInfo>>), ReaderState),
            ErrorView,
        >(
            (
                (bare_layers(layers, options, psb).take(n), all_infos(ds).take(n)),
                r.at(
                    r.offset + bytes::concat(
                        layer_writer::record_pieces(ds, psb).take(n),
                    ).len(),
                ),
            ),
        ),
    decreases n,
{
    let pieces = layer_writer::record_pieces(ds, psb);
    if n == 0 {
        assert(pieces.take(0) =~= Seq::<Seq<u8>>::empty());
        assert(bare_layers(layers, options, psb).take(0) =~= Seq::<LayerView>::empty());
        assert(all_infos(ds).take(0) =~= Seq::<Seq<ChannelInfo>>::empty());
    } else {
        lemma_records_read_back(r, ds, layers, n - 1, options, psb);
        bytes::lemma_holds_at_piece(r.buffer, r.offset, pieces, n - 1);
        bytes::lemma_concat_take(pieces, n - 1);
        bytes::lemma_concat_prefix(pieces, n);
        let r1 = r.at(r.offset + bytes::concat(pieces.take(n - 1)).len());
        let d = ds[n - 1];
        assert(channels::codes_layer(d, layers[n - 1], n - 1 == 0, options, psb));
        assert(layer_readable(layers[n - 1], options, psb));
        lemma_record_distinct(d, layers[n - 1], n - 1 == 0, options, psb);
        record_laws::law_record_round_trip(r1, d, psb);
        assert(bare_layers(layers, options, psb).take(n) =~= bare_layers(layers, options, psb).take(
            n - 1,
        ).push(layer_laws::bare_layer(layers[n - 1], options, psb)));
        assert(all_infos(ds).take(n) =~= all_infos(ds).take(n - 1).push(
            record_laws::channel_infos(d.channels),
        ));
    }
}

/// Where the reader is behind the pixels of the first `n` layers.
spec fn behind_pixels(r: ReaderState, ds: Seq<LayerChannelView>, n: int) -> int {
    if r.options.skip_layer_image_data == Some(true) {
        r.offset
    } else {
        r.offset + bytes::concat(layer_writer::pixel_pieces(ds).take(n)).len()
    }
}

/// One more layer is read where it was written.
proof fn lemma_more_pixels(
    r: ReaderState,
    ds: Seq<LayerChannelView>,
    layers: Seq<LayerView>,
    n: int,
    options: WriteOptions,
    psb: bool,
    r1: ReaderState,
)
    requires
        r.buffer.len() <= usize::MAX,
        r.large == psb,
        psb == document_writer::wants_psb(options),
        layer_writer::codes_layers(ds, layers, options, psb),
        layers_readable(layers, options, psb),
        layers_decode(layers, options, r.options),
        bytes::concat(layer_writer::pixel_pieces(ds)).len() < 0x1_0000_0000,
        bytes::holds_at(r.buffer, r.offset, bytes::concat(layer_writer::pixel_pieces(ds))),
        0 <= n < ds.len(),
        r1 == (ReaderState { budget: r1.budget, ..r.at(behind_pixels(r, ds, n)) }),
    ensures
        reads_to(
            records::get_channel_data(
                r1,
                layer_laws::bare_layer(layers[n], options, psb),
                record_laws::channel_infos(ds[n].channels),
                ColorMode::Rgb,
                8,
            ),
            r1,
            read_layer(layers[n], n == 0, options, r.options),
            behind_pixels(r, ds, n + 1),
        ),
{
    let pieces = layer_writer::pixel_pieces(ds);
    bytes::lemma_holds_at_piece(r.buffer, r.offset, pieces, n);
    bytes::lemma_concat_take(pieces, n);
    bytes::lemma_concat_prefix(pieces, n + 1);
    assert(pieces[n] == bytes::concat(record_writer::channel_pieces(ds[n].channels)));
    assert(channels::codes_layer(ds[n], layers[n], n == 0, options, psb));
    assert(layer_readable(layers[n], options, psb));
    lemma_channel_data_reads_back(r1, ds[n], layers[n], n == 0, options, psb);
}

proof fn lemma_pixels_read_back(
    r: ReaderState,
    ds: Seq<LayerChannelView>,
    layers: Seq<LayerView>,
    n: int,
    options: WriteOptions,
    psb: bool,
)
    requires
        r.buffer.len() <= usize::MAX,
        r.large == psb,
        psb == document_writer::wants_psb(options),
        layer_writer::codes_layers(ds, layers, options, psb),
        layers_readable(layers, options, psb),
        layers_decode(layers, options, r.options),
        bytes::concat(layer_writer::pixel_pieces(ds)).len() < 0x1_0000_0000,
        bytes::holds_at(r.buffer, r.offset, bytes::concat(layer_writer::pixel_pieces(ds))),
        0 <= n <= ds.len(),
    ensures
        reads_to(
            records::get_all_channel_data(
                r,
                bare_layers(layers, options, psb),
                all_infos(ds),
                n,
                ColorMode::Rgb,
                8,
            ),
            r,
            read_layers(layers, options, r.options).take(n),
            behind_pixels(r, ds, n),
        ),
    decreases n,
{
    let pieces = layer_writer::pixel_pieces(ds);
    if n == 0 {
        assert(pieces.take(0) =~= Seq::<Seq<u8>>::empty());
        assert(read_layers(layers, options, r.options).take(0) =~= Seq::<LayerView>::empty());
    } else {
        lemma_pixels_read_back(r, ds, layers, n - 1, options, psb);
        match records::get_all_channel_data(
            r,
            bare_layers(layers, options, psb),
            all_infos(ds),
            n - 1,
            ColorMode::Rgb,
            8,
        ) {
            Err(_) => {},
            Ok((done, r1)) => {
                lemma_more_pixels(r, ds, layers, n - 1, options, psb, r1);
                assert(read_layers(layers, options, r.options).take(n) =~= read_layers(
                    layers,
                    options,
                    r.options,
                ).take(n - 1).push(read_layer(layers[n - 1], n - 1 == 0, options, r.options)));
            },
        }
    }
}

/// The composite image has a transparency channel, as the number of layers says.
pub open spec fn alpha_told(layers: int, global_alpha: bool) -> bool {
    global_alpha && layers > 0
}

/// The reader knows that the composite image has a transparency channel.
spec fn knowing_alpha(r: ReaderState, told: bool) -> ReaderState {
    ReaderState { global_alpha: r.global_alpha || told, ..r }
}

#[verifier::rlimit(40)]
proof fn lemma_layers_read_back(
    r: ReaderState,
    ds: Seq<LayerChannelView>,
    layers: Seq<LayerView>,
    global_alpha: bool,
    options: WriteOptions,
    psb: bool,
)
    requires
        r.buffer.len() <= usize::MAX,
        r.large == psb,
        psb == document_writer::wants_psb(options),
        layers.len() <= 0x7FFF,
        layer_writer::codes_layers(ds, layers, options, psb),
        layers_readable(layers, options, psb),
        layers_decode(layers, options, r.options),
        layer_writer::layer_info_body(ds, global_alpha, psb).len() < 0x1_0000_0000,
        bytes::holds_at(
            r.buffer,
            r.offset,
            layer_writer::layer_info_body(ds, global_alpha, psb),
        ),
    ensures
        exists|offset: int|
            r.offset <= offset <= r.offset + layer_writer::layer_info_body(
                ds,
                global_alpha,
                psb,
            ).len() && #[trigger] reads_to(
                records::get_layers(r, ColorMode::Rgb, 8),
                knowing_alpha(r, alpha_told(layers.len() as int, global_alpha)),
                layer_tree::layer_tree(read_layers(layers, options, r.options)),
                offset,
            ),
{
    reveal(records::get_layers);
    let n = ds.len() as int;
    let bits = layer_writer::count_bits(n, global_alpha);
    let body = layer_writer::layer_info_body(ds, global_alpha, psb);
    let records = bytes::concat(layer_writer::record_pieces(ds, psb));
    let pixels = bytes::concat(layer_writer::pixel_pieces(ds));
    let told = alpha_told(n, global_alpha);
    bytes::lemma_holds_at_split(r.buffer, r.offset, bytes::u16_bytes(bits), records + pixels);
    bytes::lemma_holds_at_split(r.buffer, r.offset + 2, records, pixels);
    roundtrip::law_uint16_round_trip(r, bits);
    let count = bytes::i16_of_bits(bits);
    assert(records::layer_count(count) == n);
    assert((count < 0) == told);
    let r2 = knowing_alpha(r, told).at(r.offset + 2);
    lemma_records_read_back(r2, ds, layers, n, options, psb);
    assert(bare_layers(layers, options, psb).take(n) =~= bare_layers(layers, options, psb));
    assert(all_infos(ds).take(n) =~= all_infos(ds));
    assert(layer_writer::record_pieces(ds, psb).take(n) =~= layer_writer::record_pieces(ds, psb));
    let r3 = r2.at(r2.offset + records.len());
    lemma_pixels_read_back(r3, ds, layers, n, options, psb);
    assert(read_layers(layers, options, r.options).take(n) =~= read_layers(
        layers,
        options,
        r.options,
    ));
    assert(layer_writer::pixel_pieces(ds).take(n) =~= layer_writer::pixel_pieces(ds));
    let offset = behind_pixels(r3, ds, n);
    assert(reads_to(
        records::get_layers(r, ColorMode::Rgb, 8),
        knowing_alpha(r, told),
        layer_tree::layer_tree(read_layers(layers, options, r.options)),
        offset,
    ));
}

/// The part about layers is read where it was written, unless the memory limit is
/// exceeded.
proof fn lemma_layer_part_reads_back(
    r: ReaderState,
    h: Header,
    piece: Seq<u8>,
    layers: Seq<LayerView>,
    global_alpha: bool,
    options: WriteOptions,
    psb: bool,
)
    requires
        r.buffer.len() <= usize::MAX,
        piece.len() < 0x1_0000_0000,
        r.large == psb,
        psb == document_writer::wants_psb(options),
        h.color_mode == ColorMode::Rgb,
        h.bits_per_channel == 8,
        layers.len() <= 0x7FFF,
        layer_writer::is_layer_info(piece, layers, global_alpha, options, psb),
        layers_readable(layers, options, psb),
        layers_decode(layers, options, r.options),
        bytes::holds_at(r.buffer, r.offset, piece),
    ensures
        reads_to(
            document::get_layer_part(r, h),
            knowing_alpha(r, alpha_told(layers.len() as int, global_alpha)),
            Some(layer_tree::layer_tree(read_layers(layers, options, r.options))),
            r.offset + piece.len(),
        ),
        piece.len() % 4 == 0,
{
    reveal(layer_writer::is_layer_info);
    let ds = choose|ds: Seq<LayerChannelView>| #[trigger]
        layer_writer::codes_layers(ds, layers, options, psb) && piece == writer::section_bytes(
            layer_writer::layer_info_body(ds, global_alpha, psb),
            4,
            true,
            psb,
        );
    lemma_coded_part_reads_back(r, h, ds, layers, global_alpha, options, psb);
}

#[verifier::rlimit(60)]
proof fn lemma_coded_part_reads_back(
    r: ReaderState,
    h: Header,
    ds: Seq<LayerChannelView>,
    layers: Seq<LayerView>,
    global_alpha: bool,
    options: WriteOptions,
    psb: bool,
)
    requires
        r.buffer.len() <= usize::MAX,
        r.large == psb,
        psb == document_writer::wants_psb(options),
        h.color_mode == ColorMode::Rgb,
        h.bits_per_channel == 8,
        layers.len() <= 0x7FFF,
        layer_writer::codes_layers(ds, layers, options, psb),
        writer::section_bytes(
            layer_writer::layer_info_body(ds, global_alpha, psb),
            4,
            true,
            psb,
        ).len() < 0x1_0000_0000,
        layers_readable(layers, options, psb),
        layers_decode(layers, options, r.options),
        bytes::holds_at(
            r.buffer,
            r.offset,
            writer::section_bytes(
                layer_writer::layer_info_body(ds, global_alpha, psb),
                4,
                true,
                psb,
            ),
        ),
    ensures
        ({
            let piece = writer::section_bytes(
                layer_writer::layer_info_body(ds, global_alpha, psb),
                4,
                true,
                psb,
            );
            &&& reads_to(
                document::get_layer_part(r, h),
                knowing_alpha(r, alpha_told(layers.len() as int, global_alpha)),
                Some(layer_tree::layer_tree(read_layers(layers, options, r.options))),
                r.offset + piece.len(),
            )
            &&& piece.len() % 4 == 0
        }),
{
    let body = layer_writer::layer_info_body(ds, global_alpha, psb);
    let piece = writer::section_bytes(body, 4, true, psb);
    bytes::lemma_holds_at_room(r.buffer, r.offset, piece);
    let pad = bytes::padding(body.len() as int, 4);
    assert(0 <= pad < 4);
    assert(body.len() + pad <= piece.len());
    roundtrip::law_section_round_trip(r, body, 4, true, psb, true);
    let start = r.offset + roundtrip::length_size(psb);
    let length = body.len() + pad;
    assert(length % 4 == 0);
    assert(body.len() > 0);
    let r1 = r.at(start);
    lemma_layers_read_back(r1, ds, layers, global_alpha, options, psb);
    let told = alpha_told(layers.len() as int, global_alpha);
    let tree = layer_tree::layer_tree(read_layers(layers, options, r.options));
    let offset = choose|offset: int|
        r1.offset <= offset <= r1.offset + body.len() && #[trigger] reads_to(
            records::get_layers(r1, ColorMode::Rgb, 8),
            knowing_alpha(r1, told),
            tree,
            offset,
        );
    lemma_section_closed(r, h, start, length, told, tree, offset);
}

proof fn lemma_section_closed(
    r: ReaderState,
    h: Header,
    start: int,
    length: int,
    told: bool,
    tree: Seq<LayerView>,
    offset: int,
)
    requires
        r.buffer.len() <= usize::MAX,
        h.color_mode == ColorMode::Rgb,
        h.bits_per_channel == 8,
        0 <= start,
        0 < length,
        start + length <= r.buffer.len(),
        length % 4 == 0,
        reader::open_section(r, true, r.large) == Ok::<(Option<Section>, ReaderState), ErrorView>(
            (
                Some(Section { length: length as usize, end: (start + length) as usize }),
                r.at(start),
            ),
        ),
        start <= offset <= start + length,
        reads_to(
            records::get_layers(r.at(start), ColorMode::Rgb, 8),
            knowing_alpha(r.at(start), told),
            tree,
            offset,
        ),
    ensures
        reads_to(
            document::get_layer_part(r, h),
            knowing_alpha(r, told),
            Some(tree),
            start + length,
        ),
{
    reveal(document::get_layer_part);
    let section = Section { length: length as usize, end: (start + length) as usize };
    match records::get_layers(r.at(start), ColorMode::Rgb, 8) {
        Err(_) => {},
        Ok((found, r2)) => {
            assert(r2.skipped(section.rest(r2)).offset == section.end);
            assert(bytes::padding(section.length as int, 2) == 0);
        },
    }
}

/// What is known of a document can be told from its blocks: none of them holds
/// layers, or is a divider, and the key of its divider is ASCII.
pub open spec fn document_info_distinct(i: AdditionalInfoView) -> bool {
    &&& info::blocks_distinct(i.blocks)
    &&& i.section_divider matches Some(d) ==> (d.key matches Some(key)
        ==> roundtrip::is_ascii_signature(key))
}

/// A block of a document is read where it was written.
proof fn lemma_document_block_reads_back(
    r: ReaderState,
    h: Header,
    end: int,
    part: BlockPart,
    key: u32,
    data: Seq<u8>,
    psb: bool,
)
    requires
        r.buffer.len() <= usize::MAX,
        r.large == psb,
        data.len() < 0x1_0000_0000,
        !info::holds_layers(key),
        bytes::holds_at(r.buffer, r.offset, info::block_bytes(key, data, psb)),
        r.offset + info::block_bytes(key, data, psb).len() <= end,
    ensures
        document::get_document_blocks(r, h, end, part) == document::get_document_blocks(
            r.at(r.offset + info::block_bytes(key, data, psb).len()),
            h,
            end,
            BlockPart {
                additional_info: info::with_block(part.additional_info, key, data),
                ..part
            },
        ),
        info::block_bytes(key, data, psb).len() % 2 == 0,
{
    reveal(document::get_document_block);
    info::lemma_block_parts(r, key, data, psb);
    record_laws::lemma_signature_found(r.buffer, r.offset, key, data, psb);
    assert(document::past_zeros(r, end) == Ok::<((), ReaderState), ErrorView>(((), r)));
}

proof fn lemma_document_blocks_read_back(
    r: ReaderState,
    h: Header,
    base: int,
    part: BlockPart,
    blocks: Seq<psd::InfoBlockView>,
    k: int,
    psb: bool,
)
    requires
        r.buffer.len() <= usize::MAX,
        r.large == psb,
        info::blocks_distinct(blocks),
        0 <= k <= blocks.len(),
        bytes::holds_at(r.buffer, base, info::blocks_bytes(blocks, psb)),
        r.offset == base + bytes::concat(info::block_pieces(blocks, psb).take(k)).len(),
        part.additional_info.blocks == blocks.take(k),
    ensures
        document::get_document_blocks(
            r,
            h,
            base + info::blocks_bytes(blocks, psb).len() as int,
            part,
        ) == Ok::<(BlockPart, ReaderState), ErrorView>(
            (
                BlockPart {
                    additional_info: AdditionalInfoView { blocks, ..part.additional_info },
                    ..part
                },
                r.at(base + info::blocks_bytes(blocks, psb).len()),
            ),
        ),
    decreases blocks.len() - k,
{
    let end = base + info::blocks_bytes(blocks, psb).len() as int;
    let pieces = info::block_pieces(blocks, psb);
    if k == blocks.len() {
        assert(blocks.take(k) =~= blocks);
        assert(pieces.take(k) =~= pieces);
    } else {
        let b = blocks[k];
        bytes::lemma_holds_at_piece(r.buffer, base, pieces, k);
        bytes::lemma_concat_take(pieces, k);
        bytes::lemma_concat_prefix(pieces, k + 1);
        assert(pieces[k] == info::block_bytes(b.key, b.data, psb));
        lemma_document_block_reads_back(r, h, end, part, b.key, b.data, psb);
        assert(blocks.take(k + 1) =~= blocks.take(k).push(b));
        let next = BlockPart {
            additional_info: info::with_block(part.additional_info, b.key, b.data),
            ..part
        };
        let r1 = r.at(base + bytes::concat(pieces.take(k + 1)).len());
        lemma_document_blocks_read_back(r1, h, base, next, blocks, k + 1, psb);
    }
}

/// What is known of a document as it comes back.
pub open spec fn stored_document_info(i: AdditionalInfoView) -> AdditionalInfoView {
    AdditionalInfoView {
        section_divider: match i.section_divider {
            Some(d) => Some(info::stored_divider(d)),
            None => None,
        },
        blocks: i.blocks,
        ..psd::empty_info()
    }
}

proof fn lemma_document_info_reads_back(
    r: ReaderState,
    h: Header,
    children: Option<Seq<LayerView>>,
    i: AdditionalInfoView,
    psb: bool,
)
    requires
        r.buffer.len() <= usize::MAX,
        r.large == psb,
        document_info_distinct(i),
        bytes::holds_at(r.buffer, r.offset, info::info_bytes(i, psb)),
    ensures
        document::get_document_blocks(
            r,
            h,
            r.offset + info::info_bytes(i, psb).len() as int,
            BlockPart { children, additional_info: psd::empty_info() },
        ) == Ok::<(BlockPart, ReaderState), ErrorView>(
            (
                BlockPart { children, additional_info: stored_document_info(i) },
                r.at(r.offset + info::info_bytes(i, psb).len()),
            ),
        ),
        info::info_bytes(i, psb).len() % 2 == 0,
{
    let pieces = info::block_pieces(i.blocks, psb);
    let tail = info::blocks_bytes(i.blocks, psb);
    let whole = info::info_bytes(i, psb);
    let end = r.offset + whole.len() as int;
    let start = BlockPart { children, additional_info: psd::empty_info() };
    assert(i.blocks.take(0) =~= Seq::<psd::InfoBlockView>::empty());
    assert(pieces.take(0) =~= Seq::<Seq<u8>>::empty());
    assert(bytes::concat(pieces.take(0)) =~= Seq::<u8>::empty());
    lemma_pieces_even(i.blocks, psb);
    match i.section_divider {
        None => {
            assert(whole =~= tail);
            lemma_document_blocks_read_back(r, h, r.offset, start, i.blocks, 0, psb);
        },
        Some(d) => {
            let data = info::divider_bytes(d);
            let head = info::block_bytes(info::SECTION_DIVIDER_KEY, data, psb);
            info::law_divider_round_trip(d);
            bytes::lemma_holds_at_split(r.buffer, r.offset, head, tail);
            lemma_document_block_reads_back(
                r,
                h,
                end,
                start,
                info::SECTION_DIVIDER_KEY,
                data,
                psb,
            );
            let divided = BlockPart {
                children,
                additional_info: AdditionalInfoView {
                    section_divider: Some(info::stored_divider(d)),
                    ..psd::empty_info()
                },
            };
            let r1 = r.at(r.offset + head.len());
            lemma_document_blocks_read_back(r1, h, r1.offset, divided, i.blocks, 0, psb);
        },
    }
}

proof fn lemma_pieces_even(blocks: Seq<psd::InfoBlockView>, psb: bool)
    ensures
        info::blocks_bytes(blocks, psb).len() % 2 == 0,
    decreases blocks.len(),
{
    let pieces = info::block_pieces(blocks, psb);
    if blocks.len() > 0 {
        lemma_pieces_even(blocks.drop_last(), psb);
        assert(pieces.drop_last() =~= info::block_pieces(blocks.drop_last(), psb));
        let b = blocks.last();
        assert(pieces.last() == info::block_bytes(b.key, b.data, psb));
    }
}

/// The layers and groups of a document as they come back. Whether the channels of
/// a layer as they are stored hold its opacity depends on the place of its record.
pub open spec fn stored_children(
    psd: PsdView,
    options: WriteOptions,
    settings: ReadOptions,
) -> Seq<LayerView> {
    if keeps_raw(settings) {
        layer_tree::layer_tree(
            read_layers(document_writer::written_layers(psd, options), options, settings),
        )
    } else {
        decoded_children(psd, options, settings)
    }
}

/// The layers and groups of a document as they come back decoded.
pub open spec fn decoded_children(
    psd: PsdView,
    options: WriteOptions,
    settings: ReadOptions,
) -> Seq<LayerView> {
    match psd.children {
        None => Seq::empty(),
        Some(children) => if children.len() == 0 {
            seq![read_layer(psd::empty_layer(), false, options, settings)]
        } else {
            layer_tree::regrouped_all(
                children,
                |l: LayerView|
                    read_layer(
                        recode::recoded(l, document_writer::wants_psb(options)),
                        false,
                        options,
                        settings,
                    ),
            )
        },
    }
}

proof fn lemma_children_read_back(psd: PsdView, options: WriteOptions, settings: ReadOptions)
    requires
        !keeps_raw(settings),
        psd.children matches Some(children) ==> layer_tree::no_stray_dividers(children),
    ensures
        layer_tree::layer_tree(
            read_layers(document_writer::written_layers(psd, options), options, settings),
        ) == decoded_children(psd, options, settings),
{
    assert forall|l: LayerView|
        #[trigger] read_layer(l, true, options, settings) == read_layer(
            l,
            false,
            options,
            settings,
        ) by {
        reveal(read_layer);
    }
    let psb = document_writer::wants_psb(options);
    let change = |l: LayerView| read_layer(recode::recoded(l, psb), false, options, settings);
    let layers = document_writer::written_layers(psd, options);
    assert forall|l: LayerView| layer_tree::record_type(#[trigger] change(l))
        == layer_tree::record_type(l) by {
        lemma_part_kept(recode::recoded(l, psb), options, settings);
        recode::lemma_recoded_kept(l, psb);
    }
    match psd.children {
        None => {
            let none = Seq::<LayerView>::empty();
            assert(read_layers(layers, options, settings) =~= none);
            assert(layer_tree::stack_after(layer_tree::first_stack(), none)
                == layer_tree::first_stack());
        },
        Some(children) => {
            if children.len() == 0 {
                let one = seq![psd::empty_layer()];
                assert(layer_tree::flattened(one) =~= one) by {
                    reveal_with_fuel(layer_tree::flattened, 2);
                    assert(one.drop_last() =~= Seq::<LayerView>::empty());
                }
                assert(layer_tree::no_stray_dividers(one)) by {
                    reveal_with_fuel(layer_tree::no_stray_dividers, 2);
                    assert(one.drop_last() =~= Seq::<LayerView>::empty());
                }
                layer_tree::law_layer_tree_round_trip(one, change);
                assert(read_layers(layers, options, settings) =~= one.map_values(change));
                assert(layer_tree::regrouped_all(one, change) =~= seq![
                    change(psd::empty_layer()),
                ]) by {
                    reveal_with_fuel(layer_tree::regrouped_all, 2);
                    assert(one.drop_last() =~= Seq::<LayerView>::empty());
                }
            } else {
                layer_tree::law_layer_tree_round_trip(children, change);
                assert(read_layers(layers, options, settings) =~= layer_tree::flattened(
                    children,
                ).map_values(change));
            }
        },
    }
}

/// A record plays the same part in a group once it has come back.
pub proof fn lemma_part_kept(l: LayerView, options: WriteOptions, settings: ReadOptions)
    ensures
        layer_tree::record_type(read_layer(l, false, options, settings)) == layer_tree::record_type(l),
{
    reveal(read_layer);
    reveal(layer_laws::bare_layer);
}

/// What the section about layers and masks holds as it comes back.
spec fn stored_section(psd: PsdView, options: WriteOptions, settings: ReadOptions) -> LayerSection {
    LayerSection {
        children: Some(stored_children(psd, options, settings)),
        global_layer_mask_info: psd.global_layer_mask_info,
        additional_info: stored_document_info(psd.additional_info),
    }
}

/// The composite image is known to have a transparency channel.
pub open spec fn document_alpha_told(psd: PsdView, options: WriteOptions) -> bool {
    alpha_told(
        document_writer::written_layers(psd, options).len() as int,
        document_writer::document_alpha(psd, options),
    )
}

/// The composite image is not decoded, or it is written from pixels and not as it was
/// stored.
pub open spec fn image_decodes(psd: PsdView, options: WriteOptions, settings: ReadOptions) -> bool {
    settings.use_raw_data == Some(true) || document_writer::kept_composite(psd, options) is None
        || document::composite_skipped(
        settings,
        Some(stored_children(psd, options, settings)),
    )
}

/// The layers and blocks of a document can be told apart.
pub open spec fn document_distinct(psd: PsdView, options: WriteOptions) -> bool {
    &&& document_writer::written_layers(psd, options).len() <= 0x7FFF
    &&& layers_readable(
        document_writer::written_layers(psd, options),
        options,
        document_writer::wants_psb(options),
    )
    &&& psd.children matches Some(children) ==> layer_tree::no_stray_dividers(children)
    &&& document_info_distinct(psd.additional_info)
}

proof fn lemma_section_body_reads_back(
    r: ReaderState,
    h: Header,
    psd: PsdView,
    options: WriteOptions,
    piece: Seq<u8>,
    psb: bool,
)
    requires
        r.buffer.len() <= usize::MAX,
        document_writer::layer_section_body(psd, piece, psb).len() < 0x1_0000_0000,
        r.large == psb,
        psb == document_writer::wants_psb(options),
        h.color_mode == ColorMode::Rgb,
        h.bits_per_channel == 8,
        document_distinct(psd, options),
        layers_decode(document_writer::written_layers(psd, options), options, r.options),
        layer_writer::is_layer_info(
            piece,
            document_writer::written_layers(psd, options),
            document_writer::document_alpha(psd, options),
            options,
            psb,
        ),
        bytes::holds_at(
            r.buffer,
            r.offset,
            document_writer::layer_section_body(psd, piece, psb),
        ),
    ensures
        ({
            let body = document_writer::layer_section_body(psd, piece, psb);
            &&& reads_to(
                document::get_layer_section_body(r, h, r.offset + body.len() as int),
                knowing_alpha(r, document_alpha_told(psd, options)),
                stored_section(psd, options, r.options),
                r.offset + body.len(),
            )
            &&& body.len() % 2 == 0
            &&& body.len() > 0
        }),
{
    reveal(document::get_layer_section_body);
    let layers = document_writer::written_layers(psd, options);
    let alpha = document_writer::document_alpha(psd, options);
    let global = writer::section_bytes(
        mask::global_mask_body(psd.global_layer_mask_info),
        1,
        false,
        false,
    );
    let blocks = info::info_bytes(psd.additional_info, psb);
    let body = document_writer::layer_section_body(psd, piece, psb);
    let end = r.offset + body.len() as int;
    bytes::lemma_holds_at_split(r.buffer, r.offset, piece, global + blocks);
    bytes::lemma_holds_at_split(r.buffer, r.offset + piece.len(), global, blocks);
    lemma_layer_part_reads_back(r, h, piece, layers, alpha, options, psb);
    if !keeps_raw(r.options) {
        lemma_children_read_back(psd, options, r.options);
    }
    assert(global.len() % 2 == 0 && global.len() >= 4);
    lemma_document_info_reads_back(
        r.at(r.offset + piece.len() + global.len()),
        h,
        Some(stored_children(psd, options, r.options)),
        psd.additional_info,
        psb,
    );
    match document::get_layer_part(r, h) {
        Err(_) => {},
        Ok((children, r1)) => {
            mask::law_global_mask_round_trip(r1, psd.global_layer_mask_info);
            let r2 = r1.at(r1.offset + global.len());
            lemma_document_info_reads_back(r2, h, children, psd.additional_info, psb);
        },
    }
}

proof fn lemma_layer_section_reads_back(
    r: ReaderState,
    h: Header,
    psd: PsdView,
    options: WriteOptions,
    piece: Seq<u8>,
    psb: bool,
)
    requires
        r.buffer.len() <= usize::MAX,
        document_writer::layer_section_body(psd, piece, psb).len() < 0x1_0000_0000,
        r.large == psb,
        psb == document_writer::wants_psb(options),
        h.color_mode == ColorMode::Rgb,
        h.bits_per_channel == 8,
        document_distinct(psd, options),
        layers_decode(document_writer::written_layers(psd, options), options, r.options),
        layer_writer::is_layer_info(
            piece,
            document_writer::written_layers(psd, options),
            document_writer::document_alpha(psd, options),
            options,
            psb,
        ),
        bytes::holds_at(
            r.buffer,
            r.offset,
            writer::section_bytes(
                document_writer::layer_section_body(psd, piece, psb),
                2,
                false,
                psb,
            ),
        ),
    ensures
        reads_to(
            document::get_layer_section(r, h),
            knowing_alpha(r, document_alpha_told(psd, options)),
            stored_section(psd, options, r.options),
            r.offset + writer::section_bytes(
                document_writer::layer_section_body(psd, piece, psb),
                2,
                false,
                psb,
            ).len(),
        ),
{
    reveal(document::get_layer_section);
    let body = document_writer::layer_section_body(psd, piece, psb);
    let whole = writer::section_bytes(body, 2, false, psb);
    bytes::lemma_holds_at_room(r.buffer, r.offset, whole);
    assert(body.len() <= whole.len());
    roundtrip::law_section_round_trip(r, body, 2, false, psb, true);
    let r1 = r.at(r.offset + roundtrip::length_size(psb));
    lemma_section_body_reads_back(r1, h, psd, options, piece, psb);
}

/// The composite image as it comes back.
pub open spec fn stored_image(psd: PsdView, options: WriteOptions) -> PixelDataView {
    let size = psd.width * psd.height * 4;
    PixelDataView {
        width: psd.width,
        height: psd.height,
        data: match document_writer::document_image(psd, options) {
            None => pixels::opaque_black(size),
            Some(p) => if document_alpha_told(psd, options) {
                matte::unmatted(matte::matted(p.data.take(size), size), size)
            } else if document_writer::document_alpha(psd, options) {
                matte::matted(p.data.take(size), size)
            } else {
                p.data.take(size)
            },
        },
    }
}

/// The planes of the composite image put together.
proof fn lemma_image_assembled(psd: PsdView, options: WriteOptions)
    requires
        document_writer::writable(psd, options),
        document_writer::kept_composite(psd, options) is None,
    ensures
        ({
            let alpha = document_writer::document_alpha(psd, options);
            let image = document_writer::written_image(psd, options);
            let channels = document_writer::image_channels(alpha);
            let size = psd.width * psd.height * 4;
            rle::with_planes(
                pixels::opaque_black(size),
                image,
                channels,
                channels.len() as int,
                4,
            ) == (if document_writer::document_image(psd, options) is None {
                pixels::opaque_black(size)
            } else {
                image.data
            })
        }),
{
    let alpha = document_writer::document_alpha(psd, options);
    let image = document_writer::written_image(psd, options);
    let channels = document_writer::image_channels(alpha);
    let n = channels.len() as int;
    let size = psd.width * psd.height * 4;
    let black = pixels::opaque_black(size);
    assert(0 <= size) by (nonlinear_arith)
        requires
            size == psd.width * psd.height * 4,
    ;
    document_writer::lemma_written(psd, options);
    assert(image.data.len() == size);
    let all = rle::with_planes(black, image, channels, n, 4);
    lemma_planes_in_order(black, image, channels, n);
    assert forall|i: int| 0 <= i < size implies #[trigger] all[i] == (
    if document_writer::document_image(psd, options) is None {
        black[i]
    } else {
        image.data[i]
    }) by {
        if i % 4 == 3 && !alpha && document_writer::document_image(psd, options) is Some {
            let p = document_writer::document_image(psd, options)->Some_0;
            assert(pixels::alpha_at(p, i / 4) == 255);
        }
    }
    assert(all =~= (if document_writer::document_image(psd, options) is None {
        black
    } else {
        image.data
    }));
}

proof fn lemma_planes_in_order(
    data: Seq<u8>,
    p: PixelDataView,
    channels: Seq<usize>,
    n: int,
)
    requires
        data.len() == p.size(),
        p.data.len() == p.size(),
        0 <= n <= channels.len() <= 4,
        forall|k: int| 0 <= k < channels.len() ==> #[trigger] channels[k] == k,
    ensures
        rle::with_planes(data, p, channels, n, 4).len() == p.size(),
        forall|i: int|
            0 <= i < p.size() ==> #[trigger] rle::with_planes(data, p, channels, n, 4)[i] == (if i
                % 4 < n {
                p.data[i]
            } else {
                data[i]
            }),
    decreases n,
{
    let count = p.width * p.height;
    assert(0 <= count) by (nonlinear_arith)
        requires
            count == p.width * p.height,
    ;
    assert(p.size() == count * 4);
    if n > 0 {
        lemma_planes_in_order(data, p, channels, n - 1);
        let before = rle::with_planes(data, p, channels, n - 1, 4);
        let after = rle::with_planes(data, p, channels, n, 4);
        let o = n - 1;
        let plane = pixels::plane(p, o);
        assert(channels[n - 1] == n - 1);
        pixels::lemma_stored(before, o, 4, plane);
        assert forall|i: int| 0 <= i < p.size() implies #[trigger] after[i] == (if i % 4 < n {
            p.data[i]
        } else {
            data[i]
        }) by {
            if i % 4 == o {
                let j = i / 4;
                assert(i == o + 4 * j);
                assert(after[o + 4 * j] == plane[j]);
            } else {
                assert forall|j: int| 0 <= j < plane.len() implies i != #[trigger] (o + 4 * j) by {}
                assert(after[i] == before[i]);
            }
        }
    }
}

/// How much memory the lengths of the rows of the composite image take: four bytes for
/// each row of each channel.
pub open spec fn table_memory(psd: PsdView, options: WriteOptions) -> int {
    4 * (document_writer::image_channels(document_writer::document_alpha(psd, options)).len()
        * psd.height)
}

proof fn lemma_color_image_reads_back(
    r: ReaderState,
    h: Header,
    psd: PsdView,
    options: WriteOptions,
    psb: bool,
)
    requires
        r.buffer.len() <= usize::MAX,
        r.large == psb,
        psb == document_writer::wants_psb(options),
        r.global_alpha == document_alpha_told(psd, options),
        h == document_writer::written_header(psd, options),
        h.accepted(),
        document_writer::writable(psd, options),
        document_writer::kept_composite(psd, options) is None,
        bytes::holds_at(
            r.buffer,
            r.offset,
            rle::rle_bytes(
                document_writer::written_image(psd, options),
                document_writer::image_channels(document_writer::document_alpha(psd, options)),
                psb,
            ),
        ),
    ensures
        reads_to(
            composite::get_mode_image(
                r,
                h,
                pixels::opaque_black(psd.width * psd.height * 4),
                Compression::RleCompressed,
                None,
            ),
            r,
            if document_writer::document_image(psd, options) is None {
                pixels::opaque_black(psd.width * psd.height * 4)
            } else {
                document_writer::written_image(psd, options).data
            },
            r.offset + rle::rle_bytes(
                document_writer::written_image(psd, options),
                document_writer::image_channels(document_writer::document_alpha(psd, options)),
                psb,
            ).len(),
        ),
        table_memory(psd, options) <= budget::available(r.budget) ==> composite::get_mode_image(
            r,
            h,
            pixels::opaque_black(psd.width * psd.height * 4),
            Compression::RleCompressed,
            None,
        ) is Ok,
{
    lemma_rgb_reads_back(
        r,
        h,
        document_writer::written_image(psd, options),
        pixels::opaque_black(psd.width * psd.height * 4),
        document_writer::document_alpha(psd, options),
        psb,
    );
    lemma_image_assembled(psd, options);
}

proof fn lemma_rgb_reads_back(
    r: ReaderState,
    h: Header,
    image: PixelDataView,
    data: Seq<u8>,
    alpha: bool,
    psb: bool,
)
    requires
        r.buffer.len() <= usize::MAX,
        r.large == psb,
        r.global_alpha ==> alpha,
        h.color_mode == ColorMode::Rgb,
        h.bits_per_channel == 8,
        h.channels == (if alpha {
            4int
        } else {
            3int
        }),
        h.width == image.width,
        h.height == image.height,
        image.height <= 300000,
        rle::lengths_fit(image.width as int, psb),
        bytes::holds_at(
            r.buffer,
            r.offset,
            rle::rle_bytes(image, document_writer::image_channels(alpha), psb),
        ),
    ensures
        reads_to(
            composite::get_mode_image(r, h, data, Compression::RleCompressed, None),
            r,
            rle::with_planes(
                data,
                image,
                document_writer::image_channels(alpha),
                document_writer::image_channels(alpha).len() as int,
                4,
            ),
            r.offset + rle::rle_bytes(image, document_writer::image_channels(alpha), psb).len(),
        ),
        4 * (document_writer::image_channels(alpha).len() * image.height) <= budget::available(
            r.budget,
        ) ==> composite::get_mode_image(
            r,
            h,
            data,
            Compression::RleCompressed,
            None,
        ) is Ok,
{
    reveal(composite::get_mode_image);
    reveal(composite::get_color_image);
    let channels = document_writer::image_channels(alpha);
    assert(composite::composite_channels(false, h.channels as int, r.global_alpha) =~= channels);
    assert(0 <= channels.len() * image.height <= 4 * 300000) by (nonlinear_arith)
        requires
            0 <= channels.len() <= 4,
            0 <= image.height <= 300000,
    ;
    if 4 * (channels.len() * image.height) <= budget::available(r.budget) {
        rle::law_rle_round_trip(r, data, image, channels, 4, psb);
    }
}

/// How much memory it takes to read the composite image: for its pixels, and for the
/// lengths of its rows.
pub open spec fn image_memory(psd: PsdView, options: WriteOptions) -> int {
    psd.width * psd.height * 4 + table_memory(psd, options)
}

/// The composite image is read where it was written, unless the memory limit is
/// exceeded.
proof fn lemma_image_reads_back(
    r: ReaderState,
    h: Header,
    psd: PsdView,
    options: WriteOptions,
    psb: bool,
)
    requires
        r.buffer.len() <= usize::MAX,
        r.large == psb,
        psb == document_writer::wants_psb(options),
        r.global_alpha == document_alpha_told(psd, options),
        h == document_writer::written_header(psd, options),
        h.accepted(),
        document_writer::writable(psd, options),
        document_writer::kept_composite(psd, options) is None,
        bytes::holds_at(r.buffer, r.offset, document_writer::image_bytes(psd, options)),
    ensures
        reads_to(
            composite::get_composite(r, h, None),
            r,
            stored_image(psd, options),
            r.offset + document_writer::image_bytes(psd, options).len(),
        ),
        image_memory(psd, options) <= budget::available(r.budget) ==> composite::get_composite(
            r,
            h,
            None,
        ) is Ok,
{
    let size = psd.width * psd.height * 4;
    let code = rle::rle_bytes(
        document_writer::written_image(psd, options),
        document_writer::image_channels(document_writer::document_alpha(psd, options)),
        psb,
    );
    bytes::lemma_holds_at_split(r.buffer, r.offset, bytes::u16_bytes(1), code);
    roundtrip::law_uint16_round_trip(r, 1);
    match budget::charged(r.budget, size) {
        Err(_) => {},
        Ok(left) => {
            let r1 = ReaderState { budget: left, ..r.at(r.offset + 2) };
            lemma_color_image_reads_back(r1, h, psd, options, psb);
        },
    }
}

/// The composite image of a document as it is stored.
pub open spec fn raw_composite(psd: PsdView, options: WriteOptions) -> CompositeRawView {
    CompositeRawView {
        large: document_writer::wants_psb(options),
        global_alpha: document_alpha_told(psd, options),
        data: document_writer::image_bytes(psd, options),
    }
}

/// The composite image of a document as it comes back under the given settings.
pub open spec fn stored_part(
    psd: PsdView,
    options: WriteOptions,
    settings: ReadOptions,
    children: Seq<LayerView>,
) -> CompositePart {
    if document::composite_skipped(settings, Some(children)) {
        CompositePart { image: None, raw: None }
    } else if settings.use_raw_data == Some(true) {
        CompositePart { image: None, raw: Some(raw_composite(psd, options)) }
    } else {
        CompositePart { image: Some(stored_image(psd, options)), raw: None }
    }
}

/// A document as it comes back under the given settings.
pub open spec fn stored_psd(psd: PsdView, options: WriteOptions, settings: ReadOptions) -> PsdView {
    let children = stored_children(psd, options, settings);
    document::document_of(
        document_writer::written_header(psd, options),
        None,
        resources::kept_resources(
            document_writer::written_resources(psd),
            settings.skip_thumbnail,
        ),
        LayerSection {
            children: Some(children),
            global_layer_mask_info: psd.global_layer_mask_info,
            additional_info: stored_document_info(psd.additional_info),
        },
        stored_part(psd, options, settings, children),
        settings.use_image_data == Some(true),
    )
}

proof fn lemma_wanted_image_reads_back(
    r: ReaderState,
    h: Header,
    psd: PsdView,
    options: WriteOptions,
    psb: bool,
)
    requires
        r.buffer.len() <= usize::MAX,
        r.large == psb,
        psb == document_writer::wants_psb(options),
        r.global_alpha == document_alpha_told(psd, options),
        h == document_writer::written_header(psd, options),
        h.accepted(),
        document_writer::writable(psd, options),
        image_decodes(psd, options, r.options),
        bytes::holds_at(r.buffer, r.offset, document_writer::image_bytes(psd, options)),
        r.offset + document_writer::image_bytes(psd, options).len() == r.buffer.len(),
    ensures
        ({
            let children = stored_children(psd, options, r.options);
            match document::get_wanted_composite(r, h, None, Some(children)) {
                Err(e) => pixel_laws::over_limit(e, r.budget),
                Ok((found, _)) => found == stored_part(psd, options, r.options, children),
            }
        }),
{
    bytes::lemma_holds_at_room(r.buffer, r.offset, document_writer::image_bytes(psd, options));
    assert(r.buffer.skip(r.offset) =~= document_writer::image_bytes(psd, options));
    if document_writer::kept_composite(psd, options) is None {
        lemma_image_reads_back(r, h, psd, options, psb);
    }
}

/// The length of every section of a document fits in four bytes.
pub open spec fn sections_fit(psd: PsdView, options: WriteOptions) -> bool {
    let psb = document_writer::wants_psb(options);
    &&& resources::resources_body(document_writer::written_resources(psd)).len() < 0x1_0000_0000
    &&& forall|layers: Seq<u8>| #[trigger]
        layer_writer::is_layer_info(
            layers,
            document_writer::written_layers(psd, options),
            document_writer::document_alpha(psd, options),
            options,
            psb,
        ) ==> document_writer::layer_section_body(psd, layers, psb).len() < 0x1_0000_0000
}

/// What is written is what is read: the file of a document gives the document
/// back, as far as the format can hold it, unless it takes more memory than the
/// settings allow. Without a memory limit it always comes back. A layer that is
/// written as it was stored comes back as it was stored, or decoded from that; a
/// composite image that is written as it was stored comes back as it was stored.
pub proof fn law_document_round_trip(
    data: Seq<u8>,
    psd: PsdView,
    options: WriteOptions,
    settings: ReadOptions,
)
    requires
        document_writer::writable(psd, options),
        document_writer::is_document(data, psd, options),
        data.len() <= usize::MAX,
        sections_fit(psd, options),
        psd.width <= 300000,
        psd.height <= 300000,
        document_distinct(psd, options),
        layers_decode(document_writer::written_layers(psd, options), options, settings),
        image_decodes(psd, options, settings),
    ensures
        match document::parsed_psd(data, settings) {
            Ok(found) => found == stored_psd(psd, options, settings),
            Err(e) => pixel_laws::over_limit(e, settings.total_memory_limit),
        },
{
    let psb = document_writer::wants_psb(options);
    let layers = choose|layers: Seq<u8>| #[trigger]
        layer_writer::is_layer_info(
            layers,
            document_writer::written_layers(psd, options),
            document_writer::document_alpha(psd, options),
            options,
            psb,
        ) && data == document_writer::document_bytes(psd, options, layers);
    let r = document::reader_with(data, settings);
    let h = document_writer::written_header(psd, options);
    let head = header::header_bytes(h);
    let colors = palette::palette_bytes(psd.palette);
    let list = document_writer::written_resources(psd);
    let blocks = resources::resources_bytes(list);
    let section = writer::section_bytes(
        document_writer::layer_section_body(psd, layers, psb),
        2,
        false,
        psb,
    );
    let image = document_writer::image_bytes(psd, options);
    bytes::lemma_piece_holds(data, Seq::empty(), data, Seq::empty());
    bytes::lemma_holds_at_split(data, 0, head, colors + (blocks + (section + image)));
    header::law_header_round_trip(r, h);
    let r1 = ReaderState { large: psb, global_alpha: false, ..r.at(head.len() as int) };
    bytes::lemma_holds_at_split(data, r1.offset, colors, blocks + (section + image));
    palette::law_palette_round_trip(r1, psd.palette, ColorMode::Rgb);
    let r2 = r1.at(r1.offset + colors.len());
    bytes::lemma_holds_at_split(data, r2.offset, blocks, section + image);
    lemma_resources_small(list);
    resources::law_resources_round_trip(r2, list);
    let r3 = r2.at(r2.offset + blocks.len());
    bytes::lemma_holds_at_split(data, r3.offset, section, image);
    lemma_layer_section_reads_back(r3, h, psd, options, layers, psb);
    match document::get_layer_section(r3, h) {
        Err(_) => {},
        Ok((found, r4)) => {
            lemma_wanted_image_reads_back(r4, h, psd, options, psb);
        },
    }
}

/// Every pixel of a bitmap is opaque or fully transparent.
pub open spec fn clear_cut(p: PixelDataView) -> bool {
    forall|k: int|
        0 <= k < p.width * p.height ==> #[trigger] pixels::alpha_at(p, k) == 0 || pixels::alpha_at(
            p,
            k,
        ) == 255
}

/// A composite image in which every pixel is opaque or fully transparent comes back
/// unchanged.
pub proof fn law_image_unchanged(psd: PsdView, options: WriteOptions, p: PixelDataView)
    requires
        document_writer::writable(psd, options),
        document_writer::document_image(psd, options) == Some(p),
        clear_cut(p),
    ensures
        stored_image(psd, options) == (PixelDataView { data: p.data.take(p.size()), ..p }),
{
    document_writer::lemma_written(psd, options);
    let size = psd.width * psd.height * 4;
    let data = p.data.take(size);
    let count = p.width * p.height;
    assert(0 <= count) by (nonlinear_arith)
        requires
            count == p.width * p.height,
    ;
    assert(size == count * 4);
    assert forall|i: int| 0 <= i < size && i % 4 != 3 implies (data[#[trigger] (i - i % 4 + 3)]
        == 0 || data[i - i % 4 + 3] == 255) by {
        assert(pixels::alpha_at(p, i / 4) == data[i - i % 4 + 3]);
    }
    assert(matte::matted(data, size) =~= data);
    assert(matte::unmatted(data, size) =~= data);
}

/// The file of a document gives back its size and its composite image, unchanged where
/// every pixel of that is opaque or fully transparent: 8-bit RGB, and no layers where it
/// has none.
pub proof fn law_composite_round_trip(
    data: Seq<u8>,
    psd: PsdView,
    options: WriteOptions,
    settings: ReadOptions,
    p: PixelDataView,
)
    requires
        document_writer::writable(psd, options),
        document_writer::is_document(data, psd, options),
        data.len() <= usize::MAX,
        sections_fit(psd, options),
        psd.width <= 300000,
        psd.height <= 300000,
        document_distinct(psd, options),
        layers_decode(document_writer::written_layers(psd, options), options, settings),
        document_writer::document_image(psd, options) == Some(p),
        settings.use_raw_data != Some(true),
        settings.skip_composite_image_data != Some(true),
    ensures
        match document::parsed_psd(data, settings) {
            Ok(found) => {
                let image = Some(stored_image(psd, options));
                &&& found.width == psd.width
                &&& found.height == psd.height
                &&& found.bits_per_channel == Some(8u16)
                &&& found.color_mode == Some(ColorMode::Rgb)
                &&& found.raw_composite_data is None
                &&& if settings.use_image_data == Some(true) {
                    found.image_data == image && found.canvas is None
                } else {
                    found.canvas == image && found.image_data is None
                }
                &&& psd.children is None ==> found.children == Some(Seq::<LayerView>::empty())
            },
            Err(e) => pixel_laws::over_limit(e, settings.total_memory_limit),
        },
        clear_cut(p) ==> stored_image(psd, options) == (PixelDataView {
            data: p.data.take(p.size()),
            ..p
        }),
{
    law_document_round_trip(data, psd, options, settings);
    if clear_cut(p) {
        law_image_unchanged(psd, options, p);
    }
}

/// No layers take no memory.
proof fn lemma_no_layers(r: ReaderState, ds: Seq<LayerChannelView>, global_alpha: bool, psb: bool)
    requires
        r.buffer.len() <= usize::MAX,
        ds.len() == 0,
        bytes::holds_at(
            r.buffer,
            r.offset,
            layer_writer::layer_info_body(ds, global_alpha, psb),
        ),
    ensures
        records::get_layers(r, ColorMode::Rgb, 8) matches Ok((_, after)) && after.budget
            == r.budget,
{
    reveal(records::get_layers);
    let bits = layer_writer::count_bits(0, global_alpha);
    let records = bytes::concat(layer_writer::record_pieces(ds, psb));
    let pixels = bytes::concat(layer_writer::pixel_pieces(ds));
    bytes::lemma_holds_at_split(r.buffer, r.offset, bytes::u16_bytes(bits), records + pixels);
    roundtrip::law_uint16_round_trip(r, bits);
    assert(records::layer_count(bytes::i16_of_bits(bits)) == 0);
}

proof fn lemma_no_layer_part(
    r: ReaderState,
    h: Header,
    piece: Seq<u8>,
    global_alpha: bool,
    options: WriteOptions,
    psb: bool,
)
    requires
        r.buffer.len() <= usize::MAX,
        piece.len() < 0x1_0000_0000,
        r.large == psb,
        psb == document_writer::wants_psb(options),
        h.color_mode == ColorMode::Rgb,
        h.bits_per_channel == 8,
        layer_writer::is_layer_info(piece, Seq::empty(), global_alpha, options, psb),
        bytes::holds_at(r.buffer, r.offset, piece),
    ensures
        document::get_layer_part(r, h) matches Ok((_, after)) && after.budget == r.budget,
{
    reveal(layer_writer::is_layer_info);
    reveal(document::get_layer_part);
    let none = Seq::<LayerView>::empty();
    lemma_layer_part_reads_back(r, h, piece, none, global_alpha, options, psb);
    let ds = choose|ds: Seq<LayerChannelView>| #[trigger]
        layer_writer::codes_layers(ds, none, options, psb) && piece == writer::section_bytes(
            layer_writer::layer_info_body(ds, global_alpha, psb),
            4,
            true,
            psb,
        );
    let body = layer_writer::layer_info_body(ds, global_alpha, psb);
    bytes::lemma_holds_at_room(r.buffer, r.offset, piece);
    assert(0 <= bytes::padding(body.len() as int, 4) < 4);
    roundtrip::law_section_round_trip(r, body, 4, true, psb, true);
    lemma_no_layers(r.at(r.offset + roundtrip::length_size(psb)), ds, global_alpha, psb);
}

proof fn lemma_no_layer_section(
    r: ReaderState,
    h: Header,
    psd: PsdView,
    options: WriteOptions,
    piece: Seq<u8>,
    psb: bool,
)
    requires
        r.buffer.len() <= usize::MAX,
        document_writer::layer_section_body(psd, piece, psb).len() < 0x1_0000_0000,
        r.large == psb,
        psb == document_writer::wants_psb(options),
        h.color_mode == ColorMode::Rgb,
        h.bits_per_channel == 8,
        document_distinct(psd, options),
        psd.children is None,
        layer_writer::is_layer_info(
            piece,
            Seq::empty(),
            document_writer::document_alpha(psd, options),
            options,
            psb,
        ),
        bytes::holds_at(
            r.buffer,
            r.offset,
            writer::section_bytes(
                document_writer::layer_section_body(psd, piece, psb),
                2,
                false,
                psb,
            ),
        ),
    ensures
        document::get_layer_section(r, h) matches Ok((_, after)) && after.budget == r.budget,
{
    reveal(document::get_layer_section);
    reveal(document::get_layer_section_body);
    let body = document_writer::layer_section_body(psd, piece, psb);
    let whole = writer::section_bytes(body, 2, false, psb);
    let alpha = document_writer::document_alpha(psd, options);
    assert(document_writer::written_layers(psd, options) =~= Seq::<LayerView>::empty());
    lemma_layer_section_reads_back(r, h, psd, options, piece, psb);
    bytes::lemma_holds_at_room(r.buffer, r.offset, whole);
    assert(body.len() <= whole.len());
    roundtrip::law_section_round_trip(r, body, 2, false, psb, true);
    let r1 = r.at(r.offset + roundtrip::length_size(psb));
    let global = writer::section_bytes(
        mask::global_mask_body(psd.global_layer_mask_info),
        1,
        false,
        false,
    );
    let blocks = info::info_bytes(psd.additional_info, psb);
    bytes::lemma_holds_at_split(r.buffer, r1.offset, piece, global + blocks);
    bytes::lemma_holds_at_split(r.buffer, r1.offset + piece.len(), global, blocks);
    lemma_layer_part_reads_back(r1, h, piece, Seq::empty(), alpha, options, psb);
    lemma_no_layer_part(r1, h, piece, alpha, options, psb);
    assert(global.len() >= 4);
    match document::get_layer_part(r1, h) {
        Err(_) => {},
        Ok((children, r2)) => {
            mask::law_global_mask_round_trip(r2, psd.global_layer_mask_info);
            let r3 = r2.at(r2.offset + global.len());
            lemma_document_info_reads_back(r3, h, children, psd.additional_info, psb);
        },
    }
}

/// The file of a document without layers gives its composite image back where the
/// memory limit leaves room for it: the same pixels, where each of them is opaque or
/// fully transparent. This holds of any document without layers, whatever else it has.
pub proof fn law_flat_document_round_trip(
    data: Seq<u8>,
    psd: PsdView,
    options: WriteOptions,
    settings: ReadOptions,
    p: PixelDataView,
)
    requires
        document_writer::writable(psd, options),
        document_writer::is_document(data, psd, options),
        data.len() <= usize::MAX,
        sections_fit(psd, options),
        psd.width <= 300000,
        psd.height <= 300000,
        psd.children is None,
        document_info_distinct(psd.additional_info),
        document_writer::document_image(psd, options) == Some(p),
        settings.use_raw_data != Some(true),
        settings.skip_composite_image_data != Some(true),
        settings.total_memory_limit matches Some(limit) ==> image_memory(psd, options) <= limit,
    ensures
        match document::parsed_psd(data, settings) {
            Ok(found) => {
                let image = Some(stored_image(psd, options));
                &&& found.width == psd.width
                &&& found.height == psd.height
                &&& found.bits_per_channel == Some(8u16)
                &&& found.color_mode == Some(ColorMode::Rgb)
                &&& found.children == Some(Seq::<LayerView>::empty())
                &&& found.raw_composite_data is None
                &&& if settings.use_image_data == Some(true) {
                    found.image_data == image && found.canvas is None
                } else {
                    found.canvas == image && found.image_data is None
                }
            },
            Err(_) => false,
        },
        clear_cut(p) ==> stored_image(psd, options) == (PixelDataView {
            data: p.data.take(p.size()),
            ..p
        }),
{
    let psb = document_writer::wants_psb(options);
    law_composite_round_trip(data, psd, options, settings, p);
    let layers = choose|layers: Seq<u8>| #[trigger]
        layer_writer::is_layer_info(
            layers,
            document_writer::written_layers(psd, options),
            document_writer::document_alpha(psd, options),
            options,
            psb,
        ) && data == document_writer::document_bytes(psd, options, layers);
    let r = document::reader_with(data, settings);
    let h = document_writer::written_header(psd, options);
    let head = header::header_bytes(h);
    let colors = palette::palette_bytes(psd.palette);
    let list = document_writer::written_resources(psd);
    let blocks = resources::resources_bytes(list);
    let section = writer::section_bytes(
        document_writer::layer_section_body(psd, layers, psb),
        2,
        false,
        psb,
    );
    let image = document_writer::image_bytes(psd, options);
    bytes::lemma_piece_holds(data, Seq::empty(), data, Seq::empty());
    bytes::lemma_holds_at_split(data, 0, head, colors + (blocks + (section + image)));
    header::law_header_round_trip(r, h);
    let r1 = ReaderState { large: psb, global_alpha: false, ..r.at(head.len() as int) };
    bytes::lemma_holds_at_split(data, r1.offset, colors, blocks + (section + image));
    palette::law_palette_round_trip(r1, psd.palette, ColorMode::Rgb);
    let r2 = r1.at(r1.offset + colors.len());
    bytes::lemma_holds_at_split(data, r2.offset, blocks, section + image);
    lemma_resources_small(list);
    resources::law_resources_round_trip(r2, list);
    let r3 = r2.at(r2.offset + blocks.len());
    bytes::lemma_holds_at_split(data, r3.offset, section, image);
    lemma_layer_section_reads_back(r3, h, psd, options, layers, psb);
    assert(document_writer::written_layers(psd, options) =~= Seq::<LayerView>::empty());
    lemma_no_layer_section(r3, h, psd, options, layers, psb);
    match document::get_layer_section(r3, h) {
        Err(_) => {},
        Ok((_, r4)) => {
            lemma_image_reads_back(r4, h, psd, options, psb);
        },
    }
}

/// A document that has an image and nothing else.
pub open spec fn image_document(p: PixelDataView) -> PsdView {
    PsdView { width: p.width, height: p.height, image_data: Some(p), ..psd::empty_psd() }
}

/// The sections of a document that has an image and nothing else are short.
proof fn lemma_short_sections(p: PixelDataView, options: WriteOptions)
    ensures
        sections_fit(image_document(p), options),
{
    let psd = image_document(p);
    let psb = document_writer::wants_psb(options);
    let alpha = document_writer::document_alpha(psd, options);
    let none = Seq::<LayerView>::empty();
    assert(document_writer::written_layers(psd, options) =~= none);
    assert(resources::resource_pieces(document_writer::written_resources(psd)) =~= Seq::<
        Seq<u8>,
    >::empty());
    assert(info::block_pieces(psd.additional_info.blocks, psb) =~= Seq::<Seq<u8>>::empty());
    assert forall|layers: Seq<u8>| #[trigger]
        layer_writer::is_layer_info(
            layers,
            none,
            alpha,
            options,
            psb,
        ) implies document_writer::layer_section_body(psd, layers, psb).len()
        < 0x1_0000_0000 by {
        reveal(layer_writer::is_layer_info);
        let ds = choose|ds: Seq<LayerChannelView>| #[trigger]
            layer_writer::codes_layers(ds, none, options, psb) && layers == writer::section_bytes(
                layer_writer::layer_info_body(ds, alpha, psb),
                4,
                true,
                psb,
            );
        assert(layer_writer::record_pieces(ds, psb) =~= Seq::<Seq<u8>>::empty());
        assert(layer_writer::pixel_pieces(ds) =~= Seq::<Seq<u8>>::empty());
        assert(layer_writer::layer_info_body(ds, alpha, psb).len() == 2);
        assert(bytes::padding(2, 4) <= 4);
        assert(bytes::padding(0, 1) <= 1);
    }
}

/// The file of a document that has an image and nothing else gives that image back
/// where the memory limit leaves room for it: the same pixels, where each of them is
/// opaque or fully transparent.
pub proof fn law_image_document_round_trip(
    data: Seq<u8>,
    p: PixelDataView,
    options: WriteOptions,
    settings: ReadOptions,
)
    requires
        document_writer::writable(image_document(p), options),
        document_writer::is_document(data, image_document(p), options),
        data.len() <= usize::MAX,
        p.width <= 300000,
        p.height <= 300000,
        settings.use_raw_data != Some(true),
        settings.skip_composite_image_data != Some(true),
        settings.total_memory_limit matches Some(limit) ==> image_memory(
            image_document(p),
            options,
        ) <= limit,
    ensures
        match document::parsed_psd(data, settings) {
            Ok(found) => {
                let image = Some(stored_image(image_document(p), options));
                &&& found.width == p.width
                &&& found.height == p.height
                &&& found.bits_per_channel == Some(8u16)
                &&& found.color_mode == Some(ColorMode::Rgb)
                &&& found.children == Some(Seq::<LayerView>::empty())
                &&& found.raw_composite_data is None
                &&& if settings.use_image_data == Some(true) {
                    found.image_data == image && found.canvas is None
                } else {
                    found.canvas == image && found.image_data is None
                }
            },
            Err(_) => false,
        },
        clear_cut(p) ==> stored_image(image_document(p), options) == (PixelDataView {
            data: p.data.take(p.size()),
            ..p
        }),
{
    lemma_short_sections(p, options);
    law_flat_document_round_trip(data, image_document(p), options, settings, p);
}

/// A layer that was kept as it is stored decodes to the layer that was written, as
/// far as the format can hold it.
pub proof fn law_kept_layer_round_trip(
    d: LayerChannelView,
    l: LayerView,
    background: bool,
    options: WriteOptions,
    use_image_data: bool,
)
    requires
        layer_readable(l, options, document_writer::wants_psb(options)),
        channels::written_raw(l, document_writer::wants_psb(options)) is None,
        channels::codes_layer(d, l, background, options, document_writer::wants_psb(options)),
        bytes::concat(record_writer::channel_pieces(d.channels)).len() < 0x1_0000_0000,
        bytes::concat(record_writer::channel_pieces(d.channels)).len() <= usize::MAX,
    ensures
        ({
            let psb = document_writer::wants_psb(options);
            let kept = layer_laws::raw_layer(l, background, options, psb);
            &&& lazy::undecoded(kept)
            &&& decode::decoded_layer(kept, use_image_data, None) == Ok::<
                (LayerView, Option<usize>),
                ErrorView,
            >((layer_laws::stored_layer(l, options, use_image_data, psb), None))
        }),
{
    let psb = document_writer::wants_psb(options);
    lemma_record_distinct(d, l, background, options, psb);
    lemma_lengths_stated(d, l, background, options, psb);
    layer_laws::lemma_raw_layer(d, l, background, options, psb);
    reveal(layer_readable);
    layer_laws::law_layer_pixels_round_trip(
        d,
        l,
        background,
        options,
        psb,
        use_image_data,
        None,
    );
    reveal(layer_laws::bare_layer);
}

/// A layer that was kept as it is stored in one of the two formats is written in the
/// other with the pixels that it was written with at first, as far as the format can
/// hold them.
pub proof fn law_recoded_layer_round_trip(
    d: LayerChannelView,
    l: LayerView,
    background: bool,
    options: WriteOptions,
)
    requires
        layer_readable(l, options, document_writer::wants_psb(options)),
        channels::written_raw(l, document_writer::wants_psb(options)) is None,
        channels::codes_layer(d, l, background, options, document_writer::wants_psb(options)),
        bytes::concat(record_writer::channel_pieces(d.channels)).len() < 0x1_0000_0000,
        bytes::concat(record_writer::channel_pieces(d.channels)).len() <= usize::MAX,
    ensures
        ({
            let psb = document_writer::wants_psb(options);
            recode::recoded(layer_laws::raw_layer(l, background, options, psb), !psb)
                == layer_laws::stored_layer(l, options, false, psb)
        }),
{
    law_kept_layer_round_trip(d, l, background, options, false);
    reveal(layer_laws::bare_layer);
}

/// A composite image that was kept as it is stored decodes to the image that comes
/// back where it is decoded at once.
pub proof fn law_kept_composite_round_trip(
    psd: PsdView,
    options: WriteOptions,
    settings: ReadOptions,
)
    requires
        document_writer::writable(psd, options),
        document_writer::kept_composite(psd, options) is None,
        psd.width <= 300000,
        psd.height <= 300000,
        raw_composite(psd, options).data.len() <= usize::MAX,
        settings.use_raw_data == Some(true),
        !document::composite_skipped(settings, Some(stored_children(psd, options, settings))),
    ensures
        lazy::stored_composite_image(stored_psd(psd, options, settings)) == Ok::<
            Option<PixelDataView>,
            ErrorView,
        >(Some(stored_image(psd, options))),
{
    let psb = document_writer::wants_psb(options);
    let raw = raw_composite(psd, options);
    let r = lazy::composite_reader(raw);
    let h = document_writer::written_header(psd, options);
    bytes::lemma_piece_holds(raw.data, Seq::empty(), raw.data, Seq::empty());
    lemma_image_reads_back(r, h, psd, options, psb);
}

proof fn lemma_resources_small(list: Seq<psd::ResourceBlockView>)
    ensures
        resources::resources_body(list).len() <= resources::resources_bytes(list).len(),
{
}

} // verus!
