//! Writing the layers of a document.

use vstd::prelude::*;

use crate::bytes;
use crate::channels;
use crate::channels::{LayerChannelData, LayerChannelView};
use crate::info;
use crate::psd::{Layer, LayerMaskData, LayerMaskView, LayerView, PixelData, PixelDataView,
    WriteOptions};
use crate::record_writer;
use crate::rle;
use crate::writer;
use crate::writer::PsdWriter;

verus! {

broadcast use crate::bytes::group_bytes;

/// How much room it takes to code one channel of some pixels.
pub open spec fn image_scratch(p: Option<PixelDataView>, psb: bool) -> int {
    match p {
        Some(p) => bytes::clamp_offset(
            rle::scratch_size(p.width as int, p.height as int, 1, psb),
        ),
        None => 0,
    }
}

/// How much room it takes to code one channel of a mask.
pub open spec fn mask_scratch(m: Option<LayerMaskView>, psb: bool) -> int {
    match m {
        Some(m) => image_scratch(channels::mask_image(m), psb),
        None => 0,
    }
}

/// The larger of two numbers.
pub open spec fn larger(a: int, b: int) -> int {
    if a < b {
        b
    } else {
        a
    }
}

/// How much room it takes to code one channel of a layer or of one of its masks.
pub open spec fn layer_scratch(l: LayerView, psb: bool) -> int {
    larger(
        image_scratch(channels::layer_image(l), psb),
        larger(
            mask_scratch(l.additional_info.mask, psb),
            mask_scratch(l.additional_info.real_mask, psb),
        ),
    )
}

/// How much room it takes to code any channel of some layers.
pub open spec fn largest_scratch(layers: Seq<LayerView>, psb: bool) -> int
    decreases layers.len(),
{
    if layers.len() == 0 {
        0
    } else {
        larger(largest_scratch(layers.drop_last(), psb), layer_scratch(layers.last(), psb))
    }
}

/// Room for the largest layer is room for every layer.
pub proof fn lemma_largest_scratch(layers: Seq<LayerView>, i: int, temp_buffer: Seq<u8>, psb: bool)
    requires
        0 <= i < layers.len(),
        temp_buffer.len() >= largest_scratch(layers, psb),
    ensures
        channels::layer_has_room(temp_buffer, layers[i], psb),
    decreases layers.len(),
{
    if i < layers.len() - 1 {
        lemma_largest_scratch(layers.drop_last(), i, temp_buffer, psb);
    }
}

fn room_for_image(image: Option<&PixelData>, psb: bool) -> (size: usize)
    ensures
        size == image_scratch(
            match image {
                Some(p) => Some(p.deep_view()),
                None => None,
            },
            psb,
        ),
{
    match image {
        Some(p) => rle::rle_scratch_size(p.width, p.height, 1, psb),
        None => 0,
    }
}

fn room_for_mask(mask: &Option<LayerMaskData>, psb: bool) -> (size: usize)
    ensures
        size == mask_scratch(mask.deep_view(), psb),
{
    match mask {
        Some(m) => room_for_image(channels::chosen_image(&m.canvas, &m.image_data), psb),
        None => 0,
    }
}

/// How much room it takes to code any channel of some layers and of their masks.
pub fn get_largest_layer_size(layers: &Vec<Layer>, psb: bool) -> (size: usize)
    ensures
        size == largest_scratch(layers.deep_view(), psb),
{
    let ghost view = layers.deep_view();
    let mut size: usize = 0;
    let mut i: usize = 0;
    assert(view.take(0) =~= Seq::<LayerView>::empty());
    while i < layers.len()
        invariant
            i <= layers@.len(),
            view == layers.deep_view(),
            size == largest_scratch(view.take(i as int), psb),
        decreases layers@.len() - i,
    {
        let l: &Layer = &layers[i];
        let pixels: usize = room_for_image(
            channels::chosen_image(&l.canvas, &l.image_data),
            psb,
        );
        let mask: usize = room_for_mask(&l.additional_info.mask, psb);
        let real_mask: usize = room_for_mask(&l.additional_info.real_mask, psb);
        assert(view.take(i + 1).drop_last() =~= view.take(i as int));
        assert(view[i as int] == l.deep_view());
        if pixels > size {
            size = pixels;
        }
        if mask > size {
            size = mask;
        }
        if real_mask > size {
            size = real_mask;
        }
        i += 1;
    }
    assert(view.take(i as int) =~= view);
    size
}

/// Every layer can be written.
pub open spec fn layers_fit(layers: Seq<LayerView>) -> bool {
    forall|i: int|
        0 <= i < layers.len() ==> channels::layer_fits(#[trigger] layers[i]) && info::divider_wf(
            layers[i].additional_info,
        )
}

/// `ds` is what is written of some layers; the lowest is the background.
pub open spec fn codes_layers(
    ds: Seq<LayerChannelView>,
    layers: Seq<LayerView>,
    options: WriteOptions,
    psb: bool,
) -> bool {
    &&& ds.len() == layers.len()
    &&& forall|i: int|
        0 <= i < ds.len() ==> channels::codes_layer(
            #[trigger] ds[i],
            layers[i],
            i == 0,
            options,
            psb,
        )
}

/// The number of layers, negative where the composite image has a transparency
/// channel, in two bytes.
pub open spec fn count_bits(n: int, global_alpha: bool) -> u16 {
    if global_alpha && n % 0x1_0000 != 0 {
        (0x1_0000 - n % 0x1_0000) as u16
    } else {
        (n % 0x1_0000) as u16
    }
}

/// The records of some layers, one by one.
pub open spec fn record_pieces(ds: Seq<LayerChannelView>, psb: bool) -> Seq<Seq<u8>> {
    Seq::new(ds.len(), |i: int| record_writer::record_bytes(ds[i], psb))
}

/// The channels of some layers, layer by layer.
pub open spec fn pixel_pieces(ds: Seq<LayerChannelView>) -> Seq<Seq<u8>> {
    Seq::new(
        ds.len(),
        |i: int| bytes::concat(record_writer::channel_pieces(ds[i].channels)),
    )
}

/// The layers of a document: their number, their records, their channels.
pub open spec fn layer_info_body(ds: Seq<LayerChannelView>, global_alpha: bool, psb: bool) -> Seq<
    u8,
> {
    bytes::u16_bytes(count_bits(ds.len() as int, global_alpha)) + (bytes::concat(
        record_pieces(ds, psb),
    ) + bytes::concat(pixel_pieces(ds)))
}

/// The operation appended `piece`; what is in the scratch buffer may have changed.
pub open spec fn wrote_with_scratch(before: PsdWriter, after: PsdWriter, piece: Seq<u8>) -> bool {
    &&& after.wf()
    &&& after.data() == before.data() + piece
    &&& after.offset == before.offset + piece.len()
    &&& after.buffer@.len() == bytes::grown(before.buffer@.len() as int, after.offset as int)
    &&& scratch_len(after) == scratch_len(before)
}

/// How large the scratch buffer is.
pub open spec fn scratch_len(writer: PsdWriter) -> int {
    match writer.temp_buffer {
        Some(temp) => temp@.len() as int,
        None => 0,
    }
}

fn code_layers(
    temp_buffer: &mut Vec<u8>,
    layers: &Vec<Layer>,
    options: &WriteOptions,
    psb: bool,
) -> (coded: Vec<LayerChannelData>)
    requires
        layers_fit(layers.deep_view()),
        old(temp_buffer)@.len() >= largest_scratch(layers.deep_view(), psb),
    ensures
        codes_layers(coded.deep_view(), layers.deep_view(), *options, psb),
        final(temp_buffer)@.len() == old(temp_buffer)@.len(),
{
    let ghost view = layers.deep_view();
    let mut coded: Vec<LayerChannelData> = Vec::new();
    let mut i: usize = 0;
    while i < layers.len()
        invariant
            i <= layers@.len(),
            i == coded@.len(),
            view == layers.deep_view(),
            layers_fit(view),
            temp_buffer@.len() == old(temp_buffer)@.len(),
            temp_buffer@.len() >= largest_scratch(view, psb),
            forall|j: int|
                0 <= j < i ==> channels::codes_layer(
                    (#[trigger] coded@[j]).deep_view(),
                    view[j],
                    j == 0,
                    *options,
                    psb,
                ),
        decreases layers@.len() - i,
    {
        proof {
            lemma_largest_scratch(view, i as int, temp_buffer@, psb);
            assert(view[i as int] == layers@[i as int].deep_view());
        }
        let d: LayerChannelData = channels::get_channels(
            temp_buffer,
            &layers[i],
            i == 0,
            options,
            psb,
        );
        coded.push(d);
        i += 1;
    }
    assert forall|j: int| 0 <= j < coded@.len() implies channels::codes_layer(
        #[trigger] coded.deep_view()[j],
        view[j],
        j == 0,
        *options,
        psb,
    ) by {
        assert(coded.deep_view()[j] == coded@[j].deep_view());
    }
    coded
}

fn write_records(writer: &mut PsdWriter, ds: &Vec<LayerChannelData>, psb: bool)
    requires
        old(writer).wf(),
        forall|i: int|
            0 <= i < ds@.len() ==> info::divider_wf(
                (#[trigger] ds@[i]).layer.deep_view().additional_info,
            ),
    ensures
        writer::wrote(
            *old(writer),
            *final(writer),
            bytes::concat(record_pieces(ds.deep_view(), psb)),
        ),
{
    let ghost view = ds.deep_view();
    let ghost pieces = record_pieces(view, psb);
    let ghost base = writer.data();
    let mut i: usize = 0;
    assert(pieces.take(0) =~= Seq::<Seq<u8>>::empty());
    assert(base + bytes::concat(pieces.take(0)) =~= base);
    while i < ds.len()
        invariant
            i <= ds@.len(),
            view == ds.deep_view(),
            pieces == record_pieces(view, psb),
            forall|j: int|
                0 <= j < ds@.len() ==> info::divider_wf(
                    (#[trigger] ds@[j]).layer.deep_view().additional_info,
                ),
            writer.wf(),
            writer.temp_buffer == old(writer).temp_buffer,
            writer::grew(*old(writer), *writer),
            writer.data() == base + bytes::concat(pieces.take(i as int)),
        decreases ds@.len() - i,
    {
        record_writer::write_layer_record(writer, &ds[i], psb);
        proof {
            bytes::lemma_concat_take(pieces, i as int);
            assert(pieces[i as int] == record_writer::record_bytes(ds@[i as int].deep_view(), psb));
            assert(writer.data() =~= base + bytes::concat(pieces.take(i + 1)));
        }
        i += 1;
    }
    assert(pieces.take(i as int) =~= pieces);
    assert(writer.data().len() == writer.offset);
    assert(base.len() == old(writer).offset);
}

fn write_pixels(writer: &mut PsdWriter, ds: &Vec<LayerChannelData>)
    requires
        old(writer).wf(),
    ensures
        writer::wrote(
            *old(writer),
            *final(writer),
            bytes::concat(pixel_pieces(ds.deep_view())),
        ),
{
    let ghost view = ds.deep_view();
    let ghost pieces = pixel_pieces(view);
    let ghost base = writer.data();
    let mut i: usize = 0;
    assert(pieces.take(0) =~= Seq::<Seq<u8>>::empty());
    assert(base + bytes::concat(pieces.take(0)) =~= base);
    while i < ds.len()
        invariant
            i <= ds@.len(),
            view == ds.deep_view(),
            pieces == pixel_pieces(view),
            writer.wf(),
            writer.temp_buffer == old(writer).temp_buffer,
            writer::grew(*old(writer), *writer),
            writer.data() == base + bytes::concat(pieces.take(i as int)),
        decreases ds@.len() - i,
    {
        record_writer::write_channels(writer, &ds[i].channels);
        proof {
            bytes::lemma_concat_take(pieces, i as int);
            assert(pieces[i as int] == bytes::concat(
                record_writer::channel_pieces(ds@[i as int].channels.deep_view()),
            ));
            assert(writer.data() =~= base + bytes::concat(pieces.take(i + 1)));
        }
        i += 1;
    }
    assert(pieces.take(i as int) =~= pieces);
    assert(writer.data().len() == writer.offset);
    assert(base.len() == old(writer).offset);
}

/// `data` is a section with some layers.
#[verifier::opaque]
pub open spec fn is_layer_info(
    data: Seq<u8>,
    layers: Seq<LayerView>,
    global_alpha: bool,
    options: WriteOptions,
    psb: bool,
) -> bool {
    exists|ds: Seq<LayerChannelView>| #[trigger]
        codes_layers(ds, layers, options, psb) && data == writer::section_bytes(
            layer_info_body(ds, global_alpha, psb),
            4,
            true,
            psb,
        )
}

/// There is one way to code some layers.
proof fn lemma_one_code(
    a: Seq<LayerChannelView>,
    b: Seq<LayerChannelView>,
    layers: Seq<LayerView>,
    options: WriteOptions,
    psb: bool,
)
    requires
        codes_layers(a, layers, options, psb),
        codes_layers(b, layers, options, psb),
    ensures
        a == b,
{
    let compress = options.compress == Some(true);
    assert forall|i: int| 0 <= i < a.len() implies #[trigger] a[i] == b[i] by {
        let plan = channels::channel_plan(layers[i], i == 0, options, psb);
        assert(channels::codes_layer(a[i], layers[i], i == 0, options, psb));
        assert(channels::codes_layer(b[i], layers[i], i == 0, options, psb));
        assert forall|k: int| 0 <= k < plan.len() implies #[trigger] a[i].channels[k]
            == b[i].channels[k] by {
            assert(channels::codes(a[i].channels[k], plan[k], compress, psb));
            assert(channels::codes(b[i].channels[k], plan[k], compress, psb));
        }
        assert(a[i].channels =~= b[i].channels);
    }
    assert(a =~= b);
}

/// There is one part about some layers.
pub proof fn law_one_layer_info(
    a: Seq<u8>,
    b: Seq<u8>,
    layers: Seq<LayerView>,
    global_alpha: bool,
    options: WriteOptions,
    psb: bool,
)
    requires
        is_layer_info(a, layers, global_alpha, options, psb),
        is_layer_info(b, layers, global_alpha, options, psb),
    ensures
        a == b,
{
    reveal(is_layer_info);
    let first = choose|ds: Seq<LayerChannelView>| #[trigger]
        codes_layers(ds, layers, options, psb) && a == writer::section_bytes(
            layer_info_body(ds, global_alpha, psb),
            4,
            true,
            psb,
        );
    let second = choose|ds: Seq<LayerChannelView>| #[trigger]
        codes_layers(ds, layers, options, psb) && b == writer::section_bytes(
            layer_info_body(ds, global_alpha, psb),
            4,
            true,
            psb,
        );
    lemma_one_code(first, second, layers, options, psb);
}

/// Writes the records and channels of some layers.
#[verifier::spinoff_prover]
#[verifier::rlimit(40)]
pub fn write_layer_info(
    writer: &mut PsdWriter,
    layers: &Vec<Layer>,
    global_alpha: bool,
    options: &WriteOptions,
    psb: bool,
)
    requires
        old(writer).wf(),
        layers_fit(layers.deep_view()),
        scratch_len(*old(writer)) >= largest_scratch(layers.deep_view(), psb),
    ensures
        exists|piece: Seq<u8>| #[trigger]
            is_layer_info(piece, layers.deep_view(), global_alpha, *options, psb)
                && wrote_with_scratch(*old(writer), *final(writer), piece),
{
    reveal(is_layer_info);
    let ghost view = layers.deep_view();
    let ghost base = writer.data();
    assert(base.len() == writer.offset);
    let start: usize = writer::begin_section(writer, psb);
    let ghost open = writer.data();
    assert(open.len() == writer.offset);
    let n: usize = layers.len() % 0x1_0000;
    let count: u16 = if global_alpha && n != 0 {
        (0x1_0000 - n) as u16
    } else {
        n as u16
    };
    writer::write_uint16(writer, count);
    let mut temp_buffer: Vec<u8> = match writer.temp_buffer.take() {
        Some(temp) => temp,
        None => Vec::new(),
    };
    let ds: Vec<LayerChannelData> = code_layers(&mut temp_buffer, layers, options, psb);
    writer.temp_buffer = Some(temp_buffer);
    let ghost coded = ds.deep_view();
    proof {
        assert forall|i: int| 0 <= i < ds@.len() implies info::divider_wf(
            (#[trigger] ds@[i]).layer.deep_view().additional_info,
        ) by {
            assert(coded[i] == ds@[i].deep_view());
            assert(channels::codes_layer(coded[i], view[i], i == 0, *options, psb));
            assert(channels::layer_fits(view[i]));
        }
    }
    write_records(writer, &ds, psb);
    write_pixels(writer, &ds);
    let ghost body = layer_info_body(coded, global_alpha, psb);
    assert(writer.data() =~= open + body);
    assert(writer.data().len() == writer.offset);
    writer::end_section(writer, start, 4, true);
    proof {
        writer::lemma_section_written(base, body, 4, true, psb);
        assert(writer.data().len() == writer.offset);
        let piece = writer::section_bytes(body, 4, true, psb);
        assert(is_layer_info(piece, view, global_alpha, *options, psb));
        assert(wrote_with_scratch(*old(writer), *writer, piece));
    }
}

} // verus!
